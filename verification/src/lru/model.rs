//! The abstract model of the cache: a sequence of records in recency
//! order (most recent first), together with the pure transition
//! functions that the executable operations are proved against and the
//! laws that relate those transitions.

use vstd::prelude::*;

verus! {

/// One cache entry as the model sees it: the key, the value, and the
/// second counter taken at creation or last refresh.
pub struct Rec<K, V> {
    pub key: K,
    pub data: V,
    pub ts: u64,
}

/// An entry stamped at `ts` is stale at `now` when at least `timeout`
/// seconds have passed.
pub open spec fn expired(ts: u64, timeout: u64, now: u64) -> bool {
    ts + timeout <= now
}

/// Whether some record carries a key with view `kv`.
pub open spec fn has_key<K: View, V>(recs: Seq<Rec<K, V>>, kv: <K as View>::V) -> bool {
    exists|i: int| 0 <= i < recs.len() && (#[trigger] recs[i]).key@ == kv
}

/// The index of the record carrying a key with view `kv`; meaningful
/// only when `has_key` holds and the keys are distinct.
pub open spec fn key_index<K: View, V>(recs: Seq<Rec<K, V>>, kv: <K as View>::V) -> int {
    choose|i: int| 0 <= i < recs.len() && (#[trigger] recs[i]).key@ == kv
}

/// No two records carry keys with the same view.
pub open spec fn distinct_keys<K: View, V>(recs: Seq<Rec<K, V>>) -> bool {
    forall|i: int, j: int|
        0 <= i < recs.len() && 0 <= j < recs.len() && i != j ==> (#[trigger] recs[i]).key@ != (
        #[trigger] recs[j]).key@
}

/// The record at index `i`, moved to the front with its value replaced
/// by `data` and its stamp refreshed to `now`.
pub open spec fn refreshed<K, V>(recs: Seq<Rec<K, V>>, i: int, data: V, now: u64) -> Seq<
    Rec<K, V>,
> {
    seq![Rec { key: recs[i].key, data, ts: now }] + recs.remove(i)
}

/// The effect of a lookup at `now`: on a miss or on a stale entry the
/// state is unchanged and the result absent; on a fresh entry the
/// record moves to the front with its stamp refreshed and its value is
/// returned.
pub open spec fn spec_get<K: View, V>(
    recs: Seq<Rec<K, V>>,
    kv: <K as View>::V,
    timeout: u64,
    now: u64,
) -> (Seq<Rec<K, V>>, Option<V>) {
    if !has_key(recs, kv) {
        (recs, None)
    } else {
        let i = key_index(recs, kv);
        if expired(recs[i].ts, timeout, now) {
            (recs, None)
        } else {
            (refreshed(recs, i, recs[i].data, now), Some(recs[i].data))
        }
    }
}

/// The effect of an insertion at `now` on the records. A present key
/// has its value replaced, its stamp refreshed and its record moved to
/// the front, returning the old value; otherwise, if the least
/// recently used record is stale, it is overwritten in place of an
/// allocation and its old value returned; otherwise a fresh record is
/// pushed at the front and nothing is returned.
pub open spec fn spec_put<K: View, V>(
    recs: Seq<Rec<K, V>>,
    k: K,
    v: V,
    timeout: u64,
    now: u64,
) -> (Seq<Rec<K, V>>, Option<V>) {
    if has_key(recs, k@) {
        let i = key_index(recs, k@);
        (refreshed(recs, i, v, now), Some(recs[i].data))
    } else if recs.len() > 0 && expired(recs.last().ts, timeout, now) {
        (seq![Rec { key: k, data: v, ts: now }] + recs.drop_last(), Some(recs.last().data))
    } else {
        (seq![Rec { key: k, data: v, ts: now }] + recs, None)
    }
}

/// The capacity after an insertion: it grows by one segment unit
/// exactly when the key is new, no stale record could be recycled, and
/// every slot is in use.
pub open spec fn spec_put_cap<K: View, V>(
    recs: Seq<Rec<K, V>>,
    cap: int,
    unit: int,
    kv: <K as View>::V,
    timeout: u64,
    now: u64,
) -> int {
    if has_key(recs, kv) || (recs.len() > 0 && expired(recs.last().ts, timeout, now)) || recs.len()
        < cap {
        cap
    } else {
        cap + unit
    }
}

/// How many records an expiry sweep at `now` keeps: the sweep walks
/// from the least recent end and removes records while they are stale,
/// stopping at the first fresh one.
pub open spec fn keep_count<K, V>(recs: Seq<Rec<K, V>>, timeout: u64, now: u64) -> int
    decreases recs.len(),
{
    if recs.len() == 0 {
        0
    } else if !expired(recs.last().ts, timeout, now) {
        recs.len() as int
    } else {
        keep_count(recs.drop_last(), timeout, now)
    }
}

/// An expiry sweep keeps between none and all of the records.
pub proof fn lemma_keep_count_bounds<K, V>(recs: Seq<Rec<K, V>>, timeout: u64, now: u64)
    ensures
        0 <= keep_count(recs, timeout, now) <= recs.len(),
    decreases recs.len(),
{
    if recs.len() > 0 && expired(recs.last().ts, timeout, now) {
        lemma_keep_count_bounds(recs.drop_last(), timeout, now);
    }
}

/// Moving a record to the front with a fresh value keeps the keys
/// distinct.
proof fn lemma_refreshed_distinct<K: View, V>(recs: Seq<Rec<K, V>>, i: int, v: V, now: u64)
    requires
        distinct_keys(recs),
        0 <= i < recs.len(),
    ensures
        distinct_keys(refreshed(recs, i, v, now)),
{
    let out = refreshed(recs, i, v, now);
    assert forall|a: int, b: int|
        0 <= a < out.len() && 0 <= b < out.len() && a != b implies (#[trigger] out[a]).key@ != (
    #[trigger] out[b]).key@ by {
        let src_of = |x: int|
            if x == 0 {
                i
            } else if x <= i {
                x - 1
            } else {
                x
            };
        assert(out[a].key@ == recs[src_of(a)].key@);
        assert(out[b].key@ == recs[src_of(b)].key@);
        assert(src_of(a) != src_of(b));
    }
}

/// Prepending a record whose key is fresh keeps the keys distinct.
proof fn lemma_prepend_distinct<K: View, V>(recs: Seq<Rec<K, V>>, r: Rec<K, V>)
    requires
        distinct_keys(recs),
        !has_key(recs, r.key@),
    ensures
        distinct_keys(seq![r] + recs),
{
    let out = seq![r] + recs;
    assert forall|a: int, b: int|
        0 <= a < out.len() && 0 <= b < out.len() && a != b implies (#[trigger] out[a]).key@ != (
    #[trigger] out[b]).key@ by {
        if a == 0 {
            assert(out[b] == recs[b - 1]);
        } else if b == 0 {
            assert(out[a] == recs[a - 1]);
        } else {
            assert(out[a] == recs[a - 1]);
            assert(out[b] == recs[b - 1]);
        }
    }
}

/// An insertion leaves the keys distinct, and puts the inserted key
/// in front.
pub proof fn lemma_put_distinct<K: View, V>(
    recs: Seq<Rec<K, V>>,
    k: K,
    v: V,
    timeout: u64,
    t1: u64,
)
    requires
        distinct_keys(recs),
    ensures
        ({
            let (recs1, _) = spec_put(recs, k, v, timeout, t1);
            &&& distinct_keys(recs1)
            &&& recs1.len() > 0
            &&& recs1[0].key@ == k@
            &&& recs1[0].data == v
            &&& recs1[0].ts == t1
        }),
{
    let (recs1, _) = spec_put(recs, k, v, timeout, t1);
    if has_key(recs, k@) {
        let i = key_index(recs, k@);
        lemma_refreshed_distinct(recs, i, v, t1);
    } else if recs.len() > 0 && expired(recs.last().ts, timeout, t1) {
        let kept = recs.drop_last();
        assert(distinct_keys(kept)) by {
            assert(forall|a: int| 0 <= a < kept.len() ==> kept[a] == recs[a]);
        }
        assert(!has_key(kept, k@)) by {
            if has_key(kept, k@) {
                let a = choose|a: int| 0 <= a < kept.len() && (#[trigger] kept[a]).key@ == k@;
                assert(recs[a].key@ == k@);
            }
        }
        lemma_prepend_distinct(kept, Rec { key: k, data: v, ts: t1 });
    } else {
        lemma_prepend_distinct(recs, Rec { key: k, data: v, ts: t1 });
    }
}

/// A lookup of a key that sits in front, while it is fresh, returns
/// its value.
proof fn lemma_get_front<K: View, V>(recs: Seq<Rec<K, V>>, kv: <K as View>::V, timeout: u64, t2: u64)
    requires
        distinct_keys(recs),
        recs.len() > 0,
        recs[0].key@ == kv,
        !expired(recs[0].ts, timeout, t2),
    ensures
        spec_get(recs, kv, timeout, t2).1 == Some(recs[0].data),
{
    assert(has_key(recs, kv));
    let j = key_index(recs, kv);
    assert(0 <= j < recs.len() && recs[j].key@ == kv);
    if j != 0 {
        assert(recs[j].key@ != recs[0].key@);
    }
}

/// A value just stored is the value a lookup returns, as long as no
/// other operation intervenes and the time to live has not elapsed.
pub proof fn lemma_put_then_get<K: View, V>(
    recs: Seq<Rec<K, V>>,
    k: K,
    v: V,
    timeout: u64,
    t1: u64,
    t2: u64,
)
    requires
        distinct_keys(recs),
        !expired(t1, timeout, t2),
    ensures
        ({
            let (recs1, _) = spec_put(recs, k, v, timeout, t1);
            spec_get(recs1, k@, timeout, t2).1 == Some(v)
        }),
{
    let (recs1, _) = spec_put(recs, k, v, timeout, t1);
    lemma_put_distinct(recs, k, v, timeout, t1);
    lemma_get_front(recs1, k@, timeout, t2);
}

/// Storing twice under one key returns the first value from the
/// second store, and a later fresh lookup sees the second value.
pub proof fn lemma_put_put<K: View, V>(
    recs: Seq<Rec<K, V>>,
    k: K,
    v1: V,
    v2: V,
    timeout: u64,
    t1: u64,
    t2: u64,
    t3: u64,
)
    requires
        distinct_keys(recs),
        !expired(t2, timeout, t3),
    ensures
        ({
            let (recs1, _) = spec_put(recs, k, v1, timeout, t1);
            let (recs2, old2) = spec_put(recs1, k, v2, timeout, t2);
            &&& old2 == Some(v1)
            &&& spec_get(recs2, k@, timeout, t3).1 == Some(v2)
        }),
{
    let (recs1, _) = spec_put(recs, k, v1, timeout, t1);
    lemma_put_distinct(recs, k, v1, timeout, t1);
    let (recs2, old2) = spec_put(recs1, k, v2, timeout, t2);
    assert(has_key(recs1, k@));
    let j = key_index(recs1, k@);
    assert(0 <= j < recs1.len() && recs1[j].key@ == k@);
    if j != 0 {
        assert(recs1[j].key@ != recs1[0].key@);
    }
    assert(old2 == Some(v1));
    lemma_put_distinct(recs1, k, v2, timeout, t2);
    lemma_get_front(recs2, k@, timeout, t3);
}

/// Storing a new key leaves the capacity unchanged exactly when a
/// slot was free or the least recent record was stale.
pub proof fn lemma_put_capacity<K: View, V>(
    recs: Seq<Rec<K, V>>,
    cap: int,
    unit: int,
    kv: <K as View>::V,
    timeout: u64,
    now: u64,
)
    requires
        !has_key(recs, kv),
        unit >= 1,
    ensures
        (spec_put_cap(recs, cap, unit, kv, timeout, now) == cap) <==> (recs.len() < cap || (
        recs.len() > 0 && expired(recs.last().ts, timeout, now))),
{
}

/// When every record is stale, an expiry sweep keeps nothing.
pub proof fn lemma_evict_all_expired<K, V>(recs: Seq<Rec<K, V>>, timeout: u64, now: u64)
    requires
        forall|i: int| 0 <= i < recs.len() ==> expired((#[trigger] recs[i]).ts, timeout, now),
    ensures
        keep_count(recs, timeout, now) == 0,
    decreases recs.len(),
{
    if recs.len() > 0 {
        assert(recs.last() == recs[recs.len() - 1]);
        assert(forall|i: int| 0 <= i < recs.drop_last().len() ==> recs.drop_last()[i] == recs[i]);
        lemma_evict_all_expired(recs.drop_last(), timeout, now);
    }
}

} // verus!
