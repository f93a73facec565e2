//! Segmented node store with an intrusive recency list.
//!
//! Entry nodes live at stable `(segment, slot)` positions inside
//! fixed-capacity segments; a doubly-linked list threaded through the
//! nodes by handle orders them from most recently used (head) to least
//! recently used (tail). Handles stay valid across unrelated
//! insertions and removals, so the key index above never needs
//! rebuilding when the store grows.

use crate::keys::CacheKey;
use crate::lru::model::{distinct_keys, expired, has_key, keep_count, key_index, lemma_keep_count_bounds, refreshed, Rec};
use vstd::pervasive::arbitrary;
use vstd::prelude::*;

verus! {

/// A stable handle to an entry node: either the null sentinel or a
/// `(segment, slot)` position in the store. Equality is structural and
/// handles are never ordered.
#[derive(Debug, PartialEq, Eq, Structural, Copy, Clone)]
pub enum Pointer {
    Null,
    InternalPointer { slab: usize, pos: usize },
}

impl Pointer {
    /// The null sentinel.
    pub fn null() -> (p: Pointer)
        ensures
            p == Pointer::Null,
    {
        Pointer::Null
    }

    /// Returns `true` if this pointer is the null sentinel.
    pub fn is_null(&self) -> (r: bool)
        ensures
            r == (*self == Pointer::Null),
    {
        match *self {
            Pointer::Null => true,
            Pointer::InternalPointer { .. } => false,
        }
    }
}

/// One live cache entry: the key, the owned value, the second counter
/// taken at creation or last refresh, and the recency-list links.
pub struct Entry<K, V> {
    key: K,
    timestamp: u64,
    data: V,
    next: Pointer,
    prev: Pointer,
}

/// Reads the system clock as whole seconds since the Unix epoch.
///
/// Relies on `std::time::SystemTime::now`: the result is wherever the
/// wall clock stands, so nothing is promised of the value.
#[verifier::external_body]
pub(crate) fn unix_now() -> u64 {
    match std::time::SystemTime::now().duration_since(std::time::UNIX_EPOCH) {
        Ok(d) => d.as_secs(),
        Err(_) => 0,
    }
}

impl<K, V> Entry<K, V> {
    /// The key stored in this entry.
    pub closed spec fn spec_key(&self) -> K {
        self.key
    }

    /// The value stored in this entry.
    pub closed spec fn spec_data(&self) -> V {
        self.data
    }

    /// The second counter taken when the entry was created or last
    /// refreshed.
    pub closed spec fn spec_timestamp(&self) -> u64 {
        self.timestamp
    }

    /// The handle of the next (less recent) entry, or null.
    pub closed spec fn spec_next(&self) -> Pointer {
        self.next
    }

    /// The handle of the previous (more recent) entry, or null.
    pub closed spec fn spec_prev(&self) -> Pointer {
        self.prev
    }

    /// Reads the `next` link.
    pub fn next_link(&self) -> (r: Pointer)
        ensures
            r == self.spec_next(),
    {
        self.next
    }

    /// Reads the `prev` link.
    pub fn prev_link(&self) -> (r: Pointer)
        ensures
            r == self.spec_prev(),
    {
        self.prev
    }

    /// Creates an entry stamped with the current clock reading.
    pub fn new(key: K, data: V, next: Pointer, prev: Pointer) -> (e: Self)
        ensures
            e.spec_key() == key,
            e.spec_data() == data,
            e.spec_next() == next,
            e.spec_prev() == prev,
    {
        let timestamp = unix_now();
        Entry { key, timestamp, data, next, prev }
    }

    /// Creates an entry stamped with the given second counter.
    pub fn new_at(key: K, data: V, timestamp: u64, next: Pointer, prev: Pointer) -> (e: Self)
        ensures
            e.spec_key() == key,
            e.spec_data() == data,
            e.spec_timestamp() == timestamp,
            e.spec_next() == next,
            e.spec_prev() == prev,
    {
        Entry { key, timestamp, data, next, prev }
    }
}

/// A fixed-capacity pool of slots. A `None` slot is free; a `Some`
/// slot holds a live entry whose position never changes while it
/// lives. `live` caches the number of occupied slots.
struct Segment<K, V> {
    slots: Vec<Option<Entry<K, V>>>,
    live: usize,
}

/// The number of occupied slots in a slot sequence.
pub closed spec fn count_some<K, V>(s: Seq<Option<Entry<K, V>>>) -> int
    decreases s.len(),
{
    if s.len() == 0 {
        0
    } else {
        count_some(s.drop_last()) + if s.last() is Some {
            1int
        } else {
            0int
        }
    }
}

proof fn lemma_count_some_bounds<K, V>(s: Seq<Option<Entry<K, V>>>)
    ensures
        0 <= count_some(s) <= s.len(),
    decreases s.len(),
{
    if s.len() > 0 {
        lemma_count_some_bounds(s.drop_last());
    }
}

proof fn lemma_count_some_update<K, V>(s: Seq<Option<Entry<K, V>>>, i: int, x: Option<Entry<K, V>>)
    requires
        0 <= i < s.len(),
    ensures
        count_some(s.update(i, x)) == count_some(s) + (if x is Some {
            1int
        } else {
            0int
        }) - (if s[i] is Some {
            1int
        } else {
            0int
        }),
    decreases s.len(),
{
    let t = s.update(i, x);
    if i == s.len() - 1 {
        assert(t.drop_last() =~= s.drop_last());
    } else {
        assert(t.drop_last() =~= s.drop_last().update(i, x));
        lemma_count_some_update(s.drop_last(), i, x);
    }
}

proof fn lemma_count_some_zero<K, V>(s: Seq<Option<Entry<K, V>>>)
    requires
        count_some(s) == 0,
    ensures
        forall|i: int| 0 <= i < s.len() ==> s[i] is None,
    decreases s.len(),
{
    if s.len() > 0 {
        lemma_count_some_bounds(s.drop_last());
        lemma_count_some_zero(s.drop_last());
        assert forall|i: int| 0 <= i < s.len() implies s[i] is None by {
            if i < s.len() - 1 {
                assert(s.drop_last()[i] is None);
            }
        }
    }
}

proof fn lemma_count_some_all_none<K, V>(s: Seq<Option<Entry<K, V>>>)
    requires
        forall|i: int| 0 <= i < s.len() ==> s[i] is None,
    ensures
        count_some(s) == 0,
    decreases s.len(),
{
    if s.len() > 0 {
        lemma_count_some_all_none(s.drop_last());
    }
}

proof fn lemma_count_some_all_some<K, V>(s: Seq<Option<Entry<K, V>>>)
    requires
        forall|i: int| 0 <= i < s.len() ==> s[i] is Some,
    ensures
        count_some(s) == s.len(),
    decreases s.len(),
{
    if s.len() > 0 {
        lemma_count_some_all_some(s.drop_last());
    }
}

proof fn lemma_count_some_missing<K, V>(s: Seq<Option<Entry<K, V>>>, p: int)
    requires
        0 <= p < s.len(),
        s[p] is None,
    ensures
        count_some(s) < s.len(),
{
    let e = arbitrary::<Entry<K, V>>();
    lemma_count_some_update(s, p, Some(e));
    lemma_count_some_bounds(s.update(p, Some(e)));
}

/// The number of live segments.
spec fn seg_count<K, V>(segs: Seq<Option<Segment<K, V>>>) -> int
    decreases segs.len(),
{
    if segs.len() == 0 {
        0
    } else {
        seg_count(segs.drop_last()) + if segs.last() is Some {
            1int
        } else {
            0int
        }
    }
}

proof fn lemma_total_cap_units<K, V>(segs: Seq<Option<Segment<K, V>>>, u: int)
    requires
        forall|s: int|
            0 <= s < segs.len() && (#[trigger] segs[s]) is Some ==> seg_cap(segs[s]) == u,
    ensures
        total_cap(segs) == u * seg_count(segs),
        0 <= seg_count(segs) <= segs.len(),
    decreases segs.len(),
{
    if segs.len() > 0 {
        lemma_total_cap_units(segs.drop_last(), u);
        let c = seg_count(segs.drop_last());
        if segs.last() is Some {
            assert(segs.last() == segs[segs.len() - 1]);
            assert(u * (c + 1) == u * c + u) by (nonlinear_arith);
        }
    }
}

/// The number of live entries in one optional segment.
spec fn seg_live<K, V>(o: Option<Segment<K, V>>) -> int {
    match o {
        Some(seg) => count_some(seg.slots@),
        None => 0,
    }
}

/// The slot capacity contributed by one optional segment.
spec fn seg_cap<K, V>(o: Option<Segment<K, V>>) -> int {
    match o {
        Some(seg) => seg.slots@.len() as int,
        None => 0,
    }
}

/// Total number of live entries over all segments.
spec fn total_live<K, V>(segs: Seq<Option<Segment<K, V>>>) -> int
    decreases segs.len(),
{
    if segs.len() == 0 {
        0
    } else {
        total_live(segs.drop_last()) + seg_live(segs.last())
    }
}

/// Total slot capacity over all segments.
spec fn total_cap<K, V>(segs: Seq<Option<Segment<K, V>>>) -> int
    decreases segs.len(),
{
    if segs.len() == 0 {
        0
    } else {
        total_cap(segs.drop_last()) + seg_cap(segs.last())
    }
}

proof fn lemma_total_live_update<K, V>(
    segs: Seq<Option<Segment<K, V>>>,
    i: int,
    o: Option<Segment<K, V>>,
)
    requires
        0 <= i < segs.len(),
    ensures
        total_live(segs.update(i, o)) == total_live(segs) - seg_live(segs[i]) + seg_live(o),
        total_cap(segs.update(i, o)) == total_cap(segs) - seg_cap(segs[i]) + seg_cap(o),
    decreases segs.len(),
{
    let t = segs.update(i, o);
    if i == segs.len() - 1 {
        assert(t.drop_last() =~= segs.drop_last());
    } else {
        assert(t.drop_last() =~= segs.drop_last().update(i, o));
        lemma_total_live_update(segs.drop_last(), i, o);
    }
}

proof fn lemma_total_live_push<K, V>(segs: Seq<Option<Segment<K, V>>>, o: Option<Segment<K, V>>)
    ensures
        total_live(segs.push(o)) == total_live(segs) + seg_live(o),
        total_cap(segs.push(o)) == total_cap(segs) + seg_cap(o),
{
    assert(segs.push(o).drop_last() =~= segs);
}

proof fn lemma_total_le<K, V>(segs: Seq<Option<Segment<K, V>>>)
    ensures
        total_live(segs) <= total_cap(segs),
        0 <= total_live(segs),
        0 <= total_cap(segs),
    decreases segs.len(),
{
    if segs.len() > 0 {
        lemma_total_le(segs.drop_last());
        match segs.last() {
            Some(seg) => {
                lemma_count_some_bounds(seg.slots@);
            },
            None => {},
        }
    }
}

proof fn lemma_total_all_full<K, V>(segs: Seq<Option<Segment<K, V>>>)
    requires
        forall|s: int|
            0 <= s < segs.len() ==> (#[trigger] segs[s]) is None || count_some(
                segs[s].unwrap().slots@,
            ) == segs[s].unwrap().slots@.len(),
    ensures
        total_live(segs) == total_cap(segs),
    decreases segs.len(),
{
    if segs.len() > 0 {
        assert(segs.last() == segs[segs.len() - 1]);
        assert(forall|s: int|
            0 <= s < segs.drop_last().len() ==> segs.drop_last()[s] == segs[s]);
        lemma_total_all_full(segs.drop_last());
    }
}

proof fn lemma_total_live_lt<K, V>(segs: Seq<Option<Segment<K, V>>>, s: int)
    requires
        0 <= s < segs.len(),
        seg_live(segs[s]) < seg_cap(segs[s]),
    ensures
        total_live(segs) < total_cap(segs),
    decreases segs.len(),
{
    lemma_total_le(segs.drop_last());
    match segs.last() {
        Some(seg) => {
            lemma_count_some_bounds(seg.slots@);
        },
        None => {},
    }
    if s == segs.len() - 1 {
        assert(segs.last() == segs[s]);
    } else {
        assert(segs.drop_last()[s] == segs[s]);
        lemma_total_live_lt(segs.drop_last(), s);
    }
}

proof fn lemma_total_cap_none<K, V>(segs: Seq<Option<Segment<K, V>>>)
    requires
        forall|s: int| 0 <= s < segs.len() ==> (#[trigger] segs[s]) is None,
    ensures
        total_cap(segs) == 0,
    decreases segs.len(),
{
    if segs.len() > 0 {
        assert(segs.last() == segs[segs.len() - 1]);
        lemma_total_cap_none(segs.drop_last());
    }
}

proof fn lemma_total_live_zero<K, V>(segs: Seq<Option<Segment<K, V>>>)
    requires
        total_live(segs) == 0,
    ensures
        forall|s: int| 0 <= s < segs.len() ==> seg_live(#[trigger] segs[s]) == 0,
    decreases segs.len(),
{
    if segs.len() > 0 {
        lemma_total_le(segs.drop_last());
        match segs.last() {
            Some(seg) => {
                lemma_count_some_bounds(seg.slots@);
            },
            None => {},
        }
        lemma_total_live_zero(segs.drop_last());
        assert forall|s: int| 0 <= s < segs.len() implies seg_live(#[trigger] segs[s]) == 0 by {
            if s < segs.len() - 1 {
                assert(segs.drop_last()[s] == segs[s]);
            } else {
                assert(segs[s] == segs.last());
            }
        }
    }
}

/// The segmented node store together with the endpoints of the
/// recency list threaded through its entries. `order` is the ghost
/// recency order, most recent first; the linked structure in the
/// slots mirrors it exactly.
pub struct Storage<K, V> {
    segs: Vec<Option<Segment<K, V>>>,
    cap: usize,
    len: usize,
    head: Pointer,
    tail: Pointer,
    timeout_secs: u64,
    order: Ghost<Seq<Pointer>>,
}

impl<K: CacheKey, V> Storage<K, V> {
    /// The segment unit: every segment is created with this many slots.
    pub closed spec fn unit(&self) -> int {
        self.cap as int
    }

    /// The configured time-to-live in seconds.
    pub closed spec fn timeout(&self) -> u64 {
        self.timeout_secs
    }

    /// The recency order of the live handles, most recent first.
    pub closed spec fn order(&self) -> Seq<Pointer> {
        self.order@
    }

    /// The total slot capacity over all segments.
    pub closed spec fn capacity_spec(&self) -> int {
        total_cap(self.segs@)
    }

    spec fn has_seg(&self, s: int) -> bool {
        0 <= s < self.segs@.len() && self.segs@[s] is Some
    }

    spec fn seg(&self, s: int) -> Segment<K, V> {
        self.segs@[s].unwrap()
    }

    /// Whether `p` names an occupied slot.
    pub closed spec fn live_at(&self, p: Pointer) -> bool {
        match p {
            Pointer::Null => false,
            Pointer::InternalPointer { slab, pos } => self.has_seg(slab as int) && pos
                < self.seg(slab as int).slots@.len() && self.seg(slab as int).slots@[pos as int]
                is Some,
        }
    }

    /// The entry stored at the occupied slot `p`.
    pub closed spec fn entry(&self, p: Pointer) -> Entry<K, V> {
        match p {
            Pointer::Null => arbitrary(),
            Pointer::InternalPointer { slab, pos } => self.seg(
                slab as int,
            ).slots@[pos as int].unwrap(),
        }
    }

    /// The store abstracted to its model: the records in recency
    /// order, most recent first.
    pub closed spec fn recs(&self) -> Seq<Rec<K, V>> {
        Seq::new(
            self.order@.len(),
            |i: int|
                Rec {
                    key: self.entry(self.order@[i]).spec_key(),
                    data: self.entry(self.order@[i]).spec_data(),
                    ts: self.entry(self.order@[i]).spec_timestamp(),
                },
        )
    }

    spec fn seg_ok(&self, s: int) -> bool {
        match self.segs@[s] {
            Some(seg) => seg.slots@.len() == self.cap && seg.live == count_some(seg.slots@),
            None => true,
        }
    }

    /// Core well-formedness. In one place: the head is null exactly
    /// when the store is empty, exactly when the tail is; following
    /// `next` from the head walks every live entry once and ends at
    /// the tail, and `prev` mirrors it; the head's `prev` and the
    /// tail's `next` are null; every handle in the order names an
    /// occupied slot and every occupied slot appears in the order; no
    /// two live entries share a key view; the cached lengths and
    /// per-segment counts are exact; and the total capacity is the
    /// sum of the segment capacities, which bounds the entry count.
    spec fn wf_core(&self) -> bool {
        &&& self.cap >= 1
        &&& forall|s: int| 0 <= s < self.segs@.len() ==> self.seg_ok(s)
        &&& self.order@.no_duplicates()
        &&& forall|i: int| 0 <= i < self.order@.len() ==> self.live_at(#[trigger] self.order@[i])
        &&& forall|i: int|
            0 <= i < self.order@.len() ==> (#[trigger] self.entry(self.order@[i])).spec_prev() == (
            if i == 0 {
                Pointer::Null
            } else {
                self.order@[i - 1]
            })
        &&& forall|i: int|
            0 <= i < self.order@.len() ==> (#[trigger] self.entry(self.order@[i])).spec_next() == (
            if i == self.order@.len() - 1 {
                Pointer::Null
            } else {
                self.order@[i + 1]
            })
        &&& self.head == (if self.order@.len() == 0 {
            Pointer::Null
        } else {
            self.order@[0]
        })
        &&& self.tail == (if self.order@.len() == 0 {
            Pointer::Null
        } else {
            self.order@.last()
        })
        &&& forall|p: Pointer| #[trigger] self.live_at(p) ==> self.order@.contains(p)
        &&& self.len == self.order@.len()
        &&& self.len == total_live(self.segs@)
        &&& forall|p: Pointer, q: Pointer|
            #[trigger] self.live_at(p) && #[trigger] self.live_at(q) && p != q ==> self.entry(
                p,
            ).spec_key()@ != self.entry(q).spec_key()@
        &&& total_cap(self.segs@) <= usize::MAX
    }

    /// Between operations, a segment is only ever empty in the pristine
    /// state: one segment, nothing stored yet.
    spec fn seg_rule(&self) -> bool {
        forall|s: int|
            self.has_seg(s) ==> seg_live(#[trigger] self.segs@[s]) >= 1 || (self.order@.len() == 0
                && self.segs@.len() == 1 && s == 0)
    }

    /// Well-formedness between operations.
    pub closed spec fn wf(&self) -> bool {
        self.wf_core() && self.seg_rule()
    }

    /// Creates a store with one empty segment of `cap` slots.
    pub fn new(cap: usize, timeout_secs: u64) -> (st: Self)
        requires
            cap >= 1,
        ensures
            st.wf(),
            st.recs() == Seq::<Rec<K, V>>::empty(),
            st.order() == Seq::<Pointer>::empty(),
            st.unit() == cap,
            st.capacity_spec() == cap,
            st.timeout() == timeout_secs,
    {
        let mut slots: Vec<Option<Entry<K, V>>> = Vec::new();
        let mut i: usize = 0;
        while i < cap
            invariant
                i <= cap,
                slots@.len() == i,
                forall|j: int| 0 <= j < i ==> slots@[j] is None,
            decreases cap - i,
        {
            slots.push(None);
            i = i + 1;
        }
        proof {
            lemma_count_some_all_none(slots@);
        }
        let seg = Segment { slots, live: 0 };
        let mut segs: Vec<Option<Segment<K, V>>> = Vec::new();
        proof {
            lemma_total_live_push(segs@, Some(seg));
        }
        segs.push(Some(seg));
        let st = Storage {
            segs,
            cap,
            len: 0,
            head: Pointer::Null,
            tail: Pointer::Null,
            timeout_secs,
            order: Ghost(Seq::empty()),
        };
        proof {
            assert(st.recs() =~= Seq::<Rec<K, V>>::empty());
            assert forall|p: Pointer| #[trigger] st.live_at(p) implies st.order@.contains(p) by {
                match p {
                    Pointer::Null => {},
                    Pointer::InternalPointer { slab, pos } => {
                        assert(st.seg(slab as int).slots@[pos as int] is None);
                    },
                }
            }
        }
        st
    }

    /// Returns the total slot capacity over all segments.
    pub fn capacity(&self) -> (r: usize)
        requires
            self.wf(),
        ensures
            r == self.capacity_spec(),
    {
        let ghost segs = self.segs@;
        let mut sum: usize = 0;
        let mut s: usize = 0;
        proof {
            lemma_total_le(self.segs@);
            lemma_total_le_prefix(self.segs@, 0);
        }
        while s < self.segs.len()
            invariant
                self.wf(),
                s <= self.segs@.len(),
                sum == total_cap(self.segs@.take(s as int)),
                sum <= total_cap(self.segs@),
                total_cap(self.segs@) <= usize::MAX,
            decreases self.segs@.len() - s,
        {
            proof {
                assert(self.segs@.take(s as int + 1).drop_last() =~= self.segs@.take(s as int));
                assert(self.segs@.take(s as int + 1).last() == self.segs@[s as int]);
                lemma_total_le_prefix(self.segs@, s as int + 1);
            }
            match &self.segs[s] {
                Some(seg) => {
                    sum = sum + seg.slots.len();
                },
                None => {},
            }
            s = s + 1;
        }
        proof {
            assert(self.segs@.take(self.segs@.len() as int) =~= self.segs@);
        }
        sum
    }

    /// Returns the number of live entries.
    pub fn len(&self) -> (r: usize)
        requires
            self.wf(),
        ensures
            r == self.recs().len(),
    {
        self.len
    }
}

impl<K: CacheKey, V> Storage<K, V> {
    /// Everything observable about the store is unchanged outside the
    /// entry at `p`: the scalar fields, the ghost order, the segment
    /// structure and counts, which slots are occupied, and every other
    /// entry.
    spec fn frame_except(pre: Self, post: Self, p: Pointer) -> bool {
        &&& post.cap == pre.cap
        &&& post.len == pre.len
        &&& post.head == pre.head
        &&& post.tail == pre.tail
        &&& post.timeout_secs == pre.timeout_secs
        &&& post.order@ == pre.order@
        &&& post.segs@.len() == pre.segs@.len()
        &&& forall|s: int| 0 <= s < pre.segs@.len() ==> post.has_seg(s) == pre.has_seg(s)
        &&& forall|s: int|
            #[trigger] pre.has_seg(s) ==> post.seg(s).slots@.len() == pre.seg(s).slots@.len()
                && post.seg(s).live == pre.seg(s).live && count_some(post.seg(s).slots@)
                == count_some(pre.seg(s).slots@)
        &&& forall|q: Pointer|
            #![trigger post.live_at(q)]
            #![trigger pre.live_at(q)]
            post.live_at(q) == pre.live_at(q)
        &&& forall|q: Pointer|
            #![trigger post.entry(q)]
            #![trigger pre.entry(q)]
            pre.live_at(q) && q != p ==> post.entry(q) == pre.entry(q)
    }

    /// Replacing one occupied slot's entry with another occupied
    /// entry leaves the whole frame intact.
    proof fn lemma_entry_update_frame(pre: Self, post: Self, slab: usize, pos: usize)
        requires
            pre.live_at(Pointer::InternalPointer { slab, pos }),
            post.cap == pre.cap,
            post.len == pre.len,
            post.head == pre.head,
            post.tail == pre.tail,
            post.timeout_secs == pre.timeout_secs,
            post.order@ == pre.order@,
            post.segs@.len() == pre.segs@.len(),
            forall|s: int|
                0 <= s < pre.segs@.len() && s != slab ==> post.segs@[s] == #[trigger] pre.segs@[s],
            post.has_seg(slab as int),
            post.seg(slab as int).slots@.len() == pre.seg(slab as int).slots@.len(),
            post.seg(slab as int).live == pre.seg(slab as int).live,
            forall|t: int|
                0 <= t < pre.seg(slab as int).slots@.len() && t != pos ==> post.seg(
                    slab as int,
                ).slots@[t] == #[trigger] pre.seg(slab as int).slots@[t],
            post.seg(slab as int).slots@[pos as int] is Some,
        ensures
            Self::frame_except(pre, post, Pointer::InternalPointer { slab, pos }),
    {
        let p = Pointer::InternalPointer { slab, pos };
        assert(post.seg(slab as int).slots@ =~= pre.seg(slab as int).slots@.update(
            pos as int,
            post.seg(slab as int).slots@[pos as int],
        ));
        lemma_count_some_update(
            pre.seg(slab as int).slots@,
            pos as int,
            post.seg(slab as int).slots@[pos as int],
        );
        assert forall|q: Pointer|
            #![trigger post.live_at(q)]
            #![trigger pre.live_at(q)]
            post.live_at(q) == pre.live_at(q) by {
            match q {
                Pointer::Null => {},
                Pointer::InternalPointer { slab: s2, pos: t2 } => {},
            }
        }
        assert forall|q: Pointer|
            #![trigger post.entry(q)]
            #![trigger pre.entry(q)]
            pre.live_at(q) && q != p implies post.entry(q) == pre.entry(q) by {}
    }

    /// Points the recency link `next` of the entry at `p` to `x`.
    fn set_next(&mut self, p: Pointer, x: Pointer)
        requires
            old(self).live_at(p),
        ensures
            Self::frame_except(*old(self), *final(self), p),
            final(self).entry(p).spec_next() == x,
            final(self).entry(p).spec_prev() == old(self).entry(p).spec_prev(),
            final(self).entry(p).spec_key() == old(self).entry(p).spec_key(),
            final(self).entry(p).spec_data() == old(self).entry(p).spec_data(),
            final(self).entry(p).spec_timestamp() == old(self).entry(p).spec_timestamp(),
    {
        match p {
            Pointer::Null => {
                proof {
                    assert(false);
                }
            },
            Pointer::InternalPointer { slab, pos } => {
                match &mut self.segs[slab] {
                    Some(seg) => {
                        match &mut seg.slots[pos] {
                            Some(e) => {
                                e.next = x;
                            },
                            None => {
                                proof {
                                    assert(false);
                                }
                            },
                        }
                    },
                    None => {
                        proof {
                            assert(false);
                        }
                    },
                }
                proof {
                    Self::lemma_entry_update_frame(*old(self), *self, slab, pos);
                }
            },
        }
    }

    /// Points the recency link `prev` of the entry at `p` to `x`.
    fn set_prev(&mut self, p: Pointer, x: Pointer)
        requires
            old(self).live_at(p),
        ensures
            Self::frame_except(*old(self), *final(self), p),
            final(self).entry(p).spec_prev() == x,
            final(self).entry(p).spec_next() == old(self).entry(p).spec_next(),
            final(self).entry(p).spec_key() == old(self).entry(p).spec_key(),
            final(self).entry(p).spec_data() == old(self).entry(p).spec_data(),
            final(self).entry(p).spec_timestamp() == old(self).entry(p).spec_timestamp(),
    {
        match p {
            Pointer::Null => {
                proof {
                    assert(false);
                }
            },
            Pointer::InternalPointer { slab, pos } => {
                match &mut self.segs[slab] {
                    Some(seg) => {
                        match &mut seg.slots[pos] {
                            Some(e) => {
                                e.prev = x;
                            },
                            None => {
                                proof {
                                    assert(false);
                                }
                            },
                        }
                    },
                    None => {
                        proof {
                            assert(false);
                        }
                    },
                }
                proof {
                    Self::lemma_entry_update_frame(*old(self), *self, slab, pos);
                }
            },
        }
    }

    /// Refreshes the stamp of the entry at `p` to `ts`.
    fn set_ts(&mut self, p: Pointer, ts: u64)
        requires
            old(self).live_at(p),
        ensures
            Self::frame_except(*old(self), *final(self), p),
            final(self).entry(p).spec_timestamp() == ts,
            final(self).entry(p).spec_next() == old(self).entry(p).spec_next(),
            final(self).entry(p).spec_prev() == old(self).entry(p).spec_prev(),
            final(self).entry(p).spec_key() == old(self).entry(p).spec_key(),
            final(self).entry(p).spec_data() == old(self).entry(p).spec_data(),
    {
        match p {
            Pointer::Null => {
                proof {
                    assert(false);
                }
            },
            Pointer::InternalPointer { slab, pos } => {
                match &mut self.segs[slab] {
                    Some(seg) => {
                        match &mut seg.slots[pos] {
                            Some(e) => {
                                e.timestamp = ts;
                            },
                            None => {
                                proof {
                                    assert(false);
                                }
                            },
                        }
                    },
                    None => {
                        proof {
                            assert(false);
                        }
                    },
                }
                proof {
                    Self::lemma_entry_update_frame(*old(self), *self, slab, pos);
                }
            },
        }
    }

    /// Replaces the value of the entry at `p` with `v`, refreshes its
    /// stamp to `ts`, and returns the value that was stored.
    fn replace_data_ts(&mut self, p: Pointer, v: V, ts: u64) -> (r: V)
        requires
            old(self).live_at(p),
        ensures
            Self::frame_except(*old(self), *final(self), p),
            r == old(self).entry(p).spec_data(),
            final(self).entry(p).spec_data() == v,
            final(self).entry(p).spec_timestamp() == ts,
            final(self).entry(p).spec_next() == old(self).entry(p).spec_next(),
            final(self).entry(p).spec_prev() == old(self).entry(p).spec_prev(),
            final(self).entry(p).spec_key() == old(self).entry(p).spec_key(),
    {
        let mut carry = v;
        match p {
            Pointer::Null => {
                proof {
                    assert(false);
                }
            },
            Pointer::InternalPointer { slab, pos } => {
                match &mut self.segs[slab] {
                    Some(seg) => {
                        match &mut seg.slots[pos] {
                            Some(e) => {
                                core::mem::swap(&mut e.data, &mut carry);
                                e.timestamp = ts;
                            },
                            None => {
                                proof {
                                    assert(false);
                                }
                            },
                        }
                    },
                    None => {
                        proof {
                            assert(false);
                        }
                    },
                }
                proof {
                    Self::lemma_entry_update_frame(*old(self), *self, slab, pos);
                }
            },
        }
        carry
    }

    /// Overwrites the entry at `p` with key `k`, value `v` and stamp
    /// `ts`, keeping its links, and returns the key and value that
    /// were stored.
    fn refresh_entry(&mut self, p: Pointer, k: K, v: V, ts: u64) -> (r: (K, V))
        requires
            old(self).live_at(p),
        ensures
            Self::frame_except(*old(self), *final(self), p),
            r.0 == old(self).entry(p).spec_key(),
            r.1 == old(self).entry(p).spec_data(),
            final(self).entry(p).spec_key() == k,
            final(self).entry(p).spec_data() == v,
            final(self).entry(p).spec_timestamp() == ts,
            final(self).entry(p).spec_next() == old(self).entry(p).spec_next(),
            final(self).entry(p).spec_prev() == old(self).entry(p).spec_prev(),
    {
        let mut key_carry = k;
        let mut data_carry = v;
        match p {
            Pointer::Null => {
                proof {
                    assert(false);
                }
            },
            Pointer::InternalPointer { slab, pos } => {
                match &mut self.segs[slab] {
                    Some(seg) => {
                        match &mut seg.slots[pos] {
                            Some(e) => {
                                core::mem::swap(&mut e.key, &mut key_carry);
                                core::mem::swap(&mut e.data, &mut data_carry);
                                e.timestamp = ts;
                            },
                            None => {
                                proof {
                                    assert(false);
                                }
                            },
                        }
                    },
                    None => {
                        proof {
                            assert(false);
                        }
                    },
                }
                proof {
                    Self::lemma_entry_update_frame(*old(self), *self, slab, pos);
                }
            },
        }
        (key_carry, data_carry)
    }

    /// Reads the entry at the occupied slot `p`.
    fn entry_ref(&self, p: Pointer) -> (e: &Entry<K, V>)
        requires
            self.live_at(p),
        ensures
            *e == self.entry(p),
    {
        match p {
            Pointer::Null => {
                proof {
                    assert(false);
                }
                vstd::pervasive::unreached()
            },
            Pointer::InternalPointer { slab, pos } => {
                match &self.segs[slab] {
                    Some(seg) => {
                        match &seg.slots[pos] {
                            Some(e) => e,
                            None => {
                                proof {
                                    assert(false);
                                }
                                vstd::pervasive::unreached()
                            },
                        }
                    },
                    None => {
                        proof {
                            assert(false);
                        }
                        vstd::pervasive::unreached()
                    },
                }
            },
        }
    }

    /// Reads the recency links of the entry at `p`.
    fn links(&self, p: Pointer) -> (r: (Pointer, Pointer))
        requires
            self.live_at(p),
        ensures
            r.0 == self.entry(p).spec_next(),
            r.1 == self.entry(p).spec_prev(),
    {
        let e = self.entry_ref(p);
        (e.next, e.prev)
    }

    /// Reads the stamp of the entry at `p`.
    fn stamp(&self, p: Pointer) -> (r: u64)
        requires
            self.live_at(p),
        ensures
            r == self.entry(p).spec_timestamp(),
    {
        self.entry_ref(p).timestamp
    }

    /// Compares the key of the entry at `p` against `k`.
    fn key_matches(&self, p: Pointer, k: &K) -> (r: bool)
        requires
            self.live_at(p),
        ensures
            r == (self.entry(p).spec_key()@ == k@),
    {
        self.entry_ref(p).key.key_eq(k)
    }

    /// A live entry whose key view is `kv` pins down the result of a
    /// lookup: the key is present and its index names this entry.
    proof fn lemma_found_key(self, p: Pointer, kv: <K as View>::V)
        requires
            self.wf(),
            self.live_at(p),
            self.entry(p).spec_key()@ == kv,
        ensures
            has_key(self.recs(), kv),
            self.order@[key_index(self.recs(), kv)] == p,
            self.order@.index_of(p) == key_index(self.recs(), kv),
    {
        let recs = self.recs();
        assert(self.order@.contains(p));
        let ip = choose|i: int| 0 <= i < self.order@.len() && self.order@[i] == p;
        assert(recs[ip].key@ == kv);
        assert(has_key(recs, kv));
        let w = self.order@.index_of(p);
        assert(0 <= w < self.order@.len() && self.order@[w] == p);
        if w != ip {
            assert(self.order@[w] == self.order@[ip]);
        }
        let j = key_index(recs, kv);
        assert(0 <= j < recs.len() && recs[j].key@ == kv);
        if j != ip {
            assert(self.live_at(self.order@[j]));
            assert(recs[j].key@ != recs[ip].key@);
        }
    }

    /// No live entry carries a key with view `kv`, so a lookup misses.
    proof fn lemma_missed_key(self, kv: <K as View>::V)
        requires
            self.wf(),
            forall|q: Pointer| #[trigger] self.live_at(q) ==> self.entry(q).spec_key()@ != kv,
        ensures
            !has_key(self.recs(), kv),
    {
        assert forall|i: int| 0 <= i < self.recs().len() implies (#[trigger] self.recs()[i]).key@
            != kv by {
            assert(self.live_at(self.order@[i]));
        }
    }

    /// Looks the key up by scanning the occupied slots. Returns the
    /// handle of the entry that carries it, if any.
    #[verifier::rlimit(100)]
    #[verifier::spinoff_prover]
    pub fn find_key(&self, k: &K) -> (r: Option<Pointer>)
        requires
            self.wf(),
        ensures
            match r {
                Some(p) => {
                    &&& self.live_at(p)
                    &&& has_key(self.recs(), k@)
                    &&& p == self.order()[key_index(self.recs(), k@)]
                    &&& self.order().index_of(p) == key_index(self.recs(), k@)
                    &&& self.entry(p).spec_key()@ == k@
                },
                None => !has_key(self.recs(), k@),
            },
    {
        let mut s: usize = 0;
        while s < self.segs.len()
            invariant
                self.wf(),
                s <= self.segs@.len(),
                forall|q: Pointer|
                    #[trigger] self.live_at(q) && (q matches Pointer::InternalPointer {
                        slab,
                        pos,
                    } && (slab as int) < s) ==> self.entry(q).spec_key()@ != k@,
            decreases self.segs@.len() - s,
        {
            let in_seg = match &self.segs[s] {
                Some(_) => true,
                None => false,
            };
            if in_seg {
                let mut t: usize = 0;
                let slot_count = match &self.segs[s] {
                    Some(seg) => seg.slots.len(),
                    None => 0,
                };
                while t < slot_count
                    invariant
                        self.wf(),
                        s < self.segs@.len(),
                        self.segs@[s as int] is Some,
                        slot_count == self.seg(s as int).slots@.len(),
                        t <= slot_count,
                        forall|q: Pointer|
                            #[trigger] self.live_at(q) && (q matches Pointer::InternalPointer {
                                slab,
                                pos,
                            } && ((slab as int) < s || (slab == s && (pos as int) < t)))
                                ==> self.entry(q).spec_key()@ != k@,
                    decreases slot_count - t,
                {
                    let p = Pointer::InternalPointer { slab: s, pos: t };
                    let occupied = match &self.segs[s] {
                        Some(seg) => match &seg.slots[t] {
                            Some(_) => true,
                            None => false,
                        },
                        None => false,
                    };
                    if occupied {
                        if self.key_matches(p, k) {
                            proof {
                                self.lemma_found_key(p, k@);
                            }
                            return Some(p);
                        }
                    }
                    t = t + 1;
                }
            }
            s = s + 1;
        }
        proof {
            self.lemma_missed_key(k@);
        }
        None
    }

    /// The stores have the same segment shape: the same segments
    /// exist, with the same slot counts and occupancy, and the same
    /// slots are occupied.
    spec fn same_shape(pre: Self, post: Self) -> bool {
        &&& post.segs@.len() == pre.segs@.len()
        &&& forall|s: int| 0 <= s < pre.segs@.len() ==> post.has_seg(s) == pre.has_seg(s)
        &&& forall|s: int|
            #[trigger] pre.has_seg(s) ==> post.seg(s).slots@.len() == pre.seg(s).slots@.len()
                && post.seg(s).live == pre.seg(s).live && count_some(post.seg(s).slots@)
                == count_some(pre.seg(s).slots@)
        &&& forall|q: Pointer|
            #![trigger post.live_at(q)]
            #![trigger pre.live_at(q)]
            post.live_at(q) == pre.live_at(q)
    }

    proof fn lemma_same_shape_counts(pre: Self, post: Self)
        requires
            Self::same_shape(pre, post),
        ensures
            total_live(post.segs@) == total_live(pre.segs@),
            total_cap(post.segs@) == total_cap(pre.segs@),
    {
        Self::lemma_same_shape_counts_prefix(pre, post, pre.segs@.len() as int);
        assert(pre.segs@.take(pre.segs@.len() as int) =~= pre.segs@);
        assert(post.segs@.take(post.segs@.len() as int) =~= post.segs@);
    }

    proof fn lemma_same_shape_counts_prefix(pre: Self, post: Self, n: int)
        requires
            Self::same_shape(pre, post),
            0 <= n <= pre.segs@.len(),
        ensures
            total_live(post.segs@.take(n)) == total_live(pre.segs@.take(n)),
            total_cap(post.segs@.take(n)) == total_cap(pre.segs@.take(n)),
        decreases n,
    {
        if n > 0 {
            Self::lemma_same_shape_counts_prefix(pre, post, n - 1);
            assert(pre.segs@.take(n).drop_last() =~= pre.segs@.take(n - 1));
            assert(post.segs@.take(n).drop_last() =~= post.segs@.take(n - 1));
            assert(pre.segs@.take(n).last() == pre.segs@[n - 1]);
            assert(post.segs@.take(n).last() == post.segs@[n - 1]);
            assert(seg_live(post.segs@[n - 1]) == seg_live(pre.segs@[n - 1]) && seg_cap(
                post.segs@[n - 1],
            ) == seg_cap(pre.segs@[n - 1])) by {
                if pre.has_seg(n - 1) {
                    assert(post.has_seg(n - 1));
                } else {
                    if 0 <= n - 1 < pre.segs@.len() {
                        assert(!post.has_seg(n - 1));
                    }
                }
            }
        }
    }

    proof fn lemma_same_shape_trans(a: Self, b: Self, c: Self)
        requires
            Self::same_shape(a, b),
            Self::same_shape(b, c),
        ensures
            Self::same_shape(a, c),
    {
        assert forall|s: int| 0 <= s < a.segs@.len() implies c.has_seg(s) == a.has_seg(s) by {
            assert(b.has_seg(s) == a.has_seg(s));
        }
        assert forall|s: int| #[trigger]
            a.has_seg(s) implies c.seg(s).slots@.len() == a.seg(s).slots@.len() && c.seg(s).live
            == a.seg(s).live && count_some(c.seg(s).slots@) == count_some(a.seg(s).slots@) by {
            assert(b.has_seg(s));
        }
        assert forall|q: Pointer|
            #![trigger c.live_at(q)]
            #![trigger a.live_at(q)]
            c.live_at(q) == a.live_at(q) by {
            assert(b.live_at(q) == a.live_at(q));
        }
    }

    /// The relation between the store before and after the head
    /// surgery that moves the entry at `p`, at position `i` of the old
    /// order, to the front: four entries have their links rewired and
    /// nothing else changes.
    spec fn move_frame(pre: Self, post: Self, p: Pointer, i: int) -> bool {
        let ord = pre.order@;
        let h = ord[0];
        let prev = ord[i - 1];
        &&& Self::same_shape(pre, post)
        &&& post.cap == pre.cap
        &&& post.len == pre.len
        &&& post.timeout_secs == pre.timeout_secs
        &&& post.order@ == seq![p] + ord.remove(i)
        &&& post.head == p
        &&& post.tail == (if i == ord.len() - 1 {
            prev
        } else {
            pre.tail
        })
        &&& post.entry(p).spec_key() == pre.entry(p).spec_key()
        &&& post.entry(p).spec_data() == pre.entry(p).spec_data()
        &&& post.entry(p).spec_timestamp() == pre.entry(p).spec_timestamp()
        &&& post.entry(p).spec_next() == h
        &&& post.entry(p).spec_prev() == Pointer::Null
        &&& post.entry(h).spec_prev() == p
        &&& post.entry(h).spec_next() == (if i == 1 {
            pre.entry(p).spec_next()
        } else {
            pre.entry(h).spec_next()
        })
        &&& post.entry(h).spec_key() == pre.entry(h).spec_key()
        &&& post.entry(h).spec_data() == pre.entry(h).spec_data()
        &&& post.entry(h).spec_timestamp() == pre.entry(h).spec_timestamp()
        &&& post.entry(prev).spec_next() == pre.entry(p).spec_next()
        &&& post.entry(prev).spec_prev() == (if i == 1 {
            p
        } else {
            pre.entry(prev).spec_prev()
        })
        &&& post.entry(prev).spec_key() == pre.entry(prev).spec_key()
        &&& post.entry(prev).spec_data() == pre.entry(prev).spec_data()
        &&& post.entry(prev).spec_timestamp() == pre.entry(prev).spec_timestamp()
        &&& i < ord.len() - 1 ==> {
            &&& post.entry(ord[i + 1]).spec_prev() == prev
            &&& post.entry(ord[i + 1]).spec_next() == pre.entry(ord[i + 1]).spec_next()
            &&& post.entry(ord[i + 1]).spec_key() == pre.entry(ord[i + 1]).spec_key()
            &&& post.entry(ord[i + 1]).spec_data() == pre.entry(ord[i + 1]).spec_data()
            &&& post.entry(ord[i + 1]).spec_timestamp() == pre.entry(ord[i + 1]).spec_timestamp()
        }
        &&& forall|q: Pointer| #[trigger]
            pre.live_at(q) && q != p && q != ord[0] && q != ord[i - 1] && !(i < ord.len() - 1 && q
                == ord[i + 1]) ==> post.entry(q) == pre.entry(q)
    }

    /// After the surgery of `move_frame`, the entry at position `j`
    /// of the new order has the links and content the order demands.
    #[verifier::rlimit(100)]
    #[verifier::spinoff_prover]
    proof fn lemma_move_links_at(pre: Self, post: Self, p: Pointer, i: int, j: int)
        requires
            pre.wf(),
            1 <= i < pre.order@.len(),
            pre.order@[i] == p,
            Self::move_frame(pre, post, p, i),
            0 <= j < pre.order@.len(),
        ensures
            post.live_at(post.order@[j]),
            post.entry(post.order@[j]).spec_prev() == (if j == 0 {
                Pointer::Null
            } else {
                post.order@[j - 1]
            }),
            post.entry(post.order@[j]).spec_next() == (if j == pre.order@.len() - 1 {
                Pointer::Null
            } else {
                post.order@[j + 1]
            }),
            post.entry(post.order@[j]).spec_key() == pre.entry(post.order@[j]).spec_key(),
            post.entry(post.order@[j]).spec_data() == pre.entry(post.order@[j]).spec_data(),
            post.entry(post.order@[j]).spec_timestamp() == pre.entry(
                post.order@[j],
            ).spec_timestamp(),
    {
        let ord = pre.order@;
        let ord2 = post.order@;
        let n = ord.len() as int;
        let h = ord[0];
        let prev = ord[i - 1];
        let has_next = i < n - 1;
        assert(ord2.len() == n);
        assert(ord2[0] == p);
        assert(forall|w: int| 1 <= w <= i ==> ord2[w] == ord[w - 1]);
        assert(forall|w: int| i < w < n ==> ord2[w] == ord[w]);
        assert(pre.entry(p).spec_next() == (if i == n - 1 {
            Pointer::Null
        } else {
            ord[i + 1]
        }));
        let q = ord2[j];
        if j == 0 {
            assert(q == p);
            assert(pre.live_at(p));
            if n >= 2 {
                assert(ord2[1] == ord[0]);
            }
        } else if j == 1 {
            assert(q == h);
            assert(pre.live_at(h));
            if i == 1 {
                if i < n - 1 {
                    assert(ord2[2] == ord[2]);
                }
            } else {
                assert(pre.entry(h).spec_next() == ord[1]);
                assert(ord2[2] == ord[1]);
            }
        } else if j < i {
            assert(q == ord[j - 1]);
            assert(pre.live_at(q));
            assert(q != p && q != h && q != prev);
            assert(!(has_next && q == ord[i + 1]));
            assert(post.entry(q) == pre.entry(q));
            assert(pre.entry(q).spec_prev() == ord[j - 2]);
            assert(ord2[j - 1] == ord[j - 2]);
            assert(pre.entry(q).spec_next() == ord[j]);
            assert(ord2[j + 1] == ord[j]);
        } else if j == i {
            assert(q == prev);
            assert(pre.live_at(prev));
            if has_next {
                assert(ord2[i + 1] == ord[i + 1]);
            }
            if i >= 2 {
                assert(pre.entry(prev).spec_prev() == ord[i - 2]);
                assert(ord2[i - 1] == ord[i - 2]);
            }
        } else {
            assert(q == ord[j]);
            assert(pre.live_at(q));
            assert(q != p && q != h && q != prev);
            if j == i + 1 {
                assert(post.entry(q).spec_prev() == prev);
                assert(ord2[j - 1] == ord[i - 1]);
                if j < n - 1 {
                    assert(pre.entry(q).spec_next() == ord[j + 1]);
                    assert(ord2[j + 1] == ord[j + 1]);
                } else {
                    assert(pre.entry(q).spec_next() == Pointer::Null);
                }
            } else {
                assert(!(has_next && q == ord[i + 1]));
                assert(post.entry(q) == pre.entry(q));
                assert(pre.entry(q).spec_prev() == ord[j - 1]);
                assert(ord2[j - 1] == ord[j - 1]);
                if j < n - 1 {
                    assert(pre.entry(q).spec_next() == ord[j + 1]);
                    assert(ord2[j + 1] == ord[j + 1]);
                } else {
                    assert(pre.entry(q).spec_next() == Pointer::Null);
                }
            }
        }
    }

    /// Rebuilds well-formedness after the head surgery that moves the
    /// entry at `p` from position `i` to the front.
    #[verifier::rlimit(100)]
    #[verifier::spinoff_prover]
    proof fn lemma_move_wf(pre: Self, post: Self, p: Pointer, i: int)
        requires
            pre.wf(),
            1 <= i < pre.order@.len(),
            pre.order@[i] == p,
            Self::move_frame(pre, post, p, i),
        ensures
            post.wf(),
    {
        let ord = pre.order@;
        let ord2 = post.order@;
        let n = ord.len() as int;
        assert(ord2.len() == n);
        assert(ord2[0] == p);
        assert(forall|w: int| 1 <= w <= i ==> ord2[w] == ord[w - 1]);
        assert(forall|w: int| i < w < n ==> ord2[w] == ord[w]);
        assert(ord2.no_duplicates()) by {
            assert(ord.remove(i).no_duplicates());
            assert(forall|w: int| 0 <= w < ord.remove(i).len() ==> ord.remove(i)[w] != p);
        }
        assert forall|j: int| 0 <= j < n implies post.live_at(#[trigger] ord2[j]) && (
        #[trigger] post.entry(ord2[j])).spec_prev() == (if j == 0 {
            Pointer::Null
        } else {
            ord2[j - 1]
        }) && post.entry(ord2[j]).spec_next() == (if j == n - 1 {
            Pointer::Null
        } else {
            ord2[j + 1]
        }) by {
            Self::lemma_move_links_at(pre, post, p, i, j);
        }
        assert forall|q: Pointer| #[trigger] post.live_at(q) implies ord2.contains(q) by {
            assert(pre.live_at(q));
            assert(ord.contains(q));
            let w = choose|w: int| 0 <= w < ord.len() && ord[w] == q;
            if w == i {
                assert(ord2[0] == q);
            } else if w < i {
                assert(ord2[w + 1] == q);
            } else {
                assert(ord2[w] == q);
            }
        }
        assert forall|q1: Pointer, q2: Pointer|
            #[trigger] post.live_at(q1) && #[trigger] post.live_at(q2) && q1 != q2 implies post.entry(
            q1,
        ).spec_key()@ != post.entry(q2).spec_key()@ by {
            assert(ord2.contains(q1));
            assert(ord2.contains(q2));
            let w1 = choose|w: int| 0 <= w < ord2.len() && ord2[w] == q1;
            let w2 = choose|w: int| 0 <= w < ord2.len() && ord2[w] == q2;
            Self::lemma_move_links_at(pre, post, p, i, w1);
            Self::lemma_move_links_at(pre, post, p, i, w2);
            assert(pre.live_at(q1) && pre.live_at(q2));
        }
        Self::lemma_same_shape_counts(pre, post);
        assert(post.wf()) by {
            assert forall|s: int| 0 <= s < post.segs@.len() implies post.seg_ok(s) by {
                if pre.has_seg(s) {
                    assert(post.has_seg(s));
                    assert(post.seg(s).slots@.len() == pre.seg(s).slots@.len());
                    assert(post.seg(s).live == pre.seg(s).live);
                    assert(count_some(post.seg(s).slots@) == count_some(pre.seg(s).slots@));
                    assert(pre.seg_ok(s));
                } else {
                    assert(!post.has_seg(s));
                }
            }
            assert(post.head == (if post.order@.len() == 0 {
                Pointer::Null
            } else {
                post.order@[0]
            }));
            assert(post.tail == post.order@.last()) by {
                if i == n - 1 {
                    assert(ord2.last() == ord2[n - 1]);
                    if n >= 2 {
                        assert(ord2[n - 1] == ord[n - 2]);
                    }
                } else {
                    assert(ord2.last() == ord[n - 1]);
                    assert(pre.tail == ord.last());
                }
            }
            assert(forall|s: int|
                post.has_seg(s) ==> seg_live(#[trigger] post.segs@[s]) >= 1 || (post.order@.len()
                    == 0 && post.segs@.len() == 1 && s == 0)) by {
                assert(forall|s: int|
                    post.has_seg(s) ==> pre.has_seg(s) && seg_live(#[trigger] post.segs@[s])
                        == seg_live(pre.segs@[s]));
            }
        }
    }

    /// After the same surgery, the model records are the old ones with
    /// position `i` moved to the front.
    #[verifier::rlimit(100)]
    #[verifier::spinoff_prover]
    proof fn lemma_move_recs(pre: Self, post: Self, p: Pointer, i: int)
        requires
            pre.wf(),
            1 <= i < pre.order@.len(),
            pre.order@[i] == p,
            Self::move_frame(pre, post, p, i),
        ensures
            post.recs() == seq![pre.recs()[i]] + pre.recs().remove(i),
    {
        let ord = pre.order@;
        let ord2 = post.order@;
        let n = ord.len() as int;
        assert(ord2.len() == n);
        assert(ord2[0] == p);
        assert(forall|w: int| 1 <= w <= i ==> ord2[w] == ord[w - 1]);
        assert(forall|w: int| i < w < n ==> ord2[w] == ord[w]);
        assert(post.recs() =~= seq![pre.recs()[i]] + pre.recs().remove(i)) by {
            assert forall|j: int| 0 <= j < n implies post.recs()[j] == (seq![
                pre.recs()[i],
            ] + pre.recs().remove(i))[j] by {
                Self::lemma_move_links_at(pre, post, p, i, j);
                if j == 0 {
                    assert(pre.live_at(ord[i]));
                } else if j <= i {
                    assert(ord2[j] == ord[j - 1]);
                    assert(pre.live_at(ord[j - 1]));
                } else {
                    assert(ord2[j] == ord[j]);
                    assert(pre.live_at(ord[j]));
                }
            }
        }
    }

    /// Moves the entry at `p` to the head of the recency list; a no-op
    /// when it is the head already. Keys, values and stamps are
    /// untouched.
    #[verifier::rlimit(100)]
    #[verifier::spinoff_prover]
    fn move_to_top(&mut self, p: Pointer)
        requires
            old(self).wf(),
            old(self).live_at(p),
        ensures
            final(self).wf(),
            final(self).order() == seq![p] + old(self).order().remove(
                old(self).order().index_of(p),
            ),
            final(self).recs() == seq![
                old(self).recs()[old(self).order().index_of(p)],
            ] + old(self).recs().remove(old(self).order().index_of(p)),
            final(self).unit() == old(self).unit(),
            final(self).timeout() == old(self).timeout(),
            final(self).capacity_spec() == old(self).capacity_spec(),
            forall|q: Pointer|
                #![trigger final(self).live_at(q)]
                #![trigger old(self).live_at(q)]
                final(self).live_at(q) == old(self).live_at(q),
            forall|q: Pointer| #[trigger]
                old(self).live_at(q) ==> final(self).entry(q).spec_key() == old(self).entry(
                    q,
                ).spec_key() && final(self).entry(q).spec_data() == old(self).entry(q).spec_data()
                    && final(self).entry(q).spec_timestamp() == old(self).entry(
                    q,
                ).spec_timestamp(),
    {
        let ghost pre = *self;
        let ghost ord = self.order@;
        let ghost i = ord.index_of(p);
        proof {
            assert(self.order@.contains(p));
            let w = choose|w: int| 0 <= w < ord.len() && ord[w] == p;
            assert(ord[w] == p);
            assert(0 <= i < ord.len() && ord[i] == p);
        }
        if p == self.head {
            proof {
                if i != 0 {
                    assert(ord[0] == ord[i]);
                }
                assert(seq![p] + ord.remove(0) =~= ord);
                assert(seq![pre.recs()[0]] + pre.recs().remove(0) =~= pre.recs());
            }
            return ;
        }
        proof {
            if i == 0 {
                assert(ord[0] == p);
            }
            assert(i >= 1);
            assert(ord.no_duplicates());
        }
        let (next, prev) = self.links(p);
        proof {
            assert(prev == ord[i - 1]);
            assert(pre.live_at(prev));
            if next != Pointer::Null {
                assert(next == ord[i + 1]);
                assert(pre.live_at(next));
            } else {
                assert(i == ord.len() - 1);
            }
        }
        let h = self.head;
        proof {
            assert(h == ord[0]);
            assert(pre.live_at(h));
            assert(p != h && p != prev && p != next);
            assert(h != next);
            assert(prev != next);
        }
        if next.is_null() {
            self.tail = prev;
        } else {
            self.set_prev(next, prev);
        }
        let ghost s1 = *self;
        proof {
            assert(self.live_at(prev));
        }
        self.set_next(prev, next);
        let ghost s2 = *self;
        proof {
            assert(self.live_at(h));
        }
        self.set_prev(h, p);
        let ghost s3 = *self;
        proof {
            assert(self.live_at(p));
        }
        self.set_next(p, h);
        let ghost s4 = *self;
        self.set_prev(p, Pointer::null());
        let ghost s5 = *self;
        self.head = p;
        proof {
            self.order@ = seq![p] + ord.remove(i);
        }
        proof {
            let post = *self;
            assert(post.segs == s5.segs);
            assert(Self::same_shape(s5, post));
            assert(Self::same_shape(pre, post)) by {
                assert(Self::same_shape(pre, s1));
                assert(Self::same_shape(s1, s2));
                assert(Self::same_shape(s2, s3));
                assert(Self::same_shape(s3, s4));
                assert(Self::same_shape(s4, s5));
                Self::lemma_same_shape_trans(pre, s1, s2);
                Self::lemma_same_shape_trans(pre, s2, s3);
                Self::lemma_same_shape_trans(pre, s3, s4);
                Self::lemma_same_shape_trans(pre, s4, s5);
                Self::lemma_same_shape_trans(pre, s5, post);
            }
            assert(forall|q: Pointer| post.live_at(q) ==> s5.live_at(q)) by {
                assert(forall|q: Pointer| #[trigger] post.live_at(q) == s5.live_at(q));
            }
            assert forall|q: Pointer| #[trigger]
                pre.live_at(q) && q != p && q != h && q != prev && !(next != Pointer::Null && q
                    == next) implies post.entry(q) == pre.entry(q) by {
                assert(s1.entry(q) == pre.entry(q));
                assert(s2.entry(q) == s1.entry(q));
                assert(s3.entry(q) == s2.entry(q));
                assert(s4.entry(q) == s3.entry(q));
                assert(s5.entry(q) == s4.entry(q));
                assert(post.entry(q) == s5.entry(q));
            }
            assert(post.entry(p).spec_next() == h && post.entry(p).spec_prev() == Pointer::Null
                && post.entry(p).spec_key() == pre.entry(p).spec_key() && post.entry(
                p,
            ).spec_data() == pre.entry(p).spec_data() && post.entry(p).spec_timestamp()
                == pre.entry(p).spec_timestamp()) by {
                assert(s1.entry(p) == pre.entry(p));
                assert(s2.entry(p) == s1.entry(p));
                assert(s3.entry(p) == s2.entry(p));
                assert(s4.entry(p).spec_next() == h);
                assert(s5.entry(p).spec_prev() == Pointer::Null);
                assert(post.entry(p) == s5.entry(p));
            }
            assert(post.entry(h).spec_prev() == p && post.entry(h).spec_next() == (if h == prev {
                next
            } else {
                pre.entry(h).spec_next()
            }) && post.entry(h).spec_key() == pre.entry(h).spec_key() && post.entry(h).spec_data()
                == pre.entry(h).spec_data() && post.entry(h).spec_timestamp() == pre.entry(
                h,
            ).spec_timestamp()) by {
                assert(s1.entry(h) == pre.entry(h));
                if h == prev {
                    assert(s2.entry(h).spec_next() == next);
                    assert(s3.entry(h).spec_prev() == p);
                } else {
                    assert(s2.entry(h) == s1.entry(h));
                    assert(s3.entry(h).spec_prev() == p);
                    assert(s3.entry(h).spec_next() == s2.entry(h).spec_next());
                }
                assert(s4.entry(h) == s3.entry(h));
                assert(s5.entry(h) == s4.entry(h));
                assert(post.entry(h) == s5.entry(h));
            }
            assert(post.entry(prev).spec_next() == next && post.entry(prev).spec_prev() == (if h
                == prev {
                p
            } else {
                pre.entry(prev).spec_prev()
            }) && post.entry(prev).spec_key() == pre.entry(prev).spec_key() && post.entry(
                prev,
            ).spec_data() == pre.entry(prev).spec_data() && post.entry(prev).spec_timestamp()
                == pre.entry(prev).spec_timestamp()) by {
                assert(s1.entry(prev) == pre.entry(prev));
                assert(s2.entry(prev).spec_next() == next);
                if h == prev {
                    assert(s3.entry(prev).spec_prev() == p);
                } else {
                    assert(s3.entry(prev) == s2.entry(prev));
                }
                assert(s4.entry(prev) == s3.entry(prev));
                assert(s5.entry(prev) == s4.entry(prev));
                assert(post.entry(prev) == s5.entry(prev));
            }
            if next != Pointer::Null {
                assert(post.entry(next).spec_prev() == prev && post.entry(next).spec_next()
                    == pre.entry(next).spec_next() && post.entry(next).spec_key() == pre.entry(
                    next,
                ).spec_key() && post.entry(next).spec_data() == pre.entry(next).spec_data()
                    && post.entry(next).spec_timestamp() == pre.entry(next).spec_timestamp()) by {
                    assert(s1.entry(next).spec_prev() == prev);
                    assert(s1.entry(next).spec_next() == pre.entry(next).spec_next());
                    assert(s2.entry(next) == s1.entry(next));
                    assert(s3.entry(next) == s2.entry(next));
                    assert(s4.entry(next) == s3.entry(next));
                    assert(s5.entry(next) == s4.entry(next));
                    assert(post.entry(next) == s5.entry(next));
                }
            }
            assert(pre.entry(p).spec_next() == next);
            assert(h == prev ==> i == 1);
            assert(i == 1 ==> h == prev);
            assert(Self::move_frame(pre, post, p, i));
            Self::lemma_move_wf(pre, post, p, i);
            Self::lemma_move_recs(pre, post, p, i);
            Self::lemma_same_shape_counts(pre, post);
            assert(ord.index_of(p) == i);
        }
    }

    /// Builds an empty segment of `cap` free slots.
    fn make_segment(cap: usize) -> (seg: Segment<K, V>)
        ensures
            seg.slots@.len() == cap,
            seg.live == 0,
            count_some(seg.slots@) == 0,
            forall|t: int| 0 <= t < cap ==> seg.slots@[t] is None,
    {
        let mut slots: Vec<Option<Entry<K, V>>> = Vec::new();
        let mut i: usize = 0;
        while i < cap
            invariant
                i <= cap,
                slots@.len() == i,
                forall|j: int| 0 <= j < i ==> slots@[j] is None,
            decreases cap - i,
        {
            slots.push(None);
            i = i + 1;
        }
        proof {
            lemma_count_some_all_none(slots@);
        }
        Segment { slots, live: 0 }
    }

    /// Stores `e` in the free slot `pos` of segment `s`.
    fn fill_slot(&mut self, s: usize, pos: usize, e: Entry<K, V>)
        requires
            old(self).has_seg(s as int),
            old(self).seg_ok(s as int),
            pos < old(self).seg(s as int).slots@.len(),
            old(self).seg(s as int).slots@[pos as int] is None,
        ensures
            final(self).cap == old(self).cap,
            final(self).len == old(self).len,
            final(self).head == old(self).head,
            final(self).tail == old(self).tail,
            final(self).timeout_secs == old(self).timeout_secs,
            final(self).order@ == old(self).order@,
            final(self).segs@.len() == old(self).segs@.len(),
            forall|s2: int|
                0 <= s2 < old(self).segs@.len() && s2 != s ==> final(self).segs@[s2]
                    == #[trigger] old(self).segs@[s2],
            final(self).has_seg(s as int),
            final(self).seg_ok(s as int),
            final(self).seg(s as int).slots@.len() == old(self).seg(s as int).slots@.len(),
            final(self).seg(s as int).live == old(self).seg(s as int).live + 1,
            count_some(final(self).seg(s as int).slots@) == count_some(
                old(self).seg(s as int).slots@,
            ) + 1,
            final(self).live_at((Pointer::InternalPointer { slab: s, pos })),
            final(self).entry((Pointer::InternalPointer { slab: s, pos })) == e,
            forall|q: Pointer|
                #![trigger final(self).live_at(q)]
                #![trigger old(self).live_at(q)]
                q != (Pointer::InternalPointer { slab: s, pos }) ==> final(self).live_at(q)
                    == old(self).live_at(q),
            forall|q: Pointer|
                #![trigger final(self).entry(q)]
                #![trigger old(self).entry(q)]
                old(self).live_at(q) && q != (Pointer::InternalPointer { slab: s, pos })
                    ==> final(self).entry(q) == old(self).entry(q),
            total_live(final(self).segs@) == total_live(old(self).segs@) + 1,
            total_cap(final(self).segs@) == total_cap(old(self).segs@),
    {
        proof {
            lemma_count_some_missing(old(self).seg(s as int).slots@, pos as int);
            lemma_count_some_bounds(old(self).seg(s as int).slots@);
        }
        match &mut self.segs[s] {
            Some(seg) => {
                let lv = seg.live;
                seg.slots[pos] = Some(e);
                seg.live = lv + 1;
            },
            None => {
                proof {
                    assert(false);
                }
            },
        }
        proof {
            lemma_count_some_update(
                old(self).seg(s as int).slots@,
                pos as int,
                self.seg(s as int).slots@[pos as int],
            );
            assert(self.seg(s as int).slots@ =~= old(self).seg(s as int).slots@.update(
                pos as int,
                self.seg(s as int).slots@[pos as int],
            ));
            lemma_total_live_update(old(self).segs@, s as int, self.segs@[s as int]);
            assert(self.segs@ =~= old(self).segs@.update(s as int, self.segs@[s as int]));
        }
    }

    /// Frees the occupied slot at `p`.
    fn clear_slot(&mut self, p: Pointer)
        requires
            old(self).live_at(p),
            old(self).wf_core(),
        ensures
            final(self).cap == old(self).cap,
            final(self).len == old(self).len,
            final(self).head == old(self).head,
            final(self).tail == old(self).tail,
            final(self).timeout_secs == old(self).timeout_secs,
            final(self).order@ == old(self).order@,
            final(self).segs@.len() == old(self).segs@.len(),
            forall|s2: int|
                0 <= s2 < old(self).segs@.len() && s2 != p->slab ==> final(self).segs@[s2]
                    == #[trigger] old(self).segs@[s2],
            final(self).has_seg(p->slab as int),
            final(self).seg_ok(p->slab as int),
            final(self).seg(p->slab as int).slots@.len() == old(self).seg(
                p->slab as int,
            ).slots@.len(),
            final(self).seg(p->slab as int).live == old(self).seg(p->slab as int).live - 1,
            count_some(final(self).seg(p->slab as int).slots@) == count_some(
                old(self).seg(p->slab as int).slots@,
            ) - 1,
            !final(self).live_at(p),
            forall|q: Pointer|
                #![trigger final(self).live_at(q)]
                #![trigger old(self).live_at(q)]
                q != p ==> final(self).live_at(q) == old(self).live_at(q),
            forall|q: Pointer|
                #![trigger final(self).entry(q)]
                #![trigger old(self).entry(q)]
                old(self).live_at(q) && q != p ==> final(self).entry(q) == old(self).entry(q),
            total_live(final(self).segs@) == total_live(old(self).segs@) - 1,
            total_cap(final(self).segs@) == total_cap(old(self).segs@),
    {
        match p {
            Pointer::Null => {
                proof {
                    assert(false);
                }
            },
            Pointer::InternalPointer { slab, pos } => {
                proof {
                    assert(old(self).seg_ok(slab as int));
                }
                match &mut self.segs[slab] {
                    Some(seg) => {
                        let lv = seg.live;
                        proof {
                            assert(count_some(old(self).seg(slab as int).slots@) >= 1) by {
                                lemma_count_some_bounds(old(self).seg(slab as int).slots@);
                                if count_some(old(self).seg(slab as int).slots@) == 0 {
                                    lemma_count_some_zero(old(self).seg(slab as int).slots@);
                                }
                            }
                        }
                        seg.slots[pos] = None;
                        seg.live = lv - 1;
                    },
                    None => {
                        proof {
                            assert(false);
                        }
                    },
                }
                proof {
                    lemma_count_some_update(old(self).seg(slab as int).slots@, pos as int, None);
                    assert(self.seg(slab as int).slots@ =~= old(self).seg(
                        slab as int,
                    ).slots@.update(pos as int, None));
                    lemma_total_live_update(old(self).segs@, slab as int, self.segs@[slab as int]);
                    assert(self.segs@ =~= old(self).segs@.update(
                        slab as int,
                        self.segs@[slab as int],
                    ));
                }
            },
        }
    }

    /// Finds the first free slot in segment `s`.
    fn find_free_pos(&self, s: usize) -> (t: usize)
        requires
            self.wf(),
            self.has_seg(s as int),
            count_some(self.seg(s as int).slots@) < self.seg(s as int).slots@.len(),
        ensures
            t < self.seg(s as int).slots@.len(),
            self.seg(s as int).slots@[t as int] is None,
    {
        let slot_count = match &self.segs[s] {
            Some(seg) => seg.slots.len(),
            None => 0,
        };
        let mut t: usize = 0;
        while t < slot_count
            invariant
                self.wf(),
                s < self.segs@.len(),
                self.has_seg(s as int),
                slot_count == self.seg(s as int).slots@.len(),
                count_some(self.seg(s as int).slots@) < self.seg(s as int).slots@.len(),
                t <= slot_count,
                forall|t2: int| 0 <= t2 < t ==> self.seg(s as int).slots@[t2] is Some,
            decreases slot_count - t,
        {
            let free = match &self.segs[s] {
                Some(seg) => match &seg.slots[t] {
                    Some(_) => false,
                    None => true,
                },
                None => false,
            };
            if free {
                return t;
            }
            t = t + 1;
        }
        proof {
            lemma_count_some_all_some(self.seg(s as int).slots@);
        }
        vstd::pervasive::unreached()
    }

    /// Appending a fresh empty segment leaves every observation of the
    /// store unchanged and adds one segment unit of capacity.
    proof fn lemma_push_empty_seg(pre: Self, post: Self, seg: Segment<K, V>)
        requires
            pre.wf_core(),
            seg.slots@.len() == pre.cap,
            seg.live == 0,
            count_some(seg.slots@) == 0,
            post.segs@ == pre.segs@.push(Some(seg)),
            post.cap == pre.cap,
            post.len == pre.len,
            post.head == pre.head,
            post.tail == pre.tail,
            post.timeout_secs == pre.timeout_secs,
            post.order@ == pre.order@,
            total_cap(pre.segs@) + pre.cap <= usize::MAX,
        ensures
            post.wf_core(),
            post.recs() == pre.recs(),
            forall|q: Pointer|
                #![trigger post.live_at(q)]
                #![trigger pre.live_at(q)]
                post.live_at(q) == pre.live_at(q),
            forall|q: Pointer|
                #![trigger post.entry(q)]
                #![trigger pre.entry(q)]
                pre.live_at(q) ==> post.entry(q) == pre.entry(q),
            total_live(post.segs@) == total_live(pre.segs@),
            total_cap(post.segs@) == total_cap(pre.segs@) + pre.cap,
    {
        let new_id = pre.segs@.len() as int;
        lemma_total_live_push(pre.segs@, Some(seg));
        lemma_count_some_zero(seg.slots@);
        assert(forall|s2: int| 0 <= s2 < pre.segs@.len() ==> post.segs@[s2] == pre.segs@[s2]);
        assert forall|q: Pointer|
            #![trigger post.live_at(q)]
            #![trigger pre.live_at(q)]
            post.live_at(q) == pre.live_at(q) by {
            match q {
                Pointer::Null => {},
                Pointer::InternalPointer { slab, pos } => {
                    if slab == new_id {
                        assert(!pre.has_seg(slab as int));
                        if (pos as int) < post.seg(slab as int).slots@.len() {
                            assert(post.seg(slab as int).slots@[pos as int] is None);
                        }
                    }
                },
            }
        }
        assert forall|q: Pointer|
            #![trigger post.entry(q)]
            #![trigger pre.entry(q)]
            pre.live_at(q) implies post.entry(q) == pre.entry(q) by {}
        assert(post.recs() =~= pre.recs());
        assert(post.wf_core()) by {
            assert forall|s2: int| 0 <= s2 < post.segs@.len() implies post.seg_ok(s2) by {
                if s2 < pre.segs@.len() {
                    assert(pre.seg_ok(s2));
                }
            }
            assert forall|i: int| 0 <= i < post.order@.len() implies post.live_at(
                #[trigger] post.order@[i],
            ) by {
                assert(pre.live_at(pre.order@[i]));
            }
            assert forall|p: Pointer| #[trigger] post.live_at(p) implies post.order@.contains(
                p,
            ) by {
                assert(pre.live_at(p));
            }
        }
    }

    /// Finds a segment with a free slot, appending a fresh segment of
    /// `cap` slots when every existing one is full. The store's
    /// contents are untouched; capacity grows exactly when the store
    /// was full.
    #[verifier::rlimit(100)]
    #[verifier::spinoff_prover]
    fn find_space(&mut self) -> (r: (usize, usize))
        requires
            old(self).wf(),
            old(self).capacity_spec() + old(self).unit() <= usize::MAX,
        ensures
            final(self).wf_core(),
            final(self).cap == old(self).cap,
            final(self).len == old(self).len,
            final(self).head == old(self).head,
            final(self).tail == old(self).tail,
            final(self).timeout_secs == old(self).timeout_secs,
            final(self).order@ == old(self).order@,
            final(self).recs() == old(self).recs(),
            forall|q: Pointer|
                #![trigger final(self).live_at(q)]
                #![trigger old(self).live_at(q)]
                final(self).live_at(q) == old(self).live_at(q),
            forall|q: Pointer|
                #![trigger final(self).entry(q)]
                #![trigger old(self).entry(q)]
                old(self).live_at(q) ==> final(self).entry(q) == old(self).entry(q),
            final(self).has_seg(r.0 as int),
            final(self).seg_ok(r.0 as int),
            r.1 < final(self).seg(r.0 as int).slots@.len(),
            final(self).seg(r.0 as int).slots@[r.1 as int] is None,
            forall|s2: int|
                final(self).has_seg(s2) && s2 != r.0 ==> 0 <= s2 < old(self).segs@.len()
                    && final(self).segs@[s2] == old(self).segs@[s2] && #[trigger] old(self).has_seg(
                    s2,
                ),
            final(self).capacity_spec() == (if old(self).recs().len() < old(self).capacity_spec() {
                old(self).capacity_spec()
            } else {
                old(self).capacity_spec() + old(self).unit()
            }),
            total_live(final(self).segs@) == total_live(old(self).segs@),
            forall|s2: int|
                final(self).has_seg(s2) && s2 != r.0 ==> seg_live(#[trigger] final(self).segs@[s2])
                    >= 1,
    {
        let ghost pre = *self;
        let mut s: usize = 0;
        while s < self.segs.len()
            invariant
                *self == pre,
                self.wf(),
                s <= self.segs@.len(),
                forall|s2: int|
                    0 <= s2 < s && #[trigger] self.has_seg(s2) ==> count_some(self.seg(s2).slots@)
                        == self.seg(s2).slots@.len(),
            decreases self.segs@.len() - s,
        {
            let found = match &self.segs[s] {
                Some(seg) => seg.live < self.cap,
                None => false,
            };
            if found {
                proof {
                    assert(self.seg_ok(s as int));
                    lemma_total_live_lt(self.segs@, s as int);
                }
                let t = self.find_free_pos(s);
                proof {
                    assert forall|s2: int|
                        self.has_seg(s2) && s2 != s implies seg_live(#[trigger] self.segs@[s2])
                        >= 1 by {
                        if !(seg_live(self.segs@[s2]) >= 1) {
                            assert(self.order@.len() == 0 && self.segs@.len() == 1 && s2 == 0);
                        }
                    }
                }
                return (s, t);
            }
            proof {
                if self.has_seg(s as int) {
                    assert(self.seg_ok(s as int));
                    lemma_count_some_bounds(self.seg(s as int).slots@);
                }
            }
            s = s + 1;
        }
        // Every segment is full: grow by one segment.
        proof {
            assert forall|s2: int|
                0 <= s2 < self.segs@.len() && (#[trigger] self.segs@[s2]) is Some implies count_some(
                self.segs@[s2].unwrap().slots@,
            ) == self.segs@[s2].unwrap().slots@.len() by {
                assert(self.has_seg(s2));
                assert(self.seg_ok(s2));
            }
            lemma_total_all_full(self.segs@);
            assert(pre.recs().len() == pre.capacity_spec());
        }
        let seg = Self::make_segment(self.cap);
        let new_id = self.segs.len();
        self.segs.push(Some(seg));
        proof {
            Self::lemma_push_empty_seg(pre, *self, seg);
            assert(self.has_seg(new_id as int));
            assert(self.seg(new_id as int).slots@[0] is None);
            assert(self.seg_ok(new_id as int));
            assert forall|s2: int|
                self.has_seg(s2) && s2 != new_id implies seg_live(#[trigger] self.segs@[s2])
                >= 1 by {
                assert(pre.has_seg(s2));
                assert(self.segs@[s2] == pre.segs@[s2]);
                assert(count_some(pre.seg(s2).slots@) == pre.seg(s2).slots@.len());
                assert(pre.seg_ok(s2));
                assert(pre.seg(s2).slots@.len() == pre.cap);
            }
        }
        (new_id, 0)
    }

    /// When no live entry carries a key with view `kv`, every live
    /// entry's key differs from it.
    proof fn lemma_not_has_key_live(self, kv: <K as View>::V)
        requires
            self.wf_core(),
            !has_key(self.recs(), kv),
        ensures
            forall|q: Pointer| #[trigger] self.live_at(q) ==> self.entry(q).spec_key()@ != kv,
    {
        assert forall|q: Pointer| #[trigger] self.live_at(q) implies self.entry(q).spec_key()@
            != kv by {
            assert(self.order@.contains(q));
            let w = choose|w: int| 0 <= w < self.order@.len() && self.order@[w] == q;
            assert(self.recs()[w].key@ == self.entry(q).spec_key()@);
        }
    }

    /// Rewriting the stored fields of one entry, links untouched,
    /// preserves well-formedness as long as the new key stays unique,
    /// and updates exactly one model record.
    #[verifier::rlimit(100)]
    #[verifier::spinoff_prover]
    proof fn lemma_content_update_wf(pre: Self, post: Self, p: Pointer)
        requires
            pre.wf(),
            pre.live_at(p),
            Self::frame_except(pre, post, p),
            post.entry(p).spec_next() == pre.entry(p).spec_next(),
            post.entry(p).spec_prev() == pre.entry(p).spec_prev(),
            forall|q: Pointer|
                #[trigger] pre.live_at(q) && q != p ==> pre.entry(q).spec_key()@ != post.entry(
                    p,
                ).spec_key()@,
        ensures
            post.wf(),
            post.recs() == pre.recs().update(
                pre.order@.index_of(p),
                (Rec {
                    key: post.entry(p).spec_key(),
                    data: post.entry(p).spec_data(),
                    ts: post.entry(p).spec_timestamp(),
                }),
            ),
            total_cap(post.segs@) == total_cap(pre.segs@),
    {
        let ord = pre.order@;
        let n = ord.len() as int;
        assert(ord.contains(p));
        let i = ord.index_of(p);
        let w = choose|w: int| 0 <= w < n && ord[w] == p;
        assert(ord[w] == p);
        assert(0 <= i < n && ord[i] == p);
        Self::lemma_same_shape_counts(pre, post);
        assert forall|j: int| 0 <= j < n implies post.live_at(#[trigger] ord[j]) && post.entry(
            ord[j],
        ).spec_prev() == pre.entry(ord[j]).spec_prev() && post.entry(ord[j]).spec_next()
            == pre.entry(ord[j]).spec_next() by {
            assert(pre.live_at(ord[j]));
            if ord[j] != p {
                assert(post.entry(ord[j]) == pre.entry(ord[j]));
            }
        }
        assert forall|q: Pointer| #[trigger] post.live_at(q) implies post.order@.contains(q) by {
            assert(pre.live_at(q));
        }
        assert forall|q1: Pointer, q2: Pointer|
            #[trigger] post.live_at(q1) && #[trigger] post.live_at(q2) && q1 != q2 implies post.entry(
            q1,
        ).spec_key()@ != post.entry(q2).spec_key()@ by {
            assert(pre.live_at(q1) && pre.live_at(q2));
            if q1 != p && q2 != p {
                assert(post.entry(q1) == pre.entry(q1));
                assert(post.entry(q2) == pre.entry(q2));
            } else if q1 == p {
                assert(post.entry(q2) == pre.entry(q2));
            } else {
                assert(post.entry(q1) == pre.entry(q1));
            }
        }
        assert(post.wf()) by {
            assert forall|s: int| 0 <= s < post.segs@.len() implies post.seg_ok(s) by {
                if pre.has_seg(s) {
                    assert(post.has_seg(s));
                    assert(post.seg(s).slots@.len() == pre.seg(s).slots@.len());
                    assert(post.seg(s).live == pre.seg(s).live);
                    assert(count_some(post.seg(s).slots@) == count_some(pre.seg(s).slots@));
                    assert(pre.seg_ok(s));
                } else {
                    assert(!post.has_seg(s));
                }
            }
            assert(post.seg_rule()) by {
                assert(forall|s: int|
                    post.has_seg(s) ==> pre.has_seg(s) && seg_live(#[trigger] post.segs@[s])
                        == seg_live(pre.segs@[s]));
            }
        }
        assert(post.recs() =~= pre.recs().update(
            i,
            (Rec {
                key: post.entry(p).spec_key(),
                data: post.entry(p).spec_data(),
                ts: post.entry(p).spec_timestamp(),
            }),
        )) by {
            assert forall|j: int| 0 <= j < n implies post.recs()[j] == pre.recs().update(
                i,
                (Rec {
                    key: post.entry(p).spec_key(),
                    data: post.entry(p).spec_data(),
                    ts: post.entry(p).spec_timestamp(),
                }),
            )[j] by {
                if j != i {
                    assert(ord[j] != p);
                    assert(pre.live_at(ord[j]));
                    assert(post.entry(ord[j]) == pre.entry(ord[j]));
                }
            }
        }
    }

    /// Promotes the entry at `p` and refreshes its stamp to `now`,
    /// keeping its key and value: the effect of a successful lookup.
    pub fn touch(&mut self, p: Pointer, now: u64)
        requires
            old(self).wf(),
            old(self).live_at(p),
        ensures
            final(self).wf(),
            final(self).unit() == old(self).unit(),
            final(self).timeout() == old(self).timeout(),
            final(self).capacity_spec() == old(self).capacity_spec(),
            final(self).order() == seq![p] + old(self).order().remove(
                old(self).order().index_of(p),
            ),
            final(self).recs() == refreshed(
                old(self).recs(),
                old(self).order().index_of(p),
                old(self).recs()[old(self).order().index_of(p)].data,
                now,
            ),
            final(self).live_at(p),
            final(self).entry(p).spec_data() == old(self).recs()[old(self).order().index_of(
                p,
            )].data,
    {
        let ghost pre = *self;
        let ghost i = pre.order@.index_of(p);
        self.move_to_top(p);
        let ghost mid = *self;
        self.set_ts(p, now);
        proof {
            assert(mid.live_at(p));
            assert(mid.order@[0] == p);
            assert forall|q: Pointer| #[trigger]
                mid.live_at(q) && q != p implies mid.entry(q).spec_key()@ != self.entry(
                p,
            ).spec_key()@ by {
                assert(pre.live_at(q) && pre.live_at(p));
            }
            Self::lemma_content_update_wf(mid, *self, p);
            assert(mid.order@.index_of(p) == 0) by {
                let w = mid.order@.index_of(p);
                assert(mid.order@.contains(p)) by {
                    assert(mid.order@[0] == p);
                }
                if w != 0 {
                    assert(mid.order@[w] == mid.order@[0]);
                }
            }
            assert(self.recs() =~= refreshed(pre.recs(), i, pre.recs()[i].data, now));
        }
    }

    /// Replaces the value at `p` with `data`, refreshes the stamp and
    /// promotes the entry, returning the value that was stored: the
    /// effect of an insertion over a present key.
    pub fn update(&mut self, p: Pointer, data: V, now: u64) -> (r: V)
        requires
            old(self).wf(),
            old(self).live_at(p),
        ensures
            final(self).wf(),
            final(self).unit() == old(self).unit(),
            final(self).timeout() == old(self).timeout(),
            final(self).capacity_spec() == old(self).capacity_spec(),
            final(self).order() == seq![p] + old(self).order().remove(
                old(self).order().index_of(p),
            ),
            final(self).recs() == refreshed(
                old(self).recs(),
                old(self).order().index_of(p),
                data,
                now,
            ),
            r == old(self).recs()[old(self).order().index_of(p)].data,
    {
        let ghost pre = *self;
        let ghost i = pre.order@.index_of(p);
        self.move_to_top(p);
        let ghost mid = *self;
        let r = self.replace_data_ts(p, data, now);
        proof {
            assert(mid.live_at(p));
            assert(mid.order@[0] == p);
            assert forall|q: Pointer| #[trigger]
                mid.live_at(q) && q != p implies mid.entry(q).spec_key()@ != self.entry(
                p,
            ).spec_key()@ by {
                assert(pre.live_at(q) && pre.live_at(p));
            }
            Self::lemma_content_update_wf(mid, *self, p);
            assert(mid.order@.index_of(p) == 0) by {
                let w = mid.order@.index_of(p);
                assert(mid.order@.contains(p)) by {
                    assert(mid.order@[0] == p);
                }
                if w != 0 {
                    assert(mid.order@[w] == mid.order@[0]);
                }
            }
            assert(self.recs() =~= refreshed(pre.recs(), i, data, now));
        }
        r
    }

    /// Reads the value stored at `p`.
    pub fn data_ref(&self, p: Pointer) -> (r: &V)
        requires
            self.live_at(p),
        ensures
            *r == self.entry(p).spec_data(),
    {
        &self.entry_ref(p).data
    }

    /// The effect of a lookup that already resolved its key to `p`:
    /// stale entries report absent without any change; fresh entries
    /// are promoted and refreshed and their value returned.
    pub fn get(&mut self, p: Pointer, now: u64) -> (r: Option<&V>)
        requires
            old(self).wf(),
            old(self).live_at(p),
        ensures
            final(self).wf(),
            final(self).unit() == old(self).unit(),
            final(self).timeout() == old(self).timeout(),
            final(self).capacity_spec() == old(self).capacity_spec(),
            ({
                let i = old(self).order().index_of(p);
                let recs = old(self).recs();
                if expired(recs[i].ts, old(self).timeout(), now) {
                    &&& *final(self) == *old(self)
                    &&& r is None
                } else {
                    &&& final(self).recs() == refreshed(recs, i, recs[i].data, now)
                    &&& final(self).order() == seq![p] + old(self).order().remove(i)
                    &&& (r matches Some(v) && *v == recs[i].data)
                }
            }),
    {
        let ghost pre = *self;
        let ghost i = pre.order@.index_of(p);
        proof {
            assert(pre.order@.contains(p));
            let w = choose|w: int| 0 <= w < pre.order@.len() && pre.order@[w] == p;
            assert(pre.order@[w] == p);
            assert(0 <= i < pre.order@.len() && pre.order@[i] == p);
            assert(pre.recs()[i].ts == pre.entry(p).spec_timestamp());
        }
        let ts = self.stamp(p);
        if self.timeout_secs <= now && ts <= now - self.timeout_secs {
            None
        } else {
            self.touch(p, now);
            let r = self.data_ref(p);
            Some(r)
        }
    }

    /// Rebuilds well-formedness after a fresh entry is stored in a
    /// free slot and linked in at the head.
    #[verifier::rlimit(100)]
    #[verifier::spinoff_prover]
    proof fn lemma_insert_rebuild(mid: Self, post: Self, p: Pointer)
        requires
            mid.wf_core(),
            p is InternalPointer,
            !mid.live_at(p),
            post.order@ == seq![p] + mid.order@,
            post.head == p,
            post.tail == (if mid.order@.len() == 0 {
                p
            } else {
                mid.tail
            }),
            post.len == mid.len + 1,
            post.cap == mid.cap,
            post.timeout_secs == mid.timeout_secs,
            post.segs@.len() == mid.segs@.len(),
            forall|s2: int| 0 <= s2 < mid.segs@.len() ==> post.has_seg(s2) == mid.has_seg(s2),
            forall|s2: int|
                #[trigger] mid.has_seg(s2) && s2 != p->slab ==> post.seg(s2).slots@.len()
                    == mid.seg(s2).slots@.len() && post.seg(s2).live == mid.seg(s2).live
                    && count_some(post.seg(s2).slots@) == count_some(mid.seg(s2).slots@),
            post.has_seg(p->slab as int),
            post.seg(p->slab as int).slots@.len() == mid.seg(p->slab as int).slots@.len(),
            post.seg(p->slab as int).live == mid.seg(p->slab as int).live + 1,
            count_some(post.seg(p->slab as int).slots@) == count_some(
                mid.seg(p->slab as int).slots@,
            ) + 1,
            mid.has_seg(p->slab as int),
            mid.seg_ok(p->slab as int),
            post.live_at(p),
            forall|q: Pointer|
                #![trigger post.live_at(q)]
                #![trigger mid.live_at(q)]
                q != p ==> post.live_at(q) == mid.live_at(q),
            post.entry(p).spec_next() == mid.head,
            post.entry(p).spec_prev() == Pointer::Null,
            mid.order@.len() > 0 ==> post.entry(mid.order@[0]).spec_prev() == p && post.entry(
                mid.order@[0],
            ).spec_next() == mid.entry(mid.order@[0]).spec_next() && post.entry(
                mid.order@[0],
            ).spec_key() == mid.entry(mid.order@[0]).spec_key() && post.entry(
                mid.order@[0],
            ).spec_data() == mid.entry(mid.order@[0]).spec_data() && post.entry(
                mid.order@[0],
            ).spec_timestamp() == mid.entry(mid.order@[0]).spec_timestamp(),
            forall|q: Pointer| #[trigger]
                mid.live_at(q) && q != p && !(mid.order@.len() > 0 && q == mid.order@[0])
                    ==> post.entry(q) == mid.entry(q),
            forall|q: Pointer| #[trigger]
                mid.live_at(q) ==> mid.entry(q).spec_key()@ != post.entry(p).spec_key()@,
            forall|s2: int|
                post.has_seg(s2) && s2 != p->slab ==> seg_live(#[trigger] post.segs@[s2]) >= 1,
            total_cap(post.segs@) == total_cap(mid.segs@),
            total_live(post.segs@) == total_live(mid.segs@) + 1,
        ensures
            post.wf(),
            post.recs() == seq![
                (Rec {
                    key: post.entry(p).spec_key(),
                    data: post.entry(p).spec_data(),
                    ts: post.entry(p).spec_timestamp(),
                }),
            ] + mid.recs(),
    {
        let ord = mid.order@;
        let ord2 = post.order@;
        let n = ord.len() as int;
        assert(ord2.len() == n + 1);
        assert(ord2[0] == p);
        assert(forall|w: int| 1 <= w <= n ==> ord2[w] == ord[w - 1]);
        assert(ord2.no_duplicates()) by {
            assert forall|w: int| 0 <= w < n implies ord[w] != p by {
                assert(mid.live_at(ord[w]));
            }
        }
        assert forall|j: int| 0 <= j < n + 1 implies post.live_at(#[trigger] ord2[j]) && (
        #[trigger] post.entry(ord2[j])).spec_prev() == (if j == 0 {
            Pointer::Null
        } else {
            ord2[j - 1]
        }) && post.entry(ord2[j]).spec_next() == (if j == n {
            Pointer::Null
        } else {
            ord2[j + 1]
        }) by {
            if j == 0 {
                assert(mid.head == (if n == 0 {
                    Pointer::Null
                } else {
                    ord[0]
                }));
            } else {
                let q = ord2[j];
                assert(q == ord[j - 1]);
                assert(mid.live_at(q));
                assert(q != p);
                if j == 1 {
                    assert(q == ord[0]);
                    if n >= 2 {
                        assert(ord2[2] == ord[1]);
                    }
                } else {
                    assert(!(n > 0 && q == ord[0]));
                    assert(post.entry(q) == mid.entry(q));
                    assert(mid.entry(q).spec_prev() == ord[j - 2]);
                    assert(ord2[j - 1] == ord[j - 2]);
                    if j < n {
                        assert(mid.entry(q).spec_next() == ord[j - 1 + 1]);
                        assert(ord2[j + 1] == ord[j]);
                    } else {
                        assert(mid.entry(q).spec_next() == Pointer::Null);
                    }
                }
            }
        }
        assert forall|q: Pointer| #[trigger] post.live_at(q) implies ord2.contains(q) by {
            if q == p {
                assert(ord2[0] == p);
            } else {
                assert(mid.live_at(q));
                assert(ord.contains(q));
                let w = choose|w: int| 0 <= w < ord.len() && ord[w] == q;
                assert(ord2[w + 1] == q);
            }
        }
        assert forall|q1: Pointer, q2: Pointer|
            #[trigger] post.live_at(q1) && #[trigger] post.live_at(q2) && q1 != q2 implies post.entry(
            q1,
        ).spec_key()@ != post.entry(q2).spec_key()@ by {
            if q1 == p {
                assert(mid.live_at(q2));
                assert(post.entry(q2).spec_key() == mid.entry(q2).spec_key()) by {
                    if !(n > 0 && q2 == ord[0]) {
                        assert(post.entry(q2) == mid.entry(q2));
                    }
                }
            } else if q2 == p {
                assert(mid.live_at(q1));
                assert(post.entry(q1).spec_key() == mid.entry(q1).spec_key()) by {
                    if !(n > 0 && q1 == ord[0]) {
                        assert(post.entry(q1) == mid.entry(q1));
                    }
                }
            } else {
                assert(mid.live_at(q1) && mid.live_at(q2));
                assert(post.entry(q1).spec_key() == mid.entry(q1).spec_key()) by {
                    if !(n > 0 && q1 == ord[0]) {
                        assert(post.entry(q1) == mid.entry(q1));
                    }
                }
                assert(post.entry(q2).spec_key() == mid.entry(q2).spec_key()) by {
                    if !(n > 0 && q2 == ord[0]) {
                        assert(post.entry(q2) == mid.entry(q2));
                    }
                }
            }
        }
        assert(post.wf()) by {
            assert forall|s: int| 0 <= s < post.segs@.len() implies post.seg_ok(s) by {
                if s != p->slab {
                    if mid.has_seg(s) {
                        assert(post.has_seg(s));
                        assert(mid.seg_ok(s));
                    } else {
                        assert(!post.has_seg(s));
                    }
                } else {
                    assert(mid.seg_ok(s));
                }
            }
            assert(post.seg_rule()) by {
                assert(seg_live(post.segs@[p->slab as int]) >= 1) by {
                    lemma_count_some_bounds(mid.seg(p->slab as int).slots@);
                }
            }
            assert(post.tail == (if ord2.len() == 0 {
                Pointer::Null
            } else {
                ord2.last()
            })) by {
                if n == 0 {
                    assert(ord2.last() == p);
                } else {
                    assert(ord2.last() == ord[n - 1]);
                    assert(mid.tail == ord.last());
                }
            }
        }
        assert(post.recs() =~= seq![
            (Rec {
                key: post.entry(p).spec_key(),
                data: post.entry(p).spec_data(),
                ts: post.entry(p).spec_timestamp(),
            }),
        ] + mid.recs()) by {
            assert forall|j: int| 0 <= j < n + 1 implies post.recs()[j] == (seq![
                (Rec {
                    key: post.entry(p).spec_key(),
                    data: post.entry(p).spec_data(),
                    ts: post.entry(p).spec_timestamp(),
                }),
            ] + mid.recs())[j] by {
                if j >= 1 {
                    let q = ord2[j];
                    assert(q == ord[j - 1]);
                    assert(mid.live_at(q));
                    assert(post.entry(q).spec_key() == mid.entry(q).spec_key() && post.entry(
                        q,
                    ).spec_data() == mid.entry(q).spec_data() && post.entry(q).spec_timestamp()
                        == mid.entry(q).spec_timestamp()) by {
                        if !(n > 0 && q == ord[0]) {
                            assert(post.entry(q) == mid.entry(q));
                        }
                    }
                }
            }
        }
    }

    /// Recycles the stale least recent entry for a new key and value,
    /// returning the key and value that were stored.
    #[verifier::rlimit(100)]
    #[verifier::spinoff_prover]
    fn put_reuse(&mut self, key: K, data: V, now: u64) -> (r: (Pointer, (K, V)))
        requires
            old(self).wf(),
            !has_key(old(self).recs(), key@),
            old(self).recs().len() > 0,
        ensures
            final(self).wf(),
            final(self).unit() == old(self).unit(),
            final(self).timeout() == old(self).timeout(),
            final(self).capacity_spec() == old(self).capacity_spec(),
            final(self).recs() == seq![(Rec { key, data, ts: now })] + old(
                self,
            ).recs().drop_last(),
            r.1.0 == old(self).recs().last().key,
            r.1.1 == old(self).recs().last().data,
            final(self).order() == seq![old(self).order().last()] + old(
                self,
            ).order().drop_last(),
            r.0 == old(self).order().last(),
    {
        let ghost pre = *self;
        let ghost n = pre.order@.len() as int;
        let tl = self.tail;
        proof {
            assert(pre.live_at(pre.order@.last()));
            assert(tl == pre.order@.last());
            assert(pre.order@.index_of(tl) == n - 1) by {
                let w = pre.order@.index_of(tl);
                assert(pre.order@.contains(tl)) by {
                    assert(pre.order@[n - 1] == tl);
                }
                if w != n - 1 {
                    assert(pre.order@[w] == pre.order@[n - 1]);
                }
            }
            pre.lemma_not_has_key_live(key@);
        }
        self.move_to_top(tl);
        let ghost mid = *self;
        let (old_key, old_data) = self.refresh_entry(tl, key, data, now);
        proof {
            assert(mid.live_at(tl));
            assert(mid.order@[0] == tl);
            assert forall|q: Pointer| #[trigger]
                mid.live_at(q) && q != tl implies mid.entry(q).spec_key()@ != self.entry(
                tl,
            ).spec_key()@ by {
                assert(pre.live_at(q));
                assert(mid.entry(q).spec_key() == pre.entry(q).spec_key());
            }
            Self::lemma_content_update_wf(mid, *self, tl);
            assert(mid.order@.index_of(tl) == 0) by {
                let w = mid.order@.index_of(tl);
                assert(mid.order@.contains(tl)) by {
                    assert(mid.order@[0] == tl);
                }
                if w != 0 {
                    assert(mid.order@[w] == mid.order@[0]);
                }
            }
            assert(pre.recs().remove(n - 1) =~= pre.recs().drop_last());
            assert(pre.order@.remove(n - 1) =~= pre.order@.drop_last());
            assert(self.recs() =~= seq![(Rec { key, data, ts: now })] + pre.recs().drop_last());
            assert(old_key == pre.recs().last().key);
            assert(old_data == pre.recs().last().data);
        }
        (tl, (old_key, old_data))
    }

    /// Fills the free slot `(s, t)` with a fresh entry and links it
    /// in at the head of the recency list.
    #[verifier::rlimit(100)]
    #[verifier::spinoff_prover]
    fn insert_at(&mut self, s: usize, t: usize, key: K, data: V, now: u64) -> (r: Pointer)
        requires
            old(self).wf_core(),
            old(self).has_seg(s as int),
            old(self).seg_ok(s as int),
            t < old(self).seg(s as int).slots@.len(),
            old(self).seg(s as int).slots@[t as int] is None,
            forall|q: Pointer| #[trigger]
                old(self).live_at(q) ==> old(self).entry(q).spec_key()@ != key@,
            forall|s2: int|
                old(self).has_seg(s2) && s2 != s ==> seg_live(#[trigger] old(self).segs@[s2]) >= 1,
        ensures
            final(self).wf(),
            final(self).unit() == old(self).unit(),
            final(self).timeout() == old(self).timeout(),
            final(self).capacity_spec() == old(self).capacity_spec(),
            final(self).recs() == seq![(Rec { key, data, ts: now })] + old(self).recs(),
            final(self).order() == seq![r] + old(self).order(),
    {
        let ghost mid = *self;
        let p = Pointer::InternalPointer { slab: s, pos: t };
        let h = self.head;
        let e = Entry::new_at(key, data, now, h, Pointer::null());
        proof {
            assert(!mid.live_at(p));
            lemma_count_some_missing(mid.seg(s as int).slots@, t as int);
            lemma_total_live_lt(mid.segs@, s as int);
            lemma_total_le(mid.segs@);
        }
        self.fill_slot(s, t, e);
        let ghost m1 = *self;
        if h.is_null() {
            self.tail = p;
        } else {
            proof {
                assert(mid.order@.len() > 0);
                assert(h == mid.order@[0]);
                assert(mid.live_at(h));
                assert(self.live_at(h));
                assert(h != p);
            }
            self.set_prev(h, p);
        }
        let ghost m2 = *self;
        self.head = p;
        self.len = self.len + 1;
        proof {
            self.order@ = seq![p] + mid.order@;
        }
        proof {
            let post = *self;
            assert(post.segs == m2.segs);
            assert forall|q: Pointer| #[trigger]
                mid.live_at(q) && q != p && !(mid.order@.len() > 0 && q == mid.order@[0]) implies post.entry(
                q,
            ) == mid.entry(q) by {}
            assert forall|q: Pointer| #[trigger]
                mid.live_at(q) implies mid.entry(q).spec_key()@ != post.entry(p).spec_key()@ by {}
            assert forall|s2: int|
                0 <= s2 < mid.segs@.len() implies post.has_seg(s2) == mid.has_seg(s2) by {
                assert(m1.has_seg(s2) == m2.has_seg(s2));
                if s2 != s {
                    assert(m1.segs@[s2] == mid.segs@[s2]);
                }
            }
            assert forall|s2: int|
                #[trigger] mid.has_seg(s2) && s2 != s implies post.seg(s2).slots@.len() == mid.seg(
                s2,
            ).slots@.len() && post.seg(s2).live == mid.seg(s2).live && count_some(
                post.seg(s2).slots@,
            ) == count_some(mid.seg(s2).slots@) by {
                assert(m1.segs@[s2] == mid.segs@[s2]);
                assert(m1.has_seg(s2));
                assert(m2.seg(s2).slots@.len() == m1.seg(s2).slots@.len());
                assert(m2.seg(s2).live == m1.seg(s2).live);
                assert(count_some(m2.seg(s2).slots@) == count_some(m1.seg(s2).slots@));
            }
            assert(post.has_seg(s as int) && post.seg(s as int).slots@.len() == mid.seg(
                s as int,
            ).slots@.len() && post.seg(s as int).live == mid.seg(s as int).live + 1 && count_some(
                post.seg(s as int).slots@,
            ) == count_some(mid.seg(s as int).slots@) + 1) by {
                assert(m1.has_seg(s as int));
                assert(m2.has_seg(s as int) == m1.has_seg(s as int));
                assert(m2.seg(s as int).slots@.len() == m1.seg(s as int).slots@.len());
                assert(m2.seg(s as int).live == m1.seg(s as int).live);
                assert(count_some(m2.seg(s as int).slots@) == count_some(m1.seg(s as int).slots@));
            }
            assert(Self::same_shape(m1, m2));
            Self::lemma_same_shape_counts(m1, m2);
            assert(total_cap(post.segs@) == total_cap(mid.segs@));
            assert(total_live(post.segs@) == total_live(mid.segs@) + 1);
            assert forall|s2: int|
                post.has_seg(s2) && s2 != p->slab implies seg_live(#[trigger] post.segs@[s2])
                >= 1 by {
                assert(mid.has_seg(s2));
                assert(seg_live(mid.segs@[s2]) >= 1);
                assert(seg_live(post.segs@[s2]) == count_some(post.seg(s2).slots@));
            }
            Self::lemma_insert_rebuild(mid, post, p);
        }
        p
    }

    /// Stores a new key and value in a free slot, growing the store
    /// by one segment only if every slot is in use, and links the new
    /// entry in at the head.
    fn put_alloc(&mut self, key: K, data: V, now: u64) -> (r: Pointer)
        requires
            old(self).wf(),
            !has_key(old(self).recs(), key@),
            old(self).capacity_spec() + old(self).unit() <= usize::MAX,
        ensures
            final(self).wf(),
            final(self).unit() == old(self).unit(),
            final(self).timeout() == old(self).timeout(),
            final(self).recs() == seq![(Rec { key, data, ts: now })] + old(self).recs(),
            final(self).capacity_spec() == (if old(self).recs().len() < old(
                self,
            ).capacity_spec() {
                old(self).capacity_spec()
            } else {
                old(self).capacity_spec() + old(self).unit()
            }),
            final(self).order() == seq![r] + old(self).order(),
    {
        let (s, t) = self.find_space();
        proof {
            self.lemma_not_has_key_live(key@);
        }
        self.insert_at(s, t, key, data, now)
    }

    /// Inserts a key that is not in the store. When the least recent
    /// entry is stale it is recycled in place of an allocation and its
    /// key and value are returned; otherwise a fresh slot is used,
    /// growing the store by one segment only if every slot is in use.
    pub fn put(&mut self, key: K, data: V, now: u64) -> (r: (Pointer, Option<(K, V)>))
        requires
            old(self).wf(),
            !has_key(old(self).recs(), key@),
            old(self).capacity_spec() + old(self).unit() <= usize::MAX,
        ensures
            final(self).wf(),
            final(self).unit() == old(self).unit(),
            final(self).timeout() == old(self).timeout(),
            ({
                let recs = old(self).recs();
                let t = old(self).timeout();
                if recs.len() > 0 && expired(recs.last().ts, t, now) {
                    &&& final(self).recs() == seq![(Rec { key, data, ts: now })]
                        + recs.drop_last()
                    &&& (r.1 matches Some(kv) && kv.0 == recs.last().key && kv.1
                        == recs.last().data)
                    &&& final(self).capacity_spec() == old(self).capacity_spec()
                    &&& final(self).order() == seq![old(self).order().last()] + old(
                        self,
                    ).order().drop_last()
                    &&& r.0 == old(self).order().last()
                } else {
                    &&& final(self).recs() == seq![(Rec { key, data, ts: now })] + recs
                    &&& r.1 is None
                    &&& final(self).capacity_spec() == (if recs.len() < old(
                        self,
                    ).capacity_spec() {
                        old(self).capacity_spec()
                    } else {
                        old(self).capacity_spec() + old(self).unit()
                    })
                    &&& final(self).order() == seq![r.0] + old(self).order()
                }
            }),
    {
        let ghost pre = *self;
        if !self.tail.is_null() {
            proof {
                assert(pre.order@.len() > 0);
                assert(pre.live_at(pre.order@.last()));
                assert(pre.recs().last().ts == pre.entry(pre.order@.last()).spec_timestamp());
            }
            let tl = self.tail;
            let ts = self.stamp(tl);
            if self.timeout_secs <= now && ts <= now - self.timeout_secs {
                let (p, kv) = self.put_reuse(key, data, now);
                return (p, Some(kv));
            }
        }
        let p = self.put_alloc(key, data, now);
        (p, None)
    }

    /// Rebuilds core well-formedness after the least recent entry is
    /// unlinked and its slot freed.
    #[verifier::rlimit(100)]
    #[verifier::spinoff_prover]
    proof fn lemma_pop_rebuild(pre: Self, post: Self, p: Pointer)
        requires
            pre.wf_core(),
            pre.order@.len() >= 1,
            p == pre.order@.last(),
            post.order@ == pre.order@.drop_last(),
            post.head == (if pre.order@.len() == 1 {
                Pointer::Null
            } else {
                pre.head
            }),
            post.tail == (if pre.order@.len() == 1 {
                Pointer::Null
            } else {
                pre.order@[pre.order@.len() - 2]
            }),
            post.len == pre.len - 1,
            post.cap == pre.cap,
            post.timeout_secs == pre.timeout_secs,
            post.segs@.len() == pre.segs@.len(),
            forall|s2: int| 0 <= s2 < pre.segs@.len() ==> post.has_seg(s2) == pre.has_seg(s2),
            forall|s2: int|
                #[trigger] pre.has_seg(s2) ==> post.seg(s2).slots@.len() == pre.seg(
                    s2,
                ).slots@.len() && count_some(post.seg(s2).slots@) == (count_some(
                    pre.seg(s2).slots@,
                ) - (if s2 == p->slab {
                    1int
                } else {
                    0int
                })) && post.seg(s2).live == pre.seg(s2).live - (if s2 == p->slab {
                    1int
                } else {
                    0int
                }),
            !post.live_at(p),
            forall|q: Pointer|
                #![trigger post.live_at(q)]
                #![trigger pre.live_at(q)]
                q != p ==> post.live_at(q) == pre.live_at(q),
            pre.order@.len() >= 2 ==> post.entry(pre.order@[pre.order@.len() - 2]).spec_next()
                == Pointer::Null && post.entry(pre.order@[pre.order@.len() - 2]).spec_prev()
                == pre.entry(pre.order@[pre.order@.len() - 2]).spec_prev() && post.entry(
                pre.order@[pre.order@.len() - 2],
            ).spec_key() == pre.entry(pre.order@[pre.order@.len() - 2]).spec_key() && post.entry(
                pre.order@[pre.order@.len() - 2],
            ).spec_data() == pre.entry(pre.order@[pre.order@.len() - 2]).spec_data() && post.entry(
                pre.order@[pre.order@.len() - 2],
            ).spec_timestamp() == pre.entry(pre.order@[pre.order@.len() - 2]).spec_timestamp(),
            forall|q: Pointer| #[trigger]
                pre.live_at(q) && q != p && !(pre.order@.len() >= 2 && q
                    == pre.order@[pre.order@.len() - 2]) ==> post.entry(q) == pre.entry(q),
            total_live(post.segs@) == total_live(pre.segs@) - 1,
            total_cap(post.segs@) == total_cap(pre.segs@),
        ensures
            post.wf_core(),
            post.recs() == pre.recs().drop_last(),
    {
        let ord = pre.order@;
        let ord2 = post.order@;
        let n = ord.len() as int;
        let pv = if n >= 2 {
            ord[n - 2]
        } else {
            Pointer::Null
        };
        assert(ord2.len() == n - 1);
        assert(forall|w: int| 0 <= w < n - 1 ==> ord2[w] == ord[w]);
        assert(pre.live_at(p));
        assert forall|w: int| 0 <= w < n - 1 implies ord[w] != p by {
            if ord[w] == p {
                assert(ord[w] == ord[n - 1]);
            }
        }
        assert forall|j: int| 0 <= j < n - 1 implies post.live_at(#[trigger] ord2[j]) && (
        #[trigger] post.entry(ord2[j])).spec_prev() == (if j == 0 {
            Pointer::Null
        } else {
            ord2[j - 1]
        }) && post.entry(ord2[j]).spec_next() == (if j == n - 2 {
            Pointer::Null
        } else {
            ord2[j + 1]
        }) && post.entry(ord2[j]).spec_key() == pre.entry(ord2[j]).spec_key() && post.entry(
            ord2[j],
        ).spec_data() == pre.entry(ord2[j]).spec_data() && post.entry(ord2[j]).spec_timestamp()
            == pre.entry(ord2[j]).spec_timestamp() by {
            let q = ord2[j];
            assert(q == ord[j]);
            assert(pre.live_at(q));
            assert(q != p);
            if j == n - 2 {
                assert(q == pv);
            } else {
                assert(!(n >= 2 && q == pv)) by {
                    if n >= 2 && q == pv {
                        assert(ord[j] == ord[n - 2]);
                    }
                }
                assert(post.entry(q) == pre.entry(q));
                assert(pre.entry(q).spec_next() == ord[j + 1]);
            }
        }
        assert forall|q: Pointer| #[trigger] post.live_at(q) implies ord2.contains(q) by {
            assert(pre.live_at(q));
            assert(ord.contains(q));
            let w = choose|w: int| 0 <= w < ord.len() && ord[w] == q;
            assert(q != p);
            assert(w != n - 1);
            assert(ord2[w] == q);
        }
        assert forall|q1: Pointer, q2: Pointer|
            #[trigger] post.live_at(q1) && #[trigger] post.live_at(q2) && q1 != q2 implies post.entry(
            q1,
        ).spec_key()@ != post.entry(q2).spec_key()@ by {
            assert(pre.live_at(q1) && pre.live_at(q2));
            assert(post.entry(q1).spec_key() == pre.entry(q1).spec_key()) by {
                if !(n >= 2 && q1 == pv) {
                    assert(post.entry(q1) == pre.entry(q1));
                }
            }
            assert(post.entry(q2).spec_key() == pre.entry(q2).spec_key()) by {
                if !(n >= 2 && q2 == pv) {
                    assert(post.entry(q2) == pre.entry(q2));
                }
            }
        }
        assert(post.wf_core()) by {
            assert forall|s: int| 0 <= s < post.segs@.len() implies post.seg_ok(s) by {
                if pre.has_seg(s) {
                    assert(post.has_seg(s));
                    assert(pre.seg_ok(s));
                } else {
                    assert(!post.has_seg(s));
                }
            }
            assert(post.head == (if ord2.len() == 0 {
                Pointer::Null
            } else {
                ord2[0]
            })) by {
                if n >= 2 {
                    assert(pre.head == ord[0]);
                    assert(ord2[0] == ord[0]);
                }
            }
            assert(post.tail == (if ord2.len() == 0 {
                Pointer::Null
            } else {
                ord2.last()
            })) by {
                if n >= 2 {
                    assert(ord2.last() == ord[n - 2]);
                }
            }
        }
        assert(post.recs() =~= pre.recs().drop_last()) by {
            assert forall|j: int| 0 <= j < n - 1 implies post.recs()[j] == pre.recs().drop_last()[j] by {
                assert(ord2[j] == ord[j]);
                assert(pre.live_at(ord[j]));
            }
        }
    }

    /// Unlinks the least recent entry and frees its slot.
    #[verifier::rlimit(100)]
    #[verifier::spinoff_prover]
    fn drop_tail(&mut self)
        requires
            old(self).wf_core(),
            old(self).order@.len() >= 1,
        ensures
            final(self).wf_core(),
            final(self).order@ == old(self).order@.drop_last(),
            final(self).recs() == old(self).recs().drop_last(),
            final(self).cap == old(self).cap,
            final(self).timeout_secs == old(self).timeout_secs,
            final(self).segs@.len() == old(self).segs@.len(),
            forall|s2: int|
                0 <= s2 < old(self).segs@.len() ==> final(self).has_seg(s2) == old(self).has_seg(
                    s2,
                ),
            total_cap(final(self).segs@) == total_cap(old(self).segs@),
    {
        let ghost pre = *self;
        let ghost n = pre.order@.len() as int;
        let p = self.tail;
        proof {
            assert(p == pre.order@.last());
            assert(pre.live_at(p));
        }
        let (nx, pv) = self.links(p);
        proof {
            assert(nx == Pointer::Null);
            assert(pv == (if n == 1 {
                Pointer::Null
            } else {
                pre.order@[n - 2]
            }));
            if n >= 2 {
                assert(pre.live_at(pv));
                assert(pv != p) by {
                    if pv == p {
                        assert(pre.order@[n - 2] == pre.order@[n - 1]);
                    }
                }
            }
        }
        self.clear_slot(p);
        let ghost m1 = *self;
        self.tail = pv;
        let ghost m15 = *self;
        if pv.is_null() {
            self.head = Pointer::Null;
        } else {
            proof {
                assert(self.live_at(pv));
            }
            self.set_next(pv, Pointer::Null);
        }
        let ghost m2 = *self;
        self.len = self.len - 1;
        proof {
            self.order@ = pre.order@.drop_last();
        }
        proof {
            let post = *self;
            assert forall|s2: int|
                0 <= s2 < pre.segs@.len() implies post.has_seg(s2) == pre.has_seg(s2) by {
                assert(m15.segs@ == m1.segs@);
                assert(m15.has_seg(s2) == m2.has_seg(s2));
                if s2 != p->slab {
                    assert(m1.segs@[s2] == pre.segs@[s2]);
                }
            }
            assert forall|s2: int|
                #[trigger] pre.has_seg(s2) implies post.seg(s2).slots@.len() == pre.seg(
                s2,
            ).slots@.len() && count_some(post.seg(s2).slots@) == (count_some(pre.seg(s2).slots@) - (
            if s2 == p->slab {
                1int
            } else {
                0int
            })) && post.seg(s2).live == pre.seg(s2).live - (if s2 == p->slab {
                1int
            } else {
                0int
            }) by {
                if s2 != p->slab {
                    assert(m1.segs@[s2] == pre.segs@[s2]);
                }
                assert(m1.has_seg(s2));
                assert(m15.segs@ == m1.segs@);
                assert(m15.has_seg(s2));
                assert(m2.seg(s2).slots@.len() == m15.seg(s2).slots@.len());
                assert(m2.seg(s2).live == m15.seg(s2).live);
                assert(count_some(m2.seg(s2).slots@) == count_some(m15.seg(s2).slots@));
            }
            assert(!post.live_at(p)) by {
                assert(!m1.live_at(p));
                assert(m15.live_at(p) == m1.live_at(p));
                assert(m2.live_at(p) == m15.live_at(p));
            }
            assert forall|q: Pointer|
                #![trigger post.live_at(q)]
                #![trigger pre.live_at(q)]
                q != p implies post.live_at(q) == pre.live_at(q) by {
                assert(m1.live_at(q) == pre.live_at(q));
                assert(m15.live_at(q) == m1.live_at(q));
                assert(m2.live_at(q) == m15.live_at(q));
            }
            if n >= 2 {
                assert(post.entry(pv).spec_next() == Pointer::Null && post.entry(
                    pv,
                ).spec_prev() == pre.entry(pv).spec_prev() && post.entry(pv).spec_key()
                    == pre.entry(pv).spec_key() && post.entry(pv).spec_data() == pre.entry(
                    pv,
                ).spec_data() && post.entry(pv).spec_timestamp() == pre.entry(
                    pv,
                ).spec_timestamp()) by {
                    assert(m1.live_at(pv));
                    assert(m1.entry(pv) == pre.entry(pv));
                    assert(m15.entry(pv) == m1.entry(pv));
                    assert(m15.live_at(pv));
                    assert(m2.entry(pv).spec_next() == Pointer::Null);
                    assert(m2.entry(pv).spec_prev() == m15.entry(pv).spec_prev());
                    assert(m2.entry(pv).spec_key() == m15.entry(pv).spec_key());
                    assert(m2.entry(pv).spec_data() == m15.entry(pv).spec_data());
                    assert(m2.entry(pv).spec_timestamp() == m15.entry(pv).spec_timestamp());
                    assert(post.entry(pv) == m2.entry(pv));
                }
            }
            assert forall|q: Pointer| #[trigger]
                pre.live_at(q) && q != p && !(n >= 2 && q == pv) implies post.entry(q) == pre.entry(
                q,
            ) by {
                assert(m1.entry(q) == pre.entry(q));
                assert(m1.live_at(q));
                assert(m15.entry(q) == m1.entry(q));
                assert(m15.live_at(q));
                assert(m2.entry(q) == m15.entry(q));
                assert(post.entry(q) == m2.entry(q));
            }
            assert(m15.segs@ == m1.segs@);
            assert(Self::same_shape(m15, m2));
            Self::lemma_same_shape_counts(m15, m2);
            assert(post.segs == m2.segs);
            assert(total_live(post.segs@) == total_live(pre.segs@) - 1);
            assert(total_cap(post.segs@) == total_cap(pre.segs@));
            Self::lemma_pop_rebuild(pre, post, p);
        }
    }

    /// Removing a segment that holds no entries leaves every
    /// observation of the store unchanged and drops its capacity.
    #[verifier::rlimit(100)]
    #[verifier::spinoff_prover]
    proof fn lemma_remove_empty_seg(pre: Self, post: Self, s: int)
        requires
            pre.wf_core(),
            0 <= s < pre.segs@.len(),
            pre.has_seg(s),
            seg_live(pre.segs@[s]) == 0,
            post.segs@ == pre.segs@.update(s, None),
            post.cap == pre.cap,
            post.len == pre.len,
            post.head == pre.head,
            post.tail == pre.tail,
            post.timeout_secs == pre.timeout_secs,
            post.order@ == pre.order@,
        ensures
            post.wf_core(),
            post.recs() == pre.recs(),
            forall|q: Pointer|
                #![trigger post.live_at(q)]
                #![trigger pre.live_at(q)]
                post.live_at(q) == pre.live_at(q),
            total_live(post.segs@) == total_live(pre.segs@),
            total_cap(post.segs@) == total_cap(pre.segs@) - seg_cap(pre.segs@[s]),
    {
        lemma_total_live_update(pre.segs@, s, None);
        lemma_count_some_zero(pre.seg(s).slots@);
        assert forall|q: Pointer|
            #![trigger post.live_at(q)]
            #![trigger pre.live_at(q)]
            post.live_at(q) == pre.live_at(q) by {
            match q {
                Pointer::Null => {},
                Pointer::InternalPointer { slab, pos } => {
                    if slab == s {
                        assert(!post.has_seg(slab as int));
                        if (pos as int) < pre.seg(slab as int).slots@.len() {
                            assert(pre.seg(slab as int).slots@[pos as int] is None);
                        }
                    }
                },
            }
        }
        assert forall|q: Pointer| #[trigger] pre.live_at(q) implies post.entry(q) == pre.entry(
            q,
        ) by {
            assert(q->slab != s);
        }
        assert(post.recs() =~= pre.recs()) by {
            assert forall|j: int| 0 <= j < pre.order@.len() implies post.recs()[j]
                == pre.recs()[j] by {
                assert(pre.live_at(pre.order@[j]));
            }
        }
        assert(post.wf_core()) by {
            assert forall|s2: int| 0 <= s2 < post.segs@.len() implies post.seg_ok(s2) by {
                if s2 != s {
                    assert(post.segs@[s2] == pre.segs@[s2]);
                    assert(pre.seg_ok(s2));
                }
            }
            assert forall|i: int| 0 <= i < post.order@.len() implies post.live_at(
                #[trigger] post.order@[i],
            ) by {
                assert(pre.live_at(pre.order@[i]));
            }
            assert forall|p: Pointer| #[trigger] post.live_at(p) implies post.order@.contains(
                p,
            ) by {
                assert(pre.live_at(p));
            }
            assert(seg_cap(pre.segs@[s]) >= 0) by {
                lemma_count_some_bounds(pre.seg(s).slots@);
            }
        }
    }

    /// Walks from the least recent end while entries are stale,
    /// unlinking and freeing each, then drops every segment left with
    /// no live entries. Capacity never grows here; it reaches zero
    /// exactly when nothing survives, and stays put when nothing was
    /// stale.
    #[verifier::rlimit(100)]
    #[verifier::spinoff_prover]
    pub fn evict(&mut self, now: u64)
        requires
            old(self).wf(),
            old(self).recs().len() > 0,
        ensures
            final(self).wf(),
            final(self).unit() == old(self).unit(),
            final(self).timeout() == old(self).timeout(),
            final(self).recs() == old(self).recs().take(
                keep_count(old(self).recs(), old(self).timeout(), now),
            ),
            final(self).order() == old(self).order().take(
                keep_count(old(self).recs(), old(self).timeout(), now),
            ),
            final(self).capacity_spec() <= old(self).capacity_spec(),
            keep_count(old(self).recs(), old(self).timeout(), now) == old(self).recs().len()
                ==> final(self).capacity_spec() == old(self).capacity_spec(),
            keep_count(old(self).recs(), old(self).timeout(), now) == 0
                ==> final(self).capacity_spec() == 0,
    {
        let ghost orig = *self;
        let ghost kc = keep_count(orig.recs(), orig.timeout_secs, now);
        proof {
            lemma_keep_count_bounds(orig.recs(), orig.timeout_secs, now);
            assert(orig.order@.take(orig.order@.len() as int) =~= orig.order@);
            assert(orig.recs().take(orig.order@.len() as int) =~= orig.recs());
        }
        let mut done = false;
        while !done
            invariant
                self.wf_core(),
                self.cap == orig.cap,
                self.timeout_secs == orig.timeout_secs,
                self.order@ == orig.order@.take(self.order@.len() as int),
                self.recs() == orig.recs().take(self.order@.len() as int),
                self.order@.len() <= orig.order@.len(),
                keep_count(self.recs(), self.timeout_secs, now) == kc,
                done ==> self.order@.len() == kc,
                self.order@.len() == orig.order@.len() ==> *self == orig,
                self.segs@.len() == orig.segs@.len(),
                forall|s2: int|
                    0 <= s2 < orig.segs@.len() ==> self.has_seg(s2) == orig.has_seg(s2),
                total_cap(self.segs@) == total_cap(orig.segs@),
            decreases self.order@.len() + (if done {
                0int
            } else {
                1int
            }),
        {
            if self.tail.is_null() {
                proof {
                    assert(self.order@.len() == 0);
                    assert(self.recs() =~= Seq::<Rec<K, V>>::empty());
                }
                done = true;
            } else {
                let ghost cur = *self;
                let ghost j = cur.order@.len() as int;
                proof {
                    assert(j > 0);
                    assert(cur.live_at(cur.order@.last()));
                    assert(cur.recs().last().ts == cur.entry(cur.order@.last()).spec_timestamp());
                }
                let tl = self.tail;
                let ts = self.stamp(tl);
                if self.timeout_secs <= now && ts <= now - self.timeout_secs {
                    proof {
                        assert(expired(cur.recs().last().ts, cur.timeout_secs, now));
                        assert(keep_count(cur.recs(), cur.timeout_secs, now) == keep_count(
                            cur.recs().drop_last(),
                            cur.timeout_secs,
                            now,
                        ));
                        assert(orig.recs().take(j).drop_last() =~= orig.recs().take(j - 1));
                        assert(orig.order@.take(j).drop_last() =~= orig.order@.take(j - 1));
                    }
                    self.drop_tail();
                } else {
                    proof {
                        assert(!expired(cur.recs().last().ts, cur.timeout_secs, now));
                        assert(keep_count(cur.recs(), cur.timeout_secs, now)
                            == cur.recs().len() as int);
                    }
                    done = true;
                }
            }
        }
        let ghost swept = *self;
        proof {
            assert(swept.order@.len() == kc);
        }
        let mut s: usize = 0;
        while s < self.segs.len()
            invariant
                self.wf_core(),
                self.cap == swept.cap,
                self.timeout_secs == swept.timeout_secs,
                self.order@ == swept.order@,
                self.recs() == swept.recs(),
                self.head == swept.head,
                self.tail == swept.tail,
                self.len == swept.len,
                self.segs@.len() == swept.segs@.len(),
                s <= self.segs@.len(),
                forall|s2: int| s <= s2 < swept.segs@.len() ==> self.segs@[s2] == #[trigger] swept.segs@[s2],
                forall|s2: int|
                    0 <= s2 < s ==> self.segs@[s2] == (if swept.has_seg(s2) && seg_live(
                        #[trigger] swept.segs@[s2],
                    ) == 0 {
                        None
                    } else {
                        swept.segs@[s2]
                    }),
                forall|s2: int|
                    0 <= s2 < s && #[trigger] self.has_seg(s2) ==> seg_live(self.segs@[s2]) >= 1,
                total_cap(self.segs@) <= total_cap(swept.segs@),
                total_live(self.segs@) == total_live(swept.segs@),
            decreases self.segs@.len() - s,
        {
            let empty_seg = match &self.segs[s] {
                Some(seg) => seg.live == 0,
                None => false,
            };
            if empty_seg {
                let ghost before = *self;
                proof {
                    assert(before.seg_ok(s as int));
                    assert(seg_live(before.segs@[s as int]) == 0);
                }
                self.segs[s] = None;
                proof {
                    assert(self.segs@ =~= before.segs@.update(s as int, None));
                    Self::lemma_remove_empty_seg(before, *self, s as int);
                    assert(seg_cap(before.segs@[s as int]) >= 0) by {
                        lemma_count_some_bounds(before.seg(s as int).slots@);
                    }
                    assert(!self.has_seg(s as int));
                    assert(before.segs@[s as int] == swept.segs@[s as int]);
                    assert(forall|s2: int|
                        0 <= s2 < self.segs@.len() && s2 != s ==> self.segs@[s2]
                            == #[trigger] before.segs@[s2]);
                    assert forall|s2: int|
                        0 <= s2 < s && #[trigger] self.has_seg(s2) implies seg_live(
                        self.segs@[s2],
                    ) >= 1 by {
                        assert(before.has_seg(s2));
                        assert(self.segs@[s2] == before.segs@[s2]);
                    }
                }
            } else {
                proof {
                    assert(self.segs@[s as int] == swept.segs@[s as int]);
                    if self.has_seg(s as int) {
                        assert(self.seg_ok(s as int));
                        assert(seg_live(self.segs@[s as int]) == self.seg(s as int).live);
                        assert(self.seg(s as int).live >= 1);
                    }
                }
            }
            s = s + 1;
        }
        proof {
            let post = *self;
            assert(post.seg_rule());
            assert(post.wf());
            if kc == orig.recs().len() {
                assert(swept == orig);
                assert forall|s2: int|
                    0 <= s2 < post.segs@.len() implies post.segs@[s2] == #[trigger] swept.segs@[s2] by {
                    if swept.has_seg(s2) && seg_live(swept.segs@[s2]) == 0 {
                        assert(swept.order@.len() == orig.order@.len());
                        assert(orig.seg_rule());
                        assert(orig.order@.len() > 0);
                    }
                }
                assert(post.segs@ =~= swept.segs@);
            }
            if kc == 0 {
                assert(total_live(swept.segs@) == swept.order@.len());
                lemma_total_live_zero(swept.segs@);
                assert forall|s2: int|
                    0 <= s2 < post.segs@.len() implies (#[trigger] post.segs@[s2]) is None by {
                    if swept.has_seg(s2) {
                        assert(seg_live(swept.segs@[s2]) == 0);
                    } else {
                        assert(post.segs@[s2] == swept.segs@[s2]);
                    }
                }
                lemma_total_cap_none(post.segs@);
            }
        }
    }

    /// Well-formedness keeps the keys of the model records distinct.
    pub proof fn lemma_wf_distinct(self)
        requires
            self.wf(),
        ensures
            distinct_keys(self.recs()),
    {
        assert forall|a: int, b: int|
            0 <= a < self.recs().len() && 0 <= b < self.recs().len() && a != b implies (
        #[trigger] self.recs()[a]).key@ != (#[trigger] self.recs()[b]).key@ by {
            assert(self.order@[a] != self.order@[b]);
            assert(self.live_at(self.order@[a]));
            assert(self.live_at(self.order@[b]));
        }
    }

    /// What well-formedness guarantees numerically: the entry count
    /// never exceeds the capacity, and the capacity is a whole number
    /// of segment units.
    pub proof fn lemma_wf_bounds(self)
        requires
            self.wf(),
        ensures
            self.recs().len() <= self.capacity_spec(),
            self.capacity_spec() % self.unit() == 0,
            self.unit() >= 1,
    {
        lemma_total_le(self.segs@);
        assert forall|s: int|
            0 <= s < self.segs@.len() && (#[trigger] self.segs@[s]) is Some implies seg_cap(
            self.segs@[s],
        ) == self.cap by {
            assert(self.has_seg(s));
            assert(self.seg_ok(s));
        }
        lemma_total_cap_units(self.segs@, self.cap as int);
        let c = seg_count(self.segs@);
        let u = self.cap as int;
        assert((u * c) % u == 0) by (nonlinear_arith)
            requires
                u >= 1,
                c >= 0,
        ;
    }

    /// A diagnostic walk over the live entries in recency order, most
    /// recent first.
    pub fn iter<'a>(&'a self) -> (it: Iter<'a, K, V>)
        requires
            self.wf(),
        ensures
            it.wf(),
            it.store() == *self,
            it.pos() == 0,
    {
        Iter { storage: self, current: self.head, pos: Ghost(0) }
    }
}

/// A lazy walk over the live entries in recency order.
pub struct Iter<'a, K, V> {
    storage: &'a Storage<K, V>,
    current: Pointer,
    pos: Ghost<int>,
}

/// One step of the walk: the entry's handle together with the entry.
pub struct IterEntry<'a, K, V> {
    ptr: Pointer,
    entry: &'a Entry<K, V>,
}

impl<'a, K: CacheKey, V> IterEntry<'a, K, V> {
    /// The handle this step stands at.
    pub closed spec fn spec_ptr(&self) -> Pointer {
        self.ptr
    }

    /// The entry this step yields.
    pub closed spec fn spec_entry(&self) -> Entry<K, V> {
        *self.entry
    }

    /// The handle of this entry.
    pub fn ptr(&self) -> (r: Pointer)
        ensures
            r == self.spec_ptr(),
    {
        self.ptr
    }

    /// The handle of the next (less recent) entry, or null.
    pub fn next(&self) -> (r: Pointer)
        ensures
            r == self.spec_entry().spec_next(),
    {
        self.entry.next_link()
    }

    /// The handle of the previous (more recent) entry, or null.
    pub fn prev(&self) -> (r: Pointer)
        ensures
            r == self.spec_entry().spec_prev(),
    {
        self.entry.prev_link()
    }
}

impl<'a, K: CacheKey, V> Iter<'a, K, V> {
    /// The store being walked.
    pub closed spec fn store(&self) -> Storage<K, V> {
        *self.storage
    }

    /// How many entries the walk has already yielded.
    pub closed spec fn pos(&self) -> int {
        self.pos@
    }

    /// The walk is consistent: it stands at the handle its position
    /// names, or at null past the end.
    pub closed spec fn wf(&self) -> bool {
        &&& self.storage.wf()
        &&& 0 <= self.pos@ <= self.storage.order().len()
        &&& self.current == (if self.pos@ < self.storage.order().len() {
            self.storage.order()[self.pos@]
        } else {
            Pointer::Null
        })
    }

    /// Yields the entry at the current position and advances, or
    /// reports the end of the list.
    pub fn next(&mut self) -> (r: Option<IterEntry<'a, K, V>>)
        requires
            old(self).wf(),
        ensures
            final(self).wf(),
            final(self).store() == old(self).store(),
            ({
                let pos = old(self).pos();
                let st = old(self).store();
                if pos < st.order().len() {
                    &&& (r matches Some(ie) && ie.spec_ptr() == st.order()[pos]
                        && ie.spec_entry() == st.entry(st.order()[pos]))
                    &&& final(self).pos() == pos + 1
                } else {
                    &&& r is None
                    &&& final(self).pos() == pos
                }
            }),
    {
        match self.current {
            Pointer::Null => {
                proof {
                    if self.pos@ < self.storage.order().len() {
                        assert(self.storage.live_at(self.storage.order()[self.pos@]));
                    }
                }
                None
            },
            Pointer::InternalPointer { .. } => {
                let p = self.current;
                proof {
                    assert(self.pos@ < self.storage.order().len());
                    assert(self.storage.live_at(p));
                }
                let e = self.storage.entry_ref(p);
                self.current = e.next_link();
                proof {
                    self.pos@ = self.pos@ + 1;
                }
                Some(IterEntry { ptr: p, entry: e })
            },
        }
    }
}

/// A prefix contributes no more capacity than the whole, and the
/// whole fits in `usize` because an actual `Vec` backs every segment.
proof fn lemma_total_le_prefix<K, V>(segs: Seq<Option<Segment<K, V>>>, n: int)
    requires
        0 <= n <= segs.len(),
    ensures
        total_cap(segs.take(n)) <= total_cap(segs),
        total_live(segs.take(n)) <= total_live(segs),
    decreases segs.len() - n,
{
    if n < segs.len() {
        assert(segs.take(n + 1).drop_last() =~= segs.take(n));
        assert(segs.take(n + 1).last() == segs[n]);
        lemma_total_le_prefix(segs, n + 1);
        match segs[n] {
            Some(seg) => {
                lemma_count_some_bounds(seg.slots@);
            },
            None => {},
        }
    } else {
        assert(segs.take(n) =~= segs);
    }
}

} // verus!
