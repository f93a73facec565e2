//! The cache core: a key index over the segmented node store, the
//! time-to-live policy, and the capacity growth rule.
//!
//! Every operation is specified against the abstract model in
//! [`model`]: the cache state is a sequence of records in recency
//! order, most recent first, together with a total slot capacity that
//! is a whole number of segment units.

pub mod model;
pub mod storage;

use crate::keys::CacheKey;
use crate::lru::model::{keep_count, spec_get, spec_put, spec_put_cap, Rec};
use crate::lru::storage::{unix_now, Iter, Storage};
use vstd::prelude::*;

verus! {

/// An in-process key/value cache with least-recently-used eviction,
/// per-entry time-to-live expiry, and a segmented backing store that
/// grows by one segment unit under sustained pressure.
pub struct Cache<K, V> {
    storage: Storage<K, V>,
}

impl<K: CacheKey, V> Cache<K, V> {
    /// Well-formedness of the underlying store; established by the
    /// constructor and preserved by every operation.
    pub closed spec fn wf(&self) -> bool {
        self.storage.wf()
    }

    /// The cache abstracted to its model: the records in recency
    /// order, most recent first.
    pub closed spec fn recs(&self) -> Seq<Rec<K, V>> {
        self.storage.recs()
    }

    /// The total number of slots over all segments.
    pub closed spec fn capacity_spec(&self) -> int {
        self.storage.capacity_spec()
    }

    /// The segment unit: the capacity every new segment is created
    /// with.
    pub closed spec fn unit(&self) -> int {
        self.storage.unit()
    }

    /// The configured time-to-live in seconds.
    pub closed spec fn timeout(&self) -> u64 {
        self.storage.timeout()
    }

    /// Creates a cache that expires entries `timeout_secs` after
    /// their last refresh and allocates segments of `multiply_cap`
    /// slots when it has to grow.
    pub fn new(multiply_cap: usize, timeout_secs: u64) -> (c: Self)
        requires
            multiply_cap >= 1,
        ensures
            c.wf(),
            c.recs() == Seq::<Rec<K, V>>::empty(),
            c.capacity_spec() == multiply_cap,
            c.unit() == multiply_cap,
            c.timeout() == timeout_secs,
    {
        Cache { storage: Storage::new(multiply_cap, timeout_secs) }
    }

    /// Looks `key` up as of the second counter `now`. A hit on a
    /// fresh entry refreshes its stamp and promotes it to the most
    /// recent position; a stale entry reports absent and is left
    /// untouched; a miss reports absent.
    pub fn get_at(&mut self, key: &K, now: u64) -> (r: Option<&V>)
        requires
            old(self).wf(),
        ensures
            final(self).wf(),
            final(self).unit() == old(self).unit(),
            final(self).timeout() == old(self).timeout(),
            final(self).capacity_spec() == old(self).capacity_spec(),
            ({
                let (recs2, res) = spec_get(old(self).recs(), key@, old(self).timeout(), now);
                &&& final(self).recs() == recs2
                &&& (match r {
                    Some(v) => res == Some(*v),
                    None => res is None,
                })
            }),
    {
        let found = self.storage.find_key(key);
        match found {
            None => None,
            Some(p) => {
                self.storage.get(p, now)
            },
        }
    }

    /// Stores `value` under `key` as of the second counter `now`. A
    /// present key has its value replaced, its stamp refreshed and
    /// its entry promoted, and the old value is returned, whether or
    /// not the entry was stale. Otherwise, if the least recent entry
    /// is stale it is recycled and its old value returned; otherwise
    /// a fresh slot is used, growing the store by one segment unit
    /// exactly when every slot is in use, and nothing is returned.
    pub fn put_at(&mut self, key: K, value: V, now: u64) -> (r: Option<V>)
        requires
            old(self).wf(),
            old(self).capacity_spec() + old(self).unit() <= usize::MAX,
        ensures
            final(self).wf(),
            final(self).unit() == old(self).unit(),
            final(self).timeout() == old(self).timeout(),
            ({
                let (recs2, res) = spec_put(old(self).recs(), key, value, old(self).timeout(), now);
                &&& final(self).recs() == recs2
                &&& r == res
            }),
            final(self).capacity_spec() == spec_put_cap(
                old(self).recs(),
                old(self).capacity_spec(),
                old(self).unit(),
                key@,
                old(self).timeout(),
                now,
            ),
    {
        let found = self.storage.find_key(&key);
        match found {
            Some(p) => {
                let r = self.storage.update(p, value, now);
                Some(r)
            },
            None => {
                let (_, old_pair) = self.storage.put(key, value, now);
                match old_pair {
                    Some(kv) => Some(kv.1),
                    None => None,
                }
            },
        }
    }

    /// Removes stale entries as of the second counter `now`, walking
    /// from the least recent end and stopping at the first fresh one,
    /// then reclaims every segment left empty. On an empty cache this
    /// is a no-op.
    pub fn evict_at(&mut self, now: u64)
        requires
            old(self).wf(),
        ensures
            final(self).wf(),
            final(self).unit() == old(self).unit(),
            final(self).timeout() == old(self).timeout(),
            final(self).recs() == old(self).recs().take(
                keep_count(old(self).recs(), old(self).timeout(), now),
            ),
            final(self).capacity_spec() <= old(self).capacity_spec(),
            keep_count(old(self).recs(), old(self).timeout(), now) == old(self).recs().len()
                ==> final(self).capacity_spec() == old(self).capacity_spec(),
            old(self).recs().len() > 0 && keep_count(old(self).recs(), old(self).timeout(), now)
                == 0 ==> final(self).capacity_spec() == 0,
    {
        if self.is_empty() {
            proof {
                assert(old(self).recs().take(0) =~= old(self).recs());
            }
        } else {
            self.storage.evict(now);
        }
    }

    /// Looks `key` up at the current clock reading; see [`Self::get_at`].
    pub fn get(&mut self, key: &K) -> (r: Option<&V>)
        requires
            old(self).wf(),
        ensures
            final(self).wf(),
            final(self).unit() == old(self).unit(),
            final(self).timeout() == old(self).timeout(),
            final(self).capacity_spec() == old(self).capacity_spec(),
            exists|now: u64|
                #![trigger spec_get(old(self).recs(), key@, old(self).timeout(), now)]
                {
                    let (recs2, res) = spec_get(
                        old(self).recs(),
                        key@,
                        old(self).timeout(),
                        now,
                    );
                    &&& final(self).recs() == recs2
                    &&& (match r {
                        Some(v) => res == Some(*v),
                        None => res is None,
                    })
                },
    {
        let now = unix_now();
        self.get_at(key, now)
    }

    /// Stores `value` under `key` at the current clock reading; see
    /// [`Self::put_at`].
    pub fn put(&mut self, key: K, value: V) -> (r: Option<V>)
        requires
            old(self).wf(),
            old(self).capacity_spec() + old(self).unit() <= usize::MAX,
        ensures
            final(self).wf(),
            final(self).unit() == old(self).unit(),
            final(self).timeout() == old(self).timeout(),
            exists|now: u64|
                #![trigger spec_put(old(self).recs(), key, value, old(self).timeout(), now)]
                {
                    let (recs2, res) = spec_put(
                        old(self).recs(),
                        key,
                        value,
                        old(self).timeout(),
                        now,
                    );
                    &&& final(self).recs() == recs2
                    &&& r == res
                    &&& final(self).capacity_spec() == spec_put_cap(
                        old(self).recs(),
                        old(self).capacity_spec(),
                        old(self).unit(),
                        key@,
                        old(self).timeout(),
                        now,
                    )
                },
    {
        let now = unix_now();
        let ghost key_spec = key;
        let ghost value_spec = value;
        let r = self.put_at(key, value, now);
        proof {
            let (recs2, res) = spec_put(
                old(self).recs(),
                key_spec,
                value_spec,
                old(self).timeout(),
                now,
            );
            assert({
                &&& self.recs() == recs2
                &&& r == res
                &&& self.capacity_spec() == spec_put_cap(
                    old(self).recs(),
                    old(self).capacity_spec(),
                    old(self).unit(),
                    key_spec@,
                    old(self).timeout(),
                    now,
                )
            });
        }
        r
    }

    /// Removes stale entries at the current clock reading; see
    /// [`Self::evict_at`].
    pub fn evict(&mut self)
        requires
            old(self).wf(),
        ensures
            final(self).wf(),
            final(self).unit() == old(self).unit(),
            final(self).timeout() == old(self).timeout(),
            final(self).capacity_spec() <= old(self).capacity_spec(),
            exists|now: u64|
                #![trigger keep_count(old(self).recs(), old(self).timeout(), now)]
                {
                    &&& final(self).recs() == old(self).recs().take(
                        keep_count(old(self).recs(), old(self).timeout(), now),
                    )
                    &&& (old(self).recs().len() > 0 && keep_count(
                        old(self).recs(),
                        old(self).timeout(),
                        now,
                    ) == 0 ==> final(self).capacity_spec() == 0)
                },
    {
        let now = unix_now();
        self.evict_at(now);
        proof {
            assert({
                &&& self.recs() == old(self).recs().take(
                    keep_count(old(self).recs(), old(self).timeout(), now),
                )
                &&& (old(self).recs().len() > 0 && keep_count(
                    old(self).recs(),
                    old(self).timeout(),
                    now,
                ) == 0 ==> self.capacity_spec() == 0)
            });
        }
    }

    /// Returns the number of key/value pairs the cache can hold
    /// before it would have to grow.
    pub fn capacity(&self) -> (r: usize)
        requires
            self.wf(),
        ensures
            r == self.capacity_spec(),
    {
        self.storage.capacity()
    }

    /// Returns the number of key/value pairs currently stored.
    pub fn len(&self) -> (r: usize)
        requires
            self.wf(),
        ensures
            r == self.recs().len(),
    {
        self.storage.len()
    }

    /// Returns whether the cache holds no entries.
    pub fn is_empty(&self) -> (r: bool)
        requires
            self.wf(),
        ensures
            r == (self.recs().len() == 0),
    {
        self.storage.len() == 0
    }

    /// A diagnostic walk over the entries in recency order, most
    /// recent first.
    pub fn iter<'a>(&'a self) -> (it: Iter<'a, K, V>)
        requires
            self.wf(),
        ensures
            it.wf(),
            it.store() == self.store(),
            it.pos() == 0,
    {
        self.storage.iter()
    }

    /// The underlying store, for stating what [`Self::iter`] walks.
    pub closed spec fn store(&self) -> Storage<K, V> {
        self.storage
    }

    /// A well-formed cache never holds two entries whose keys have
    /// the same view, so the model lemmas about key lookups apply to
    /// every reachable state.
    pub proof fn lemma_distinct_keys(&self)
        requires
            self.wf(),
        ensures
            crate::lru::model::distinct_keys(self.recs()),
    {
        self.storage.lemma_wf_distinct();
    }

    /// The entry count never exceeds the capacity, and the capacity
    /// is a whole number of segment units.
    pub proof fn lemma_len_le_capacity(&self)
        requires
            self.wf(),
        ensures
            self.recs().len() <= self.capacity_spec(),
            self.capacity_spec() % self.unit() == 0,
            self.unit() >= 1,
    {
        self.storage.lemma_wf_bounds();
    }
}

} // verus!
