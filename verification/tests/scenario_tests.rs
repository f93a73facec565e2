//! Scenario coverage driven through the time-explicit operations, so
//! that expiry can be exercised without waiting on a wall clock.

use aba_cache::lru::storage::Pointer;
use aba_cache::LruCache;
use serde_json::Value;
use std::rc::Rc;

#[test]
fn reuse_single_entry_at() {
    let mut cache = LruCache::<&str, &str>::new(1, 60);

    assert_eq!(cache.put_at("1", "a", 1_000), None);
    assert_eq!(cache.put_at("1", "b", 1_000), Some("a"));
    assert_eq!(cache.len(), 1);
    assert_eq!(cache.capacity(), 1);
}

#[test]
fn expired_tail_is_recycled() {
    let mut cache = LruCache::<usize, Rc<Value>>::new(2, 1);

    let val_1: Rc<Value> = Rc::new(serde_json::from_str(r#"{"id":1}"#).unwrap());
    let val_2: Rc<Value> = Rc::new(serde_json::from_str(r#"{"id":2}"#).unwrap());

    assert_eq!(cache.put_at(1, val_1.clone(), 1_000), None);
    let old_value = cache.put_at(2, val_2.clone(), 1_001);
    assert!(if let Some(value) = old_value {
        value == val_1
    } else {
        false
    });
    assert_eq!(cache.len(), 1);
    assert_eq!(cache.capacity(), 2);
    let mut iter = cache.iter();
    assert!(if let Some(item) = iter.next() {
        item.ptr() == Pointer::InternalPointer { slab: 0, pos: 0 }
            && item.prev().is_null()
            && item.next().is_null()
    } else {
        false
    });
    assert!(iter.next().is_none());
}

#[test]
fn expired_tail_reuse_preserves_fresh_entries() {
    let mut cache = LruCache::<usize, Rc<Value>>::new(2, 1);

    let val_1: Rc<Value> = Rc::new(serde_json::from_str(r#"{"id":1}"#).unwrap());
    let val_2: Rc<Value> = Rc::new(serde_json::from_str(r#"{"id":2}"#).unwrap());
    let val_3: Rc<Value> = Rc::new(serde_json::from_str(r#"{"id":3}"#).unwrap());

    assert_eq!(cache.put_at(1, val_1.clone(), 1_000), None);
    assert_eq!(cache.put_at(2, val_2.clone(), 1_000), None);
    // Entry 1 is a second old now, so storing key 3 recycles its slot.
    let old_value = cache.put_at(3, val_3.clone(), 1_001);
    assert!(if let Some(value) = old_value {
        value == val_1
    } else {
        false
    });
    assert_eq!(cache.len(), 2);
    // Recency order from the head: 3 (in the recycled slot), then 2.
    let mut iter = cache.iter();
    assert!(if let Some(item) = iter.next() {
        item.ptr() == Pointer::InternalPointer { slab: 0, pos: 0 }
            && item.prev().is_null()
            && item.next() == Pointer::InternalPointer { slab: 0, pos: 1 }
    } else {
        false
    });
    assert!(if let Some(item) = iter.next() {
        item.ptr() == Pointer::InternalPointer { slab: 0, pos: 1 }
            && item.prev() == Pointer::InternalPointer { slab: 0, pos: 0 }
            && item.next().is_null()
    } else {
        false
    });
    assert!(iter.next().is_none());
    assert_eq!(cache.get_at(&3, 1_001), Some(&val_3));
    // Entry 2 survived the recycling but is itself stale by now.
    assert_eq!(cache.get_at(&2, 1_001), None);
}

#[test]
fn promotion_on_get() {
    let mut cache = LruCache::<usize, &str>::new(3, 60);

    cache.put_at(1, "one", 1_000);
    cache.put_at(2, "two", 1_000);
    cache.put_at(3, "three", 1_000);

    assert_eq!(cache.get_at(&2, 1_000), Some(&"two"));
    // Recency order from the head: 2, 3, 1.
    let mut iter = cache.iter();
    assert!(if let Some(item) = iter.next() {
        item.ptr() == Pointer::InternalPointer { slab: 0, pos: 1 }
    } else {
        false
    });
    assert!(if let Some(item) = iter.next() {
        item.ptr() == Pointer::InternalPointer { slab: 0, pos: 2 }
    } else {
        false
    });
    assert!(if let Some(item) = iter.next() {
        item.ptr() == Pointer::InternalPointer { slab: 0, pos: 0 }
    } else {
        false
    });
    assert!(iter.next().is_none());
}

#[test]
fn growth_appends_a_segment() {
    let mut cache = LruCache::<usize, &str>::new(2, 60);

    assert_eq!(cache.capacity(), 2);
    assert_eq!(cache.put_at(1, "one", 1_000), None);
    assert_eq!(cache.capacity(), 2);
    assert_eq!(cache.put_at(2, "two", 1_000), None);
    assert_eq!(cache.capacity(), 2);
    assert_eq!(cache.put_at(3, "three", 1_000), None);
    assert_eq!(cache.len(), 3);
    assert_eq!(cache.capacity(), 4);
}

#[test]
fn get_on_expired_entry_is_absent_and_does_not_grow() {
    let mut cache = LruCache::<usize, &str>::new(2, 1);

    cache.put_at(1, "one", 1_000);
    cache.put_at(2, "two", 1_000);
    cache.put_at(3, "three", 1_000);
    assert_eq!(cache.capacity(), 4);

    assert_eq!(cache.get_at(&2, 1_000), Some(&"two"));
    // One second later every entry is stale; the lookup reports
    // absent and leaves the cache untouched.
    assert_eq!(cache.get_at(&2, 1_001), None);
    assert_eq!(cache.len(), 3);
    assert_eq!(cache.capacity(), 4);
}

#[test]
fn evict_removes_all_expired_entries_and_capacity() {
    let mut cache = LruCache::<String, &str>::new(2, 1);

    cache.put_at(String::from("1"), "one", 1_000);
    cache.put_at(String::from("2"), "two", 1_000);
    cache.put_at(String::from("3"), "three", 1_000);

    assert_eq!(cache.len(), 3);
    assert_eq!(cache.capacity(), 4);

    cache.evict_at(1_001);

    assert_eq!(cache.len(), 0);
    assert_eq!(cache.capacity(), 0);

    // The cache stays usable: a later store allocates a fresh segment.
    assert_eq!(cache.put_at(String::from("4"), "four", 1_002), None);
    assert_eq!(cache.len(), 1);
    assert_eq!(cache.capacity(), 2);
    assert_eq!(cache.get_at(&String::from("4"), 1_002), Some(&"four"));
}

#[test]
fn evict_keeps_fresh_entries_and_capacity() {
    let mut cache = LruCache::<usize, &str>::new(2, 60);

    cache.put_at(1, "one", 1_000);
    cache.put_at(2, "two", 1_000);
    cache.put_at(3, "three", 1_000);

    cache.evict_at(1_010);

    assert_eq!(cache.len(), 3);
    assert_eq!(cache.capacity(), 4);
}

#[test]
fn evict_sweeps_only_the_stale_tail() {
    let mut cache = LruCache::<usize, &str>::new(2, 10);

    cache.put_at(1, "one", 1_000);
    cache.put_at(2, "two", 1_020);
    cache.put_at(3, "three", 1_020);

    // Only the least recent entry has aged past the time to live.
    cache.evict_at(1_021);

    assert_eq!(cache.len(), 2);
    assert_eq!(cache.get_at(&1, 1_021), None);
    assert_eq!(cache.get_at(&2, 1_021), Some(&"two"));
    assert_eq!(cache.get_at(&3, 1_021), Some(&"three"));
}

#[test]
fn evict_on_empty_cache_keeps_initial_capacity() {
    let mut cache = LruCache::<usize, &str>::new(4, 1);

    cache.evict_at(5_000);

    assert_eq!(cache.len(), 0);
    assert_eq!(cache.capacity(), 4);
}

#[test]
fn update_refreshes_even_a_stale_entry() {
    let mut cache = LruCache::<usize, &str>::new(2, 1);

    cache.put_at(1, "one", 1_000);
    // The key is present, so even though it is stale the store
    // replaces its value and returns the old one.
    assert_eq!(cache.put_at(1, "uno", 1_005), Some("one"));
    assert_eq!(cache.get_at(&1, 1_005), Some(&"uno"));
    assert_eq!(cache.len(), 1);
}

#[test]
fn string_keys_compare_by_contents() {
    let mut cache = LruCache::<String, usize>::new(2, 60);

    cache.put_at(String::from("alpha"), 1, 1_000);
    assert_eq!(cache.get_at(&String::from("alpha"), 1_000), Some(&1));
    assert_eq!(cache.get_at(&String::from("beta"), 1_000), None);
}

#[test]
fn put_then_get_returns_the_value() {
    let mut cache = LruCache::<u64, u64>::new(4, 60);

    assert_eq!(cache.put_at(7, 42, 1_000), None);
    assert_eq!(cache.get_at(&7, 1_030), Some(&42));
}

#[test]
fn second_put_returns_first_value() {
    let mut cache = LruCache::<u64, &str>::new(4, 60);

    assert_eq!(cache.put_at(7, "first", 1_000), None);
    assert_eq!(cache.put_at(7, "second", 1_001), Some("first"));
    assert_eq!(cache.get_at(&7, 1_002), Some(&"second"));
}

#[test]
fn len_stays_within_capacity_which_stays_a_unit_multiple() {
    let mut cache = LruCache::<usize, usize>::new(3, 1);

    let mut step: usize = 0;
    while step < 8 {
        cache.put_at(step, step, 1_000 + step as u64);
        assert!(cache.len() <= cache.capacity());
        assert_eq!(cache.capacity() % 3, 0);
        step += 1;
    }
    cache.evict_at(2_000);
    assert!(cache.len() <= cache.capacity());
    assert_eq!(cache.capacity() % 3, 0);
    assert_eq!(cache.len(), 0);
    assert_eq!(cache.capacity(), 0);
}
