use lru_map::LRUMap;

type TestMap = LRUMap<i32, 4>;

/// Collect the pairs from most- to least-recently used.
fn items<T: Clone, const N: usize>(map: &LRUMap<T, N>) -> Vec<(u64, T)> {
    let mut v = Vec::new();
    let mut it = map.iter();
    while let Some(p) = it.next() {
        v.push((p.0, p.1.clone()));
    }
    v
}

#[test]
fn empty() {
    let cache = TestMap::new();
    assert!(cache.len() == 0);
}

#[test]
fn put() {
    let mut cache = TestMap::new();
    assert_eq!(cache.put(1, 1), None);
    assert_eq!(cache.len(), 1);
    assert_eq!(cache.put(2, 2), None);
    assert_eq!(cache.len(), 2);
    assert_eq!(cache.put(3, 3), None);
    assert_eq!(cache.len(), 3);
    assert_eq!(cache.put(4, 4), None);
    assert_eq!(cache.len(), 4);
    assert_eq!(
        items(&cache),
        [(4, 4), (3, 3), (2, 2), (1, 1)],
        "Ordered from most- to least_recent."
    );
    // Every key resolves to its own value; reading least-recent first leaves
    // the recency order as it was.
    assert_eq!(cache.get(&1), Some(&1), "check keys");
    assert_eq!(cache.get(&2), Some(&2), "check keys");
    assert_eq!(cache.get(&3), Some(&3), "check keys");
    assert_eq!(cache.get(&4), Some(&4), "check keys");

    assert_eq!(cache.put(5, 5), None);
    assert_eq!(cache.len(), 4);
    assert_eq!(
        items(&cache),
        [(5, 5), (4, 4), (3, 3), (2, 2)],
        "Least-recently-used item evicted."
    );

    assert_eq!(cache.put(6, 6), None);
    assert_eq!(cache.put(7, 7), None);
    assert_eq!(cache.put(8, 8), None);
    assert_eq!(cache.put(9, 9), None);
    assert_eq!(
        items(&cache),
        [(9, 9), (8, 8), (7, 7), (6, 6)],
        "Least-recently-used item evicted."
    );

    assert_eq!(cache.put(7, 14), Some(7));
    assert_eq!(
        items(&cache),
        [(7, 14), (9, 9), (8, 8), (6, 6)],
        "Least-recently-used item evicted."
    );
}

#[test]
fn cache_hit() {
    let mut cache = TestMap::new();

    assert_eq!(cache.put(1, 1), None);
    assert_eq!(cache.put(2, 2), None);
    assert_eq!(cache.put(3, 3), None);
    assert_eq!(cache.put(4, 4), None);
    assert_eq!(cache.len(), 4);
    assert_eq!(
        items(&cache),
        [(4, 4), (3, 3), (2, 2), (1, 1)],
        "Ordered from most- to least-recent."
    );

    assert_eq!(cache.get(&1), Some(&1));
    assert_eq!(
        items(&cache),
        [(1, 1), (4, 4), (3, 3), (2, 2)],
        "Matching item moved to front."
    );

    cache.remove_one(&2);
    assert_eq!(
        items(&cache),
        [(1, 1), (4, 4), (3, 3)],
        "Removing one item."
    );

    cache.touch(|k| k == 3);
    assert_eq!(
        items(&cache),
        [(3, 3), (1, 1), (4, 4)],
        "Touching one item."
    );
}

#[test]
fn clear() {
    let mut cache = TestMap::new();
    cache.put(1, 1);
    cache.clear();
    assert_eq!(items(&cache), [], "all items evicted");

    cache.put(1, 1);
    cache.put(2, 2);
    cache.put(3, 3);
    cache.put(4, 4);
    assert_eq!(items(&cache), [(4, 4), (3, 3), (2, 2), (1, 1)]);
    cache.clear();
    assert_eq!(items(&cache), [], "all items evicted again");
    assert_eq!(cache.len(), 0);
}

#[test]
fn get_promotes_and_eviction_follows_recency() {
    let mut cache = TestMap::new();
    cache.put(1, 1);
    cache.put(2, 2);
    cache.put(3, 3);
    cache.put(4, 4);
    assert_eq!(cache.get(&1), Some(&1));
    // Key 2 is now least recently used, so the next fresh put evicts it.
    assert_eq!(cache.put(5, 5), None);
    assert_eq!(items(&cache), [(5, 5), (1, 1), (4, 4), (3, 3)]);
    assert_eq!(cache.get(&2), None);
}

#[test]
fn get_absent_and_remove_absent_leave_the_map_alone() {
    let mut cache = TestMap::new();
    cache.put(1, 10);
    cache.put(2, 20);
    assert_eq!(cache.get(&7), None);
    cache.remove_one(&7);
    assert_eq!(items(&cache), [(2, 20), (1, 10)]);
    assert_eq!(cache.len(), 2);
}

#[test]
fn replace_keeps_length_and_returns_old_value() {
    let mut cache = TestMap::new();
    cache.put(7, 7);
    cache.put(8, 8);
    assert_eq!(cache.put(7, 70), Some(7));
    assert_eq!(cache.len(), 2);
    assert_eq!(items(&cache), [(7, 70), (8, 8)]);
}

#[test]
fn remove_by_predicate() {
    let mut cache = TestMap::new();
    cache.put(1, 1);
    cache.put(2, 2);
    cache.put(3, 3);
    cache.put(4, 4);
    cache.remove(|k| k % 2 == 0);
    assert_eq!(items(&cache), [(3, 3), (1, 1)]);
    assert_eq!(cache.len(), 2);
    assert_eq!(cache.get(&2), None);
    assert_eq!(cache.get(&3), Some(&3));
}

#[test]
fn touch_by_predicate_keeps_relative_order() {
    let mut cache = TestMap::new();
    cache.put(1, 1);
    cache.put(2, 2);
    cache.put(3, 3);
    cache.put(4, 4);
    // Most- to least-recent is [4, 3, 2, 1]; the touched keys move to the
    // front keeping their relative recency order.
    cache.touch(|k| k == 3 || k == 1);
    assert_eq!(items(&cache), [(3, 3), (1, 1), (4, 4), (2, 2)]);
    assert_eq!(cache.len(), 4);
}

#[test]
fn capacity_one() {
    let mut cache: LRUMap<i32, 1> = LRUMap::new();
    assert_eq!(cache.put(1, 1), None);
    assert_eq!(cache.put(2, 2), None);
    assert_eq!(items(&cache), [(2, 2)]);
    assert_eq!(cache.get(&1), None);
    assert_eq!(cache.len(), 1);
}

#[test]
fn distinct_puts_never_exceed_capacity() {
    let mut cache = TestMap::new();
    let mut k: u64 = 0;
    while k < 100 {
        cache.put(k, k as i32);
        assert!(cache.len() <= 4);
        k += 1;
    }
    assert_eq!(cache.len(), 4);
    assert_eq!(
        items(&cache),
        [(99, 99), (98, 98), (97, 97), (96, 96)]
    );
}
