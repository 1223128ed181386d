use cachelru::cache::{Cache, LRUCache};

fn sorted_entries(cache: &Cache<u32, u32>) -> Vec<(u32, u32)> {
    let mut list: Vec<(u32, u32)> = cache.entries().into_iter().map(|(k, v)| (*k, *v)).collect();
    list.sort();
    list
}

#[test]
fn capacity_is_never_exceeded() {
    let mut cache: Cache<u32, u32> = Cache::new(3);
    for i in 0..10u32 {
        cache.put(i % 7, i);
        assert!(cache.entries().len() <= 3);
    }
    assert_eq!(cache.entries().len(), 3);
}

#[test]
fn one_key_too_many_evicts_the_first() {
    let mut cache: Cache<u32, u32> = Cache::new(4);
    for i in 0..5u32 {
        cache.put(i, 100 + i);
    }
    assert_eq!(sorted_entries(&cache), vec![(1, 101), (2, 102), (3, 103), (4, 104)]);
    assert_eq!(cache.get(&0), None);
    for i in 1..5u32 {
        assert_eq!(cache.get(&i), Some(&(100 + i)));
    }
}

#[test]
fn eviction_follows_recency_not_insertion() {
    let mut cache: Cache<u32, u32> = Cache::new(3);
    cache.put(1, 10);
    cache.put(2, 20);
    cache.put(3, 30);
    assert_eq!(cache.get(&1), Some(&10));
    assert_eq!(cache.get(&2), Some(&20));
    // 3 is now the least recently used
    cache.put(4, 40);
    assert_eq!(sorted_entries(&cache), vec![(1, 10), (2, 20), (4, 40)]);
    // then 1
    cache.put(5, 50);
    assert_eq!(sorted_entries(&cache), vec![(2, 20), (4, 40), (5, 50)]);
}

#[test]
fn read_protects_from_the_next_eviction() {
    let mut cache: Cache<u32, u32> = Cache::new(2);
    cache.put(1, 10);
    cache.put(2, 20);
    assert_eq!(cache.get(&1), Some(&10));
    cache.put(3, 30);
    assert_eq!(sorted_entries(&cache), vec![(1, 10), (3, 30)]);
}

#[test]
fn repeated_read_returns_the_same_value() {
    let mut cache: Cache<u32, u32> = Cache::new(2);
    cache.put(1, 10);
    cache.put(2, 20);
    assert_eq!(cache.get(&1), Some(&10));
    assert_eq!(cache.get(&1), Some(&10));
    cache.put(3, 30);
    assert_eq!(cache.get(&1), Some(&10));
    assert_eq!(cache.get(&2), None);
}

#[test]
fn miss_changes_neither_order_nor_size() {
    let mut cache: Cache<u32, u32> = Cache::new(2);
    cache.put(1, 10);
    cache.put(2, 20);
    assert_eq!(cache.get(&9), None);
    assert_eq!(sorted_entries(&cache), vec![(1, 10), (2, 20)]);
    // 1 is still the least recently used
    cache.put(3, 30);
    assert_eq!(sorted_entries(&cache), vec![(2, 20), (3, 30)]);
}

#[test]
fn miss_on_empty_cache() {
    let mut cache: Cache<u32, u32> = Cache::new(2);
    assert_eq!(cache.get(&1), None);
    assert_eq!(cache.entries().len(), 0);
}

#[test]
fn overwrite_updates_and_promotes_without_growing() {
    let mut cache: Cache<u32, u32> = Cache::new(2);
    cache.put(1, 10);
    cache.put(2, 20);
    cache.put(1, 11);
    assert_eq!(sorted_entries(&cache), vec![(1, 11), (2, 20)]);
    // 2 is now the least recently used
    cache.put(3, 30);
    assert_eq!(sorted_entries(&cache), vec![(1, 11), (3, 30)]);
    assert_eq!(cache.get(&1), Some(&11));
}

#[test]
fn overwrite_of_the_only_entry() {
    let mut cache: Cache<u32, u32> = Cache::new(1);
    cache.put(1, 10);
    cache.put(1, 11);
    assert_eq!(sorted_entries(&cache), vec![(1, 11)]);
}

#[test]
fn capacity_one_keeps_the_last_key() {
    let mut cache: Cache<u32, u32> = Cache::new(1);
    cache.put(1, 10);
    cache.put(2, 20);
    assert_eq!(cache.get(&1), None);
    assert_eq!(cache.get(&2), Some(&20));
    cache.put(3, 30);
    assert_eq!(sorted_entries(&cache), vec![(3, 30)]);
}

#[test]
fn capacity_zero_stores_nothing() {
    let mut cache: Cache<u32, u32> = Cache::new(0);
    cache.put(1, 10);
    assert_eq!(cache.get(&1), None);
    cache.put(2, 20);
    cache.put(1, 11);
    assert_eq!(cache.entries().len(), 0);
    assert_eq!(cache.get(&2), None);
}

#[test]
fn scenario_with_capacity_three() {
    let mut cache: Cache<&str, u32> = Cache::new(3);
    cache.put("A", 1);
    cache.put("B", 2);
    cache.put("C", 3);
    cache.put("D", 4);
    assert_eq!(cache.get(&"A"), None);
    assert_eq!(cache.get(&"D"), Some(&4));
    assert_eq!(cache.get(&"B"), Some(&2));
    assert_eq!(cache.get(&"C"), Some(&3));
}

#[test]
fn entries_lists_each_binding_once() {
    let mut cache: Cache<u32, u32> = Cache::new(5);
    cache.put(3, 30);
    cache.put(1, 10);
    cache.put(2, 20);
    cache.put(1, 12);
    assert_eq!(cache.get(&3), Some(&30));
    assert_eq!(sorted_entries(&cache), vec![(1, 12), (2, 20), (3, 30)]);
}

#[test]
fn removal_from_the_middle_of_the_chain() {
    let mut cache: Cache<u32, u32> = Cache::new(4);
    for i in 1..5u32 {
        cache.put(i, i * 10);
    }
    // order, most recent first: 4 3 2 1
    assert_eq!(cache.get(&2), Some(&20)); // 2 4 3 1
    assert_eq!(cache.get(&3), Some(&30)); // 3 2 4 1
    cache.put(5, 50); // evicts 1: 5 3 2 4
    cache.put(6, 60); // evicts 4: 6 5 3 2
    assert_eq!(sorted_entries(&cache), vec![(2, 20), (3, 30), (5, 50), (6, 60)]);
    cache.put(7, 70); // evicts 2
    cache.put(8, 80); // evicts 3
    assert_eq!(sorted_entries(&cache), vec![(5, 50), (6, 60), (7, 70), (8, 80)]);
}

fn fill<C: LRUCache<u32, u32>>(store: &mut C, count: u32) {
    for i in 0..count {
        store.put(i, i + 1);
    }
}

#[test]
fn cache_is_used_through_the_trait() {
    let mut cache: Cache<u32, u32> = Cache::new(3);
    fill(&mut cache, 5);
    assert_eq!(LRUCache::get(&mut cache, &0), None);
    assert_eq!(LRUCache::get(&mut cache, &1), None);
    assert_eq!(LRUCache::get(&mut cache, &4), Some(&5));
    assert_eq!(sorted_entries(&cache), vec![(2, 3), (3, 4), (4, 5)]);
}

#[test]
fn long_run_agrees_with_a_plain_list() {
    // the reference: a list of pairs, most recently used first
    let capacity = 5usize;
    let mut list: Vec<(u32, u32)> = Vec::new();
    let mut cache: Cache<u32, u32> = Cache::new(capacity);
    let mut seed: u32 = 12345;
    for step in 0..2000u32 {
        seed = seed.wrapping_mul(1103515245).wrapping_add(12345);
        let key = (seed >> 16) % 9;
        if step % 3 == 0 {
            let expected = match list.iter().position(|pair| pair.0 == key) {
                Some(at) => {
                    let pair = list.remove(at);
                    list.insert(0, pair);
                    Some(pair.1)
                }
                None => None,
            };
            assert_eq!(cache.get(&key).copied(), expected);
        } else {
            if let Some(at) = list.iter().position(|pair| pair.0 == key) {
                list.remove(at);
            }
            list.insert(0, (key, step));
            list.truncate(capacity);
            cache.put(key, step);
        }
        let mut expected = list.clone();
        expected.sort();
        assert_eq!(sorted_entries(&cache), expected);
    }
}
