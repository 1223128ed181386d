use cachelru::cache::{Cache, LRUCache};

#[test]
fn test_lru_cache() {
    let mut cache = Cache::new(3);
    cache.put("A", String::from("value_a"));
    cache.put("B", String::from("value_b"));
    cache.put("C", String::from("value_c"));
    cache.put("D", String::from("value_d"));
    // Cache == [B, C, D]

    let my_value = cache.get(&"A");
    assert_eq!(my_value, None);

    let my_value = cache.get(&"D");
    assert_eq!(my_value, Some(&String::from("value_d")));
    // Cache == [B, C, D]

    let my_value = cache.get(&"B");
    assert_eq!(my_value, Some(&String::from("value_b")));
    // Cache == [C, D, B]

    let my_value = cache.get(&"C");
    assert_eq!(my_value, Some(&String::from("value_c")));
    // Cache == [D, B, C]

    let my_value = cache.get(&"X");
    assert_eq!(my_value, None);
    // Cache == [D, B, C]

    cache.put("A", String::from("value_a"));
    // Cache == [B, C, A]

    cache.put("X", String::from("value_x"));
    // Cache == [C, A, X]

    let my_value = cache.get(&"B");
    assert_eq!(my_value, None);
    // Cache == [C, A, X]

    let my_value = cache.get(&"D");
    assert_eq!(my_value, None);
    // Cache == [C, A, X]
}

#[test]
fn test_lru_cache_integration() {
    let mut cache = Cache::new(2);
    cache.put("key1", "value1");
    cache.put("key2", "value2");
    assert_eq!(cache.get(&"key1"), Some(&"value1"));
    cache.put("key3", "value3"); // evicts "key2"
    assert_eq!(cache.get(&"key2"), None);
    assert_eq!(cache.get(&"key3"), Some(&"value3"));
}

#[test]
fn test_persistent_cache() {
    // What "test_cache.txt" holds; nothing until the first save.
    let mut file: Option<String> = None;

    {
        let mut cache: Cache<String, String> = Cache::new_persistent(3, file.as_deref());
        cache.put("A".to_string(), "value_a".to_string());
        cache.put("B".to_string(), "value_b".to_string());
        file = Some(cache.save_to_file());
    }

    {
        let mut cache: Cache<String, String> = Cache::new_persistent(3, file.as_deref());
        assert_eq!(cache.get(&"A".to_string()), Some(&"value_a".to_string()));
        assert_eq!(cache.get(&"B".to_string()), Some(&"value_b".to_string()));
    }
}

#[test]
fn test_persistent_cache_integration() {
    // What "test_cache_integration.txt" holds; nothing until the first save.
    let mut file: Option<String> = None;

    {
        let mut cache: Cache<String, String> = Cache::new_persistent(2, file.as_deref());
        cache.put("key1".to_string(), "value1".to_string());
        file = Some(cache.save_to_file());
    }

    {
        let mut cache: Cache<String, String> = Cache::new_persistent(2, file.as_deref());
        assert_eq!(cache.get(&"key1".to_string()), Some(&"value1".to_string()));
    }
}
