use lru_cache::Cache;

#[test]
fn test_lru_cache_basic() {
    let mut cache: Cache<String, String> = Cache::new(3);
    cache.put("A".to_string(), String::from("value_a"));
    cache.put("B".to_string(), String::from("value_b"));
    cache.put("C".to_string(), String::from("value_c"));
    cache.put("D".to_string(), String::from("value_d"));
    assert_eq!(cache.get(&"A".to_string()), None);
    assert_eq!(cache.get(&"D".to_string()), Some(&String::from("value_d")));
    assert_eq!(cache.get(&"B".to_string()), Some(&String::from("value_b")));
    assert_eq!(cache.get(&"C".to_string()), Some(&String::from("value_c")));
    assert_eq!(cache.get(&"X".to_string()), None);
    cache.put("A".to_string(), String::from("value_a"));
    cache.put("X".to_string(), String::from("value_x"));
    assert_eq!(cache.get(&"B".to_string()), None);
    assert_eq!(cache.get(&"D".to_string()), None);
}

#[test]
fn test_lru_cache_with_integers() {
    let mut cache: Cache<String, i32> = Cache::new(2);
    cache.put("one".to_string(), 1);
    cache.put("two".to_string(), 2);
    assert_eq!(cache.get(&"one".to_string()), Some(&1));
    cache.put("three".to_string(), 3);
}
