use ccny_course_catalog::custom_lru_cache::CustomLruCache;

#[test]
fn test_basic_operations() {
    let mut cache = CustomLruCache::new(2);

    // Test insertion
    cache.insert(1, "one");
    cache.insert(2, "two");
    assert_eq!(cache.get(&1), Some(&"one"));
    assert_eq!(cache.get(&2), Some(&"two"));

    // Test eviction
    cache.insert(3, "three");
    assert_eq!(cache.get(&1), None); // Should be evicted
    assert_eq!(cache.get(&2), Some(&"two"));
    assert_eq!(cache.get(&3), Some(&"three"));
}

#[test]
fn test_update_existing() {
    let mut cache = CustomLruCache::new(2);
    cache.insert(1, "one");
    cache.insert(1, "ONE");
    assert_eq!(cache.get(&1), Some(&"ONE"));
    assert_eq!(cache.len(), 1);
}

#[test]
fn test_clear() {
    let mut cache = CustomLruCache::new(2);
    cache.insert(1, "one");
    cache.insert(2, "two");
    cache.clear();
    assert!(cache.is_empty());
    assert_eq!(cache.get(&1), None);
}

#[test]
fn eviction_without_lookups_drops_the_oldest() {
    let mut cache = CustomLruCache::new(2);
    cache.insert(1, "one");
    cache.insert(2, "two");
    cache.insert(3, "three");
    assert_eq!(cache.len(), 2);
    assert_eq!(cache.get(&1), None);
    assert_eq!(cache.get(&2), Some(&"two"));
    assert_eq!(cache.get(&3), Some(&"three"));
}

#[test]
fn lookup_protects_an_entry_from_eviction() {
    let mut cache = CustomLruCache::new(3);
    cache.insert(1, 10);
    cache.insert(2, 20);
    cache.insert(3, 30);
    assert_eq!(cache.get(&1), Some(&10));
    cache.insert(4, 40);
    // 2 was the least recently used one.
    assert_eq!(cache.get(&2), None);
    assert_eq!(cache.get(&1), Some(&10));
    assert_eq!(cache.get(&3), Some(&30));
    assert_eq!(cache.get(&4), Some(&40));
    assert_eq!(cache.len(), 3);
}

#[test]
fn update_promotes_and_keeps_the_count() {
    let mut cache = CustomLruCache::new(2);
    cache.insert(1, "one");
    cache.insert(2, "two");
    cache.insert(1, "ONE");
    assert_eq!(cache.len(), 2);
    cache.insert(3, "three");
    // 2 is gone: 1 was touched after it.
    assert_eq!(cache.get(&2), None);
    assert_eq!(cache.get(&1), Some(&"ONE"));
    assert_eq!(cache.get(&3), Some(&"three"));
}

#[test]
fn a_miss_inserts_nothing() {
    let mut cache: CustomLruCache<i32, i32> = CustomLruCache::new(2);
    assert_eq!(cache.get(&1), None);
    assert!(cache.is_empty());
    assert_eq!(cache.len(), 0);
}

#[test]
fn remove_returns_the_value_and_frees_the_slot() {
    let mut cache = CustomLruCache::new(2);
    cache.insert(1, "one".to_string());
    cache.insert(2, "two".to_string());
    assert_eq!(cache.remove(&1), Some("one".to_string()));
    assert_eq!(cache.remove(&1), None);
    assert_eq!(cache.len(), 1);
    // Room for one more without an eviction.
    cache.insert(3, "three".to_string());
    assert_eq!(cache.len(), 2);
    assert_eq!(cache.get(&2), Some(&"two".to_string()));
    assert_eq!(cache.get(&3), Some(&"three".to_string()));
    assert_eq!(cache.remove(&2), Some("two".to_string()));
    assert_eq!(cache.remove(&3), Some("three".to_string()));
    assert!(cache.is_empty());
}

#[test]
fn remove_head_middle_and_tail() {
    let mut cache = CustomLruCache::new(5);
    for k in 1..=5 {
        cache.insert(k, k * 10);
    }
    // Recency order is 5 4 3 2 1.
    assert_eq!(cache.remove(&3), Some(30));
    assert_eq!(cache.remove(&5), Some(50));
    assert_eq!(cache.remove(&1), Some(10));
    assert_eq!(cache.len(), 2);
    cache.insert(6, 60);
    cache.insert(7, 70);
    cache.insert(8, 80);
    assert_eq!(cache.len(), 5);
    cache.insert(9, 90);
    // 2 is the least recently used one.
    assert_eq!(cache.get(&2), None);
    assert_eq!(cache.get(&4), Some(&40));
    assert_eq!(cache.get(&9), Some(&90));
}

#[test]
fn get_mut_writes_through_and_promotes() {
    let mut cache = CustomLruCache::new(2);
    cache.insert(1, 10);
    cache.insert(2, 20);
    match cache.get_mut(&1) {
        Some(value) => *value += 5,
        None => panic!("entry 1 is resident"),
    }
    assert!(cache.get_mut(&7).is_none());
    cache.insert(3, 30);
    assert_eq!(cache.get(&2), None);
    assert_eq!(cache.get(&1), Some(&15));
    assert_eq!(cache.get(&3), Some(&30));
}

#[test]
fn capacity_one_keeps_the_latest() {
    let mut cache = CustomLruCache::new(1);
    cache.insert(1, "one");
    cache.insert(2, "two");
    assert_eq!(cache.len(), 1);
    assert_eq!(cache.get(&1), None);
    assert_eq!(cache.get(&2), Some(&"two"));
}

#[test]
fn capacity_zero_keeps_nothing() {
    let mut cache = CustomLruCache::new(0);
    cache.insert(1, "one");
    assert_eq!(cache.len(), 0);
    assert!(cache.is_empty());
    assert_eq!(cache.get(&1), None);
    cache.insert(1, "one");
    cache.insert(2, "two");
    assert!(cache.is_empty());
}

#[test]
fn residents_are_the_most_recently_touched() {
    // The cache against a plain list that is kept in recency order by hand.
    let capacity = 4usize;
    let mut cache = CustomLruCache::new(capacity);
    let mut model: Vec<(u32, u32)> = Vec::new();
    // A fixed pseudo-random sequence of keys in 0..10.
    let mut state: u32 = 12345;
    for step in 0..2000u32 {
        state = state.wrapping_mul(1103515245).wrapping_add(12345);
        let key = (state >> 16) % 10;
        if step % 3 == 0 {
            let expected = match model.iter().position(|entry| entry.0 == key) {
                Some(at) => {
                    let entry = model.remove(at);
                    model.insert(0, entry);
                    Some(entry.1)
                }
                None => None,
            };
            assert_eq!(cache.get(&key).copied(), expected);
        } else {
            if let Some(at) = model.iter().position(|entry| entry.0 == key) {
                model.remove(at);
            }
            model.insert(0, (key, step));
            model.truncate(capacity);
            cache.insert(key, step);
        }
        assert!(cache.len() <= capacity);
        assert_eq!(cache.len(), model.len());
    }
    // What is resident in the end is what the list holds, oldest first.
    for entry in model.iter().rev() {
        assert_eq!(cache.remove(&entry.0), Some(entry.1));
    }
    assert!(cache.is_empty());
}

#[test]
fn slots_are_reused_after_many_evictions() {
    let mut cache = CustomLruCache::new(3);
    for k in 0..1000u32 {
        cache.insert(k, k);
        assert!(cache.len() <= 3);
    }
    assert_eq!(cache.get(&996), None);
    assert_eq!(cache.get(&997), Some(&997));
    assert_eq!(cache.get(&998), Some(&998));
    assert_eq!(cache.get(&999), Some(&999));
}

#[test]
fn clear_keeps_the_capacity() {
    let mut cache = CustomLruCache::new(2);
    cache.insert("a".to_string(), 1);
    cache.insert("b".to_string(), 2);
    cache.clear();
    assert_eq!(cache.get(&"a".to_string()), None);
    assert_eq!(cache.get(&"b".to_string()), None);
    cache.insert("c".to_string(), 3);
    cache.insert("d".to_string(), 4);
    cache.insert("e".to_string(), 5);
    assert_eq!(cache.len(), 2);
    assert_eq!(cache.get(&"c".to_string()), None);
}
