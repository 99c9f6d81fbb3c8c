use ccny_course_catalog::custom_hashmap::{CustomHashMap, KeyValue};
use ccny_course_catalog::hash_key::{hash_key, HashKey};

#[test]
fn test_can_get_item() {
    let key = "hello".to_string();
    let value: i32 = 1;

    let mut my_hash: CustomHashMap<String, i32> = CustomHashMap::new();
    my_hash.insert(key.clone(), value);

    let result = my_hash.get(key).unwrap();
    assert_eq!(result, value)
}

#[test]
fn new_map_is_empty() {
    let my_hash: CustomHashMap<u32, u32> = CustomHashMap::new();
    assert_eq!(my_hash.len(), 0);
    assert!(my_hash.is_empty());
    assert_eq!(my_hash.get(7), None);
}

#[test]
fn insert_returns_previous_value() {
    let mut my_hash: CustomHashMap<u32, i32> = CustomHashMap::new();
    assert_eq!(my_hash.insert(5, 50), None);
    assert_eq!(my_hash.insert(5, 51), Some(50));
    assert_eq!(my_hash.insert(5, 52), Some(51));
    assert_eq!(my_hash.len(), 1);
    assert_eq!(my_hash.get(5), Some(52));
}

#[test]
fn remove_returns_value_and_unbinds() {
    let mut my_hash: CustomHashMap<String, i32> = CustomHashMap::new();
    my_hash.insert("a".to_string(), 1);
    my_hash.insert("b".to_string(), 2);
    assert_eq!(my_hash.remove("a".to_string()), Some(1));
    assert_eq!(my_hash.remove("a".to_string()), None);
    assert_eq!(my_hash.get("a".to_string()), None);
    assert_eq!(my_hash.get("b".to_string()), Some(2));
    assert_eq!(my_hash.len(), 1);
    assert!(!my_hash.is_empty());
}

#[test]
fn remove_of_absent_key_changes_nothing() {
    let mut my_hash: CustomHashMap<u32, i32> = CustomHashMap::new();
    my_hash.insert(1, 10);
    assert_eq!(my_hash.remove(2), None);
    assert_eq!(my_hash.len(), 1);
    assert_eq!(my_hash.get(1), Some(10));
}

#[test]
fn chains_hold_more_keys_than_buckets() {
    // 2000 keys in 256 buckets: every bucket carries a chain.
    let mut my_hash: CustomHashMap<u32, u32> = CustomHashMap::new();
    for k in 0..2000u32 {
        assert_eq!(my_hash.insert(k, k * 3), None);
    }
    assert_eq!(my_hash.len(), 2000);
    for k in 0..2000u32 {
        assert_eq!(my_hash.get(k), Some(k * 3));
    }
    assert_eq!(my_hash.get(2000), None);
    // Update in place along the chains.
    for k in 0..2000u32 {
        assert_eq!(my_hash.insert(k, k + 1), Some(k * 3));
    }
    assert_eq!(my_hash.len(), 2000);
    // Remove every other key: heads, middles and ends of chains.
    for k in (0..2000u32).step_by(2) {
        assert_eq!(my_hash.remove(k), Some(k + 1));
    }
    assert_eq!(my_hash.len(), 1000);
    for k in 0..2000u32 {
        if k % 2 == 0 {
            assert_eq!(my_hash.get(k), None);
        } else {
            assert_eq!(my_hash.get(k), Some(k + 1));
        }
    }
    for k in (1..2000u32).step_by(2) {
        assert_eq!(my_hash.remove(k), Some(k + 1));
    }
    assert!(my_hash.is_empty());
}

#[test]
fn colliding_keys_are_kept_apart() {
    // Find three keys of one bucket and work on their chain in every order.
    let bucket = |k: u32| hash_key(&k) % 256;
    let first: u32 = 0;
    let mut same: Vec<u32> = vec![first];
    let mut k: u32 = 1;
    while same.len() < 3 {
        if bucket(k) == bucket(first) {
            same.push(k);
        }
        k += 1;
    }
    let (a, b, c) = (same[0], same[1], same[2]);
    let mut my_hash: CustomHashMap<u32, i32> = CustomHashMap::new();
    my_hash.insert(a, 1);
    my_hash.insert(b, 2);
    my_hash.insert(c, 3);
    assert_eq!(my_hash.len(), 3);
    // Middle of the chain.
    assert_eq!(my_hash.remove(b), Some(2));
    assert_eq!(my_hash.get(a), Some(1));
    assert_eq!(my_hash.get(b), None);
    assert_eq!(my_hash.get(c), Some(3));
    // Head of the chain: the successor is promoted.
    assert_eq!(my_hash.remove(a), Some(1));
    assert_eq!(my_hash.get(a), None);
    assert_eq!(my_hash.get(c), Some(3));
    // Last node of the chain.
    assert_eq!(my_hash.insert(b, 20), None);
    assert_eq!(my_hash.remove(b), Some(20));
    assert_eq!(my_hash.remove(c), Some(3));
    assert!(my_hash.is_empty());
}

#[test]
fn get_follows_the_latest_insert_or_remove() {
    let mut my_hash: CustomHashMap<i32, i32> = CustomHashMap::new();
    assert_eq!(my_hash.get(9), None);
    my_hash.insert(9, 1);
    assert_eq!(my_hash.get(9), Some(1));
    my_hash.insert(4, 7);
    assert_eq!(my_hash.get(9), Some(1));
    my_hash.insert(9, 2);
    assert_eq!(my_hash.get(9), Some(2));
    my_hash.remove(9);
    assert_eq!(my_hash.get(9), None);
    assert_eq!(my_hash.get(4), Some(7));
    my_hash.insert(9, 3);
    assert_eq!(my_hash.get(9), Some(3));
}

#[test]
fn clear_unbinds_every_key() {
    let mut my_hash: CustomHashMap<String, i32> = CustomHashMap::new();
    my_hash.insert("x".to_string(), 1);
    my_hash.insert("y".to_string(), 2);
    my_hash.clear();
    assert!(my_hash.is_empty());
    assert_eq!(my_hash.len(), 0);
    assert_eq!(my_hash.get("x".to_string()), None);
    assert_eq!(my_hash.get("y".to_string()), None);
    // The map is usable again.
    my_hash.insert("x".to_string(), 5);
    assert_eq!(my_hash.get("x".to_string()), Some(5));
}

#[test]
fn key_value_new_builds_a_single_node() {
    let node: KeyValue<u32, i32> = KeyValue::new(1, 2);
    let _ = node;
}

#[test]
fn hashing_is_deterministic_and_depends_on_the_key() {
    assert_eq!(hash_key(&17u32), hash_key(&17u32));
    assert_eq!(hash_key(&"abc".to_string()), hash_key(&"abc".to_string()));
    assert_ne!(hash_key(&17u32), hash_key(&18u32));
    assert_ne!(hash_key(&"abc".to_string()), hash_key(&"abd".to_string()));
    assert!(17u32.same_key(&17u32));
    assert!(!17u32.same_key(&18u32));
    assert!("abc".to_string().same_key(&"abc".to_string()));
    assert_eq!("abc".to_string().copy_key(), "abc".to_string());
    assert_eq!((-5i32).copy_key(), -5i32);
    assert!(3usize.same_key(&3usize));
    assert!(!3u64.same_key(&4u64));
}
