use ccny_course_catalog::utils::StringInterner;
use ccny_course_catalog::StorageError;

#[test]
fn equal_strings_share_an_id() {
    let mut interner = StringInterner::new();
    let first = interner.intern("Computer Science".to_string());
    let second = interner.intern("Computer Science".to_string());
    assert_eq!(first, second);
    assert_eq!(interner.len(), 1);
}

#[test]
fn ids_are_dense_and_in_order_of_first_use() {
    let mut interner = StringInterner::new();
    assert_eq!(interner.intern("a".to_string()), 0);
    assert_eq!(interner.intern("b".to_string()), 1);
    assert_eq!(interner.intern("a".to_string()), 0);
    assert_eq!(interner.intern("c".to_string()), 2);
    assert_eq!(interner.intern("".to_string()), 3);
    assert_eq!(interner.intern("b".to_string()), 1);
    assert_eq!(interner.len(), 4);
}

#[test]
fn distinct_strings_get_distinct_ids() {
    let mut interner = StringInterner::new();
    let mut ids: Vec<u32> = Vec::new();
    for i in 0..600 {
        let id = interner.intern(format!("course-{}", i));
        assert!(!ids.contains(&id));
        ids.push(id);
    }
    assert_eq!(interner.len(), 600);
}

#[test]
fn resolve_returns_the_interned_string() {
    let mut interner = StringInterner::new();
    let a = interner.intern("Data Structures".to_string());
    let b = interner.intern("Algorithms".to_string());
    assert_eq!(interner.resolve(a), Ok("Data Structures"));
    assert_eq!(interner.resolve(b), Ok("Algorithms"));
}

#[test]
fn resolve_of_an_unknown_id_is_invalid() {
    let mut interner = StringInterner::new();
    assert_eq!(interner.resolve(0), Err(StorageError::InvalidId));
    let a = interner.intern("x".to_string());
    assert_eq!(interner.resolve(a + 1), Err(StorageError::InvalidId));
    assert_eq!(interner.resolve(u32::MAX), Err(StorageError::InvalidId));
}
