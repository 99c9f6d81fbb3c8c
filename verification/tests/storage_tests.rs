use ccny_course_catalog::models::{
    CompactCourseComponents, CompactCourseInfo, CourseComponents, CourseInfo,
};
use ccny_course_catalog::storage::{Block, BlockStore, CourseStorage, Location, BLOCK_SIZE};
use ccny_course_catalog::utils::StringInterner;
use ccny_course_catalog::StorageError;

fn course(n: u32) -> CourseInfo {
    CourseInfo {
        unique_id: format!("{:07}-1901-01-01", n),
        packed_code: 21200 + n,
        course_name: format!("Course {}", n),
        career: "Undergraduate".to_string(),
        course_code: format!("CSC {}", 21200 + n),
        course_components: CourseComponents {
            course_type: "LEC".to_string(),
            attendance_type: "Class Meeting".to_string(),
            weekly_hours: 3,
            class_size: 35,
            final_exam: "Yes".to_string(),
            exam_seat_spacing: -1,
            instruction_mode: "In Person".to_string(),
        },
        effective_start_date: "1901-01-01".to_string(),
        effective_end_date: "unknown".to_string(),
        course_group_id: format!("{:07}", n),
        course_number: 21200 + n as i64,
        department: "CSC-CTY".to_string(),
        subject_code: "CSC".to_string(),
        credits: "3".to_string(),
    }
}

#[test]
fn block_new_is_empty() {
    let block: Block<u32> = Block::new();
    let _ = block;
}

#[test]
fn first_allocation_opens_block_zero() {
    let mut store: BlockStore<u32> = BlockStore::new();
    assert_eq!(store.block_count(), 0);
    assert_eq!(store.allocate_or_reuse_block(), 0);
    assert_eq!(store.block_count(), 1);
    // The block is still empty: it is returned again.
    assert_eq!(store.allocate_or_reuse_block(), 0);
    assert_eq!(store.block_count(), 1);
}

#[test]
fn put_fills_slots_in_order() {
    let mut store: BlockStore<u32> = BlockStore::new();
    let block = store.allocate_or_reuse_block();
    for i in 0..BLOCK_SIZE {
        assert_eq!(store.put(block, 100 + i as u32), Ok(i));
    }
    for i in 0..BLOCK_SIZE {
        assert_eq!(store.get_slot(block, i), Some(&(100 + i as u32)));
    }
}

#[test]
fn put_into_a_full_block_is_storage_full() {
    let mut store: BlockStore<u32> = BlockStore::new();
    let block = store.allocate_or_reuse_block();
    for i in 0..BLOCK_SIZE {
        assert_eq!(store.put(block, i as u32), Ok(i));
    }
    assert_eq!(store.put(block, 99), Err(StorageError::StorageFull));
    // Nothing was overwritten.
    for i in 0..BLOCK_SIZE {
        assert_eq!(store.get_slot(block, i), Some(&(i as u32)));
    }
}

#[test]
fn put_into_a_missing_block_is_storage_full() {
    let mut store: BlockStore<u32> = BlockStore::new();
    assert_eq!(store.put(0, 1), Err(StorageError::StorageFull));
    store.allocate_or_reuse_block();
    assert_eq!(store.put(1, 1), Err(StorageError::StorageFull));
    assert_eq!(store.put(0, 1), Ok(0));
}

#[test]
fn one_record_more_than_a_block_opens_a_second_block() {
    let mut store: BlockStore<u32> = BlockStore::new();
    let mut places: Vec<(usize, usize)> = Vec::new();
    for i in 0..(BLOCK_SIZE as u32 + 1) {
        let block = store.allocate_or_reuse_block();
        let slot = store.put(block, 1000 + i).unwrap();
        places.push((block, slot));
    }
    assert_eq!(store.block_count(), 2);
    for i in 0..BLOCK_SIZE {
        assert_eq!(places[i], (0, i));
    }
    assert_eq!(places[BLOCK_SIZE], (1, 0));
    // A scan of the first block never comes upon the last record.
    let last = 1000 + BLOCK_SIZE as u32;
    assert_eq!(store.scan(0, |record: &u32| *record == last), None);
    assert_eq!(store.scan(1, |record: &u32| *record == last), Some((0, &last)));
    let mut seen: Vec<u32> = Vec::new();
    for slot in 0..BLOCK_SIZE {
        seen.push(*store.get_slot(0, slot).unwrap());
    }
    assert!(!seen.contains(&last));
    assert_eq!(store.get_slot(1, 0), Some(&last));
    assert_eq!(store.get_slot(1, 1), None);
}

#[test]
fn scan_returns_the_first_match_in_slot_order() {
    let mut store: BlockStore<u32> = BlockStore::new();
    let block = store.allocate_or_reuse_block();
    for value in [5u32, 8, 12, 8, 20] {
        store.put(block, value).unwrap();
    }
    assert_eq!(store.scan(block, |record: &u32| *record == 8), Some((1, &8)));
    assert_eq!(store.scan(block, |record: &u32| *record > 10), Some((2, &12)));
    assert_eq!(store.scan(block, |record: &u32| *record > 100), None);
    assert_eq!(store.scan(block + 1, |_record: &u32| true), None);
}

#[test]
fn get_slot_of_an_empty_or_missing_slot_is_none() {
    let mut store: BlockStore<u32> = BlockStore::new();
    assert_eq!(store.get_slot(0, 0), None);
    let block = store.allocate_or_reuse_block();
    assert_eq!(store.get_slot(block, 0), None);
    store.put(block, 7).unwrap();
    assert_eq!(store.get_slot(block, 0), Some(&7));
    assert_eq!(store.get_slot(block, 1), None);
    assert_eq!(store.get_slot(block, BLOCK_SIZE), None);
    assert_eq!(store.get_slot(block + 1, 0), None);
}

#[test]
fn allocation_reuses_an_earlier_block_with_room() {
    let mut store: BlockStore<u32> = BlockStore::new();
    for i in 0..(2 * BLOCK_SIZE as u32 + 3) {
        let block = store.allocate_or_reuse_block();
        store.put(block, i).unwrap();
    }
    assert_eq!(store.block_count(), 3);
    assert_eq!(store.allocate_or_reuse_block(), 2);
    assert_eq!(store.block_count(), 3);
}

#[test]
fn compact_record_round_trips_through_the_interner() {
    let mut interner = StringInterner::new();
    let record = course(1);
    let name_id = interner.intern(record.course_name.clone());
    let dept_id = interner.intern(record.department.clone());
    let compact = CompactCourseInfo::from_course_info(&record, name_id, dept_id, &mut interner);
    assert_eq!(compact.name_id, name_id);
    assert_eq!(compact.department_id, dept_id);
    assert_eq!(compact.course_code, record.packed_code);
    assert_eq!(compact.course_number, record.course_number);
    assert_eq!(compact.components.weekly_hours, 3);
    assert_eq!(compact.components.class_size, 35);
    assert_eq!(compact.components.exam_spacing, -1);
    assert_eq!(interner.resolve(compact.unique_id), Ok("0000001-1901-01-01"));
    assert_eq!(compact.to_course_info(&interner), Ok(record));
}

#[test]
fn equal_strings_of_two_records_are_stored_once() {
    let mut interner = StringInterner::new();
    let first = course(1);
    let second = course(2);
    let name1 = interner.intern(first.course_name.clone());
    let dept1 = interner.intern(first.department.clone());
    let compact1 = CompactCourseInfo::from_course_info(&first, name1, dept1, &mut interner);
    let count = interner.len();
    let name2 = interner.intern(second.course_name.clone());
    let dept2 = interner.intern(second.department.clone());
    let compact2 = CompactCourseInfo::from_course_info(&second, name2, dept2, &mut interner);
    assert_eq!(dept1, dept2);
    assert_eq!(compact1.career, compact2.career);
    assert_eq!(compact1.credits, compact2.credits);
    assert_ne!(compact1.unique_id, compact2.unique_id);
    // Four strings differ between the two: id, name, code and group id.
    assert_eq!(interner.len(), count + 4);
}

#[test]
fn rehydration_with_an_unknown_id_is_invalid() {
    let interner = StringInterner::new();
    let compact = CompactCourseInfo {
        unique_id: 0,
        name_id: 0,
        course_code: 0,
        career: 0,
        code_text: 0,
        components: CompactCourseComponents {
            course_type: 0,
            attendance_type: 0,
            weekly_hours: 0,
            class_size: 0,
            final_exam: 0,
            exam_spacing: 0,
            instruction_mode: 0,
        },
        start_date: 0,
        end_date: 0,
        group_id: 0,
        course_number: 0,
        department_id: 0,
        subject_code: 0,
        credits: 0,
    };
    assert_eq!(compact.to_course_info(&interner), Err(StorageError::InvalidId));
}

#[test]
fn stored_record_is_found_by_id_and_by_code() {
    let mut storage = CourseStorage::new(1000);
    let record = course(7);
    assert!(storage.has_room());
    storage.insert(record.clone());
    assert_eq!(storage.get_by_id(&record.unique_id), Some(record.clone()));
    assert_eq!(storage.get_by_code(record.packed_code), Some(record.clone()));
}

#[test]
fn unknown_keys_find_nothing() {
    let mut storage = CourseStorage::new(0);
    assert_eq!(storage.get_by_id("nothing"), None);
    assert_eq!(storage.get_by_code(1), None);
    storage.insert(course(1));
    assert_eq!(storage.get_by_id("nothing"), None);
    assert_eq!(storage.get_by_code(1), None);
}

#[test]
fn records_survive_eviction_from_the_cache() {
    // More records than the cache holds: early ones are rehydrated from
    // their slots.
    let mut storage = CourseStorage::new(16);
    for n in 0..300u32 {
        storage.insert(course(n));
    }
    for n in 0..300u32 {
        let record = course(n);
        assert_eq!(storage.get_by_id(&record.unique_id), Some(record.clone()));
        assert_eq!(storage.get_by_code(record.packed_code), Some(record));
    }
    // And once more, now from the cache for the late ones.
    for n in (0..300u32).rev() {
        let record = course(n);
        assert_eq!(storage.get_by_code(record.packed_code), Some(record.clone()));
        assert_eq!(storage.get_by_id(&record.unique_id), Some(record));
    }
}

#[test]
fn reinserting_an_id_replaces_the_record() {
    let mut storage = CourseStorage::new(16);
    let first = course(3);
    let mut second = course(3);
    second.course_name = "Renamed".to_string();
    second.credits = "4".to_string();
    storage.insert(first.clone());
    storage.insert(second.clone());
    assert_eq!(storage.get_by_id(&first.unique_id), Some(second.clone()));
    assert_eq!(storage.get_by_code(first.packed_code), Some(second));
}

#[test]
fn reinserting_an_id_with_another_code_keeps_the_old_code_entry() {
    let mut storage = CourseStorage::new(16);
    let first = course(3);
    let mut second = course(3);
    second.packed_code = 99999;
    storage.insert(first.clone());
    storage.insert(second.clone());
    assert_eq!(storage.get_by_id(&first.unique_id), Some(second.clone()));
    assert_eq!(storage.get_by_code(99999), Some(second));
    // The earlier slot is orphaned for the id, but its code still leads to it.
    assert_eq!(storage.get_by_code(first.packed_code), Some(first));
}

#[test]
fn location_is_a_plain_pair() {
    let a = Location { block_id: 1, slot_index: 2 };
    let b = Location { block_id: 1, slot_index: 2 };
    let c = Location { block_id: 2, slot_index: 1 };
    assert_eq!(a, b);
    assert_ne!(a, c);
}
