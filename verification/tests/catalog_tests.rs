use ccny_course_catalog::api::course_finder::{
    closest_course_group_id, complete_course_group_id, course_group_id_for,
};
use ccny_course_catalog::api::department::{
    closest_matching_department, department_id, get_department_list, get_department_mappings,
    input_validation, matching_department_id, pack_course_code, parse_course_number,
};
use ccny_course_catalog::models::{CourseComponents, CourseInfo};
use ccny_course_catalog::search::course_finder::{course_named, find_course_by_name, SearchError};
use ccny_course_catalog::search::matcher::{
    bag_sizes, bag_sizes_from, closest_in, closest_with_sizes, copy_words, shortest_length,
    StringMatcher,
};
use ccny_course_catalog::CCNYCourseCatalog;

fn course(id: &str, name: &str, group: &str) -> CourseInfo {
    CourseInfo {
        unique_id: id.to_string(),
        packed_code: 1,
        course_name: name.to_string(),
        career: "Undergraduate".to_string(),
        course_code: "CSC 21200".to_string(),
        course_components: CourseComponents {
            course_type: "LEC".to_string(),
            attendance_type: "Class Meeting".to_string(),
            weekly_hours: 4,
            class_size: 35,
            final_exam: "Yes".to_string(),
            exam_seat_spacing: 1,
            instruction_mode: "In Person".to_string(),
        },
        effective_start_date: "1901-01-01".to_string(),
        effective_end_date: "unknown".to_string(),
        course_group_id: group.to_string(),
        course_number: 21200,
        department: "CSC-CTY".to_string(),
        subject_code: "CSC".to_string(),
        credits: "3".to_string(),
    }
}

fn words(list: &[&str]) -> Vec<String> {
    list.iter().map(|w| w.to_string()).collect()
}

#[test]
fn input_validation_lowers_the_case() {
    assert_eq!(input_validation("Computer Science"), "computer science");
    assert_eq!(input_validation("PHYSICS"), "physics");
    assert_eq!(input_validation("art"), "art");
    assert_eq!(input_validation(""), "");
}

#[test]
fn the_department_table_has_every_department() {
    let mappings = get_department_mappings();
    assert_eq!(mappings.len(), 41);
    assert_eq!(mappings[0], ("administration".to_string(), "ADMIN-CTY".to_string()));
    assert_eq!(mappings[13], ("computer science".to_string(), "CSC-CTY".to_string()));
    assert_eq!(mappings[40], ("theatre and speech".to_string(), "THSP-CTY".to_string()));
    assert!(mappings.contains(&("biomedical education".to_string(), "MED-CTY".to_string())));
    assert!(mappings
        .contains(&("school of biomedical education".to_string(), "BMED-CTY".to_string())));
    // No name occurs twice.
    for (i, (name, _)) in mappings.iter().enumerate() {
        for (other, _) in mappings.iter().skip(i + 1) {
            assert_ne!(name, other);
        }
    }
}

#[test]
fn the_department_list_is_the_names_of_the_table() {
    let list = get_department_list();
    let mappings = get_department_mappings();
    assert_eq!(list.len(), 41);
    for (name, (from_table, _)) in list.iter().zip(mappings.iter()) {
        assert_eq!(name, from_table);
    }
    assert_eq!(CCNYCourseCatalog::get_department_list(), list);
}

#[test]
fn department_id_wants_the_exact_name() {
    assert_eq!(department_id("art"), Some("ART-CTY".to_string()));
    assert_eq!(department_id("physics"), Some("PHY-CTY".to_string()));
    assert_eq!(department_id("grove school of engineering"), Some("GROVE-CTY".to_string()));
    assert_eq!(department_id("Art"), None);
    assert_eq!(department_id("arts"), None);
    assert_eq!(department_id(""), None);
}

#[test]
fn closest_department_is_found_from_a_part_of_its_name() {
    assert_eq!(closest_matching_department("civil"), "civil engineering");
    assert_eq!(closest_matching_department("computer science"), "computer science");
    assert_eq!(closest_matching_department("psycholog"), "psychology");
}

#[test]
fn matching_department_id_follows_the_closest_name() {
    assert_eq!(matching_department_id("Computer Science"), Some("CSC-CTY".to_string()));
    assert_eq!(matching_department_id("civil"), Some("CE-CTY".to_string()));
    assert_eq!(matching_department_id("PHYSICS"), Some("PHY-CTY".to_string()));
}

#[test]
fn matching_department_id_of_other_than_ascii_is_none() {
    assert_eq!(matching_department_id("économie"), None);
    assert_eq!(matching_department_id("物理"), None);
}

#[test]
fn course_number_is_read_from_the_digits() {
    assert_eq!(parse_course_number("21200"), 21200);
    assert_eq!(parse_course_number("CSC 21200H"), 21200);
    assert_eq!(parse_course_number("1a2b3"), 123);
    assert_eq!(parse_course_number("0012"), 12);
    assert_eq!(parse_course_number("0"), 0);
    assert_eq!(parse_course_number("9223372036854775807"), i64::MAX);
}

#[test]
fn course_number_without_readable_digits_is_64() {
    assert_eq!(parse_course_number(""), 64);
    assert_eq!(parse_course_number("abc"), 64);
    assert_eq!(parse_course_number("9223372036854775808"), 64);
    assert_eq!(parse_course_number("99999999999999999999999"), 64);
    // Digits of other scripts are no decimal digits here.
    assert_eq!(parse_course_number("１２３"), 64);
}

#[test]
fn short_group_ids_get_a_zero_in_front() {
    assert_eq!(complete_course_group_id("455351"), "0455351");
    assert_eq!(complete_course_group_id("0455351"), "0455351");
    assert_eq!(complete_course_group_id("1366591"), "1366591");
    assert_eq!(complete_course_group_id("12345678"), "12345678");
    assert_eq!(complete_course_group_id(""), "0");
    assert_eq!(complete_course_group_id("7"), "07");
}

#[test]
fn group_id_lookup_takes_the_last_entry_of_a_name() {
    let entries = vec![
        ("data structures".to_string(), "0455351".to_string()),
        ("algorithms".to_string(), "0455361".to_string()),
        ("data structures".to_string(), "9999999".to_string()),
    ];
    assert_eq!(course_group_id_for(&entries, "data structures"), "9999999");
    assert_eq!(course_group_id_for(&entries, "algorithms"), "0455361");
    assert_eq!(
        course_group_id_for(&entries, "compilers"),
        "Course Group ID Does not exist for this course"
    );
    assert_eq!(
        course_group_id_for(&Vec::new(), "algorithms"),
        "Course Group ID Does not exist for this course"
    );
}

#[test]
fn closest_course_group_id_matches_in_lower_case() {
    let courses = vec![
        course("a", "Data Structures", "0455351"),
        course("b", "Algorithms", "0455361"),
        course("c", "Operating Systems", "0455371"),
    ];
    assert_eq!(closest_course_group_id(&courses, "data struct"), Some("0455351".to_string()));
    assert_eq!(closest_course_group_id(&courses, "algorithm"), Some("0455361".to_string()));
    assert_eq!(
        closest_course_group_id(&courses, "operating system"),
        Some("0455371".to_string())
    );
}

#[test]
fn closest_course_group_id_without_a_comparison_is_none() {
    let courses = vec![course("a", "Data Structures", "0455351")];
    assert_eq!(closest_course_group_id(&Vec::new(), "data"), None);
    assert_eq!(closest_course_group_id(&courses, "donnée"), None);
    let accented = vec![course("a", "Données", "0455351")];
    assert_eq!(closest_course_group_id(&accented, "data"), None);
}

#[test]
fn bag_sizes_count_up_to_the_longest() {
    assert_eq!(bag_sizes(0), Vec::<usize>::new());
    assert_eq!(bag_sizes(1), vec![1]);
    assert_eq!(bag_sizes(3), vec![1, 2, 3]);
    assert_eq!(bag_sizes_from(0, 2), vec![0, 1, 2]);
    assert_eq!(bag_sizes_from(4, 4), vec![4]);
    assert_eq!(bag_sizes_from(5, 4), Vec::<usize>::new());
}

#[test]
fn shortest_length_counts_bytes() {
    assert_eq!(shortest_length(&Vec::new()), 0);
    assert_eq!(shortest_length(&words(&["hello"])), 5);
    assert_eq!(shortest_length(&words(&["hello", "art", "music"])), 3);
    assert_eq!(shortest_length(&words(&["art", "", "music"])), 0);
    assert_eq!(shortest_length(&words(&["économie"])), 9);
    assert_eq!(copy_words(&words(&["a", "b"])), words(&["a", "b"]));
}

#[test]
fn closest_word_comes_back_in_lower_case() {
    let list = words(&["Apple", "Banana", "Cherry"]);
    assert_eq!(closest_in(list.clone(), "banan"), Some("banana".to_string()));
    assert_eq!(closest_in(list.clone(), "CHERR"), Some("cherry".to_string()));
    assert_eq!(closest_with_sizes(list, vec![2, 3], "appl"), Some("apple".to_string()));
    assert_eq!(closest_in(Vec::new(), "banan"), None);
}

#[test]
fn string_matcher_finds_the_closest_word() {
    let matcher = StringMatcher::new(words(&["Data Structures", "Algorithms", "Compilers"]));
    assert_eq!(matcher.words(), &words(&["Data Structures", "Algorithms", "Compilers"]));
    assert_eq!(matcher.find_closest("data struc"), Some("data structures".to_string()));
    assert_eq!(matcher.find_closest("compiler"), Some("compilers".to_string()));
    let empty = StringMatcher::new(Vec::new());
    assert_eq!(empty.find_closest("anything"), None);
}

#[test]
fn course_named_takes_the_first_of_that_name() {
    let courses = vec![
        course("a", "algorithms", "1"),
        course("b", "data structures", "2"),
        course("c", "algorithms", "3"),
    ];
    assert_eq!(course_named(&courses, "algorithms"), Ok(course("a", "algorithms", "1")));
    assert_eq!(course_named(&courses, "data structures"), Ok(course("b", "data structures", "2")));
    assert_eq!(course_named(&courses, "Algorithms"), Err(SearchError::CourseNotFound));
    assert_eq!(course_named(&Vec::new(), "algorithms"), Err(SearchError::CourseNotFound));
}

#[test]
fn find_course_by_name_returns_the_course_of_the_closest_name() {
    let courses = vec![
        course("a", "algorithms", "1"),
        course("b", "data structures", "2"),
        course("c", "operating systems", "3"),
    ];
    assert_eq!(
        find_course_by_name(&courses, "data struct"),
        Ok(course("b", "data structures", "2"))
    );
    assert_eq!(
        find_course_by_name(&courses, "Operating System"),
        Ok(course("c", "operating systems", "3"))
    );
}

#[test]
fn find_course_by_name_compares_the_lowered_match_with_names_as_written() {
    // The closest name comes back in lower case and is then looked for as
    // it is: a course whose name has capitals is not found under it.
    let courses = vec![course("a", "Algorithms", "1")];
    assert_eq!(find_course_by_name(&courses, "algorithms"), Err(SearchError::CourseNotFound));
}

#[test]
fn find_course_by_name_without_courses_has_no_match() {
    assert_eq!(find_course_by_name(&Vec::new(), "algorithms"), Err(SearchError::NoMatchingCourse));
    assert_eq!(SearchError::NoMatchingCourse.message(), "No matching course found");
    assert_eq!(SearchError::CourseNotFound.message(), "Course not found");
}

#[test]
fn catalog_request_keeps_department_and_course() {
    let mut catalog = CCNYCourseCatalog::new(
        String::from("computer science"),
        Some(String::from("data structures")),
    );
    assert_eq!(catalog.department_name, "computer science");
    assert_eq!(catalog.course_name, "data structures");
    assert!(catalog.has_course_name());
    catalog.set_department_name("electrical engineering");
    catalog.set_course_name("statistics");
    assert_eq!(catalog.department_name, "electrical engineering");
    assert_eq!(catalog.course_name, "statistics");
    catalog.set_course_name("");
    assert!(!catalog.has_course_name());
}

#[test]
fn catalog_request_without_a_course_has_an_empty_course_name() {
    let catalog = CCNYCourseCatalog::new(String::from("physics"), None);
    assert_eq!(catalog.department_name, "physics");
    assert_eq!(catalog.course_name, "");
    assert!(!catalog.has_course_name());
}

#[test]
fn packed_code_is_the_number_of_the_course_code() {
    assert_eq!(pack_course_code("CSC 21200"), 21200);
    assert_eq!(pack_course_code("MATH 391"), 391);
    assert_eq!(pack_course_code("4294967295"), u32::MAX);
    assert_eq!(pack_course_code("4294967296"), 0);
    assert_eq!(pack_course_code("no number"), 64);
}
