use crate::models::course::CourseInfo;
use crate::search::matcher::{
    all_ascii, bag_sizes_from, byte_length, closest_with_sizes, shortest_length,
};
use crate::utils::{lowercase_of, to_lowercase};
use vstd::prelude::*;
use vstd::string::{StringExecFns, StringSliceAdditionalSpecFns};
use vstd::utf8::is_ascii_chars;

verus! {

/// The length that a complete course group id has at least.
pub const COURSE_GROUP_ID_LENGTH: usize = 7;

/// A course group id as the catalog wants it: a shorter one gets a zero in
/// front.
pub open spec fn padded_group_id(id: Seq<char>) -> Seq<char> {
    if byte_length(id) < COURSE_GROUP_ID_LENGTH {
        seq!['0'] + id
    } else {
        id
    }
}

/// Completes a course group id: one of fewer than seven bytes gets a zero
/// in front.
pub fn complete_course_group_id(course_group_id: &str) -> (complete: String)
    ensures
        complete@ == padded_group_id(course_group_id@),
{
    if course_group_id.len() < COURSE_GROUP_ID_LENGTH {
        let mut complete = "0".to_owned();
        proof {
            reveal_strlit("0");
        }
        complete.append(course_group_id);
        complete
    } else {
        course_group_id.to_owned()
    }
}

/// What is given for a course that has no group id.
pub open spec fn no_group_id() -> Seq<char> {
    "Course Group ID Does not exist for this course"@
}

/// The id of the last of `entries` with the name `name`.
pub open spec fn last_with_name(entries: Seq<(Seq<char>, Seq<char>)>, name: Seq<char>) -> Option<
    Seq<char>,
>
    decreases entries.len(),
{
    if entries.len() == 0 {
        None
    } else if entries.last().0 == name {
        Some(entries.last().1)
    } else {
        last_with_name(entries.drop_last(), name)
    }
}

/// The group id that `entries`, a list of course names with group ids, gives
/// for `name`: that of the last entry with this name, or the notice that
/// there is none.
pub open spec fn group_id_for(entries: Seq<(Seq<char>, Seq<char>)>, name: Seq<char>) -> Seq<char> {
    match last_with_name(entries, name) {
        Some(id) => id,
        None => no_group_id(),
    }
}

/// Looks `name` up in `entries`, a list of course names with group ids. A
/// later entry overrides an earlier one with the same name.
pub fn course_group_id_for(entries: &Vec<(String, String)>, name: &str) -> (id: String)
    ensures
        id@ == group_id_for(entries.deep_view(), name@),
{
    let wanted = name.to_owned();
    let mut i: usize = entries.len();
    assert(entries.deep_view().take(i as int) =~= entries.deep_view());
    while i > 0
        invariant
            i <= entries.len(),
            wanted@ == name@,
            last_with_name(entries.deep_view(), name@) == last_with_name(
                entries.deep_view().take(i as int),
                name@,
            ),
        decreases i,
    {
        i -= 1;
        proof {
            let upto = entries.deep_view().take(i + 1);
            assert(upto.drop_last() =~= entries.deep_view().take(i as int));
        }
        if entries[i].0 == wanted {
            return entries[i].1.clone();
        }
    }
    "Course Group ID Does not exist for this course".to_owned()
}

/// The names of `courses`, in lower case, each with the group id of its
/// course.
pub open spec fn lowered_entries(courses: Seq<CourseInfo>) -> Seq<(Seq<char>, Seq<char>)> {
    Seq::new(
        courses.len(),
        |i: int| (lowercase_of(courses[i].course_name@), courses[i].course_group_id@),
    )
}

/// The names of `courses`, as they are.
pub open spec fn course_names(courses: Seq<CourseInfo>) -> Seq<Seq<char>> {
    Seq::new(courses.len(), |i: int| courses[i].course_name@)
}

/// The first components of `entries`.
pub open spec fn names_of(entries: Seq<(Seq<char>, Seq<char>)>) -> Seq<Seq<char>> {
    Seq::new(entries.len(), |i: int| entries[i].0)
}

/// Whether every word of `words` is ASCII.
fn words_are_ascii(words: &Vec<String>) -> (ascii: bool)
    ensures
        ascii == all_ascii(words.deep_view()),
{
    let mut i: usize = 0;
    while i < words.len()
        invariant
            i <= words.len(),
            forall|j: int| 0 <= j < i ==> is_ascii_chars(#[trigger] words.deep_view()[j]),
        decreases words.len() - i,
    {
        if !words[i].as_str().is_ascii() {
            proof {
                assert(words.deep_view()[i as int] == words@[i as int]@);
            }
            return false;
        }
        i += 1;
    }
    true
}

/// The group id of the course of `courses` whose name is closest to
/// `course_name_input`. Names are compared in lower case, by the substrings
/// they share, of every length from 0 to that of the shortest name.
///
/// Nothing is returned where the comparison cannot be made: without courses,
/// and with a name or an input that is not ASCII.
pub fn closest_course_group_id(courses: &Vec<CourseInfo>, course_name_input: &str) -> (id: Option<
    String,
>)
    ensures
        id is None <==> (courses@.len() == 0 || !all_ascii(names_of(lowered_entries(courses@)))
            || !is_ascii_chars(course_name_input@)),
        id matches Some(id) ==> exists|i: int|
            0 <= i < courses@.len() && id@ == group_id_for(
                lowered_entries(courses@),
                lowercase_of(lowercase_of(#[trigger] lowered_entries(courses@)[i].0)),
            ),
{
    let mut course_name_list: Vec<String> = Vec::new();
    let mut course_names_as_given: Vec<String> = Vec::new();
    let mut course_name_and_id: Vec<(String, String)> = Vec::new();
    let mut i: usize = 0;
    while i < courses.len()
        invariant
            i <= courses.len(),
            course_name_list@.len() == i,
            course_names_as_given@.len() == i,
            course_name_and_id@.len() == i,
            forall|j: int|
                0 <= j < i ==> course_name_list@[j]@ == lowercase_of(courses@[j].course_name@),
            forall|j: int| 0 <= j < i ==> course_names_as_given@[j]@ == courses@[j].course_name@,
            forall|j: int|
                0 <= j < i ==> course_name_and_id@[j].0@ == lowercase_of(courses@[j].course_name@)
                    && course_name_and_id@[j].1@ == courses@[j].course_group_id@,
        decreases courses.len() - i,
    {
        let lowered = to_lowercase(courses[i].course_name.as_str());
        course_name_list.push(lowered.clone());
        course_names_as_given.push(courses[i].course_name.clone());
        course_name_and_id.push((lowered, courses[i].course_group_id.clone()));
        i += 1;
    }
    proof {
        assert(course_name_list.deep_view() =~= names_of(lowered_entries(courses@)));
        assert(course_name_and_id.deep_view() =~= lowered_entries(courses@));
    }
    if courses.len() == 0 || !words_are_ascii(&course_name_list) || !course_name_input.is_ascii() {
        return None;
    }
    let smallest_course_length = shortest_length(&course_names_as_given);
    let bag_of_words = bag_sizes_from(0, smallest_course_length);
    let closest = closest_with_sizes(course_name_list, bag_of_words, course_name_input);
    let closest_matching_course = closest.unwrap();
    Some(course_group_id_for(&course_name_and_id, closest_matching_course.as_str()))
}

} // verus!
