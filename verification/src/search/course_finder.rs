use crate::api::course_finder::course_names;
use crate::models::course::CourseInfo;
use crate::search::matcher::{all_ascii, StringMatcher};
use crate::utils::lowercase_of;
use vstd::prelude::*;
use vstd::utf8::is_ascii_chars;

verus! {

/// Why a search for a course found nothing.
#[derive(Clone, Copy, Debug, PartialEq, Eq, Structural)]
pub enum SearchError {
    /// There was no course to compare the name with.
    NoMatchingCourse,
    /// The closest name belongs to no course as it is written.
    CourseNotFound,
}

impl SearchError {
    /// What the error says, in words.
    pub fn message(&self) -> (text: String)
        ensures
            text@ == (match *self {
                SearchError::NoMatchingCourse => "No matching course found"@,
                SearchError::CourseNotFound => "Course not found"@,
            }),
    {
        match self {
            SearchError::NoMatchingCourse => "No matching course found".to_owned(),
            SearchError::CourseNotFound => "Course not found".to_owned(),
        }
    }
}

/// The place of the first of `courses` with exactly the name `name`.
pub open spec fn first_with_name(courses: Seq<CourseInfo>, name: Seq<char>) -> Option<int>
    decreases courses.len(),
{
    if courses.len() == 0 {
        None
    } else {
        match first_with_name(courses.drop_last(), name) {
            Some(i) => Some(i),
            None => if courses.last().course_name@ == name {
                Some(courses.len() - 1)
            } else {
                None
            },
        }
    }
}

/// Whether `result` is what a search of `courses` for exactly the name
/// `matched` gives: the first course with that name, or the notice that
/// there is none.
pub open spec fn picks(
    courses: Seq<CourseInfo>,
    matched: Seq<char>,
    result: Result<CourseInfo, SearchError>,
) -> bool {
    match first_with_name(courses, matched) {
        Some(i) => result matches Ok(course) && course@ == courses[i]@,
        None => result == Err::<CourseInfo, SearchError>(SearchError::CourseNotFound),
    }
}

/// The first of `courses` with exactly the name `matched`.
pub fn course_named(courses: &Vec<CourseInfo>, matched: &str) -> (result: Result<
    CourseInfo,
    SearchError,
>)
    ensures
        picks(courses@, matched@, result),
{
    let wanted = matched.to_owned();
    let mut i: usize = 0;
    while i < courses.len()
        invariant
            i <= courses.len(),
            wanted@ == matched@,
            first_with_name(courses@.take(i as int), matched@) is None,
        decreases courses.len() - i,
    {
        proof {
            assert(courses@.take(i + 1).drop_last() =~= courses@.take(i as int));
        }
        if courses[i].course_name == wanted {
            proof {
                lemma_first_with_name_extends(courses@, i + 1, matched@);
            }
            return Ok(courses[i].clone());
        }
        i += 1;
    }
    proof {
        assert(courses@.take(courses.len() as int) =~= courses@);
    }
    Err(SearchError::CourseNotFound)
}

/// A course found among the first `n` is the one found among all.
proof fn lemma_first_with_name_extends(courses: Seq<CourseInfo>, n: int, name: Seq<char>)
    requires
        0 <= n <= courses.len(),
        first_with_name(courses.take(n), name) is Some,
    ensures
        first_with_name(courses, name) == first_with_name(courses.take(n), name),
    decreases courses.len() - n,
{
    if n < courses.len() {
        assert(courses.take(n + 1).drop_last() =~= courses.take(n));
        lemma_first_with_name_extends(courses, n + 1, name);
    } else {
        assert(courses.take(n) =~= courses);
    }
}

/// The course of `courses` that `course_name` means: the name is matched
/// against the names of all courses, and the first course that carries the
/// closest name, in lower case, is returned.
pub fn find_course_by_name(courses: &Vec<CourseInfo>, course_name: &str) -> (result: Result<
    CourseInfo,
    SearchError,
>)
    requires
        all_ascii(course_names(courses@)),
        is_ascii_chars(course_name@),
    ensures
        courses@.len() == 0 ==> result == Err::<CourseInfo, SearchError>(
            SearchError::NoMatchingCourse,
        ),
        courses@.len() > 0 ==> exists|i: int|
            0 <= i < courses@.len() && picks(
                courses@,
                lowercase_of(lowercase_of(#[trigger] course_names(courses@)[i])),
                result,
            ),
{
    let mut names: Vec<String> = Vec::new();
    let mut i: usize = 0;
    while i < courses.len()
        invariant
            i <= courses.len(),
            names@.len() == i,
            forall|j: int| 0 <= j < i ==> names@[j]@ == courses@[j].course_name@,
        decreases courses.len() - i,
    {
        names.push(courses[i].course_name.clone());
        i += 1;
    }
    proof {
        assert(names.deep_view() =~= course_names(courses@));
    }
    let matcher = StringMatcher::new(names);
    match matcher.find_closest(course_name) {
        None => Err(SearchError::NoMatchingCourse),
        Some(matched_name) => {
            let result = course_named(courses, matched_name.as_str());
            result
        },
    }
}

} // verus!
