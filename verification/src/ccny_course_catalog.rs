use crate::api::department;
use crate::api::department::department_names;
use vstd::prelude::*;

verus! {

/// What a user asks the catalog about: a department and, where a single
/// course is meant, the name of that course. An empty course name stands
/// for no course.
#[derive(Debug, PartialEq, Eq)]
pub struct CCNYCourseCatalog {
    pub department_name: String,
    pub course_name: String,
}

impl CCNYCourseCatalog {
    /// A request for `department_name` and, if given, for `course_name`.
    pub fn new(department_name: String, course_name: Option<String>) -> (catalog: CCNYCourseCatalog)
        ensures
            catalog.department_name@ == department_name@,
            catalog.course_name@ == (match course_name {
                Some(name) => name@,
                None => Seq::<char>::empty(),
            }),
    {
        CCNYCourseCatalog {
            department_name,
            course_name: match course_name {
                Some(name) => name,
                None => String::new(),
            },
        }
    }

    /// The names of all departments of the college.
    pub fn get_department_list() -> (department_list: Vec<String>)
        ensures
            department_list.deep_view() == department_names(),
    {
        department::get_department_list()
    }

    /// Asks about another department from now on.
    pub fn set_department_name(&mut self, new_department_name: &str)
        ensures
            final(self).department_name@ == new_department_name@,
            final(self).course_name@ == old(self).course_name@,
    {
        self.department_name = new_department_name.to_owned();
    }

    /// Asks about another course from now on.
    pub fn set_course_name(&mut self, new_course_name: &str)
        ensures
            final(self).course_name@ == new_course_name@,
            final(self).department_name@ == old(self).department_name@,
    {
        self.course_name = new_course_name.to_owned();
    }

    /// Whether a course is named, so that its details can be asked for.
    pub fn has_course_name(&self) -> (named: bool)
        ensures
            named == (self.course_name@.len() > 0),
    {
        !self.course_name.as_str().is_empty()
    }
}

} // verus!
