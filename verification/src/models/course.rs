use vstd::prelude::*;

verus! {

/// The components of a course such as lecture or lab.
#[derive(Debug, PartialEq, Eq)]
pub struct CourseComponents {
    pub course_type: String,
    pub attendance_type: String,
    pub weekly_hours: i32,
    pub class_size: i32,
    pub final_exam: String,
    pub exam_seat_spacing: i32,
    pub instruction_mode: String,
}

/// The model of `CourseComponents`: its strings as character sequences.
pub struct CourseComponentsView {
    pub course_type: Seq<char>,
    pub attendance_type: Seq<char>,
    pub weekly_hours: i32,
    pub class_size: i32,
    pub final_exam: Seq<char>,
    pub exam_seat_spacing: i32,
    pub instruction_mode: Seq<char>,
}

impl View for CourseComponents {
    type V = CourseComponentsView;

    open spec fn view(&self) -> CourseComponentsView {
        CourseComponentsView {
            course_type: self.course_type@,
            attendance_type: self.attendance_type@,
            weekly_hours: self.weekly_hours,
            class_size: self.class_size,
            final_exam: self.final_exam@,
            exam_seat_spacing: self.exam_seat_spacing,
            instruction_mode: self.instruction_mode@,
        }
    }
}

impl Clone for CourseComponents {
    fn clone(&self) -> (copy: Self)
        ensures
            copy@ == self@,
    {
        CourseComponents {
            course_type: self.course_type.clone(),
            attendance_type: self.attendance_type.clone(),
            weekly_hours: self.weekly_hours,
            class_size: self.class_size,
            final_exam: self.final_exam.clone(),
            exam_seat_spacing: self.exam_seat_spacing,
            instruction_mode: self.instruction_mode.clone(),
        }
    }
}

/// A course as the catalog describes it: the hydrated record that the
/// storage takes and hands back.
///
/// `unique_id` and `packed_code` are the two keys under which a record is
/// found again. The packed code is an opaque number to this library: whoever
/// builds the record derives it.
#[derive(Debug, PartialEq, Eq)]
pub struct CourseInfo {
    pub unique_id: String,
    pub packed_code: u32,
    pub course_name: String,
    pub career: String,
    pub course_code: String,
    pub course_components: CourseComponents,
    pub effective_start_date: String,
    pub effective_end_date: String,
    pub course_group_id: String,
    pub course_number: i64,
    pub department: String,
    pub subject_code: String,
    pub credits: String,
}

/// The model of `CourseInfo`: its strings as character sequences.
pub struct CourseInfoView {
    pub unique_id: Seq<char>,
    pub packed_code: u32,
    pub course_name: Seq<char>,
    pub career: Seq<char>,
    pub course_code: Seq<char>,
    pub course_components: CourseComponentsView,
    pub effective_start_date: Seq<char>,
    pub effective_end_date: Seq<char>,
    pub course_group_id: Seq<char>,
    pub course_number: i64,
    pub department: Seq<char>,
    pub subject_code: Seq<char>,
    pub credits: Seq<char>,
}

impl View for CourseInfo {
    type V = CourseInfoView;

    open spec fn view(&self) -> CourseInfoView {
        CourseInfoView {
            unique_id: self.unique_id@,
            packed_code: self.packed_code,
            course_name: self.course_name@,
            career: self.career@,
            course_code: self.course_code@,
            course_components: self.course_components@,
            effective_start_date: self.effective_start_date@,
            effective_end_date: self.effective_end_date@,
            course_group_id: self.course_group_id@,
            course_number: self.course_number,
            department: self.department@,
            subject_code: self.subject_code@,
            credits: self.credits@,
        }
    }
}

impl Clone for CourseInfo {
    fn clone(&self) -> (copy: Self)
        ensures
            copy@ == self@,
    {
        CourseInfo {
            unique_id: self.unique_id.clone(),
            packed_code: self.packed_code,
            course_name: self.course_name.clone(),
            career: self.career.clone(),
            course_code: self.course_code.clone(),
            course_components: self.course_components.clone(),
            effective_start_date: self.effective_start_date.clone(),
            effective_end_date: self.effective_end_date.clone(),
            course_group_id: self.course_group_id.clone(),
            course_number: self.course_number,
            department: self.department.clone(),
            subject_code: self.subject_code.clone(),
            credits: self.credits.clone(),
        }
    }
}

} // verus!
