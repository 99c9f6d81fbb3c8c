use crate::error::StorageError;
use crate::models::course::{CourseComponents, CourseComponentsView, CourseInfo, CourseInfoView};
use crate::utils::{
    interned_all, lemma_interned_all_none, lemma_interned_all_step, resolved, StringInterner,
};
use vstd::prelude::*;

verus! {

/// The components of a course in fixed width: every string is replaced by its
/// interner id.
#[derive(Clone, Copy, Debug)]
pub struct CompactCourseComponents {
    pub course_type: u32,
    pub attendance_type: u32,
    pub weekly_hours: i32,
    pub class_size: i32,
    pub final_exam: u32,
    pub exam_spacing: i32,
    pub instruction_mode: u32,
}

/// A course in fixed width, as it is kept in a storage slot: every string is
/// replaced by its interner id, and the numbers are kept as they are.
#[derive(Clone, Copy, Debug)]
pub struct CompactCourseInfo {
    pub unique_id: u32,
    pub name_id: u32,
    /// The packed code of the course, as the record carried it.
    pub course_code: u32,
    pub career: u32,
    pub code_text: u32,
    pub components: CompactCourseComponents,
    pub start_date: u32,
    pub end_date: u32,
    pub group_id: u32,
    pub course_number: i64,
    pub department_id: u32,
    pub subject_code: u32,
    pub credits: u32,
}

/// How many strings of a record `from_course_info` interns itself: all but
/// the name and the department, whose ids it is handed.
pub const STRINGS_INTERNED_PER_RECORD: u32 = 12;

impl CompactCourseComponents {
    /// Every id of the components names one of `strings`.
    pub open spec fn ids_within(&self, strings: Seq<Seq<char>>) -> bool {
        &&& self.course_type < strings.len()
        &&& self.attendance_type < strings.len()
        &&& self.final_exam < strings.len()
        &&& self.instruction_mode < strings.len()
    }

    /// The components with every id replaced by the string it names.
    pub open spec fn rehydrated(&self, strings: Seq<Seq<char>>) -> CourseComponentsView {
        CourseComponentsView {
            course_type: strings[self.course_type as int],
            attendance_type: strings[self.attendance_type as int],
            weekly_hours: self.weekly_hours,
            class_size: self.class_size,
            final_exam: strings[self.final_exam as int],
            exam_seat_spacing: self.exam_spacing,
            instruction_mode: strings[self.instruction_mode as int],
        }
    }
}

/// The string that `id` names, as an owned copy.
fn text_of(interner: &StringInterner, id: u32) -> (text: String)
    requires
        interner.wf(),
        id < interner@.len(),
    ensures
        text@ == interner@[id as int],
{
    match interner.resolve(id) {
        Ok(s) => s.to_owned(),
        Err(_) => String::new(),
    }
}

/// Registers `text`, which is number `n` of `texts`, after the texts before
/// it, and returns its id. Earlier ids keep their strings.
fn intern_field(
    interner: &mut StringInterner,
    text: &String,
    Ghost(start): Ghost<Seq<Seq<char>>>,
    Ghost(texts): Ghost<Seq<Seq<char>>>,
    Ghost(n): Ghost<int>,
) -> (id: u32)
    requires
        old(interner).wf(),
        old(interner)@.len() < u32::MAX,
        0 <= n < texts.len(),
        texts[n] == text@,
        old(interner)@ == interned_all(start, texts.take(n)),
    ensures
        final(interner).wf(),
        old(interner)@.len() <= final(interner)@.len() <= old(interner)@.len() + 1,
        id < final(interner)@.len(),
        final(interner)@[id as int] == text@,
        forall|i: int|
            0 <= i < old(interner)@.len() ==> #[trigger] final(interner)@[i] == old(interner)@[i],
        final(interner)@ == interned_all(start, texts.take(n + 1)),
{
    proof {
        lemma_interned_all_step(start, texts, n);
    }
    interner.intern(text.clone())
}

/// The strings of a record that `from_course_info` interns itself, in the
/// order in which it does so.
pub open spec fn interned_texts(course: CourseInfoView) -> Seq<Seq<char>> {
    seq![
        course.unique_id,
        course.career,
        course.course_code,
        course.course_components.course_type,
        course.course_components.attendance_type,
        course.course_components.final_exam,
        course.course_components.instruction_mode,
        course.effective_start_date,
        course.effective_end_date,
        course.course_group_id,
        course.subject_code,
        course.credits,
    ]
}

/// The compact form of `course` against `strings`, a list without
/// repetitions that holds every string of the record: each string is
/// replaced by its place in the list.
#[verifier::opaque]
pub open spec fn compact_of(course: CourseInfoView, strings: Seq<Seq<char>>) -> CompactCourseInfo {
    CompactCourseInfo {
        unique_id: strings.index_of(course.unique_id) as u32,
        name_id: strings.index_of(course.course_name) as u32,
        course_code: course.packed_code,
        career: strings.index_of(course.career) as u32,
        code_text: strings.index_of(course.course_code) as u32,
        components: CompactCourseComponents {
            course_type: strings.index_of(course.course_components.course_type) as u32,
            attendance_type: strings.index_of(course.course_components.attendance_type) as u32,
            weekly_hours: course.course_components.weekly_hours,
            class_size: course.course_components.class_size,
            final_exam: strings.index_of(course.course_components.final_exam) as u32,
            exam_spacing: course.course_components.exam_seat_spacing,
            instruction_mode: strings.index_of(course.course_components.instruction_mode) as u32,
        },
        start_date: strings.index_of(course.effective_start_date) as u32,
        end_date: strings.index_of(course.effective_end_date) as u32,
        group_id: strings.index_of(course.course_group_id) as u32,
        course_number: course.course_number,
        department_id: strings.index_of(course.department) as u32,
        subject_code: strings.index_of(course.subject_code) as u32,
        credits: strings.index_of(course.credits) as u32,
    }
}

impl CompactCourseInfo {
    /// A record whose ids name the strings of `course` in a list without
    /// repetitions is the compact form of `course` against that list.
    pub proof fn lemma_is_compact_of(&self, course: CourseInfoView, strings: Seq<Seq<char>>)
        requires
            strings.no_duplicates(),
            strings.len() <= u32::MAX,
            self.ids_within(strings),
            self.rehydrated(strings) == course,
        ensures
            *self == compact_of(course, strings),
    {
        reveal(compact_of);
    }

    /// Every id of the record names one of `strings`.
    pub open spec fn ids_within(&self, strings: Seq<Seq<char>>) -> bool {
        &&& self.unique_id < strings.len()
        &&& self.name_id < strings.len()
        &&& self.career < strings.len()
        &&& self.code_text < strings.len()
        &&& self.components.ids_within(strings)
        &&& self.start_date < strings.len()
        &&& self.end_date < strings.len()
        &&& self.group_id < strings.len()
        &&& self.department_id < strings.len()
        &&& self.subject_code < strings.len()
        &&& self.credits < strings.len()
    }

    /// The record with every id replaced by the string it names: a function
    /// of the compact record and the interner's strings alone.
    pub open spec fn rehydrated(&self, strings: Seq<Seq<char>>) -> CourseInfoView {
        CourseInfoView {
            unique_id: strings[self.unique_id as int],
            packed_code: self.course_code,
            course_name: strings[self.name_id as int],
            career: strings[self.career as int],
            course_code: strings[self.code_text as int],
            course_components: self.components.rehydrated(strings),
            effective_start_date: strings[self.start_date as int],
            effective_end_date: strings[self.end_date as int],
            course_group_id: strings[self.group_id as int],
            course_number: self.course_number,
            department: strings[self.department_id as int],
            subject_code: strings[self.subject_code as int],
            credits: strings[self.credits as int],
        }
    }

    /// A record that was built for a shorter list of strings reads the same
    /// from every list that starts with it.
    pub proof fn lemma_rehydrated_stable(&self, before: Seq<Seq<char>>, after: Seq<Seq<char>>)
        requires
            self.ids_within(before),
            before.len() <= after.len(),
            forall|i: int| 0 <= i < before.len() ==> #[trigger] after[i] == before[i],
        ensures
            self.ids_within(after),
            self.rehydrated(after) == self.rehydrated(before),
    {
    }

    /// The compact form of `course`. The ids of its name and of its
    /// department are handed in; the other strings are interned here.
    pub fn from_course_info(
        course: &CourseInfo,
        name_id: u32,
        dept_id: u32,
        interner: &mut StringInterner,
    ) -> (compact: CompactCourseInfo)
        requires
            old(interner).wf(),
            old(interner)@.len() + STRINGS_INTERNED_PER_RECORD <= u32::MAX,
            resolved(old(interner)@, name_id as int) == Some(course.course_name@),
            resolved(old(interner)@, dept_id as int) == Some(course.department@),
        ensures
            final(interner).wf(),
            old(interner)@.len() <= final(interner)@.len() <= old(interner)@.len()
                + STRINGS_INTERNED_PER_RECORD,
            forall|i: int|
                0 <= i < old(interner)@.len() ==> #[trigger] final(interner)@[i] == old(
                    interner,
                )@[i],
            compact.ids_within(final(interner)@),
            compact.rehydrated(final(interner)@) == course@,
            compact.name_id == name_id,
            compact.department_id == dept_id,
            compact.course_code == course.packed_code,
            final(interner)@ == interned_all(old(interner)@, interned_texts(course@)),
            compact == compact_of(course@, final(interner)@),
    {
        let ghost texts = interned_texts(course@);
        let ghost start = interner@;
        proof {
            lemma_interned_all_none(start);
            assert(texts.take(0) =~= Seq::<Seq<char>>::empty());
        }
        let unique_id = intern_field(
            interner,
            &course.unique_id,
            Ghost(start),
            Ghost(texts),
            Ghost(0),
        );
        let career = intern_field(
            interner,
            &course.career,
            Ghost(start),
            Ghost(texts),
            Ghost(1),
        );
        let code_text = intern_field(
            interner,
            &course.course_code,
            Ghost(start),
            Ghost(texts),
            Ghost(2),
        );
        let course_type = intern_field(
            interner,
            &course.course_components.course_type,
            Ghost(start),
            Ghost(texts),
            Ghost(3),
        );
        let attendance_type = intern_field(
            interner,
            &course.course_components.attendance_type,
            Ghost(start),
            Ghost(texts),
            Ghost(4),
        );
        let final_exam = intern_field(
            interner,
            &course.course_components.final_exam,
            Ghost(start),
            Ghost(texts),
            Ghost(5),
        );
        let instruction_mode = intern_field(
            interner,
            &course.course_components.instruction_mode,
            Ghost(start),
            Ghost(texts),
            Ghost(6),
        );
        let start_date = intern_field(
            interner,
            &course.effective_start_date,
            Ghost(start),
            Ghost(texts),
            Ghost(7),
        );
        let end_date = intern_field(
            interner,
            &course.effective_end_date,
            Ghost(start),
            Ghost(texts),
            Ghost(8),
        );
        let group_id = intern_field(
            interner,
            &course.course_group_id,
            Ghost(start),
            Ghost(texts),
            Ghost(9),
        );
        let subject_code = intern_field(
            interner,
            &course.subject_code,
            Ghost(start),
            Ghost(texts),
            Ghost(10),
        );
        let credits = intern_field(
            interner,
            &course.credits,
            Ghost(start),
            Ghost(texts),
            Ghost(11),
        );
        proof {
            assert(texts.take(12) =~= texts);
        }
        let compact = CompactCourseInfo {
            unique_id,
            name_id,
            course_code: course.packed_code,
            career,
            code_text,
            components: CompactCourseComponents {
                course_type,
                attendance_type,
                weekly_hours: course.course_components.weekly_hours,
                class_size: course.course_components.class_size,
                final_exam,
                exam_spacing: course.course_components.exam_seat_spacing,
                instruction_mode,
            },
            start_date,
            end_date,
            group_id,
            course_number: course.course_number,
            department_id: dept_id,
            subject_code,
            credits,
        };
        proof {
            interner.lemma_wf_model();
            compact.lemma_is_compact_of(course@, interner@);
        }
        compact
    }

    /// The hydrated record that this compact record stands for. A record
    /// with an id that the interner never gave out stands for nothing.
    pub fn to_course_info(&self, interner: &StringInterner) -> (result: Result<
        CourseInfo,
        StorageError,
    >)
        requires
            interner.wf(),
        ensures
            match result {
                Ok(course) => self.ids_within(interner@) && course@ == self.rehydrated(interner@),
                Err(e) => e == StorageError::InvalidId && !self.ids_within(interner@),
            },
    {
        let count = interner.len();
        if self.unique_id as usize >= count || self.name_id as usize >= count
            || self.career as usize >= count || self.code_text as usize >= count
            || self.components.course_type as usize >= count
            || self.components.attendance_type as usize >= count
            || self.components.final_exam as usize >= count
            || self.components.instruction_mode as usize >= count || self.start_date as usize
            >= count || self.end_date as usize >= count || self.group_id as usize >= count
            || self.department_id as usize >= count || self.subject_code as usize >= count
            || self.credits as usize >= count {
            return Err(StorageError::InvalidId);
        }
        Ok(
            CourseInfo {
                unique_id: text_of(interner, self.unique_id),
                packed_code: self.course_code,
                course_name: text_of(interner, self.name_id),
                career: text_of(interner, self.career),
                course_code: text_of(interner, self.code_text),
                course_components: CourseComponents {
                    course_type: text_of(interner, self.components.course_type),
                    attendance_type: text_of(interner, self.components.attendance_type),
                    weekly_hours: self.components.weekly_hours,
                    class_size: self.components.class_size,
                    final_exam: text_of(interner, self.components.final_exam),
                    exam_seat_spacing: self.components.exam_spacing,
                    instruction_mode: text_of(interner, self.components.instruction_mode),
                },
                effective_start_date: text_of(interner, self.start_date),
                effective_end_date: text_of(interner, self.end_date),
                course_group_id: text_of(interner, self.group_id),
                course_number: self.course_number,
                department: text_of(interner, self.department_id),
                subject_code: text_of(interner, self.subject_code),
                credits: text_of(interner, self.credits),
            },
        )
    }
}

} // verus!
