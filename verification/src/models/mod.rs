pub mod course;
pub mod storage_models;

pub use self::course::{CourseComponents, CourseComponentsView, CourseInfo, CourseInfoView};
pub use self::storage_models::{CompactCourseComponents, CompactCourseInfo};
