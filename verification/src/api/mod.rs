pub mod course_finder;
pub mod department;
