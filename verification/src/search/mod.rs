pub mod course_finder;
pub mod matcher;

pub use self::course_finder::find_course_by_name;
pub use self::matcher::StringMatcher;
