//! Keeps the records of a course catalog compactly and serves repeated
//! lookups from a cache.
//!
//! The parts, leaf first: `utils::StringInterner` names each distinct string
//! by a dense id; `custom_hashmap::CustomHashMap` is a map with a fixed
//! number of buckets and chained collisions; `custom_lru_cache::CustomLruCache`
//! is a bounded cache with least-recently-used eviction, built on an arena
//! of linked slots and such a map; `storage::BlockStore` holds fixed-width
//! records in blocks of slots; and `storage::CourseStorage` puts them
//! together: it compacts a record against the interner, writes it to a
//! slot, indexes its location by packed code and by unique id, and reads
//! through the cache.
//!
//! Around that core stand the catalog's tables and the matching of what a
//! user typed against the names of departments and courses.
//!
//! Every function comes with a contract over a mathematical model of its
//! data, and the contracts are proved.

pub mod api;
pub mod ccny_course_catalog;
pub mod data_structures;
pub mod error;
pub mod models;
pub mod search;
pub mod storage;
pub mod utils;

pub use crate::ccny_course_catalog::CCNYCourseCatalog;
pub use crate::data_structures::{custom_hashmap, custom_lru_cache, hash_key, recency_list};
pub use crate::error::StorageError;
