pub mod custom_hashmap;
pub mod custom_lru_cache;
pub mod hash_key;
pub mod recency_list;
