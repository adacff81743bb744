//! A bucketed hash map from `u64` keys to `u64` values in which removed
//! entries are first retired in place and only later physically freed, once
//! an epoch barrier over the registered handles has passed.

pub mod linked_list;
pub mod row;
pub mod table;
pub mod epoch;
pub mod hashmap;
