//! A fixed-capacity hash table from string keys to values, with separate
//! chaining and 64-bit FNV-1a bucket placement.

pub mod fnv;
pub mod table;

pub use fnv::FnvHasher;
pub use table::{HashTable, KeyValue};
