//! A fixed-capacity, chained hash table.
//!
//! The table owns sixteen collision buckets, each an ordered, growable
//! sequence of key-value pairs. A key's bucket is chosen by hashing the key
//! and reducing the 64-bit digest modulo the bucket count; lookups, inserts
//! and removals scan the chosen bucket linearly. The table never resizes.
//!
//! Every operation carries a contract over the table's abstract view, a
//! mathematical map from key characters to values, and the laws module
//! states and proves the table's algebraic properties over that view.

pub mod hash;
pub mod laws;
pub mod table;

pub use table::HashMap;
