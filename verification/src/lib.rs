//! Growable containers with verified contracts: an index-addressable
//! sequence, a hash-based associative table and a UTF-8 text buffer, all
//! sharing one capacity growth policy.

pub mod arith;
pub mod error;
pub mod growth;
pub mod capability;
pub mod sequence;
pub mod utf8;
pub mod text;
pub mod hash_table;
