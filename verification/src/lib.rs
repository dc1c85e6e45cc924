//! A small embedded key-value store core: a checksum-protected append-only log
//! together with two in-memory indexes, a linear-probing hash table and a sorted
//! array. Every function is verified against a mathematical model of its data.

pub mod digest;
pub mod hashtable;
pub mod log;
pub mod model;
pub mod record;
pub mod sorted_array;
pub mod text;
