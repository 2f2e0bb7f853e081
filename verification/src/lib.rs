//! A minimal single-file relational storage engine: a fixed-page disk
//! format, a page cache, a B-tree node codec, and a cursor abstraction for
//! ordered traversal and insertion.
//!
//! The library itself never touches a file: a `Pager` is opened from the
//! bytes of the backing file and `flush` returns the bytes to write back,
//! so that all reading and writing stays with the caller.

pub mod btree;
pub mod cli;
pub mod constants;
pub mod cursor;
pub mod error;
pub mod sql;
pub mod table;
pub mod utils;
