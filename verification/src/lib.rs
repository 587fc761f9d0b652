//! A verified file-backed to-do list store.
//!
//! Tasks are kept in a delimited text format, one record per line, with a
//! header line naming the three fields. The library covers the whole
//! round trip: encoding a collection of tasks to file content, parsing
//! content back, assigning fresh ids, toggling completion, and splitting a
//! collection by completion status. File and terminal I/O stay with the
//! caller; every function here is pure computation over plain values.

pub mod codec;
pub mod store;
pub mod task;
