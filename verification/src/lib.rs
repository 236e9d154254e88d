//! Scan and filter engine for the memory of one attached process.
//!
//! The library holds the rules: how a chunk of memory is searched, how a
//! stored result set is narrowed against present memory, how result sets are
//! kept, and how batched reads are framed. Reading and writing the target's
//! memory is the caller's part; the library takes and returns bytes.

pub mod batch;
pub mod chunks;
pub mod compare;
pub mod filter;
pub mod hexcode;
pub mod model;
pub mod numeric;
pub mod regions;
pub mod scan;
pub mod search;
pub mod session;
pub mod store;
pub mod target;
