//! A fixed-capacity key-value cache with least-recently-used eviction, and the
//! line-oriented text form in which its entries are persisted.
pub mod cache;
pub mod format;
pub mod laws;
pub mod model;
pub mod persist;
