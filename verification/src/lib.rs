//! An in-memory JSON document database: a bucketed collection of entries with
//! lazy time-to-live expiry, structural pattern matching for queries and
//! deletions, and a dispatcher that maps protocol requests onto store
//! operations.

pub mod json;
pub mod matcher;
pub mod store;
pub mod dispatch;
pub mod laws;
pub mod request;
