//! A local clipboard-history store.
//!
//! The crate keeps successive clipboard captures in a persistent store,
//! de-duplicates identical content within a lookback window, evicts the
//! oldest rows under a capacity bound, expires rows after an optional
//! time-to-live, and backs a searchable, paginated browser over the result
//! set.  The decision logic — validation, de-duplication, eviction,
//! recency promotion, expiration bookkeeping, MIME negotiation and the
//! browser's viewport rules — is verified; the embedded database and the
//! desktop clipboard are reached only through narrow trusted interfaces.

pub mod browser;
pub mod commands;
pub mod digest;
pub mod errors;
pub mod jsonout;
pub mod mime;
pub mod model;
pub mod negotiate;
pub mod policy;
pub mod preview;
pub mod schedule;
pub mod sql;
pub mod store;
pub mod text;
