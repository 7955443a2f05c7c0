//! Mirror of group-hosted source-control project metadata.
//!
//! The crate keeps a local, queryable copy of the projects of a remote
//! group: a relational store with a uniqueness contract on
//! `(external_id, source)`, a derived full-text search index that is
//! rebuilt on every write, aggregate statistics, and the state machine
//! that walks the remote cursor-paginated listing and applies each page
//! idempotently.

pub mod datadog;
pub mod error;
pub mod laws;
pub mod limiter;
pub mod mapper;
pub mod remote;
pub mod search;
pub mod stats;
pub mod store;
pub mod sync;
pub mod text;
pub mod timefmt;
pub mod vuln;
