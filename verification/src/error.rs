//! Error taxonomy of the sync engine.
//!
//! A `MappingError` is local to one remote record: the record is dropped
//! and the page goes on. A `StoreError` is fatal to the operation that
//! raised it. `AppError` is the top-level error surfaced to callers.

use vstd::prelude::*;

verus! {

/// A remote record could not be normalized into a local entity.
#[derive(Clone, Copy, Debug, PartialEq, Eq, Structural)]
pub enum MappingError {
    /// The composite remote identifier did not have exactly five
    /// slash-delimited segments.
    IdentifierSegments,
    /// The numeric segment of the remote identifier is not a decimal
    /// number that fits the local id type.
    IdentifierNumber,
    /// A timestamp field is not a well-formed RFC 3339 string.
    Timestamp,
}

/// A store operation could not be carried out.
#[derive(Clone, Copy, Debug, PartialEq, Eq, Structural)]
pub enum StoreError {
    /// A lookup expected at least one row and found none.
    NotFound,
    /// A referenced codebase row does not exist.
    MissingCodebase,
    /// The id space of a table is exhausted.
    Full,
}

/// Top-level error of the engine.
#[derive(Debug)]
pub enum AppError {
    /// Transport or non-2xx failure of the remote client.
    ApiError { status_code: u16, message: String },
    /// Authentication material was rejected or absent.
    AuthError(String),
    /// A store operation failed.
    Database(StoreError),
    /// A remote record could not be mapped.
    Mapping(MappingError),
}

impl AppError {
    /// Builds the remote-failure variant from a status code and message.
    pub fn api_error(status_code: u16, message: String) -> (e: AppError)
        ensures
            e matches AppError::ApiError { status_code: s, message: m }
                && s == status_code && m@ == message@,
    {
        AppError::ApiError { status_code, message }
    }
}

} // verus!
