//! Outcomes that the storage engine reports to its callers.
use vstd::prelude::*;

verus! {

/// Why an operation did not succeed.
///
/// `NotFound` and `PayloadTooLarge` are outcomes a client can branch on; the
/// storage failures carry a description for the operator only.
#[derive(Debug, Clone)]
pub enum AppError {
    /// The catalog could not be read or written.
    Database(String),
    /// The blob store's filesystem operation failed.
    Io(String),
    /// No live object for this key.
    NotFound(String),
    /// The request carried no valid bearer token.
    Unauthorized,
    /// The upload exceeded this many bytes.
    PayloadTooLarge(usize),
    /// A failure with no further classification.
    Internal,
}

/// The HTTP status under which an error is reported.
pub open spec fn status_of(e: AppError) -> u16 {
    match e {
        AppError::NotFound(_) => 404,
        AppError::Unauthorized => 401,
        AppError::PayloadTooLarge(_) => 413,
        _ => 500,
    }
}

impl AppError {
    /// The HTTP status under which this error is reported.
    pub fn status_code(&self) -> (r: u16)
        ensures
            r == status_of(*self),
    {
        match self {
            AppError::NotFound(_) => 404,
            AppError::Unauthorized => 401,
            AppError::PayloadTooLarge(_) => 413,
            _ => 500,
        }
    }

    /// Whether this is the absence of an object, rather than a failure.
    pub fn is_not_found(&self) -> (r: bool)
        ensures
            r == (*self is NotFound),
    {
        match self {
            AppError::NotFound(_) => true,
            _ => false,
        }
    }
}

} // verus!
