//! Error types of the slicing layer.

use vstd::prelude::*;

verus! {

/// Errors raised while slicing, fetching and assembling a response.
#[derive(Debug, Clone, PartialEq, Eq)]
pub enum SliceError {
    /// A byte range that does not fit the file or is malformed.
    InvalidRange(String),
    /// A failure while putting the response together.
    AssemblyError(String),
    /// A failure of an HTTP exchange with the origin.
    HttpError(String),
    /// Text that could not be parsed.
    ParseError(String),
    /// A slice that could not be fetched within the allowed attempts.
    SubrequestFailed { slice_index: usize, attempts: usize },
    /// A failure of the cache layer.
    CacheError(String),
    /// A configuration that cannot be used.
    ConfigError(String),
}

/// Whether an error of this kind is transient, so that a retry may succeed.
pub open spec fn error_is_retryable(e: SliceError) -> bool {
    e is HttpError
}

impl SliceError {
    /// Whether a retry may succeed where this error occurred: only failed
    /// HTTP exchanges are transient.
    pub fn should_retry(&self) -> (r: bool)
        ensures
            r == error_is_retryable(*self),
    {
        match self {
            SliceError::HttpError(_) => true,
            _ => false,
        }
    }
}

} // verus!
