//! The errors an invocation can report back to the runtime.  Every failure
//! is a value handed to the caller; no verified function of this library
//! panics.

use vstd::prelude::*;

verus! {

/// A recoverable per-invocation failure.
#[derive(Debug, PartialEq, Eq)]
pub enum NowError {
    /// The inbound event lacks a required field (method or path).
    MalformedEvent,
    /// The body was flagged as base64 but is not a canonical base64 string.
    InvalidBodyEncoding,
    /// A response could not be built: the status code is out of range.
    InvalidResponse,
    /// A failure reported by the handler itself, passed through opaquely.
    Handler(String),
}

impl NowError {
    /// A human-readable description of the failure.
    pub fn message(&self) -> (r: String)
        ensures
            self matches NowError::Handler(m) ==> r@ == m@,
    {
        match self {
            NowError::MalformedEvent => "malformed event: missing method or path".to_owned(),
            NowError::InvalidBodyEncoding => "body is not valid base64".to_owned(),
            NowError::InvalidResponse => "response status code out of range".to_owned(),
            NowError::Handler(m) => m.clone(),
        }
    }
}

} // verus!
