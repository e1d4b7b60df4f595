//! The wire-level failure report and the capability that produces one.

use vstd::prelude::*;

verus! {

/// Error type description for the `ErrorResponse` event. This value marks
/// errors that were handled by the function code or framework.
pub const ERROR_TYPE_HANDLED: &'static str = "Handled";

/// Error type description for the `ErrorResponse` event. This value marks
/// unhandled, unexpected errors.
pub const ERROR_TYPE_UNHANDLED: &'static str = "Unhandled";

/// The failure report delivered to the runtime control plane, for both the
/// error response APIs and fail-init calls. Custom error types implement the
/// `RuntimeApiError` trait and return this object to be compatible with the
/// APIs. Constructed once, immediately before being handed to the transport,
/// and immutable thereafter.
pub struct ErrorResponse {
    /// The error message generated by the application.
    pub error_message: String,
    /// The error type: either `ERROR_TYPE_HANDLED` or `ERROR_TYPE_UNHANDLED`.
    pub error_type: String,
    /// The stack trace for the failure, one formatted line per element, top
    /// frame first. Present only when diagnostic capture was enabled when the
    /// underlying error value was created.
    pub stack_trace: Option<Vec<String>>,
}

impl ErrorResponse {
    /// The report's type field names one of the two enumerated kinds.
    pub open spec fn well_formed(&self) -> bool {
        self.error_type@ == "Handled"@ || self.error_type@ == "Unhandled"@
    }

    /// Creates a new response with the handled error type and no trace.
    pub fn handled(message: String) -> (r: ErrorResponse)
        ensures
            r.error_message@ == message@,
            r.error_type@ == "Handled"@,
            r.stack_trace is None,
            r.well_formed(),
    {
        ErrorResponse {
            error_message: message,
            error_type: ERROR_TYPE_HANDLED.to_owned(),
            stack_trace: None,
        }
    }

    /// Creates a new response with the unhandled error type and no trace.
    pub fn unhandled(message: String) -> (r: ErrorResponse)
        ensures
            r.error_message@ == message@,
            r.error_type@ == "Unhandled"@,
            r.stack_trace is None,
            r.well_formed(),
    {
        ErrorResponse {
            error_message: message,
            error_type: ERROR_TYPE_UNHANDLED.to_owned(),
            stack_trace: None,
        }
    }
}

/// Custom errors for the framework should implement this trait. The client
/// calls `to_response()` to produce the object that is serialized and sent to
/// the runtime APIs. Producing the response is total: it must succeed for
/// every value of the implementing type, and yield a report whose type field
/// is one of the two enumerated kinds.
pub trait RuntimeApiError {
    /// Creates an `ErrorResponse` describing the current error.
    fn to_response(&self) -> (r: ErrorResponse)
        ensures
            r.well_formed(),
    ;
}

} // verus!
