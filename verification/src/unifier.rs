//! The internal error value that unifies heterogeneous failures.

use vstd::prelude::*;

use crate::report::ErrorResponse;
use crate::report::RuntimeApiError;
use crate::text::split_lines;

verus! {

/// The `backtrace` crate's captured call-stack snapshot, held opaquely.
#[verifier::external_type_specification]
#[verifier::external_body]
pub struct ExBacktrace(backtrace::Backtrace);

/// Relies on `backtrace::Backtrace::new`: captures a snapshot of the current
/// call stack. What the snapshot holds depends on the call path and the
/// machine, so nothing is promised of it.
#[verifier::external_body]
fn capture_backtrace() -> backtrace::Backtrace {
    backtrace::Backtrace::new()
}

/// Relies on the `Debug` rendering of `backtrace::Backtrace`: formats the
/// snapshot as text, one frame per line. The text depends on the snapshot
/// and the machine, so nothing is promised of it.
#[verifier::external_body]
fn render_backtrace(bt: &backtrace::Backtrace) -> String {
    format!("{:?}", bt)
}

/// Relies on `String::push`: appends one character to the string.
#[verifier::external_body]
pub(crate) fn push_char(s: &mut String, c: char)
    ensures
        final(s)@ == old(s)@.push(c),
{
    s.push(c)
}

/// Represents an error generated by the runtime API client: the single
/// internal value every internally-generated or externally-adapted failure
/// is normalized into before it leaves this layer.
#[derive(Debug, Clone)]
pub struct ApiError {
    /// The description carried by this error, taken verbatim from whatever
    /// underlying failure produced it.
    pub msg: String,
    /// The captured call-stack snapshot, present if and only if diagnostic
    /// capture was enabled when this value was constructed.
    pub backtrace: Option<backtrace::Backtrace>,
    /// Whether the current error is recoverable. If the error is not
    /// recoverable the host should terminate to force the control plane to
    /// restart the execution environment.
    pub recoverable: bool,
}

/// What construction guarantees: the description is carried verbatim, a
/// snapshot is held exactly when capture was enabled, and the error starts
/// recoverable.
pub open spec fn constructed(r: ApiError, description: Seq<char>, capture: bool) -> bool {
    &&& r.message() == description
    &&& r.backtrace is Some <==> capture
    &&& r.recoverable
}

/// What marking unrecoverable guarantees: the flag is cleared and everything
/// else is untouched.
pub open spec fn demoted(before: ApiError, after: ApiError) -> bool {
    &&& !after.recoverable
    &&& after.message() == before.message()
    &&& after.backtrace == before.backtrace
}

/// What reporting an `ApiError` guarantees: the message is carried verbatim,
/// the kind is always unhandled, and the trace is present, with at least one
/// line, exactly when a snapshot was captured.
pub open spec fn reported(e: ApiError, r: ErrorResponse) -> bool {
    &&& r.error_message@ == e.message()
    &&& r.error_type@ == "Unhandled"@
    &&& r.stack_trace is Some <==> e.backtrace is Some
    &&& (r.stack_trace matches Some(t) ==> t@.len() >= 1)
    &&& r.well_formed()
}

impl ApiError {
    /// The description carried by this error, as a sequence of characters.
    pub open spec fn message(&self) -> Seq<char> {
        self.msg@
    }

    /// Creates a new error from a description. `capture` is the process-wide
    /// diagnostic-capture toggle, read by the caller at the call site; when
    /// it is set, a call-stack snapshot is taken here, once, at creation.
    /// Every freshly constructed error is recoverable.
    pub fn new(description: &str, capture: bool) -> (r: ApiError)
        ensures
            constructed(r, description@, capture),
    {
        let trace: Option<backtrace::Backtrace> = if capture {
            Some(capture_backtrace())
        } else {
            None
        };
        ApiError { msg: description.to_owned(), backtrace: trace, recoverable: true }
    }

    /// Marks this error unrecoverable. The transition is one-way: nothing
    /// ever sets `recoverable` back, and calling this twice has the same
    /// effect as calling it once. The message and the snapshot are untouched.
    pub fn unrecoverable(&mut self)
        ensures
            demoted(*old(self), *final(self)),
    {
        self.recoverable = false;
    }

    /// The description carried by this error.
    pub fn description(&self) -> (r: &str)
        ensures
            r@ == self.message(),
    {
        self.msg.as_str()
    }

    /// Adapts a structured-data decode failure, carrying its description.
    pub fn from_json_error(e: &serde_json::Error, capture: bool) -> (r: ApiError)
        ensures
            r.backtrace is Some <==> capture,
            r.recoverable,
    {
        ApiError::new(json_error_text(e).as_str(), capture)
    }

    /// Adapts a malformed-identifier failure, carrying its description.
    pub fn from_invalid_uri(e: &http::uri::InvalidUri, capture: bool) -> (r: ApiError)
        ensures
            r.backtrace is Some <==> capture,
            r.recoverable,
    {
        ApiError::new(uri_error_text(e).as_str(), capture)
    }

    /// Adapts a transport-layer failure, carrying its description.
    pub fn from_hyper_error(e: &hyper::Error, capture: bool) -> (r: ApiError)
        ensures
            r.backtrace is Some <==> capture,
            r.recoverable,
    {
        ApiError::new(hyper_error_text(e).as_str(), capture)
    }

    /// Adapts a header text-encoding failure, carrying its description.
    pub fn from_header_error(e: &http::header::ToStrError, capture: bool) -> (r: ApiError)
        ensures
            r.backtrace is Some <==> capture,
            r.recoverable,
    {
        ApiError::new(header_error_text(e).as_str(), capture)
    }

    /// Adapts an integer-parsing failure, carrying its description.
    pub fn from_parse_int_error(e: &core::num::ParseIntError, capture: bool) -> (r: ApiError)
        ensures
            r.backtrace is Some <==> capture,
            r.recoverable,
    {
        ApiError::new(parse_int_error_text(e).as_str(), capture)
    }

    /// Adapts a generic I/O failure, carrying its description.
    pub fn from_io_error(e: &std::io::Error, capture: bool) -> (r: ApiError)
        ensures
            r.backtrace is Some <==> capture,
            r.recoverable,
    {
        ApiError::new(io_error_text(e).as_str(), capture)
    }
}

impl RuntimeApiError for ApiError {
    /// Produces the failure report for this error. The report always carries
    /// the unhandled kind: an `ApiError` is a failure the client layer itself
    /// surfaces, never one the function author classified. The message is
    /// carried over verbatim. The trace is present in the report if and only
    /// if a snapshot was captured at construction, rendered as at least one
    /// line of text, top frame first.
    fn to_response(&self) -> (r: ErrorResponse)
        ensures
            reported(*self, r),
    {
        let mut err = ErrorResponse::unhandled(self.msg.clone());
        match &self.backtrace {
            Some(bt) => {
                let rendered = render_backtrace(bt);
                let lines = split_lines(rendered.as_str());
                err.stack_trace = Some(lines);
            },
            None => {},
        }
        err
    }
}

/// The `serde_json` error type, held opaquely.
#[verifier::external_type_specification]
#[verifier::external_body]
pub struct ExSerdeJsonError(serde_json::Error);

/// The `http` crate's malformed-URI error type, held opaquely.
#[verifier::external_type_specification]
#[verifier::external_body]
pub struct ExInvalidUri(http::uri::InvalidUri);

/// The `hyper` transport error type, held opaquely.
#[verifier::external_type_specification]
#[verifier::external_body]
pub struct ExHyperError(hyper::Error);

/// The `http` crate's header-to-text conversion error type, held opaquely.
#[verifier::external_type_specification]
#[verifier::external_body]
pub struct ExToStrError(http::header::ToStrError);

/// The standard library's integer-parsing error type, held opaquely.
#[verifier::external_type_specification]
#[verifier::external_body]
pub struct ExParseIntError(core::num::ParseIntError);

/// The standard library's I/O error type, held opaquely.
#[verifier::external_type_specification]
#[verifier::external_body]
pub struct ExIoError(std::io::Error);

/// Relies on the `Display` rendering of `serde_json::Error`: the error's
/// human-readable description. Nothing is promised of the text.
#[verifier::external_body]
fn json_error_text(e: &serde_json::Error) -> String {
    format!("{}", e)
}

/// Relies on the `Display` rendering of `http::uri::InvalidUri`: the error's
/// human-readable description. Nothing is promised of the text.
#[verifier::external_body]
fn uri_error_text(e: &http::uri::InvalidUri) -> String {
    format!("{}", e)
}

/// Relies on the `Display` rendering of `hyper::Error`: the error's
/// human-readable description. Nothing is promised of the text.
#[verifier::external_body]
fn hyper_error_text(e: &hyper::Error) -> String {
    format!("{}", e)
}

/// Relies on the `Display` rendering of `http::header::ToStrError`: the
/// error's human-readable description. Nothing is promised of the text.
#[verifier::external_body]
fn header_error_text(e: &http::header::ToStrError) -> String {
    format!("{}", e)
}

/// Relies on the `Display` rendering of `core::num::ParseIntError`: the
/// error's human-readable description. Nothing is promised of the text.
#[verifier::external_body]
fn parse_int_error_text(e: &core::num::ParseIntError) -> String {
    format!("{}", e)
}

/// Relies on the `Display` rendering of `std::io::Error`: the error's
/// human-readable description. Nothing is promised of the text.
#[verifier::external_body]
fn io_error_text(e: &std::io::Error) -> String {
    format!("{}", e)
}

/// Law: for every description, an error constructed from it reports that
/// exact message, classified unhandled.
pub proof fn lemma_new_reports_description(
    d: Seq<char>,
    capture: bool,
    e: ApiError,
    r: ErrorResponse,
)
    requires
        constructed(e, d, capture),
        reported(e, r),
    ensures
        r.error_message@ == d,
        r.error_type@ == "Unhandled"@,
{
}

/// Law: marking an error unrecoverable is idempotent; a second call leaves
/// everything an observer can see unchanged.
pub proof fn lemma_unrecoverable_idempotent(e0: ApiError, e1: ApiError, e2: ApiError)
    requires
        demoted(e0, e1),
        demoted(e1, e2),
    ensures
        e2.recoverable == e1.recoverable,
        e2.message() == e1.message(),
        e2.backtrace == e1.backtrace,
{
}

/// Law: when diagnostic capture is disabled at construction, the report's
/// trace is absent, for every adaptation path, since every adaptation runs
/// through construction.
pub proof fn lemma_capture_disabled_trace_absent(
    d: Seq<char>,
    e: ApiError,
    r: ErrorResponse,
)
    requires
        constructed(e, d, false),
        reported(e, r),
    ensures
        r.stack_trace is None,
{
}

/// Law: when diagnostic capture is enabled at construction, the report's
/// trace is present and holds at least one line, for every adaptation path,
/// since every adaptation runs through construction.
pub proof fn lemma_capture_enabled_trace_present(
    d: Seq<char>,
    e: ApiError,
    r: ErrorResponse,
)
    requires
        constructed(e, d, true),
        reported(e, r),
    ensures
        r.stack_trace is Some,
        r.stack_trace matches Some(t) ==> t@.len() >= 1,
{
}

} // verus!
