//! Failure-reporting and error-unification layer for a hosted function
//! runtime client.
//!
//! The crate normalizes heterogeneous underlying failures into one internal
//! error value ([`ApiError`]), lets arbitrary domain error types plug into the
//! reporting path through the [`RuntimeApiError`] capability, and fixes the
//! wire-level shape of a failure report ([`ErrorResponse`]), including its
//! JSON encoding.

pub mod codec;
pub mod report;
pub mod text;
pub mod unifier;

pub use report::ErrorResponse;
pub use report::RuntimeApiError;
pub use report::ERROR_TYPE_HANDLED;
pub use report::ERROR_TYPE_UNHANDLED;
pub use unifier::ApiError;
