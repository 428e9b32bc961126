//! The errors of the service layer.

use vstd::prelude::*;

use crate::hash::hex_of;
use crate::text::{decimal, decimal_string};

verus! {

/// Why an operation failed.
#[derive(Debug, Clone, PartialEq, Eq)]
pub enum AppError {
    NotFound,
    Unauthorized,
    Forbidden,
    /// Precondition (`If-Match`) failed. `current` is the head's content hash.
    PreconditionFailed { current: Option<crate::hash::Hash> },
    /// The token's request rate limit is exhausted.
    RateLimited { retry_after_secs: u64 },
    AlreadyExists(String),
    Invalid(String),
    Internal(String),
}

/// The message of an error.
pub open spec fn error_text(e: AppError) -> Seq<char> {
    match e {
        AppError::NotFound => "not found"@,
        AppError::Unauthorized => "authentication required"@,
        AppError::Forbidden => "forbidden"@,
        AppError::PreconditionFailed { .. } => "precondition failed"@,
        AppError::RateLimited { retry_after_secs } => "rate limit exceeded; retry in "@ + decimal(
            retry_after_secs as nat,
        ) + " s"@,
        AppError::AlreadyExists(c) => "already exists: "@ + c@,
        AppError::Invalid(m) => "invalid: "@ + m@,
        AppError::Internal(m) => "internal error: "@ + m@,
    }
}

impl AppError {
    /// The error's message.
    pub fn to_string(&self) -> (s: String)
        ensures
            s@ == error_text(*self),
    {
        match self {
            AppError::NotFound => String::from_str("not found"),
            AppError::Unauthorized => String::from_str("authentication required"),
            AppError::Forbidden => String::from_str("forbidden"),
            AppError::PreconditionFailed { .. } => String::from_str("precondition failed"),
            AppError::RateLimited { retry_after_secs } => {
                let mut s = String::from_str("rate limit exceeded; retry in ");
                s.append(decimal_string(*retry_after_secs).as_str());
                s.append(" s");
                s
            },
            AppError::AlreadyExists(c) => {
                let mut s = String::from_str("already exists: ");
                s.append(c.as_str());
                s
            },
            AppError::Invalid(m) => {
                let mut s = String::from_str("invalid: ");
                s.append(m.as_str());
                s
            },
            AppError::Internal(m) => {
                let mut s = String::from_str("internal error: ");
                s.append(m.as_str());
                s
            },
        }
    }
}

/// An `Invalid` error with message `msg`.
pub fn invalid(msg: &str) -> (e: AppError)
    ensures
        e is Invalid && e->Invalid_0@ == msg@,
{
    AppError::Invalid(String::from_str(msg))
}

/// What a tool call reports for an error, for a model to react to: a stale
/// precondition names the current content hash (or says the variant appeared or
/// went away), internal errors keep their detail to themselves, and any other
/// error gives its message.
pub open spec fn tool_failure_text(e: AppError) -> Seq<char> {
    match e {
        AppError::PreconditionFailed { current: Some(h) } =>
            "precondition failed: the document changed; current content_hash is "@ + hex_of(h@)
                + ". Re-read and retry."@,
        AppError::PreconditionFailed { current: None } =>
            "precondition failed: the document variant already exists or was removed; re-read and retry."@,
        AppError::Internal(_) => "internal error"@,
        _ => error_text(e),
    }
}

/// The message a tool call reports for `e`; see [`tool_failure_text`].
pub fn tool_failure(e: &AppError) -> (s: String)
    ensures
        s@ == tool_failure_text(*e),
{
    match e {
        AppError::PreconditionFailed { current: Some(h) } => {
            let mut s = String::from_str("precondition failed: the document changed; current content_hash is ");
            s.append(h.to_hex().as_str());
            s.append(". Re-read and retry.");
            s
        },
        AppError::PreconditionFailed { current: None } => String::from_str(
            "precondition failed: the document variant already exists or was removed; re-read and retry.",
        ),
        AppError::Internal(_) => String::from_str("internal error"),
        _ => e.to_string(),
    }
}

} // verus!
