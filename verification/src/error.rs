//! The library's error type.
use vstd::prelude::*;
use vstd::string::*;

verus! {

/// Errors of the service. Each variant carries the message that is shown to
/// the operator or returned in an HTTP body.
#[derive(Debug, PartialEq, Eq)]
pub enum AppError {
    Config(String),
    Startup(String),
    Upstream(String),
    Io(String),
    Serde(String),
    DateTime(String),
    Join(String),
}

/// The message carried by an `AppError`.
pub open spec fn error_message(e: AppError) -> Seq<char> {
    match e {
        AppError::Config(m) => m@,
        AppError::Startup(m) => m@,
        AppError::Upstream(m) => m@,
        AppError::Io(m) => m@,
        AppError::Serde(m) => m@,
        AppError::DateTime(m) => m@,
        AppError::Join(m) => m@,
    }
}

/// HTTP status that answers a request failing with `e`: a malformed
/// timestamp is the client's fault (400), everything else means the service
/// cannot answer (503).
pub open spec fn error_status(e: AppError) -> u16 {
    match e {
        AppError::DateTime(_) => 400,
        _ => 503,
    }
}

/// Text of the I/O error raised when an input ends before a value is read.
pub open spec fn truncated_text() -> Seq<char> {
    "failed to fill whole buffer"@
}

impl AppError {
    /// Splits the error into the HTTP status and the body message.
    pub fn into_status_and_message(self) -> (r: (u16, String))
        ensures
            r.0 == error_status(self),
            r.1@ == error_message(self),
    {
        match self {
            AppError::Config(m) => (503, m),
            AppError::Startup(m) => (503, m),
            AppError::Upstream(m) => (503, m),
            AppError::Io(m) => (503, m),
            AppError::Serde(m) => (503, m),
            AppError::DateTime(m) => (400, m),
            AppError::Join(m) => (503, m),
        }
    }
}

/// Whether `e` is the error for an input that ends too early.
pub open spec fn is_truncation(e: AppError) -> bool {
    e matches AppError::Io(m) && m@ == truncated_text()
}

/// The error for an input that ends before the value being read.
pub fn truncated_input() -> (e: AppError)
    ensures
        is_truncation(e),
{
    AppError::Io(String::from_str("failed to fill whole buffer"))
}

} // verus!
