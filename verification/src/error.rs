//! The error type shared by every parser and reader of the library.

use vstd::prelude::*;

use crate::text;

verus! {

/// What went wrong inside a byte source.
#[derive(Debug, Clone, Copy, PartialEq, Eq, Structural)]
pub enum IoErrorKind {
    /// The named resource does not exist.
    NotFound,
    /// The source ended before the requested bytes.
    UnexpectedEof,
    /// Any other failure.
    Other,
}

/// A failure reported by a byte source, as plain values.
#[derive(Debug)]
pub struct IoError {
    pub kind: IoErrorKind,
    pub message: String,
}

/// Errors that can occur while opening or reading a CASC storage.
#[derive(Debug)]
#[non_exhaustive]
pub enum CascError {
    Io(IoError),
    Malformed { what: &'static str, reason: String },
    NotFound(String),
    /// The path exists in the storage's catalog, but its content was never
    /// downloaded locally (e.g. assets for locales that aren't installed).
    /// This is a normal state for a partial install, not corruption.
    NotInstalled(String),
    Unsupported { what: &'static str, reason: String },
    /// A CDN transport failure that isn't a clean "resource doesn't exist"
    /// (those surface as [`CascError::NotFound`]): connection failures,
    /// unexpected HTTP statuses, servers ignoring Range requests, ...
    Transport { url: String, reason: String },
    ChecksumMismatch(&'static str),
    /// An untrusted object exceeded a caller-configured resource limit.
    LimitExceeded { what: &'static str, limit: usize },
}

/// The mathematical content of a [`CascError`].
pub enum ErrorView {
    Io { kind: IoErrorKind, message: Seq<char> },
    Malformed { what: Seq<char>, reason: Seq<char> },
    NotFound(Seq<char>),
    NotInstalled(Seq<char>),
    Unsupported { what: Seq<char>, reason: Seq<char> },
    Transport { url: Seq<char>, reason: Seq<char> },
    ChecksumMismatch(Seq<char>),
    LimitExceeded { what: Seq<char>, limit: nat },
}

impl View for CascError {
    type V = ErrorView;

    open spec fn view(&self) -> ErrorView {
        match *self {
            CascError::Io(e) => ErrorView::Io { kind: e.kind, message: e.message@ },
            CascError::Malformed { what, reason } => ErrorView::Malformed {
                what: what@,
                reason: reason@,
            },
            CascError::NotFound(s) => ErrorView::NotFound(s@),
            CascError::NotInstalled(s) => ErrorView::NotInstalled(s@),
            CascError::Unsupported { what, reason } => ErrorView::Unsupported {
                what: what@,
                reason: reason@,
            },
            CascError::Transport { url, reason } => ErrorView::Transport {
                url: url@,
                reason: reason@,
            },
            CascError::ChecksumMismatch(what) => ErrorView::ChecksumMismatch(what@),
            CascError::LimitExceeded { what, limit } => ErrorView::LimitExceeded {
                what: what@,
                limit: limit as nat,
            },
        }
    }
}

/// A result with both sides taken by their views.
pub open spec fn outcome<T: View>(r: Result<T, CascError>) -> Result<T::V, ErrorView> {
    match r {
        Ok(t) => Ok(t@),
        Err(e) => Err(e@),
    }
}

/// A result without a payload, with its error taken by its view.
pub open spec fn status(r: Result<(), CascError>) -> Result<(), ErrorView> {
    match r {
        Ok(_) => Ok(()),
        Err(e) => Err(e@),
    }
}

/// The error for malformed input of kind `what`.
pub open spec fn malformed_view(what: Seq<char>, reason: Seq<char>) -> ErrorView {
    ErrorView::Malformed { what, reason }
}

/// The error for a feature of `what` that is not supported.
pub open spec fn unsupported_view(what: Seq<char>, reason: Seq<char>) -> ErrorView {
    ErrorView::Unsupported { what, reason }
}

/// The error for `what` exceeding a resource limit.
pub open spec fn limit_view(what: Seq<char>, limit: nat) -> ErrorView {
    ErrorView::LimitExceeded { what, limit }
}

/// The message that describes an error to a user.
pub open spec fn message_of(e: ErrorView) -> Seq<char> {
    match e {
        ErrorView::Io { kind, message } => "I/O error: "@ + message,
        ErrorView::Malformed { what, reason } => "malformed "@ + what + ": "@ + reason,
        ErrorView::NotFound(s) => "file not found: "@ + s,
        ErrorView::NotInstalled(s) => "file known but not installed locally: "@ + s,
        ErrorView::Unsupported { what, reason } => "unsupported "@ + what + ": "@ + reason,
        ErrorView::Transport { url, reason } => "transport error for "@ + url + ": "@ + reason,
        ErrorView::ChecksumMismatch(what) => "checksum mismatch in "@ + what,
        ErrorView::LimitExceeded { what, limit } => what + " exceeds configured limit ("@
            + text::dec(limit) + ")"@,
    }
}

impl CascError {
    pub fn malformed(what: &'static str, reason: &str) -> (e: CascError)
        ensures
            e@ == malformed_view(what@, reason@),
    {
        CascError::Malformed { what, reason: reason.to_owned() }
    }

    pub fn unsupported(what: &'static str, reason: &str) -> (e: CascError)
        ensures
            e@ == unsupported_view(what@, reason@),
    {
        CascError::Unsupported { what, reason: reason.to_owned() }
    }

    pub fn limit(what: &'static str, limit: usize) -> (e: CascError)
        ensures
            e@ == limit_view(what@, limit as nat),
    {
        CascError::LimitExceeded { what, limit }
    }

    /// The text that describes this error to a user.
    pub fn message(&self) -> (s: String)
        ensures
            s@ == message_of(self@),
    {
        match self {
            CascError::Io(e) => text::cat2("I/O error: ", e.message.as_str()),
            CascError::Malformed { what, reason } => text::cat4(
                "malformed ",
                what,
                ": ",
                reason.as_str(),
            ),
            CascError::NotFound(s) => text::cat2("file not found: ", s.as_str()),
            CascError::NotInstalled(s) => text::cat2(
                "file known but not installed locally: ",
                s.as_str(),
            ),
            CascError::Unsupported { what, reason } => text::cat4(
                "unsupported ",
                what,
                ": ",
                reason.as_str(),
            ),
            CascError::Transport { url, reason } => text::cat4(
                "transport error for ",
                url.as_str(),
                ": ",
                reason.as_str(),
            ),
            CascError::ChecksumMismatch(what) => text::cat2("checksum mismatch in ", what),
            CascError::LimitExceeded { what, limit } => {
                let n = text::dec_text(*limit as u64);
                text::cat4(what, " exceeds configured limit (", n.as_str(), ")")
            },
        }
    }
}

/// The messages: what went wrong, and with what.
pub proof fn law_messages(kind: IoErrorKind, a: Seq<char>, b: Seq<char>, n: nat)
    ensures
        message_of(ErrorView::Io { kind, message: a }) == "I/O error: "@ + a,
        message_of(ErrorView::Malformed { what: a, reason: b }) == "malformed "@ + a + ": "@ + b,
        message_of(ErrorView::NotFound(a)) == "file not found: "@ + a,
        message_of(ErrorView::NotInstalled(a)) == "file known but not installed locally: "@ + a,
        message_of(ErrorView::Unsupported { what: a, reason: b }) == "unsupported "@ + a + ": "@
            + b,
        message_of(ErrorView::Transport { url: a, reason: b }) == "transport error for "@ + a
            + ": "@ + b,
        message_of(ErrorView::ChecksumMismatch(a)) == "checksum mismatch in "@ + a,
        message_of(ErrorView::LimitExceeded { what: a, limit: n }) == a
            + " exceeds configured limit ("@ + text::dec(n) + ")"@,
{
}

} // verus!
