//! Machine-readable error codes, kept apart from any text a person reads.
//!
//! A code is stable and never translated; what a person sees is looked up from
//! the localisation catalogue by the code's message key.

use vstd::prelude::*;

use crate::text::{push_str, string_of};

verus! {

/// Stable, machine-readable error identity.
#[derive(Debug, Clone, Copy, PartialEq, Eq, Structural, Hash, PartialOrd, Ord)]
pub enum ErrorCode {
    /// The requested path or item does not exist.
    NotFound,
    /// The operation was refused by the platform for permission reasons.
    PermissionDenied,
    /// A destination entry already exists and the caller must decide.
    AlreadyExists,
    /// The item is not of the kind the operation requires.
    WrongKind,
    /// A path was syntactically invalid or escaped its allowed root.
    InvalidPath,
    /// A declared limit was exceeded.
    LimitExceeded,
    /// The operation was cancelled by the user or by a superseding request.
    Cancelled,
    /// The operation timed out.
    TimedOut,
    /// The underlying device or mount is unavailable or stalled.
    DeviceUnavailable,
    /// Input from an untrusted source could not be parsed.
    ParseFailed,
    /// A localisation key was missing from every catalogue including fallback.
    MissingLocalization,
    /// The requested capability is not supported on this platform.
    Unsupported,
    /// An external provider or helper process failed.
    ProviderFailed,
    /// An I/O failure that does not map to a more specific code.
    Io,
    /// An invariant of this program was violated. Always a bug.
    Internal,
}

/// The stable string form of a code.
pub open spec fn code_text(code: ErrorCode) -> Seq<char> {
    match code {
        ErrorCode::NotFound => "E_NOT_FOUND"@,
        ErrorCode::PermissionDenied => "E_PERMISSION_DENIED"@,
        ErrorCode::AlreadyExists => "E_ALREADY_EXISTS"@,
        ErrorCode::WrongKind => "E_WRONG_KIND"@,
        ErrorCode::InvalidPath => "E_INVALID_PATH"@,
        ErrorCode::LimitExceeded => "E_LIMIT_EXCEEDED"@,
        ErrorCode::Cancelled => "E_CANCELLED"@,
        ErrorCode::TimedOut => "E_TIMED_OUT"@,
        ErrorCode::DeviceUnavailable => "E_DEVICE_UNAVAILABLE"@,
        ErrorCode::ParseFailed => "E_PARSE_FAILED"@,
        ErrorCode::MissingLocalization => "E_MISSING_LOCALIZATION"@,
        ErrorCode::Unsupported => "E_UNSUPPORTED"@,
        ErrorCode::ProviderFailed => "E_PROVIDER_FAILED"@,
        ErrorCode::Io => "E_IO"@,
        ErrorCode::Internal => "E_INTERNAL"@,
    }
}

/// The localisation key of a code's message.
pub open spec fn code_message_key(code: ErrorCode) -> Seq<char> {
    match code {
        ErrorCode::NotFound => "error.not_found"@,
        ErrorCode::PermissionDenied => "error.permission_denied"@,
        ErrorCode::AlreadyExists => "error.already_exists"@,
        ErrorCode::WrongKind => "error.wrong_kind"@,
        ErrorCode::InvalidPath => "error.invalid_path"@,
        ErrorCode::LimitExceeded => "error.limit_exceeded"@,
        ErrorCode::Cancelled => "error.cancelled"@,
        ErrorCode::TimedOut => "error.timed_out"@,
        ErrorCode::DeviceUnavailable => "error.device_unavailable"@,
        ErrorCode::ParseFailed => "error.parse_failed"@,
        ErrorCode::MissingLocalization => "error.missing_localization"@,
        ErrorCode::Unsupported => "error.unsupported"@,
        ErrorCode::ProviderFailed => "error.provider_failed"@,
        ErrorCode::Io => "error.io"@,
        ErrorCode::Internal => "error.internal"@,
    }
}

impl ErrorCode {
    /// The stable string form used in logs, job records and tests.
    pub fn as_str(self) -> (r: &'static str)
        ensures
            r@ == code_text(self),
    {
        match self {
            Self::NotFound => "E_NOT_FOUND",
            Self::PermissionDenied => "E_PERMISSION_DENIED",
            Self::AlreadyExists => "E_ALREADY_EXISTS",
            Self::WrongKind => "E_WRONG_KIND",
            Self::InvalidPath => "E_INVALID_PATH",
            Self::LimitExceeded => "E_LIMIT_EXCEEDED",
            Self::Cancelled => "E_CANCELLED",
            Self::TimedOut => "E_TIMED_OUT",
            Self::DeviceUnavailable => "E_DEVICE_UNAVAILABLE",
            Self::ParseFailed => "E_PARSE_FAILED",
            Self::MissingLocalization => "E_MISSING_LOCALIZATION",
            Self::Unsupported => "E_UNSUPPORTED",
            Self::ProviderFailed => "E_PROVIDER_FAILED",
            Self::Io => "E_IO",
            Self::Internal => "E_INTERNAL",
        }
    }

    /// Localisation key for the user-visible message.
    pub fn message_key(self) -> (r: &'static str)
        ensures
            r@ == code_message_key(self),
    {
        match self {
            Self::NotFound => "error.not_found",
            Self::PermissionDenied => "error.permission_denied",
            Self::AlreadyExists => "error.already_exists",
            Self::WrongKind => "error.wrong_kind",
            Self::InvalidPath => "error.invalid_path",
            Self::LimitExceeded => "error.limit_exceeded",
            Self::Cancelled => "error.cancelled",
            Self::TimedOut => "error.timed_out",
            Self::DeviceUnavailable => "error.device_unavailable",
            Self::ParseFailed => "error.parse_failed",
            Self::MissingLocalization => "error.missing_localization",
            Self::Unsupported => "error.unsupported",
            Self::ProviderFailed => "error.provider_failed",
            Self::Io => "error.io",
            Self::Internal => "error.internal",
        }
    }

    /// Every code, for exhaustive tests and catalogue parity checks.
    pub fn all() -> (r: Vec<ErrorCode>)
        ensures
            r@.len() == 15,
            forall|c: ErrorCode| r@.contains(c),
    {
        let r = vec![
            Self::NotFound,
            Self::PermissionDenied,
            Self::AlreadyExists,
            Self::WrongKind,
            Self::InvalidPath,
            Self::LimitExceeded,
            Self::Cancelled,
            Self::TimedOut,
            Self::DeviceUnavailable,
            Self::ParseFailed,
            Self::MissingLocalization,
            Self::Unsupported,
            Self::ProviderFailed,
            Self::Io,
            Self::Internal,
        ];
        proof {
            assert forall|c: ErrorCode| r@.contains(c) by {
                match c {
                    ErrorCode::NotFound => assert(r@[0] == c),
                    ErrorCode::PermissionDenied => assert(r@[1] == c),
                    ErrorCode::AlreadyExists => assert(r@[2] == c),
                    ErrorCode::WrongKind => assert(r@[3] == c),
                    ErrorCode::InvalidPath => assert(r@[4] == c),
                    ErrorCode::LimitExceeded => assert(r@[5] == c),
                    ErrorCode::Cancelled => assert(r@[6] == c),
                    ErrorCode::TimedOut => assert(r@[7] == c),
                    ErrorCode::DeviceUnavailable => assert(r@[8] == c),
                    ErrorCode::ParseFailed => assert(r@[9] == c),
                    ErrorCode::MissingLocalization => assert(r@[10] == c),
                    ErrorCode::Unsupported => assert(r@[11] == c),
                    ErrorCode::ProviderFailed => assert(r@[12] == c),
                    ErrorCode::Io => assert(r@[13] == c),
                    ErrorCode::Internal => assert(r@[14] == c),
                }
            }
        }
        r
    }
}

/// An error carrying a stable code and developer-facing context.
///
/// The context is never shown to users; what they see comes from the code's
/// message key resolved through the localizer.
#[derive(Debug, Clone, PartialEq, Eq)]
pub struct Error {
    code: ErrorCode,
    context: String,
}

impl Error {
    /// The code, for specifications.
    pub closed spec fn spec_code(&self) -> ErrorCode {
        self.code
    }

    /// The context, for specifications.
    pub closed spec fn spec_context(&self) -> Seq<char> {
        self.context@
    }

    /// Create an error with developer-facing context.
    pub fn new(code: ErrorCode, context: &str) -> (r: Self)
        ensures
            r.spec_code() == code,
            r.spec_context() == context@,
    {
        Self { code, context: context.to_owned() }
    }

    /// Create an error whose context is already an owned string.
    pub fn with_context(code: ErrorCode, context: String) -> (r: Self)
        ensures
            r.spec_code() == code,
            r.spec_context() == context@,
    {
        Self { code, context }
    }

    /// Create an error with no additional context.
    pub fn bare(code: ErrorCode) -> (r: Self)
        ensures
            r.spec_code() == code,
            r.spec_context() == Seq::<char>::empty(),
    {
        Self { code, context: String::new() }
    }

    /// The stable machine-readable code.
    pub fn code(&self) -> (r: ErrorCode)
        ensures
            r == self.spec_code(),
    {
        self.code
    }

    /// Developer-facing context. Not for display to users.
    pub fn context(&self) -> (r: &str)
        ensures
            r@ == self.spec_context(),
    {
        self.context.as_str()
    }

    /// Localisation key for the user-visible message.
    pub fn message_key(&self) -> (r: &'static str)
        ensures
            r@ == code_message_key(self.spec_code()),
    {
        self.code.message_key()
    }

    /// The code, then the context after a colon when there is one.
    pub open spec fn spec_text(&self) -> Seq<char> {
        if self.spec_context().len() == 0 {
            code_text(self.spec_code())
        } else {
            code_text(self.spec_code()) + ": "@ + self.spec_context()
        }
    }

    /// The code, then the context after a colon when there is one.
    pub fn to_string(&self) -> (r: String)
        ensures
            r@ == self.spec_text(),
    {
        let mut out = String::new();
        push_str(&mut out, self.code.as_str());
        if self.context.as_str().is_empty() {
            out
        } else {
            push_str(&mut out, ": ");
            push_str(&mut out, self.context.as_str());
            out
        }
    }
}

} // verus!
