//! The one error type that every operation of the engine returns.

use vstd::prelude::*;
use vstd::std_specs::convert::FromSpecImpl;
use vstd::string::StringExecFns;

verus! {

/// `std::io::Error`, carried through as it is; nothing is known of what it
/// holds.
#[verifier::external_type_specification]
#[verifier::external_body]
pub struct ExIoError(std::io::Error);

/// `nix::errno::Errno`, which `nix::Error` names; carried through as it is.
#[verifier::external_type_specification]
#[verifier::external_body]
pub struct ExErrno(nix::errno::Errno);

/// `uuid::Error`, the failure to read an identifier from text; carried
/// through as it is.
#[verifier::external_type_specification]
#[verifier::external_body]
pub struct ExUuidError(uuid::Error);

/// `std::str::Utf8Error`; carried through as it is.
#[verifier::external_type_specification]
#[verifier::external_body]
pub struct ExUtf8Error(std::str::Utf8Error);

/// The kinds of failure that the engine itself reports.
#[derive(Debug, Clone, Copy, PartialEq, Eq, Structural)]
pub enum ErrorEnum {
    /// A failure with no more specific kind.
    Error,
    AlreadyExists,
    Busy,
    /// Bad input or a violated policy.
    Invalid,
    NotFound,
}

/// A failure of the engine, or a lower-level failure passed through it.
#[derive(Debug)]
pub enum EngineError {
    Engine(ErrorEnum, String),
    Io(std::io::Error),
    Nix(nix::Error),
    Uuid(uuid::Error),
    Utf8(std::str::Utf8Error),
}

pub type EngineResult<T> = Result<T, EngineError>;

/// The text that `std::io::Error`'s `Display` impl writes. It comes from the
/// operating system, so nothing is claimed of it.
#[verifier::external_body]
fn io_error_text(err: &std::io::Error) -> (text: String) {
    format!("{}", err)
}

/// The text of `nix::errno::Errno::desc`, copied into a `String`. Nothing is
/// claimed of it.
#[verifier::external_body]
fn errno_text(err: &nix::Error) -> (text: String) {
    err.desc().to_string()
}

/// The text that `uuid::Error`'s `Display` impl writes. Nothing is claimed of
/// it.
#[verifier::external_body]
fn uuid_error_text(err: &uuid::Error) -> (text: String) {
    format!("{}", err)
}

/// The text that `std::str::Utf8Error`'s `Display` impl writes. Nothing is
/// claimed of it.
#[verifier::external_body]
fn utf8_error_text(err: &std::str::Utf8Error) -> (text: String) {
    format!("{}", err)
}

/// `prefix` followed by `detail`.
pub fn with_prefix(prefix: &str, detail: &str) -> (text: String)
    ensures
        text@ == prefix@ + detail@,
{
    String::from_str(prefix).concat(detail)
}

impl EngineError {
    /// The kind of an engine failure; `None` for a failure passed through
    /// from a lower layer.
    pub open spec fn kind(self) -> Option<ErrorEnum> {
        match self {
            EngineError::Engine(kind, _) => Some(kind),
            _ => None,
        }
    }

    /// True of an engine failure of kind `Invalid`.
    pub open spec fn is_invalid(self) -> bool {
        self.kind() == Some(ErrorEnum::Invalid)
    }

    /// The words that introduce each variant in `message`.
    pub open spec fn label(self) -> Seq<char> {
        match self {
            EngineError::Engine(_, _) => "Stratis error: "@,
            EngineError::Io(_) => "IO error: "@,
            EngineError::Nix(_) => "Nix error: "@,
            EngineError::Uuid(_) => "Uuid error: "@,
            EngineError::Utf8(_) => "Utf8 error: "@,
        }
    }

    /// An engine failure of kind `Invalid` with the given message.
    pub fn invalid(msg: String) -> (err: EngineError)
        ensures
            err == EngineError::Engine(ErrorEnum::Invalid, msg),
    {
        EngineError::Engine(ErrorEnum::Invalid, msg)
    }

    /// The failure as one line of text: the variant's label, then the
    /// engine's own message or the lower layer's own text.
    pub fn message(&self) -> (text: String)
        ensures
            self.label().is_prefix_of(text@),
            self matches EngineError::Engine(_, msg) ==> text@ == self.label() + msg@,
    {
        match self {
            EngineError::Engine(_, msg) => with_prefix("Stratis error: ", msg.as_str()),
            EngineError::Io(err) => with_prefix("IO error: ", io_error_text(err).as_str()),
            EngineError::Nix(err) => with_prefix("Nix error: ", errno_text(err).as_str()),
            EngineError::Uuid(err) => with_prefix("Uuid error: ", uuid_error_text(err).as_str()),
            EngineError::Utf8(err) => with_prefix("Utf8 error: ", utf8_error_text(err).as_str()),
        }
    }

    /// A short description: the engine's own message, a fixed name for a
    /// UUID failure, and the lower layer's text otherwise.
    pub fn description(&self) -> (text: String)
        ensures
            self matches EngineError::Engine(_, msg) ==> text@ == msg@,
            self is Uuid ==> text@ == "Uuid::ParseError"@,
    {
        match self {
            EngineError::Engine(_, msg) => msg.clone(),
            EngineError::Io(err) => io_error_text(err),
            EngineError::Nix(err) => errno_text(err),
            EngineError::Uuid(_) => String::from_str("Uuid::ParseError"),
            EngineError::Utf8(err) => utf8_error_text(err),
        }
    }
}

impl From<std::io::Error> for EngineError {
    fn from(err: std::io::Error) -> (wrapped: EngineError) {
        EngineError::Io(err)
    }
}

impl FromSpecImpl<std::io::Error> for EngineError {
    open spec fn obeys_from_spec() -> bool {
        true
    }

    open spec fn from_spec(err: std::io::Error) -> EngineError {
        EngineError::Io(err)
    }
}

impl From<nix::Error> for EngineError {
    fn from(err: nix::Error) -> (wrapped: EngineError) {
        EngineError::Nix(err)
    }
}

impl FromSpecImpl<nix::Error> for EngineError {
    open spec fn obeys_from_spec() -> bool {
        true
    }

    open spec fn from_spec(err: nix::Error) -> EngineError {
        EngineError::Nix(err)
    }
}

impl From<uuid::Error> for EngineError {
    fn from(err: uuid::Error) -> (wrapped: EngineError) {
        EngineError::Uuid(err)
    }
}

impl FromSpecImpl<uuid::Error> for EngineError {
    open spec fn obeys_from_spec() -> bool {
        true
    }

    open spec fn from_spec(err: uuid::Error) -> EngineError {
        EngineError::Uuid(err)
    }
}

impl From<std::str::Utf8Error> for EngineError {
    fn from(err: std::str::Utf8Error) -> (wrapped: EngineError) {
        EngineError::Utf8(err)
    }
}

impl FromSpecImpl<std::str::Utf8Error> for EngineError {
    open spec fn obeys_from_spec() -> bool {
        true
    }

    open spec fn from_spec(err: std::str::Utf8Error) -> EngineError {
        EngineError::Utf8(err)
    }
}

} // verus!
