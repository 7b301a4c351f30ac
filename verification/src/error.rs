//! What can go wrong, and how it is told.

use crate::text::joined;
use vstd::prelude::*;

verus! {

/// A failure of the analysis, with what caused it.
#[derive(Debug)]
pub enum UchikomiError {
    ParseError(String),
    GitError(String),
    IoError(String),
    CacheError(String),
    SerializationError(String),
    Other(String),
}

impl UchikomiError {
    /// What caused the failure.
    pub open spec fn cause(self) -> Seq<char> {
        match self {
            UchikomiError::ParseError(msg) => msg@,
            UchikomiError::GitError(msg) => msg@,
            UchikomiError::IoError(msg) => msg@,
            UchikomiError::CacheError(msg) => msg@,
            UchikomiError::SerializationError(msg) => msg@,
            UchikomiError::Other(msg) => msg@,
        }
    }

    /// The words that name the sort of failure.
    pub open spec fn prefix(self) -> Seq<char> {
        match self {
            UchikomiError::ParseError(_) => "Parse error: "@,
            UchikomiError::GitError(_) => "Git error: "@,
            UchikomiError::IoError(_) => "IO error: "@,
            UchikomiError::CacheError(_) => "Cache error: "@,
            UchikomiError::SerializationError(_) => "Serialization error: "@,
            UchikomiError::Other(_) => "Error: "@,
        }
    }

    /// The failure as one line of text: its sort, then its cause.
    pub fn message(&self) -> (s: String)
        ensures
            s@ == self.prefix() + self.cause(),
    {
        match self {
            UchikomiError::ParseError(msg) => joined("Parse error: ", msg.as_str()),
            UchikomiError::GitError(msg) => joined("Git error: ", msg.as_str()),
            UchikomiError::IoError(msg) => joined("IO error: ", msg.as_str()),
            UchikomiError::CacheError(msg) => joined("Cache error: ", msg.as_str()),
            UchikomiError::SerializationError(msg) => joined(
                "Serialization error: ",
                msg.as_str(),
            ),
            UchikomiError::Other(msg) => joined("Error: ", msg.as_str()),
        }
    }

    /// The cause alone.
    pub fn into_cause(self) -> (s: String)
        ensures
            s@ == self.cause(),
    {
        match self {
            UchikomiError::ParseError(msg) => msg,
            UchikomiError::GitError(msg) => msg,
            UchikomiError::IoError(msg) => msg,
            UchikomiError::CacheError(msg) => msg,
            UchikomiError::SerializationError(msg) => msg,
            UchikomiError::Other(msg) => msg,
        }
    }
}

/// `anyhow::Error`.
#[verifier::external_type_specification]
#[verifier::external_body]
pub struct ExAnyhowError(anyhow::Error);

/// `std::io::Error`.
#[verifier::external_type_specification]
#[verifier::external_body]
pub struct ExIoError(std::io::Error);

/// `git2::Error`.
#[verifier::external_type_specification]
#[verifier::external_body]
pub struct ExGitError(git2::Error);

/// What a `git2::Error` prints.
pub uninterp spec fn git_text(err: git2::Error) -> Seq<char>;

/// The text that the `Display` of `git2::Error` prints. It depends on the error
/// alone.
#[verifier::external_body]
fn print_git(err: &git2::Error) -> (s: String)
    ensures
        s@ == git_text(*err),
{
    err.to_string()
}

/// Keeps the words that the error prints. They may be those of the operating system,
/// so it is told that they are printed from this error, and not what they are.
impl From<anyhow::Error> for UchikomiError {
    fn from(err: anyhow::Error) -> (r: Self)
        ensures
            exists|s: String| #[trigger]
                vstd::string::to_string_from_display_ensures::<anyhow::Error>(&err, s) && r
                    == UchikomiError::Other(s),
    {
        UchikomiError::Other(err.to_string())
    }
}

impl vstd::std_specs::convert::FromSpecImpl<anyhow::Error> for UchikomiError {
    open spec fn obeys_from_spec() -> bool {
        false
    }

    open spec fn from_spec(err: anyhow::Error) -> Self {
        arbitrary()
    }
}

/// Keeps the words that the error prints, which may be those of the operating system.
impl From<std::io::Error> for UchikomiError {
    fn from(err: std::io::Error) -> (r: Self)
        ensures
            exists|s: String| #[trigger]
                vstd::string::to_string_from_display_ensures::<std::io::Error>(&err, s) && r
                    == UchikomiError::IoError(s),
    {
        UchikomiError::IoError(err.to_string())
    }
}

impl vstd::std_specs::convert::FromSpecImpl<std::io::Error> for UchikomiError {
    open spec fn obeys_from_spec() -> bool {
        false
    }

    open spec fn from_spec(err: std::io::Error) -> Self {
        arbitrary()
    }
}

impl From<git2::Error> for UchikomiError {
    fn from(err: git2::Error) -> (r: Self)
        ensures
            r is GitError,
            r.cause() == git_text(err),
    {
        UchikomiError::GitError(print_git(&err))
    }
}

impl vstd::std_specs::convert::FromSpecImpl<git2::Error> for UchikomiError {
    open spec fn obeys_from_spec() -> bool {
        false
    }

    open spec fn from_spec(err: git2::Error) -> Self {
        arbitrary()
    }
}

} // verus!
