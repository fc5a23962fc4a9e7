//! The errors of the library, with the failures of the outside world they
//! carry (`std::io::Error`, `serde_json::Error`) held as they came.

use vstd::prelude::*;

verus! {

/// `std::io::Error`, carried opaquely inside `ScruttError`.
#[verifier::external_type_specification]
#[verifier::external_body]
pub struct ExIoError(std::io::Error);

/// `serde_json::Error`, carried opaquely inside `ScruttError`.
#[verifier::external_type_specification]
#[verifier::external_body]
pub struct ExJsonError(serde_json::Error);

/// Why an existing `.npmrc` cannot be patched.
#[derive(Clone, Copy, Debug, PartialEq, Eq, Structural)]
pub enum NpmrcPatchIssue {
    NonUtf8Content,
    ConflictingDuplicateKeys,
}

/// Everything that makes a command of the tool fail. Paths are held as
/// the text they display as.
#[derive(Debug)]
#[allow(inconsistent_fields)]
pub enum ScruttError {
    MissingFile { path: String },
    IoError { path: Option<String>, source: std::io::Error },
    ParseError { path: Option<String>, source: serde_json::Error },
    NodeModulesNotFound { path: String },
    ScanFailed { file: String, source: std::io::Error },
    WriteError { path: String, source: std::io::Error },
    ReadTextError { path: String, source: std::io::Error },
    InvalidNpmrcState { path: String, reason: NpmrcPatchIssue },
    AuditFindings { count: usize },
    MissingBinary { program: String, source: std::io::Error },
    InstallProcessSpawn { program: String, cwd: String, source: std::io::Error },
    InstallFailed { program: String, cwd: String, code: Option<i32> },
}

/// Whether `io::Error::kind` of the error is `ErrorKind::NotFound`. The
/// kind depends on the error value alone.
pub uninterp spec fn io_error_not_found(error: std::io::Error) -> bool;

/// `std::io::Error::kind`, told apart for `ErrorKind::NotFound`: the
/// contract claims only that the result is `io_error_not_found` of the
/// error, a name for what the kind is.
#[verifier::external_body]
pub(crate) fn io_error_is_not_found(error: &std::io::Error) -> (r: bool)
    ensures
        r == io_error_not_found(*error),
{
    match error.kind() {
        std::io::ErrorKind::NotFound => true,
        _ => false,
    }
}

impl ScruttError {
    /// A failure to read the file at `path`.
    pub fn read_failure(path: String, source: std::io::Error) -> (r: Self)
        ensures
            r == (ScruttError::IoError { path: Some(path), source }),
    {
        ScruttError::IoError { path: Some(path), source }
    }

    /// A failure to parse the manifest at `path` as JSON.
    pub fn invalid_json(path: String, source: serde_json::Error) -> (r: Self)
        ensures
            r == (ScruttError::ParseError { path: Some(path), source }),
    {
        ScruttError::ParseError { path: Some(path), source }
    }
}

impl From<std::io::Error> for ScruttError {
    /// An I/O failure whose path is not known.
    fn from(source: std::io::Error) -> (r: Self)
        ensures
            r == (ScruttError::IoError { path: None, source }),
    {
        ScruttError::IoError { path: None, source }
    }
}

impl vstd::std_specs::convert::FromSpecImpl<std::io::Error> for ScruttError {
    open spec fn obeys_from_spec() -> bool {
        true
    }

    open spec fn from_spec(v: std::io::Error) -> Self {
        ScruttError::IoError { path: None, source: v }
    }
}

impl From<serde_json::Error> for ScruttError {
    /// A JSON failure whose path is not known.
    fn from(source: serde_json::Error) -> (r: Self)
        ensures
            r == (ScruttError::ParseError { path: None, source }),
    {
        ScruttError::ParseError { path: None, source }
    }
}

impl vstd::std_specs::convert::FromSpecImpl<serde_json::Error> for ScruttError {
    open spec fn obeys_from_spec() -> bool {
        true
    }

    open spec fn from_spec(v: serde_json::Error) -> Self {
        ScruttError::ParseError { path: None, source: v }
    }
}

} // verus!
