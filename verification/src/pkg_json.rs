//! The parts of `package.json` the tool reads.

use vstd::prelude::*;
use std::collections::BTreeMap;
use crate::error::ScruttError;

verus! {

/// A project manifest: its name and its two dependency tables, each
/// mapping a package name to a version requirement.
#[derive(Debug)]
pub struct PackageJson {
    pub name: Option<String>,
    pub dependencies: Option<BTreeMap<String, String>>,
    pub dev_dependencies: Option<BTreeMap<String, String>>,
}

/// The number of entries of an optional dependency table; none when it
/// is absent.
pub open spec fn table_len(table: Option<BTreeMap<String, String>>) -> nat {
    match table {
        Some(m) => m.len() as nat,
        None => 0,
    }
}

fn table_count(table: &Option<BTreeMap<String, String>>) -> (r: usize)
    ensures
        r == table_len(*table),
{
    match table {
        Some(m) => m.len(),
        None => 0,
    }
}

impl PackageJson {
    /// The number of runtime dependencies.
    pub fn dependency_count(&self) -> (r: usize)
        ensures
            r == table_len(self.dependencies),
    {
        table_count(&self.dependencies)
    }

    /// The number of development dependencies.
    pub fn dev_dependency_count(&self) -> (r: usize)
        ensures
            r == table_len(self.dev_dependencies),
    {
        table_count(&self.dev_dependencies)
    }
}


/// The error for a failure to read the manifest at `path`, given whether
/// the file was not found: a missing manifest, or a failure to read it.
pub fn read_error(path: &str, source: std::io::Error, not_found: bool) -> (r: ScruttError)
    ensures
        not_found ==> (r matches ScruttError::MissingFile { path: p } && p@ == path@),
        !not_found ==> (r matches ScruttError::IoError { path: Some(p), source: s } && p@ == path@ && s
            == source),
{
    if not_found {
        ScruttError::MissingFile { path: path.to_owned() }
    } else {
        ScruttError::read_failure(path.to_owned(), source)
    }
}

/// The error for a failure to read the manifest at `path`: a missing
/// manifest when the error's kind is `NotFound`, and otherwise a failure to
/// read it that keeps the path and the I/O error.
pub fn manifest_read_error(path: &str, source: std::io::Error) -> (r: ScruttError)
    ensures
        crate::error::io_error_not_found(source) ==> (r matches ScruttError::MissingFile { path: p } && p@
            == path@),
        !crate::error::io_error_not_found(source) ==> (r matches ScruttError::IoError {
            path: Some(p),
            source: s,
        } && p@ == path@ && s == source),
{
    let not_found = crate::error::io_error_is_not_found(&source);
    read_error(path, source, not_found)
}

} // verus!
