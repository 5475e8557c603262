//! The error kinds that registry and discovery operations report.
//!
//! Each kind is a marker struct with a fixed human-readable message;
//! callers that print an error call `message` on it.

use vstd::prelude::*;

verus! {

/// A directory was expected to be a git repository but has no direct
/// child entry named `.git`.
#[derive(Debug, Clone, Copy, PartialEq, Eq, Structural)]
pub struct NotARepositoryError;

impl NotARepositoryError {
    /// The human-readable description of this error.
    pub fn message(&self) -> (m: String)
        ensures
            m@ == "The given directory is not a valid repository."@,
    {
        "The given directory is not a valid repository.".to_owned()
    }
}

/// An alias is already present in the registry, so a record cannot be
/// added under it.
#[derive(Debug, Clone, Copy, PartialEq, Eq, Structural)]
pub struct RepoAlreadyExistsError;

impl RepoAlreadyExistsError {
    /// The human-readable description of this error.
    pub fn message(&self) -> (m: String)
        ensures
            m@ == "The given repository already exists."@,
    {
        "The given repository already exists.".to_owned()
    }
}

/// An alias is absent from the registry, so no record can be removed
/// under it.
#[derive(Debug, Clone, Copy, PartialEq, Eq, Structural)]
pub struct RepoDoesNotExistError;

impl RepoDoesNotExistError {
    /// The human-readable description of this error.
    pub fn message(&self) -> (m: String)
        ensures
            m@ == "The given repository does not exist"@,
    {
        "The given repository does not exist".to_owned()
    }
}

/// No default name could be derived from a repository's path.
#[derive(Debug, Clone, Copy, PartialEq, Eq, Structural)]
pub struct RepoNameExtractError;

impl RepoNameExtractError {
    /// The human-readable description of this error.
    pub fn message(&self) -> (m: String)
        ensures
            m@ == "Could not extract repo name from path"@,
    {
        "Could not extract repo name from path".to_owned()
    }
}

/// Why a record could not be created from a path alone: either the
/// directory's listing shows no `.git` entry, or it does but the path
/// yields no usable name.
#[derive(Debug, Clone, Copy, PartialEq, Eq, Structural)]
pub enum FromPathError {
    NotARepository,
    NameExtract,
}

impl FromPathError {
    /// The human-readable description of this error.
    pub fn message(&self) -> (m: String)
        ensures
            self is NotARepository ==> m@
                == "The given directory is not a valid repository."@,
            self is NameExtract ==> m@ == "Could not extract repo name from path"@,
    {
        match self {
            FromPathError::NotARepository => NotARepositoryError.message(),
            FromPathError::NameExtract => RepoNameExtractError.message(),
        }
    }
}

} // verus!
