//! The repository validator: a directory is a git repository exactly
//! when its listing contains a direct child entry named `.git`.
//!
//! The check is by name only; whether the `.git` entry is itself a
//! directory or a file (as in a worktree link) does not matter.

use vstd::prelude::*;

use crate::err::NotARepositoryError;

verus! {

/// Whether a directory listing marks the directory as a git
/// repository: some entry is named exactly `.git`.
pub open spec fn is_repo_listing(entries: Seq<Seq<char>>) -> bool {
    exists|i: int| 0 <= i < entries.len() && entries[i] == ".git"@
}

/// Decides whether the directory whose immediate child names are
/// `entries` is a git repository. Succeeds exactly when some entry is
/// named `.git`; otherwise reports `NotARepositoryError`.
///
/// Reading the directory is the caller's concern: a directory that
/// cannot be listed at all never reaches this check.
pub fn validate_repo(entries: &Vec<String>) -> (r: Result<(), NotARepositoryError>)
    ensures
        r is Ok <==> is_repo_listing(entries.deep_view()),
{
    let git_file: String = ".git".to_owned();
    let n = entries.len();
    let mut j: usize = 0;
    while j < n
        invariant
            j <= n == entries.len(),
            git_file@ == ".git"@,
            forall|i: int| 0 <= i < j ==> entries.deep_view()[i] != ".git"@,
        decreases n - j,
    {
        if entries[j] == git_file {
            proof {
                assert(entries.deep_view()[j as int] == ".git"@);
            }
            return Ok(());
        }
        j = j + 1;
    }
    Err(NotARepositoryError)
}

} // verus!
