//! Repository records and the derivation of a record's default name
//! from its path.
//!
//! A record pairs an alias with the path of a repository root. When a
//! record is built from a path alone, its name is the last component of
//! that path: trailing separators are ignored, and a path whose last
//! component is empty, `.` or `..` yields no name.

use vstd::prelude::*;

use crate::err::FromPathError;
use crate::validate::{is_repo_listing, validate_repo};

verus! {

/// The mathematical content of a `RepoData`: its alias and its path,
/// each as a sequence of characters.
pub ghost struct RepoView {
    pub name: Seq<char>,
    pub path: Seq<char>,
}

/// Holds data about a repository: its alias and the path of its root
/// directory. The path is checked to contain a `.git` entry when the
/// record is created from a listing; the record itself never
/// re-validates.
#[derive(Debug)]
pub struct RepoData {
    pub name: String,
    pub path: String,
}

impl View for RepoData {
    type V = RepoView;

    open spec fn view(&self) -> RepoView {
        RepoView { name: self.name@, path: self.path@ }
    }
}

/// `p` with every trailing `/` removed.
pub open spec fn strip_trailing_slashes(p: Seq<char>) -> Seq<char>
    decreases p.len(),
{
    if p.len() > 0 && p.last() == '/' {
        strip_trailing_slashes(p.drop_last())
    } else {
        p
    }
}

/// The suffix of `p` after its last `/`; empty when `p` is empty or
/// ends in `/`.
pub open spec fn last_component(p: Seq<char>) -> Seq<char>
    decreases p.len(),
{
    if p.len() == 0 || p.last() == '/' {
        Seq::empty()
    } else {
        last_component(p.drop_last()).push(p.last())
    }
}

/// The default name derived from a path: the last component once
/// trailing separators are stripped, unless that component is empty,
/// `.` or `..`.
pub open spec fn derive_name_spec(p: Seq<char>) -> Option<Seq<char>> {
    let c = last_component(strip_trailing_slashes(p));
    if c.len() == 0 || c == seq!['.'] || c == seq!['.', '.'] {
        None
    } else {
        Some(c)
    }
}

/// Derives the default name of the directory that `path` points at:
/// the last path component, or nothing when no usable component exists.
pub fn derive_name(path: &str) -> (r: Option<String>)
    ensures
        match r {
            Some(n) => derive_name_spec(path@) == Some(n@),
            None => derive_name_spec(path@) is None,
        },
{
    let ghost p = path@;
    let len = path.unicode_len();
    proof {
        assert(p.take(len as int) =~= p);
    }
    let mut end: usize = len;
    while end > 0 && path.get_char(end - 1) == '/'
        invariant
            end <= len,
            len == p.len(),
            p == path@,
            strip_trailing_slashes(p) == strip_trailing_slashes(p.take(end as int)),
        decreases end,
    {
        proof {
            assert(p.take(end as int).last() == '/');
            assert(p.take(end as int).drop_last() =~= p.take(end as int - 1));
        }
        end = end - 1;
    }
    proof {
        assert(p.take(len as int) =~= p);
        if end > 0 {
            assert(p.take(end as int).last() == p[end as int - 1]);
        }
        assert(strip_trailing_slashes(p.take(end as int)) == p.take(end as int));
    }
    // Here strip_trailing_slashes(p) == p.take(end).
    let mut start: usize = end;
    while start > 0 && path.get_char(start - 1) != '/'
        invariant
            start <= end <= len,
            len == p.len(),
            p == path@,
            last_component(p.take(end as int)) =~= last_component(p.take(start as int))
                + p.subrange(start as int, end as int),
        decreases start,
    {
        proof {
            assert(p.take(start as int).last() == p[start as int - 1]);
            assert(p.take(start as int).drop_last() =~= p.take(start as int - 1));
            assert(last_component(p.take(start as int)) == last_component(
                p.take(start as int - 1),
            ).push(p[start as int - 1]));
            assert(last_component(p.take(start as int - 1)).push(p[start as int - 1]) + p.subrange(
                start as int,
                end as int,
            ) =~= last_component(p.take(start as int - 1)) + p.subrange(
                start as int - 1,
                end as int,
            ));
        }
        start = start - 1;
    }
    proof {
        if start > 0 {
            assert(p.take(start as int).last() == p[start as int - 1]);
        }
        assert(last_component(p.take(start as int)) =~= Seq::<char>::empty());
        assert(last_component(p.take(end as int)) =~= p.subrange(start as int, end as int));
    }
    // Here last_component(strip_trailing_slashes(p)) == p.subrange(start, end).
    if start == end {
        return None;
    }
    if end - start == 1 && path.get_char(start) == '.' {
        proof {
            assert(p.subrange(start as int, end as int) =~= seq!['.']);
        }
        return None;
    }
    if end - start == 2 && path.get_char(start) == '.' && path.get_char(start + 1) == '.' {
        proof {
            assert(p.subrange(start as int, end as int) =~= seq!['.', '.']);
        }
        return None;
    }
    let component = path.substring_char(start, end);
    proof {
        let c = p.subrange(start as int, end as int);
        assert(c.len() > 0);
        if c.len() == 1 {
            assert(c[0] == p[start as int]);
            assert(c != seq!['.']);
        }
        if c.len() == 2 {
            assert(c[0] == p[start as int] && c[1] == p[start as int + 1]);
            assert(c != seq!['.', '.']);
        }
    }
    Some(component.to_owned())
}

impl RepoData {
    /// Creates a record with the given alias and path.
    pub fn new(name: &str, path: &str) -> (r: Self)
        ensures
            r@.name == name@,
            r@.path == path@,
    {
        RepoData { name: name.to_owned(), path: path.to_owned() }
    }

    /// Creates a record for the directory at `path` whose listing is
    /// `entries`, inferring the alias from the path's last component.
    /// Fails with `NotARepository` when the listing shows no `.git`
    /// entry, and with `NameExtract` when it does but the path yields
    /// no usable name.
    pub fn from_path(path: &str, entries: &Vec<String>) -> (r: Result<Self, FromPathError>)
        ensures
            r is Ok <==> is_repo_listing(entries.deep_view()) && derive_name_spec(path@) is Some,
            r matches Ok(rd) ==> rd@.path == path@ && Some(rd@.name) == derive_name_spec(path@),
            r matches Err(e) ==> e == if !is_repo_listing(entries.deep_view()) {
                FromPathError::NotARepository
            } else {
                FromPathError::NameExtract
            },
    {
        match validate_repo(entries) {
            Ok(_) => match derive_name(path) {
                Some(name) => Ok(RepoData { name, path: path.to_owned() }),
                None => Err(FromPathError::NameExtract),
            },
            Err(_) => Err(FromPathError::NotARepository),
        }
    }
}

impl Default for RepoData {
    /// An empty record: empty alias, empty path.
    fn default() -> (r: Self)
        ensures
            r@.name == Seq::<char>::empty(),
            r@.path == Seq::<char>::empty(),
    {
        RepoData { name: String::new(), path: String::new() }
    }
}

} // verus!
