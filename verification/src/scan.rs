//! The directory walker: visits every directory of a subtree once,
//! runs the validator on each, and collects a record for every
//! repository it finds.
//!
//! The subtree is taken as plain data: a `DirTree` holds, for one
//! directory, whether its listing could be read, the names of its
//! immediate children, and the subtrees of those children that are
//! themselves directories. Reading the real filesystem into this shape
//! is the caller's concern.
//!
//! The walk is iterative, driven by an explicit stack, so deep trees
//! cost no call-stack depth. A directory that is itself a repository is
//! still descended into: nested repositories are all discovered, by
//! design. The result is an unordered collection; duplicate names are
//! not deduplicated here but left to the registry at add time.

use vstd::multiset::Multiset;
use vstd::prelude::*;

use crate::repo::{derive_name, derive_name_spec, RepoData, RepoView};
use crate::validate::{is_repo_listing, validate_repo};

verus! {

broadcast use vstd::multiset::group_multiset_axioms;

/// One directory of the scanned subtree, as plain data.
pub struct DirTree {
    /// The directory's own entry name within its parent. For the root
    /// of a scan it is unused: the root's path is given to the walk.
    pub name: String,
    /// Whether the directory's listing could be read. An unreadable
    /// directory is reported and skipped: it yields no record and its
    /// children are not visited.
    pub readable: bool,
    /// The names of all immediate children, files and directories
    /// alike.
    pub entries: Vec<String>,
    /// The subtrees of the immediate children that are directories.
    pub subdirs: Vec<DirTree>,
}

/// The path of a child entry: the parent's path, a separator, the
/// entry's name.
pub open spec fn join_path(p: Seq<char>, name: Seq<char>) -> Seq<char> {
    p + "/"@ + name
}

/// The record that directory `t` at path `p` itself contributes: one
/// record when its listing shows `.git` and a name can be derived from
/// `p`, none otherwise.
pub open spec fn node_repo(t: DirTree, p: Seq<char>) -> Multiset<RepoView> {
    if is_repo_listing(t.entries.deep_view()) {
        match derive_name_spec(p) {
            Some(n) => Multiset::singleton(RepoView { name: n, path: p }),
            None => Multiset::empty(),
        }
    } else {
        Multiset::empty()
    }
}

/// The name-extraction failure that directory `t` at path `p` itself
/// contributes: its path, when it is a repository but no name can be
/// derived.
pub open spec fn node_name_err(t: DirTree, p: Seq<char>) -> Multiset<Seq<char>> {
    if is_repo_listing(t.entries.deep_view()) && derive_name_spec(p) is None {
        Multiset::singleton(p)
    } else {
        Multiset::empty()
    }
}

/// All records discovered in the subtree rooted at `t`, whose root
/// stands at path `p`. An unreadable directory contributes nothing,
/// itself or below.
pub open spec fn found_in(t: DirTree, p: Seq<char>) -> Multiset<RepoView>
    decreases t,
{
    if t.readable {
        node_repo(t, p).add(found_in_subdirs(t.subdirs@, p))
    } else {
        Multiset::empty()
    }
}

/// All records discovered in the given subtrees, children of the
/// directory at path `p`.
pub open spec fn found_in_subdirs(ss: Seq<DirTree>, p: Seq<char>) -> Multiset<RepoView>
    decreases ss,
{
    if ss.len() == 0 {
        Multiset::empty()
    } else {
        found_in_subdirs(ss.drop_last(), p).add(
            found_in(ss.last(), join_path(p, ss.last().name@)),
        )
    }
}

/// All name-extraction failures in the subtree rooted at `t` at path
/// `p`.
pub open spec fn errs_in(t: DirTree, p: Seq<char>) -> Multiset<Seq<char>>
    decreases t,
{
    if t.readable {
        node_name_err(t, p).add(errs_in_subdirs(t.subdirs@, p))
    } else {
        Multiset::empty()
    }
}

/// All name-extraction failures in the given subtrees, children of the
/// directory at path `p`.
pub open spec fn errs_in_subdirs(ss: Seq<DirTree>, p: Seq<char>) -> Multiset<Seq<char>>
    decreases ss,
{
    if ss.len() == 0 {
        Multiset::empty()
    } else {
        errs_in_subdirs(ss.drop_last(), p).add(errs_in(ss.last(), join_path(p, ss.last().name@)))
    }
}

/// All records still owed by the pending directories on the walk's
/// stack.
pub open spec fn found_in_stack(st: Seq<(String, DirTree)>) -> Multiset<RepoView>
    decreases st.len(),
{
    if st.len() == 0 {
        Multiset::empty()
    } else {
        found_in_stack(st.drop_last()).add(found_in(st.last().1, st.last().0@))
    }
}

/// All name-extraction failures still owed by the pending directories
/// on the walk's stack.
pub open spec fn errs_in_stack(st: Seq<(String, DirTree)>) -> Multiset<Seq<char>>
    decreases st.len(),
{
    if st.len() == 0 {
        Multiset::empty()
    } else {
        errs_in_stack(st.drop_last()).add(errs_in(st.last().1, st.last().0@))
    }
}

/// The number of directories in the subtree rooted at `t`, counting
/// `t` itself. The walk's measure: every visit removes one directory
/// from the pending work.
pub open spec fn tree_size(t: DirTree) -> nat
    decreases t,
{
    1 + subdirs_size(t.subdirs@)
}

/// The number of directories in the given subtrees together.
pub open spec fn subdirs_size(ss: Seq<DirTree>) -> nat
    decreases ss,
{
    if ss.len() == 0 {
        0
    } else {
        subdirs_size(ss.drop_last()) + tree_size(ss.last())
    }
}

/// The number of directories still pending on the walk's stack.
pub open spec fn stack_size(st: Seq<(String, DirTree)>) -> nat
    decreases st.len(),
{
    if st.len() == 0 {
        0
    } else {
        stack_size(st.drop_last()) + tree_size(st.last().1)
    }
}

/// The collection of records as a multiset, forgetting the order in
/// which the walk emitted them.
pub open spec fn repo_views(rs: Seq<RepoData>) -> Multiset<RepoView>
    decreases rs.len(),
{
    if rs.len() == 0 {
        Multiset::empty()
    } else {
        repo_views(rs.drop_last()).insert(rs.last()@)
    }
}

/// The collection of paths as a multiset, forgetting the order in
/// which the walk reported them.
pub open spec fn path_views(ps: Seq<String>) -> Multiset<Seq<char>>
    decreases ps.len(),
{
    if ps.len() == 0 {
        Multiset::empty()
    } else {
        path_views(ps.drop_last()).insert(ps.last()@)
    }
}

/// Law: the collection a walk returns is exactly as large as the
/// sequence it was collected from. Together with `parse_directory`'s
/// contract, a scan of a tree holding N repositories returns exactly
/// N records — however the walk happened to order them, since
/// `found_in` is defined without any order.
pub proof fn lemma_repo_count(rs: Seq<RepoData>)
    ensures
        repo_views(rs).len() == rs.len(),
    decreases rs.len(),
{
    if rs.len() > 0 {
        lemma_repo_count(rs.drop_last());
    }
}

/// What a scan produced: the discovered records, and the paths of the
/// directories that were repositories but yielded no name. Both are
/// per-item outcomes; neither aborts a scan.
pub struct ScanOutcome {
    pub repos: Vec<RepoData>,
    pub name_errors: Vec<String>,
}

/// The path of the child `name` under the directory at `parent`.
fn join(parent: &str, name: &str) -> (r: String)
    ensures
        r@ == join_path(parent@, name@),
{
    let mut s = parent.to_owned();
    s.append("/");
    s.append(name);
    s
}

/// Walks the subtree `tree`, whose root stands at `root_path`, and
/// collects a record for every directory whose listing shows a `.git`
/// entry, named after the directory's own path component. Exactly the
/// repositories of the subtree are returned, in no particular order;
/// a repository whose path yields no name is reported in
/// `name_errors` instead. The walk never fails as a whole.
pub fn parse_directory(root_path: &str, tree: DirTree) -> (r: ScanOutcome)
    ensures
        repo_views(r.repos@) == found_in(tree, root_path@),
        path_views(r.name_errors@) == errs_in(tree, root_path@),
{
    let ghost total = found_in(tree, root_path@);
    let ghost etotal = errs_in(tree, root_path@);
    let mut repos: Vec<RepoData> = Vec::new();
    let mut name_errors: Vec<String> = Vec::new();
    let mut stack: Vec<(String, DirTree)> = Vec::new();
    stack.push((root_path.to_owned(), tree));
    proof {
        assert(stack@.drop_last() =~= Seq::<(String, DirTree)>::empty());
        assert(repos@ =~= Seq::<RepoData>::empty());
        assert(name_errors@ =~= Seq::<String>::empty());
        assert(repo_views(repos@) == Multiset::<RepoView>::empty());
        assert(path_views(name_errors@) == Multiset::<Seq<char>>::empty());
        assert(stack@.last().1 == tree);
        assert(stack@.last().0@ == root_path@);
        assert(found_in_stack(Seq::<(String, DirTree)>::empty()) == Multiset::<RepoView>::empty());
        assert(errs_in_stack(Seq::<(String, DirTree)>::empty()) == Multiset::<Seq<char>>::empty());
        assert(found_in_stack(stack@) =~= total);
        assert(errs_in_stack(stack@) =~= etotal);
        assert(repo_views(repos@).add(found_in_stack(stack@)) =~= total);
        assert(path_views(name_errors@).add(errs_in_stack(stack@)) =~= etotal);
    }
    while stack.len() > 0
        invariant
            repo_views(repos@).add(found_in_stack(stack@)) == total,
            path_views(name_errors@).add(errs_in_stack(stack@)) == etotal,
        decreases stack_size(stack@),
    {
        let ghost size_before = stack_size(stack@);
        let popped = stack.pop().unwrap();
        let path = popped.0;
        let mut d = popped.1;
        let ghost d0 = d;
        let ghost p0 = path@;
        let ghost repos_ms0 = repo_views(repos@);
        let ghost errors_ms0 = path_views(name_errors@);
        proof {
            assert(repos_ms0.add(found_in_stack(stack@)).add(found_in(d0, p0)) =~= total);
            assert(errors_ms0.add(errs_in_stack(stack@)).add(errs_in(d0, p0)) =~= etotal);
            assert(size_before == stack_size(stack@) + tree_size(d0));
        }
        if d.readable {
            let ghost stack_ms0 = found_in_stack(stack@);
            let ghost stack_es0 = errs_in_stack(stack@);
            let ghost stack_sz0 = stack_size(stack@);
            let ghost subdirs_ms0 = found_in_subdirs(d.subdirs@, p0);
            let ghost subdirs_es0 = errs_in_subdirs(d.subdirs@, p0);
            let ghost subdirs_sz0 = subdirs_size(d.subdirs@);
            // Queue every child directory for a later visit: the walk
            // keeps descending even into a directory that is itself a
            // repository.
            while d.subdirs.len() > 0
                invariant
                    d.entries == d0.entries,
                    path@ == p0,
                    found_in_stack(stack@).add(found_in_subdirs(d.subdirs@, p0)) == stack_ms0.add(
                        subdirs_ms0,
                    ),
                    errs_in_stack(stack@).add(errs_in_subdirs(d.subdirs@, p0)) == stack_es0.add(
                        subdirs_es0,
                    ),
                    stack_size(stack@) + subdirs_size(d.subdirs@) == stack_sz0 + subdirs_sz0,
                decreases d.subdirs.len(),
            {
                let ghost subdirs_before = d.subdirs@;
                let ghost stack_before = stack@;
                let sub = d.subdirs.pop().unwrap();
                let child_path = join(path.as_str(), sub.name.as_str());
                stack.push((child_path, sub));
                proof {
                    assert(stack@.drop_last() =~= stack_before);
                    assert(d.subdirs@ =~= subdirs_before.drop_last());
                    assert(found_in_stack(stack@).add(found_in_subdirs(d.subdirs@, p0))
                        =~= stack_ms0.add(subdirs_ms0));
                    assert(errs_in_stack(stack@).add(errs_in_subdirs(d.subdirs@, p0))
                        =~= stack_es0.add(subdirs_es0));
                    assert(stack_size(stack@) + subdirs_size(d.subdirs@) == stack_sz0
                        + subdirs_sz0);
                }
            }
            proof {
                assert(found_in_subdirs(d.subdirs@, p0) =~= Multiset::<RepoView>::empty());
                assert(errs_in_subdirs(d.subdirs@, p0) =~= Multiset::<Seq<char>>::empty());
                assert(found_in_stack(stack@) =~= stack_ms0.add(subdirs_ms0));
                assert(errs_in_stack(stack@) =~= stack_es0.add(subdirs_es0));
                assert(stack_size(stack@) == stack_sz0 + subdirs_sz0);
                assert(found_in(d0, p0) == node_repo(d0, p0).add(subdirs_ms0));
                assert(errs_in(d0, p0) == node_name_err(d0, p0).add(subdirs_es0));
            }
            // Independently of the descent, classify this directory
            // itself.
            match validate_repo(&d.entries) {
                Ok(_) => {
                    match derive_name(path.as_str()) {
                        Some(n) => {
                            let ghost repos_before = repos@;
                            let record = RepoData { name: n, path };
                            proof {
                                assert(node_repo(d0, p0) =~= Multiset::singleton(record@));
                            }
                            repos.push(record);
                            proof {
                                assert(repos@.drop_last() =~= repos_before);
                                assert(repo_views(repos@) =~= repos_ms0.add(node_repo(d0, p0)));
                            }
                        },
                        None => {
                            let ghost errors_before = name_errors@;
                            proof {
                                assert(node_name_err(d0, p0) =~= Multiset::singleton(p0));
                            }
                            name_errors.push(path);
                            proof {
                                assert(name_errors@.drop_last() =~= errors_before);
                                assert(path_views(name_errors@) =~= errors_ms0.add(
                                    node_name_err(d0, p0),
                                ));
                            }
                        },
                    }
                },
                Err(_) => {
                    proof {
                        assert(node_repo(d0, p0) =~= Multiset::<RepoView>::empty());
                        assert(node_name_err(d0, p0) =~= Multiset::<Seq<char>>::empty());
                        assert(repo_views(repos@) =~= repos_ms0.add(node_repo(d0, p0)));
                        assert(path_views(name_errors@) =~= errors_ms0.add(node_name_err(d0, p0)));
                    }
                },
            }
            proof {
                assert(repo_views(repos@).add(found_in_stack(stack@)) =~= total);
                assert(path_views(name_errors@).add(errs_in_stack(stack@)) =~= etotal);
                assert(stack_size(stack@) < size_before);
            }
        } else {
            proof {
                assert(found_in(d0, p0) =~= Multiset::<RepoView>::empty());
                assert(errs_in(d0, p0) =~= Multiset::<Seq<char>>::empty());
                assert(repo_views(repos@).add(found_in_stack(stack@)) =~= total);
                assert(path_views(name_errors@).add(errs_in_stack(stack@)) =~= etotal);
                assert(stack_size(stack@) < size_before);
            }
        }
    }
    proof {
        assert(found_in_stack(stack@) =~= Multiset::<RepoView>::empty());
        assert(errs_in_stack(stack@) =~= Multiset::<Seq<char>>::empty());
        assert(repo_views(repos@) =~= total);
        assert(path_views(name_errors@) =~= etotal);
    }
    ScanOutcome { repos, name_errors }
}

} // verus!
