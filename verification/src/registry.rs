//! The repository registry: a mapping from alias to repository record
//! with unique aliases.
//!
//! The registry is viewed as a mathematical map from alias to path.
//! `add_repo` refuses an alias that is already present, `remove_repo`
//! refuses one that is absent, and `get_repo` is a plain lookup.

use vstd::prelude::*;

use crate::err::{RepoAlreadyExistsError, RepoDoesNotExistError};
use crate::repo::{RepoData, RepoView};

verus! {

/// The map that a sequence of records denotes: each record's alias
/// maps to its path, later records overriding earlier ones.
pub open spec fn map_of(s: Seq<RepoView>) -> Map<Seq<char>, Seq<char>>
    decreases s.len(),
{
    if s.len() == 0 {
        Map::empty()
    } else {
        map_of(s.drop_last()).insert(s.last().name, s.last().path)
    }
}

/// Whether no two records in `s` share an alias.
pub open spec fn distinct_names(s: Seq<RepoView>) -> bool {
    forall|i: int, j: int| 0 <= i < j < s.len() ==> s[i].name != s[j].name
}

/// An alias is a key of `map_of(s)` exactly when some record in `s`
/// carries it.
pub proof fn lemma_map_of_contains(s: Seq<RepoView>, k: Seq<char>)
    ensures
        map_of(s).contains_key(k) <==> exists|i: int| 0 <= i < s.len() && s[i].name == k,
    decreases s.len(),
{
    if s.len() > 0 {
        lemma_map_of_contains(s.drop_last(), k);
        if s.last().name == k {
            assert(s[s.len() - 1].name == k);
        } else {
            if map_of(s).contains_key(k) {
                let i = choose|i: int| 0 <= i < s.drop_last().len() && s.drop_last()[i].name == k;
                assert(s[i].name == k);
            }
            if exists|i: int| 0 <= i < s.len() && s[i].name == k {
                let i = choose|i: int| 0 <= i < s.len() && s[i].name == k;
                assert(s.drop_last()[i].name == k);
            }
        }
    }
}

/// Under distinct aliases, the map takes each record's alias to that
/// record's path.
pub proof fn lemma_map_of_get(s: Seq<RepoView>, i: int)
    requires
        distinct_names(s),
        0 <= i < s.len(),
    ensures
        map_of(s).contains_key(s[i].name),
        map_of(s)[s[i].name] == s[i].path,
    decreases s.len(),
{
    if i < s.len() - 1 {
        lemma_map_of_get(s.drop_last(), i);
        assert(s.drop_last()[i] == s[i]);
    }
}

/// Removing record `i` from a duplicate-free sequence removes exactly
/// its alias from the denoted map.
pub proof fn lemma_map_of_remove(s: Seq<RepoView>, i: int)
    requires
        distinct_names(s),
        0 <= i < s.len(),
    ensures
        map_of(s.remove(i)) == map_of(s).remove(s[i].name),
    decreases s.len(),
{
    if i == s.len() - 1 {
        assert(s.remove(i) =~= s.drop_last());
        lemma_map_of_contains(s.drop_last(), s[i].name);
        assert(forall|j: int| 0 <= j < s.len() - 1 ==> s.drop_last()[j] == s[j]);
        assert(!map_of(s.drop_last()).contains_key(s[i].name));
        assert(map_of(s.remove(i)) =~= map_of(s).remove(s[i].name));
    } else {
        assert(forall|j: int| 0 <= j < s.len() - 1 ==> s.drop_last()[j] == s[j]);
        lemma_map_of_remove(s.drop_last(), i);
        assert(s.remove(i).drop_last() =~= s.drop_last().remove(i));
        assert(s.remove(i).last() == s.last());
        assert(map_of(s.remove(i)) == map_of(s.drop_last().remove(i)).insert(
            s.last().name,
            s.last().path,
        ));
        assert(s.last().name != s[i].name);
        assert(map_of(s.remove(i)) =~= map_of(s).remove(s[i].name));
    }
}

/// Law: once an alias is added, looking it up yields the just-added
/// record's path. An `add_repo` that returns `Ok` leaves the registry
/// at `old(self)@.insert(name, path)`, and `get_repo` reads the map,
/// so the lookup right after the add returns exactly the added record;
/// a second add under the same alias fails by `add_repo`'s contract
/// and leaves the registry — and so the first record — unchanged.
pub proof fn lemma_add_then_get(m: Map<Seq<char>, Seq<char>>, name: Seq<char>, path: Seq<char>)
    ensures
        m.insert(name, path).contains_key(name),
        m.insert(name, path)[name] == path,
{
}

/// Law: once an alias is removed, looking it up finds nothing. A
/// `remove_repo` that returns `Ok` leaves the registry at
/// `old(self)@.remove(name)`, so a `get_repo` of that alias afterwards
/// returns `None`; removing an absent alias fails by `remove_repo`'s
/// contract and leaves the registry unchanged.
pub proof fn lemma_remove_then_get(m: Map<Seq<char>, Seq<char>>, name: Seq<char>)
    ensures
        !m.remove(name).contains_key(name),
{
}

/// The registry of tracked repositories, persisted as a whole between
/// invocations. Aliases are unique; each alias maps to a record whose
/// name is that alias.
#[derive(Debug)]
pub struct GitFindrConfig {
    pub repos: Vec<RepoData>,
}

impl View for GitFindrConfig {
    type V = Map<Seq<char>, Seq<char>>;

    open spec fn view(&self) -> Map<Seq<char>, Seq<char>> {
        map_of(self.records())
    }
}

impl GitFindrConfig {
    /// The sequence of record views the registry holds.
    pub open spec fn records(&self) -> Seq<RepoView> {
        self.repos@.map_values(|r: RepoData| r@)
    }

    /// Well-formed: no two records share an alias.
    pub open spec fn wf(&self) -> bool {
        distinct_names(self.records())
    }

    /// The index of the record carrying `name`, if any.
    fn position_of(&self, name: &str) -> (r: Option<usize>)
        ensures
            match r {
                Some(i) => i < self.records().len() && self.records()[i as int].name == name@,
                None => forall|i: int|
                    0 <= i < self.records().len() ==> self.records()[i].name != name@,
            },
    {
        let target: String = name.to_owned();
        let n = self.repos.len();
        let mut j: usize = 0;
        while j < n
            invariant
                j <= n == self.repos.len(),
                target@ == name@,
                forall|i: int| 0 <= i < j ==> self.records()[i].name != name@,
            decreases n - j,
        {
            if self.repos[j].name == target {
                return Some(j);
            }
            j = j + 1;
        }
        None
    }

    /// Adds a record under its own alias. Fails with
    /// `RepoAlreadyExistsError`, leaving the registry unchanged, exactly
    /// when the alias is already present; otherwise the alias now maps
    /// to the record's path and nothing else changes.
    pub fn add_repo(&mut self, repo: RepoData) -> (r: Result<(), RepoAlreadyExistsError>)
        requires
            old(self).wf(),
        ensures
            final(self).wf(),
            old(self)@.contains_key(repo@.name) ==> r is Err && *final(self) == *old(self),
            !old(self)@.contains_key(repo@.name) ==> r is Ok && final(self)@ == old(self)@.insert(
                repo@.name,
                repo@.path,
            ) && final(self).records() == old(self).records().push(repo@),
    {
        proof {
            lemma_map_of_contains(self.records(), repo@.name);
        }
        match self.position_of(repo.name.as_str()) {
            Some(_) => Err(RepoAlreadyExistsError),
            None => {
                let ghost before = self.records();
                self.repos.push(repo);
                proof {
                    assert(self.records() =~= before.push(repo@));
                    assert(self.records().drop_last() =~= before);
                }
                Ok(())
            },
        }
    }

    /// Removes the record under `name`. Fails with
    /// `RepoDoesNotExistError`, leaving the registry unchanged, exactly
    /// when the alias is absent; otherwise the alias disappears and
    /// nothing else changes.
    pub fn remove_repo(&mut self, name: &str) -> (r: Result<(), RepoDoesNotExistError>)
        requires
            old(self).wf(),
        ensures
            final(self).wf(),
            !old(self)@.contains_key(name@) ==> r is Err && *final(self) == *old(self),
            old(self)@.contains_key(name@) ==> r is Ok && final(self)@ == old(self)@.remove(name@),
    {
        proof {
            lemma_map_of_contains(self.records(), name@);
        }
        match self.position_of(name) {
            None => Err(RepoDoesNotExistError),
            Some(i) => {
                let ghost before = self.records();
                proof {
                    lemma_map_of_remove(before, i as int);
                }
                self.repos.remove(i);
                proof {
                    assert(self.records() =~= before.remove(i as int));
                    assert(forall|a: int, b: int|
                        0 <= a < b < self.records().len() ==> #[trigger] self.records()[a].name
                            != #[trigger] self.records()[b].name) by {
                        assert(forall|a: int|
                            0 <= a < self.records().len() ==> #[trigger] self.records()[a]
                                == if a < i { before[a] } else { before[a + 1] });
                    }
                }
                Ok(())
            },
        }
    }

    /// Looks the alias up. Returns the record under `name` exactly when
    /// the alias is present; absence is a normal outcome, not an error.
    pub fn get_repo(&self, name: &str) -> (r: Option<&RepoData>)
        requires
            self.wf(),
        ensures
            match r {
                Some(rd) => self@.contains_key(name@) && rd@.name == name@ && rd@.path
                    == self@[name@],
                None => !self@.contains_key(name@),
            },
    {
        proof {
            lemma_map_of_contains(self.records(), name@);
        }
        match self.position_of(name) {
            None => None,
            Some(i) => {
                proof {
                    lemma_map_of_get(self.records(), i as int);
                }
                Some(&self.repos[i])
            },
        }
    }

    /// Whether the registry holds no record at all.
    pub fn is_empty(&self) -> (r: bool)
        ensures
            r <==> self@ == Map::<Seq<char>, Seq<char>>::empty(),
    {
        proof {
            if self.repos.len() > 0 {
                assert(self@.contains_key(self.records().last().name));
            } else {
                assert(self.records() =~= Seq::<RepoView>::empty());
            }
        }
        self.repos.len() == 0
    }

    /// The records the registry holds, for listing. Every record's
    /// alias is a key mapping to that record's path, and every key is
    /// carried by some record.
    pub fn list(&self) -> (r: &Vec<RepoData>)
        requires
            self.wf(),
        ensures
            r@ == self.repos@,
            r@.len() == self.records().len(),
            forall|i: int|
                0 <= i < r@.len() ==> self@.contains_key(#[trigger] r@[i]@.name) && self@[r@[i]@.name]
                    == r@[i]@.path,
            forall|k: Seq<char>|
                self@.contains_key(k) ==> exists|i: int| 0 <= i < r@.len() && r@[i]@.name == k,
    {
        proof {
            assert forall|i: int| 0 <= i < self.records().len() implies self@.contains_key(
                #[trigger] self.records()[i].name,
            ) && self@[self.records()[i].name] == self.records()[i].path by {
                lemma_map_of_get(self.records(), i);
            }
            assert forall|k: Seq<char>| self@.contains_key(k) implies exists|i: int|
                0 <= i < self.records().len() && self.records()[i].name == k by {
                lemma_map_of_contains(self.records(), k);
            }
            assert(forall|i: int|
                0 <= i < self.repos@.len() ==> #[trigger] self.repos@[i]@ == self.records()[i]);
        }
        &self.repos
    }
}

impl Default for GitFindrConfig {
    /// The empty registry.
    fn default() -> (r: Self)
        ensures
            r.wf(),
            r@ == Map::<Seq<char>, Seq<char>>::empty(),
            r.records() == Seq::<RepoView>::empty(),
    {
        let cfg = GitFindrConfig { repos: Vec::new() };
        proof {
            assert(cfg.records() =~= Seq::<RepoView>::empty());
        }
        cfg
    }
}

} // verus!
