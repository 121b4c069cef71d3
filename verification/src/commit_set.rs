//! Sets of commits.
//!
//! A commit is known by its number in the commit graph. The sets themselves are the name sets of
//! the `dag` crate, in which the commit with number `c` goes by the name that spells `c` in bytes.

use vstd::prelude::*;

use dag::nameset::SyncNameSetQuery;

verus! {

/// The number of a commit in the commit graph.
pub type CommitId = usize;

/// `dag::Set`, an immutable set of vertex names.
#[verifier::external_type_specification]
#[verifier::external_body]
pub struct ExNameSet(dag::Set);

/// The commits whose names are in `set`.
pub uninterp spec fn commits_in(set: dag::Set) -> Set<usize>;

/// Whether `set` was made by `dag::Set::from_static_names` of commit names, or by set operations
/// on sets so made. All its names are then held in memory, and reading them does not fail.
pub uninterp spec fn is_numbered(set: dag::Set) -> bool;

/// Calls `dag::Set::from_static_names`: the set holds the names of the given commits and no others.
#[verifier::external_body]
fn names_of(commits: Vec<usize>) -> (r: dag::Set)
    ensures
        is_numbered(r),
        commits_in(r) == commits@.to_set(),
{
    dag::Set::from_static_names(
        commits.into_iter().map(|c| dag::Vertex::copy_from(&c.to_be_bytes())),
    )
}

/// Calls `dag::Set::union`: the result holds the names that are in either set.
#[verifier::external_body]
fn name_union(a: &dag::Set, b: &dag::Set) -> (r: dag::Set)
    requires
        is_numbered(*a),
        is_numbered(*b),
    ensures
        is_numbered(r),
        commits_in(r) == commits_in(*a).union(commits_in(*b)),
{
    a.union(b)
}

/// Calls `dag::Set::intersection`: the result holds the names that are in both sets.
#[verifier::external_body]
fn name_intersection(a: &dag::Set, b: &dag::Set) -> (r: dag::Set)
    requires
        is_numbered(*a),
        is_numbered(*b),
    ensures
        is_numbered(r),
        commits_in(r) == commits_in(*a).intersect(commits_in(*b)),
{
    a.intersection(b)
}

/// Calls `dag::Set::difference`: the result holds the names in `a` that are not in `b`.
#[verifier::external_body]
fn name_difference(a: &dag::Set, b: &dag::Set) -> (r: dag::Set)
    requires
        is_numbered(*a),
        is_numbered(*b),
    ensures
        is_numbered(r),
        commits_in(r) == commits_in(*a).difference(commits_in(*b)),
{
    a.difference(b)
}

/// Calls `contains` of `dag::nameset::SyncNameSetQuery`: tells whether the commit's name is in the
/// set.
#[verifier::external_body]
fn name_contains(set: &dag::Set, commit: usize) -> (r: bool)
    requires
        is_numbered(*set),
    ensures
        r == commits_in(*set).contains(commit),
{
    set.contains(&dag::Vertex::copy_from(&commit.to_be_bytes())).expect("names are in memory")
}

/// Calls `iter` of `dag::nameset::SyncNameSetQuery`: hands out the name of every commit in the set
/// once, and no other name. Nothing is claimed of the order.
#[verifier::external_body]
fn name_list(set: &dag::Set) -> (r: Vec<usize>)
    requires
        is_numbered(*set),
    ensures
        r@.to_set() == commits_in(*set),
        r@.no_duplicates(),
{
    let mut commits: Vec<usize> = Vec::new();
    for name in set.iter().expect("names are in memory") {
        let name = name.expect("names are in memory");
        commits.push(usize::from_be_bytes(name.as_ref().try_into().expect("a commit name")));
    }
    commits
}

/// A set of commits.
pub struct CommitSet {
    names: dag::Set,
}

impl View for CommitSet {
    type V = Set<usize>;

    closed spec fn view(&self) -> Set<usize> {
        commits_in(self.names)
    }
}

impl CommitSet {
    #[verifier::type_invariant]
    spec fn numbered(self) -> bool {
        is_numbered(self.names)
    }

    /// The set of the given commits.
    pub fn from_commits(commits: Vec<CommitId>) -> (r: CommitSet)
        ensures
            r@ == commits@.to_set(),
    {
        CommitSet { names: names_of(commits) }
    }

    /// The set without commits.
    pub fn empty() -> (r: CommitSet)
        ensures
            r@ == Set::<usize>::empty(),
    {
        let none: Vec<CommitId> = Vec::new();
        assert(none@.to_set() =~= Set::<usize>::empty());
        CommitSet { names: names_of(none) }
    }

    /// The set of one commit.
    pub fn from_commit(commit: CommitId) -> (r: CommitSet)
        ensures
            r@ == set![commit],
    {
        let mut commits: Vec<CommitId> = Vec::new();
        commits.push(commit);
        assert(commits@.to_set() =~= set![commit]) by {
            assert(commits@[0] == commit);
        }
        CommitSet { names: names_of(commits) }
    }

    /// The commits that are in either set.
    pub fn union(&self, other: &CommitSet) -> (r: CommitSet)
        ensures
            r@ == self@.union(other@),
    {
        proof {
            use_type_invariant(self);
            use_type_invariant(other);
        }
        CommitSet { names: name_union(&self.names, &other.names) }
    }

    /// The commits that are in both sets.
    pub fn intersection(&self, other: &CommitSet) -> (r: CommitSet)
        ensures
            r@ == self@.intersect(other@),
    {
        proof {
            use_type_invariant(self);
            use_type_invariant(other);
        }
        CommitSet { names: name_intersection(&self.names, &other.names) }
    }

    /// The commits that are in this set and not in the other.
    pub fn difference(&self, other: &CommitSet) -> (r: CommitSet)
        ensures
            r@ == self@.difference(other@),
    {
        proof {
            use_type_invariant(self);
            use_type_invariant(other);
        }
        CommitSet { names: name_difference(&self.names, &other.names) }
    }

    /// Whether the commit is in the set.
    pub fn contains(&self, commit: CommitId) -> (r: bool)
        ensures
            r == self@.contains(commit),
    {
        proof {
            use_type_invariant(self);
        }
        name_contains(&self.names, commit)
    }

    /// The commits of the set, each once, in no particular order.
    pub fn to_vec(&self) -> (r: Vec<CommitId>)
        ensures
            r@.to_set() == self@,
            r@.no_duplicates(),
    {
        proof {
            use_type_invariant(self);
        }
        name_list(&self.names)
    }
}

/// The commits that are in one of the first `k` sets.
pub open spec fn union_of_first(sets: Seq<CommitSet>, k: int) -> Set<usize> {
    Set::new(|c: usize| exists|i: int| 0 <= i < k && (#[trigger] sets[i])@.contains(c))
}

/// The commits that are in one of the sets.
pub open spec fn union_of(sets: Seq<CommitSet>) -> Set<usize> {
    union_of_first(sets, sets.len() as int)
}

/// Appends the commits of the set, in no particular order.
pub(crate) fn append_commits(commits: &mut Vec<CommitId>, set: &CommitSet)
    ensures
        final(commits)@.to_set() == old(commits)@.to_set().union(set@),
{
    let ghost before = commits@;
    let mut more = set.to_vec();
    let ghost added = more@;
    commits.append(&mut more);
    proof {
        let all = before + added;
        assert forall|c: usize|
            all.to_set().contains(c) <==> before.to_set().union(set@).contains(c) by {
            if before.contains(c) {
                let i = choose|i: int| 0 <= i < before.len() && before[i] == c;
                assert(all[i] == c);
            }
            if set@.contains(c) {
                assert(added.to_set().contains(c));
                let i = choose|i: int| 0 <= i < added.len() && added[i] == c;
                assert(all[before.len() + i] == c);
            }
            if all.contains(c) {
                let i = choose|i: int| 0 <= i < all.len() && all[i] == c;
                if i >= before.len() {
                    assert(added[i - before.len()] == c);
                    assert(added.to_set().contains(c));
                } else {
                    assert(before[i] == c);
                }
            }
        }
        assert(all.to_set() =~= before.to_set().union(set@));
    }
}

/// The commits that are in one of the sets.
pub fn union_all(sets: &Vec<CommitSet>) -> (r: CommitSet)
    ensures
        r@ == union_of(sets@),
{
    let mut commits: Vec<CommitId> = Vec::new();
    assert(commits@.to_set() =~= union_of_first(sets@, 0));
    for i in 0..sets.len()
        invariant
            commits@.to_set() == union_of_first(sets@, i as int),
    {
        append_commits(&mut commits, &sets[i]);
        assert(union_of_first(sets@, i as int).union(sets@[i as int]@) =~= union_of_first(
            sets@,
            i + 1,
        ));
    }
    CommitSet::from_commits(commits)
}

} // verus!
