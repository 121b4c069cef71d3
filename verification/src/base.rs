//! From a commit on a branch to the commit at which the branch begins.

use vstd::prelude::*;

use crate::commit_set::{CommitId, CommitSet};
use crate::graph::{
    ancestors_of, children_of, first_of, gca_of, is_ancestor, is_parent,
    lemma_ancestor_is_older, lemma_ancestor_transitive, lemma_ancestors_of_one,
    lemma_child_towards, lemma_first_of, lemma_parent_is_ancestor, lemma_root_above,
    parents_come_first, range_of, roots_of, CommitGraph, Parents,
};

verus! {

/// The commits at which the branch of `commit` may begin: those that follow the merge base on the
/// way to `commit` or, where there is no merge base, the oldest ancestors of `commit`.
pub open spec fn branch_starts(g: Parents, merge_base: Option<usize>, commit: usize) -> Set<usize> {
    match merge_base {
        Some(merge_base) => {
            let range = range_of(g, set![merge_base], set![commit]);
            children_of(g, roots_of(g, range)).intersect(range)
        },
        None => roots_of(g, ancestors_of(g, set![commit])),
    }
}

/// The newest commit at which the branch of `commit` may begin, or `commit` itself when there is
/// none.
pub open spec fn base_commit_of(g: Parents, merge_base: Option<usize>, commit: usize) -> usize {
    match first_of(g, branch_starts(g, merge_base, commit)) {
        Some(base) => base,
        None => commit,
    }
}

/// The commit at which the branch of `commit` begins, seen from the merge base.
pub fn resolve_base_commit(
    graph: &CommitGraph,
    merge_base: Option<CommitId>,
    commit: CommitId,
) -> (r: CommitId)
    ensures
        r == base_commit_of(graph@, merge_base, commit),
{
    let bases = match merge_base {
        Some(merge_base) => {
            let range = graph.query_range(
                &CommitSet::from_commit(merge_base),
                &CommitSet::from_commit(commit),
            );
            let roots = graph.query_roots(&range);
            graph.query_children(&roots).intersection(&range)
        },
        None => {
            let ancestors = graph.query_ancestors(&CommitSet::from_commit(commit));
            graph.query_roots(&ancestors)
        },
    };
    match graph.set_first(&bases) {
        Some(base) => base,
        None => commit,
    }
}

/// The range from a commit to one of its descendants has that commit as its only root.
proof fn lemma_root_of_range(g: Parents, m: usize, c: usize)
    requires
        parents_come_first(g),
        is_ancestor(g, m, c),
    ensures
        roots_of(g, range_of(g, set![m], set![c])) == set![m],
{
    let range = range_of(g, set![m], set![c]);
    lemma_ancestor_is_older(g, m, c);
    assert(is_ancestor(g, m, m));
    assert forall|x: usize| roots_of(g, range).contains(x) <==> set![m].contains(x) by {
        lemma_ancestors_of_one(g, x, c);
        lemma_ancestors_of_one(g, m, x);
        if x == m {
            assert(range.contains(m));
            if children_of(g, range).contains(m) {
                let p = choose|p: usize| range.contains(p) && #[trigger] is_parent(g, p, m);
                lemma_parent_is_ancestor(g, p, m);
                lemma_ancestors_of_one(g, m, p);
                lemma_ancestor_is_older(g, m, p);
            }
        } else if range.contains(x) {
            let p = choose|p: usize| p < x && #[trigger] is_parent(g, p, x) && is_ancestor(g, m, p);
            lemma_parent_is_ancestor(g, p, x);
            lemma_ancestor_transitive(g, p, x, c);
            lemma_ancestors_of_one(g, p, c);
            lemma_ancestors_of_one(g, m, p);
            assert(range.contains(p));
            assert(children_of(g, range).contains(x));
        }
    }
    assert(roots_of(g, range) =~= set![m]);
}

/// Below a merge base, a branch may begin at the children of the merge base from which the commit
/// descends.
proof fn lemma_branch_start(g: Parents, m: usize, commit: usize, x: usize)
    requires
        parents_come_first(g),
        is_ancestor(g, m, commit),
    ensures
        branch_starts(g, Some(m), commit).contains(x) <==> is_parent(g, m, x) && is_ancestor(
            g,
            x,
            commit,
        ),
{
    let range = range_of(g, set![m], set![commit]);
    let roots = roots_of(g, range);
    assert(forall|r: usize| #[trigger] roots.contains(r) <==> r == m) by {
        lemma_root_of_range(g, m, commit);
    }
    assert(range.contains(x) <==> is_ancestor(g, m, x) && is_ancestor(g, x, commit)) by {
        lemma_ancestors_of_one(g, x, commit);
        lemma_ancestors_of_one(g, m, x);
    }
    assert(children_of(g, roots).contains(x) <==> is_parent(g, m, x)) by {
        assert(roots.contains(m));
    }
    if is_parent(g, m, x) {
        lemma_parent_is_ancestor(g, m, x);
    }
}

/// With a merge base above it, a branch begins at the newest child of the merge base from which
/// the commit descends. When the commit is the merge base, it is its own base.
pub proof fn law_base_follows_merge_base(g: Parents, merge_base: usize, commit: usize)
    requires
        parents_come_first(g),
        g.len() <= usize::MAX,
        is_ancestor(g, merge_base, commit),
    ensures
        merge_base == commit ==> base_commit_of(g, Some(merge_base), commit) == commit,
        merge_base != commit ==> {
            let base = base_commit_of(g, Some(merge_base), commit);
            &&& is_parent(g, merge_base, base)
            &&& is_ancestor(g, base, commit)
            &&& forall|other: usize|
                #[trigger] is_parent(g, merge_base, other) && is_ancestor(g, other, commit)
                    ==> other <= base
        },
{
    let starts = branch_starts(g, Some(merge_base), commit);
    lemma_first_of(g, starts);
    if merge_base == commit {
        if first_of(g, starts) is Some {
            let x = first_of(g, starts)->0;
            lemma_branch_start(g, merge_base, commit, x);
            lemma_parent_is_ancestor(g, merge_base, x);
            lemma_ancestor_is_older(g, x, commit);
        }
    } else {
        let k = lemma_child_towards(g, merge_base, commit);
        lemma_ancestor_is_older(g, k, commit);
        lemma_branch_start(g, merge_base, commit, k);
        let base = base_commit_of(g, Some(merge_base), commit);
        lemma_branch_start(g, merge_base, commit, base);
        assert forall|other: usize|
            #[trigger] is_parent(g, merge_base, other) && is_ancestor(
                g,
                other,
                commit,
            ) implies other <= base by {
            lemma_ancestor_is_older(g, other, commit);
            lemma_branch_start(g, merge_base, commit, other);
        }
    }
}

/// Without a merge base, a branch begins at an ancestor that has no parents.
pub proof fn law_base_without_merge_base(g: Parents, commit: usize)
    requires
        parents_come_first(g),
        g.len() <= usize::MAX,
        commit < g.len(),
    ensures
        is_ancestor(g, base_commit_of(g, None, commit), commit),
        g[base_commit_of(g, None, commit) as int].len() == 0,
{
    let above = ancestors_of(g, set![commit]);
    assert(is_ancestor(g, commit, commit));
    lemma_ancestors_of_one(g, commit, commit);
    let r = lemma_root_above(g, above, commit);
    lemma_first_of(g, roots_of(g, above));
    let base = base_commit_of(g, None, commit);
    assert(roots_of(g, above).contains(r));
    assert(roots_of(g, above).contains(base));
    lemma_ancestors_of_one(g, base, commit);
    if g[base as int].len() > 0 {
        let p = g[base as int][0];
        assert(is_parent(g, p, base));
        lemma_parent_is_ancestor(g, p, base);
        lemma_ancestor_transitive(g, p, base, commit);
        lemma_ancestors_of_one(g, p, commit);
        assert(children_of(g, above).contains(base));
    }
}

/// Among several such ancestors it is the newest, and a commit that is not on the merge base, or
/// not in the graph, is its own base.
pub proof fn law_base_is_the_newest_start(g: Parents, commit: usize)
    requires
        parents_come_first(g),
        g.len() <= usize::MAX,
    ensures
        forall|x: usize|
            #[trigger] is_ancestor(g, x, commit) && (forall|p: usize| !#[trigger] is_parent(g, p, x))
                ==> x <= base_commit_of(g, None, commit),
        forall|m: usize|
            !is_ancestor(g, m, commit) ==> #[trigger] base_commit_of(g, Some(m), commit) == commit,
        commit >= g.len() ==> base_commit_of(g, None, commit) == commit,
{
    let above = ancestors_of(g, set![commit]);
    lemma_first_of(g, roots_of(g, above));
    assert forall|x: usize|
        #[trigger] is_ancestor(g, x, commit) && (forall|p: usize|
            !#[trigger] is_parent(g, p, x)) implies x <= base_commit_of(g, None, commit) by {
        lemma_ancestor_is_older(g, x, commit);
        lemma_ancestors_of_one(g, x, commit);
        assert(roots_of(g, above).contains(x));
    }
    assert forall|m: usize| !is_ancestor(g, m, commit) implies #[trigger] base_commit_of(
        g,
        Some(m),
        commit,
    ) == commit by {
        let starts = branch_starts(g, Some(m), commit);
        lemma_first_of(g, starts);
        if let Some(x) = first_of(g, starts) {
            lemma_ancestors_of_one(g, x, commit);
            lemma_ancestors_of_one(g, m, x);
            lemma_ancestor_transitive(g, m, x, commit);
        }
    }
    if commit >= g.len() {
        if let Some(x) = first_of(g, roots_of(g, above)) {
            lemma_ancestors_of_one(g, x, commit);
            lemma_ancestor_is_older(g, x, commit);
        }
    }
}

/// Moving a branch onto a destination never moves what the destination already has: the base of a
/// commit is no ancestor of the destination, unless the commit itself is one, and then it is its
/// own base. In any case the commit descends from its base.
pub proof fn law_base_is_off_the_destination(g: Parents, commit: usize, dest: usize)
    requires
        parents_come_first(g),
        g.len() <= usize::MAX,
        commit < g.len(),
        dest < g.len(),
    ensures
        ({
            let base = base_commit_of(g, gca_of(g, commit, dest), commit);
            &&& is_ancestor(g, base, commit)
            &&& is_ancestor(g, commit, dest) ==> base == commit
            &&& !is_ancestor(g, commit, dest) ==> !is_ancestor(g, base, dest)
        }),
{
    let common = ancestors_of(g, set![commit]).intersect(ancestors_of(g, set![dest]));
    let base = base_commit_of(g, gca_of(g, commit, dest), commit);
    lemma_first_of(g, common);
    assert forall|x: usize|
        common.contains(x) <==> is_ancestor(g, x, commit) && is_ancestor(g, x, dest) by {
        lemma_ancestors_of_one(g, x, commit);
        lemma_ancestors_of_one(g, x, dest);
    }
    assert(is_ancestor(g, commit, commit));
    match gca_of(g, commit, dest) {
        Some(m) => {
            assert(common.contains(m));
            lemma_ancestor_is_older(g, m, commit);
            law_base_follows_merge_base(g, m, commit);
            if is_ancestor(g, commit, dest) {
                assert(common.contains(commit));
            } else if is_ancestor(g, base, dest) {
                assert(m != commit);
                assert(common.contains(base));
                lemma_ancestor_is_older(g, base, commit);
                lemma_parent_is_ancestor(g, m, base);
            }
        },
        None => {
            law_base_without_merge_base(g, commit);
            lemma_ancestor_is_older(g, base, commit);
            assert(!common.contains(commit));
            assert(!common.contains(base));
        },
    }
}

} // verus!
