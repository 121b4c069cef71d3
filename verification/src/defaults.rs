//! What stands in for arguments that are left out.

use vstd::prelude::*;

use crate::base::{
    base_commit_of, law_base_follows_merge_base, law_base_is_off_the_destination,
    law_base_without_merge_base,
};
use crate::commit_set::{union_of, CommitSet};
use crate::graph::{
    ancestors_of, gca_of, is_ancestor, is_parent, lemma_ancestor_is_older,
    lemma_ancestor_transitive, lemma_ancestors_of_one, lemma_first_of, lemma_newest_first,
    lemma_parent_is_ancestor, list_of, parents_come_first, Parents,
};
use crate::outcome::{is_base_redundant, is_dest_redundant, GivenArguments};
use crate::selection::{branch_bases, selection_of, MoveArguments};

verus! {

/// Whether the list of an argument was resolved and is empty.
pub open spec fn is_left_out(sets: Option<Vec<CommitSet>>) -> bool {
    sets is Some && sets->0@.len() == 0
}

/// The newest common ancestor of a commit and the destination is above both and not older than
/// any other common ancestor.
proof fn lemma_gca(g: Parents, a: usize, b: usize)
    requires
        g.len() <= usize::MAX,
    ensures
        gca_of(g, a, b) matches Some(m) ==> is_ancestor(g, m, a) && is_ancestor(g, m, b),
        forall|x: usize|
            #[trigger] is_ancestor(g, x, a) && is_ancestor(g, x, b) ==> gca_of(g, a, b) is Some
                && x <= gca_of(g, a, b)->0,
{
    let common = ancestors_of(g, set![a]).intersect(ancestors_of(g, set![b]));
    lemma_first_of(g, common);
    if let Some(m) = gca_of(g, a, b) {
        lemma_ancestors_of_one(g, m, a);
        lemma_ancestors_of_one(g, m, b);
    }
    assert forall|x: usize| #[trigger] is_ancestor(g, x, a) && is_ancestor(g, x, b) implies gca_of(
        g,
        a,
        b,
    ) is Some && x <= gca_of(g, a, b)->0 by {
        lemma_ancestor_is_older(g, x, a);
        lemma_ancestors_of_one(g, x, a);
        lemma_ancestors_of_one(g, x, b);
        assert(common.contains(x));
    }
}

/// A branch begins at the commit at which it begins: the base of a base is itself.
pub proof fn law_base_is_its_own_base(g: Parents, commit: usize, dest: usize)
    requires
        parents_come_first(g),
        g.len() <= usize::MAX,
        commit < g.len(),
        dest < g.len(),
    ensures
        ({
            let base = base_commit_of(g, gca_of(g, commit, dest), commit);
            base_commit_of(g, gca_of(g, base, dest), base) == base
        }),
{
    let base = base_commit_of(g, gca_of(g, commit, dest), commit);
    law_base_is_off_the_destination(g, commit, dest);
    lemma_ancestor_is_older(g, base, commit);
    lemma_gca(g, commit, dest);
    lemma_gca(g, base, dest);
    assert(is_ancestor(g, commit, commit) && is_ancestor(g, base, base));
    match gca_of(g, commit, dest) {
        Some(m) => {
            law_base_follows_merge_base(g, m, commit);
            if m != commit {
                lemma_parent_is_ancestor(g, m, base);
                let n = gca_of(g, base, dest)->0;
                assert(is_ancestor(g, m, base) && is_ancestor(g, m, dest));
                assert(is_ancestor(g, n, base) && is_ancestor(g, n, dest));
                lemma_ancestor_transitive(g, n, base, commit);
                assert(n == m);
                law_base_follows_merge_base(g, m, base);
                let again = base_commit_of(g, Some(m), base);
                assert(is_parent(g, m, base) && is_ancestor(g, base, base));
                lemma_ancestor_is_older(g, again, base);
            }
        },
        None => {
            if let Some(n) = gca_of(g, base, dest) {
                lemma_ancestor_transitive(g, n, base, commit);
            }
            law_base_without_merge_base(g, commit);
            law_base_without_merge_base(g, base);
            let again = base_commit_of(g, None, base);
            if again != base {
                let p = choose|p: usize|
                    p < base && #[trigger] is_parent(g, p, base) && is_ancestor(g, again, p);
            }
        },
    }
}

/// Where nothing is given to move, the branch of HEAD is moved, as if `--base` had been given with
/// HEAD.
pub proof fn law_default_is_the_branch_of_head(
    g: Parents,
    without: MoveArguments,
    with: MoveArguments,
    dest_revset: Seq<char>,
)
    requires
        without.head is Some,
        is_left_out(without.sources) && is_left_out(without.bases) && is_left_out(without.exacts),
        with.sources == without.sources,
        with.exacts == without.exacts,
        with.head == without.head,
        with.dest == without.dest,
        with.bases is Some,
        with.bases->0@.len() > 0,
        union_of(with.bases->0@) == set![without.head->0],
    ensures
        selection_of(g, with, dest_revset) == selection_of(g, without, dest_revset),
{
}

/// The hint on `--base` is right: where it is given and nothing else stands for what to move, the
/// same is selected when `--base` is left out.
pub proof fn law_redundant_base_can_be_left_out(
    g: Parents,
    given: GivenArguments,
    with: MoveArguments,
    without: MoveArguments,
    dest_revset: Seq<char>,
)
    requires
        parents_come_first(g),
        g.len() <= usize::MAX,
        with.known_in(g),
        is_left_out(with.sources) && is_left_out(with.exacts),
        with.bases is Some,
        with.bases->0@.len() > 0,
        with.head is Some,
        selection_of(g, with, dest_revset) is Ok,
        is_base_redundant(g, given, with.head->0, selection_of(g, with, dest_revset)->Ok_0),
        is_left_out(without.bases),
        without.sources == with.sources,
        without.exacts == with.exacts,
        without.head == with.head,
        without.dest == with.dest,
    ensures
        selection_of(g, without, dest_revset) == selection_of(g, with, dest_revset),
{
    let selection = selection_of(g, with, dest_revset)->Ok_0;
    let head = with.head->0;
    let dest = selection.dest;
    let named = union_of(with.bases->0@);
    let targets = list_of(g, with.dest->0@);
    lemma_newest_first(with.dest->0@, g.len() as int);
    assert(targets.contains(targets[0]));
    assert(selection.bases == branch_bases(g, named, dest));
    let c = choose|c: usize|
        c < g.len() && #[trigger] named.contains(c) && head == base_commit_of(
            g,
            gca_of(g, c, dest),
            c,
        );
    law_base_is_its_own_base(g, c, dest);
    let bases = list_of(g, selection.bases);
    lemma_newest_first(selection.bases, g.len() as int);
    assert(bases.contains(head));
    assert forall|b: usize| selection.bases.contains(b) implies b == head by {
        let d = choose|d: usize|
            d < g.len() && #[trigger] named.contains(d) && b == base_commit_of(
                g,
                gca_of(g, d, dest),
                d,
            );
        law_base_is_off_the_destination(g, d, dest);
        lemma_ancestor_is_older(g, b, d);
        assert(bases.contains(b));
    }
    let alone = branch_bases(g, set![head], dest);
    assert(set![head].contains(head));
    assert(alone.contains(head));
    assert(alone =~= selection.bases);
}

/// The hint on `--dest` is right: where it is HEAD, the same is selected when HEAD stands in for
/// it, whatever name HEAD goes by.
pub proof fn law_redundant_dest_can_be_left_out(
    g: Parents,
    given: GivenArguments,
    with: MoveArguments,
    without: MoveArguments,
    dest_revset: Seq<char>,
    head_name: Seq<char>,
)
    requires
        g.len() <= usize::MAX,
        with.known_in(g),
        with.head is Some,
        selection_of(g, with, dest_revset) is Ok,
        is_dest_redundant(given, with.head->0, selection_of(g, with, dest_revset)->Ok_0),
        without.dest is Some,
        without.dest->0@ == set![with.head->0],
        without.sources == with.sources,
        without.bases == with.bases,
        without.exacts == with.exacts,
        without.head == with.head,
    ensures
        selection_of(g, without, head_name) == selection_of(g, with, dest_revset),
{
    let head = with.head->0;
    let set = with.dest->0@;
    let targets = list_of(g, set);
    lemma_newest_first(set, g.len() as int);
    assert forall|c: usize| set.contains(c) <==> c == head by {
        assert(targets.contains(targets[0]));
        if set.contains(c) {
            assert(targets.contains(c));
        }
    }
    assert(set =~= set![head]);
}

} // verus!
