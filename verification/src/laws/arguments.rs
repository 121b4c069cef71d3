//! What is accepted, selected and asked permission for.

use vstd::prelude::*;

use crate::base::base_commit_of;
use crate::commit_set::{union_of, CommitSet};
use crate::components::components_of;
use crate::graph::{
    gca_of, is_parent, lemma_newest_first, lemma_parent_is_ancestor, list_of, parents_come_first,
    parents_of, roots_of, Parents,
};
use crate::message::{Argument, RefusalView};
use crate::plan::{commits_of_root, is_component_root};
use crate::selection::{
    branch_bases, checked_components, component_commits, component_fault, is_sound, lemma_checked_components,
    rewrite_set_of, selection_of, ComponentView, MoveArguments, SelectionView,
};

verus! {

/// The union of sets holds what one of them holds.
pub proof fn law_union_holds_all(sets: Seq<CommitSet>, c: usize)
    ensures
        union_of(sets).contains(c) <==> exists|i: int|
            0 <= i < sets.len() && (#[trigger] sets[i])@.contains(c),
{
}

/// The commits of components are those that one of them holds.
pub proof fn law_components_hold_their_commits(components: Seq<ComponentView>, c: usize)
    ensures
        component_commits(components).contains(c) <==> exists|i: int|
            0 <= i < components.len() && (#[trigger] components[i]).commits.contains(c),
{
}

/// A component goes by its root, and the commits of a root are those of the components that go by
/// it.
pub proof fn law_components_go_by_their_roots(
    components: Seq<ComponentView>,
    root: usize,
    c: usize,
)
    ensures
        is_component_root(components, root) <==> exists|i: int|
            0 <= i < components.len() && (#[trigger] components[i]).root == root,
        commits_of_root(components, root).contains(c) <==> exists|i: int|
            0 <= i < components.len() && (#[trigger] components[i]).root == root
                && components[i].commits.contains(c),
{
}

/// A list has length one when exactly one commit of the graph is in the set.
pub(crate) proof fn lemma_only_one(g: Parents, s: Set<usize>)
    requires
        g.len() <= usize::MAX,
    ensures
        list_of(g, s).len() == 1 <==> exists|r: usize|
            r < g.len() && #[trigger] s.contains(r) && forall|x: usize|
                x < g.len() && #[trigger] s.contains(x) ==> x == r,
        list_of(g, s).len() == 1 ==> list_of(g, s)[0] < g.len() && s.contains(list_of(g, s)[0]),
        forall|x: usize|
            list_of(g, s).len() == 1 && x < g.len() && #[trigger] s.contains(x) ==> x == list_of(
                g,
                s,
            )[0],
{
    let l = list_of(g, s);
    lemma_newest_first(s, g.len() as int);
    assert forall|x: usize| l.len() == 1 && x < g.len() && #[trigger] s.contains(x) implies x
        == l[0] by {
        assert(l.contains(x));
    }
    if l.len() == 1 {
        assert(l.contains(l[0]));
        assert(s.contains(l[0]));
    }
    if exists|r: usize|
        r < g.len() && #[trigger] s.contains(r) && forall|x: usize|
            x < g.len() && #[trigger] s.contains(x) ==> x == r {
        let r = choose|r: usize|
            r < g.len() && #[trigger] s.contains(r) && forall|x: usize|
                x < g.len() && #[trigger] s.contains(x) ==> x == r;
        assert(l.contains(r));
        if l.len() > 1 {
            assert(l.contains(l[0]) && l.contains(l[1]));
            assert(s.contains(l[0]) && s.contains(l[1]));
            assert(l[0] > l[1]);
        }
    }
}

/// Whether the commit is in the set and in the graph and has no parent in the set.
pub open spec fn is_root(g: Parents, s: Set<usize>, r: usize) -> bool {
    r < g.len() && s.contains(r) && forall|p: usize| #[trigger] is_parent(g, p, r) ==> !s.contains(p)
}

/// Whether the commit is the only root of the set.
pub open spec fn is_only_root(g: Parents, s: Set<usize>, r: usize) -> bool {
    is_root(g, s, r) && forall|x: usize| #[trigger] is_root(g, s, x) ==> x == r
}

/// Whether the commit has this parent and no other.
pub open spec fn is_only_parent(g: Parents, p: usize, c: usize) -> bool {
    is_parent(g, p, c) && forall|q: usize| #[trigger] is_parent(g, q, c) ==> q == p
}

/// Whether the set has exactly one root, and that root exactly one parent.
pub open spec fn has_one_root_and_parent(g: Parents, s: Set<usize>) -> bool {
    exists|r: usize, p: usize| #[trigger]
        is_only_root(g, s, r) && #[trigger] is_only_parent(g, p, r)
}

/// Roots in the list of the roots.
pub(crate) proof fn lemma_root_list(g: Parents, s: Set<usize>)
    requires
        g.len() <= usize::MAX,
    ensures
        forall|r: usize| #[trigger] roots_of(g, s).contains(r) <==> is_root(g, s, r),
        list_of(g, roots_of(g, s)).len() == 1 <==> exists|r: usize| #[trigger]
            is_only_root(g, s, r),
        forall|r: usize| #[trigger]
            is_only_root(g, s, r) ==> list_of(g, roots_of(g, s))[0] == r,
{
    let roots = roots_of(g, s);
    assert forall|r: usize| #[trigger] roots.contains(r) <==> is_root(g, s, r) by {
        if is_root(g, s, r) && !roots.contains(r) {
            let p = choose|p: usize| s.contains(p) && #[trigger] is_parent(g, p, r);
        }
    }
    lemma_only_one(g, roots);
    if list_of(g, roots).len() == 1 {
        let r = list_of(g, roots)[0];
        assert(roots.contains(r));
        assert forall|x: usize| #[trigger] is_root(g, s, x) implies x == r by {
            assert(roots.contains(x));
        }
        assert(is_only_root(g, s, r));
    }
    assert forall|r: usize| #[trigger] is_only_root(g, s, r) implies list_of(g, roots).len() == 1
        && list_of(g, roots)[0] == r by {
        assert(roots.contains(r));
    }
}

/// Parents in the list of the parents.
pub(crate) proof fn lemma_parent_list(g: Parents, c: usize)
    requires
        parents_come_first(g),
        g.len() <= usize::MAX,
    ensures
        forall|p: usize| #[trigger] parents_of(g, set![c]).contains(p) <==> is_parent(g, p, c),
        forall|p: usize| #[trigger]
            list_of(g, parents_of(g, set![c])).contains(p) <==> is_parent(g, p, c),
        list_of(g, parents_of(g, set![c])).len() == 1 <==> exists|p: usize| #[trigger]
            is_only_parent(g, p, c),
        forall|p: usize| #[trigger]
            is_only_parent(g, p, c) ==> list_of(g, parents_of(g, set![c]))[0] == p,
{
    let parents = parents_of(g, set![c]);
    assert(set![c].contains(c));
    assert forall|p: usize| #[trigger] parents.contains(p) <==> is_parent(g, p, c) by {}
    lemma_only_one(g, parents);
    lemma_newest_first(parents, g.len() as int);
    assert forall|p: usize| #[trigger] is_parent(g, p, c) implies p < g.len() by {
        lemma_parent_is_ancestor(g, p, c);
    }
    if list_of(g, parents).len() == 1 {
        let p = list_of(g, parents)[0];
        assert(parents.contains(p));
        assert forall|q: usize| #[trigger] is_parent(g, q, c) implies q == p by {
            assert(parents.contains(q));
        }
        assert(is_only_parent(g, p, c));
    }
    assert forall|p: usize| #[trigger] is_only_parent(g, p, c) implies list_of(g, parents).len()
        == 1 && list_of(g, parents)[0] == p by {
        assert(parents.contains(p));
        assert(p < g.len());
    }
}

/// A component without fault has one root, which has one parent.
proof fn lemma_faultless(g: Parents, s: Set<usize>)
    requires
        parents_come_first(g),
        g.len() <= usize::MAX,
    ensures
        component_fault(g, s) is None <==> has_one_root_and_parent(g, s),
{
    lemma_root_list(g, s);
    let l = list_of(g, roots_of(g, s));
    lemma_parent_list(g, l[0]);
    if component_fault(g, s) is None {
        let r = choose|r: usize| #[trigger] is_only_root(g, s, r);
        assert(l[0] == r);
        let p = choose|p: usize| #[trigger] is_only_parent(g, p, r);
        assert(is_only_root(g, s, r) && is_only_parent(g, p, r));
    }
}

/// The first fault is that of the first faulty component.
proof fn lemma_first_fault(g: Parents, components: Seq<Set<usize>>)
    ensures
        checked_components(g, components) is Ok <==> forall|i: int|
            0 <= i < components.len() ==> component_fault(g, #[trigger] components[i]) is None,
        checked_components(g, components) matches Err(refusal) ==> exists|k: int|
            0 <= k < components.len() && component_fault(g, #[trigger] components[k]) == Some(
                refusal,
            ) && forall|i: int|
                0 <= i < k ==> component_fault(g, #[trigger] components[i]) is None,
    decreases components.len(),
{
    if components.len() > 0 {
        let front = components.drop_last();
        lemma_first_fault(g, front);
        assert(forall|i: int| 0 <= i < front.len() ==> front[i] == #[trigger] components[i]);
        match checked_components(g, front) {
            Err(refusal) => {
                let k = choose|k: int|
                    0 <= k < front.len() && component_fault(g, #[trigger] front[k]) == Some(
                        refusal,
                    ) && forall|i: int|
                        0 <= i < k ==> component_fault(g, #[trigger] front[i]) is None;
                assert(front[k] == components[k]);
                assert forall|i: int| 0 <= i < k implies component_fault(
                    g,
                    #[trigger] components[i],
                ) is None by {
                    assert(front[i] == components[i]);
                }
                assert(component_fault(g, components[k]) == Some(refusal));
            },
            Ok(_) => {
                assert forall|i: int| 0 <= i < front.len() implies component_fault(
                    g,
                    #[trigger] components[i],
                ) is None by {
                    assert(front[i] == components[i]);
                }
                let last = components.len() - 1;
                assert(components[last] == components.last());
            },
        }
    }
}

/// What is given to be moved exactly is accepted if and only if each of its components has exactly
/// one root and that root has exactly one parent. However many heads a component has does not
/// matter. Each component then goes by its root.
pub proof fn law_accepted_when_one_root_and_one_parent(g: Parents, components: Seq<Set<usize>>)
    requires
        parents_come_first(g),
        g.len() <= usize::MAX,
    ensures
        checked_components(g, components) is Ok <==> forall|i: int|
            0 <= i < components.len() ==> has_one_root_and_parent(g, #[trigger] components[i]),
        checked_components(g, components) matches Ok(checked) ==> {
            &&& checked.len() == components.len()
            &&& forall|i: int|
                0 <= i < components.len() ==> (#[trigger] checked[i]).commits == components[i]
                    && is_only_root(g, components[i], checked[i].root)
        },
{
    lemma_first_fault(g, components);
    assert forall|i: int| 0 <= i < components.len() implies (component_fault(
        g,
        #[trigger] components[i],
    ) is None <==> has_one_root_and_parent(g, components[i])) by {
        lemma_faultless(g, components[i]);
    }
    if checked_components(g, components) is Ok {
        let checked = checked_components(g, components)->Ok_0;
        lemma_checked_components(g, components);
        assert forall|i: int| 0 <= i < components.len() implies (#[trigger] checked[i]).commits
            == components[i] && is_only_root(g, components[i], checked[i].root) by {
            lemma_root_list(g, components[i]);
            assert(component_fault(g, components[i]) is None);
        }
    }
}

/// What is refused is refused for its first faulty component: for its roots, where it has not
/// exactly one, and else for the parents of its one root.
pub proof fn law_refused_for_the_first_fault(g: Parents, components: Seq<Set<usize>>)
    requires
        parents_come_first(g),
        g.len() <= usize::MAX,
    ensures
        checked_components(g, components) matches Err(refusal) ==> exists|k: int|
            {
                &&& 0 <= k < components.len()
                &&& !has_one_root_and_parent(g, #[trigger] components[k])
                &&& forall|i: int|
                    0 <= i < k ==> has_one_root_and_parent(g, #[trigger] components[i])
                &&& match refusal {
                    RefusalView::ExactRoots { count, roots } => {
                        &&& !exists|r: usize| #[trigger] is_only_root(g, components[k], r)
                        &&& forall|c: usize| #[trigger]
                            roots.contains(c) <==> is_root(g, components[k], c)
                        &&& count == list_of(g, roots).len()
                    },
                    RefusalView::ExactParents { count, parents } => exists|r: usize|
                        {
                            &&& #[trigger] is_only_root(g, components[k], r)
                            &&& forall|p: usize| #[trigger]
                                parents.contains(p) <==> is_parent(g, p, r)
                            &&& count == list_of(g, parents).len()
                        },
                    _ => false,
                }
            },
{
    lemma_first_fault(g, components);
    if let Err(refusal) = checked_components(g, components) {
        let k = choose|k: int|
            0 <= k < components.len() && component_fault(g, #[trigger] components[k]) == Some(
                refusal,
            ) && forall|i: int|
                0 <= i < k ==> component_fault(g, #[trigger] components[i]) is None;
        lemma_faultless(g, components[k]);
        assert forall|i: int| 0 <= i < k implies has_one_root_and_parent(
            g,
            #[trigger] components[i],
        ) by {
            lemma_faultless(g, components[i]);
        }
        let l = list_of(g, roots_of(g, components[k]));
        lemma_root_list(g, components[k]);
        lemma_parent_list(g, l[0]);
        if l.len() == 1 {
            let r = choose|r: usize| #[trigger] is_only_root(g, components[k], r);
            assert(l[0] == r);
        }
    }
}

/// Components are sound when each has exactly one root, by which it goes, that root has exactly
/// one parent, and no two share a commit.
pub proof fn law_sound_components(g: Parents, components: Seq<ComponentView>)
    requires
        parents_come_first(g),
        g.len() <= usize::MAX,
    ensures
        is_sound(g, components) <==> {
            &&& forall|i: int|
                0 <= i < components.len() ==> is_only_root(
                    g,
                    (#[trigger] components[i]).commits,
                    components[i].root,
                ) && has_one_root_and_parent(g, components[i].commits)
            &&& forall|i: int, j: int, c: usize|
                #![trigger components[i].commits.contains(c), components[j].commits.contains(c)]
                0 <= i < components.len() && 0 <= j < components.len()
                    && components[i].commits.contains(c) && components[j].commits.contains(c) ==> i
                    == j
        },
{
    assert forall|i: int| 0 <= i < components.len() implies (component_fault(
        g,
        (#[trigger] components[i]).commits,
    ) is None && components[i].root == list_of(g, roots_of(g, components[i].commits))[0]
        <==> is_only_root(g, components[i].commits, components[i].root) && has_one_root_and_parent(
        g,
        components[i].commits,
    )) by {
        lemma_faultless(g, components[i].commits);
        lemma_root_list(g, components[i].commits);
    }
}

/// Permission is asked for the commits that are moved and no others, except that with `--insert`
/// or `--fixup` it is also asked for the children of the destination.
pub proof fn law_rewrite_set_in_full(
    g: Parents,
    selection: SelectionView,
    fixup: bool,
    insert: bool,
    c: usize,
)
    ensures
        rewrite_set_of(g, selection, fixup, insert).contains(c) <==> {
            ||| selection.sources.contains(c)
            ||| exists|i: int|
                0 <= i < selection.components.len() && (
                #[trigger] selection.components[i]).commits.contains(c)
            ||| (insert || fixup) && is_parent(g, selection.dest, c)
        },
{
    assert(set![selection.dest].contains(selection.dest));
}

/// Arguments select what they name: the commits of the sources as they are, the branches of the
/// commits of the bases as seen from the destination, and of HEAD where nothing at all is given,
/// and the components of the exact commits. What is wrong first is refused: a revset that cannot
/// be resolved, in the order of the arguments, with a faulty component before the destination, and
/// a destination that is not one commit before a HEAD that is missing.
pub proof fn law_selection_in_full(g: Parents, arguments: MoveArguments, dest_revset: Seq<char>)
    requires
        g.len() <= usize::MAX,
    ensures
        ({
            let selected = selection_of(g, arguments, dest_revset);
            let sources = arguments.sources->0@;
            let bases = arguments.bases->0@;
            let exacts = arguments.exacts->0@;
            let checked = checked_components(g, components_of(g, union_of(exacts)));
            let targets = list_of(g, arguments.dest->0@);
            let is_all_left_out = sources.len() == 0 && bases.len() == 0 && exacts.len() == 0;
            if arguments.sources is None {
                selected == Err::<SelectionView, RefusalView>(
                    RefusalView::Unresolved(Argument::Sources),
                )
            } else if arguments.bases is None {
                selected == Err::<SelectionView, RefusalView>(
                    RefusalView::Unresolved(Argument::Bases),
                )
            } else if arguments.exacts is None {
                selected == Err::<SelectionView, RefusalView>(
                    RefusalView::Unresolved(Argument::Exacts),
                )
            } else if checked is Err {
                selected == Err::<SelectionView, RefusalView>(checked->Err_0)
            } else if arguments.dest is None {
                selected == Err::<SelectionView, RefusalView>(
                    RefusalView::Unresolved(Argument::Destination),
                )
            } else if targets.len() != 1 {
                selected == Err::<SelectionView, RefusalView>(
                    RefusalView::DestinationCount { count: targets.len(), revset: dest_revset },
                )
            } else if is_all_left_out && arguments.head is None {
                selected == Err::<SelectionView, RefusalView>(RefusalView::NoSource)
            } else {
                &&& selected is Ok
                &&& arguments.dest->0@.contains(selected->Ok_0.dest)
                &&& selected->Ok_0.dest < g.len()
                &&& selected->Ok_0.components == checked->Ok_0
                &&& forall|c: usize| #[trigger]
                    selected->Ok_0.sources.contains(c) <==> {
                        ||| selected->Ok_0.bases.contains(c)
                        ||| exists|i: int|
                            0 <= i < sources.len() && (#[trigger] sources[i])@.contains(c)
                    }
                &&& forall|b: usize| #[trigger]
                    selected->Ok_0.bases.contains(b) <==> exists|c: usize|
                        {
                            &&& c < g.len()
                            &&& b == #[trigger] base_commit_of(
                                g,
                                gca_of(g, c, selected->Ok_0.dest),
                                c,
                            )
                            &&& if is_all_left_out {
                                c == arguments.head->0
                            } else {
                                exists|i: int|
                                    0 <= i < bases.len() && (#[trigger] bases[i])@.contains(c)
                            }
                        }
            }
        }),
{
    if arguments.dest is Some {
        lemma_only_one(g, arguments.dest->0@);
    }
    let selected = selection_of(g, arguments, dest_revset);
    if let Ok(selection) = selected {
        let bases = arguments.bases->0@;
        let named = if arguments.sources->0@.len() == 0 && bases.len() == 0
            && arguments.exacts->0@.len() == 0 {
            set![arguments.head->0]
        } else {
            union_of(bases)
        };
        assert(selection.bases == branch_bases(g, named, selection.dest));
        assert forall|b: usize| #[trigger] selection.bases.contains(b) <==> exists|c: usize|
            c < g.len() && b == #[trigger] base_commit_of(g, gca_of(g, c, selection.dest), c)
                && named.contains(c) by {
            if selection.bases.contains(b) {
                let c = choose|c: usize|
                    c < g.len() && #[trigger] named.contains(c) && b == base_commit_of(
                        g,
                        gca_of(g, c, selection.dest),
                        c,
                    );
                assert(b == base_commit_of(g, gca_of(g, c, selection.dest), c));
            }
        }
    }
}

} // verus!
