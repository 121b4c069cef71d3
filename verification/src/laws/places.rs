//! Where components go, and when a plan is refused.

use vstd::prelude::*;

use crate::graph::{
    ancestors_of, descendants_of, first_of, heads_of, is_ancestor, is_parent,
    lemma_ancestor_is_older, lemma_ancestor_transitive, lemma_ancestors_of_one, lemma_first_of,
    lemma_head_below, lemma_parent_is_ancestor, list_of, parents_of, Parents,
};
use crate::laws::arguments::lemma_only_one;
use crate::laws::{
    is_plannable, law_no_gap_is_a_lineage, lemma_component, lemma_gap, lemma_lineage_leads_to_last,
};
use crate::message::RefusalView;
use crate::plan::{
    commits_of_root, first_gap, is_component_root, is_lineage, lemma_commits_of_root,
    OperationView, Task,
};

verus! {

/// Whether `k` is an ancestor of `r` and the component that goes by `k` does not hold `r`.
pub open spec fn is_above(task: Task, k: usize, r: usize) -> bool {
    &&& is_ancestor(task.graph, k, r)
    &&& forall|n: int|
        0 <= n < task.selection.components.len() && (#[trigger] task.selection.components[n]).root
            == k ==> !task.selection.components[n].commits.contains(r)
}

/// What is kept of a list is a lineage when all that are kept descend from those before them.
proof fn lemma_kept_lineage(g: Parents, s: Seq<usize>, keep: spec_fn(usize) -> bool)
    ensures
        is_lineage(g, s.filter(keep)) <==> forall|i: int, j: int|
            0 <= i < j < s.len() && keep(#[trigger] s[i]) && keep(#[trigger] s[j]) ==> is_ancestor(
                g,
                s[i],
                s[j],
            ),
    decreases s.len(),
{
    reveal(Seq::filter);
    if s.len() > 0 {
        let front = s.drop_last();
        let last = s.last();
        lemma_kept_lineage(g, front, keep);
        let kept = front.filter(keep);
        let all = s.filter(keep);
        if is_lineage(g, all) {
            assert forall|i: int, j: int| 0 <= i < j < kept.len() implies is_ancestor(
                g,
                #[trigger] kept[i],
                #[trigger] kept[j],
            ) by {
                assert(all[i] == kept[i] && all[j] == kept[j]);
            }
            assert forall|i: int, j: int|
                0 <= i < j < s.len() && keep(#[trigger] s[i]) && keep(
                    #[trigger] s[j],
                ) implies is_ancestor(g, s[i], s[j]) by {
                assert(front[i] == s[i]);
                if j < front.len() {
                    assert(front[j] == s[j]);
                } else {
                    front.lemma_filter_contains(keep, i);
                    let a = choose|a: int| 0 <= a < kept.len() && kept[a] == front[i];
                    assert(all[a] == s[i]);
                    assert(all[kept.len() as int] == last);
                }
            }
        }
        if forall|i: int, j: int|
            0 <= i < j < s.len() && keep(#[trigger] s[i]) && keep(#[trigger] s[j]) ==> is_ancestor(
                g,
                s[i],
                s[j],
            ) {
            assert forall|i: int, j: int|
                0 <= i < j < front.len() && keep(#[trigger] front[i]) && keep(
                    #[trigger] front[j],
                ) implies is_ancestor(g, front[i], front[j]) by {
                assert(front[i] == s[i] && front[j] == s[j]);
            }
            assert forall|i: int, j: int| 0 <= i < j < all.len() implies is_ancestor(
                g,
                #[trigger] all[i],
                #[trigger] all[j],
            ) by {
                assert(all[i] == kept[i]);
                if j < kept.len() {
                    assert(all[j] == kept[j]);
                } else {
                    assert(kept.contains(kept[i]));
                    front.lemma_filter_contains_rev(keep, kept[i]);
                    front.lemma_filter_pred(keep, i);
                    let a = choose|a: int| 0 <= a < front.len() && front[a] == kept[i];
                    assert(s[a] == all[i]);
                    assert(s[s.len() - 1] == all[j]);
                }
            }
        }
    }
}

/// The last that is kept of a list is the last in the list to be kept.
proof fn lemma_last_kept(s: Seq<usize>, keep: spec_fn(usize) -> bool) -> (k: int)
    requires
        s.filter(keep).len() > 0,
    ensures
        0 <= k < s.len(),
        keep(s[k]),
        s[k] == s.filter(keep).last(),
        forall|j: int| k < j < s.len() ==> !keep(#[trigger] s[j]),
    decreases s.len(),
{
    reveal(Seq::filter);
    if keep(s.last()) {
        s.len() - 1
    } else {
        let front = s.drop_last();
        let k = lemma_last_kept(front, keep);
        assert(front[k] == s[k]);
        assert forall|j: int| k < j < s.len() implies !keep(#[trigger] s[j]) by {
            if j < front.len() {
                assert(front[j] == s[j]);
            }
        }
        k
    }
}

/// The roots above a commit are kept, and no others.
proof fn lemma_above_is_kept(task: Task, r: usize) -> (keep: spec_fn(usize) -> bool)
    ensures
        task.possible_destinations(r) == task.order.filter(keep),
        forall|k: usize| #[trigger] keep(k) <==> is_above(task, k, r),
{
    let components = task.selection.components;
    let keep = |other: usize|
        !commits_of_root(components, other).contains(r) && is_ancestor(task.graph, other, r);
    assert forall|k: usize| #[trigger] keep(k) <==> is_above(task, k, r) by {
        if is_above(task, k, r) && commits_of_root(components, k).contains(r) {
            let n = choose|n: int|
                0 <= n < components.len() && (#[trigger] components[n]).root == k
                    && components[n].commits.contains(r);
        }
    }
    keep
}

/// A component has no place to go to exactly when two of the handled roots above it do not descend
/// from one another, the later from the earlier.
pub proof fn law_no_place_between_unrelated_components(task: Task, r: usize)
    ensures
        task.component_dest(r) is None <==> exists|i: int, j: int|
            0 <= i < j < task.order.len() && is_above(task, #[trigger] task.order[i], r)
                && is_above(task, #[trigger] task.order[j], r) && !is_ancestor(
                task.graph,
                task.order[i],
                task.order[j],
            ),
{
    let g = task.graph;
    let order = task.order;
    let keep = lemma_above_is_kept(task, r);
    let possible = task.possible_destinations(r);
    lemma_kept_lineage(g, order, keep);
    law_no_gap_is_a_lineage(g, possible);
    if possible.len() == 0 {
        assert forall|i: int, j: int|
            0 <= i < j < order.len() && is_above(task, #[trigger] order[i], r) && is_above(
                task,
                #[trigger] order[j],
                r,
            ) implies is_ancestor(g, order[i], order[j]) by {
            assert(keep(order[i]));
            order.lemma_filter_contains(keep, i);
        }
    }
    if exists|i: int, j: int|
        0 <= i < j < order.len() && is_above(task, #[trigger] order[i], r) && is_above(
            task,
            #[trigger] order[j],
            r,
        ) && !is_ancestor(g, order[i], order[j]) {
        let (i, j) = choose|i: int, j: int|
            0 <= i < j < order.len() && is_above(task, #[trigger] order[i], r) && is_above(
                task,
                #[trigger] order[j],
                r,
            ) && !is_ancestor(g, order[i], order[j]);
        assert(keep(order[i]) && keep(order[j]));
        assert(!is_lineage(g, possible));
    }
    if task.component_dest(r) is None {
        assert(!is_lineage(g, possible));
        let (i, j) = choose|i: int, j: int|
            0 <= i < j < order.len() && keep(#[trigger] order[i]) && keep(#[trigger] order[j])
                && !is_ancestor(g, order[i], order[j]);
        assert(is_above(task, order[i], r) && is_above(task, order[j], r));
    }
}

/// A component goes onto the nearest handled component above it, or else to the destination: the
/// place is the newest commit above the root in the component of the last root in the order that
/// is above it, and every handled root above it is above that place too. A component below no other
/// goes to the destination.
pub proof fn law_place_is_in_the_nearest_component(task: Task, r: usize, place: usize)
    requires
        is_plannable(task),
        task.component_dest(r) == Some(place),
    ensures
        (forall|i: int| 0 <= i < task.order.len() ==> !is_above(task, #[trigger] task.order[i], r))
            ==> place == task.selection.dest,
        forall|i: int|
            0 <= i < task.order.len() && is_above(task, #[trigger] task.order[i], r) ==> is_ancestor(
                task.graph,
                task.order[i],
                place,
            ),
        (exists|i: int| 0 <= i < task.order.len() && is_above(task, #[trigger] task.order[i], r))
            ==> exists|k: int, n: int|
            {
                &&& 0 <= k < task.order.len()
                &&& 0 <= n < task.selection.components.len()
                &&& is_above(task, #[trigger] task.order[k], r)
                &&& (#[trigger] task.selection.components[n]).root == task.order[k]
                &&& task.selection.components[n].commits.contains(place)
                &&& is_ancestor(task.graph, place, r)
                &&& forall|j: int|
                    k < j < task.order.len() ==> !is_above(task, #[trigger] task.order[j], r)
                &&& forall|x: usize|
                    task.selection.components[n].commits.contains(x) && #[trigger] is_ancestor(
                        task.graph,
                        x,
                        r,
                    ) ==> x <= place
            },
{
    let g = task.graph;
    let order = task.order;
    let components = task.selection.components;
    let keep = lemma_above_is_kept(task, r);
    let possible = task.possible_destinations(r);
    if possible.len() == 0 {
        assert forall|i: int| 0 <= i < order.len() implies !is_above(
            task,
            #[trigger] order[i],
            r,
        ) by {
            if keep(order[i]) {
                order.lemma_filter_contains(keep, i);
            }
        }
    } else {
        let k = lemma_last_kept(order, keep);
        let nearest = order[k];
        assert(is_above(task, nearest, r));
        assert(is_component_root(components, order[k]));
        let n = lemma_component(g, components, nearest);
        let shared = ancestors_of(g, set![r]).intersect(components[n].commits);
        assert forall|x: usize| #[trigger] shared.contains(x) <==> components[n].commits.contains(
            x,
        ) && is_ancestor(g, x, r) by {
            lemma_ancestors_of_one(g, x, r);
        }
        assert(shared.contains(nearest));
        lemma_ancestor_is_older(g, nearest, r);
        lemma_first_of(g, heads_of(g, shared));
        let top = lemma_head_below(g, shared, nearest);
        assert(heads_of(g, shared).contains(top));
        assert(first_of(g, heads_of(g, shared)) == Some(place));
        assert(shared.contains(place));
        assert forall|x: usize|
            components[n].commits.contains(x) && #[trigger] is_ancestor(g, x, r) implies x
            <= place by {
            assert(shared.contains(x));
            lemma_ancestor_is_older(g, x, r);
            let h = lemma_head_below(g, shared, x);
            assert(heads_of(g, shared).contains(h));
            lemma_ancestor_is_older(g, x, h);
        }
        law_no_gap_is_a_lineage(g, possible);
        assert forall|i: int|
            0 <= i < order.len() && is_above(task, #[trigger] order[i], r) implies is_ancestor(
            g,
            order[i],
            place,
        ) by {
            assert(keep(order[i]));
            order.lemma_filter_contains(keep, i);
            let a = choose|a: int| 0 <= a < possible.len() && possible[a] == order[i];
            lemma_lineage_leads_to_last(g, possible, a);
            lemma_ancestor_transitive(g, order[i], nearest, place);
        }
        assert(is_above(task, order[k], r) && components[n].root == order[k]);
        assert(forall|j: int| k < j < order.len() ==> !is_above(task, #[trigger] order[j], r));
    }
}

/// Whether the commit is a head of what is put behind the destination: it descends from the
/// sources and has no child, or it is in the last handled component and has no child in it.
pub open spec fn is_inserted_head(task: Task, h: usize) -> bool {
    ||| {
        &&& exists|a: usize|
            task.selection.sources.contains(a) && #[trigger] is_ancestor(task.graph, a, h)
        &&& forall|k: usize| !#[trigger] is_parent(task.graph, h, k)
    }
    ||| {
        &&& task.order.len() > 0
        &&& h < task.graph.len()
        &&& exists|n: int|
            {
                &&& 0 <= n < task.selection.components.len()
                &&& (#[trigger] task.selection.components[n]).root == task.order[task.order.len()
                    - 1]
                &&& task.selection.components[n].commits.contains(h)
                &&& forall|k: usize| #[trigger]
                    is_parent(task.graph, h, k)
                        ==> !task.selection.components[n].commits.contains(k)
            }
    }
}

/// Whether the commit is the only head of what is put behind the destination.
pub open spec fn is_only_inserted_head(task: Task, h: usize) -> bool {
    is_inserted_head(task, h) && forall|x: usize| #[trigger] is_inserted_head(task, x) ==> x == h
}

/// The heads of what is put behind the destination.
pub(crate) proof fn lemma_inserted_heads(task: Task)
    requires
        is_plannable(task),
    ensures
        forall|h: usize| #[trigger]
            task.inserted_heads().contains(h) <==> is_inserted_head(task, h),
        forall|h: usize| #[trigger] is_inserted_head(task, h) ==> h < task.graph.len(),
{
    let g = task.graph;
    let components = task.selection.components;
    let below = descendants_of(g, task.selection.sources);
    assert forall|h: usize| #[trigger] is_inserted_head(task, h) implies h < g.len() by {
        if exists|a: usize| task.selection.sources.contains(a) && #[trigger] is_ancestor(g, a, h) {
            let a = choose|a: usize|
                task.selection.sources.contains(a) && #[trigger] is_ancestor(g, a, h);
            lemma_ancestor_is_older(g, a, h);
        }
    }
    assert forall|h: usize| #[trigger] task.inserted_heads().contains(h) <==> is_inserted_head(
        task,
        h,
    ) by {
        if task.order.len() > 0 {
            let last = task.order[task.order.len() - 1];
            assert(task.order.last() == last);
            assert(is_component_root(components, last));
            let n = lemma_component(g, components, last);
            let commits = components[n].commits;
            if heads_of(g, commits).contains(h) {
                assert forall|k: usize| #[trigger] is_parent(g, h, k) implies !commits.contains(
                    k,
                ) by {
                    if commits.contains(k) {
                        assert(parents_of(g, commits).contains(h));
                    }
                }
                assert(components[n].root == last);
            }
            if exists|m: int|
                0 <= m < components.len() && (#[trigger] components[m]).root == last
                    && components[m].commits.contains(h) && forall|k: usize| #[trigger]
                    is_parent(g, h, k) ==> !components[m].commits.contains(k) {
                let m = choose|m: int|
                    0 <= m < components.len() && (#[trigger] components[m]).root == last
                        && components[m].commits.contains(h) && forall|k: usize| #[trigger]
                        is_parent(g, h, k) ==> !components[m].commits.contains(k);
                lemma_commits_of_root(g, components, m);
                assert(components[m].commits == commits);
                if h < g.len() && parents_of(g, commits).contains(h) {
                    let k = choose|k: usize| commits.contains(k) && #[trigger] is_parent(g, h, k);
                }
            }
        }
        if heads_of(g, below).contains(h) {
            assert forall|k: usize| !#[trigger] is_parent(g, h, k) by {
                if is_parent(g, h, k) {
                    let a = choose|a: usize|
                        task.selection.sources.contains(a) && #[trigger] is_ancestor(g, a, h);
                    lemma_parent_is_ancestor(g, h, k);
                    lemma_ancestor_transitive(g, a, h, k);
                    assert(below.contains(k));
                    assert(parents_of(g, below).contains(h));
                }
            }
        }
        if (exists|a: usize| task.selection.sources.contains(a) && #[trigger] is_ancestor(g, a, h))
            && forall|k: usize| !#[trigger] is_parent(g, h, k) {
            let a = choose|a: usize|
                task.selection.sources.contains(a) && #[trigger] is_ancestor(g, a, h);
            lemma_ancestor_is_older(g, a, h);
            assert(below.contains(h));
            assert(!parents_of(g, below).contains(h));
        }
    }
}

/// The list of the heads has one entry when there is only one head.
pub(crate) proof fn lemma_only_inserted_head(task: Task)
    requires
        is_plannable(task),
    ensures
        list_of(task.graph, task.inserted_heads()).len() == 1 <==> exists|h: usize| #[trigger]
            is_only_inserted_head(task, h),
        forall|h: usize| #[trigger]
            is_only_inserted_head(task, h) ==> list_of(task.graph, task.inserted_heads())[0] == h,
        list_of(task.graph, task.inserted_heads()).len() == 1 ==> is_only_inserted_head(
            task,
            list_of(task.graph, task.inserted_heads())[0],
        ),
{
    let g = task.graph;
    let heads = task.inserted_heads();
    lemma_inserted_heads(task);
    lemma_only_one(g, heads);
    if list_of(g, heads).len() == 1 {
        let h = list_of(g, heads)[0];
        assert(heads.contains(h));
        assert forall|x: usize| #[trigger] is_inserted_head(task, x) implies x == h by {
            assert(heads.contains(x));
        }
        assert(is_only_inserted_head(task, h));
    }
    assert forall|h: usize| #[trigger] is_only_inserted_head(task, h) implies list_of(
        g,
        heads,
    ).len() == 1 && list_of(g, heads)[0] == h by {
        assert(heads.contains(h));
        assert forall|x: usize| x < g.len() && #[trigger] heads.contains(x) implies x == h by {
            assert(is_inserted_head(task, x));
        }
    }
}

/// The first that is kept of a list is the first in the list to be kept.
proof fn lemma_first_kept(s: Seq<usize>, keep: spec_fn(usize) -> bool) -> (k: int)
    requires
        s.filter(keep).len() > 0,
    ensures
        0 <= k < s.len(),
        keep(s[k]),
        s[k] == s.filter(keep)[0],
        forall|j: int| 0 <= j < k ==> !keep(#[trigger] s[j]),
    decreases s.len(),
{
    reveal(Seq::filter);
    let front = s.drop_last();
    if front.filter(keep).len() > 0 {
        let k = lemma_first_kept(front, keep);
        assert(front[k] == s[k]);
        assert forall|j: int| 0 <= j < k implies !keep(#[trigger] s[j]) by {
            assert(front[j] == s[j]);
        }
        k
    } else {
        assert forall|j: int| 0 <= j < front.len() implies !keep(#[trigger] s[j]) by {
            assert(front[j] == s[j]);
            if keep(front[j]) {
                front.lemma_filter_contains(keep, j);
            }
        }
        s.len() - 1
    }
}

/// Before the first gap each commit descends from the one before it.
proof fn lemma_before_gap(g: Parents, commits: Seq<usize>, from: int, j: int)
    requires
        1 <= from <= j,
        first_gap(g, commits, from) matches Some(gap) ==> j < gap,
        first_gap(g, commits, from) is Some,
    ensures
        is_ancestor(g, commits[j - 1], commits[j]),
    decreases commits.len() - from,
{
    if from < commits.len() && is_ancestor(g, commits[from - 1], commits[from]) && from < j {
        lemma_before_gap(g, commits, from + 1, j);
    }
}

/// A plan is made unless one of three things is in its way, and these come in this order. The first
/// handled root that has no place to go to is refused, and the user is told whether it is alone in
/// its component. With `--insert`, the first two roots next to each other of which the second does
/// not descend from the first are refused, and then all is refused that does not have exactly one
/// head.
pub proof fn law_plan_is_made_unless_refused(task: Task)
    requires
        is_plannable(task),
    ensures
        ({
            let order = task.order;
            let components = task.selection.components;
            if exists|i: int|
                0 <= i < order.len() && task.component_dest(#[trigger] order[i]) is None {
                exists|i: int, n: int|
                    {
                        &&& 0 <= i < order.len()
                        &&& 0 <= n < components.len()
                        &&& task.component_dest(#[trigger] order[i]) is None
                        &&& forall|j: int|
                            0 <= j < i ==> task.component_dest(#[trigger] order[j]) is Some
                        &&& (#[trigger] components[n]).root == order[i]
                        &&& task.plan() == Err::<Seq<OperationView>, RefusalView>(
                            RefusalView::ManyPossibleParents {
                                root: order[i],
                                is_single: forall|c: usize| #[trigger]
                                    components[n].commits.contains(c) && c < task.graph.len() ==> c
                                        == order[i],
                            },
                        )
                    }
            } else if task.options.insert && exists|i: int, j: int|
                0 <= i < j < order.len() && !is_ancestor(
                    task.graph,
                    #[trigger] order[i],
                    #[trigger] order[j],
                ) {
                exists|i: int, j: int|
                    {
                        &&& 0 <= i && j == i + 1 && j < order.len()
                        &&& !is_ancestor(task.graph, #[trigger] order[i], #[trigger] order[j])
                        &&& forall|a: int, b: int|
                            #![trigger order[a], order[b]]
                            0 <= a && b == a + 1 && b < j ==> is_ancestor(
                                task.graph,
                                order[a],
                                order[b],
                            )
                        &&& task.plan() == Err::<Seq<OperationView>, RefusalView>(
                            RefusalView::NotALineage {
                                ancestor: order[i],
                                descendant: order[j],
                            },
                        )
                    }
            } else if task.options.insert && !exists|h: usize| #[trigger]
                is_only_inserted_head(task, h) {
                task.plan() == Err::<Seq<OperationView>, RefusalView>(RefusalView::ManyHeads)
            } else {
                task.plan() is Ok
            }
        }),
{
    let g = task.graph;
    let order = task.order;
    let components = task.selection.components;
    let stuck = |root: usize| task.component_dest(root) is None;
    assert forall|i: int| 0 <= i < order.len() && stuck(#[trigger] order[i]) implies order.filter(
        stuck,
    ).len() > 0 by {
        order.lemma_filter_contains(stuck, i);
    }
    law_no_gap_is_a_lineage(g, order);
    lemma_only_inserted_head(task);
    if order.filter(stuck).len() > 0 {
        let i = lemma_first_kept(order, stuck);
        let root = order[i];
        assert(is_component_root(components, order[i]));
        let n = lemma_component(g, components, root);
        let commits = components[n].commits;
        lemma_only_one(g, commits);
        let is_single = list_of(g, commits).len() == 1;
        if is_single {
            assert(commits.contains(root));
        }
        assert(is_single == (forall|c: usize| #[trigger]
            commits.contains(c) && c < g.len() ==> c == root)) by {
            if forall|c: usize| #[trigger] commits.contains(c) && c < g.len() ==> c == root {
                assert(commits.contains(root));
            }
        }
        assert(stuck(order[i]));
        assert(task.component_dest(order[i]) is None && components[n].root == order[i]);
        assert forall|j: int| 0 <= j < i implies task.component_dest(#[trigger] order[j]) is Some by {
            assert(!stuck(order[j]));
        }
    } else {
        assert forall|i: int| 0 <= i < order.len() implies task.component_dest(
            #[trigger] order[i],
        ) is Some by {
            assert(!stuck(order[i]));
        }
        if task.options.insert && first_gap(g, order, 1) is Some {
            lemma_gap(g, order, 1);
            let j = first_gap(g, order, 1)->0;
            let i = j - 1;
            assert(!is_ancestor(g, order[i], order[j]));
            assert forall|a: int, b: int|
                #![trigger order[a], order[b]]
                0 <= a && b == a + 1 && b < j implies is_ancestor(g, order[a], order[b]) by {
                lemma_before_gap(g, order, 1, b);
            }
        }
    }
}

} // verus!
