//! Which steps a plan has.

use vstd::prelude::*;

use crate::graph::{
    children_of, descendants_of, first_of, is_ancestor, is_parent, lemma_ancestor_is_older,
    lemma_ancestor_transitive, lemma_ancestors_of_one, lemma_newest_first,
    lemma_root_above, list_of, parents_of, roots_of, Parents,
};
use crate::laws::arguments::{
    is_only_parent, is_root, lemma_parent_list, lemma_root_list,
};
use crate::laws::places::{
    is_inserted_head, is_only_inserted_head, lemma_inserted_heads, lemma_only_inserted_head,
};
use crate::laws::{
    insert_part, is_plannable, law_handled_components_have_a_place, lemma_component,
    lemma_in_all_images, lemma_in_some_image, lemma_in_sum,
};
use crate::plan::{
    commits_of_root, fixup_steps, is_component_root, reparent_step,
    OperationView, Task,
};
use crate::selection::component_commits;

verus! {

/// Whether the commit is in the component that goes by the root.
pub open spec fn is_in_component(task: Task, root: usize, c: usize) -> bool {
    exists|n: int|
        0 <= n < task.selection.components.len() && (#[trigger] task.selection.components[n]).root
            == root && task.selection.components[n].commits.contains(c)
}

/// Whether the commit is in a component.
pub open spec fn is_in_some_component(task: Task, c: usize) -> bool {
    exists|n: int|
        0 <= n < task.selection.components.len() && (
        #[trigger] task.selection.components[n]).commits.contains(c)
}

/// Whether the component that goes by the root leaves the commit behind: the commit is visible and
/// has a parent in the component, but is not in it.
pub open spec fn is_left_behind(task: Task, root: usize, c: usize) -> bool {
    &&& task.visible.contains(c)
    &&& !is_in_component(task, root, c)
    &&& exists|p: usize|
        is_in_component(task, root, p) && #[trigger] is_parent(task.graph, p, c)
}

/// Whether the commit is a visible child of the destination that was not selected.
pub open spec fn is_beside(task: Task, c: usize) -> bool {
    &&& task.visible.contains(c)
    &&& is_parent(task.graph, task.selection.dest, c)
    &&& !task.selection.sources.contains(c)
    &&& !is_in_some_component(task, c)
}

/// Whether the list holds the parents of the commit, each once, the newest first.
pub open spec fn lists_parents(g: Parents, parents: Seq<usize>, c: usize) -> bool {
    &&& forall|p: usize| #[trigger] parents.contains(p) <==> is_parent(g, p, c)
    &&& forall|i: int, j: int| 0 <= i < j < parents.len() ==> parents[i] > parents[j]
}

/// What is in one of the images, and only that, is in their concatenation.
proof fn lemma_images(s: Seq<usize>, f: spec_fn(usize) -> Seq<OperationView>, step: OperationView)
    ensures
        s.flat_map(f).contains(step) <==> exists|k: int|
            0 <= k < s.len() && f(#[trigger] s[k]).contains(step),
{
    let all = s.flat_map(f);
    if all.contains(step) {
        let i = choose|i: int| 0 <= i < all.len() && all[i] == step;
        let k = lemma_in_some_image(s, f, i);
        assert(f(s[k]).contains(step));
    }
    if exists|k: int| 0 <= k < s.len() && f(#[trigger] s[k]).contains(step) {
        let k = choose|k: int| 0 <= k < s.len() && f(#[trigger] s[k]).contains(step);
        lemma_in_all_images(s, f, k, step);
    }
}

/// What is in the first of two lists, or in the second, and only that, is in both together.
proof fn lemma_sum(a: Seq<OperationView>, b: Seq<OperationView>, step: OperationView)
    ensures
        (a + b).contains(step) <==> a.contains(step) || b.contains(step),
{
    if (a + b).contains(step) {
        let i = choose|i: int| 0 <= i < (a + b).len() && (a + b)[i] == step;
        if i < a.len() {
            assert(a[i] == step);
        } else {
            assert(b[i - a.len()] == step);
        }
    }
    if a.contains(step) || b.contains(step) {
        lemma_in_sum(a, b, step);
    }
}

/// The step that gives a commit one parent.
proof fn lemma_reparent_step(task: Task, root: usize, parent: usize, step: OperationView)
    ensures
        reparent_step(task.options, root, parent).contains(step) <==> task.options.reparent && step
            == (OperationView::ReparentSubtree { root, parents: seq![parent] }),
{
    let one = OperationView::ReparentSubtree { root, parents: seq![parent] };
    if task.options.reparent {
        assert(reparent_step(task.options, root, parent)[0] == one);
    }
}

/// A list of one step.
proof fn lemma_one_step(one: OperationView, step: OperationView)
    ensures
        seq![one].contains(step) <==> step == one,
{
    assert(seq![one][0] == one);
}

/// The steps that fold the commits of a list.
proof fn lemma_fixup_steps(g: Parents, s: Set<usize>, into: usize, step: OperationView)
    requires
        g.len() <= usize::MAX,
    ensures
        fixup_steps(list_of(g, s), into).contains(step) <==> (step matches OperationView::FixupCommit {
            commit,
            dest,
        } && commit < g.len() && s.contains(commit) && dest == into),
{
    let l = list_of(g, s);
    let all = fixup_steps(l, into);
    lemma_newest_first(s, g.len() as int);
    if all.contains(step) {
        let i = choose|i: int| 0 <= i < all.len() && all[i] == step;
        assert(l.contains(l[i]));
    }
    if let OperationView::FixupCommit { commit, dest } = step {
        if commit < g.len() && s.contains(commit) && dest == into {
            assert(l.contains(commit));
            let i = choose|i: int| 0 <= i < l.len() && l[i] == commit;
            assert(all[i] == step);
        }
    }
}

/// The steps for the sources.
proof fn lemma_source_part(task: Task, step: OperationView)
    requires
        is_plannable(task),
    ensures
        task.all_source_steps().contains(step) <==> exists|r: usize| #[trigger]
            is_root(task.graph, task.selection.sources, r) && match step {
                OperationView::MoveSubtree { root, dest } => !task.options.fixup && root == r && dest
                    == task.selection.dest,
                OperationView::MoveRange { .. } => false,
                OperationView::FixupCommit { commit, dest } => task.options.fixup && is_ancestor(
                    task.graph,
                    r,
                    commit,
                ) && dest == task.selection.dest,
                OperationView::ReparentSubtree { root, parents } => task.options.reparent && root
                    == r && parents == seq![task.selection.dest],
            },
{
    let g = task.graph;
    let sources = task.selection.sources;
    let into = task.selection.dest;
    let roots = roots_of(g, sources);
    let l = list_of(g, roots);
    let f = |root: usize| task.source_steps(root);
    lemma_images(l, f, step);
    lemma_root_list(g, sources);
    lemma_newest_first(roots, g.len() as int);
    assert forall|r: usize|
        task.source_steps(r).contains(step) <==> match step {
            OperationView::MoveSubtree { root, dest } => !task.options.fixup && root == r && dest
                == into,
            OperationView::MoveRange { .. } => false,
            OperationView::FixupCommit { commit, dest } => task.options.fixup && is_ancestor(
                g,
                r,
                commit,
            ) && dest == into,
            OperationView::ReparentSubtree { root, parents } => task.options.reparent && root == r
                && parents == seq![into],
        } by {
        let below = descendants_of(g, set![r]);
        let first = if task.options.fixup {
            fixup_steps(list_of(g, below), into)
        } else {
            seq![OperationView::MoveSubtree { root: r, dest: into }]
        };
        lemma_sum(first, reparent_step(task.options, r, into), step);
        lemma_reparent_step(task, r, into, step);
        lemma_one_step(OperationView::MoveSubtree { root: r, dest: into }, step);
        lemma_fixup_steps(g, below, into, step);
        if let OperationView::FixupCommit { commit, dest } = step {
            lemma_ancestors_of_one(g, r, commit);
            if is_ancestor(g, r, commit) {
                lemma_ancestor_is_older(g, r, commit);
            }
        }
    }
    if task.all_source_steps().contains(step) {
        let k = choose|k: int| 0 <= k < l.len() && f(#[trigger] l[k]).contains(step);
        assert(l.contains(l[k]));
        assert(roots.contains(l[k]));
        assert(task.source_steps(l[k]).contains(step));
        assert(is_root(g, sources, l[k]));
    }
    assert forall|r: usize| #[trigger] is_root(g, sources, r) && task.source_steps(r).contains(
        step,
    ) implies task.all_source_steps().contains(step) by {
        assert(roots.contains(r));
        assert(l.contains(r));
        let k = choose|k: int| 0 <= k < l.len() && l[k] == r;
        assert(f(l[k]).contains(step));
    }
}

/// What a handled component calls for.
pub open spec fn component_calls_for(task: Task, root: usize, step: OperationView) -> bool {
    let place = task.component_dest(root)->0;
    match step {
        OperationView::MoveSubtree { root: moved, dest } => {
            ||| !task.options.fixup && moved == root && dest == place
            ||| {
                &&& is_left_behind(task, root, moved)
                &&& is_parent(task.graph, dest, root)
                &&& !(task.options.insert && is_ancestor(task.graph, moved, place))
            }
        },
        OperationView::MoveRange { start, end, dest } => {
            &&& task.options.insert
            &&& is_left_behind(task, root, start)
            &&& is_ancestor(task.graph, start, place)
            &&& end == place
            &&& is_parent(task.graph, dest, root)
        },
        OperationView::FixupCommit { commit, dest } => {
            &&& task.options.fixup
            &&& commit < task.graph.len()
            &&& is_in_component(task, root, commit)
            &&& dest == task.selection.dest
        },
        OperationView::ReparentSubtree { root: given, parents } => {
            &&& task.options.reparent
            &&& given == root
            &&& parents == seq![place]
        },
    }
}

/// The steps for one component.
proof fn lemma_component_steps(task: Task, root: usize, step: OperationView)
    requires
        is_plannable(task),
        is_component_root(task.selection.components, root),
    ensures
        task.component_steps(root).contains(step) <==> component_calls_for(task, root, step),
{
    let g = task.graph;
    let components = task.selection.components;
    let n = lemma_component(g, components, root);
    let commits = components[n].commits;
    assert forall|c: usize| #[trigger] is_in_component(task, root, c) <==> commits.contains(c) by {
        assert(commits_of_root(components, root).contains(c) <==> is_in_component(task, root, c));
    }
    let parent = first_of(g, parents_of(g, set![root]))->0;
    lemma_parent_list(g, root);
    let only = choose|p: usize| #[trigger] is_only_parent(g, p, root);
    assert(parent == only);
    let place = task.component_dest(root)->0;
    let left = task.children_left(root);
    let l = list_of(g, left);
    lemma_newest_first(left, g.len() as int);
    assert forall|c: usize| #[trigger] left.contains(c) <==> is_left_behind(task, root, c) by {
        if children_of(g, commits).contains(c) {
            let p = choose|p: usize| commits.contains(p) && #[trigger] is_parent(g, p, c);
            assert(is_in_component(task, root, p));
        }
        if is_left_behind(task, root, c) {
            let p = choose|p: usize|
                is_in_component(task, root, p) && #[trigger] is_parent(g, p, c);
            assert(commits.contains(p));
            assert(children_of(g, commits).contains(c));
        }
    }
    let first = l.map_values(|child: usize| task.child_step(child, parent, place));
    let second = if task.options.fixup {
        fixup_steps(list_of(g, commits), task.selection.dest)
    } else {
        seq![OperationView::MoveSubtree { root, dest: place }]
    };
    lemma_sum(first + second, reparent_step(task.options, root, place), step);
    lemma_sum(first, second, step);
    lemma_reparent_step(task, root, place, step);
    lemma_one_step(OperationView::MoveSubtree { root, dest: place }, step);
    lemma_fixup_steps(g, commits, task.selection.dest, step);
    assert(first.contains(step) <==> exists|child: usize| #[trigger]
        left.contains(child) && step == task.child_step(child, parent, place)) by {
        if first.contains(step) {
            let i = choose|i: int| 0 <= i < first.len() && first[i] == step;
            assert(l.contains(l[i]));
            assert(left.contains(l[i]));
        }
        if exists|child: usize| #[trigger]
            left.contains(child) && step == task.child_step(child, parent, place) {
            let child = choose|child: usize| #[trigger]
                left.contains(child) && step == task.child_step(child, parent, place);
            let p = choose|p: usize|
                is_in_component(task, root, p) && #[trigger] is_parent(g, p, child);
            assert(l.contains(child));
            let i = choose|i: int| 0 <= i < l.len() && l[i] == child;
            assert(first[i] == step);
        }
    }
    match step {
        OperationView::MoveSubtree { root: moved, dest } => {
            assert(left.contains(moved) <==> is_left_behind(task, root, moved));
        },
        OperationView::MoveRange { start, .. } => {
            assert(left.contains(start) <==> is_left_behind(task, root, start));
        },
        _ => {},
    }
}

/// The steps for the components.
proof fn lemma_component_part(task: Task, step: OperationView)
    requires
        is_plannable(task),
    ensures
        task.all_component_steps().contains(step) <==> exists|i: int|
            0 <= i < task.order.len() && component_calls_for(task, #[trigger] task.order[i], step),
{
    let f = |root: usize| task.component_steps(root);
    lemma_images(task.order, f, step);
    assert forall|i: int| 0 <= i < task.order.len() implies (f(#[trigger] task.order[i]).contains(
        step,
    ) <==> component_calls_for(task, task.order[i], step)) by {
        assert(is_component_root(task.selection.components, task.order[i]));
        lemma_component_steps(task, task.order[i], step);
    }
}

/// The steps for the children of the destination.
proof fn lemma_insert_part(task: Task, step: OperationView)
    requires
        is_plannable(task),
        task.plan() is Ok,
    ensures
        insert_part(task).contains(step) <==> task.options.insert && exists|head: usize| #[trigger]
            is_only_inserted_head(task, head) && match step {
                OperationView::MoveSubtree { root, dest } => is_beside(task, root) && dest == head,
                OperationView::ReparentSubtree { root, parents } => task.options.reparent
                    && is_beside(task, root) && parents == seq![head],
                _ => false,
            },
{
    let g = task.graph;
    if task.options.insert {
        let head = list_of(g, task.inserted_heads())[0];
        lemma_only_inserted_head(task);
        assert(is_only_inserted_head(task, head));
        let children = task.dest_children();
        let l = list_of(g, children);
        lemma_newest_first(children, g.len() as int);
        assert(set![task.selection.dest].contains(task.selection.dest));
        assert forall|c: usize| #[trigger] children.contains(c) <==> is_beside(task, c) by {
            assert(component_commits(task.selection.components).contains(c)
                <==> is_in_some_component(task, c));
            assert(children_of(g, set![task.selection.dest]).contains(c) <==> is_parent(
                g,
                task.selection.dest,
                c,
            ));
        }
        let f = |child: usize|
            seq![OperationView::MoveSubtree { root: child, dest: head }] + reparent_step(
                task.options,
                child,
                head,
            );
        assert(insert_part(task) == l.flat_map(f));
        lemma_images(l, f, step);
        assert forall|c: usize| #[trigger] f(c).contains(step) <==> {
            ||| step == (OperationView::MoveSubtree { root: c, dest: head })
            ||| task.options.reparent && step == (OperationView::ReparentSubtree {
                root: c,
                parents: seq![head],
            })
        } by {
            let one = OperationView::MoveSubtree { root: c, dest: head };
            lemma_sum(seq![one], reparent_step(task.options, c, head), step);
            lemma_one_step(one, step);
            lemma_reparent_step(task, c, head, step);
        }
        if insert_part(task).contains(step) {
            let k = choose|k: int| 0 <= k < l.len() && f(#[trigger] l[k]).contains(step);
            assert(l.contains(l[k]));
            assert(children.contains(l[k]));
        }
        assert forall|c: usize| is_beside(task, c) && #[trigger] f(c).contains(
            step,
        ) implies insert_part(task).contains(step) by {
            assert(children.contains(c));
            assert(l.contains(c));
            let k = choose|k: int| 0 <= k < l.len() && l[k] == c;
            assert(f(l[k]).contains(step));
        }
        match step {
            OperationView::MoveSubtree { root, dest } => {
                assert(f(root).contains(step) <==> dest == head);
            },
            OperationView::ReparentSubtree { root, parents } => {
                assert(f(root).contains(step) <==> task.options.reparent && parents == seq![head]);
            },
            _ => {},
        }
    }
}

/// Lists that hold the same in falling order are the same.
proof fn lemma_falling_lists(a: Seq<usize>, b: Seq<usize>)
    requires
        forall|c: usize| #[trigger] a.contains(c) <==> b.contains(c),
        forall|i: int, j: int| 0 <= i < j < a.len() ==> a[i] > a[j],
        forall|i: int, j: int| 0 <= i < j < b.len() ==> b[i] > b[j],
    ensures
        a == b,
    decreases a.len(),
{
    if a.len() == 0 {
        if b.len() > 0 {
            assert(b.contains(b[0]));
            assert(a.contains(b[0]));
        }
        assert(a =~= b);
    } else {
        assert(a.contains(a[0]));
        assert(b.contains(a[0]));
        let i = choose|i: int| 0 <= i < b.len() && b[i] == a[0];
        assert(b.contains(b[0]));
        assert(a.contains(b[0]));
        let j = choose|j: int| 0 <= j < a.len() && a[j] == b[0];
        assert(a[0] == b[0]) by {
            if i > 0 && j > 0 {
                assert(b[0] > b[i]);
                assert(a[0] > a[j]);
            }
        }
        let (c, d) = (a.drop_first(), b.drop_first());
        assert forall|x: usize| #[trigger] c.contains(x) <==> d.contains(x) by {
            if c.contains(x) {
                let k = choose|k: int| 0 <= k < c.len() && c[k] == x;
                assert(a[k + 1] == x);
                assert(a.contains(x));
                assert(a[0] > a[k + 1]);
                let m = choose|m: int| 0 <= m < b.len() && b[m] == x;
                assert(d[m - 1] == x);
            }
            if d.contains(x) {
                let k = choose|k: int| 0 <= k < d.len() && d[k] == x;
                assert(b[k + 1] == x);
                assert(b.contains(x));
                assert(b[0] > b[k + 1]);
                assert(a.contains(x));
                let m = choose|m: int| 0 <= m < a.len() && a[m] == x;
                assert(c[m - 1] == x);
            }
        }
        assert forall|i: int, j: int| 0 <= i < j < c.len() implies c[i] > c[j] by {
            assert(c[i] == a[i + 1] && c[j] == a[j + 1]);
        }
        assert forall|i: int, j: int| 0 <= i < j < d.len() implies d[i] > d[j] by {
            assert(d[i] == b[i + 1] && d[j] == b[j + 1]);
        }
        lemma_falling_lists(c, d);
        assert(a =~= seq![a[0]] + c);
        assert(b =~= seq![b[0]] + d);
    }
}

/// The steps that name the parents of the moved commits.
proof fn lemma_reparent_part(task: Task, step: OperationView)
    requires
        is_plannable(task),
    ensures
        task.all_reparent_steps().contains(step) <==> (step matches OperationView::ReparentSubtree {
            root,
            parents,
        } && root < task.graph.len() && (task.selection.sources.contains(root)
            || is_in_some_component(task, root)) && lists_parents(task.graph, parents, root)),
{
    let g = task.graph;
    let moved = task.selection.sources.union(component_commits(task.selection.components));
    let l = list_of(g, moved);
    let all = task.all_reparent_steps();
    lemma_newest_first(moved, g.len() as int);
    assert forall|c: usize| #[trigger] moved.contains(c) <==> task.selection.sources.contains(c)
        || is_in_some_component(task, c) by {
        assert(component_commits(task.selection.components).contains(c) <==> is_in_some_component(
            task,
            c,
        ));
    }
    assert forall|c: usize| lists_parents(
        g,
        #[trigger] list_of(g, parents_of(g, set![c])),
        c,
    ) by {
        lemma_parent_list(g, c);
        lemma_newest_first(parents_of(g, set![c]), g.len() as int);
    }
    if all.contains(step) {
        let i = choose|i: int| 0 <= i < all.len() && all[i] == step;
        assert(l.contains(l[i]));
        assert(moved.contains(l[i]));
    }
    if let OperationView::ReparentSubtree { root, parents } = step {
        if root < g.len() && (task.selection.sources.contains(root) || is_in_some_component(
            task,
            root,
        )) && lists_parents(g, parents, root) {
            let own = list_of(g, parents_of(g, set![root]));
            assert(lists_parents(g, own, root));
            assert forall|p: usize| #[trigger] parents.contains(p) <==> own.contains(p) by {}
            lemma_falling_lists(parents, own);
            assert(moved.contains(root));
            assert(l.contains(root));
            let i = choose|i: int| 0 <= i < l.len() && l[i] == root;
            assert(all[i] == step);
        }
    }
}

/// The steps of a plan, each of which is there exactly when the selection calls for it.
///
/// A subtree is moved when its root is a root of the sources, to the destination; when its root is
/// a root that is handled, to its place; when it was left behind by a handled component, to the
/// parent of that component; and when inserting, if it is beside what is inserted, onto its only
/// head. A range is moved when inserting, if its start was left behind and leads to the place of
/// the component. A commit is folded with `--fixup` and only when it descends from the sources or
/// is in a handled component. A commit is given parents when it was to be: its new parent, if it
/// is the root of what is moved, and the parents that it has.
pub proof fn law_steps_in_full(task: Task, step: OperationView)
    requires
        is_plannable(task),
        task.plan() is Ok,
    ensures
        task.plan()->Ok_0.contains(step) <==> match step {
            OperationView::MoveSubtree { root, dest } => {
                ||| {
                    &&& !task.options.fixup
                    &&& is_root(task.graph, task.selection.sources, root)
                    &&& dest == task.selection.dest
                }
                ||| {
                    &&& !task.options.fixup
                    &&& task.order.contains(root)
                    &&& task.component_dest(root) == Some(dest)
                }
                ||| exists|i: int|
                    {
                        &&& 0 <= i < task.order.len()
                        &&& is_left_behind(task, #[trigger] task.order[i], root)
                        &&& is_parent(task.graph, dest, task.order[i])
                        &&& !(task.options.insert && is_ancestor(
                            task.graph,
                            root,
                            task.component_dest(task.order[i])->0,
                        ))
                    }
                ||| {
                    &&& task.options.insert
                    &&& is_beside(task, root)
                    &&& is_only_inserted_head(task, dest)
                }
            },
            OperationView::MoveRange { start, end, dest } => task.options.insert && exists|i: int|
                {
                    &&& 0 <= i < task.order.len()
                    &&& is_left_behind(task, #[trigger] task.order[i], start)
                    &&& is_parent(task.graph, dest, task.order[i])
                    &&& task.component_dest(task.order[i]) == Some(end)
                    &&& is_ancestor(task.graph, start, end)
                },
            OperationView::FixupCommit { commit, dest } => {
                &&& task.options.fixup
                &&& dest == task.selection.dest
                &&& {
                    ||| exists|a: usize|
                        a < task.graph.len() && task.selection.sources.contains(a)
                            && #[trigger] is_ancestor(task.graph, a, commit)
                    ||| commit < task.graph.len() && exists|i: int|
                        0 <= i < task.order.len() && is_in_component(
                            task,
                            #[trigger] task.order[i],
                            commit,
                        )
                }
            },
            OperationView::ReparentSubtree { root, parents } => {
                &&& task.options.reparent
                &&& {
                    ||| {
                        &&& is_root(task.graph, task.selection.sources, root)
                        &&& parents == seq![task.selection.dest]
                    }
                    ||| {
                        &&& task.order.contains(root)
                        &&& parents == seq![task.component_dest(root)->0]
                    }
                    ||| {
                        &&& task.options.insert
                        &&& is_beside(task, root)
                        &&& exists|head: usize| #[trigger]
                            is_only_inserted_head(task, head) && parents == seq![head]
                    }
                    ||| {
                        &&& root < task.graph.len()
                        &&& task.selection.sources.contains(root) || is_in_some_component(
                            task,
                            root,
                        )
                        &&& lists_parents(task.graph, parents, root)
                    }
                }
            },
        },
{
    let g = task.graph;
    let (a, b, c) = (task.all_source_steps(), task.all_component_steps(), insert_part(task));
    let d = if task.options.reparent {
        task.all_reparent_steps()
    } else {
        seq![]
    };
    assert(task.plan()->Ok_0 == a + b + c + d);
    lemma_sum(a + b + c, d, step);
    lemma_sum(a + b, c, step);
    lemma_sum(a, b, step);
    lemma_source_part(task, step);
    lemma_component_part(task, step);
    lemma_insert_part(task, step);
    lemma_reparent_part(task, step);
    assert forall|i: int| 0 <= i < task.order.len() implies task.component_dest(
        #[trigger] task.order[i],
    ) is Some by {
        law_handled_components_have_a_place(task, i);
    }
    match step {
        OperationView::MoveSubtree { root, dest } => {
            if task.order.contains(root) {
                let i = choose|i: int| 0 <= i < task.order.len() && task.order[i] == root;
                assert(component_calls_for(task, task.order[i], step) || task.options.fixup
                    || task.component_dest(root) != Some(dest));
            }
            if b.contains(step) {
                let i = choose|i: int|
                    0 <= i < task.order.len() && component_calls_for(
                        task,
                        #[trigger] task.order[i],
                        step,
                    );
                assert(task.order.contains(task.order[i]));
            }
            assert forall|i: int|
                0 <= i < task.order.len() && is_left_behind(task, #[trigger] task.order[i], root)
                    && is_parent(g, dest, task.order[i]) && !(task.options.insert && is_ancestor(
                    g,
                    root,
                    task.component_dest(task.order[i])->0,
                )) implies b.contains(step) by {
                assert(component_calls_for(task, task.order[i], step));
            }
        },
        OperationView::MoveRange { start, end, dest } => {
            assert forall|i: int|
                0 <= i < task.order.len() && task.options.insert && is_left_behind(
                    task,
                    #[trigger] task.order[i],
                    start,
                ) && is_parent(g, dest, task.order[i]) && task.component_dest(task.order[i]) == Some(
                    end,
                ) && is_ancestor(g, start, end) implies b.contains(step) by {
                assert(component_calls_for(task, task.order[i], step));
            }
        },
        OperationView::FixupCommit { commit, dest } => {
            let sources = task.selection.sources;
            if exists|x: usize|
                x < g.len() && sources.contains(x) && #[trigger] is_ancestor(g, x, commit) {
                let x = choose|x: usize|
                    x < g.len() && sources.contains(x) && #[trigger] is_ancestor(g, x, commit);
                let r = lemma_root_above(g, sources, x);
                lemma_root_list(g, sources);
                assert(is_root(g, sources, r));
                lemma_ancestor_transitive(g, r, x, commit);
            }
            assert forall|i: int|
                0 <= i < task.order.len() && is_in_component(
                    task,
                    #[trigger] task.order[i],
                    commit,
                ) && commit < g.len() && task.options.fixup && dest
                    == task.selection.dest implies b.contains(step) by {
                assert(component_calls_for(task, task.order[i], step));
            }
        },
        OperationView::ReparentSubtree { root, parents } => {
            if task.order.contains(root) {
                let i = choose|i: int| 0 <= i < task.order.len() && task.order[i] == root;
                assert(component_calls_for(task, task.order[i], step) <==> task.options.reparent
                    && parents == seq![task.component_dest(root)->0]);
            }
            if b.contains(step) {
                let i = choose|i: int|
                    0 <= i < task.order.len() && component_calls_for(
                        task,
                        #[trigger] task.order[i],
                        step,
                    );
                assert(task.order.contains(task.order[i]));
            }
        },
    }
}

/// The commits of the graph of which the condition holds, the newest first.
pub open spec fn commits_where(g: Parents, holds: spec_fn(usize) -> bool) -> Seq<usize> {
    list_of(g, Set::new(holds))
}

/// Lists of sets that agree in the graph are the same.
proof fn lemma_commits_where(g: Parents, s: Set<usize>, holds: spec_fn(usize) -> bool)
    requires
        g.len() <= usize::MAX,
        forall|c: usize| c < g.len() ==> (#[trigger] s.contains(c) <==> holds(c)),
    ensures
        list_of(g, s) == commits_where(g, holds),
{
    let t = Set::new(holds);
    lemma_newest_first(s, g.len() as int);
    lemma_newest_first(t, g.len() as int);
    assert forall|c: usize| #[trigger] list_of(g, s).contains(c) <==> list_of(g, t).contains(c) by {
        assert(t.contains(c) <==> holds(c));
        if c < g.len() {
            assert(s.contains(c) <==> holds(c));
        }
    }
    lemma_falling_lists(list_of(g, s), list_of(g, t));
}

/// What is done for a root of the sources, step by step.
pub open spec fn source_course(task: Task, r: usize) -> Seq<OperationView> {
    let dest = task.selection.dest;
    (if task.options.fixup {
        commits_where(task.graph, |c: usize| is_ancestor(task.graph, r, c)).map_values(
            |c: usize| OperationView::FixupCommit { commit: c, dest },
        )
    } else {
        seq![OperationView::MoveSubtree { root: r, dest }]
    }) + (if task.options.reparent {
        seq![OperationView::ReparentSubtree { root: r, parents: seq![dest] }]
    } else {
        seq![]
    })
}

/// What is done for a handled component, step by step.
pub open spec fn component_course(task: Task, r: usize) -> Seq<OperationView> {
    let place = task.component_dest(r)->0;
    let parent = commits_where(task.graph, |p: usize| is_parent(task.graph, p, r))[0];
    commits_where(task.graph, |c: usize| is_left_behind(task, r, c)).map_values(
        |c: usize|
            if task.options.insert && is_ancestor(task.graph, c, place) {
                OperationView::MoveRange { start: c, end: place, dest: parent }
            } else {
                OperationView::MoveSubtree { root: c, dest: parent }
            },
    ) + (if task.options.fixup {
        commits_where(task.graph, |c: usize| is_in_component(task, r, c)).map_values(
            |c: usize| OperationView::FixupCommit { commit: c, dest: task.selection.dest },
        )
    } else {
        seq![OperationView::MoveSubtree { root: r, dest: place }]
    }) + (if task.options.reparent {
        seq![OperationView::ReparentSubtree { root: r, parents: seq![place] }]
    } else {
        seq![]
    })
}

/// What is done for a child of the destination, step by step.
pub open spec fn child_course(task: Task, c: usize, head: usize) -> Seq<OperationView> {
    seq![OperationView::MoveSubtree { root: c, dest: head }] + (if task.options.reparent {
        seq![OperationView::ReparentSubtree { root: c, parents: seq![head] }]
    } else {
        seq![]
    })
}

/// A concatenation depends only on the images of what is in the list.
proof fn lemma_same_images(
    s: Seq<usize>,
    f: spec_fn(usize) -> Seq<OperationView>,
    h: spec_fn(usize) -> Seq<OperationView>,
)
    requires
        forall|i: int| 0 <= i < s.len() ==> f(#[trigger] s[i]) == h(s[i]),
    ensures
        s.flat_map(f) == s.flat_map(h),
    decreases s.len(),
{
    if s.len() == 0 {
        assert(s.flat_map(f) =~= s.flat_map(h));
    } else {
        let front = s.drop_last();
        assert forall|i: int| 0 <= i < front.len() implies f(#[trigger] front[i]) == h(
            front[i],
        ) by {
            assert(front[i] == s[i]);
        }
        lemma_same_images(front, f, h);
        assert(s =~= front.push(s.last()));
        front.lemma_flat_map_push(f, s.last());
        front.lemma_flat_map_push(h, s.last());
        assert(f(s[s.len() - 1]) == h(s[s.len() - 1]));
    }
}

/// The course for a component is that of its steps.
proof fn lemma_component_course(task: Task, r: usize)
    requires
        is_plannable(task),
        is_component_root(task.selection.components, r),
    ensures
        task.component_steps(r) == component_course(task, r),
{
    let g = task.graph;
    let components = task.selection.components;
    let commits = commits_of_root(components, r);
    let place = task.component_dest(r)->0;
    lemma_parent_list(g, r);
    let n = lemma_component(g, components, r);
    lemma_commits_where(g, parents_of(g, set![r]), |p: usize| is_parent(g, p, r));
    let parent = list_of(g, parents_of(g, set![r]))[0];
    assert(first_of(g, parents_of(g, set![r])) == Some(parent));
    assert forall|c: usize| #[trigger] commits.contains(c) <==> is_in_component(task, r, c) by {}
    lemma_commits_where(g, commits, |c: usize| is_in_component(task, r, c));
    let left = task.children_left(r);
    assert forall|c: usize| #[trigger] left.contains(c) <==> is_left_behind(task, r, c) by {
        if children_of(g, commits).contains(c) {
            let p = choose|p: usize| commits.contains(p) && #[trigger] is_parent(g, p, c);
            assert(is_in_component(task, r, p));
        }
        if is_left_behind(task, r, c) {
            let p = choose|p: usize|
                is_in_component(task, r, p) && #[trigger] is_parent(g, p, c);
            assert(commits.contains(p));
            assert(children_of(g, commits).contains(c));
        }
    }
    lemma_commits_where(g, left, |c: usize| is_left_behind(task, r, c));
    let l = list_of(g, left);
    assert(l.map_values(|child: usize| task.child_step(child, parent, place)) =~= l.map_values(
        |c: usize|
            if task.options.insert && is_ancestor(g, c, place) {
                OperationView::MoveRange { start: c, end: place, dest: parent }
            } else {
                OperationView::MoveSubtree { root: c, dest: parent }
            },
    ));
    assert(fixup_steps(list_of(g, commits), task.selection.dest) =~= list_of(
        g,
        commits,
    ).map_values(|c: usize| OperationView::FixupCommit { commit: c, dest: task.selection.dest }));
    assert(task.component_steps(r) =~= component_course(task, r));
}

/// The steps of a plan come in this order and no step comes oftener than it is called for: those
/// for the roots of the sources, the newest first; those for the handled components in the order
/// of their roots; those for the children of the destination, the newest first; and those that
/// name the parents of the selected commits, the newest first.
pub proof fn law_order_of_steps(task: Task)
    requires
        is_plannable(task),
        task.plan() is Ok,
    ensures
        ({
            let g = task.graph;
            task.plan()->Ok_0 == commits_where(
                g,
                |c: usize| is_root(g, task.selection.sources, c),
            ).flat_map(|r: usize| source_course(task, r)) + task.order.flat_map(
                |r: usize| component_course(task, r),
            ) + (if task.options.insert {
                commits_where(g, |c: usize| is_beside(task, c)).flat_map(
                    |c: usize|
                        child_course(
                            task,
                            c,
                            commits_where(g, |h: usize| is_inserted_head(task, h))[0],
                        ),
                )
            } else {
                seq![]
            }) + (if task.options.reparent {
                commits_where(
                    g,
                    |c: usize| task.selection.sources.contains(c) || is_in_some_component(task, c),
                ).map_values(
                    |c: usize|
                        OperationView::ReparentSubtree {
                            root: c,
                            parents: commits_where(g, |p: usize| is_parent(g, p, c)),
                        },
                )
            } else {
                seq![]
            })
        }),
{
    let g = task.graph;
    let sources = task.selection.sources;
    let into = task.selection.dest;
    lemma_root_list(g, sources);
    lemma_commits_where(g, roots_of(g, sources), |c: usize| is_root(g, sources, c));
    let roots = list_of(g, roots_of(g, sources));
    let f = |r: usize| task.source_steps(r);
    let h = |r: usize| source_course(task, r);
    assert forall|i: int| 0 <= i < roots.len() implies f(#[trigger] roots[i]) == h(roots[i]) by {
        let r = roots[i];
        let below = descendants_of(g, set![r]);
        assert forall|c: usize| #[trigger] below.contains(c) <==> is_ancestor(g, r, c) by {
            lemma_ancestors_of_one(g, r, c);
        }
        lemma_commits_where(g, below, |c: usize| is_ancestor(g, r, c));
        assert(fixup_steps(list_of(g, below), into) =~= list_of(g, below).map_values(
            |c: usize| OperationView::FixupCommit { commit: c, dest: into },
        ));
        assert(task.source_steps(r) =~= source_course(task, r));
    }
    lemma_same_images(roots, f, h);
    let f = |r: usize| task.component_steps(r);
    let h = |r: usize| component_course(task, r);
    assert forall|i: int| 0 <= i < task.order.len() implies f(#[trigger] task.order[i]) == h(
        task.order[i],
    ) by {
        assert(is_component_root(task.selection.components, task.order[i]));
        lemma_component_course(task, task.order[i]);
    }
    lemma_same_images(task.order, f, h);
    if task.options.insert {
        let heads = task.inserted_heads();
        lemma_inserted_heads(task);
        lemma_commits_where(g, heads, |h: usize| is_inserted_head(task, h));
        let head = list_of(g, heads)[0];
        let children = task.dest_children();
        assert(set![into].contains(into));
        assert forall|c: usize| #[trigger] children.contains(c) <==> is_beside(task, c) by {
            assert(component_commits(task.selection.components).contains(c)
                <==> is_in_some_component(task, c));
            assert(children_of(g, set![into]).contains(c) <==> is_parent(g, into, c));
        }
        lemma_commits_where(g, children, |c: usize| is_beside(task, c));
        let l = list_of(g, children);
        let f = |child: usize|
            seq![OperationView::MoveSubtree { root: child, dest: head }] + reparent_step(
                task.options,
                child,
                head,
            );
        let h = |c: usize|
            child_course(task, c, commits_where(g, |h: usize| is_inserted_head(task, h))[0]);
        lemma_same_images(l, f, h);
    }
    if task.options.reparent {
        let moved = sources.union(component_commits(task.selection.components));
        assert forall|c: usize| #[trigger] moved.contains(c) <==> sources.contains(c)
            || is_in_some_component(task, c) by {
            assert(component_commits(task.selection.components).contains(c)
                <==> is_in_some_component(task, c));
        }
        lemma_commits_where(
            g,
            moved,
            |c: usize| sources.contains(c) || is_in_some_component(task, c),
        );
        let l = list_of(g, moved);
        let named = l.map_values(
            |c: usize|
                OperationView::ReparentSubtree {
                    root: c,
                    parents: commits_where(g, |p: usize| is_parent(g, p, c)),
                },
        );
        let all = task.all_reparent_steps();
        assert forall|i: int| 0 <= i < l.len() implies #[trigger] all[i] == named[i] by {
            let c = l[i];
            lemma_parent_list(g, c);
            lemma_commits_where(g, parents_of(g, set![c]), |p: usize| is_parent(g, p, c));
        }
        assert(all =~= named);
    }
}

/// With `--insert`, every visible child of the destination that was not selected is moved onto the
/// one head of what is inserted, so that nothing stays beside it; and no other head is used.
pub proof fn law_insertion_moves_every_child(task: Task, child: usize)
    requires
        is_plannable(task),
        task.plan() is Ok,
        task.options.insert,
        is_parent(task.graph, task.selection.dest, child),
        task.visible.contains(child),
        !task.selection.sources.contains(child),
        forall|n: int|
            0 <= n < task.selection.components.len()
                ==> !(#[trigger] task.selection.components[n]).commits.contains(child),
    ensures
        exists|head: usize| #[trigger]
            is_only_inserted_head(task, head) && task.plan()->Ok_0.contains(
                OperationView::MoveSubtree { root: child, dest: head },
            ),
{
    lemma_only_inserted_head(task);
    let head = list_of(task.graph, task.inserted_heads())[0];
    assert(is_only_inserted_head(task, head));
    law_steps_in_full(task, OperationView::MoveSubtree { root: child, dest: head });
}

/// Nothing is folded that was not selected: a commit that a plan folds descends from the sources or
/// is in a component, it is folded into the destination, and there is no folding without
/// `--fixup`.
pub proof fn law_only_selected_commits_are_folded(task: Task, i: int)
    requires
        is_plannable(task),
        task.plan() is Ok,
        0 <= i < task.plan()->Ok_0.len(),
        task.plan()->Ok_0[i] is FixupCommit,
    ensures
        task.options.fixup,
        task.plan()->Ok_0[i]->FixupCommit_dest == task.selection.dest,
        (exists|a: usize|
            task.selection.sources.contains(a) && #[trigger] is_ancestor(
                task.graph,
                a,
                task.plan()->Ok_0[i]->commit,
            )) || exists|n: int|
            0 <= n < task.selection.components.len() && (
            #[trigger] task.selection.components[n]).commits.contains(
                task.plan()->Ok_0[i]->commit,
            ) && task.order.contains(task.selection.components[n].root),
{
    let step = task.plan()->Ok_0[i];
    assert(task.plan()->Ok_0.contains(step));
    law_steps_in_full(task, step);
    let commit = step->commit;
    if exists|k: int|
        0 <= k < task.order.len() && is_in_component(task, #[trigger] task.order[k], commit) {
        let k = choose|k: int|
            0 <= k < task.order.len() && is_in_component(task, #[trigger] task.order[k], commit);
        let n = choose|n: int|
            0 <= n < task.selection.components.len() && (
            #[trigger] task.selection.components[n]).root == task.order[k]
                && task.selection.components[n].commits.contains(commit);
        assert(task.order.contains(task.order[k]));
    }
}

} // verus!
