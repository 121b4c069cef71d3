//! What holds of every plan, and what the parts of the library mean.

pub mod arguments;
pub mod course;
pub mod places;
pub mod queries;
pub mod steps;

use vstd::prelude::*;

use crate::graph::{
    ancestors_of, children_of, descendants_of, first_of, heads_of, is_ancestor, is_parent, known,
    lemma_ancestor_is_older, lemma_ancestor_transitive, lemma_ancestors_of_one, lemma_first_of,
    lemma_head_below, lemma_newest_first, lemma_parent_is_ancestor, lemma_root_above, list_of,
    parents_come_first, parents_of, roots_of, Parents,
};
use crate::message::RefusalView;
use crate::plan::{
    commits_of_root, first_gap, fixup_steps, is_component_root, is_lineage, is_topological,
    lemma_commits_of_root, reparent_step, OperationView, Task,
};
use crate::selection::{component_commits, is_sound, rewrite_set_of, ComponentView};

verus! {

/// The commit that a step takes elsewhere.
pub open spec fn taken_by(step: OperationView) -> usize {
    match step {
        OperationView::MoveSubtree { root, .. } => root,
        OperationView::MoveRange { start, .. } => start,
        OperationView::FixupCommit { commit, .. } => commit,
        OperationView::ReparentSubtree { root, .. } => root,
    }
}

/// Whether the task is one that can be planned: its graph is one, its components are sound, and it
/// handles roots of components.
pub open spec fn is_plannable(task: Task) -> bool {
    &&& parents_come_first(task.graph)
    &&& task.graph.len() <= usize::MAX
    &&& is_sound(task.graph, task.selection.components)
    &&& forall|i: int|
        0 <= i < task.order.len() ==> is_component_root(
            task.selection.components,
            #[trigger] task.order[i],
        )
}

/// What is in the concatenation of the images is in one of them.
proof fn lemma_in_some_image(s: Seq<usize>, f: spec_fn(usize) -> Seq<OperationView>, i: int) -> (k:
    int)
    requires
        0 <= i < s.flat_map(f).len(),
    ensures
        0 <= k < s.len(),
        f(s[k]).contains(s.flat_map(f)[i]),
    decreases s.len(),
{
    if s.len() == 0 {
        assert(s.flat_map(f) =~= seq![]);
        0
    } else {
        let front = s.drop_last();
        assert(s =~= front.push(s.last()));
        front.lemma_flat_map_push(f, s.last());
        if i < front.flat_map(f).len() {
            let k = lemma_in_some_image(front, f, i);
            assert(front[k] == s[k]);
            k
        } else {
            let image = f(s.last());
            assert(s.flat_map(f)[i] == image[i - front.flat_map(f).len()]);
            s.len() - 1
        }
    }
}

/// What is in one of the images is in their concatenation.
proof fn lemma_in_all_images(
    s: Seq<usize>,
    f: spec_fn(usize) -> Seq<OperationView>,
    k: int,
    step: OperationView,
)
    requires
        0 <= k < s.len(),
        f(s[k]).contains(step),
    ensures
        s.flat_map(f).contains(step),
    decreases s.len(),
{
    let front = s.drop_last();
    assert(s =~= front.push(s.last()));
    front.lemma_flat_map_push(f, s.last());
    if k == s.len() - 1 {
        let image = f(s[k]);
        let i = choose|i: int| 0 <= i < image.len() && image[i] == step;
        assert(s.flat_map(f)[front.flat_map(f).len() + i] == step);
    } else {
        assert(front[k] == s[k]);
        lemma_in_all_images(front, f, k, step);
        let images = front.flat_map(f);
        let i = choose|i: int| 0 <= i < images.len() && images[i] == step;
        assert(s.flat_map(f)[i] == step);
    }
}

/// The steps of a plan that put the children of the destination behind what is inserted.
spec fn insert_part(task: Task) -> Seq<OperationView> {
    if task.options.insert {
        task.all_insert_steps(list_of(task.graph, task.inserted_heads())[0])
    } else {
        seq![]
    }
}

/// What is in a part of the plan is in the plan.
proof fn lemma_in_plan(task: Task, step: OperationView)
    requires
        task.plan() is Ok,
    ensures
        task.all_source_steps().contains(step) ==> task.plan()->Ok_0.contains(step),
        task.all_component_steps().contains(step) ==> task.plan()->Ok_0.contains(step),
        insert_part(task).contains(step) ==> task.plan()->Ok_0.contains(step),
{
    let plan = task.plan()->Ok_0;
    let (a, b, c) = (task.all_source_steps(), task.all_component_steps(), insert_part(task));
    if a.contains(step) {
        let i = choose|i: int| 0 <= i < a.len() && a[i] == step;
        assert(plan[i] == step);
    }
    if b.contains(step) {
        let i = choose|i: int| 0 <= i < b.len() && b[i] == step;
        assert(plan[a.len() + i] == step);
    }
    if c.contains(step) {
        let i = choose|i: int| 0 <= i < c.len() && c[i] == step;
        assert(plan[a.len() + b.len() + i] == step);
    }
}

/// The component of a root: which one it is, and that its commits descend from the root.
pub(crate) proof fn lemma_component(g: Parents, components: Seq<ComponentView>, root: usize) -> (i: int)
    requires
        parents_come_first(g),
        g.len() <= usize::MAX,
        is_sound(g, components),
        is_component_root(components, root),
    ensures
        0 <= i < components.len(),
        components[i].root == root,
        commits_of_root(components, root) == components[i].commits,
        root < g.len(),
        roots_of(g, components[i].commits).contains(root),
        components[i].commits.contains(root),
        forall|c: usize|
            c < g.len() && #[trigger] components[i].commits.contains(c) ==> is_ancestor(g, root, c),
        list_of(g, parents_of(g, set![root])).len() == 1,
{
    let i = choose|i: int| 0 <= i < components.len() && (#[trigger] components[i]).root == root;
    lemma_commits_of_root(g, components, i);
    let commits = components[i].commits;
    let roots = roots_of(g, commits);
    let l = list_of(g, roots);
    lemma_newest_first(roots, g.len() as int);
    assert(l.contains(l[0]));
    assert forall|c: usize| c < g.len() && #[trigger] commits.contains(c) implies is_ancestor(
        g,
        root,
        c,
    ) by {
        let r = lemma_root_above(g, commits, c);
        assert(l.contains(r));
        let j = choose|j: int| 0 <= j < l.len() && l[j] == r;
    }
    i
}

/// A commit of the graph in a set is among the descendants of the set.
proof fn lemma_own_descendant(g: Parents, s: Set<usize>, a: usize, d: usize)
    requires
        s.contains(a),
        is_ancestor(g, a, d),
    ensures
        descendants_of(g, s).contains(d),
{
}

/// A step for a root of the sources takes a commit that descends from the sources.
proof fn lemma_source_step_within(task: Task, i: int)
    requires
        is_plannable(task),
        0 <= i < task.all_source_steps().len(),
    ensures
        descendants_of(task.graph, task.selection.sources).contains(
            taken_by(task.all_source_steps()[i]),
        ),
{
    let g = task.graph;
    let roots = roots_of(g, task.selection.sources);
    let l = list_of(g, roots);
    let f = |root: usize| task.source_steps(root);
    assert(task.all_source_steps() == l.flat_map(f));
    let k = lemma_in_some_image(l, f, i);
    let root = l[k];
    lemma_newest_first(roots, g.len() as int);
    assert(l.contains(root));
    assert(is_ancestor(g, root, root));
    let step = task.all_source_steps()[i];
    let here = task.source_steps(root);
    let j = choose|j: int| 0 <= j < here.len() && here[j] == step;
    let below = descendants_of(g, set![root]);
    let first = if task.options.fixup {
        fixup_steps(list_of(g, below), task.selection.dest)
    } else {
        seq![OperationView::MoveSubtree { root, dest: task.selection.dest }]
    };
    assert(here == first + reparent_step(task.options, root, task.selection.dest));
    if j < first.len() {
        assert(step == first[j]);
        if task.options.fixup {
            lemma_newest_first(below, g.len() as int);
            let commit = list_of(g, below)[j];
            assert(list_of(g, below).contains(commit));
            lemma_ancestors_of_one(g, root, commit);
            lemma_own_descendant(g, task.selection.sources, root, commit);
        }
    }
}

/// A step for a component takes a commit that descends from the component.
proof fn lemma_component_step_within(task: Task, i: int)
    requires
        is_plannable(task),
        0 <= i < task.all_component_steps().len(),
    ensures
        descendants_of(task.graph, component_commits(task.selection.components)).contains(
            taken_by(task.all_component_steps()[i]),
        ),
{
    let g = task.graph;
    let components = task.selection.components;
    let f = |root: usize| task.component_steps(root);
    assert(task.all_component_steps() == task.order.flat_map(f));
    let k = lemma_in_some_image(task.order, f, i);
    let root = task.order[k];
    let n = lemma_component(g, components, root);
    let commits = components[n].commits;
    let all = component_commits(components);
    assert(forall|c: usize| commits.contains(c) ==> #[trigger] all.contains(c));
    assert(is_ancestor(g, root, root));
    lemma_own_descendant(g, all, root, root);
    let step = task.all_component_steps()[i];
    let here = task.component_steps(root);
    let j = choose|j: int| 0 <= j < here.len() && here[j] == step;
    let parent = first_of(g, parents_of(g, set![root]))->0;
    let dest = task.component_dest(root)->0;
    let left = task.children_left(root);
    let first = list_of(g, left).map_values(|child: usize| task.child_step(child, parent, dest));
    let second = if task.options.fixup {
        fixup_steps(list_of(g, commits), task.selection.dest)
    } else {
        seq![OperationView::MoveSubtree { root, dest }]
    };
    assert(here == first + second + reparent_step(task.options, root, dest));
    if j < first.len() {
        assert(step == first[j]);
        lemma_newest_first(left, g.len() as int);
        let child = list_of(g, left)[j];
        assert(list_of(g, left).contains(child));
        let p = choose|p: usize| commits.contains(p) && #[trigger] is_parent(g, p, child);
        lemma_parent_is_ancestor(g, p, child);
        lemma_own_descendant(g, all, p, child);
    } else if j < first.len() + second.len() {
        assert(step == second[j - first.len()]);
        if task.options.fixup {
            lemma_newest_first(commits, g.len() as int);
            let commit = list_of(g, commits)[j - first.len()];
            assert(list_of(g, commits).contains(commit));
            assert(is_ancestor(g, commit, commit));
            lemma_own_descendant(g, all, commit, commit);
        }
    }
}

/// A step for a child of the destination takes a child of the destination.
proof fn lemma_insert_step_within(task: Task, head: usize, i: int)
    requires
        is_plannable(task),
        0 <= i < task.all_insert_steps(head).len(),
    ensures
        descendants_of(
            task.graph,
            children_of(task.graph, set![task.selection.dest]),
        ).contains(taken_by(task.all_insert_steps(head)[i])),
{
    let g = task.graph;
    let children = task.dest_children();
    let l = list_of(g, children);
    let f = |child: usize|
        seq![OperationView::MoveSubtree { root: child, dest: head }] + reparent_step(
            task.options,
            child,
            head,
        );
    assert(task.all_insert_steps(head) == l.flat_map(f));
    let k = lemma_in_some_image(l, f, i);
    lemma_newest_first(children, g.len() as int);
    assert(l.contains(l[k]));
    assert(is_ancestor(g, l[k], l[k]));
    lemma_own_descendant(g, children_of(g, set![task.selection.dest]), l[k], l[k]);
}

/// A step that keeps the parents takes a moved commit.
proof fn lemma_reparent_step_within(task: Task, i: int)
    requires
        is_plannable(task),
        0 <= i < task.all_reparent_steps().len(),
    ensures
        descendants_of(
            task.graph,
            task.selection.sources.union(component_commits(task.selection.components)),
        ).contains(taken_by(task.all_reparent_steps()[i])),
{
    let g = task.graph;
    let moved = task.selection.sources.union(component_commits(task.selection.components));
    let l = list_of(g, moved);
    lemma_newest_first(moved, g.len() as int);
    assert(l.contains(l[i]));
    assert(is_ancestor(g, l[i], l[i]));
    lemma_own_descendant(g, moved, l[i], l[i]);
}

/// The descendants of a part are descendants of the whole.
proof fn lemma_more_descendants(g: Parents, part: Set<usize>, whole: Set<usize>, c: usize)
    requires
        forall|x: usize| part.contains(x) ==> #[trigger] whole.contains(x),
        descendants_of(g, part).contains(c),
    ensures
        descendants_of(g, whole).contains(c),
{
    let a = choose|a: usize| part.contains(a) && #[trigger] is_ancestor(g, a, c);
    assert(whole.contains(a));
}

/// A plan takes only commits whose rewriting is asked for permission: every commit that a step
/// takes elsewhere is, or descends from, a commit of the rewrite set.
pub proof fn law_plan_stays_within_the_rewrite_set(task: Task)
    requires
        is_plannable(task),
        task.plan() is Ok,
    ensures
        forall|i: int|
            0 <= i < task.plan()->Ok_0.len() ==> descendants_of(
                task.graph,
                rewrite_set_of(
                    task.graph,
                    task.selection,
                    task.options.fixup,
                    task.options.insert,
                ),
            ).contains(taken_by(#[trigger] task.plan()->Ok_0[i])),
{
    let g = task.graph;
    let whole = rewrite_set_of(g, task.selection, task.options.fixup, task.options.insert);
    let plan = task.plan()->Ok_0;
    let (a, b, c) = (task.all_source_steps(), task.all_component_steps(), insert_part(task));
    let d = task.all_reparent_steps();
    assert forall|i: int| 0 <= i < plan.len() implies descendants_of(g, whole).contains(
        taken_by(#[trigger] plan[i]),
    ) by {
        let commit = taken_by(plan[i]);
        if i < a.len() {
            assert(plan[i] == a[i]);
            lemma_source_step_within(task, i);
            lemma_more_descendants(g, task.selection.sources, whole, commit);
        } else if i < a.len() + b.len() {
            assert(plan[i] == b[i - a.len()]);
            lemma_component_step_within(task, i - a.len());
            lemma_more_descendants(g, component_commits(task.selection.components), whole, commit);
        } else if i < a.len() + b.len() + c.len() {
            assert(plan[i] == c[i - a.len() - b.len()]);
            let head = list_of(g, task.inserted_heads())[0];
            lemma_insert_step_within(task, head, i - a.len() - b.len());
            lemma_more_descendants(g, children_of(g, set![task.selection.dest]), whole, commit);
        } else {
            assert(plan[i] == d[i - a.len() - b.len() - c.len()]);
            lemma_reparent_step_within(task, i - a.len() - b.len() - c.len());
            lemma_more_descendants(
                g,
                task.selection.sources.union(component_commits(task.selection.components)),
                whole,
                commit,
            );
        }
    }
}

/// A subtree that is moved is moved whole: unless the commits are folded, every commit that was
/// selected with its descendants is, or descends from, a commit whose subtree is moved onto the
/// destination.
pub proof fn law_sources_go_to_the_destination(task: Task, commit: usize)
    requires
        is_plannable(task),
        task.plan() is Ok,
        !task.options.fixup,
        task.selection.sources.contains(commit),
        commit < task.graph.len(),
    ensures
        exists|root: usize|
            is_ancestor(task.graph, root, commit) && task.selection.sources.contains(root)
                && #[trigger] task.plan()->Ok_0.contains(
                OperationView::MoveSubtree { root, dest: task.selection.dest },
            ),
{
    let g = task.graph;
    let roots = roots_of(g, task.selection.sources);
    let l = list_of(g, roots);
    let root = lemma_root_above(g, task.selection.sources, commit);
    lemma_newest_first(roots, g.len() as int);
    assert(l.contains(root));
    let k = choose|k: int| 0 <= k < l.len() && l[k] == root;
    let f = |root: usize| task.source_steps(root);
    let step = OperationView::MoveSubtree { root, dest: task.selection.dest };
    assert(task.source_steps(root)[0] == step);
    lemma_in_all_images(l, f, k, step);
    lemma_in_plan(task, step);
}

/// A list of folding steps holds one for each commit of the list.
proof fn lemma_fixup_for(g: Parents, s: Set<usize>, dest: usize, commit: usize)
    requires
        g.len() <= usize::MAX,
        s.contains(commit),
        commit < g.len(),
    ensures
        fixup_steps(list_of(g, s), dest).contains(OperationView::FixupCommit { commit, dest }),
{
    let l = list_of(g, s);
    lemma_newest_first(s, g.len() as int);
    assert(l.contains(commit));
    let i = choose|i: int| 0 <= i < l.len() && l[i] == commit;
    assert(fixup_steps(l, dest)[i] == OperationView::FixupCommit { commit, dest });
}

/// What is in the first of two lists, or in the second, is in both together.
proof fn lemma_in_sum(a: Seq<OperationView>, b: Seq<OperationView>, step: OperationView)
    requires
        a.contains(step) || b.contains(step),
    ensures
        (a + b).contains(step),
{
    if a.contains(step) {
        let i = choose|i: int| 0 <= i < a.len() && a[i] == step;
        assert((a + b)[i] == step);
    } else {
        let i = choose|i: int| 0 <= i < b.len() && b[i] == step;
        assert((a + b)[a.len() + i] == step);
    }
}

/// Folding leaves nothing out: every commit that descends from the sources is folded into the
/// destination.
pub proof fn law_fixup_folds_all_descendants(task: Task, commit: usize)
    requires
        is_plannable(task),
        task.plan() is Ok,
        task.options.fixup,
        descendants_of(task.graph, known(task.graph, task.selection.sources)).contains(commit),
    ensures
        task.plan()->Ok_0.contains(
            OperationView::FixupCommit { commit, dest: task.selection.dest },
        ),
{
    let g = task.graph;
    let sources = task.selection.sources;
    let dest = task.selection.dest;
    let roots = roots_of(g, sources);
    let l = list_of(g, roots);
    let a = choose|a: usize|
        known(g, sources).contains(a) && #[trigger] is_ancestor(g, a, commit);
    let root = lemma_root_above(g, sources, a);
    lemma_ancestor_transitive(g, root, a, commit);
    lemma_ancestors_of_one(g, root, commit);
    lemma_ancestor_is_older(g, root, commit);
    lemma_newest_first(roots, g.len() as int);
    assert(l.contains(root));
    let k = choose|k: int| 0 <= k < l.len() && l[k] == root;
    let f = |root: usize| task.source_steps(root);
    let step = OperationView::FixupCommit { commit, dest };
    lemma_fixup_for(g, descendants_of(g, set![root]), dest, commit);
    lemma_in_sum(
        fixup_steps(list_of(g, descendants_of(g, set![root])), dest),
        reparent_step(task.options, root, dest),
        step,
    );
    lemma_in_all_images(l, f, k, step);
    lemma_in_plan(task, step);
}

/// Folding leaves no commit of a component out: each is folded into the destination.
pub proof fn law_fixup_folds_all_components(task: Task, i: int, commit: usize)
    requires
        is_plannable(task),
        task.plan() is Ok,
        task.options.fixup,
        0 <= i < task.order.len(),
        commits_of_root(task.selection.components, task.order[i]).contains(commit),
        commit < task.graph.len(),
    ensures
        task.plan()->Ok_0.contains(
            OperationView::FixupCommit { commit, dest: task.selection.dest },
        ),
{
    let g = task.graph;
    let root = task.order[i];
    let commits = commits_of_root(task.selection.components, root);
    let step = OperationView::FixupCommit { commit, dest: task.selection.dest };
    let parent = first_of(g, parents_of(g, set![root]))->0;
    let dest = task.component_dest(root)->0;
    let first = list_of(g, task.children_left(root)).map_values(
        |child: usize| task.child_step(child, parent, dest),
    );
    let second = fixup_steps(list_of(g, commits), task.selection.dest);
    lemma_fixup_for(g, commits, task.selection.dest, commit);
    lemma_in_sum(first, second, step);
    lemma_in_sum(first + second, reparent_step(task.options, root, dest), step);
    let f = |root: usize| task.component_steps(root);
    lemma_in_all_images(task.order, f, i, step);
    lemma_in_plan(task, step);
}

/// A component is taken out without tearing the graph apart: each visible child that it leaves
/// behind goes onto the parent of the component, which is outside the component. Where the
/// commits are inserted and the child leads to where the component goes, only the commits up to
/// there go along; else the whole subtree does.
pub proof fn law_children_go_to_the_parent(task: Task, i: int, child: usize)
    requires
        is_plannable(task),
        task.plan() is Ok,
        0 <= i < task.order.len(),
        task.children_left(task.order[i]).contains(child),
    ensures
        exists|parent: usize|
            {
                let root = task.order[i];
                let dest = task.component_dest(root)->0;
                &&& #[trigger] is_parent(task.graph, parent, task.order[i])
                &&& !commits_of_root(task.selection.components, root).contains(parent)
                &&& task.plan()->Ok_0.contains(
                    if task.options.insert && is_ancestor(task.graph, child, dest) {
                        OperationView::MoveRange { start: child, end: dest, dest: parent }
                    } else {
                        OperationView::MoveSubtree { root: child, dest: parent }
                    },
                )
            },
{
    let g = task.graph;
    let root = task.order[i];
    let components = task.selection.components;
    let n = lemma_component(g, components, root);
    let commits = components[n].commits;
    let parents = parents_of(g, set![root]);
    let parent = first_of(g, parents)->0;
    let dest = task.component_dest(root)->0;
    lemma_first_of(g, parents);
    assert(is_parent(g, parent, root));
    if commits.contains(parent) {
        assert(children_of(g, commits).contains(root));
    }
    let left = task.children_left(root);
    let l = list_of(g, left);
    lemma_newest_first(left, g.len() as int);
    assert(child < g.len()) by {
        let p = choose|p: usize| commits.contains(p) && #[trigger] is_parent(g, p, child);
    }
    assert(l.contains(child));
    let j = choose|j: int| 0 <= j < l.len() && l[j] == child;
    let step = task.child_step(child, parent, dest);
    let first = l.map_values(|child: usize| task.child_step(child, parent, dest));
    assert(first[j] == step);
    let second = if task.options.fixup {
        fixup_steps(list_of(g, commits), task.selection.dest)
    } else {
        seq![OperationView::MoveSubtree { root, dest }]
    };
    lemma_in_sum(first, second, step);
    lemma_in_sum(first + second, reparent_step(task.options, root, dest), step);
    let f = |root: usize| task.component_steps(root);
    lemma_in_all_images(task.order, f, i, step);
    lemma_in_plan(task, step);
}

/// Commits without a gap from `from` on each descend from all that come before them there.
proof fn lemma_no_gap(g: Parents, commits: Seq<usize>, from: int, i: int, j: int)
    requires
        1 <= from,
        first_gap(g, commits, from) is None,
        from - 1 <= i < j < commits.len(),
    ensures
        is_ancestor(g, commits[i], commits[j]),
    decreases commits.len() - from,
{
    if i >= from {
        lemma_no_gap(g, commits, from + 1, i, j);
    } else if j > from {
        lemma_no_gap(g, commits, from + 1, from, j);
        lemma_ancestor_transitive(g, commits[i], commits[from], commits[j]);
    }
}

/// A lineage has no gap.
proof fn lemma_lineage_has_no_gap(g: Parents, commits: Seq<usize>, from: int)
    requires
        1 <= from,
        is_lineage(g, commits),
    ensures
        first_gap(g, commits, from) is None,
    decreases commits.len() - from,
{
    if from < commits.len() {
        assert(is_ancestor(g, commits[from - 1], commits[from]));
        lemma_lineage_has_no_gap(g, commits, from + 1);
    }
}

/// To compare neighbours is enough: commits form a single lineage exactly when each descends from
/// the one before it.
pub proof fn law_no_gap_is_a_lineage(g: Parents, commits: Seq<usize>)
    ensures
        first_gap(g, commits, 1) is None <==> is_lineage(g, commits),
{
    if first_gap(g, commits, 1) is None {
        assert forall|i: int, j: int| 0 <= i < j < commits.len() implies is_ancestor(
            g,
            #[trigger] commits[i],
            #[trigger] commits[j],
        ) by {
            lemma_no_gap(g, commits, 1, i, j);
        }
    }
    if is_lineage(g, commits) {
        lemma_lineage_has_no_gap(g, commits, 1);
    }
}

/// In a lineage each commit is an ancestor of the last one.
proof fn lemma_lineage_leads_to_last(g: Parents, commits: Seq<usize>, i: int)
    requires
        is_lineage(g, commits),
        0 <= i < commits.len(),
        commits.last() < g.len(),
    ensures
        is_ancestor(g, commits[i], commits.last()),
{
    if i == commits.len() - 1 {
        assert(is_ancestor(g, commits.last(), commits.last()));
    } else {
        assert(is_ancestor(g, commits[i], commits[commits.len() - 1]));
    }
}

/// Where there is a gap, it is between two commits next to each other.
proof fn lemma_gap(g: Parents, commits: Seq<usize>, from: int)
    requires
        1 <= from,
        first_gap(g, commits, from) is Some,
    ensures
        ({
            let gap = first_gap(g, commits, from)->0;
            from <= gap < commits.len() && !is_ancestor(g, commits[gap - 1], commits[gap])
        }),
    decreases commits.len() - from,
{
    if from < commits.len() && is_ancestor(g, commits[from - 1], commits[from]) {
        lemma_gap(g, commits, from + 1);
    }
}

/// What is left out of a list changes nothing in the order of the rest.
proof fn lemma_filter_keeps_order(g: Parents, commits: Seq<usize>, keep: spec_fn(usize) -> bool)
    requires
        is_topological(g, commits),
    ensures
        is_topological(g, commits.filter(keep)),
    decreases commits.len(),
{
    reveal(Seq::filter);
    if commits.len() > 0 {
        let front = commits.drop_last();
        let last = commits.last();
        assert(is_topological(g, front)) by {
            assert forall|i: int, j: int|
                0 <= i < j < front.len() && is_ancestor(
                    g,
                    #[trigger] front[j],
                    #[trigger] front[i],
                ) implies front[i] == front[j] by {
                assert(front[i] == commits[i] && front[j] == commits[j]);
            }
        }
        lemma_filter_keeps_order(g, front, keep);
        let kept = front.filter(keep);
        let all = commits.filter(keep);
        assert forall|i: int, j: int|
            0 <= i < j < all.len() && is_ancestor(
                g,
                #[trigger] all[j],
                #[trigger] all[i],
            ) implies all[i] == all[j] by {
            assert(all[i] == kept[i]);
            if j < kept.len() {
                assert(all[j] == kept[j]);
            } else {
                assert(kept.contains(kept[i]));
                front.lemma_filter_contains_rev(keep, kept[i]);
                let k = choose|k: int| 0 <= k < front.len() && front[k] == kept[i];
                assert(commits[k] == all[i]);
                assert(commits[commits.len() - 1] == all[j]);
            }
        }
    }
}

/// A component is only refused a place when it really has several: then it descends from two
/// other components neither of which descends from the other.
pub proof fn law_many_possible_parents_are_unrelated(task: Task, root: usize)
    requires
        is_topological(task.graph, task.order),
        task.component_dest(root) is None,
    ensures
        exists|a: usize, b: usize|
            {
                &&& task.order.contains(a) && task.order.contains(b)
                &&& #[trigger] is_ancestor(task.graph, a, root) && #[trigger] is_ancestor(
                    task.graph,
                    b,
                    root,
                )
                &&& !commits_of_root(task.selection.components, a).contains(root)
                &&& !commits_of_root(task.selection.components, b).contains(root)
                &&& !is_ancestor(task.graph, a, b)
                &&& !is_ancestor(task.graph, b, a)
            },
{
    let g = task.graph;
    let components = task.selection.components;
    let keep = |other: usize|
        !commits_of_root(components, other).contains(root) && is_ancestor(g, other, root);
    let possible = task.possible_destinations(root);
    assert(possible == task.order.filter(keep));
    lemma_gap(g, possible, 1);
    let gap = first_gap(g, possible, 1)->0;
    let a = possible[gap - 1];
    let b = possible[gap];
    assert(possible.contains(a) && possible.contains(b));
    task.order.lemma_filter_contains_rev(keep, a);
    task.order.lemma_filter_contains_rev(keep, b);
    task.order.lemma_filter_pred(keep, gap - 1);
    task.order.lemma_filter_pred(keep, gap);
    assert(keep(a) && keep(b));
    lemma_filter_keeps_order(g, task.order, keep);
    if is_ancestor(g, b, a) {
        assert(possible[gap - 1] == possible[gap]);
    }
    assert(is_ancestor(g, a, root) && is_ancestor(g, b, root));
}

/// Components are only refused as no lineage when they are none: then neither of the two that
/// are named descends from the other.
pub proof fn law_refused_lineage_is_none(task: Task, ancestor: usize, descendant: usize)
    requires
        is_topological(task.graph, task.order),
        task.plan() == Err::<Seq<OperationView>, RefusalView>(
            RefusalView::NotALineage { ancestor, descendant },
        ),
    ensures
        !is_ancestor(task.graph, ancestor, descendant),
        !is_ancestor(task.graph, descendant, ancestor),
{
    let g = task.graph;
    lemma_gap(g, task.order, 1);
    let gap = first_gap(g, task.order, 1)->0;
    if is_ancestor(g, descendant, ancestor) {
        assert(is_ancestor(g, task.order[gap], task.order[gap - 1]));
        assert(task.order[gap - 1] == task.order[gap]);
    }
}

/// A component that descends from other moved components goes onto the nearest of them: onto an
/// ancestor of its root, in another component, from which no moved component above it is left
/// out. A component that descends from no other goes to the destination.
pub proof fn law_components_keep_their_order(task: Task, i: int)
    requires
        is_plannable(task),
        0 <= i < task.order.len(),
        task.component_dest(task.order[i]) is Some,
    ensures
        ({
            let root = task.order[i];
            let dest = task.component_dest(root)->0;
            let above = task.possible_destinations(root);
            &&& above.len() == 0 ==> dest == task.selection.dest
            &&& above.len() > 0 ==> {
                &&& is_ancestor(task.graph, dest, root)
                &&& commits_of_root(task.selection.components, above.last()).contains(dest)
                &&& !commits_of_root(task.selection.components, root).contains(dest)
                &&& forall|k: int|
                    0 <= k < above.len() ==> is_ancestor(task.graph, #[trigger] above[k], dest)
            }
        }),
{
    let g = task.graph;
    let root = task.order[i];
    let components = task.selection.components;
    let above = task.possible_destinations(root);
    if above.len() > 0 {
        let keep = |other: usize|
            !commits_of_root(components, other).contains(root) && is_ancestor(g, other, root);
        assert(above == task.order.filter(keep));
        let nearest = above.last();
        task.order.lemma_filter_pred(keep, above.len() - 1);
        assert(keep(nearest));
        assert(above.contains(nearest));
        task.order.lemma_filter_contains_rev(keep, nearest);
        let at = choose|at: int| 0 <= at < task.order.len() && task.order[at] == nearest;
        assert(is_component_root(components, task.order[at]));
        let m = lemma_component(g, components, nearest);
        let n = lemma_component(g, components, root);
        let shared = ancestors_of(g, set![root]).intersect(components[m].commits);
        lemma_ancestors_of_one(g, nearest, root);
        assert(shared.contains(nearest));
        let h = lemma_head_below(g, shared, nearest);
        lemma_first_of(g, heads_of(g, shared));
        let dest = task.component_dest(root)->0;
        assert(heads_of(g, shared).contains(h));
        assert(heads_of(g, shared).contains(dest));
        lemma_ancestors_of_one(g, dest, root);
        if components[n].commits.contains(dest) {
            assert(components[m].commits.contains(dest));
            assert(m == n);
        }
        law_no_gap_is_a_lineage(g, above);
        assert forall|k: int| 0 <= k < above.len() implies is_ancestor(
            g,
            #[trigger] above[k],
            dest,
        ) by {
            lemma_lineage_leads_to_last(g, above, k);
            lemma_ancestor_transitive(g, above[k], nearest, dest);
        }
    }
}

/// Inserting puts the children of the destination behind all that is inserted: there is one head
/// such that each visible child of the destination that is not moved itself goes onto it, every
/// commit that descends from the sources is an ancestor of it, and so is every root of a
/// component and every commit of the last component.
pub proof fn law_insertion_has_one_head(task: Task)
    requires
        is_plannable(task),
        task.plan() is Ok,
        task.options.insert,
    ensures
        exists|head: usize| #[trigger]
            task.inserted_heads().contains(head) && {
                &&& forall|child: usize| #[trigger]
                    task.dest_children().contains(child) ==> task.plan()->Ok_0.contains(
                        OperationView::MoveSubtree { root: child, dest: head },
                    )
                &&& forall|commit: usize| #[trigger]
                    descendants_of(task.graph, task.selection.sources).contains(commit)
                        ==> is_ancestor(task.graph, commit, head)
                &&& forall|i: int|
                    0 <= i < task.order.len() ==> is_ancestor(
                        task.graph,
                        #[trigger] task.order[i],
                        head,
                    )
                &&& forall|commit: usize| #[trigger]
                    commits_of_root(task.selection.components, task.order.last()).contains(commit)
                        && task.order.len() > 0 && commit < task.graph.len() ==> is_ancestor(
                        task.graph,
                        commit,
                        head,
                    )
            },
{
    let g = task.graph;
    let heads = task.inserted_heads();
    let l = list_of(g, heads);
    let head = l[0];
    let components = task.selection.components;
    lemma_newest_first(heads, g.len() as int);
    assert(l.contains(head));
    assert forall|h: usize| heads.contains(h) && h < g.len() implies h == head by {
        assert(l.contains(h));
    }
    assert forall|child: usize| #[trigger]
        task.dest_children().contains(child) implies task.plan()->Ok_0.contains(
        OperationView::MoveSubtree { root: child, dest: head },
    ) by {
        let children = task.dest_children();
        lemma_newest_first(children, g.len() as int);
        assert(child < g.len()) by {
            let p = choose|p: usize|
                set![task.selection.dest].contains(p) && #[trigger] is_parent(g, p, child);
        }
        let c = list_of(g, children);
        assert(c.contains(child));
        let k = choose|k: int| 0 <= k < c.len() && c[k] == child;
        let f = |child: usize|
            seq![OperationView::MoveSubtree { root: child, dest: head }] + reparent_step(
                task.options,
                child,
                head,
            );
        let step = OperationView::MoveSubtree { root: child, dest: head };
        assert(f(child)[0] == step);
        lemma_in_all_images(c, f, k, step);
        lemma_in_plan(task, step);
    }
    let below = descendants_of(g, task.selection.sources);
    assert forall|commit: usize| #[trigger] below.contains(commit) implies is_ancestor(
        g,
        commit,
        head,
    ) by {
        let a = choose|a: usize|
            task.selection.sources.contains(a) && #[trigger] is_ancestor(g, a, commit);
        lemma_ancestor_is_older(g, a, commit);
        let h = lemma_head_below(g, below, commit);
        assert(heads.contains(h));
    }
    if task.order.len() > 0 {
        let last = task.order.last();
        assert(is_component_root(components, task.order[task.order.len() - 1]));
        let n = lemma_component(g, components, last);
        let commits = components[n].commits;
        assert forall|commit: usize| #[trigger]
            commits.contains(commit) && commit < g.len() implies is_ancestor(g, commit, head) by {
            let h = lemma_head_below(g, commits, commit);
            assert(heads.contains(h));
        }
        law_no_gap_is_a_lineage(g, task.order);
        assert forall|i: int| 0 <= i < task.order.len() implies is_ancestor(
            g,
            #[trigger] task.order[i],
            head,
        ) by {
            lemma_lineage_leads_to_last(g, task.order, i);
            lemma_ancestor_transitive(g, task.order[i], last, head);
        }
    }
    assert(heads.contains(head));
}

/// In a plan that was made, each root that is handled has one place to go to.
pub proof fn law_handled_components_have_a_place(task: Task, i: int)
    requires
        task.plan() is Ok,
        0 <= i < task.order.len(),
    ensures
        task.component_dest(task.order[i]) is Some,
{
    let stuck = |root: usize| task.component_dest(root) is None;
    if stuck(task.order[i]) {
        task.order.lemma_filter_contains(stuck, i);
        assert(task.order.filter(stuck).contains(task.order[i]));
    }
}

/// Unless the commits are folded, each root that is handled is moved with what hangs on it to the
/// place where its component goes.
pub proof fn law_components_go_to_their_place(task: Task, i: int)
    requires
        task.plan() is Ok,
        !task.options.fixup,
        0 <= i < task.order.len(),
    ensures
        task.component_dest(task.order[i]) is Some,
        task.plan()->Ok_0.contains(
            OperationView::MoveSubtree {
                root: task.order[i],
                dest: task.component_dest(task.order[i])->0,
            },
        ),
{
    let root = task.order[i];
    law_handled_components_have_a_place(task, i);
    let parent = first_of(task.graph, parents_of(task.graph, set![root]))->0;
    let dest = task.component_dest(root)->0;
    let step = OperationView::MoveSubtree { root, dest };
    let first = list_of(task.graph, task.children_left(root)).map_values(
        |child: usize| task.child_step(child, parent, dest),
    );
    let second = seq![step];
    assert(second[0] == step);
    lemma_in_sum(first, second, step);
    lemma_in_sum(first + second, reparent_step(task.options, root, dest), step);
    let f = |root: usize| task.component_steps(root);
    lemma_in_all_images(task.order, f, i, step);
    lemma_in_plan(task, step);
}

/// No component is left where it is when all the roots are handled: unless the commits are folded,
/// the root of each component is moved to the place where the component goes; where they are
/// folded, each commit of the graph in each component is folded into the destination.
pub proof fn law_every_component_is_handled(task: Task, i: int)
    requires
        is_plannable(task),
        task.plan() is Ok,
        forall|c: usize| #[trigger]
            is_component_root(task.selection.components, c) ==> task.order.contains(c),
        0 <= i < task.selection.components.len(),
    ensures
        ({
            let component = task.selection.components[i];
            let plan = task.plan()->Ok_0;
            &&& task.component_dest(component.root) is Some
            &&& !task.options.fixup ==> plan.contains(
                OperationView::MoveSubtree {
                    root: component.root,
                    dest: task.component_dest(component.root)->0,
                },
            )
            &&& task.options.fixup ==> forall|commit: usize| #[trigger]
                component.commits.contains(commit) && commit < task.graph.len() ==> plan.contains(
                    OperationView::FixupCommit { commit, dest: task.selection.dest },
                )
        }),
{
    let components = task.selection.components;
    let component = components[i];
    let root = component.root;
    assert(is_component_root(components, root));
    let k = choose|k: int| 0 <= k < task.order.len() && task.order[k] == root;
    lemma_commits_of_root(task.graph, components, i);
    law_handled_components_have_a_place(task, k);
    if task.options.fixup {
        assert forall|commit: usize| #[trigger]
            component.commits.contains(commit) && commit
                < task.graph.len() implies task.plan()->Ok_0.contains(
            OperationView::FixupCommit { commit, dest: task.selection.dest },
        ) by {
            law_fixup_folds_all_components(task, k, commit);
        }
    } else {
        law_components_go_to_their_place(task, k);
    }
}

/// Where the commits are to keep what they hold, each selected commit is also told the parents
/// that it has, the newest first.
pub proof fn law_reparenting_names_all_parents(task: Task, commit: usize)
    requires
        task.plan() is Ok,
        task.options.reparent,
        task.graph.len() <= usize::MAX,
        commit < task.graph.len(),
        task.selection.sources.union(component_commits(task.selection.components)).contains(commit),
    ensures
        task.plan()->Ok_0.contains(
            OperationView::ReparentSubtree {
                root: commit,
                parents: list_of(task.graph, parents_of(task.graph, set![commit])),
            },
        ),
{
    let moved = task.selection.sources.union(component_commits(task.selection.components));
    let l = list_of(task.graph, moved);
    lemma_newest_first(moved, task.graph.len() as int);
    assert(l.contains(commit));
    let i = choose|i: int| 0 <= i < l.len() && l[i] == commit;
    let steps = task.all_reparent_steps();
    let before = task.all_source_steps() + task.all_component_steps() + insert_part(task);
    let step = OperationView::ReparentSubtree {
        root: commit,
        parents: list_of(task.graph, parents_of(task.graph, set![commit])),
    };
    assert(steps[i] == step);
    lemma_in_sum(before, steps, step);
}

} // verus!
