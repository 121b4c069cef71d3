//! The operations that move the selected commits.

use vstd::prelude::*;

use crate::commit_set::{CommitId, CommitSet};
use crate::graph::{
    ancestors_of, children_of, descendants_of, first_of, heads_of, is_ancestor, list_of,
    parents_of, roots_of, CommitGraph, Parents,
};
use crate::message::{Refusal, RefusalView};
use crate::selection::{
    component_commits, is_sound, union_components, Component, ComponentView, Selection,
    SelectionView,
};

verus! {

/// A step of a rebase plan.
#[derive(Debug, PartialEq, Eq)]
pub enum Operation {
    /// Move the commit and its descendants onto `dest`.
    MoveSubtree { root: CommitId, dest: CommitId },
    /// Move the commits from `start` to `end` onto `dest`.
    MoveRange { start: CommitId, end: CommitId, dest: CommitId },
    /// Fold the commit into `dest`.
    FixupCommit { commit: CommitId, dest: CommitId },
    /// Give the commit the parents `parents` without changing what it holds.
    ReparentSubtree { root: CommitId, parents: Vec<CommitId> },
}

/// A step of a rebase plan, for specifications.
pub enum OperationView {
    MoveSubtree { root: usize, dest: usize },
    MoveRange { start: usize, end: usize, dest: usize },
    FixupCommit { commit: usize, dest: usize },
    ReparentSubtree { root: usize, parents: Seq<usize> },
}

impl View for Operation {
    type V = OperationView;

    open spec fn view(&self) -> OperationView {
        match self {
            Operation::MoveSubtree { root, dest } => OperationView::MoveSubtree {
                root: *root,
                dest: *dest,
            },
            Operation::MoveRange { start, end, dest } => OperationView::MoveRange {
                start: *start,
                end: *end,
                dest: *dest,
            },
            Operation::FixupCommit { commit, dest } => OperationView::FixupCommit {
                commit: *commit,
                dest: *dest,
            },
            Operation::ReparentSubtree { root, parents } => OperationView::ReparentSubtree {
                root: *root,
                parents: parents@,
            },
        }
    }
}

/// The steps, for specifications.
pub open spec fn steps(operations: Seq<Operation>) -> Seq<OperationView> {
    operations.map_values(|o: Operation| o@)
}

/// How the commits are moved.
#[derive(Clone, Copy, Debug, PartialEq, Eq, Structural)]
pub struct PlanOptions {
    /// Fold the commits into the destination.
    pub fixup: bool,
    /// Put the commits between the destination and its children.
    pub insert: bool,
    /// Keep what the commits hold as it is.
    pub reparent: bool,
}

/// What a plan is made from, for specifications.
pub struct Task {
    /// The commit graph.
    pub graph: Parents,
    /// The commits that are visible to the user.
    pub visible: Set<usize>,
    /// What is moved, and where to.
    pub selection: SelectionView,
    /// The roots of the components, in the order in which they are handled.
    pub order: Seq<usize>,
    /// How the commits are moved.
    pub options: PlanOptions,
}

/// The step that gives the commit the one parent `parent`, where that is asked for.
pub open spec fn reparent_step(options: PlanOptions, root: usize, parent: usize) -> Seq<
    OperationView,
> {
    if options.reparent {
        seq![OperationView::ReparentSubtree { root, parents: seq![parent] }]
    } else {
        seq![]
    }
}

/// The steps that fold the commits into `dest`.
pub open spec fn fixup_steps(commits: Seq<usize>, dest: usize) -> Seq<OperationView> {
    commits.map_values(|commit: usize| OperationView::FixupCommit { commit, dest })
}

/// The commits of the component with the given root.
pub open spec fn commits_of_root(components: Seq<ComponentView>, root: usize) -> Set<usize> {
    Set::new(
        |c: usize|
            exists|i: int|
                0 <= i < components.len() && (#[trigger] components[i]).root == root
                    && components[i].commits.contains(c),
    )
}

/// Whether the commit is the root of a component.
pub open spec fn is_component_root(components: Seq<ComponentView>, root: usize) -> bool {
    exists|i: int| 0 <= i < components.len() && (#[trigger] components[i]).root == root
}

/// Whether each commit is an ancestor of all that come after it.
pub open spec fn is_lineage(g: Parents, commits: Seq<usize>) -> bool {
    forall|i: int, j: int|
        0 <= i < j < commits.len() ==> is_ancestor(g, #[trigger] commits[i], #[trigger] commits[j])
}

/// Whether no commit comes before one of its ancestors.
pub open spec fn is_topological(g: Parents, commits: Seq<usize>) -> bool {
    forall|i: int, j: int|
        0 <= i < j < commits.len() && is_ancestor(g, #[trigger] commits[j], #[trigger] commits[i])
            ==> commits[i] == commits[j]
}

/// The first place from `i` on at which a commit does not descend from the one before it.
pub open spec fn first_gap(g: Parents, commits: Seq<usize>, i: int) -> Option<int>
    decreases commits.len() - i,
{
    if i >= commits.len() {
        None
    } else if !is_ancestor(g, commits[i - 1], commits[i]) {
        Some(i)
    } else {
        first_gap(g, commits, i + 1)
    }
}

impl Task {
    /// The steps for a root of the commits that are moved with their descendants.
    pub open spec fn source_steps(self, root: usize) -> Seq<OperationView> {
        let dest = self.selection.dest;
        (if self.options.fixup {
            fixup_steps(list_of(self.graph, descendants_of(self.graph, set![root])), dest)
        } else {
            seq![OperationView::MoveSubtree { root, dest }]
        }) + reparent_step(self.options, root, dest)
    }

    /// The steps for the commits that are moved with their descendants.
    pub open spec fn all_source_steps(self) -> Seq<OperationView> {
        list_of(self.graph, roots_of(self.graph, self.selection.sources)).flat_map(
            |root: usize| self.source_steps(root),
        )
    }

    /// The roots of the other components from which the component with the given root descends.
    pub open spec fn possible_destinations(self, root: usize) -> Seq<usize> {
        self.order.filter(
            |other: usize|
                !commits_of_root(self.selection.components, other).contains(root) && is_ancestor(
                    self.graph,
                    other,
                    root,
                ),
        )
    }

    /// Where the component with the given root goes: onto the newest commit of the nearest
    /// component from which it descends, or else onto the destination. There is no such place
    /// when the components from which it descends do not form a single lineage.
    pub open spec fn component_dest(self, root: usize) -> Option<usize> {
        let possible = self.possible_destinations(root);
        if possible.len() == 0 {
            Some(self.selection.dest)
        } else if first_gap(self.graph, possible, 1) is Some {
            None
        } else {
            let nearest = commits_of_root(self.selection.components, possible.last());
            let above = ancestors_of(self.graph, set![root]).intersect(nearest);
            match first_of(self.graph, heads_of(self.graph, above)) {
                Some(head) => Some(head),
                None => Some(self.selection.dest),
            }
        }
    }

    /// The step for a child that the component leaves behind.
    pub open spec fn child_step(self, child: usize, parent: usize, dest: usize) -> OperationView {
        if self.options.insert && is_ancestor(self.graph, child, dest) {
            OperationView::MoveRange { start: child, end: dest, dest: parent }
        } else {
            OperationView::MoveSubtree { root: child, dest: parent }
        }
    }

    /// The visible children that a component leaves behind.
    pub open spec fn children_left(self, root: usize) -> Set<usize> {
        let commits = commits_of_root(self.selection.components, root);
        children_of(self.graph, commits).difference(commits).intersect(self.visible)
    }

    /// The steps for the component with the given root: the children that it leaves behind go onto
    /// its parent, and it goes to its destination.
    pub open spec fn component_steps(self, root: usize) -> Seq<OperationView> {
        let commits = commits_of_root(self.selection.components, root);
        let parent = first_of(self.graph, parents_of(self.graph, set![root]))->0;
        let dest = self.component_dest(root)->0;
        list_of(self.graph, self.children_left(root)).map_values(
            |child: usize| self.child_step(child, parent, dest),
        ) + (if self.options.fixup {
            fixup_steps(list_of(self.graph, commits), self.selection.dest)
        } else {
            seq![OperationView::MoveSubtree { root, dest }]
        }) + reparent_step(self.options, root, dest)
    }

    /// The steps for the components.
    pub open spec fn all_component_steps(self) -> Seq<OperationView> {
        self.order.flat_map(|root: usize| self.component_steps(root))
    }

    /// The first component that has no single place to go to.
    pub open spec fn first_stuck(self) -> Option<usize> {
        let stuck = self.order.filter(|root: usize| self.component_dest(root) is None);
        if stuck.len() == 0 {
            None
        } else {
            Some(stuck[0])
        }
    }

    /// The heads of what is put between the destination and its children.
    pub open spec fn inserted_heads(self) -> Set<usize> {
        heads_of(self.graph, descendants_of(self.graph, self.selection.sources)).union(
            if self.order.len() == 0 {
                Set::empty()
            } else {
                heads_of(
                    self.graph,
                    commits_of_root(self.selection.components, self.order.last()),
                )
            },
        )
    }

    /// The visible children of the destination that are not moved themselves.
    pub open spec fn dest_children(self) -> Set<usize> {
        children_of(self.graph, set![self.selection.dest]).difference(
            self.selection.sources,
        ).difference(component_commits(self.selection.components)).intersect(self.visible)
    }

    /// The steps that put the children of the destination onto `head`.
    pub open spec fn all_insert_steps(self, head: usize) -> Seq<OperationView> {
        list_of(self.graph, self.dest_children()).flat_map(
            |child: usize|
                seq![OperationView::MoveSubtree { root: child, dest: head }] + reparent_step(
                    self.options,
                    child,
                    head,
                ),
        )
    }

    /// The steps that give the moved commits the parents that they have.
    pub open spec fn all_reparent_steps(self) -> Seq<OperationView> {
        let moved = self.selection.sources.union(component_commits(self.selection.components));
        list_of(self.graph, moved).map_values(
            |commit: usize|
                OperationView::ReparentSubtree {
                    root: commit,
                    parents: list_of(self.graph, parents_of(self.graph, set![commit])),
                },
        )
    }

    /// The steps of the plan, or the first thing that is in its way.
    pub open spec fn plan(self) -> Result<Seq<OperationView>, RefusalView> {
        let heads = list_of(self.graph, self.inserted_heads());
        if self.first_stuck() is Some {
            let root = self.first_stuck()->0;
            let commits = commits_of_root(self.selection.components, root);
            Err(
                RefusalView::ManyPossibleParents {
                    root,
                    is_single: list_of(self.graph, commits).len() == 1,
                },
            )
        } else if self.options.insert && first_gap(self.graph, self.order, 1) is Some {
            let gap = first_gap(self.graph, self.order, 1)->0;
            Err(
                RefusalView::NotALineage {
                    ancestor: self.order[gap - 1],
                    descendant: self.order[gap],
                },
            )
        } else if self.options.insert && heads.len() != 1 {
            Err(RefusalView::ManyHeads)
        } else {
            Ok(
                self.all_source_steps() + self.all_component_steps() + (if self.options.insert {
                    self.all_insert_steps(heads[0])
                } else {
                    seq![]
                }) + (if self.options.reparent {
                    self.all_reparent_steps()
                } else {
                    seq![]
                }),
            )
        }
    }
}

/// What a plan is made from.
pub open spec fn task_of(
    graph: CommitGraph,
    selection: Selection,
    order: Seq<usize>,
    options: PlanOptions,
) -> Task {
    Task {
        graph: graph@,
        visible: graph.visible_commits(),
        selection: selection@,
        order,
        options,
    }
}

/// Appends a step.
fn add_step(operations: &mut Vec<Operation>, operation: Operation)
    ensures
        steps(final(operations)@) == steps(old(operations)@).push(operation@),
{
    operations.push(operation);
    assert(steps(operations@) =~= steps(old(operations)@).push(operation@));
}

/// Appends the step that gives the commit the one parent `parent`, where that is asked for.
fn add_reparent_step(
    operations: &mut Vec<Operation>,
    options: PlanOptions,
    root: CommitId,
    parent: CommitId,
)
    ensures
        steps(final(operations)@) == steps(old(operations)@) + reparent_step(options, root, parent),
{
    if options.reparent {
        let parents: Vec<CommitId> = vec![parent];
        assert(parents@ =~= seq![parent]);
        add_step(operations, Operation::ReparentSubtree { root, parents });
        assert(steps(operations@) =~= steps(old(operations)@) + reparent_step(
            options,
            root,
            parent,
        ));
    } else {
        assert(steps(operations@) =~= steps(old(operations)@) + reparent_step(
            options,
            root,
            parent,
        ));
    }
}

/// Appends the steps that fold the commits into `dest`.
fn add_fixup_steps(operations: &mut Vec<Operation>, commits: &Vec<CommitId>, dest: CommitId)
    ensures
        steps(final(operations)@) == steps(old(operations)@) + fixup_steps(commits@, dest),
{
    let ghost before = steps(operations@);
    assert(before =~= before + fixup_steps(commits@.take(0), dest));
    for i in 0..commits.len()
        invariant
            steps(operations@) == before + fixup_steps(commits@.take(i as int), dest),
    {
        let commit = commits[i];
        add_step(operations, Operation::FixupCommit { commit, dest });
        assert(steps(operations@) =~= before + fixup_steps(commits@.take(i + 1), dest));
    }
    assert(commits@.take(commits@.len() as int) =~= commits@);
}

/// Appends the steps for the commits that are moved with their descendants.
fn add_source_steps(
    graph: &CommitGraph,
    selection: &Selection,
    order: &Vec<CommitId>,
    options: PlanOptions,
    operations: &mut Vec<Operation>,
)
    ensures
        steps(final(operations)@) == steps(old(operations)@) + task_of(
            *graph,
            *selection,
            order@,
            options,
        ).all_source_steps(),
{
    let ghost task = task_of(*graph, *selection, order@, options);
    let ghost before = steps(operations@);
    let roots = graph.commit_set_to_vec(&graph.query_roots(&selection.sources));
    let ghost f = |root: usize| task.source_steps(root);
    proof {
        assert(roots@.take(0).flat_map(f) =~= seq![]);
        assert(before =~= before + roots@.take(0).flat_map(f));
    }
    for i in 0..roots.len()
        invariant
            task == task_of(*graph, *selection, order@, options),
            f == (|root: usize| task.source_steps(root)),
            steps(operations@) == before + roots@.take(i as int).flat_map(f),
    {
        let ghost start = steps(operations@);
        let root = roots[i];
        if options.fixup {
            let commits = graph.commit_set_to_vec(
                &graph.query_descendants(&CommitSet::from_commit(root)),
            );
            add_fixup_steps(operations, &commits, selection.dest);
        } else {
            add_step(operations, Operation::MoveSubtree { root, dest: selection.dest });
        }
        add_reparent_step(operations, options, root, selection.dest);
        proof {
            assert(steps(operations@) =~= start + task.source_steps(root));
            roots@.lemma_flat_map_take_append(f, i as int);
            assert(steps(operations@) =~= before + roots@.take(i + 1).flat_map(f));
        }
    }
    assert(roots@.take(roots@.len() as int) =~= roots@);
}

/// The place of the component with the given root.
fn find_component(components: &Vec<Component>, root: CommitId) -> (r: usize)
    requires
        is_component_root(components@.map_values(|c: Component| c@), root),
    ensures
        r < components@.len(),
        components@[r as int].root == root,
{
    let ghost views = components@.map_values(|c: Component| c@);
    let mut i: usize = 0;
    while i < components.len()
        invariant
            i <= components@.len(),
            views == components@.map_values(|c: Component| c@),
            is_component_root(views, root),
            forall|j: int| 0 <= j < i ==> (#[trigger] components@[j]).root != root,
        decreases components@.len() - i,
    {
        if components[i].root == root {
            return i;
        }
        i = i + 1;
    }
    proof {
        let k = choose|k: int| 0 <= k < views.len() && (#[trigger] views[k]).root == root;
        assert(components@[k].root != root);
    }
    0
}

/// Sound components have different roots.
pub(crate) proof fn lemma_commits_of_root(g: Parents, components: Seq<ComponentView>, i: int)
    requires
        g.len() <= usize::MAX,
        is_sound(g, components),
        0 <= i < components.len(),
    ensures
        commits_of_root(components, components[i].root) == components[i].commits,
        components[i].commits.contains(components[i].root),
        list_of(g, parents_of(g, set![components[i].root])).len() == 1,
{
    assert forall|j: int| 0 <= j < components.len() implies (
    #[trigger] components[j]).commits.contains(components[j].root) by {
        let roots = roots_of(g, components[j].commits);
        crate::graph::lemma_newest_first(roots, g.len() as int);
        assert(list_of(g, roots).contains(list_of(g, roots)[0]));
    }
    assert forall|c: usize|
        commits_of_root(components, components[i].root).contains(c)
            <==> components[i].commits.contains(c) by {
        if commits_of_root(components, components[i].root).contains(c) {
            let j = choose|j: int|
                0 <= j < components.len() && (#[trigger] components[j]).root == components[i].root
                    && components[j].commits.contains(c);
            assert(components[j].commits.contains(components[i].root));
            assert(components[i].commits.contains(components[i].root));
        }
    }
    assert(commits_of_root(components, components[i].root) =~= components[i].commits);
}

/// The commits of the component with the given root.
fn component_with_root<'a>(
    graph: &CommitGraph,
    components: &'a Vec<Component>,
    root: CommitId,
) -> (r: &'a CommitSet)
    requires
        is_sound(graph@, components@.map_values(|c: Component| c@)),
        is_component_root(components@.map_values(|c: Component| c@), root),
    ensures
        r@ == commits_of_root(components@.map_values(|c: Component| c@), root),
{
    let i = find_component(components, root);
    proof {
        use_type_invariant(graph);
        graph.lemma_is_graph();
        let views = components@.map_values(|c: Component| c@);
        assert(views[i as int] == components@[i as int]@);
        lemma_commits_of_root(graph@, views, i as int);
    }
    &components[i].commits
}

/// The first place at which a commit does not descend from the one before it.
fn find_gap(graph: &CommitGraph, commits: &Vec<CommitId>) -> (r: Option<usize>)
    ensures
        match r {
            Some(i) => first_gap(graph@, commits@, 1) == Some(i as int) && 1 <= i < commits@.len(),
            None => first_gap(graph@, commits@, 1) is None,
        },
{
    let mut i: usize = 1;
    while i < commits.len()
        invariant
            1 <= i,
            first_gap(graph@, commits@, 1) == first_gap(graph@, commits@, i as int),
        decreases commits@.len() - i,
    {
        if !graph.query_is_ancestor(commits[i - 1], commits[i]) {
            return Some(i);
        }
        i = i + 1;
    }
    None
}

/// The roots of the other components from which the component with the given root descends.
fn find_possible_destinations(
    graph: &CommitGraph,
    selection: &Selection,
    order: &Vec<CommitId>,
    options: PlanOptions,
    root: CommitId,
) -> (r: Vec<CommitId>)
    requires
        is_sound(graph@, selection@.components),
        forall|i: int|
            0 <= i < order@.len() ==> is_component_root(selection@.components, #[trigger] order@[i]),
    ensures
        r@ == task_of(*graph, *selection, order@, options).possible_destinations(root),
{
    let ghost task = task_of(*graph, *selection, order@, options);
    let ghost keep = |other: usize|
        !commits_of_root(task.selection.components, other).contains(root) && is_ancestor(
            task.graph,
            other,
            root,
        );
    let mut possible: Vec<CommitId> = Vec::new();
    assert(order@.take(0).filter(keep) =~= seq![]) by {
        reveal(Seq::filter);
    }
    for i in 0..order.len()
        invariant
            task == task_of(*graph, *selection, order@, options),
            is_sound(graph@, selection@.components),
            forall|i: int|
                0 <= i < order@.len() ==> is_component_root(
                    selection@.components,
                    #[trigger] order@[i],
                ),
            keep == (|other: usize|
                !commits_of_root(task.selection.components, other).contains(root) && is_ancestor(
                    task.graph,
                    other,
                    root,
                )),
            possible@ == order@.take(i as int).filter(keep),
    {
        let other = order[i];
        let commits = component_with_root(graph, &selection.components, other);
        if !commits.contains(root) && graph.query_is_ancestor(other, root) {
            possible.push(other);
        }
        proof {
            assert(order@.take(i + 1) =~= order@.take(i as int).push(other));
            order@.take(i as int).lemma_filter_push(other, keep);
        }
    }
    assert(order@.take(order@.len() as int) =~= order@);
    possible
}

/// Where the component with the given root goes.
fn find_component_dest(
    graph: &CommitGraph,
    selection: &Selection,
    order: &Vec<CommitId>,
    options: PlanOptions,
    root: CommitId,
) -> (r: Option<CommitId>)
    requires
        is_sound(graph@, selection@.components),
        forall|i: int|
            0 <= i < order@.len() ==> is_component_root(selection@.components, #[trigger] order@[i]),
    ensures
        r == task_of(*graph, *selection, order@, options).component_dest(root),
{
    let possible = find_possible_destinations(graph, selection, order, options, root);
    if possible.len() == 0 {
        return Some(selection.dest);
    }
    if find_gap(graph, &possible).is_some() {
        return None;
    }
    let last = possible[possible.len() - 1];
    proof {
        let task = task_of(*graph, *selection, order@, options);
        let keep = |other: usize|
            !commits_of_root(task.selection.components, other).contains(root) && is_ancestor(
                task.graph,
                other,
                root,
            );
        order@.lemma_filter_contains_rev(keep, last);
        assert(possible@.contains(last));
        assert(order@.contains(last));
    }
    let nearest = component_with_root(graph, &selection.components, last);
    let above = graph.query_ancestors(&CommitSet::from_commit(root)).intersection(nearest);
    match graph.set_first(&graph.query_heads(&above)) {
        Some(head) => Some(head),
        None => Some(selection.dest),
    }
}

/// Appends the steps for the component with the given root, which goes to `dest`.
fn add_component_steps(
    graph: &CommitGraph,
    selection: &Selection,
    order: &Vec<CommitId>,
    options: PlanOptions,
    root: CommitId,
    dest: CommitId,
    operations: &mut Vec<Operation>,
)
    requires
        is_sound(graph@, selection@.components),
        is_component_root(selection@.components, root),
        task_of(*graph, *selection, order@, options).component_dest(root) == Some(dest),
    ensures
        steps(final(operations)@) == steps(old(operations)@) + task_of(
            *graph,
            *selection,
            order@,
            options,
        ).component_steps(root),
{
    let ghost task = task_of(*graph, *selection, order@, options);
    let ghost before = steps(operations@);
    let commits = component_with_root(graph, &selection.components, root);
    let parents = graph.commit_set_to_vec(&graph.query_parents(&CommitSet::from_commit(root)));
    proof {
        use_type_invariant(graph);
        graph.lemma_is_graph();
        let components = selection@.components;
        let i = choose|i: int| 0 <= i < components.len() && (#[trigger] components[i]).root == root;
        lemma_commits_of_root(graph@, components, i);
    }
    let parent = parents[0];
    let left = graph.filter_visible_commits(&graph.query_children(commits).difference(commits));
    let children = graph.commit_set_to_vec(&left);
    let ghost f = |child: usize| task.child_step(child, parent, dest);
    assert(before =~= before + children@.take(0).map_values(f));
    for i in 0..children.len()
        invariant
            task == task_of(*graph, *selection, order@, options),
            f == (|child: usize| task.child_step(child, parent, dest)),
            steps(operations@) == before + children@.take(i as int).map_values(f),
    {
        let child = children[i];
        if options.insert && graph.query_is_ancestor(child, dest) {
            add_step(operations, Operation::MoveRange { start: child, end: dest, dest: parent });
        } else {
            add_step(operations, Operation::MoveSubtree { root: child, dest: parent });
        }
        assert(steps(operations@) =~= before + children@.take(i + 1).map_values(f));
    }
    assert(children@.take(children@.len() as int) =~= children@);
    if options.fixup {
        let folded = graph.commit_set_to_vec(commits);
        add_fixup_steps(operations, &folded, selection.dest);
    } else {
        add_step(operations, Operation::MoveSubtree { root, dest });
    }
    add_reparent_step(operations, options, root, dest);
    assert(steps(operations@) =~= before + task.component_steps(root));
}

/// Appends the steps for the components, unless one of them has no single place to go to.
fn add_all_component_steps(
    graph: &CommitGraph,
    selection: &Selection,
    order: &Vec<CommitId>,
    options: PlanOptions,
    operations: &mut Vec<Operation>,
) -> (r: Result<(), Refusal>)
    requires
        is_sound(graph@, selection@.components),
        forall|i: int|
            0 <= i < order@.len() ==> is_component_root(selection@.components, #[trigger] order@[i]),
    ensures
        ({
            let task = task_of(*graph, *selection, order@, options);
            match r {
                Ok(()) => task.first_stuck() is None && steps(final(operations)@) == steps(
                    old(operations)@,
                ) + task.all_component_steps(),
                Err(refusal) => task.first_stuck() is Some && task.plan() == Err::<
                    Seq<OperationView>,
                    RefusalView,
                >(refusal@),
            }
        }),
{
    let ghost task = task_of(*graph, *selection, order@, options);
    let ghost before = steps(operations@);
    let ghost f = |root: usize| task.component_steps(root);
    let ghost stuck = |root: usize| task.component_dest(root) is None;
    proof {
        assert(order@.take(0).flat_map(f) =~= seq![]);
        assert(before =~= before + order@.take(0).flat_map(f));
        assert(order@.take(0).filter(stuck) =~= seq![]) by {
            reveal(Seq::filter);
        }
    }
    for i in 0..order.len()
        invariant
            task == task_of(*graph, *selection, order@, options),
            is_sound(graph@, selection@.components),
            forall|i: int|
                0 <= i < order@.len() ==> is_component_root(
                    selection@.components,
                    #[trigger] order@[i],
                ),
            f == (|root: usize| task.component_steps(root)),
            stuck == (|root: usize| task.component_dest(root) is None),
            order@.take(i as int).filter(stuck).len() == 0,
            steps(operations@) == before + order@.take(i as int).flat_map(f),
    {
        let root = order[i];
        proof {
            assert(order@.take(i + 1) =~= order@.take(i as int).push(root));
            order@.take(i as int).lemma_filter_push(root, stuck);
        }
        match find_component_dest(graph, selection, order, options, root) {
            Some(dest) => {
                add_component_steps(graph, selection, order, options, root, dest, operations);
                proof {
                    order@.lemma_flat_map_take_append(f, i as int);
                    assert(steps(operations@) =~= before + order@.take(i + 1).flat_map(f));
                }
            },
            None => {
                let commits = component_with_root(graph, &selection.components, root);
                let is_single = graph.set_count(commits) == 1;
                proof {
                    assert(order@.take(i + 1).filter(stuck) =~= seq![root]);
                    assert(order@ =~= order@.take(i + 1) + order@.skip(i + 1));
                    Seq::filter_distributes_over_add(
                        order@.take(i + 1),
                        order@.skip(i + 1),
                        stuck,
                    );
                    assert(order@.filter(stuck)[0] == root);
                }
                return Err(Refusal::ManyPossibleParents { root, is_single });
            },
        }
    }
    assert(order@.take(order@.len() as int) =~= order@);
    Ok(())
}

/// The head of what is put between the destination and its children.
fn find_inserted_head(
    graph: &CommitGraph,
    selection: &Selection,
    order: &Vec<CommitId>,
    options: PlanOptions,
) -> (r: Result<CommitId, Refusal>)
    requires
        options.insert,
        is_sound(graph@, selection@.components),
        forall|i: int|
            0 <= i < order@.len() ==> is_component_root(selection@.components, #[trigger] order@[i]),
    ensures
        ({
            let task = task_of(*graph, *selection, order@, options);
            let heads = list_of(task.graph, task.inserted_heads());
            match r {
                Ok(head) => first_gap(task.graph, order@, 1) is None && heads.len() == 1 && heads[0]
                    == head,
                Err(refusal) => (first_gap(task.graph, order@, 1) is Some || heads.len() != 1) && (
                task.first_stuck() is None ==> task.plan() == Err::<
                    Seq<OperationView>,
                    RefusalView,
                >(refusal@)),
            }
        }),
{
    let ghost task = task_of(*graph, *selection, order@, options);
    let exact_heads = if order.len() == 0 {
        CommitSet::empty()
    } else {
        match find_gap(graph, order) {
            Some(gap) => {
                return Err(
                    Refusal::NotALineage { ancestor: order[gap - 1], descendant: order[gap] },
                );
            },
            None => {},
        }
        let last = order[order.len() - 1];
        graph.query_heads(component_with_root(graph, &selection.components, last))
    };
    let source_heads = graph.query_heads(&graph.query_descendants(&selection.sources));
    let heads = graph.commit_set_to_vec(&source_heads.union(&exact_heads));
    if heads.len() == 1 {
        Ok(heads[0])
    } else {
        Err(Refusal::ManyHeads)
    }
}

/// Appends the steps that put the children of the destination onto `head`.
fn add_insert_steps(
    graph: &CommitGraph,
    selection: &Selection,
    order: &Vec<CommitId>,
    options: PlanOptions,
    head: CommitId,
    operations: &mut Vec<Operation>,
)
    ensures
        steps(final(operations)@) == steps(old(operations)@) + task_of(
            *graph,
            *selection,
            order@,
            options,
        ).all_insert_steps(head),
{
    let ghost task = task_of(*graph, *selection, order@, options);
    let ghost before = steps(operations@);
    let dest_children = graph.query_children(&CommitSet::from_commit(selection.dest)).difference(
        &selection.sources,
    ).difference(&union_components(&selection.components));
    let children = graph.commit_set_to_vec(&graph.filter_visible_commits(&dest_children));
    let ghost f = |child: usize|
        seq![OperationView::MoveSubtree { root: child, dest: head }] + reparent_step(
            task.options,
            child,
            head,
        );
    proof {
        assert(children@.take(0).flat_map(f) =~= seq![]);
        assert(before =~= before + children@.take(0).flat_map(f));
    }
    for i in 0..children.len()
        invariant
            task == task_of(*graph, *selection, order@, options),
            f == (|child: usize|
                seq![OperationView::MoveSubtree { root: child, dest: head }] + reparent_step(
                    task.options,
                    child,
                    head,
                )),
            steps(operations@) == before + children@.take(i as int).flat_map(f),
    {
        let ghost start = steps(operations@);
        let child = children[i];
        add_step(operations, Operation::MoveSubtree { root: child, dest: head });
        add_reparent_step(operations, options, child, head);
        proof {
            assert(steps(operations@) =~= start + f(child));
            children@.lemma_flat_map_take_append(f, i as int);
            assert(steps(operations@) =~= before + children@.take(i + 1).flat_map(f));
        }
    }
    assert(children@.take(children@.len() as int) =~= children@);
}

/// Appends the steps that give the moved commits the parents that they have.
fn add_reparent_steps(
    graph: &CommitGraph,
    selection: &Selection,
    order: &Vec<CommitId>,
    options: PlanOptions,
    operations: &mut Vec<Operation>,
)
    ensures
        steps(final(operations)@) == steps(old(operations)@) + task_of(
            *graph,
            *selection,
            order@,
            options,
        ).all_reparent_steps(),
{
    let ghost task = task_of(*graph, *selection, order@, options);
    let ghost before = steps(operations@);
    let moved = selection.sources.union(&union_components(&selection.components));
    let commits = graph.commit_set_to_vec(&moved);
    let ghost f = |commit: usize|
        OperationView::ReparentSubtree {
            root: commit,
            parents: list_of(task.graph, parents_of(task.graph, set![commit])),
        };
    assert(before =~= before + commits@.take(0).map_values(f));
    for i in 0..commits.len()
        invariant
            task == task_of(*graph, *selection, order@, options),
            f == (|commit: usize|
                OperationView::ReparentSubtree {
                    root: commit,
                    parents: list_of(task.graph, parents_of(task.graph, set![commit])),
                }),
            steps(operations@) == before + commits@.take(i as int).map_values(f),
    {
        let root = commits[i];
        let parents = graph.commit_set_to_vec(&graph.query_parents(&CommitSet::from_commit(root)));
        add_step(operations, Operation::ReparentSubtree { root, parents });
        assert(steps(operations@) =~= before + commits@.take(i + 1).map_values(f));
    }
    assert(commits@.take(commits@.len() as int) =~= commits@);
}

/// Plans the move: the operations that carry it out, in their order. The roots of the components
/// are handled in the given order, which names roots of components only.
pub fn plan_move(
    graph: &CommitGraph,
    selection: &Selection,
    order: &Vec<CommitId>,
    options: PlanOptions,
) -> (r: Result<Vec<Operation>, Refusal>)
    requires
        is_sound(graph@, selection@.components),
        forall|i: int|
            0 <= i < order@.len() ==> is_component_root(selection@.components, #[trigger] order@[i]),
    ensures
        match r {
            Ok(operations) => task_of(*graph, *selection, order@, options).plan() == Ok::<
                Seq<OperationView>,
                RefusalView,
            >(steps(operations@)),
            Err(refusal) => task_of(*graph, *selection, order@, options).plan() == Err::<
                Seq<OperationView>,
                RefusalView,
            >(refusal@),
        },
{
    let ghost task = task_of(*graph, *selection, order@, options);
    let mut operations: Vec<Operation> = Vec::new();
    assert(steps(operations@) =~= seq![]);
    add_source_steps(graph, selection, order, options, &mut operations);
    match add_all_component_steps(graph, selection, order, options, &mut operations) {
        Ok(()) => {},
        Err(refusal) => {
            return Err(refusal);
        },
    }
    if options.insert {
        match find_inserted_head(graph, selection, order, options) {
            Ok(head) => {
                add_insert_steps(graph, selection, order, options, head, &mut operations);
            },
            Err(refusal) => {
                return Err(refusal);
            },
        }
    }
    if options.reparent {
        add_reparent_steps(graph, selection, order, options, &mut operations);
    }
    assert(steps(operations@) =~= task.plan()->Ok_0);
    Ok(operations)
}

} // verus!
