//! From the arguments of the command to the commits that are moved, and where to.

use vstd::prelude::*;

use crate::base::{base_commit_of, resolve_base_commit};
use crate::commit_set::{append_commits, union_all, union_of, CommitId, CommitSet};
use crate::components::{
    components_of, law_components_split_the_set, lemma_linked_in_graph, lemma_linked_within, linked,
};
use crate::graph::{
    children_of, gca_of, known, lemma_newest_first, list_of, parents_come_first, parents_of, roots_of,
    CommitGraph, Parents,
};
use crate::message::{Argument, Refusal, RefusalView};

verus! {

/// A connected component of the commits that are moved exactly, without their descendants.
pub struct Component {
    /// The one commit of the component that has no parent in it.
    pub root: CommitId,
    /// The commits of the component.
    pub commits: CommitSet,
}

/// A component, for specifications.
#[verifier::ext_equal]
pub struct ComponentView {
    pub root: usize,
    pub commits: Set<usize>,
}

impl View for Component {
    type V = ComponentView;

    open spec fn view(&self) -> ComponentView {
        ComponentView { root: self.root, commits: self.commits@ }
    }
}

/// What is wrong with a component: it must have exactly one root, which must have exactly one
/// parent.
pub open spec fn component_fault(g: Parents, commits: Set<usize>) -> Option<RefusalView> {
    let roots = roots_of(g, commits);
    if list_of(g, roots).len() != 1 {
        Some(RefusalView::ExactRoots { count: list_of(g, roots).len(), roots })
    } else {
        let parents = parents_of(g, set![list_of(g, roots)[0]]);
        if list_of(g, parents).len() != 1 {
            Some(RefusalView::ExactParents { count: list_of(g, parents).len(), parents })
        } else {
            None
        }
    }
}

/// The components with their roots, or what is wrong with the first faulty one.
pub open spec fn checked_components(g: Parents, components: Seq<Set<usize>>) -> Result<
    Seq<ComponentView>,
    RefusalView,
>
    decreases components.len(),
{
    if components.len() == 0 {
        Ok(seq![])
    } else {
        match checked_components(g, components.drop_last()) {
            Err(refusal) => Err(refusal),
            Ok(checked) => match component_fault(g, components.last()) {
                Some(refusal) => Err(refusal),
                None => Ok(
                    checked.push(
                        ComponentView {
                            root: list_of(g, roots_of(g, components.last()))[0],
                            commits: components.last(),
                        },
                    ),
                ),
            },
        }
    }
}

/// Whether each component has exactly one root, which has exactly one parent, and no commit is in
/// two of the components.
pub open spec fn is_sound(g: Parents, components: Seq<ComponentView>) -> bool {
    &&& forall|i: int|
        0 <= i < components.len() ==> {
            let component = #[trigger] components[i];
            &&& component_fault(g, component.commits) is None
            &&& component.root == list_of(g, roots_of(g, component.commits))[0]
        }
    &&& forall|i: int, j: int, c: usize|
        #![trigger components[i].commits.contains(c), components[j].commits.contains(c)]
        0 <= i < components.len() && 0 <= j < components.len() && components[i].commits.contains(c)
            && components[j].commits.contains(c) ==> i == j
}

/// Components that pass are the given ones, each with its root.
pub(crate) proof fn lemma_checked_components(g: Parents, components: Seq<Set<usize>>)
    requires
        checked_components(g, components) is Ok,
    ensures
        checked_components(g, components)->Ok_0.len() == components.len(),
        forall|i: int|
            0 <= i < components.len() ==> {
                let checked = #[trigger] checked_components(g, components)->Ok_0[i];
                &&& checked.commits == components[i]
                &&& component_fault(g, components[i]) is None
                &&& checked.root == list_of(g, roots_of(g, components[i]))[0]
            },
    decreases components.len(),
{
    if components.len() > 0 {
        lemma_checked_components(g, components.drop_last());
    }
}

/// The components that are accepted for moving are sound: each has exactly one root, which has
/// exactly one parent, and none shares a commit with another.
pub proof fn law_accepted_components_are_sound(g: Parents, exacts: Set<usize>)
    requires
        parents_come_first(g),
        g.len() <= usize::MAX,
        checked_components(g, components_of(g, exacts)) is Ok,
    ensures
        is_sound(g, checked_components(g, components_of(g, exacts))->Ok_0),
{
    let parts = components_of(g, exacts);
    let checked = checked_components(g, parts)->Ok_0;
    lemma_checked_components(g, parts);
    law_components_split_the_set(g, exacts);
    assert forall|i: int, j: int, c: usize|
        #![trigger checked[i].commits.contains(c), checked[j].commits.contains(c)]
        0 <= i < checked.len() && 0 <= j < checked.len() && checked[i].commits.contains(c)
            && checked[j].commits.contains(c) implies i == j by {
        assert(parts[i].contains(c));
        assert(parts[j].contains(c));
        assert(i == i <==> linked(g, exacts, c, c));
    }
}

/// The components that are accepted for moving hold the commits of the graph that were given, and
/// no others: a component holds with a commit all those that are linked to it.
pub proof fn law_accepted_components_hold_what_was_given(g: Parents, exacts: Set<usize>)
    requires
        parents_come_first(g),
        g.len() <= usize::MAX,
        checked_components(g, components_of(g, exacts)) is Ok,
    ensures
        component_commits(checked_components(g, components_of(g, exacts))->Ok_0) == known(g, exacts),
        forall|i: int, x: usize, y: usize|
            #![trigger
                checked_components(g, components_of(g, exacts))->Ok_0[i].commits.contains(x),
                linked(g, exacts, x, y)]
            0 <= i < checked_components(g, components_of(g, exacts))->Ok_0.len()
                && checked_components(g, components_of(g, exacts))->Ok_0[i].commits.contains(
                x,
            ) ==> (checked_components(
                g,
                components_of(g, exacts),
            )->Ok_0[i].commits.contains(y) <==> linked(g, exacts, x, y)),
{
    let parts = components_of(g, exacts);
    let checked = checked_components(g, parts)->Ok_0;
    lemma_checked_components(g, parts);
    law_components_split_the_set(g, exacts);
    assert forall|c: usize|
        component_commits(checked).contains(c) <==> known(g, exacts).contains(c) by {
        if component_commits(checked).contains(c) {
            let i = choose|i: int|
                0 <= i < checked.len() && (#[trigger] checked[i]).commits.contains(c);
            assert(parts[i].contains(c));
        }
        if known(g, exacts).contains(c) {
            let i = choose|i: int| 0 <= i < parts.len() && #[trigger] parts[i].contains(c);
            assert(checked[i].commits.contains(c));
        }
    }
    assert(component_commits(checked) =~= known(g, exacts));
    assert forall|i: int, x: usize, y: usize|
        #![trigger checked[i].commits.contains(x), linked(g, exacts, x, y)]
        0 <= i < checked.len() && checked[i].commits.contains(x) implies (
    checked[i].commits.contains(y) <==> linked(g, exacts, x, y)) by {
        assert(parts[i].contains(x));
        if parts[i].contains(y) {
            assert(i == i <==> linked(g, exacts, x, y));
        }
        if linked(g, exacts, x, y) {
            lemma_link_stays_in_graph(g, exacts, x, y);
            let j = choose|j: int| 0 <= j < parts.len() && #[trigger] parts[j].contains(y);
            assert(i == j <==> linked(g, exacts, x, y));
        }
    }
}

/// What is linked to a commit of the graph is in the graph and in the set.
proof fn lemma_link_stays_in_graph(g: Parents, s: Set<usize>, x: usize, y: usize)
    requires
        parents_come_first(g),
        x < g.len(),
        linked(g, s, x, y),
    ensures
        y < g.len(),
        s.contains(y),
{
    lemma_linked_in_graph(g, s, x, y);
    lemma_linked_within(g, s, x, y);
}

/// A fault stays the first one, whatever components follow.
proof fn lemma_first_fault_stays(g: Parents, components: Seq<Set<usize>>, k: int)
    requires
        0 <= k <= components.len(),
        checked_components(g, components.take(k)) is Err,
    ensures
        checked_components(g, components) == checked_components(g, components.take(k)),
    decreases components.len(),
{
    if k == components.len() {
        assert(components.take(k) =~= components);
    } else {
        assert(components.drop_last().take(k) =~= components.take(k));
        lemma_first_fault_stays(g, components.drop_last(), k);
    }
}

/// The components of a set of commits that are moved exactly, each with its root.
pub fn exact_components(graph: &CommitGraph, exacts: &CommitSet) -> (r: Result<
    Vec<Component>,
    Refusal,
>)
    ensures
        match r {
            Ok(components) => checked_components(graph@, components_of(graph@, exacts@)) == Ok::<
                Seq<ComponentView>,
                RefusalView,
            >(components@.map_values(|c: Component| c@)),
            Err(refusal) => checked_components(graph@, components_of(graph@, exacts@)) == Err::<
                Seq<ComponentView>,
                RefusalView,
            >(refusal@),
        },
{
    let ghost g = graph@;
    let mut found = graph.get_connected_components(exacts);
    let ghost all = components_of(g, exacts@);
    let ghost view = |c: CommitSet| c@;
    let ghost component_view = |c: Component| c@;
    let mut components: Vec<Component> = Vec::new();
    assert(components@.map_values(component_view) =~= seq![]);
    assert forall|i: int| 0 <= i < found@.len() implies (#[trigger] found@[i])@ == all[i] by {
        assert(found@.map_values(view)[i] == all[i]);
    }
    while found.len() > 0
        invariant
            g == graph@,
            view == (|c: CommitSet| c@),
            component_view == (|c: Component| c@),
            all == components_of(g, exacts@),
            components@.len() + found@.len() == all.len(),
            forall|i: int|
                0 <= i < found@.len() ==> (#[trigger] found@[i])@ == all[components@.len() + i],
            checked_components(g, all.take(components@.len() as int)) == Ok::<
                Seq<ComponentView>,
                RefusalView,
            >(components@.map_values(component_view)),
        decreases found@.len(),
    {
        let ghost k = components@.len() as int;
        assert(found@[0]@ == all[k]);
        let ghost rest = found@;
        let commits = found.remove(0);
        assert(forall|i: int| 0 <= i < found@.len() ==> #[trigger] found@[i] == rest[i + 1]);
        proof {
            assert(all.take(k + 1).drop_last() =~= all.take(k));
            assert(all.take(k + 1).last() == commits@);
        }
        let roots = graph.query_roots(&commits);
        let root_list = graph.commit_set_to_vec(&roots);
        if root_list.len() != 1 {
            proof {
                lemma_first_fault_stays(g, all, k + 1);
            }
            return Err(Refusal::ExactRoots { count: root_list.len(), roots });
        }
        let root = root_list[0];
        let parents = graph.query_parents(&CommitSet::from_commit(root));
        let count = graph.set_count(&parents);
        if count != 1 {
            proof {
                lemma_first_fault_stays(g, all, k + 1);
            }
            return Err(Refusal::ExactParents { count, parents });
        }
        let ghost last = components@;
        components.push(Component { root, commits });
        assert(components@.map_values(component_view) =~= last.map_values(component_view).push(
            ComponentView { root, commits: commits@ },
        ));
    }
    assert(all.take(all.len() as int) =~= all);
    Ok(components)
}

/// The revset of the destination: the one that was given, or the name of HEAD.
pub fn choose_dest(dest: Option<String>, head_name: Option<String>) -> (r: Result<String, Refusal>)
    ensures
        match r {
            Ok(revset) => match dest {
                Some(given) => revset == given,
                None => head_name == Some(revset),
            },
            Err(refusal) => dest is None && head_name is None && refusal is NoDestination,
        },
{
    match dest {
        Some(dest) => Ok(dest),
        None => match head_name {
            Some(name) => Ok(name),
            None => Err(Refusal::NoDestination),
        },
    }
}

/// The arguments of the command after their revsets were resolved. A list holds one set for each
/// revset that was given; where a revset cannot be resolved, the argument is `None`.
pub struct MoveArguments {
    /// The commit that is checked out.
    pub head: Option<CommitId>,
    /// The commits to move with their descendants.
    pub sources: Option<Vec<CommitSet>>,
    /// The commits to move with the branches they are on.
    pub bases: Option<Vec<CommitSet>>,
    /// The commits to move without their descendants.
    pub exacts: Option<Vec<CommitSet>>,
    /// The commits that the revset of the destination stands for.
    pub dest: Option<CommitSet>,
}

/// Whether every commit of the sets is in the graph.
pub open spec fn all_known(g: Parents, sets: Option<Vec<CommitSet>>) -> bool {
    sets matches Some(sets) ==> forall|c: usize| #[trigger]
        union_of(sets@).contains(c) ==> c < g.len()
}

impl MoveArguments {
    /// Whether every commit of the arguments is in the graph.
    pub open spec fn known_in(&self, g: Parents) -> bool {
        &&& self.head matches Some(head) ==> head < g.len()
        &&& all_known(g, self.sources)
        &&& all_known(g, self.bases)
        &&& all_known(g, self.exacts)
        &&& self.dest matches Some(dest) ==> forall|c: usize| #[trigger]
            dest@.contains(c) ==> c < g.len()
    }
}

/// What is moved, and where to.
pub struct Selection {
    /// The commits that are moved with their descendants.
    pub sources: CommitSet,
    /// Those among them that stand for a branch.
    pub bases: CommitSet,
    /// The components that are moved without their descendants.
    pub components: Vec<Component>,
    /// The commit that they are moved to.
    pub dest: CommitId,
}

/// What is moved, and where to, for specifications.
#[verifier::ext_equal]
pub struct SelectionView {
    pub sources: Set<usize>,
    pub bases: Set<usize>,
    pub components: Seq<ComponentView>,
    pub dest: usize,
}

impl View for Selection {
    type V = SelectionView;

    open spec fn view(&self) -> SelectionView {
        SelectionView {
            sources: self.sources@,
            bases: self.bases@,
            components: self.components@.map_values(|c: Component| c@),
            dest: self.dest,
        }
    }
}

/// The commits at which the branches of the commits of `s` begin, seen from the destination.
pub open spec fn branch_bases(g: Parents, s: Set<usize>, dest: usize) -> Set<usize> {
    Set::new(
        |base: usize|
            exists|c: usize|
                c < g.len() && #[trigger] s.contains(c) && base == base_commit_of(
                    g,
                    gca_of(g, c, dest),
                    c,
                ),
    )
}

/// The commits at which the branches of the commits of the set begin, seen from the destination.
fn resolve_bases(graph: &CommitGraph, set: &CommitSet, dest: CommitId) -> (r: CommitSet)
    ensures
        r@ == branch_bases(graph@, set@, dest),
{
    let ghost g = graph@;
    let commits = graph.commit_set_to_vec(set);
    let ghost base_of = |c: usize| base_commit_of(g, gca_of(g, c, dest), c);
    let mut bases: Vec<CommitId> = Vec::new();
    for i in 0..commits.len()
        invariant
            g == graph@,
            base_of == (|c: usize| base_commit_of(g, gca_of(g, c, dest), c)),
            bases@ == commits@.take(i as int).map_values(base_of),
    {
        let commit = commits[i];
        let merge_base = graph.query_gca_one(commit, dest);
        bases.push(resolve_base_commit(graph, merge_base, commit));
        assert(bases@ =~= commits@.take(i + 1).map_values(base_of));
    }
    proof {
        use_type_invariant(graph);
        graph.lemma_is_graph();
        lemma_newest_first(set@, g.len() as int);
        assert(commits@.take(commits@.len() as int) =~= commits@);
        assert forall|b: usize|
            bases@.to_set().contains(b) <==> branch_bases(g, set@, dest).contains(b) by {
            if bases@.contains(b) {
                let j = choose|j: int| 0 <= j < bases@.len() && bases@[j] == b;
                assert(commits@.contains(commits@[j]));
                assert(set@.contains(commits@[j]));
            }
            if branch_bases(g, set@, dest).contains(b) {
                let c = choose|c: usize|
                    c < g.len() && #[trigger] set@.contains(c) && b == base_commit_of(
                        g,
                        gca_of(g, c, dest),
                        c,
                    );
                assert(commits@.contains(c));
                let j = choose|j: int| 0 <= j < commits@.len() && commits@[j] == c;
                assert(bases@[j] == b);
            }
        }
        assert(bases@.to_set() =~= branch_bases(g, set@, dest));
    }
    CommitSet::from_commits(bases)
}

/// What the arguments select, or the first thing that is wrong with them.
pub open spec fn selection_of(
    g: Parents,
    arguments: MoveArguments,
    dest_revset: Seq<char>,
) -> Result<SelectionView, RefusalView> {
    match (arguments.sources, arguments.bases, arguments.exacts) {
        (None, _, _) => Err(RefusalView::Unresolved(Argument::Sources)),
        (_, None, _) => Err(RefusalView::Unresolved(Argument::Bases)),
        (_, _, None) => Err(RefusalView::Unresolved(Argument::Exacts)),
        (Some(sources), Some(bases), Some(exacts)) => match (
            checked_components(g, components_of(g, union_of(exacts@))),
            arguments.dest,
        ) {
            (Err(refusal), _) => Err(refusal),
            (_, None) => Err(RefusalView::Unresolved(Argument::Destination)),
            (Ok(components), Some(dest)) => {
                let targets = list_of(g, dest@);
                let use_head = sources@.len() == 0 && bases@.len() == 0 && exacts@.len() == 0;
                if targets.len() != 1 {
                    Err(
                        RefusalView::DestinationCount {
                            count: targets.len(),
                            revset: dest_revset,
                        },
                    )
                } else if use_head && arguments.head is None {
                    Err(RefusalView::NoSource)
                } else {
                    let branches = branch_bases(
                        g,
                        if use_head {
                            set![arguments.head->0]
                        } else {
                            union_of(bases@)
                        },
                        targets[0],
                    );
                    Ok(
                        SelectionView {
                            sources: union_of(sources@).union(branches),
                            bases: branches,
                            components,
                            dest: targets[0],
                        },
                    )
                }
            },
        },
    }
}

/// Finds what is moved and where to. Where nothing is given to move, it is the branch of HEAD.
pub fn select(graph: &CommitGraph, arguments: &MoveArguments, dest_revset: &String) -> (r: Result<
    Selection,
    Refusal,
>)
    ensures
        match r {
            Ok(selection) => selection_of(graph@, *arguments, dest_revset@) == Ok::<
                SelectionView,
                RefusalView,
            >(selection@),
            Err(refusal) => selection_of(graph@, *arguments, dest_revset@) == Err::<
                SelectionView,
                RefusalView,
            >(refusal@),
        },
        r matches Ok(selection) ==> is_sound(graph@, selection@.components),
{
    let sources = match &arguments.sources {
        Some(sources) => sources,
        None => {
            return Err(Refusal::Unresolved(Argument::Sources));
        },
    };
    let bases = match &arguments.bases {
        Some(bases) => bases,
        None => {
            return Err(Refusal::Unresolved(Argument::Bases));
        },
    };
    let exacts = match &arguments.exacts {
        Some(exacts) => exacts,
        None => {
            return Err(Refusal::Unresolved(Argument::Exacts));
        },
    };
    let components = match exact_components(graph, &union_all(exacts)) {
        Ok(components) => components,
        Err(refusal) => {
            return Err(refusal);
        },
    };
    let targets = match &arguments.dest {
        Some(dest) => graph.commit_set_to_vec(dest),
        None => {
            return Err(Refusal::Unresolved(Argument::Destination));
        },
    };
    if targets.len() != 1 {
        return Err(
            Refusal::DestinationCount { count: targets.len(), revset: dest_revset.clone() },
        );
    }
    let dest = targets[0];
    let named = if sources.len() == 0 && bases.len() == 0 && exacts.len() == 0 {
        match arguments.head {
            Some(head) => CommitSet::from_commit(head),
            None => {
                return Err(Refusal::NoSource);
            },
        }
    } else {
        union_all(bases)
    };
    let branches = resolve_bases(graph, &named, dest);
    proof {
        use_type_invariant(graph);
        graph.lemma_is_graph();
        law_accepted_components_are_sound(graph@, union_of(exacts@));
    }
    Ok(
        Selection {
            sources: union_all(sources).union(&branches),
            bases: branches,
            components,
            dest,
        },
    )
}

/// The commits of the components.
pub open spec fn component_commits(components: Seq<ComponentView>) -> Set<usize> {
    Set::new(
        |c: usize|
            exists|i: int| 0 <= i < components.len() && (#[trigger] components[i]).commits.contains(
                c,
            ),
    )
}

/// The commits of the components.
pub fn union_components(components: &Vec<Component>) -> (r: CommitSet)
    ensures
        r@ == component_commits(components@.map_values(|c: Component| c@)),
{
    let mut all: Vec<CommitId> = Vec::new();
    let ghost views = components@.map_values(|c: Component| c@);
    for i in 0..components.len()
        invariant
            views == components@.map_values(|c: Component| c@),
            forall|c: usize|
                #[trigger] all@.to_set().contains(c) <==> exists|j: int|
                    0 <= j < i && (#[trigger] views[j]).commits.contains(c),
    {
        append_commits(&mut all, &components[i].commits);
        assert(views[i as int].commits == components@[i as int].commits@);
    }
    assert(all@.to_set() =~= component_commits(views));
    CommitSet::from_commits(all)
}

/// The commits whose rewriting has to be permitted: those that are moved and, where they go in
/// front of the children of the destination, these too.
pub open spec fn rewrite_set_of(
    g: Parents,
    selection: SelectionView,
    fixup: bool,
    insert: bool,
) -> Set<usize> {
    let moved = selection.sources.union(component_commits(selection.components));
    if insert || fixup {
        moved.union(children_of(g, set![selection.dest]))
    } else {
        moved
    }
}

impl Selection {
    /// The commits whose rewriting has to be permitted.
    pub fn rewrite_set(&self, graph: &CommitGraph, fixup: bool, insert: bool) -> (r: CommitSet)
        ensures
            r@ == rewrite_set_of(graph@, self@, fixup, insert),
    {
        let moved = self.sources.union(&union_components(&self.components));
        if insert || fixup {
            moved.union(&graph.query_children(&CommitSet::from_commit(self.dest)))
        } else {
            moved
        }
    }
}

} // verus!
