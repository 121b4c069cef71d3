//! The course of the command: what is done next, and what that depends on.
//!
//! The repository is read and changed outside. A command says with an [`Action`] what is to be
//! done there, and is told with an [`Event`] what came of it.

use vstd::pervasive::unreached;
use vstd::prelude::*;

use crate::commit_set::{union_of, CommitId, CommitSet};
use crate::components::linked;
use crate::graph::{
    descendants_of, is_ancestor, known, parents_come_first, CommitGraph, Parents,
};
use crate::laws::{
    law_every_component_is_handled, law_plan_stays_within_the_rewrite_set, lemma_component, taken_by,
};
use crate::message::{Message, MessageView, RefusalView};
use crate::outcome::{
    conclude_build, conclude_execution, conclude_refusal, end_with, ending_of_build,
    ending_of_execution, ending_of_refusal, ends_with, hints_for, implicit_head_hints, BuildResult,
    Ending, EndingView, ExecutionResult, Failure, GivenArguments,
};
use crate::plan::{
    is_component_root, lemma_commits_of_root, plan_move, steps, Operation, OperationView,
    PlanOptions, Task,
};
use crate::selection::{
    choose_dest, component_commits, is_sound, law_accepted_components_are_sound,
    law_accepted_components_hold_what_was_given, rewrite_set_of, select, selection_of, Component,
    ComponentView, MoveArguments, Selection, SelectionView,
};

verus! {

/// What came of the last action.
pub enum Event {
    /// HEAD was read: the name of the commit that is checked out, if there is one.
    HeadRead { name: Option<String> },
    /// The revsets were resolved in the commit graph.
    Resolved { graph: CommitGraph, arguments: MoveArguments },
    /// Permission to rewrite the commits was asked for.
    PermissionChecked { granted: bool },
    /// The roots of the components were sorted.
    RootsSorted { order: Vec<CommitId> },
    /// The rebase plan was built.
    Built { build: BuildResult },
    /// The rebase plan was carried out.
    Executed { execution: ExecutionResult },
}

/// What is to be done next.
pub enum Action {
    /// Resolve the revsets of the arguments, with this one for the destination.
    ResolveRevsets { dest: String },
    /// Show the hints, and ask for permission to rewrite the commits.
    CheckPermission { hints: Vec<Message>, commits: CommitSet },
    /// Sort the commits topologically.
    SortRoots { roots: CommitSet },
    /// Build a rebase plan from the operations.
    BuildPlan { operations: Vec<Operation> },
    /// Carry out the rebase plan.
    ExecutePlan,
    /// End the command.
    Finish { ending: Ending },
}

/// What is to be done next, for specifications.
#[verifier::ext_equal]
pub enum ActionView {
    ResolveRevsets { dest: Seq<char> },
    CheckPermission { hints: Seq<MessageView>, commits: Set<usize> },
    SortRoots { roots: Set<usize> },
    BuildPlan { operations: Seq<OperationView> },
    ExecutePlan,
    Finish { ending: EndingView },
}

impl View for Action {
    type V = ActionView;

    open spec fn view(&self) -> ActionView {
        match self {
            Action::ResolveRevsets { dest } => ActionView::ResolveRevsets { dest: dest@ },
            Action::CheckPermission { hints, commits } => ActionView::CheckPermission {
                hints: hints@.map_values(|m: Message| m@),
                commits: commits@,
            },
            Action::SortRoots { roots } => ActionView::SortRoots { roots: roots@ },
            Action::BuildPlan { operations } => ActionView::BuildPlan {
                operations: steps(operations@),
            },
            Action::ExecutePlan => ActionView::ExecutePlan,
            Action::Finish { ending } => ActionView::Finish { ending: ending@ },
        }
    }
}

/// How far the command has come.
enum Stage {
    Starting { given: Option<String> },
    Resolving { is_dest_given: bool, dest: String },
    Permitting { graph: CommitGraph, selection: Selection },
    Sorting { graph: CommitGraph, selection: Selection },
    Building,
    Executing,
    Ended,
}

/// How far the command has come, for specifications.
#[verifier::ext_equal]
pub enum StageView {
    /// HEAD is to be read.
    Starting { given: Option<Seq<char>> },
    /// The revsets are to be resolved.
    Resolving { is_dest_given: bool, dest: Seq<char> },
    /// Permission is to be asked for.
    Permitting { graph: Parents, visible: Set<usize>, selection: SelectionView },
    /// The roots of the components are to be sorted.
    Sorting { graph: Parents, visible: Set<usize>, selection: SelectionView },
    /// The rebase plan is to be built.
    Building,
    /// The rebase plan is to be carried out.
    Executing,
    /// There is nothing left to do.
    Ended,
}

impl View for Stage {
    type V = StageView;

    closed spec fn view(&self) -> StageView {
        match self {
            Stage::Starting { given } => StageView::Starting {
                given: match given {
                    Some(dest) => Some(dest@),
                    None => None,
                },
            },
            Stage::Resolving { is_dest_given, dest } => StageView::Resolving {
                is_dest_given: *is_dest_given,
                dest: dest@,
            },
            Stage::Permitting { graph, selection } => StageView::Permitting {
                graph: graph@,
                visible: graph.visible_commits(),
                selection: selection@,
            },
            Stage::Sorting { graph, selection } => StageView::Sorting {
                graph: graph@,
                visible: graph.visible_commits(),
                selection: selection@,
            },
            Stage::Building => StageView::Building,
            Stage::Executing => StageView::Executing,
            Stage::Ended => StageView::Ended,
        }
    }
}

/// A command on its way.
pub struct Command {
    options: PlanOptions,
    dry_run: bool,
    stage: Stage,
}

/// A command on its way, for specifications.
#[verifier::ext_equal]
pub struct CommandView {
    /// How the commits are moved.
    pub options: PlanOptions,
    /// Whether the commits are left where they are.
    pub dry_run: bool,
    /// How far the command has come.
    pub stage: StageView,
}

impl View for Command {
    type V = CommandView;

    closed spec fn view(&self) -> CommandView {
        CommandView { options: self.options, dry_run: self.dry_run, stage: self.stage@ }
    }
}

/// The roots of the components.
pub open spec fn component_roots_of(components: Seq<ComponentView>) -> Set<usize> {
    Set::new(|c: usize| is_component_root(components, c))
}

/// The roots of the components.
fn component_roots(components: &Vec<Component>) -> (r: CommitSet)
    ensures
        r@ == component_roots_of(components@.map_values(|c: Component| c@)),
{
    let ghost views = components@.map_values(|c: Component| c@);
    let mut roots: Vec<CommitId> = Vec::new();
    for i in 0..components.len()
        invariant
            views == components@.map_values(|c: Component| c@),
            roots@.len() == i,
            forall|j: int| 0 <= j < i ==> #[trigger] roots@[j] == views[j].root,
    {
        roots.push(components[i].root);
    }
    proof {
        assert forall|c: usize|
            roots@.to_set().contains(c) <==> component_roots_of(views).contains(c) by {
            if roots@.contains(c) {
                let j = choose|j: int| 0 <= j < roots@.len() && roots@[j] == c;
                assert(views[j].root == c);
            }
            if is_component_root(views, c) {
                let j = choose|j: int| 0 <= j < views.len() && (#[trigger] views[j]).root == c;
                assert(roots@[j] == c);
            }
        }
        assert(roots@.to_set() =~= component_roots_of(views));
    }
    CommitSet::from_commits(roots)
}

/// Which of the arguments were given, as the resolved ones tell.
pub open spec fn given_in(arguments: MoveArguments, is_dest_given: bool) -> GivenArguments {
    GivenArguments {
        sources: arguments.sources->0@.len() > 0,
        bases: arguments.bases->0@.len() > 0,
        dest: is_dest_given,
    }
}

/// The hints on the arguments, where there is a HEAD.
pub open spec fn hints_of(
    g: Parents,
    arguments: MoveArguments,
    is_dest_given: bool,
    selection: SelectionView,
) -> Seq<MessageView> {
    match arguments.head {
        Some(head) => hints_for(g, given_in(arguments, is_dest_given), head, selection),
        None => seq![],
    }
}

impl CommandView {
    /// The command at another stage.
    pub open spec fn at(self, stage: StageView) -> CommandView {
        CommandView { options: self.options, dry_run: self.dry_run, stage }
    }

    /// The end of the command.
    pub open spec fn finish(self, ending: EndingView) -> (CommandView, ActionView) {
        (self.at(StageView::Ended), ActionView::Finish { ending })
    }

    /// Whether the event is one that the command waits for.
    pub open spec fn accepts(self, event: Event) -> bool {
        match (self.stage, event) {
            (StageView::Starting { .. }, Event::HeadRead { .. }) => true,
            (StageView::Resolving { .. }, Event::Resolved { .. }) => true,
            (StageView::Permitting { .. }, Event::PermissionChecked { .. }) => true,
            (StageView::Sorting { selection, .. }, Event::RootsSorted { order }) => {
                forall|i: int|
                    0 <= i < order@.len() ==> is_component_root(
                        selection.components,
                        #[trigger] order@[i],
                    )
            },
            (StageView::Building, Event::Built { .. }) => true,
            (StageView::Executing, Event::Executed { execution }) => execution is WouldSucceed
                ==> self.dry_run,
            _ => false,
        }
    }

    /// What the event leads to.
    pub open spec fn next(self, event: Event) -> (CommandView, ActionView) {
        match (self.stage, event) {
            (StageView::Starting { given }, Event::HeadRead { name }) => match (given, name) {
                (Some(dest), _) => (
                    self.at(StageView::Resolving { is_dest_given: true, dest }),
                    ActionView::ResolveRevsets { dest },
                ),
                (None, Some(name)) => (
                    self.at(StageView::Resolving { is_dest_given: false, dest: name@ }),
                    ActionView::ResolveRevsets { dest: name@ },
                ),
                (None, None) => self.finish(ending_of_refusal(RefusalView::NoDestination)),
            },
            (
                StageView::Resolving { is_dest_given, dest },
                Event::Resolved { graph, arguments },
            ) => match selection_of(graph@, arguments, dest) {
                Err(refusal) => self.finish(ending_of_refusal(refusal)),
                Ok(selection) => (
                    self.at(
                        StageView::Permitting {
                            graph: graph@,
                            visible: graph.visible_commits(),
                            selection,
                        },
                    ),
                    ActionView::CheckPermission {
                        hints: hints_of(graph@, arguments, is_dest_given, selection),
                        commits: rewrite_set_of(
                            graph@,
                            selection,
                            self.options.fixup,
                            self.options.insert,
                        ),
                    },
                ),
            },
            (
                StageView::Permitting { graph, visible, selection },
                Event::PermissionChecked { granted },
            ) => if granted {
                (
                    self.at(StageView::Sorting { graph, visible, selection }),
                    ActionView::SortRoots { roots: component_roots_of(selection.components) },
                )
            } else {
                self.finish(ends_with(Failure::Permission))
            },
            (StageView::Sorting { graph, visible, selection }, Event::RootsSorted { order }) => {
                let task = Task { graph, visible, selection, order: order@, options: self.options };
                match task.plan() {
                    Err(refusal) => self.finish(ending_of_refusal(refusal)),
                    Ok(operations) => (
                        self.at(StageView::Building),
                        ActionView::BuildPlan { operations },
                    ),
                }
            },
            (StageView::Building, Event::Built { build }) => match ending_of_build(build) {
                Some(ending) => self.finish(ending),
                None => (self.at(StageView::Executing), ActionView::ExecutePlan),
            },
            (StageView::Executing, Event::Executed { execution }) => self.finish(
                ending_of_execution(execution),
            ),
            _ => arbitrary(),
        }
    }
}

impl Command {
    #[verifier::type_invariant]
    spec fn sound(self) -> bool {
        match self.stage {
            Stage::Permitting { graph, selection } => is_sound(graph@, selection@.components),
            Stage::Sorting { graph, selection } => is_sound(graph@, selection@.components),
            _ => true,
        }
    }

    /// The command at its start, with the revset of the destination if one was given. First of
    /// all HEAD is to be read.
    pub fn new(dest: Option<String>, options: PlanOptions, dry_run: bool) -> (r: Command)
        ensures
            r@.options == options,
            r@.dry_run == dry_run,
            r@.stage == (StageView::Starting {
                given: match dest {
                    Some(dest) => Some(dest@),
                    None => None,
                },
            }),
    {
        Command { options, dry_run, stage: Stage::Starting { given: dest } }
    }

    /// Goes on after an event that the command waits for.
    pub fn advance(self, event: Event) -> (r: (Command, Action))
        requires
            self@.accepts(event),
        ensures
            (r.0@, r.1@) == self@.next(event),
    {
        proof {
            use_type_invariant(&self);
        }
        let ghost before = self@;
        let options = self.options;
        let dry_run = self.dry_run;
        let (stage, action) = match (self.stage, event) {
            (Stage::Starting { given }, Event::HeadRead { name }) => after_head(given, name),
            (
                Stage::Resolving { is_dest_given, dest },
                Event::Resolved { graph, arguments },
            ) => after_resolution(graph, &arguments, is_dest_given, &dest, options),
            (
                Stage::Permitting { graph, selection },
                Event::PermissionChecked { granted },
            ) => if granted {
                let roots = component_roots(&selection.components);
                (Stage::Sorting { graph, selection }, Action::SortRoots { roots })
            } else {
                (Stage::Ended, Action::Finish { ending: end_with(Failure::Permission) })
            },
            (Stage::Sorting { graph, selection }, Event::RootsSorted { order }) => match plan_move(
                &graph,
                &selection,
                &order,
                options,
            ) {
                Ok(operations) => (Stage::Building, Action::BuildPlan { operations }),
                Err(refusal) => (
                    Stage::Ended,
                    Action::Finish { ending: conclude_refusal(refusal) },
                ),
            },
            (Stage::Building, Event::Built { build }) => match conclude_build(build) {
                Some(ending) => (Stage::Ended, Action::Finish { ending }),
                None => (Stage::Executing, Action::ExecutePlan),
            },
            (Stage::Executing, Event::Executed { execution }) => (
                Stage::Ended,
                Action::Finish { ending: conclude_execution(execution, dry_run) },
            ),
            _ => unreached(),
        };
        (Command { options, dry_run, stage }, action)
    }
}

/// Goes on after HEAD was read.
fn after_head(dest: Option<String>, name: Option<String>) -> (r: (Stage, Action))
    ensures
        ({
            let given = match dest {
                Some(dest) => Some(dest@),
                None => None,
            };
            let chosen = match (dest, name) {
                (Some(dest), _) => Some(dest@),
                (None, Some(name)) => Some(name@),
                (None, None) => None,
            };
            match chosen {
                Some(chosen) => r.0@ == (StageView::Resolving {
                    is_dest_given: given is Some,
                    dest: chosen,
                }) && r.1@ == (ActionView::ResolveRevsets { dest: chosen }),
                None => r.0@ == StageView::Ended && r.1@ == (ActionView::Finish {
                    ending: ending_of_refusal(RefusalView::NoDestination),
                }),
            }
        }),
        !(r.0 is Permitting) && !(r.0 is Sorting),
{
    let is_dest_given = dest.is_some();
    match choose_dest(dest, name) {
        Ok(dest) => {
            let revset = dest.clone();
            (Stage::Resolving { is_dest_given, dest }, Action::ResolveRevsets { dest: revset })
        },
        Err(refusal) => (Stage::Ended, Action::Finish { ending: conclude_refusal(refusal) }),
    }
}

/// Goes on after the revsets were resolved.
fn after_resolution(
    graph: CommitGraph,
    arguments: &MoveArguments,
    is_dest_given: bool,
    dest: &String,
    options: PlanOptions,
) -> (r: (Stage, Action))
    ensures
        match selection_of(graph@, *arguments, dest@) {
            Err(refusal) => r.0@ == StageView::Ended && r.1@ == (ActionView::Finish {
                ending: ending_of_refusal(refusal),
            }),
            Ok(selection) => r.0@ == (StageView::Permitting {
                graph: graph@,
                visible: graph.visible_commits(),
                selection,
            }) && r.1@ == (ActionView::CheckPermission {
                hints: hints_of(graph@, *arguments, is_dest_given, selection),
                commits: rewrite_set_of(graph@, selection, options.fixup, options.insert),
            }),
        },
        !(r.0 is Sorting),
        r.0 matches Stage::Permitting { graph, selection } ==> is_sound(
            graph@,
            selection@.components,
        ),
{
    let selection = match select(&graph, arguments, dest) {
        Ok(selection) => selection,
        Err(refusal) => {
            return (Stage::Ended, Action::Finish { ending: conclude_refusal(refusal) });
        },
    };
    let given = GivenArguments {
        sources: match &arguments.sources {
            Some(sources) => sources.len() > 0,
            None => false,
        },
        bases: match &arguments.bases {
            Some(bases) => bases.len() > 0,
            None => false,
        },
        dest: is_dest_given,
    };
    let hints: Vec<Message> = match arguments.head {
        Some(head) => implicit_head_hints(&graph, given, head, &selection),
        None => Vec::new(),
    };
    assert(hints@.map_values(|m: Message| m@) =~= hints_of(
        graph@,
        *arguments,
        is_dest_given,
        selection@,
    ));
    let commits = selection.rewrite_set(&graph, options.fixup, options.insert);
    (Stage::Permitting { graph, selection }, Action::CheckPermission { hints, commits })
}

impl StageView {
    /// How many stages are behind the command.
    pub open spec fn rank(self) -> nat {
        match self {
            StageView::Starting { .. } => 0,
            StageView::Resolving { .. } => 1,
            StageView::Permitting { .. } => 2,
            StageView::Sorting { .. } => 3,
            StageView::Building => 4,
            StageView::Executing => 5,
            StageView::Ended => 6,
        }
    }
}

/// Every command ends: each event takes it to a later stage, and it finishes exactly when it gets
/// to the last one. It keeps how it was asked to move the commits.
pub proof fn law_every_event_leads_on(command: CommandView, event: Event)
    requires
        command.accepts(event),
    ensures
        ({
            let (next, action) = command.next(event);
            &&& next.stage.rank() > command.stage.rank()
            &&& next.stage is Ended <==> action is Finish
            &&& next.options == command.options
            &&& next.dry_run == command.dry_run
        }),
{
}

/// Nothing is rewritten without permission: where a plan is to be built, permission was granted,
/// and every commit that a step takes elsewhere is, or descends from, a commit for which it was
/// asked.
pub proof fn law_plans_are_permitted(
    command: CommandView,
    resolved: Event,
    checked: Event,
    sorted: Event,
)
    requires
        command.stage is Resolving,
        command.accepts(resolved),
        parents_come_first(resolved->graph@),
        resolved->graph@.len() <= usize::MAX,
        command.next(resolved).0.accepts(checked),
        command.next(resolved).0.next(checked).0.accepts(sorted),
        checked is PermissionChecked,
        sorted is RootsSorted,
        command.next(resolved).0.next(checked).0.next(sorted).1 is BuildPlan,
    ensures
        checked->granted,
        command.next(resolved).1 is CheckPermission,
        ({
            let operations = command.next(resolved).0.next(checked).0.next(sorted).1->operations;
            let permitted = command.next(resolved).1->commits;
            forall|i: int|
                0 <= i < operations.len() ==> descendants_of(
                    resolved->graph@,
                    permitted,
                ).contains(taken_by(#[trigger] operations[i]))
        }),
{
    let graph = resolved->graph;
    let arguments = resolved->arguments;
    let selection = selection_of(graph@, arguments, command.stage->dest)->Ok_0;
    law_accepted_components_are_sound(graph@, union_of(arguments.exacts->0@));
    let task = Task {
        graph: graph@,
        visible: graph.visible_commits(),
        selection,
        order: sorted->order@,
        options: command.options,
    };
    law_plan_stays_within_the_rewrite_set(task);
}

/// Nothing that was given to be moved exactly is left where it is: where a plan is to be built and
/// the sorted roots are all those that were to be sorted, each such commit of the graph is folded
/// into the destination, or it is linked to an ancestor among these commits that is moved.
pub proof fn law_exact_commits_are_handled(
    command: CommandView,
    resolved: Event,
    checked: Event,
    sorted: Event,
    commit: usize,
)
    requires
        command.stage is Resolving,
        command.accepts(resolved),
        parents_come_first(resolved->graph@),
        resolved->graph@.len() <= usize::MAX,
        command.next(resolved).0.accepts(checked),
        command.next(resolved).0.next(checked).0.accepts(sorted),
        checked is PermissionChecked,
        sorted is RootsSorted,
        command.next(resolved).0.next(checked).0.next(sorted).1 is BuildPlan,
        forall|c: usize| #[trigger]
            command.next(resolved).0.next(checked).1->roots.contains(c)
                ==> sorted->order@.contains(c),
        commit < resolved->graph@.len(),
        union_of(resolved->arguments.exacts->0@).contains(commit),
    ensures
        ({
            let exacts = union_of(resolved->arguments.exacts->0@);
            let operations = command.next(resolved).0.next(checked).0.next(sorted).1->operations;
            let selection = selection_of(
                resolved->graph@,
                resolved->arguments,
                command.stage->dest,
            )->Ok_0;
            if command.options.fixup {
                operations.contains(
                    OperationView::FixupCommit { commit, dest: selection.dest },
                )
            } else {
                exists|root: usize, dest: usize|
                    {
                        &&& exacts.contains(root)
                        &&& is_ancestor(resolved->graph@, root, commit)
                        &&& linked(resolved->graph@, exacts, root, commit)
                        &&& #[trigger] operations.contains(
                            OperationView::MoveSubtree { root, dest },
                        )
                    }
            }
        }),
{
    let graph = resolved->graph;
    let arguments = resolved->arguments;
    let exacts = union_of(arguments.exacts->0@);
    let selection = selection_of(graph@, arguments, command.stage->dest)->Ok_0;
    let components = selection.components;
    law_accepted_components_are_sound(graph@, exacts);
    law_accepted_components_hold_what_was_given(graph@, exacts);
    let task = Task {
        graph: graph@,
        visible: graph.visible_commits(),
        selection,
        order: sorted->order@,
        options: command.options,
    };
    assert forall|c: usize| #[trigger] is_component_root(
        components,
        c,
    ) implies task.order.contains(c) by {
        assert(component_roots_of(components).contains(c));
        assert(command.next(resolved).0.next(checked).1->roots.contains(c));
    }
    assert(component_commits(components).contains(commit));
    let i = choose|i: int|
        0 <= i < components.len() && (#[trigger] components[i]).commits.contains(commit);
    law_every_component_is_handled(task, i);
    let root = components[i].root;
    assert(is_component_root(components, root));
    let n = lemma_component(graph@, components, root);
    lemma_commits_of_root(graph@, components, i);
    assert(components[i].commits.contains(root));
    assert(component_commits(components).contains(root));
    assert(is_ancestor(graph@, root, commit)) by {
        assert(components[n].commits.contains(commit));
    }
    assert(components[i].commits.contains(commit) <==> linked(graph@, exacts, root, commit));
    assert(known(graph@, exacts).contains(root));
    let operations = command.next(resolved).0.next(checked).0.next(sorted).1->operations;
    assert(operations == task.plan()->Ok_0);
    if !command.options.fixup {
        let dest = task.component_dest(root)->0;
        assert(operations.contains(OperationView::MoveSubtree { root, dest }));
    }
}

/// A plan is carried out only after it was built, and the command ends well only when there was
/// nothing to do, or the plan was carried out or would have been in a dry run.
pub proof fn law_success_is_earned(command: CommandView, event: Event)
    requires
        command.accepts(event),
    ensures
        ({
            let action = command.next(event).1;
            &&& action is ExecutePlan ==> event == (Event::Built { build: BuildResult::Planned })
            &&& action is Finish && action->ending.exit is Ok ==> {
                ||| event == (Event::Built { build: BuildResult::Empty })
                ||| event == (Event::Executed { execution: ExecutionResult::Succeeded })
                ||| event == (Event::Executed { execution: ExecutionResult::WouldSucceed })
                    && command.dry_run
            }
        }),
{
}

/// When a command is refused before its plan is carried out, its exit code is 1, and the user is
/// told why: by a message, or by the description of what failed.
pub proof fn law_refusals_are_explained(command: CommandView, event: Event)
    requires
        command.accepts(event),
        !(event is Executed),
        command.next(event).1 is Finish,
        command.next(event).1->ending.exit is Err,
    ensures
        ({
            let ending = command.next(event).1->ending;
            &&& ending.exit == Err::<(), isize>(1)
            &&& ending.message is Some <==> ending.failure is None
        }),
{
}

} // verus!
