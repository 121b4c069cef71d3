//! What the user is told, how the command ends, and what it does when.

use vstd::prelude::*;

use crate::command::{component_roots_of, Action, ActionView, CommandView, Event, StageView};
use crate::graph::{is_parent, list_of, CommitGraph, Parents};
use crate::laws::arguments::{law_rewrite_set_in_full, lemma_only_one};
use crate::message::{
    refusal_message, Message, MessageView, Part, PartView, Refusal, RefusalView, Stream,
};
use crate::outcome::{
    ending_of_build, ending_of_execution, ending_of_refusal, hints_for, BuildResult, Ending,
    EndingView, ExecutionResult, Failure, GivenArguments,
};
use crate::plan::{is_component_root, task_of, Operation, OperationView, PlanOptions, Task};
use crate::selection::{selection_of, Selection, SelectionView};

verus! {

/// The hint with the given text.
spec fn hint_with(text: Seq<char>) -> MessageView {
    MessageView { stream: Stream::Output, parts: seq![PartView::HintLabel, PartView::Text(text)] }
}

/// There is a hint on `--base` exactly when it was given without `--source` and stands for HEAD and
/// nothing else, and a hint on `--dest` exactly when it was given and is HEAD. The hint on `--base`
/// comes first.
pub proof fn law_hints_in_full(
    g: Parents,
    given: GivenArguments,
    head: usize,
    selection: SelectionView,
)
    requires
        g.len() <= usize::MAX,
        head < g.len(),
    ensures
        ({
            let is_base = !given.sources && given.bases && selection.bases.contains(head)
                && forall|b: usize|
                b < g.len() && #[trigger] selection.bases.contains(b) ==> b == head;
            let is_dest = given.dest && selection.dest == head;
            let base = MessageView {
                stream: Stream::Output,
                parts: seq![
                    PartView::HintLabel,
                    PartView::Text(
                        ": you can omit the --base flag in this case, as it defaults to HEAD"@,
                    ),
                ],
            };
            let dest = MessageView {
                stream: Stream::Output,
                parts: seq![
                    PartView::HintLabel,
                    PartView::Text(
                        ": you can omit the --dest flag in this case, as it defaults to HEAD"@,
                    ),
                ],
            };
            hints_for(g, given, head, selection) == (if is_base && is_dest {
                seq![base, dest]
            } else if is_base {
                seq![base]
            } else if is_dest {
                seq![dest]
            } else {
                seq![]
            })
        }),
{
    lemma_only_one(g, selection.bases);
    let hints = hints_for(g, given, head, selection);
    let base = hint_with(": you can omit the --base flag in this case, as it defaults to HEAD"@);
    let dest = hint_with(": you can omit the --dest flag in this case, as it defaults to HEAD"@);
    let one = list_of(g, selection.bases).len() == 1;
    if selection.bases.contains(head) {
        assert(one <==> forall|b: usize|
            b < g.len() && #[trigger] selection.bases.contains(b) ==> b == head);
    }
    assert(hints =~= seq![base, dest] || hints =~= seq![base] || hints =~= seq![dest] || hints
        =~= seq![]);
}

/// What a refusal is about is in the message that tells of it: the counts and the commits that
/// were found wrong, the revset as it was given, and the roots by their commits. Only a revset that
/// cannot be resolved has no message.
pub proof fn law_messages_name_what_is_wrong(refusal: RefusalView)
    ensures
        ({
            let message = refusal_message(refusal);
            &&& message is None <==> refusal is Unresolved
            &&& match refusal {
                RefusalView::Unresolved(_) => true,
                RefusalView::NoDestination | RefusalView::NoSource | RefusalView::ManyHeads => {
                    &&& message->0.stream == Stream::Output
                    &&& message->0.parts.len() == 1
                    &&& message->0.parts[0] is Text
                },
                RefusalView::ExactRoots { count, roots } => {
                    &&& message->0.stream == Stream::Error
                    &&& message->0.parts.len() == 4
                    &&& message->0.parts[1] == PartView::Count(count)
                    &&& message->0.parts[3] == PartView::Commits(roots)
                },
                RefusalView::ExactParents { count, parents } => {
                    &&& message->0.stream == Stream::Output
                    &&& message->0.parts.len() == 4
                    &&& message->0.parts[1] == PartView::Count(count)
                    &&& message->0.parts[3] == PartView::Commits(parents)
                },
                RefusalView::DestinationCount { count, revset } => {
                    &&& message->0.stream == Stream::Error
                    &&& message->0.parts.len() == 4
                    &&& message->0.parts[1] == PartView::Count(count)
                    &&& message->0.parts[3] == PartView::Revset(revset)
                },
                RefusalView::ManyPossibleParents { root, is_single } => {
                    &&& message->0.stream == Stream::Output
                    &&& message->0.parts.len() == 7
                    &&& message->0.parts[1] == PartView::Text(
                        if is_single {
                            "commit"@
                        } else {
                            "range of commits rooted"@
                        },
                    )
                    &&& message->0.parts[3] == PartView::Commit(root)
                    &&& message->0.parts[5] == PartView::Text(
                        if is_single {
                            "commit"@
                        } else {
                            "range of commits"@
                        },
                    )
                },
                RefusalView::NotALineage { ancestor, descendant } => {
                    &&& message->0.stream == Stream::Output
                    &&& message->0.parts.len() == 5
                    &&& message->0.parts[1] == PartView::Commit(ancestor)
                    &&& message->0.parts[3] == PartView::Commit(descendant)
                },
            }
        }),
{
}

/// Every refusal ends the command with exit code 1 and its message, or with the description of the
/// revset that cannot be resolved. Without anything to rebase the command ends well and says so. A
/// plan that cannot be built, and merge conflicts, end it with exit code 1 and their description.
/// Success ends it well without a word, a dry run with a word, and another failure with its own
/// exit code.
pub proof fn law_endings_in_full(
    refusal: RefusalView,
    build: BuildResult,
    execution: ExecutionResult,
)
    ensures
        ending_of_refusal(refusal) == (EndingView {
            message: refusal_message(refusal),
            failure: match refusal {
                RefusalView::Unresolved(argument) => Some(Failure::Revset(argument)),
                _ => None,
            },
            exit: Err(1),
        }),
        ending_of_build(build) is None <==> build is Planned,
        build is Empty ==> {
            let ending = ending_of_build(build)->0;
            &&& ending.exit == Ok::<(), isize>(())
            &&& ending.failure is None
            &&& ending.message == Some(
                MessageView {
                    stream: Stream::Output,
                    parts: seq![PartView::Text("Nothing to do."@)],
                },
            )
        },
        build is Failed ==> ending_of_build(build) == Some(
            EndingView { message: None, failure: Some(Failure::Build), exit: Err(1) },
        ),
        ({
            let ending = ending_of_execution(execution);
            match execution {
                ExecutionResult::Succeeded => ending == (EndingView {
                    message: None,
                    failure: None,
                    exit: Ok(()),
                }),
                ExecutionResult::WouldSucceed => {
                    &&& ending.exit == Ok::<(), isize>(())
                    &&& ending.failure is None
                    &&& ending.message is Some
                    &&& ending.message->0.stream == Stream::Output
                },
                ExecutionResult::DeclinedToMerge => ending == (EndingView {
                    message: None,
                    failure: Some(Failure::Merge),
                    exit: Err(1),
                }),
                ExecutionResult::Failed { exit_code } => ending == (EndingView {
                    message: None,
                    failure: None,
                    exit: Err(exit_code),
                }),
            }
        }),
{
}

/// A command waits for one kind of event at each stage, and at the end for none. The sorted roots
/// have to be roots of components, and only a dry run may leave it at saying that the plan would
/// succeed.
pub proof fn law_what_is_waited_for(command: CommandView, event: Event)
    ensures
        command.accepts(event) <==> match command.stage {
            StageView::Starting { .. } => event is HeadRead,
            StageView::Resolving { .. } => event is Resolved,
            StageView::Permitting { .. } => event is PermissionChecked,
            StageView::Sorting { selection, .. } => event matches Event::RootsSorted { order }
                && forall|i: int|
                0 <= i < order@.len() ==> is_component_root(
                    selection.components,
                    #[trigger] order@[i],
                ),
            StageView::Building => event is Built,
            StageView::Executing => event matches Event::Executed { execution } && (
            execution is WouldSucceed ==> command.dry_run),
            StageView::Ended => false,
        },
{
}

/// First the destination is settled: it is the one that was given, whatever HEAD is, or else HEAD,
/// and without both the command is refused.
pub proof fn law_start(command: CommandView, name: Option<String>, given: Option<Seq<char>>)
    requires
        command.stage == (StageView::Starting { given }),
    ensures
        ({
            let (next, action) = command.next(Event::HeadRead { name });
            match (given, name) {
                (None, None) => next.stage is Ended && action == (ActionView::Finish {
                    ending: ending_of_refusal(RefusalView::NoDestination),
                }),
                _ => {
                    let dest = if given is Some {
                        given->0
                    } else {
                        name->0@
                    };
                    &&& next.stage == (StageView::Resolving {
                        is_dest_given: given is Some,
                        dest,
                    })
                    &&& action == (ActionView::ResolveRevsets { dest })
                },
            }
        }),
{
}

/// Once the revsets are resolved, the command is refused as the selection is, or permission is
/// asked for: for a commit exactly when it is in the sources, in a component or, with `--insert` or
/// `--fixup`, a child of the destination. The hints are those on HEAD, and there are none without
/// it.
pub proof fn law_resolution(command: CommandView, event: Event)
    requires
        command.accepts(event),
        command.stage is Resolving,
    ensures
        ({
            let graph = event->graph;
            let arguments = event->arguments;
            let (next, action) = command.next(event);
            match selection_of(graph@, arguments, command.stage->dest) {
                Err(refusal) => next.stage is Ended && action == (ActionView::Finish {
                    ending: ending_of_refusal(refusal),
                }),
                Ok(selection) => {
                    &&& next.stage == (StageView::Permitting {
                        graph: graph@,
                        visible: graph.visible_commits(),
                        selection,
                    })
                    &&& action is CheckPermission
                    &&& forall|c: usize| #[trigger]
                        action->commits.contains(c) <==> {
                            ||| selection.sources.contains(c)
                            ||| exists|i: int|
                                0 <= i < selection.components.len() && (
                                #[trigger] selection.components[i]).commits.contains(c)
                            ||| (command.options.insert || command.options.fixup) && is_parent(
                                graph@,
                                selection.dest,
                                c,
                            )
                        }
                    &&& action->hints == match arguments.head {
                        Some(head) => hints_for(
                            graph@,
                            GivenArguments {
                                sources: arguments.sources->0@.len() > 0,
                                bases: arguments.bases->0@.len() > 0,
                                dest: command.stage->is_dest_given,
                            },
                            head,
                            selection,
                        ),
                        None => seq![],
                    }
                },
            }
        }),
{
    let graph = event->graph;
    if let Ok(selection) = selection_of(graph@, event->arguments, command.stage->dest) {
        assert forall|c: usize| #[trigger] command.next(event).1->commits.contains(c) <==> {
            ||| selection.sources.contains(c)
            ||| exists|i: int|
                0 <= i < selection.components.len() && (
                #[trigger] selection.components[i]).commits.contains(c)
            ||| (command.options.insert || command.options.fixup) && is_parent(
                graph@,
                selection.dest,
                c,
            )
        } by {
            law_rewrite_set_in_full(
                graph@,
                selection,
                command.options.fixup,
                command.options.insert,
                c,
            );
        }
    }
}

/// Without permission the command ends with exit code 1 and nothing is planned. With it, the roots
/// of all components are sorted, and nothing else that was found changes.
pub proof fn law_permission(command: CommandView, granted: bool)
    requires
        command.stage is Permitting,
    ensures
        ({
            let (next, action) = command.next(Event::PermissionChecked { granted });
            if granted {
                &&& next.stage == (StageView::Sorting {
                    graph: command.stage->Permitting_graph,
                    visible: command.stage->Permitting_visible,
                    selection: command.stage->Permitting_selection,
                })
                &&& action is SortRoots
                &&& forall|c: usize| #[trigger]
                    action->roots.contains(c) <==> exists|n: int|
                        0 <= n < command.stage->Permitting_selection.components.len() && (
                        #[trigger] command.stage->Permitting_selection.components[n]).root == c
            } else {
                &&& next.stage is Ended
                &&& action == (ActionView::Finish {
                    ending: EndingView {
                        message: None,
                        failure: Some(Failure::Permission),
                        exit: Err(1),
                    },
                })
            }
        }),
{
    let components = command.stage->Permitting_selection.components;
    assert forall|c: usize| #[trigger] component_roots_of(components).contains(c) <==> exists|n:
        int|
        0 <= n < components.len() && (#[trigger] components[n]).root == c by {}
}

/// Once the roots are sorted, the plan of what was selected is built, with the roots in that order
/// and the commits moved as was asked for, or the command is refused as the plan is.
pub proof fn law_sorting(command: CommandView, order: Vec<usize>)
    requires
        command.stage is Sorting,
    ensures
        ({
            let (next, action) = command.next(Event::RootsSorted { order });
            let task = Task {
                graph: command.stage->Sorting_graph,
                visible: command.stage->Sorting_visible,
                selection: command.stage->Sorting_selection,
                order: order@,
                options: command.options,
            };
            match task.plan() {
                Ok(operations) => next.stage is Building && action == (ActionView::BuildPlan {
                    operations,
                }),
                Err(refusal) => next.stage is Ended && action == (ActionView::Finish {
                    ending: ending_of_refusal(refusal),
                }),
            }
        }),
{
}

/// A plan is carried out exactly when one was built, and the command then ends as that came out.
pub proof fn law_building_and_execution(command: CommandView, event: Event)
    requires
        command.accepts(event),
        event is Built || event is Executed,
    ensures
        ({
            let (next, action) = command.next(event);
            match event {
                Event::Built { build: BuildResult::Planned } => next.stage is Executing
                    && action is ExecutePlan,
                Event::Built { build } => next.stage is Ended && action == (ActionView::Finish {
                    ending: ending_of_build(build)->0,
                }),
                Event::Executed { execution } => next.stage is Ended && action == (
                ActionView::Finish { ending: ending_of_execution(execution) }),
                _ => true,
            }
        }),
{
}

/// A plan is made from the graph, its visible commits, the selection, the order of the roots and
/// the options, all as they are, and its operations are read as they are.
pub proof fn law_tasks_and_steps(
    graph: CommitGraph,
    selection: Selection,
    order: Seq<usize>,
    options: PlanOptions,
    operation: Operation,
)
    ensures
        ({
            let task = task_of(graph, selection, order, options);
            &&& task.graph == graph@
            &&& task.visible == graph.visible_commits()
            &&& task.selection.sources == selection.sources@
            &&& task.selection.bases == selection.bases@
            &&& task.selection.dest == selection.dest
            &&& task.selection.components.len() == selection.components@.len()
            &&& forall|i: int|
                0 <= i < selection.components@.len() ==> {
                    let component = #[trigger] task.selection.components[i];
                    &&& component.root == selection.components@[i].root
                    &&& component.commits == selection.components@[i].commits@
                }
            &&& task.order == order
            &&& task.options == options
        }),
        match operation {
            Operation::MoveSubtree { root, dest } => operation@ == (OperationView::MoveSubtree {
                root,
                dest,
            }),
            Operation::MoveRange { start, end, dest } => operation@ == (OperationView::MoveRange {
                start,
                end,
                dest,
            }),
            Operation::FixupCommit { commit, dest } => operation@ == (OperationView::FixupCommit {
                commit,
                dest,
            }),
            Operation::ReparentSubtree { root, parents } => operation@ == (
            OperationView::ReparentSubtree { root, parents: parents@ }),
        },
{
}

/// What is handed out is read as it is: refusals, the parts of messages, messages and endings.
pub proof fn law_reports_are_read_as_they_are(
    refusal: Refusal,
    part: Part,
    message: Message,
    ending: Ending,
)
    ensures
        match refusal {
            Refusal::NoDestination => refusal@ is NoDestination,
            Refusal::Unresolved(argument) => refusal@ == RefusalView::Unresolved(argument),
            Refusal::ExactRoots { count, roots } => refusal@ == (RefusalView::ExactRoots {
                count: count as nat,
                roots: roots@,
            }),
            Refusal::ExactParents { count, parents } => refusal@ == (RefusalView::ExactParents {
                count: count as nat,
                parents: parents@,
            }),
            Refusal::DestinationCount { count, revset } => refusal@ == (
            RefusalView::DestinationCount { count: count as nat, revset: revset@ }),
            Refusal::NoSource => refusal@ is NoSource,
            Refusal::ManyPossibleParents { root, is_single } => refusal@ == (
            RefusalView::ManyPossibleParents { root, is_single }),
            Refusal::NotALineage { ancestor, descendant } => refusal@ == (
            RefusalView::NotALineage { ancestor, descendant }),
            Refusal::ManyHeads => refusal@ is ManyHeads,
        },
        match part {
            Part::Text(text) => part@ == PartView::Text(text@),
            Part::Count(count) => part@ == PartView::Count(count as nat),
            Part::Commit(commit) => part@ == PartView::Commit(commit),
            Part::Commits(commits) => part@ == PartView::Commits(commits@),
            Part::Revset(revset) => part@ == PartView::Revset(revset@),
            Part::HintLabel => part@ is HintLabel,
        },
        message@.stream == message.stream,
        message@.parts.len() == message.parts@.len(),
        forall|i: int|
            0 <= i < message.parts@.len() ==> #[trigger] message@.parts[i] == message.parts@[i]@,
        ending@.exit == ending.exit,
        ending@.failure == ending.failure,
        ending@.message is Some <==> ending.message is Some,
        ending.message is Some ==> ending@.message->0 == ending.message->0@,
{
}

/// What is to be done is read as it is.
pub proof fn law_actions_are_read_as_they_are(action: Action)
    ensures
        match action {
            Action::ResolveRevsets { dest } => action@ == (ActionView::ResolveRevsets {
                dest: dest@,
            }),
            Action::CheckPermission { hints, commits } => {
                &&& action@ is CheckPermission
                &&& action@->commits == commits@
                &&& action@->hints.len() == hints@.len()
                &&& forall|i: int|
                    0 <= i < hints@.len() ==> #[trigger] action@->hints[i] == hints@[i]@
            },
            Action::SortRoots { roots } => action@ == (ActionView::SortRoots { roots: roots@ }),
            Action::BuildPlan { operations } => {
                &&& action@ is BuildPlan
                &&& action@->operations.len() == operations@.len()
                &&& forall|i: int|
                    0 <= i < operations@.len() ==> #[trigger] action@->operations[i]
                        == operations@[i]@
            },
            Action::ExecutePlan => action@ is ExecutePlan,
            Action::Finish { ending } => action@ == (ActionView::Finish { ending: ending@ }),
        },
{
}

} // verus!
