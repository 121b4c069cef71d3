//! Hints on the way, and how the command ends.

use vstd::prelude::*;

use crate::commit_set::CommitId;
use crate::graph::{list_of, CommitGraph, Parents};
use crate::message::{
    plain, refusal_message, Argument, Message, MessageView, Part, PartView, Refusal,
    RefusalView, Stream,
};
use crate::selection::{Selection, SelectionView};

verus! {

/// Which arguments the user gave.
#[derive(Clone, Copy, Debug, PartialEq, Eq, Structural)]
pub struct GivenArguments {
    /// `--source`
    pub sources: bool,
    /// `--base`
    pub bases: bool,
    /// `--dest`
    pub dest: bool,
}

/// Whether `--base` could have been left out: it is the only commit that stands for what to move,
/// and it is HEAD.
pub open spec fn is_base_redundant(
    g: Parents,
    given: GivenArguments,
    head: usize,
    selection: SelectionView,
) -> bool {
    !given.sources && given.bases && selection.bases.contains(head) && list_of(
        g,
        selection.bases,
    ).len() == 1
}

/// Whether `--dest` could have been left out: it is HEAD.
pub open spec fn is_dest_redundant(
    given: GivenArguments,
    head: usize,
    selection: SelectionView,
) -> bool {
    given.dest && selection.dest == head
}

/// The hint that the argument could have been left out.
pub open spec fn hint(text: Seq<char>) -> MessageView {
    MessageView { stream: Stream::Output, parts: seq![PartView::HintLabel, PartView::Text(text)] }
}

/// The hints on the arguments that could have been left out.
pub open spec fn hints_for(
    g: Parents,
    given: GivenArguments,
    head: usize,
    selection: SelectionView,
) -> Seq<MessageView> {
    (if is_base_redundant(g, given, head, selection) {
        seq![hint(": you can omit the --base flag in this case, as it defaults to HEAD"@)]
    } else {
        seq![]
    }) + (if is_dest_redundant(given, head, selection) {
        seq![hint(": you can omit the --dest flag in this case, as it defaults to HEAD"@)]
    } else {
        seq![]
    })
}

/// The hint with the given text.
fn make_hint(text: &'static str) -> (r: Message)
    ensures
        r@ == hint(text@),
{
    let message = Message {
        stream: Stream::Output,
        parts: vec![Part::HintLabel, Part::Text(text)],
    };
    assert(message@.parts =~= hint(text@).parts);
    message
}

/// The hints on the arguments that could have been left out, since they default to HEAD.
pub fn implicit_head_hints(
    graph: &CommitGraph,
    given: GivenArguments,
    head: CommitId,
    selection: &Selection,
) -> (r: Vec<Message>)
    ensures
        r@.map_values(|m: Message| m@) == hints_for(graph@, given, head, selection@),
{
    let mut hints: Vec<Message> = Vec::new();
    if !given.sources && given.bases && selection.bases.contains(head) && graph.set_count(
        &selection.bases,
    ) == 1 {
        hints.push(
            make_hint(": you can omit the --base flag in this case, as it defaults to HEAD"),
        );
    }
    if given.dest && selection.dest == head {
        hints.push(
            make_hint(": you can omit the --dest flag in this case, as it defaults to HEAD"),
        );
    }
    assert(hints@.map_values(|m: Message| m@) =~= hints_for(graph@, given, head, selection@));
    hints
}

/// What came of building the rebase plan.
#[derive(Clone, Copy, Debug, PartialEq, Eq, Structural)]
pub enum BuildResult {
    /// There is nothing to rebase.
    Empty,
    /// There is a plan to carry out.
    Planned,
    /// The operations cannot be carried out together.
    Failed,
}

/// What came of carrying out the rebase plan.
#[derive(Clone, Copy, Debug, PartialEq, Eq, Structural)]
pub enum ExecutionResult {
    /// The commits were moved.
    Succeeded,
    /// The commits could be moved.
    WouldSucceed,
    /// There were merge conflicts that were not to be resolved.
    DeclinedToMerge,
    /// Something else went wrong.
    Failed { exit_code: isize },
}

/// A failure whose description is left to what failed.
#[derive(Clone, Copy, Debug, PartialEq, Eq, Structural)]
pub enum Failure {
    /// A revset given for the argument cannot be resolved.
    Revset(Argument),
    /// The commits may not be rewritten.
    Permission,
    /// The operations cannot be carried out together.
    Build,
    /// There were merge conflicts.
    Merge,
}

/// How the command ends.
pub struct Ending {
    /// What the user is told.
    pub message: Option<Message>,
    /// The failure that is described to the user.
    pub failure: Option<Failure>,
    /// Nothing where all went well, and else the exit code.
    pub exit: Result<(), isize>,
}

/// How the command ends, for specifications.
pub struct EndingView {
    pub message: Option<MessageView>,
    pub failure: Option<Failure>,
    pub exit: Result<(), isize>,
}

impl View for Ending {
    type V = EndingView;

    open spec fn view(&self) -> EndingView {
        EndingView {
            message: match self.message {
                Some(message) => Some(message@),
                None => None,
            },
            failure: self.failure,
            exit: self.exit,
        }
    }
}

/// The message that consists of one text on the stream for ordinary output.
pub open spec fn notice(text: Seq<char>) -> MessageView {
    MessageView { stream: Stream::Output, parts: seq![PartView::Text(text)] }
}

/// How the command ends with a message and without failure.
pub open spec fn ends_well(message: Option<MessageView>) -> EndingView {
    EndingView { message, failure: None, exit: Ok(()) }
}

/// How the command ends with a failure that is described.
pub open spec fn ends_with(failure: Failure) -> EndingView {
    EndingView { message: None, failure: Some(failure), exit: Err(1) }
}

/// The ending with a failure that is described.
pub(crate) fn end_with(failure: Failure) -> (r: Ending)
    ensures
        r@ == ends_with(failure),
{
    Ending { message: None, failure: Some(failure), exit: Err(1) }
}

/// How the command ends when nothing is moved.
pub open spec fn ending_of_refusal(refusal: RefusalView) -> EndingView {
    match refusal {
        RefusalView::Unresolved(argument) => ends_with(Failure::Revset(argument)),
        _ => EndingView { message: refusal_message(refusal), failure: None, exit: Err(1) },
    }
}

/// How the command ends when nothing is moved.
pub fn conclude_refusal(refusal: Refusal) -> (r: Ending)
    ensures
        r@ == ending_of_refusal(refusal@),
{
    match refusal {
        Refusal::Unresolved(argument) => end_with(Failure::Revset(argument)),
        _ => Ending { message: refusal.into_message(), failure: None, exit: Err(1) },
    }
}

/// How the command ends when there is no plan to carry out.
pub open spec fn ending_of_build(build: BuildResult) -> Option<EndingView> {
    match build {
        BuildResult::Empty => Some(ends_well(Some(notice("Nothing to do."@)))),
        BuildResult::Planned => None,
        BuildResult::Failed => Some(ends_with(Failure::Build)),
    }
}

/// How the command ends when there is no plan to carry out. With a plan, it goes on.
pub fn conclude_build(build: BuildResult) -> (r: Option<Ending>)
    ensures
        match r {
            Some(ending) => ending_of_build(build) == Some(ending@),
            None => ending_of_build(build) is None,
        },
{
    match build {
        BuildResult::Empty => Some(
            Ending {
                message: Some(plain(Stream::Output, "Nothing to do.")),
                failure: None,
                exit: Ok(()),
            },
        ),
        BuildResult::Planned => None,
        BuildResult::Failed => Some(end_with(Failure::Build)),
    }
}

/// How the command ends when the plan was carried out, or tried.
pub open spec fn ending_of_execution(execution: ExecutionResult) -> EndingView {
    match execution {
        ExecutionResult::Succeeded => ends_well(None),
        ExecutionResult::WouldSucceed => ends_well(
            Some(
                notice(
                    "(This was a dry-run; no commits were moved. Re-run without --dry-run to actually move commits.)"@,
                ),
            ),
        ),
        ExecutionResult::DeclinedToMerge => ends_with(Failure::Merge),
        ExecutionResult::Failed { exit_code } => EndingView {
            message: None,
            failure: None,
            exit: Err(exit_code),
        },
    }
}

/// How the command ends when the plan was carried out, or tried. Only a dry run leaves it at
/// saying that the plan would succeed.
pub fn conclude_execution(execution: ExecutionResult, dry_run: bool) -> (r: Ending)
    requires
        execution is WouldSucceed ==> dry_run,
    ensures
        r@ == ending_of_execution(execution),
{
    match execution {
        ExecutionResult::Succeeded => Ending { message: None, failure: None, exit: Ok(()) },
        ExecutionResult::WouldSucceed => Ending {
            message: Some(
                plain(
                    Stream::Output,
                    "(This was a dry-run; no commits were moved. Re-run without --dry-run to actually move commits.)",
                ),
            ),
            failure: None,
            exit: Ok(()),
        },
        ExecutionResult::DeclinedToMerge => end_with(Failure::Merge),
        ExecutionResult::Failed { exit_code } => Ending {
            message: None,
            failure: None,
            exit: Err(exit_code),
        },
    }
}

} // verus!
