//! What the user is told.

use vstd::prelude::*;

use crate::commit_set::{CommitId, CommitSet};

verus! {

/// Where a message is written.
#[derive(Clone, Copy, Debug, PartialEq, Eq, Structural)]
pub enum Stream {
    /// The stream for ordinary output.
    Output,
    /// The stream for errors.
    Error,
}

/// A piece of a message. The pieces of a message are written one after the other.
pub enum Part {
    /// The text itself.
    Text(&'static str),
    /// A number, in decimal.
    Count(usize),
    /// The object name of a commit.
    Commit(CommitId),
    /// The set of commits, as it is shown for debugging.
    Commits(CommitSet),
    /// The text of a revset.
    Revset(String),
    /// The word that marks a hint.
    HintLabel,
}

/// A piece of a message, for specifications.
pub enum PartView {
    Text(Seq<char>),
    Count(nat),
    Commit(usize),
    Commits(Set<usize>),
    Revset(Seq<char>),
    HintLabel,
}

impl View for Part {
    type V = PartView;

    open spec fn view(&self) -> PartView {
        match self {
            Part::Text(text) => PartView::Text(text@),
            Part::Count(count) => PartView::Count(*count as nat),
            Part::Commit(commit) => PartView::Commit(*commit),
            Part::Commits(commits) => PartView::Commits(commits@),
            Part::Revset(revset) => PartView::Revset(revset@),
            Part::HintLabel => PartView::HintLabel,
        }
    }
}

/// A line or a few lines for the user. A line break follows the last piece.
pub struct Message {
    /// Where it is written.
    pub stream: Stream,
    /// What is written.
    pub parts: Vec<Part>,
}

/// A message, for specifications.
#[verifier::ext_equal]
pub struct MessageView {
    pub stream: Stream,
    pub parts: Seq<PartView>,
}

impl View for Message {
    type V = MessageView;

    open spec fn view(&self) -> MessageView {
        MessageView { stream: self.stream, parts: self.parts@.map_values(|p: Part| p@) }
    }
}

/// The message that holds one text.
pub(crate) fn plain(stream: Stream, text: &'static str) -> (r: Message)
    ensures
        r@ == (MessageView { stream, parts: seq![PartView::Text(text@)] }),
{
    let parts: Vec<Part> = vec![Part::Text(text)];
    assert(parts@.map_values(|p: Part| p@) =~= seq![PartView::Text(text@)]);
    Message { stream, parts }
}

/// The argument of the command that a revset was given for.
#[derive(Clone, Copy, Debug, PartialEq, Eq, Structural)]
pub enum Argument {
    /// `--source`
    Sources,
    /// `--base`
    Bases,
    /// `--exact`
    Exacts,
    /// `--dest`
    Destination,
}

/// Why nothing is moved. The command then ends with exit code 1.
pub enum Refusal {
    /// No destination was given, and there is no HEAD to take its place.
    NoDestination,
    /// A revset given for the argument cannot be resolved.
    Unresolved(Argument),
    /// A component of the commits to move exactly has more than one root.
    ExactRoots { count: usize, roots: CommitSet },
    /// The root of a component of the commits to move exactly has no parent or several.
    ExactParents { count: usize, parents: CommitSet },
    /// The destination is not one commit.
    DestinationCount { count: usize, revset: String },
    /// No commit to move was given, and there is no HEAD to take its place.
    NoSource,
    /// The component could go onto several of the other components.
    ManyPossibleParents { root: CommitId, is_single: bool },
    /// The components to insert do not form a single lineage.
    NotALineage { ancestor: CommitId, descendant: CommitId },
    /// What is to be inserted has several heads.
    ManyHeads,
}

/// Why nothing is moved, for specifications.
pub enum RefusalView {
    NoDestination,
    Unresolved(Argument),
    ExactRoots { count: nat, roots: Set<usize> },
    ExactParents { count: nat, parents: Set<usize> },
    DestinationCount { count: nat, revset: Seq<char> },
    NoSource,
    ManyPossibleParents { root: usize, is_single: bool },
    NotALineage { ancestor: usize, descendant: usize },
    ManyHeads,
}

impl View for Refusal {
    type V = RefusalView;

    open spec fn view(&self) -> RefusalView {
        match self {
            Refusal::NoDestination => RefusalView::NoDestination,
            Refusal::Unresolved(argument) => RefusalView::Unresolved(*argument),
            Refusal::ExactRoots { count, roots } => RefusalView::ExactRoots {
                count: *count as nat,
                roots: roots@,
            },
            Refusal::ExactParents { count, parents } => RefusalView::ExactParents {
                count: *count as nat,
                parents: parents@,
            },
            Refusal::DestinationCount { count, revset } => RefusalView::DestinationCount {
                count: *count as nat,
                revset: revset@,
            },
            Refusal::NoSource => RefusalView::NoSource,
            Refusal::ManyPossibleParents { root, is_single } => RefusalView::ManyPossibleParents {
                root: *root,
                is_single: *is_single,
            },
            Refusal::NotALineage { ancestor, descendant } => RefusalView::NotALineage {
                ancestor: *ancestor,
                descendant: *descendant,
            },
            Refusal::ManyHeads => RefusalView::ManyHeads,
        }
    }
}

/// What the user is told of a refusal. Why a revset cannot be resolved is for its resolver to say.
pub open spec fn refusal_message(refusal: RefusalView) -> Option<MessageView> {
    match refusal {
        RefusalView::NoDestination => Some(
            MessageView {
                stream: Stream::Output,
                parts: seq![
                    PartView::Text(
                        "No --dest argument was provided, and no OID for HEAD is available as a default"@,
                    ),
                ],
            },
        ),
        RefusalView::Unresolved(_) => None,
        RefusalView::ExactRoots { count, roots } => Some(
            MessageView {
                stream: Stream::Error,
                parts: seq![
                    PartView::Text(
                        "The --exact flag can only be used to move ranges with exactly 1 root.\nReceived range with "@,
                    ),
                    PartView::Count(count),
                    PartView::Text(" roots: "@),
                    PartView::Commits(roots),
                ],
            },
        ),
        RefusalView::ExactParents { count, parents } => Some(
            MessageView {
                stream: Stream::Output,
                parts: seq![
                    PartView::Text(
                        "The --exact flag can only be used to move ranges or commits with exactly 1 parent.\nReceived range with "@,
                    ),
                    PartView::Count(count),
                    PartView::Text(" parents: "@),
                    PartView::Commits(parents),
                ],
            },
        ),
        RefusalView::DestinationCount { count, revset } => Some(
            MessageView {
                stream: Stream::Error,
                parts: seq![
                    PartView::Text("Expected revset to expand to exactly 1 commit (got "@),
                    PartView::Count(count),
                    PartView::Text("): "@),
                    PartView::Revset(revset),
                ],
            },
        ),
        RefusalView::NoSource => Some(
            MessageView {
                stream: Stream::Output,
                parts: seq![
                    PartView::Text(
                        "No --source or --base arguments were provided, and no OID for HEAD is available as a default"@,
                    ),
                ],
            },
        ),
        RefusalView::ManyPossibleParents { root, is_single } => Some(
            MessageView {
                stream: Stream::Output,
                parts: seq![
                    PartView::Text("This operation cannot be completed because the "@),
                    PartView::Text(
                        if is_single {
                            "commit"@
                        } else {
                            "range of commits rooted"@
                        },
                    ),
                    PartView::Text(" at "@),
                    PartView::Commit(root),
                    PartView::Text(
                        "\nhas multiple possible parents also being moved. Please retry this operation\nwithout this "@,
                    ),
                    PartView::Text(
                        if is_single {
                            "commit"@
                        } else {
                            "range of commits"@
                        },
                    ),
                    PartView::Text(", or with only 1 possible parent."@),
                ],
            },
        ),
        RefusalView::NotALineage { ancestor, descendant } => Some(
            MessageView {
                stream: Stream::Output,
                parts: seq![
                    PartView::Text(
                        "The --insert and --exact flags can only be used together when moving commits or\nranges that form a single lineage, but "@,
                    ),
                    PartView::Commit(ancestor),
                    PartView::Text(" is not an ancestor of "@),
                    PartView::Commit(descendant),
                    PartView::Text("."@),
                ],
            },
        ),
        RefusalView::ManyHeads => Some(
            MessageView {
                stream: Stream::Output,
                parts: seq![
                    PartView::Text(
                        "The --insert flag cannot be used when moving subtrees or ranges with multiple heads."@,
                    ),
                ],
            },
        ),
    }
}

impl Refusal {
    /// What the user is told of the refusal. Why a revset cannot be resolved is for its resolver
    /// to say, so there is no message for that.
    pub fn into_message(self) -> (r: Option<Message>)
        ensures
            match r {
                Some(message) => refusal_message(self@) == Some(message@),
                None => refusal_message(self@) is None,
            },
    {
        let ghost this = self;
        let (stream, parts): (Stream, Vec<Part>) = match self {
            Refusal::Unresolved(_) => {
                return None;
            },
            Refusal::NoDestination => {
                return Some(
                    plain(
                        Stream::Output,
                        "No --dest argument was provided, and no OID for HEAD is available as a default",
                    ),
                );
            },
            Refusal::NoSource => {
                return Some(
                    plain(
                        Stream::Output,
                        "No --source or --base arguments were provided, and no OID for HEAD is available as a default",
                    ),
                );
            },
            Refusal::ManyHeads => {
                return Some(
                    plain(
                        Stream::Output,
                        "The --insert flag cannot be used when moving subtrees or ranges with multiple heads.",
                    ),
                );
            },
            Refusal::ExactRoots { count, roots } => (
                Stream::Error,
                vec![
                    Part::Text(
                        "The --exact flag can only be used to move ranges with exactly 1 root.\nReceived range with ",
                    ),
                    Part::Count(count),
                    Part::Text(" roots: "),
                    Part::Commits(roots),
                ],
            ),
            Refusal::ExactParents { count, parents } => (
                Stream::Output,
                vec![
                    Part::Text(
                        "The --exact flag can only be used to move ranges or commits with exactly 1 parent.\nReceived range with ",
                    ),
                    Part::Count(count),
                    Part::Text(" parents: "),
                    Part::Commits(parents),
                ],
            ),
            Refusal::DestinationCount { count, revset } => (
                Stream::Error,
                vec![
                    Part::Text("Expected revset to expand to exactly 1 commit (got "),
                    Part::Count(count),
                    Part::Text("): "),
                    Part::Revset(revset),
                ],
            ),
            Refusal::ManyPossibleParents { root, is_single } => (
                Stream::Output,
                vec![
                    Part::Text("This operation cannot be completed because the "),
                    Part::Text(
                        if is_single {
                            "commit"
                        } else {
                            "range of commits rooted"
                        },
                    ),
                    Part::Text(" at "),
                    Part::Commit(root),
                    Part::Text(
                        "\nhas multiple possible parents also being moved. Please retry this operation\nwithout this ",
                    ),
                    Part::Text(
                        if is_single {
                            "commit"
                        } else {
                            "range of commits"
                        },
                    ),
                    Part::Text(", or with only 1 possible parent."),
                ],
            ),
            Refusal::NotALineage { ancestor, descendant } => (
                Stream::Output,
                vec![
                    Part::Text(
                        "The --insert and --exact flags can only be used together when moving commits or\nranges that form a single lineage, but ",
                    ),
                    Part::Commit(ancestor),
                    Part::Text(" is not an ancestor of "),
                    Part::Commit(descendant),
                    Part::Text("."),
                ],
            ),
        };
        let message = Message { stream, parts };
        assert(message@.parts =~= refusal_message(this@)->0.parts);
        Some(message)
    }
}

} // verus!
