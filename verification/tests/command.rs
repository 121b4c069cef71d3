use git_branchless_move::command::{Action, Command, Event};
use git_branchless_move::commit_set::{CommitId, CommitSet};
use git_branchless_move::graph::CommitGraph;
use git_branchless_move::message::{Argument, Message, Part, Refusal, Stream};
use git_branchless_move::outcome::{
    conclude_build, conclude_execution, conclude_refusal, BuildResult, Ending, ExecutionResult,
    Failure,
};
use git_branchless_move::plan::{Operation, PlanOptions};
use git_branchless_move::selection::MoveArguments;

const MOVE: PlanOptions = PlanOptions { fixup: false, insert: false, reparent: false };

/// ```text
/// 0 - 1 - 2 - 3 - 4
///  \
///   5
/// ```
fn line() -> CommitGraph {
    let parents = vec![vec![], vec![0], vec![1], vec![2], vec![3], vec![0]];
    CommitGraph::new(parents, vec![true; 6]).unwrap()
}

fn set(commits: &[CommitId]) -> CommitSet {
    CommitSet::from_commits(commits.to_vec())
}

fn list(set: &CommitSet) -> Vec<CommitId> {
    line().commit_set_to_vec(set)
}

fn arguments(sources: &[CommitId], exacts: &[CommitId], dest: &[CommitId]) -> MoveArguments {
    let named = |commits: &[CommitId]| {
        Some(if commits.is_empty() { vec![] } else { vec![set(commits)] })
    };
    MoveArguments {
        head: Some(4),
        sources: named(sources),
        bases: Some(vec![]),
        exacts: named(exacts),
        dest: Some(set(dest)),
    }
}

fn text(message: &Message) -> String {
    let mut all = String::new();
    for part in message.parts.iter() {
        match part {
            Part::Text(text) => all.push_str(text),
            Part::Count(count) => all.push_str(&format!("{}", count)),
            Part::Revset(revset) => all.push_str(revset),
            Part::HintLabel => all.push_str("hint"),
            _ => panic!("an unexpected part"),
        }
    }
    all
}

fn told(ending: &Ending) -> Option<String> {
    ending.message.as_ref().map(text)
}

fn ending_of(action: Action) -> Ending {
    match action {
        Action::Finish { ending } => ending,
        _ => panic!("the command goes on"),
    }
}

/// The command that waits for the revsets to be resolved.
fn resolving(dest: &str, options: PlanOptions, dry_run: bool) -> Command {
    let command = Command::new(Some(String::from(dest)), options, dry_run);
    let (command, action) = command.advance(Event::HeadRead { name: Some(String::from("abc")) });
    assert!(matches!(action, Action::ResolveRevsets { dest: revset } if revset == dest));
    command
}

/// The command that waits for permission.
fn permitting(arguments: MoveArguments, options: PlanOptions, dry_run: bool) -> (Command, Action) {
    resolving("dest", options, dry_run).advance(Event::Resolved { graph: line(), arguments })
}

/// The command that waits for the plan to be built.
fn building(dry_run: bool) -> Command {
    let (command, _) = permitting(arguments(&[2], &[], &[5]), MOVE, dry_run);
    let (command, _) = command.advance(Event::PermissionChecked { granted: true });
    let (command, action) = command.advance(Event::RootsSorted { order: vec![] });
    match action {
        Action::BuildPlan { operations } => {
            assert_eq!(operations, vec![Operation::MoveSubtree { root: 2, dest: 5 }]);
        }
        _ => panic!("no plan is built"),
    }
    command
}

fn executed(result: ExecutionResult, dry_run: bool) -> Ending {
    let (command, action) =
        building(dry_run).advance(Event::Built { build: BuildResult::Planned });
    assert!(matches!(action, Action::ExecutePlan));
    let (_, action) = command.advance(Event::Executed { execution: result });
    ending_of(action)
}

#[test]
fn the_destination_stands_in_for_itself() {
    let command = Command::new(Some(String::from("main")), MOVE, false);
    let (_, action) = command.advance(Event::HeadRead { name: None });
    assert!(matches!(action, Action::ResolveRevsets { dest } if dest == "main"));
}

#[test]
fn head_stands_in_for_the_destination() {
    let command = Command::new(None, MOVE, false);
    let (_, action) = command.advance(Event::HeadRead { name: Some(String::from("abc")) });
    assert!(matches!(action, Action::ResolveRevsets { dest } if dest == "abc"));
}

#[test]
fn without_head_and_destination_the_command_ends() {
    let command = Command::new(None, MOVE, false);
    let (_, action) = command.advance(Event::HeadRead { name: None });
    let ending = ending_of(action);
    assert_eq!(ending.exit, Err(1));
    assert_eq!(ending.failure, None);
    assert_eq!(
        told(&ending).unwrap(),
        "No --dest argument was provided, and no OID for HEAD is available as a default"
    );
}

#[test]
fn what_cannot_be_selected_ends_the_command() {
    let (_, action) = permitting(arguments(&[2], &[], &[4, 5]), MOVE, false);
    let ending = ending_of(action);
    assert_eq!(ending.exit, Err(1));
    assert_eq!(ending.message.as_ref().unwrap().stream, Stream::Error);
    assert_eq!(
        told(&ending).unwrap(),
        "Expected revset to expand to exactly 1 commit (got 2): dest"
    );
}

#[test]
fn an_unresolved_revset_is_described() {
    let mut unresolved = arguments(&[2], &[], &[5]);
    unresolved.bases = None;
    let (_, action) = permitting(unresolved, MOVE, false);
    let ending = ending_of(action);
    assert_eq!(ending.exit, Err(1));
    assert_eq!(ending.failure, Some(Failure::Revset(Argument::Bases)));
    assert!(ending.message.is_none());
}

#[test]
fn permission_is_asked_for_the_rewrite_set() {
    let (_, action) = permitting(arguments(&[2], &[5], &[1]), MOVE, false);
    match action {
        Action::CheckPermission { hints, commits } => {
            assert!(hints.is_empty());
            assert_eq!(list(&commits), vec![5, 2]);
        }
        _ => panic!("permission is not asked for"),
    }
    let options = PlanOptions { fixup: false, insert: true, reparent: false };
    let (_, action) = permitting(arguments(&[5], &[], &[1]), options, false);
    match action {
        Action::CheckPermission { commits, .. } => assert_eq!(list(&commits), vec![5, 2]),
        _ => panic!("permission is not asked for"),
    }
}

#[test]
fn hints_come_with_the_request_for_permission() {
    let (_, action) = permitting(arguments(&[5], &[], &[4]), MOVE, false);
    match action {
        Action::CheckPermission { hints, .. } => {
            assert_eq!(hints.len(), 1);
            assert_eq!(
                text(&hints[0]),
                "hint: you can omit the --dest flag in this case, as it defaults to HEAD"
            );
        }
        _ => panic!("permission is not asked for"),
    }
}

#[test]
fn without_head_there_are_no_hints() {
    let mut headless = arguments(&[5], &[], &[4]);
    headless.head = None;
    let (_, action) = permitting(headless, MOVE, false);
    assert!(matches!(action, Action::CheckPermission { hints, .. } if hints.is_empty()));
}

#[test]
fn a_default_destination_gets_no_hint() {
    let command = Command::new(None, MOVE, false);
    let (command, _) = command.advance(Event::HeadRead { name: Some(String::from("abc")) });
    let (_, action) = command.advance(Event::Resolved {
        graph: line(),
        arguments: arguments(&[5], &[], &[4]),
    });
    assert!(matches!(action, Action::CheckPermission { hints, .. } if hints.is_empty()));
}

#[test]
fn without_permission_the_command_ends() {
    let (command, _) = permitting(arguments(&[2], &[], &[5]), MOVE, false);
    let (_, action) = command.advance(Event::PermissionChecked { granted: false });
    let ending = ending_of(action);
    assert_eq!(ending.exit, Err(1));
    assert_eq!(ending.failure, Some(Failure::Permission));
    assert!(ending.message.is_none());
}

#[test]
fn the_roots_of_the_components_are_sorted() {
    let (command, _) = permitting(arguments(&[], &[1, 2, 4], &[5]), MOVE, false);
    let (command, action) = command.advance(Event::PermissionChecked { granted: true });
    match action {
        Action::SortRoots { roots } => assert_eq!(list(&roots), vec![4, 1]),
        _ => panic!("nothing is sorted"),
    }
    let (_, action) = command.advance(Event::RootsSorted { order: vec![1, 4] });
    match action {
        Action::BuildPlan { operations } => assert_eq!(
            operations,
            vec![
                Operation::MoveSubtree { root: 3, dest: 0 },
                Operation::MoveSubtree { root: 1, dest: 5 },
                Operation::MoveSubtree { root: 4, dest: 2 },
            ]
        ),
        _ => panic!("no plan is built"),
    }
}

#[test]
fn what_cannot_be_planned_ends_the_command() {
    let options = PlanOptions { fixup: false, insert: true, reparent: false };
    let (command, _) = permitting(arguments(&[0], &[], &[5]), options, false);
    let (command, _) = command.advance(Event::PermissionChecked { granted: true });
    let (_, action) = command.advance(Event::RootsSorted { order: vec![] });
    let ending = ending_of(action);
    assert_eq!(ending.exit, Err(1));
    assert_eq!(
        told(&ending).unwrap(),
        "The --insert flag cannot be used when moving subtrees or ranges with multiple heads."
    );
}

#[test]
fn an_empty_plan_is_no_failure() {
    let (_, action) = building(false).advance(Event::Built { build: BuildResult::Empty });
    let ending = ending_of(action);
    assert_eq!(ending.exit, Ok(()));
    assert_eq!(told(&ending).unwrap(), "Nothing to do.");
}

#[test]
fn a_plan_that_cannot_be_built_is_described() {
    let (_, action) = building(false).advance(Event::Built { build: BuildResult::Failed });
    let ending = ending_of(action);
    assert_eq!(ending.exit, Err(1));
    assert_eq!(ending.failure, Some(Failure::Build));
}

#[test]
fn success_is_silent() {
    let ending = executed(ExecutionResult::Succeeded, false);
    assert_eq!(ending.exit, Ok(()));
    assert!(ending.message.is_none());
    assert_eq!(ending.failure, None);
}

#[test]
fn a_dry_run_says_so() {
    let ending = executed(ExecutionResult::WouldSucceed, true);
    assert_eq!(ending.exit, Ok(()));
    assert_eq!(
        told(&ending).unwrap(),
        "(This was a dry-run; no commits were moved. Re-run without --dry-run to actually move commits.)"
    );
}

#[test]
fn merge_conflicts_are_described() {
    let ending = executed(ExecutionResult::DeclinedToMerge, false);
    assert_eq!(ending.exit, Err(1));
    assert_eq!(ending.failure, Some(Failure::Merge));
}

#[test]
fn other_failures_keep_their_exit_code() {
    let ending = executed(ExecutionResult::Failed { exit_code: 42 }, false);
    assert_eq!(ending.exit, Err(42));
    assert!(ending.message.is_none());
    assert_eq!(ending.failure, None);
}

#[test]
fn endings_can_be_asked_for_directly() {
    assert!(conclude_build(BuildResult::Planned).is_none());
    assert_eq!(conclude_build(BuildResult::Failed).unwrap().failure, Some(Failure::Build));
    assert_eq!(conclude_execution(ExecutionResult::Succeeded, true).exit, Ok(()));
    let ending = conclude_refusal(Refusal::Unresolved(Argument::Destination));
    assert_eq!(ending.failure, Some(Failure::Revset(Argument::Destination)));
    assert_eq!(conclude_refusal(Refusal::NoSource).exit, Err(1));
}

#[test]
fn all_exact_commits_are_folded() {
    let options = PlanOptions { fixup: true, insert: false, reparent: false };
    let (command, _) = permitting(arguments(&[], &[1, 2, 4], &[5]), options, false);
    let (command, action) = command.advance(Event::PermissionChecked { granted: true });
    let mut order = match action {
        Action::SortRoots { roots } => roots.to_vec(),
        _ => panic!("nothing is sorted"),
    };
    order.sort_unstable();
    let (_, action) = command.advance(Event::RootsSorted { order });
    match action {
        Action::BuildPlan { operations } => {
            for commit in [1, 2, 4] {
                assert!(operations.contains(&Operation::FixupCommit { commit, dest: 5 }));
            }
        }
        _ => panic!("no plan is built"),
    }
}
