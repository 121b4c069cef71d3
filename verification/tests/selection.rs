use git_branchless_move::commit_set::{CommitId, CommitSet};
use git_branchless_move::graph::CommitGraph;
use git_branchless_move::message::{Argument, Message, Part, Refusal, Stream};
use git_branchless_move::outcome::{implicit_head_hints, GivenArguments};
use git_branchless_move::selection::{
    choose_dest, exact_components, select, MoveArguments, Selection,
};

/// ```text
/// 0 - 1 - 2 - 3 - 6 - 9
///      \         /
///       4 ----- 5
///
/// 7 - 8
/// ```
fn graph() -> CommitGraph {
    let parents = vec![
        vec![],
        vec![0],
        vec![1],
        vec![2],
        vec![1],
        vec![4],
        vec![3, 5],
        vec![],
        vec![7],
        vec![6],
    ];
    CommitGraph::new(parents, vec![true; 10]).unwrap()
}

fn set(commits: &[CommitId]) -> CommitSet {
    CommitSet::from_commits(commits.to_vec())
}

fn sets(lists: &[&[CommitId]]) -> Option<Vec<CommitSet>> {
    Some(lists.iter().map(|list| set(list)).collect())
}

fn arguments(
    head: Option<CommitId>,
    sources: &[&[CommitId]],
    bases: &[&[CommitId]],
    exacts: &[&[CommitId]],
    dest: &[CommitId],
) -> MoveArguments {
    MoveArguments {
        head,
        sources: sets(sources),
        bases: sets(bases),
        exacts: sets(exacts),
        dest: Some(set(dest)),
    }
}

fn selected(arguments: &MoveArguments) -> Selection {
    match select(&graph(), arguments, &String::from("dest")) {
        Ok(selection) => selection,
        Err(_) => panic!("nothing was selected"),
    }
}

fn refused(arguments: &MoveArguments) -> Refusal {
    match select(&graph(), arguments, &String::from("dest")) {
        Ok(_) => panic!("something was selected"),
        Err(refusal) => refusal,
    }
}

fn list(set: &CommitSet) -> Vec<CommitId> {
    graph().commit_set_to_vec(set)
}

fn text(message: &Message) -> String {
    let mut all = String::new();
    for part in message.parts.iter() {
        match part {
            Part::Text(text) => all.push_str(text),
            Part::Count(count) => all.push_str(&format!("{}", count)),
            Part::Commit(commit) => all.push_str(&format!("<{}>", commit)),
            Part::Commits(commits) => all.push_str(&format!("{:?}", list(commits))),
            Part::Revset(revset) => all.push_str(revset),
            Part::HintLabel => all.push_str("hint"),
        }
    }
    all
}

fn complaint(refusal: Refusal) -> (Stream, String) {
    let message = refusal.into_message().unwrap();
    (message.stream, text(&message))
}

#[test]
fn the_given_destination_is_chosen() {
    let dest = choose_dest(Some(String::from("main")), Some(String::from("abc")));
    assert_eq!(dest.ok(), Some(String::from("main")));
}

#[test]
fn the_destination_defaults_to_head() {
    let dest = choose_dest(None, Some(String::from("abc")));
    assert_eq!(dest.ok(), Some(String::from("abc")));
}

#[test]
fn without_destination_and_head_nothing_is_moved() {
    let refusal = choose_dest(None, None).err().unwrap();
    assert!(matches!(refusal, Refusal::NoDestination));
    assert_eq!(
        complaint(refusal),
        (
            Stream::Output,
            String::from(
                "No --dest argument was provided, and no OID for HEAD is available as a default"
            )
        )
    );
}

#[test]
fn sources_are_taken_as_they_are() {
    let selection = selected(&arguments(Some(9), &[&[3], &[5, 8]], &[], &[], &[1]));
    assert_eq!(list(&selection.sources), vec![8, 5, 3]);
    assert_eq!(list(&selection.bases), Vec::<CommitId>::new());
    assert!(selection.components.is_empty());
    assert_eq!(selection.dest, 1);
}

#[test]
fn bases_stand_for_their_branches() {
    let selection = selected(&arguments(Some(9), &[&[8]], &[&[3]], &[], &[5]));
    assert_eq!(list(&selection.bases), vec![2]);
    assert_eq!(list(&selection.sources), vec![8, 2]);
    assert_eq!(selection.dest, 5);
}

#[test]
fn the_branch_of_head_is_the_default() {
    let default = selected(&arguments(Some(3), &[], &[], &[], &[5]));
    assert_eq!(list(&default.sources), vec![2]);
    assert_eq!(list(&default.bases), vec![2]);
    let given = selected(&arguments(Some(3), &[], &[&[3]], &[], &[5]));
    assert_eq!(list(&given.sources), list(&default.sources));
    assert_eq!(list(&given.bases), list(&default.bases));
    assert_eq!(given.dest, default.dest);
}

#[test]
fn an_empty_revset_is_no_default() {
    let selection = selected(&arguments(Some(3), &[&[]], &[], &[], &[5]));
    assert_eq!(list(&selection.sources), Vec::<CommitId>::new());
    let selection = selected(&arguments(None, &[], &[&[]], &[], &[5]));
    assert_eq!(list(&selection.sources), Vec::<CommitId>::new());
}

#[test]
fn exact_commits_fall_into_components() {
    let selection = selected(&arguments(Some(9), &[], &[], &[&[2], &[3, 9], &[8]], &[5]));
    let components: Vec<(CommitId, Vec<CommitId>)> =
        selection.components.iter().map(|c| (c.root, list(&c.commits))).collect();
    assert_eq!(components, vec![(9, vec![9]), (8, vec![8]), (2, vec![3, 2])]);
    assert_eq!(list(&selection.sources), Vec::<CommitId>::new());
}

#[test]
fn accepted_components_have_one_root_with_one_parent() {
    let g = graph();
    let components = exact_components(&g, &set(&[2, 3, 5, 8, 9])).ok().unwrap();
    assert_eq!(components.len(), 4);
    for component in components.iter() {
        assert_eq!(list(&g.query_roots(&component.commits)), vec![component.root]);
        assert_eq!(g.set_count(&g.query_parents(&set(&[component.root]))), 1);
    }
}

#[test]
fn a_component_with_two_roots_is_refused() {
    let refusal = refused(&arguments(Some(9), &[], &[], &[&[3, 5, 6]], &[1]));
    assert!(matches!(refusal, Refusal::ExactRoots { count: 2, .. }));
    assert_eq!(
        complaint(refusal),
        (
            Stream::Error,
            String::from(
                "The --exact flag can only be used to move ranges with exactly 1 root.\n\
                 Received range with 2 roots: [5, 3]"
            )
        )
    );
}

#[test]
fn a_component_under_a_merge_is_refused() {
    let refusal = refused(&arguments(Some(9), &[], &[], &[&[6, 9]], &[1]));
    assert!(matches!(refusal, Refusal::ExactParents { count: 2, .. }));
    assert_eq!(
        complaint(refusal),
        (
            Stream::Output,
            String::from(
                "The --exact flag can only be used to move ranges or commits with exactly 1 parent.\n\
                 Received range with 2 parents: [5, 3]"
            )
        )
    );
}

#[test]
fn a_component_without_parent_is_refused() {
    let refusal = refused(&arguments(Some(9), &[], &[], &[&[7, 8]], &[1]));
    assert!(matches!(refusal, Refusal::ExactParents { count: 0, .. }));
}

#[test]
fn the_newest_faulty_component_is_named() {
    let refusal = refused(&arguments(Some(9), &[], &[], &[&[7], &[6, 3, 5]], &[1]));
    assert!(matches!(refusal, Refusal::ExactParents { count: 0, .. }));
}

#[test]
fn the_destination_is_one_commit() {
    let refusal = refused(&arguments(Some(9), &[&[3]], &[], &[], &[1, 2]));
    assert_eq!(
        complaint(refusal),
        (
            Stream::Error,
            String::from("Expected revset to expand to exactly 1 commit (got 2): dest")
        )
    );
    let refusal = refused(&arguments(Some(9), &[&[3]], &[], &[], &[]));
    assert!(matches!(refusal, Refusal::DestinationCount { count: 0, .. }));
}

#[test]
fn without_sources_and_head_nothing_is_moved() {
    let refusal = refused(&arguments(None, &[], &[], &[], &[1]));
    assert!(matches!(refusal, Refusal::NoSource));
    assert_eq!(
        complaint(refusal),
        (
            Stream::Output,
            String::from(
                "No --source or --base arguments were provided, and no OID for HEAD is available as a default"
            )
        )
    );
}

#[test]
fn the_first_unresolved_argument_is_named() {
    let mut all = arguments(None, &[], &[], &[&[7]], &[1, 2]);
    all.dest = None;
    assert!(matches!(refused(&all), Refusal::ExactParents { .. }));
    all.exacts = sets(&[]);
    assert!(matches!(refused(&all), Refusal::Unresolved(Argument::Destination)));
    all.exacts = None;
    assert!(matches!(refused(&all), Refusal::Unresolved(Argument::Exacts)));
    all.bases = None;
    assert!(matches!(refused(&all), Refusal::Unresolved(Argument::Bases)));
    all.sources = None;
    assert!(matches!(refused(&all), Refusal::Unresolved(Argument::Sources)));
    assert!(refused(&all).into_message().is_none());
}

#[test]
fn rewriting_is_asked_for_what_is_moved() {
    let selection = selected(&arguments(Some(9), &[&[8]], &[], &[&[3]], &[1]));
    assert_eq!(list(&selection.rewrite_set(&graph(), false, false)), vec![8, 3]);
}

#[test]
fn rewriting_is_asked_for_the_children_of_the_destination() {
    let selection = selected(&arguments(Some(9), &[&[8]], &[], &[&[3]], &[1]));
    assert_eq!(list(&selection.rewrite_set(&graph(), true, false)), vec![8, 4, 3, 2]);
    assert_eq!(list(&selection.rewrite_set(&graph(), false, true)), vec![8, 4, 3, 2]);
}

fn hint_texts(arguments: &MoveArguments, given: GivenArguments, head: CommitId) -> Vec<String> {
    let selection = selected(arguments);
    let hints = implicit_head_hints(&graph(), given, head, &selection);
    assert!(hints.iter().all(|hint| hint.stream == Stream::Output));
    hints.iter().map(text).collect()
}

#[test]
fn a_base_that_is_head_gets_a_hint() {
    let with = arguments(Some(2), &[], &[&[3]], &[], &[5]);
    let given = GivenArguments { sources: false, bases: true, dest: true };
    assert_eq!(
        hint_texts(&with, given, 2),
        vec![String::from(
            "hint: you can omit the --base flag in this case, as it defaults to HEAD"
        )]
    );
    let without = arguments(Some(2), &[], &[], &[], &[5]);
    assert_eq!(list(&selected(&with).sources), list(&selected(&without).sources));
    assert_eq!(list(&selected(&with).bases), list(&selected(&without).bases));
}

#[test]
fn a_base_beside_others_gets_no_hint() {
    let given = GivenArguments { sources: false, bases: true, dest: false };
    let several = arguments(Some(2), &[], &[&[3, 8]], &[], &[5]);
    assert!(hint_texts(&several, given, 2).is_empty());
    let elsewhere = arguments(Some(9), &[], &[&[3]], &[], &[5]);
    assert!(hint_texts(&elsewhere, given, 9).is_empty());
    let sources = GivenArguments { sources: true, bases: true, dest: false };
    let both = arguments(Some(2), &[&[8]], &[&[3]], &[], &[5]);
    assert!(hint_texts(&both, sources, 2).is_empty());
}

#[test]
fn a_default_gets_no_hint() {
    let given = GivenArguments { sources: false, bases: false, dest: false };
    let default = arguments(Some(2), &[], &[], &[], &[2]);
    assert!(hint_texts(&default, given, 2).is_empty());
}

#[test]
fn a_destination_that_is_head_gets_a_hint() {
    let given = GivenArguments { sources: true, bases: false, dest: true };
    let all = arguments(Some(5), &[&[3]], &[], &[], &[5]);
    assert_eq!(
        hint_texts(&all, given, 5),
        vec![String::from(
            "hint: you can omit the --dest flag in this case, as it defaults to HEAD"
        )]
    );
}

#[test]
fn both_hints_come_in_order() {
    let given = GivenArguments { sources: false, bases: true, dest: true };
    let all = arguments(Some(5), &[], &[&[5]], &[], &[5]);
    assert_eq!(
        hint_texts(&all, given, 5),
        vec![
            String::from("hint: you can omit the --base flag in this case, as it defaults to HEAD"),
            String::from("hint: you can omit the --dest flag in this case, as it defaults to HEAD"),
        ]
    );
}

#[test]
fn bases_of_one_branch_are_one_base() {
    let selection = selected(&arguments(Some(9), &[], &[&[2, 3], &[3, 4]], &[], &[0]));
    assert_eq!(list(&selection.bases), vec![1]);
    let selection = selected(&arguments(Some(9), &[], &[&[2, 3, 4, 5, 8]], &[], &[1]));
    assert_eq!(list(&selection.bases), vec![7, 4, 2]);
}

#[test]
fn components_hold_what_was_given() {
    let selection = selected(&arguments(Some(9), &[], &[], &[&[2, 5], &[3, 9, 8]], &[1]));
    let mut all: Vec<CommitId> = Vec::new();
    for component in selection.components.iter() {
        all.extend(list(&component.commits));
    }
    all.sort_unstable();
    assert_eq!(all, vec![2, 3, 5, 8, 9]);
}
