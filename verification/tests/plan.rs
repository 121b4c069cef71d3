use git_branchless_move::commit_set::{CommitId, CommitSet};
use git_branchless_move::graph::CommitGraph;
use git_branchless_move::message::{Part, Refusal, Stream};
use git_branchless_move::plan::{plan_move, Operation, PlanOptions};
use git_branchless_move::selection::{exact_components, union_components, Component, Selection};

const MOVE: PlanOptions = PlanOptions { fixup: false, insert: false, reparent: false };
const FIXUP: PlanOptions = PlanOptions { fixup: true, insert: false, reparent: false };
const INSERT: PlanOptions = PlanOptions { fixup: false, insert: true, reparent: false };
const REPARENT: PlanOptions = PlanOptions { fixup: false, insert: false, reparent: true };

/// ```text
/// 0 - 1 - 2 - 3 - 4
///  \
///   5
/// ```
fn line() -> CommitGraph {
    let parents = vec![vec![], vec![0], vec![1], vec![2], vec![3], vec![0]];
    CommitGraph::new(parents, vec![true; 6]).unwrap()
}

/// ```text
/// 0 - 1 - 2 - 3 - 6 - 9
///      \         /
///       4 ----- 5
///
/// 7 - 8
/// ```
fn merge() -> CommitGraph {
    let parents = vec![
        vec![],
        vec![0],
        vec![1],
        vec![2],
        vec![1],
        vec![4],
        vec![3, 5],
        vec![],
        vec![7],
        vec![6],
    ];
    CommitGraph::new(parents, vec![true; 10]).unwrap()
}

fn set(commits: &[CommitId]) -> CommitSet {
    CommitSet::from_commits(commits.to_vec())
}

fn selection(
    graph: &CommitGraph,
    sources: &[CommitId],
    exacts: &[CommitId],
    dest: CommitId,
) -> Selection {
    Selection {
        sources: set(sources),
        bases: CommitSet::empty(),
        components: exact_components(graph, &set(exacts)).ok().unwrap(),
        dest,
    }
}

/// The plan that handles the roots of the components from the oldest to the newest.
fn plan(
    graph: &CommitGraph,
    sources: &[CommitId],
    exacts: &[CommitId],
    dest: CommitId,
    options: PlanOptions,
) -> Result<Vec<Operation>, Refusal> {
    let selection = selection(graph, sources, exacts, dest);
    let mut order: Vec<CommitId> = selection.components.iter().map(|c| c.root).collect();
    order.sort_unstable();
    plan_move(graph, &selection, &order, options)
}

fn subtree(root: CommitId, dest: CommitId) -> Operation {
    Operation::MoveSubtree { root, dest }
}

fn range(start: CommitId, end: CommitId, dest: CommitId) -> Operation {
    Operation::MoveRange { start, end, dest }
}

fn fixup(commit: CommitId, dest: CommitId) -> Operation {
    Operation::FixupCommit { commit, dest }
}

fn reparent(root: CommitId, parents: &[CommitId]) -> Operation {
    Operation::ReparentSubtree { root, parents: parents.to_vec() }
}

fn message_of(refusal: Refusal) -> String {
    let message = refusal.into_message().unwrap();
    assert_eq!(message.stream, Stream::Output);
    let mut all = String::new();
    for part in message.parts.iter() {
        match part {
            Part::Text(text) => all.push_str(text),
            Part::Commit(commit) => all.push_str(&format!("<{}>", commit)),
            _ => panic!("an unexpected part"),
        }
    }
    all
}

#[test]
fn nothing_to_move_takes_no_steps() {
    assert_eq!(plan(&line(), &[], &[], 5, MOVE).ok(), Some(vec![]));
}

#[test]
fn a_subtree_moves_to_the_destination() {
    assert_eq!(plan(&line(), &[2], &[], 5, MOVE).ok(), Some(vec![subtree(2, 5)]));
}

#[test]
fn only_the_roots_of_the_sources_move() {
    assert_eq!(
        plan(&line(), &[1, 2, 4], &[], 5, MOVE).ok(),
        Some(vec![subtree(4, 5), subtree(1, 5)])
    );
}

#[test]
fn a_subtree_is_folded_whole() {
    assert_eq!(
        plan(&line(), &[3], &[], 5, FIXUP).ok(),
        Some(vec![fixup(4, 5), fixup(3, 5)])
    );
}

#[test]
fn moved_commits_are_given_parents() {
    assert_eq!(
        plan(&line(), &[4], &[], 5, REPARENT).ok(),
        Some(vec![subtree(4, 5), reparent(4, &[5]), reparent(4, &[3])])
    );
}

#[test]
fn merges_keep_all_their_parents() {
    assert_eq!(
        plan(&merge(), &[6], &[], 8, REPARENT).ok(),
        Some(vec![subtree(6, 8), reparent(6, &[8]), reparent(6, &[5, 3])])
    );
}

#[test]
fn a_component_leaves_its_children_to_its_parent() {
    assert_eq!(
        plan(&line(), &[], &[2], 5, MOVE).ok(),
        Some(vec![subtree(3, 1), subtree(2, 5)])
    );
}

#[test]
fn all_children_of_a_component_are_left_behind() {
    assert_eq!(
        plan(&merge(), &[], &[1, 2], 8, MOVE).ok(),
        Some(vec![subtree(4, 0), subtree(3, 0), subtree(1, 8)])
    );
}

#[test]
fn hidden_children_are_left_alone() {
    let parents = vec![vec![], vec![0], vec![1], vec![2], vec![3], vec![0]];
    let graph =
        CommitGraph::new(parents, vec![true, true, true, false, false, true]).unwrap();
    assert_eq!(plan(&graph, &[], &[2], 5, MOVE).ok(), Some(vec![subtree(2, 5)]));
}

#[test]
fn a_component_is_folded_whole() {
    assert_eq!(
        plan(&line(), &[], &[2, 3], 5, FIXUP).ok(),
        Some(vec![subtree(4, 1), fixup(3, 5), fixup(2, 5)])
    );
}

#[test]
fn a_component_is_given_its_new_parent() {
    assert_eq!(
        plan(&line(), &[], &[4], 5, REPARENT).ok(),
        Some(vec![subtree(4, 5), reparent(4, &[5]), reparent(4, &[3])])
    );
}

#[test]
fn components_keep_their_order() {
    assert_eq!(
        plan(&line(), &[], &[2, 4], 5, MOVE).ok(),
        Some(vec![subtree(3, 1), subtree(2, 5), subtree(4, 2)])
    );
}

#[test]
fn a_component_goes_onto_the_newest_commit_above_it() {
    // 0 - 1 - 2 - 3 - 4 with 6 on 2, and 5 as the destination.
    let parents = vec![vec![], vec![0], vec![1], vec![2], vec![3], vec![0], vec![2], vec![6]];
    let graph = CommitGraph::new(parents, vec![true; 8]).unwrap();
    assert_eq!(
        plan(&graph, &[], &[1, 2, 3, 7], 5, MOVE).ok(),
        Some(vec![subtree(6, 0), subtree(4, 0), subtree(1, 5), subtree(7, 2)])
    );
}

#[test]
fn folded_components_go_to_the_destination() {
    assert_eq!(
        plan(&line(), &[], &[2, 4], 5, FIXUP).ok(),
        Some(vec![subtree(3, 1), fixup(2, 5), fixup(4, 5)])
    );
}

#[test]
fn several_possible_parents_are_refused() {
    let refusal = plan(&merge(), &[], &[2, 4, 9], 8, MOVE).err().unwrap();
    assert!(matches!(refusal, Refusal::ManyPossibleParents { root: 9, is_single: true }));
    assert_eq!(
        message_of(refusal),
        "This operation cannot be completed because the commit at <9>\n\
         has multiple possible parents also being moved. Please retry this operation\n\
         without this commit, or with only 1 possible parent."
    );
}

#[test]
fn several_possible_parents_of_a_range_are_refused() {
    let parents = vec![
        vec![],
        vec![0],
        vec![1],
        vec![2],
        vec![1],
        vec![4],
        vec![3, 5],
        vec![6],
        vec![7],
    ];
    let graph = CommitGraph::new(parents, vec![true; 9]).unwrap();
    let refusal = plan(&graph, &[], &[2, 4, 7, 8], 0, MOVE).err().unwrap();
    assert!(matches!(refusal, Refusal::ManyPossibleParents { root: 7, is_single: false }));
    assert_eq!(
        message_of(refusal),
        "This operation cannot be completed because the range of commits rooted at <7>\n\
         has multiple possible parents also being moved. Please retry this operation\n\
         without this range of commits, or with only 1 possible parent."
    );
    assert!(!graph.query_is_ancestor(2, 4) && !graph.query_is_ancestor(4, 2));
}

#[test]
fn a_lineage_of_possible_parents_is_accepted() {
    assert_eq!(
        plan(&merge(), &[], &[2, 3, 9], 8, MOVE).ok(),
        Some(vec![subtree(6, 1), subtree(2, 8), subtree(9, 3)])
    );
}

#[test]
fn inserting_moves_the_children_of_the_destination() {
    assert_eq!(
        plan(&line(), &[5], &[], 1, INSERT).ok(),
        Some(vec![subtree(5, 1), subtree(2, 5)])
    );
}

#[test]
fn inserting_leaves_moved_children_alone() {
    assert_eq!(
        plan(&line(), &[1], &[], 0, INSERT).ok(),
        Some(vec![subtree(1, 0), subtree(5, 4)])
    );
    assert_eq!(
        plan(&line(), &[], &[5], 0, INSERT).ok(),
        Some(vec![subtree(5, 0), subtree(1, 5)])
    );
}

#[test]
fn inserting_a_component_below_itself_moves_a_range() {
    assert_eq!(
        plan(&line(), &[], &[2], 3, INSERT).ok(),
        Some(vec![range(3, 3, 1), subtree(2, 3), subtree(4, 2)])
    );
    assert_eq!(
        plan(&line(), &[], &[2], 4, INSERT).ok(),
        Some(vec![range(3, 4, 1), subtree(2, 4)])
    );
    assert_eq!(
        plan(&line(), &[], &[2], 4, MOVE).ok(),
        Some(vec![subtree(3, 1), subtree(2, 4)])
    );
}

#[test]
fn inserting_gives_the_children_their_parent() {
    let options = PlanOptions { fixup: false, insert: true, reparent: true };
    assert_eq!(
        plan(&line(), &[5], &[], 1, options).ok(),
        Some(vec![
            subtree(5, 1),
            reparent(5, &[1]),
            subtree(2, 5),
            reparent(2, &[5]),
            reparent(5, &[0]),
        ])
    );
}

#[test]
fn inserting_a_lineage_goes_behind_its_last_component() {
    assert_eq!(
        plan(&line(), &[], &[2, 4], 0, INSERT).ok(),
        Some(vec![
            subtree(3, 1),
            subtree(2, 0),
            subtree(4, 2),
            subtree(5, 4),
            subtree(1, 4),
        ])
    );
}

#[test]
fn inserting_what_is_no_lineage_is_refused() {
    let refusal = plan(&line(), &[], &[4, 5], 1, INSERT).err().unwrap();
    assert!(matches!(refusal, Refusal::NotALineage { ancestor: 4, descendant: 5 }));
    assert_eq!(
        message_of(refusal),
        "The --insert and --exact flags can only be used together when moving commits or\n\
         ranges that form a single lineage, but <4> is not an ancestor of <5>."
    );
    assert!(plan(&line(), &[], &[4, 5], 1, MOVE).is_ok());
}

#[test]
fn inserting_several_heads_is_refused() {
    let refusal = plan(&line(), &[0], &[], 5, INSERT).err().unwrap();
    assert!(matches!(refusal, Refusal::ManyHeads));
    assert_eq!(
        message_of(refusal),
        "The --insert flag cannot be used when moving subtrees or ranges with multiple heads."
    );
    assert!(matches!(plan(&line(), &[5], &[4], 1, INSERT), Err(Refusal::ManyHeads)));
}

#[test]
fn inserting_nothing_is_refused() {
    assert!(matches!(plan(&line(), &[], &[], 1, INSERT), Err(Refusal::ManyHeads)));
}

#[test]
fn a_stuck_component_is_named_before_a_broken_lineage() {
    assert!(matches!(
        plan(&merge(), &[], &[2, 4, 9], 8, INSERT),
        Err(Refusal::ManyPossibleParents { .. })
    ));
}

#[test]
fn components_follow_the_sources() {
    assert_eq!(
        plan(&line(), &[4], &[5], 1, MOVE).ok(),
        Some(vec![subtree(4, 1), subtree(5, 1)])
    );
}

#[test]
fn only_the_roots_that_are_named_are_handled() {
    let graph = line();
    let selection = selection(&graph, &[], &[2, 4], 5);
    assert_eq!(
        plan_move(&graph, &selection, &vec![4], MOVE).ok(),
        Some(vec![subtree(4, 5)])
    );
}

#[test]
fn steps_take_what_may_be_rewritten() {
    let graph = line();
    for options in [MOVE, FIXUP, INSERT, REPARENT] {
        let selection = selection(&graph, &[5], &[], 1);
        let rewritten = selection.rewrite_set(&graph, options.fixup, options.insert);
        let below = graph.query_descendants(&rewritten);
        for step in plan(&graph, &[5], &[], 1, options).ok().unwrap() {
            let taken = match step {
                Operation::MoveSubtree { root, .. } => root,
                Operation::MoveRange { start, .. } => start,
                Operation::FixupCommit { commit, .. } => commit,
                Operation::ReparentSubtree { root, .. } => root,
            };
            assert!(below.contains(taken));
        }
    }
}

#[test]
fn every_component_is_handled() {
    let graph = line();
    let exacts = [1, 2, 4, 5];
    let moved = plan(&graph, &[], &exacts, 0, MOVE).ok().unwrap();
    for (root, dest) in [(1, 0), (4, 2), (5, 0)] {
        assert!(moved.contains(&subtree(root, dest)));
    }
    let folded = plan(&graph, &[], &exacts, 0, FIXUP).ok().unwrap();
    for commit in exacts {
        assert!(folded.contains(&fixup(commit, 0)));
    }
}

#[test]
fn very_many_components_together() {
    let components: Vec<Component> = (0..50_000)
        .map(|root| Component { root, commits: CommitSet::from_commit(root) })
        .collect();
    let all = union_components(&components);
    assert!(all.contains(49_999));
    assert!(!all.contains(50_000));
    assert_eq!(all.to_vec().len(), 50_000);
}
