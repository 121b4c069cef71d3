use git_branchless_move::base::resolve_base_commit;
use git_branchless_move::commit_set::{CommitId, CommitSet};
use git_branchless_move::graph::CommitGraph;

/// ```text
/// 0 - 1 - 2 - 3 - 6 - 9
///      \         /
///       4 ----- 5
///
/// 7 - 8
/// ```
fn graph() -> CommitGraph {
    let parents = vec![
        vec![],
        vec![0],
        vec![1],
        vec![2],
        vec![1],
        vec![4],
        vec![3, 5],
        vec![],
        vec![7],
        vec![6],
    ];
    let mut visible = vec![true; 10];
    visible[5] = false;
    CommitGraph::new(parents, visible).unwrap()
}

fn set(commits: &[CommitId]) -> CommitSet {
    CommitSet::from_commits(commits.to_vec())
}

fn list(graph: &CommitGraph, set: &CommitSet) -> Vec<CommitId> {
    graph.commit_set_to_vec(set)
}

#[test]
fn a_graph_has_parents_before_children() {
    assert!(CommitGraph::new(vec![vec![], vec![0]], vec![true, true]).is_some());
    assert!(CommitGraph::new(vec![vec![1], vec![]], vec![true, true]).is_none());
    assert!(CommitGraph::new(vec![vec![0]], vec![true]).is_none());
    assert!(CommitGraph::new(vec![vec![], vec![5]], vec![true, true]).is_none());
    assert!(CommitGraph::new(vec![vec![]], vec![true, true]).is_none());
    assert_eq!(CommitGraph::new(vec![], vec![]).unwrap().commit_count(), 0);
    assert_eq!(graph().commit_count(), 10);
}

#[test]
fn lists_are_newest_first_and_know_only_the_graph() {
    let g = graph();
    assert_eq!(list(&g, &set(&[1, 8, 3, 100])), vec![8, 3, 1]);
    assert_eq!(g.set_first(&set(&[1, 8, 3])), Some(8));
    assert_eq!(g.set_first(&set(&[])), None);
    assert_eq!(g.set_first(&set(&[100])), None);
    assert_eq!(g.set_count(&set(&[1, 8, 3, 100])), 3);
}

#[test]
fn parents_and_children() {
    let g = graph();
    assert!(g.query_is_parent(5, 6));
    assert!(!g.query_is_parent(6, 5));
    assert!(!g.query_is_parent(1, 3));
    assert_eq!(list(&g, &g.query_children(&set(&[1]))), vec![4, 2]);
    assert_eq!(list(&g, &g.query_children(&set(&[9]))), Vec::<CommitId>::new());
    assert_eq!(list(&g, &g.query_parents(&set(&[6]))), vec![5, 3]);
    assert_eq!(list(&g, &g.query_parents(&set(&[0, 8]))), vec![7]);
}

#[test]
fn roots_and_heads() {
    let g = graph();
    assert_eq!(list(&g, &g.query_roots(&set(&[2, 3, 5, 6]))), vec![5, 2]);
    assert_eq!(list(&g, &g.query_heads(&set(&[1, 2, 4, 8]))), vec![8, 4, 2]);
    assert_eq!(list(&g, &g.query_heads(&set(&[2, 3, 5, 6]))), vec![6]);
}

#[test]
fn ancestors_and_descendants() {
    let g = graph();
    assert_eq!(list(&g, &g.query_ancestors(&set(&[5]))), vec![5, 4, 1, 0]);
    assert_eq!(list(&g, &g.query_descendants(&set(&[4]))), vec![9, 6, 5, 4]);
    assert_eq!(list(&g, &g.query_range(&set(&[1]), &set(&[5]))), vec![5, 4, 1]);
    assert_eq!(list(&g, &g.query_range(&set(&[2]), &set(&[5]))), Vec::<CommitId>::new());
    assert!(g.query_is_ancestor(2, 6));
    assert!(g.query_is_ancestor(6, 6));
    assert!(!g.query_is_ancestor(6, 2));
    assert!(!g.query_is_ancestor(7, 6));
    assert!(!g.query_is_ancestor(100, 100));
}

#[test]
fn newest_common_ancestor() {
    let g = graph();
    assert_eq!(g.query_gca_one(3, 5), Some(1));
    assert_eq!(g.query_gca_one(5, 6), Some(5));
    assert_eq!(g.query_gca_one(4, 4), Some(4));
    assert_eq!(g.query_gca_one(3, 8), None);
}

#[test]
fn hidden_commits_are_left_out() {
    let g = graph();
    assert_eq!(list(&g, &g.filter_visible_commits(&set(&[4, 5, 6, 100]))), vec![6, 4]);
}

#[test]
fn components_are_connected_within_the_set() {
    let g = graph();
    let found = g.get_connected_components(&set(&[2, 3, 5, 7, 8, 9]));
    let lists: Vec<Vec<CommitId>> = found.iter().map(|c| list(&g, c)).collect();
    assert_eq!(lists, vec![vec![9], vec![8, 7], vec![5], vec![3, 2]]);
    assert!(g.get_connected_components(&set(&[])).is_empty());
    let merged = g.get_connected_components(&set(&[3, 5, 6]));
    assert_eq!(merged.len(), 1);
    assert_eq!(list(&g, &merged[0]), vec![6, 5, 3]);
}

#[test]
fn components_split_the_set() {
    let g = graph();
    let whole = set(&[0, 2, 3, 4, 6, 8]);
    let mut all: Vec<CommitId> = Vec::new();
    for part in g.get_connected_components(&whole).iter() {
        all.extend(list(&g, part));
    }
    all.sort_unstable();
    assert_eq!(all, vec![0, 2, 3, 4, 6, 8]);
}

#[test]
fn a_branch_begins_after_the_merge_base() {
    let g = graph();
    assert_eq!(resolve_base_commit(&g, Some(1), 3), 2);
    assert_eq!(resolve_base_commit(&g, Some(1), 5), 4);
    assert_eq!(resolve_base_commit(&g, Some(2), 3), 3);
}

#[test]
fn a_merged_branch_begins_at_the_newest_child() {
    assert_eq!(resolve_base_commit(&graph(), Some(1), 9), 4);
}

#[test]
fn a_merge_base_is_its_own_base() {
    assert_eq!(resolve_base_commit(&graph(), Some(1), 1), 1);
}

#[test]
fn a_commit_off_the_merge_base_is_its_own_base() {
    assert_eq!(resolve_base_commit(&graph(), Some(5), 3), 3);
}

#[test]
fn without_merge_base_a_branch_begins_at_its_root() {
    let g = graph();
    assert_eq!(resolve_base_commit(&g, None, 8), 7);
    assert_eq!(resolve_base_commit(&g, None, 9), 0);
    assert_eq!(resolve_base_commit(&g, None, 7), 7);
}

#[test]
fn a_base_is_its_own_base() {
    let g = graph();
    for dest in 0..g.commit_count() {
        for commit in 0..g.commit_count() {
            let base = resolve_base_commit(&g, g.query_gca_one(commit, dest), commit);
            assert_eq!(resolve_base_commit(&g, g.query_gca_one(base, dest), base), base);
            assert!(g.query_is_ancestor(base, commit));
            if !g.query_is_ancestor(commit, dest) {
                assert!(!g.query_is_ancestor(base, dest));
            }
        }
    }
}
