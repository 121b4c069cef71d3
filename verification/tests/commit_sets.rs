use git_branchless_move::commit_set::{union_all, CommitId, CommitSet};

fn sorted(set: &CommitSet) -> Vec<CommitId> {
    let mut commits = set.to_vec();
    commits.sort_unstable();
    commits
}

#[test]
fn a_set_holds_each_commit_once() {
    let set = CommitSet::from_commits(vec![3, 1, 3, 70000]);
    assert_eq!(sorted(&set), vec![1, 3, 70000]);
    assert_eq!(sorted(&CommitSet::from_commit(7)), vec![7]);
    assert_eq!(sorted(&CommitSet::empty()), Vec::<CommitId>::new());
}

#[test]
fn commit_numbers_survive_their_names() {
    for commit in [0, 1, 255, 256, 65536, usize::MAX - 1, usize::MAX] {
        assert_eq!(CommitSet::from_commit(commit).to_vec(), vec![commit]);
    }
}

#[test]
fn membership_is_by_commit() {
    let set = CommitSet::from_commits(vec![1, 256]);
    assert!(set.contains(1));
    assert!(set.contains(256));
    assert!(!set.contains(0));
    assert!(!set.contains(2));
    assert!(!CommitSet::empty().contains(0));
}

#[test]
fn sets_combine() {
    let a = CommitSet::from_commits(vec![1, 2, 3]);
    let b = CommitSet::from_commits(vec![3, 4]);
    assert_eq!(sorted(&a.union(&b)), vec![1, 2, 3, 4]);
    assert_eq!(sorted(&a.intersection(&b)), vec![3]);
    assert_eq!(sorted(&a.difference(&b)), vec![1, 2]);
    assert_eq!(sorted(&b.difference(&a)), vec![4]);
    assert_eq!(sorted(&a), vec![1, 2, 3]);
}

#[test]
fn nested_operations_are_read_back() {
    let a = CommitSet::from_commits(vec![1, 2, 3]);
    let b = CommitSet::from_commits(vec![2, 3, 5]);
    let c = a.union(&b).difference(&CommitSet::from_commit(2)).intersection(&b.union(&a));
    assert_eq!(sorted(&c), vec![1, 3, 5]);
    assert!(c.contains(5));
    assert!(!c.contains(2));
}

#[test]
fn all_sets_together() {
    let sets = vec![
        CommitSet::from_commits(vec![1, 2]),
        CommitSet::empty(),
        CommitSet::from_commits(vec![2, 9]),
    ];
    assert_eq!(sorted(&union_all(&sets)), vec![1, 2, 9]);
    assert_eq!(sorted(&union_all(&Vec::new())), Vec::<CommitId>::new());
}

#[test]
fn very_many_sets_together() {
    let sets: Vec<CommitSet> = (0..50_000).map(CommitSet::from_commit).collect();
    let all = union_all(&sets);
    assert!(all.contains(0));
    assert!(all.contains(49_999));
    assert!(!all.contains(50_000));
    assert_eq!(all.to_vec().len(), 50_000);
}
