//! The commit graph and the questions asked of it.
//!
//! Commits are numbered so that every parent has a smaller number than its children. Lists of
//! commits go from the newest commit, which has the greatest number, to the oldest.

use vstd::prelude::*;

use crate::commit_set::{CommitId, CommitSet};

verus! {

/// The parents of each commit, by the commit's number.
pub type Parents = Seq<Seq<usize>>;

/// Whether every parent has a smaller number than its child.
pub open spec fn parents_come_first(g: Parents) -> bool {
    forall|c: int, i: int|
        #![trigger g[c][i]]
        0 <= c < g.len() && 0 <= i < g[c].len() ==> g[c][i] < c
}

/// Whether `p` is a parent of `c`.
pub open spec fn is_parent(g: Parents, p: usize, c: usize) -> bool {
    c < g.len() && g[c as int].contains(p)
}

/// Whether `a` is `d` or an ancestor of a parent of `d`.
pub open spec fn is_ancestor(g: Parents, a: usize, d: usize) -> bool
    decreases d,
{
    d < g.len() && (a == d || exists|p: usize|
        p < d && #[trigger] is_parent(g, p, d) && is_ancestor(g, a, p))
}

/// The commits of the graph that are in `s`.
pub open spec fn known(g: Parents, s: Set<usize>) -> Set<usize> {
    Set::new(|c: usize| c < g.len() && s.contains(c))
}

/// The commits that have a parent in `s`.
pub open spec fn children_of(g: Parents, s: Set<usize>) -> Set<usize> {
    Set::new(|c: usize| exists|p: usize| s.contains(p) && #[trigger] is_parent(g, p, c))
}

/// The commits that have a child in `s`.
pub open spec fn parents_of(g: Parents, s: Set<usize>) -> Set<usize> {
    Set::new(|p: usize| exists|c: usize| s.contains(c) && #[trigger] is_parent(g, p, c))
}

/// The commits of `s` that have no parent in `s`.
pub open spec fn roots_of(g: Parents, s: Set<usize>) -> Set<usize> {
    known(g, s).difference(children_of(g, s))
}

/// The commits of `s` that have no child in `s`.
pub open spec fn heads_of(g: Parents, s: Set<usize>) -> Set<usize> {
    known(g, s).difference(parents_of(g, s))
}

/// The commits from which a commit of `s` descends, with those of `s` themselves.
pub open spec fn ancestors_of(g: Parents, s: Set<usize>) -> Set<usize> {
    Set::new(|a: usize| exists|d: usize| s.contains(d) && #[trigger] is_ancestor(g, a, d))
}

/// The commits that descend from a commit of `s`, with those of `s` themselves.
pub open spec fn descendants_of(g: Parents, s: Set<usize>) -> Set<usize> {
    Set::new(|d: usize| exists|a: usize| s.contains(a) && #[trigger] is_ancestor(g, a, d))
}

/// The commits that descend from `roots` and are ancestors of `heads`.
pub open spec fn range_of(g: Parents, roots: Set<usize>, heads: Set<usize>) -> Set<usize> {
    ancestors_of(g, heads).intersect(descendants_of(g, roots))
}

/// The commits of `s` with a number below `n`, from the newest to the oldest.
pub open spec fn newest_first(s: Set<usize>, n: int) -> Seq<usize>
    decreases n,
{
    if n <= 0 {
        seq![]
    } else if s.contains((n - 1) as usize) {
        seq![(n - 1) as usize] + newest_first(s, n - 1)
    } else {
        newest_first(s, n - 1)
    }
}

/// The commits of `s`, from the newest to the oldest.
pub open spec fn list_of(g: Parents, s: Set<usize>) -> Seq<usize> {
    newest_first(s, g.len() as int)
}

/// The newest commit of `s`.
pub open spec fn first_of(g: Parents, s: Set<usize>) -> Option<usize> {
    if list_of(g, s).len() == 0 {
        None
    } else {
        Some(list_of(g, s)[0])
    }
}

/// The newest commit that is an ancestor of both.
pub open spec fn gca_of(g: Parents, a: usize, b: usize) -> Option<usize> {
    first_of(g, ancestors_of(g, set![a]).intersect(ancestors_of(g, set![b])))
}

/// The list of a set holds its commits with a number below `n`, each once, in falling order.
pub proof fn lemma_newest_first(s: Set<usize>, n: int)
    requires
        n <= usize::MAX + 1,
    ensures
        forall|c: usize| #[trigger]
            newest_first(s, n).contains(c) <==> s.contains(c) && c < n,
        forall|i: int, j: int|
            0 <= i < j < newest_first(s, n).len() ==> newest_first(s, n)[i] > newest_first(
                s,
                n,
            )[j],
        newest_first(s, n).no_duplicates(),
    decreases n,
{
    if n > 0 {
        lemma_newest_first(s, n - 1);
        let rest = newest_first(s, n - 1);
        let all = newest_first(s, n);
        let top = (n - 1) as usize;
        if s.contains(top) {
            assert(all == seq![top] + rest);
            assert forall|i: int, j: int| 0 <= i < j < all.len() implies all[i] > all[j] by {
                assert(rest.contains(rest[j - 1]));
                if i > 0 {
                    assert(all[i] == rest[i - 1]);
                }
            }
            assert forall|c: usize| all.contains(c) <==> s.contains(c) && c < n by {
                if all.contains(c) {
                    let i = choose|i: int| 0 <= i < all.len() && all[i] == c;
                    if i > 0 {
                        assert(rest[i - 1] == c);
                        assert(rest.contains(c));
                    }
                }
                if s.contains(c) && c < n {
                    if c == top {
                        assert(all[0] == c);
                    } else {
                        assert(rest.contains(c));
                        let i = choose|i: int| 0 <= i < rest.len() && rest[i] == c;
                        assert(all[i + 1] == c);
                    }
                }
            }
        } else {
            assert(all == rest);
        }
    }
}

/// Sets that agree below `n` have the same list.
proof fn lemma_newest_first_agrees(s: Set<usize>, t: Set<usize>, n: int)
    requires
        n <= usize::MAX + 1,
        forall|c: usize| c < n ==> (#[trigger] s.contains(c) <==> t.contains(c)),
    ensures
        newest_first(s, n) == newest_first(t, n),
    decreases n,
{
    if n > 0 {
        let top = (n - 1) as usize;
        assert(s.contains(top) <==> t.contains(top));
        lemma_newest_first_agrees(s, t, n - 1);
    }
}

/// The first commit of a set is its newest, and there is one unless the set is empty.
pub proof fn lemma_first_of(g: Parents, s: Set<usize>)
    requires
        g.len() <= usize::MAX,
    ensures
        first_of(g, s) matches Some(c) ==> c < g.len() && s.contains(c) && forall|x: usize|
            x < g.len() && #[trigger] s.contains(x) ==> x <= c,
        first_of(g, s) is None ==> forall|x: usize| x < g.len() ==> !#[trigger] s.contains(x),
{
    lemma_newest_first(s, g.len() as int);
    let l = list_of(g, s);
    if l.len() > 0 {
        assert(l.contains(l[0]));
        assert forall|x: usize| x < g.len() && #[trigger] s.contains(x) implies x <= l[0] by {
            assert(l.contains(x));
            let i = choose|i: int| 0 <= i < l.len() && l[i] == x;
            if i > 0 {
                assert(l[0] > l[i]);
            }
        }
    } else {
        assert forall|x: usize| x < g.len() implies !#[trigger] s.contains(x) by {
            assert(!l.contains(x));
        }
    }
}

/// An ancestor has no greater number than its descendant, and both are commits of the graph.
pub proof fn lemma_ancestor_is_older(g: Parents, a: usize, d: usize)
    requires
        is_ancestor(g, a, d),
    ensures
        a <= d < g.len(),
    decreases d,
{
    if a != d {
        let p = choose|p: usize| p < d && #[trigger] is_parent(g, p, d) && is_ancestor(g, a, p);
        lemma_ancestor_is_older(g, a, p);
    }
}

/// An ancestor of an ancestor is an ancestor.
pub proof fn lemma_ancestor_transitive(g: Parents, a: usize, b: usize, c: usize)
    requires
        is_ancestor(g, a, b),
        is_ancestor(g, b, c),
    ensures
        is_ancestor(g, a, c),
    decreases c,
{
    if b != c {
        let p = choose|p: usize| p < c && #[trigger] is_parent(g, p, c) && is_ancestor(g, b, p);
        lemma_ancestor_transitive(g, a, b, p);
    }
}

/// A parent is an ancestor of its child.
pub proof fn lemma_parent_is_ancestor(g: Parents, p: usize, c: usize)
    requires
        parents_come_first(g),
        is_parent(g, p, c),
    ensures
        p < c,
        is_ancestor(g, p, c),
{
    let i = choose|i: int| 0 <= i < g[c as int].len() && g[c as int][i] == p;
    assert(g[c as int][i] < c);
    assert(is_ancestor(g, p, p));
}

/// What lies between an ancestor and a descendant: the child of the ancestor on the way.
pub proof fn lemma_child_towards(g: Parents, a: usize, d: usize) -> (k: usize)
    requires
        parents_come_first(g),
        is_ancestor(g, a, d),
        a != d,
    ensures
        is_parent(g, a, k),
        is_ancestor(g, k, d),
    decreases d,
{
    let p = choose|p: usize| p < d && #[trigger] is_parent(g, p, d) && is_ancestor(g, a, p);
    if p == a {
        assert(is_ancestor(g, d, d));
        d
    } else {
        let k = lemma_child_towards(g, a, p);
        lemma_parent_is_ancestor(g, p, d);
        lemma_ancestor_transitive(g, k, p, d);
        k
    }
}

/// Every commit of a set descends from a root of the set.
pub proof fn lemma_root_above(g: Parents, s: Set<usize>, c: usize) -> (r: usize)
    requires
        parents_come_first(g),
        s.contains(c),
        c < g.len(),
    ensures
        roots_of(g, s).contains(r),
        is_ancestor(g, r, c),
    decreases c,
{
    if roots_of(g, s).contains(c) {
        c
    } else {
        assert(children_of(g, s).contains(c));
        let p = choose|p: usize| s.contains(p) && #[trigger] is_parent(g, p, c);
        lemma_parent_is_ancestor(g, p, c);
        let r = lemma_root_above(g, s, p);
        lemma_ancestor_transitive(g, r, p, c);
        r
    }
}

/// Every commit of a set is an ancestor of a head of the set.
pub proof fn lemma_head_below(g: Parents, s: Set<usize>, c: usize) -> (h: usize)
    requires
        parents_come_first(g),
        s.contains(c),
        c < g.len(),
    ensures
        heads_of(g, s).contains(h),
        is_ancestor(g, c, h),
    decreases g.len() - c,
{
    if heads_of(g, s).contains(c) {
        c
    } else {
        assert(parents_of(g, s).contains(c));
        let k = choose|k: usize| s.contains(k) && #[trigger] is_parent(g, c, k);
        lemma_parent_is_ancestor(g, c, k);
        let h = lemma_head_below(g, s, k);
        lemma_ancestor_transitive(g, c, k, h);
        h
    }
}

/// The first `i + 1` items are the first `i` and the one after them.
pub(crate) proof fn lemma_take_one_more(s: Seq<usize>, i: int, x: usize)
    requires
        0 <= i < s.len(),
    ensures
        s.take(i + 1).contains(x) <==> s.take(i).contains(x) || s[i] == x,
{
    let (short, long) = (s.take(i), s.take(i + 1));
    assert(long =~= short.push(s[i]));
    if long.contains(x) {
        let j = choose|j: int| 0 <= j < long.len() && long[j] == x;
        if j < i {
            assert(short[j] == x);
        }
    }
    if short.contains(x) {
        let j = choose|j: int| 0 <= j < short.len() && short[j] == x;
        assert(long[j] == x);
    }
    if s[i] == x {
        assert(long[i] == x);
    }
}

/// The commits that are marked.
pub open spec fn marked(marks: Seq<bool>) -> Set<usize> {
    Set::new(|c: usize| c < marks.len() && marks[c as int])
}

/// The set of the marked commits.
pub(crate) fn set_of_marks(marks: &Vec<bool>) -> (r: CommitSet)
    ensures
        r@ == marked(marks@),
{
    let commits = list_of_marks(marks);
    proof {
        lemma_newest_first(marked(marks@), marks.len() as int);
        assert(commits@.to_set() =~= marked(marks@));
    }
    CommitSet::from_commits(commits)
}

/// The marked commits, from the newest to the oldest.
pub(crate) fn list_of_marks(marks: &Vec<bool>) -> (r: Vec<CommitId>)
    ensures
        r@ == newest_first(marked(marks@), marks@.len() as int),
{
    let mut commits: Vec<CommitId> = Vec::new();
    let mut i: usize = marks.len();
    while i > 0
        invariant
            i <= marks@.len(),
            commits@ + newest_first(marked(marks@), i as int) == newest_first(
                marked(marks@),
                marks@.len() as int,
            ),
        decreases i,
    {
        let ghost before = commits@;
        i = i - 1;
        if marks[i] {
            commits.push(i);
            assert(before + (seq![i] + newest_first(marked(marks@), i as int)) =~= commits@
                + newest_first(marked(marks@), i as int));
        }
    }
    assert(commits@ + newest_first(marked(marks@), 0) =~= commits@);
    commits
}

/// A commit graph, with the commits that are visible to the user.
pub struct CommitGraph {
    parents: Vec<Vec<CommitId>>,
    visible: Vec<bool>,
}

impl View for CommitGraph {
    type V = Parents;

    closed spec fn view(&self) -> Parents {
        self.parents@.map_values(|p: Vec<CommitId>| p@)
    }
}

impl CommitGraph {
    /// Whether parents come before their children. It holds of every graph.
    #[verifier::type_invariant]
    pub(crate) closed spec fn is_graph(self) -> bool {
        &&& parents_come_first(self@)
        &&& self.visible@.len() == self.parents@.len()
    }

    /// In a graph, parents come before their children.
    pub(crate) proof fn lemma_is_graph(&self)
        requires
            self.is_graph(),
        ensures
            parents_come_first(self@),
            self@.len() <= usize::MAX,
    {
        assert(self@.len() == self.parents.len());
    }

    /// The commits that are visible to the user.
    pub closed spec fn visible_commits(&self) -> Set<usize> {
        marked(self.visible@)
    }

    /// The graph in which commit `c` has the parents `parents[c]` and is visible when `visible[c]`
    /// says so. There is no such graph when a parent does not come before its child, or when the
    /// two lists differ in length.
    pub fn new(parents: Vec<Vec<CommitId>>, visible: Vec<bool>) -> (r: Option<CommitGraph>)
        ensures
            r is Some <==> parents_come_first(parents@.map_values(|p: Vec<CommitId>| p@))
                && visible@.len() == parents@.len(),
            r matches Some(graph) ==> graph@ == parents@.map_values(|p: Vec<CommitId>| p@)
                && graph.visible_commits() == marked(visible@),
    {
        let ghost g = parents@.map_values(|p: Vec<CommitId>| p@);
        if visible.len() != parents.len() {
            return None;
        }
        for c in 0..parents.len()
            invariant
                g == parents@.map_values(|p: Vec<CommitId>| p@),
                forall|d: int, i: int|
                    #![trigger g[d][i]]
                    0 <= d < c && 0 <= i < g[d].len() ==> g[d][i] < d,
        {
            assert(g[c as int] == parents@[c as int]@);
            let row = &parents[c];
            for i in 0..row.len()
                invariant
                    c < parents@.len(),
                    row@ == parents@[c as int]@,
                    g == parents@.map_values(|p: Vec<CommitId>| p@),
                    g[c as int] == parents@[c as int]@,
                    forall|j: int| 0 <= j < i ==> #[trigger] g[c as int][j] < c,
            {
                if row[i] >= c {
                    assert(!(g[c as int][i as int] < c));
                    return None;
                }
            }
        }
        Some(CommitGraph { parents, visible })
    }

    /// The number of commits in the graph.
    pub fn commit_count(&self) -> (r: usize)
        ensures
            r == self@.len(),
    {
        self.parents.len()
    }

    /// The marks of the commits of the graph that are in the set.
    pub(crate) fn marks_of(&self, set: &CommitSet) -> (r: Vec<bool>)
        ensures
            r@.len() == self@.len(),
            forall|c: usize| c < r@.len() ==> r@[c as int] == set@.contains(c),
    {
        let n = self.parents.len();
        let mut marks: Vec<bool> = Vec::new();
        for i in 0..n
            invariant
                n == self@.len(),
                marks@.len() == i,
                forall|c: int| 0 <= c < i ==> !#[trigger] marks@[c],
        {
            marks.push(false);
        }
        let commits = set.to_vec();
        for k in 0..commits.len()
            invariant
                n == self@.len(),
                marks@.len() == n,
                forall|c: int|
                    0 <= c < n ==> (#[trigger] marks@[c] <==> commits@.take(k as int).contains(
                        c as usize,
                    )),
        {
            let c = commits[k];
            let ghost before = marks@;
            if c < n {
                marks.set(c, true);
            }
            proof {
                assert forall|x: int| 0 <= x < n implies (#[trigger] marks@[x]
                    <==> commits@.take(k + 1).contains(x as usize)) by {
                    assert(before[x] <==> commits@.take(k as int).contains(x as usize));
                    lemma_take_one_more(commits@, k as int, x as usize);
                }
            }
        }
        proof {
            assert(commits@.take(commits@.len() as int) =~= commits@);
            assert forall|c: usize| c < n implies marks@[c as int] == set@.contains(c) by {
                assert(marks@[c as int] <==> commits@.contains(c));
                assert(commits@.to_set().contains(c) <==> commits@.contains(c));
            }
        }
        marks
    }

    /// The commits of the set, from the newest to the oldest.
    pub fn commit_set_to_vec(&self, set: &CommitSet) -> (r: Vec<CommitId>)
        ensures
            r@ == list_of(self@, set@),
    {
        let marks = self.marks_of(set);
        proof {
            lemma_newest_first_agrees(marked(marks@), set@, self@.len() as int);
        }
        list_of_marks(&marks)
    }

    /// The newest commit of the set.
    pub fn set_first(&self, set: &CommitSet) -> (r: Option<CommitId>)
        ensures
            r == first_of(self@, set@),
    {
        let commits = self.commit_set_to_vec(set);
        if commits.len() == 0 {
            None
        } else {
            Some(commits[0])
        }
    }

    /// The number of commits in the set.
    pub fn set_count(&self, set: &CommitSet) -> (r: usize)
        ensures
            r == list_of(self@, set@).len(),
    {
        self.commit_set_to_vec(set).len()
    }

    /// Whether a parent of the commit is marked.
    fn has_marked_parent(&self, marks: &Vec<bool>, c: CommitId) -> (r: bool)
        requires
            c < self@.len(),
            self@.len() == marks@.len(),
        ensures
            r <==> exists|p: usize|
                #[trigger] is_parent(self@, p, c) && p < marks@.len() && marks@[p as int],
    {
        proof {
            use_type_invariant(self);
        }
        let ghost g = self@;
        assert(g[c as int] == self.parents@[c as int]@);
        let row = &self.parents[c];
        for i in 0..row.len()
            invariant
                c < self@.len(),
                g == self@,
                parents_come_first(g),
                g.len() == marks@.len(),
                g[c as int] == row@,
                forall|j: int|
                    0 <= j < i ==> !marks@[#[trigger] g[c as int][j] as int],
        {
            let p = row[i];
            assert(g[c as int][i as int] == p);
            if marks[p] {
                assert(is_parent(g, p, c));
                return true;
            }
        }
        assert forall|p: usize| #[trigger] is_parent(g, p, c) implies !(p < marks@.len()
            && marks@[p as int]) by {
            let i = choose|i: int| 0 <= i < g[c as int].len() && g[c as int][i] == p;
            assert(!marks@[g[c as int][i] as int]);
        }
        false
    }

    /// Whether `p` is a parent of `c`.
    pub fn query_is_parent(&self, p: CommitId, c: CommitId) -> (r: bool)
        ensures
            r == is_parent(self@, p, c),
    {
        if c >= self.parents.len() {
            return false;
        }
        let ghost g = self@;
        let row = &self.parents[c];
        assert(g[c as int] == row@);
        for i in 0..row.len()
            invariant
                c < g.len(),
                g == self@,
                g[c as int] == row@,
                forall|j: int| 0 <= j < i ==> #[trigger] row@[j] != p,
        {
            if row[i] == p {
                assert(row@.contains(p));
                return true;
            }
        }
        false
    }

    /// Marks the parents of the commit.
    fn mark_parents(&self, marks: &mut Vec<bool>, c: CommitId)
        requires
            c < self@.len(),
            self@.len() == old(marks)@.len(),
        ensures
            final(marks)@.len() == old(marks)@.len(),
            forall|x: usize|
                x < final(marks)@.len() ==> (final(marks)@[x as int] <==> old(marks)@[x as int]
                    || is_parent(self@, x, c)),
    {
        proof {
            use_type_invariant(self);
        }
        let ghost g = self@;
        let ghost before = marks@;
        assert(g[c as int] == self.parents@[c as int]@);
        let row = &self.parents[c];
        for i in 0..row.len()
            invariant
                c < self@.len(),
                g == self@,
                parents_come_first(g),
                g[c as int] == row@,
                g.len() == marks@.len(),
                before.len() == marks@.len(),
                forall|x: usize|
                    x < marks@.len() ==> (#[trigger] marks@[x as int] <==> before[x as int]
                        || row@.take(i as int).contains(x)),
        {
            let p = row[i];
            assert(g[c as int][i as int] == p);
            let ghost last = marks@;
            marks.set(p, true);
            proof {
                let row = row@;
                assert forall|x: usize| x < marks@.len() implies (#[trigger] marks@[x as int]
                    <==> before[x as int] || row.take(i + 1).contains(x)) by {
                    assert(last[x as int] <==> before[x as int] || row.take(i as int).contains(x));
                    lemma_take_one_more(row, i as int, x);
                }
            }
        }
        assert(row@.take(row@.len() as int) =~= row@);
    }

    /// The commits that have a parent in the set.
    pub fn query_children(&self, set: &CommitSet) -> (r: CommitSet)
        ensures
            r@ == children_of(self@, set@),
    {
        proof {
            use_type_invariant(self);
        }
        let ghost g = self@;
        let marks = self.marks_of(set);
        let mut children: Vec<bool> = Vec::new();
        for c in 0..marks.len()
            invariant
                g == self@,
                parents_come_first(g),
                marks@.len() == g.len(),
                forall|x: usize| x < marks@.len() ==> marks@[x as int] == set@.contains(x),
                children@.len() == c,
                forall|x: usize|
                    x < c ==> (#[trigger] children@[x as int] <==> children_of(g, set@).contains(x)),
        {
            let below = self.has_marked_parent(&marks, c);
            children.push(below);
            proof {
                if children_of(g, set@).contains(c) {
                    let p = choose|p: usize| set@.contains(p) && #[trigger] is_parent(g, p, c);
                    lemma_parent_is_ancestor(g, p, c);
                    assert(marks@[p as int]);
                }
            }
        }
        assert(marked(children@) =~= children_of(g, set@));
        set_of_marks(&children)
    }

    /// The marks of the commits that have a marked child.
    fn parent_marks(&self, marks: &Vec<bool>) -> (r: Vec<bool>)
        requires
            marks@.len() == self@.len(),
        ensures
            r@.len() == self@.len(),
            marked(r@) == parents_of(self@, marked(marks@)),
    {
        proof {
            use_type_invariant(self);
        }
        let ghost g = self@;
        let mut parents: Vec<bool> = Vec::new();
        for i in 0..marks.len()
            invariant
                parents@.len() == i,
                forall|x: usize| x < i ==> !#[trigger] parents@[x as int],
        {
            parents.push(false);
        }
        for c in 0..marks.len()
            invariant
                g == self@,
                marks@.len() == g.len(),
                parents@.len() == g.len(),
                forall|x: usize|
                    x < parents@.len() ==> (#[trigger] parents@[x as int] <==> exists|k: usize|
                        k < c && marks@[k as int] && #[trigger] is_parent(g, x, k)),
        {
            let ghost before = parents@;
            if marks[c] {
                self.mark_parents(&mut parents, c);
            }
            proof {
                assert forall|x: usize| x < parents@.len() implies (#[trigger] parents@[x as int]
                    <==> exists|k: usize|
                    k < c + 1 && marks@[k as int] && #[trigger] is_parent(g, x, k)) by {
                    assert(before[x as int] <==> exists|k: usize|
                        k < c && marks@[k as int] && #[trigger] is_parent(g, x, k));
                    if marks@[c as int] && is_parent(g, x, c) {
                        assert(parents@[x as int]);
                    }
                }
            }
        }
        proof {
            assert forall|x: usize|
                marked(parents@).contains(x) <==> parents_of(g, marked(marks@)).contains(x) by {
                if parents_of(g, marked(marks@)).contains(x) {
                    let k = choose|k: usize|
                        marked(marks@).contains(k) && #[trigger] is_parent(g, x, k);
                    lemma_parent_is_ancestor(g, x, k);
                    assert(parents@[x as int]);
                }
                if marked(parents@).contains(x) {
                    assert(parents@[x as int]);
                    let k = choose|k: usize|
                        k < g.len() && marks@[k as int] && #[trigger] is_parent(g, x, k);
                    assert(marked(marks@).contains(k));
                }
            }
            assert(marked(parents@) =~= parents_of(g, marked(marks@)));
        }
        parents
    }

    /// The commits that have a child in the set.
    pub fn query_parents(&self, set: &CommitSet) -> (r: CommitSet)
        ensures
            r@ == parents_of(self@, set@),
    {
        let marks = self.marks_of(set);
        let parents = self.parent_marks(&marks);
        proof {
            lemma_known_parents(self@, marked(marks@), set@);
        }
        set_of_marks(&parents)
    }

    /// The commits of the set that have no parent in the set.
    pub fn query_roots(&self, set: &CommitSet) -> (r: CommitSet)
        ensures
            r@ == roots_of(self@, set@),
    {
        let marks = self.marks_of(set);
        assert(marked(marks@) =~= known(self@, set@));
        set_of_marks(&marks).difference(&self.query_children(set))
    }

    /// The commits of the set that have no child in the set.
    pub fn query_heads(&self, set: &CommitSet) -> (r: CommitSet)
        ensures
            r@ == heads_of(self@, set@),
    {
        let marks = self.marks_of(set);
        assert(marked(marks@) =~= known(self@, set@));
        set_of_marks(&marks).difference(&self.query_parents(set))
    }

    /// The marks of the ancestors of the set.
    fn ancestor_marks(&self, set: &CommitSet) -> (r: Vec<bool>)
        ensures
            r@.len() == self@.len(),
            marked(r@) == ancestors_of(self@, set@),
    {
        proof {
            use_type_invariant(self);
        }
        let ghost g = self@;
        let mut marks = self.marks_of(set);
        let n = marks.len();
        proof {
            assert forall|x: usize| x < n && #[trigger] marks@[x as int] implies ancestors_of(
                g,
                set@,
            ).contains(x) by {
                assert(is_ancestor(g, x, x));
            }
        }
        let mut i: usize = n;
        while i > 0
            invariant
                i <= n,
                g == self@,
                n == g.len(),
                parents_come_first(g),
                marks@.len() == n,
                forall|x: usize| x < n && set@.contains(x) ==> #[trigger] marks@[x as int],
                forall|x: usize|
                    x < n && #[trigger] marks@[x as int] ==> ancestors_of(g, set@).contains(x),
                forall|p: usize, c: usize|
                    i <= c < n && #[trigger] is_parent(g, p, c) && p < n && marks@[c as int]
                        ==> marks@[p as int],
            decreases i,
        {
            i = i - 1;
            let ghost before = marks@;
            if marks[i] {
                self.mark_parents(&mut marks, i);
            }
            proof {
                assert forall|x: usize| x < n && #[trigger] marks@[x as int] implies ancestors_of(
                    g,
                    set@,
                ).contains(x) by {
                    if !before[x as int] {
                        assert(is_parent(g, x, i));
                        lemma_parent_is_ancestor(g, x, i);
                        assert(before[i as int]);
                        let d = choose|d: usize| set@.contains(d) && #[trigger] is_ancestor(g, i, d);
                        lemma_ancestor_transitive(g, x, i, d);
                    }
                }
                assert forall|p: usize, c: usize|
                    i <= c < n && #[trigger] is_parent(g, p, c) && p < n
                        && marks@[c as int] implies marks@[p as int] by {
                    if c > i && !before[c as int] {
                        assert(is_parent(g, c, i));
                        lemma_parent_is_ancestor(g, c, i);
                    }
                    if c == i && !before[c as int] {
                        assert(is_parent(g, c, i));
                        lemma_parent_is_ancestor(g, c, i);
                    }
                }
            }
        }
        proof {
            assert forall|a: usize|
                ancestors_of(g, set@).contains(a) <==> marked(marks@).contains(a) by {
                if ancestors_of(g, set@).contains(a) {
                    let d = choose|d: usize| set@.contains(d) && #[trigger] is_ancestor(g, a, d);
                    lemma_ancestor_is_older(g, a, d);
                    assert(marks@[d as int]);
                    lemma_closed_under_parents(g, marks@, a, d);
                }
            }
            assert(marked(marks@) =~= ancestors_of(g, set@));
        }
        marks
    }

    /// The ancestors of the set, with the commits of the set themselves.
    pub fn query_ancestors(&self, set: &CommitSet) -> (r: CommitSet)
        ensures
            r@ == ancestors_of(self@, set@),
    {
        let marks = self.ancestor_marks(set);
        set_of_marks(&marks)
    }

    /// The descendants of the set, with the commits of the set themselves.
    pub fn query_descendants(&self, set: &CommitSet) -> (r: CommitSet)
        ensures
            r@ == descendants_of(self@, set@),
    {
        proof {
            use_type_invariant(self);
        }
        let ghost g = self@;
        let mut marks = self.marks_of(set);
        let n = marks.len();
        for c in 0..n
            invariant
                g == self@,
                n == g.len(),
                parents_come_first(g),
                marks@.len() == n,
                forall|x: usize|
                    x < c ==> (#[trigger] marks@[x as int] <==> descendants_of(
                        g,
                        set@,
                    ).contains(x)),
                forall|x: usize| c <= x < n ==> (#[trigger] marks@[x as int] <==> set@.contains(x)),
        {
            let ghost before = marks@;
            if self.has_marked_parent(&marks, c) {
                marks.set(c, true);
            }
            proof {
                if marks@[c as int] {
                    if before[c as int] {
                        assert(is_ancestor(g, c, c));
                    } else {
                        let p = choose|p: usize|
                            #[trigger] is_parent(g, p, c) && p < before.len() && before[p as int];
                        lemma_parent_is_ancestor(g, p, c);
                        let a = choose|a: usize| set@.contains(a) && #[trigger] is_ancestor(g, a, p);
                        lemma_ancestor_transitive(g, a, p, c);
                    }
                }
                if descendants_of(g, set@).contains(c) {
                    let a = choose|a: usize| set@.contains(a) && #[trigger] is_ancestor(g, a, c);
                    if a != c {
                        let p = choose|p: usize|
                            p < c && #[trigger] is_parent(g, p, c) && is_ancestor(g, a, p);
                        assert(descendants_of(g, set@).contains(p));
                        assert(before[p as int]);
                    }
                }
            }
        }
        assert(marked(marks@) =~= descendants_of(g, set@)) by {
            assert forall|d: usize| descendants_of(g, set@).contains(d) implies d < n by {
                let a = choose|a: usize| set@.contains(a) && #[trigger] is_ancestor(g, a, d);
                lemma_ancestor_is_older(g, a, d);
            }
        }
        set_of_marks(&marks)
    }

    /// The commits that descend from `roots` and are ancestors of `heads`.
    pub fn query_range(&self, roots: &CommitSet, heads: &CommitSet) -> (r: CommitSet)
        ensures
            r@ == range_of(self@, roots@, heads@),
    {
        self.query_ancestors(heads).intersection(&self.query_descendants(roots))
    }

    /// Whether `ancestor` is `descendant` or one of its ancestors.
    pub fn query_is_ancestor(&self, ancestor: CommitId, descendant: CommitId) -> (r: bool)
        ensures
            r == is_ancestor(self@, ancestor, descendant),
    {
        let marks = self.ancestor_marks(&CommitSet::from_commit(descendant));
        proof {
            lemma_ancestors_of_one(self@, ancestor, descendant);
            assert(marked(marks@).contains(ancestor) <==> is_ancestor(
                self@,
                ancestor,
                descendant,
            ));
        }
        ancestor < marks.len() && marks[ancestor]
    }

    /// The newest commit that is an ancestor of both commits.
    pub fn query_gca_one(&self, a: CommitId, b: CommitId) -> (r: Option<CommitId>)
        ensures
            r == gca_of(self@, a, b),
    {
        let above_a = self.query_ancestors(&CommitSet::from_commit(a));
        let above_b = self.query_ancestors(&CommitSet::from_commit(b));
        self.set_first(&above_a.intersection(&above_b))
    }

    /// The commits of the set that are visible to the user.
    pub fn filter_visible_commits(&self, set: &CommitSet) -> (r: CommitSet)
        ensures
            r@ == set@.intersect(self.visible_commits()),
    {
        set.intersection(&set_of_marks(&self.visible))
    }
}

/// Marks that hold with a commit also its parents hold with it all its ancestors.
proof fn lemma_closed_under_parents(g: Parents, marks: Seq<bool>, a: usize, d: usize)
    requires
        parents_come_first(g),
        marks.len() == g.len(),
        forall|p: usize, c: usize|
            c < g.len() && #[trigger] is_parent(g, p, c) && p < g.len() && marks[c as int]
                ==> marks[p as int],
        is_ancestor(g, a, d),
        marks[d as int],
    ensures
        marks[a as int],
    decreases d,
{
    if a != d {
        let p = choose|p: usize| p < d && #[trigger] is_parent(g, p, d) && is_ancestor(g, a, p);
        lemma_closed_under_parents(g, marks, a, p);
    }
}

/// The parents of a set are those of its commits in the graph.
proof fn lemma_known_parents(g: Parents, known: Set<usize>, s: Set<usize>)
    requires
        forall|c: usize| #[trigger] known.contains(c) <==> c < g.len() && s.contains(c),
    ensures
        parents_of(g, known) == parents_of(g, s),
{
    assert forall|p: usize| parents_of(g, known).contains(p) <==> parents_of(g, s).contains(p) by {
        if parents_of(g, s).contains(p) {
            let c = choose|c: usize| s.contains(c) && #[trigger] is_parent(g, p, c);
            assert(known.contains(c));
        }
    }
    assert(parents_of(g, known) =~= parents_of(g, s));
}

/// The ancestors of a set of one commit are the ancestors of that commit.
pub proof fn lemma_ancestors_of_one(g: Parents, a: usize, d: usize)
    ensures
        ancestors_of(g, set![d]).contains(a) <==> is_ancestor(g, a, d),
        descendants_of(g, set![a]).contains(d) <==> is_ancestor(g, a, d),
{
    assert(set![d].contains(d));
    assert(set![a].contains(a));
}

} // verus!
