//! The connected components of a set of commits.

use vstd::prelude::*;

use crate::commit_set::{CommitId, CommitSet};
use crate::graph::{
    first_of, is_parent, lemma_first_of, list_of, marked, newest_first, parents_come_first,
    set_of_marks, CommitGraph, Parents,
};

verus! {

/// Whether one of the commits is a parent of the other.
pub open spec fn adjacent(g: Parents, x: usize, y: usize) -> bool {
    is_parent(g, x, y) || is_parent(g, y, x)
}

/// Whether `w` goes from commit to adjacent commit without leaving `s`.
pub open spec fn is_walk(g: Parents, s: Set<usize>, w: Seq<usize>) -> bool {
    &&& w.len() > 0
    &&& forall|i: int| 0 <= i < w.len() ==> s.contains(#[trigger] w[i])
    &&& forall|i: int, j: int|
        #![trigger w[i], w[j]]
        0 <= i < w.len() && 0 <= j < w.len() && j == i + 1 ==> adjacent(g, w[i], w[j])
}

/// Whether a walk within `s` goes from `x` to `y`.
pub open spec fn linked(g: Parents, s: Set<usize>, x: usize, y: usize) -> bool {
    exists|w: Seq<usize>| #[trigger] is_walk(g, s, w) && w[0] == x && w.last() == y
}

/// The commits to which a walk within `s` goes from `x`.
pub open spec fn component_of(g: Parents, s: Set<usize>, x: usize) -> Set<usize> {
    Set::new(|y: usize| linked(g, s, x, y))
}

/// The commits of `s` that are the newest of their components.
pub open spec fn leaders_of(g: Parents, s: Set<usize>) -> Set<usize> {
    Set::new(
        |c: usize|
            c < g.len() && s.contains(c) && forall|y: usize|
                #[trigger] component_of(g, s, c).contains(y) ==> y <= c,
    )
}

/// The connected components of `s`, from the one with the newest commit on.
pub open spec fn components_of(g: Parents, s: Set<usize>) -> Seq<Set<usize>> {
    list_of(g, leaders_of(g, s)).map_values(|c: usize| component_of(g, s, c))
}

/// A commit is linked to itself.
pub(crate) proof fn lemma_linked_to_itself(g: Parents, s: Set<usize>, x: usize)
    requires
        s.contains(x),
    ensures
        linked(g, s, x, x),
{
    let w = seq![x];
    assert(is_walk(g, s, w));
}

/// Walks can be taken one after the other.
proof fn lemma_linked_transitive(g: Parents, s: Set<usize>, x: usize, y: usize, z: usize)
    requires
        linked(g, s, x, y),
        linked(g, s, y, z),
    ensures
        linked(g, s, x, z),
{
    let v = choose|w: Seq<usize>| #[trigger] is_walk(g, s, w) && w[0] == x && w.last() == y;
    let w = choose|w: Seq<usize>| #[trigger] is_walk(g, s, w) && w[0] == y && w.last() == z;
    let both = v + w.drop_first();
    assert forall|i: int, j: int|
        #![trigger both[i], both[j]]
        0 <= i < both.len() && 0 <= j < both.len() && j == i + 1 implies adjacent(
        g,
        both[i],
        both[j],
    ) by {
        if j < v.len() {
            assert(both[i] == v[i] && both[j] == v[j]);
        } else {
            assert(both[i] == w[i - v.len() + 1]);
            assert(both[j] == w[j - v.len() + 1]);
        }
    }
    assert forall|i: int| 0 <= i < both.len() implies s.contains(#[trigger] both[i]) by {
        if i < v.len() {
            assert(both[i] == v[i]);
        } else {
            assert(both[i] == w[i - v.len() + 1]);
        }
    }
    assert(is_walk(g, s, both));
    assert(both[0] == v[0]);
    if w.len() == 1 {
        assert(both =~= v);
    } else {
        assert(both.last() == w.last());
    }
}

/// Walks can be taken backwards.
proof fn lemma_linked_symmetric(g: Parents, s: Set<usize>, x: usize, y: usize)
    requires
        linked(g, s, x, y),
    ensures
        linked(g, s, y, x),
{
    let w = choose|w: Seq<usize>| #[trigger] is_walk(g, s, w) && w[0] == x && w.last() == y;
    let back = w.reverse();
    assert forall|i: int| 0 <= i < back.len() implies s.contains(#[trigger] back[i]) by {
        assert(back[i] == w[w.len() - 1 - i]);
    }
    assert forall|i: int, j: int|
        #![trigger back[i], back[j]]
        0 <= i < back.len() && 0 <= j < back.len() && j == i + 1 implies adjacent(
        g,
        back[i],
        back[j],
    ) by {
        assert(back[i] == w[w.len() - 1 - i]);
        assert(back[j] == w[w.len() - 1 - j]);
    }
    assert(is_walk(g, s, back));
}

/// Adjacent commits of a set are linked.
pub(crate) proof fn lemma_adjacent_linked(g: Parents, s: Set<usize>, x: usize, y: usize)
    requires
        s.contains(x),
        s.contains(y),
        adjacent(g, x, y),
    ensures
        linked(g, s, x, y),
{
    let w = seq![x, y];
    assert(is_walk(g, s, w));
}

/// A walk does not leave a part of the set that holds the neighbours of its commits.
pub(crate) proof fn lemma_walk_stays(g: Parents, s: Set<usize>, part: Set<usize>, w: Seq<usize>, i: int)
    requires
        is_walk(g, s, w),
        part.contains(w[0]),
        forall|x: usize, y: usize|
            part.contains(x) && s.contains(y) && #[trigger] adjacent(g, x, y) ==> part.contains(y),
        0 <= i < w.len(),
    ensures
        part.contains(w[i]),
    decreases i,
{
    if i > 0 {
        lemma_walk_stays(g, s, part, w, i - 1);
        assert(adjacent(g, w[i - 1], w[i]));
    }
}

/// Every commit of the set is in the component of a leader, which is no older.
proof fn lemma_leader_of(g: Parents, s: Set<usize>, x: usize) -> (leader: usize)
    requires
        parents_come_first(g),
        g.len() <= usize::MAX,
        x < g.len(),
        s.contains(x),
    ensures
        leaders_of(g, s).contains(leader),
        x <= leader < g.len(),
        component_of(g, s, leader).contains(x),
{
    lemma_linked_to_itself(g, s, x);
    let here = component_of(g, s, x);
    lemma_first_of(g, here);
    assert(here.contains(x));
    let leader = first_of(g, here)->0;
    assert(linked(g, s, x, leader));
    lemma_linked_symmetric(g, s, x, leader);
    lemma_linked_within(g, s, x, leader);
    assert forall|y: usize| #[trigger] component_of(g, s, leader).contains(y) implies y
        <= leader by {
        lemma_linked_transitive(g, s, x, leader, y);
        lemma_linked_in_graph(g, s, x, y);
        assert(here.contains(y));
    }
    leader
}

/// Both ends of a walk are in the set.
pub(crate) proof fn lemma_linked_within(g: Parents, s: Set<usize>, x: usize, y: usize)
    requires
        linked(g, s, x, y),
    ensures
        s.contains(x),
        s.contains(y),
{
    let w = choose|w: Seq<usize>| #[trigger] is_walk(g, s, w) && w[0] == x && w.last() == y;
    assert(s.contains(w[0]));
    assert(s.contains(w[w.len() - 1]));
}

/// A walk from a commit of the graph stays in the graph.
pub(crate) proof fn lemma_linked_in_graph(g: Parents, s: Set<usize>, x: usize, y: usize)
    requires
        parents_come_first(g),
        linked(g, s, x, y),
        x < g.len(),
    ensures
        y < g.len(),
{
    let w = choose|w: Seq<usize>| #[trigger] is_walk(g, s, w) && w[0] == x && w.last() == y;
    let part = Set::new(|c: usize| c < g.len());
    assert forall|x: usize, y: usize|
        part.contains(x) && s.contains(y) && #[trigger] adjacent(g, x, y) implies part.contains(
        y,
    ) by {
        if is_parent(g, y, x) {
            crate::graph::lemma_parent_is_ancestor(g, y, x);
        }
    }
    lemma_walk_stays(g, s, part, w, w.len() - 1);
}

/// The number of marks.
spec fn mark_count(marks: Seq<bool>) -> nat
    decreases marks.len(),
{
    if marks.len() == 0 {
        0
    } else {
        mark_count(marks.drop_last()) + (if marks.last() {
            1nat
        } else {
            0
        })
    }
}

/// Taking one mark away lowers the number of marks by one.
proof fn lemma_one_mark_less(marks: Seq<bool>, i: int)
    requires
        0 <= i < marks.len(),
        marks[i],
    ensures
        mark_count(marks.update(i, false)) + 1 == mark_count(marks),
    decreases marks.len(),
{
    let less = marks.update(i, false);
    if i == marks.len() - 1 {
        assert(less.drop_last() =~= marks.drop_last());
    } else {
        assert(less.drop_last() =~= marks.drop_last().update(i, false));
        lemma_one_mark_less(marks.drop_last(), i);
    }
}

impl CommitGraph {
    /// Takes the component of `start` out of what remains of the members, and returns its marks.
    fn take_component(
        &self,
        members: &Vec<bool>,
        remaining: &mut Vec<bool>,
        start: CommitId,
    ) -> (r: Vec<bool>)
        requires
            members@.len() == self@.len(),
            old(remaining)@.len() == self@.len(),
            start < self@.len(),
            old(remaining)@[start as int],
            forall|x: usize|
                x < self@.len() && #[trigger] old(remaining)@[x as int] ==> members@[x as int],
            forall|x: usize, y: usize|
                x < self@.len() && y < self@.len() && old(remaining)@[x as int]
                    && members@[y as int] && #[trigger] adjacent(self@, x, y)
                    ==> old(remaining)@[y as int],
        ensures
            r@.len() == self@.len(),
            marked(r@) == component_of(self@, marked(members@), start),
            final(remaining)@.len() == self@.len(),
            forall|x: usize|
                x < self@.len() ==> (#[trigger] final(remaining)@[x as int]
                    <==> old(remaining)@[x as int] && !r@[x as int]),
    {
        let ghost g = self@;
        let ghost s = marked(members@);
        let ghost before = remaining@;
        let n = members.len();
        let mut part: Vec<bool> = Vec::new();
        for i in 0..n
            invariant
                part@.len() == i,
                forall|x: usize| x < i ==> !#[trigger] part@[x as int],
        {
            part.push(false);
        }
        let mut queue: Vec<CommitId> = Vec::new();
        part.set(start, true);
        remaining.set(start, false);
        queue.push(start);
        let mut done: usize = 0;
        proof {
            assert(s.contains(start));
            lemma_linked_to_itself(g, s, start);
            assert(queue@[0] == start);
        }
        while done < queue.len()
            invariant
                done <= queue@.len(),
                n == g.len(),
                g == self@,
                s == marked(members@),
                members@.len() == n,
                before.len() == n,
                remaining@.len() == n,
                part@.len() == n,
                start < n,
                part@[start as int],
                forall|x: usize| x < n && #[trigger] before[x as int] ==> members@[x as int],
                forall|x: usize, y: usize|
                    x < n && y < n && before[x as int] && members@[y as int] && #[trigger] adjacent(
                        g,
                        x,
                        y,
                    ) ==> before[y as int],
                forall|x: usize|
                    x < n ==> (#[trigger] remaining@[x as int] <==> before[x as int]
                        && !part@[x as int]),
                forall|x: usize| x < n && #[trigger] part@[x as int] ==> before[x as int],
                forall|x: usize|
                    x < n && #[trigger] part@[x as int] ==> linked(g, s, start, x),
                forall|x: usize| x < n && #[trigger] part@[x as int] ==> queue@.contains(x),
                forall|k: int|
                    0 <= k < queue@.len() ==> (#[trigger] queue@[k]) < n && part@[queue@[k] as int],
                forall|k: int, y: usize|
                    0 <= k < done && y < n && members@[y as int] && #[trigger] adjacent(
                        g,
                        queue@[k],
                        y,
                    ) ==> part@[y as int],
            decreases mark_count(remaining@) + queue@.len() - done,
        {
            let x = queue[done];
            let ghost total = mark_count(remaining@) + queue@.len();
            for y in 0..n
                invariant
                    done < queue@.len(),
                    x == queue@[done as int],
                    mark_count(remaining@) + queue@.len() == total,
                    n == g.len(),
                    g == self@,
                    s == marked(members@),
                    members@.len() == n,
                    before.len() == n,
                    remaining@.len() == n,
                    part@.len() == n,
                    start < n,
                    part@[start as int],
                    forall|x: usize| x < n && #[trigger] before[x as int] ==> members@[x as int],
                    forall|x: usize, y: usize|
                        x < n && y < n && before[x as int] && members@[y as int]
                            && #[trigger] adjacent(g, x, y) ==> before[y as int],
                    forall|x: usize|
                        x < n ==> (#[trigger] remaining@[x as int] <==> before[x as int]
                            && !part@[x as int]),
                    forall|x: usize| x < n && #[trigger] part@[x as int] ==> before[x as int],
                    forall|x: usize|
                        x < n && #[trigger] part@[x as int] ==> linked(g, s, start, x),
                    forall|x: usize| x < n && #[trigger] part@[x as int] ==> queue@.contains(x),
                    forall|k: int|
                        0 <= k < queue@.len() ==> (#[trigger] queue@[k]) < n
                            && part@[queue@[k] as int],
                    forall|k: int, y: usize|
                        0 <= k < done && y < n && members@[y as int] && #[trigger] adjacent(
                            g,
                            queue@[k],
                            y,
                        ) ==> part@[y as int],
                    forall|z: usize|
                        z < y && members@[z as int] && #[trigger] adjacent(g, x, z)
                            ==> part@[z as int],
            {
                if remaining[y] && (self.query_is_parent(x, y) || self.query_is_parent(y, x)) {
                    let ghost (last_queue, last_part) = (queue@, part@);
                    proof {
                        assert(before[y as int]);
                        assert(before[x as int]);
                        lemma_adjacent_linked(g, s, x, y);
                        lemma_linked_transitive(g, s, start, x, y);
                        lemma_one_mark_less(remaining@, y as int);
                    }
                    remaining.set(y, false);
                    part.set(y, true);
                    queue.push(y);
                    proof {
                        assert forall|z: usize| z < n && #[trigger] part@[z as int] implies queue@.contains(
                            z,
                        ) by {
                            if z == y {
                                assert(queue@[queue@.len() - 1] == y);
                            } else {
                                assert(last_part[z as int]);
                                let k = choose|k: int|
                                    0 <= k < last_queue.len() && last_queue[k] == z;
                                assert(queue@[k] == z);
                            }
                        }
                    }
                }
                proof {
                    if members@[y as int] && adjacent(g, x, y) {
                        assert(before[x as int]);
                        assert(before[y as int]);
                        assert(part@[y as int]);
                    }
                }
            }
            done = done + 1;
        }
        proof {
            let found = marked(part@);
            assert forall|x: usize, y: usize|
                found.contains(x) && s.contains(y) && #[trigger] adjacent(g, x, y) implies found.contains(
                y,
            ) by {
                let k = choose|k: int| 0 <= k < queue@.len() && queue@[k] == x;
                assert(adjacent(g, queue@[k], y));
            }
            assert forall|y: usize|
                component_of(g, s, start).contains(y) <==> found.contains(y) by {
                if component_of(g, s, start).contains(y) {
                    let w = choose|w: Seq<usize>|
                        #[trigger] is_walk(g, s, w) && w[0] == start && w.last() == y;
                    lemma_walk_stays(g, s, found, w, w.len() - 1);
                }
            }
            assert(found =~= component_of(g, s, start));
        }
        part
    }

    /// The connected components of the set, from the one with the newest commit on.
    pub fn get_connected_components(&self, set: &CommitSet) -> (r: Vec<CommitSet>)
        ensures
            r@.map_values(|c: CommitSet| c@) == components_of(self@, set@),
    {
        proof {
            use_type_invariant(self);
            self.lemma_is_graph();
        }
        let n = self.commit_count();
        let ghost g = self@;
        let members = self.marks_of(set);
        let mut remaining = self.marks_of(set);
        let ghost s = marked(members@);
        let ghost leaders = leaders_of(g, s);
        let mut components: Vec<CommitSet> = Vec::new();
        let mut i: usize = n;
        let ghost view = |c: CommitSet| c@;
        let ghost component = |c: usize| component_of(g, s, c);
        assert(components@.map_values(view) + newest_first(leaders, n as int).map_values(component)
            =~= newest_first(leaders, n as int).map_values(component));
        while i > 0
            invariant
                i <= n,
                n == g.len(),
                g == self@,
                parents_come_first(g),
                members@.len() == n,
                remaining@.len() == n,
                s == marked(members@),
                leaders == leaders_of(g, s),
                view == (|c: CommitSet| c@),
                component == (|c: usize| component_of(g, s, c)),
                components@.map_values(view) + newest_first(leaders, i as int).map_values(component)
                    == newest_first(leaders, n as int).map_values(component),
                forall|x: usize|
                    x < n ==> (#[trigger] remaining@[x as int] <==> s.contains(x) && forall|l: usize|
                        l >= i && #[trigger] leaders.contains(l) ==> !component_of(g, s, l).contains(
                            x,
                        )),
            decreases i,
        {
            i = i - 1;
            let ghost (before, last) = (remaining@, components@);
            proof {
                if leaders.contains(i) {
                    assert forall|l: usize|
                        l >= i + 1 && #[trigger] leaders.contains(l) implies !component_of(
                        g,
                        s,
                        l,
                    ).contains(i) by {
                        if linked(g, s, l, i) {
                            lemma_linked_symmetric(g, s, l, i);
                            assert(component_of(g, s, i).contains(l));
                        }
                    }
                    assert(remaining@[i as int]);
                } else if s.contains(i) {
                    let l = lemma_leader_of(g, s, i);
                    assert(!remaining@[i as int]);
                }
                assert(remaining@[i as int] <==> leaders.contains(i));
            }
            if remaining[i] {
                proof {
                    assert forall|x: usize, y: usize|
                        x < n && y < n && before[x as int] && members@[y as int]
                            && #[trigger] adjacent(g, x, y) implies before[y as int] by {
                        assert forall|l: usize|
                            l >= i + 1 && #[trigger] leaders.contains(l) implies !component_of(
                            g,
                            s,
                            l,
                        ).contains(y) by {
                            if linked(g, s, l, y) {
                                lemma_adjacent_linked(g, s, y, x);
                                lemma_linked_transitive(g, s, l, y, x);
                                assert(component_of(g, s, l).contains(x));
                            }
                        }
                    }
                }
                let part = self.take_component(&members, &mut remaining, i);
                components.push(set_of_marks(&part));
                proof {
                    assert(components@.map_values(view) =~= last.map_values(view).push(
                        component(i),
                    ));
                    assert(newest_first(leaders, i + 1) == seq![i] + newest_first(
                        leaders,
                        i as int,
                    ));
                    assert((seq![i] + newest_first(leaders, i as int)).map_values(component)
                        =~= seq![component(i)] + newest_first(leaders, i as int).map_values(
                        component,
                    ));
                    assert(last.map_values(view) + (seq![component(i)] + newest_first(
                        leaders,
                        i as int,
                    ).map_values(component)) =~= components@.map_values(view) + newest_first(
                        leaders,
                        i as int,
                    ).map_values(component));
                    assert forall|x: usize| x < n implies (#[trigger] remaining@[x as int]
                        <==> s.contains(x) && forall|l: usize|
                        l >= i && #[trigger] leaders.contains(l) ==> !component_of(
                            g,
                            s,
                            l,
                        ).contains(x)) by {
                        assert(part@[x as int] <==> component_of(g, s, i).contains(x)) by {
                            assert(marked(part@).contains(x) <==> component_of(
                                g,
                                s,
                                i,
                            ).contains(x));
                        }
                        assert(remaining@[x as int] <==> before[x as int] && !part@[x as int]);
                    }
                }
            } else {
                assert forall|x: usize| x < n implies (#[trigger] remaining@[x as int]
                    <==> s.contains(x) && forall|l: usize|
                    l >= i && #[trigger] leaders.contains(l) ==> !component_of(
                        g,
                        s,
                        l,
                    ).contains(x)) by {
                    assert(before[x as int] == remaining@[x as int]);
                }
            }
        }
        proof {
            assert(components@.map_values(view) + newest_first(leaders, 0).map_values(component)
                =~= components@.map_values(view));
            lemma_same_components(g, s, set@);
        }
        components
    }
}

/// The components of a set are those of its commits in the graph.
proof fn lemma_same_components(g: Parents, known: Set<usize>, s: Set<usize>)
    requires
        parents_come_first(g),
        g.len() <= usize::MAX,
        forall|c: usize| #[trigger] known.contains(c) <==> c < g.len() && s.contains(c),
    ensures
        components_of(g, known) == components_of(g, s),
{
    assert forall|x: usize, y: usize| x < g.len() implies (#[trigger] linked(g, known, x, y)
        <==> linked(g, s, x, y)) by {
        if linked(g, known, x, y) {
            let w = choose|w: Seq<usize>|
                #[trigger] is_walk(g, known, w) && w[0] == x && w.last() == y;
            assert(is_walk(g, s, w));
        }
        if linked(g, s, x, y) {
            let w = choose|w: Seq<usize>|
                #[trigger] is_walk(g, s, w) && w[0] == x && w.last() == y;
            assert forall|i: int| 0 <= i < w.len() implies known.contains(#[trigger] w[i]) by {
                let part = w.take(i + 1);
                assert(is_walk(g, s, part)) by {
                    assert forall|j: int| 0 <= j < part.len() implies s.contains(
                        #[trigger] part[j],
                    ) by {
                        assert(part[j] == w[j]);
                    }
                    assert forall|j: int, k: int|
                        #![trigger part[j], part[k]]
                        0 <= j < part.len() && 0 <= k < part.len() && k == j
                            + 1 implies adjacent(g, part[j], part[k]) by {
                        assert(part[j] == w[j] && part[k] == w[k]);
                    }
                }
                assert(linked(g, s, x, w[i]));
                lemma_linked_in_graph(g, s, x, w[i]);
                assert(s.contains(w[i]));
            }
            assert(is_walk(g, known, w));
        }
    }
    assert forall|c: usize| c < g.len() implies #[trigger] component_of(g, known, c)
        == component_of(g, s, c) by {
        assert forall|y: usize|
            component_of(g, known, c).contains(y) <==> component_of(g, s, c).contains(y) by {
            assert(linked(g, known, c, y) <==> linked(g, s, c, y));
        }
        assert(component_of(g, known, c) =~= component_of(g, s, c));
    }
    assert forall|c: usize|
        leaders_of(g, known).contains(c) <==> leaders_of(g, s).contains(c) by {
        if c < g.len() {
            assert(component_of(g, known, c) == component_of(g, s, c));
        }
    }
    assert(leaders_of(g, known) =~= leaders_of(g, s));
    let l = list_of(g, leaders_of(g, s));
    crate::graph::lemma_newest_first(leaders_of(g, s), g.len() as int);
    assert forall|i: int| 0 <= i < l.len() implies component_of(g, known, #[trigger] l[i])
        == component_of(g, s, l[i]) by {
        assert(l.contains(l[i]));
    }
    assert(components_of(g, known) =~= components_of(g, s));
}

/// The components of a set split its commits: every commit is in one component and in no other,
/// and two commits are in the same component exactly when a walk within the set links them.
pub proof fn law_components_split_the_set(g: Parents, s: Set<usize>)
    requires
        parents_come_first(g),
        g.len() <= usize::MAX,
    ensures
        forall|i: int, c: usize|
            0 <= i < components_of(g, s).len() && #[trigger] components_of(g, s)[i].contains(c)
                ==> c < g.len() && s.contains(c),
        forall|c: usize|
            c < g.len() && #[trigger] s.contains(c) ==> exists|i: int|
                0 <= i < components_of(g, s).len() && #[trigger] components_of(
                    g,
                    s,
                )[i].contains(c),
        forall|i: int, j: int, x: usize, y: usize|
            #![trigger components_of(g, s)[i].contains(x), components_of(g, s)[j].contains(y)]
            0 <= i < components_of(g, s).len() && 0 <= j < components_of(g, s).len()
                && components_of(g, s)[i].contains(x) && components_of(g, s)[j].contains(y) ==> (i
                == j <==> linked(g, s, x, y)),
{
    let leaders = leaders_of(g, s);
    let l = list_of(g, leaders);
    let parts = components_of(g, s);
    crate::graph::lemma_newest_first(leaders, g.len() as int);
    assert forall|i: int| 0 <= i < parts.len() implies #[trigger] parts[i] == component_of(
        g,
        s,
        l[i],
    ) && leaders.contains(l[i]) by {
        assert(l.contains(l[i]));
    }
    assert forall|i: int, c: usize|
        0 <= i < parts.len() && #[trigger] parts[i].contains(c) implies c < g.len() && s.contains(
        c,
    ) by {
        lemma_linked_in_graph(g, s, l[i], c);
        lemma_linked_within(g, s, l[i], c);
    }
    assert forall|c: usize| c < g.len() && #[trigger] s.contains(c) implies exists|i: int|
        0 <= i < parts.len() && #[trigger] parts[i].contains(c) by {
        let leader = lemma_leader_of(g, s, c);
        assert(l.contains(leader));
        let i = choose|i: int| 0 <= i < l.len() && l[i] == leader;
        assert(parts[i].contains(c));
    }
    assert forall|i: int, j: int, x: usize, y: usize|
        #![trigger parts[i].contains(x), parts[j].contains(y)]
        0 <= i < parts.len() && 0 <= j < parts.len() && parts[i].contains(x) && parts[j].contains(
            y,
        ) implies (i == j <==> linked(g, s, x, y)) by {
        lemma_linked_symmetric(g, s, l[i], x);
        lemma_linked_symmetric(g, s, l[j], y);
        if i == j {
            lemma_linked_transitive(g, s, x, l[i], y);
        }
        if linked(g, s, x, y) {
            lemma_linked_transitive(g, s, l[i], x, y);
            lemma_linked_transitive(g, s, l[i], y, l[j]);
            lemma_linked_symmetric(g, s, l[i], l[j]);
            assert(component_of(g, s, l[i]).contains(l[j]));
            assert(component_of(g, s, l[j]).contains(l[i]));
            assert(l[i] == l[j]);
        }
    }
}

} // verus!
