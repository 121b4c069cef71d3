//! What the questions to the commit graph mean, said with the parents of the commits alone.

use vstd::prelude::*;

use crate::components::{
    adjacent, component_of, components_of, is_walk, law_components_split_the_set, leaders_of,
    lemma_adjacent_linked, lemma_linked_to_itself, lemma_walk_stays, linked,
};
use crate::graph::{
    ancestors_of, children_of, descendants_of, first_of, gca_of, heads_of, is_ancestor, is_parent,
    lemma_ancestor_is_older, lemma_ancestor_transitive, lemma_ancestors_of_one, lemma_first_of,
    lemma_newest_first, lemma_parent_is_ancestor, list_of, marked, parents_come_first, parents_of,
    range_of, roots_of, Parents,
};

verus! {

/// In a graph every parent is older than its child.
pub proof fn law_parents_are_older(g: Parents)
    requires
        g.len() <= usize::MAX,
    ensures
        parents_come_first(g) <==> forall|c: usize, p: usize|
            c < g.len() && #[trigger] g[c as int].contains(p) ==> p < c,
{
    if parents_come_first(g) {
        assert forall|c: usize, p: usize|
            c < g.len() && #[trigger] g[c as int].contains(p) implies p < c by {
            let i = choose|i: int| 0 <= i < g[c as int].len() && g[c as int][i] == p;
            assert(g[c as int][i] < c);
        }
    }
    if forall|c: usize, p: usize|
        c < g.len() && #[trigger] g[c as int].contains(p) ==> p < c {
        assert forall|c: int, i: int|
            #![trigger g[c][i]]
            0 <= c < g.len() && 0 <= i < g[c].len() implies g[c][i] < c by {
            let d = c as usize;
            assert(g[d as int].contains(g[c][i]));
        }
    }
}

/// A parent of a commit is one that the graph names for it.
pub proof fn law_parent_is_named(g: Parents, p: usize, c: usize)
    ensures
        is_parent(g, p, c) <==> c < g.len() && g[c as int].contains(p),
{
}

/// Whether `w` goes from `a` to `d` from child to child.
pub open spec fn leads_down(g: Parents, w: Seq<usize>, a: usize, d: usize) -> bool {
    &&& w.len() > 0
    &&& w[0] == a
    &&& w[w.len() - 1] == d
    &&& forall|i: int, j: int|
        #![trigger w[i], w[j]]
        0 <= i && j == i + 1 && j < w.len() ==> is_parent(g, w[i], w[j])
}

/// Each commit on the way down is an ancestor of the last.
proof fn lemma_led_down(g: Parents, w: Seq<usize>, a: usize, d: usize, k: int)
    requires
        parents_come_first(g),
        leads_down(g, w, a, d),
        0 <= k < w.len(),
        d < g.len(),
    ensures
        is_ancestor(g, w[k], d),
    decreases w.len() - k,
{
    if k < w.len() - 1 {
        lemma_led_down(g, w, a, d, k + 1);
        assert(is_parent(g, w[k], w[k + 1]));
        lemma_parent_is_ancestor(g, w[k], w[k + 1]);
        lemma_ancestor_transitive(g, w[k], w[k + 1], d);
    }
}

/// The way down from an ancestor to its descendant.
proof fn lemma_way_down(g: Parents, a: usize, d: usize) -> (w: Seq<usize>)
    requires
        is_ancestor(g, a, d),
    ensures
        leads_down(g, w, a, d),
    decreases d,
{
    if a == d {
        let w = seq![a];
        assert(leads_down(g, w, a, d));
        w
    } else {
        let p = choose|p: usize| p < d && #[trigger] is_parent(g, p, d) && is_ancestor(g, a, p);
        let v = lemma_way_down(g, a, p);
        let w = v.push(d);
        assert forall|i: int, j: int|
            #![trigger w[i], w[j]]
            0 <= i && j == i + 1 && j < w.len() implies is_parent(g, w[i], w[j]) by {
            assert(w[i] == v[i]);
            if j < v.len() {
                assert(w[j] == v[j]);
            }
        }
        assert(w[0] == v[0]);
        w
    }
}

/// An ancestor is a commit from which one gets to the other by going from child to child, in no
/// step at all or in many.
pub proof fn law_ancestor_leads_down(g: Parents, a: usize, d: usize)
    requires
        parents_come_first(g),
    ensures
        is_ancestor(g, a, d) <==> d < g.len() && exists|w: Seq<usize>| leads_down(g, w, a, d),
{
    if is_ancestor(g, a, d) {
        let w = lemma_way_down(g, a, d);
        lemma_ancestor_is_older(g, a, d);
    }
    if d < g.len() && exists|w: Seq<usize>| leads_down(g, w, a, d) {
        let w = choose|w: Seq<usize>| leads_down(g, w, a, d);
        lemma_led_down(g, w, a, d, 0);
    }
}

/// Children of a set have a parent in it, and parents of a set have a child in it.
pub proof fn law_children_and_parents(g: Parents, s: Set<usize>, c: usize)
    ensures
        children_of(g, s).contains(c) <==> c < g.len() && exists|p: usize|
            s.contains(p) && #[trigger] g[c as int].contains(p),
        parents_of(g, s).contains(c) <==> exists|k: usize|
            k < g.len() && s.contains(k) && #[trigger] g[k as int].contains(c),
{
    if children_of(g, s).contains(c) {
        let p = choose|p: usize| s.contains(p) && #[trigger] is_parent(g, p, c);
        assert(g[c as int].contains(p));
    }
    if c < g.len() && exists|p: usize| s.contains(p) && #[trigger] g[c as int].contains(p) {
        let p = choose|p: usize| s.contains(p) && #[trigger] g[c as int].contains(p);
        assert(is_parent(g, p, c));
    }
    if parents_of(g, s).contains(c) {
        let k = choose|k: usize| s.contains(k) && #[trigger] is_parent(g, c, k);
        assert(g[k as int].contains(c));
    }
    if exists|k: usize| k < g.len() && s.contains(k) && #[trigger] g[k as int].contains(c) {
        let k = choose|k: usize|
            k < g.len() && s.contains(k) && #[trigger] g[k as int].contains(c);
        assert(is_parent(g, c, k));
    }
}

/// Roots are the commits of a set that have no parent in it, and heads those that have no child in
/// it. However far apart, ancestors and descendants in the set do not count.
pub proof fn law_roots_and_heads(g: Parents, s: Set<usize>, c: usize)
    ensures
        roots_of(g, s).contains(c) <==> c < g.len() && s.contains(c) && forall|p: usize| #[trigger]
            g[c as int].contains(p) ==> !s.contains(p),
        heads_of(g, s).contains(c) <==> c < g.len() && s.contains(c) && forall|k: usize|
            k < g.len() && #[trigger] g[k as int].contains(c) ==> !s.contains(k),
{
    law_children_and_parents(g, s, c);
}

/// The ancestors and the descendants of a set are those of its commits, and a range lies between.
pub proof fn law_ancestors_and_descendants(g: Parents, s: Set<usize>, t: Set<usize>, c: usize)
    ensures
        ancestors_of(g, s).contains(c) <==> exists|d: usize|
            s.contains(d) && #[trigger] is_ancestor(g, c, d),
        descendants_of(g, s).contains(c) <==> exists|a: usize|
            s.contains(a) && #[trigger] is_ancestor(g, a, c),
        range_of(g, s, t).contains(c) <==> (exists|a: usize|
            s.contains(a) && #[trigger] is_ancestor(g, a, c)) && (exists|d: usize|
            t.contains(d) && #[trigger] is_ancestor(g, c, d)),
{
}

/// A list holds the commits of the graph that are in the set, each once, the newest first.
pub proof fn law_list_is_newest_first(g: Parents, s: Set<usize>)
    requires
        g.len() <= usize::MAX,
    ensures
        forall|c: usize| #[trigger]
            list_of(g, s).contains(c) <==> c < g.len() && s.contains(c),
        forall|i: int, j: int|
            0 <= i < j < list_of(g, s).len() ==> list_of(g, s)[i] > list_of(g, s)[j],
        first_of(g, s) is Some <==> list_of(g, s).len() > 0,
        first_of(g, s) matches Some(first) ==> first == list_of(g, s)[0],
{
    lemma_newest_first(s, g.len() as int);
}

/// The merge base of two commits is an ancestor of both, and the newest such.
pub proof fn law_merge_base_is_the_newest(g: Parents, a: usize, b: usize)
    requires
        g.len() <= usize::MAX,
    ensures
        gca_of(g, a, b) matches Some(m) ==> is_ancestor(g, m, a) && is_ancestor(g, m, b)
            && forall|x: usize|
            #[trigger] is_ancestor(g, x, a) && is_ancestor(g, x, b) ==> x <= m,
        gca_of(g, a, b) is None ==> forall|x: usize|
            #[trigger] is_ancestor(g, x, a) ==> !is_ancestor(g, x, b),
{
    let common = ancestors_of(g, set![a]).intersect(ancestors_of(g, set![b]));
    lemma_first_of(g, common);
    if let Some(m) = gca_of(g, a, b) {
        lemma_ancestors_of_one(g, m, a);
        lemma_ancestors_of_one(g, m, b);
    }
    assert forall|x: usize| #[trigger] is_ancestor(g, x, a) && is_ancestor(g, x, b) implies gca_of(
        g,
        a,
        b,
    ) is Some && x <= gca_of(g, a, b)->0 by {
        lemma_ancestor_is_older(g, x, a);
        lemma_ancestors_of_one(g, x, a);
        lemma_ancestors_of_one(g, x, b);
        assert(common.contains(x));
    }
}

/// A commit is marked by its own mark.
pub proof fn law_marks(marks: Seq<bool>, c: usize)
    ensures
        marked(marks).contains(c) <==> c < marks.len() && marks[c as int],
{
}

/// Two commits of the graph are neighbours in it: one is a parent of the other.
pub open spec fn are_neighbours(g: Parents, x: usize, y: usize) -> bool {
    x < g.len() && y < g.len() && (g[x as int].contains(y) || g[y as int].contains(x))
}

/// Connected components hold the commits of the graph that are in the set, each in one of them.
/// Neighbours are in the same one, and what is in the same one is connected through neighbours: it
/// cannot be split without parting some of them.
pub proof fn law_components_are_connected(g: Parents, s: Set<usize>)
    requires
        parents_come_first(g),
        g.len() <= usize::MAX,
    ensures
        ({
            let parts = components_of(g, s);
            &&& forall|i: int, c: usize|
                0 <= i < parts.len() && #[trigger] parts[i].contains(c) ==> c < g.len()
                    && s.contains(c)
            &&& forall|c: usize|
                c < g.len() && #[trigger] s.contains(c) ==> exists|i: int|
                    0 <= i < parts.len() && #[trigger] parts[i].contains(c)
            &&& forall|i: int, j: int, c: usize|
                #![trigger parts[i].contains(c), parts[j].contains(c)]
                0 <= i < parts.len() && 0 <= j < parts.len() && parts[i].contains(c)
                    && parts[j].contains(c) ==> i == j
            &&& forall|i: int, x: usize, y: usize|
                0 <= i < parts.len() && #[trigger] parts[i].contains(x) && s.contains(y)
                    && #[trigger] are_neighbours(g, x, y) ==> parts[i].contains(y)
            &&& forall|i: int, some: Set<usize>, x: usize, y: usize|
                #![trigger parts[i].contains(x), some.contains(x), parts[i].contains(y)]
                0 <= i < parts.len() && parts[i].contains(x) && some.contains(x)
                    && parts[i].contains(y) && (forall|u: usize, v: usize|
                    some.contains(u) && parts[i].contains(u) && parts[i].contains(v)
                        && #[trigger] are_neighbours(g, u, v) ==> some.contains(v))
                    ==> some.contains(y)
        }),
{
    let parts = components_of(g, s);
    law_components_split_the_set(g, s);
    assert forall|i: int, j: int, c: usize|
        #![trigger parts[i].contains(c), parts[j].contains(c)]
        0 <= i < parts.len() && 0 <= j < parts.len() && parts[i].contains(c) && parts[j].contains(
            c,
        ) implies i == j by {
        lemma_linked_to_itself(g, s, c);
    }
    assert forall|i: int, x: usize, y: usize|
        0 <= i < parts.len() && #[trigger] parts[i].contains(x) && s.contains(y)
            && #[trigger] are_neighbours(g, x, y) implies parts[i].contains(y) by {
        assert(adjacent(g, x, y));
        lemma_adjacent_linked(g, s, x, y);
        let j = choose|j: int| 0 <= j < parts.len() && #[trigger] parts[j].contains(y);
        assert(i == j <==> linked(g, s, x, y));
    }
    assert forall|i: int, some: Set<usize>, x: usize, y: usize|
        #![trigger parts[i].contains(x), some.contains(x), parts[i].contains(y)]
        0 <= i < parts.len() && parts[i].contains(x) && some.contains(x) && parts[i].contains(y)
            && (forall|u: usize, v: usize|
            some.contains(u) && parts[i].contains(u) && parts[i].contains(v)
                && #[trigger] are_neighbours(g, u, v) ==> some.contains(v)) implies some.contains(
        y,
    ) by {
        assert(i == i <==> linked(g, s, x, y));
        let w = choose|w: Seq<usize>| #[trigger] is_walk(g, s, w) && w[0] == x && w.last() == y;
        let both = some.intersect(parts[i]);
        assert forall|u: usize, v: usize|
            both.contains(u) && s.contains(v) && #[trigger] adjacent(
                g,
                u,
                v,
            ) implies both.contains(v) by {
            if is_parent(g, v, u) {
                lemma_parent_is_ancestor(g, v, u);
            }
            assert(are_neighbours(g, u, v));
        }
        lemma_walk_stays(g, s, both, w, w.len() - 1);
    }
}

/// Components come in the order of their newest commits, the newest first.
pub proof fn law_components_are_newest_first(g: Parents, s: Set<usize>, i: int, j: int)
    requires
        parents_come_first(g),
        g.len() <= usize::MAX,
        0 <= i < j < components_of(g, s).len(),
    ensures
        exists|x: usize| #[trigger]
            components_of(g, s)[i].contains(x) && forall|y: usize| #[trigger]
                components_of(g, s)[j].contains(y) ==> y < x,
{
    let leaders = leaders_of(g, s);
    let l = list_of(g, leaders);
    lemma_newest_first(leaders, g.len() as int);
    assert(l.contains(l[i]) && l.contains(l[j]));
    assert(l[i] > l[j]);
    lemma_linked_to_itself(g, s, l[i]);
    assert(components_of(g, s)[i] == component_of(g, s, l[i]));
    assert(components_of(g, s)[j] == component_of(g, s, l[j]));
    assert(components_of(g, s)[i].contains(l[i]));
    assert forall|y: usize| #[trigger] components_of(g, s)[j].contains(y) implies y < l[i] by {
        assert(component_of(g, s, l[j]).contains(y));
    }
}

} // verus!
