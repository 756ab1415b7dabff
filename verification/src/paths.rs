//! Walks, their costs, and shortest-path distances, as mathematical definitions.
//!
//! A walk is recorded as the sequence of hops it takes. A hop `(u, i)` follows
//! the `i`-th edge leaving node `u`; naming the edge by its position keeps
//! parallel edges apart.

use vstd::prelude::*;
use vstd::seq_lib::{to_multiset_build, to_multiset_contains};
use crate::graph::Graph;

verus! {

/// `(from, idx)` names an edge of the graph: `from` is a node and `idx` is a
/// position in its edge list.
pub open spec fn hop_ok<G: Graph>(g: &G, from: usize, idx: int) -> bool {
    g.has_node(from) && 0 <= idx < g.successors(from).len()
}

/// `hops` leads from `from` to `to`: every hop is an edge, each hop leaves the
/// node that the previous one entered, and the last one enters `to`.
pub open spec fn is_walk<G: Graph>(g: &G, from: usize, hops: Seq<(usize, int)>, to: usize) -> bool
    decreases hops.len(),
{
    if hops.len() == 0 {
        from == to
    } else {
        let last = hops.last();
        &&& hop_ok(g, last.0, last.1)
        &&& g.successors(last.0)[last.1].0 == to
        &&& is_walk(g, from, hops.drop_last(), last.0)
    }
}

/// The sum of the costs of the edges that `hops` follows.
pub open spec fn walk_cost<G: Graph>(g: &G, hops: Seq<(usize, int)>) -> int
    decreases hops.len(),
{
    if hops.len() == 0 {
        0
    } else {
        let last = hops.last();
        walk_cost(g, hops.drop_last()) + g.successors(last.0)[last.1].1
    }
}

/// Some walk leads from `from` to `to`.
pub open spec fn reachable<G: Graph>(g: &G, from: usize, to: usize) -> bool {
    exists|hops: Seq<(usize, int)>| is_walk(g, from, hops, to)
}

/// Some walk from `from` to `to` costs exactly `cost`.
pub open spec fn walk_of_cost<G: Graph>(g: &G, from: usize, to: usize, cost: int) -> bool {
    exists|hops: Seq<(usize, int)>| is_walk(g, from, hops, to) && walk_cost(g, hops) == cost
}

/// `hops` is a walk from `from` to `to` that no other such walk undercuts.
pub open spec fn is_shortest<G: Graph>(g: &G, from: usize, hops: Seq<(usize, int)>, to: usize) -> bool {
    &&& is_walk(g, from, hops, to)
    &&& forall|other: Seq<(usize, int)>| #[trigger]
        is_walk(g, from, other, to) ==> walk_cost(g, hops) <= walk_cost(g, other)
}

/// The cost of a shortest walk from `from` to `to`. Meaningful when one exists.
pub open spec fn dist<G: Graph>(g: &G, from: usize, to: usize) -> int {
    walk_cost(g, choose|hops: Seq<(usize, int)>| is_shortest(g, from, hops, to))
}

/// What a shortest-path computation from `start` can work on: `start` is a
/// node, and every edge that leaves a node reachable from `start` enters a
/// node of the graph and has a cost that is not negative.
pub open spec fn well_formed<G: Graph>(g: &G, start: usize) -> bool {
    &&& g.has_node(start)
    &&& forall|u: usize, i: int|
        reachable(g, start, u) && 0 <= i < g.successors(u).len() ==> {
            &&& g.has_node((#[trigger] g.successors(u)[i]).0)
            &&& g.successors(u)[i].1 >= 0
        }
}

/// Every edge that leaves a node reachable from `start` has a positive cost.
pub open spec fn positive_costs<G: Graph>(g: &G, start: usize) -> bool {
    forall|u: usize, i: int|
        reachable(g, start, u) && 0 <= i < g.successors(u).len() ==> (#[trigger] g.successors(
            u,
        )[i]).1 > 0
}

/// How many edges from `u` to `v` cost exactly `w`.
pub open spec fn edge_count(edges: Seq<(usize, i32)>, v: usize, w: int) -> nat {
    if i32::MIN <= w <= i32::MAX {
        edges.to_multiset().count((v, w as i32))
    } else {
        0
    }
}

/// Following one more edge from the end of a walk gives a walk, and adds the
/// edge's cost.
pub proof fn lemma_walk_extend<G: Graph>(
    g: &G,
    from: usize,
    hops: Seq<(usize, int)>,
    mid: usize,
    idx: int,
)
    requires
        is_walk(g, from, hops, mid),
        hop_ok(g, mid, idx),
    ensures
        is_walk(g, from, hops.push((mid, idx)), g.successors(mid)[idx].0),
        walk_cost(g, hops.push((mid, idx))) == walk_cost(g, hops) + g.successors(mid)[idx].1,
{
    let longer = hops.push((mid, idx));
    assert(longer.drop_last() == hops);
    assert(longer.last() == (mid, idx));
}

/// The empty walk leads from a node to itself at no cost.
pub proof fn lemma_walk_empty<G: Graph>(g: &G, n: usize)
    ensures
        is_walk(g, n, Seq::<(usize, int)>::empty(), n),
        walk_cost(g, Seq::<(usize, int)>::empty()) == 0,
        reachable(g, n, n),
        walk_of_cost(g, n, n, 0),
{
    let none = Seq::<(usize, int)>::empty();
    assert(is_walk(g, n, none, n));
    assert(walk_cost(g, none) == 0);
}

/// A shortest walk's cost is the distance.
pub proof fn lemma_dist_is_shortest<G: Graph>(
    g: &G,
    from: usize,
    hops: Seq<(usize, int)>,
    to: usize,
)
    requires
        is_shortest(g, from, hops, to),
    ensures
        dist(g, from, to) == walk_cost(g, hops),
{
    let chosen = choose|h: Seq<(usize, int)>| is_shortest(g, from, h, to);
    assert(is_shortest(g, from, chosen, to));
    assert(is_walk(g, from, chosen, to));
    assert(is_walk(g, from, hops, to));
}

/// Labels that no edge can undercut bound every walk from below.
///
/// If `label` gives `start` a value of at most zero, and along every edge
/// leaving a labelled node the target is labelled with at most the source's
/// label plus the edge's cost, then every walk from `start` ends at a labelled
/// node and costs at least that node's label.
pub proof fn lemma_labels_bound_walks<G: Graph>(
    g: &G,
    start: usize,
    label: Map<usize, int>,
    hops: Seq<(usize, int)>,
    to: usize,
)
    requires
        label.contains_key(start),
        label[start] <= 0,
        forall|u: usize, i: int|
            label.contains_key(u) && 0 <= i < g.successors(u).len() ==> {
                &&& label.contains_key((#[trigger] g.successors(u)[i]).0)
                &&& label[g.successors(u)[i].0] <= label[u] + g.successors(u)[i].1
            },
        is_walk(g, start, hops, to),
    ensures
        label.contains_key(to),
        label[to] <= walk_cost(g, hops),
    decreases hops.len(),
{
    if hops.len() > 0 {
        let last = hops.last();
        lemma_labels_bound_walks(g, start, label, hops.drop_last(), last.0);
        assert(label.contains_key(g.successors(last.0)[last.1].0));
    }
}

/// Looking at one more edge raises the count of that edge by one and leaves
/// every other count as it was.
pub proof fn lemma_edge_count_step(edges: Seq<(usize, i32)>, k: int, v: usize, w: int)
    requires
        0 <= k < edges.len(),
    ensures
        edge_count(edges.take(k + 1), v, w) == edge_count(edges.take(k), v, w) + (if edges[k].0 == v
            && edges[k].1 == w {
            1nat
        } else {
            0nat
        }),
{
    broadcast use vstd::multiset::group_multiset_axioms;

    assert(edges.take(k + 1) == edges.take(k).push(edges[k]));
    to_multiset_build(edges.take(k), edges[k]);
}

/// Before any edge has been looked at every count is zero.
pub proof fn lemma_edge_count_none(edges: Seq<(usize, i32)>, v: usize, w: int)
    ensures
        edge_count(edges.take(0), v, w) == 0,
{
    broadcast use vstd::multiset::group_multiset_axioms;

    assert(edges.take(0) == Seq::<(usize, i32)>::empty());
    if i32::MIN <= w <= i32::MAX {
        to_multiset_contains(edges.take(0), (v, w as i32));
    }
}

/// An edge that is there is counted.
pub proof fn lemma_edge_count_at(edges: Seq<(usize, i32)>, i: int)
    requires
        0 <= i < edges.len(),
    ensures
        edge_count(edges, edges[i].0, edges[i].1 as int) >= 1,
{
    to_multiset_contains(edges, edges[i]);
    assert(edges.contains(edges[i]));
}

/// A count above zero names an edge.
pub proof fn lemma_edge_count_witness(edges: Seq<(usize, i32)>, v: usize, w: int) -> (i: int)
    requires
        edge_count(edges, v, w) > 0,
    ensures
        0 <= i < edges.len(),
        edges[i].0 == v,
        edges[i].1 == w,
{
    to_multiset_contains(edges, (v, w as i32));
    choose|i: int| 0 <= i < edges.len() && edges[i] == (v, w as i32)
}

/// The node that a walk from `from` stands at after `k` hops.
pub open spec fn walk_node<G: Graph>(g: &G, from: usize, hops: Seq<(usize, int)>, k: int) -> usize {
    if k <= 0 {
        from
    } else {
        g.successors(hops[k - 1].0)[hops[k - 1].1].0
    }
}

/// A walk can be cut after any number of hops: both parts are walks, they
/// meet at the node reached there, and their costs add up to the whole.
pub proof fn lemma_walk_split<G: Graph>(
    g: &G,
    from: usize,
    hops: Seq<(usize, int)>,
    to: usize,
    k: int,
)
    requires
        is_walk(g, from, hops, to),
        0 <= k <= hops.len(),
    ensures
        is_walk(g, from, hops.take(k), walk_node(g, from, hops, k)),
        is_walk(g, walk_node(g, from, hops, k), hops.skip(k), to),
        walk_cost(g, hops) == walk_cost(g, hops.take(k)) + walk_cost(g, hops.skip(k)),
        k < hops.len() ==> hops[k].0 == walk_node(g, from, hops, k),
        walk_node(g, from, hops, hops.len() as int) == to,
    decreases hops.len(),
{
    if k == hops.len() {
        assert(hops.take(k) == hops);
        assert(hops.skip(k) == Seq::<(usize, int)>::empty());
        lemma_walk_empty(g, to);
    } else {
        let last = hops.last();
        let pre = hops.drop_last();
        lemma_walk_split(g, from, pre, last.0, k);
        assert(hops.take(k) == pre.take(k));
        assert(hops.skip(k).drop_last() == pre.skip(k));
        assert(hops.skip(k).last() == last);
        if k < pre.len() {
            assert(pre[k] == hops[k]);
        }
    }
}

/// Two walks that meet can be joined, and the costs add up.
pub proof fn lemma_walk_concat<G: Graph>(
    g: &G,
    from: usize,
    a: Seq<(usize, int)>,
    mid: usize,
    b: Seq<(usize, int)>,
    to: usize,
)
    requires
        is_walk(g, from, a, mid),
        is_walk(g, mid, b, to),
    ensures
        is_walk(g, from, a + b, to),
        walk_cost(g, a + b) == walk_cost(g, a) + walk_cost(g, b),
    decreases b.len(),
{
    if b.len() == 0 {
        assert(a + b == a);
    } else {
        let last = b.last();
        lemma_walk_concat(g, from, a, mid, b.drop_last(), last.0);
        assert((a + b).drop_last() == a + b.drop_last());
        assert((a + b).last() == last);
    }
}

/// In a graph that the engine can work on no walk from `start` has a
/// negative cost.
pub proof fn lemma_walk_cost_nonneg<G: Graph>(
    g: &G,
    start: usize,
    hops: Seq<(usize, int)>,
    to: usize,
)
    requires
        well_formed(g, start),
        is_walk(g, start, hops, to),
    ensures
        walk_cost(g, hops) >= 0,
    decreases hops.len(),
{
    if hops.len() > 0 {
        let last = hops.last();
        lemma_walk_cost_nonneg(g, start, hops.drop_last(), last.0);
        assert(reachable(g, start, last.0));
        assert(g.successors(last.0)[last.1].1 >= 0);
    }
}

/// In a graph that the engine can work on every reachable node has a
/// shortest walk: none cheaper than `hops` exists, or a cheaper one leads to
/// it.
pub proof fn lemma_shortest_exists<G: Graph>(
    g: &G,
    start: usize,
    hops: Seq<(usize, int)>,
    to: usize,
) -> (best: Seq<(usize, int)>)
    requires
        well_formed(g, start),
        is_walk(g, start, hops, to),
    ensures
        is_shortest(g, start, best, to),
        dist(g, start, to) == walk_cost(g, best),
        walk_cost(g, best) <= walk_cost(g, hops),
        0 <= dist(g, start, to),
    decreases walk_cost(g, hops),
{
    lemma_walk_cost_nonneg(g, start, hops, to);
    if is_shortest(g, start, hops, to) {
        lemma_dist_is_shortest(g, start, hops, to);
        hops
    } else {
        let other = choose|other: Seq<(usize, int)>|
            is_walk(g, start, other, to) && walk_cost(g, hops) > walk_cost(g, other);
        lemma_walk_cost_nonneg(g, start, other, to);
        lemma_shortest_exists(g, start, other, to)
    }
}

/// The distance bounds every walk from below.
pub proof fn lemma_dist_bounds_walk<G: Graph>(
    g: &G,
    start: usize,
    hops: Seq<(usize, int)>,
    to: usize,
)
    requires
        well_formed(g, start),
        is_walk(g, start, hops, to),
    ensures
        0 <= dist(g, start, to) <= walk_cost(g, hops),
{
    let best = lemma_shortest_exists(g, start, hops, to);
}

/// In a graph that the engine can work on every reachable node is a node.
pub proof fn lemma_reachable_is_node<G: Graph>(g: &G, start: usize, n: usize)
    requires
        well_formed(g, start),
        reachable(g, start, n),
    ensures
        g.has_node(n),
{
    let hops = choose|hops: Seq<(usize, int)>| is_walk(g, start, hops, n);
    if hops.len() > 0 {
        let last = hops.last();
        assert(is_walk(g, start, hops.drop_last(), last.0));
        assert(g.has_node(g.successors(last.0)[last.1].0));
    }
}

/// The start node is at distance zero from itself.
pub proof fn lemma_dist_start<G: Graph>(g: &G, start: usize)
    requires
        well_formed(g, start),
    ensures
        dist(g, start, start) == 0,
{
    lemma_walk_empty(g, start);
    lemma_dist_bounds_walk(g, start, Seq::<(usize, int)>::empty(), start);
}

/// A walk whose cost is the distance is a shortest walk.
pub proof fn lemma_cost_is_dist<G: Graph>(g: &G, start: usize, hops: Seq<(usize, int)>, to: usize)
    requires
        well_formed(g, start),
        is_walk(g, start, hops, to),
        walk_cost(g, hops) == dist(g, start, to),
    ensures
        is_shortest(g, start, hops, to),
{
    assert forall|other: Seq<(usize, int)>| #[trigger]
        is_walk(g, start, other, to) implies walk_cost(g, hops) <= walk_cost(g, other) by {
        lemma_dist_bounds_walk(g, start, other, to);
    }
}

/// Every part of a shortest walk that begins at its start is a shortest
/// walk to the node reached there.
pub proof fn lemma_prefix_shortest<G: Graph>(
    g: &G,
    start: usize,
    hops: Seq<(usize, int)>,
    to: usize,
    k: int,
)
    requires
        is_shortest(g, start, hops, to),
        0 <= k <= hops.len(),
    ensures
        is_shortest(g, start, hops.take(k), walk_node(g, start, hops, k)),
{
    lemma_walk_split(g, start, hops, to, k);
    let mid = walk_node(g, start, hops, k);
    assert forall|other: Seq<(usize, int)>| #[trigger]
        is_walk(g, start, other, mid) implies walk_cost(g, hops.take(k)) <= walk_cost(
        g,
        other,
    ) by {
        lemma_walk_concat(g, start, other, mid, hops.skip(k), to);
        assert(is_walk(g, start, other + hops.skip(k), to));
    }
}

} // verus!
