//! The shortest-path DAG rooted at a start node, as a predecessor multimap.

use vstd::prelude::*;
use std::collections::HashMap;
use crate::graph::Graph;
use crate::paths::{reachable, dist, edge_count};
use crate::next_hops::is_first_hop;

verus! {

/// The predecessor lists of a multimap, as sequences.
pub open spec fn pred_lists(m: Map<usize, Vec<usize>>) -> Map<usize, Seq<usize>> {
    Map::new(|n: usize| m.contains_key(n), |n: usize| m[n]@)
}

/// How many edges from `p` to `n` lie on shortest walks from `start`: the
/// edges whose cost is exactly the difference of the two distances. Zero when
/// `p` cannot be reached.
pub open spec fn tight_count<G: Graph>(g: &G, start: usize, p: usize, n: usize) -> nat {
    if reachable(g, start, p) {
        edge_count(g.successors(p), n, dist(g, start, n) - dist(g, start, p))
    } else {
        0
    }
}

/// `preds` is a predecessor multimap of the shortest paths from `start`.
///
/// - Its keys are the nodes reachable from `start`.
/// - The list of `start` is `start` alone, which marks the root.
/// - In the list of any other node `n`, a node `p` occurs at most once for
///   each edge from `p` to `n` that lies on a shortest walk, so every listed
///   predecessor is an exact one.
/// - A node `p` strictly closer to `start` than `n` occurs exactly once for
///   each such edge, so no equal-cost predecessor is missing.
/// - Every other node descends from `start` through the lists.
pub open spec fn is_shortest_path_dag<G: Graph>(
    g: &G,
    start: usize,
    preds: Map<usize, Seq<usize>>,
) -> bool {
    &&& forall|n: usize| #[trigger] preds.contains_key(n) <==> reachable(g, start, n)
    &&& preds.contains_key(start)
    &&& preds[start] == seq![start]
    &&& forall|n: usize, p: usize|
        preds.contains_key(n) && n != start ==> (#[trigger] preds[n].to_multiset().count(p))
            <= tight_count(g, start, p, n)
    &&& forall|n: usize, p: usize|
        preds.contains_key(n) && n != start && reachable(g, start, p) && dist(g, start, p) < dist(
            g,
            start,
            n,
        ) ==> (#[trigger] preds[n].to_multiset().count(p)) == tight_count(g, start, p, n)
    &&& forall|n: usize| #[trigger]
        preds.contains_key(n) && n != start ==> exists|x: usize| is_first_hop(preds, start, n, x)
}

/// The view of a computed multimap that the contracts speak of.
pub open spec fn preds_of(m: HashMap<usize, Vec<usize>>) -> Map<usize, Seq<usize>> {
    pred_lists(m@)
}

} // verus!
