//! What holds of every predecessor multimap that the engine returns, and of
//! the next hops read off it.

use vstd::prelude::*;
use vstd::seq_lib::to_multiset_contains;
use crate::graph::Graph;
use crate::paths::{
    is_walk, walk_cost, reachable, is_shortest, dist, well_formed, positive_costs,
    walk_node, lemma_walk_extend, lemma_walk_empty, lemma_walk_split, lemma_dist_start,
    lemma_dist_is_shortest, lemma_dist_bounds_walk, lemma_cost_is_dist, lemma_prefix_shortest,
    lemma_edge_count_at, lemma_edge_count_witness, lemma_reachable_is_node,
};
use crate::dag::{is_shortest_path_dag, tight_count};
use crate::next_hops::{first_hops, is_first_hop, is_back_chain, leads_back};

verus! {

/// The start node's own list is the start node alone.
pub proof fn law_root_lists_itself<G: Graph>(g: &G, start: usize, preds: Map<usize, Seq<usize>>)
    requires
        is_shortest_path_dag(g, start, preds),
    ensures
        preds.contains_key(start),
        preds[start] == seq![start],
{
}

/// The multimap has an entry for a node exactly when the node can be reached.
pub proof fn law_entries_are_reachable<G: Graph>(
    g: &G,
    start: usize,
    preds: Map<usize, Seq<usize>>,
    n: usize,
)
    requires
        is_shortest_path_dag(g, start, preds),
    ensures
        preds.contains_key(n) <==> reachable(g, start, n),
{
}

/// Every listed predecessor is exact: a predecessor `p` of a node `n` other
/// than the start can be reached, and some edge from `p` to `n` costs the
/// difference of their distances.
pub proof fn law_predecessors_exact<G: Graph>(
    g: &G,
    start: usize,
    preds: Map<usize, Seq<usize>>,
    n: usize,
    p: usize,
) -> (i: int)
    requires
        is_shortest_path_dag(g, start, preds),
        preds.contains_key(n),
        n != start,
        preds[n].contains(p),
    ensures
        reachable(g, start, p),
        0 <= i < g.successors(p).len(),
        g.successors(p)[i].0 == n,
        dist(g, start, p) + g.successors(p)[i].1 == dist(g, start, n),
{
    to_multiset_contains(preds[n], p);
    assert(preds[n].to_multiset().count(p) <= tight_count(g, start, p, n));
    lemma_edge_count_witness(g.successors(p), n, dist(g, start, n) - dist(g, start, p))
}

/// No equal-cost predecessor is missing: a reachable node `p` with an edge
/// of positive cost to `n` that costs the difference of their distances is
/// listed for `n`.
pub proof fn law_equal_cost_complete<G: Graph>(
    g: &G,
    start: usize,
    preds: Map<usize, Seq<usize>>,
    p: usize,
    i: int,
)
    requires
        well_formed(g, start),
        is_shortest_path_dag(g, start, preds),
        reachable(g, start, p),
        0 <= i < g.successors(p).len(),
        g.successors(p)[i].1 > 0,
        dist(g, start, p) + g.successors(p)[i].1 == dist(g, start, g.successors(p)[i].0),
    ensures
        preds.contains_key(g.successors(p)[i].0),
        preds[g.successors(p)[i].0].contains(p),
{
    let n = g.successors(p)[i].0;
    let hops = choose|hops: Seq<(usize, int)>| is_walk(g, start, hops, p);
    lemma_dist_bounds_walk(g, start, hops, p);
    lemma_dist_start(g, start);
    assert(preds.contains_key(p));
    lemma_reachable_is_node(g, start, p);
    lemma_walk_extend(g, start, hops, p, i);
    assert(reachable(g, start, n));
    assert(preds.contains_key(n));
    assert(n != start);
    lemma_edge_count_at(g.successors(p), i);
    assert(preds[n].to_multiset().count(p) == tight_count(g, start, p, n));
    to_multiset_contains(preds[n], p);
}

/// Two runs on the same graph and start node give the same lists up to
/// their order, where every cost is positive.
pub proof fn law_rerun_same_lists<G: Graph>(
    g: &G,
    start: usize,
    first: Map<usize, Seq<usize>>,
    second: Map<usize, Seq<usize>>,
)
    requires
        well_formed(g, start),
        positive_costs(g, start),
        is_shortest_path_dag(g, start, first),
        is_shortest_path_dag(g, start, second),
    ensures
        first.dom() == second.dom(),
        forall|n: usize| #[trigger]
            first.contains_key(n) ==> first[n].to_multiset() == second[n].to_multiset(),
{
    assert(first.dom() =~= second.dom()) by {
        assert forall|n: usize| first.dom().contains(n) == second.dom().contains(n) by {
            assert(first.contains_key(n) <==> reachable(g, start, n));
            assert(second.contains_key(n) <==> reachable(g, start, n));
        }
    }
    assert forall|n: usize| #[trigger] first.contains_key(n) implies first[n].to_multiset()
        == second[n].to_multiset() by {
        assert(second.contains_key(n) <==> reachable(g, start, n));
        if n != start {
            assert forall|p: usize|
                first[n].to_multiset().count(p) == second[n].to_multiset().count(p) by {
                assert(first[n].to_multiset().count(p) <= tight_count(g, start, p, n));
                assert(second[n].to_multiset().count(p) <= tight_count(g, start, p, n));
                if tight_count(g, start, p, n) > 0 {
                    let i = lemma_edge_count_witness(
                        g.successors(p),
                        n,
                        dist(g, start, n) - dist(g, start, p),
                    );
                    assert(g.successors(p)[i].1 > 0);
                }
            }
            assert(first[n].to_multiset() =~= second[n].to_multiset());
        }
    }
}

/// The route from a node to itself is the node alone.
pub proof fn law_self_route(preds: Map<usize, Seq<usize>>, source: usize)
    ensures
        first_hops(preds, source, source) == Set::<usize>::empty().insert(source),
{
}

/// A destination other than the source has a first hop exactly when it can
/// be reached.
pub proof fn law_first_hop_exists_iff_reachable<G: Graph>(
    g: &G,
    source: usize,
    preds: Map<usize, Seq<usize>>,
    destination: usize,
)
    requires
        is_shortest_path_dag(g, source, preds),
        source != destination,
    ensures
        (exists|x: usize| first_hops(preds, source, destination).contains(x)) <==> reachable(
            g,
            source,
            destination,
        ),
{
    if reachable(g, source, destination) {
        assert(preds.contains_key(destination));
        let x = choose|x: usize| is_first_hop(preds, source, destination, x);
        assert(first_hops(preds, source, destination).contains(x));
    }
    if exists|x: usize| first_hops(preds, source, destination).contains(x) {
        let x = choose|x: usize| first_hops(preds, source, destination).contains(x);
        let chain = choose|chain: Seq<usize>| #[trigger]
            is_back_chain(preds, source, chain) && chain.first() == destination && chain.last()
                == x;
        if chain.len() > 1 {
            assert(preds.contains_key(chain[0]));
        }
        assert(preds.contains_key(destination));
    }
}

/// Along a back chain that ends at a first hop, a walk from the source
/// enters the first hop, follows the chain and costs the distance of the
/// node it ends at.
pub proof fn lemma_chain_walk<G: Graph>(
    g: &G,
    source: usize,
    preds: Map<usize, Seq<usize>>,
    chain: Seq<usize>,
    j: int,
) -> (hops: Seq<(usize, int)>)
    requires
        well_formed(g, source),
        is_shortest_path_dag(g, source, preds),
        is_back_chain(preds, source, chain),
        preds.contains_key(chain.last()),
        preds[chain.last()].contains(source),
        0 <= j < chain.len(),
    ensures
        is_walk(g, source, hops, chain[j]),
        hops.len() > 0,
        walk_node(g, source, hops, 1) == chain.last(),
        walk_cost(g, hops) == dist(g, source, chain[j]),
    decreases chain.len() - j,
{
    if j == chain.len() - 1 {
        let h = chain.last();
        assert(chain[j] != source);
        let i = law_predecessors_exact(g, source, preds, h, source);
        lemma_walk_empty(g, source);
        lemma_walk_extend(g, source, Seq::<(usize, int)>::empty(), source, i);
        lemma_dist_start(g, source);
        let hops = Seq::<(usize, int)>::empty().push((source, i));
        assert(hops[0] == (source, i));
        hops
    } else {
        let rest = lemma_chain_walk(g, source, preds, chain, j + 1);
        let n = chain[j];
        let p = chain[j + 1];
        assert(n != source);
        assert(preds.contains_key(n) && preds[chain[j]].contains(chain[j + 1]));
        let i = law_predecessors_exact(g, source, preds, n, p);
        lemma_reachable_is_node(g, source, p);
        lemma_walk_extend(g, source, rest, p, i);
        let hops = rest.push((p, i));
        assert(hops[0] == rest[0]);
        hops
    }
}

/// On a shortest walk, where every cost is positive, each node lists the
/// node before it, and no node after the first is the source.
pub proof fn lemma_walk_hop_listed<G: Graph>(
    g: &G,
    source: usize,
    preds: Map<usize, Seq<usize>>,
    hops: Seq<(usize, int)>,
    to: usize,
    k: int,
)
    requires
        well_formed(g, source),
        positive_costs(g, source),
        is_shortest_path_dag(g, source, preds),
        is_shortest(g, source, hops, to),
        0 <= k < hops.len(),
    ensures
        walk_node(g, source, hops, k + 1) != source,
        preds.contains_key(walk_node(g, source, hops, k + 1)),
        preds[walk_node(g, source, hops, k + 1)].contains(walk_node(g, source, hops, k)),
{
    let here = walk_node(g, source, hops, k);
    let next = walk_node(g, source, hops, k + 1);
    lemma_prefix_shortest(g, source, hops, to, k);
    lemma_prefix_shortest(g, source, hops, to, k + 1);
    lemma_dist_is_shortest(g, source, hops.take(k), here);
    lemma_dist_is_shortest(g, source, hops.take(k + 1), next);
    lemma_walk_split(g, source, hops, to, k);
    assert(hops.take(k + 1).drop_last() == hops.take(k));
    assert(hops.take(k + 1).last() == hops[k]);
    assert(hops[k].0 == here);
    assert(reachable(g, source, here));
    assert(g.successors(here)[hops[k].1].1 > 0);
    lemma_dist_bounds_walk(g, source, hops.take(k), here);
    lemma_dist_start(g, source);
    law_equal_cost_complete(g, source, preds, here, hops[k].1);
}

/// The first hops are exactly the neighbours of the source that begin a
/// shortest walk to the destination, where every cost is positive: `hop` is
/// a first hop towards `destination` exactly when some shortest walk from
/// `source` to `destination` enters `hop` first.
pub proof fn law_first_hops_begin_shortest_walks<G: Graph>(
    g: &G,
    source: usize,
    preds: Map<usize, Seq<usize>>,
    destination: usize,
    hop: usize,
)
    requires
        well_formed(g, source),
        positive_costs(g, source),
        is_shortest_path_dag(g, source, preds),
        source != destination,
    ensures
        first_hops(preds, source, destination).contains(hop) <==> exists|hops: Seq<(usize, int)>|
            #![trigger is_shortest(g, source, hops, destination)]
            is_shortest(g, source, hops, destination) && hops.len() > 0 && walk_node(
                g,
                source,
                hops,
                1,
            ) == hop,
{
    if first_hops(preds, source, destination).contains(hop) {
        let chain = choose|chain: Seq<usize>| #[trigger]
            is_back_chain(preds, source, chain) && chain.first() == destination && chain.last()
                == hop;
        let hops = lemma_chain_walk(g, source, preds, chain, 0);
        lemma_cost_is_dist(g, source, hops, destination);
        assert(is_shortest(g, source, hops, destination) && hops.len() > 0 && walk_node(
            g,
            source,
            hops,
            1,
        ) == hop);
    }
    if exists|hops: Seq<(usize, int)>|
        #![trigger is_shortest(g, source, hops, destination)]
        is_shortest(g, source, hops, destination) && hops.len() > 0 && walk_node(g, source, hops, 1)
            == hop {
        let hops = choose|hops: Seq<(usize, int)>|
            #![trigger is_shortest(g, source, hops, destination)]
            is_shortest(g, source, hops, destination) && hops.len() > 0 && walk_node(
                g,
                source,
                hops,
                1,
            ) == hop;
        let len = hops.len() as int;
        let chain = Seq::new(len as nat, |j: int| walk_node(g, source, hops, len - j));
        lemma_walk_split(g, source, hops, destination, len);
        assert forall|j: int| 0 <= j < chain.len() implies #[trigger] chain[j] != source by {
            lemma_walk_hop_listed(g, source, preds, hops, destination, len - j - 1);
        }
        assert forall|j: int| 0 <= j < chain.len() - 1 implies preds.contains_key(
            #[trigger] chain[j],
        ) && preds[chain[j]].contains(chain[j + 1]) by {
            lemma_walk_hop_listed(g, source, preds, hops, destination, len - j - 1);
        }
        assert(is_back_chain(preds, source, chain));
        assert(chain.first() == destination);
        assert(chain.last() == hop);
        lemma_walk_hop_listed(g, source, preds, hops, destination, 0);
        assert(leads_back(preds, source, destination, hop));
    }
}

} // verus!
