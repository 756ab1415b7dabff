//! The shortest-path engine: single-source shortest paths that keep every
//! equal-cost predecessor.

use vstd::prelude::*;
use std::collections::HashMap;
use crate::graph::Graph;
use crate::paths::well_formed;
use crate::pending::{Candidate, Pending};
use crate::dag::{is_shortest_path_dag, pred_lists, preds_of};
use crate::search::{
    Search, search_inv, running, initial, lemma_fix, lemma_cost_fits, lemma_look_at_edge,
    lemma_settle, lemma_finished, lemma_absent_node, lemma_negative_edge,
};

verus! {

/// Appends `from` to the predecessor list of `node`, starting the list when
/// `node` has none yet.
pub fn add_predecessor(predecessors: &mut HashMap<usize, Vec<usize>>, node: usize, from: usize)
    ensures
        pred_lists(final(predecessors)@) == pred_lists(old(predecessors)@).insert(
            node,
            (if old(predecessors)@.contains_key(node) {
                old(predecessors)@[node]@
            } else {
                Seq::<usize>::empty()
            }).push(from),
        ),
{
    broadcast use vstd::std_specs::hash::group_hash_axioms;

    let mut list: Vec<usize> = match predecessors.remove(&node) {
        Some(list) => list,
        None => Vec::new(),
    };
    list.push(from);
    predecessors.insert(node, list);
    assert(pred_lists(predecessors@) =~= pred_lists(old(predecessors)@).insert(
        node,
        (if old(predecessors)@.contains_key(node) {
            old(predecessors)@[node]@
        } else {
            Seq::<usize>::empty()
        }).push(from),
    ));
}

/// Computes the predecessor multimap of the shortest paths from `start`.
///
/// The result is `None` exactly when the graph is not one that the engine
/// can work on: `start` is not a node, or an edge that can be reached from
/// `start` enters a node that the graph does not have or has a negative cost.
/// Otherwise every node reachable from `start` has an entry, which lists its
/// predecessors on shortest paths; the entry of `start` is `start` itself.
pub fn dijkstra<G: Graph>(graph: &G, start: &usize) -> (out: Option<HashMap<usize, Vec<usize>>>)
    ensures
        out.is_some() == well_formed(graph, *start),
        out.is_some() ==> is_shortest_path_dag(graph, *start, preds_of(out.unwrap())),
{
    broadcast use vstd::std_specs::hash::group_hash_axioms;
    broadcast use vstd::multiset::group_multiset_axioms;

    let mut pending = Pending::new();
    let mut cost_to_reach: HashMap<usize, u128> = HashMap::new();
    let mut predecessors: HashMap<usize, Vec<usize>> = HashMap::new();
    pending.push(Candidate { cost: 0, node: *start, from: *start });
    let ghost mut cur: usize = *start;
    assert(pred_lists(predecessors@) =~= Map::<usize, Seq<usize>>::empty());

    while !pending.is_empty()
        invariant
            search_inv(
                graph,
                *start,
                Search {
                    fixed: cost_to_reach@,
                    pending: pending@,
                    preds: pred_lists(predecessors@),
                    cur,
                    done: graph.successors(cur).len() as int,
                },
            ),
        decreases usize::MAX - cost_to_reach@.dom().len(), pending@.len(),
    {
        let ghost before = Search {
            fixed: cost_to_reach@,
            pending: pending@,
            preds: pred_lists(predecessors@),
            cur,
            done: graph.successors(cur).len() as int,
        };
        assert(cost_to_reach@.dom().len() == cost_to_reach.len());
        let taken = match pending.pop() {
            Some(taken) => taken,
            None => return None,
        };
        let known = match cost_to_reach.get(&taken.node) {
            Some(best) => Some(*best),
            None => None,
        };
        match known {
            Some(best) => {
                assert(!initial(before, *start));
                if best == taken.cost {
                    add_predecessor(&mut predecessors, taken.node, taken.from);
                }
                proof {
                    let after = Search {
                        fixed: cost_to_reach@,
                        pending: pending@,
                        preds: pred_lists(predecessors@),
                        cur,
                        done: graph.successors(cur).len() as int,
                    };
                    lemma_settle(graph, *start, before, taken, after);
                }
            },
            None => {
                let edges = match graph.get_successors(&taken.node) {
                    Some(edges) => edges,
                    None => {
                        proof {
                            lemma_absent_node(graph, *start, before, taken);
                        }
                        return None;
                    },
                };
                cost_to_reach.insert(taken.node, taken.cost);
                add_predecessor(&mut predecessors, taken.node, taken.from);
                proof {
                    cur = taken.node;
                    let after = Search {
                        fixed: cost_to_reach@,
                        pending: pending@,
                        preds: pred_lists(predecessors@),
                        cur,
                        done: 0,
                    };
                    assert(cost_to_reach@.dom().len() == cost_to_reach.len());
                    lemma_fix(graph, *start, before, taken, after);
                }
                let mut k: usize = 0;
                while k < edges.len()
                    invariant
                        k <= edges@.len(),
                        edges@ == graph.successors(cur),
                        cur == taken.node,
                        cost_to_reach@.contains_key(cur),
                        cost_to_reach@[cur] == taken.cost,
                        cost_to_reach@.dom().len() == before.fixed.dom().len() + 1,
                        cost_to_reach@.dom().len() <= usize::MAX,
                        running(
                            graph,
                            *start,
                            Search {
                                fixed: cost_to_reach@,
                                pending: pending@,
                                preds: pred_lists(predecessors@),
                                cur,
                                done: k as int,
                            },
                        ),
                    decreases edges@.len() - k,
                {
                    let ghost here = Search {
                        fixed: cost_to_reach@,
                        pending: pending@,
                        preds: pred_lists(predecessors@),
                        cur,
                        done: k as int,
                    };
                    let (neighbour, local_cost) = edges[k];
                    if local_cost < 0 {
                        proof {
                            lemma_negative_edge(graph, *start, here);
                        }
                        return None;
                    }
                    proof {
                        lemma_cost_fits(graph, *start, here);
                    }
                    let ghost there = Search {
                        fixed: here.fixed,
                        pending: if here.fixed.contains_key(neighbour) {
                            here.pending
                        } else {
                            here.pending.insert(
                                Candidate {
                                    cost: (taken.cost + local_cost) as u128,
                                    node: neighbour,
                                    from: cur,
                                },
                            )
                        },
                        preds: here.preds,
                        cur,
                        done: k + 1,
                    };
                    proof {
                        lemma_look_at_edge(graph, *start, here, there);
                    }
                    if !cost_to_reach.contains_key(&neighbour) {
                        pending.push(
                            Candidate {
                                cost: taken.cost + (local_cost as u128),
                                node: neighbour,
                                from: taken.node,
                            },
                        );
                    }
                    k += 1;
                }
            },
        }
    }
    proof {
        lemma_finished(
            graph,
            *start,
            Search {
                fixed: cost_to_reach@,
                pending: pending@,
                preds: pred_lists(predecessors@),
                cur,
                done: graph.successors(cur).len() as int,
            },
        );
    }
    Some(predecessors)
}

} // verus!
