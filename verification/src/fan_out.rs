//! Multicast fan-out: the children of a node in the shortest-path DAG, read
//! off the predecessor multimap of the multicast source.

use vstd::prelude::*;
use std::collections::{HashMap, HashSet};
use crate::dag::preds_of;

verus! {

/// The children of `node`: the other nodes that list `node` as a
/// predecessor. A node is not its own child, so the root's entry for itself
/// adds nothing.
pub open spec fn children_of(preds: Map<usize, Seq<usize>>, node: usize) -> Set<usize> {
    Set::new(|n: usize| n != node && preds.contains_key(n) && preds[n].contains(node))
}

/// Whether `wanted` occurs in `list`.
pub fn is_listed(list: &Vec<usize>, wanted: usize) -> (out: bool)
    ensures
        out == list@.contains(wanted),
{
    let mut i: usize = 0;
    while i < list.len()
        invariant
            i <= list@.len(),
            forall|j: int| 0 <= j < i ==> list@[j] != wanted,
        decreases list@.len() - i,
    {
        if list[i] == wanted {
            return true;
        }
        i += 1;
    }
    false
}

/// The children of `node` in the DAG that `predecessors` records.
pub fn get_successors(predecessors: &HashMap<usize, Vec<usize>>, node: usize) -> (out: HashSet<
    usize,
>)
    ensures
        out@ == children_of(preds_of(*predecessors), node),
{
    broadcast use vstd::std_specs::hash::group_hash_axioms;

    let ghost preds = preds_of(*predecessors);
    let mut out: HashSet<usize> = HashSet::new();
    for key in it: predecessors.keys()
        invariant
            preds == preds_of(*predecessors),
            it.seq().unref().to_set() == predecessors@.dom(),
            forall|n: usize|
                out@.contains(n) <==> children_of(preds, node).contains(n) && exists|i: int|
                    0 <= i < it.index() && *it.seq()[i] == n,
    {
        if *key != node {
            let is_child = match predecessors.get(key) {
                Some(list) => is_listed(list, node),
                None => false,
            };
            if is_child {
                out.insert(*key);
            }
        }
    }
    assert(out@ =~= children_of(preds, node));
    out
}

} // verus!
