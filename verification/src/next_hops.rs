//! Unicast next hops: the neighbours of a source that begin a shortest path
//! to a destination, read off the predecessor multimap of that source.

use vstd::prelude::*;
use std::collections::{HashMap, HashSet};
use crate::dag::preds_of;

verus! {

/// `chain` steps backwards through predecessor lists and never meets
/// `source`: each node but the last has a list, and the next node is in it.
pub open spec fn is_back_chain(preds: Map<usize, Seq<usize>>, source: usize, chain: Seq<usize>) -> bool {
    &&& chain.len() > 0
    &&& forall|i: int| 0 <= i < chain.len() ==> #[trigger] chain[i] != source
    &&& forall|i: int|
        0 <= i < chain.len() - 1 ==> preds.contains_key(#[trigger] chain[i]) && preds[chain[i]].contains(
            chain[i + 1],
        )
}

/// Some chain leads backwards from `destination` to `x` without meeting
/// `source`.
pub open spec fn leads_back(
    preds: Map<usize, Seq<usize>>,
    source: usize,
    destination: usize,
    x: usize,
) -> bool {
    exists|chain: Seq<usize>| #[trigger]
        is_back_chain(preds, source, chain) && chain.first() == destination && chain.last() == x
}

/// `x` lists `source` as a predecessor, and `destination` descends from `x`
/// without a detour through `source`.
pub open spec fn is_first_hop(
    preds: Map<usize, Seq<usize>>,
    source: usize,
    destination: usize,
    x: usize,
) -> bool {
    leads_back(preds, source, destination, x) && preds.contains_key(x) && preds[x].contains(source)
}

/// The first hops from `source` towards `destination`: the nodes that list
/// `source` as a predecessor and from which `destination` descends without a
/// detour through `source`. For `destination == source` it is `source` alone.
pub open spec fn first_hops(preds: Map<usize, Seq<usize>>, source: usize, destination: usize) -> Set<
    usize,
> {
    if source == destination {
        Set::<usize>::empty().insert(source)
    } else {
        Set::new(|x: usize| is_first_hop(preds, source, destination, x))
    }
}

/// The destination leads back to itself.
pub proof fn lemma_back_start(preds: Map<usize, Seq<usize>>, source: usize, destination: usize)
    requires
        source != destination,
    ensures
        leads_back(preds, source, destination, destination),
{
    let chain = seq![destination];
    assert(is_back_chain(preds, source, chain));
    assert(chain.first() == destination && chain.last() == destination);
}

/// A chain can be continued by a listed predecessor other than the source.
pub proof fn lemma_back_step(
    preds: Map<usize, Seq<usize>>,
    source: usize,
    destination: usize,
    x: usize,
    p: usize,
)
    requires
        leads_back(preds, source, destination, x),
        preds.contains_key(x),
        preds[x].contains(p),
        p != source,
    ensures
        leads_back(preds, source, destination, p),
{
    let chain = choose|chain: Seq<usize>| #[trigger]
        is_back_chain(preds, source, chain) && chain.first() == destination && chain.last() == x;
    let longer = chain.push(p);
    assert forall|i: int| 0 <= i < longer.len() - 1 implies preds.contains_key(
        #[trigger] longer[i],
    ) && preds[longer[i]].contains(longer[i + 1]) by {
        if i < chain.len() - 1 {
            assert(longer[i] == chain[i]);
            assert(longer[i + 1] == chain[i + 1]);
        }
    }
    assert(is_back_chain(preds, source, longer));
    assert(longer.first() == destination && longer.last() == p);
}

/// A chain can be entered one node earlier, from a node that lists its
/// first node.
pub proof fn lemma_back_prepend(
    preds: Map<usize, Seq<usize>>,
    source: usize,
    n: usize,
    p: usize,
    x: usize,
)
    requires
        n != source,
        preds.contains_key(n),
        preds[n].contains(p),
        leads_back(preds, source, p, x),
    ensures
        leads_back(preds, source, n, x),
{
    let chain = choose|chain: Seq<usize>| #[trigger]
        is_back_chain(preds, source, chain) && chain.first() == p && chain.last() == x;
    let longer = seq![n] + chain;
    assert forall|i: int| 0 <= i < longer.len() implies #[trigger] longer[i] != source by {
        if i > 0 {
            assert(longer[i] == chain[i - 1]);
        }
    }
    assert forall|i: int| 0 <= i < longer.len() - 1 implies preds.contains_key(
        #[trigger] longer[i],
    ) && preds[longer[i]].contains(longer[i + 1]) by {
        assert(longer[i + 1] == chain[i]);
        if i > 0 {
            assert(longer[i] == chain[i - 1]);
            assert(preds.contains_key(chain[i - 1]) && preds[chain[i - 1]].contains(
                chain[i - 1 + 1],
            ));
        }
    }
    assert(is_back_chain(preds, source, longer));
    assert(longer.first() == n && longer.last() == x);
}

/// A first hop stays one when lists grow and new lists are added.
pub proof fn lemma_first_hop_survives(
    before: Map<usize, Seq<usize>>,
    after: Map<usize, Seq<usize>>,
    source: usize,
    destination: usize,
    x: usize,
)
    requires
        is_first_hop(before, source, destination, x),
        forall|k: usize, v: usize|
            before.contains_key(k) && #[trigger] before[k].contains(v) ==> after.contains_key(k)
                && after[k].contains(v),
    ensures
        is_first_hop(after, source, destination, x),
{
    let chain = choose|chain: Seq<usize>| #[trigger]
        is_back_chain(before, source, chain) && chain.first() == destination && chain.last() == x;
    assert forall|i: int| 0 <= i < chain.len() - 1 implies after.contains_key(
        #[trigger] chain[i],
    ) && after[chain[i]].contains(chain[i + 1]) by {
        assert(before.contains_key(chain[i]) && before[chain[i]].contains(chain[i + 1]));
    }
    assert(is_back_chain(after, source, chain));
}

/// A set that holds the destination and is closed under stepping back holds
/// every node with a list that a chain reaches.
pub proof fn lemma_back_closed(
    preds: Map<usize, Seq<usize>>,
    source: usize,
    seen: Set<usize>,
    chain: Seq<usize>,
    upto: int,
)
    requires
        is_back_chain(preds, source, chain),
        preds.contains_key(chain.first()) ==> seen.contains(chain.first()),
        forall|x: usize, j: int|
            seen.contains(x) && 0 <= j < preds[x].len() && preds[x][j] != source
                && preds.contains_key(#[trigger] preds[x][j]) ==> seen.contains(preds[x][j]),
        0 <= upto < chain.len(),
        preds.contains_key(chain[upto]),
    ensures
        seen.contains(chain[upto]),
    decreases upto,
{
    if upto > 0 {
        let prev = chain[upto - 1];
        assert(preds.contains_key(prev));
        lemma_back_closed(preds, source, seen, chain, upto - 1);
        assert(preds[prev].contains(chain[upto - 1 + 1]));
        let j = choose|j: int| 0 <= j < preds[prev].len() && preds[prev][j] == chain[upto];
        assert(preds.contains_key(preds[prev][j]));
    }
}

/// The first hops from `source` towards `destination`, each once.
///
/// The result is `source` alone when the two are the same node, and empty
/// when `destination` does not descend from `source` in the multimap.
pub fn get_all_out_interfaces_to_destination(
    predecessors: &HashMap<usize, Vec<usize>>,
    source: usize,
    destination: usize,
) -> (out: Vec<usize>)
    ensures
        out@.no_duplicates(),
        out@.to_set() == first_hops(preds_of(*predecessors), source, destination),
{
    broadcast use vstd::std_specs::hash::group_hash_axioms;

    let ghost preds = preds_of(*predecessors);
    let mut out: Vec<usize> = Vec::new();
    if source == destination {
        out.push(source);
        assert(out@ == seq![source]);
        assert(out@.to_set() =~= first_hops(preds, source, destination)) by {
            assert forall|x: usize| out@.contains(x) <==> x == source by {
                if x == source {
                    assert(out@[0] == x);
                }
            }
        }
        return out;
    }
    let mut visited: HashSet<usize> = HashSet::new();
    let mut stack: Vec<usize> = Vec::new();
    stack.push(destination);
    proof {
        lemma_back_start(preds, source, destination);
        assert(stack@[0] == destination);
    }
    while stack.len() > 0
        invariant
            source != destination,
            preds == preds_of(*predecessors),
            visited@.subset_of(predecessors@.dom()),
            forall|x: usize| #[trigger]
                visited@.contains(x) ==> leads_back(preds, source, destination, x),
            forall|j: int|
                0 <= j < stack@.len() ==> leads_back(preds, source, destination, #[trigger] stack@[j]),
            forall|x: usize, j: int|
                visited@.contains(x) && 0 <= j < preds[x].len() && preds[x][j] != source
                    && preds.contains_key(#[trigger] preds[x][j]) ==> visited@.contains(preds[x][j])
                    || stack@.contains(preds[x][j]),
            preds.contains_key(destination) ==> visited@.contains(destination) || stack@.contains(
                destination,
            ),
            out@.no_duplicates(),
            forall|x: usize|
                #[trigger] out@.contains(x) <==> visited@.contains(x) && preds[x].contains(source),
        decreases predecessors@.dom().len() - visited@.len(), stack@.len(),
    {
        let ghost stack_before = stack@;
        let ghost visited_before = visited@;
        assert(visited@.finite() && visited@.len() <= predecessors@.dom().len()) by {
            vstd::set_lib::lemma_len_subset(visited@, predecessors@.dom());
        }
        let elem = stack[stack.len() - 1];
        stack.pop();
        assert(elem == stack_before.last());
        assert(stack@ == stack_before.drop_last());
        assert forall|q: usize| stack_before.contains(q) implies stack@.contains(q) || q == elem by {
            let j = choose|j: int| 0 <= j < stack_before.len() && stack_before[j] == q;
            if j < stack@.len() {
                assert(stack@[j] == q);
            }
        }
        let unseen = !visited.contains(&elem);
        if unseen {
            if let Some(list) = predecessors.get(&elem) {
                assert(list@ == preds[elem]);
                visited.insert(elem);
                assert(visited@.subset_of(predecessors@.dom()));
                assert(visited@.len() == visited_before.len() + 1);
                let mut is_first_hop = false;
                let mut j: usize = 0;
                while j < list.len()
                    invariant
                        j <= list@.len(),
                        list@ == preds[elem],
                        preds.contains_key(elem),
                        visited@ == visited_before.insert(elem),
                        forall|i: int|
                            0 <= i < stack@.len() ==> leads_back(
                                preds,
                                source,
                                destination,
                                #[trigger] stack@[i],
                            ),
                        forall|q: usize| stack_before.contains(q) ==> stack@.contains(q) || q == elem,
                        leads_back(preds, source, destination, elem),
                        forall|i: int|
                            0 <= i < j && list@[i] != source && preds.contains_key(#[trigger] list@[i])
                                ==> visited@.contains(list@[i]) || stack@.contains(list@[i]),
                        is_first_hop <==> exists|i: int| 0 <= i < j && list@[i] == source,
                    decreases list@.len() - j,
                {
                    let pred = list[j];
                    if pred == source {
                        is_first_hop = true;
                    } else if !visited.contains(&pred) {
                        let ghost stack_here = stack@;
                        stack.push(pred);
                        proof {
                            assert(preds[elem].contains(pred)) by {
                                assert(preds[elem][j as int] == pred);
                            }
                            lemma_back_step(preds, source, destination, elem, pred);
                            assert(stack@[stack_here.len() as int] == pred);
                            assert forall|q: usize| stack_here.contains(q) implies stack@.contains(
                                q,
                            ) by {
                                let i = choose|i: int| 0 <= i < stack_here.len() && stack_here[i] == q;
                                assert(stack@[i] == q);
                            }
                        }
                    }
                    j += 1;
                }
                proof {
                    assert(is_first_hop <==> preds[elem].contains(source));
                    assert forall|x: usize, i: int|
                        visited@.contains(x) && 0 <= i < preds[x].len() && preds[x][i] != source
                            && preds.contains_key(#[trigger] preds[x][i]) implies visited@.contains(
                        preds[x][i],
                    ) || stack@.contains(preds[x][i]) by {
                        if x != elem {
                            assert(visited_before.contains(x));
                        }
                    }
                }
                let ghost out_before = out@;
                if is_first_hop {
                    out.push(elem);
                    proof {
                        assert(out@[out_before.len() as int] == elem);
                        assert forall|x: usize| out_before.contains(x) implies out@.contains(x) by {
                            let i = choose|i: int| 0 <= i < out_before.len() && out_before[i] == x;
                            assert(out@[i] == x);
                        }
                    }
                }
                proof {
                    assert(!out_before.contains(elem));
                    assert forall|x: usize| #[trigger]
                        out@.contains(x) <==> visited@.contains(x) && preds[x].contains(source) by {
                        if out@.contains(x) {
                            let i = choose|i: int| 0 <= i < out@.len() && out@[i] == x;
                            if i < out_before.len() {
                                assert(out_before[i] == x);
                                assert(out_before.contains(x));
                            }
                        }
                        if x != elem && visited_before.contains(x) && preds[x].contains(source) {
                            assert(out_before.contains(x));
                        }
                    }
                    assert(visited@.len() == visited_before.len() + 1);
                    vstd::set_lib::lemma_len_subset(visited@, predecessors@.dom());
                }
            }
        }
    }
    proof {
        assert forall|x: usize|
            leads_back(preds, source, destination, x) && preds.contains_key(
                x,
            ) implies visited@.contains(x) by {
            let chain = choose|chain: Seq<usize>| #[trigger]
                is_back_chain(preds, source, chain) && chain.first() == destination && chain.last()
                    == x;
            assert forall|y: usize, j: int|
                visited@.contains(y) && 0 <= j < preds[y].len() && preds[y][j] != source
                    && preds.contains_key(#[trigger] preds[y][j]) implies visited@.contains(
                preds[y][j],
            ) by {
                assert(!stack@.contains(preds[y][j]));
            }
            assert(!stack@.contains(destination));
            lemma_back_closed(preds, source, visited@, chain, chain.len() - 1);
        }
        assert(out@.to_set() =~= first_hops(preds, source, destination));
    }
    out
}

} // verus!
