//! What holds of the shortest-path engine between its steps, and why each
//! step keeps it.

use vstd::prelude::*;
use vstd::multiset::Multiset;
use vstd::seq_lib::{to_multiset_build, to_multiset_contains};
use crate::graph::Graph;
use crate::paths::{
    hop_ok, is_walk, walk_cost, reachable, walk_of_cost, dist, well_formed,
    edge_count, lemma_walk_extend, lemma_walk_empty, lemma_dist_is_shortest,
    lemma_labels_bound_walks, lemma_edge_count_step, lemma_edge_count_none, lemma_edge_count_at,
    lemma_edge_count_witness,
};
use crate::pending::Candidate;
use crate::dag::{is_shortest_path_dag, tight_count};
use crate::next_hops::{
    is_first_hop, lemma_back_start, lemma_back_prepend, lemma_first_hop_survives,
};

verus! {

/// The engine's state between two steps.
pub struct Search {
    /// The finalized nodes, each with its cost.
    pub fixed: Map<usize, u128>,
    /// The candidates not yet taken out.
    pub pending: Multiset<Candidate>,
    /// The predecessor lists built so far.
    pub preds: Map<usize, Seq<usize>>,
    /// The node finalized last.
    pub cur: usize,
    /// How many of the edges leaving `cur` have been looked at.
    pub done: int,
}

/// The edges leaving `u` that have been looked at.
pub open spec fn seen_edges<G: Graph>(g: &G, s: Search, u: usize) -> Seq<(usize, i32)> {
    if u == s.cur {
        g.successors(u).take(s.done)
    } else {
        g.successors(u)
    }
}

/// How often `e.from` stands in the list of `e.node` on account of `e`.
pub open spec fn recorded(s: Search, e: Candidate) -> nat {
    if e.cost == s.fixed[e.node] {
        s.preds[e.node].to_multiset().count(e.from)
    } else {
        0
    }
}

/// The state before the first step: only the seed is pending.
pub open spec fn initial(s: Search, start: usize) -> bool {
    &&& s.fixed == Map::<usize, u128>::empty()
    &&& s.preds == Map::<usize, Seq<usize>>::empty()
    &&& s.pending == Multiset::<Candidate>::empty().insert(
        Candidate { cost: 0, node: start, from: start },
    )
}

/// The start node is finalized at cost zero and lists itself; the lists are
/// those of the finalized nodes; no node is finalized at a higher cost than
/// the last one, and no cost is higher than one largest edge cost for each
/// node finalized before.
pub open spec fn root_fixed(s: Search, start: usize) -> bool {
    &&& s.fixed.dom().finite()
    &&& s.fixed.contains_key(start)
    &&& s.fixed[start] == 0
    &&& s.preds.dom() == s.fixed.dom()
    &&& s.preds[start] == seq![start]
    &&& s.fixed.contains_key(s.cur)
    &&& forall|n: usize| #[trigger] s.fixed.contains_key(n) ==> s.fixed[n] <= s.fixed[s.cur]
    &&& forall|n: usize| #[trigger]
        s.fixed.contains_key(n) ==> s.fixed[n] <= (s.fixed.dom().len() - 1) * 0x8000_0000
    &&& s.fixed.dom().len() <= usize::MAX
}

/// Every finalized node is a node of the graph, and some walk from the
/// start reaches it at its cost.
pub open spec fn fixed_reached<G: Graph>(g: &G, start: usize, s: Search) -> bool {
    forall|n: usize| #[trigger]
        s.fixed.contains_key(n) ==> g.has_node(n) && walk_of_cost(g, start, n, s.fixed[n] as int)
}

/// Every pending candidate comes from a finalized node, is for a node
/// other than the start, and costs no less than the node finalized last.
pub open spec fn pending_sound(s: Search, start: usize) -> bool {
    forall|e: Candidate| #[trigger]
        s.pending.count(e) > 0 ==> {
            &&& s.fixed.contains_key(e.from)
            &&& e.node != start
            &&& s.fixed[s.cur] <= e.cost
            &&& e.cost <= s.fixed.dom().len() * 0x8000_0000
        }
}

/// No edge that has been looked at has a negative cost, and none leads to a
/// finalized node at less than that node's cost.
pub open spec fn edges_relaxed<G: Graph>(g: &G, s: Search) -> bool {
    &&& 0 <= s.done <= g.successors(s.cur).len()
    &&& forall|u: usize, i: int|
        s.fixed.contains_key(u) && 0 <= i < seen_edges(g, s, u).len() ==> {
            &&& (#[trigger] g.successors(u)[i]).1 >= 0
            &&& s.fixed.contains_key(g.successors(u)[i].0) ==> s.fixed[g.successors(u)[i].0]
                <= s.fixed[u] + g.successors(u)[i].1
        }
}

/// For a node that is not finalized, the pending candidates are exactly the
/// edges to it that have been looked at: as many candidates from `u` at a
/// cost as `u` has such edges of the cost that is missing to it.
pub open spec fn open_counts<G: Graph>(g: &G, s: Search) -> bool {
    forall|e: Candidate|
        s.fixed.contains_key(e.from) && !s.fixed.contains_key(e.node) ==> (
        #[trigger] s.pending.count(e)) == edge_count(
            seen_edges(g, s, e.from),
            e.node,
            e.cost - s.fixed[e.from],
        )
}

/// For a finalized node, the pending candidates from `u` and the entries of
/// `u` in its list are together at most the edges of `u` that arrive at the
/// same cost; and exactly those edges where `u` was finalized at a lower
/// cost than the node.
pub open spec fn fixed_counts<G: Graph>(g: &G, start: usize, s: Search) -> bool {
    forall|e: Candidate|
        s.fixed.contains_key(e.from) && s.fixed.contains_key(e.node) && e.node != start ==> {
            &&& (#[trigger] s.pending.count(e)) + recorded(s, e) <= edge_count(
                g.successors(e.from),
                e.node,
                e.cost - s.fixed[e.from],
            )
            &&& s.fixed[e.from] < s.fixed[e.node] && e.cost == s.fixed[e.node]
                ==> s.pending.count(e) + recorded(s, e) == edge_count(
                g.successors(e.from),
                e.node,
                e.cost - s.fixed[e.from],
            )
        }
}

/// Only finalized nodes are listed as predecessors.
pub open spec fn preds_from_fixed(s: Search, start: usize) -> bool {
    forall|v: usize, u: usize|
        s.fixed.contains_key(v) && v != start && !s.fixed.contains_key(u) ==> (
        #[trigger] s.preds[v].to_multiset().count(u)) == 0
}

/// Every finalized node other than the start descends from the start
/// through the lists.
pub open spec fn rooted(s: Search, start: usize) -> bool {
    forall|n: usize| #[trigger]
        s.fixed.contains_key(n) && n != start ==> exists|x: usize|
            is_first_hop(s.preds, start, n, x)
}

/// What holds once the start node has been finalized.
pub closed spec fn running<G: Graph>(g: &G, start: usize, s: Search) -> bool {
    &&& root_fixed(s, start)
    &&& rooted(s, start)
    &&& fixed_reached(g, start, s)
    &&& pending_sound(s, start)
    &&& edges_relaxed(g, s)
    &&& open_counts(g, s)
    &&& fixed_counts(g, start, s)
    &&& preds_from_fixed(s, start)
}

/// What holds between any two steps of the engine.
pub open spec fn search_inv<G: Graph>(g: &G, start: usize, s: Search) -> bool {
    initial(s, start) || (running(g, start, s) && s.done == g.successors(s.cur).len())
}

/// Finalizing the start node from the seed.
pub proof fn lemma_first_step<G: Graph>(g: &G, start: usize, s: Search, t: Search)
    requires
        initial(s, start),
        g.has_node(start),
        t.fixed == s.fixed.insert(start, 0),
        t.preds == s.preds.insert(start, Seq::<usize>::empty().push(start)),
        t.pending == s.pending.remove(Candidate { cost: 0, node: start, from: start }),
        t.cur == start,
        t.done == 0,
    ensures
        running(g, start, t),
{
    broadcast use vstd::multiset::group_multiset_axioms;

    lemma_walk_empty(g, start);
    assert(Seq::<usize>::empty().push(start) == seq![start]);
    assert(t.fixed.dom() =~= Set::<usize>::empty().insert(start));
    assert(t.preds.dom() =~= t.fixed.dom());
    assert(t.pending =~= Multiset::<Candidate>::empty());
    assert forall|e: Candidate|
        t.fixed.contains_key(e.from) && !t.fixed.contains_key(e.node) implies (
    #[trigger] t.pending.count(e)) == edge_count(
        seen_edges(g, t, e.from),
        e.node,
        e.cost - t.fixed[e.from],
    ) by {
        lemma_edge_count_none(g.successors(start), e.node, e.cost - t.fixed[e.from]);
    }
}

/// A step that adds a list for `n`, or appends to the list of `n`, or leaves
/// the lists alone, loses no entry of any list.
pub proof fn lemma_lists_grow(s: Search, t: Search, n: usize)
    requires
        t.preds == s.preds || (exists|list: Seq<usize>|
            t.preds == s.preds.insert(n, list) && (s.preds.contains_key(n) ==> exists|p: usize|
                list == s.preds[n].push(p))),
    ensures
        forall|k: usize, v: usize|
            s.preds.contains_key(k) && #[trigger] s.preds[k].contains(v) ==> t.preds.contains_key(k)
                && t.preds[k].contains(v),
{
    assert forall|k: usize, v: usize|
        s.preds.contains_key(k) && #[trigger] s.preds[k].contains(v) implies t.preds.contains_key(
        k,
    ) && t.preds[k].contains(v) by {
        if t.preds != s.preds && k == n {
            let i = choose|i: int| 0 <= i < s.preds[k].len() && s.preds[k][i] == v;
            let list = choose|list: Seq<usize>|
                t.preds == s.preds.insert(n, list) && (s.preds.contains_key(n) ==> exists|p: usize|
                    list == s.preds[n].push(p));
            let p = choose|p: usize| list == s.preds[n].push(p);
            assert(t.preds[k][i] == v);
        }
    }
}

/// A pending candidate names an edge that leaves a finalized node, so its
/// node is reached at the candidate's cost.
pub proof fn lemma_candidate_edge<G: Graph>(g: &G, start: usize, s: Search, e: Candidate) -> (i:
    int)
    requires
        running(g, start, s),
        s.pending.count(e) > 0,
    ensures
        s.fixed.contains_key(e.from),
        reachable(g, start, e.from),
        hop_ok(g, e.from, i),
        g.successors(e.from)[i].0 == e.node,
        g.successors(e.from)[i].1 == e.cost - s.fixed[e.from],
        walk_of_cost(g, start, e.node, e.cost as int),
{
    assert(s.fixed.contains_key(e.from));
    let w = e.cost - s.fixed[e.from];
    let i = if s.fixed.contains_key(e.node) {
        lemma_edge_count_witness(g.successors(e.from), e.node, w)
    } else {
        let k = lemma_edge_count_witness(seen_edges(g, s, e.from), e.node, w);
        k
    };
    let hops = choose|hops: Seq<(usize, int)>|
        is_walk(g, start, hops, e.from) && walk_cost(g, hops) == s.fixed[e.from] as int;
    lemma_walk_extend(g, start, hops, e.from, i);
    i
}

/// Finalizing the node of a cheapest candidate, when it is not finalized yet.
pub proof fn lemma_finalize<G: Graph>(g: &G, start: usize, s: Search, e: Candidate, t: Search)
    requires
        running(g, start, s),
        s.done == g.successors(s.cur).len(),
        s.pending.count(e) > 0,
        forall|o: Candidate| #[trigger] s.pending.count(o) > 0 ==> e.cost <= o.cost,
        !s.fixed.contains_key(e.node),
        g.has_node(e.node),
        t.fixed == s.fixed.insert(e.node, e.cost),
        t.preds == s.preds.insert(
            e.node,
            (if s.preds.contains_key(e.node) {
                s.preds[e.node]
            } else {
                Seq::<usize>::empty()
            }).push(e.from),
        ),
        t.pending == s.pending.remove(e),
        t.cur == e.node,
        t.done == 0,
        t.fixed.dom().len() <= usize::MAX,
    ensures
        running(g, start, t),
{
    broadcast use vstd::multiset::group_multiset_axioms;

    let n = e.node;
    let i0 = lemma_candidate_edge(g, start, s, e);
    assert(!s.preds.dom().contains(n));
    assert(Seq::<usize>::empty().push(e.from) == seq![e.from]);
    assert(t.preds == s.preds.insert(n, seq![e.from]));
    assert(t.fixed.dom() =~= s.fixed.dom().insert(n));
    assert(t.preds.dom() =~= t.fixed.dom());
    assert(t.fixed.dom().len() == s.fixed.dom().len() + 1);
    assert(s.fixed[s.cur] <= e.cost);
    assert(root_fixed(t, start));
    assert(fixed_reached(g, start, t));
    assert(pending_sound(t, start));
    assert(seen_edges(g, t, n).len() == 0);
    assert forall|u: usize, i: int|
        t.fixed.contains_key(u) && 0 <= i < seen_edges(g, t, u).len() implies {
        &&& (#[trigger] g.successors(u)[i]).1 >= 0
        &&& t.fixed.contains_key(g.successors(u)[i].0) ==> t.fixed[g.successors(u)[i].0]
            <= t.fixed[u] + g.successors(u)[i].1
    } by {
        assert(u != n);
        assert(seen_edges(g, s, u) == g.successors(u)) by {
            assert(g.successors(s.cur).take(s.done) == g.successors(s.cur));
        }
        let v = g.successors(u)[i].0;
        let w = g.successors(u)[i].1;
        if v == n {
            lemma_edge_count_at(g.successors(u), i);
            let o = Candidate { cost: (s.fixed[u] + w) as u128, node: n, from: u };
            assert(s.pending.count(o) > 0);
        }
    }
    assert(edges_relaxed(g, t));
    assert forall|o: Candidate|
        t.fixed.contains_key(o.from) && !t.fixed.contains_key(o.node) implies (
    #[trigger] t.pending.count(o)) == edge_count(
        seen_edges(g, t, o.from),
        o.node,
        o.cost - t.fixed[o.from],
    ) by {
        if o.from == n {
            lemma_edge_count_none(g.successors(n), o.node, o.cost - t.fixed[o.from]);
            assert(s.pending.count(o) == 0);
        } else {
            assert(g.successors(s.cur).take(s.done) == g.successors(s.cur));
            assert(s.pending.count(o) == edge_count(
                seen_edges(g, s, o.from),
                o.node,
                o.cost - s.fixed[o.from],
            ));
        }
    }
    assert(open_counts(g, t));
    assert forall|o: Candidate|
        t.fixed.contains_key(o.from) && t.fixed.contains_key(o.node) && o.node != start implies {
        &&& (#[trigger] t.pending.count(o)) + recorded(t, o) <= edge_count(
            g.successors(o.from),
            o.node,
            o.cost - t.fixed[o.from],
        )
        &&& t.fixed[o.from] < t.fixed[o.node] && o.cost == t.fixed[o.node] ==> t.pending.count(o)
            + recorded(t, o) == edge_count(
            g.successors(o.from),
            o.node,
            o.cost - t.fixed[o.from],
        )
    } by {
        assert(g.successors(s.cur).take(s.done) == g.successors(s.cur));
        assert(seq![e.from].to_multiset() =~= Multiset::<usize>::empty().insert(e.from)) by {
            to_multiset_build(Seq::<usize>::empty(), e.from);
            assert(Seq::<usize>::empty().push(e.from) == seq![e.from]);
            to_multiset_contains(Seq::<usize>::empty(), e.from);
            assert forall|x: usize| Seq::<usize>::empty().to_multiset().count(x) == 0 by {
                to_multiset_contains(Seq::<usize>::empty(), x);
            }
        }
        if o.node != n && o.from != n {
            assert(s.pending.count(o) + recorded(s, o) <= edge_count(
                g.successors(o.from),
                o.node,
                o.cost - s.fixed[o.from],
            ));
        } else if o.node != n {
            assert(s.pending.count(o) == 0);
            assert(s.preds[o.node].to_multiset().count(n) == 0);
            assert(s.fixed[o.node] <= s.fixed[s.cur]);
        } else if o.from != n {
            assert(s.pending.count(o) == edge_count(
                seen_edges(g, s, o.from),
                o.node,
                o.cost - s.fixed[o.from],
            ));
        } else {
            assert(s.pending.count(o) == 0);
        }
    }
    assert(fixed_counts(g, start, t));
    assert forall|v: usize, u: usize|
        t.fixed.contains_key(v) && v != start && !t.fixed.contains_key(u) implies (
    #[trigger] t.preds[v].to_multiset().count(u)) == 0 by {
        if v == n {
            to_multiset_contains(seq![e.from], u);
        } else {
            assert(s.preds[v].to_multiset().count(u) == 0);
        }
    }
    assert(preds_from_fixed(t, start));
    lemma_lists_grow(s, t, n);
    assert(seq![e.from][0] == e.from);
    assert forall|m: usize| #[trigger] t.fixed.contains_key(m) && m != start implies exists|
        x: usize,
    |
        is_first_hop(t.preds, start, m, x) by {
        if m == n {
            if e.from == start {
                lemma_back_start(t.preds, start, n);
                assert(is_first_hop(t.preds, start, n, n));
            } else {
                let x = choose|x: usize| is_first_hop(s.preds, start, e.from, x);
                lemma_first_hop_survives(s.preds, t.preds, start, e.from, x);
                lemma_back_prepend(t.preds, start, n, e.from, x);
                assert(is_first_hop(t.preds, start, n, x));
            }
        } else {
            let x = choose|x: usize| is_first_hop(s.preds, start, m, x);
            lemma_first_hop_survives(s.preds, t.preds, start, m, x);
        }
    }
    assert(rooted(t, start));
}

/// Finalizing the node of a cheapest candidate, be it the seed or a later
/// one.
pub proof fn lemma_fix<G: Graph>(g: &G, start: usize, s: Search, e: Candidate, t: Search)
    requires
        search_inv(g, start, s),
        s.pending.count(e) > 0,
        forall|o: Candidate| #[trigger] s.pending.count(o) > 0 ==> e.cost <= o.cost,
        !s.fixed.contains_key(e.node),
        g.has_node(e.node),
        t.fixed == s.fixed.insert(e.node, e.cost),
        t.preds == s.preds.insert(
            e.node,
            (if s.preds.contains_key(e.node) {
                s.preds[e.node]
            } else {
                Seq::<usize>::empty()
            }).push(e.from),
        ),
        t.pending == s.pending.remove(e),
        t.cur == e.node,
        t.done == 0,
        t.fixed.dom().len() <= usize::MAX,
    ensures
        running(g, start, t),
{
    if initial(s, start) {
        assert(e == Candidate { cost: 0, node: start, from: start }) by {
            broadcast use vstd::multiset::group_multiset_axioms;

        }
        lemma_first_step(g, start, s, t);
    } else {
        lemma_finalize(g, start, s, e, t);
    }
}

/// The cost of a candidate for the target of an edge that leaves the
/// current node fits the type that holds it.
pub proof fn lemma_cost_fits<G: Graph>(g: &G, start: usize, s: Search)
    requires
        running(g, start, s),
        0 <= s.done < g.successors(s.cur).len(),
    ensures
        s.fixed[s.cur] + g.successors(s.cur)[s.done].1 <= u128::MAX,
{
    assert(s.fixed[s.cur] <= (s.fixed.dom().len() - 1) * 0x8000_0000);
}

/// Looking at the next edge of the current node: its target is pushed as a
/// candidate unless it is finalized already.
pub proof fn lemma_look_at_edge<G: Graph>(g: &G, start: usize, s: Search, t: Search)
    requires
        running(g, start, s),
        0 <= s.done < g.successors(s.cur).len(),
        g.successors(s.cur)[s.done].1 >= 0,
        t.fixed == s.fixed,
        t.preds == s.preds,
        t.cur == s.cur,
        t.done == s.done + 1,
        t.pending == if s.fixed.contains_key(g.successors(s.cur)[s.done].0) {
            s.pending
        } else {
            s.pending.insert(
                Candidate {
                    cost: (s.fixed[s.cur] + g.successors(s.cur)[s.done].1) as u128,
                    node: g.successors(s.cur)[s.done].0,
                    from: s.cur,
                },
            )
        },
    ensures
        running(g, start, t),
{
    broadcast use vstd::multiset::group_multiset_axioms;

    let cur = s.cur;
    let k = s.done;
    let edges = g.successors(cur);
    let v = edges[k].0;
    let w = edges[k].1;
    let added = Candidate { cost: (s.fixed[cur] + w) as u128, node: v, from: cur };
    assert(s.fixed[cur] <= (s.fixed.dom().len() - 1) * 0x8000_0000);
    assert(root_fixed(t, start));
    assert(fixed_reached(g, start, t));
    assert forall|e: Candidate| #[trigger] t.pending.count(e) > 0 implies {
        &&& t.fixed.contains_key(e.from)
        &&& e.node != start
        &&& t.fixed[t.cur] <= e.cost
        &&& e.cost <= t.fixed.dom().len() * 0x8000_0000
    } by {
        if e != added {
            assert(s.pending.count(e) > 0);
        }
    }
    assert forall|u: usize, i: int|
        t.fixed.contains_key(u) && 0 <= i < seen_edges(g, t, u).len() implies {
        &&& (#[trigger] g.successors(u)[i]).1 >= 0
        &&& t.fixed.contains_key(g.successors(u)[i].0) ==> t.fixed[g.successors(u)[i].0]
            <= t.fixed[u] + g.successors(u)[i].1
    } by {
        if u == cur && i == k {
            if s.fixed.contains_key(v) {
                assert(s.fixed[v] <= s.fixed[cur]);
            }
        } else {
            assert(0 <= i < seen_edges(g, s, u).len());
        }
    }
    assert(edges_relaxed(g, t));
    assert forall|e: Candidate|
        t.fixed.contains_key(e.from) && !t.fixed.contains_key(e.node) implies (
    #[trigger] t.pending.count(e)) == edge_count(
        seen_edges(g, t, e.from),
        e.node,
        e.cost - t.fixed[e.from],
    ) by {
        assert(s.pending.count(e) == edge_count(
            seen_edges(g, s, e.from),
            e.node,
            e.cost - s.fixed[e.from],
        ));
        if e.from == cur {
            lemma_edge_count_step(edges, k, e.node, e.cost - s.fixed[cur]);
        }
    }
    assert(open_counts(g, t));
    assert forall|e: Candidate|
        t.fixed.contains_key(e.from) && t.fixed.contains_key(e.node) && e.node != start implies {
        &&& (#[trigger] t.pending.count(e)) + recorded(t, e) <= edge_count(
            g.successors(e.from),
            e.node,
            e.cost - t.fixed[e.from],
        )
        &&& t.fixed[e.from] < t.fixed[e.node] && e.cost == t.fixed[e.node] ==> t.pending.count(e)
            + recorded(t, e) == edge_count(
            g.successors(e.from),
            e.node,
            e.cost - t.fixed[e.from],
        )
    } by {
        assert(s.pending.count(e) + recorded(s, e) <= edge_count(
            g.successors(e.from),
            e.node,
            e.cost - s.fixed[e.from],
        ));
        assert(t.pending.count(e) == s.pending.count(e));
    }
    assert(fixed_counts(g, start, t));
    assert(preds_from_fixed(t, start));
    assert(rooted(t, start));
}

/// Taking out a cheapest candidate whose node is finalized already: an
/// arrival at the node's own cost is one more predecessor, a dearer one is
/// dropped.
pub proof fn lemma_settle<G: Graph>(g: &G, start: usize, s: Search, e: Candidate, t: Search)
    requires
        running(g, start, s),
        s.pending.count(e) > 0,
        s.fixed.contains_key(e.node),
        t.fixed == s.fixed,
        t.cur == s.cur,
        t.done == s.done,
        t.pending == s.pending.remove(e),
        t.preds == if e.cost == s.fixed[e.node] {
            s.preds.insert(
                e.node,
                (if s.preds.contains_key(e.node) {
                    s.preds[e.node]
                } else {
                    Seq::<usize>::empty()
                }).push(e.from),
            )
        } else {
            s.preds
        },
    ensures
        running(g, start, t),
{
    broadcast use vstd::multiset::group_multiset_axioms;

    let n = e.node;
    assert(n != start);
    assert(s.fixed.contains_key(e.from));
    assert(s.preds.dom().contains(n));
    assert(t.preds.dom() =~= s.preds.dom());
    assert(root_fixed(t, start));
    assert(fixed_reached(g, start, t));
    assert forall|o: Candidate| #[trigger] t.pending.count(o) > 0 implies {
        &&& t.fixed.contains_key(o.from)
        &&& o.node != start
        &&& t.fixed[t.cur] <= o.cost
        &&& o.cost <= t.fixed.dom().len() * 0x8000_0000
    } by {
        assert(s.pending.count(o) > 0);
    }
    assert forall|u: usize, i: int|
        t.fixed.contains_key(u) && 0 <= i < seen_edges(g, t, u).len() implies {
        &&& (#[trigger] g.successors(u)[i]).1 >= 0
        &&& t.fixed.contains_key(g.successors(u)[i].0) ==> t.fixed[g.successors(u)[i].0]
            <= t.fixed[u] + g.successors(u)[i].1
    } by {
        assert(0 <= i < seen_edges(g, s, u).len());
    }
    assert(edges_relaxed(g, t));
    assert forall|o: Candidate|
        t.fixed.contains_key(o.from) && !t.fixed.contains_key(o.node) implies (
    #[trigger] t.pending.count(o)) == edge_count(
        seen_edges(g, t, o.from),
        o.node,
        o.cost - t.fixed[o.from],
    ) by {
        assert(s.pending.count(o) == edge_count(
            seen_edges(g, s, o.from),
            o.node,
            o.cost - s.fixed[o.from],
        ));
    }
    assert(open_counts(g, t));
    if e.cost == s.fixed[n] {
        to_multiset_build(s.preds[n], e.from);
    }
    assert forall|o: Candidate|
        t.fixed.contains_key(o.from) && t.fixed.contains_key(o.node) && o.node != start implies {
        &&& (#[trigger] t.pending.count(o)) + recorded(t, o) <= edge_count(
            g.successors(o.from),
            o.node,
            o.cost - t.fixed[o.from],
        )
        &&& t.fixed[o.from] < t.fixed[o.node] && o.cost == t.fixed[o.node] ==> t.pending.count(o)
            + recorded(t, o) == edge_count(
            g.successors(o.from),
            o.node,
            o.cost - t.fixed[o.from],
        )
    } by {
        assert(s.pending.count(o) + recorded(s, o) <= edge_count(
            g.successors(o.from),
            o.node,
            o.cost - s.fixed[o.from],
        ));
        if o == e {
            assert(t.pending.count(o) == s.pending.count(o) - 1);
        } else {
            assert(t.pending.count(o) == s.pending.count(o));
        }
    }
    assert(fixed_counts(g, start, t));
    assert forall|v: usize, u: usize|
        t.fixed.contains_key(v) && v != start && !t.fixed.contains_key(u) implies (
    #[trigger] t.preds[v].to_multiset().count(u)) == 0 by {
        assert(s.preds[v].to_multiset().count(u) == 0);
    }
    assert(preds_from_fixed(t, start));
    lemma_lists_grow(s, t, n);
    assert forall|m: usize| #[trigger] t.fixed.contains_key(m) && m != start implies exists|
        x: usize,
    |
        is_first_hop(t.preds, start, m, x) by {
        let x = choose|x: usize| is_first_hop(s.preds, start, m, x);
        lemma_first_hop_survives(s.preds, t.preds, start, m, x);
    }
    assert(rooted(t, start));
}

/// The finalized costs, as labels of the nodes.
pub open spec fn labels(s: Search) -> Map<usize, int> {
    Map::new(|n: usize| s.fixed.contains_key(n), |n: usize| s.fixed[n] as int)
}

/// Once nothing is pending, every edge that leaves a finalized node enters
/// one, and the cost there is at most the cost here plus the edge's.
pub proof fn lemma_closed<G: Graph>(g: &G, start: usize, s: Search)
    requires
        running(g, start, s),
        s.done == g.successors(s.cur).len(),
        s.pending.len() == 0,
    ensures
        forall|u: usize, i: int|
            labels(s).contains_key(u) && 0 <= i < g.successors(u).len() ==> {
                &&& labels(s).contains_key((#[trigger] g.successors(u)[i]).0)
                &&& labels(s)[g.successors(u)[i].0] <= labels(s)[u] + g.successors(u)[i].1
                &&& g.successors(u)[i].1 >= 0
            },
{
    broadcast use vstd::multiset::group_multiset_axioms;

    vstd::multiset::lemma_multiset_empty_len(s.pending);
    assert(g.successors(s.cur).take(s.done) == g.successors(s.cur));
    assert forall|u: usize, i: int|
        labels(s).contains_key(u) && 0 <= i < g.successors(u).len() implies {
        &&& labels(s).contains_key((#[trigger] g.successors(u)[i]).0)
        &&& labels(s)[g.successors(u)[i].0] <= labels(s)[u] + g.successors(u)[i].1
        &&& g.successors(u)[i].1 >= 0
    } by {
        let v = g.successors(u)[i].0;
        let w = g.successors(u)[i].1;
        assert(0 <= i < seen_edges(g, s, u).len());
        assert(w >= 0);
        assert(s.fixed[u] <= (s.fixed.dom().len() - 1) * 0x8000_0000);
        if !s.fixed.contains_key(v) {
            let o = Candidate { cost: (s.fixed[u] + w) as u128, node: v, from: u };
            lemma_edge_count_at(g.successors(u), i);
            assert(s.pending.count(o) == edge_count(
                seen_edges(g, s, o.from),
                o.node,
                o.cost - s.fixed[o.from],
            ));
        }
    }
}

/// Once nothing is pending, the finalized nodes are the reachable ones and
/// each one's cost is its distance.
pub proof fn lemma_costs_are_distances<G: Graph>(g: &G, start: usize, s: Search)
    requires
        running(g, start, s),
        s.done == g.successors(s.cur).len(),
        s.pending.len() == 0,
    ensures
        forall|n: usize| #[trigger] s.fixed.contains_key(n) <==> reachable(g, start, n),
        forall|n: usize| #[trigger]
            s.fixed.contains_key(n) ==> dist(g, start, n) == s.fixed[n] as int,
        well_formed(g, start),
{
    lemma_closed(g, start, s);
    assert forall|n: usize| reachable(g, start, n) implies #[trigger] s.fixed.contains_key(n) by {
        let hops = choose|hops: Seq<(usize, int)>| is_walk(g, start, hops, n);
        lemma_labels_bound_walks(g, start, labels(s), hops, n);
    }
    assert forall|n: usize| #[trigger] s.fixed.contains_key(n) implies dist(g, start, n)
        == s.fixed[n] as int && reachable(g, start, n) by {
        let hops = choose|hops: Seq<(usize, int)>|
            is_walk(g, start, hops, n) && walk_cost(g, hops) == s.fixed[n] as int;
        assert forall|other: Seq<(usize, int)>| #[trigger]
            is_walk(g, start, other, n) implies walk_cost(g, hops) <= walk_cost(g, other) by {
            lemma_labels_bound_walks(g, start, labels(s), other, n);
        }
        lemma_dist_is_shortest(g, start, hops, n);
    }
    assert forall|u: usize, i: int|
        reachable(g, start, u) && 0 <= i < g.successors(u).len() implies {
        &&& g.has_node((#[trigger] g.successors(u)[i]).0)
        &&& g.successors(u)[i].1 >= 0
    } by {
        assert(s.fixed.contains_key(u));
        assert(labels(s).contains_key(u));
        assert(labels(s).contains_key(g.successors(u)[i].0));
        assert(s.fixed.contains_key(g.successors(u)[i].0));
    }
}

/// Once nothing is pending, the predecessor lists are those of the
/// shortest-path DAG, and the graph was one that the engine can work on.
pub proof fn lemma_finished<G: Graph>(g: &G, start: usize, s: Search)
    requires
        search_inv(g, start, s),
        s.pending.len() == 0,
    ensures
        well_formed(g, start),
        is_shortest_path_dag(g, start, s.preds),
{
    assert(!initial(s, start)) by {
        broadcast use vstd::multiset::group_multiset_axioms;

    }
    lemma_costs_are_distances(g, start, s);
    vstd::multiset::lemma_multiset_empty_len(s.pending);
    assert forall|n: usize| #[trigger] s.preds.contains_key(n) <==> reachable(g, start, n) by {
        assert(s.preds.dom().contains(n) == s.fixed.dom().contains(n));
        assert(s.fixed.contains_key(n) <==> reachable(g, start, n));
    }
    assert forall|n: usize, p: usize| s.preds.contains_key(n) && n != start implies {
        &&& (#[trigger] s.preds[n].to_multiset().count(p)) <= tight_count(g, start, p, n)
        &&& reachable(g, start, p) && dist(g, start, p) < dist(g, start, n)
            ==> s.preds[n].to_multiset().count(p) == tight_count(g, start, p, n)
    } by {
        assert(s.preds.dom().contains(n));
        assert(s.fixed.contains_key(n));
        assert(s.fixed.contains_key(p) <==> reachable(g, start, p));
        if s.fixed.contains_key(p) {
            let e = Candidate { cost: s.fixed[n], node: n, from: p };
            assert(s.pending.count(e) == 0);
            assert(s.pending.count(e) + recorded(s, e) <= edge_count(
                g.successors(e.from),
                e.node,
                e.cost - s.fixed[e.from],
            ));
        } else {
            assert(s.preds[n].to_multiset().count(p) == 0);
        }
    }
    assert(s.preds.dom().contains(start));
    assert forall|n: usize| #[trigger] s.preds.contains_key(n) && n != start implies exists|
        x: usize,
    |
        is_first_hop(s.preds, start, n, x) by {
        assert(s.preds.dom().contains(n));
        assert(s.fixed.contains_key(n));
    }
}

/// A candidate for a node that the graph does not have shows that the graph
/// is not one that the engine can work on.
pub proof fn lemma_absent_node<G: Graph>(g: &G, start: usize, s: Search, e: Candidate)
    requires
        search_inv(g, start, s),
        s.pending.count(e) > 0,
        !g.has_node(e.node),
    ensures
        !well_formed(g, start),
{
    broadcast use vstd::multiset::group_multiset_axioms;

    if initial(s, start) {
        assert(e == Candidate { cost: 0, node: start, from: start });
    } else {
        let i = lemma_candidate_edge(g, start, s, e);
        assert(g.successors(e.from)[i].0 == e.node);
    }
}

/// An edge of negative cost that leaves a finalized node shows that the
/// graph is not one that the engine can work on.
pub proof fn lemma_negative_edge<G: Graph>(g: &G, start: usize, s: Search)
    requires
        running(g, start, s),
        0 <= s.done < g.successors(s.cur).len(),
        g.successors(s.cur)[s.done].1 < 0,
    ensures
        !well_formed(g, start),
{
    assert(s.fixed.contains_key(s.cur));
    assert(walk_of_cost(g, start, s.cur, s.fixed[s.cur] as int));
    assert(reachable(g, start, s.cur));
}

} // verus!
