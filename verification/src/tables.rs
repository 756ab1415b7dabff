//! Forwarding tables: for each destination the one next hop that is
//! installed and the interface that leads to it, and for each node of a
//! multicast tree the interfaces that get a copy.
//!
//! A node's interfaces are numbered by the positions of its edge list. Of
//! several equal-cost next hops the one with the least identifier is
//! installed.

use vstd::prelude::*;
use std::collections::{HashMap, HashSet};
use crate::graph::Graph;
use crate::paths::{reachable, well_formed, lemma_reachable_is_node};
use crate::dag::{is_shortest_path_dag, preds_of};
use crate::dijkstra::dijkstra;
use crate::next_hops::{
    first_hops, is_first_hop, is_back_chain, get_all_out_interfaces_to_destination,
};
use crate::laws::{law_predecessors_exact, law_first_hop_exists_iff_reachable};
use crate::fan_out::{children_of, get_successors};

verus! {

/// `i` is the first position in `edges` of an edge to `hop`.
pub open spec fn is_interface(edges: Seq<(usize, i32)>, hop: usize, i: int) -> bool {
    &&& 0 <= i < edges.len()
    &&& edges[i].0 == hop
    &&& forall|j: int| 0 <= j < i ==> (#[trigger] edges[j]).0 != hop
}

/// The interface that leads to `hop`: the first position in `neighbours` of
/// an edge to it, or `None` when there is no such edge.
pub fn interface_to(neighbours: &Vec<(usize, i32)>, hop: usize) -> (out: Option<usize>)
    ensures
        match out {
            Some(i) => is_interface(neighbours@, hop, i as int),
            None => forall|j: int| 0 <= j < neighbours@.len() ==> (#[trigger] neighbours@[j]).0 != hop,
        },
{
    let mut i: usize = 0;
    while i < neighbours.len()
        invariant
            i <= neighbours@.len(),
            forall|j: int| 0 <= j < i ==> (#[trigger] neighbours@[j]).0 != hop,
        decreases neighbours@.len() - i,
    {
        if neighbours[i].0 == hop {
            return Some(i);
        }
        i += 1;
    }
    None
}

/// The least entry of `list`, or `None` when it is empty.
pub fn least(list: &Vec<usize>) -> (out: Option<usize>)
    ensures
        match out {
            Some(m) => list@.contains(m) && forall|j: int|
                0 <= j < list@.len() ==> m <= #[trigger] list@[j],
            None => list@.len() == 0,
        },
{
    if list.len() == 0 {
        return None;
    }
    let mut m: usize = list[0];
    let mut i: usize = 1;
    while i < list.len()
        invariant
            1 <= i <= list@.len(),
            list@.contains(m),
            forall|j: int| 0 <= j < i ==> m <= #[trigger] list@[j],
        decreases list@.len() - i,
    {
        if list[i] < m {
            m = list[i];
        }
        i += 1;
    }
    Some(m)
}

/// One line of a node's unicast table: traffic for `destination` leaves
/// through `interface`, which leads to `hop`.
#[derive(Clone, Copy, Debug, PartialEq, Eq)]
pub struct Route {
    pub destination: usize,
    pub hop: usize,
    pub interface: usize,
}

/// `route` is a line of the table of `source`: its hop is the least first
/// hop towards its destination, and its interface is the first that leads to
/// that hop.
pub open spec fn is_route(
    edges: Seq<(usize, i32)>,
    preds: Map<usize, Seq<usize>>,
    source: usize,
    route: Route,
) -> bool {
    &&& route.destination != source
    &&& first_hops(preds, source, route.destination).contains(route.hop)
    &&& forall|h: usize| #[trigger]
        first_hops(preds, source, route.destination).contains(h) ==> route.hop <= h
    &&& is_interface(edges, route.hop, route.interface as int)
}

/// `routes` is the unicast table of `source`: one line for each node that
/// can be reached, other than `source`, in the order of the destinations.
pub open spec fn is_unicast_table(
    g: &Vec<Vec<(usize, i32)>>,
    source: usize,
    preds: Map<usize, Seq<usize>>,
    routes: Seq<Route>,
) -> bool {
    &&& forall|i: int|
        0 <= i < routes.len() ==> is_route(g.successors(source), preds, source, #[trigger] routes[i])
    &&& forall|i: int, j: int|
        0 <= i < j < routes.len() ==> (#[trigger] routes[i]).destination < (
        #[trigger] routes[j]).destination
    &&& forall|d: usize|
        d != source && #[trigger] reachable(g, source, d) ==> exists|i: int|
            0 <= i < routes.len() && (#[trigger] routes[i]).destination == d
}

/// The line for `destination` in the table that `predecessors` gives
/// `source`, or `None` when there is no such line: `destination` is
/// `source`, or it has no first hop, or no edge of `source` leads to the
/// least one.
pub fn route_to(
    successors: &Vec<Vec<(usize, i32)>>,
    predecessors: &HashMap<usize, Vec<usize>>,
    source: usize,
    destination: usize,
) -> (out: Option<Route>)
    ensures
        match out {
            Some(route) => route.destination == destination && is_route(
                successors.successors(source),
                preds_of(*predecessors),
                source,
                route,
            ),
            None => forall|route: Route|
                route.destination == destination ==> !#[trigger] is_route(
                    successors.successors(source),
                    preds_of(*predecessors),
                    source,
                    route,
                ),
        },
{
    if destination == source || source >= successors.len() {
        return None;
    }
    let ghost preds = preds_of(*predecessors);
    let hops = get_all_out_interfaces_to_destination(predecessors, source, destination);
    proof {
        assert forall|h: usize| hops@.contains(h) <==> first_hops(
            preds,
            source,
            destination,
        ).contains(h) by {
            assert(hops@.to_set().contains(h) == hops@.contains(h));
        }
    }
    let hop = match least(&hops) {
        Some(hop) => hop,
        None => {
            proof {
                assert forall|route: Route|
                    route.destination == destination implies !#[trigger] is_route(
                    successors.successors(source),
                    preds,
                    source,
                    route,
                ) by {
                    if first_hops(preds, source, destination).contains(route.hop) {
                        assert(hops@.contains(route.hop));
                    }
                }
            }
            return None;
        },
    };
    proof {
        assert forall|h: usize| #[trigger]
            first_hops(preds, source, destination).contains(h) implies hop <= h by {
            assert(hops@.contains(h));
            let j = choose|j: int| 0 <= j < hops@.len() && hops@[j] == h;
            assert(hop <= hops@[j]);
        }
    }
    match interface_to(&successors[source], hop) {
        Some(interface) => Some(Route { destination, hop, interface }),
        None => {
            proof {
                assert forall|route: Route|
                    route.destination == destination implies !#[trigger] is_route(
                    successors.successors(source),
                    preds,
                    source,
                    route,
                ) by {
                    if is_route(successors.successors(source), preds, source, route) {
                        assert(first_hops(preds, source, destination).contains(hop));
                        assert(route.hop == hop);
                        assert(successors.successors(source)[route.interface as int].0 == hop);
                    }
                }
            }
            None
        },
    }
}

/// A first hop is a neighbour of the source: some edge of the source leads
/// to it.
pub proof fn lemma_first_hop_is_neighbour(
    g: &Vec<Vec<(usize, i32)>>,
    source: usize,
    preds: Map<usize, Seq<usize>>,
    destination: usize,
    hop: usize,
) -> (i: int)
    requires
        is_shortest_path_dag(g, source, preds),
        destination != source,
        first_hops(preds, source, destination).contains(hop),
    ensures
        0 <= i < g.successors(source).len(),
        g.successors(source)[i].0 == hop,
{
    assert(is_first_hop(preds, source, destination, hop));
    let chain = choose|chain: Seq<usize>| #[trigger]
        is_back_chain(preds, source, chain) && chain.first() == destination && chain.last() == hop;
    assert(chain[chain.len() - 1] != source);
    law_predecessors_exact(g, source, preds, hop, source)
}

/// In the shortest-path DAG of `source` every node that can be reached,
/// other than `source`, has a line in the table.
pub proof fn lemma_route_exists(
    g: &Vec<Vec<(usize, i32)>>,
    source: usize,
    preds: Map<usize, Seq<usize>>,
    destination: usize,
) -> (route: Route)
    requires
        is_shortest_path_dag(g, source, preds),
        destination != source,
        reachable(g, source, destination),
    ensures
        route.destination == destination,
        is_route(g.successors(source), preds, source, route),
{
    law_first_hop_exists_iff_reachable(g, source, preds, destination);
    let hops = first_hops(preds, source, destination);
    let some = choose|x: usize| hops.contains(x);
    let hop = least_member(hops, some);
    let i = lemma_first_hop_is_neighbour(g, source, preds, destination, hop);
    let first = first_position(g.successors(source), hop, i);
    assert(g@[source as int].len() == g.successors(source).len());
    let route = Route { destination, hop, interface: first as usize };
    assert(route.interface as int == first);
    route
}

/// A set of identifiers that holds `some` has a least member.
pub proof fn least_member(set: Set<usize>, some: usize) -> (m: usize)
    requires
        set.contains(some),
    ensures
        set.contains(m),
        forall|h: usize| #[trigger] set.contains(h) ==> m <= h,
    decreases some,
{
    if forall|h: usize| #[trigger] set.contains(h) ==> some <= h {
        some
    } else {
        let smaller = choose|h: usize| #[trigger] set.contains(h) && h < some;
        least_member(set, smaller)
    }
}

/// Where some edge leads to `hop`, a first one does.
pub proof fn first_position(edges: Seq<(usize, i32)>, hop: usize, i: int) -> (first: int)
    requires
        0 <= i < edges.len(),
        edges[i].0 == hop,
    ensures
        is_interface(edges, hop, first),
        first <= i,
    decreases i,
{
    if forall|j: int| 0 <= j < i ==> (#[trigger] edges[j]).0 != hop {
        i
    } else {
        let j = choose|j: int| 0 <= j < i && (#[trigger] edges[j]).0 == hop;
        first_position(edges, hop, j)
    }
}

/// `routes` is the part of the table of `source` for the destinations below
/// `upto`.
#[verifier::opaque]
pub open spec fn is_table_upto(
    g: &Vec<Vec<(usize, i32)>>,
    source: usize,
    preds: Map<usize, Seq<usize>>,
    routes: Seq<Route>,
    upto: int,
) -> bool {
    &&& forall|i: int|
        0 <= i < routes.len() ==> (#[trigger] routes[i]).destination < upto && is_route(
            g.successors(source),
            preds,
            source,
            routes[i],
        )
    &&& forall|i: int, j: int|
        0 <= i < j < routes.len() ==> (#[trigger] routes[i]).destination < (
        #[trigger] routes[j]).destination
    &&& forall|d: usize|
        d < upto && d != source && #[trigger] reachable(g, source, d) ==> exists|i: int|
            0 <= i < routes.len() && (#[trigger] routes[i]).destination == d
}

/// The empty list is the part of the table below destination zero.
pub proof fn lemma_table_start(
    g: &Vec<Vec<(usize, i32)>>,
    source: usize,
    preds: Map<usize, Seq<usize>>,
)
    ensures
        is_table_upto(g, source, preds, Seq::<Route>::empty(), 0),
{
    reveal(is_table_upto);
}

/// The line for the next destination extends the table by that destination.
pub proof fn lemma_table_add(
    g: &Vec<Vec<(usize, i32)>>,
    source: usize,
    preds: Map<usize, Seq<usize>>,
    routes: Seq<Route>,
    route: Route,
)
    requires
        is_table_upto(g, source, preds, routes, route.destination as int),
        is_route(g.successors(source), preds, source, route),
    ensures
        is_table_upto(g, source, preds, routes.push(route), route.destination + 1),
{
    reveal(is_table_upto);
    let longer = routes.push(route);
    assert forall|d: usize|
        d < route.destination + 1 && d != source && #[trigger] reachable(
            g,
            source,
            d,
        ) implies exists|i: int|
        0 <= i < longer.len() && (#[trigger] longer[i]).destination == d by {
        if d < route.destination {
            let i = choose|i: int| 0 <= i < routes.len() && (#[trigger] routes[i]).destination == d;
            assert(longer[i].destination == d);
        } else {
            assert(longer[routes.len() as int].destination == d);
        }
    }
}

/// Where the next destination has no line, the table so far covers it too.
pub proof fn lemma_table_skip(
    g: &Vec<Vec<(usize, i32)>>,
    source: usize,
    preds: Map<usize, Seq<usize>>,
    routes: Seq<Route>,
    d: usize,
)
    requires
        is_shortest_path_dag(g, source, preds),
        is_table_upto(g, source, preds, routes, d as int),
        forall|route: Route|
            route.destination == d ==> !#[trigger] is_route(
                g.successors(source),
                preds,
                source,
                route,
            ),
    ensures
        is_table_upto(g, source, preds, routes, d + 1),
{
    reveal(is_table_upto);
    if d != source && reachable(g, source, d) {
        let route = lemma_route_exists(g, source, preds, d);
    }
}

/// The part of the table below the number of nodes is the whole table.
pub proof fn lemma_table_whole(
    g: &Vec<Vec<(usize, i32)>>,
    source: usize,
    preds: Map<usize, Seq<usize>>,
    routes: Seq<Route>,
)
    requires
        well_formed(g, source),
        is_table_upto(g, source, preds, routes, g@.len() as int),
    ensures
        is_unicast_table(g, source, preds, routes),
{
    reveal(is_table_upto);
    assert forall|d: usize| d != source && #[trigger] reachable(g, source, d) implies d
        < g@.len() by {
        lemma_reachable_is_node(g, source, d);
    }
}

/// The unicast table of `source`, or `None` when the graph is not one that
/// the engine can work on.
pub fn unicast_routes(successors: &Vec<Vec<(usize, i32)>>, source: usize) -> (out: Option<
    Vec<Route>,
>)
    ensures
        out.is_some() == well_formed(successors, source),
        out.is_some() ==> exists|preds: Map<usize, Seq<usize>>|
            is_shortest_path_dag(successors, source, preds) && #[trigger] is_unicast_table(
                successors,
                source,
                preds,
                out.unwrap()@,
            ),
{
    let predecessors = match dijkstra(successors, &source) {
        Some(predecessors) => predecessors,
        None => return None,
    };
    let ghost preds = preds_of(predecessors);
    let mut routes: Vec<Route> = Vec::new();
    let mut d: usize = 0;
    proof {
        lemma_table_start(successors, source, preds);
    }
    while d < successors.len()
        invariant
            d <= successors@.len(),
            preds == preds_of(predecessors),
            is_shortest_path_dag(successors, source, preds),
            is_table_upto(successors, source, preds, routes@, d as int),
        decreases successors@.len() - d,
    {
        match route_to(successors, &predecessors, source, d) {
            Some(route) => {
                proof {
                    lemma_table_add(successors, source, preds, routes@, route);
                }
                routes.push(route);
            },
            None => {
                proof {
                    lemma_table_skip(successors, source, preds, routes@, d);
                }
            },
        }
        d += 1;
    }
    proof {
        lemma_table_whole(successors, source, preds, routes@);
    }
    let out = Some(routes);
    assert(is_unicast_table(successors, source, preds, out.unwrap()@));
    out
}

/// One line of the multicast table of a source: a packet that `node`
/// receives on `in_interface` is copied to each of `out_interfaces`.
/// `in_interface` is `None` when no edge of `node` leads to the node it
/// receives from.
#[derive(Debug)]
pub struct Replication {
    pub node: usize,
    pub in_interface: Option<usize>,
    pub out_interfaces: Vec<usize>,
}

/// `i` is the interface of `edges` that leads to one of `children`.
pub open spec fn is_fan_interface(edges: Seq<(usize, i32)>, children: Set<usize>, i: int) -> bool {
    0 <= i < edges.len() && children.contains(edges[i].0) && is_interface(edges, edges[i].0, i)
}

/// `list` holds, in rising order, the interfaces among the first `upto` of
/// `edges` that lead to `children`.
pub open spec fn is_fan_upto(
    edges: Seq<(usize, i32)>,
    children: Set<usize>,
    list: Seq<usize>,
    upto: int,
) -> bool {
    &&& forall|a: int, b: int| 0 <= a < b < list.len() ==> list[a] < list[b]
    &&& forall|k: int|
        0 <= k < list.len() ==> (#[trigger] list[k]) < upto && is_fan_interface(
            edges,
            children,
            list[k] as int,
        )
    &&& forall|i: int|
        0 <= i < upto && #[trigger] is_fan_interface(edges, children, i) ==> exists|k: int|
            0 <= k < list.len() && list[k] == i
}

/// `line` is the line of `node` in a multicast table: `node` has children
/// and a first predecessor, receives on the interface that leads to that
/// predecessor, and sends on the interfaces that lead to its children, each
/// once and in rising order.
pub open spec fn is_replication(
    edges: Seq<(usize, i32)>,
    preds: Map<usize, Seq<usize>>,
    node: usize,
    line: Replication,
) -> bool {
    &&& line.node == node
    &&& has_replication(preds, node)
    &&& match line.in_interface {
        Some(i) => is_interface(edges, preds[node][0], i as int),
        None => forall|j: int| 0 <= j < edges.len() ==> (#[trigger] edges[j]).0 != preds[node][0],
    }
    &&& is_fan_upto(edges, children_of(preds, node), line.out_interfaces@, edges.len() as int)
}

/// `node` has a line in the multicast table: it has a predecessor and a
/// child.
pub open spec fn has_replication(preds: Map<usize, Seq<usize>>, node: usize) -> bool {
    &&& preds.contains_key(node)
    &&& preds[node].len() > 0
    &&& exists|c: usize| children_of(preds, node).contains(c)
}

/// The line of `node` in the multicast table that `predecessors` gives, or
/// `None` when `node` is not a node of the graph or has no line.
pub fn replication_at(
    successors: &Vec<Vec<(usize, i32)>>,
    predecessors: &HashMap<usize, Vec<usize>>,
    node: usize,
) -> (out: Option<Replication>)
    ensures
        out.is_some() == (node < successors@.len() && has_replication(
            preds_of(*predecessors),
            node,
        )),
        out.is_some() ==> is_replication(
            successors.successors(node),
            preds_of(*predecessors),
            node,
            out.unwrap(),
        ),
{
    broadcast use vstd::std_specs::hash::group_hash_axioms;

    let ghost preds = preds_of(*predecessors);
    if node >= successors.len() {
        return None;
    }
    let parents = match predecessors.get(&node) {
        Some(parents) => parents,
        None => return None,
    };
    if parents.len() == 0 {
        return None;
    }
    let children: HashSet<usize> = get_successors(predecessors, node);
    if children.is_empty() {
        assert forall|c: usize| !children_of(preds, node).contains(c) by {
            assert(!children@.contains(c));
        }
        return None;
    }
    proof {
        if forall|c: usize| !children@.contains(c) {
            assert(children@ =~= Set::<usize>::empty());
        }
    }
    let edges = &successors[node];
    let in_interface = interface_to(edges, parents[0]);
    let mut out_interfaces: Vec<usize> = Vec::new();
    let mut i: usize = 0;
    while i < edges.len()
        invariant
            i <= edges@.len(),
            children@ == children_of(preds, node),
            is_fan_upto(edges@, children@, out_interfaces@, i as int),
        decreases edges@.len() - i,
    {
        let target = edges[i].0;
        let ghost before = out_interfaces@;
        let is_first = match interface_to(edges, target) {
            Some(first) => first == i,
            None => false,
        };
        if is_first && children.contains(&target) {
            out_interfaces.push(i);
            proof {
                assert(is_fan_interface(edges@, children@, i as int));
                assert(out_interfaces@[before.len() as int] == i);
                assert forall|j: int|
                    0 <= j < i + 1 && #[trigger] is_fan_interface(
                        edges@,
                        children@,
                        j,
                    ) implies exists|k: int|
                    0 <= k < out_interfaces@.len() && out_interfaces@[k] == j by {
                    if j < i {
                        let k = choose|k: int| 0 <= k < before.len() && before[k] == j;
                        assert(out_interfaces@[k] == j);
                    }
                }
            }
        } else {
            proof {
                assert(!is_fan_interface(edges@, children@, i as int));
            }
        }
        i += 1;
    }
    Some(Replication { node, in_interface, out_interfaces })
}

/// `lines` is the part of the multicast table of `source` for the nodes
/// below `upto`: one line for each node other than `source` that has one, in
/// the order of the nodes.
pub open spec fn is_multicast_upto(
    g: &Vec<Vec<(usize, i32)>>,
    source: usize,
    preds: Map<usize, Seq<usize>>,
    lines: Seq<Replication>,
    upto: int,
) -> bool {
    &&& forall|k: int|
        0 <= k < lines.len() ==> {
            &&& (#[trigger] lines[k]).node != source
            &&& lines[k].node < upto
            &&& is_replication(g.successors(lines[k].node), preds, lines[k].node, lines[k])
        }
    &&& forall|a: int, b: int|
        0 <= a < b < lines.len() ==> (#[trigger] lines[a]).node < (#[trigger] lines[b]).node
    &&& forall|node: usize|
        node < upto && node != source && #[trigger] has_replication(preds, node) ==> exists|k: int|
            0 <= k < lines.len() && (#[trigger] lines[k]).node == node
}

/// `lines` is the multicast table of `source`.
pub open spec fn is_multicast_table(
    g: &Vec<Vec<(usize, i32)>>,
    source: usize,
    preds: Map<usize, Seq<usize>>,
    lines: Seq<Replication>,
) -> bool {
    is_multicast_upto(g, source, preds, lines, g@.len() as int)
}

/// The multicast table of `source`: the lines of the nodes other than
/// `source` that forward its traffic. `None` when the graph is not one that
/// the engine can work on.
pub fn multicast_routes(successors: &Vec<Vec<(usize, i32)>>, source: usize) -> (out: Option<
    Vec<Replication>,
>)
    ensures
        out.is_some() == well_formed(successors, source),
        out.is_some() ==> exists|preds: Map<usize, Seq<usize>>|
            is_shortest_path_dag(successors, source, preds) && #[trigger] is_multicast_table(
                successors,
                source,
                preds,
                out.unwrap()@,
            ),
{
    let predecessors = match dijkstra(successors, &source) {
        Some(predecessors) => predecessors,
        None => return None,
    };
    let ghost preds = preds_of(predecessors);
    let mut lines: Vec<Replication> = Vec::new();
    let mut node: usize = 0;
    while node < successors.len()
        invariant
            node <= successors@.len(),
            preds == preds_of(predecessors),
            is_multicast_upto(successors, source, preds, lines@, node as int),
        decreases successors@.len() - node,
    {
        let ghost before = lines@;
        let mut added = false;
        if node != source {
            match replication_at(successors, &predecessors, node) {
                Some(line) => {
                    lines.push(line);
                    added = true;
                },
                None => {},
            }
        }
        proof {
            if added {
                assert(lines@[before.len() as int].node == node);
            }
            assert forall|m: usize|
                m < node + 1 && m != source && #[trigger] has_replication(
                    preds,
                    m,
                ) implies exists|k: int|
                0 <= k < lines@.len() && (#[trigger] lines@[k]).node == m by {
                if m < node {
                    let k = choose|k: int| 0 <= k < before.len() && (#[trigger] before[k]).node == m;
                    assert(lines@[k].node == m);
                }
            }
        }
        node += 1;
    }
    let out = Some(lines);
    assert(is_multicast_table(successors, source, preds, out.unwrap()@));
    out
}

} // verus!
