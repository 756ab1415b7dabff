//! The links of a topology: each pair of neighbours is one link, whichever
//! of the two lists the other, and is named after the edge at which it is
//! first met when the nodes and their edges are gone through in order.

use vstd::prelude::*;

verus! {

/// A link, named after the edge from `first` to `second`.
#[derive(Clone, Copy, Debug, PartialEq, Eq, Structural)]
pub struct Link {
    pub first: usize,
    pub second: usize,
}

/// The link connects `x` and `y`, in either direction.
pub open spec fn joins(link: Link, x: usize, y: usize) -> bool {
    (link.first == x && link.second == y) || (link.first == y && link.second == x)
}

/// Some link of the list connects `x` and `y`.
pub open spec fn is_linked(links: Seq<Link>, x: usize, y: usize) -> bool {
    exists|i: int| 0 <= i < links.len() && joins(#[trigger] links[i], x, y)
}

/// The links after the edge from `from` to `to` has been met: a new link is
/// added unless the two are linked already.
pub open spec fn with_link(links: Seq<Link>, from: usize, to: usize) -> Seq<Link> {
    if is_linked(links, from, to) {
        links
    } else {
        links.push(Link { first: from, second: to })
    }
}

/// The links after the first `upto` edges of node `node` have been met.
pub open spec fn links_of_edges(
    links: Seq<Link>,
    edges: Seq<(usize, i32)>,
    node: usize,
    upto: int,
) -> Seq<Link>
    decreases upto,
{
    if upto <= 0 {
        links
    } else {
        with_link(links_of_edges(links, edges, node, upto - 1), node, edges[upto - 1].0)
    }
}

/// The links after all edges of the first `upto` nodes have been met.
pub open spec fn links_of_nodes(graph: Seq<Vec<(usize, i32)>>, upto: int) -> Seq<Link>
    decreases upto,
{
    if upto <= 0 {
        Seq::<Link>::empty()
    } else {
        links_of_edges(
            links_of_nodes(graph, upto - 1),
            graph[upto - 1]@,
            (upto - 1) as usize,
            graph[upto - 1]@.len() as int,
        )
    }
}

/// The graph has an edge from `from` to `to`.
pub open spec fn is_edge(graph: Seq<Vec<(usize, i32)>>, from: usize, to: usize) -> bool {
    from < graph.len() && exists|k: int|
        0 <= k < graph[from as int]@.len() && (#[trigger] graph[from as int]@[k]).0 == to
}

/// Every link is named after an edge of the graph.
pub open spec fn links_are_edges(graph: Seq<Vec<(usize, i32)>>, links: Seq<Link>) -> bool {
    forall|i: int|
        0 <= i < links.len() ==> is_edge(graph, (#[trigger] links[i]).first, links[i].second)
}

/// No two links connect the same pair of nodes.
pub open spec fn links_are_distinct(links: Seq<Link>) -> bool {
    forall|i: int, j: int|
        0 <= i < j < links.len() ==> !joins(#[trigger] links[i], (#[trigger] links[j]).first, links[j].second)
}

/// The link that connects `x` and `y`: its place in the list, and whether
/// it is named after the edge from `x` to `y` rather than the one from `y`
/// to `x`. `None` when the two are not linked.
pub fn link_between(links: &Vec<Link>, x: usize, y: usize) -> (out: Option<(usize, bool)>)
    ensures
        match out {
            Some((at, forward)) => {
                &&& at < links@.len()
                &&& joins(links@[at as int], x, y)
                &&& forward == (links@[at as int].first == x)
                &&& forall|i: int| 0 <= i < at ==> !joins(#[trigger] links@[i], x, y)
            },
            None => !is_linked(links@, x, y),
        },
{
    let mut i: usize = 0;
    while i < links.len()
        invariant
            i <= links@.len(),
            forall|j: int| 0 <= j < i ==> !joins(#[trigger] links@[j], x, y),
        decreases links@.len() - i,
    {
        let link = links[i];
        if link.first == x && link.second == y {
            return Some((i, true));
        }
        if link.first == y && link.second == x {
            return Some((i, false));
        }
        i += 1;
    }
    None
}

/// The links of a graph, in the order in which they are first met.
///
/// Every link is named after an edge, every edge belongs to a link, and no
/// two links connect the same pair of nodes.
pub fn allocate_links(graph: &Vec<Vec<(usize, i32)>>) -> (out: Vec<Link>)
    ensures
        out@ == links_of_nodes(graph@, graph@.len() as int),
        links_are_edges(graph@, out@),
        links_are_distinct(out@),
        forall|i: int, k: int|
            0 <= i < graph@.len() && 0 <= k < graph@[i]@.len() ==> is_linked(
                out@,
                i as usize,
                (#[trigger] graph@[i]@[k]).0,
            ),
{
    let mut links: Vec<Link> = Vec::new();
    let mut i: usize = 0;
    while i < graph.len()
        invariant
            i <= graph@.len(),
            links@ == links_of_nodes(graph@, i as int),
            links_are_edges(graph@, links@),
            links_are_distinct(links@),
            forall|a: int, k: int|
                0 <= a < i && 0 <= k < graph@[a]@.len() ==> is_linked(
                    links@,
                    a as usize,
                    (#[trigger] graph@[a]@[k]).0,
                ),
        decreases graph@.len() - i,
    {
        let edges = &graph[i];
        let ghost base = links@;
        let mut k: usize = 0;
        while k < edges.len()
            invariant
                i < graph@.len(),
                edges@ == graph@[i as int]@,
                k <= edges@.len(),
                links@ == links_of_edges(base, edges@, i, k as int),
                links_are_edges(graph@, links@),
                links_are_distinct(links@),
                forall|a: int, b: int|
                    0 <= a < i && 0 <= b < graph@[a]@.len() ==> is_linked(
                        links@,
                        a as usize,
                        (#[trigger] graph@[a]@[b]).0,
                    ),
                forall|b: int|
                    0 <= b < k ==> is_linked(links@, i, (#[trigger] edges@[b]).0),
            decreases edges@.len() - k,
        {
            let to = edges[k].0;
            let ghost before = links@;
            if link_between(&links, i, to).is_none() {
                links.push(Link { first: i, second: to });
                proof {
                    let added = before.len() as int;
                    assert(links@[added] == Link { first: i, second: to });
                    assert(graph@[i as int]@[k as int].0 == to);
                    assert(is_edge(graph@, i, to));
                    assert forall|a: int| 0 <= a < links@.len() implies is_edge(
                        graph@,
                        (#[trigger] links@[a]).first,
                        links@[a].second,
                    ) by {
                        if a < added {
                            assert(links@[a] == before[a]);
                        }
                    }
                    assert forall|a: int, b: int| 0 <= a < b < links@.len() implies !joins(
                        #[trigger] links@[a],
                        (#[trigger] links@[b]).first,
                        links@[b].second,
                    ) by {
                        assert(links@[a] == before[a]);
                        if b < added {
                            assert(links@[b] == before[b]);
                        }
                    }
                }
            }
            proof {
                lemma_links_kept(before, links@);
                assert(is_linked(links@, i, to)) by {
                    if is_linked(before, i, to) {
                    } else {
                        assert(joins(links@[before.len() as int], i, to));
                    }
                }
                assert forall|a: int, b: int|
                    0 <= a < i && 0 <= b < graph@[a]@.len() implies is_linked(
                    links@,
                    a as usize,
                    (#[trigger] graph@[a]@[b]).0,
                ) by {
                    assert(is_linked(before, a as usize, graph@[a]@[b].0));
                }
                assert forall|b: int| 0 <= b < k + 1 implies is_linked(
                    links@,
                    i,
                    (#[trigger] edges@[b]).0,
                ) by {
                    if b < k {
                        assert(is_linked(before, i, edges@[b].0));
                    }
                }
            }
            k += 1;
        }
        i += 1;
    }
    links
}

/// What is linked stays linked when the list of links is extended.
pub proof fn lemma_links_kept(before: Seq<Link>, after: Seq<Link>)
    requires
        before.len() <= after.len(),
        forall|i: int| 0 <= i < before.len() ==> before[i] == after[i],
    ensures
        forall|x: usize, y: usize| #[trigger] is_linked(before, x, y) ==> is_linked(after, x, y),
{
    assert forall|x: usize, y: usize| #[trigger] is_linked(before, x, y) implies is_linked(
        after,
        x,
        y,
    ) by {
        let i = choose|i: int| 0 <= i < before.len() && joins(#[trigger] before[i], x, y);
        assert(joins(after[i], x, y));
    }
}

/// One end of a link, seen from the node at the other end.
#[derive(Clone, Copy, Debug, PartialEq, Eq, Structural)]
pub struct LinkEnd {
    /// The place of the link in the list of links.
    pub link: usize,
    /// The node at the far end.
    pub peer: usize,
    /// Whether the link is named after the edge from this node to the peer.
    pub forward: bool,
}

/// `end` is how the link at its place looks from `node`.
pub open spec fn is_end_of(links: Seq<Link>, node: usize, end: LinkEnd) -> bool {
    &&& end.link < links.len()
    &&& joins(links[end.link as int], node, end.peer)
    &&& end.forward == (links[end.link as int].first == node)
}

/// The links at `node`, in the order of the list: one entry for each link
/// that has `node` at one of its ends.
pub fn links_at(links: &Vec<Link>, node: usize) -> (out: Vec<LinkEnd>)
    ensures
        forall|k: int| 0 <= k < out@.len() ==> is_end_of(links@, node, #[trigger] out@[k]),
        forall|a: int, b: int|
            0 <= a < b < out@.len() ==> (#[trigger] out@[a]).link < (#[trigger] out@[b]).link,
        forall|i: int|
            0 <= i < links@.len() && ((#[trigger] links@[i]).first == node || links@[i].second
                == node) ==> exists|k: int| 0 <= k < out@.len() && (#[trigger] out@[k]).link == i,
{
    let mut out: Vec<LinkEnd> = Vec::new();
    let mut i: usize = 0;
    while i < links.len()
        invariant
            i <= links@.len(),
            forall|k: int|
                0 <= k < out@.len() ==> is_end_of(links@, node, #[trigger] out@[k]) && out@[k].link
                    < i,
            forall|a: int, b: int|
                0 <= a < b < out@.len() ==> (#[trigger] out@[a]).link < (#[trigger] out@[b]).link,
            forall|j: int|
                0 <= j < i && ((#[trigger] links@[j]).first == node || links@[j].second == node)
                    ==> exists|k: int| 0 <= k < out@.len() && (#[trigger] out@[k]).link == j,
        decreases links@.len() - i,
    {
        let link = links[i];
        let ghost before = out@;
        if link.first == node {
            out.push(LinkEnd { link: i, peer: link.second, forward: true });
        } else if link.second == node {
            out.push(LinkEnd { link: i, peer: link.first, forward: false });
        }
        proof {
            assert forall|j: int|
                0 <= j < i + 1 && ((#[trigger] links@[j]).first == node || links@[j].second
                    == node) implies exists|k: int|
                0 <= k < out@.len() && (#[trigger] out@[k]).link == j by {
                if j < i {
                    let k = choose|k: int| 0 <= k < before.len() && (#[trigger] before[k]).link == j;
                    assert(out@[k].link == j);
                } else {
                    assert(out@[before.len() as int].link == i);
                }
            }
        }
        i += 1;
    }
    out
}

} // verus!
