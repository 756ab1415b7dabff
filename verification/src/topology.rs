//! A topology under construction: named nodes, numbered in the order in
//! which their names first appear, and the links between them. A name is
//! kept as its bytes.

use vstd::prelude::*;
use crate::lines::{copy_bytes, same_bytes, link_of, parse_link};

verus! {

/// A node of the topology: its number, its name and the edges that leave it.
pub struct Node {
    pub id: usize,
    pub name: Vec<u8>,
    pub neighbours: Vec<(usize, i32)>,
}

/// The names after `name` has been looked up and, if it was new, added; and
/// the number that `name` has then.
pub open spec fn interned(names: Seq<Seq<u8>>, name: Seq<u8>) -> (Seq<Seq<u8>>, int) {
    if names.contains(name) {
        (names, names.index_of(name))
    } else {
        (names.push(name), names.len() as int)
    }
}

/// The edge lists, with empty lists added up to `len` nodes.
pub open spec fn padded(links: Seq<Seq<(usize, i32)>>, len: int) -> Seq<Seq<(usize, i32)>> {
    Seq::new(
        (if len > links.len() {
            len as nat
        } else {
            links.len()
        }),
        |i: int|
            if i < links.len() {
                links[i]
            } else {
                Seq::<(usize, i32)>::empty()
            },
    )
}

/// The edge lists after an edge to `to` at cost `metric` has been added to
/// the list of `from`.
pub open spec fn with_edge(links: Seq<Seq<(usize, i32)>>, from: int, to: int, metric: i32) -> Seq<
    Seq<(usize, i32)>,
> {
    links.update(from, links[from].push((to as usize, metric)))
}

/// The names and edge lists after a link between the nodes named `a` and
/// `b` has been added: both names are looked up or added, in this order,
/// and each node gets an edge to the other.
pub open spec fn linked(
    names: Seq<Seq<u8>>,
    links: Seq<Seq<(usize, i32)>>,
    a: Seq<u8>,
    b: Seq<u8>,
    metric: i32,
) -> (Seq<Seq<u8>>, Seq<Seq<(usize, i32)>>) {
    let (with_a, a_id) = interned(names, a);
    let (with_b, b_id) = interned(with_a, b);
    (
        with_b,
        with_edge(
            with_edge(padded(links, with_b.len() as int), a_id, b_id, metric),
            b_id,
            a_id,
            metric,
        ),
    )
}

/// The names of `nodes`, in order.
pub open spec fn names_of(nodes: Seq<Node>) -> Seq<Seq<u8>> {
    Seq::new(nodes.len(), |i: int| nodes[i].name@)
}

/// The edge lists of `nodes`, in order.
pub open spec fn links_of(nodes: Seq<Node>) -> Seq<Seq<(usize, i32)>> {
    Seq::new(nodes.len(), |i: int| nodes[i].neighbours@)
}

/// Each node has its position as its number, no name occurs twice, and
/// every edge enters a node that is there.
pub open spec fn nodes_ok(nodes: Seq<Node>) -> bool {
    &&& forall|i: int| 0 <= i < nodes.len() ==> (#[trigger] nodes[i]).id == i
    &&& names_of(nodes).no_duplicates()
    &&& forall|i: int, k: int|
        0 <= i < nodes.len() && 0 <= k < nodes[i].neighbours@.len() ==> (
        #[trigger] nodes[i].neighbours@[k]).0 < nodes.len()
}

/// The number of the node named `name` among `nodes`, if there is one.
fn find(nodes: &Vec<Node>, name: &[u8]) -> (out: Option<usize>)
    ensures
        match out {
            Some(id) => id < nodes@.len() && names_of(nodes@)[id as int] == name@ && forall|j: int|
                0 <= j < id ==> names_of(nodes@)[j] != name@,
            None => !names_of(nodes@).contains(name@),
        },
{
    let mut i: usize = 0;
    while i < nodes.len()
        invariant
            i <= nodes@.len(),
            forall|j: int| 0 <= j < i ==> names_of(nodes@)[j] != name@,
        decreases nodes@.len() - i,
    {
        if same_bytes(nodes[i].name.as_slice(), name) {
            return Some(i);
        }
        i += 1;
    }
    None
}

/// Looks `name` up among `nodes` and adds a node for it if it is new.
fn find_or_add(nodes: &mut Vec<Node>, name: Vec<u8>) -> (id: usize)
    requires
        nodes_ok(old(nodes)@),
    ensures
        nodes_ok(final(nodes)@),
        names_of(final(nodes)@) == interned(names_of(old(nodes)@), name@).0,
        id == interned(names_of(old(nodes)@), name@).1,
        id < final(nodes)@.len(),
        final(nodes)@.len() >= old(nodes)@.len(),
        links_of(final(nodes)@) == padded(links_of(old(nodes)@), final(nodes)@.len() as int),
{
    let ghost names = names_of(nodes@);
    match find(nodes, name.as_slice()) {
        Some(id) => {
            proof {
                assert(names.contains(name@));
                let k = names.index_of(name@);
                assert(names[k] == name@);
                assert(k == id);
                assert(links_of(nodes@) =~= padded(links_of(nodes@), nodes@.len() as int));
            }
            id
        },
        None => {
            let id = nodes.len();
            nodes.push(Node { id, name, neighbours: Vec::new() });
            proof {
                assert(names_of(nodes@) =~= names.push(name@));
                assert(links_of(nodes@) =~= padded(links_of(old(nodes)@), nodes@.len() as int));
                assert forall|i: int, j: int|
                    0 <= i < names_of(nodes@).len() && 0 <= j < names_of(nodes@).len() && i
                        != j implies names_of(nodes@)[i] != names_of(nodes@)[j] by {
                    if i < names.len() && j < names.len() {
                        assert(names[i] != names[j]);
                    } else if i < names.len() {
                        assert(names[i] != name@);
                    } else {
                        assert(names[j] != name@);
                    }
                }
                assert forall|i: int, k: int|
                    0 <= i < nodes@.len() && 0 <= k < nodes@[i].neighbours@.len() implies (
                #[trigger] nodes@[i].neighbours@[k]).0 < nodes@.len() by {
                    assert(i < old(nodes)@.len());
                    assert(old(nodes)@[i].neighbours@[k].0 < old(nodes)@.len());
                }
            }
            id
        },
    }
}

/// Adds an edge from node `from` to node `to`.
fn add_edge(nodes: &mut Vec<Node>, from: usize, to: usize, metric: i32)
    requires
        nodes_ok(old(nodes)@),
        from < old(nodes)@.len(),
        to < old(nodes)@.len(),
    ensures
        nodes_ok(final(nodes)@),
        final(nodes)@.len() == old(nodes)@.len(),
        names_of(final(nodes)@) == names_of(old(nodes)@),
        links_of(final(nodes)@) == with_edge(links_of(old(nodes)@), from as int, to as int, metric),
{
    let mut list: Vec<(usize, i32)> = Vec::new();
    std::mem::swap(&mut list, &mut nodes[from].neighbours);
    list.push((to, metric));
    let ghost emptied = nodes@;
    std::mem::swap(&mut list, &mut nodes[from].neighbours);
    proof {
        assert(names_of(nodes@) =~= names_of(old(nodes)@));
        assert(links_of(nodes@) =~= with_edge(
            links_of(old(nodes)@),
            from as int,
            to as int,
            metric,
        ));
        assert forall|i: int, k: int|
            0 <= i < nodes@.len() && 0 <= k < nodes@[i].neighbours@.len() implies (
        #[trigger] nodes@[i].neighbours@[k]).0 < nodes@.len() by {
            if i == from && k == old(nodes)@[i].neighbours@.len() {
            } else {
                assert(old(nodes)@[i].neighbours@[k].0 < old(nodes)@.len());
            }
        }
    }
}

/// A topology: nodes named by strings and numbered from zero, and for each
/// node the list of edges that leave it.
pub struct Topology {
    nodes: Vec<Node>,
}

impl Topology {
    #[verifier::type_invariant]
    spec fn well_formed(self) -> bool {
        nodes_ok(self.nodes@)
    }

    /// The names of the nodes, by number.
    pub closed spec fn names(&self) -> Seq<Seq<u8>> {
        names_of(self.nodes@)
    }

    /// The edge lists of the nodes, by number.
    pub closed spec fn links(&self) -> Seq<Seq<(usize, i32)>> {
        links_of(self.nodes@)
    }

    /// A topology without nodes.
    pub fn new() -> (out: Self)
        ensures
            out.names() == Seq::<Seq<u8>>::empty(),
            out.links() == Seq::<Seq<(usize, i32)>>::empty(),
    {
        let out = Topology { nodes: Vec::new() };
        assert(out.names() =~= Seq::<Seq<u8>>::empty());
        assert(out.links() =~= Seq::<Seq<(usize, i32)>>::empty());
        out
    }

    /// The number of nodes. No two of them have the same name.
    pub fn len(&self) -> (out: usize)
        ensures
            out == self.names().len(),
            out == self.links().len(),
            self.names().no_duplicates(),
    {
        proof {
            use_type_invariant(self);
        }
        self.nodes.len()
    }

    /// The number of the node named `name`, if there is one.
    pub fn node_id(&self, name: &[u8]) -> (out: Option<usize>)
        ensures
            match out {
                Some(id) => id < self.names().len() && self.names()[id as int] == name@,
                None => !self.names().contains(name@),
            },
            self.names().no_duplicates(),
    {
        proof {
            use_type_invariant(self);
        }
        find(&self.nodes, name)
    }

    /// Adds a link at cost `metric` between the nodes named `a` and `b`.
    /// A name that is new gets the next number, `a` before `b`; each of the
    /// two nodes gets an edge to the other.
    pub fn add_link(&mut self, a: Vec<u8>, b: Vec<u8>, metric: i32)
        ensures
            final(self).names() == linked(old(self).names(), old(self).links(), a@, b@, metric).0,
            final(self).links() == linked(old(self).names(), old(self).links(), a@, b@, metric).1,
    {
        proof {
            use_type_invariant(&*self);
        }
        let mut nodes: Vec<Node> = Vec::new();
        std::mem::swap(&mut nodes, &mut self.nodes);
        let ghost links = links_of(nodes@);
        let a_id = find_or_add(&mut nodes, a);
        let ghost with_a = nodes@;
        let b_id = find_or_add(&mut nodes, b);
        proof {
            assert(links_of(nodes@) =~= padded(links, nodes@.len() as int));
        }
        add_edge(&mut nodes, a_id, b_id, metric);
        add_edge(&mut nodes, b_id, a_id, metric);
        self.nodes = nodes;
    }

    /// Adds the link that a line of a topology file describes. Returns
    /// whether the line describes one; if not, nothing is added.
    pub fn add_line(&mut self, line: &[u8]) -> (out: bool)
        ensures
            out == link_of(line@).is_some(),
            match link_of(line@) {
                Some((a, b, metric)) => {
                    &&& final(self).names() == linked(
                        old(self).names(),
                        old(self).links(),
                        a,
                        b,
                        metric,
                    ).0
                    &&& final(self).links() == linked(
                        old(self).names(),
                        old(self).links(),
                        a,
                        b,
                        metric,
                    ).1
                },
                None => final(self).names() == old(self).names() && final(self).links() == old(
                    self,
                ).links(),
            },
    {
        match parse_link(line) {
            Some((a, b, metric)) => {
                self.add_link(a, b, metric);
                true
            },
            None => false,
        }
    }

    /// The edge lists of the nodes, by number: the graph that the
    /// shortest-path engine works on. Every edge in it enters one of its
    /// nodes.
    pub fn get_neighbours(&self) -> (out: Vec<Vec<(usize, i32)>>)
        ensures
            out@.len() == self.links().len(),
            forall|i: int| 0 <= i < out@.len() ==> (#[trigger] out@[i])@ == self.links()[i],
            forall|i: int, k: int|
                0 <= i < out@.len() && 0 <= k < out@[i]@.len() ==> (#[trigger] out@[i]@[k]).0
                    < out@.len(),
    {
        proof {
            use_type_invariant(self);
        }
        let mut out: Vec<Vec<(usize, i32)>> = Vec::new();
        let mut i: usize = 0;
        while i < self.nodes.len()
            invariant
                i <= self.nodes@.len(),
                out@.len() == i,
                forall|j: int| 0 <= j < i ==> (#[trigger] out@[j])@ == self.nodes@[j].neighbours@,
            decreases self.nodes@.len() - i,
        {
            let list = &self.nodes[i].neighbours;
            let mut copy: Vec<(usize, i32)> = Vec::new();
            let mut k: usize = 0;
            while k < list.len()
                invariant
                    k <= list@.len(),
                    copy@ == list@.take(k as int),
                decreases list@.len() - k,
            {
                copy.push(list[k]);
                assert(list@.take(k + 1) == list@.take(k as int).push(list@[k as int]));
                k += 1;
            }
            assert(list@.take(list@.len() as int) == list@);
            out.push(copy);
            i += 1;
        }
        proof {
            assert forall|i: int, k: int|
                0 <= i < out@.len() && 0 <= k < out@[i]@.len() implies (#[trigger] out@[i]@[k]).0
                < out@.len() by {
                assert(out@[i]@ == self.nodes@[i].neighbours@);
                assert(self.nodes@[i].neighbours@[k].0 < self.nodes@.len());
            }
        }
        out
    }
}

/// Why a list of multicast sources is refused.
#[derive(Clone, Copy, Debug, PartialEq, Eq, Structural)]
pub enum Error {
    /// A source names a node that the topology does not have.
    MissingNone,
    /// More than one multicast address is listed.
    TooManyMcAddrs,
}

/// Every name in `entries` is the name of a node.
pub open spec fn all_named(names: Seq<Seq<u8>>, entries: Seq<(Vec<u8>, Vec<u8>)>) -> bool {
    forall|i: int| 0 <= i < entries.len() ==> names.contains((#[trigger] entries[i]).0@)
}

/// The multicast sources that `entries` list, each a node name and an
/// address: the number of each node with its address.
///
/// A name that is not a node's is refused first; otherwise more than one
/// entry is refused.
pub fn multicast_sources(topology: &Topology, entries: &Vec<(Vec<u8>, Vec<u8>)>) -> (out: Result<
    Vec<(usize, Vec<u8>)>,
    Error,
>)
    ensures
        match out {
            Ok(sources) => {
                &&& all_named(topology.names(), entries@)
                &&& entries@.len() <= 1
                &&& sources@.len() == entries@.len()
                &&& forall|i: int|
                    0 <= i < sources@.len() ==> {
                        &&& (#[trigger] sources@[i]).0 < topology.names().len()
                        &&& topology.names()[sources@[i].0 as int] == entries@[i].0@
                        &&& sources@[i].1@ == entries@[i].1@
                    }
            },
            Err(Error::MissingNone) => !all_named(topology.names(), entries@),
            Err(Error::TooManyMcAddrs) => all_named(topology.names(), entries@) && entries@.len()
                > 1,
        },
{
    let mut sources: Vec<(usize, Vec<u8>)> = Vec::new();
    let mut i: usize = 0;
    while i < entries.len()
        invariant
            i <= entries@.len(),
            sources@.len() == i,
            forall|j: int| 0 <= j < i ==> topology.names().contains((#[trigger] entries@[j]).0@),
            forall|j: int|
                0 <= j < i ==> {
                    &&& (#[trigger] sources@[j]).0 < topology.names().len()
                    &&& topology.names()[sources@[j].0 as int] == entries@[j].0@
                    &&& sources@[j].1@ == entries@[j].1@
                },
        decreases entries@.len() - i,
    {
        let id = match topology.node_id(entries[i].0.as_slice()) {
            Some(id) => id,
            None => {
                return Err(Error::MissingNone);
            },
        };
        let address = copy_bytes(entries[i].1.as_slice());
        sources.push((id, address));
        i += 1;
    }
    if sources.len() > 1 {
        return Err(Error::TooManyMcAddrs);
    }
    Ok(sources)
}

} // verus!
