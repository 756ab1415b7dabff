//! Weighted directed graphs over `usize` node identifiers, and the walks through them.

use vstd::prelude::*;

verus! {

/// A weighted directed graph whose nodes are identified by `usize` values.
///
/// The two spec functions are the mathematical model: which identifiers are
/// nodes, and the ordered list of `(neighbour, cost)` pairs leaving each node.
pub trait Graph {
    /// Whether `n` is a node of the graph.
    spec fn has_node(&self, n: usize) -> bool;

    /// The edges leaving `n`, in order, as `(neighbour, cost)` pairs.
    spec fn successors(&self, n: usize) -> Seq<(usize, i32)>;

    /// The edges leaving `from`, or `None` when `from` is not a node.
    fn get_successors(&self, from: &usize) -> (out: Option<Vec<(usize, i32)>>)
        ensures
            out.is_some() == self.has_node(*from),
            out.is_some() ==> out.unwrap()@ == self.successors(*from),
    ;
}

/// An adjacency list: node `i` is present when `i` indexes the outer vector,
/// and its edges are the entries of the inner vector at `i`.
impl Graph for Vec<Vec<(usize, i32)>> {
    open spec fn has_node(&self, n: usize) -> bool {
        n < self@.len()
    }

    open spec fn successors(&self, n: usize) -> Seq<(usize, i32)> {
        if n < self@.len() {
            self@[n as int]@
        } else {
            Seq::empty()
        }
    }

    fn get_successors(&self, from: &usize) -> (out: Option<Vec<(usize, i32)>>) {
        if *from >= self.len() {
            return None;
        }
        let row = &self[*from];
        let mut out: Vec<(usize, i32)> = Vec::new();
        let mut i: usize = 0;
        while i < row.len()
            invariant
                i <= row@.len(),
                out@ == row@.take(i as int),
            decreases row@.len() - i,
        {
            out.push(row[i]);
            assert(row@.take(i + 1) == row@.take(i as int).push(row@[i as int]));
            i += 1;
        }
        assert(row@.take(row@.len() as int) == row@);
        Some(out)
    }
}

} // verus!
