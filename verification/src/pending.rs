//! The pending structure of the shortest-path engine: a bag of candidate
//! arrivals from which the cheapest is taken first. It is a binary min-heap
//! laid out in a vector.

use vstd::prelude::*;
use vstd::multiset::Multiset;
use vstd::seq_lib::{
    to_multiset_build, to_multiset_remove, to_multiset_update, to_multiset_len,
    to_multiset_contains,
};

verus! {

/// A way to arrive at `node`: over an edge that leaves `from`, at a cumulative
/// cost of `cost`.
#[derive(Clone, Copy, Debug)]
pub struct Candidate {
    pub cost: u128,
    pub node: usize,
    pub from: usize,
}

/// The candidate at `below`, if there is one, is not cheaper than the one at
/// `above`.
pub open spec fn in_order(items: Seq<Candidate>, above: int, below: int) -> bool {
    0 <= above < below < items.len() ==> items[above].cost <= items[below].cost
}

/// The two places just below place `i` are `2 * i + 1` and `2 * i + 2`.
/// Neither holds a cheaper candidate than place `i`; the place `skip` is not
/// looked at.
pub open spec fn above_its_two(items: Seq<Candidate>, i: int, skip: int) -> bool {
    &&& 2 * i + 1 != skip ==> in_order(items, i, 2 * i + 1)
    &&& 2 * i + 2 != skip ==> in_order(items, i, 2 * i + 2)
}

/// No candidate is cheaper than the one above it; except that the one at
/// `skip_up` may be cheaper than the one above it, and those just below
/// `skip_down` may be cheaper than the one at `skip_down`.
pub open spec fn ordered_but(items: Seq<Candidate>, skip_up: int, skip_down: int) -> bool {
    forall|i: int|
        0 <= i < items.len() && i != skip_down ==> #[trigger] above_its_two(items, i, skip_up)
}

/// No candidate is cheaper than the one above it.
pub open spec fn heap_ordered(items: Seq<Candidate>) -> bool {
    ordered_but(items, -1, -1)
}

/// Neither of the two places just below `i` holds a cheaper candidate than
/// place `up`.
pub open spec fn above_the_next_two(items: Seq<Candidate>, up: int, i: int) -> bool {
    &&& in_order(items, up, 2 * i + 1)
    &&& in_order(items, up, 2 * i + 2)
}

/// Those just below `i` are not cheaper than the one above `i`.
pub open spec fn bridged(items: Seq<Candidate>, i: int) -> bool {
    forall|up: int|
        0 <= up && (i == 2 * up + 1 || i == 2 * up + 2) ==> #[trigger] above_the_next_two(
            items,
            up,
            i,
        )
}

/// In an ordered heap nothing is cheaper than the candidate on top.
pub proof fn lemma_top_is_least(items: Seq<Candidate>, i: int)
    requires
        heap_ordered(items),
        0 <= i < items.len(),
    ensures
        items[0].cost <= items[i].cost,
    decreases i,
{
    if i > 0 {
        let up = (i - 1) / 2;
        lemma_top_is_least(items, up);
        assert(above_its_two(items, up, -1));
    }
}

/// Exchanging two candidates keeps the bag.
pub proof fn lemma_exchange_keeps_bag(items: Seq<Candidate>, i: int, j: int)
    requires
        0 <= i < items.len(),
        0 <= j < items.len(),
    ensures
        items.update(i, items[j]).update(j, items[i]).to_multiset() == items.to_multiset(),
{
    broadcast use vstd::multiset::group_multiset_axioms;

    let once = items.update(i, items[j]);
    to_multiset_update(items, i, items[j]);
    to_multiset_update(once, j, items[i]);
    to_multiset_contains(items, items[i]);
    to_multiset_contains(items, items[j]);
    assert(items.contains(items[i]));
    assert(items.contains(items[j]));
    assert(once.update(j, items[i]).to_multiset() =~= items.to_multiset());
}

/// Exchanges the candidates at `i` and `j`.
fn exchange(items: &mut Vec<Candidate>, i: usize, j: usize)
    requires
        i < old(items)@.len(),
        j < old(items)@.len(),
    ensures
        final(items)@ == old(items)@.update(i as int, old(items)@[j as int]).update(
            j as int,
            old(items)@[i as int],
        ),
        final(items)@.to_multiset() == old(items)@.to_multiset(),
{
    let a = items[i];
    let b = items[j];
    items.set(i, b);
    items.set(j, a);
    proof {
        lemma_exchange_keeps_bag(old(items)@, i as int, j as int);
    }
}

/// After the candidate at `below` has changed places with a dearer one just
/// above it, the heap is out of order at most above that place.
pub proof fn lemma_risen(before: Seq<Candidate>, after: Seq<Candidate>, above: int, below: int)
    requires
        0 <= above < below < before.len(),
        below == 2 * above + 1 || below == 2 * above + 2,
        ordered_but(before, below, -1),
        bridged(before, below),
        before[above].cost > before[below].cost,
        after == before.update(below, before[above]).update(above, before[below]),
    ensures
        ordered_but(after, above, -1),
        bridged(after, above),
{
    assert forall|i: int| 0 <= i < after.len() implies #[trigger] above_its_two(
        after,
        i,
        above,
    ) by {
        assert(above_its_two(before, i, below));
        if i == below {
            assert(above_the_next_two(before, above, below));
        }
    }
    assert forall|up: int|
        0 <= up && (above == 2 * up + 1 || above == 2 * up + 2) implies #[trigger] above_the_next_two(
        after,
        up,
        above,
    ) by {
        assert(above_its_two(before, up, below));
        assert(above_its_two(before, above, below));
    }
}

/// Lets the candidate at `at` rise until the one above it is not dearer.
fn sift_up(items: &mut Vec<Candidate>, at: usize)
    requires
        at < old(items)@.len(),
        ordered_but(old(items)@, at as int, -1),
        bridged(old(items)@, at as int),
    ensures
        heap_ordered(final(items)@),
        final(items)@.to_multiset() == old(items)@.to_multiset(),
{
    let mut i: usize = at;
    while i > 0 && items[(i - 1) / 2].cost > items[i].cost
        invariant
            i < items@.len(),
            ordered_but(items@, i as int, -1),
            bridged(items@, i as int),
            items@.to_multiset() == old(items)@.to_multiset(),
        decreases i,
    {
        let up: usize = (i - 1) / 2;
        let ghost before = items@;
        exchange(items, i, up);
        proof {
            lemma_risen(before, items@, up as int, i as int);
        }
        i = up;
    }
    assert forall|k: int| 0 <= k < items@.len() implies #[trigger] above_its_two(
        items@,
        k,
        -1,
    ) by {
        assert(above_its_two(items@, k, i as int));
    }
}

/// After the candidate at `above` has changed places with the cheaper one
/// of those just below it, the heap is out of order at most below that place.
pub proof fn lemma_sunk(before: Seq<Candidate>, after: Seq<Candidate>, above: int, below: int)
    requires
        0 <= above < below < before.len(),
        below == 2 * above + 1 || below == 2 * above + 2,
        ordered_but(before, -1, above),
        bridged(before, above),
        before[below].cost < before[above].cost,
        2 * above + 1 < before.len() ==> before[below].cost <= before[2 * above + 1].cost,
        2 * above + 2 < before.len() ==> before[below].cost <= before[2 * above + 2].cost,
        after == before.update(above, before[below]).update(below, before[above]),
    ensures
        ordered_but(after, -1, below),
        bridged(after, below),
{
    assert forall|i: int| 0 <= i < after.len() && i != below implies #[trigger] above_its_two(
        after,
        i,
        -1,
    ) by {
        if i != above {
            assert(above_its_two(before, i, -1));
            if 2 * i + 1 == above || 2 * i + 2 == above {
                assert(above_the_next_two(before, i, above));
            }
        }
    }
    assert forall|up: int|
        0 <= up && (below == 2 * up + 1 || below == 2 * up + 2) implies #[trigger] above_the_next_two(
        after,
        up,
        below,
    ) by {
        assert(up == above);
        assert(above_its_two(before, below, -1));
    }
}

/// Lets the candidate at `at` sink until neither of those just below it is
/// cheaper.
fn sift_down(items: &mut Vec<Candidate>, at: usize)
    requires
        at < old(items)@.len(),
        ordered_but(old(items)@, -1, at as int),
        bridged(old(items)@, at as int),
    ensures
        heap_ordered(final(items)@),
        final(items)@.to_multiset() == old(items)@.to_multiset(),
{
    let n = items.len();
    let mut i: usize = at;
    let mut settled = false;
    while !settled && i < n / 2
        invariant
            n == items@.len(),
            i < n,
            ordered_but(items@, -1, i as int),
            bridged(items@, i as int),
            settled ==> heap_ordered(items@),
            items@.to_multiset() == old(items)@.to_multiset(),
        decreases n - i, if settled { 0int } else { 1int },
    {
        let left: usize = 2 * i + 1;
        let mut least: usize = left;
        if left + 1 < n && items[left + 1].cost < items[left].cost {
            least = left + 1;
        }
        if items[least].cost < items[i].cost {
            let ghost before = items@;
            exchange(items, i, least);
            proof {
                lemma_sunk(before, items@, i as int, least as int);
            }
            i = least;
        } else {
            settled = true;
            assert forall|k: int| 0 <= k < items@.len() implies #[trigger] above_its_two(
                items@,
                k,
                -1,
            ) by {
                if k != i {
                    assert(above_its_two(items@, k, -1));
                }
            }
        }
    }
    assert forall|k: int| 0 <= k < items@.len() implies #[trigger] above_its_two(items@, k, -1) by {
        if k != i {
            assert(above_its_two(items@, k, -1));
        }
    }
}

/// A bag of candidates. Its view is the multiset of what it holds.
pub struct Pending {
    items: Vec<Candidate>,
}

impl View for Pending {
    type V = Multiset<Candidate>;

    closed spec fn view(&self) -> Multiset<Candidate> {
        self.items@.to_multiset()
    }
}

impl Pending {
    #[verifier::type_invariant]
    spec fn ordered(self) -> bool {
        heap_ordered(self.items@)
    }

    /// An empty bag.
    pub fn new() -> (out: Self)
        ensures
            out@ == Multiset::<Candidate>::empty(),
    {
        let out = Pending { items: Vec::new() };
        proof {
            to_multiset_len(out.items@);
            vstd::multiset::lemma_multiset_empty_len(out.items@.to_multiset());
        }
        out
    }

    /// Whether the bag holds nothing.
    pub fn is_empty(&self) -> (out: bool)
        ensures
            out == (self@.len() == 0),
    {
        proof {
            to_multiset_len(self.items@);
        }
        self.items.len() == 0
    }

    /// Adds one candidate.
    pub fn push(&mut self, candidate: Candidate)
        ensures
            final(self)@ == old(self)@.insert(candidate),
    {
        proof {
            use_type_invariant(&*self);
            to_multiset_build(self.items@, candidate);
        }
        let mut items: Vec<Candidate> = Vec::new();
        std::mem::swap(&mut items, &mut self.items);
        let at = items.len();
        items.push(candidate);
        assert(ordered_but(items@, at as int, -1)) by {
            assert forall|i: int| 0 <= i < items@.len() implies #[trigger] above_its_two(
                items@,
                i,
                at as int,
            ) by {
                assert(above_its_two(old(self).items@, i, -1));
            }
        }
        sift_up(&mut items, at);
        self.items = items;
    }

    /// Takes out a candidate of least cost, or returns `None` when the bag is
    /// empty. Which of several candidates of the same least cost leaves is
    /// not fixed.
    pub fn pop(&mut self) -> (out: Option<Candidate>)
        ensures
            match out {
                None => old(self)@.len() == 0 && final(self)@ == old(self)@,
                Some(least) => {
                    &&& old(self)@.count(least) > 0
                    &&& final(self)@ == old(self)@.remove(least)
                    &&& forall|other: Candidate| #[trigger]
                        old(self)@.count(other) > 0 ==> least.cost <= other.cost
                },
            },
    {
        proof {
            use_type_invariant(&*self);
            to_multiset_len(self.items@);
        }
        if self.items.len() == 0 {
            return None;
        }
        let ghost before = self.items@;
        let mut items: Vec<Candidate> = Vec::new();
        std::mem::swap(&mut items, &mut self.items);
        let n = items.len();
        let least = items.swap_remove(0);
        proof {
            let moved = before.update(0, before.last());
            to_multiset_update(before, 0, before.last());
            to_multiset_remove(moved, n - 1);
            assert(moved.remove(n - 1) == moved.drop_last());
            assert(moved[n - 1] == before.last());
            to_multiset_contains(before, least);
            assert(before.contains(least));
            to_multiset_contains(before, before.last());
            assert(before.contains(before.last()));
            assert(items@.to_multiset() =~= before.to_multiset().remove(least)) by {
                broadcast use vstd::multiset::group_multiset_axioms;

            }
            assert forall|other: Candidate| #[trigger]
                before.to_multiset().count(other) > 0 implies least.cost <= other.cost by {
                to_multiset_contains(before, other);
                let j = choose|j: int| 0 <= j < before.len() && before[j] == other;
                lemma_top_is_least(before, j);
            }
        }
        if items.len() > 0 {
            assert(ordered_but(items@, -1, 0)) by {
                assert forall|i: int| 0 < i < items@.len() implies #[trigger] above_its_two(
                    items@,
                    i,
                    -1,
                ) by {
                    assert(above_its_two(before, i, -1));
                }
            }
            sift_down(&mut items, 0);
        }
        self.items = items;
        Some(least)
    }
}

} // verus!
