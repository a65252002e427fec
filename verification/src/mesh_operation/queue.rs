//! The queue of collapse candidates.
use vstd::multiset::Multiset;
use vstd::prelude::*;
use crate::data_structure::model::IndexType;

verus! {
/// An entry of the collapse queue: an edge, the cost of collapsing it, and
/// how often that cost had been recomputed when the entry was made.
#[derive(Clone, Copy, Debug, PartialEq, Eq)]
pub struct EdgeCost {
    /// A number that orders the costs: less is cheaper.
    pub cost: u32,
    pub edge_idx: IndexType,
    pub count: u32,
}

impl EdgeCost {
    /// `self` leaves the queue before `other`: it is cheaper, or as cheap
    /// and on the edge with the greater identifier, or on the same edge and
    /// more recent.
    pub open spec fn outranks(self, other: EdgeCost) -> bool {
        self.cost < other.cost || (self.cost == other.cost && (self.edge_idx > other.edge_idx || (self.edge_idx
            == other.edge_idx && self.count > other.count)))
    }

    /// Whether this entry leaves the queue before `other`.
    pub fn goes_before(&self, other: &EdgeCost) -> (r: bool)
        ensures
            r == self.outranks(*other),
    {
        self.cost < other.cost || (self.cost == other.cost && (self.edge_idx > other.edge_idx || (self.edge_idx
            == other.edge_idx && self.count > other.count)))
    }
}

/// A priority queue of collapse candidates, kept as a binary heap.
pub struct EdgeQueue {
    items: Vec<EdgeCost>,
}

/// No entry outranks the one above it in the heap, except perhaps the one
/// at `hole`; and the entries just below `hole` do not outrank the one
/// above it.
pub open spec fn heap_rising(s: Seq<EdgeCost>, hole: int) -> bool {
    &&& forall|i: int| 1 <= i < s.len() && i != hole ==> !(#[trigger] s[i]).outranks(s[(i - 1) / 2])
    &&& forall|c: int|
        1 <= c < s.len() && (c - 1) / 2 == hole && hole > 0 ==> !(#[trigger] s[c]).outranks(s[(hole - 1) / 2])
}

/// No entry outranks the one above it in the heap, except perhaps the ones
/// just below `hole`; and those do not outrank the one above `hole`.
pub open spec fn heap_sinking(s: Seq<EdgeCost>, hole: int) -> bool {
    &&& forall|i: int| 1 <= i < s.len() && (i - 1) / 2 != hole ==> !(#[trigger] s[i]).outranks(s[(i - 1) / 2])
    &&& forall|c: int|
        1 <= c < s.len() && (c - 1) / 2 == hole && hole > 0 ==> !(#[trigger] s[c]).outranks(s[(hole - 1) / 2])
}

/// No entry outranks the one above it in the heap.
pub open spec fn heap_ordered(s: Seq<EdgeCost>) -> bool {
    forall|i: int| 1 <= i < s.len() ==> !(#[trigger] s[i]).outranks(s[(i - 1) / 2])
}

/// In a heap no entry outranks the first.
pub proof fn lemma_top(s: Seq<EdgeCost>, i: int)
    requires
        heap_ordered(s),
        0 <= i < s.len(),
    ensures
        !s[i].outranks(s[0]),
    decreases i,
{
    if i > 0 {
        lemma_top(s, (i - 1) / 2);
        assert(!s[i].outranks(s[(i - 1) / 2]));
    }
}

/// Exchanging two entries keeps the contents.
pub proof fn lemma_swap(s: Seq<EdgeCost>, i: int, j: int)
    requires
        0 <= i < s.len(),
        0 <= j < s.len(),
    ensures
        s.update(i, s[j]).update(j, s[i]).to_multiset() =~= s.to_multiset(),
{
    broadcast use vstd::multiset::group_multiset_axioms;

    vstd::seq_lib::to_multiset_update(s, i, s[j]);
    vstd::seq_lib::to_multiset_update(s.update(i, s[j]), j, s[i]);
    vstd::seq_lib::to_multiset_contains(s, s[i]);
    vstd::seq_lib::to_multiset_contains(s, s[j]);
    assert(s.contains(s[i]));
    assert(s.contains(s[j]));
}

impl View for EdgeQueue {
    type V = Multiset<EdgeCost>;

    closed spec fn view(&self) -> Multiset<EdgeCost> {
        self.items@.to_multiset()
    }
}

impl EdgeQueue {
    /// The entries are in heap order.
    pub closed spec fn wf(&self) -> bool {
        heap_ordered(self.items@)
    }

    /// An empty queue.
    pub fn new() -> (r: Self)
        ensures
            r.wf(),
            r@ == Multiset::<EdgeCost>::empty(),
    {
        let r = EdgeQueue { items: Vec::new() };
        proof {
            broadcast use vstd::seq_lib::to_multiset_len;

            assert(r.items@.to_multiset().len() == 0);
            assert(r.items@.to_multiset() =~= Multiset::<EdgeCost>::empty());
        }
        r
    }

    /// The number of entries.
    pub fn len(&self) -> (r: usize)
        ensures
            r == self@.len(),
    {
        proof {
            vstd::seq_lib::to_multiset_len(self.items@);
        }
        self.items.len()
    }

    /// Exchanges two entries.
    fn swap(&mut self, i: usize, j: usize)
        requires
            i < old(self).items@.len(),
            j < old(self).items@.len(),
        ensures
            final(self).items@ == old(self).items@.update(i as int, old(self).items@[j as int]).update(
                j as int,
                old(self).items@[i as int],
            ),
            final(self)@ == old(self)@,
    {
        let a: EdgeCost = self.items[i];
        let b: EdgeCost = self.items[j];
        self.items[i] = b;
        self.items[j] = a;
        proof {
            lemma_swap(old(self).items@, i as int, j as int);
        }
    }

    /// Adds an entry.
    pub fn push(&mut self, entry: EdgeCost)
        requires
            old(self).wf(),
        ensures
            final(self).wf(),
            final(self)@ == old(self)@.insert(entry),
    {
        proof {
            vstd::seq_lib::to_multiset_build(self.items@, entry);
        }
        self.items.push(entry);
        let ghost all = self@;
        let mut i: usize = self.items.len() - 1;
        while i > 0
            invariant
                i < self.items@.len(),
                self@ == all,
                heap_rising(self.items@, i as int),
            ensures
                heap_ordered(self.items@),
            decreases i,
        {
            let parent: usize = (i - 1) / 2;
            if !self.items[i].goes_before(&self.items[parent]) {
                break ;
            }
            self.swap(i, parent);
            i = parent;
        }
    }

    /// Takes out an entry that no other entry outranks.
    pub fn pop(&mut self) -> (r: Option<EdgeCost>)
        requires
            old(self).wf(),
        ensures
            final(self).wf(),
            r is None <==> old(self)@.len() == 0,
            r is None ==> final(self)@ == old(self)@,
            r matches Some(top) ==> old(self)@.count(top) > 0 && final(self)@ == old(self)@.remove(top) && forall|
                other: EdgeCost,
            | old(self)@.count(other) > 0 ==> !other.outranks(top),
    {
        let n: usize = self.items.len();
        proof {
            vstd::seq_lib::to_multiset_len(self.items@);
        }
        if n == 0 {
            return None;
        }
        let ghost before = self.items@;
        proof {
            assert forall|other: EdgeCost| before.to_multiset().count(other) > 0 implies !other.outranks(before[0]) by {
                vstd::seq_lib::to_multiset_contains(before, other);
                let i = choose|i: int| 0 <= i < before.len() && before[i] == other;
                lemma_top(before, i);
            }
            vstd::seq_lib::to_multiset_contains(before, before[0]);
            assert(before.contains(before[0]));
        }
        self.swap(0, n - 1);
        let top: EdgeCost = self.items.pop().unwrap();
        proof {
            let swapped = before.update(0, before[n - 1]).update(n - 1, before[0]);
            assert(self.items@ =~= swapped.remove(n - 1));
            vstd::seq_lib::to_multiset_remove(swapped, n - 1);
            lemma_swap(before, 0, n - 1);
        }
        let ghost rest = self@;
        let len: usize = self.items.len();
        let mut i: usize = 0;
        loop
            invariant
                len == self.items@.len(),
                i <= len,
                self@ == rest,
                heap_sinking(self.items@, i as int),
            ensures
                heap_ordered(self.items@),
            decreases len - i,
        {
            if i >= len || len - i <= i || len - i - 1 <= i {
                // no entry below `i`
                break ;
            }
            let left: usize = 2 * i + 1;
            let right: usize = left + 1;
            let mut best: usize = left;
            if right < len && self.items[right].goes_before(&self.items[left]) {
                best = right;
            }
            if !self.items[best].goes_before(&self.items[i]) {
                proof {
                    assert forall|c: int| 1 <= c < len && (c - 1) / 2 == i implies !(#[trigger] self.items@[c]).outranks(
                        self.items@[i as int],
                    ) by {
                        assert(c == left || c == right);
                    }
                }
                break ;
            }
            self.swap(i, best);
            i = best;
        }
        Some(top)
    }
}

} // verus!
