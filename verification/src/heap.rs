//! The priority structure of the exploration: a binary min-heap of
//! (distance, vertex) entries, ordered by distance and then by vertex.

use vstd::prelude::*;
use vstd::multiset::Multiset;
use vstd::seq_lib::{to_multiset_insert, to_multiset_remove, to_multiset_build, to_multiset_len};
use crate::graph::{Node, Weight};

verus! {

/// A tentative distance `d` recorded for the vertex `v`.
#[derive(Clone, Copy, Debug, PartialEq, Eq)]
pub struct Entry {
    pub d: Weight,
    pub v: Node,
}

impl Entry {
    /// The order of the heap: smaller distance first, and among equal
    /// distances the smaller vertex first. An entry precedes itself.
    pub open spec fn precedes(self, other: Entry) -> bool {
        self.d < other.d || (self.d == other.d && self.v <= other.v)
    }

    /// Decides `precedes`.
    pub fn comes_before(&self, other: &Entry) -> (b: bool)
        ensures
            b == self.precedes(*other),
    {
        self.d < other.d || (self.d == other.d && self.v <= other.v)
    }
}

/// The position above `j` in the implicit binary tree.
spec fn parent(j: int) -> int {
    (j - 1) / 2
}

/// Each entry but the root is preceded by the one above it.
spec fn heap_ordered(s: Seq<Entry>) -> bool {
    forall|j: int| 0 < j < s.len() ==> (#[trigger] s[parent(j)]).precedes(s[j])
}

/// The heap order with one exemption: position `i` may come before the entry
/// above it. The entries below `i` are still preceded by the one above `i`.
spec fn ordered_above(s: Seq<Entry>, i: int) -> bool {
    &&& forall|j: int| 0 < j < s.len() && j != i ==> (#[trigger] s[parent(j)]).precedes(s[j])
    &&& forall|j: int|
        0 < j < s.len() && parent(j) == i && i > 0 ==> s[parent(i)].precedes(#[trigger] s[j])
}

/// The heap order with one exemption: position `i` may come after the
/// entries below it. Those are still preceded by the entry above `i`.
spec fn ordered_below(s: Seq<Entry>, i: int) -> bool {
    &&& forall|j: int|
        0 < j < s.len() && parent(j) != i ==> (#[trigger] s[parent(j)]).precedes(s[j])
    &&& forall|j: int|
        0 < j < s.len() && parent(j) == i && i > 0 ==> s[parent(i)].precedes(#[trigger] s[j])
}

/// `s` with the entries at `i` and `j` exchanged.
spec fn swapped(s: Seq<Entry>, i: int, j: int) -> Seq<Entry> {
    s.update(i, s[j]).update(j, s[i])
}

/// Replacing one entry takes the old entry out of the multiset and puts the
/// new one in.
proof fn lemma_update_multiset(s: Seq<Entry>, i: int, e: Entry)
    requires
        0 <= i < s.len(),
    ensures
        s.update(i, e).to_multiset() == s.to_multiset().remove(s[i]).insert(e),
{
    broadcast use {to_multiset_insert, to_multiset_remove};

    assert(s.update(i, e) =~= s.remove(i).insert(i, e));
}

/// Exchanging two entries keeps the multiset.
proof fn lemma_swapped_multiset(s: Seq<Entry>, i: int, j: int)
    requires
        0 <= i < s.len(),
        0 <= j < s.len(),
    ensures
        swapped(s, i, j).to_multiset() == s.to_multiset(),
{
    lemma_update_multiset(s, i, s[j]);
    lemma_update_multiset(s.update(i, s[j]), j, s[i]);
    lemma_index_in_multiset(s, i);
    lemma_index_in_multiset(s, j);
    assert(swapped(s, i, j).to_multiset() =~= s.to_multiset());
}

/// The entry at a position is in the multiset.
proof fn lemma_index_in_multiset(s: Seq<Entry>, i: int)
    requires
        0 <= i < s.len(),
    ensures
        s.to_multiset().count(s[i]) > 0,
{
    s.to_multiset_ensures();
    assert(s.contains(s[i]));
}

/// In a heap-ordered sequence the root precedes every entry.
proof fn lemma_root_first(s: Seq<Entry>, j: int)
    requires
        heap_ordered(s),
        0 <= j < s.len(),
    ensures
        s[0].precedes(s[j]),
    decreases j,
{
    if j > 0 {
        lemma_root_first(s, parent(j));
        assert(s[parent(j)].precedes(s[j]));
    }
}

/// A min-heap of entries. Its view is the multiset of the entries it holds.
pub struct MinHeap {
    data: Vec<Entry>,
}

impl View for MinHeap {
    type V = Multiset<Entry>;

    closed spec fn view(&self) -> Multiset<Entry> {
        self.data@.to_multiset()
    }
}

impl MinHeap {
    /// The stored entries are in heap order.
    pub closed spec fn wf(&self) -> bool {
        heap_ordered(self.data@)
    }

    /// An empty heap.
    pub fn new() -> (h: MinHeap)
        ensures
            h.wf(),
            h@ == Multiset::<Entry>::empty(),
    {
        let h = MinHeap { data: Vec::new() };
        proof {
            h.data@.to_multiset_ensures();
            assert forall|x: Entry| h.data@.to_multiset().count(x) == 0 by {
                assert(!h.data@.contains(x));
            }
            assert(h.data@.to_multiset() =~= Multiset::<Entry>::empty());
        }
        h
    }

    /// The number of entries held.
    pub fn len(&self) -> (n: usize)
        ensures
            n == self@.len(),
    {
        broadcast use to_multiset_len;

        self.data.len()
    }

    /// Whether the heap holds no entry.
    pub fn is_empty(&self) -> (b: bool)
        ensures
            b == (self@.len() == 0),
    {
        broadcast use to_multiset_len;

        self.data.len() == 0
    }

    /// Adds `e` to the heap.
    pub fn push(&mut self, e: Entry)
        requires
            old(self).wf(),
        ensures
            final(self).wf(),
            final(self)@ == old(self)@.insert(e),
    {
        broadcast use to_multiset_build;

        self.data.push(e);
        let mut i: usize = self.data.len() - 1;
        while i > 0
            invariant
                i < self.data@.len(),
                ordered_above(self.data@, i as int),
                self.data@.to_multiset() == old(self)@.insert(e),
            ensures
                heap_ordered(self.data@),
            decreases i,
        {
            let p: usize = (i - 1) / 2;
            let above = self.data[p];
            let here = self.data[i];
            if above.comes_before(&here) {
                break ;
            }
            proof {
                lemma_swapped_multiset(self.data@, p as int, i as int);
            }
            let ghost before = self.data@;
            self.data[p] = here;
            self.data[i] = above;
            assert(self.data@ == swapped(before, p as int, i as int));
            i = p;
        }
    }

    /// Removes and returns the entry that precedes all others, if there is
    /// one.
    pub fn pop(&mut self) -> (r: Option<Entry>)
        requires
            old(self).wf(),
        ensures
            final(self).wf(),
            match r {
                None => old(self)@.len() == 0 && final(self)@ == old(self)@,
                Some(e) => {
                    &&& old(self)@.count(e) > 0
                    &&& final(self)@ == old(self)@.remove(e)
                    &&& forall|x: Entry| old(self)@.count(x) > 0 ==> e.precedes(x)
                },
            },
    {
        broadcast use to_multiset_len;

        let ghost start = self.data@;
        if self.data.len() == 0 {
            return None;
        }
        proof {
            start.to_multiset_ensures();
            assert forall|x: Entry| start.to_multiset().count(x) > 0 implies start[0].precedes(
                x,
            ) by {
                let j = choose|j: int| 0 <= j < start.len() && start[j] == x;
                lemma_root_first(start, j);
            }
            lemma_index_in_multiset(start, 0);
        }
        let last = self.data.pop().unwrap();
        let n: usize = self.data.len();
        proof {
            assert(self.data@ =~= start.remove(start.len() - 1));
            to_multiset_remove(start, start.len() - 1);
        }
        if n == 0 {
            return Some(last);
        }
        let top = self.data[0];
        proof {
            lemma_update_multiset(self.data@, 0, last);
            lemma_index_in_multiset(self.data@, 0);
            lemma_index_in_multiset(start, start.len() - 1);
            assert(self.data@.update(0, last).to_multiset() =~= start.to_multiset().remove(top));
        }
        self.data[0] = last;
        let mut i: usize = 0;
        while i < n / 2
            invariant
                n == self.data@.len(),
                i < n,
                ordered_below(self.data@, i as int),
                self.data@.to_multiset() == start.to_multiset().remove(top),
            ensures
                heap_ordered(self.data@),
            decreases n - i,
        {
            let left: usize = 2 * i + 1;
            let right: usize = left + 1;
            let mut c: usize = left;
            if right < n {
                let a = self.data[left];
                let b = self.data[right];
                if !a.comes_before(&b) {
                    c = right;
                }
            }
            let below = self.data[c];
            let here = self.data[i];
            if here.comes_before(&below) {
                break ;
            }
            proof {
                lemma_swapped_multiset(self.data@, i as int, c as int);
            }
            let ghost before = self.data@;
            self.data[i] = below;
            self.data[c] = here;
            assert(self.data@ == swapped(before, i as int, c as int));
            i = c;
        }
        Some(top)
    }
}

} // verus!
