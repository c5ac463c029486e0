//! Picking distinct sources from vertices that are offered one at a time.

use vstd::prelude::*;
use std::collections::BTreeSet;
use crate::graph::{Node, Weight};

verus! {

/// Collects sources, each at the initial distance zero, from the vertices
/// that it is offered, until it holds as many as are wanted or as the graph
/// has vertices. A vertex that is offered again is not picked again.
pub struct SourcePicker {
    n: usize,
    k: usize,
    seen: BTreeSet<Node>,
    out: Vec<(Node, Weight)>,
}

impl SourcePicker {
    /// The number of vertices of the graph.
    pub closed spec fn vertices(&self) -> nat {
        self.n as nat
    }

    /// The number of sources wanted.
    pub closed spec fn wanted(&self) -> nat {
        self.k as nat
    }

    /// The sources picked so far, in the order in which they were picked.
    pub closed spec fn picked(&self) -> Seq<(Node, Weight)> {
        self.out@
    }

    /// The picker remembers exactly the vertices that it has picked.
    pub closed spec fn wf(&self) -> bool {
        &&& self.seen@.finite()
        &&& self.seen@.len() == self.out@.len()
        &&& forall|s: Node| self.seen@.contains(s) <==> self.out@.contains((s, 0u64))
    }

    /// A picker of `k` sources among `n` vertices, with none picked yet.
    pub fn new(n: usize, k: usize) -> (p: SourcePicker)
        ensures
            p.wf(),
            p.vertices() == n,
            p.wanted() == k,
            p.picked() == Seq::<(Node, Weight)>::empty(),
    {
        let p = SourcePicker { n, k, seen: BTreeSet::new(), out: Vec::new() };
        assert(p.out@ =~= Seq::<(Node, Weight)>::empty());
        p
    }

    /// Whether another vertex is to be offered: fewer sources are picked
    /// than are wanted, and fewer than there are vertices.
    pub fn wants_more(&self) -> (b: bool)
        requires
            self.wf(),
        ensures
            b == (self.picked().len() < self.wanted() && self.picked().len() < self.vertices()),
    {
        broadcast use vstd::laws_cmp::group_laws_cmp;
        broadcast use vstd::std_specs::btree::group_btree_axioms;

        self.out.len() < self.k && self.seen.len() < self.n
    }

    /// Offers the vertex `s`: it is picked, at the initial distance zero,
    /// unless it was picked before.
    pub fn offer(&mut self, s: Node)
        requires
            old(self).wf(),
        ensures
            final(self).wf(),
            final(self).vertices() == old(self).vertices(),
            final(self).wanted() == old(self).wanted(),
            final(self).picked() == if old(self).picked().contains((s, 0u64)) {
                old(self).picked()
            } else {
                old(self).picked().push((s, 0u64))
            },
    {
        broadcast use vstd::laws_cmp::group_laws_cmp;
        broadcast use vstd::std_specs::btree::group_btree_axioms;

        let ghost before = self.out@;
        if self.seen.insert(s) {
            self.out.push((s, 0));
            proof {
                assert forall|x: Node| self.seen@.contains(x) <==> self.out@.contains(
                    (x, 0u64),
                ) by {
                    if before.contains((x, 0u64)) {
                        let i = choose|i: int| 0 <= i < before.len() && before[i] == (x, 0u64);
                        assert(self.out@[i] == (x, 0u64));
                    }
                    if x == s {
                        assert(self.out@[self.out@.len() - 1] == (x, 0u64));
                    }
                    if self.out@.contains((x, 0u64)) {
                        let i = choose|i: int|
                            0 <= i < self.out@.len() && self.out@[i] == (x, 0u64);
                        if i < before.len() {
                            assert(before[i] == (x, 0u64));
                        }
                    }
                }
            }
        }
    }

    /// Hands out the sources picked.
    pub fn into_sources(self) -> (sources: Vec<(Node, Weight)>)
        ensures
            sources@ == self.picked(),
    {
        self.out
    }
}

} // verus!
