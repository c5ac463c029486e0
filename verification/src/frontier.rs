//! How the heap of an exploration stands for its pending vertices, and how
//! the steps of the exploration follow the steps that the heap dictates.

use vstd::prelude::*;
use vstd::multiset::Multiset;
use crate::graph::{Adjacency, Node, Weight};
use crate::heap::Entry;
use crate::exploration::{Exploration, pending, is_next, with_settled, settle, run};
use crate::invariants::{settled, lemma_with_settled};

verus! {

/// The entry that the heap holds for the distance that `x` has now.
pub open spec fn entry_of(st: Exploration, x: int) -> Entry {
    Entry { d: st.dist[x], v: x as Node }
}

/// The heap holds no entry twice. It holds the entry of each pending vertex.
/// Each entry that it holds is for a vertex of the graph, at a distance below
/// the bound and no less than the one the vertex has now; where it is that
/// very distance, the vertex is pending.
pub open spec fn heap_matches(st: Exploration, bound: Weight, heap: Multiset<Entry>) -> bool {
    &&& forall|x: int| #[trigger] pending(st, x) ==> heap.count(entry_of(st, x)) > 0
    &&& forall|e: Entry| #[trigger]
        heap.count(e) > 0 ==> {
            &&& e.v < st.dist.len()
            &&& st.dist[e.v as int] <= e.d < bound
            &&& e.d == st.dist[e.v as int] ==> pending(st, e.v as int)
        }
    &&& forall|e: Entry| #[trigger] heap.count(e) <= 1
}

/// An entry whose distance is not the one its vertex has now can go.
pub proof fn lemma_drop_stale(st: Exploration, bound: Weight, heap: Multiset<Entry>, e: Entry)
    requires
        st.dist.len() <= usize::MAX,
        heap_matches(st, bound, heap),
        heap.count(e) > 0,
        e.d != st.dist[e.v as int],
    ensures
        heap_matches(st, bound, heap.remove(e)),
{
    let rest = heap.remove(e);
    assert forall|x: int| #[trigger] pending(st, x) implies rest.count(entry_of(st, x)) > 0 by {
        assert(entry_of(st, x) != e);
    }
}

/// The first entry of the heap, where its distance is the one its vertex
/// has now, names the vertex to settle next; with that vertex settled, the
/// rest of the heap matches.
pub proof fn lemma_first_is_next(st: Exploration, bound: Weight, heap: Multiset<Entry>, e: Entry)
    requires
        st.dist.len() <= usize::MAX,
        heap_matches(st, bound, heap),
        heap.count(e) > 0,
        forall|x: Entry| heap.count(x) > 0 ==> e.precedes(x),
        e.d == st.dist[e.v as int],
    ensures
        is_next(st, e.v as int),
        heap_matches(with_settled(st, e.v as int), bound, heap.remove(e)),
{
    let v = e.v as int;
    let st1 = with_settled(st, v);
    let rest = heap.remove(e);
    assert(pending(st, v));
    assert forall|u: int| #[trigger] pending(st, u) implies st.dist[v] < st.dist[u] || (st.dist[v]
        == st.dist[u] && v <= u) by {
        assert(heap.count(entry_of(st, u)) > 0);
        assert(e.precedes(entry_of(st, u)));
    }
    lemma_with_settled(st, v);
    assert forall|x: int| #[trigger] pending(st1, x) implies rest.count(entry_of(st1, x)) > 0 by {
        assert(pending(st, x) && x != v);
        assert(entry_of(st, x) != e);
    }
    assert forall|f: Entry| #[trigger] rest.count(f) > 0 implies {
        &&& f.v < st1.dist.len()
        &&& st1.dist[f.v as int] <= f.d < bound
        &&& f.d == st1.dist[f.v as int] ==> pending(st1, f.v as int)
    } by {
        assert(heap.count(f) > 0);
        if f.d == st.dist[f.v as int] && f.v == e.v {
            assert(f == e);
        }
    }
}

/// Lowering the distance of a vertex that is not settled, and adding the
/// entry for its new distance, keeps the heap matching.
pub proof fn lemma_lowered(
    st: Exploration,
    st2: Exploration,
    bound: Weight,
    heap: Multiset<Entry>,
    x: int,
    nd: Weight,
)
    requires
        heap_matches(st, bound, heap),
        0 <= x < st.dist.len() <= usize::MAX,
        nd < st.dist[x],
        nd < bound,
        !settled(st, x),
        st2.dist == st.dist.update(x, nd),
        st2.explored == st.explored,
    ensures
        heap_matches(st2, bound, heap.insert(Entry { d: nd, v: x as Node })),
{
    let e = Entry { d: nd, v: x as Node };
    let more = heap.insert(e);
    assert(heap.count(e) == 0);
    assert(pending(st2, x));
    assert forall|y: int| #[trigger] pending(st2, y) implies more.count(entry_of(st2, y)) > 0 by {
        if y != x {
            assert(pending(st, y));
            assert(entry_of(st2, y) == entry_of(st, y));
        }
    }
    assert forall|f: Entry| #[trigger] more.count(f) > 0 implies {
        &&& f.v < st2.dist.len()
        &&& st2.dist[f.v as int] <= f.d < bound
        &&& f.d == st2.dist[f.v as int] ==> pending(st2, f.v as int)
    } by {
        if f != e {
            assert(heap.count(f) > 0);
            if f.v != x && f.d == st.dist[f.v as int] {
                assert(pending(st, f.v as int));
            }
        }
    }
}

/// A state that differs from a matching one neither in its distances nor
/// in its settled vertices matches too.
pub proof fn lemma_same_frontier(
    st: Exploration,
    st2: Exploration,
    bound: Weight,
    heap: Multiset<Entry>,
)
    requires
        heap_matches(st, bound, heap),
        st2.dist == st.dist,
        st2.explored == st.explored,
    ensures
        heap_matches(st2, bound, heap),
{
    assert forall|x: int| #[trigger] pending(st2, x) implies heap.count(entry_of(st2, x)) > 0 by {
        assert(pending(st, x));
        assert(entry_of(st2, x) == entry_of(st, x));
    }
    assert forall|f: Entry| #[trigger] heap.count(f) > 0 implies {
        &&& f.v < st2.dist.len()
        &&& st2.dist[f.v as int] <= f.d < bound
        &&& f.d == st2.dist[f.v as int] ==> pending(st2, f.v as int)
    } by {
        if f.d == st.dist[f.v as int] {
            assert(pending(st, f.v as int));
        }
    }
}

/// With an empty heap no vertex is pending.
pub proof fn lemma_drained(st: Exploration, bound: Weight, heap: Multiset<Entry>)
    requires
        heap_matches(st, bound, heap),
        heap.len() == 0,
    ensures
        forall|x: int| !pending(st, x),
{
    assert forall|x: int| !pending(st, x) by {
        if pending(st, x) {
            assert(heap.count(entry_of(st, x)) > 0);
        }
    }
}

/// At most one vertex is the next to settle.
pub proof fn lemma_next_unique(st: Exploration, a: int, b: int)
    requires
        is_next(st, a),
        is_next(st, b),
    ensures
        a == b,
{
    assert(pending(st, a) && pending(st, b));
}

/// A run that has steps left settles the next vertex and goes on from
/// there.
pub proof fn lemma_run_step(adj: Adjacency, bound: Weight, st: Exploration, v: int, steps: nat)
    requires
        is_next(st, v),
        steps > 0,
    ensures
        run(adj, bound, st, steps) == run(
            adj,
            bound,
            settle(adj, bound, st, v),
            (steps - 1) as nat,
        ),
{
    let w = choose|w: int| is_next(st, w);
    lemma_next_unique(st, v, w);
}

/// A run ends where no vertex is pending.
pub proof fn lemma_run_done(adj: Adjacency, bound: Weight, st: Exploration, steps: nat)
    requires
        forall|x: int| !pending(st, x),
    ensures
        run(adj, bound, st, steps) == st,
{
    assert forall|v: int| !is_next(st, v) by {
        assert(!pending(st, v));
    }
}

} // verus!
