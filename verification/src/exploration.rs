//! What an exploration is: the state that it keeps, the steps that it
//! takes, and the state in which it ends.

use vstd::prelude::*;
use crate::graph::{Adjacency, Node, Weight};
use crate::paths::saturating_sum;

verus! {

/// The state of an exploration, and in the end its outcome.
pub struct Exploration {
    /// The tentative distance of each vertex; the sentinel where there is
    /// none.
    pub dist: Seq<Weight>,
    /// The settled vertices, in the order in which they were settled.
    pub explored: Seq<Node>,
    /// The least cost seen at or above the bound; the sentinel where none
    /// was seen.
    pub b_prime: Weight,
    /// The number of adjacency entries inspected.
    pub edges_scanned: nat,
    /// The number of times that an inspected edge lowered a distance.
    pub heap_pushes: nat,
}

/// The sources that an exploration of a graph of `n` vertices up to `bound`
/// accepts, in their order: those that are vertices of the graph and whose
/// initial distance is below the bound.
pub open spec fn accepted(n: nat, sources: Seq<(Node, Weight)>, bound: Weight) -> Seq<
    (Node, Weight),
>
    decreases sources.len(),
{
    if sources.len() == 0 {
        Seq::<(Node, Weight)>::empty()
    } else {
        let before = accepted(n, sources.drop_last(), bound);
        if sources.last().0 < n && sources.last().1 < bound {
            before.push(sources.last())
        } else {
            before
        }
    }
}

/// The distances with which an exploration starts: each source that is a
/// vertex of the graph and whose initial distance is below the bound lowers
/// the distance of its vertex to its initial distance.
pub open spec fn seeded(n: nat, sources: Seq<(Node, Weight)>, bound: Weight) -> Seq<Weight>
    decreases sources.len(),
{
    if sources.len() == 0 {
        Seq::new(n, |v: int| Weight::MAX)
    } else {
        let dist = seeded(n, sources.drop_last(), bound);
        let (s, d0) = sources.last();
        if s < n && d0 < bound && d0 < dist[s as int] {
            dist.update(s as int, d0)
        } else {
            dist
        }
    }
}

/// The state before the first vertex is settled.
pub open spec fn initial(n: nat, sources: Seq<(Node, Weight)>, bound: Weight) -> Exploration {
    Exploration {
        dist: seeded(n, sources, bound),
        explored: Seq::empty(),
        b_prime: Weight::MAX,
        edges_scanned: 0,
        heap_pushes: 0,
    }
}

/// The edge `e`, taken from a vertex settled at distance `d`, leads to a
/// cost below the bound that improves on the distance of its destination.
pub open spec fn lowers(st: Exploration, bound: Weight, d: Weight, e: (Node, Weight)) -> bool {
    saturating_sum(d, e.1) < st.dist[e.0 as int] && saturating_sum(d, e.1) < bound
}

/// The inspection of one edge `e` that leaves a vertex settled at distance
/// `d`. A cost below the bound that improves on the destination's distance
/// replaces it; a cost at or above the bound that improves on the boundary
/// replaces that.
pub open spec fn relax_edge(st: Exploration, bound: Weight, d: Weight, e: (Node, Weight)) -> Exploration {
    let nd = saturating_sum(d, e.1);
    if lowers(st, bound, d, e) {
        Exploration {
            dist: st.dist.update(e.0 as int, nd),
            edges_scanned: st.edges_scanned + 1,
            heap_pushes: st.heap_pushes + 1,
            ..st
        }
    } else if nd >= bound && nd < st.b_prime {
        Exploration { b_prime: nd, edges_scanned: st.edges_scanned + 1, ..st }
    } else {
        Exploration { edges_scanned: st.edges_scanned + 1, ..st }
    }
}

/// The inspection, in order, of the first `k` of the edges `out` that leave
/// a vertex settled at distance `d`.
pub open spec fn relax_edges(
    st: Exploration,
    bound: Weight,
    d: Weight,
    out: Seq<(Node, Weight)>,
    k: nat,
) -> Exploration
    decreases k,
{
    if k == 0 || k > out.len() {
        st
    } else {
        relax_edge(relax_edges(st, bound, d, out, (k - 1) as nat), bound, d, out[k - 1])
    }
}

/// `v` has a tentative distance and is not settled.
pub open spec fn pending(st: Exploration, v: int) -> bool {
    &&& 0 <= v < st.dist.len()
    &&& st.dist[v] < Weight::MAX
    &&& !st.explored.contains(v as Node)
}

/// `v` is the vertex to settle next: among the pending vertices, the one of
/// least distance, and among those of least distance the one of least
/// identifier.
pub open spec fn is_next(st: Exploration, v: int) -> bool {
    &&& pending(st, v)
    &&& forall|u: int| #[trigger]
        pending(st, u) ==> st.dist[v] < st.dist[u] || (st.dist[v] == st.dist[u] && v <= u)
}

/// The state `st` with `v` added to the settled vertices.
pub open spec fn with_settled(st: Exploration, v: int) -> Exploration {
    Exploration { explored: st.explored.push(v as Node), ..st }
}

/// Settling `v`: it joins the settled vertices and all its edges are
/// inspected from its distance.
pub open spec fn settle(adj: Adjacency, bound: Weight, st: Exploration, v: int) -> Exploration {
    relax_edges(with_settled(st, v), bound, st.dist[v], adj[v], adj[v].len())
}

/// At most `steps` times, the next vertex is settled; the run ends sooner
/// where no vertex is pending.
pub open spec fn run(adj: Adjacency, bound: Weight, st: Exploration, steps: nat) -> Exploration
    decreases steps,
{
    if steps == 0 || !exists|v: int| is_next(st, v) {
        st
    } else {
        run(adj, bound, settle(adj, bound, st, choose|v: int| is_next(st, v)), (steps - 1) as nat)
    }
}

/// The outcome of the exploration of `adj` from `sources` up to `bound`. As
/// no vertex is settled twice, as many steps as there are vertices exhaust
/// the pending ones.
pub open spec fn exploration(adj: Adjacency, sources: Seq<(Node, Weight)>, bound: Weight) -> Exploration {
    run(adj, bound, initial(adj.len(), sources, bound), adj.len())
}

/// The sum of the degrees of the vertices listed in `vs`.
pub open spec fn degree_sum(adj: Adjacency, vs: Seq<Node>) -> nat
    decreases vs.len(),
{
    if vs.len() == 0 {
        0
    } else {
        degree_sum(adj, vs.drop_last()) + adj[vs.last() as int].len()
    }
}

/// The vertex `a` at distance `da` comes strictly before the vertex `b` at
/// distance `db`: at a smaller distance, or at the same distance with the
/// smaller identifier.
pub open spec fn strictly_before(da: Weight, a: int, db: Weight, b: int) -> bool {
    da < db || (da == db && a < b)
}

/// Every edge of the graph has a weight above zero.
pub open spec fn positive_weights(adj: Adjacency) -> bool {
    forall|u: int, k: int| 0 <= u < adj.len() && 0 <= k < adj[u].len() ==> (#[trigger] adj[u][k]).1 > 0
}

} // verus!
