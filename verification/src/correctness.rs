//! That an exploration, taken as the run of its steps, finds the bounded
//! distances and the tight boundary.

use vstd::prelude::*;
use crate::graph::{Adjacency, Node, Weight, well_formed, edge_count};
use crate::paths::{bounded_distances, tight_boundary};
use crate::exploration::{
    Exploration, initial, relax_edges, pending, is_next, with_settled, settle, run, exploration,
    degree_sum, positive_weights, strictly_before,
};
use crate::invariants::{
    between_settlements, while_settling, settled, lemma_initial, lemma_begin_settling,
    lemma_relax, lemma_end_settling, lemma_finished, lemma_degree_sum_bounded,
    lemma_distinct_length,
};

verus! {

/// Among the pending vertices below `m`, if there is any, one comes first.
proof fn lemma_least_pending(st: Exploration, m: int) -> (v: int)
    requires
        0 <= m <= st.dist.len(),
        exists|x: int| 0 <= x < m && pending(st, x),
    ensures
        0 <= v < m,
        pending(st, v),
        forall|u: int|
            0 <= u < m && #[trigger] pending(st, u) ==> st.dist[v] < st.dist[u] || (st.dist[v]
                == st.dist[u] && v <= u),
    decreases m,
{
    if exists|x: int| 0 <= x < m - 1 && pending(st, x) {
        let below = lemma_least_pending(st, m - 1);
        if pending(st, m - 1) && st.dist[m - 1] < st.dist[below] {
            m - 1
        } else {
            below
        }
    } else {
        m - 1
    }
}

/// While a vertex is pending, some vertex is the next to settle.
proof fn lemma_next_exists(st: Exploration, x: int)
    requires
        pending(st, x),
    ensures
        exists|v: int| is_next(st, v),
{
    let v = lemma_least_pending(st, st.dist.len() as int);
    assert(is_next(st, v));
}

/// The inspection of the first `k` edges out of the vertex settled last
/// keeps the invariant of the settlement.
proof fn lemma_relax_all(
    adj: Adjacency,
    sources: Seq<(Node, Weight)>,
    bound: Weight,
    base: Exploration,
    v: int,
    k: nat,
)
    requires
        well_formed(adj),
        adj.len() <= usize::MAX,
        while_settling(adj, sources, bound, base, v, 0),
        k <= adj[v].len(),
    ensures
        while_settling(
            adj,
            sources,
            bound,
            relax_edges(base, bound, base.dist[v], adj[v], k),
            v,
            k as int,
        ),
        relax_edges(base, bound, base.dist[v], adj[v], k).dist[v] == base.dist[v],
        relax_edges(base, bound, base.dist[v], adj[v], k).explored == base.explored,
    decreases k,
{
    if k > 0 {
        lemma_relax_all(adj, sources, bound, base, v, (k - 1) as nat);
        let before = relax_edges(base, bound, base.dist[v], adj[v], (k - 1) as nat);
        lemma_relax(adj, sources, bound, before, v, k - 1);
    }
}

/// A run that starts between two settlements and has a step left for every
/// vertex not yet settled ends between two settlements, with no vertex
/// pending.
proof fn lemma_run(
    adj: Adjacency,
    sources: Seq<(Node, Weight)>,
    bound: Weight,
    st: Exploration,
    steps: nat,
)
    requires
        well_formed(adj),
        adj.len() <= usize::MAX,
        between_settlements(adj, sources, bound, st),
        st.explored.len() + steps >= adj.len(),
    ensures
        between_settlements(adj, sources, bound, run(adj, bound, st, steps)),
        forall|x: int| !pending(run(adj, bound, st, steps), x),
    decreases steps,
{
    if exists|v: int| is_next(st, v) {
        let v = choose|v: int| is_next(st, v);
        lemma_begin_settling(adj, sources, bound, st, v);
        lemma_relax_all(adj, sources, bound, with_settled(st, v), v, adj[v].len());
        lemma_end_settling(adj, sources, bound, settle(adj, bound, st, v), v);
        lemma_run(adj, sources, bound, settle(adj, bound, st, v), (steps - 1) as nat);
    } else {
        assert forall|x: int| !pending(st, x) by {
            if pending(st, x) {
                lemma_next_exists(st, x);
            }
        }
    }
}

/// What an exploration finds. Its distances are the bounded distances and
/// its boundary is the tight boundary. The settled vertices are listed
/// without repetition; they are those whose distance is below the bound, and
/// all others are left at the sentinel. They are listed by growing distance,
/// and where all weights are positive equal distances are listed by growing
/// vertex. The count of inspected edges is the sum of the degrees of the
/// settled vertices, and no fewer edges were inspected than distances were
/// lowered.
pub proof fn lemma_exploration(adj: Adjacency, sources: Seq<(Node, Weight)>, bound: Weight)
    requires
        well_formed(adj),
        adj.len() <= usize::MAX,
    ensures
        ({
            let r = exploration(adj, sources, bound);
            &&& r.dist == bounded_distances(adj, sources, bound)
            &&& r.b_prime == tight_boundary(adj, sources, bound)
            &&& r.b_prime == Weight::MAX || r.b_prime >= bound
            &&& r.explored.no_duplicates()
            &&& r.explored.len() <= adj.len()
            &&& forall|i: int| 0 <= i < r.explored.len() ==> (#[trigger] r.explored[i]) < adj.len()
            &&& forall|v: int|
                0 <= v < adj.len() ==> (r.explored.contains(v as Node) <==> #[trigger] r.dist[v]
                    < bound)
            &&& forall|v: int|
                0 <= v < adj.len() ==> (!r.explored.contains(v as Node) <==> #[trigger] r.dist[v]
                    == Weight::MAX)
            &&& forall|i: int, j: int|
                0 <= i < j < r.explored.len() ==> r.dist[(#[trigger] r.explored[i]) as int]
                    <= r.dist[(#[trigger] r.explored[j]) as int]
            &&& positive_weights(adj) ==> forall|i: int, j: int|
                0 <= i < j < r.explored.len() ==> strictly_before(
                    r.dist[(#[trigger] r.explored[i]) as int],
                    r.explored[i] as int,
                    r.dist[(#[trigger] r.explored[j]) as int],
                    r.explored[j] as int,
                )
            &&& r.edges_scanned == degree_sum(adj, r.explored)
            &&& r.edges_scanned <= edge_count(adj)
            &&& r.heap_pushes <= r.edges_scanned
        }),
{
    let r = exploration(adj, sources, bound);
    lemma_initial(adj, sources, bound);
    lemma_run(adj, sources, bound, initial(adj.len(), sources, bound), adj.len());
    lemma_finished(adj, sources, bound, r);
    lemma_degree_sum_bounded(adj, r.explored, adj.len());
    lemma_distinct_length(r.explored, adj.len());
    assert forall|v: int| 0 <= v < adj.len() implies (settled(r, v) <==> r.explored.contains(
        v as Node,
    )) by {}
}

} // verus!
