//! The bounded exploration from a set of sources.

use vstd::prelude::*;
use crate::graph::{Graph, Node, Weight, well_formed, edge_count};
use crate::heap::{Entry, MinHeap};
use crate::paths::{bounded_distances, tight_boundary};
use crate::exploration::{
    Exploration, seeded, initial, relax_edge, relax_edges, pending, with_settled, settle, run,
    exploration, degree_sum, positive_weights, strictly_before,
};
use crate::invariants::{
    between_settlements, while_settling, settled, lemma_initial, lemma_begin_settling,
    lemma_relax, lemma_end_settling, lemma_finished, lemma_degree_sum_bounded,
    lemma_degree_sum_covers, lemma_distinct_length,
};
use crate::frontier::{
    heap_matches, lemma_drop_stale, lemma_first_is_next, lemma_lowered, lemma_same_frontier,
    lemma_drained, lemma_run_step, lemma_run_done,
};

verus! {

/// The outcome of an exploration.
#[derive(Debug, Clone)]
pub struct BmsspResult {
    /// For each vertex its distance from the sources where that is below the
    /// bound, and `Weight::MAX` elsewhere.
    pub dist: Vec<Weight>,
    /// The settled vertices, in the order in which they were settled.
    pub explored: Vec<Node>,
    /// The tight boundary: the least cost seen at or above the bound, or
    /// `Weight::MAX` where none was seen.
    pub b_prime: Weight,
    /// The number of adjacency entries inspected.
    pub edges_scanned: usize,
    /// The number of heap insertions made while inspecting edges.
    pub heap_pushes: usize,
}

impl View for BmsspResult {
    type V = Exploration;

    open spec fn view(&self) -> Exploration {
        state_of(self.dist@, self.explored@, self.b_prime, self.edges_scanned, self.heap_pushes)
    }
}

/// The state that the five values make up.
pub open spec fn state_of(
    dist: Seq<Weight>,
    explored: Seq<Node>,
    b_prime: Weight,
    edges_scanned: usize,
    heap_pushes: usize,
) -> Exploration {
    Exploration {
        dist,
        explored,
        b_prime,
        edges_scanned: edges_scanned as nat,
        heap_pushes: heap_pushes as nat,
    }
}

/// Explores `g` from `sources` up to the exclusive bound `bound`, by
/// Dijkstra's algorithm from all accepted sources at once.
///
/// A source is accepted if it is a vertex of the graph and its initial
/// distance is below the bound; the others are passed over. Vertices are
/// settled in the order of their distance, and among equal distances in the
/// order of their identifiers, as long as that distance is below the bound.
pub fn bounded_multi_source_shortest_paths(
    g: &Graph,
    sources: &[(Node, Weight)],
    bound: Weight,
) -> (r: BmsspResult)
    requires
        g.wf(),
        edge_count(g@) <= usize::MAX,
    ensures
        r@ == exploration(g@, sources@, bound),
        r.dist@ == bounded_distances(g@, sources@, bound),
        r.b_prime == tight_boundary(g@, sources@, bound),
        r.b_prime == Weight::MAX || r.b_prime >= bound,
        r.explored@.no_duplicates(),
        r.explored@.len() <= g@.len(),
        forall|i: int| 0 <= i < r.explored@.len() ==> (#[trigger] r.explored@[i]) < g@.len(),
        forall|v: int|
            0 <= v < g@.len() ==> (r.explored@.contains(v as Node) <==> #[trigger] r.dist@[v]
                < bound),
        forall|v: int|
            0 <= v < g@.len() ==> (!r.explored@.contains(v as Node) <==> #[trigger] r.dist@[v]
                == Weight::MAX),
        forall|i: int, j: int|
            0 <= i < j < r.explored@.len() ==> r.dist@[(#[trigger] r.explored@[i]) as int]
                <= r.dist@[(#[trigger] r.explored@[j]) as int],
        positive_weights(g@) ==> forall|i: int, j: int|
            0 <= i < j < r.explored@.len() ==> strictly_before(
                r.dist@[(#[trigger] r.explored@[i]) as int],
                r.explored@[i] as int,
                r.dist@[(#[trigger] r.explored@[j]) as int],
                r.explored@[j] as int,
            ),
        r.edges_scanned == degree_sum(g@, r.explored@),
        r.edges_scanned <= edge_count(g@),
        r.heap_pushes <= r.edges_scanned,
        (forall|i: int| 0 <= i < r.explored@.len() ==> g@[(#[trigger] r.explored@[i]) as int].len() >= 1)
            ==> r.edges_scanned >= r.explored@.len(),
{
    let n = g.len();
    let ghost adj = g@;
    let mut dist: Vec<Weight> = vec![Weight::MAX; n];
    assert(dist@ =~= Seq::new(n as nat, |v: int| Weight::MAX));
    let mut heap = MinHeap::new();
    let mut explored: Vec<Node> = Vec::new();

    let mut i: usize = 0;
    assert(sources@.take(0) =~= Seq::<(Node, Weight)>::empty());
    while i < sources.len()
        invariant
            i <= sources.len(),
            n == adj.len(),
            dist@ == seeded(n as nat, sources@.take(i as int), bound),
            dist@.len() == n,
            heap.wf(),
            heap_matches(initial(n as nat, sources@.take(i as int), bound), bound, heap@),
        decreases sources.len() - i,
    {
        let (s, d0) = sources[i];
        let ghost before = initial(n as nat, sources@.take(i as int), bound);
        let ghost after = initial(n as nat, sources@.take(i + 1), bound);
        proof {
            assert(sources@.take(i + 1).drop_last() =~= sources@.take(i as int));
        }
        if s < n && d0 < bound && d0 < dist[s] {
            dist[s] = d0;
            proof {
                lemma_lowered(before, after, bound, heap@, s as int, d0);
            }
            heap.push(Entry { d: d0, v: s });
        }
        i = i + 1;
    }
    assert(sources@.take(sources@.len() as int) =~= sources@);
    let mut b_prime = Weight::MAX;
    let mut edges_scanned: usize = 0;
    let mut heap_pushes: usize = 0;
    proof {
        lemma_initial(adj, sources@, bound);
        assert(state_of(dist@, explored@, b_prime, edges_scanned, heap_pushes) == initial(
            n as nat,
            sources@,
            bound,
        ));
    }

    loop
        invariant
            adj == g@,
            n == adj.len(),
            well_formed(adj),
            edge_count(adj) <= usize::MAX,
            dist@.len() == n,
            explored@.len() <= n,
            edges_scanned <= edge_count(adj),
            heap.wf(),
            between_settlements(
                adj,
                sources@,
                bound,
                state_of(dist@, explored@, b_prime, edges_scanned, heap_pushes),
            ),
            heap_matches(
                state_of(dist@, explored@, b_prime, edges_scanned, heap_pushes),
                bound,
                heap@,
            ),
            exploration(adj, sources@, bound) == run(
                adj,
                bound,
                state_of(dist@, explored@, b_prime, edges_scanned, heap_pushes),
                (n - explored@.len()) as nat,
            ),
        ensures
            forall|x: int|
                !pending(state_of(dist@, explored@, b_prime, edges_scanned, heap_pushes), x),
        decreases edge_count(adj) - edges_scanned + heap@.len(),
    {
        let ghost st = state_of(dist@, explored@, b_prime, edges_scanned, heap_pushes);
        let ghost held = heap@;
        match heap.pop() {
            None => {
                proof {
                    lemma_drained(st, bound, held);
                }
                break ;
            },
            Some(e) => {
                let d = e.d;
                let v = e.v;
                if d != dist[v] {
                    proof {
                        lemma_drop_stale(st, bound, held, e);
                    }
                    continue ;
                }
                if d >= bound {
                    // The halt at the bound. As only distances below the
                    // bound enter the heap, no entry ever brings it about.
                    if d < b_prime {
                        b_prime = d;
                    }
                    break ;
                }
                proof {
                    lemma_first_is_next(st, bound, held, e);
                    lemma_begin_settling(adj, sources@, bound, st, v as int);
                    lemma_run_step(adj, bound, st, v as int, (n - explored@.len()) as nat);
                }
                explored.push(v);
                let ghost base = with_settled(st, v as int);
                let out = &g.adj[v];
                let deg = out.len();
                let mut k: usize = 0;
                while k < deg
                    invariant
                        adj == g@,
                        n == adj.len(),
                        well_formed(adj),
                        edge_count(adj) <= usize::MAX,
                        dist@.len() == n,
                        v < n,
                        out@ == adj[v as int],
                        deg == out@.len(),
                        k <= deg,
                        dist@[v as int] == d,
                        explored@ == base.explored,
                        heap.wf(),
                        while_settling(
                            adj,
                            sources@,
                            bound,
                            state_of(dist@, explored@, b_prime, edges_scanned, heap_pushes),
                            v as int,
                            k as int,
                        ),
                        heap_matches(
                            state_of(dist@, explored@, b_prime, edges_scanned, heap_pushes),
                            bound,
                            heap@,
                        ),
                        state_of(dist@, explored@, b_prime, edges_scanned, heap_pushes)
                            == relax_edges(base, bound, d, adj[v as int], k as nat),
                        heap@.len() + st.edges_scanned <= held.len() - 1 + edges_scanned,
                    decreases deg - k,
                {
                    let ghost cur = state_of(dist@, explored@, b_prime, edges_scanned, heap_pushes);
                    let (to, w) = out[k];
                    proof {
                        lemma_relax(adj, sources@, bound, cur, v as int, k as int);
                        lemma_degree_sum_bounded(adj, explored@, n as nat);
                    }
                    edges_scanned = edges_scanned + 1;
                    let nd = d.saturating_add(w);
                    if nd < dist[to] && nd < bound {
                        dist[to] = nd;
                        proof {
                            lemma_lowered(
                                cur,
                                relax_edge(cur, bound, d, (to, w)),
                                bound,
                                heap@,
                                to as int,
                                nd,
                            );
                        }
                        heap.push(Entry { d: nd, v: to });
                        heap_pushes = heap_pushes + 1;
                    } else if nd >= bound && nd < b_prime {
                        b_prime = nd;
                        proof {
                            lemma_same_frontier(
                                cur,
                                relax_edge(cur, bound, d, (to, w)),
                                bound,
                                heap@,
                            );
                        }
                    } else {
                        proof {
                            lemma_same_frontier(
                                cur,
                                relax_edge(cur, bound, d, (to, w)),
                                bound,
                                heap@,
                            );
                        }
                    }
                    k = k + 1;
                    assert(state_of(dist@, explored@, b_prime, edges_scanned, heap_pushes)
                        == relax_edge(cur, bound, d, (to, w)));
                }
                proof {
                    let now = state_of(dist@, explored@, b_prime, edges_scanned, heap_pushes);
                    lemma_end_settling(adj, sources@, bound, now, v as int);
                    assert(now == settle(adj, bound, st, v as int));
                    lemma_degree_sum_bounded(adj, explored@, n as nat);
                }
            },
        }
    }
    proof {
        let end = state_of(dist@, explored@, b_prime, edges_scanned, heap_pushes);
        lemma_finished(adj, sources@, bound, end);
        lemma_run_done(adj, bound, end, (n - explored@.len()) as nat);
        lemma_distinct_length(explored@, n as nat);
        if forall|i: int|
            0 <= i < explored@.len() ==> adj[(#[trigger] explored@[i]) as int].len() >= 1 {
            lemma_degree_sum_covers(adj, explored@);
        }
        assert forall|v: int| 0 <= v < n implies (settled(end, v) <==> explored@.contains(
            v as Node,
        )) by {}
    }
    BmsspResult { dist, explored, b_prime, edges_scanned, heap_pushes }
}

} // verus!
