//! The sharded composition: the sources are dealt out to shards, each shard
//! is explored on its own, and the outcomes are merged.

use vstd::prelude::*;
use std::collections::HashSet;
use crate::graph::{Graph, Node, Weight, edge_count};
use crate::paths::{bounded_distances, tight_boundary};
use crate::exploration::{Exploration, exploration};
use crate::explore::{BmsspResult, state_of, bounded_multi_source_shortest_paths};
use crate::shards::{
    shard_count, shard, append_new, lesser, merge_one, merged, shard_explorations,
    sharded_exploration, lemma_merged_counters, lemma_merged_counters_grow,
};
use crate::correctness::lemma_exploration;
use crate::laws::lemma_sharded_equivalence;
use crate::invariants::lemma_push_contains;

verus! {

/// The outcomes that the results stand for, in their order.
pub open spec fn outcomes(parts: Seq<BmsspResult>) -> Seq<Exploration> {
    Seq::new(parts.len(), |j: int| parts[j]@)
}

/// The number of shards for a number of threads asked for and a number of
/// sources: at least one, and no more than there are sources.
pub fn clamp_shards(threads: usize, sources: usize) -> (t: usize)
    ensures
        t == shard_count(threads, sources as nat),
        t >= 1,
{
    let wanted = if threads < 1 {
        1
    } else {
        threads
    };
    let most = if sources < 1 {
        1
    } else {
        sources
    };
    if wanted < most {
        wanted
    } else {
        most
    }
}

/// Deals the sources out to `t` shards in turn: the source at position `i`
/// goes to the shard `i % t`.
pub fn shard_sources(sources: &[(Node, Weight)], t: usize) -> (shards: Vec<Vec<(Node, Weight)>>)
    requires
        t >= 1,
    ensures
        shards@.len() == t,
        forall|j: int| 0 <= j < t ==> (#[trigger] shards@[j])@ == shard(sources@, t as nat, j as nat),
{
    let mut shards: Vec<Vec<(Node, Weight)>> = Vec::new();
    let mut j: usize = 0;
    while j < t
        invariant
            j <= t,
            shards@.len() == j,
            forall|k: int| 0 <= k < j ==> (#[trigger] shards@[k])@ == Seq::<(Node, Weight)>::empty(),
        decreases t - j,
    {
        shards.push(Vec::new());
        j = j + 1;
    }
    let mut i: usize = 0;
    assert(sources@.take(0) =~= Seq::<(Node, Weight)>::empty());
    while i < sources.len()
        invariant
            t >= 1,
            i <= sources.len(),
            shards@.len() == t,
            forall|k: int|
                0 <= k < t ==> (#[trigger] shards@[k])@ == shard(
                    sources@.take(i as int),
                    t as nat,
                    k as nat,
                ),
        decreases sources.len() - i,
    {
        let ghost before = shards@;
        let sw = sources[i];
        shards[i % t].push(sw);
        proof {
            assert(sources@.take(i + 1).drop_last() =~= sources@.take(i as int));
            assert forall|k: int| 0 <= k < t implies (#[trigger] shards@[k])@ == shard(
                sources@.take(i + 1),
                t as nat,
                k as nat,
            ) by {
                assert(before[k]@ == shard(sources@.take(i as int), t as nat, k as nat));
            }
        }
        i = i + 1;
    }
    assert(sources@.take(sources@.len() as int) =~= sources@);
    shards
}

/// Merges the outcomes of explorations of one graph of `n` vertices: at each
/// vertex the least of the distances, the settled vertices of all parts in
/// the order in which they first occur, the least of the boundaries, and
/// the sums of the counters.
pub fn merge_results(n: usize, parts: &[BmsspResult]) -> (r: BmsspResult)
    requires
        forall|j: int| 0 <= j < parts@.len() ==> (#[trigger] parts@[j]).dist@.len() == n,
        merged(n as nat, outcomes(parts@)).edges_scanned <= usize::MAX,
        merged(n as nat, outcomes(parts@)).heap_pushes <= usize::MAX,
    ensures
        r@ == merged(n as nat, outcomes(parts@)),
{
    broadcast use vstd::std_specs::hash::group_hash_axioms;

    let ghost all = outcomes(parts@);
    let mut dist: Vec<Weight> = vec![Weight::MAX; n];
    assert(dist@ =~= Seq::new(n as nat, |v: int| Weight::MAX));
    let mut explored: Vec<Node> = Vec::new();
    let mut b_prime = Weight::MAX;
    let mut edges_scanned: usize = 0;
    let mut heap_pushes: usize = 0;
    let mut seen: HashSet<Node> = HashSet::new();
    let mut j: usize = 0;
    assert(all.take(0) =~= Seq::<Exploration>::empty());
    while j < parts.len()
        invariant
            j <= parts@.len(),
            all == outcomes(parts@),
            forall|k: int| 0 <= k < parts@.len() ==> (#[trigger] parts@[k]).dist@.len() == n,
            merged(n as nat, all).edges_scanned <= usize::MAX,
            merged(n as nat, all).heap_pushes <= usize::MAX,
            dist@.len() == n,
            state_of(dist@, explored@, b_prime, edges_scanned, heap_pushes) == merged(
                n as nat,
                all.take(j as int),
            ),
            forall|x: Node| seen@.contains(x) <==> explored@.contains(x),
        decreases parts@.len() - j,
    {
        let r = &parts[j];
        let ghost acc = merged(n as nat, all.take(j as int));
        proof {
            assert(all.take(j + 1).drop_last() =~= all.take(j as int));
            assert(all.take(j + 1).last() == r@);
            lemma_merged_counters_grow(n as nat, all, j + 1);
        }
        let mut v: usize = 0;
        while v < n
            invariant
                v <= n,
                r.dist@.len() == n,
                dist@.len() == n,
                acc.dist.len() == n,
                forall|u: int| 0 <= u < v ==> dist@[u] == lesser(acc.dist[u], r.dist@[u]),
                forall|u: int| v <= u < n ==> dist@[u] == acc.dist[u],
            decreases n - v,
        {
            let d = r.dist[v];
            if d < dist[v] {
                dist[v] = d;
            }
            v = v + 1;
        }
        let mut k: usize = 0;
        assert(r.explored@.take(0) =~= Seq::<Node>::empty());
        while k < r.explored.len()
            invariant
                k <= r.explored@.len(),
                explored@ == append_new(acc.explored, r.explored@.take(k as int)),
                forall|x: Node| seen@.contains(x) <==> explored@.contains(x),
            decreases r.explored@.len() - k,
        {
            let x = r.explored[k];
            let ghost listed = explored@;
            proof {
                assert(r.explored@.take(k + 1).drop_last() =~= r.explored@.take(k as int));
            }
            if seen.insert(x) {
                explored.push(x);
                proof {
                    assert forall|y: Node| seen@.contains(y) <==> explored@.contains(y) by {
                        lemma_push_contains(listed, x, y);
                    }
                }
            }
            k = k + 1;
        }
        assert(r.explored@.take(r.explored@.len() as int) =~= r.explored@);
        if r.b_prime < b_prime {
            b_prime = r.b_prime;
        }
        edges_scanned = edges_scanned + r.edges_scanned;
        heap_pushes = heap_pushes + r.heap_pushes;
        j = j + 1;
        proof {
            assert(dist@ =~= merge_one(acc, r@).dist);
        }
    }
    assert(all.take(parts@.len() as int) =~= all);
    BmsspResult { dist, explored, b_prime, edges_scanned, heap_pushes }
}

/// Explores `g` from `sources` up to `bound` in as many shards as `threads`
/// asks for, clamped to at least one and at most the number of sources, and
/// merges the outcomes. With one shard this is the exploration itself.
///
/// The shards are explored one after the other. As no shard sees what
/// another does, the outcome is the one that exploring them side by side
/// would give.
pub fn bmssp_sharded(g: &Graph, sources: &[(Node, Weight)], bound: Weight, threads: usize) -> (r:
    BmsspResult)
    requires
        g.wf(),
        shard_count(threads, sources@.len()) * edge_count(g@) <= usize::MAX,
    ensures
        r@ == sharded_exploration(g@, sources@, bound, threads),
        r.dist@ == bounded_distances(g@, sources@, bound),
        r.dist@ == exploration(g@, sources@, bound).dist,
        r.b_prime <= tight_boundary(g@, sources@, bound),
        r.b_prime == Weight::MAX || r.b_prime >= bound,
        r.explored@.no_duplicates(),
        forall|i: int| 0 <= i < r.explored@.len() ==> (#[trigger] r.explored@[i]) < g@.len(),
        forall|v: int|
            0 <= v < g@.len() ==> (r.explored@.contains(v as Node) <==> #[trigger] r.dist@[v]
                < bound),
        forall|v: int|
            0 <= v < g@.len() ==> (!r.explored@.contains(v as Node) <==> #[trigger] r.dist@[v]
                == Weight::MAX),
{
    let t = clamp_shards(threads, sources.len());
    let n = g.len();
    let ghost adj = g@;
    proof {
        lemma_sharded_equivalence(adj, sources@, bound, threads);
        lemma_exploration(adj, sources@, bound);
        assert(edge_count(adj) <= t * edge_count(adj)) by (nonlinear_arith)
            requires
                t >= 1,
        ;
    }
    if t <= 1 {
        return bounded_multi_source_shortest_paths(g, sources, bound);
    }
    let shards = shard_sources(sources, t);
    let mut parts: Vec<BmsspResult> = Vec::new();
    let mut j: usize = 0;
    while j < t
        invariant
            j <= t,
            adj == g@,
            adj.len() == n,
            g.wf(),
            edge_count(adj) <= usize::MAX,
            shards@.len() == t,
            forall|k: int|
                0 <= k < t ==> (#[trigger] shards@[k])@ == shard(sources@, t as nat, k as nat),
            parts@.len() == j,
            forall|k: int|
                0 <= k < j ==> {
                    &&& (#[trigger] parts@[k])@ == exploration(
                        adj,
                        shard(sources@, t as nat, k as nat),
                        bound,
                    )
                    &&& parts@[k].dist@.len() == adj.len()
                    &&& parts@[k].edges_scanned <= edge_count(adj)
                    &&& parts@[k].heap_pushes <= edge_count(adj)
                },
        decreases t - j,
    {
        let part = bounded_multi_source_shortest_paths(g, shards[j].as_slice(), bound);
        parts.push(part);
        j = j + 1;
    }
    proof {
        let all = outcomes(parts@);
        assert(all =~= shard_explorations(adj, sources@, bound, t as nat));
        lemma_merged_counters(adj.len(), all, edge_count(adj));
    }
    merge_results(n, parts.as_slice())
}

} // verus!
