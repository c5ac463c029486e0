//! Laws of the exploration that relate one outcome to another: two bounds,
//! the sharded composition and the exploration itself, two explorations of
//! the same input.

use vstd::prelude::*;
use crate::graph::{Adjacency, Graph, Node, Weight, well_formed};
use crate::paths::{
    reaches, is_walk, walk_end, walk_weight, walk_from_source, is_distance, within,
    bounded_distance, bounded_distances, tight_boundary, crosses, crossing_cost,
    lemma_bounded_distance, lemma_bounded_distance_is, lemma_tight_boundary,
    lemma_edge_reached, lemma_walk_starts_in_graph, lemma_walk_weight_nonnegative,
};
use crate::exploration::{accepted, seeded, exploration};
use crate::explore::BmsspResult;
use crate::correctness::lemma_exploration;
use crate::shards::{
    shard_count, shard, shard_explorations, sharded_exploration, lemma_merged,
    lemma_reaches_from_shard, lemma_reaches_in_a_shard,
};

verus! {

/// Two explorations of the same graph from the same sources up to the same
/// bound have the same outcome: the same distances, the same settled
/// vertices in the same order, and the same boundary.
pub proof fn lemma_deterministic(
    g: Graph,
    sources: Seq<(Node, Weight)>,
    bound: Weight,
    first: BmsspResult,
    second: BmsspResult,
)
    requires
        first@ == exploration(g@, sources, bound),
        second@ == exploration(g@, sources, bound),
    ensures
        first.dist@ == second.dist@,
        first.explored@ == second.explored@,
        first.b_prime == second.b_prime,
{
}

/// The sources that are passed over count for nothing: the exploration from
/// the accepted sources alone has the same outcome.
pub proof fn lemma_passed_over(adj: Adjacency, sources: Seq<(Node, Weight)>, bound: Weight)
    ensures
        exploration(adj, accepted(adj.len(), sources, bound), bound) == exploration(
            adj,
            sources,
            bound,
        ),
{
    lemma_seeded_from_accepted(adj.len(), sources, bound);
}

/// The seeded distances are those that the accepted sources seed.
proof fn lemma_seeded_from_accepted(n: nat, sources: Seq<(Node, Weight)>, bound: Weight)
    ensures
        seeded(n, accepted(n, sources, bound), bound) == seeded(n, sources, bound),
    decreases sources.len(),
{
    if sources.len() > 0 {
        let before = accepted(n, sources.drop_last(), bound);
        lemma_seeded_from_accepted(n, sources.drop_last(), bound);
        if sources.last().0 < n && sources.last().1 < bound {
            assert(before.push(sources.last()).drop_last() =~= before);
        }
    }
}

/// Monotonicity in the bound, for the distances: a vertex found below the
/// smaller bound is found below the larger one, at the same distance.
pub proof fn lemma_monotone_distances(
    adj: Adjacency,
    sources: Seq<(Node, Weight)>,
    smaller: Weight,
    larger: Weight,
)
    requires
        well_formed(adj),
        adj.len() <= usize::MAX,
        smaller <= larger,
    ensures
        forall|v: int|
            0 <= v < adj.len() && (#[trigger] exploration(adj, sources, smaller).dist[v]) < smaller
                ==> exploration(adj, sources, larger).dist[v] == exploration(
                adj,
                sources,
                smaller,
            ).dist[v] && exploration(adj, sources, larger).dist[v] < larger,
{
    lemma_exploration(adj, sources, smaller);
    lemma_exploration(adj, sources, larger);
    assert forall|v: int|
        0 <= v < adj.len() && (#[trigger] exploration(adj, sources, smaller).dist[v])
            < smaller implies exploration(adj, sources, larger).dist[v] == exploration(
        adj,
        sources,
        smaller,
    ).dist[v] && exploration(adj, sources, larger).dist[v] < larger by {
        let d = bounded_distance(adj, sources, smaller, v);
        lemma_bounded_distance(adj, sources, smaller, v);
        lemma_bounded_distance_is(adj, sources, larger, v, d);
    }
}

/// The part of a least-cost walk before its last hop is a least-cost walk
/// to where it ends.
proof fn lemma_prefix_is_shortest(
    adj: Adjacency,
    sources: Seq<(Node, Weight)>,
    i: int,
    hops: Seq<int>,
)
    requires
        well_formed(adj),
        0 <= i < sources.len(),
        hops.len() > 0,
        is_walk(adj, sources[i].0 as int, hops),
        is_distance(
            adj,
            sources,
            walk_end(adj, sources[i].0 as int, hops),
            sources[i].1 + walk_weight(adj, sources[i].0 as int, hops),
        ),
    ensures
        is_distance(
            adj,
            sources,
            walk_end(adj, sources[i].0 as int, hops.drop_last()),
            sources[i].1 + walk_weight(adj, sources[i].0 as int, hops.drop_last()),
        ),
{
    let start = sources[i].0 as int;
    let before = hops.drop_last();
    let u = walk_end(adj, start, before);
    let c = sources[i].1 + walk_weight(adj, start, before);
    assert(walk_from_source(adj, sources, i, before, u, c));
    assert forall|c2: int| reaches(adj, sources, u, c2) implies c <= c2 by {
        lemma_edge_reached(adj, sources, u, c2, hops.last());
    }
}

/// A least-cost walk that starts below the bound and ends at or above it
/// takes an edge that crosses the bound, so the tight boundary is no more
/// than its cost.
proof fn lemma_walk_crosses(
    adj: Adjacency,
    sources: Seq<(Node, Weight)>,
    bound: Weight,
    i: int,
    hops: Seq<int>,
)
    requires
        well_formed(adj),
        0 <= i < sources.len(),
        is_walk(adj, sources[i].0 as int, hops),
        is_distance(
            adj,
            sources,
            walk_end(adj, sources[i].0 as int, hops),
            sources[i].1 + walk_weight(adj, sources[i].0 as int, hops),
        ),
        sources[i].1 < bound,
        sources[i].1 + walk_weight(adj, sources[i].0 as int, hops) >= bound,
    ensures
        tight_boundary(adj, sources, bound) <= sources[i].1 + walk_weight(
            adj,
            sources[i].0 as int,
            hops,
        ),
    decreases hops.len(),
{
    let start = sources[i].0 as int;
    if hops.len() > 0 {
        let before = hops.drop_last();
        let u = walk_end(adj, start, before);
        let c = sources[i].1 + walk_weight(adj, start, before);
        lemma_prefix_is_shortest(adj, sources, i, hops);
        lemma_walk_weight_nonnegative(adj, start, before);
        if c >= bound {
            lemma_walk_crosses(adj, sources, bound, i, before);
        } else {
            lemma_bounded_distance_is(adj, sources, bound, u, c as Weight);
            lemma_tight_boundary(adj, sources, bound);
            assert(crosses(adj, sources, bound, u, hops.last()));
        }
    }
}

/// Monotonicity in the bound, for the boundary: where every source that is
/// accepted under the larger bound is accepted under the smaller one too,
/// the tight boundary of the smaller bound is no more than that of the
/// larger.
///
/// A source whose initial distance lies between the two bounds is passed
/// over under the smaller bound, with all that it reaches, and may cross the
/// larger bound at a cost that nothing reaches under the smaller one.
pub proof fn lemma_monotone_boundary(
    adj: Adjacency,
    sources: Seq<(Node, Weight)>,
    smaller: Weight,
    larger: Weight,
)
    requires
        well_formed(adj),
        adj.len() <= usize::MAX,
        smaller <= larger,
        forall|i: int|
            0 <= i < sources.len() && (#[trigger] sources[i]).0 < adj.len() && sources[i].1
                < larger ==> sources[i].1 < smaller,
    ensures
        exploration(adj, sources, smaller).b_prime <= exploration(adj, sources, larger).b_prime,
{
    lemma_exploration(adj, sources, smaller);
    lemma_exploration(adj, sources, larger);
    lemma_tight_boundary(adj, sources, smaller);
    lemma_tight_boundary(adj, sources, larger);
    let high = tight_boundary(adj, sources, larger);
    if high != Weight::MAX {
        let (u, k) = choose|u: int, k: int|
            #[trigger] crosses(adj, sources, larger, u, k) && crossing_cost(
                adj,
                sources,
                larger,
                u,
                k,
            ) == high;
        let d = bounded_distance(adj, sources, larger, u);
        lemma_bounded_distance(adj, sources, larger, u);
        if d < smaller {
            lemma_bounded_distance_is(adj, sources, smaller, u, d);
            assert(crosses(adj, sources, smaller, u, k));
        } else {
            let (i, hops) = choose|i: int, hops: Seq<int>| #[trigger]
                walk_from_source(adj, sources, i, hops, u, d as int);
            lemma_walk_weight_nonnegative(adj, sources[i].0 as int, hops);
            lemma_walk_starts_in_graph(adj, sources[i].0 as int, hops);
            lemma_walk_crosses(adj, sources, smaller, i, hops);
        }
    }
}

/// A shard finds no vertex nearer than the sources do, and what the sources
/// find below the bound some shard finds at the same distance.
proof fn lemma_shard_distances(
    adj: Adjacency,
    sources: Seq<(Node, Weight)>,
    bound: Weight,
    t: nat,
    v: int,
)
    requires
        well_formed(adj),
        t > 0,
    ensures
        forall|j: nat|
            j < t ==> bounded_distance(adj, sources, bound, v) <= #[trigger] bounded_distance(
                adj,
                shard(sources, t, j),
                bound,
                v,
            ),
        bounded_distance(adj, sources, bound, v) < bound ==> exists|j: nat|
            j < t && #[trigger] bounded_distance(adj, shard(sources, t, j), bound, v)
                == bounded_distance(adj, sources, bound, v),
{
    let whole = bounded_distance(adj, sources, bound, v);
    lemma_bounded_distance(adj, sources, bound, v);
    assert forall|j: nat| j < t implies whole <= #[trigger] bounded_distance(
        adj,
        shard(sources, t, j),
        bound,
        v,
    ) by {
        let part = bounded_distance(adj, shard(sources, t, j), bound, v);
        lemma_bounded_distance(adj, shard(sources, t, j), bound, v);
        if part < bound {
            lemma_reaches_from_shard(adj, sources, t, j, v, part as int);
        }
    }
    if whole < bound {
        let j = lemma_reaches_in_a_shard(adj, sources, t, v, whole as int);
        let part = bounded_distance(adj, shard(sources, t, j), bound, v);
        lemma_bounded_distance(adj, shard(sources, t, j), bound, v);
        assert(within(adj, shard(sources, t, j), bound, v));
        assert(part == whole);
    }
}

/// Sharded equivalence. The sharded composition finds the distances that the
/// exploration finds, whatever the number of threads. Its boundary is the
/// sentinel or at least the bound, and no more than the boundary of the
/// exploration. It lists as settled, once each, the vertices whose distance
/// is below the bound.
pub proof fn lemma_sharded_equivalence(
    adj: Adjacency,
    sources: Seq<(Node, Weight)>,
    bound: Weight,
    threads: usize,
)
    requires
        well_formed(adj),
        adj.len() <= usize::MAX,
    ensures
        ({
            let s = sharded_exploration(adj, sources, bound, threads);
            let r = exploration(adj, sources, bound);
            &&& s.dist == r.dist
            &&& s.dist == bounded_distances(adj, sources, bound)
            &&& s.b_prime <= r.b_prime
            &&& s.b_prime == Weight::MAX || s.b_prime >= bound
            &&& s.explored.no_duplicates()
            &&& forall|i: int| 0 <= i < s.explored.len() ==> (#[trigger] s.explored[i]) < adj.len()
            &&& forall|v: int|
                0 <= v < adj.len() ==> (s.explored.contains(v as Node) <==> #[trigger] s.dist[v]
                    < bound)
            &&& forall|v: int|
                0 <= v < adj.len() ==> (!s.explored.contains(v as Node) <==> #[trigger] s.dist[v]
                    == Weight::MAX)
        }),
{
    let t = shard_count(threads, sources.len());
    let s = sharded_exploration(adj, sources, bound, threads);
    let r = exploration(adj, sources, bound);
    let n = adj.len();
    lemma_exploration(adj, sources, bound);
    if t > 1 {
        let parts = shard_explorations(adj, sources, bound, t);
        assert forall|j: int| 0 <= j < t implies {
            &&& (#[trigger] parts[j]).dist == bounded_distances(
                adj,
                shard(sources, t, j as nat),
                bound,
            )
            &&& parts[j].b_prime == tight_boundary(adj, shard(sources, t, j as nat), bound)
            &&& parts[j].dist.len() == n
            &&& forall|i: int|
                0 <= i < parts[j].explored.len() ==> (#[trigger] parts[j].explored[i]) < n
            &&& forall|v: int|
                0 <= v < n ==> (parts[j].explored.contains(v as Node) <==> #[trigger] parts[j].dist[v]
                    < bound)
        } by {
            lemma_exploration(adj, shard(sources, t, j as nat), bound);
        }
        lemma_merged(n, parts);
        assert forall|v: int| 0 <= v < n implies #[trigger] s.dist[v] == bounded_distance(
            adj,
            sources,
            bound,
            v,
        ) by {
            lemma_shard_distances(adj, sources, bound, t, v);
            lemma_bounded_distance(adj, sources, bound, v);
            let whole = bounded_distance(adj, sources, bound, v);
            assert forall|j: int| 0 <= j < t implies whole <= (#[trigger] parts[j]).dist[v] by {
                assert(parts[j].dist[v] == bounded_distance(
                    adj,
                    shard(sources, t, j as nat),
                    bound,
                    v,
                ));
            }
            if whole < bound {
                let j = choose|j: nat|
                    j < t && #[trigger] bounded_distance(adj, shard(sources, t, j), bound, v)
                        == whole;
                assert(parts[j as int].dist[v] == whole);
                assert(s.dist[v] <= parts[j as int].dist[v]);
            }
            if s.dist[v] != Weight::MAX {
                let j = choose|j: int|
                    0 <= j < parts.len() && s.dist[v] == (#[trigger] parts[j]).dist[v];
                assert(whole <= parts[j].dist[v]);
            }
        }
        assert(s.dist =~= bounded_distances(adj, sources, bound));
        lemma_tight_boundary(adj, sources, bound);
        let high = tight_boundary(adj, sources, bound);
        if high != Weight::MAX {
            let (u, k) = choose|u: int, k: int|
                #[trigger] crosses(adj, sources, bound, u, k) && crossing_cost(
                    adj,
                    sources,
                    bound,
                    u,
                    k,
                ) == high;
            lemma_shard_distances(adj, sources, bound, t, u);
            let j = choose|j: nat|
                j < t && #[trigger] bounded_distance(adj, shard(sources, t, j), bound, u)
                    == bounded_distance(adj, sources, bound, u);
            lemma_tight_boundary(adj, shard(sources, t, j), bound);
            assert(crosses(adj, shard(sources, t, j), bound, u, k));
            assert(s.b_prime <= parts[j as int].b_prime);
        }
        if s.b_prime != Weight::MAX {
            let j = choose|j: int|
                0 <= j < parts.len() && s.b_prime == (#[trigger] parts[j]).b_prime;
            lemma_tight_boundary(adj, shard(sources, t, j as nat), bound);
        }
        assert forall|i: int| 0 <= i < s.explored.len() implies (#[trigger] s.explored[i]) < n by {
            let x = s.explored[i];
            assert(s.explored.contains(x));
            let j = choose|j: int|
                0 <= j < parts.len() && (#[trigger] parts[j]).explored.contains(x);
            let i2 = choose|i2: int|
                0 <= i2 < parts[j].explored.len() && parts[j].explored[i2] == x;
            assert(parts[j].explored[i2] < n);
        }
        assert forall|v: int| 0 <= v < n implies (s.explored.contains(v as Node) <==> #[trigger] s.dist[v]
            < bound) by {
            if s.explored.contains(v as Node) {
                let j = choose|j: int|
                    0 <= j < parts.len() && (#[trigger] parts[j]).explored.contains(v as Node);
                assert(parts[j].dist[v] < bound);
                assert(s.dist[v] <= parts[j].dist[v]);
            }
            if s.dist[v] < bound {
                let j = choose|j: int|
                    0 <= j < parts.len() && s.dist[v] == (#[trigger] parts[j]).dist[v];
                assert(parts[j].explored.contains(v as Node));
            }
        }
        assert forall|v: int| 0 <= v < n implies (!s.explored.contains(v as Node) <==> #[trigger] s.dist[v]
            == Weight::MAX) by {
            lemma_bounded_distance(adj, sources, bound, v);
            assert(s.dist[v] == bounded_distance(adj, sources, bound, v));
        }
    }
}

/// Sharded equivalence, for the boundary: where each edge that crosses the
/// bound from the distance that a shard finds also crosses it from the
/// distance that the sources find, the sharded composition has the boundary
/// of the exploration.
///
/// A shard may find a vertex farther from its own sources than the vertex
/// is from all of them, and an edge may cross the bound from the farther
/// distance and stay below it from the nearer.
pub proof fn lemma_sharded_boundary(
    adj: Adjacency,
    sources: Seq<(Node, Weight)>,
    bound: Weight,
    threads: usize,
)
    requires
        well_formed(adj),
        adj.len() <= usize::MAX,
        forall|j: nat, u: int, k: int|
            j < shard_count(threads, sources.len()) && #[trigger] crosses(
                adj,
                shard(sources, shard_count(threads, sources.len()), j),
                bound,
                u,
                k,
            ) ==> bounded_distance(adj, sources, bound, u) + adj[u][k].1 >= bound,
    ensures
        sharded_exploration(adj, sources, bound, threads).b_prime == exploration(
            adj,
            sources,
            bound,
        ).b_prime,
{
    let t = shard_count(threads, sources.len());
    let s = sharded_exploration(adj, sources, bound, threads);
    let n = adj.len();
    lemma_exploration(adj, sources, bound);
    lemma_sharded_equivalence(adj, sources, bound, threads);
    if t > 1 && s.b_prime != Weight::MAX {
        let parts = shard_explorations(adj, sources, bound, t);
        assert forall|j: int| 0 <= j < t implies (#[trigger] parts[j]).dist.len() == n by {
            lemma_exploration(adj, shard(sources, t, j as nat), bound);
        }
        lemma_merged(n, parts);
        let j = choose|j: int| 0 <= j < parts.len() && s.b_prime == (#[trigger] parts[j]).b_prime;
        let part = shard(sources, t, j as nat);
        lemma_exploration(adj, part, bound);
        lemma_tight_boundary(adj, part, bound);
        lemma_tight_boundary(adj, sources, bound);
        let (u, k) = choose|u: int, k: int|
            #[trigger] crosses(adj, part, bound, u, k) && crossing_cost(adj, part, bound, u, k)
                == s.b_prime;
        lemma_shard_distances(adj, sources, bound, t, u);
        assert(bounded_distance(adj, sources, bound, u) <= bounded_distance(adj, part, bound, u));
        assert(crosses(adj, sources, bound, u, k));
    }
}

} // verus!
