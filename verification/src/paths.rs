//! Walks that start at a source, the distances that they define, and the
//! tight boundary of a bound.

use vstd::prelude::*;
use crate::graph::{Adjacency, Node, Weight, well_formed};

verus! {

/// A walk is given by the vertex it starts at and by its hops: the position,
/// in the adjacency list of the vertex reached so far, of each edge taken.
/// This is the vertex at which the walk ends.
pub open spec fn walk_end(adj: Adjacency, start: int, hops: Seq<int>) -> int
    decreases hops.len(),
{
    if hops.len() == 0 {
        start
    } else {
        adj[walk_end(adj, start, hops.drop_last())][hops.last()].0 as int
    }
}

/// The walk starts at a vertex of the graph and each hop names an edge that
/// leaves the vertex reached before it.
pub open spec fn is_walk(adj: Adjacency, start: int, hops: Seq<int>) -> bool
    decreases hops.len(),
{
    if hops.len() == 0 {
        0 <= start < adj.len()
    } else {
        &&& is_walk(adj, start, hops.drop_last())
        &&& 0 <= walk_end(adj, start, hops.drop_last()) < adj.len()
        &&& 0 <= hops.last() < adj[walk_end(adj, start, hops.drop_last())].len()
    }
}

/// The sum of the weights of the edges taken.
pub open spec fn walk_weight(adj: Adjacency, start: int, hops: Seq<int>) -> int
    decreases hops.len(),
{
    if hops.len() == 0 {
        0
    } else {
        walk_weight(adj, start, hops.drop_last()) + adj[walk_end(
            adj,
            start,
            hops.drop_last(),
        )][hops.last()].1
    }
}

/// The walk `hops` from the `i`-th source ends at `v`, and the source's
/// initial distance plus the walk's weight is `c`.
pub open spec fn walk_from_source(
    adj: Adjacency,
    sources: Seq<(Node, Weight)>,
    i: int,
    hops: Seq<int>,
    v: int,
    c: int,
) -> bool {
    &&& 0 <= i < sources.len()
    &&& is_walk(adj, sources[i].0 as int, hops)
    &&& walk_end(adj, sources[i].0 as int, hops) == v
    &&& sources[i].1 + walk_weight(adj, sources[i].0 as int, hops) == c
}

/// Some walk from some source ends at `v` at cost `c`. Sources that are not
/// vertices of the graph start no walk.
pub open spec fn reaches(adj: Adjacency, sources: Seq<(Node, Weight)>, v: int, c: int) -> bool {
    exists|i: int, hops: Seq<int>| #[trigger] walk_from_source(adj, sources, i, hops, v, c)
}

/// `d` is the least cost at which `v` is reached.
pub open spec fn is_distance(adj: Adjacency, sources: Seq<(Node, Weight)>, v: int, d: int) -> bool {
    &&& reaches(adj, sources, v, d)
    &&& forall|c: int| reaches(adj, sources, v, c) ==> d <= c
}

/// `v` is reached at a cost below `bound`.
pub open spec fn within(adj: Adjacency, sources: Seq<(Node, Weight)>, bound: Weight, v: int) -> bool {
    exists|c: int| c < bound && #[trigger] reaches(adj, sources, v, c)
}

/// The distance of `v` from the sources where that is below `bound`, and the
/// sentinel `Weight::MAX` everywhere else.
pub open spec fn bounded_distance(
    adj: Adjacency,
    sources: Seq<(Node, Weight)>,
    bound: Weight,
    v: int,
) -> Weight {
    if within(adj, sources, bound, v) {
        (choose|d: int| is_distance(adj, sources, v, d)) as Weight
    } else {
        Weight::MAX
    }
}

/// The bounded distance of every vertex, in order.
pub open spec fn bounded_distances(
    adj: Adjacency,
    sources: Seq<(Node, Weight)>,
    bound: Weight,
) -> Seq<Weight> {
    Seq::new(adj.len(), |v: int| bounded_distance(adj, sources, bound, v))
}

/// The sum of a distance and a weight, capped at the sentinel.
pub open spec fn saturating_sum(d: Weight, w: Weight) -> Weight {
    if d + w > Weight::MAX {
        Weight::MAX
    } else {
        (d + w) as Weight
    }
}

/// The `k`-th edge out of `u` crosses the bound: `u` lies below `bound` and
/// the edge leads from there to a cost of `bound` or more.
pub open spec fn crosses(
    adj: Adjacency,
    sources: Seq<(Node, Weight)>,
    bound: Weight,
    u: int,
    k: int,
) -> bool {
    &&& 0 <= u < adj.len()
    &&& 0 <= k < adj[u].len()
    &&& bounded_distance(adj, sources, bound, u) < bound
    &&& bounded_distance(adj, sources, bound, u) + adj[u][k].1 >= bound
}

/// The cost to which a crossing edge leads, capped at the sentinel.
pub open spec fn crossing_cost(
    adj: Adjacency,
    sources: Seq<(Node, Weight)>,
    bound: Weight,
    u: int,
    k: int,
) -> Weight {
    saturating_sum(bounded_distance(adj, sources, bound, u), adj[u][k].1)
}

/// `b` is the least cost of a crossing edge, or the sentinel where no edge
/// crosses the bound.
pub open spec fn is_tight_boundary(
    adj: Adjacency,
    sources: Seq<(Node, Weight)>,
    bound: Weight,
    b: Weight,
) -> bool {
    &&& b == Weight::MAX || exists|u: int, k: int|
        #[trigger] crosses(adj, sources, bound, u, k) && crossing_cost(adj, sources, bound, u, k)
            == b
    &&& forall|u: int, k: int| #[trigger]
        crosses(adj, sources, bound, u, k) ==> b <= crossing_cost(adj, sources, bound, u, k)
}

/// The tight boundary of `bound`: the least cost, capped at the sentinel, to
/// which an edge leads from a vertex below the bound to the bound or beyond;
/// the sentinel where there is no such edge.
pub open spec fn tight_boundary(
    adj: Adjacency,
    sources: Seq<(Node, Weight)>,
    bound: Weight,
) -> Weight {
    choose|b: Weight| is_tight_boundary(adj, sources, bound, b)
}

/// A walk in a well-formed graph ends at a vertex of the graph.
pub proof fn lemma_walk_end_in_graph(adj: Adjacency, start: int, hops: Seq<int>)
    requires
        well_formed(adj),
        is_walk(adj, start, hops),
    ensures
        0 <= walk_end(adj, start, hops) < adj.len(),
    decreases hops.len(),
{
    if hops.len() > 0 {
        let u = walk_end(adj, start, hops.drop_last());
        assert(adj[u][hops.last()].0 < adj.len());
    }
}

/// A walk starts at a vertex of the graph.
pub proof fn lemma_walk_starts_in_graph(adj: Adjacency, start: int, hops: Seq<int>)
    requires
        is_walk(adj, start, hops),
    ensures
        0 <= start < adj.len(),
    decreases hops.len(),
{
    if hops.len() > 0 {
        lemma_walk_starts_in_graph(adj, start, hops.drop_last());
    }
}

/// The weight of a walk is not negative.
pub proof fn lemma_walk_weight_nonnegative(adj: Adjacency, start: int, hops: Seq<int>)
    ensures
        walk_weight(adj, start, hops) >= 0,
    decreases hops.len(),
{
    if hops.len() > 0 {
        lemma_walk_weight_nonnegative(adj, start, hops.drop_last());
    }
}

/// Whatever is reached is a vertex of the graph, and its cost is at least
/// the initial distance of some source, so not negative.
pub proof fn lemma_reaches_in_graph(adj: Adjacency, sources: Seq<(Node, Weight)>, v: int, c: int)
    requires
        well_formed(adj),
        reaches(adj, sources, v, c),
    ensures
        0 <= v < adj.len(),
        c >= 0,
{
    let (i, hops) = choose|i: int, hops: Seq<int>| #[trigger]
        walk_from_source(adj, sources, i, hops, v, c);
    lemma_walk_end_in_graph(adj, sources[i].0 as int, hops);
    lemma_walk_weight_nonnegative(adj, sources[i].0 as int, hops);
}

/// A source that is a vertex of the graph is reached at its initial
/// distance.
pub proof fn lemma_source_reached(adj: Adjacency, sources: Seq<(Node, Weight)>, i: int)
    requires
        0 <= i < sources.len(),
        sources[i].0 < adj.len(),
    ensures
        reaches(adj, sources, sources[i].0 as int, sources[i].1 as int),
{
    assert(walk_from_source(
        adj,
        sources,
        i,
        Seq::<int>::empty(),
        sources[i].0 as int,
        sources[i].1 as int,
    ));
}

/// Where `u` is reached at cost `c`, the `k`-th edge out of `u` reaches its
/// destination at `c` plus its weight.
pub proof fn lemma_edge_reached(
    adj: Adjacency,
    sources: Seq<(Node, Weight)>,
    u: int,
    c: int,
    k: int,
)
    requires
        reaches(adj, sources, u, c),
        0 <= u < adj.len(),
        0 <= k < adj[u].len(),
    ensures
        reaches(adj, sources, adj[u][k].0 as int, c + adj[u][k].1),
{
    let (i, hops) = choose|i: int, hops: Seq<int>| #[trigger]
        walk_from_source(adj, sources, i, hops, u, c);
    let longer = hops.push(k);
    assert(longer.drop_last() =~= hops);
    assert(walk_from_source(adj, sources, i, longer, adj[u][k].0 as int, c + adj[u][k].1));
}

/// Among the costs at which a vertex is reached there is a least one.
pub proof fn lemma_distance_exists(adj: Adjacency, sources: Seq<(Node, Weight)>, v: int, c: int)
    requires
        well_formed(adj),
        reaches(adj, sources, v, c),
    ensures
        exists|d: int| is_distance(adj, sources, v, d) && d <= c,
    decreases c,
{
    lemma_reaches_in_graph(adj, sources, v, c);
    if exists|c2: int| c2 < c && reaches(adj, sources, v, c2) {
        let c2 = choose|c2: int| c2 < c && reaches(adj, sources, v, c2);
        lemma_reaches_in_graph(adj, sources, v, c2);
        lemma_distance_exists(adj, sources, v, c2);
    } else {
        assert(is_distance(adj, sources, v, c));
    }
}

/// What the bounded distance of a vertex is: below the bound it is the least
/// cost at which the vertex is reached; it is the sentinel exactly where
/// every walk to the vertex costs the bound or more.
pub proof fn lemma_bounded_distance(
    adj: Adjacency,
    sources: Seq<(Node, Weight)>,
    bound: Weight,
    v: int,
)
    requires
        well_formed(adj),
    ensures
        bounded_distance(adj, sources, bound, v) < bound ==> is_distance(
            adj,
            sources,
            v,
            bounded_distance(adj, sources, bound, v) as int,
        ),
        bounded_distance(adj, sources, bound, v) < bound || bounded_distance(
            adj,
            sources,
            bound,
            v,
        ) == Weight::MAX,
        !(bounded_distance(adj, sources, bound, v) < bound) ==> forall|c: int|
            reaches(adj, sources, v, c) ==> c >= bound,
{
    if within(adj, sources, bound, v) {
        let c = choose|c: int| c < bound && #[trigger] reaches(adj, sources, v, c);
        lemma_distance_exists(adj, sources, v, c);
        let d = choose|d: int| is_distance(adj, sources, v, d);
        lemma_reaches_in_graph(adj, sources, v, d);
        assert(d <= c);
    }
}

/// A value that meets the description of the bounded distance of `v` is the
/// bounded distance of `v`.
pub proof fn lemma_bounded_distance_is(
    adj: Adjacency,
    sources: Seq<(Node, Weight)>,
    bound: Weight,
    v: int,
    d: Weight,
)
    requires
        well_formed(adj),
        d < bound ==> is_distance(adj, sources, v, d as int),
        !(d < bound) ==> d == Weight::MAX && forall|c: int|
            reaches(adj, sources, v, c) ==> c >= bound,
    ensures
        bounded_distance(adj, sources, bound, v) == d,
{
    lemma_bounded_distance(adj, sources, bound, v);
    if d < bound {
        assert(within(adj, sources, bound, v));
    }
}

/// A value that meets the description of the tight boundary is the tight
/// boundary.
pub proof fn lemma_tight_boundary_is(
    adj: Adjacency,
    sources: Seq<(Node, Weight)>,
    bound: Weight,
    b: Weight,
)
    requires
        is_tight_boundary(adj, sources, bound, b),
    ensures
        tight_boundary(adj, sources, bound) == b,
{
    let t = tight_boundary(adj, sources, bound);
    assert(is_tight_boundary(adj, sources, bound, t));
}

/// Every bound has a tight boundary, which is the sentinel or at least the
/// bound.
pub proof fn lemma_tight_boundary(adj: Adjacency, sources: Seq<(Node, Weight)>, bound: Weight)
    ensures
        is_tight_boundary(adj, sources, bound, tight_boundary(adj, sources, bound)),
        tight_boundary(adj, sources, bound) == Weight::MAX || tight_boundary(adj, sources, bound)
            >= bound,
{
    lemma_least_crossing(adj, sources, bound, Weight::MAX);
    let t = tight_boundary(adj, sources, bound);
    if t != Weight::MAX {
        let (u, k) = choose|u: int, k: int|
            #[trigger] crosses(adj, sources, bound, u, k) && crossing_cost(
                adj,
                sources,
                bound,
                u,
                k,
            ) == t;
    }
}

/// Below any cap there is a least crossing cost, or none at all.
proof fn lemma_least_crossing(
    adj: Adjacency,
    sources: Seq<(Node, Weight)>,
    bound: Weight,
    cap: Weight,
)
    requires
        cap == Weight::MAX || exists|u: int, k: int|
            #[trigger] crosses(adj, sources, bound, u, k) && crossing_cost(
                adj,
                sources,
                bound,
                u,
                k,
            ) == cap,
    ensures
        exists|b: Weight| is_tight_boundary(adj, sources, bound, b),
    decreases cap,
{
    if exists|u: int, k: int|
        #[trigger] crosses(adj, sources, bound, u, k) && crossing_cost(adj, sources, bound, u, k)
            < cap {
        let (u, k) = choose|u: int, k: int|
            #[trigger] crosses(adj, sources, bound, u, k) && crossing_cost(
                adj,
                sources,
                bound,
                u,
                k,
            ) < cap;
        lemma_least_crossing(adj, sources, bound, crossing_cost(adj, sources, bound, u, k));
    } else {
        assert(is_tight_boundary(adj, sources, bound, cap));
    }
}

} // verus!
