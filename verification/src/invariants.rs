//! The invariants of an exploration, and the lemmas by which each of its
//! steps keeps them.

use vstd::prelude::*;
use crate::graph::{Adjacency, Node, Weight, well_formed, edges_below};
use crate::paths::{
    reaches, saturating_sum, lemma_edge_reached, lemma_source_reached, is_walk, walk_end,
    walk_weight, walk_from_source, bounded_distance, bounded_distances, tight_boundary, crosses,
    crossing_cost, lemma_walk_end_in_graph, lemma_bounded_distance_is, lemma_tight_boundary_is,
};
use crate::exploration::{
    Exploration, seeded, initial, lowers, relax_edge, pending, is_next, with_settled, degree_sum,
    positive_weights, strictly_before,
};

verus! {

/// `u` is a vertex that has been settled.
pub open spec fn settled(st: Exploration, u: int) -> bool {
    0 <= u < st.dist.len() && st.explored.contains(u as Node)
}

/// Appending to a sequence adds the new element to what it contains.
pub proof fn lemma_push_contains(s: Seq<Node>, a: Node, x: Node)
    ensures
        s.push(a).contains(x) <==> (s.contains(x) || x == a),
{
    if s.contains(x) {
        let i = choose|i: int| 0 <= i < s.len() && s[i] == x;
        assert(s.push(a)[i] == x);
    }
    if x == a {
        assert(s.push(a)[s.len() as int] == x);
    }
    if s.push(a).contains(x) {
        let i = choose|i: int| 0 <= i < s.push(a).len() && s.push(a)[i] == x;
        if i < s.len() {
            assert(s[i] == x);
        }
    }
}

/// A list without repetition of vertices below `n`, once the vertex `n - 1`
/// is taken out of it, is a list without repetition of vertices below
/// `n - 1`.
proof fn lemma_without_greatest(s: Seq<Node>, n: nat, i: int)
    requires
        s.no_duplicates(),
        forall|j: int| 0 <= j < s.len() ==> (#[trigger] s[j]) < n,
        0 <= i < s.len(),
        s[i] == n - 1,
    ensures
        s.remove(i).no_duplicates(),
        forall|j: int| 0 <= j < s.remove(i).len() ==> (#[trigger] s.remove(i)[j]) < n - 1,
{
    let rest = s.remove(i);
    assert forall|j: int| 0 <= j < rest.len() implies (#[trigger] rest[j]) < n - 1 by {
        if j < i {
            assert(rest[j] == s[j]);
        } else {
            assert(rest[j] == s[j + 1]);
        }
    }
    assert forall|a: int, b: int|
        0 <= a < rest.len() && 0 <= b < rest.len() && a != b implies rest[a] != rest[b] by {
        let a2 = if a < i {
            a
        } else {
            a + 1
        };
        let b2 = if b < i {
            b
        } else {
            b + 1
        };
        assert(rest[a] == s[a2] && rest[b] == s[b2]);
    }
}

/// A list without repetition of vertices below `n` has at most `n` entries.
pub proof fn lemma_distinct_length(s: Seq<Node>, n: nat)
    requires
        s.no_duplicates(),
        forall|i: int| 0 <= i < s.len() ==> (#[trigger] s[i]) < n,
    ensures
        s.len() <= n,
    decreases n,
{
    if n == 0 {
        if s.len() > 0 {
            assert(s[0] < n);
        }
    } else if exists|i: int| 0 <= i < s.len() && s[i] == n - 1 {
        let i = choose|i: int| 0 <= i < s.len() && s[i] == n - 1;
        let rest = s.remove(i);
        lemma_without_greatest(s, n, i);
        lemma_distinct_length(rest, (n - 1) as nat);
    } else {
        lemma_distinct_length(s, (n - 1) as nat);
    }
}

/// Taking one vertex out of a list lowers its degree sum by that vertex's
/// degree.
pub proof fn lemma_degree_sum_remove(adj: Adjacency, s: Seq<Node>, i: int)
    requires
        0 <= i < s.len(),
    ensures
        degree_sum(adj, s) == degree_sum(adj, s.remove(i)) + adj[s[i] as int].len(),
    decreases s.len(),
{
    if i == s.len() - 1 {
        assert(s.remove(i) =~= s.drop_last());
    } else {
        lemma_degree_sum_remove(adj, s.drop_last(), i);
        assert(s.remove(i).drop_last() =~= s.drop_last().remove(i));
        assert(s.remove(i).last() == s.last());
    }
}

/// The degrees of distinct vertices below `n` sum to no more than the
/// number of edges that leave the vertices below `n`.
pub proof fn lemma_degree_sum_bounded(adj: Adjacency, s: Seq<Node>, n: nat)
    requires
        n <= adj.len(),
        s.no_duplicates(),
        forall|i: int| 0 <= i < s.len() ==> (#[trigger] s[i]) < n,
    ensures
        degree_sum(adj, s) <= edges_below(adj, n),
    decreases n,
{
    if n == 0 {
        if s.len() > 0 {
            assert(s[0] < n);
        }
    } else if exists|i: int| 0 <= i < s.len() && s[i] == n - 1 {
        let i = choose|i: int| 0 <= i < s.len() && s[i] == n - 1;
        let rest = s.remove(i);
        lemma_without_greatest(s, n, i);
        lemma_degree_sum_remove(adj, s, i);
        lemma_degree_sum_bounded(adj, rest, (n - 1) as nat);
    } else {
        lemma_degree_sum_bounded(adj, s, (n - 1) as nat);
    }
}

/// The `k`-th edge out of `u` has had its effect: it leads to a cost below
/// the bound that is no less than the distance of its destination, or to one
/// at or above the bound that is no less than the boundary.
pub open spec fn edge_closed(adj: Adjacency, bound: Weight, st: Exploration, u: int, k: int) -> bool {
    let x = adj[u][k].0 as int;
    let w = adj[u][k].1;
    &&& st.dist[u] + w < bound ==> st.dist[x] <= st.dist[u] + w
    &&& st.dist[u] + w >= bound ==> st.b_prime <= saturating_sum(st.dist[u], w)
}

/// The boundary is the cost to which the `k`-th edge out of the settled
/// vertex `u` leads, and that cost is at or above the bound.
pub open spec fn boundary_witness(
    adj: Adjacency,
    bound: Weight,
    st: Exploration,
    u: int,
    k: int,
) -> bool {
    &&& settled(st, u)
    &&& 0 <= k < adj[u].len()
    &&& st.dist[u] + adj[u][k].1 >= bound
    &&& st.b_prime == saturating_sum(st.dist[u], adj[u][k].1)
}

/// What holds of the state of an exploration at every moment.
pub open spec fn sound(
    adj: Adjacency,
    sources: Seq<(Node, Weight)>,
    bound: Weight,
    st: Exploration,
) -> bool {
    &&& st.dist.len() == adj.len()
    &&& forall|i: int| 0 <= i < st.explored.len() ==> (#[trigger] st.explored[i]) < adj.len()
    &&& st.explored.no_duplicates()
    &&& forall|v: int|
        0 <= v < adj.len() ==> (#[trigger] st.dist[v]) == Weight::MAX || st.dist[v] < bound
    &&& forall|v: int|
        0 <= v < adj.len() && (#[trigger] st.dist[v]) < Weight::MAX ==> reaches(
            adj,
            sources,
            v,
            st.dist[v] as int,
        )
    &&& forall|i: int|
        0 <= i < sources.len() && (#[trigger] sources[i]).0 < adj.len() && sources[i].1 < bound
            ==> st.dist[sources[i].0 as int] <= sources[i].1
    &&& (st.b_prime == Weight::MAX || st.b_prime >= bound)
    &&& (st.b_prime == Weight::MAX || exists|u: int, k: int|
        boundary_witness(adj, bound, st, u, k))
    &&& st.heap_pushes <= st.edges_scanned
    &&& forall|u: int| #[trigger] settled(st, u) ==> st.dist[u] < bound
    &&& forall|i: int, j: int|
        0 <= i < j < st.explored.len() ==> st.dist[(#[trigger] st.explored[i]) as int]
            <= st.dist[(#[trigger] st.explored[j]) as int]
    &&& positive_weights(adj) ==> forall|i: int, j: int|
        0 <= i < j < st.explored.len() ==> strictly_before(
            st.dist[(#[trigger] st.explored[i]) as int],
            st.explored[i] as int,
            st.dist[(#[trigger] st.explored[j]) as int],
            st.explored[j] as int,
        )
}

/// What holds between two settlements: every edge out of a settled vertex
/// has had its effect, and the settled vertices come before the pending
/// ones.
pub open spec fn between_settlements(
    adj: Adjacency,
    sources: Seq<(Node, Weight)>,
    bound: Weight,
    st: Exploration,
) -> bool {
    &&& sound(adj, sources, bound, st)
    &&& forall|u: int, k: int|
        settled(st, u) && 0 <= k < adj[u].len() ==> #[trigger] edge_closed(adj, bound, st, u, k)
    &&& forall|u: int, x: int| #[trigger]
        settled(st, u) && #[trigger] pending(st, x) ==> st.dist[u] <= st.dist[x]
    &&& st.edges_scanned == degree_sum(adj, st.explored)
    &&& positive_weights(adj) ==> forall|u: int, x: int| #[trigger]
        settled(st, u) && #[trigger] pending(st, x) ==> strictly_before(
            st.dist[u],
            u,
            st.dist[x],
            x,
        )
}

/// What holds while `v`, the vertex settled last, has had the first `k` of
/// its edges inspected.
pub open spec fn while_settling(
    adj: Adjacency,
    sources: Seq<(Node, Weight)>,
    bound: Weight,
    st: Exploration,
    v: int,
    k: int,
) -> bool {
    &&& sound(adj, sources, bound, st)
    &&& st.explored.len() > 0
    &&& st.explored.last() == v
    &&& 0 <= k <= adj[v].len()
    &&& forall|u: int, j: int|
        settled(st, u) && u != v && 0 <= j < adj[u].len() ==> #[trigger] edge_closed(
            adj,
            bound,
            st,
            u,
            j,
        )
    &&& forall|j: int| 0 <= j < k ==> #[trigger] edge_closed(adj, bound, st, v, j)
    &&& forall|u: int| #[trigger] settled(st, u) ==> st.dist[u] <= st.dist[v]
    &&& forall|x: int| #[trigger] pending(st, x) ==> st.dist[v] <= st.dist[x]
    &&& st.edges_scanned == degree_sum(adj, st.explored.drop_last()) + k
    &&& positive_weights(adj) ==> forall|x: int| #[trigger]
        pending(st, x) ==> strictly_before(st.dist[v], v, st.dist[x], x)
}

/// What the seeded distances are: each is the sentinel or the initial
/// distance, below the bound, of a source at that vertex, and none is above
/// the initial distance of such a source.
pub proof fn lemma_seeded(n: nat, sources: Seq<(Node, Weight)>, bound: Weight)
    ensures
        seeded(n, sources, bound).len() == n,
        forall|v: int|
            0 <= v < n ==> (#[trigger] seeded(n, sources, bound)[v]) == Weight::MAX || (seeded(
                n,
                sources,
                bound,
            )[v] < bound && exists|i: int|
                0 <= i < sources.len() && (#[trigger] sources[i]).0 == v && sources[i].1
                    == seeded(n, sources, bound)[v]),
        forall|i: int|
            0 <= i < sources.len() && (#[trigger] sources[i]).0 < n && sources[i].1 < bound
                ==> seeded(n, sources, bound)[sources[i].0 as int] <= sources[i].1,
    decreases sources.len(),
{
    if sources.len() > 0 {
        let before = sources.drop_last();
        lemma_seeded(n, before, bound);
        let dist = seeded(n, before, bound);
        let now = seeded(n, sources, bound);
        let last = sources.len() - 1;
        assert forall|v: int| 0 <= v < n implies (#[trigger] now[v]) == Weight::MAX || (now[v]
            < bound && exists|i: int|
            0 <= i < sources.len() && (#[trigger] sources[i]).0 == v && sources[i].1 == now[v]) by {
            if now[v] != dist[v] {
                assert(sources[last].0 == v && sources[last].1 == now[v]);
            } else if dist[v] != Weight::MAX {
                let i = choose|i: int|
                    0 <= i < before.len() && (#[trigger] before[i]).0 == v && before[i].1
                        == dist[v];
                assert(sources[i] == before[i]);
            }
        }
        assert forall|i: int|
            0 <= i < sources.len() && (#[trigger] sources[i]).0 < n && sources[i].1
                < bound implies now[sources[i].0 as int] <= sources[i].1 by {
            if i < last {
                assert(sources[i] == before[i]);
            }
        }
    }
}

/// The state in which an exploration starts meets the invariant.
pub proof fn lemma_initial(adj: Adjacency, sources: Seq<(Node, Weight)>, bound: Weight)
    requires
        well_formed(adj),
    ensures
        between_settlements(adj, sources, bound, initial(adj.len(), sources, bound)),
{
    let st = initial(adj.len(), sources, bound);
    lemma_seeded(adj.len(), sources, bound);
    assert forall|v: int| 0 <= v < adj.len() && (#[trigger] st.dist[v]) < Weight::MAX implies reaches(
        adj,
        sources,
        v,
        st.dist[v] as int,
    ) by {
        let i = choose|i: int|
            0 <= i < sources.len() && (#[trigger] sources[i]).0 == v && sources[i].1
                == st.dist[v];
        lemma_source_reached(adj, sources, i);
    }
    assert(forall|u: int| !settled(st, u));
    assert(sound(adj, sources, bound, st));
}

/// Which vertices are settled and which are pending once `v` has been added
/// to the settled ones.
pub proof fn lemma_with_settled(st: Exploration, v: int)
    requires
        0 <= v < st.dist.len() <= usize::MAX,
    ensures
        forall|u: int| #[trigger]
            settled(with_settled(st, v), u) <==> (settled(st, u) || u == v),
        forall|x: int| #[trigger]
            pending(with_settled(st, v), x) <==> (pending(st, x) && x != v),
{
    assert forall|u: int| #[trigger]
        settled(with_settled(st, v), u) <==> (settled(st, u) || u == v) by {
        lemma_push_contains(st.explored, v as Node, u as Node);
    }
    assert forall|x: int| #[trigger]
        pending(with_settled(st, v), x) <==> (pending(st, x) && x != v) by {
        lemma_push_contains(st.explored, v as Node, x as Node);
    }
}

/// Settling the next vertex begins with the invariant of the settlement.
pub proof fn lemma_begin_settling(
    adj: Adjacency,
    sources: Seq<(Node, Weight)>,
    bound: Weight,
    st: Exploration,
    v: int,
)
    requires
        adj.len() <= usize::MAX,
        between_settlements(adj, sources, bound, st),
        is_next(st, v),
    ensures
        while_settling(adj, sources, bound, with_settled(st, v), v, 0),
        st.explored.len() < adj.len(),
{
    let st1 = with_settled(st, v);
    lemma_with_settled(st, v);
    assert(pending(st, v));
    assert forall|i: int| 0 <= i < st.explored.len() implies settled(
        st,
        (#[trigger] st.explored[i]) as int,
    ) by {
        assert(st.explored.contains(st.explored[i]));
    }
    assert(st1.explored.no_duplicates()) by {
        assert forall|i: int, j: int|
            0 <= i < st1.explored.len() && 0 <= j < st1.explored.len() && i != j implies st1.explored[i]
            != st1.explored[j] by {
            if i < st.explored.len() {
                assert(settled(st, st.explored[i] as int));
            }
            if j < st.explored.len() {
                assert(settled(st, st.explored[j] as int));
            }
        }
    }
    assert forall|i: int| 0 <= i < st1.explored.len() implies (#[trigger] st1.explored[i])
        < adj.len() by {
        if i < st.explored.len() {
            assert(st1.explored[i] == st.explored[i]);
        }
    }
    lemma_distinct_length(st1.explored, adj.len());
    assert forall|i: int, j: int| 0 <= i < j < st1.explored.len() implies st1.dist[(
    #[trigger] st1.explored[i]) as int] <= st1.dist[(#[trigger] st1.explored[j]) as int] by {
        assert(st1.explored[i] == st.explored[i]);
        if j < st.explored.len() {
            assert(st1.explored[j] == st.explored[j]);
        } else {
            assert(settled(st, st.explored[i] as int));
        }
    }
    if positive_weights(adj) {
        assert forall|i: int, j: int| 0 <= i < j < st1.explored.len() implies strictly_before(
            st1.dist[(#[trigger] st1.explored[i]) as int],
            st1.explored[i] as int,
            st1.dist[(#[trigger] st1.explored[j]) as int],
            st1.explored[j] as int,
        ) by {
            assert(st1.explored[i] == st.explored[i]);
            if j < st.explored.len() {
                assert(st1.explored[j] == st.explored[j]);
            } else {
                assert(settled(st, st.explored[i] as int));
            }
        }
    }
    if st.b_prime != Weight::MAX {
        let (u, k) = choose|u: int, k: int| boundary_witness(adj, bound, st, u, k);
        assert(boundary_witness(adj, bound, st1, u, k));
    }
    assert(sound(adj, sources, bound, st1));
    assert(st1.explored.drop_last() =~= st.explored);
    assert forall|u: int, j: int|
        settled(st1, u) && u != v && 0 <= j < adj[u].len() implies #[trigger] edge_closed(
        adj,
        bound,
        st1,
        u,
        j,
    ) by {
        assert(edge_closed(adj, bound, st, u, j));
    }
}

/// Once every edge out of the vertex settled last has been inspected, the
/// invariant between settlements holds again.
pub proof fn lemma_end_settling(
    adj: Adjacency,
    sources: Seq<(Node, Weight)>,
    bound: Weight,
    st: Exploration,
    v: int,
)
    requires
        adj.len() <= usize::MAX,
        while_settling(adj, sources, bound, st, v, adj[v].len() as int),
    ensures
        between_settlements(adj, sources, bound, st),
{
    assert forall|u: int, k: int| settled(st, u) && 0 <= k < adj[u].len() implies #[trigger] edge_closed(
        adj,
        bound,
        st,
        u,
        k,
    ) by {}
    if positive_weights(adj) {
        assert forall|u: int, x: int| #[trigger]
            settled(st, u) && #[trigger] pending(st, x) implies strictly_before(
            st.dist[u],
            u,
            st.dist[x],
            x,
        ) by {
            if u != v {
                let i = choose|i: int| 0 <= i < st.explored.len() && st.explored[i] == u as Node;
                let last = st.explored.len() - 1;
                assert(st.explored[last] == v);
                assert(strictly_before(
                    st.dist[st.explored[i] as int],
                    st.explored[i] as int,
                    st.dist[st.explored[last] as int],
                    st.explored[last] as int,
                ));
            }
        }
    }
}

/// The inspection of the next edge out of the vertex being settled keeps
/// the invariant of the settlement. It changes no distance of a settled
/// vertex, and a destination whose distance it lowers is pending.
pub proof fn lemma_relax(
    adj: Adjacency,
    sources: Seq<(Node, Weight)>,
    bound: Weight,
    st: Exploration,
    v: int,
    k: int,
)
    requires
        well_formed(adj),
        adj.len() <= usize::MAX,
        while_settling(adj, sources, bound, st, v, k),
        k < adj[v].len(),
    ensures
        while_settling(
            adj,
            sources,
            bound,
            relax_edge(st, bound, st.dist[v], adj[v][k]),
            v,
            k + 1,
        ),
        relax_edge(st, bound, st.dist[v], adj[v][k]).dist[v] == st.dist[v],
        lowers(st, bound, st.dist[v], adj[v][k]) ==> !settled(st, adj[v][k].0 as int),
        st.edges_scanned < degree_sum(adj, st.explored),
{
    let d = st.dist[v];
    let x = adj[v][k].0 as int;
    let w = adj[v][k].1;
    let nd = saturating_sum(d, w);
    let st2 = relax_edge(st, bound, d, adj[v][k]);
    let last = st.explored.len() - 1;
    assert(st.explored[last] == v);
    assert(st.explored.contains(v as Node));
    assert(settled(st, v));
    assert(0 <= x < adj.len());
    assert(st2.explored == st.explored);
    assert forall|u: int| #[trigger] settled(st2, u) == settled(st, u) by {}
    if lowers(st, bound, d, adj[v][k]) {
        assert(nd == d + w);
        if settled(st, x) {
            assert(st.dist[x] <= d);
        }
        assert(!settled(st, x));
        assert(x != v);
        assert forall|y: int| #[trigger] pending(st2, y) implies st2.dist[v] <= st2.dist[y] && (
        positive_weights(adj) ==> strictly_before(st2.dist[v], v, st2.dist[y], y)) by {
            if y != x {
                assert(pending(st, y));
            }
        }
        assert(reaches(adj, sources, x, nd as int)) by {
            lemma_edge_reached(adj, sources, v, d as int, k);
        }
        assert forall|y: int|
            0 <= y < adj.len() && (#[trigger] st2.dist[y]) < Weight::MAX implies reaches(
            adj,
            sources,
            y,
            st2.dist[y] as int,
        ) by {
            if y != x {
                assert(st2.dist[y] == st.dist[y]);
            }
        }
        assert forall|i: int|
            0 <= i < sources.len() && (#[trigger] sources[i]).0 < adj.len() && sources[i].1
                < bound implies st2.dist[sources[i].0 as int] <= sources[i].1 by {
            assert(st2.dist[sources[i].0 as int] <= st.dist[sources[i].0 as int]);
        }
        assert forall|i: int| 0 <= i < st.explored.len() implies st2.dist[(
        #[trigger] st.explored[i]) as int] == st.dist[st.explored[i] as int] by {
            assert(st.explored.contains(st.explored[i]));
            assert(settled(st, st.explored[i] as int));
        }
        if st.b_prime != Weight::MAX {
            let (u, j) = choose|u: int, j: int| boundary_witness(adj, bound, st, u, j);
            assert(boundary_witness(adj, bound, st2, u, j));
        }
        assert(sound(adj, sources, bound, st2));
        assert forall|u: int, j: int|
            settled(st2, u) && u != v && 0 <= j < adj[u].len() implies #[trigger] edge_closed(
            adj,
            bound,
            st2,
            u,
            j,
        ) by {
            assert(edge_closed(adj, bound, st, u, j));
            assert(st2.dist[adj[u][j].0 as int] <= st.dist[adj[u][j].0 as int]);
        }
        assert forall|j: int| 0 <= j < k + 1 implies #[trigger] edge_closed(
            adj,
            bound,
            st2,
            v,
            j,
        ) by {
            if j < k {
                assert(edge_closed(adj, bound, st, v, j));
                assert(st2.dist[adj[v][j].0 as int] <= st.dist[adj[v][j].0 as int]);
            }
        }
    } else if nd >= bound && nd < st.b_prime {
        assert forall|y: int| #[trigger] pending(st2, y) implies pending(st, y) by {}
        assert(boundary_witness(adj, bound, st2, v, k));
        assert(sound(adj, sources, bound, st2));
        assert forall|u: int, j: int|
            settled(st2, u) && u != v && 0 <= j < adj[u].len() implies #[trigger] edge_closed(
            adj,
            bound,
            st2,
            u,
            j,
        ) by {
            assert(edge_closed(adj, bound, st, u, j));
        }
        assert forall|j: int| 0 <= j < k + 1 implies #[trigger] edge_closed(
            adj,
            bound,
            st2,
            v,
            j,
        ) by {
            if j < k {
                assert(edge_closed(adj, bound, st, v, j));
            }
        }
    } else {
        assert forall|y: int| #[trigger] pending(st2, y) implies pending(st, y) by {}
        if st.b_prime != Weight::MAX {
            let (u, j) = choose|u: int, j: int| boundary_witness(adj, bound, st, u, j);
            assert(boundary_witness(adj, bound, st2, u, j));
        }
        assert(sound(adj, sources, bound, st2));
        assert forall|u: int, j: int|
            settled(st2, u) && u != v && 0 <= j < adj[u].len() implies #[trigger] edge_closed(
            adj,
            bound,
            st2,
            u,
            j,
        ) by {
            assert(edge_closed(adj, bound, st, u, j));
        }
        assert forall|j: int| 0 <= j < k + 1 implies #[trigger] edge_closed(
            adj,
            bound,
            st2,
            v,
            j,
        ) by {
            if j < k {
                assert(edge_closed(adj, bound, st, v, j));
            }
        }
    }
}

/// Once no vertex is pending, no walk from a source undercuts the distance
/// found for the vertex at which it ends, unless it costs the bound or more.
pub proof fn lemma_walk_not_shorter(
    adj: Adjacency,
    sources: Seq<(Node, Weight)>,
    bound: Weight,
    st: Exploration,
    i: int,
    hops: Seq<int>,
)
    requires
        well_formed(adj),
        between_settlements(adj, sources, bound, st),
        forall|x: int| !pending(st, x),
        0 <= i < sources.len(),
        is_walk(adj, sources[i].0 as int, hops),
    ensures
        sources[i].1 + walk_weight(adj, sources[i].0 as int, hops) >= bound || st.dist[walk_end(
            adj,
            sources[i].0 as int,
            hops,
        )] <= sources[i].1 + walk_weight(adj, sources[i].0 as int, hops),
    decreases hops.len(),
{
    let start = sources[i].0 as int;
    if hops.len() > 0 {
        let before = hops.drop_last();
        lemma_walk_not_shorter(adj, sources, bound, st, i, before);
        lemma_walk_end_in_graph(adj, start, before);
        let u = walk_end(adj, start, before);
        let c = sources[i].1 + walk_weight(adj, start, before);
        if c < bound {
            assert(st.dist[u] <= c);
            assert(!pending(st, u));
            assert(settled(st, u));
            assert(edge_closed(adj, bound, st, u, hops.last()));
        }
    }
}

/// Once no vertex is pending, the distances are the bounded distances, the
/// boundary is the tight boundary, and the settled vertices are those whose
/// distance is not the sentinel.
pub proof fn lemma_finished(
    adj: Adjacency,
    sources: Seq<(Node, Weight)>,
    bound: Weight,
    st: Exploration,
)
    requires
        well_formed(adj),
        adj.len() <= usize::MAX,
        between_settlements(adj, sources, bound, st),
        forall|x: int| !pending(st, x),
    ensures
        st.dist == bounded_distances(adj, sources, bound),
        st.b_prime == tight_boundary(adj, sources, bound),
        forall|v: int| 0 <= v < adj.len() ==> (settled(st, v) <==> #[trigger] st.dist[v] < bound),
        forall|v: int|
            0 <= v < adj.len() ==> (!settled(st, v) <==> #[trigger] st.dist[v] == Weight::MAX),
{
    assert forall|v: int| 0 <= v < adj.len() implies #[trigger] st.dist[v] == bounded_distance(
        adj,
        sources,
        bound,
        v,
    ) by {
        assert forall|c: int| reaches(adj, sources, v, c) implies c >= bound || st.dist[v]
            <= c by {
            let (i, hops) = choose|i: int, hops: Seq<int>| #[trigger]
                walk_from_source(adj, sources, i, hops, v, c);
            lemma_walk_not_shorter(adj, sources, bound, st, i, hops);
        }
        lemma_bounded_distance_is(adj, sources, bound, v, st.dist[v]);
    }
    assert(st.dist =~= bounded_distances(adj, sources, bound));
    assert forall|v: int| 0 <= v < adj.len() implies (settled(st, v) <==> #[trigger] st.dist[v]
        < bound) by {
        assert(!pending(st, v));
    }
    assert forall|u: int, k: int| #[trigger] crosses(adj, sources, bound, u, k) implies st.b_prime
        <= crossing_cost(adj, sources, bound, u, k) by {
        assert(st.dist[u] == bounded_distance(adj, sources, bound, u));
        assert(!pending(st, u));
        assert(edge_closed(adj, bound, st, u, k));
    }
    if st.b_prime != Weight::MAX {
        let (u, k) = choose|u: int, k: int| boundary_witness(adj, bound, st, u, k);
        assert(st.dist[u] == bounded_distance(adj, sources, bound, u));
        assert(crosses(adj, sources, bound, u, k));
    }
    lemma_tight_boundary_is(adj, sources, bound, st.b_prime);
}

/// Where each listed vertex has an edge, the degrees sum to no less than
/// the length of the list.
pub proof fn lemma_degree_sum_covers(adj: Adjacency, s: Seq<Node>)
    requires
        forall|i: int| 0 <= i < s.len() ==> adj[(#[trigger] s[i]) as int].len() >= 1,
    ensures
        degree_sum(adj, s) >= s.len(),
    decreases s.len(),
{
    if s.len() > 0 {
        let before = s.drop_last();
        assert forall|i: int| 0 <= i < before.len() implies adj[(#[trigger] before[i]) as int].len()
            >= 1 by {
            assert(before[i] == s[i]);
        }
        lemma_degree_sum_covers(adj, before);
        assert(adj[s[s.len() - 1] as int].len() >= 1);
    }
}

} // verus!
