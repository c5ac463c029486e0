//! What the sharded composition is: how the sources are dealt out to the
//! shards and how the outcomes of the shards are merged.

use vstd::prelude::*;
use crate::graph::{Adjacency, Node, Weight};
use crate::paths::{reaches, walk_from_source};
use crate::exploration::{Exploration, exploration};
use crate::invariants::lemma_push_contains;

verus! {

/// The number of shards: the number of threads asked for, but at least one
/// and, where there are sources, no more than there are sources.
pub open spec fn shard_count(threads: usize, sources: nat) -> nat {
    let wanted: nat = if threads < 1 {
        1
    } else {
        threads as nat
    };
    let most: nat = if sources < 1 {
        1
    } else {
        sources
    };
    if wanted < most {
        wanted
    } else {
        most
    }
}

/// The `j`-th of `t` shards: the sources at the positions that leave the
/// remainder `j` when divided by `t`, in their order.
pub open spec fn shard(sources: Seq<(Node, Weight)>, t: nat, j: nat) -> Seq<(Node, Weight)>
    decreases sources.len(),
{
    if sources.len() == 0 {
        Seq::empty()
    } else {
        let before = shard(sources.drop_last(), t, j);
        if t > 0 && (sources.len() - 1) % (t as int) == j {
            before.push(sources.last())
        } else {
            before
        }
    }
}

/// The outcome in which nothing has been explored.
pub open spec fn unexplored(n: nat) -> Exploration {
    Exploration {
        dist: Seq::new(n, |v: int| Weight::MAX),
        explored: Seq::empty(),
        b_prime: Weight::MAX,
        edges_scanned: 0,
        heap_pushes: 0,
    }
}

/// The list `acc` followed by the vertices of `more` that were not listed
/// before, each once, in the order in which they first occur.
pub open spec fn append_new(acc: Seq<Node>, more: Seq<Node>) -> Seq<Node>
    decreases more.len(),
{
    if more.len() == 0 {
        acc
    } else {
        let before = append_new(acc, more.drop_last());
        if before.contains(more.last()) {
            before
        } else {
            before.push(more.last())
        }
    }
}

/// The smaller of two weights.
pub open spec fn lesser(a: Weight, b: Weight) -> Weight {
    if b < a {
        b
    } else {
        a
    }
}

/// The merge of one more outcome into what has been merged so far: the
/// smaller distance at each vertex, the settled vertices of both without
/// repetition, the smaller boundary, and the sums of the counters.
pub open spec fn merge_one(acc: Exploration, part: Exploration) -> Exploration {
    Exploration {
        dist: Seq::new(acc.dist.len(), |v: int| lesser(acc.dist[v], part.dist[v])),
        explored: append_new(acc.explored, part.explored),
        b_prime: lesser(acc.b_prime, part.b_prime),
        edges_scanned: acc.edges_scanned + part.edges_scanned,
        heap_pushes: acc.heap_pushes + part.heap_pushes,
    }
}

/// The merge of the outcomes `parts`, in their order, for a graph of `n`
/// vertices.
pub open spec fn merged(n: nat, parts: Seq<Exploration>) -> Exploration
    decreases parts.len(),
{
    if parts.len() == 0 {
        unexplored(n)
    } else {
        merge_one(merged(n, parts.drop_last()), parts.last())
    }
}

/// The outcomes of the explorations from each of `t` shards.
pub open spec fn shard_explorations(
    adj: Adjacency,
    sources: Seq<(Node, Weight)>,
    bound: Weight,
    t: nat,
) -> Seq<Exploration> {
    Seq::new(t, |j: int| exploration(adj, shard(sources, t, j as nat), bound))
}

/// The outcome of the sharded exploration: with one shard that of the
/// exploration itself, and otherwise the merge of the explorations from the
/// shards.
pub open spec fn sharded_exploration(
    adj: Adjacency,
    sources: Seq<(Node, Weight)>,
    bound: Weight,
    threads: usize,
) -> Exploration {
    let t = shard_count(threads, sources.len());
    if t <= 1 {
        exploration(adj, sources, bound)
    } else {
        merged(adj.len(), shard_explorations(adj, sources, bound, t))
    }
}

/// Whatever a shard holds is one of the sources.
pub proof fn lemma_shard_within(sources: Seq<(Node, Weight)>, t: nat, j: nat, x: (Node, Weight))
    requires
        shard(sources, t, j).contains(x),
    ensures
        sources.contains(x),
    decreases sources.len(),
{
    if sources.len() > 0 {
        let before = shard(sources.drop_last(), t, j);
        let i = choose|i: int| 0 <= i < shard(sources, t, j).len() && shard(sources, t, j)[i] == x;
        if i < before.len() {
            assert(before[i] == x);
            lemma_shard_within(sources.drop_last(), t, j, x);
            let i0 = choose|i0: int|
                0 <= i0 < sources.drop_last().len() && sources.drop_last()[i0] == x;
            assert(sources[i0] == x);
        } else {
            assert(sources[sources.len() - 1] == x);
        }
    }
}

/// Each source is held by the shard that its position names.
pub proof fn lemma_shard_holds(sources: Seq<(Node, Weight)>, t: nat, i: int)
    requires
        t > 0,
        0 <= i < sources.len(),
    ensures
        shard(sources, t, (i % (t as int)) as nat).contains(sources[i]),
    decreases sources.len(),
{
    let j = (i % (t as int)) as nat;
    let before = shard(sources.drop_last(), t, j);
    let now = shard(sources, t, j);
    if i == sources.len() - 1 {
        assert(now[before.len() as int] == sources[i]);
    } else {
        lemma_shard_holds(sources.drop_last(), t, i);
        let i0 = choose|i0: int| 0 <= i0 < before.len() && before[i0] == sources.drop_last()[i];
        assert(now[i0] == sources[i]);
    }
}

/// What is reached from some of the sources is reached from all of them.
pub proof fn lemma_reaches_from_more(
    adj: Adjacency,
    some: Seq<(Node, Weight)>,
    all: Seq<(Node, Weight)>,
    v: int,
    c: int,
)
    requires
        forall|x: (Node, Weight)| some.contains(x) ==> all.contains(x),
        reaches(adj, some, v, c),
    ensures
        reaches(adj, all, v, c),
{
    let (i, hops) = choose|i: int, hops: Seq<int>| #[trigger]
        walk_from_source(adj, some, i, hops, v, c);
    assert(some.contains(some[i]));
    let i2 = choose|i2: int| 0 <= i2 < all.len() && all[i2] == some[i];
    assert(walk_from_source(adj, all, i2, hops, v, c));
}

/// What is reached from a shard is reached from the sources.
pub proof fn lemma_reaches_from_shard(
    adj: Adjacency,
    sources: Seq<(Node, Weight)>,
    t: nat,
    j: nat,
    v: int,
    c: int,
)
    requires
        reaches(adj, shard(sources, t, j), v, c),
    ensures
        reaches(adj, sources, v, c),
{
    assert forall|x: (Node, Weight)| shard(sources, t, j).contains(x) implies sources.contains(
        x,
    ) by {
        lemma_shard_within(sources, t, j, x);
    }
    lemma_reaches_from_more(adj, shard(sources, t, j), sources, v, c);
}

/// What is reached from the sources is reached from one of the shards.
pub proof fn lemma_reaches_in_a_shard(
    adj: Adjacency,
    sources: Seq<(Node, Weight)>,
    t: nat,
    v: int,
    c: int,
) -> (j: nat)
    requires
        t > 0,
        reaches(adj, sources, v, c),
    ensures
        j < t,
        reaches(adj, shard(sources, t, j), v, c),
{
    let (i, hops) = choose|i: int, hops: Seq<int>| #[trigger]
        walk_from_source(adj, sources, i, hops, v, c);
    let j = (i % (t as int)) as nat;
    lemma_shard_holds(sources, t, i);
    let part = shard(sources, t, j);
    let i2 = choose|i2: int| 0 <= i2 < part.len() && part[i2] == sources[i];
    assert(walk_from_source(adj, part, i2, hops, v, c));
    j
}

/// What `append_new` lists: the vertices of either list, and none twice
/// where the first list has none twice.
pub proof fn lemma_append_new(acc: Seq<Node>, more: Seq<Node>)
    ensures
        forall|x: Node|
            #[trigger] append_new(acc, more).contains(x) <==> (acc.contains(x) || more.contains(
                x,
            )),
        acc.no_duplicates() ==> append_new(acc, more).no_duplicates(),
    decreases more.len(),
{
    if more.len() > 0 {
        let before = append_new(acc, more.drop_last());
        let now = append_new(acc, more);
        lemma_append_new(acc, more.drop_last());
        assert forall|x: Node| #[trigger] now.contains(x) <==> (acc.contains(x) || more.contains(
            x,
        )) by {
            lemma_push_contains(before, more.last(), x);
            lemma_push_contains(more.drop_last(), more.last(), x);
            assert(more.drop_last().push(more.last()) =~= more);
        }
        if acc.no_duplicates() && !before.contains(more.last()) {
            assert forall|a: int, b: int|
                0 <= a < now.len() && 0 <= b < now.len() && a != b implies now[a] != now[b] by {
                if a < before.len() {
                    assert(before.contains(before[a]));
                }
                if b < before.len() {
                    assert(before.contains(before[b]));
                }
            }
        }
    }
}

/// What a merge holds. At each vertex its distance is the least of the
/// parts' distances, its boundary is the least of the parts' boundaries, and
/// it lists once each vertex that a part lists.
pub proof fn lemma_merged(n: nat, parts: Seq<Exploration>)
    requires
        forall|j: int| 0 <= j < parts.len() ==> (#[trigger] parts[j]).dist.len() == n,
    ensures
        merged(n, parts).dist.len() == n,
        forall|v: int, j: int|
            0 <= v < n && 0 <= j < parts.len() ==> merged(n, parts).dist[v] <= #[trigger] parts[j].dist[v],
        forall|v: int|
            0 <= v < n ==> (#[trigger] merged(n, parts).dist[v]) == Weight::MAX || exists|j: int|
                0 <= j < parts.len() && merged(n, parts).dist[v] == (#[trigger] parts[j]).dist[v],
        forall|j: int| 0 <= j < parts.len() ==> merged(n, parts).b_prime <= (#[trigger] parts[j]).b_prime,
        merged(n, parts).b_prime == Weight::MAX || exists|j: int|
            0 <= j < parts.len() && merged(n, parts).b_prime == (#[trigger] parts[j]).b_prime,
        forall|x: Node|
            #[trigger] merged(n, parts).explored.contains(x) <==> exists|j: int|
                0 <= j < parts.len() && (#[trigger] parts[j]).explored.contains(x),
        merged(n, parts).explored.no_duplicates(),
    decreases parts.len(),
{
    let m = merged(n, parts);
    if parts.len() > 0 {
        let before = parts.drop_last();
        let last = parts.last();
        let acc = merged(n, before);
        let top = parts.len() - 1;
        assert(parts[top] == last);
        assert forall|j: int| 0 <= j < before.len() implies (#[trigger] before[j]).dist.len()
            == n by {
            assert(before[j] == parts[j]);
        }
        lemma_merged(n, before);
        lemma_append_new(acc.explored, last.explored);
        assert forall|v: int, j: int|
            0 <= v < n && 0 <= j < parts.len() implies m.dist[v] <= #[trigger] parts[j].dist[v] by {
            if j < top {
                assert(before[j] == parts[j]);
            }
        }
        assert forall|v: int| 0 <= v < n implies (#[trigger] m.dist[v]) == Weight::MAX || exists|
            j: int,
        |
            0 <= j < parts.len() && m.dist[v] == (#[trigger] parts[j]).dist[v] by {
            if m.dist[v] != Weight::MAX {
                if m.dist[v] == last.dist[v] {
                    assert(parts[top].dist[v] == m.dist[v]);
                } else {
                    let j = choose|j: int|
                        0 <= j < before.len() && acc.dist[v] == (#[trigger] before[j]).dist[v];
                    assert(parts[j] == before[j]);
                }
            }
        }
        assert forall|j: int| 0 <= j < parts.len() implies m.b_prime <= (#[trigger] parts[j]).b_prime by {
            if j < top {
                assert(before[j] == parts[j]);
            }
        }
        if m.b_prime != Weight::MAX {
            if m.b_prime == last.b_prime {
                assert(parts[top].b_prime == m.b_prime);
            } else {
                let j = choose|j: int|
                    0 <= j < before.len() && acc.b_prime == (#[trigger] before[j]).b_prime;
                assert(parts[j] == before[j]);
            }
        }
        assert forall|x: Node| #[trigger] m.explored.contains(x) <==> exists|j: int|
            0 <= j < parts.len() && (#[trigger] parts[j]).explored.contains(x) by {
            if acc.explored.contains(x) {
                let j = choose|j: int|
                    0 <= j < before.len() && (#[trigger] before[j]).explored.contains(x);
                assert(parts[j] == before[j]);
            }
            if last.explored.contains(x) {
                assert(parts[top].explored.contains(x));
            }
            if exists|j: int| 0 <= j < parts.len() && (#[trigger] parts[j]).explored.contains(x) {
                let j = choose|j: int|
                    0 <= j < parts.len() && (#[trigger] parts[j]).explored.contains(x);
                if j < top {
                    assert(before[j] == parts[j]);
                }
            }
        }
    }
}

/// The counters of a merge are bounded by the number of parts times a
/// bound on the counters of each part.
pub proof fn lemma_merged_counters(n: nat, parts: Seq<Exploration>, cap: nat)
    requires
        forall|j: int|
            0 <= j < parts.len() ==> (#[trigger] parts[j]).edges_scanned <= cap && parts[j].heap_pushes
                <= cap,
    ensures
        merged(n, parts).edges_scanned <= parts.len() * cap,
        merged(n, parts).heap_pushes <= parts.len() * cap,
    decreases parts.len(),
{
    if parts.len() > 0 {
        let before = parts.drop_last();
        assert forall|j: int| 0 <= j < before.len() implies (#[trigger] before[j]).edges_scanned
            <= cap && before[j].heap_pushes <= cap by {
            assert(before[j] == parts[j]);
        }
        lemma_merged_counters(n, before, cap);
        assert(parts[parts.len() - 1].edges_scanned <= cap);
        assert(parts.len() * cap == before.len() * cap + cap) by (nonlinear_arith)
            requires
                parts.len() == before.len() + 1,
        ;
    } else {
        assert(parts.len() * cap == 0) by (nonlinear_arith)
            requires
                parts.len() == 0,
        ;
    }
}

/// The counters of the merge of the first parts are no more than those of
/// the merge of all.
pub proof fn lemma_merged_counters_grow(n: nat, parts: Seq<Exploration>, k: int)
    requires
        0 <= k <= parts.len(),
    ensures
        merged(n, parts.take(k)).edges_scanned <= merged(n, parts).edges_scanned,
        merged(n, parts.take(k)).heap_pushes <= merged(n, parts).heap_pushes,
    decreases parts.len(),
{
    if k == parts.len() {
        assert(parts.take(k) =~= parts);
    } else {
        lemma_merged_counters_grow(n, parts.drop_last(), k);
        assert(parts.drop_last().take(k) =~= parts.take(k));
    }
}

} // verus!
