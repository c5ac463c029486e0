//! Synthetic graphs with random weights: grids and graphs grown by
//! preferential attachment.

use vstd::prelude::*;
use rand::rngs::StdRng;
use rand::{Rng, SeedableRng};
use crate::graph::{Adjacency, Graph, Node, Weight, with_edge, edges_below, edge_count};

verus! {

/// The seedable generator of the `rand` crate. Nothing is known of its
/// state.
#[verifier::external_type_specification]
#[verifier::external_body]
pub struct ExStdRng(StdRng);

/// Calls `SeedableRng::seed_from_u64` of `rand_core` for `StdRng`, which
/// makes a generator from a seed. Nothing is claimed of the generator.
#[verifier::external_body]
fn seeded_generator(seed: u64) -> (rng: StdRng) {
    StdRng::seed_from_u64(seed)
}

/// Calls `Rng::gen_range` of `rand` on the inclusive range from one to
/// `maxw`. The range must not be empty, or the call panics. What is claimed
/// is that the number drawn lies in the range.
#[verifier::external_body]
fn draw_weight(rng: &mut StdRng, maxw: u32) -> (w: u32)
    requires
        maxw >= 1,
    ensures
        1 <= w <= maxw,
{
    rng.gen_range(1..=maxw)
}

/// Calls `Rng::gen_range` of `rand` on the range from zero up to, and
/// without, `n`. The range must not be empty, or the call panics. What is
/// claimed is that the number drawn lies in the range.
#[verifier::external_body]
fn draw_below(rng: &mut StdRng, n: usize) -> (i: usize)
    requires
        n >= 1,
    ensures
        i < n,
{
    rng.gen_range(0..n)
}

/// The number of vertices that a preferential-attachment graph starts
/// from: `m0`, but at least one and at most `n`.
pub open spec fn seed_vertices(m0: usize, n: usize) -> nat {
    let wanted: nat = if m0 < 1 {
        1
    } else {
        m0 as nat
    };
    if n < wanted {
        n as nat
    } else {
        wanted
    }
}

/// The adjacency list of `u` among `start` vertices that are all joined to
/// each other: an edge of weight one to each of the others, by growing
/// vertex.
pub open spec fn clique_row(start: nat, u: int) -> Seq<(Node, Weight)> {
    Seq::new(
        (start - 1) as nat,
        |k: int|
            if k < u {
                (k as Node, 1 as Weight)
            } else {
                ((k + 1) as Node, 1 as Weight)
            },
    )
}

/// Grows a graph of `n` vertices by preferential attachment.
///
/// The first vertices, `m0` of them but at least one and at most `n`, are
/// all joined to each other by edges of weight one. Each later vertex gets
/// `m` outgoing edges with weights drawn from one to `maxw`. Each such edge
/// ends at an endpoint, drawn at random, of an edge added before it, so at
/// the vertex itself or at one before it, and the first of them at one
/// before it. The draws follow from `seed`.
pub fn make_ba(n: usize, m0: usize, m: usize, maxw: u32, seed: u64) -> (g: Graph)
    requires
        maxw >= 1 || m == 0 || seed_vertices(m0, n) == n,
    ensures
        g@.len() == n,
        g.wf(),
        forall|u: int|
            0 <= u < seed_vertices(m0, n) ==> #[trigger] g@[u] == clique_row(
                seed_vertices(m0, n),
                u,
            ),
        forall|u: int| seed_vertices(m0, n) <= u < n ==> (#[trigger] g@[u]).len() == m,
        forall|u: int, k: int|
            seed_vertices(m0, n) <= u < n && 0 <= k < m ==> {
                &&& (#[trigger] g@[u][k]).0 <= u
                &&& k == 0 ==> g@[u][k].0 < u
                &&& 1 <= g@[u][k].1 <= maxw
            },
        edge_count(g@) == seed_vertices(m0, n) * (seed_vertices(m0, n) - 1) + (n - seed_vertices(
            m0,
            n,
        )) * m,
{
    let mut rng = seeded_generator(seed);
    let mut g = Graph::new(n);
    let mut ends: Vec<usize> = Vec::new();
    let wanted = if m0 < 1 {
        1
    } else {
        m0
    };
    let start = if n < wanted {
        n
    } else {
        wanted
    };
    let mut u: usize = 0;
    while u < start
        invariant
            start == seed_vertices(m0, n),
            start <= n,
            u <= start,
            g@.len() == n,
            g.wf(),
            forall|a: int| 0 <= a < u ==> #[trigger] g@[a] == clique_row(start as nat, a),
            forall|a: int| u <= a < n ==> (#[trigger] g@[a]).len() == 0,
            forall|i: int| 0 <= i < ends@.len() ==> (#[trigger] ends@[i]) < start,
        decreases start - u,
    {
        let mut v: usize = 0;
        while v < start
            invariant
                start == seed_vertices(m0, n),
                start <= n,
                u < start,
                v <= start,
                g@.len() == n,
                g.wf(),
                forall|a: int| 0 <= a < u ==> #[trigger] g@[a] == clique_row(start as nat, a),
                forall|a: int| u < a < n ==> (#[trigger] g@[a]).len() == 0,
                g@[u as int] == clique_row(start as nat, u as int).take(
                    if v <= u {
                        v as int
                    } else {
                        v - 1
                    },
                ),
                forall|i: int| 0 <= i < ends@.len() ==> (#[trigger] ends@[i]) < start,
            decreases start - v,
        {
            if u != v {
                let ghost before = g@;
                g.add_edge(u, v, 1);
                ends.push(u);
                proof {
                    let row = clique_row(start as nat, u as int);
                    let k: int = if v <= u {
                        v as int
                    } else {
                        v - 1
                    };
                    assert(row[k] == (v, 1 as Weight));
                    assert(row.take(k + 1) =~= row.take(k).push(row[k]));
                    assert forall|a: int| 0 <= a < n && a != u implies #[trigger] g@[a]
                        == before[a] by {}
                }
            }
            v = v + 1;
        }
        proof {
            let row = clique_row(start as nat, u as int);
            assert(row.take(start - 1) =~= row);
        }
        u = u + 1;
    }
    let mut u: usize = start;
    while u < n
        invariant
            start == seed_vertices(m0, n),
            1 <= start || n == 0,
            start <= u <= n,
            maxw >= 1 || m == 0 || start == n,
            g@.len() == n,
            g.wf(),
            forall|a: int| 0 <= a < start ==> #[trigger] g@[a] == clique_row(start as nat, a),
            forall|a: int| start <= a < u ==> (#[trigger] g@[a]).len() == m,
            forall|a: int| u <= a < n ==> (#[trigger] g@[a]).len() == 0,
            forall|a: int, k: int|
                start <= a < u && 0 <= k < m ==> {
                    &&& (#[trigger] g@[a][k]).0 <= a
                    &&& k == 0 ==> g@[a][k].0 < a
                    &&& 1 <= g@[a][k].1 <= maxw
                },
            forall|i: int| 0 <= i < ends@.len() ==> (#[trigger] ends@[i]) < u,
        decreases n - u,
    {
        let mut count: usize = 0;
        while count < m
            invariant
                start == seed_vertices(m0, n),
                1 <= start <= u < n,
                maxw >= 1 || m == 0,
                count <= m,
                g@.len() == n,
                g.wf(),
                forall|a: int| 0 <= a < start ==> #[trigger] g@[a] == clique_row(start as nat, a),
                forall|a: int| start <= a < u ==> (#[trigger] g@[a]).len() == m,
                (#[trigger] g@[u as int]).len() == count,
                forall|a: int| u < a < n ==> (#[trigger] g@[a]).len() == 0,
                forall|a: int, k: int|
                    start <= a < u && 0 <= k < m ==> {
                        &&& (#[trigger] g@[a][k]).0 <= a
                        &&& k == 0 ==> g@[a][k].0 < a
                        &&& 1 <= g@[a][k].1 <= maxw
                    },
                forall|k: int|
                    0 <= k < count ==> {
                        &&& (#[trigger] g@[u as int][k]).0 <= u
                        &&& k == 0 ==> g@[u as int][k].0 < u
                        &&& 1 <= g@[u as int][k].1 <= maxw
                    },
                forall|i: int| 0 <= i < ends@.len() ==> (#[trigger] ends@[i]) <= u,
                count == 0 ==> forall|i: int| 0 <= i < ends@.len() ==> (#[trigger] ends@[i]) < u,
            decreases m - count,
        {
            let t = if ends.is_empty() {
                draw_below(&mut rng, u)
            } else {
                let i = draw_below(&mut rng, ends.len());
                ends[i]
            };
            let w = draw_weight(&mut rng, maxw) as u64;
            let ghost before = g@;
            g.add_edge(u, t, w);
            ends.push(t);
            ends.push(u);
            proof {
                assert forall|a: int| 0 <= a < n && a != u implies #[trigger] g@[a]
                    == before[a] by {}
                assert forall|k: int| 0 <= k < count + 1 implies {
                    &&& (#[trigger] g@[u as int][k]).0 <= u
                    &&& k == 0 ==> g@[u as int][k].0 < u
                    &&& 1 <= g@[u as int][k].1 <= maxw
                } by {
                    if k < count {
                        assert(g@[u as int][k] == before[u as int][k]);
                    }
                }
            }
            count = count + 1;
        }
        u = u + 1;
    }
    proof {
        assert forall|a: int| 0 <= a < start implies (#[trigger] g@[a]).len() == start - 1 by {
            assert(g@[a] == clique_row(start as nat, a));
        }
        lemma_ba_edges(g@, start as nat, m as nat, n as nat);
        if n == start {
            assert((n - start) * m == 0) by (nonlinear_arith)
                requires
                    n == start,
            ;
        }
    }
    g
}

/// The number of edges of a graph whose first `start` adjacency lists hold
/// `start - 1` edges each, and the others `m` each.
proof fn lemma_ba_edges(adj: Adjacency, start: nat, m: nat, k: nat)
    requires
        start <= adj.len(),
        k <= adj.len(),
        forall|u: int| 0 <= u < start ==> (#[trigger] adj[u]).len() == start - 1,
        forall|u: int| start <= u < adj.len() ==> (#[trigger] adj[u]).len() == m,
    ensures
        k <= start ==> edges_below(adj, k) == k * (start - 1),
        k > start ==> edges_below(adj, k) == start * (start - 1) + (k - start) * m,
    decreases k,
{
    if k > 0 {
        lemma_ba_edges(adj, start, m, (k - 1) as nat);
        if k <= start {
            assert(k * (start - 1) == (k - 1) * (start - 1) + (start - 1)) by (nonlinear_arith);
        } else {
            assert((k - start) * m == (k - 1 - start) * m + m) by (nonlinear_arith);
            if k - 1 == start {
                assert((k - 1 - start) * m == 0) by (nonlinear_arith)
                    requires
                        k - 1 == start,
                ;
            }
        }
    }
}

/// The vertex that stands for the cell in row `r` and column `c` of a grid
/// with `cols` columns.
pub open spec fn cell(cols: nat, r: int, c: int) -> int {
    r * cols + c
}

/// The cell `(r, c)` comes before the cell `(r0, c0)`, row by row.
pub open spec fn comes_before(r0: int, c0: int, r: int, c: int) -> bool {
    r < r0 || (r == r0 && c < c0)
}

/// One, where the condition holds, and else zero.
pub open spec fn one_if(b: bool) -> int {
    if b {
        1
    } else {
        0
    }
}

/// The neighbours of the cell `(r, c)` in a grid of `rows` rows and `cols`
/// columns, in the order of its adjacency list: above, left, below, right,
/// as far as they exist.
pub open spec fn grid_row(rows: nat, cols: nat, r: int, c: int) -> Seq<int> {
    let up = if r > 0 {
        seq![cell(cols, r - 1, c)]
    } else {
        Seq::<int>::empty()
    };
    let left = if c > 0 {
        seq![cell(cols, r, c - 1)]
    } else {
        Seq::<int>::empty()
    };
    let down = if r + 1 < rows {
        seq![cell(cols, r + 1, c)]
    } else {
        Seq::<int>::empty()
    };
    let right = if c + 1 < cols {
        seq![cell(cols, r, c + 1)]
    } else {
        Seq::<int>::empty()
    };
    up + left + down + right
}

/// The vertices at which the edges of an adjacency list end.
pub open spec fn destinations(list: Seq<(Node, Weight)>) -> Seq<int> {
    Seq::new(list.len(), |k: int| list[k].0 as int)
}

/// The edges between each cell and its lower and right neighbours have the
/// same weight in both directions.
pub open spec fn grid_weights_agree(adj: Adjacency, rows: nat, cols: nat) -> bool {
    weights_agree_before(adj, rows, cols, rows as int, 0)
}

/// The adjacency list of the cell `(r, c)` once the cells before `(r0, c0)`
/// have been joined to their lower and right neighbours: it ends at the cell
/// above and the cell to the left, where they have been joined, and then at
/// the cell below and the cell to the right, where the cell itself has been;
/// its weights lie between one and `maxw`.
spec fn list_is(
    list: Seq<(Node, Weight)>,
    rows: nat,
    cols: nat,
    maxw: u32,
    r0: int,
    c0: int,
    r: int,
    c: int,
) -> bool {
    let up = r > 0 && comes_before(r0, c0, r - 1, c);
    let left = c > 0 && comes_before(r0, c0, r, c - 1);
    let down = r + 1 < rows && comes_before(r0, c0, r, c);
    let right = c + 1 < cols && comes_before(r0, c0, r, c);
    &&& list.len() == one_if(up) + one_if(left) + one_if(down) + one_if(right)
    &&& up ==> list[0].0 == cell(cols, r - 1, c)
    &&& left ==> list[one_if(up)].0 == cell(cols, r, c - 1)
    &&& down ==> list[one_if(up) + one_if(left)].0 == cell(cols, r + 1, c)
    &&& right ==> list[one_if(up) + one_if(left) + one_if(down)].0 == cell(cols, r, c + 1)
    &&& forall|k: int| 0 <= k < list.len() ==> 1 <= (#[trigger] list[k]).1 <= maxw
}

/// Every adjacency list is as `list_is` says.
spec fn lists_are(adj: Adjacency, rows: nat, cols: nat, maxw: u32, r0: int, c0: int) -> bool {
    forall|r: int, c: int|
        0 <= r < rows && 0 <= c < cols ==> #[trigger] list_is(
            adj[cell(cols, r, c)],
            rows,
            cols,
            maxw,
            r0,
            c0,
            r,
            c,
        )
}

/// The edges between the cell `(r, c)` and its lower and right neighbours
/// have the same weight in both directions.
pub open spec fn cell_weights_agree(adj: Adjacency, rows: nat, cols: nat, r: int, c: int) -> bool {
    &&& r + 1 < rows ==> adj[cell(cols, r, c)][one_if(r > 0) + one_if(c > 0)].1 == adj[cell(
        cols,
        r + 1,
        c,
    )][0].1
    &&& c + 1 < cols ==> adj[cell(cols, r, c)][one_if(r > 0) + one_if(c > 0) + one_if(
        r + 1 < rows,
    )].1 == adj[cell(cols, r, c + 1)][one_if(r > 0)].1
}

/// The weights agree for each cell before `(r0, c0)`.
pub open spec fn weights_agree_before(
    adj: Adjacency,
    rows: nat,
    cols: nat,
    r0: int,
    c0: int,
) -> bool {
    forall|r: int, c: int|
        0 <= r < rows && 0 <= c < cols && comes_before(r0, c0, r, c) ==> #[trigger] cell_weights_agree(
            adj,
            rows,
            cols,
            r,
            c,
        )
}

/// The graph `adj` with the edge between `a` and `b` of weight `w` added in
/// both directions.
spec fn joined(adj: Adjacency, a: int, b: int, w: Weight) -> Adjacency {
    with_edge(with_edge(adj, a as Node, b as Node, w), b as Node, a as Node, w)
}

/// The graph after the cell `(r, c)` has been joined to its lower
/// neighbour with weight `w1` and to its right neighbour with weight `w2`,
/// as far as they exist.
spec fn after_cell(
    adj: Adjacency,
    rows: nat,
    cols: nat,
    r: int,
    c: int,
    w1: Weight,
    w2: Weight,
) -> Adjacency {
    let mid = if r + 1 < rows {
        joined(adj, cell(cols, r, c), cell(cols, r + 1, c), w1)
    } else {
        adj
    };
    if c + 1 < cols {
        joined(mid, cell(cols, r, c), cell(cols, r, c + 1), w2)
    } else {
        mid
    }
}

/// The number of edges of a grid: two for each pair of neighbours, of which
/// each row has one fewer than it has cells, and each column likewise.
pub open spec fn grid_edge_count(rows: nat, cols: nat) -> int {
    if rows == 0 || cols == 0 {
        0
    } else {
        2 * (rows * (cols - 1) + (rows - 1) * cols)
    }
}

/// The number of pairs of neighbours that have been joined once the cells
/// before `(r0, c0)` have been joined to their lower and right neighbours.
spec fn joins_before(rows: nat, cols: nat, r0: int, c0: int) -> int {
    if rows == 0 || cols == 0 {
        0
    } else {
        let full = if r0 < rows {
            r0
        } else {
            rows - 1
        };
        let right = if c0 < cols {
            c0
        } else {
            cols - 1
        };
        r0 * (cols - 1) + full * cols + right + if r0 + 1 < rows {
            c0
        } else {
            0
        }
    }
}

/// The cells of a grid are vertices below the product of its sides.
pub proof fn lemma_cell_in_grid(rows: nat, cols: nat, r: int, c: int)
    requires
        0 <= r < rows,
        0 <= c < cols,
    ensures
        0 <= r * cols <= cell(cols, r, c) < rows * cols,
        cell(cols, r + 1, c) == cell(cols, r, c) + cols,
        cell(cols, r, c + 1) == cell(cols, r, c) + 1,
{
    assert(0 <= r * cols && r * cols + cols <= rows * cols && (r + 1) * cols == r * cols + cols)
        by (nonlinear_arith)
        requires
            0 <= r < rows,
            0 <= cols,
    ;
}

/// Two cells that stand for the same vertex are the same cell.
pub proof fn lemma_cell_one_to_one(cols: nat, r: int, c: int, r2: int, c2: int)
    requires
        0 <= c < cols,
        0 <= c2 < cols,
        cell(cols, r, c) == cell(cols, r2, c2),
    ensures
        r == r2,
        c == c2,
{
    assert(r == r2) by (nonlinear_arith)
        requires
            0 <= c < cols,
            0 <= c2 < cols,
            r * cols + c == r2 * cols + c2,
    ;
}

/// What joining the cell `(r, c)` to its neighbours does to each adjacency
/// list: its own gets the edges to the lower and to the right neighbour,
/// each neighbour's gets the edge back to it, and no other changes.
proof fn lemma_after_cell(
    adj: Adjacency,
    rows: nat,
    cols: nat,
    r: int,
    c: int,
    w1: Weight,
    w2: Weight,
    x: int,
)
    requires
        adj.len() == rows * cols,
        rows * cols <= usize::MAX,
        0 <= r < rows,
        0 <= c < cols,
        0 <= x < adj.len(),
    ensures
        ({
            let now = after_cell(adj, rows, cols, r, c, w1, w2);
            let u = cell(cols, r, c);
            let below = cell(cols, r + 1, c);
            let beside = cell(cols, r, c + 1);
            let down = r + 1 < rows;
            let right = c + 1 < cols;
            &&& now.len() == adj.len()
            &&& x == u && down && right ==> now[x] == adj[x].push((below as Node, w1)).push(
                (beside as Node, w2),
            )
            &&& x == u && down && !right ==> now[x] == adj[x].push((below as Node, w1))
            &&& x == u && !down && right ==> now[x] == adj[x].push((beside as Node, w2))
            &&& x == below && down ==> now[x] == adj[x].push((u as Node, w1))
            &&& x == beside && right ==> now[x] == adj[x].push((u as Node, w2))
            &&& !(x == u && (down || right)) && !(x == below && down) && !(x == beside && right)
                ==> now[x] == adj[x]
        }),
{
    lemma_cell_in_grid(rows, cols, r, c);
    let u = cell(cols, r, c);
    let below = cell(cols, r + 1, c);
    let beside = cell(cols, r, c + 1);
    if r + 1 < rows {
        lemma_cell_in_grid(rows, cols, r + 1, c);
    }
    if c + 1 < cols {
        lemma_cell_in_grid(rows, cols, r, c + 1);
    }
    let mid = if r + 1 < rows {
        joined(adj, u, below, w1)
    } else {
        adj
    };
    assert(mid.len() == adj.len());
}

/// Joining the cell `(r, c)` to its neighbours makes each adjacency list
/// what it is to be once the cells before `(r, c + 1)` have been joined.
proof fn lemma_list_after_cell(
    adj: Adjacency,
    rows: nat,
    cols: nat,
    maxw: u32,
    r: int,
    c: int,
    w1: Weight,
    w2: Weight,
    a: int,
    b: int,
)
    requires
        adj.len() == rows * cols,
        rows * cols <= usize::MAX,
        0 <= r < rows,
        0 <= c < cols,
        0 <= a < rows,
        0 <= b < cols,
        1 <= w1 <= maxw,
        1 <= w2 <= maxw,
        list_is(adj[cell(cols, a, b)], rows, cols, maxw, r, c, a, b),
    ensures
        list_is(
            after_cell(adj, rows, cols, r, c, w1, w2)[cell(cols, a, b)],
            rows,
            cols,
            maxw,
            r,
            c + 1,
            a,
            b,
        ),
{
    let x = cell(cols, a, b);
    let u = cell(cols, r, c);
    lemma_cell_in_grid(rows, cols, a, b);
    lemma_cell_in_grid(rows, cols, r, c);
    lemma_after_cell(adj, rows, cols, r, c, w1, w2, x);
    let now = after_cell(adj, rows, cols, r, c, w1, w2)[x];
    if r + 1 < rows {
        lemma_cell_in_grid(rows, cols, r + 1, c);
    }
    if c + 1 < cols {
        lemma_cell_in_grid(rows, cols, r, c + 1);
    }
    if x == u {
        lemma_cell_one_to_one(cols, a, b, r, c);
    } else if r + 1 < rows && x == cell(cols, r + 1, c) {
        lemma_cell_one_to_one(cols, a, b, r + 1, c);
    } else if c + 1 < cols && x == cell(cols, r, c + 1) {
        lemma_cell_one_to_one(cols, a, b, r, c + 1);
    } else {
        if a == r && b == c {
            assert(x == u);
        }
        if a == r + 1 && b == c {
            assert(x == cell(cols, r + 1, c));
        }
        if a == r && b == c + 1 {
            assert(x == cell(cols, r, c + 1));
        }
    }
    assert forall|k: int| 0 <= k < now.len() implies 1 <= (#[trigger] now[k]).1 <= maxw by {
        if k < adj[x].len() {
            assert(now[k] == adj[x][k]);
        }
    }
}

/// Joining the cell `(r, c)` to its neighbours leaves the weights around
/// each cell before it as they agree, and makes those around `(r, c)` agree.
proof fn lemma_weights_after_cell(
    adj: Adjacency,
    rows: nat,
    cols: nat,
    maxw: u32,
    r: int,
    c: int,
    w1: Weight,
    w2: Weight,
    a: int,
    b: int,
)
    requires
        adj.len() == rows * cols,
        rows * cols <= usize::MAX,
        0 <= r < rows,
        0 <= c < cols,
        0 <= a < rows,
        0 <= b < cols,
        comes_before(r, c + 1, a, b),
        lists_are(adj, rows, cols, maxw, r, c),
        comes_before(r, c, a, b) ==> cell_weights_agree(adj, rows, cols, a, b),
    ensures
        cell_weights_agree(after_cell(adj, rows, cols, r, c, w1, w2), rows, cols, a, b),
{
    let x = cell(cols, a, b);
    let u = cell(cols, r, c);
    let now = after_cell(adj, rows, cols, r, c, w1, w2);
    lemma_cell_in_grid(rows, cols, a, b);
    lemma_cell_in_grid(rows, cols, r, c);
    lemma_after_cell(adj, rows, cols, r, c, w1, w2, x);
    assert(list_is(adj[x], rows, cols, maxw, r, c, a, b));
    if a + 1 < rows {
        let y = cell(cols, a + 1, b);
        lemma_cell_in_grid(rows, cols, a + 1, b);
        lemma_after_cell(adj, rows, cols, r, c, w1, w2, y);
        assert(list_is(adj[y], rows, cols, maxw, r, c, a + 1, b));
        if y == u {
            lemma_cell_one_to_one(cols, a + 1, b, r, c);
        }
        if r + 1 < rows && y == cell(cols, r + 1, c) {
            lemma_cell_one_to_one(cols, a + 1, b, r + 1, c);
        }
        if c + 1 < cols && y == cell(cols, r, c + 1) {
            lemma_cell_one_to_one(cols, a + 1, b, r, c + 1);
        }
    }
    if b + 1 < cols {
        let z = cell(cols, a, b + 1);
        lemma_cell_in_grid(rows, cols, a, b + 1);
        lemma_after_cell(adj, rows, cols, r, c, w1, w2, z);
        assert(list_is(adj[z], rows, cols, maxw, r, c, a, b + 1));
        if z == u {
            lemma_cell_one_to_one(cols, a, b + 1, r, c);
        }
        if r + 1 < rows && z == cell(cols, r + 1, c) {
            lemma_cell_one_to_one(cols, a, b + 1, r + 1, c);
        }
        if c + 1 < cols && z == cell(cols, r, c + 1) {
            lemma_cell_one_to_one(cols, a, b + 1, r, c + 1);
        }
    }
    if x == u {
        lemma_cell_one_to_one(cols, a, b, r, c);
    }
    if r + 1 < rows && x == cell(cols, r + 1, c) {
        lemma_cell_one_to_one(cols, a, b, r + 1, c);
    }
    if c + 1 < cols && x == cell(cols, r, c + 1) {
        lemma_cell_one_to_one(cols, a, b, r, c + 1);
    }
}

/// Builds a grid of `rows` rows and `cols` columns. Each cell is joined in
/// both directions to the cell below it and to the cell to its right, each
/// pair by a weight drawn from one to `maxw`. The draws follow from `seed`.
pub fn make_grid(rows: usize, cols: usize, maxw: u32, seed: u64) -> (g: Graph)
    requires
        rows * cols <= usize::MAX,
        maxw >= 1 || rows * cols <= 1,
    ensures
        g@.len() == rows * cols,
        g.wf(),
        edge_count(g@) == grid_edge_count(rows as nat, cols as nat),
        forall|r: int, c: int|
            0 <= r < rows && 0 <= c < cols ==> destinations(
                #[trigger] g@[cell(cols as nat, r, c)],
            ) == grid_row(rows as nat, cols as nat, r, c),
        forall|r: int, c: int, k: int|
            0 <= r < rows && 0 <= c < cols && 0 <= k < g@[cell(cols as nat, r, c)].len() ==> 1 <= (
            #[trigger] g@[cell(cols as nat, r, c)][k]).1 <= maxw,
        grid_weights_agree(g@, rows as nat, cols as nat),
{
    let mut rng = seeded_generator(seed);
    let mut g = Graph::new(rows * cols);
    let ghost h = rows as nat;
    let ghost wd = cols as nat;
    let mut r: usize = 0;
    proof {
        assert(joins_before(h, wd, 0, 0) == 0) by (nonlinear_arith)
            requires
                joins_before(h, wd, 0, 0) == (if h == 0 || wd == 0 {
                    0
                } else {
                    0 * (wd - 1) + 0 * wd + 0 + 0
                }),
        ;
        assert forall|a: int, b: int| 0 <= a < h && 0 <= b < wd implies #[trigger] list_is(
            g@[cell(wd, a, b)],
            h,
            wd,
            maxw,
            0,
            0,
            a,
            b,
        ) by {
            lemma_cell_in_grid(h, wd, a, b);
        }
    }
    while r < rows
        invariant
            h == rows,
            wd == cols,
            rows * cols <= usize::MAX,
            maxw >= 1 || rows * cols <= 1,
            r <= rows,
            g@.len() == rows * cols,
            g.wf(),
            edge_count(g@) == 2 * joins_before(h, wd, r as int, 0),
            lists_are(g@, h, wd, maxw, r as int, 0),
            weights_agree_before(g@, h, wd, r as int, 0),
        decreases rows - r,
    {
        let mut c: usize = 0;
        while c < cols
            invariant
                h == rows,
                wd == cols,
                rows * cols <= usize::MAX,
                maxw >= 1 || rows * cols <= 1,
                r < rows,
                c <= cols,
                g@.len() == rows * cols,
                g.wf(),
                edge_count(g@) == 2 * joins_before(h, wd, r as int, c as int),
                lists_are(g@, h, wd, maxw, r as int, c as int),
                weights_agree_before(g@, h, wd, r as int, c as int),
            decreases cols - c,
        {
            proof {
                lemma_cell_in_grid(h, wd, r as int, c as int);
            }
            let u = r * cols + c;
            let ghost first = g@;
            let mut w1: u64 = 1;
            let mut w2: u64 = 1;
            if r + 1 < rows {
                proof {
                    lemma_cell_in_grid(h, wd, r + 1, c as int);
                }
                w1 = draw_weight(&mut rng, maxw) as u64;
                g.add_undirected_edge(u, (r + 1) * cols + c, w1);
            }
            if c + 1 < cols {
                proof {
                    lemma_cell_in_grid(h, wd, r as int, c + 1);
                }
                w2 = draw_weight(&mut rng, maxw) as u64;
                g.add_undirected_edge(u, r * cols + (c + 1), w2);
            }
            proof {
                assert(g@ == after_cell(first, h, wd, r as int, c as int, w1, w2));
                assert(maxw >= 1 || (r + 1 >= rows && c + 1 >= cols));
                assert forall|a: int, b: int| 0 <= a < h && 0 <= b < wd implies #[trigger] list_is(
                    g@[cell(wd, a, b)],
                    h,
                    wd,
                    maxw,
                    r as int,
                    c + 1,
                    a,
                    b,
                ) by {
                    assert(list_is(first[cell(wd, a, b)], h, wd, maxw, r as int, c as int, a, b));
                    if maxw >= 1 {
                        lemma_list_after_cell(first, h, wd, maxw, r as int, c as int, w1, w2, a, b);
                    } else {
                        lemma_cell_in_grid(h, wd, a, b);
                    }
                }
                assert forall|a: int, b: int|
                    0 <= a < h && 0 <= b < wd && comes_before(
                        r as int,
                        c + 1,
                        a,
                        b,
                    ) implies #[trigger] cell_weights_agree(g@, h, wd, a, b) by {
                    if comes_before(r as int, c as int, a, b) {
                        assert(cell_weights_agree(first, h, wd, a, b));
                    }
                    lemma_weights_after_cell(first, h, wd, maxw, r as int, c as int, w1, w2, a, b);
                }
            }
            c = c + 1;
        }
        proof {
            assert(joins_before(h, wd, r as int, cols as int) == joins_before(h, wd, r + 1, 0))
                by (nonlinear_arith)
                requires
                    0 <= r < h,
                    wd == cols,
                    joins_before(h, wd, r as int, cols as int) == (if wd == 0 {
                        0
                    } else {
                        r * (wd - 1) + r * wd + (wd - 1) + if r + 1 < h {
                            wd as int
                        } else {
                            0
                        }
                    }),
                    joins_before(h, wd, r + 1, 0) == (if wd == 0 {
                        0
                    } else {
                        (r + 1) * (wd - 1) + (if r + 1 < h {
                            r + 1
                        } else {
                            h - 1
                        }) * wd
                    }),
            ;
            assert forall|a: int, b: int| 0 <= a < h && 0 <= b < wd implies #[trigger] list_is(
                g@[cell(wd, a, b)],
                h,
                wd,
                maxw,
                r + 1,
                0,
                a,
                b,
            ) by {
                assert(list_is(g@[cell(wd, a, b)], h, wd, maxw, r as int, cols as int, a, b));
            }
            assert forall|a: int, b: int|
                0 <= a < h && 0 <= b < wd && comes_before(
                    r + 1,
                    0,
                    a,
                    b,
                ) implies #[trigger] cell_weights_agree(g@, h, wd, a, b) by {
                assert(comes_before(r as int, cols as int, a, b));
            }
        }
        r = r + 1;
    }
    proof {
        assert(2 * joins_before(h, wd, rows as int, 0) == grid_edge_count(h, wd));
        assert forall|a: int, b: int| 0 <= a < h && 0 <= b < wd implies destinations(
            #[trigger] g@[cell(wd, a, b)],
        ) == grid_row(h, wd, a, b) by {
            assert(list_is(g@[cell(wd, a, b)], h, wd, maxw, rows as int, 0, a, b));
            assert(destinations(g@[cell(wd, a, b)]) =~= grid_row(h, wd, a, b));
        }
        assert forall|a: int, b: int, k: int|
            0 <= a < h && 0 <= b < wd && 0 <= k < g@[cell(wd, a, b)].len() implies 1 <= (
        #[trigger] g@[cell(wd, a, b)][k]).1 <= maxw by {
            assert(list_is(g@[cell(wd, a, b)], h, wd, maxw, rows as int, 0, a, b));
        }
    }
    g
}

} // verus!
