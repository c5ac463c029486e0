//! Adjacency-list graph container.

use vstd::prelude::*;
use vstd::layout::size_of;

verus! {

/// A vertex identifier: an index into the graph's adjacency lists.
pub type Node = usize;

/// An edge weight or a distance. `Weight::MAX` stands for "unreached".
pub type Weight = u64;

/// The mathematical model of a graph: for each vertex, in order, the
/// sequence of its outgoing edges as pairs of destination and weight.
pub type Adjacency = Seq<Seq<(Node, Weight)>>;

/// Every edge of `adj` ends at one of its vertices.
pub open spec fn well_formed(adj: Adjacency) -> bool {
    forall|u: int, k: int|
        0 <= u < adj.len() && 0 <= k < adj[u].len() ==> (#[trigger] adj[u][k]).0 < adj.len()
}

/// The graph `adj` with the edge from `u` to `v` of weight `w` appended to
/// the adjacency list of `u`.
pub open spec fn with_edge(adj: Adjacency, u: Node, v: Node, w: Weight) -> Adjacency {
    adj.update(u as int, adj[u as int].push((v, w)))
}

/// The number of edges that leave the vertices below `k`.
pub open spec fn edges_below(adj: Adjacency, k: nat) -> nat
    decreases k,
{
    if k == 0 || k > adj.len() {
        0
    } else {
        edges_below(adj, (k - 1) as nat) + adj[k - 1].len()
    }
}

/// The number of edges of the whole graph.
pub open spec fn edge_count(adj: Adjacency) -> nat {
    edges_below(adj, adj.len())
}

/// The estimated footprint in bytes: for each edge a vertex identifier and
/// a weight of eight bytes, for each adjacency list and for the list of
/// lists a header of three words, and for each vertex a distance of eight
/// bytes and two flags of one byte.
pub open spec fn memory_estimate(adj: Adjacency) -> nat {
    edge_count(adj) * (size_of::<usize>() + 8) + adj.len() * 3 * size_of::<usize>() + 3
        * size_of::<usize>() + adj.len() * 8 + adj.len() * 2
}

/// A directed graph stored as one adjacency list per vertex. Each entry of
/// `adj[u]` is a pair of the edge's destination and its weight. Parallel
/// edges and self-loops are kept as they are given.
#[derive(Clone, Debug)]
pub struct Graph {
    pub adj: Vec<Vec<(Node, Weight)>>,
}

impl View for Graph {
    type V = Adjacency;

    open spec fn view(&self) -> Adjacency {
        Seq::new(self.adj@.len(), |u: int| self.adj@[u]@)
    }
}

impl Graph {
    /// Every edge ends at a vertex of the graph.
    pub open spec fn wf(&self) -> bool {
        well_formed(self@)
    }

    /// An empty graph of `n` vertices.
    pub fn new(n: usize) -> (g: Graph)
        ensures
            g@ == Seq::new(n as nat, |u: int| Seq::<(Node, Weight)>::empty()),
            g.wf(),
            edge_count(g@) == 0,
    {
        let mut adj: Vec<Vec<(Node, Weight)>> = Vec::new();
        let mut i: usize = 0;
        while i < n
            invariant
                i <= n,
                adj@.len() == i,
                forall|u: int| 0 <= u < i ==> (#[trigger] adj@[u])@ == Seq::<(Node, Weight)>::empty(),
            decreases n - i,
        {
            adj.push(Vec::new());
            i = i + 1;
        }
        let g = Graph { adj };
        assert(g@ =~= Seq::new(n as nat, |u: int| Seq::<(Node, Weight)>::empty()));
        proof {
            lemma_edges_below_empty(g@, n as nat);
        }
        g
    }

    /// The number of vertices.
    pub fn len(&self) -> (n: usize)
        ensures
            n == self@.len(),
    {
        self.adj.len()
    }

    /// Appends the directed edge from `u` to `v` with weight `w` to the
    /// adjacency list of `u`.
    pub fn add_edge(&mut self, u: Node, v: Node, w: Weight)
        requires
            u < old(self)@.len(),
        ensures
            final(self)@ == with_edge(old(self)@, u, v, w),
            old(self).wf() && v < old(self)@.len() ==> final(self).wf(),
            edge_count(final(self)@) == edge_count(old(self)@) + 1,
    {
        self.adj[u].push((v, w));
        assert(self@ =~= with_edge(old(self)@, u, v, w));
        proof {
            lemma_edges_below_with_edge(old(self)@, u, v, w, old(self)@.len());
        }
    }

    /// Appends both orientations of an undirected edge: first `u` to `v`,
    /// then `v` to `u`.
    pub fn add_undirected_edge(&mut self, u: Node, v: Node, w: Weight)
        requires
            u < old(self)@.len(),
            v < old(self)@.len(),
        ensures
            final(self)@ == with_edge(with_edge(old(self)@, u, v, w), v, u, w),
            old(self).wf() ==> final(self).wf(),
            edge_count(final(self)@) == edge_count(old(self)@) + 2,
    {
        self.add_edge(u, v, w);
        self.add_edge(v, u, w);
    }

    /// Whether every edge ends at a vertex of the graph.
    pub fn is_well_formed(&self) -> (b: bool)
        ensures
            b == self.wf(),
    {
        let n = self.adj.len();
        let mut u: usize = 0;
        while u < n
            invariant
                n == self.adj@.len(),
                u <= n,
                forall|a: int, k: int|
                    0 <= a < u && 0 <= k < self@[a].len() ==> (#[trigger] self@[a][k]).0 < n,
            decreases n - u,
        {
            let out = &self.adj[u];
            let mut k: usize = 0;
            while k < out.len()
                invariant
                    n == self.adj@.len(),
                    u < n,
                    out@ == self@[u as int],
                    k <= out@.len(),
                    forall|j: int| 0 <= j < k ==> (#[trigger] self@[u as int][j]).0 < n,
                decreases out@.len() - k,
            {
                if out[k].0 >= n {
                    assert(!(self@[u as int][k as int].0 < self@.len()));
                    return false;
                }
                k = k + 1;
            }
            u = u + 1;
        }
        true
    }

    /// The number of edges, or `None` where that exceeds `usize::MAX`.
    pub fn count_edges(&self) -> (m: Option<usize>)
        ensures
            match m {
                Some(m) => m == edge_count(self@),
                None => edge_count(self@) > usize::MAX,
            },
    {
        let n = self.adj.len();
        let mut m: usize = 0;
        let mut i: usize = 0;
        while i < n
            invariant
                n == self@.len(),
                n == self.adj@.len(),
                i <= n,
                m == edges_below(self@, i as nat),
            decreases n - i,
        {
            proof {
                lemma_edges_below_monotone(self@, (i + 1) as nat, n as nat);
            }
            match m.checked_add(self.adj[i].len()) {
                Some(sum) => {
                    m = sum;
                },
                None => {
                    return None;
                },
            }
            i = i + 1;
        }
        Some(m)
    }

    /// The estimate of `memory_estimate_bytes`, or `None` where it exceeds
    /// `usize::MAX`.
    pub fn checked_memory_estimate_bytes(&self) -> (bytes: Option<usize>)
        ensures
            match bytes {
                Some(bytes) => bytes == memory_estimate(self@),
                None => memory_estimate(self@) > usize::MAX,
            },
    {
        broadcast use vstd::layout::layout_of_primitives;

        let n = self.adj.len();
        let word = std::mem::size_of::<usize>();
        let ghost m = edge_count(self@);
        assert(m * (word + 8) >= m && m * (word + 8) >= 0 && n * 3 * word >= 0 && n * 3 * word
            == (n * 3) * word && n * 3 >= 0) by (nonlinear_arith)
            requires
                m >= 0,
                n >= 0,
                word >= 0,
        ;
        let edges = match self.count_edges() {
            Some(m) => m,
            None => {
                return None;
            },
        };
        let edge_bytes = match edges.checked_mul(word + 8) {
            Some(x) => x,
            None => {
                return None;
            },
        };
        let lists = match n.checked_mul(3) {
            Some(x) => x,
            None => {
                assert(n * 3 * word >= n * 3) by (nonlinear_arith)
                    requires
                        word >= 1,
                        n >= 0,
                ;
                return None;
            },
        };
        let vec_headers = match lists.checked_mul(word) {
            Some(x) => x,
            None => {
                return None;
            },
        };
        let dist_bytes = match n.checked_mul(8) {
            Some(x) => x,
            None => {
                return None;
            },
        };
        let flags_bytes = match n.checked_mul(2) {
            Some(x) => x,
            None => {
                return None;
            },
        };
        let a = match edge_bytes.checked_add(vec_headers) {
            Some(x) => x,
            None => {
                return None;
            },
        };
        let b = match a.checked_add(3 * word) {
            Some(x) => x,
            None => {
                return None;
            },
        };
        let c = match b.checked_add(dist_bytes) {
            Some(x) => x,
            None => {
                return None;
            },
        };
        c.checked_add(flags_bytes)
    }

    /// An estimate, in bytes, of what an exploration of this graph keeps in
    /// memory.
    pub fn memory_estimate_bytes(&self) -> (bytes: usize)
        requires
            memory_estimate(self@) <= usize::MAX,
        ensures
            bytes == memory_estimate(self@),
    {
        broadcast use vstd::layout::layout_of_primitives;

        let n = self.adj.len();
        let mut m: usize = 0;
        let mut i: usize = 0;
        assert(edge_count(self@) <= memory_estimate(self@)) by (nonlinear_arith)
            requires
                memory_estimate(self@) == edge_count(self@) * (size_of::<usize>() + 8) + self@.len()
                    * 3 * size_of::<usize>() + 3 * size_of::<usize>() + self@.len() * 8
                    + self@.len() * 2,
        ;
        while i < n
            invariant
                n == self@.len(),
                n == self.adj@.len(),
                i <= n,
                m == edges_below(self@, i as nat),
                edge_count(self@) <= usize::MAX,
            decreases n - i,
        {
            proof {
                lemma_edges_below_monotone(self@, (i + 1) as nat, n as nat);
            }
            m = m + self.adj[i].len();
            i = i + 1;
        }
        let word = std::mem::size_of::<usize>();
        let wide = std::mem::size_of::<u64>();
        let byte = std::mem::size_of::<u8>();
        assert(m * (word + wide) >= 0 && n * 3 * word >= 0 && n * wide >= 0 && n * byte * 2 >= 0
            && 3 * word >= 0 && n * 3 >= 0 && n * byte >= 0) by (nonlinear_arith);
        assert(n * 3 * word == (n * 3) * word && n * byte * 2 == n * 2) by (nonlinear_arith)
            requires
                byte == 1,
        ;
        let edge_bytes = m * (word + wide);
        let vec_headers = n * 3 * word;
        let outer_vec_header = 3 * word;
        let dist_bytes = n * wide;
        let flags_bytes = n * byte * 2;
        edge_bytes + vec_headers + outer_vec_header + dist_bytes + flags_bytes
    }
}

/// A graph whose adjacency lists are empty has no edges.
pub proof fn lemma_edges_below_empty(adj: Adjacency, k: nat)
    requires
        k <= adj.len(),
        forall|u: int| 0 <= u < adj.len() ==> (#[trigger] adj[u]).len() == 0,
    ensures
        edges_below(adj, k) == 0,
    decreases k,
{
    if k > 0 {
        lemma_edges_below_empty(adj, (k - 1) as nat);
    }
}

/// One more edge out of `u` is one more edge below every vertex above `u`.
pub proof fn lemma_edges_below_with_edge(adj: Adjacency, u: Node, v: Node, w: Weight, k: nat)
    requires
        u < adj.len(),
        k <= adj.len(),
    ensures
        edges_below(with_edge(adj, u, v, w), k) == edges_below(adj, k) + if u < k {
            1nat
        } else {
            0nat
        },
    decreases k,
{
    if k > 0 {
        lemma_edges_below_with_edge(adj, u, v, w, (k - 1) as nat);
    }
}

/// The count of edges below `k` grows with `k`.
pub proof fn lemma_edges_below_monotone(adj: Adjacency, j: nat, k: nat)
    requires
        j <= k <= adj.len(),
    ensures
        edges_below(adj, j) <= edges_below(adj, k),
    decreases k,
{
    if j < k {
        lemma_edges_below_monotone(adj, j, (k - 1) as nat);
    }
}

} // verus!
