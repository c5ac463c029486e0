use bmssp::generators::{make_ba, make_grid};
use bmssp::picker::SourcePicker;
use bmssp::{bounded_multi_source_shortest_paths, Graph};
use rand::{rngs::StdRng, Rng, SeedableRng};

fn grid_drawn_by_hand(rows: usize, cols: usize, maxw: u32, seed: u64) -> Graph {
    let mut rng = StdRng::seed_from_u64(seed);
    let mut g = Graph::new(rows * cols);
    let idx = |r: usize, c: usize| -> usize { r * cols + c };
    for r in 0..rows {
        for c in 0..cols {
            let u = idx(r, c);
            if r + 1 < rows {
                let w = rng.gen_range(1..=maxw) as u64;
                g.add_undirected_edge(u, idx(r + 1, c), w);
            }
            if c + 1 < cols {
                let w = rng.gen_range(1..=maxw) as u64;
                g.add_undirected_edge(u, idx(r, c + 1), w);
            }
        }
    }
    g
}

fn ba_drawn_by_hand(n: usize, m0: usize, m: usize, maxw: u32, seed: u64) -> Graph {
    let mut rng = StdRng::seed_from_u64(seed);
    let mut g = Graph::new(n);
    let mut ends: Vec<usize> = Vec::new();
    let start = m0.max(1).min(n);
    for u in 0..start {
        for v in 0..start {
            if u != v {
                g.add_edge(u, v, 1);
                ends.push(u);
            }
        }
    }
    for u in start..n {
        for _ in 0..m {
            let t = if ends.is_empty() {
                rng.gen_range(0..u)
            } else {
                ends[rng.gen_range(0..ends.len())]
            };
            let w = rng.gen_range(1..=maxw) as u64;
            g.add_edge(u, t, w);
            ends.push(t);
            ends.push(u);
        }
    }
    g
}

#[test]
fn grid_has_the_shape_of_a_grid() {
    let (rows, cols, maxw) = (4usize, 5usize, 9u32);
    let g = make_grid(rows, cols, maxw, 7);
    assert_eq!(g.len(), 20);
    assert!(g.is_well_formed());
    for r in 0..rows {
        for c in 0..cols {
            let mut expected = Vec::new();
            if r > 0 {
                expected.push((r - 1) * cols + c);
            }
            if c > 0 {
                expected.push(r * cols + c - 1);
            }
            if r + 1 < rows {
                expected.push((r + 1) * cols + c);
            }
            if c + 1 < cols {
                expected.push(r * cols + c + 1);
            }
            let list = &g.adj[r * cols + c];
            let ends: Vec<usize> = list.iter().map(|e| e.0).collect();
            assert_eq!(ends, expected);
            for &(v, w) in list {
                assert!(1 <= w && w <= maxw as u64);
                let back = g.adj[v].iter().find(|e| e.0 == r * cols + c).unwrap();
                assert_eq!(back.1, w);
            }
        }
    }
    assert_eq!(g.count_edges(), Some(2 * (rows * (cols - 1) + cols * (rows - 1))));
}

#[test]
fn grid_weights_are_drawn_not_fixed() {
    let maxw = 1000u32;
    let g = make_grid(6, 6, maxw, 99);
    let weights: Vec<u64> = g.adj.iter().flatten().map(|e| e.1).collect();
    assert!(weights.iter().all(|&w| 1 <= w && w <= maxw as u64));
    assert!(weights.iter().any(|&w| w != maxw as u64));
    assert!(weights.iter().any(|&w| w != weights[0]));
    let one = make_grid(3, 3, 1, 5);
    assert!(one.adj.iter().flatten().all(|e| e.1 == 1));
}

#[test]
fn grid_follows_from_its_seed() {
    let a = make_grid(5, 4, 50, 1234);
    let b = make_grid(5, 4, 50, 1234);
    let c = make_grid(5, 4, 50, 1235);
    assert_eq!(a.adj, b.adj);
    assert_ne!(a.adj, c.adj);
    assert_eq!(a.adj, grid_drawn_by_hand(5, 4, 50, 1234).adj);
}

#[test]
fn grid_without_edges_draws_nothing() {
    assert_eq!(make_grid(0, 5, 3, 1).len(), 0);
    assert_eq!(make_grid(5, 0, 3, 1).len(), 0);
    let single = make_grid(1, 1, 0, 1);
    assert_eq!(single.adj, vec![vec![]]);
    let row = make_grid(1, 3, 2, 1);
    assert_eq!(row.adj[1].iter().map(|e| e.0).collect::<Vec<_>>(), vec![0, 2]);
    let column = make_grid(3, 1, 2, 1);
    assert_eq!(column.adj[1].iter().map(|e| e.0).collect::<Vec<_>>(), vec![0, 2]);
}

#[test]
fn ba_starts_from_a_clique_and_attaches_backwards() {
    let (n, m0, m, maxw) = (40usize, 4usize, 3usize, 6u32);
    let g = make_ba(n, m0, m, maxw, 21);
    assert_eq!(g.len(), n);
    assert!(g.is_well_formed());
    assert_eq!(g.adj[0], vec![(1, 1), (2, 1), (3, 1)]);
    assert_eq!(g.adj[2], vec![(0, 1), (1, 1), (3, 1)]);
    assert_eq!(g.adj[3], vec![(0, 1), (1, 1), (2, 1)]);
    for u in m0..n {
        assert_eq!(g.adj[u].len(), m);
        assert!(g.adj[u][0].0 < u);
        for &(t, w) in &g.adj[u] {
            assert!(t <= u);
            assert!(1 <= w && w <= maxw as u64);
        }
    }
    assert!(g.adj[m0..].iter().flatten().any(|e| e.1 != maxw as u64));
    assert_eq!(g.count_edges(), Some(m0 * (m0 - 1) + (n - m0) * m));
}

#[test]
fn ba_follows_from_its_seed() {
    let a = make_ba(60, 5, 4, 9, 4242);
    let b = make_ba(60, 5, 4, 9, 4242);
    let c = make_ba(60, 5, 4, 9, 4243);
    assert_eq!(a.adj, b.adj);
    assert_ne!(a.adj, c.adj);
    assert_eq!(a.adj, ba_drawn_by_hand(60, 5, 4, 9, 4242).adj);
    assert_eq!(make_ba(30, 0, 2, 3, 8).adj, ba_drawn_by_hand(30, 0, 2, 3, 8).adj);
}

#[test]
fn ba_edge_cases() {
    assert_eq!(make_ba(0, 3, 2, 5, 1).len(), 0);
    // No more vertices than the clique has: nothing is drawn.
    let clique = make_ba(3, 7, 2, 0, 1);
    assert_eq!(clique.adj, vec![vec![(1, 1), (2, 1)], vec![(0, 1), (2, 1)], vec![(0, 1), (1, 1)]]);
    // A clique of one has no edge, so the first draw is among the vertices before.
    let chain = make_ba(4, 1, 1, 1, 3);
    assert_eq!(chain.adj[0], vec![]);
    assert_eq!(chain.adj[1], vec![(0, 1)]);
    assert!(chain.adj[2][0].0 < 2);
    assert!(chain.adj[3][0].0 < 3);
    // Without attachments nothing is drawn either.
    let bare = make_ba(5, 2, 0, 0, 3);
    assert_eq!(bare.adj, vec![vec![(1, 1)], vec![(0, 1)], vec![], vec![], vec![]]);
}

#[test]
fn generated_graphs_can_be_explored() {
    let g = make_grid(8, 8, 5, 3);
    let r = bounded_multi_source_shortest_paths(&g, &[(0, 0), (63, 0)], 12);
    assert!(r.explored.len() >= 2);
    assert!(r.b_prime >= 12);
    for &v in &r.explored {
        assert!(r.dist[v] < 12);
    }
    let h = make_ba(100, 5, 3, 7, 9);
    let s = bounded_multi_source_shortest_paths(&h, &[(99, 0)], 20);
    assert_eq!(s.dist[99], 0);
    assert!(s.edges_scanned >= s.explored.len());
}

fn sources_drawn_by_hand(n: usize, k: usize, seed: u64) -> Vec<(usize, u64)> {
    let mut rng = StdRng::seed_from_u64(seed);
    let mut seen = std::collections::BTreeSet::new();
    let mut out = Vec::with_capacity(k);
    while out.len() < k && seen.len() < n {
        let s = rng.gen_range(0..n);
        if seen.insert(s) {
            out.push((s, 0));
        }
    }
    out
}

#[test]
fn picker_takes_each_vertex_once() {
    let mut p = SourcePicker::new(10, 3);
    assert!(p.wants_more());
    p.offer(4);
    p.offer(4);
    p.offer(9);
    assert!(p.wants_more());
    p.offer(4);
    p.offer(0);
    assert!(!p.wants_more());
    assert_eq!(p.into_sources(), vec![(4, 0), (9, 0), (0, 0)]);
}

#[test]
fn picker_stops_when_the_vertices_run_out() {
    let mut p = SourcePicker::new(2, 5);
    assert!(p.wants_more());
    p.offer(1);
    p.offer(1);
    assert!(p.wants_more());
    p.offer(0);
    assert!(!p.wants_more());
    assert_eq!(p.into_sources(), vec![(1, 0), (0, 0)]);
    assert!(!SourcePicker::new(0, 3).wants_more());
    assert!(!SourcePicker::new(3, 0).wants_more());
    assert_eq!(SourcePicker::new(3, 0).into_sources(), vec![]);
}

#[test]
fn picker_follows_the_draws() {
    for (n, k, seed) in [(200usize, 10usize, 777u64), (5, 9, 1), (1, 1, 2), (50, 50, 3)] {
        let mut rng = StdRng::seed_from_u64(seed);
        let mut p = SourcePicker::new(n, k);
        while p.wants_more() {
            p.offer(rng.gen_range(0..n));
        }
        assert_eq!(p.into_sources(), sources_drawn_by_hand(n, k, seed));
    }
}
