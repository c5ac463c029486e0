use bmssp::heap::{Entry, MinHeap};
use bmssp::{
    bmssp_sharded, bounded_multi_source_shortest_paths, clamp_shards, merge_results,
    shard_sources, BmsspResult, Graph, Weight,
};

const UNREACHED: Weight = Weight::MAX;

fn line(n: usize, w: Weight) -> Graph {
    let mut g = Graph::new(n);
    for i in 0..n - 1 {
        g.add_undirected_edge(i, i + 1, w);
    }
    g
}

fn chain() -> Graph {
    let mut g = Graph::new(3);
    g.add_edge(0, 1, 5);
    g.add_edge(1, 2, 2);
    g
}

#[test]
fn line_two_sources_meet_in_the_middle() {
    let g = line(6, 3);
    let r = bounded_multi_source_shortest_paths(&g, &[(0, 0), (5, 0)], 7);
    assert_eq!(r.dist, vec![0, 3, 6, 6, 3, 0]);
    assert_eq!(r.explored, vec![0, 5, 1, 4, 2, 3]);
    assert_eq!(r.b_prime, 9);
    assert_eq!(r.edges_scanned, 10);
    assert_eq!(r.heap_pushes, 4);
}

#[test]
fn boundary_is_the_least_crossing_cost() {
    let r = bounded_multi_source_shortest_paths(&chain(), &[(0, 0)], 6);
    assert_eq!(r.dist, vec![0, 5, UNREACHED]);
    assert_eq!(r.explored, vec![0, 1]);
    assert_eq!(r.b_prime, 7);
    assert_eq!(r.edges_scanned, 2);
    assert_eq!(r.heap_pushes, 1);
}

#[test]
fn boundary_stays_at_the_sentinel_when_nothing_crosses() {
    let mut g = Graph::new(2);
    g.add_edge(0, 1, 1);
    let r = bounded_multi_source_shortest_paths(&g, &[(0, 0)], 100);
    assert_eq!(r.dist, vec![0, 1]);
    assert_eq!(r.explored, vec![0, 1]);
    assert_eq!(r.b_prime, UNREACHED);
}

#[test]
fn source_at_or_above_the_bound_is_passed_over() {
    let g = line(4, 2);
    let with = bounded_multi_source_shortest_paths(&g, &[(0, 0), (1, 100)], 10);
    let without = bounded_multi_source_shortest_paths(&g, &[(0, 0)], 10);
    assert_eq!(with.dist, without.dist);
    assert_eq!(with.explored, without.explored);
    assert_eq!(with.b_prime, without.b_prime);
    assert_eq!(with.edges_scanned, without.edges_scanned);
    assert_eq!(with.heap_pushes, without.heap_pushes);
    let at = bounded_multi_source_shortest_paths(&g, &[(2, 10)], 10);
    assert_eq!(at.dist, vec![UNREACHED; 4]);
    assert!(at.explored.is_empty());
    assert_eq!(at.b_prime, UNREACHED);
}

#[test]
fn source_outside_the_graph_is_passed_over() {
    let g = line(3, 1);
    let r = bounded_multi_source_shortest_paths(&g, &[(3, 0), (7, 1), (1, 0)], 5);
    assert_eq!(r.dist, vec![1, 0, 1]);
    assert_eq!(r.explored, vec![1, 0, 2]);
}

#[test]
fn no_source_gives_the_empty_outcome() {
    let g = line(3, 1);
    let r = bounded_multi_source_shortest_paths(&g, &[], 5);
    assert_eq!(r.dist, vec![UNREACHED; 3]);
    assert!(r.explored.is_empty());
    assert_eq!(r.b_prime, UNREACHED);
    assert_eq!(r.edges_scanned, 0);
    assert_eq!(r.heap_pushes, 0);
}

#[test]
fn graph_without_vertices() {
    let g = Graph::new(0);
    let r = bounded_multi_source_shortest_paths(&g, &[(0, 0)], 5);
    assert!(r.dist.is_empty());
    assert!(r.explored.is_empty());
    assert_eq!(r.b_prime, UNREACHED);
}

#[test]
fn bound_zero_accepts_no_source() {
    let g = line(3, 1);
    let r = bounded_multi_source_shortest_paths(&g, &[(0, 0)], 0);
    assert_eq!(r.dist, vec![UNREACHED; 3]);
    assert!(r.explored.is_empty());
    assert_eq!(r.b_prime, UNREACHED);
}

#[test]
fn repeated_source_takes_its_least_initial_distance() {
    let g = line(3, 10);
    let r = bounded_multi_source_shortest_paths(&g, &[(0, 7), (0, 3), (0, 5)], 100);
    assert_eq!(r.dist, vec![3, 13, 23]);
    assert_eq!(r.explored, vec![0, 1, 2]);
    assert_eq!(r.heap_pushes, 2);
}

#[test]
fn equal_distances_settle_by_vertex() {
    let mut g = Graph::new(5);
    g.add_edge(4, 3, 2);
    g.add_edge(4, 1, 2);
    g.add_edge(4, 2, 2);
    g.add_edge(4, 0, 2);
    let r = bounded_multi_source_shortest_paths(&g, &[(4, 0)], 10);
    assert_eq!(r.explored, vec![4, 0, 1, 2, 3]);
    assert_eq!(r.dist, vec![2, 2, 2, 2, 0]);
}

#[test]
fn zero_weights_are_tolerated() {
    let mut g = Graph::new(3);
    g.add_edge(2, 0, 0);
    g.add_edge(0, 1, 0);
    let r = bounded_multi_source_shortest_paths(&g, &[(2, 4)], 5);
    assert_eq!(r.dist, vec![4, 4, 4]);
    assert_eq!(r.explored, vec![2, 0, 1]);
    assert_eq!(r.b_prime, UNREACHED);
}

#[test]
fn sums_saturate_at_the_sentinel() {
    let mut g = Graph::new(2);
    g.add_edge(0, 1, Weight::MAX - 1);
    let r = bounded_multi_source_shortest_paths(&g, &[(0, 5)], Weight::MAX);
    assert_eq!(r.dist, vec![5, UNREACHED]);
    assert_eq!(r.explored, vec![0]);
    assert_eq!(r.b_prime, UNREACHED);
    let exact = bounded_multi_source_shortest_paths(&g, &[(0, 0)], Weight::MAX);
    assert_eq!(exact.dist, vec![0, Weight::MAX - 1]);
    assert_eq!(exact.explored, vec![0, 1]);
}

#[test]
fn parallel_edges_and_loops_are_relaxed_in_order() {
    let mut g = Graph::new(2);
    g.add_edge(0, 1, 9);
    g.add_edge(0, 1, 4);
    g.add_edge(0, 0, 1);
    g.add_edge(0, 1, 6);
    assert_eq!(g.adj[0], vec![(1, 9), (1, 4), (0, 1), (1, 6)]);
    let r = bounded_multi_source_shortest_paths(&g, &[(0, 0)], 20);
    assert_eq!(r.dist, vec![0, 4]);
    assert_eq!(r.explored, vec![0, 1]);
    assert_eq!(r.edges_scanned, 4);
    assert_eq!(r.heap_pushes, 2);
}

#[test]
fn settled_vertices_lie_below_the_bound_and_the_rest_is_unreached() {
    let g = line(9, 4);
    let bound = 13;
    let r = bounded_multi_source_shortest_paths(&g, &[(4, 1)], bound);
    for v in 0..g.len() {
        if r.explored.contains(&v) {
            assert!(r.dist[v] < bound);
        } else {
            assert_eq!(r.dist[v], UNREACHED);
        }
    }
    assert_eq!(r.dist, vec![UNREACHED, UNREACHED, 9, 5, 1, 5, 9, UNREACHED, UNREACHED]);
    assert!(r.b_prime == UNREACHED || r.b_prime >= bound);
    assert_eq!(r.b_prime, 13);
}

#[test]
fn scanned_edges_are_the_degrees_of_the_settled() {
    let g = line(9, 4);
    let r = bounded_multi_source_shortest_paths(&g, &[(4, 1)], 13);
    let degrees: usize = r.explored.iter().map(|&v| g.adj[v].len()).sum();
    assert_eq!(r.edges_scanned, degrees);
    assert!(r.edges_scanned >= r.explored.len());
    assert!(r.heap_pushes <= r.edges_scanned);
    assert!(r.explored.len() <= g.len());
}

#[test]
fn larger_bound_keeps_what_the_smaller_found() {
    let g = line(8, 3);
    let sources = [(0, 0), (7, 2)];
    let small = bounded_multi_source_shortest_paths(&g, &sources, 5);
    let large = bounded_multi_source_shortest_paths(&g, &sources, 9);
    for v in 0..g.len() {
        if small.dist[v] < 5 {
            assert_eq!(large.dist[v], small.dist[v]);
        }
    }
    assert_eq!(small.b_prime, 5);
    assert_eq!(large.b_prime, 9);
    assert!(small.b_prime <= large.b_prime);
}

#[test]
fn source_between_two_bounds_can_lower_the_larger_boundary() {
    let mut g = Graph::new(2);
    g.add_edge(0, 0, 100);
    g.add_edge(1, 1, 1);
    let sources = [(0, 0), (1, 5)];
    let small = bounded_multi_source_shortest_paths(&g, &sources, 3);
    let large = bounded_multi_source_shortest_paths(&g, &sources, 6);
    assert_eq!(small.b_prime, 100);
    assert_eq!(large.b_prime, 6);
}

#[test]
fn same_input_same_outcome() {
    let g = line(7, 2);
    let sources = [(3, 1), (0, 0), (6, 4)];
    let a = bounded_multi_source_shortest_paths(&g, &sources, 6);
    let b = bounded_multi_source_shortest_paths(&g, &sources, 6);
    assert_eq!(a.dist, b.dist);
    assert_eq!(a.explored, b.explored);
    assert_eq!(a.b_prime, b.b_prime);
}

#[test]
fn one_shard_is_the_exploration_itself() {
    let g = line(6, 3);
    let sources = [(0, 0), (5, 0)];
    let r = bounded_multi_source_shortest_paths(&g, &sources, 7);
    for threads in [0, 1] {
        let s = bmssp_sharded(&g, &sources, 7, threads);
        assert_eq!(s.dist, r.dist);
        assert_eq!(s.explored, r.explored);
        assert_eq!(s.b_prime, r.b_prime);
        assert_eq!(s.edges_scanned, r.edges_scanned);
        assert_eq!(s.heap_pushes, r.heap_pushes);
    }
    let single = bmssp_sharded(&g, &[(2, 0)], 7, 8);
    let alone = bounded_multi_source_shortest_paths(&g, &[(2, 0)], 7);
    assert_eq!(single.explored, alone.explored);
    assert_eq!(single.edges_scanned, alone.edges_scanned);
}

#[test]
fn shards_merge_to_the_distances_of_the_exploration() {
    let g = line(6, 3);
    let sources = [(0, 0), (5, 0)];
    let r = bounded_multi_source_shortest_paths(&g, &sources, 7);
    let s = bmssp_sharded(&g, &sources, 7, 2);
    assert_eq!(s.dist, r.dist);
    assert_eq!(s.b_prime, 9);
    // Each shard settles three vertices; the first shard's come first.
    assert_eq!(s.explored, vec![0, 1, 2, 5, 4, 3]);
    assert_eq!(s.edges_scanned, 10);
    assert_eq!(s.heap_pushes, 4);
}

#[test]
fn shards_that_overlap_list_a_vertex_once() {
    let g = line(3, 1);
    let sources = [(0, 0), (2, 0)];
    let s = bmssp_sharded(&g, &sources, 10, 2);
    assert_eq!(s.dist, vec![0, 1, 0]);
    assert_eq!(s.explored, vec![0, 1, 2]);
    // Both shards settle all three vertices and scan all four edges.
    assert_eq!(s.edges_scanned, 8);
    assert_eq!(s.heap_pushes, 4);
}

#[test]
fn sharded_boundary_can_undercut_the_exploration() {
    let mut g = Graph::new(3);
    g.add_edge(0, 1, 1);
    g.add_edge(1, 2, 4);
    let sources = [(0, 0), (1, 3)];
    let r = bounded_multi_source_shortest_paths(&g, &sources, 6);
    let s = bmssp_sharded(&g, &sources, 6, 2);
    assert_eq!(r.dist, vec![0, 1, 5]);
    assert_eq!(s.dist, r.dist);
    assert_eq!(r.b_prime, UNREACHED);
    assert_eq!(s.b_prime, 7);
}

#[test]
fn more_threads_than_sources_are_clamped() {
    assert_eq!(clamp_shards(0, 5), 1);
    assert_eq!(clamp_shards(1, 5), 1);
    assert_eq!(clamp_shards(3, 5), 3);
    assert_eq!(clamp_shards(9, 5), 5);
    assert_eq!(clamp_shards(4, 0), 1);
    assert_eq!(clamp_shards(4, 1), 1);
}

#[test]
fn sources_are_dealt_out_in_turn() {
    let sources = [(0, 10), (1, 11), (2, 12), (3, 13), (4, 14)];
    let shards = shard_sources(&sources, 3);
    assert_eq!(shards, vec![vec![(0, 10), (3, 13)], vec![(1, 11), (4, 14)], vec![(2, 12)]]);
    let one = shard_sources(&sources, 1);
    assert_eq!(one, vec![sources.to_vec()]);
    let none = shard_sources(&[], 2);
    assert_eq!(none, vec![vec![], vec![]]);
}

#[test]
fn merge_takes_minima_unions_and_sums() {
    let a = BmsspResult {
        dist: vec![0, 4, UNREACHED, 9],
        explored: vec![0, 1, 3],
        b_prime: 20,
        edges_scanned: 5,
        heap_pushes: 2,
    };
    let b = BmsspResult {
        dist: vec![3, 2, UNREACHED, UNREACHED],
        explored: vec![1, 0],
        b_prime: 15,
        edges_scanned: 7,
        heap_pushes: 1,
    };
    let c = BmsspResult {
        dist: vec![UNREACHED, UNREACHED, 1, 9],
        explored: vec![2, 3],
        b_prime: UNREACHED,
        edges_scanned: 1,
        heap_pushes: 0,
    };
    let m = merge_results(4, &[a, b, c]);
    assert_eq!(m.dist, vec![0, 2, 1, 9]);
    assert_eq!(m.explored, vec![0, 1, 3, 2]);
    assert_eq!(m.b_prime, 15);
    assert_eq!(m.edges_scanned, 13);
    assert_eq!(m.heap_pushes, 3);
    let empty = merge_results(2, &[]);
    assert_eq!(empty.dist, vec![UNREACHED, UNREACHED]);
    assert!(empty.explored.is_empty());
    assert_eq!(empty.b_prime, UNREACHED);
}

#[test]
fn memory_estimate_follows_the_formula() {
    let mut g = Graph::new(5);
    g.add_undirected_edge(0, 1, 1);
    g.add_undirected_edge(1, 2, 1);
    g.add_undirected_edge(2, 3, 1);
    g.add_undirected_edge(3, 4, 1);
    let word = std::mem::size_of::<usize>();
    assert_eq!(g.memory_estimate_bytes(), 8 * (word + 8) + 5 * 3 * word + 3 * word + 5 * 8 + 5 * 2);
    assert_eq!(Graph::new(0).memory_estimate_bytes(), 3 * word);
    let mut twice = Graph::new(5);
    for _ in 0..2 {
        for i in 0..4 {
            twice.add_undirected_edge(i, i + 1, 1);
        }
    }
    assert_eq!(twice.memory_estimate_bytes() - g.memory_estimate_bytes(), 8 * (word + 8));
}

#[test]
fn graph_keeps_edges_as_given() {
    let mut g = Graph::new(3);
    assert_eq!(g.len(), 3);
    assert!(g.adj.iter().all(|list| list.is_empty()));
    g.add_edge(0, 2, 7);
    g.add_undirected_edge(1, 2, 4);
    g.add_undirected_edge(1, 1, 3);
    assert_eq!(g.adj[0], vec![(2, 7)]);
    assert_eq!(g.adj[1], vec![(2, 4), (1, 3), (1, 3)]);
    assert_eq!(g.adj[2], vec![(1, 4)]);
    assert_eq!(g.len(), 3);
}

#[test]
fn heap_pops_by_distance_then_vertex() {
    let mut h = MinHeap::new();
    assert!(h.is_empty());
    assert!(h.pop().is_none());
    for (d, v) in [(5, 1), (3, 9), (5, 0), (1, 4), (3, 2), (9, 9), (1, 4), (0, 7)] {
        h.push(Entry { d, v });
    }
    assert_eq!(h.len(), 8);
    let mut out = Vec::new();
    while let Some(e) = h.pop() {
        out.push((e.d, e.v));
    }
    assert_eq!(out, vec![(0, 7), (1, 4), (1, 4), (3, 2), (3, 9), (5, 0), (5, 1), (9, 9)]);
    assert!(h.is_empty());
    assert_eq!(h.len(), 0);
}

#[test]
fn entries_are_ordered_by_distance_then_vertex() {
    let a = Entry { d: 2, v: 5 };
    let b = Entry { d: 2, v: 6 };
    let c = Entry { d: 3, v: 0 };
    assert!(a.comes_before(&a));
    assert!(a.comes_before(&b));
    assert!(!b.comes_before(&a));
    assert!(b.comes_before(&c));
    assert!(!c.comes_before(&a));
}

#[test]
fn graph_checks_itself() {
    let mut g = Graph::new(3);
    assert!(g.is_well_formed());
    assert_eq!(g.count_edges(), Some(0));
    g.add_edge(0, 2, 1);
    g.add_undirected_edge(1, 2, 1);
    assert!(g.is_well_formed());
    assert_eq!(g.count_edges(), Some(3));
    assert_eq!(g.checked_memory_estimate_bytes(), Some(g.memory_estimate_bytes()));
    g.add_edge(2, 3, 1);
    assert!(!g.is_well_formed());
    assert_eq!(g.count_edges(), Some(4));
    assert!(Graph::new(0).is_well_formed());
}
