use ant_colony::graph::GraphStore;
use ant_colony::numeric::isqrt;

fn complete_graph(coords: &[(i64, i64)]) -> GraphStore {
    let mut g = GraphStore::new();
    for &(x, y) in coords {
        g.add_vertex(x, y);
    }
    g
}

#[test]
fn edge_count_matches_complete_graph() {
    // After placing n vertices the edge count is n (n - 1) / 2.
    let mut g = GraphStore::new();
    let coords = [(0, 0), (10, 0), (0, 10), (7, 7), (-3, 4), (100, -100)];
    for (k, &(x, y)) in coords.iter().enumerate() {
        let id = g.add_vertex(x, y);
        assert_eq!(id, (k + 1) as u64);
        let n = k + 1;
        assert_eq!(g.vertex_count(), n);
        assert_eq!(g.edge_count(), n * (n - 1) / 2);
    }
}

#[test]
fn adjacency_symmetric_zero_diagonal() {
    let g = complete_graph(&[(0, 0), (10, 0), (0, 10), (7, 7), (-3, 4)]);
    let n = g.vertex_count();
    assert_eq!(g.adjacency.len(), n);
    for i in 0..n {
        assert_eq!(g.adjacency[i].len(), n);
        assert_eq!(g.adjacency[i][i], 0);
        for j in 0..n {
            assert_eq!(g.adjacency[i][j], g.adjacency[j][i]);
        }
    }
}

#[test]
fn euclidean_weights_exact() {
    // A 3-4-5 triangle scaled by one thousand.
    let g = complete_graph(&[(0, 0), (3000, 4000), (3000, 0)]);
    assert_eq!(g.adjacency[0][1], 5000);
    assert_eq!(g.adjacency[0][2], 3000);
    assert_eq!(g.adjacency[1][2], 4000);
    // Non-perfect squares round down.
    assert_eq!(isqrt(200), 14);
    assert_eq!(isqrt(199), 14);
    assert_eq!(isqrt(196), 14);
    assert_eq!(isqrt(0), 0);
    assert_eq!(isqrt(1), 1);
}

#[test]
fn edge_list_matches_insertion_order() {
    let g = complete_graph(&[(0, 0), (30, 40), (60, 80)]);
    assert_eq!(g.edges.len(), 3);
    assert_eq!((g.edges[0].u, g.edges[0].v, g.edges[0].weight), (2, 1, 50));
    assert_eq!((g.edges[1].u, g.edges[1].v, g.edges[1].weight), (3, 1, 100));
    assert_eq!((g.edges[2].u, g.edges[2].v, g.edges[2].weight), (3, 2, 50));
}

#[test]
fn possible_cycle_counts_small() {
    // (n - 1)! / 2 distinct undirected Hamiltonian cycles.
    let mut g = GraphStore::new();
    assert_eq!(g.possible_cycle_count(), Some(0));
    g.add_vertex(0, 0);
    assert_eq!(g.possible_cycle_count(), Some(0));
    g.add_vertex(1, 0);
    assert_eq!(g.possible_cycle_count(), Some(0));
    g.add_vertex(2, 0);
    assert_eq!(g.possible_cycle_count(), Some(1));
    g.add_vertex(3, 0);
    assert_eq!(g.possible_cycle_count(), Some(3));
    g.add_vertex(4, 0);
    assert_eq!(g.possible_cycle_count(), Some(12));
    g.add_vertex(5, 0);
    assert_eq!(g.possible_cycle_count(), Some(60));
}

#[test]
fn graph_reset_clears_everything() {
    let mut g = complete_graph(&[(0, 0), (10, 0), (0, 10)]);
    g.reset();
    assert_eq!(g.vertex_count(), 0);
    assert_eq!(g.edge_count(), 0);
    assert!(g.adjacency.is_empty());
}

#[test]
fn coincident_vertices_zero_weight() {
    let g = complete_graph(&[(5, 5), (5, 5)]);
    assert_eq!(g.adjacency[0][1], 0);
    assert_eq!(g.edge_count(), 1);
}
