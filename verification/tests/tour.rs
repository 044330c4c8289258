use ant_colony::graph::GraphStore;
use ant_colony::matrix::zero_matrix;
use ant_colony::numeric::{pow_capped, WEIGHT_CAP};
use ant_colony::sampling::{desirability_weight, sample_weighted};
use ant_colony::tour::{construct_tour, release_ants, AntTour};

fn square_graph() -> GraphStore {
    let mut g = GraphStore::new();
    g.add_vertex(0, 0);
    g.add_vertex(0, 100);
    g.add_vertex(100, 100);
    g.add_vertex(100, 0);
    g
}

fn degrees(incidence: &Vec<Vec<u64>>) -> Vec<usize> {
    incidence.iter().map(|row| row.iter().filter(|&&e| e != 0).count()).collect()
}

fn tour_length_from_incidence(tour: &AntTour, adjacency: &Vec<Vec<u64>>) -> u64 {
    let n = adjacency.len();
    let mut total = 0u64;
    for i in 0..n {
        for j in (i + 1)..n {
            if tour.incidence[i][j] != 0 {
                total += adjacency[i][j];
            }
        }
    }
    total
}

#[test]
fn tour_visits_every_vertex_twice_incident() {
    // Each vertex of a constructed tour has incidence degree exactly two,
    // so the degree sum over the whole matrix is 2 n.
    let g = square_graph();
    let n = g.vertex_count();
    let pher = zero_matrix(n);
    for _ in 0..20 {
        let tour = construct_tour(&g.adjacency, &pher, 1, 4, n);
        let d = degrees(&tour.incidence);
        assert_eq!(d.len(), n);
        for v in 0..n {
            assert_eq!(d[v], 2);
        }
        assert_eq!(d.iter().sum::<usize>(), 2 * n);
        // the incidence matrix is symmetric with a zero diagonal
        for i in 0..n {
            assert_eq!(tour.incidence[i][i], 0);
            for j in 0..n {
                assert_eq!(tour.incidence[i][j], tour.incidence[j][i]);
            }
        }
        // the recorded length is the sum of the walked edges
        assert_eq!(tour.length, tour_length_from_incidence(&tour, &g.adjacency));
    }
}

#[test]
fn degenerate_coincident_vertices_still_tour() {
    // All vertices at the same point: every edge has weight zero, and the
    // constructor must neither fault nor stall.
    let mut g = GraphStore::new();
    for _ in 0..4 {
        g.add_vertex(42, -7);
    }
    let n = g.vertex_count();
    let pher = zero_matrix(n);
    let tour = construct_tour(&g.adjacency, &pher, 1, 4, n);
    let d = degrees(&tour.incidence);
    for v in 0..n {
        assert_eq!(d[v], 2);
    }
    assert_eq!(tour.length, 0);
}

#[test]
fn one_zero_distance_pair_dominates() {
    // Two coincident vertices among distant ones: the zero-weight edge is
    // preferred, never a fault.
    let mut g = GraphStore::new();
    g.add_vertex(0, 0);
    g.add_vertex(0, 0);
    g.add_vertex(1000, 0);
    g.add_vertex(0, 1000);
    let n = g.vertex_count();
    let pher = zero_matrix(n);
    for _ in 0..10 {
        let tour = construct_tour(&g.adjacency, &pher, 1, 4, n);
        let d = degrees(&tour.incidence);
        for v in 0..n {
            assert_eq!(d[v], 2);
        }
    }
}

#[test]
fn release_ants_one_tour_per_ant() {
    let g = square_graph();
    let n = g.vertex_count();
    let pher = zero_matrix(n);
    let tours = release_ants(&g.adjacency, &pher, 1, 4, 7, n);
    assert_eq!(tours.len(), 7);
    for tour in &tours {
        assert_eq!(degrees(&tour.incidence).iter().sum::<usize>(), 2 * n);
    }
}

#[test]
fn sampling_only_picks_positive_weights() {
    // The one positive weight must always be drawn; a random draw handed
    // back out of range would make this fail.
    for _ in 0..50 {
        let w: Vec<u64> = vec![0, 7, 0];
        assert_eq!(sample_weighted(&w), 1);
    }
    for _ in 0..50 {
        let w: Vec<u64> = vec![0, 0, 0, 3];
        assert_eq!(sample_weighted(&w), 3);
    }
}

#[test]
fn sampling_zero_total_falls_back_to_uniform() {
    let w: Vec<u64> = vec![0, 0, 0];
    for _ in 0..20 {
        assert!(sample_weighted(&w) < 3);
    }
}

#[test]
fn capped_powers_exact() {
    assert_eq!(pow_capped(2, 10), 1024);
    assert_eq!(pow_capped(2, 40), WEIGHT_CAP);
    assert_eq!(pow_capped(0, 0), 1);
    assert_eq!(pow_capped(0, 5), 0);
    assert_eq!(pow_capped(1, 1_000_000_000), 1);
    assert_eq!(pow_capped(10, 3), 1000);
}

#[test]
fn desirability_weights_exact() {
    // zero pheromone with a positive exponent gives weight zero
    assert_eq!(desirability_weight(0, 5, 1, 1), 0);
    // both exponents zero: the weight is one whatever the inputs
    assert_eq!(desirability_weight(0, 5, 0, 0), 1);
    // alpha zero: the weight is the reciprocal term alone; the reciprocal
    // of weight 3_000_000 at the fixed scale is 1_000_000
    assert_eq!(desirability_weight(0, 3_000_000, 0, 1), 1_000_000);
    // large powers cap at the weight cap
    assert_eq!(desirability_weight(2, 1, 64, 1), WEIGHT_CAP);
}
