use ant_colony::params::ParameterName;
use ant_colony::solver::{AcoError, AntColonySystem};

fn triangle_system() -> AntColonySystem {
    // a right triangle with legs of ten units, in thousandths
    let mut sys = AntColonySystem::new();
    sys.add_vertex(0, 0).unwrap();
    sys.add_vertex(0, 10_000).unwrap();
    sys.add_vertex(10_000, 10_000).unwrap();
    sys
}

#[test]
fn start_with_two_vertices_fails_and_stays_idle() {
    let mut sys = AntColonySystem::new();
    sys.add_vertex(0, 0).unwrap();
    sys.add_vertex(0, 10_000).unwrap();
    assert_eq!(sys.start(), Err(AcoError::InsufficientVertices));
    assert!(!sys.is_running());
    assert_eq!(sys.graph.vertex_count(), 2);
    assert_eq!(sys.graph.edge_count(), 1);
    assert!(sys.pheromone.is_empty());
}

#[test]
fn triangle_end_to_end_one_tick() {
    // Place (0,0), (0,10), (10,10) in thousandths: edges of weight
    // 10_000, 10_000 and 14_142 (ten root two). After one tick the
    // candidate cycle has exactly three edges covering all three
    // vertices, and its weight is 34_142 whatever order was walked.
    let mut sys = triangle_system();
    assert_eq!(sys.graph.adjacency[0][1], 10_000);
    assert_eq!(sys.graph.adjacency[1][2], 10_000);
    assert_eq!(sys.graph.adjacency[0][2], 14_142);
    assert_eq!(sys.start(), Ok(()));
    assert!(sys.is_running());
    sys.tick();
    let cycle = sys.candidate_cycle().clone();
    assert_eq!(cycle.len(), 3);
    let mut deg = [0usize; 3];
    for &(u, v) in &cycle {
        assert!(u < v);
        assert!((1..=3).contains(&u) && (1..=3).contains(&v));
        deg[(u - 1) as usize] += 1;
        deg[(v - 1) as usize] += 1;
    }
    assert_eq!(deg, [2, 2, 2]);
    assert_eq!(sys.candidate_cycle_weight(), 34_142);
    assert!(sys.is_running());
}

#[test]
fn pheromone_stays_symmetric_and_square_over_rounds() {
    let mut sys = triangle_system();
    sys.set_parameter(ParameterName::NumberOfAnts, 5).unwrap();
    sys.start().unwrap();
    for _ in 0..6 {
        sys.tick();
        let n = sys.graph.vertex_count();
        assert_eq!(sys.pheromone.len(), n);
        for i in 0..n {
            assert_eq!(sys.pheromone[i].len(), n);
            assert_eq!(sys.pheromone[i][i], 0);
            for j in 0..n {
                assert_eq!(sys.pheromone[i][j], sys.pheromone[j][i]);
            }
        }
    }
    // after rounds some pheromone has been deposited somewhere
    let total: u64 = sys.pheromone.iter().flatten().sum();
    assert!(total > 0);
}

#[test]
fn reset_from_running_clears_all_state() {
    let mut sys = triangle_system();
    sys.start().unwrap();
    sys.tick();
    assert!(sys.is_running());
    sys.reset();
    assert!(!sys.is_running());
    assert_eq!(sys.graph.vertex_count(), 0);
    assert_eq!(sys.graph.edge_count(), 0);
    assert!(sys.pheromone.is_empty());
    assert!(sys.candidate_cycle().is_empty());
    assert_eq!(sys.candidate_cycle_weight(), 0);
}

#[test]
fn graph_locked_while_running() {
    let mut sys = triangle_system();
    sys.start().unwrap();
    assert_eq!(sys.add_vertex(50, 50), Err(AcoError::GraphLocked));
    assert_eq!(sys.graph.vertex_count(), 3);
    sys.stop();
    assert!(sys.add_vertex(50, 50).is_ok());
    assert_eq!(sys.graph.vertex_count(), 4);
}

#[test]
fn coordinates_out_of_range_rejected() {
    let mut sys = AntColonySystem::new();
    assert_eq!(sys.add_vertex(2_000_000_000, 0), Err(AcoError::CoordinateOutOfRange));
    assert_eq!(sys.add_vertex(0, -2_000_000_000), Err(AcoError::CoordinateOutOfRange));
    assert_eq!(sys.graph.vertex_count(), 0);
    assert!(sys.add_vertex(1_000_000_000, -1_000_000_000).is_ok());
}

#[test]
fn capacity_limit_rejected() {
    let mut sys = AntColonySystem::new();
    for _ in 0..500 {
        sys.add_vertex(0, 0).unwrap();
    }
    assert_eq!(sys.add_vertex(0, 0), Err(AcoError::CapacityExceeded));
    assert_eq!(sys.graph.vertex_count(), 500);
}

#[test]
fn stop_freezes_candidate_cycle() {
    let mut sys = triangle_system();
    sys.start().unwrap();
    sys.tick();
    let before = sys.candidate_cycle().clone();
    let weight_before = sys.candidate_cycle_weight();
    sys.stop();
    assert!(!sys.is_running());
    assert_eq!(sys.candidate_cycle(), &before);
    assert_eq!(sys.candidate_cycle_weight(), weight_before);
    // a tick while Idle is a no-op
    sys.tick();
    assert_eq!(sys.candidate_cycle(), &before);
}

#[test]
fn set_parameter_validates_values() {
    let mut sys = AntColonySystem::new();
    assert_eq!(sys.set_parameter(ParameterName::NumberOfAnts, 0),
        Err(AcoError::InvalidParameterValue));
    assert_eq!(sys.set_parameter(ParameterName::PheromoneConstant, 0),
        Err(AcoError::InvalidParameterValue));
    assert_eq!(sys.set_parameter(ParameterName::EvaporationRate, 1001),
        Err(AcoError::InvalidParameterValue));
    assert_eq!(sys.set_parameter(ParameterName::EvaporationRate, 1000), Ok(()));
    assert_eq!(sys.set_parameter(ParameterName::Alpha, 0), Ok(()));
    assert_eq!(sys.set_parameter(ParameterName::Beta, 9), Ok(()));
    assert_eq!(sys.params.evaporation_rate, 1000);
    assert_eq!(sys.params.alpha, 0);
    assert_eq!(sys.params.beta, 9);
    // a fresh system starts from the documented defaults
    let fresh = AntColonySystem::new();
    assert_eq!(fresh.params.number_of_ants, 50);
    assert_eq!(fresh.params.pheromone_constant, 1_000_000);
    assert_eq!(fresh.params.evaporation_rate, 200);
    assert_eq!(fresh.params.alpha, 1);
    assert_eq!(fresh.params.beta, 4);
}

#[test]
fn restart_zeroes_pheromone() {
    let mut sys = triangle_system();
    sys.start().unwrap();
    sys.tick();
    let deposited: u64 = sys.pheromone.iter().flatten().sum();
    assert!(deposited > 0);
    sys.start().unwrap();
    let fresh: u64 = sys.pheromone.iter().flatten().sum();
    assert_eq!(fresh, 0);
}

#[test]
fn pheromone_update_formula_exact() {
    // Only one Hamiltonian cycle exists on three vertices, so a single
    // ant's tour is deterministic: every off-diagonal pair is a cycle edge
    // of the tour, whose length is always 34_142. One deposit is the
    // pheromone constant over that length: 1_000_000 / 34_142 = 29.
    let mut sys = triangle_system();
    sys.set_parameter(ParameterName::NumberOfAnts, 1).unwrap();
    sys.start().unwrap();
    sys.tick();
    for i in 0..3 {
        for j in 0..3 {
            let expect = if i == j { 0 } else { 29 };
            assert_eq!(sys.pheromone[i][j], expect);
        }
    }
    // A second round first evaporates a fifth, then deposits again:
    // 29 * 800 / 1000 + 29 = 52.
    sys.tick();
    for i in 0..3 {
        for j in 0..3 {
            let expect = if i == j { 0 } else { 52 };
            assert_eq!(sys.pheromone[i][j], expect);
        }
    }
}
