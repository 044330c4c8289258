use ant_colony::console::{execute_input, parse_scaled, Command, CommandOutcome, parse_command};
use ant_colony::params::ParameterName;
use ant_colony::solver::{AcoError, AntColonySystem};

fn triangle_system() -> AntColonySystem {
    let mut sys = AntColonySystem::new();
    sys.add_vertex(0, 0).unwrap();
    sys.add_vertex(0, 10_000).unwrap();
    sys.add_vertex(10_000, 10_000).unwrap();
    sys
}

#[test]
fn parse_plain_commands() {
    assert_eq!(parse_command(b"solve with ant-colony"), Ok(Command::Start));
    assert_eq!(parse_command(b"clear"), Ok(Command::Clear));
    assert_eq!(parse_command(b"stop"), Ok(Command::Stop));
    assert_eq!(parse_command(b"exit"), Ok(Command::Exit));
    assert_eq!(parse_command(b"solve"), Err(AcoError::UnrecognizedCommand));
    assert_eq!(parse_command(b""), Err(AcoError::UnrecognizedCommand));
    assert_eq!(parse_command(b"fly me to the moon"), Err(AcoError::UnrecognizedCommand));
}

#[test]
fn parse_set_commands() {
    assert_eq!(
        parse_command(b"set number_of_ants: 25"),
        Ok(Command::SetParameter(ParameterName::NumberOfAnts, 25))
    );
    assert_eq!(
        parse_command(b"set pheromone_constant: 2.5"),
        Ok(Command::SetParameter(ParameterName::PheromoneConstant, 2_500_000))
    );
    assert_eq!(
        parse_command(b"set pheromone_evaporation_rate: 0.2"),
        Ok(Command::SetParameter(ParameterName::EvaporationRate, 200))
    );
    assert_eq!(
        parse_command(b"set alpha: 3"),
        Ok(Command::SetParameter(ParameterName::Alpha, 3))
    );
    assert_eq!(
        parse_command(b"set beta: 0"),
        Ok(Command::SetParameter(ParameterName::Beta, 0))
    );
    assert_eq!(parse_command(b"set warp_drive: 3"), Err(AcoError::UnrecognizedParameter));
    assert_eq!(parse_command(b"set number_of_ants: many"), Err(AcoError::InvalidNumber));
    assert_eq!(parse_command(b"set number_of_ants: "), Err(AcoError::InvalidNumber));
}

#[test]
fn scaled_numbers_exact() {
    assert_eq!(parse_scaled(b"12", 1_000_000), Some(12_000_000));
    assert_eq!(parse_scaled(b"12.345678", 1_000_000), Some(12_345_678));
    assert_eq!(parse_scaled(b"1.2345", 1000), Some(1234));
    assert_eq!(parse_scaled(b"0.2", 1000), Some(200));
    assert_eq!(parse_scaled(b"2.5", 1), Some(2));
    assert_eq!(parse_scaled(b"0", 1), Some(0));
    assert_eq!(parse_scaled(b"007", 1), Some(7));
    assert_eq!(parse_scaled(b"", 1), None);
    assert_eq!(parse_scaled(b".", 1000), None);
    assert_eq!(parse_scaled(b"1.", 1000), None);
    assert_eq!(parse_scaled(b".5", 1000), None);
    assert_eq!(parse_scaled(b"1.2.3", 1000), None);
    assert_eq!(parse_scaled(b"1x2", 1000), None);
    assert_eq!(parse_scaled(b"18446744073709551615", 1), Some(u64::MAX));
    assert_eq!(parse_scaled(b"18446744073709551616", 1), None);
    assert_eq!(parse_scaled(b"18446744073709551615", 1000), None);
}

#[test]
fn solve_command_needs_three_vertices() {
    let mut sys = AntColonySystem::new();
    sys.add_vertex(0, 0).unwrap();
    sys.add_vertex(0, 10_000).unwrap();
    assert_eq!(
        execute_input(&mut sys, b"solve with ant-colony"),
        Err(AcoError::InsufficientVertices)
    );
    assert!(!sys.is_running());
    sys.add_vertex(10_000, 10_000).unwrap();
    assert_eq!(
        execute_input(&mut sys, b"solve with ant-colony"),
        Ok(CommandOutcome::Applied)
    );
    assert!(sys.is_running());
    assert_eq!(sys.pheromone.len(), 3);
}

#[test]
fn set_commands_update_parameters() {
    let mut sys = AntColonySystem::new();
    assert_eq!(execute_input(&mut sys, b"set number_of_ants: 5"), Ok(CommandOutcome::Applied));
    assert_eq!(sys.params.number_of_ants, 5);
    assert_eq!(
        execute_input(&mut sys, b"set pheromone_evaporation_rate: 0.35"),
        Ok(CommandOutcome::Applied)
    );
    assert_eq!(sys.params.evaporation_rate, 350);
    assert_eq!(
        execute_input(&mut sys, b"set pheromone_constant: 1.5"),
        Ok(CommandOutcome::Applied)
    );
    assert_eq!(sys.params.pheromone_constant, 1_500_000);
    assert_eq!(execute_input(&mut sys, b"set alpha: 2"), Ok(CommandOutcome::Applied));
    assert_eq!(execute_input(&mut sys, b"set beta: 6"), Ok(CommandOutcome::Applied));
    assert_eq!(sys.params.alpha, 2);
    assert_eq!(sys.params.beta, 6);
}

#[test]
fn invalid_set_values_reported_and_ignored() {
    let mut sys = AntColonySystem::new();
    assert_eq!(
        execute_input(&mut sys, b"set number_of_ants: 0"),
        Err(AcoError::InvalidParameterValue)
    );
    assert_eq!(sys.params.number_of_ants, 50);
    assert_eq!(
        execute_input(&mut sys, b"set pheromone_evaporation_rate: 1.5"),
        Err(AcoError::InvalidParameterValue)
    );
    assert_eq!(sys.params.evaporation_rate, 200);
    assert_eq!(
        execute_input(&mut sys, b"set alpha: up"),
        Err(AcoError::InvalidNumber)
    );
    assert_eq!(sys.params.alpha, 1);
}

#[test]
fn stop_and_clear_commands() {
    let mut sys = triangle_system();
    execute_input(&mut sys, b"solve with ant-colony").unwrap();
    sys.tick();
    assert_eq!(execute_input(&mut sys, b"stop"), Ok(CommandOutcome::Applied));
    assert!(!sys.is_running());
    assert_eq!(sys.candidate_cycle().len(), 3);
    assert_eq!(execute_input(&mut sys, b"clear"), Ok(CommandOutcome::Applied));
    assert_eq!(sys.graph.vertex_count(), 0);
    assert!(sys.candidate_cycle().is_empty());
    assert!(sys.pheromone.is_empty());
}

#[test]
fn exit_command_changes_nothing() {
    let mut sys = triangle_system();
    assert_eq!(execute_input(&mut sys, b"exit"), Ok(CommandOutcome::Exit));
    assert_eq!(sys.graph.vertex_count(), 3);
    assert!(!sys.is_running());
}

#[test]
fn unknown_command_leaves_system_unchanged() {
    let mut sys = triangle_system();
    assert_eq!(
        execute_input(&mut sys, b"solve with brute force"),
        Err(AcoError::UnrecognizedCommand)
    );
    assert!(!sys.is_running());
    assert_eq!(sys.graph.vertex_count(), 3);
}
