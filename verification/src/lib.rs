//! A verified core for an interactive Euclidean travelling-salesman
//! playground: vertices are placed on a canvas, the complete weighted graph
//! over them is maintained, and an ant-colony-optimization solver searches
//! for a short Hamiltonian cycle, one round per external tick.
//!
//! All geometry and pheromone arithmetic is done in fixed-point integers:
//! coordinates are plain `i64` canvas units, edge weights are rounded-down
//! Euclidean distances, the evaporation rate is given in thousandths and the
//! pheromone constant in millionths.

pub mod console;
pub mod cycle;
pub mod graph;
pub mod matrix;
pub mod numeric;
pub mod params;
pub mod pheromone;
pub mod rng;
pub mod sampling;
pub mod solver;
pub mod tour;
