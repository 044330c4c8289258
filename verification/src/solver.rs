//! The solver controller: an explicit state machine over Idle and Running
//! that owns the pheromone matrix and the candidate cycle. Placements go
//! through it so that the graph is locked while a solve runs; each external
//! tick performs exactly one round — tour construction, pheromone update,
//! cycle extraction — and the solver stays Running until told to stop.

use vstd::prelude::*;
use crate::matrix::{mat, is_square, symmetric, zero_diagonal, all_zero, zero_matrix};
use crate::graph::{GraphStore, coord_ok, mk_vertex, MAX_VERTICES};
use crate::params::{AntColonyParameters, ParameterName};
use crate::tour::{AntTour, tour_wf, release_ants};
use crate::pheromone::{apply_tours, update_pheromones, lemma_update_preserves_symmetry};
use crate::cycle::{
    extract_cycle, pairs_in_range, pairs_sorted, pairs_match, lemma_cycle_edge_count,
};

verus! {

/// Whether a solve is in progress.
#[derive(Clone, Copy, PartialEq, Eq, Debug)]
pub enum SolverState {
    Idle,
    Running,
}

/// Every failure the core reports. All of them are recoverable: the
/// operation leaves the system unchanged and surfaces the error.
#[derive(Clone, Copy, PartialEq, Eq, Debug)]
pub enum AcoError {
    /// A solve needs at least three vertices to form a cycle.
    InsufficientVertices,
    /// The graph cannot be changed while a solve runs; stop first.
    GraphLocked,
    /// A placement coordinate lies outside the accepted range.
    CoordinateOutOfRange,
    /// The graph already holds the most vertices it accepts.
    CapacityExceeded,
    /// The value is not acceptable for that parameter.
    InvalidParameterValue,
    /// The command is not one the console knows.
    UnrecognizedCommand,
    /// The `set` command names no known parameter.
    UnrecognizedParameter,
    /// The parameter value is not a number the console accepts.
    InvalidNumber,
}

/// The whole core: graph store, parameters, solver state, pheromone matrix
/// and the candidate cycle of the most recent round.
pub struct AntColonySystem {
    pub graph: GraphStore,
    pub params: AntColonyParameters,
    pub state: SolverState,
    pub pheromone: Vec<Vec<u64>>,
    pub cycle: Vec<(u64, u64)>,
    pub cycle_weight: u64,
}

/// What one Running tick does, witnessed by the round's tours: every tour
/// is a Hamiltonian cycle over the graph, the pheromone matrix is the old
/// one with the tours applied in order, and the candidate cycle lists
/// exactly the edges of the last tour — `n` of them — with its length.
pub open spec fn round_rel(
    pre: AntColonySystem,
    post: AntColonySystem,
    tours: Seq<AntTour>,
) -> bool {
    let n = pre.graph.n();
    let adj = mat(pre.graph.adjacency);
    &&& tours.len() == pre.params.number_of_ants
    &&& forall|k: int| 0 <= k < tours.len() ==> tour_wf(#[trigger] tours[k], n, adj)
    &&& mat(post.pheromone) == apply_tours(
        mat(pre.pheromone),
        tours,
        pre.params.pheromone_constant,
        pre.params.evaporation_rate,
    )
    &&& pairs_in_range(post.cycle@, n)
    &&& pairs_sorted(post.cycle@)
    &&& pairs_match(post.cycle@, mat(tours.last().incidence), n)
    &&& post.cycle@.len() == n
    &&& post.cycle_weight == tours.last().length
}

impl AntColonySystem {
    /// Whether a solve is in progress.
    pub open spec fn running(self) -> bool {
        self.state is Running
    }

    /// Validity of the whole system: the graph and the parameters are
    /// well-formed, the pheromone matrix is square and symmetric, and
    /// while Running it is sized to the locked graph.
    pub open spec fn wf(self) -> bool {
        &&& self.graph.wf()
        &&& self.params.wf()
        &&& is_square(mat(self.pheromone), mat(self.pheromone).len() as int)
        &&& symmetric(mat(self.pheromone))
        &&& self.running() ==> is_square(mat(self.pheromone), self.graph.n()) && self.graph.n()
            >= 3
    }

    /// A fresh system: empty graph, default parameters, Idle.
    pub fn new() -> (s: AntColonySystem)
        ensures
            s.wf(),
            !s.running(),
            s.graph.n() == 0,
            s.graph.edges@.len() == 0,
            s.params.number_of_ants == 50,
            s.params.alpha == 1,
            s.params.beta == 4,
            mat(s.pheromone).len() == 0,
            s.cycle@.len() == 0,
            s.cycle_weight == 0,
    {
        AntColonySystem {
            graph: GraphStore::new(),
            params: AntColonyParameters::new(),
            state: SolverState::Idle,
            pheromone: Vec::new(),
            cycle: Vec::new(),
            cycle_weight: 0,
        }
    }

    /// Places a vertex, unless the graph is locked by a running solve, a
    /// coordinate is out of range, or the store is full; on failure the
    /// system is unchanged and the error says which check failed.
    pub fn add_vertex(&mut self, x: i64, y: i64) -> (r: Result<u64, AcoError>)
        requires
            old(self).wf(),
        ensures
            final(self).wf(),
            old(self).running() ==> r == Err::<u64, AcoError>(AcoError::GraphLocked) && *final(self)
                == *old(self),
            !old(self).running() && !(coord_ok(x as int) && coord_ok(y as int)) ==> r == Err::<
                u64,
                AcoError,
            >(AcoError::CoordinateOutOfRange) && *final(self) == *old(self),
            !old(self).running() && coord_ok(x as int) && coord_ok(y as int) && old(self).graph.n()
                >= MAX_VERTICES as int ==> r == Err::<u64, AcoError>(AcoError::CapacityExceeded)
                && *final(self) == *old(self),
            !old(self).running() && coord_ok(x as int) && coord_ok(y as int) && old(self).graph.n()
                < MAX_VERTICES as int ==> {
                &&& r == Ok::<u64, AcoError>((old(self).graph.n() + 1) as u64)
                &&& final(self).graph.n() == old(self).graph.n() + 1
                &&& final(self).graph.vertices@ == old(self).graph.vertices@.push(
                    mk_vertex((old(self).graph.n() + 1) as u64, x, y),
                )
                &&& 2 * final(self).graph.edges@.len()
                    == (old(self).graph.n() + 1) * old(self).graph.n()
                &&& is_square(mat(final(self).graph.adjacency), final(self).graph.n())
                &&& symmetric(mat(final(self).graph.adjacency))
                &&& zero_diagonal(mat(final(self).graph.adjacency))
                &&& final(self).params == old(self).params
                &&& final(self).state == old(self).state
                &&& final(self).pheromone == old(self).pheromone
                &&& final(self).cycle == old(self).cycle
            },
    {
        match self.state {
            SolverState::Running => Err(AcoError::GraphLocked),
            SolverState::Idle => {
                if x < -crate::numeric::COORD_LIMIT || x > crate::numeric::COORD_LIMIT || y
                    < -crate::numeric::COORD_LIMIT || y > crate::numeric::COORD_LIMIT {
                    Err(AcoError::CoordinateOutOfRange)
                } else if self.graph.vertex_count() >= MAX_VERTICES {
                    Err(AcoError::CapacityExceeded)
                } else {
                    let id = self.graph.add_vertex(x, y);
                    Ok(id)
                }
            },
        }
    }

    /// Clears everything but the parameters and returns to Idle: graph,
    /// pheromone matrix, candidate cycle. Valid from either state.
    pub fn reset(&mut self)
        requires
            old(self).wf(),
        ensures
            final(self).wf(),
            !final(self).running(),
            final(self).graph.n() == 0,
            final(self).graph.edges@.len() == 0,
            mat(final(self).pheromone).len() == 0,
            final(self).cycle@.len() == 0,
            final(self).cycle_weight == 0,
            final(self).params == old(self).params,
    {
        self.graph.reset();
        self.pheromone = Vec::new();
        self.cycle = Vec::new();
        self.cycle_weight = 0;
        self.state = SolverState::Idle;
    }

    /// Starts (or restarts) a solve: requires at least three placed
    /// vertices, sizes the pheromone matrix to the graph and zeroes it,
    /// and locks the graph by entering Running. With fewer vertices it
    /// fails and changes nothing.
    pub fn start(&mut self) -> (r: Result<(), AcoError>)
        requires
            old(self).wf(),
        ensures
            final(self).wf(),
            old(self).graph.n() < 3 ==> r == Err::<(), AcoError>(AcoError::InsufficientVertices)
                && *final(self) == *old(self),
            old(self).graph.n() >= 3 ==> {
                &&& r == Ok::<(), AcoError>(())
                &&& final(self).running()
                &&& is_square(mat(final(self).pheromone), old(self).graph.n())
                &&& all_zero(mat(final(self).pheromone))
                &&& final(self).graph == old(self).graph
                &&& final(self).params == old(self).params
                &&& final(self).cycle == old(self).cycle
                &&& final(self).cycle_weight == old(self).cycle_weight
            },
    {
        let n = self.graph.vertex_count();
        if n < 3 {
            return Err(AcoError::InsufficientVertices);
        }
        self.pheromone = zero_matrix(n);
        self.state = SolverState::Running;
        Ok(())
    }

    /// Stops a solve: the candidate cycle and the pheromone matrix stay as
    /// last computed, and the graph unlocks.
    pub fn stop(&mut self)
        requires
            old(self).wf(),
        ensures
            final(self).wf(),
            !final(self).running(),
            final(self).graph == old(self).graph,
            final(self).params == old(self).params,
            final(self).pheromone == old(self).pheromone,
            final(self).cycle == old(self).cycle,
            final(self).cycle_weight == old(self).cycle_weight,
    {
        self.state = SolverState::Idle;
    }

    /// Stores a parameter value after validating it; a rejected value
    /// leaves the system unchanged.
    pub fn set_parameter(&mut self, name: ParameterName, value: u64) -> (r: Result<(), AcoError>)
        requires
            old(self).wf(),
        ensures
            final(self).wf(),
            AntColonyParameters::value_ok(name, value) ==> r == Ok::<(), AcoError>(())
                && final(self).params == old(self).params.with_value(name, value),
            !AntColonyParameters::value_ok(name, value) ==> r == Err::<(), AcoError>(
                AcoError::InvalidParameterValue,
            ) && *final(self) == *old(self),
            final(self).graph == old(self).graph,
            final(self).state == old(self).state,
            final(self).pheromone == old(self).pheromone,
            final(self).cycle == old(self).cycle,
            final(self).cycle_weight == old(self).cycle_weight,
    {
        let accepted = self.params.set(name, value);
        if accepted {
            Ok(())
        } else {
            Err(AcoError::InvalidParameterValue)
        }
    }

    /// One external tick. When Idle, nothing happens. When Running, one
    /// round executes: every ant builds a tour against the current
    /// pheromone matrix, the tours are applied to the matrix in order, and
    /// the candidate cycle becomes the last ant's tour.
    pub fn tick(&mut self)
        requires
            old(self).wf(),
        ensures
            final(self).wf(),
            !old(self).running() ==> *final(self) == *old(self),
            old(self).running() ==> {
                &&& final(self).running()
                &&& final(self).graph == old(self).graph
                &&& final(self).params == old(self).params
                &&& exists|tours: Seq<AntTour>| #[trigger] round_rel(*old(self), *final(self), tours)
            },
    {
        match self.state {
            SolverState::Idle => {
            },
            SolverState::Running => {
                let n = self.graph.vertex_count();
                let tours = release_ants(
                    &self.graph.adjacency,
                    &self.pheromone,
                    self.params.alpha,
                    self.params.beta,
                    self.params.number_of_ants,
                    n,
                );
                update_pheromones(
                    &mut self.pheromone,
                    &tours,
                    self.params.pheromone_constant,
                    self.params.evaporation_rate,
                    n,
                );
                let last = &tours[tours.len() - 1];
                self.cycle = extract_cycle(&last.incidence, n);
                self.cycle_weight = last.length;
                proof {
                    assert(tours@.last() == tours@[tours@.len() - 1]);
                    assert(tour_wf(tours@.last(), n as int, mat(old(self).graph.adjacency)));
                    lemma_cycle_edge_count(tours@.last().order@, n as int, self.cycle@);
                    lemma_update_preserves_symmetry(
                        mat(old(self).pheromone),
                        tours@,
                        old(self).params.pheromone_constant,
                        old(self).params.evaporation_rate,
                        n as int,
                    );
                    assert(round_rel(*old(self), *self, tours@));
                }
            },
        }
    }

    /// Read-only snapshot of the candidate cycle, safe to read at any
    /// time, also mid-Idle.
    pub fn candidate_cycle(&self) -> (r: &Vec<(u64, u64)>)
        ensures
            r@ == self.cycle@,
    {
        &self.cycle
    }

    /// Total weight of the candidate cycle's tour.
    pub fn candidate_cycle_weight(&self) -> (r: u64)
        ensures
            r == self.cycle_weight,
    {
        self.cycle_weight
    }

    /// Whether a solve is in progress.
    pub fn is_running(&self) -> (r: bool)
        ensures
            r == self.running(),
    {
        match self.state {
            SolverState::Running => true,
            SolverState::Idle => false,
        }
    }
}

} // verus!
