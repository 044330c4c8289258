//! Tunable constants of the ant-colony search. All values are unsigned
//! fixed-point integers: the pheromone constant is given in millionths
//! (one million stands for 1.0), the evaporation rate in thousandths
//! (a value of one thousand evaporates everything), and the two exponents
//! are plain non-negative integers.

use vstd::prelude::*;

verus! {

/// Denominator of the evaporation rate: a rate of `EVAPORATION_DENOMINATOR`
/// means full evaporation.
pub const EVAPORATION_DENOMINATOR: u64 = 1000;

/// Scale of the pheromone constant: this value stands for 1.0.
pub const PHEROMONE_SCALE: u64 = 1_000_000;

/// The tunable constants of the search.
#[derive(Clone, Copy, PartialEq, Eq, Debug)]
pub struct AntColonyParameters {
    /// Tours constructed per round. Positive.
    pub number_of_ants: u64,
    /// Amount of pheromone a tour of length one deposits, in millionths.
    /// Positive.
    pub pheromone_constant: u64,
    /// Fraction of pheromone that evaporates per deposit, in thousandths.
    /// At most `EVAPORATION_DENOMINATOR`.
    pub evaporation_rate: u64,
    /// Exponent on the pheromone term of the transition weight.
    pub alpha: u64,
    /// Exponent on the reciprocal-distance term of the transition weight.
    pub beta: u64,
}

/// Which parameter a `set` command addresses.
#[derive(Clone, Copy, PartialEq, Eq, Debug)]
pub enum ParameterName {
    NumberOfAnts,
    PheromoneConstant,
    EvaporationRate,
    Alpha,
    Beta,
}

impl AntColonyParameters {
    /// Validity: at least one ant, a positive pheromone constant, and an
    /// evaporation rate of at most one.
    pub open spec fn wf(self) -> bool {
        &&& self.number_of_ants >= 1
        &&& self.pheromone_constant >= 1
        &&& self.evaporation_rate <= EVAPORATION_DENOMINATOR
    }

    /// The defaults: fifty ants, a pheromone constant of 1.0, an
    /// evaporation rate of 0.2, alpha one and beta four.
    pub fn new() -> (p: AntColonyParameters)
        ensures
            p.wf(),
            p.number_of_ants == 50,
            p.pheromone_constant == PHEROMONE_SCALE,
            p.evaporation_rate == 200,
            p.alpha == 1,
            p.beta == 4,
    {
        AntColonyParameters {
            number_of_ants: 50,
            pheromone_constant: PHEROMONE_SCALE,
            evaporation_rate: 200,
            alpha: 1,
            beta: 4,
        }
    }

    /// Whether `value` is acceptable for the parameter `name`: the ant
    /// count and the pheromone constant must be positive, the evaporation
    /// rate at most one, and the exponents are free.
    pub open spec fn value_ok(name: ParameterName, value: u64) -> bool {
        match name {
            ParameterName::NumberOfAnts => value >= 1,
            ParameterName::PheromoneConstant => value >= 1,
            ParameterName::EvaporationRate => value <= EVAPORATION_DENOMINATOR,
            ParameterName::Alpha => true,
            ParameterName::Beta => true,
        }
    }

    /// The parameter set with `name` replaced by `value`.
    pub open spec fn with_value(self, name: ParameterName, value: u64) -> AntColonyParameters {
        match name {
            ParameterName::NumberOfAnts => AntColonyParameters {
                number_of_ants: value,
                ..self
            },
            ParameterName::PheromoneConstant => AntColonyParameters {
                pheromone_constant: value,
                ..self
            },
            ParameterName::EvaporationRate => AntColonyParameters {
                evaporation_rate: value,
                ..self
            },
            ParameterName::Alpha => AntColonyParameters { alpha: value, ..self },
            ParameterName::Beta => AntColonyParameters { beta: value, ..self },
        }
    }

    /// Stores `value` under `name`; returns whether the value was accepted,
    /// leaving the parameters unchanged when it was not.
    pub fn set(&mut self, name: ParameterName, value: u64) -> (accepted: bool)
        requires
            old(self).wf(),
        ensures
            final(self).wf(),
            accepted == AntColonyParameters::value_ok(name, value),
            accepted ==> *final(self) == old(self).with_value(name, value),
            !accepted ==> *final(self) == *old(self),
    {
        match name {
            ParameterName::NumberOfAnts => {
                if value >= 1 {
                    self.number_of_ants = value;
                    true
                } else {
                    false
                }
            },
            ParameterName::PheromoneConstant => {
                if value >= 1 {
                    self.pheromone_constant = value;
                    true
                } else {
                    false
                }
            },
            ParameterName::EvaporationRate => {
                if value <= EVAPORATION_DENOMINATOR {
                    self.evaporation_rate = value;
                    true
                } else {
                    false
                }
            },
            ParameterName::Alpha => {
                self.alpha = value;
                true
            },
            ParameterName::Beta => {
                self.beta = value;
                true
            },
        }
    }
}

} // verus!
