//! The raw input record of the queuing core.

use vstd::prelude::*;

verus! {

use crate::rational::Rational;
use crate::vectors::vec_inv;

/// The raw parameter record handed in by a configuration-loading
/// collaborator.  Nothing is validated here; `QueuingSystem::new` turns a
/// record into a validated system or reports the first configuration
/// error it finds.
#[derive(Debug)]
pub struct Config {
    /// Number of parallel service channels (c).
    pub channel_count: u32,
    /// Bounded queue capacity (K).
    pub queue_capacity: u32,
    /// Arrival rate (lambda).
    pub arrival_rate: Rational,
    /// Service rate of a single channel (mu).
    pub service_rate: Rational,
    /// Initial occupancy weights, ordered by state index; not necessarily
    /// normalized.
    pub initial_state: Vec<Rational>,
    /// Simulation horizon (T).
    pub horizon_time: Rational,
    /// Number of integration steps (N).
    pub iteration_count: u32,
    /// Integration step size (h).
    pub step_size: Rational,
}

impl Config {
    /// Every rational field satisfies the representation invariant.
    pub open spec fn rationals_inv(self) -> bool {
        &&& self.arrival_rate.inv()
        &&& self.service_rate.inv()
        &&& self.horizon_time.inv()
        &&& self.step_size.inv()
        &&& vec_inv(self.initial_state@)
    }
}

} // verus!
