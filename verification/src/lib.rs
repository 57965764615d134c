//! Exact birth-death queuing analysis for M/M/c/K systems.
//!
//! The crate models a finite-capacity multi-channel queuing system: requests
//! arrive at rate lambda, are served by `c` parallel channels each at rate mu,
//! and may wait in a queue of bounded capacity `K` before being rejected.
//! All arithmetic is carried out over exact rationals, so the generator-matrix
//! invariants, the master-equation integration and the closed-form steady-state
//! metrics are established without floating-point error.
//!
//! The master-equation convention is fixed once, centrally: the generator
//! matrix `M` holds in row `i` the outflow rates of state `i`, every row sums
//! to zero, and the occupancy vector evolves as `dp/dt = transpose(M) * p`.

pub mod arith;
pub mod config;
pub mod errors;
pub mod integrator;
pub mod queuing_system;
pub mod queuing_system_characteristics;
pub mod rational;
pub mod vectors;
