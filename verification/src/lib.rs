//! Discretized sample paths of continuous-time stochastic processes,
//! produced by Euler-Maruyama time stepping.
//!
//! Three processes are provided: Arithmetic Brownian Motion, the
//! Brownian Bridge, and the Feller square-root process. Real-valued
//! quantities are carried in a decimal fixed-point scalar so that every
//! step of the recurrences can be stated and checked exactly.

pub mod abm;
pub mod bridge;
pub mod feller;
pub mod fixed;
pub mod rng;
