//! Adaptive-weight Monte Carlo over energy and particle count: the
//! two-dimensional histogram and log-weight table that grows to hold every
//! state visited, the stochastic-approximation and Wang-Landau weight
//! updates, the acceptance rule, round-trip bookkeeping, and temperature
//! estimates from the table.
use vstd::prelude::*;

pub mod bins;
pub mod mc;
pub mod state;
pub mod temperature;

verus! {

} // verus!
