//! The iterated error-state filter: propagation blocks and the update loop.

pub mod gain;
pub mod optimum;
pub mod propagator;
pub mod update;
pub mod steps;
