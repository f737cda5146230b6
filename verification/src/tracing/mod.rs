//! A record of everything that happens to packets during a simulation.

pub mod recording;
pub mod simulation_step;
pub mod simulation_stepper;
pub mod tracer;
