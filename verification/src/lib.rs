//! A flocking engine over fixed-point vectors.
//!
//! Every length, speed, weight and time step is an integer number of
//! thousandths of its unit, so that each step of the simulation is exact
//! and can be stated as a formula over the integers.
//!
//! A tick has two phases. [`steering::compute`] reads the flock and a
//! snapshot of positions ([`index::SpatialIndex`]) and gives one change of
//! velocity for each agent; [`integrator::apply`] then applies the changes
//! and moves the agents. [`simulation::Simulation`] owns all of it and runs
//! the phases in turn; [`laws`] states what holds of every tick.

pub mod fixed;
pub mod vec2;
pub mod index;
pub mod params;
pub mod world;
pub mod agent;
pub mod steering;
pub mod integrator;
pub mod laws;
pub mod schedule;
pub mod spawn;
pub mod simulation;
