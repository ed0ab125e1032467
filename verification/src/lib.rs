//! A discrete-time, grid-based falling-material simulator.
//!
//! A 2D grid of cells, each holding a material (air, sand, water, lava,
//! stone, ...) with physical parameters, is advanced one tick at a time
//! under gravity, friction, density-ordered displacement, and catalytic
//! reaction rules.
//!
//! All continuous quantities (densities, velocities, thresholds, colors)
//! are fixed-point integers in thousandths of a unit, so that every rule
//! of the engine is exact integer arithmetic.

pub mod fixed;
pub mod rng;
pub mod pixel;
pub mod coords;
pub mod elements;
pub mod grid;
pub mod chunk;
pub mod simulate;
pub mod resolver;
