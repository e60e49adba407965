//! A simulation of cooperation among households that live in settlements on a
//! square grid.
//!
//! Every real-valued quantity of the model (resources, load, hunger, genes,
//! chances, rates) is a fixed-point number counted in millionths of a unit, so
//! that every rule of the model is an exact statement about integers.

pub mod birth;
pub mod census;
pub mod death;
pub mod grid;
pub mod household;
pub mod metrics;
pub mod random;
pub mod resource;
pub mod search;
pub mod settings;
pub mod settlement;
pub mod sums;
pub mod territory;
pub mod tick;
pub mod units;
pub mod world;
