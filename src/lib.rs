//! A MAP-Elites archive and the verified steps of its evolutionary loop.
//!
//! Fitness values and behaviour features are IEEE-754 binary64 numbers. The
//! library holds them as their bit patterns (what `f64::to_bits` returns) and
//! orders them as the floating-point comparison does; the arithmetic that
//! turns a behaviour into a cell of the grid is done by the caller.
pub mod binary64;
pub mod genome;
pub mod individual;
pub mod elites_map;
pub mod runtime;
pub mod laws;

pub use elites_map::{Clamp, ElitesMap};
pub use individual::Individual;
pub use runtime::RuntimeIterator;

