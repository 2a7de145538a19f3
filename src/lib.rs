//! Sets of values of an ordered, bounded, discretely stepped domain, held as
//! sorted runs of inclusive intervals, with union, subtraction and complement.

/// Implementations of the domain traits for the primitive integer types
pub mod impls;
/// Laws of the interval algebra
pub mod laws;
mod lemmas;

/// Single intervals and normalised interval sets
pub mod ranges;
/// The domain traits
pub mod traits;

pub use ranges::{DisjointRange, UnaryRange};
pub use traits::{Bounded, Stepped};
