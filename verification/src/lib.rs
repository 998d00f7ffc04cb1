//! zesplot: a verified core for treemap visualisation of IPv6 address space.
//!
//! The crate turns a sorted list of network ranges into a containment forest,
//! lays the forest's top-level entries out as a squarified treemap over a
//! fixed canvas, and projects each entry's more-specific ranges as nested
//! bands inside its rectangle. All geometry is exact rational arithmetic, so
//! area conservation and non-overlap are theorems rather than float folklore.

pub mod colour;
pub mod frac;
pub mod hierarchy;
pub mod pack;
pub mod range;
pub mod subdivide;
pub mod weight;
