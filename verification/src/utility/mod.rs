//! Supporting data structures.

pub mod compress;
pub mod keyed;
pub mod sparse_grid3;
