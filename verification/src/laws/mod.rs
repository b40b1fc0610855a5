//! What the operations of the library are for, in terms of what goes in and what comes out.

pub mod archives;
pub mod cells;
pub mod commands;
pub mod extraction;
pub mod grids;
pub mod levels;
pub mod loading;
pub mod meshes;
pub mod metadata;
pub mod patches;
pub mod records;
pub mod requests;
pub mod resolution;
pub mod slices;
pub mod surfaces;
pub mod tetrahedra;
pub mod text;
pub mod triangles;
