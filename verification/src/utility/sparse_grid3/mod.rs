//! Chunked sparse 3D grid for very large bounded voxel domains.
//!
//! - Sparse by chunk, not sparse by point.
//! - Dense, cache-friendly storage inside populated chunks.
//! - Per-voxel presence is tracked separately from stored values.
//! - A chunk is a single uniform value plus an occupancy mask, or a dense value
//!   array plus an occupancy mask.
//! - Boxes are half-open: `[min, max)`.
//!
//! Bulk slice layout is x-fastest, then y, then z:
//!
//! ```text
//! index = x + y * extent.x + z * extent.x * extent.y
//! ```

pub mod aabb;
pub mod bitmask;
pub mod chunk;
pub mod grid;
pub mod layout;
pub mod value;

pub use aabb::Aabb3u;
pub use grid::accessor::{GridAccessor, GridAccessorMut};
pub use grid::{GridError, SparseGrid3};
pub use layout::{CHUNK_BITS, CHUNK_MASK, CHUNK_SIZE, CHUNK_VOLUME, MASK_WORDS};
pub use value::Present;
