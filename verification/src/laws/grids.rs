//! Sparse grids: boxes, places and the order of a walk.

use vstd::prelude::*;
use vstd::std_specs::cmp::PartialEqSpec;

use crate::utility::sparse_grid3::aabb::Aabb3u;
use crate::utility::sparse_grid3::grid::{inside, slot, visited_before};
use crate::utility::sparse_grid3::grid::storage::{chunk_box, corner_number, mask_has};
use crate::utility::sparse_grid3::layout::{
    cell_of, cell_position, in_region, key_in_range, key_of, lemma_axis_origin,
    lemma_cell_recomposes, lemma_packed, ChunkKey,
};
use crate::utility::sparse_grid3::value::same_cell;
use crate::vec3::UVec3;

verus! {

/// A box holds the points from its lower corner up to, but without, its upper corner; it is
/// vacant when it holds none; and its volume is the product of its edges.
pub proof fn law_box(b: Aabb3u, p: UVec3)
    ensures
        b.has(p) <==> b.min.x <= p.x && p.x < b.max.x && b.min.y <= p.y && p.y < b.max.y && b.min.z
            <= p.z && p.z < b.max.z,
        b.vacant() <==> !exists|q: UVec3| #[trigger] b.has(q),
        !b.vacant() ==> b.volume() == (b.max.x - b.min.x) * (b.max.y - b.min.y) * (b.max.z
            - b.min.z),
        b.vacant() ==> b.volume() == 0,
{
    if !b.vacant() {
        assert(b.has(b.min));
    }
    let (x, y, z) = (b.edges().x as nat, b.edges().y as nat, b.edges().z as nat);
    assert(x == 0 ==> x * y * z == 0) by (nonlinear_arith);
    assert(y == 0 ==> x * y * z == 0) by (nonlinear_arith);
    assert(z == 0 ==> x * y * z == 0) by (nonlinear_arith);
}

/// A point lies inside bounds when each coordinate is less than the bound.
pub proof fn law_inside(p: UVec3, bounds: UVec3)
    ensures
        inside(p, bounds) <==> p.x < bounds.x && p.y < bounds.y && p.z < bounds.z,
{
}

/// In a dense list for a box the values run along x first, then along y, then along z.
pub proof fn law_dense_place(b: Aabb3u, p: UVec3)
    requires
        b.has(p),
    ensures
        ({
            let (nx, ny) = (b.max.x - b.min.x, b.max.y - b.min.y);
            slot(b, p) == (p.x - b.min.x) + nx * (p.y - b.min.y) + nx * ny * (p.z - b.min.z)
        }),
{
    let (nx, ny) = (b.max.x - b.min.x, b.max.y - b.min.y);
    let (y, z) = (p.y - b.min.y, p.z - b.min.z);
    assert(y * nx == nx * y) by (nonlinear_arith);
    assert(z * nx * ny == nx * ny * z) by (nonlinear_arith);
}

/// Cells that are the same are both absent or both present. Where values have no equality of
/// their own they are identical; elsewhere they compare equal.
pub proof fn law_same_cell<T: PartialEq>(a: Option<T>, b: Option<T>)
    requires
        same_cell(a, b),
    ensures
        a is Some <==> b is Some,
        a == b || (a is Some && b is Some && T::obeys_eq_spec() && a->0.eq_spec(&b->0)),
        !T::obeys_eq_spec() ==> a == b,
{
}

/// A chunk has 32 cells along each axis, which run along x first, then along y, then along z.
pub proof fn law_chunk_cell(p: UVec3)
    ensures
        key_of(p) == (ChunkKey { x: p.x / 32, y: p.y / 32, z: p.z / 32 }),
        cell_of(p) == p.x % 32 + 32 * (p.y % 32) + 1024 * (p.z % 32),
{
}

/// Bit `i % 64` of word `i / 64` of a mask tells whether cell `i` is present.
pub proof fn law_mask(words: Seq<u64>, i: int)
    requires
        0 <= i < 32768,
        words.len() == 512,
    ensures
        mask_has(words, i) <==> (words[i / 64] >> ((i % 64) as u64)) & 1 == 1,
{
    let (w, b) = (words[i / 64], (i % 64) as u64);
    assert((w & (1u64 << b) != 0) <==> ((w >> b) & 1 == 1)) by (bit_vector)
        requires
            b < 64,
    ;
}

/// The box of a chunk starts at 32 times its key, and ends 32 cells further or at the bounds.
pub proof fn law_chunk_box(key: ChunkKey, limits: UVec3)
    requires
        key.x < 0x7ff_ffff,
        key.y < 0x7ff_ffff,
        key.z < 0x7ff_ffff,
    ensures
        ({
            let b = chunk_box(key, limits);
            let end = |k: u32, limit: u32|
                if 32 * k + 32 <= limit {
                    32 * k + 32
                } else {
                    limit as int
                };
            &&& b.min.x == 32 * key.x && b.max.x == end(key.x, limits.x)
            &&& b.min.y == 32 * key.y && b.max.y == end(key.y, limits.y)
            &&& b.min.z == 32 * key.z && b.max.z == end(key.z, limits.z)
        }),
{
    lemma_axis_origin(key.x);
    lemma_axis_origin(key.y);
    lemma_axis_origin(key.z);
}

/// Points are walked chunk by chunk, and the chunks as well as the cells of a chunk along x
/// first, then along y, then along z.
pub proof fn law_walk_order(p: UVec3, q: UVec3)
    ensures
        visited_before(p, q) <==> ({
            let (a, b) = (
                (p.z / 32, p.y / 32, p.x / 32),
                (q.z / 32, q.y / 32, q.x / 32),
            );
            let (c, d) = ((p.z % 32, p.y % 32, p.x % 32), (q.z % 32, q.y % 32, q.x % 32));
            let before = |m: (u32, u32, u32), n: (u32, u32, u32)|
                m.0 < n.0 || (m.0 == n.0 && (m.1 < n.1 || (m.1 == n.1 && m.2 < n.2)));
            before(a, b) || (a == b && before(c, d))
        }),
{
}

/// The boxes of chunks are ordered by their lowest corner: by z first, then by y, then by x.
pub proof fn law_corner_order(a: Aabb3u, b: Aabb3u)
    ensures
        corner_number(a) < corner_number(b) <==> a.min.z < b.min.z || (a.min.z == b.min.z && (
        a.min.y < b.min.y || (a.min.y == b.min.y && a.min.x < b.min.x))),
{
    let k = ChunkKey { x: a.min.z, y: a.min.y, z: a.min.x };
    let l = ChunkKey { x: b.min.z, y: b.min.y, z: b.min.x };
    lemma_packed(k);
    lemma_packed(l);
}

/// Cell `i` of a chunk lies `i % 32`, `i / 32 % 32` and `i / 1024` steps from the chunk's lowest
/// corner along x, y and z; and every voxel is the cell of its chunk that has its number.
pub proof fn law_cell_position(key: ChunkKey, i: int)
    requires
        key_in_range(key),
        0 <= i < 32768,
    ensures
        cell_position(key, i).x == 32 * key.x + i % 32,
        cell_position(key, i).y == 32 * key.y + (i / 32) % 32,
        cell_position(key, i).z == 32 * key.z + i / 1024,
        key_of(cell_position(key, i)) == key,
        cell_of(cell_position(key, i)) == i,
{
    reveal(cell_position);
    lemma_axis_origin(key.x);
    lemma_axis_origin(key.y);
    lemma_axis_origin(key.z);
    lemma_cell_recomposes(key, i);
}

/// The cell at `(x, y, z)` of a chunk lies in a local box when each coordinate does.
pub proof fn law_local_box(x: int, y: int, z: int, lo: UVec3, hi: UVec3)
    requires
        0 <= x < 32,
        0 <= y < 32,
        0 <= z < 32,
    ensures
        in_region(x + 32 * y + 1024 * z, lo, hi) <==> lo.x <= x < hi.x && lo.y <= y < hi.y && lo.z
            <= z < hi.z,
{
}

} // verus!
