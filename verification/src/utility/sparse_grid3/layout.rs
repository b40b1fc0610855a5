//! Chunk keys, cell numbering inside a chunk, and region walks.

use vstd::prelude::*;
use vstd::std_specs::cmp::PartialEqSpec;

use crate::utility::sparse_grid3::aabb::{saturated_sum, Aabb3u};
use crate::utility::sparse_grid3::value::{lawful, same};
use crate::vec3::{I64Vec3, UVec3};

verus! {

/// log2 of the chunk edge length.
pub const CHUNK_BITS: u32 = 5;

/// Number of cells along one chunk axis.
pub const CHUNK_SIZE: u32 = 32;

/// Mask of the local coordinate in a coordinate.
pub const CHUNK_MASK: u32 = 31;

/// Number of voxels in a chunk.
pub const CHUNK_VOLUME: usize = 32768;

/// Number of cells tracked by one mask word.
pub const MASK_WORD_BITS: usize = 64;

/// Number of words in a chunk mask.
pub const MASK_WORDS: usize = 512;

/// Number of the cell `(x, y, z)` of a chunk, x-fastest.
pub open spec fn cell_number(x: int, y: int, z: int) -> int {
    x + 32 * y + 1024 * z
}

/// The cell numbers of the local box `[lo, hi)`.
pub open spec fn in_region(i: int, lo: UVec3, hi: UVec3) -> bool {
    &&& 0 <= i < 32768
    &&& lo.x <= i % 32 < hi.x
    &&& lo.y <= (i / 32) % 32 < hi.y
    &&& lo.z <= i / 1024 < hi.z
}

/// A box of cells inside one chunk, possibly empty.
pub open spec fn local_box(lo: UVec3, hi: UVec3) -> bool {
    &&& lo.x <= hi.x <= 32
    &&& lo.y <= hi.y <= 32
    &&& lo.z <= hi.z <= 32
}

/// Number of the local cell `(x, y, z)`.
pub fn local_index(x: u32, y: u32, z: u32) -> (i: usize)
    requires
        x < 32,
        y < 32,
        z < 32,
    ensures
        i == cell_number(x as int, y as int, z as int),
        i < 32768,
        i as int % 32 == x,
        (i as int / 32) % 32 == y,
        i as int / 1024 == z,
{
    (x as usize) + (y as usize) * 32 + (z as usize) * 1024
}

/// Between two rows of a region walk no region cell is passed over.
pub proof fn lemma_row_end(lo: UVec3, hi: UVec3, y: int, z: int)
    requires
        local_box(lo, hi),
        lo.y <= y < hi.y,
        lo.z <= z < hi.z,
    ensures
        forall|i: int| #[trigger] in_region(i, lo, hi) ==> (i < cell_number(hi.x as int, y, z)
            <==> i < cell_number(lo.x as int, y + 1, z)),
{
}

/// Between two slabs of a region walk no region cell is passed over.
pub proof fn lemma_slab_end(lo: UVec3, hi: UVec3, z: int)
    requires
        local_box(lo, hi),
        lo.z <= z < hi.z,
    ensures
        forall|i: int| #[trigger] in_region(i, lo, hi) ==> (i < cell_number(
            lo.x as int,
            hi.y as int,
            z,
        ) <==> i < cell_number(lo.x as int, lo.y as int, z + 1)),
{
}

/// A region walk starts before and ends after every region cell.
pub proof fn lemma_walk_ends(lo: UVec3, hi: UVec3)
    requires
        local_box(lo, hi),
    ensures
        forall|i: int| #[trigger] in_region(i, lo, hi) ==> cell_number(
            lo.x as int,
            lo.y as int,
            lo.z as int,
        ) <= i < cell_number(lo.x as int, lo.y as int, hi.z as int),
{
}

/// Chunk coordinates.
#[derive(Debug, Clone, Copy, PartialEq, Eq, Hash, Structural)]
pub struct ChunkKey {
    pub x: u32,
    pub y: u32,
    pub z: u32,
}

/// The chunk that holds position `p`.
pub open spec fn key_of(p: UVec3) -> ChunkKey {
    ChunkKey { x: p.x / 32, y: p.y / 32, z: p.z / 32 }
}

/// The cell number of position `p` inside its chunk.
pub open spec fn cell_of(p: UVec3) -> int {
    cell_number(p.x as int % 32, p.y as int % 32, p.z as int % 32)
}

/// First coordinate of chunk `c` along one axis, taken modulo the coordinate range.
#[verifier::opaque]
pub open spec fn axis_origin(c: u32) -> u32 {
    ((c * 32) % 0x1_0000_0000) as u32
}

/// A chunk starts at a multiple of its size, and ends inside the coordinate range.
pub proof fn lemma_axis_origin(c: u32)
    ensures
        axis_origin(c) <= 0xffff_ffe0,
        axis_origin(c) as int % 32 == 0,
        c < 0x800_0000 ==> axis_origin(c) == c * 32,
{
    reveal(axis_origin);
}

/// The lowest corner of a chunk.
pub open spec fn chunk_origin(key: ChunkKey) -> UVec3 {
    UVec3 { x: axis_origin(key.x), y: axis_origin(key.y), z: axis_origin(key.z) }
}

/// World position of cell `i` of a chunk.
#[verifier::opaque]
pub open spec fn cell_position(key: ChunkKey, i: int) -> UVec3 {
    UVec3 {
        x: (axis_origin(key.x) + i % 32) as u32,
        y: (axis_origin(key.y) + (i / 32) % 32) as u32,
        z: (axis_origin(key.z) + i / 1024) as u32,
    }
}

/// The coordinates of a cell position.
pub proof fn lemma_cell_position(key: ChunkKey, i: int)
    requires
        0 <= i < 32768,
    ensures
        cell_position(key, i).x == chunk_origin(key).x + i % 32,
        cell_position(key, i).y == chunk_origin(key).y + (i / 32) % 32,
        cell_position(key, i).z == chunk_origin(key).z + i / 1024,
{
    reveal(cell_position);
    lemma_axis_origin(key.x);
    lemma_axis_origin(key.y);
    lemma_axis_origin(key.z);
}

/// A chunk that lies inside the coordinate range.
pub open spec fn key_in_range(key: ChunkKey) -> bool {
    key.x < 0x800_0000 && key.y < 0x800_0000 && key.z < 0x800_0000
}

/// The coordinates of a numbered cell.
pub proof fn lemma_cell_number(x: int, y: int, z: int)
    requires
        0 <= x < 32,
        0 <= y < 32,
        0 <= z < 32,
    ensures
        0 <= cell_number(x, y, z) < 32768,
        cell_number(x, y, z) % 32 == x,
        (cell_number(x, y, z) / 32) % 32 == y,
        cell_number(x, y, z) / 1024 == z,
{
}

/// Every position is the cell that its chunk key and cell number name.
pub proof fn lemma_position_decomposes(p: UVec3)
    ensures
        key_in_range(key_of(p)),
        0 <= cell_of(p) < 32768,
        cell_position(key_of(p), cell_of(p)) == p,
{
    reveal(cell_position);
    lemma_cell_number(p.x as int % 32, p.y as int % 32, p.z as int % 32);
    lemma_axis_origin(key_of(p).x);
    lemma_axis_origin(key_of(p).y);
    lemma_axis_origin(key_of(p).z);
}

/// Quotient and remainder of a coordinate by the chunk size.
proof fn lemma_axis_split(c: int, l: int, x: int)
    requires
        0 <= l < 32,
        x == c * 32 + l,
    ensures
        x / 32 == c,
        x % 32 == l,
{
}

/// Every cell of an in-range chunk has a position that leads back to it.
pub proof fn lemma_cell_recomposes(key: ChunkKey, i: int)
    requires
        key_in_range(key),
        0 <= i < 32768,
    ensures
        key_of(cell_position(key, i)) == key,
        cell_of(cell_position(key, i)) == i,
{
    reveal(cell_position);
    lemma_axis_origin(key.x);
    lemma_axis_origin(key.y);
    lemma_axis_origin(key.z);
    let p = cell_position(key, i);
    lemma_axis_split(key.x as int, i % 32, p.x as int);
    lemma_axis_split(key.y as int, (i / 32) % 32, p.y as int);
    lemma_axis_split(key.z as int, i / 1024, p.z as int);
}

impl ChunkKey {
    /// The chunk `(x, y, z)`.
    pub fn new(x: u32, y: u32, z: u32) -> (k: Self)
        ensures
            k == (ChunkKey { x, y, z }),
    {
        ChunkKey { x, y, z }
    }

    /// The chunk that holds `pos`.
    pub fn from_pos(pos: UVec3) -> (k: Self)
        ensures
            k == key_of(pos),
    {
        ChunkKey { x: pos.x / 32, y: pos.y / 32, z: pos.z / 32 }
    }

    /// The lowest corner of the chunk.
    pub fn world_min(self) -> (p: UVec3)
        ensures
            p == chunk_origin(self),
            p.x <= 0xffff_ffe0,
            p.y <= 0xffff_ffe0,
            p.z <= 0xffff_ffe0,
    {
        proof {
            reveal(axis_origin);
        }
        UVec3::new(self.x.wrapping_mul(32), self.y.wrapping_mul(32), self.z.wrapping_mul(32))
    }
}

/// A chunk key as one number.
pub open spec fn packed(key: ChunkKey) -> u128 {
    (key.x * 0x1_0000_0000_0000_0000 + key.y * 0x1_0000_0000 + key.z) as u128
}

/// The chunk key that a number below `2^96` stands for.
pub open spec fn unpacked(k: u128) -> ChunkKey {
    ChunkKey {
        x: (k / 0x1_0000_0000_0000_0000) as u32,
        y: ((k / 0x1_0000_0000) % 0x1_0000_0000) as u32,
        z: (k % 0x1_0000_0000) as u32,
    }
}

/// Numbers below `2^96` and chunk keys correspond one to one.
pub broadcast proof fn lemma_packed(key: ChunkKey)
    ensures
        #[trigger] packed(key) < 0x1_0000_0000_0000_0000_0000_0000,
        unpacked(packed(key)) == key,
{
}

/// Numbers below `2^96` and chunk keys correspond one to one.
pub proof fn lemma_unpacked(k: u128)
    requires
        k < 0x1_0000_0000_0000_0000_0000_0000,
    ensures
        packed(unpacked(k)) == k,
{
}

impl ChunkKey {
    /// The key as one number.
    pub fn pack(self) -> (k: u128)
        ensures
            k == packed(self),
    {
        (self.x as u128) * 0x1_0000_0000_0000_0000 + (self.y as u128) * 0x1_0000_0000 + (
        self.z as u128)
    }

    /// The key that `k` stands for.
    pub fn unpack(k: u128) -> (key: Self)
        requires
            k < 0x1_0000_0000_0000_0000_0000_0000,
        ensures
            key == unpacked(k),
            packed(key) == k,
    {
        ChunkKey {
            x: (k / 0x1_0000_0000_0000_0000) as u32,
            y: ((k / 0x1_0000_0000) % 0x1_0000_0000) as u32,
            z: (k % 0x1_0000_0000) as u32,
        }
    }
}

/// Position inside the chunk.
pub fn local_pos(pos: UVec3) -> (l: UVec3)
    ensures
        l == (UVec3 { x: pos.x % 32, y: pos.y % 32, z: pos.z % 32 }),
{
    UVec3::new(pos.x % 32, pos.y % 32, pos.z % 32)
}

/// Number of the local cell `local`.
pub fn local_index_vec(local: UVec3) -> (i: usize)
    requires
        local.x < 32,
        local.y < 32,
        local.z < 32,
    ensures
        i == cell_number(local.x as int, local.y as int, local.z as int),
        i < 32768,
{
    local_index(local.x, local.y, local.z)
}

/// The local cell with number `idx`.
pub fn local_from_index(idx: usize) -> (l: UVec3)
    requires
        idx < 32768,
    ensures
        l.x == idx as int % 32,
        l.y == (idx as int / 32) % 32,
        l.z == idx as int / 1024,
        l.x < 32,
        l.y < 32,
        l.z < 32,
        cell_number(l.x as int, l.y as int, l.z as int) == idx,
{
    UVec3::new((idx % 32) as u32, ((idx / 32) % 32) as u32, (idx / 1024) as u32)
}

/// Position in an x-fastest slice of row length `ex` and `ey` rows per slab.
pub open spec fn slice_number(x: int, y: int, z: int, ex: int, ey: int) -> int {
    x + y * ex + z * ex * ey
}

/// A position inside a slice's extent lies inside the slice.
pub proof fn lemma_slice_number(x: int, y: int, z: int, ex: int, ey: int, ez: int)
    requires
        0 <= x < ex,
        0 <= y < ey,
        0 <= z < ez,
    ensures
        0 <= slice_number(x, y, z, ex, ey) < ex * ey * ez,
        0 <= y * ex <= slice_number(x, y, z, ex, ey),
        0 <= z * ex <= z * ex * ey <= slice_number(x, y, z, ex, ey),
{
    assert(0 <= y * ex && y * ex + ex <= ex * ey) by (nonlinear_arith)
        requires
            0 <= y < ey,
            0 < ex,
    ;
    assert(0 <= z * ex) by (nonlinear_arith)
        requires
            0 <= z,
            0 < ex,
    ;
    assert(z * ex <= z * ex * ey) by (nonlinear_arith)
        requires
            0 <= z * ex,
            1 <= ey,
    ;
    assert(z * ex * ey + ex * ey <= ex * ey * ez) by (nonlinear_arith)
        requires
            0 <= z,
            z + 1 <= ez,
            0 < ex,
            0 < ey,
    ;
}

/// Position of `local` in an x-fastest slice of edge lengths `extent`.
pub fn source_index(local: UVec3, extent: UVec3) -> (i: usize)
    requires
        local.x < extent.x,
        local.y < extent.y,
        local.z < extent.z,
        extent.x * extent.y * extent.z <= usize::MAX,
    ensures
        i == slice_number(
            local.x as int,
            local.y as int,
            local.z as int,
            extent.x as int,
            extent.y as int,
        ),
        i < extent.x * extent.y * extent.z,
{
    proof {
        lemma_slice_number(
            local.x as int,
            local.y as int,
            local.z as int,
            extent.x as int,
            extent.y as int,
            extent.z as int,
        );
    }
    (local.x as usize) + (local.y as usize) * (extent.x as usize) + (local.z as usize) * (
    extent.x as usize) * (extent.y as usize)
}

/// True when `[local_min, local_max)` is a box of cells inside one chunk.
pub fn valid_local_aabb(local_min: UVec3, local_max: UVec3) -> (b: bool)
    ensures
        b == local_box(local_min, local_max),
{
    local_min.x <= local_max.x && local_min.y <= local_max.y && local_min.z <= local_max.z
        && local_max.x <= CHUNK_SIZE && local_max.y <= CHUNK_SIZE && local_max.z <= CHUNK_SIZE
}

/// True when `[local_min, local_max)` is the whole chunk.
pub fn is_full_chunk_local_aabb(local_min: UVec3, local_max: UVec3) -> (b: bool)
    ensures
        b == (local_min == (UVec3 { x: 0, y: 0, z: 0 }) && local_max == (UVec3 {
            x: 32,
            y: 32,
            z: 32,
        })),
        b ==> forall|i: int| #[trigger] in_region(i, local_min, local_max) <==> 0 <= i < 32768,
{
    local_min.x == 0 && local_min.y == 0 && local_min.z == 0 && local_max.x == CHUNK_SIZE
        && local_max.y == CHUNK_SIZE && local_max.z == CHUNK_SIZE
}

/// Edge lengths of the local box `[local_min, local_max)`.
pub fn local_extent(local_min: UVec3, local_max: UVec3) -> (e: UVec3)
    requires
        local_box(local_min, local_max),
    ensures
        e.x == local_max.x - local_min.x,
        e.y == local_max.y - local_min.y,
        e.z == local_max.z - local_min.z,
{
    UVec3::new(local_max.x - local_min.x, local_max.y - local_min.y, local_max.z - local_min.z)
}

/// Componentwise sum.
pub fn add_uvec3(a: UVec3, b: UVec3) -> (r: UVec3)
    requires
        a.x + b.x <= u32::MAX,
        a.y + b.y <= u32::MAX,
        a.z + b.z <= u32::MAX,
    ensures
        r.x == a.x + b.x,
        r.y == a.y + b.y,
        r.z == a.z + b.z,
{
    UVec3::new(a.x + b.x, a.y + b.y, a.z + b.z)
}

/// Componentwise difference.
pub fn sub_uvec3(a: UVec3, b: UVec3) -> (r: UVec3)
    requires
        a.x >= b.x,
        a.y >= b.y,
        a.z >= b.z,
    ensures
        r.x == a.x - b.x,
        r.y == a.y - b.y,
        r.z == a.z - b.z,
{
    UVec3::new(a.x - b.x, a.y - b.y, a.z - b.z)
}

/// The box's chunk end, cut off at the largest coordinate.
pub fn saturating_add_chunk_size(v: UVec3) -> (r: UVec3)
    ensures
        r.x == saturated_sum(v.x, 32),
        r.y == saturated_sum(v.y, 32),
        r.z == saturated_sum(v.z, 32),
{
    UVec3::new(
        v.x.saturating_add(CHUNK_SIZE),
        v.y.saturating_add(CHUNK_SIZE),
        v.z.saturating_add(CHUNK_SIZE),
    )
}

/// First and last chunk, along each axis, that a box meets.
pub fn chunk_key_range_for_aabb(aabb: Aabb3u) -> (r: (ChunkKey, ChunkKey))
    requires
        !aabb.vacant(),
    ensures
        r.0.x <= r.1.x < 0x800_0000,
        r.0.y <= r.1.y < 0x800_0000,
        r.0.z <= r.1.z < 0x800_0000,
        r.0 == key_of(aabb.min),
        r.1.x == (aabb.max.x - 1) / 32,
        r.1.y == (aabb.max.y - 1) / 32,
        r.1.z == (aabb.max.z - 1) / 32,
        forall|p: UVec3| #[trigger]
            aabb.has(p) ==> {
                &&& r.0.x <= key_of(p).x <= r.1.x
                &&& r.0.y <= key_of(p).y <= r.1.y
                &&& r.0.z <= key_of(p).z <= r.1.z
            },
{
    let min_key = ChunkKey::from_pos(aabb.min);
    let last = UVec3::new(aabb.max.x - 1, aabb.max.y - 1, aabb.max.z - 1);
    let max_key = ChunkKey::from_pos(last);
    (min_key, max_key)
}

/// The cells of a chunk that lie in a box, as a local box; `None` when there are none.
pub fn chunk_local_intersection(key: ChunkKey, aabb: Aabb3u) -> (r: Option<(UVec3, UVec3)>)
    ensures
        r matches Some((lo, hi)) ==> {
            &&& local_box(lo, hi)
            &&& lo.x < hi.x
            &&& lo.y < hi.y
            &&& lo.z < hi.z
            &&& forall|i: int| #[trigger]
                in_region(i, lo, hi) <==> 0 <= i < 32768 && aabb.has(cell_position(key, i))
            &&& exists|i: int| #[trigger] in_region(i, lo, hi)
            &&& aabb.min.x <= chunk_origin(key).x + lo.x
            &&& aabb.min.y <= chunk_origin(key).y + lo.y
            &&& aabb.min.z <= chunk_origin(key).z + lo.z
            &&& chunk_origin(key).x + hi.x <= aabb.max.x
            &&& chunk_origin(key).y + hi.y <= aabb.max.y
            &&& chunk_origin(key).z + hi.z <= aabb.max.z
        },
        r is None <==> forall|i: int|
            0 <= i < 32768 ==> !aabb.has(#[trigger] cell_position(key, i)),
{
    proof {
        reveal(cell_position);
    }
    let chunk_min = key.world_min();
    let chunk_max = saturating_add_chunk_size(chunk_min);
    let chunk_aabb = Aabb3u::new(chunk_min, chunk_max);
    match chunk_aabb.intersect(aabb) {
        None => {
            proof {
                assert forall|i: int| 0 <= i < 32768 implies !aabb.has(
                    #[trigger] cell_position(key, i),
                ) by {
                    let p = cell_position(key, i);
                    assert(!(chunk_aabb.has(p) && aabb.has(p)));
                }
            }
            None
        },
        Some(intersection) => {
            let local_min = sub_uvec3(intersection.min, chunk_min);
            let local_max = sub_uvec3(intersection.max, chunk_min);
            assert(local_box(local_min, local_max));
            proof {
                let i = cell_number(local_min.x as int, local_min.y as int, local_min.z as int);
                lemma_cell_number(local_min.x as int, local_min.y as int, local_min.z as int);
                assert(in_region(i, local_min, local_max));
                assert(cell_position(key, i) == intersection.min);
                assert(aabb.has(intersection.min));
                assert forall|i: int| #[trigger]
                    in_region(i, local_min, local_max) <==> 0 <= i < 32768 && aabb.has(
                        cell_position(key, i),
                    ) by {
                    let p = cell_position(key, i);
                    if 0 <= i < 32768 {
                        assert(intersection.has(p) <==> chunk_aabb.has(p) && aabb.has(p));
                    }
                }
            }
            Some((local_min, local_max))
        },
    }
}

/// Slice position of the cell at offset `(dx, dy, dz)` from `base`.
pub open spec fn offset_number(
    base: UVec3,
    extent: UVec3,
    dx: int,
    dy: int,
    dz: int,
) -> int {
    slice_number(base.x + dx, base.y + dy, base.z + dz, extent.x as int, extent.y as int)
}

/// Slice position from which region cell `i` is read when cell `lo` is read from `base`.
pub open spec fn region_number(i: int, lo: UVec3, base: UVec3, extent: UVec3) -> int {
    offset_number(base, extent, i % 32 - lo.x, (i / 32) % 32 - lo.y, i / 1024 - lo.z)
}

/// The local box `[lo, hi)` shifted to `base` lies inside `extent`, and the slice has that extent.
pub open spec fn source_covers(
    lo: UVec3,
    hi: UVec3,
    base: UVec3,
    extent: UVec3,
    len: nat,
) -> bool {
    &&& base.x + (hi.x - lo.x) <= extent.x
    &&& base.y + (hi.y - lo.y) <= extent.y
    &&& base.z + (hi.z - lo.z) <= extent.z
    &&& extent.x * extent.y * extent.z == len
}

/// Stores `value` in every cell of the local box `[local_min, local_max)`.
pub fn fill_dense_aabb<T: Copy>(values: &mut Vec<T>, local_min: UVec3, local_max: UVec3, value: T)
    requires
        local_box(local_min, local_max),
        old(values)@.len() == 32768,
    ensures
        final(values)@.len() == 32768,
        forall|i: int|
            0 <= i < 32768 ==> #[trigger] final(values)@[i] == if in_region(
                i,
                local_min,
                local_max,
            ) {
                value
            } else {
                old(values)@[i]
            },
{
    proof {
        lemma_walk_ends(local_min, local_max);
    }
    let mut z: u32 = local_min.z;
    while z < local_max.z
        invariant
            local_box(local_min, local_max),
            local_min.z <= z <= local_max.z,
            values@.len() == 32768,
            forall|i: int|
                0 <= i < 32768 ==> #[trigger] values@[i] == if in_region(i, local_min, local_max) && i
                    < cell_number(local_min.x as int, local_min.y as int, z as int) {
                    value
                } else {
                    old(values)@[i]
                },
        decreases local_max.z - z,
    {
        let mut y: u32 = local_min.y;
        while y < local_max.y
            invariant
                local_box(local_min, local_max),
                local_min.z <= z < local_max.z,
                local_min.y <= y <= local_max.y,
                values@.len() == 32768,
                forall|i: int|
                    0 <= i < 32768
                        ==> #[trigger] values@[i] == if in_region(i, local_min, local_max) && i
                        < cell_number(local_min.x as int, y as int, z as int) {
                        value
                    } else {
                        old(values)@[i]
                    },
            decreases local_max.y - y,
        {
            let mut x: u32 = local_min.x;
            while x < local_max.x
                invariant
                    local_box(local_min, local_max),
                    local_min.z <= z < local_max.z,
                    local_min.y <= y < local_max.y,
                    local_min.x <= x <= local_max.x,
                    values@.len() == 32768,
                    forall|i: int|
                        0 <= i < 32768
                            ==> #[trigger] values@[i] == if in_region(i, local_min, local_max) && i
                            < cell_number(x as int, y as int, z as int) {
                            value
                        } else {
                            old(values)@[i]
                        },
                decreases local_max.x - x,
            {
                let idx = local_index(x, y, z);
                values[idx] = value;
                x += 1;
            }
            proof {
                lemma_row_end(local_min, local_max, y as int, z as int);
            }
            y += 1;
        }
        proof {
            lemma_slab_end(local_min, local_max, z as int);
        }
        z += 1;
    }
}

/// Copies a slice region into the local box `[local_min, local_max)`.
pub fn copy_source_region_into_dense<T: Copy>(
    dst: &mut Vec<T>,
    local_min: UVec3,
    local_max: UVec3,
    source_base: UVec3,
    source_extent: UVec3,
    source: &[T],
)
    requires
        local_box(local_min, local_max),
        source_covers(local_min, local_max, source_base, source_extent, source@.len()),
        old(dst)@.len() == 32768,
    ensures
        final(dst)@.len() == 32768,
        forall|i: int|
            0 <= i < 32768 ==> #[trigger] final(dst)@[i] == if in_region(i, local_min, local_max) {
                source@[region_number(i, local_min, source_base, source_extent)]
            } else {
                old(dst)@[i]
            },
{
    let source_len = source.len();
    proof {
        lemma_walk_ends(local_min, local_max);
    }
    let mut z: u32 = local_min.z;
    while z < local_max.z
        invariant
            local_box(local_min, local_max),
            local_min.z <= z <= local_max.z,
            source_covers(local_min, local_max, source_base, source_extent, source@.len()),
            source@.len() == source_len,
            dst@.len() == 32768,
            forall|i: int|
                0 <= i < 32768 ==> #[trigger] dst@[i] == if in_region(i, local_min, local_max) && i
                    < cell_number(local_min.x as int, local_min.y as int, z as int) {
                    source@[region_number(i, local_min, source_base, source_extent)]
                } else {
                    old(dst)@[i]
                },
        decreases local_max.z - z,
    {
        let mut y: u32 = local_min.y;
        while y < local_max.y
            invariant
                local_box(local_min, local_max),
                local_min.z <= z < local_max.z,
                local_min.y <= y <= local_max.y,
                source_covers(local_min, local_max, source_base, source_extent, source@.len()),
                source@.len() == source_len,
                dst@.len() == 32768,
                forall|i: int|
                    0 <= i < 32768 ==> #[trigger] dst@[i] == if in_region(i, local_min, local_max) && i
                        < cell_number(local_min.x as int, y as int, z as int) {
                        source@[region_number(i, local_min, source_base, source_extent)]
                    } else {
                        old(dst)@[i]
                    },
            decreases local_max.y - y,
        {
            let mut x: u32 = local_min.x;
            while x < local_max.x
                invariant
                    local_box(local_min, local_max),
                    local_min.z <= z < local_max.z,
                    local_min.y <= y < local_max.y,
                    local_min.x <= x <= local_max.x,
                    source_covers(local_min, local_max, source_base, source_extent, source@.len()),
                    source@.len() == source_len,
                    dst@.len() == 32768,
                    forall|i: int|
                        0 <= i < 32768
                            ==> #[trigger] dst@[i] == if in_region(i, local_min, local_max) && i
                            < cell_number(x as int, y as int, z as int) {
                            source@[region_number(i, local_min, source_base, source_extent)]
                        } else {
                            old(dst)@[i]
                        },
                decreases local_max.x - x,
            {
                let idx = local_index(x, y, z);
                let from = UVec3::new(
                    source_base.x + (x - local_min.x),
                    source_base.y + (y - local_min.y),
                    source_base.z + (z - local_min.z),
                );
                let src = source_index(from, source_extent);
                assert(src == region_number(idx as int, local_min, source_base, source_extent));
                dst[idx] = source[src];
                x += 1;
            }
            proof {
                lemma_row_end(local_min, local_max, y as int, z as int);
            }
            y += 1;
        }
        proof {
            lemma_slab_end(local_min, local_max, z as int);
        }
        z += 1;
    }
}

/// The first value of a slice region when every value of the region equals it.
///
/// `None` for a region without cells, and where some value differs from the first
/// one (a value that is not equal to itself differs from itself).
pub fn uniform_value_in_source_region<T: Copy + PartialEq>(
    source: &[T],
    source_base: UVec3,
    source_extent: UVec3,
    region_extent: UVec3,
) -> (r: Option<T>)
    requires
        source_base.x + region_extent.x <= source_extent.x,
        source_base.y + region_extent.y <= source_extent.y,
        source_base.z + region_extent.z <= source_extent.z,
        source_extent.x * source_extent.y * source_extent.z == source@.len(),
        lawful::<T>(),
    ensures
        r matches Some(v) ==> {
            &&& region_extent.x > 0 && region_extent.y > 0 && region_extent.z > 0
            &&& v == source@[offset_number(source_base, source_extent, 0, 0, 0)]
            &&& forall|dx: int, dy: int, dz: int|
                0 <= dx < region_extent.x && 0 <= dy < region_extent.y && 0 <= dz < region_extent.z
                    ==> same(
                    source@[#[trigger] offset_number(source_base, source_extent, dx, dy, dz)],
                    v,
                )
        },
        T::obeys_eq_spec() ==> (r is Some <==> {
            &&& region_extent.x > 0 && region_extent.y > 0 && region_extent.z > 0
            &&& forall|dx: int, dy: int, dz: int|
                0 <= dx < region_extent.x && 0 <= dy < region_extent.y && 0 <= dz < region_extent.z
                    ==> source@[#[trigger] offset_number(
                    source_base,
                    source_extent,
                    dx,
                    dy,
                    dz,
                )].eq_spec(&source@[offset_number(source_base, source_extent, 0, 0, 0)])
        }),
{
    if region_extent.x == 0 || region_extent.y == 0 || region_extent.z == 0 {
        return None;
    }
    let source_len = source.len();
    let first = source[source_index(source_base, source_extent)];
    let mut z: u32 = 0;
    while z < region_extent.z
        invariant
            source_base.x + region_extent.x <= source_extent.x,
            source_base.y + region_extent.y <= source_extent.y,
            source_base.z + region_extent.z <= source_extent.z,
            source_extent.x * source_extent.y * source_extent.z == source@.len(),
            source@.len() == source_len,
            region_extent.x > 0 && region_extent.y > 0 && region_extent.z > 0,
            lawful::<T>(),
            first == source@[offset_number(source_base, source_extent, 0, 0, 0)],
            z <= region_extent.z,
            forall|dx: int, dy: int, dz: int|
                0 <= dx < region_extent.x && 0 <= dy < region_extent.y && 0 <= dz < z
                    ==> passes(
                    source@[#[trigger] offset_number(source_base, source_extent, dx, dy, dz)],
                    first,
                ),
        decreases region_extent.z - z,
    {
        let mut y: u32 = 0;
        while y < region_extent.y
            invariant
                source_base.x + region_extent.x <= source_extent.x,
                source_base.y + region_extent.y <= source_extent.y,
                source_base.z + region_extent.z <= source_extent.z,
                source_extent.x * source_extent.y * source_extent.z == source@.len(),
                source@.len() == source_len,
                region_extent.x > 0 && region_extent.y > 0 && region_extent.z > 0,
                lawful::<T>(),
                first == source@[offset_number(source_base, source_extent, 0, 0, 0)],
                z < region_extent.z,
                y <= region_extent.y,
                forall|dx: int, dy: int, dz: int|
                    0 <= dx < region_extent.x && 0 <= dy < region_extent.y && 0 <= dz <= z && (dz
                        < z || dy < y) ==> passes(
                        source@[#[trigger] offset_number(source_base, source_extent, dx, dy, dz)],
                        first,
                    ),
            decreases region_extent.y - y,
        {
            let mut x: u32 = 0;
            while x < region_extent.x
                invariant
                    source_base.x + region_extent.x <= source_extent.x,
                    source_base.y + region_extent.y <= source_extent.y,
                    source_base.z + region_extent.z <= source_extent.z,
                    source_extent.x * source_extent.y * source_extent.z == source@.len(),
                    source@.len() == source_len,
                    region_extent.x > 0 && region_extent.y > 0 && region_extent.z > 0,
                    lawful::<T>(),
                    first == source@[offset_number(source_base, source_extent, 0, 0, 0)],
                    z < region_extent.z,
                    y < region_extent.y,
                    x <= region_extent.x,
                    forall|dx: int, dy: int, dz: int|
                        0 <= dx < region_extent.x && 0 <= dy < region_extent.y && 0 <= dz <= z && (
                        dz < z || dy < y || (dy == y && dx < x)) ==> passes(
                            source@[#[trigger] offset_number(
                                source_base,
                                source_extent,
                                dx,
                                dy,
                                dz,
                            )],
                            first,
                        ),
                decreases region_extent.x - x,
            {
                let from = UVec3::new(source_base.x + x, source_base.y + y, source_base.z + z);
                let src = source_index(from, source_extent);
                assert(src == offset_number(
                    source_base,
                    source_extent,
                    x as int,
                    y as int,
                    z as int,
                ));
                let v = source[src];
                if v != first {
                    return None;
                }
                x += 1;
            }
            y += 1;
        }
        z += 1;
    }
    Some(first)
}

/// What a comparison of `a` with `b` that came out equal tells.
spec fn passes<T: PartialEq>(a: T, b: T) -> bool {
    same(a, b) && (T::obeys_eq_spec() ==> a.eq_spec(&b))
}

/// The fine coordinates that the coarse coordinate `pos` spans along one axis.
pub open spec fn axis_span(pos: int, scale: int, translation: int, q: int) -> bool {
    pos * scale + translation <= q < (pos + 1) * scale + translation
}

/// The fine voxels `q` that the coarse voxel `pos` spans:
/// `[pos * scale + translation, (pos + 1) * scale + translation)`.
pub open spec fn voxel_span(pos: UVec3, scale: u32, translation: I64Vec3, q: UVec3) -> bool {
    &&& axis_span(pos.x as int, scale as int, translation.x as int, q.x as int)
    &&& axis_span(pos.y as int, scale as int, translation.y as int, q.y as int)
    &&& axis_span(pos.z as int, scale as int, translation.z as int, q.z as int)
}

/// A fine voxel lies in the span of a coarse one exactly when, along every axis, its offset from
/// the translated grid, divided by the scale, is the coarse coordinate.
pub proof fn law_voxel_span(pos: UVec3, scale: u32, translation: I64Vec3, q: UVec3)
    requires
        scale > 0,
    ensures
        voxel_span(pos, scale, translation, q) <==> {
            &&& pos.x * scale + translation.x <= q.x < (pos.x + 1) * scale + translation.x
            &&& pos.y * scale + translation.y <= q.y < (pos.y + 1) * scale + translation.y
            &&& pos.z * scale + translation.z <= q.z < (pos.z + 1) * scale + translation.z
        },
        voxel_span(pos, scale, translation, q) <==> {
            &&& (q.x - translation.x) / (scale as int) == pos.x
            &&& (q.y - translation.y) / (scale as int) == pos.y
            &&& (q.z - translation.z) / (scale as int) == pos.z
        },
{
    lemma_quotient(pos.x as int, scale as int, q.x - translation.x);
    lemma_quotient(pos.y as int, scale as int, q.y - translation.y);
    lemma_quotient(pos.z as int, scale as int, q.z - translation.z);
}

/// The quotient of a division with remainder.
proof fn lemma_quotient(p: int, s: int, d: int)
    requires
        s > 0,
    ensures
        p * s <= d < (p + 1) * s <==> d / s == p,
{
    let (k, r) = (d / s, d % s);
    assert(d == k * s + r && 0 <= r < s) by (nonlinear_arith)
        requires
            s > 0,
            k == d / s,
            r == d % s,
    ;
    if p * s <= d < (p + 1) * s {
        assert(k == p) by (nonlinear_arith)
            requires
                p * s <= k * s + r < (p + 1) * s,
                0 <= r < s,
        ;
    }
    if k == p {
        assert(p * s <= d < (p + 1) * s) by (nonlinear_arith)
            requires
                d == p * s + r,
                0 <= r < s,
        ;
    }
}

/// One axis of a coarse voxel's span, clipped to `[0, bound)`.
pub fn transformed_axis(pos: u32, scale: u32, translation: i64, bound: u32) -> (r: Option<
    (u32, u32),
>)
    requires
        scale > 0,
    ensures
        r matches Some((a, b)) ==> {
            &&& a < b <= bound
            &&& forall|q: int|
                a <= q < b <==> 0 <= q < bound && #[trigger] axis_span(
                    pos as int,
                    scale as int,
                    translation as int,
                    q,
                )
        },
        r is None <==> forall|q: int|
            0 <= q < bound ==> !#[trigger] axis_span(
                pos as int,
                scale as int,
                translation as int,
                q,
            ),
{
    let scale_wide: i128 = scale as i128;
    let shift: i128 = translation as i128;
    proof {
        let (p, s) = (pos as int, scale as int);
        assert(0 <= p * s <= 0xffff_ffff * 0xffff_ffff) by (nonlinear_arith)
            requires
                0 <= p <= 0xffff_ffff,
                0 <= s <= 0xffff_ffff,
        ;
        assert((p + 1) * s == p * s + s) by (nonlinear_arith);
    }
    let min: i128 = (pos as i128) * scale_wide + shift;
    let max: i128 = (pos as i128 + 1) * scale_wide + shift;
    let clipped_min: i128 = if min > 0 { min } else { 0 };
    let clipped_max: i128 = if max < bound as i128 { max } else { bound as i128 };
    if clipped_min < clipped_max {
        proof {
            assert(axis_span(pos as int, scale as int, translation as int, clipped_min as int));
        }
        Some((clipped_min as u32, clipped_max as u32))
    } else {
        None
    }
}

/// The fine voxels that a coarse voxel spans, clipped to `[0, fine_bounds)`;
/// `None` when none is left.
pub fn scaled_voxel_aabb_in_fine_grid(
    coarse_pos: UVec3,
    scale: u32,
    translation: I64Vec3,
    fine_bounds: UVec3,
) -> (r: Option<Aabb3u>)
    requires
        scale > 0,
    ensures
        r matches Some(b) ==> !b.vacant() && forall|q: UVec3| #[trigger]
            b.has(q) <==> q.x < fine_bounds.x && q.y < fine_bounds.y && q.z < fine_bounds.z
                && voxel_span(coarse_pos, scale, translation, q),
        r is None <==> forall|q: UVec3|
            q.x < fine_bounds.x && q.y < fine_bounds.y && q.z < fine_bounds.z
                ==> !#[trigger] voxel_span(coarse_pos, scale, translation, q),
{
    let ax = transformed_axis(coarse_pos.x, scale, translation.x, fine_bounds.x);
    let ay = transformed_axis(coarse_pos.y, scale, translation.y, fine_bounds.y);
    let az = transformed_axis(coarse_pos.z, scale, translation.z, fine_bounds.z);
    match (ax, ay, az) {
        (Some((min_x, max_x)), Some((min_y, max_y)), Some((min_z, max_z))) => {
            let b = Aabb3u::new(UVec3::new(min_x, min_y, min_z), UVec3::new(max_x, max_y, max_z));
            proof {
                assert forall|q: UVec3| #[trigger]
                    b.has(q) <==> q.x < fine_bounds.x && q.y < fine_bounds.y && q.z < fine_bounds.z
                        && voxel_span(coarse_pos, scale, translation, q) by {
                    let (c, t, n) = (coarse_pos, translation, scale as int);
                    let in_x = axis_span(c.x as int, n, t.x as int, q.x as int);
                    let in_y = axis_span(c.y as int, n, t.y as int, q.y as int);
                    let in_z = axis_span(c.z as int, n, t.z as int, q.z as int);
                    assert(voxel_span(c, scale, t, q) <==> in_x && in_y && in_z);
                }
                assert(b.has(b.min));
                assert(voxel_span(coarse_pos, scale, translation, b.min));
            }
            Some(b)
        },
        _ => None,
    }
}

/// Chunk order of a walk: x-fastest, then y, then z.
pub open spec fn key_before(a: ChunkKey, b: ChunkKey) -> bool {
    a.z < b.z || (a.z == b.z && (a.y < b.y || (a.y == b.y && a.x < b.x)))
}

/// `k` lies between `lo` and `hi`, both included, along every axis.
pub open spec fn key_between(k: ChunkKey, lo: ChunkKey, hi: ChunkKey) -> bool {
    &&& lo.x <= k.x <= hi.x
    &&& lo.y <= k.y <= hi.y
    &&& lo.z <= k.z <= hi.z
}

/// The chunks that a walk from `lo` to `hi` has left behind when it stands at `cursor`,
/// or has ended (`more` is false).
pub open spec fn walked(
    k: ChunkKey,
    lo: ChunkKey,
    hi: ChunkKey,
    cursor: ChunkKey,
    more: bool,
) -> bool {
    key_between(k, lo, hi) && (!more || key_before(k, cursor))
}

/// Moves `cursor` to the next chunk of the walk from `lo` to `hi`. Returns false at the end.
pub fn advance_key(cursor: &mut ChunkKey, lo: ChunkKey, hi: ChunkKey) -> (more: bool)
    requires
        key_between(*old(cursor), lo, hi),
    ensures
        more ==> key_between(*final(cursor), lo, hi) && key_before(*old(cursor), *final(cursor)),
        !more ==> *final(cursor) == *old(cursor),
        forall|k: ChunkKey| #[trigger]
            walked(k, lo, hi, *final(cursor), more) <==> walked(k, lo, hi, *old(cursor), true) || k
                == *old(cursor),
{
    if cursor.x < hi.x {
        cursor.x = cursor.x + 1;
        true
    } else if cursor.y < hi.y {
        cursor.x = lo.x;
        cursor.y = cursor.y + 1;
        true
    } else if cursor.z < hi.z {
        cursor.x = lo.x;
        cursor.y = lo.y;
        cursor.z = cursor.z + 1;
        true
    } else {
        false
    }
}

} // verus!
