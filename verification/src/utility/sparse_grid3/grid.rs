//! Bounded, chunked, sparse 3D grid.

pub mod accessor;
pub mod storage;

use std::collections::hash_map::Entry;
use std::collections::HashMap;

use vstd::prelude::*;

use crate::utility::keyed::key_list;
use crate::utility::sparse_grid3::aabb::Aabb3u;
use crate::utility::sparse_grid3::bitmask::{lemma_mask_range, BitMask};
use crate::utility::sparse_grid3::chunk::Chunk;
use crate::utility::sparse_grid3::layout::{
    add_uvec3, advance_key, cell_of, cell_position, chunk_origin, chunk_key_range_for_aabb,
        chunk_local_intersection, in_region, key_before, key_between, key_in_range,
    key_of, lemma_cell_position, lemma_cell_recomposes, lemma_packed, lemma_position_decomposes,
        lemma_unpacked, local_from_index, local_index_vec,
    local_pos, packed, region_number, scaled_voxel_aabb_in_fine_grid, slice_number, sub_uvec3,
        unpacked, voxel_span, walked, ChunkKey,
};
use crate::utility::sparse_grid3::value::{lawful, lemma_same_cell_transitive, same_cell};
use crate::vec3::{I64Vec3, UVec3};

verus! {

broadcast use {vstd::std_specs::hash::group_hash_axioms, lemma_mask_range, lemma_packed};

/// Errors returned by fallible bulk operations.
#[derive(Debug, Clone, Copy, PartialEq, Eq)]
pub enum GridError {
    /// The requested AABB volume does not fit in `usize`.
    AabbVolumeDoesNotFitUsize,
    /// The supplied dense value slice length did not match the AABB volume.
    ValuesLengthMismatch { expected: usize, actual: usize },
}

/// Bounded, chunked, sparse 3D grid.
///
/// `T` is intentionally constrained to `Copy + PartialEq` to keep chunk promotion,
/// compaction, and bulk copies cheap. This is suitable for fundamental numeric types.
#[derive(Debug)]
pub struct SparseGrid3<T: Copy + PartialEq> {
    bounds: UVec3,
    chunks: HashMap<u128, Chunk<T>>,
}

/// Cell `i` of chunk `key` in a chunk map.
spec fn map_cell<T: Copy + PartialEq>(m: Map<u128, Chunk<T>>, key: ChunkKey, i: int) -> Option<T> {
    if m.contains_key(packed(key)) {
        m[packed(key)].at(i)
    } else {
        None
    }
}

/// Keys of a chunk map stand for chunks, and its chunks are well-formed.
spec fn map_wf<T: Copy + PartialEq>(m: Map<u128, Chunk<T>>) -> bool {
    forall|k: u128| #[trigger]
        m.contains_key(k) ==> k < 0x1_0000_0000_0000_0000_0000_0000 && m[k].wf()
}

/// `p` lies in `[0, bounds)`.
pub open spec fn inside(p: UVec3, bounds: UVec3) -> bool {
    p.x < bounds.x && p.y < bounds.y && p.z < bounds.z
}

impl<T: Copy + PartialEq> SparseGrid3<T> {
    /// Exclusive coordinate limits.
    pub closed spec fn limits(self) -> UVec3 {
        self.bounds
    }

    /// The stored chunks are well-formed.
    pub closed spec fn wf(self) -> bool {
        map_wf(self.chunks@)
    }

    /// Chunk `key` is allocated.
    pub closed spec fn allocated(self, key: ChunkKey) -> bool {
        self.chunks@.contains_key(packed(key))
    }

    /// Number of allocated chunks.
    pub closed spec fn allocated_len(self) -> nat {
        self.chunks@.dom().len()
    }

    /// The value stored in cell `i` of chunk `key`.
    pub closed spec fn cell(self, key: ChunkKey, i: int) -> Option<T> {
        map_cell(self.chunks@, key, i)
    }

    /// The value at `p`: `None` where `p` is out of bounds or unset.
    pub open spec fn at(self, p: UVec3) -> Option<T> {
        if inside(p, self.limits()) {
            self.cell(key_of(p), cell_of(p))
        } else {
            None
        }
    }

    /// Every allocated chunk lies in the coordinate range and holds a voxel, and every
    /// stored voxel lies in bounds.
    ///
    /// Grids built from voxels are tidy. Chunks inserted whole may break it.
    pub open spec fn tidy(self) -> bool {
        &&& forall|key: ChunkKey| #[trigger]
            self.allocated(key) ==> key_in_range(key) && exists|i: int|
                (#[trigger] self.cell(key, i)) is Some
        &&& forall|key: ChunkKey, i: int|
            (#[trigger] self.cell(key, i)) is Some ==> inside(cell_position(key, i), self.limits())
    }

    /// The two grids hold the same cells in every chunk outside the coordinate range.
    pub open spec fn agrees_beyond(self, other: Self) -> bool {
        forall|key: ChunkKey, i: int|
            !key_in_range(key) ==> same_cell(other.cell(key, i), #[trigger] self.cell(key, i))
    }

    /// Creates an empty bounded grid with coordinates in `[0, bounds)`.
    pub fn new(bounds: UVec3) -> (g: Self)
        ensures
            g.wf(),
            g.tidy(),
            g.limits() == bounds,
            g.allocated_len() == 0,
            forall|key: ChunkKey, i: int| #[trigger] g.cell(key, i) is None,
    {
        SparseGrid3 { bounds, chunks: HashMap::new() }
    }

    /// Creates an empty grid with reserved chunk capacity.
    pub fn with_chunk_capacity(bounds: UVec3, chunk_capacity: usize) -> (g: Self)
        ensures
            g.wf(),
            g.tidy(),
            g.limits() == bounds,
            g.allocated_len() == 0,
            forall|key: ChunkKey, i: int| #[trigger] g.cell(key, i) is None,
    {
        SparseGrid3 { bounds, chunks: HashMap::with_capacity(chunk_capacity) }
    }

    /// Grid bounds as exclusive coordinate limits.
    pub fn bounds(&self) -> (b: UVec3)
        ensures
            b == self.limits(),
    {
        self.bounds
    }

    /// Grid bounds as the half-open AABB `[0, bounds)`.
    pub fn bounds_aabb(&self) -> (b: Aabb3u)
        ensures
            b.min == (UVec3 { x: 0, y: 0, z: 0 }),
            b.max == self.limits(),
            forall|p: UVec3| #[trigger] b.has(p) <==> inside(p, self.limits()),
    {
        Aabb3u::full_grid(self.bounds)
    }

    /// True when `p` lies inside `[0, bounds)`.
    pub fn is_in_bounds(&self, p: UVec3) -> (b: bool)
        ensures
            b == inside(p, self.limits()),
    {
        p.x < self.bounds.x && p.y < self.bounds.y && p.z < self.bounds.z
    }

    /// True when the grid has no allocated chunks.
    pub fn is_empty(&self) -> (b: bool)
        ensures
            b == (self.allocated_len() == 0),
            b ==> forall|key: ChunkKey, i: int| #[trigger] self.cell(key, i) is None,
            self.wf() && self.tidy() ==> (b <==> forall|p: UVec3| #[trigger] self.at(p) is None),
    {
        proof {
            if self.allocated_len() == 0 {
                assert(self.chunks@.dom() =~= Set::empty());
            } else if self.wf() && self.tidy() {
                let k = choose|k: u128| self.chunks@.dom().contains(k);
                assert(self.chunks@.dom().contains(k)) by {
                    assert(self.chunks@.dom() != Set::<u128>::empty());
                    vstd::set_lib::axiom_is_empty(self.chunks@.dom());
                };
                lemma_unpacked(k);
                let key = unpacked(k);
                assert(self.allocated(key));
                let i = choose|i: int| (#[trigger] self.cell(key, i)) is Some;
                lemma_cell_recomposes(key, i);
                assert(self.at(cell_position(key, i)) is Some);
            }
        }
        self.chunks.is_empty()
    }

    /// Number of allocated chunks.
    pub fn chunk_count(&self) -> (n: usize)
        ensures
            n == self.allocated_len(),
    {
        self.chunks.len()
    }

    /// Returns a copied value when the voxel is present. Returns `None` when the
    /// coordinate is out of bounds or the voxel is unset.
    pub fn get(&self, pos: UVec3) -> (r: Option<T>)
        requires
            self.wf(),
        ensures
            r == self.at(pos),
    {
        if !self.is_in_bounds(pos) {
            return None;
        }
        let key = ChunkKey::from_pos(pos);
        let idx = local_index_vec(local_pos(pos));
        match self.chunks.get(&key.pack()) {
            Some(chunk) => chunk.get_index(idx),
            None => None,
        }
    }

    /// True only when the coordinate is in bounds and explicitly present.
    pub fn contains(&self, pos: UVec3) -> (b: bool)
        requires
            self.wf(),
        ensures
            b == self.at(pos) is Some,
    {
        if !self.is_in_bounds(pos) {
            return false;
        }
        let key = ChunkKey::from_pos(pos);
        let idx = local_index_vec(local_pos(pos));
        match self.chunks.get(&key.pack()) {
            Some(chunk) => chunk.contains_index(idx),
            None => false,
        }
    }

    /// Sets one voxel. Returns false when `pos` is out of bounds.
    pub fn set(&mut self, pos: UVec3, value: T) -> (b: bool)
        requires
            old(self).wf(),
            lawful::<T>(),
        ensures
            final(self).wf(),
            final(self).limits() == old(self).limits(),
            old(self).tidy() ==> final(self).tidy(),
            b == inside(pos, old(self).limits()),
            !b ==> *final(self) == *old(self),
            b ==> final(self).at(pos) == Some(value),
            forall|p: UVec3| p != pos ==> same_cell(old(self).at(p), #[trigger] final(self).at(p)),
            final(self).agrees_beyond(*old(self)),
    {
        if !self.is_in_bounds(pos) {
            return false;
        }
        let key = ChunkKey::from_pos(pos);
        let idx = local_index_vec(local_pos(pos));
        match self.chunks.entry(key.pack()) {
            Entry::Occupied(mut occupied) => {
                occupied.get_mut().set_index(idx, value);
            },
            Entry::Vacant(vacant) => {
                let mut mask = BitMask::empty();
                mask.set(idx);
                vacant.insert(Chunk::Uniform { value, mask });
            },
        }
        proof {
            lemma_position_decomposes(pos);
            assert forall|k: ChunkKey, i: int| (k != key || i != idx)
                implies same_cell(old(self).cell(k, i), #[trigger] self.cell(k, i)) by {}
            assert forall|p: UVec3| p != pos
                implies same_cell(old(self).at(p), #[trigger] self.at(p)) by {
                lemma_position_decomposes(p);
            }
            assert(self.cell(key, idx as int) == Some(value));
            if old(self).tidy() {
                assert forall|k: ChunkKey| #[trigger] self.allocated(k)
                    implies key_in_range(k) && exists|i: int| (#[trigger] self.cell(k, i)) is Some by {
                    if k != key {
                        assert(old(self).allocated(k));
                        let i = choose|i: int| (#[trigger] old(self).cell(k, i)) is Some;
                        assert(self.cell(k, i) is Some);
                    }
                }
            }
        }
        true
    }

    /// Clears one voxel. Returns true only if a present voxel was removed.
    pub fn clear(&mut self, pos: UVec3) -> (b: bool)
        requires
            old(self).wf(),
        ensures
            final(self).wf(),
            final(self).limits() == old(self).limits(),
            old(self).tidy() ==> final(self).tidy(),
            b == old(self).at(pos) is Some,
            final(self).at(pos) is None,
            forall|p: UVec3| p != pos ==> #[trigger] final(self).at(p) == old(self).at(p),
            forall|key: ChunkKey, i: int| !key_in_range(key)
                ==> #[trigger] final(self).cell(key, i) == old(self).cell(key, i),
    {
        if !self.is_in_bounds(pos) {
            return false;
        }
        let key = ChunkKey::from_pos(pos);
        let idx = local_index_vec(local_pos(pos));
        let removed = match self.chunks.entry(key.pack()) {
            Entry::Occupied(mut occupied) => {
                let removed = occupied.get_mut().clear_index(idx);
                if occupied.get().is_empty() {
                    occupied.remove();
                }
                removed
            },
            Entry::Vacant(_) => false,
        };
        proof {
            lemma_position_decomposes(pos);
            assert forall|k: ChunkKey, i: int| (k != key || i != idx)
                implies #[trigger] self.cell(k, i) == old(self).cell(k, i) by {}
            assert(self.cell(key, idx as int) is None);
            assert forall|p: UVec3| p != pos implies #[trigger] self.at(p) == old(self).at(p) by {
                lemma_position_decomposes(p);
            }
            if old(self).tidy() {
                assert forall|k: ChunkKey| #[trigger] self.allocated(k)
                    implies key_in_range(k) && exists|i: int| (#[trigger] self.cell(k, i)) is Some by {
                    assert(old(self).allocated(k));
                    let i = choose|i: int| (#[trigger] old(self).cell(k, i)) is Some;
                    if k != key {
                        assert(self.cell(k, i) is Some);
                    } else {
                        let m = self.chunks@[packed(key)].presence();
                        let j = choose|j: int| #[trigger] m.has(j);
                        assert(self.cell(k, j) is Some);
                    }
                }
            }
        }
        removed
    }

    /// Cell `i` of chunk `key` is a voxel of `aabb`.
    pub open spec fn names(key: ChunkKey, i: int, aabb: Aabb3u) -> bool {
        key_in_range(key) && 0 <= i < 32768 && aabb.has(cell_position(key, i))
    }

    /// The part of `aabb` inside the grid bounds.
    fn clip(&self, aabb: Aabb3u) -> (r: Option<Aabb3u>)
        ensures
            r is None <==> forall|p: UVec3| !(#[trigger] aabb.has(p) && inside(p, self.limits())),
            r matches Some(c) ==> {
                &&& !c.vacant()
                &&& forall|p: UVec3| #[trigger]
                    c.has(p) <==> aabb.has(p) && inside(p, self.limits())
                &&& aabb.min.x <= c.min.x && c.max.x <= aabb.max.x
                &&& aabb.min.y <= c.min.y && c.max.y <= aabb.max.y
                &&& aabb.min.z <= c.min.z && c.max.z <= aabb.max.z
            },
    {
        let full = self.bounds_aabb();
        let r = aabb.intersect(full);
        proof {
            if r is None {
                assert forall|p: UVec3| !(#[trigger] aabb.has(p) && inside(p, self.limits())) by {
                    assert(full.has(p) <==> inside(p, self.limits()));
                }
            } else {
                let c = r->0;
                assert(aabb.has(c.min) && full.has(c.min)) by {
                    assert(c.has(c.min));
                }
            }
        }
        r
    }

    /// Fills the part of `aabb` that lies in one chunk.
    fn fill_chunk(&mut self, key: ChunkKey, aabb: Aabb3u, value: T)
        requires
            old(self).wf(),
            lawful::<T>(),
            key_in_range(key),
        ensures
            final(self).wf(),
            final(self).limits() == old(self).limits(),
            forall|i: int| Self::names(key, i, aabb)
                ==> #[trigger] final(self).cell(key, i) == Some(value),
            forall|k: ChunkKey, i: int|
                !(k == key && Self::names(k, i, aabb)) ==> same_cell(
                    old(self).cell(k, i),
                    #[trigger] final(self).cell(k, i),
                ),
            forall|k: ChunkKey, i: int| k != key
                ==> #[trigger] final(self).cell(k, i) == old(self).cell(k, i),
            forall|k: ChunkKey| #[trigger] final(self).allocated(k)
                ==> old(self).allocated(k)
                    || (k == key && exists|i: int| (#[trigger] final(self).cell(key, i)) is Some),
    {
        match chunk_local_intersection(key, aabb) {
            None => {},
            Some((local_min, local_max)) => {
                match self.chunks.entry(key.pack()) {
                    Entry::Occupied(mut occupied) => {
                        occupied.get_mut().fill_local_aabb(local_min, local_max, value);
                    },
                    Entry::Vacant(vacant) => {
                        let mut mask = BitMask::empty();
                        mask.set_aabb(local_min, local_max);
                        vacant.insert(Chunk::Uniform { value, mask });
                    },
                }
                proof {
                    assert forall|i: int| Self::names(key, i, aabb)
                        implies #[trigger] self.cell(key, i) == Some(value) by {
                        assert(in_region(i, local_min, local_max));
                    }
                    assert forall|k: ChunkKey, i: int|
                        !(k == key && Self::names(k, i, aabb)) implies same_cell(
                        old(self).cell(k, i),
                        #[trigger] self.cell(k, i),
                    ) by {
                        assert(in_region(i, local_min, local_max)
                            ==> 0 <= i < 32768 && aabb.has(cell_position(key, i)));
                    }
                    let i = choose|i: int| #[trigger] in_region(i, local_min, local_max);
                    assert(self.cell(key, i) is Some);
                }
            },
        }
    }

    /// Fills every voxel in `aabb` with `value`, ignoring out-of-bounds portions.
    ///
    /// The AABB is half-open: `[min, max)`.
    pub fn fill_aabb(&mut self, aabb: Aabb3u, value: T)
        requires
            old(self).wf(),
            lawful::<T>(),
        ensures
            final(self).wf(),
            final(self).limits() == old(self).limits(),
            old(self).tidy() ==> final(self).tidy(),
            forall|p: UVec3|
                aabb.has(p) && inside(p, old(self).limits())
                    ==> #[trigger] final(self).at(p) == Some(value),
            forall|p: UVec3|
                !aabb.has(p) ==> same_cell(old(self).at(p), #[trigger] final(self).at(p)),
            final(self).agrees_beyond(*old(self)),
    {
        let clipped = match self.clip(aabb) {
            Some(clipped) => clipped,
            None => return,
        };
        let (min_key, max_key) = chunk_key_range_for_aabb(clipped);
        let mut key = min_key;
        let mut more = true;
        while more
            invariant
                self.wf(),
                lawful::<T>(),
                self.limits() == old(self).limits(),
                max_key.x < 0x800_0000,
                max_key.y < 0x800_0000,
                max_key.z < 0x800_0000,
                key_between(key, min_key, max_key),
                forall|k: ChunkKey, i: int| Self::names(k, i, clipped)
                    && walked(k, min_key, max_key, key, more)
                    ==> #[trigger] self.cell(k, i) == Some(value),
                forall|k: ChunkKey,
                    i: int| !(Self::names(k, i, clipped) && walked(k, min_key, max_key, key, more))
                    ==> same_cell(old(self).cell(k, i), #[trigger] self.cell(k, i)),
                forall|k: ChunkKey| #[trigger] self.allocated(k)
                    ==> old(self).allocated(k)
                        || (key_in_range(k) && exists|i: int| (#[trigger] self.cell(k, i)) is Some),
            decreases more as int, max_key.z - key.z, max_key.y - key.y, max_key.x - key.x,
        {
            let ghost before = *self;
            let ghost key0 = key;
            self.fill_chunk(key, clipped, value);
            more = advance_key(&mut key, min_key, max_key);
            proof {
                assert forall|k: ChunkKey, i: int| Self::names(k, i, clipped)
                    && walked(k, min_key, max_key, key, more)
                    implies #[trigger] self.cell(k, i) == Some(value) by {
                    if k != key0 {
                        assert(walked(k, min_key, max_key, key0, true));
                        assert(before.cell(k, i) == Some(value));
                        assert(same_cell(before.cell(k, i), self.cell(k, i)));
                    }
                }
                assert forall|k: ChunkKey,
                    i: int| !(Self::names(k, i, clipped) && walked(k, min_key, max_key, key, more))
                    implies same_cell(old(self).cell(k, i), #[trigger] self.cell(k, i)) by {
                    lemma_same_cell_transitive(old(self).cell(k, i), before.cell(k, i), self.cell(k, i));
                }
                assert forall|k: ChunkKey| #[trigger] self.allocated(k)
                    implies old(self).allocated(k)
                        || (key_in_range(k) && exists|i: int| (#[trigger] self.cell(k, i)) is Some) by {
                    if before.allocated(k) && !old(self).allocated(k) {
                        let i = choose|i: int| (#[trigger] before.cell(k, i)) is Some;
                        assert(self.cell(k, i) is Some);
                    }
                }
            }
        }
        proof {
            assert forall|k: ChunkKey, i: int| #[trigger] Self::names(k, i, clipped)
                implies walked(k, min_key, max_key, key, more) by {
                lemma_cell_recomposes(k, i);
                assert(clipped.has(cell_position(k, i)));
            }
            assert forall|p: UVec3|
                aabb.has(p) && inside(p, old(self).limits())
                    implies #[trigger] self.at(p) == Some(value) by {
                lemma_position_decomposes(p);
                assert(Self::names(key_of(p), cell_of(p), clipped));
            }
            assert forall|p: UVec3|
                !aabb.has(p) implies same_cell(old(self).at(p), #[trigger] self.at(p)) by {
                lemma_position_decomposes(p);
                assert(!Self::names(key_of(p), cell_of(p), clipped));
            }
            if old(self).tidy() {
                assert forall|k: ChunkKey| #[trigger] self.allocated(k)
                    implies key_in_range(k) && exists|i: int| (#[trigger] self.cell(k, i)) is Some by {
                    if old(self).allocated(k) {
                        let i = choose|i: int| (#[trigger] old(self).cell(k, i)) is Some;
                        if Self::names(k, i, clipped) {
                            assert(self.cell(k, i) is Some);
                        } else {
                            assert(same_cell(old(self).cell(k, i), self.cell(k, i)));
                        }
                    }
                }
                assert forall|k: ChunkKey, i: int| (#[trigger] self.cell(k, i)) is Some
                    implies inside(cell_position(k, i), self.limits()) by {
                    if !Self::names(k, i, clipped) {
                        assert(same_cell(old(self).cell(k, i), self.cell(k, i)));
                    }
                }
            }
        }
    }

    /// Writes the part of `clipped` that lies in one chunk from the slice that covers `aabb`.
    fn write_chunk(&mut self, key: ChunkKey, clipped: Aabb3u, aabb: Aabb3u, values: &[T])
        requires
            old(self).wf(),
            lawful::<T>(),
            key_in_range(key),
            values@.len() == aabb.volume(),
            aabb.min.x <= clipped.min.x && clipped.max.x <= aabb.max.x,
            aabb.min.y <= clipped.min.y && clipped.max.y <= aabb.max.y,
            aabb.min.z <= clipped.min.z && clipped.max.z <= aabb.max.z,
        ensures
            final(self).wf(),
            final(self).limits() == old(self).limits(),
            forall|i: int|
                Self::names(key, i, clipped) ==> same_cell(
                    Some(values@[slot(aabb, cell_position(key, i))]),
                    #[trigger] final(self).cell(key, i),
                ),
            forall|k: ChunkKey, i: int|
                !(k == key && Self::names(k, i, clipped)) ==> same_cell(
                    old(self).cell(k, i),
                    #[trigger] final(self).cell(k, i),
                ),
            forall|k: ChunkKey, i: int|
                k != key ==> #[trigger] final(self).cell(k, i) == old(self).cell(k, i),
            forall|k: ChunkKey| #[trigger]
                final(self).allocated(k) ==> old(self).allocated(k) || (k == key && exists|i: int|
                    (#[trigger] final(self).cell(key, i)) is Some),
    {
        match chunk_local_intersection(key, clipped) {
            None => {},
            Some((local_min, local_max)) => {
                let chunk_min = key.world_min();
                let world_min = add_uvec3(chunk_min, local_min);
                let source_base = sub_uvec3(world_min, aabb.min);
                let source_extent = aabb.extent();
                match self.chunks.entry(key.pack()) {
                    Entry::Occupied(mut occupied) => {
                        occupied.get_mut().write_values_local(
                            local_min,
                            local_max,
                            source_base,
                            source_extent,
                            values,
                        );
                    },
                    Entry::Vacant(vacant) => {
                        let chunk = Chunk::from_values_local(
                            local_min,
                            local_max,
                            source_base,
                            source_extent,
                            values,
                        );
                        vacant.insert(chunk);
                    },
                }
                proof {
                    assert forall|i: int| Self::names(key, i, clipped) implies same_cell(
                        Some(values@[slot(aabb, cell_position(key, i))]),
                        #[trigger] self.cell(key, i),
                    ) by {
                        assert(in_region(i, local_min, local_max));
                        lemma_cell_position(key, i);
                        assert(region_number(i, local_min, source_base, source_extent) == slot(
                            aabb,
                            cell_position(key, i),
                        ));
                    }
                    assert forall|k: ChunkKey, i: int|
                        !(k == key && Self::names(k, i, clipped)) implies same_cell(
                        old(self).cell(k, i),
                        #[trigger] self.cell(k, i),
                    ) by {
                        assert(in_region(i, local_min, local_max) ==> 0 <= i < 32768
                            && clipped.has(cell_position(key, i)));
                    }
                    let i = choose|i: int| #[trigger] in_region(i, local_min, local_max);
                    assert(self.cell(key, i) is Some);
                }
            },
        }
    }

    /// Writes a dense x-fastest value slice into `aabb`, ignoring out-of-bounds portions.
    ///
    /// `values` must match the full, unclipped AABB volume. This lets callers pass
    /// a logical source block and rely on clipping only for destination writes.
    ///
    /// Slice layout:
    ///
    /// ```text
    /// source_index = local.x + local.y * extent.x + local.z * extent.x * extent.y
    /// ```
    pub fn write_aabb_values(&mut self, aabb: Aabb3u, values: &[T]) -> (r: Result<(), GridError>)
        requires
            old(self).wf(),
            lawful::<T>(),
        ensures
            final(self).wf(),
            final(self).limits() == old(self).limits(),
            old(self).tidy() ==> final(self).tidy(),
            r == if aabb.volume() > usize::MAX {
                Err(GridError::AabbVolumeDoesNotFitUsize)
            } else if values@.len() != aabb.volume() {
                Err(
                    GridError::ValuesLengthMismatch {
                        expected: aabb.volume() as usize,
                        actual: values@.len() as usize,
                    },
                )
            } else {
                Ok(())
            },
            r is Err ==> *final(self) == *old(self),
            r is Ok ==> forall|p: UVec3|
                aabb.has(p) && inside(p, old(self).limits()) ==> same_cell(
                    Some(values@[slot(aabb, p)]),
                    #[trigger] final(self).at(p),
                ),
            forall|p: UVec3|
                !aabb.has(p) ==> same_cell(old(self).at(p), #[trigger] final(self).at(p)),
            final(self).agrees_beyond(*old(self)),
    {
        let expected = match aabb.volume_usize() {
            Some(expected) => expected,
            None => return Err(GridError::AabbVolumeDoesNotFitUsize),
        };
        if values.len() != expected {
            return Err(GridError::ValuesLengthMismatch { expected, actual: values.len() });
        }
        let clipped = match self.clip(aabb) {
            Some(clipped) => clipped,
            None => return Ok(()),
        };
        let (min_key, max_key) = chunk_key_range_for_aabb(clipped);
        let mut key = min_key;
        let mut more = true;
        while more
            invariant
                self.wf(),
                lawful::<T>(),
                self.limits() == old(self).limits(),
                values@.len() == aabb.volume(),
                aabb.min.x <= clipped.min.x && clipped.max.x <= aabb.max.x,
                aabb.min.y <= clipped.min.y && clipped.max.y <= aabb.max.y,
                aabb.min.z <= clipped.min.z && clipped.max.z <= aabb.max.z,
                max_key.x < 0x800_0000,
                max_key.y < 0x800_0000,
                max_key.z < 0x800_0000,
                key_between(key, min_key, max_key),
                forall|k: ChunkKey, i: int|
                    Self::names(k, i, clipped) && walked(k, min_key, max_key, key, more)
                        ==> same_cell(
                        Some(values@[slot(aabb, cell_position(k, i))]),
                        #[trigger] self.cell(k, i),
                    ),
                forall|k: ChunkKey, i: int|
                    !(Self::names(k, i, clipped) && walked(k, min_key, max_key, key, more))
                        ==> same_cell(old(self).cell(k, i), #[trigger] self.cell(k, i)),
                forall|k: ChunkKey| #[trigger]
                    self.allocated(k) ==> old(self).allocated(k) || (key_in_range(k) && exists|
                        i: int,
                    |
                        (#[trigger] self.cell(k, i)) is Some),
            decreases more as int, max_key.z - key.z, max_key.y - key.y, max_key.x - key.x,
        {
            let ghost before = *self;
            let ghost key0 = key;
            self.write_chunk(key, clipped, aabb, values);
            more = advance_key(&mut key, min_key, max_key);
            proof {
                assert forall|k: ChunkKey, i: int|
                    Self::names(k, i, clipped) && walked(
                        k,
                        min_key,
                        max_key,
                        key,
                        more,
                    ) implies same_cell(
                    Some(values@[slot(aabb, cell_position(k, i))]),
                    #[trigger] self.cell(k, i),
                ) by {
                    if k != key0 {
                        assert(walked(k, min_key, max_key, key0, true));
                        assert(self.cell(k, i) == before.cell(k, i));
                    }
                }
                assert forall|k: ChunkKey, i: int|
                    !(Self::names(k, i, clipped) && walked(
                        k,
                        min_key,
                        max_key,
                        key,
                        more,
                    )) implies same_cell(old(self).cell(k, i), #[trigger] self.cell(k, i)) by {
                    lemma_same_cell_transitive(
                        old(self).cell(k, i),
                        before.cell(k, i),
                        self.cell(k, i),
                    );
                }
                assert forall|k: ChunkKey| #[trigger] self.allocated(k) implies old(self).allocated(
                    k,
                ) || (key_in_range(k) && exists|i: int| (#[trigger] self.cell(k, i)) is Some) by {
                    if before.allocated(k) && !old(self).allocated(k) {
                        let i = choose|i: int| (#[trigger] before.cell(k, i)) is Some;
                        assert(self.cell(k, i) is Some);
                    }
                }
            }
        }
        proof {
            assert forall|k: ChunkKey, i: int| #[trigger] Self::names(k, i, clipped) implies walked(
                k,
                min_key,
                max_key,
                key,
                more,
            ) by {
                lemma_cell_recomposes(k, i);
                assert(clipped.has(cell_position(k, i)));
            }
            assert forall|p: UVec3|
                aabb.has(p) && inside(p, old(self).limits()) implies same_cell(
                Some(values@[slot(aabb, p)]),
                #[trigger] self.at(p),
            ) by {
                lemma_position_decomposes(p);
                assert(Self::names(key_of(p), cell_of(p), clipped));
            }
            assert forall|p: UVec3| !aabb.has(p) implies same_cell(
                old(self).at(p),
                #[trigger] self.at(p),
            ) by {
                lemma_position_decomposes(p);
                assert(!Self::names(key_of(p), cell_of(p), clipped));
            }
            if old(self).tidy() {
                assert forall|k: ChunkKey| #[trigger] self.allocated(k) implies key_in_range(k)
                    && exists|i: int| (#[trigger] self.cell(k, i)) is Some by {
                    if old(self).allocated(k) {
                        let i = choose|i: int| (#[trigger] old(self).cell(k, i)) is Some;
                        if Self::names(k, i, clipped) {
                            assert(self.cell(k, i) is Some);
                        } else {
                            assert(same_cell(old(self).cell(k, i), self.cell(k, i)));
                        }
                    }
                }
                assert forall|k: ChunkKey, i: int| (#[trigger] self.cell(k, i)) is Some implies inside(
                    cell_position(k, i),
                    self.limits(),
                ) by {
                    if !Self::names(k, i, clipped) {
                        assert(same_cell(old(self).cell(k, i), self.cell(k, i)));
                    }
                }
            }
        }
        Ok(())
    }

    /// Clears the part of `aabb` that lies in one chunk.
    fn clear_chunk(&mut self, key: ChunkKey, aabb: Aabb3u)
        requires
            old(self).wf(),
            key_in_range(key),
        ensures
            final(self).wf(),
            final(self).limits() == old(self).limits(),
            forall|k: ChunkKey, i: int| #[trigger]
                final(self).cell(k, i) == if k == key && Self::names(k, i, aabb) {
                    None
                } else {
                    old(self).cell(k, i)
                },
            forall|k: ChunkKey| #[trigger] final(self).allocated(k) ==> old(self).allocated(k),
            old(self).tidy() ==> forall|k: ChunkKey| #[trigger]
                final(self).allocated(k) ==> exists|i: int| (#[trigger] final(self).cell(k, i)) is Some,
    {
        if let Some((local_min, local_max)) = chunk_local_intersection(key, aabb) {
            match self.chunks.entry(key.pack()) {
                Entry::Occupied(mut occupied) => {
                    occupied.get_mut().clear_local_aabb(local_min, local_max);
                    if occupied.get().is_empty() {
                        occupied.remove();
                    }
                },
                Entry::Vacant(_) => {},
            }
            proof {
                assert forall|k: ChunkKey, i: int| #[trigger]
                    self.cell(k, i) == if k == key && Self::names(k, i, aabb) {
                        None
                    } else {
                        old(self).cell(k, i)
                    } by {
                    assert(in_region(i, local_min, local_max) <==> 0 <= i < 32768 && aabb.has(
                        cell_position(key, i),
                    ));
                }
                assert forall|k: ChunkKey| old(self).tidy() && #[trigger] self.allocated(
                    k,
                ) implies exists|i: int| (#[trigger] self.cell(k, i)) is Some by {
                    assert(old(self).allocated(k));
                    let i = choose|i: int| (#[trigger] old(self).cell(k, i)) is Some;
                    if k != key {
                        assert(self.cell(k, i) is Some);
                    } else {
                        let m = self.chunks@[packed(key)].presence();
                        let j = choose|j: int| #[trigger] m.has(j);
                        assert(self.cell(k, j) is Some);
                    }
                }
            }
        }
    }

    /// Clears all present voxels inside `aabb`, ignoring out-of-bounds portions.
    pub fn clear_aabb(&mut self, aabb: Aabb3u)
        requires
            old(self).wf(),
        ensures
            final(self).wf(),
            final(self).limits() == old(self).limits(),
            old(self).tidy() ==> final(self).tidy(),
            forall|p: UVec3| #[trigger]
                final(self).at(p) == if aabb.has(p) {
                    None
                } else {
                    old(self).at(p)
                },
            forall|key: ChunkKey, i: int|
                !key_in_range(key) ==> #[trigger] final(self).cell(key, i) == old(self).cell(
                    key,
                    i,
                ),
    {
        let clipped = match self.clip(aabb) {
            Some(clipped) => clipped,
            None => return,
        };
        let (min_key, max_key) = chunk_key_range_for_aabb(clipped);
        let mut key = min_key;
        let mut more = true;
        while more
            invariant
                self.wf(),
                self.limits() == old(self).limits(),
                max_key.x < 0x800_0000,
                max_key.y < 0x800_0000,
                max_key.z < 0x800_0000,
                key_between(key, min_key, max_key),
                old(self).tidy() ==> self.tidy(),
                forall|k: ChunkKey, i: int| #[trigger]
                    self.cell(k, i) == if Self::names(k, i, clipped) && walked(
                        k,
                        min_key,
                        max_key,
                        key,
                        more,
                    ) {
                        None
                    } else {
                        old(self).cell(k, i)
                    },
            decreases more as int, max_key.z - key.z, max_key.y - key.y, max_key.x - key.x,
        {
            let ghost before = *self;
            let ghost key0 = key;
            self.clear_chunk(key, clipped);
            more = advance_key(&mut key, min_key, max_key);
            proof {
                assert forall|k: ChunkKey, i: int| #[trigger]
                    self.cell(k, i) == if Self::names(k, i, clipped) && walked(
                        k,
                        min_key,
                        max_key,
                        key,
                        more,
                    ) {
                        None
                    } else {
                        old(self).cell(k, i)
                    } by {
                    assert(before.cell(k, i) == before.cell(k, i));
                    assert(walked(k, min_key, max_key, key, more) <==> walked(
                        k,
                        min_key,
                        max_key,
                        key0,
                        true,
                    ) || k == key0);
                }
                if old(self).tidy() {
                    assert forall|k: ChunkKey, i: int| (#[trigger] self.cell(
                        k,
                        i,
                    )) is Some implies inside(cell_position(k, i), self.limits()) by {
                        assert(before.cell(k, i) is Some);
                    }
                    assert forall|k: ChunkKey| #[trigger] self.allocated(k) implies key_in_range(
                        k,
                    ) by {
                        assert(before.allocated(k));
                    }
                }
            }
        }
        proof {
            assert forall|k: ChunkKey, i: int| #[trigger] Self::names(k, i, clipped) implies walked(
                k,
                min_key,
                max_key,
                key,
                more,
            ) by {
                lemma_cell_recomposes(k, i);
                assert(clipped.has(cell_position(k, i)));
            }
            assert forall|p: UVec3| #[trigger]
                self.at(p) == if aabb.has(p) {
                    None
                } else {
                    old(self).at(p)
                } by {
                lemma_position_decomposes(p);
                assert(Self::names(key_of(p), cell_of(p), clipped) <==> clipped.has(p));
            }
        }
    }

    /// True when at least one present voxel exists inside `aabb`.
    pub fn any_present_in_aabb(&self, aabb: Aabb3u) -> (b: bool)
        requires
            self.wf(),
        ensures
            b <==> exists|p: UVec3| aabb.has(p) && (#[trigger] self.at(p)) is Some,
    {
        let clipped = match self.clip(aabb) {
            Some(clipped) => clipped,
            None => return false,
        };
        let (min_key, max_key) = chunk_key_range_for_aabb(clipped);
        let mut key = min_key;
        let mut more = true;
        while more
            invariant
                self.wf(),
                max_key.x < 0x800_0000,
                max_key.y < 0x800_0000,
                max_key.z < 0x800_0000,
                key_between(key, min_key, max_key),
                forall|p: UVec3| #[trigger]
                    clipped.has(p) <==> aabb.has(p) && inside(p, self.limits()),
                forall|k: ChunkKey, i: int|
                    Self::names(k, i, clipped) && walked(k, min_key, max_key, key, more)
                        ==> #[trigger] self.cell(k, i) is None,
            decreases more as int, max_key.z - key.z, max_key.y - key.y, max_key.x - key.x,
        {
            let ghost key0 = key;
            if let Some(chunk) = self.chunks.get(&key.pack()) {
                if let Some((local_min, local_max)) = chunk_local_intersection(key, clipped) {
                    if chunk.any_present_local(local_min, local_max) {
                        proof {
                            let i = choose|i: int| #[trigger]
                                chunk.presence().has(i) && in_region(i, local_min, local_max);
                            let p = cell_position(key, i);
                            lemma_cell_recomposes(key, i);
                            assert(clipped.has(p));
                            assert(self.at(p) is Some);
                        }
                        return true;
                    }
                    proof {
                        assert forall|i: int| Self::names(key, i, clipped) implies #[trigger] self.cell(
                            key,
                            i,
                        ) is None by {
                            assert(in_region(i, local_min, local_max));
                            assert(!chunk.presence().has(i));
                        }
                    }
                }
            }
            more = advance_key(&mut key, min_key, max_key);
            proof {
                assert forall|k: ChunkKey, i: int|
                    Self::names(k, i, clipped) && walked(
                        k,
                        min_key,
                        max_key,
                        key,
                        more,
                    ) implies #[trigger] self.cell(k, i) is None by {
                    assert(k == key0 || walked(k, min_key, max_key, key0, true));
                }
            }
        }
        proof {
            assert forall|p: UVec3| aabb.has(p) implies (#[trigger] self.at(p)) is None by {
                if inside(p, self.limits()) {
                    assert(clipped.has(p));
                    lemma_position_decomposes(p);
                    assert(Self::names(key_of(p), cell_of(p), clipped));
                    assert(walked(key_of(p), min_key, max_key, key, more));
                }
            }
        }
        false
    }

    /// The present voxels inside `aabb` with their values: chunk by chunk, x-fastest among
    /// chunks and inside each chunk.
    pub fn for_each_present_in_aabb(&self, aabb: Aabb3u) -> (v: Vec<(UVec3, T)>)
        requires
            self.wf(),
        ensures
            forall|a: int|
                0 <= a < v@.len() ==> aabb.has((#[trigger] v@[a]).0) && self.at(v@[a].0) == Some(
                    v@[a].1,
                ),
            forall|p: UVec3|
                aabb.has(p) && (#[trigger] self.at(p)) is Some ==> v@.contains(
                    (p, self.at(p)->0),
                ),
            forall|a: int, b: int|
                0 <= a < b < v@.len() ==> visited_before((#[trigger] v@[a]).0, (#[trigger] v@[b]).0),
    {
        let mut out: Vec<(UVec3, T)> = Vec::new();
        let clipped = match self.clip(aabb) {
            Some(clipped) => clipped,
            None => return out,
        };
        let (min_key, max_key) = chunk_key_range_for_aabb(clipped);
        let mut key = min_key;
        let mut more = true;
        while more
            invariant
                self.wf(),
                max_key.x < 0x800_0000,
                max_key.y < 0x800_0000,
                max_key.z < 0x800_0000,
                key_between(key, min_key, max_key),
                forall|p: UVec3| #[trigger]
                    clipped.has(p) <==> aabb.has(p) && inside(p, self.limits()),
                forall|a: int|
                    0 <= a < out@.len() ==> aabb.has((#[trigger] out@[a]).0) && self.at(out@[a].0)
                        == Some(out@[a].1) && walked(
                        key_of(out@[a].0),
                        min_key,
                        max_key,
                        key,
                        more,
                    ),
                forall|a: int, b: int|
                    0 <= a < b < out@.len() ==> visited_before(
                        (#[trigger] out@[a]).0,
                        (#[trigger] out@[b]).0,
                    ),
                forall|p: UVec3|
                    clipped.has(p) && (#[trigger] self.at(p)) is Some && walked(
                        key_of(p),
                        min_key,
                        max_key,
                        key,
                        more,
                    ) ==> out@.contains((p, self.at(p)->0)),
            decreases more as int, max_key.z - key.z, max_key.y - key.y, max_key.x - key.x,
        {
            let ghost key0 = key;
            let ghost before = out@;
            self.list_chunk(key, clipped, &mut out);
            more = advance_key(&mut key, min_key, max_key);
            proof {
                assert forall|a: int| 0 <= a < out@.len() implies aabb.has((#[trigger] out@[a]).0)
                    && self.at(out@[a].0) == Some(out@[a].1) && walked(
                    key_of(out@[a].0),
                    min_key,
                    max_key,
                    key,
                    more,
                ) by {
                    if a < before.len() {
                        assert(out@[a] == before[a]);
                    } else {
                        assert(key_of(out@[a].0) == key0);
                        assert(clipped.has(out@[a].0));
                    }
                }
                assert forall|a: int, b: int| 0 <= a < b < out@.len() implies visited_before(
                    (#[trigger] out@[a]).0,
                    (#[trigger] out@[b]).0,
                ) by {
                    if b < before.len() {
                        assert(out@[a] == before[a] && out@[b] == before[b]);
                    } else if a < before.len() {
                        assert(out@[a] == before[a]);
                        assert(walked(key_of(before[a].0), min_key, max_key, key0, true));
                    }
                }
                assert forall|p: UVec3|
                    clipped.has(p) && (#[trigger] self.at(p)) is Some && walked(
                        key_of(p),
                        min_key,
                        max_key,
                        key,
                        more,
                    ) implies out@.contains((p, self.at(p)->0)) by {
                    if key_of(p) != key0 {
                        assert(walked(key_of(p), min_key, max_key, key0, true));
                        let a = choose|a: int|
                            0 <= a < before.len() && before[a] == (p, self.at(p)->0);
                        assert(before.contains((p, self.at(p)->0)));
                        assert(out@[a] == before[a]);
                    }
                }
            }
        }
        proof {
            assert forall|p: UVec3| aabb.has(p) && (#[trigger] self.at(p)) is Some implies out@.contains(
                (p, self.at(p)->0),
            ) by {
                assert(clipped.has(p));
                assert(walked(key_of(p), min_key, max_key, key, more));
            }
        }
        out
    }

    /// Appends the present voxels of one chunk that lie in `clipped`.
    fn list_chunk(&self, key: ChunkKey, clipped: Aabb3u, out: &mut Vec<(UVec3, T)>)
        requires
            self.wf(),
            key_in_range(key),
            forall|p: UVec3| #[trigger] clipped.has(p) ==> inside(p, self.limits()),
        ensures
            final(out)@.len() >= old(out)@.len(),
            forall|a: int| 0 <= a < old(out)@.len() ==> #[trigger] final(out)@[a] == old(out)@[a],
            forall|a: int|
                old(out)@.len() <= a < final(out)@.len() ==> {
                    &&& clipped.has((#[trigger] final(out)@[a]).0)
                    &&& key_of(final(out)@[a].0) == key
                    &&& self.at(final(out)@[a].0) == Some(final(out)@[a].1)
                },
            forall|a: int, b: int|
                old(out)@.len() <= a < b < final(out)@.len() ==> cell_of(
                    (#[trigger] final(out)@[a]).0,
                ) < cell_of((#[trigger] final(out)@[b]).0),
            forall|p: UVec3|
                clipped.has(p) && key_of(p) == key && (#[trigger] self.at(p)) is Some ==> final(
                    out)@.contains((p, self.at(p)->0)),
    {
        let ghost start = out@;
        let chunk = match self.chunks.get(&key.pack()) {
            Some(chunk) => chunk,
            None => return,
        };
        let (local_min, local_max) = match chunk_local_intersection(key, clipped) {
            Some(local) => local,
            None => {
                proof {
                    assert forall|p: UVec3| key_of(p) == key implies !(#[trigger] clipped.has(p)) by {
                        lemma_position_decomposes(p);
                        assert(!clipped.has(cell_position(key, cell_of(p))));
                    }
                }
                return;
            },
        };
        let chunk_min = key.world_min();
        let present = chunk.for_each_present_local(local_min, local_max);
        let mut k: usize = 0;
        while k < present.len()
            invariant
                k <= present@.len(),
                self.wf(),
                key_in_range(key),
                chunk_min == chunk_origin(key),
                chunk_min.x <= 0xffff_ffe0,
                chunk_min.y <= 0xffff_ffe0,
                chunk_min.z <= 0xffff_ffe0,
                self.chunks@.contains_key(packed(key)),
                *chunk == self.chunks@[packed(key)],
                forall|p: UVec3| #[trigger] clipped.has(p) ==> inside(p, self.limits()),
                forall|i: int| #[trigger]
                    in_region(i, local_min, local_max) <==> 0 <= i < 32768 && clipped.has(
                        cell_position(key, i),
                    ),
                forall|a: int, b: int| 0 <= a < b < present@.len() ==> present@[a].0 < present@[b].0,
                forall|a: int|
                    0 <= a < present@.len() ==> in_region(
                        (#[trigger] present@[a]).0 as int,
                        local_min,
                        local_max,
                    ) && chunk.at(present@[a].0 as int) == Some(present@[a].1),
                out@.len() == start.len() + k,
                forall|a: int| 0 <= a < start.len() ==> #[trigger] out@[a] == start[a],
                forall|a: int|
                    start.len() <= a < out@.len() ==> {
                        &&& clipped.has((#[trigger] out@[a]).0)
                        &&& key_of(out@[a].0) == key
                        &&& cell_of(out@[a].0) == present@[a - start.len()].0
                        &&& out@[a].1 == present@[a - start.len()].1
                        &&& self.at(out@[a].0) == Some(out@[a].1)
                    },
            decreases present@.len() - k,
        {
            let (idx, value) = present[k];
            assert(in_region(present@[k as int].0 as int, local_min, local_max));
            let local = local_from_index(idx);
            let world = add_uvec3(chunk_min, local);
            proof {
                lemma_cell_position(key, idx as int);
                lemma_cell_recomposes(key, idx as int);
                assert(world == cell_position(key, idx as int));
                assert(clipped.has(world));
            }
            out.push((world, value));
            k += 1;
        }
        proof {
            assert forall|p: UVec3|
                clipped.has(p) && key_of(p) == key && (#[trigger] self.at(p)) is Some
                    implies out@.contains(
                (p, self.at(p)->0),
            ) by {
                lemma_position_decomposes(p);
                let i = cell_of(p);
                assert(in_region(i, local_min, local_max));
                assert(chunk.presence().has(i));
                assert(present@.contains((i as usize, chunk.at(i)->0)));
                let a = choose|a: int|
                    0 <= a < present@.len() && present@[a] == (i as usize, chunk.at(i)->0);
                let b = a + start.len();
                lemma_position_decomposes(out@[b].0);
                assert(out@[b] == (p, self.at(p)->0));
            }
        }
    }

    /// Merges `src` into `self`.
    ///
    /// Every present source voxel overwrites the destination. Missing source voxels
    /// leave the destination unchanged. Source voxels outside destination bounds
    /// are ignored.
    pub fn union_replace_from(&mut self, src: &Self)
        requires
            old(self).wf(),
            src.wf(),
            lawful::<T>(),
        ensures
            final(self).wf(),
            final(self).limits() == old(self).limits(),
            old(self).tidy() && src.tidy() ==> final(self).tidy(),
            src.tidy() ==> forall|p: UVec3|
                same_cell(
                    if inside(p, old(self).limits()) && src.at(p) is Some {
                        src.at(p)
                    } else {
                        old(self).at(p)
                    },
                    #[trigger] final(self).at(p),
                ),
            forall|key: ChunkKey, i: int|
                same_cell(
                    if src.cell(key, i) is Some && inside(cell_position(key, i), old(self).limits()) {
                        src.cell(key, i)
                    } else {
                        old(self).cell(key, i)
                    },
                    #[trigger] final(self).cell(key, i),
                ),
    {
        let keys = key_list(&src.chunks);
        let dst_bounds = self.bounds_aabb();
        let mut n: usize = 0;
        proof {
            assert forall|key: ChunkKey, i: int| same_cell(
                old(self).cell(key, i),
                #[trigger] self.cell(key, i),
            ) by {}
        }
        while n < keys.len()
            invariant
                n <= keys@.len(),
                self.wf(),
                src.wf(),
                lawful::<T>(),
                self.limits() == old(self).limits(),
                forall|p: UVec3| #[trigger] dst_bounds.has(p) <==> inside(p, self.limits()),
                keys@.no_duplicates(),
                forall|a: int| 0 <= a < keys@.len() ==> src.chunks@.contains_key(#[trigger] keys@[a]),
                forall|key: ChunkKey, i: int|
                    same_cell(
                        if src.cell(key, i) is Some && inside(
                            cell_position(key, i),
                            old(self).limits(),
                        ) && keys@.subrange(0, n as int).contains(packed(key)) {
                            src.cell(key, i)
                        } else {
                            old(self).cell(key, i)
                        },
                        #[trigger] self.cell(key, i),
                    ),
                forall|key: ChunkKey| #[trigger]
                    self.allocated(key) ==> old(self).allocated(key) || (src.allocated(key)
                        && exists|i: int| (#[trigger] self.cell(key, i)) is Some),
            decreases keys@.len() - n,
        {
            let k = keys[n];
            assert(src.chunks@.contains_key(keys@[n as int]));
            let key = ChunkKey::unpack(k);
            let ghost before = *self;
            if let Some(src_chunk) = src.chunks.get(&k) {
                self.union_chunk(key, src_chunk, dst_bounds);
            }
            proof {
                let seen = keys@.subrange(0, n as int);
                let next = keys@.subrange(0, n + 1);
                assert(next =~= seen.push(k));
                assert(!seen.contains(k)) by {
                    if seen.contains(k) {
                        let a = choose|a: int| 0 <= a < seen.len() && seen[a] == k;
                        assert(keys@[a] == keys@[n as int]);
                    }
                }
                assert forall|kk: ChunkKey| #[trigger] next.contains(packed(kk)) <==> seen.contains(
                    packed(kk),
                ) || kk == key by {
                    if seen.contains(packed(kk)) {
                        let a = choose|a: int| 0 <= a < seen.len() && seen[a] == packed(kk);
                        assert(next[a] == packed(kk));
                    }
                    if kk == key {
                        assert(next[n as int] == k);
                    }
                }
                assert forall|kk: ChunkKey, i: int| same_cell(
                    if src.cell(kk, i) is Some && inside(cell_position(kk, i), old(self).limits())
                        && next.contains(packed(kk)) {
                        src.cell(kk, i)
                    } else {
                        old(self).cell(kk, i)
                    },
                    #[trigger] self.cell(kk, i),
                ) by {
                    assert(next.contains(packed(kk)) <==> seen.contains(packed(kk)) || kk == key);
                    let want0 = if src.cell(kk, i) is Some && inside(
                        cell_position(kk, i),
                        old(self).limits(),
                    ) && seen.contains(packed(kk)) {
                        src.cell(kk, i)
                    } else {
                        old(self).cell(kk, i)
                    };
                    assert(same_cell(want0, before.cell(kk, i)));
                    if kk == key && src.cell(kk, i) is Some && inside(
                        cell_position(kk, i),
                        old(self).limits(),
                    ) {
                        assert(dst_bounds.has(cell_position(kk, i)));
                    } else {
                        lemma_same_cell_transitive(want0, before.cell(kk, i), self.cell(kk, i));
                    }
                }
                assert forall|kk: ChunkKey| #[trigger] self.allocated(kk)
                    implies old(self).allocated(kk) || (
                src.allocated(kk) && exists|i: int| (#[trigger] self.cell(kk, i)) is Some) by {
                    if before.allocated(kk) && !old(self).allocated(kk) {
                        let i = choose|i: int| (#[trigger] before.cell(kk, i)) is Some;
                        assert(self.cell(kk, i) is Some);
                    }
                }
            }
            n += 1;
        }
        proof {
            assert(keys@.subrange(0, n as int) =~= keys@);
            assert forall|key: ChunkKey, i: int| src.cell(key, i) is Some implies keys@.contains(
                #[trigger] packed(key),
            ) || #[trigger] self.cell(key, i) is None by {
                assert(src.chunks@.contains_key(packed(key)));
            }
            assert forall|key: ChunkKey, i: int| same_cell(
                if src.cell(key, i) is Some && inside(cell_position(key, i), old(self).limits()) {
                    src.cell(key, i)
                } else {
                    old(self).cell(key, i)
                },
                #[trigger] self.cell(key, i),
            ) by {
                if src.cell(key, i) is Some {
                    assert(src.chunks@.contains_key(packed(key)));
                    assert(keys@.contains(packed(key)));
                }
            }
            if src.tidy() {
                assert forall|p: UVec3| same_cell(
                    if inside(p, old(self).limits()) && src.at(p) is Some {
                        src.at(p)
                    } else {
                        old(self).at(p)
                    },
                    #[trigger] self.at(p),
                ) by {
                    lemma_position_decomposes(p);
                    assert(src.cell(key_of(p), cell_of(p)) is Some ==> inside(p, src.limits()));
                }
            }
            if src.tidy() && old(self).tidy() {
                assert forall|k: ChunkKey| #[trigger] self.allocated(k) implies key_in_range(k)
                    && exists|i: int| (#[trigger] self.cell(k, i)) is Some by {
                    if old(self).allocated(k) {
                        let i = choose|i: int| (#[trigger] old(self).cell(k, i)) is Some;
                        assert(self.cell(k, i) is Some);
                    }
                }
            }
        }
    }

    /// Merges the part of one source chunk inside `dst_bounds`.
    fn union_chunk(&mut self, key: ChunkKey, src_chunk: &Chunk<T>, dst_bounds: Aabb3u)
        requires
            old(self).wf(),
            src_chunk.wf(),
            lawful::<T>(),
        ensures
            final(self).wf(),
            final(self).limits() == old(self).limits(),
            forall|i: int|
                same_cell(
                    if src_chunk.at(i) is Some && dst_bounds.has(cell_position(key, i)) {
                        src_chunk.at(i)
                    } else {
                        old(self).cell(key, i)
                    },
                    #[trigger] final(self).cell(key, i),
                ),
            forall|k: ChunkKey, i: int|
                k != key ==> #[trigger] final(self).cell(k, i) == old(self).cell(k, i),
            forall|k: ChunkKey| #[trigger]
                final(self).allocated(k) ==> old(self).allocated(k) || (k == key && exists|i: int|
                    (#[trigger] final(self).cell(key, i)) is Some),
    {
        let (local_min, local_max) = match chunk_local_intersection(key, dst_bounds) {
            Some(local) => local,
            None => return,
        };
        proof {
            assert forall|i: int| #[trigger] src_chunk.presence().has(i) implies (in_region(
                i,
                local_min,
                local_max,
            ) <==> dst_bounds.has(cell_position(key, i))) by {}
        }
        if !src_chunk.any_present_local(local_min, local_max) {
            return;
        }
        match self.chunks.entry(key.pack()) {
            Entry::Occupied(mut occupied) => {
                occupied.get_mut().overlay_local(src_chunk, local_min, local_max);
            },
            Entry::Vacant(vacant) => {
                if let Some(value) = src_chunk.uniform_value_if_all_present(local_min, local_max) {
                    let mut mask = BitMask::empty();
                    mask.set_aabb(local_min, local_max);
                    vacant.insert(Chunk::Uniform { value, mask });
                } else if let Some(chunk) = src_chunk.copy_present_local(local_min, local_max) {
                    vacant.insert(chunk);
                }
            },
        }
        proof {
            let i = choose|i: int| #[trigger]
                src_chunk.presence().has(i) && in_region(i, local_min, local_max);
            assert forall|i: int| same_cell(
                if src_chunk.at(i) is Some && dst_bounds.has(cell_position(key, i)) {
                    src_chunk.at(i)
                } else {
                    old(self).cell(key, i)
                },
                #[trigger] self.cell(key, i),
            ) by {
                assert(in_region(i, local_min, local_max) ==> 0 <= i < 32768 && dst_bounds.has(
                    cell_position(key, i),
                ));
            }
            assert(self.cell(key, i) is Some);
        }
    }

    /// Removes destination voxels whenever any corresponding fine-mask voxel is present.
    ///
    /// `scale` maps one destination voxel to a `scale x scale x scale` AABB in
    /// `fine_mask` coordinates:
    ///
    /// ```text
    /// dst voxel p -> fine AABB
    ///     [p * scale + translation, (p + 1) * scale + translation)
    /// ```
    ///
    /// `translation` is signed so grids with different logical index origins can
    /// be related without first rebasing either grid. Portions of the transformed
    /// AABB outside `fine_mask` are clipped.
    ///
    /// Returns the number of destination voxels removed. A scale of zero is a no-op.
    pub fn mask_out_by_presence_scaled<M: Copy + PartialEq>(
        &mut self,
        fine_mask: &SparseGrid3<M>,
        scale: u32,
        translation: I64Vec3,
    ) -> (removed: usize)
        requires
            old(self).wf(),
            fine_mask.wf(),
        ensures
            final(self).wf(),
            final(self).limits() == old(self).limits(),
            old(self).tidy() ==> final(self).tidy(),
            forall|p: UVec3| #[trigger]
                final(self).at(p) == if shadowed(*fine_mask, scale, translation, p) {
                    None
                } else {
                    old(self).at(p)
                },
            forall|p: UVec3|
                (#[trigger] final(self).at(p)) is Some <==> old(self).at(p) is Some && !(exists|
                    q: UVec3,
                |
                    (#[trigger] fine_mask.at(q)) is Some && p.x * scale + translation.x <= q.x < (
                    p.x + 1) * scale + translation.x && p.y * scale + translation.y <= q.y < (p.y
                        + 1) * scale + translation.y && p.z * scale + translation.z <= q.z < (p.z
                        + 1) * scale + translation.z),
            forall|key: ChunkKey, i: int| #[trigger]
                final(self).cell(key, i) == if inside(cell_position(key, i), old(self).limits())
                    && shadowed(*fine_mask, scale, translation, cell_position(key, i)) {
                    None
                } else {
                    old(self).cell(key, i)
                },
            old(self).lost(*final(self)).finite(),
            removed == if old(self).lost(*final(self)).len() > usize::MAX {
                usize::MAX as nat
            } else {
                old(self).lost(*final(self)).len()
            },
            old(self).tidy() ==> {
                let gone = Set::new(|p: UVec3| old(self).at(p) is Some && final(self).at(p) is None);
                gone.finite() && gone.len() == old(self).lost(*final(self)).len()
            },
    {
        proof {
            assert(old(self).lost(*old(self)) =~= Set::empty());
        }
        if scale == 0 || fine_mask.is_empty() || self.is_empty() {
            proof {
                if self.allocated_len() == 0 {
                    assert(self.chunks@.dom() =~= Set::empty());
                }
                assert forall|p: UVec3| old(self).at(p) is Some implies !shadowed(
                    *fine_mask,
                    scale,
                    translation,
                    p,
                ) by {
                    lemma_no_shadow(*fine_mask, scale, translation, p);
                }
                assert forall|key: ChunkKey, i: int| #[trigger]
                    self.cell(key, i) is Some implies !shadowed(
                    *fine_mask,
                    scale,
                    translation,
                    cell_position(key, i),
                ) by {
                    lemma_no_shadow(*fine_mask, scale, translation, cell_position(key, i));
                }
                assert(Set::new(|p: UVec3| old(self).at(p) is Some && self.at(p) is None)
                    =~= Set::empty());
            }
            return 0;
        }
        let keys = key_list(&self.chunks);
        let dst_bounds = self.bounds_aabb();
        let mut removed: usize = 0;
        let mut n: usize = 0;
        while n < keys.len()
            invariant
                n <= keys@.len(),
                scale > 0,
                self.wf(),
                fine_mask.wf(),
                self.limits() == old(self).limits(),
                forall|p: UVec3| #[trigger] dst_bounds.has(p) <==> inside(p, self.limits()),
                keys@.no_duplicates(),
                forall|a: int| 0 <= a < keys@.len()
                    ==> old(self).chunks@.contains_key(#[trigger] keys@[a]),
                old(self).wf(),
                forall|key: ChunkKey, i: int| #[trigger]
                    self.cell(key, i) == if inside(cell_position(key, i), old(self).limits())
                        && shadowed(*fine_mask, scale, translation, cell_position(key, i))
                        && keys@.subrange(0, n as int).contains(packed(key)) {
                        None
                    } else {
                        old(self).cell(key, i)
                    },
                forall|key: ChunkKey| #[trigger] self.allocated(key) ==> old(self).allocated(key),
                old(self).tidy() ==> forall|key: ChunkKey| #[trigger]
                    self.allocated(key) ==> exists|i: int| (#[trigger] self.cell(key, i)) is Some,
                old(self).lost(*self).finite(),
                removed == if old(self).lost(*self).len() > usize::MAX {
                    usize::MAX as nat
                } else {
                    old(self).lost(*self).len()
                },
            decreases keys@.len() - n,
        {
            let k = keys[n];
            assert(old(self).chunks@.contains_key(keys@[n as int]));
            let key = ChunkKey::unpack(k);
            let ghost before = *self;
            let chunk_removed = self.mask_chunk(key, dst_bounds, fine_mask, scale, translation);
            removed = removed.saturating_add(chunk_removed);
            proof {
                let seen = keys@.subrange(0, n as int);
                let next = keys@.subrange(0, n + 1);
                assert(next =~= seen.push(k));
                assert forall|kk: ChunkKey| #[trigger] next.contains(packed(kk)) <==> seen.contains(
                    packed(kk),
                ) || kk == key by {
                    if seen.contains(packed(kk)) {
                        let a = choose|a: int| 0 <= a < seen.len() && seen[a] == packed(kk);
                        assert(next[a] == packed(kk));
                    }
                    if kk == key {
                        assert(next[n as int] == k);
                    }
                }
                assert forall|kk: ChunkKey, i: int| #[trigger]
                    self.cell(kk, i) == if inside(cell_position(kk, i), old(self).limits())
                        && shadowed(*fine_mask, scale, translation, cell_position(kk, i))
                        && next.contains(packed(kk)) {
                        None
                    } else {
                        old(self).cell(kk, i)
                    } by {
                    assert(next.contains(packed(kk)) <==> seen.contains(packed(kk)) || kk == key);
                    assert(before.cell(kk, i) == before.cell(kk, i));
                    assert(dst_bounds.has(cell_position(kk, i)) <==> inside(
                        cell_position(kk, i),
                        old(self).limits(),
                    ));
                }
                let a = old(self).lost(before);
                let b = before.lost(*self);
                assert forall|c: (ChunkKey, int)| #[trigger] old(self).lost(*self).contains(c)
                    <==> a.contains(c) || b.contains(c) by {
                    assert(self.cell(c.0, c.1) is None || self.cell(c.0, c.1) is Some);
                    assert(before.cell(c.0, c.1) is None || before.cell(c.0, c.1) is Some);
                }
                assert(old(self).lost(*self) =~= a.union(b));
                assert(a.disjoint(b));
                vstd::set_lib::lemma_set_disjoint_lens(a, b);
                assert forall|kk: ChunkKey| old(self).tidy() && #[trigger] self.allocated(
                    kk,
                ) implies exists|i: int| (#[trigger] self.cell(kk, i)) is Some by {
                    assert(before.allocated(kk));
                    if kk != key {
                        let i = choose|i: int| (#[trigger] before.cell(kk, i)) is Some;
                        assert(self.cell(kk, i) is Some);
                    }
                }
            }
            n += 1;
        }
        proof {
            assert(keys@.subrange(0, n as int) =~= keys@);
            assert forall|key: ChunkKey, i: int| #[trigger]
                self.cell(key, i) == if inside(cell_position(key, i), old(self).limits())
                    && shadowed(*fine_mask, scale, translation, cell_position(key, i)) {
                    None
                } else {
                    old(self).cell(key, i)
                } by {
                if old(self).cell(key, i) is Some {
                    assert(old(self).chunks@.contains_key(packed(key)));
                    assert(keys@.contains(packed(key)));
                }
            }
            assert forall|p: UVec3| #[trigger]
                self.at(p) == if shadowed(*fine_mask, scale, translation, p) {
                    None
                } else {
                    old(self).at(p)
                } by {
                lemma_position_decomposes(p);
            }
            if old(self).tidy() {
                let gone = Set::new(|p: UVec3| old(self).at(p) is Some && self.at(p) is None);
                assert forall|c: (ChunkKey, int)| #[trigger] old(self).lost(*self).contains(c) implies
                    key_in_range(c.0) && 0 <= c.1 < 32768 && gone.contains(
                        cell_position(c.0, c.1),
                    ) by {
                    assert(old(self).cell(c.0, c.1) is Some);
                    assert(old(self).allocated(c.0));
                    lemma_cell_recomposes(c.0, c.1);
                }
                assert forall|p: UVec3| #[trigger] gone.contains(p) implies old(self).lost(
                    *self,
                ).contains((key_of(p), cell_of(p))) by {}
                lemma_cells_as_voxels(old(self).lost(*self), gone);
            }
        }
        removed
    }

    /// Masks out one chunk. Returns the number of voxels removed.
    fn mask_chunk<M: Copy + PartialEq>(
        &mut self,
        key: ChunkKey,
        dst_bounds: Aabb3u,
        fine_mask: &SparseGrid3<M>,
        scale: u32,
        translation: I64Vec3,
    ) -> (removed: usize)
        requires
            old(self).wf(),
            fine_mask.wf(),
            scale > 0,
        ensures
            final(self).wf(),
            final(self).limits() == old(self).limits(),
            forall|k: ChunkKey, i: int| #[trigger]
                final(self).cell(k, i) == if k == key && dst_bounds.has(cell_position(k, i))
                    && shadowed(*fine_mask, scale, translation, cell_position(k, i)) {
                    None
                } else {
                    old(self).cell(k, i)
                },
            forall|k: ChunkKey| #[trigger] final(self).allocated(k) ==> old(self).allocated(k),
            (exists|i: int| (#[trigger] old(self).cell(key, i)) is Some) && final(self).allocated(key)
                ==> exists|i: int| (#[trigger] final(self).cell(key, i)) is Some,
            old(self).lost(*final(self)).finite(),
            removed == old(self).lost(*final(self)).len(),
    {
        let (local_min, local_max) = match chunk_local_intersection(key, dst_bounds) {
            Some(local) => local,
            None => {
                proof {
                    assert(old(self).lost(*old(self)) =~= Set::empty());
                    assert forall|i: int| (#[trigger] old(self).cell(key, i)) is Some
                        implies !dst_bounds.has(
                        cell_position(key, i),
                    ) by {}
                }
                return 0;
            },
        };
        let chunk_min = key.world_min();
        let pred = |idx: usize| -> (b: bool)
            requires
                idx < 32768,
            ensures
                b == shadowed(*fine_mask, scale, translation, cell_position(key, idx as int)),
            {
                let local = local_from_index(idx);
                let coarse_pos = add_uvec3(chunk_min, local);
                proof {
                    lemma_cell_position(key, idx as int);
                    assert(coarse_pos == cell_position(key, idx as int));
                }
                is_shadowed(fine_mask, scale, translation, coarse_pos)
            };
        let removed = match self.chunks.entry(key.pack()) {
            Entry::Occupied(mut occupied) => {
                let removed = occupied.get_mut().clear_where_present(local_min, local_max, pred);
                if occupied.get().is_empty() {
                    occupied.remove();
                }
                removed
            },
            Entry::Vacant(_) => 0,
        };
        proof {
            assert forall|k: ChunkKey, i: int| #[trigger]
                self.cell(k, i) == if k == key && dst_bounds.has(cell_position(k, i)) && shadowed(
                    *fine_mask,
                    scale,
                    translation,
                    cell_position(k, i),
                ) {
                    None
                } else {
                    old(self).cell(k, i)
                } by {
                assert(in_region(i, local_min, local_max) <==> 0 <= i < 32768 && dst_bounds.has(
                    cell_position(key, i),
                ));
                if k == key && old(self).allocated(key) {
                    let c = old(self).chunks@[packed(key)];
                    assert(c.presence().has(i) || !c.presence().has(i));
                    if self.allocated(key) {
                        let d = self.chunks@[packed(key)];
                        assert(d.presence().has(i) || !d.presence().has(i));
                    }
                }
            }
            if old(self).allocated(key) {
                let c = old(self).chunks@[packed(key)].presence().cells();
                let d = if self.allocated(key) {
                    self.chunks@[packed(key)].presence().cells()
                } else {
                    Set::empty()
                };
                let gone = c.difference(d);
                let lost = old(self).lost(*self);
                assert(gone.finite() && gone.len() == removed) by {
                    if !self.allocated(key) {
                        assert(d =~= Set::<int>::empty());
                    }
                }
                let f = |i: int| (key, i);
                assert(lost =~= gone.map(f)) by {
                    assert forall|x: (ChunkKey, int)| #[trigger] lost.contains(x) <==> gone.map(
                        f,
                    ).contains(x) by {
                        if lost.contains(x) {
                            assert(self.cell(x.0, x.1) is None);
                            assert(x.0 == key);
                            assert(gone.contains(x.1));
                            assert(f(x.1) == x);
                        }
                        if gone.map(f).contains(x) {
                            let i = choose|i: int| gone.contains(i) && f(i) == x;
                            assert(self.cell(key, i) is None);
                            assert(old(self).cell(key, i) is Some);
                        }
                    }
                }
                gone.lemma_map_finite(f);
                vstd::set_lib::lemma_map_size(gone, lost, f);
            } else {
                assert(old(self).lost(*self) =~= Set::empty());
            }
            if self.allocated(key) && (exists|i: int| (#[trigger] old(self).cell(key, i)) is Some) {
                let m = self.chunks@[packed(key)].presence();
                let j = choose|j: int| #[trigger] m.has(j);
                assert(self.cell(key, j) is Some);
            }
        }
        removed
    }

    /// The cells that hold a voxel here and none in `other`.
    pub open spec fn lost(self, other: Self) -> Set<(ChunkKey, int)> {
        Set::new(|c: (ChunkKey, int)| self.cell(c.0, c.1) is Some && other.cell(c.0, c.1) is None)
    }
}

/// Position of `p` in the x-fastest slice that covers `aabb`.
pub open spec fn slot(aabb: Aabb3u, p: UVec3) -> int {
    slice_number(
        p.x - aabb.min.x,
        p.y - aabb.min.y,
        p.z - aabb.min.z,
        aabb.edges().x as int,
        aabb.edges().y as int,
    )
}

/// `p` comes before `q` in a voxel walk: by chunk, then by cell number.
pub open spec fn visited_before(p: UVec3, q: UVec3) -> bool {
    key_before(key_of(p), key_of(q)) || (key_of(p) == key_of(q) && cell_of(p) < cell_of(q))
}

/// Some voxel of `fine` lies in the span of the coarse voxel `p`.
pub open spec fn shadowed<M: Copy + PartialEq>(
    fine: SparseGrid3<M>,
    scale: u32,
    translation: I64Vec3,
    p: UVec3,
) -> bool {
    exists|q: UVec3|
        voxel_span(p, scale, translation, q) && (#[trigger] fine.at(q)) is Some
}

/// True when some voxel of `fine` lies in the span of the coarse voxel `p`.
fn is_shadowed<M: Copy + PartialEq>(
    fine: &SparseGrid3<M>,
    scale: u32,
    translation: I64Vec3,
    p: UVec3,
) -> (b: bool)
    requires
        fine.wf(),
        scale > 0,
    ensures
        b == shadowed(*fine, scale, translation, p),
{
    match scaled_voxel_aabb_in_fine_grid(
        p,
        scale,
        translation,
        fine.bounds(),
    ) {
        None => {
            proof {
                assert forall|q: UVec3| voxel_span(p, scale, translation, q)
                    implies (#[trigger] fine.at(q)) is None by {}
            }
            false
        },
        Some(mask_aabb) => {
            let any = fine.any_present_in_aabb(mask_aabb);
            proof {
                if any {
                    let q = choose|q: UVec3|
                        mask_aabb.has(q) && (#[trigger] fine.at(q)) is Some;
                    assert(voxel_span(p, scale, translation, q)
                        && fine.at(q) is Some);
                } else {
                    assert forall|q: UVec3|
                        voxel_span(p, scale, translation, q) implies (
                    #[trigger] fine.at(q)) is None by {
                        assert(inside(q, fine.limits()) ==> mask_aabb.has(q));
                    }
                }
            }
            any
        },
    }
}

/// An empty mask, or a scale of zero, casts no shadow.
proof fn lemma_no_shadow<M: Copy + PartialEq>(
    fine: SparseGrid3<M>,
    scale: u32,
    translation: I64Vec3,
    p: UVec3,
)
    requires
        scale == 0 || forall|key: ChunkKey, i: int| #[trigger] fine.cell(key, i) is None,
    ensures
        !shadowed(fine, scale, translation, p),
{
    if scale == 0 {
        assert forall|q: UVec3| !voxel_span(p, scale, translation, q) by {
            assert(p.x * 0 == 0 && (p.x + 1) * 0 == 0);
        }
    }
}

/// Cells of in-range chunks and the positions that they name are equal in number.
proof fn lemma_cells_as_voxels(cells: Set<(ChunkKey, int)>, voxels: Set<UVec3>)
    requires
        cells.finite(),
        forall|c: (ChunkKey, int)| #[trigger]
            cells.contains(c) ==> key_in_range(c.0) && 0 <= c.1 < 32768 && voxels.contains(
                cell_position(c.0, c.1),
            ),
        forall|p: UVec3| #[trigger]
            voxels.contains(p) ==> cells.contains((key_of(p), cell_of(p))),
    ensures
        voxels.finite(),
        voxels.len() == cells.len(),
{
    let f = |c: (ChunkKey, int)| cell_position(c.0, c.1);
    assert forall|p: UVec3| #[trigger] voxels.contains(p) <==> cells.map(f).contains(p) by {
        if voxels.contains(p) {
            lemma_position_decomposes(p);
            assert(f((key_of(p), cell_of(p))) == p);
        }
        if cells.map(f).contains(p) {
            let c = choose|c: (ChunkKey, int)| cells.contains(c) && f(c) == p;
            assert(cells.contains(c));
        }
    }
    assert(voxels =~= cells.map(f));
    cells.lemma_map_finite(f);
    assert forall|c: (ChunkKey, int), d: (ChunkKey, int)|
        cells.contains(c) && cells.contains(d) && #[trigger] f(c) == #[trigger] f(d) implies c
        == d by {
        lemma_cell_recomposes(c.0, c.1);
        lemma_cell_recomposes(d.0, d.1);
    }
    vstd::set_lib::lemma_map_size(cells, voxels, f);
}

} // verus!
