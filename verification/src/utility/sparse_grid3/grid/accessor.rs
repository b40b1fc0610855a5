//! Accessors for repeated voxel queries.

use vstd::prelude::*;

use crate::utility::sparse_grid3::chunk::Chunk;
use crate::utility::sparse_grid3::grid::{inside, SparseGrid3};
use crate::utility::sparse_grid3::layout::{
    lemma_packed, local_index_vec, local_pos, packed, ChunkKey,
};
use crate::utility::sparse_grid3::value::{lawful, same_cell};
use crate::vec3::UVec3;

verus! {

broadcast use {vstd::std_specs::hash::group_hash_axioms, lemma_packed};

/// Cached read accessor. When queries stay inside the same chunk, this avoids
/// repeated hash-map lookups.
pub struct GridAccessor<'a, T: Copy + PartialEq> {
    grid: &'a SparseGrid3<T>,
    cached_key: Option<ChunkKey>,
    cached_chunk: Option<&'a Chunk<T>>,
}

impl<'a, T: Copy + PartialEq> GridAccessor<'a, T> {
    /// The grid that is read.
    pub closed spec fn source(self) -> SparseGrid3<T> {
        *self.grid
    }

    /// The cache holds what the grid stores under the cached key.
    pub closed spec fn wf(self) -> bool {
        &&& self.grid.wf()
        &&& self.cached_key matches Some(key) ==> {
            &&& self.cached_chunk is Some <==> self.grid.chunks@.contains_key(packed(key))
            &&& self.cached_chunk matches Some(chunk) ==> *chunk == self.grid.chunks@[packed(key)]
        }
    }

    /// An accessor with nothing cached.
    pub fn new(grid: &'a SparseGrid3<T>) -> (r: Self)
        requires
            grid.wf(),
        ensures
            r.wf(),
            r.source() == *grid,
    {
        GridAccessor { grid, cached_key: None, cached_chunk: None }
    }

    /// Return a copied value, reusing the cached chunk when possible.
    pub fn get(&mut self, pos: UVec3) -> (r: Option<T>)
        requires
            old(self).wf(),
        ensures
            final(self).wf(),
            final(self).source() == old(self).source(),
            r == old(self).source().at(pos),
    {
        if !self.grid.is_in_bounds(pos) {
            return None;
        }
        let key = ChunkKey::from_pos(pos);
        let hit = match self.cached_key {
            Some(cached) => cached == key,
            None => false,
        };
        if !hit {
            self.cached_key = Some(key);
            self.cached_chunk = self.grid.chunks.get(&key.pack());
        }
        let idx = local_index_vec(local_pos(pos));
        match self.cached_chunk {
            Some(chunk) => chunk.get_index(idx),
            None => None,
        }
    }

    /// True when the coordinate is present, reusing the cached chunk when possible.
    pub fn contains(&mut self, pos: UVec3) -> (b: bool)
        requires
            old(self).wf(),
        ensures
            final(self).wf(),
            final(self).source() == old(self).source(),
            b == old(self).source().at(pos) is Some,
    {
        self.get(pos).is_some()
    }
}

/// Mutable grid accessor. Mutation is delegated to `SparseGrid3` methods.
pub struct GridAccessorMut<'a, T: Copy + PartialEq> {
    pub grid: &'a mut SparseGrid3<T>,
}

impl<'a, T: Copy + PartialEq> GridAccessorMut<'a, T> {
    /// The grid as it stands.
    pub open spec fn current(self) -> SparseGrid3<T> {
        *self.grid
    }

    /// An accessor to `grid`.
    pub fn new(grid: &'a mut SparseGrid3<T>) -> (r: Self)
        ensures
            *r.grid == *old(grid),
            *final(r.grid) == *final(grid),
    {
        GridAccessorMut { grid }
    }

    /// Return a copied value from the underlying grid.
    pub fn get(&self, pos: UVec3) -> (r: Option<T>)
        requires
            self.grid.wf(),
        ensures
            r == self.current().at(pos),
    {
        self.grid.get(pos)
    }

    /// True when the coordinate is present in the underlying grid.
    pub fn contains(&self, pos: UVec3) -> (b: bool)
        requires
            self.grid.wf(),
        ensures
            b == self.current().at(pos) is Some,
    {
        self.grid.contains(pos)
    }

    /// Set one voxel in the underlying grid.
    pub fn set(&mut self, pos: UVec3, value: T) -> (b: bool)
        requires
            old(self).grid.wf(),
            lawful::<T>(),
        ensures
            *final(final(self).grid) == *final(old(self).grid),
            final(self).grid.wf(),
            final(self).grid.limits() == old(self).grid.limits(),
            old(self).grid.tidy() ==> final(self).grid.tidy(),
            b == inside(pos, old(self).grid.limits()),
            !b ==> *final(self).grid == *old(self).grid,
            b ==> final(self).grid.at(pos) == Some(value),
            forall|p: UVec3|
                p != pos ==> same_cell(old(self).grid.at(p), #[trigger] final(self).grid.at(p)),
    {
        self.grid.set(pos, value)
    }

    /// Clear one voxel in the underlying grid.
    pub fn clear(&mut self, pos: UVec3) -> (b: bool)
        requires
            old(self).grid.wf(),
        ensures
            *final(final(self).grid) == *final(old(self).grid),
            final(self).grid.wf(),
            final(self).grid.limits() == old(self).grid.limits(),
            old(self).grid.tidy() ==> final(self).grid.tidy(),
            b == old(self).grid.at(pos) is Some,
            final(self).grid.at(pos) is None,
            forall|p: UVec3|
                p != pos ==> #[trigger] final(self).grid.at(p) == old(self).grid.at(p),
    {
        self.grid.clear(pos)
    }
}

impl<T: Copy + PartialEq> SparseGrid3<T> {
    /// Immutable cached accessor for repeated local reads.
    pub fn accessor(&self) -> (r: GridAccessor<'_, T>)
        requires
            self.wf(),
        ensures
            r.wf(),
            r.source() == *self,
    {
        GridAccessor::new(self)
    }

    /// Mutable convenience accessor with the query methods of the immutable one.
    pub fn accessor_mut(&mut self) -> (r: GridAccessorMut<'_, T>)
        ensures
            *r.grid == *old(self),
            *final(r.grid) == *final(self),
    {
        GridAccessorMut::new(self)
    }
}

} // verus!
