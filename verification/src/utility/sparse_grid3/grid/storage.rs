//! Whole-chunk access to a grid: counting, copying, pruning, listing and inserting chunks.

use std::collections::hash_map::Entry;
use std::collections::HashMap;

use vstd::laws_eq::obeys_eq;
use vstd::prelude::*;
use vstd::std_specs::cmp::PartialEqSpec;

use crate::utility::keyed::{key_list, sorted};
use crate::utility::sparse_grid3::aabb::{saturated_sum, smaller, Aabb3u};
use crate::utility::sparse_grid3::bitmask::{lemma_mask_range, word_bit, BitMask};
use crate::utility::sparse_grid3::chunk::Chunk;
use crate::utility::sparse_grid3::grid::{
    lemma_cells_as_voxels, map_cell, map_wf, SparseGrid3,
};
use crate::utility::sparse_grid3::layout::{
    cell_of, cell_position, chunk_origin, key_in_range, key_of, lemma_axis_origin,
    lemma_cell_recomposes, lemma_packed, lemma_unpacked, packed,
    saturating_add_chunk_size, unpacked, ChunkKey,
};
use crate::utility::sparse_grid3::value::{lawful, same_cell};
use crate::vec3::UVec3;

verus! {

broadcast use {vstd::std_specs::hash::group_hash_axioms, lemma_mask_range, lemma_packed};

/// Cell `i` of a mask given as words.
pub open spec fn mask_has(words: Seq<u64>, i: int) -> bool {
    0 <= i < 32768 && word_bit(words[i / 64], (i % 64) as u64)
}

/// One stored chunk, as it lies in memory.
pub enum SparseGridChunkView<'a, T: Copy + PartialEq> {
    Uniform { key: UVec3, value: T, mask: [u64; 512] },
    Dense { key: UVec3, values: &'a [T], mask: [u64; 512] },
}

impl<'a, T: Copy + PartialEq> SparseGridChunkView<'a, T> {
    /// Coordinates of the chunk.
    pub open spec fn chunk_key(self) -> ChunkKey {
        match self {
            SparseGridChunkView::Uniform { key, .. } => ChunkKey { x: key.x, y: key.y, z: key.z },
            SparseGridChunkView::Dense { key, .. } => ChunkKey { x: key.x, y: key.y, z: key.z },
        }
    }

    /// A dense view has one value per cell.
    pub open spec fn wf(self) -> bool {
        self matches SparseGridChunkView::Dense { values, .. } ==> values@.len() == 32768
    }

    /// The value of cell `i`, where it is present.
    pub open spec fn at(self, i: int) -> Option<T> {
        match self {
            SparseGridChunkView::Uniform { value, mask, .. } => if mask_has(mask@, i) {
                Some(value)
            } else {
                None
            },
            SparseGridChunkView::Dense { values, mask, .. } => if mask_has(mask@, i) {
                Some(values@[i])
            } else {
                None
            },
        }
    }
}

impl<T: Copy + PartialEq> SparseGrid3<T> {
    /// The cells that hold a voxel.
    pub open spec fn cells(self) -> Set<(ChunkKey, int)> {
        Set::new(|c: (ChunkKey, int)| self.cell(c.0, c.1) is Some)
    }

    /// The positions that hold a voxel.
    pub open spec fn voxels(self) -> Set<UVec3> {
        Set::new(|p: UVec3| self.at(p) is Some)
    }

    /// Chunk `key` is allocated as a dense array.
    pub closed spec fn dense(self, key: ChunkKey) -> bool {
        self.chunks@.contains_key(packed(key)) && self.chunks@[packed(key)] is Dense
    }

    /// Only allocated chunks hold voxels.
    pub proof fn lemma_cell_allocated(self, key: ChunkKey, i: int)
        ensures
            !self.allocated(key) ==> self.cell(key, i) is None,
    {
    }

    /// Chunks have `32768` cells.
    pub proof fn lemma_cell_range(self, key: ChunkKey, i: int)
        requires
            self.wf(),
        ensures
            self.cell(key, i) is Some ==> 0 <= i < 32768,
    {
        if self.cell(key, i) is Some {
            assert(self.cells().contains((key, i)));
        }
    }

    /// A grid without chunks has no chunk.
    pub proof fn lemma_nothing_allocated(self, key: ChunkKey)
        requires
            self.allocated_len() == 0,
        ensures
            !self.allocated(key),
    {
        assert(self.chunks@.dom() =~= Set::empty());
    }

    /// There are at most `32768` voxels per allocated chunk.
    pub proof fn lemma_cells_bound(self)
        requires
            self.wf(),
        ensures
            self.cells().finite(),
            self.cells().len() <= self.allocated_len() * 32768,
    {
        let dom = self.chunks@.dom();
        lemma_cells_of(self.chunks@, dom);
        let of = cells_of(self.chunks@, dom);
        assert forall|c: (ChunkKey, int)| #[trigger] self.cells().contains(c) <==> of.contains(
            c,
        ) by {}
        assert(self.cells() =~= of);
    }

    /// A tidy grid holds as many voxels as cells.
    pub proof fn lemma_voxels(self)
        requires
            self.wf(),
            self.tidy(),
        ensures
            self.voxels().finite(),
            self.voxels().len() == self.cells().len(),
    {
        self.lemma_cells_bound();
        assert forall|c: (ChunkKey, int)| #[trigger] self.cells().contains(c) implies key_in_range(
            c.0,
        ) && 0 <= c.1 < 32768 && self.voxels().contains(cell_position(c.0, c.1)) by {
            assert(self.allocated(c.0));
            lemma_cell_recomposes(c.0, c.1);
        }
        assert forall|p: UVec3| #[trigger] self.voxels().contains(p) implies self.cells().contains(
            (key_of(p), cell_of(p)),
        ) by {}
        lemma_cells_as_voxels(self.cells(), self.voxels());
    }

    /// Counts present voxels by summing chunk masks.
    pub fn present_voxel_count(&self) -> (n: usize)
        requires
            self.wf(),
            self.cells().len() <= usize::MAX,
        ensures
            n == self.cells().len(),
            self.tidy() ==> self.voxels().finite() && n == self.voxels().len(),
    {
        proof {
            self.lemma_cells_bound();
        }
        let keys = key_list(&self.chunks);
        let mut total: usize = 0;
        let mut n: usize = 0;
        let ghost mut seen: Set<u128> = Set::empty();
        proof {
            assert(cells_of(self.chunks@, seen) =~= Set::empty());
        }
        while n < keys.len()
            invariant
                n <= keys@.len(),
                self.wf(),
                self.cells().finite(),
                self.cells().len() <= usize::MAX,
                keys@.no_duplicates(),
                forall|a: int|
                    0 <= a < keys@.len() ==> self.chunks@.contains_key(#[trigger] keys@[a]),
                forall|k: u128| #[trigger]
                    seen.contains(k) <==> exists|a: int| 0 <= a < n && #[trigger] keys@[a] == k,
                cells_of(self.chunks@, seen).finite(),
                total == cells_of(self.chunks@, seen).len(),
            decreases keys@.len() - n,
        {
            let k = keys[n];
            assert(self.chunks@.contains_key(keys@[n as int]));
            if let Some(chunk) = self.chunks.get(&k) {
                let count = chunk.present_count();
                proof {
                    let next = seen.insert(k);
                    assert(!seen.contains(k));
                    lemma_cells_of_insert(self.chunks@, seen, k);
                    let of = cells_of(self.chunks@, next);
                    assert(of.subset_of(self.cells())) by {
                        assert forall|c: (ChunkKey, int)| #[trigger] of.contains(
                            c,
                        ) implies self.cells().contains(c) by {}
                    }
                    vstd::set_lib::lemma_len_subset(of, self.cells());
                    assert forall|kk: u128| #[trigger] next.contains(kk) <==> exists|a: int|
                        0 <= a < n + 1 && #[trigger] keys@[a] == kk by {
                        if kk == k {
                            assert(keys@[n as int] == kk);
                        }
                        if seen.contains(kk) {
                            let a = choose|a: int| 0 <= a < n && #[trigger] keys@[a] == kk;
                            assert(keys@[a] == kk);
                        }
                    }
                    seen = next;
                }
                total += count;
            }
            n += 1;
        }
        proof {
            assert forall|c: (ChunkKey, int)| #[trigger] self.cells().contains(c) <==> cells_of(
                self.chunks@,
                seen,
            ).contains(c) by {
                if self.cells().contains(c) {
                    assert(self.chunks@.contains_key(packed(c.0)));
                    let a = choose|a: int| 0 <= a < keys@.len() && keys@[a] == packed(c.0);
                    assert(keys@.contains(packed(c.0)));
                    assert(keys@[a] == packed(c.0));
                }
            }
            assert(self.cells() =~= cells_of(self.chunks@, seen));
            if self.tidy() {
                self.lemma_voxels();
            }
        }
        total
    }

    /// Removes empty chunks and compacts dense chunks that are uniform over all
    /// present voxels.
    pub fn prune(&mut self)
        requires
            old(self).wf(),
            lawful::<T>(),
        ensures
            final(self).wf(),
            final(self).limits() == old(self).limits(),
            old(self).tidy() ==> final(self).tidy(),
            forall|key: ChunkKey, i: int|
                same_cell(old(self).cell(key, i), #[trigger] final(self).cell(key, i)),
            forall|p: UVec3| same_cell(old(self).at(p), #[trigger] final(self).at(p)),
            forall|key: ChunkKey| #[trigger]
                final(self).allocated(key) <==> exists|i: int|
                    (#[trigger] old(self).cell(key, i)) is Some,
            obeys_eq::<T>() ==> forall|key: ChunkKey| #[trigger]
                final(self).dense(key) ==> !uniform_cells(*old(self), key),
    {
        let keys = key_list(&self.chunks);
        let mut n: usize = 0;
        while n < keys.len()
            invariant
                n <= keys@.len(),
                self.wf(),
                lawful::<T>(),
                self.limits() == old(self).limits(),
                keys@.no_duplicates(),
                old(self).wf(),
                forall|a: int| 0 <= a < keys@.len()
                    ==> old(self).chunks@.contains_key(#[trigger] keys@[a]),
                forall|k: u128| #[trigger] old(self).chunks@.contains_key(k) ==> keys@.contains(k),
                forall|a: int| n <= a < keys@.len()
                    ==> self.chunks@.contains_key(#[trigger] keys@[a])
                        && self.chunks@[keys@[a]] == old(self).chunks@[keys@[a]],
                forall|a: int| 0 <= a < n
                    ==> pruned(#[trigger] old(self).chunks@[keys@[a]], self.chunks@, keys@[a]),
                forall|k: u128| #[trigger] self.chunks@.contains_key(k)
                    ==> old(self).chunks@.contains_key(k),
            decreases keys@.len() - n,
        {
            let k = keys[n];
            assert(self.chunks@.contains_key(keys@[n as int]));
            let ghost before = *self;
            match self.chunks.entry(k) {
                Entry::Occupied(mut occupied) => {
                    if occupied.get().is_empty() {
                        occupied.remove();
                    } else {
                        occupied.get_mut().try_compact();
                    }
                },
                Entry::Vacant(_) => {},
            }
            proof {
                assert(forall|kk: u128| kk != k
                    ==> (self.chunks@.contains_key(kk) <==> before.chunks@.contains_key(kk)));
                assert(pruned(old(self).chunks@[keys@[n as int]], self.chunks@, k));
                assert forall|a: int| 0 <= a < n + 1
                    implies pruned(#[trigger] old(self).chunks@[keys@[a]], self.chunks@, keys@[a]) by {
                    if a < n {
                        assert(keys@[a] != k);
                        assert(pruned(old(self).chunks@[keys@[a]], before.chunks@, keys@[a]));
                    }
                }
            }
            n += 1;
        }
        proof {
            assert forall|key: ChunkKey| #[trigger] old(self).allocated(key)
                implies pruned(old(self).chunks@[packed(key)], self.chunks@, packed(key)) by {
                assert(keys@.contains(packed(key)));
                let a = choose|a: int| 0 <= a < keys@.len() && keys@[a] == packed(key);
                assert(pruned(old(self).chunks@[keys@[a]], self.chunks@, keys@[a]));
            }
            assert forall|key: ChunkKey,
                i: int| same_cell(old(self).cell(key, i), #[trigger] self.cell(key, i)) by {
                if old(self).allocated(key) {
                    let c = old(self).chunks@[packed(key)];
                    assert(!c.presence().has(i) || !c.presence().vacant());
                } else {
                    assert(!self.chunks@.contains_key(packed(key)));
                }
            }
            assert forall|p: UVec3| same_cell(old(self).at(p), #[trigger] self.at(p)) by {}
            assert forall|key: ChunkKey| #[trigger] self.allocated(key)
                <==> exists|i: int| (#[trigger] old(self).cell(key, i)) is Some by {
                if self.allocated(key) {
                    assert(old(self).allocated(key));
                    let c = old(self).chunks@[packed(key)];
                    let i = choose|i: int| #[trigger] c.presence().has(i);
                    assert(old(self).cell(key, i) is Some);
                }
                if exists|i: int| (#[trigger] old(self).cell(key, i)) is Some {
                    let i = choose|i: int| (#[trigger] old(self).cell(key, i)) is Some;
                    assert(old(self).allocated(key));
                    assert(old(self).chunks@[packed(key)].presence().has(i));
                }
            }
            if obeys_eq::<T>() {
                assert forall|key: ChunkKey| #[trigger] self.dense(key)
                    implies !uniform_cells(*old(self), key) by {
                    assert(self.allocated(key));
                    assert(old(self).allocated(key));
                    let c = old(self).chunks@[packed(key)];
                    if uniform_cells(*old(self), key) {
                        assert forall|i: int, j: int| #[trigger] c.presence().has(i)
                            && #[trigger] c.presence().has(j)
                                implies c.at(i)->0.eq_spec(&c.at(j)->0) by {
                            assert(old(self).cell(key, i) is Some && old(self).cell(key, j) is Some);
                        }
                    }
                }
            }
            if old(self).tidy() {
                assert forall|key: ChunkKey| #[trigger] self.allocated(key)
                    implies key_in_range(key)
                        && exists|i: int| (#[trigger] self.cell(key, i)) is Some by {
                    assert(old(self).allocated(key));
                    let i = choose|i: int| (#[trigger] old(self).cell(key, i)) is Some;
                    assert(self.cell(key, i) is Some);
                }
            }
        }
    }

    /// The stored chunks, each once, by ascending chunk coordinates (x, then y, then z).
    pub fn for_each_chunk(&self) -> (v: Vec<SparseGridChunkView<'_, T>>)
        requires
            self.wf(),
        ensures
            forall|a: int, b: int|
                0 <= a < b < v@.len() ==> packed((#[trigger] v@[a]).chunk_key()) < packed(
                    (#[trigger] v@[b]).chunk_key(),
                ),
            forall|a: int|
                0 <= a < v@.len() ==> {
                    &&& (#[trigger] v@[a]).wf()
                    &&& self.allocated(v@[a].chunk_key())
                    &&& v@[a] is Dense <==> self.dense(v@[a].chunk_key())
                    &&& forall|i: int| #[trigger]
                        v@[a].at(i) == self.cell(v@[a].chunk_key(), i)
                },
            forall|key: ChunkKey| #[trigger]
                self.allocated(key) ==> exists|a: int|
                    0 <= a < v@.len() && (#[trigger] v@[a]).chunk_key() == key,
            v@.len() == self.allocated_len(),
    {
        let unordered = key_list(&self.chunks);
        let keys = sorted(&unordered);
        proof {
            lemma_same_elements(unordered@, keys@);
            lemma_same_distinct(unordered@, keys@);
            assert(keys@.len() == unordered@.len()) by {
                unordered@.to_multiset_ensures();
                keys@.to_multiset_ensures();
            }
            assert forall|a: int| 0 <= a < keys@.len() implies self.chunks@.contains_key(
                #[trigger] keys@[a],
            ) by {
                let b = choose|b: int| 0 <= b < unordered@.len() && unordered@[b] == keys@[a];
                assert(unordered@.contains(keys@[a]));
                assert(self.chunks@.contains_key(unordered@[b]));
            }
        }
        let mut out: Vec<SparseGridChunkView<'_, T>> = Vec::with_capacity(keys.len());
        let mut n: usize = 0;
        while n < keys.len()
            invariant
                n <= keys@.len(),
                self.wf(),
                out@.len() == n,
                forall|a: int|
                    0 <= a < keys@.len() ==> self.chunks@.contains_key(#[trigger] keys@[a]),
                forall|a: int|
                    0 <= a < n ==> {
                        &&& (#[trigger] out@[a]).wf()
                        &&& packed(out@[a].chunk_key()) == keys@[a]
                        &&& out@[a] is Dense <==> self.dense(out@[a].chunk_key())
                        &&& forall|i: int| #[trigger]
                            out@[a].at(i) == self.cell(out@[a].chunk_key(), i)
                    },
            decreases keys@.len() - n,
        {
            let k = keys[n];
            assert(self.chunks@.contains_key(keys@[n as int]));
            let key = ChunkKey::unpack(k);
            let corner = UVec3::new(key.x, key.y, key.z);
            match self.chunks.get(&k) {
                Some(Chunk::Uniform { value, mask }) => {
                    proof {
                        mask.lemma_words();
                    }
                    out.push(
                        SparseGridChunkView::Uniform {
                            key: corner,
                            value: *value,
                            mask: mask.words(),
                        },
                    );
                },
                Some(Chunk::Dense { values, mask }) => {
                    proof {
                        mask.lemma_words();
                    }
                    out.push(
                        SparseGridChunkView::Dense {
                            key: corner,
                            values: values.as_slice(),
                            mask: mask.words(),
                        },
                    );
                },
                None => {},
            }
            n += 1;
        }
        proof {
            assert forall|key: ChunkKey| #[trigger] self.allocated(key) implies exists|a: int|
                0 <= a < out@.len() && (#[trigger] out@[a]).chunk_key() == key by {
                assert(unordered@.contains(packed(key)));
                assert(keys@.contains(packed(key)));
                let a = choose|a: int| 0 <= a < keys@.len() && keys@[a] == packed(key);
                assert(out@[a].chunk_key() == key);
            }
            assert forall|a: int, b: int| 0 <= a < b < out@.len() implies packed(
                (#[trigger] out@[a]).chunk_key(),
            ) < packed((#[trigger] out@[b]).chunk_key()) by {
                assert(keys@[a] != keys@[b]);
            }
            assert forall|a: int| 0 <= a < out@.len() implies self.allocated(
                (#[trigger] out@[a]).chunk_key(),
            ) by {
                assert(self.chunks@.contains_key(keys@[a]));
            }
        }
        out
    }

    /// Stores a uniform chunk under `key`, replacing what was there.
    pub fn insert_uniform_chunk(&mut self, key: UVec3, value: T, mask: [u64; 512])
        requires
            old(self).wf(),
        ensures
            final(self).wf(),
            final(self).limits() == old(self).limits(),
            ({
                let k = ChunkKey { x: key.x, y: key.y, z: key.z };
                &&& final(self).allocated(k)
                &&& !final(self).dense(k)
                &&& forall|i: int| #[trigger]
                    final(self).cell(k, i) == if mask_has(mask@, i) {
                        Some(value)
                    } else {
                        None
                    }
                &&& forall|other: ChunkKey|
                    other != k ==> #[trigger] final(self).allocated(other) == old(self).allocated(other)
                &&& forall|other: ChunkKey|
                    other != k ==> #[trigger] final(self).dense(other) == old(self).dense(other)
                &&& forall|other: ChunkKey, i: int|
                    other != k ==> #[trigger] final(self).cell(other, i) == old(self).cell(other, i)
            }),
    {
        let stored = BitMask::from_words(mask);
        proof {
            stored.lemma_words();
        }
        self.chunks.insert(
            ChunkKey::new(key.x, key.y, key.z).pack(),
            Chunk::Uniform { value, mask: stored },
        );
    }

    /// Stores a dense chunk under `key`, replacing what was there.
    pub fn insert_dense_chunk(&mut self, key: UVec3, values: Vec<T>, mask: [u64; 512])
        requires
            old(self).wf(),
            values@.len() == 32768,
        ensures
            final(self).wf(),
            final(self).limits() == old(self).limits(),
            ({
                let k = ChunkKey { x: key.x, y: key.y, z: key.z };
                &&& final(self).allocated(k)
                &&& final(self).dense(k)
                &&& forall|i: int| #[trigger]
                    final(self).cell(k, i) == if mask_has(mask@, i) {
                        Some(values@[i])
                    } else {
                        None
                    }
                &&& forall|other: ChunkKey|
                    other != k ==> #[trigger] final(self).allocated(other) == old(self).allocated(other)
                &&& forall|other: ChunkKey|
                    other != k ==> #[trigger] final(self).dense(other) == old(self).dense(other)
                &&& forall|other: ChunkKey, i: int|
                    other != k ==> #[trigger] final(self).cell(other, i) == old(self).cell(other, i)
            }),
    {
        let stored = BitMask::from_words(mask);
        proof {
            stored.lemma_words();
        }
        self.chunks.insert(
            ChunkKey::new(key.x, key.y, key.z).pack(),
            Chunk::Dense { values, mask: stored },
        );
    }

    /// The in-bounds boxes of the stored chunks, by ascending lowest corner (z, then y, then x).
    pub fn chunk_aabbs(&self) -> (v: Vec<Aabb3u>)
        requires
            self.wf(),
        ensures
            forall|a: int|
                #![trigger v@[a]]
                0 <= a < v@.len() ==> exists|key: ChunkKey|
                    #![trigger self.allocated(key)]
                    self.allocated(key) && v@[a] == chunk_box(key, self.limits())
                        && !v@[a].vacant(),
            forall|key: ChunkKey| #[trigger]
                self.allocated(key) && !chunk_box(key, self.limits()).vacant() ==> v@.contains(
                    chunk_box(key, self.limits()),
                ),
            forall|a: int, b: int|
                0 <= a < b < v@.len() ==> corner_number(#[trigger] v@[a]) <= corner_number(
                    #[trigger] v@[b],
                ),
            self.tidy() ==> forall|a: int, b: int|
                0 <= a < b < v@.len() ==> corner_number(#[trigger] v@[a]) < corner_number(
                    #[trigger] v@[b],
                ),
    {
        let keys = key_list(&self.chunks);
        let mut corners: Vec<u128> = Vec::new();
        let mut n: usize = 0;
        while n < keys.len()
            invariant
                n <= keys@.len(),
                self.wf(),
                keys@.no_duplicates(),
                forall|a: int|
                    0 <= a < keys@.len() ==> self.chunks@.contains_key(#[trigger] keys@[a]),
                forall|c: int|
                    #![trigger corners@[c]]
                    0 <= c < corners@.len() ==> exists|a: int|
                        0 <= a < n && corner_from(#[trigger] keys@[a], self.limits(), corners@[c]),
                forall|a: int|
                    0 <= a < n && !chunk_box(
                        unpacked(#[trigger] keys@[a]),
                        self.limits(),
                    ).vacant() ==> corners@.contains(
                        corner_number(chunk_box(unpacked(keys@[a]), self.limits())),
                    ),
                self.tidy() ==> corners@.no_duplicates(),
            decreases keys@.len() - n,
        {
            let k = keys[n];
            assert(self.chunks@.contains_key(keys@[n as int]));
            let key = ChunkKey::unpack(k);
            let ghost before = corners@;
            let chunk_aabb = self.chunk_box_of(key);
            let keep = !chunk_aabb.is_empty();
            if keep {
                let number = ChunkKey::new(
                    chunk_aabb.min.z,
                    chunk_aabb.min.y,
                    chunk_aabb.min.x,
                ).pack();
                corners.push(number);
                proof {
                    assert(corner_from(keys@[n as int], self.limits(), number));
                    assert(corners@[before.len() as int] == number);
                    if self.tidy() {
                        assert(self.allocated(key));
                        assert forall|c: int| 0 <= c < before.len() implies #[trigger] before[c]
                            != number by {
                            let a = choose|a: int|
                                0 <= a < n && corner_from(
                                    #[trigger] keys@[a],
                                    self.limits(),
                                    before[c],
                                );
                            assert(keys@[a] != keys@[n as int]);
                            assert(self.chunks@.contains_key(keys@[a]));
                            let other = unpacked(keys@[a]);
                            lemma_unpacked(keys@[a]);
                            assert(self.allocated(other));
                            lemma_corners_differ(other, key, self.limits());
                        }
                    }
                }
            }
            proof {
                assert forall|c: int| #![trigger corners@[c]] 0 <= c < corners@.len()
                    implies exists|a: int|
                    0 <= a < n + 1 && corner_from(#[trigger] keys@[a], self.limits(), corners@[c]) by {
                    if c < before.len() {
                        let a = choose|a: int|
                            0 <= a < n && corner_from(#[trigger] keys@[a], self.limits(), before[c]);
                        assert(corner_from(keys@[a], self.limits(), corners@[c]));
                    }
                }
                assert forall|a: int|
                    0 <= a < n + 1 && !chunk_box(
                        unpacked(#[trigger] keys@[a]),
                        self.limits(),
                    ).vacant() implies corners@.contains(
                    corner_number(chunk_box(unpacked(keys@[a]), self.limits())),
                ) by {
                    let num = corner_number(chunk_box(unpacked(keys@[a]), self.limits()));
                    if a < n {
                        assert(before.contains(num));
                        let c = choose|c: int| 0 <= c < before.len() && before[c] == num;
                        assert(corners@[c] == num);
                    } else {
                        assert(corners@[before.len() as int] == num);
                    }
                }
            }
            n += 1;
        }
        let order = sorted(&corners);
        proof {
            lemma_same_elements(corners@, order@);
        }
        let mut out: Vec<Aabb3u> = Vec::with_capacity(order.len());
        let mut j: usize = 0;
        while j < order.len()
            invariant
                j <= order@.len(),
                out@.len() == j,
                self.wf(),
                forall|c: int| 0 <= c < order@.len() ==> corners@.contains(#[trigger] order@[c]),
                forall|c: int|
                    #![trigger corners@[c]]
                    0 <= c < corners@.len() ==> exists|a: int|
                        0 <= a < keys@.len() && corner_from(
                            #[trigger] keys@[a],
                            self.limits(),
                            corners@[c],
                        ),
                forall|a: int|
                    0 <= a < keys@.len() ==> self.chunks@.contains_key(#[trigger] keys@[a]),
                forall|a: int| 0 <= a < j ==> corner_number(#[trigger] out@[a]) == order@[a],
                forall|a: int|
                    #![trigger out@[a]]
                    0 <= a < j ==> exists|key: ChunkKey|
                        #![trigger self.allocated(key)]
                        self.allocated(key) && out@[a] == chunk_box(key, self.limits())
                            && !out@[a].vacant(),
            decreases order@.len() - j,
        {
            let number = order[j];
            proof {
                assert(corners@.contains(order@[j as int]));
                let c = choose|c: int| 0 <= c < corners@.len() && corners@[c] == number;
                let a = choose|a: int|
                    0 <= a < keys@.len() && corner_from(
                        #[trigger] keys@[a],
                        self.limits(),
                        corners@[c],
                    );
                lemma_unpacked(keys@[a]);
                assert(self.chunks@.contains_key(keys@[a]));
                assert(self.allocated(unpacked(keys@[a])));
            }
            let key = ChunkKey::unpack(number);
            let min = UVec3::new(key.z, key.y, key.x);
            let end = saturating_add_chunk_size(min);
            let max = UVec3::new(
                smaller(end.x, self.bounds.x),
                smaller(end.y, self.bounds.y),
                smaller(end.z, self.bounds.z),
            );
            out.push(Aabb3u::new(min, max));
            j += 1;
        }
        proof {
            assert forall|key: ChunkKey| #[trigger]
                self.allocated(key) && !chunk_box(key, self.limits()).vacant() implies out@.contains(
                chunk_box(key, self.limits()),
            ) by {
                let b = chunk_box(key, self.limits());
                assert(keys@.contains(packed(key)));
                let a = choose|a: int| 0 <= a < keys@.len() && keys@[a] == packed(key);
                assert(unpacked(keys@[a]) == key);
                assert(corners@.contains(corner_number(b)));
                assert(order@.contains(corner_number(b)));
                let c = choose|c: int| 0 <= c < order@.len() && order@[c] == corner_number(b);
                assert(corner_number(out@[c]) == corner_number(b));
                let other = choose|other: ChunkKey|
                    #![trigger self.allocated(other)]
                    self.allocated(other) && out@[c] == chunk_box(other, self.limits())
                        && !out@[c].vacant();
                lemma_corner_determines(other, key, self.limits());
                assert(out@[c] == b);
            }
            if self.tidy() {
                lemma_same_distinct(corners@, order@);
                assert forall|a: int, b: int| 0 <= a < b < out@.len() implies corner_number(
                    #[trigger] out@[a],
                ) < corner_number(#[trigger] out@[b]) by {
                    assert(order@[a] != order@[b]);
                }
            }
        }
        out
    }

    /// The part of chunk `key` inside the grid bounds.
    fn chunk_box_of(&self, key: ChunkKey) -> (b: Aabb3u)
        ensures
            b == chunk_box(key, self.limits()),
    {
        let min = key.world_min();
        let end = saturating_add_chunk_size(min);
        let max = UVec3::new(
            smaller(end.x, self.bounds.x),
            smaller(end.y, self.bounds.y),
            smaller(end.z, self.bounds.z),
        );
        Aabb3u::new(min, max)
    }
}

impl<T: Copy + PartialEq> Clone for SparseGrid3<T> {
    fn clone(&self) -> (r: Self)
        ensures
            r.limits() == self.limits(),
            self.wf() ==> r.wf(),
            forall|key: ChunkKey| #[trigger] r.allocated(key) == self.allocated(key),
            self.wf() ==> forall|key: ChunkKey, i: int| #[trigger]
                r.cell(key, i) == self.cell(key, i),
    {
        let keys = key_list(&self.chunks);
        let mut chunks: HashMap<u128, Chunk<T>> = HashMap::with_capacity(keys.len());
        let mut n: usize = 0;
        while n < keys.len()
            invariant
                n <= keys@.len(),
                forall|a: int|
                    0 <= a < keys@.len() ==> self.chunks@.contains_key(#[trigger] keys@[a]),
                forall|a: int| 0 <= a < n ==> chunks@.contains_key(#[trigger] keys@[a]),
                forall|k: u128| #[trigger]
                    chunks@.contains_key(k) ==> {
                        &&& self.chunks@.contains_key(k)
                        &&& chunks@[k].wf() == self.chunks@[k].wf()
                        &&& self.chunks@[k].wf() ==> forall|i: int| #[trigger]
                            chunks@[k].at(i) == self.chunks@[k].at(i)
                    },
            decreases keys@.len() - n,
        {
            let k = keys[n];
            assert(self.chunks@.contains_key(keys@[n as int]));
            if let Some(chunk) = self.chunks.get(&k) {
                chunks.insert(k, chunk.clone());
            }
            n += 1;
        }
        proof {
            assert forall|k: u128| #[trigger] self.chunks@.contains_key(k) implies chunks@.contains_key(
                k,
            ) by {
                assert(keys@.contains(k));
                let a = choose|a: int| 0 <= a < keys@.len() && keys@[a] == k;
                assert(chunks@.contains_key(keys@[a]));
            }
        }
        SparseGrid3 { bounds: self.bounds, chunks }
    }
}

/// The part of chunk `key` inside `limits`.
pub open spec fn chunk_box(key: ChunkKey, limits: UVec3) -> Aabb3u {
    let o = chunk_origin(key);
    Aabb3u {
        min: o,
        max: UVec3 {
            x: lesser(saturated_sum(o.x, 32), limits.x),
            y: lesser(saturated_sum(o.y, 32), limits.y),
            z: lesser(saturated_sum(o.z, 32), limits.z),
        },
    }
}

/// The smaller of two coordinates.
pub open spec fn lesser(a: u32, b: u32) -> u32 {
    if a <= b {
        a
    } else {
        b
    }
}

/// Order of boxes by lowest corner: z first, then y, then x.
pub open spec fn corner_number(b: Aabb3u) -> u128 {
    packed(ChunkKey { x: b.min.z, y: b.min.y, z: b.min.x })
}

/// What pruning makes of one chunk.
spec fn pruned<T: Copy + PartialEq>(c: Chunk<T>, m: Map<u128, Chunk<T>>, k: u128) -> bool {
    if c.presence().vacant() {
        !m.contains_key(k)
    } else {
        &&& m.contains_key(k)
        &&& m[k].presence() == c.presence()
        &&& forall|i: int| same_cell(c.at(i), #[trigger] m[k].at(i))
        &&& obeys_eq::<T>() && m[k] is Dense
            ==> !(forall|i: int, j: int| #[trigger] c.presence().has(i)
                && #[trigger] c.presence().has(j) ==> c.at(i)->0.eq_spec(&c.at(j)->0))
    }
}

/// All voxels of a chunk compare equal.
pub open spec fn uniform_cells<T: Copy + PartialEq>(g: SparseGrid3<T>, key: ChunkKey) -> bool {
    forall|i: int, j: int|
        (#[trigger] g.cell(key, i)) is Some && (#[trigger] g.cell(key, j)) is Some ==> g.cell(
            key,
            i,
        )->0.eq_spec(&g.cell(key, j)->0)
}

/// The cells of the chunks with a key in `keys`.
spec fn cells_of<T: Copy + PartialEq>(m: Map<u128, Chunk<T>>, keys: Set<u128>) -> Set<
    (ChunkKey, int),
> {
    Set::new(
        |c: (ChunkKey, int)| keys.contains(packed(c.0)) && map_cell(m, c.0, c.1) is Some,
    )
}

proof fn lemma_cells_of_insert<T: Copy + PartialEq>(
    m: Map<u128, Chunk<T>>,
    keys: Set<u128>,
    k: u128,
)
    requires
        map_wf(m),
        m.contains_key(k),
        !keys.contains(k),
        cells_of(m, keys).finite(),
    ensures
        m[k].presence().cells().finite(),
        m[k].presence().cells().len() <= 32768,
        cells_of(m, keys.insert(k)).finite(),
        cells_of(m, keys.insert(k)).len() == cells_of(m, keys).len() + m[k].presence().cells().len(),
{
    let cells = m[k].presence().cells();
    let all = Set::new(|i: int| 0 <= i < 32768);
    vstd::set_lib::lemma_int_range(0, 32768);
    assert(all =~= vstd::set_lib::set_int_range(0, 32768));
    assert(cells.subset_of(all));
    vstd::set_lib::lemma_len_subset(cells, all);
    lemma_unpacked(k);
    let key = unpacked(k);
    let f = |i: int| (key, i);
    let own = cells.map(f);
    cells.lemma_map_finite(f);
    vstd::set_lib::lemma_map_size(cells, own, f);
    let rest = cells_of(m, keys);
    let both = cells_of(m, keys.insert(k));
    assert forall|c: (ChunkKey, int)| #[trigger] both.contains(c) <==> rest.contains(c)
        || own.contains(c) by {
        if both.contains(c) && !rest.contains(c) {
            assert(packed(c.0) == k);
            assert(c.0 == key);
            assert(cells.contains(c.1));
            assert(f(c.1) == c);
        }
        if own.contains(c) {
            let i = choose|i: int| cells.contains(i) && f(i) == c;
            assert(map_cell(m, key, i) is Some);
        }
    }
    assert(both =~= rest.union(own));
    assert(rest.disjoint(own)) by {
        assert forall|c: (ChunkKey, int)| own.contains(c) implies !rest.contains(c) by {
            let i = choose|i: int| cells.contains(i) && f(i) == c;
            assert(c.0 == key);
        }
    }
    vstd::set_lib::lemma_set_disjoint_lens(rest, own);
}

proof fn lemma_cells_of<T: Copy + PartialEq>(m: Map<u128, Chunk<T>>, keys: Set<u128>)
    requires
        map_wf(m),
        keys.finite(),
        keys.subset_of(m.dom()),
    ensures
        cells_of(m, keys).finite(),
        cells_of(m, keys).len() <= keys.len() * 32768,
    decreases keys.len(),
{
    if keys.len() == 0 {
        assert(keys =~= Set::empty());
        assert(cells_of(m, keys) =~= Set::empty());
    } else {
        let k = keys.choose();
        let rest = keys.remove(k);
        lemma_cells_of(m, rest);
        assert(m.dom().contains(k));
        lemma_cells_of_insert(m, rest, k);
        assert(rest.insert(k) =~= keys);
    }
}

/// `number` is the corner number of the box of the chunk stored under `k`.
spec fn corner_from(k: u128, limits: UVec3, number: u128) -> bool {
    !chunk_box(unpacked(k), limits).vacant() && number == corner_number(
        chunk_box(unpacked(k), limits),
    )
}

/// Boxes of different in-range chunks have different corners.
proof fn lemma_corners_differ(a: ChunkKey, b: ChunkKey, limits: UVec3)
    requires
        key_in_range(a),
        key_in_range(b),
        a != b,
    ensures
        corner_number(chunk_box(a, limits)) != corner_number(chunk_box(b, limits)),
{
    lemma_axis_origin(a.x);
    lemma_axis_origin(a.y);
    lemma_axis_origin(a.z);
    lemma_axis_origin(b.x);
    lemma_axis_origin(b.y);
    lemma_axis_origin(b.z);
    let o = chunk_origin(a);
    let p = chunk_origin(b);
    lemma_packed(ChunkKey { x: o.z, y: o.y, z: o.x });
    lemma_packed(ChunkKey { x: p.z, y: p.y, z: p.x });
}

/// A box is known by its corner.
proof fn lemma_corner_determines(a: ChunkKey, b: ChunkKey, limits: UVec3)
    requires
        corner_number(chunk_box(a, limits)) == corner_number(chunk_box(b, limits)),
    ensures
        chunk_box(a, limits) == chunk_box(b, limits),
{
    let o = chunk_origin(a);
    let p = chunk_origin(b);
    lemma_packed(ChunkKey { x: o.z, y: o.y, z: o.x });
    lemma_packed(ChunkKey { x: p.z, y: p.y, z: p.x });
}

proof fn lemma_same_elements(a: Seq<u128>, b: Seq<u128>)
    requires
        a.to_multiset() == b.to_multiset(),
    ensures
        forall|x: u128| #[trigger] a.contains(x) <==> b.contains(x),
        forall|i: int| 0 <= i < b.len() ==> a.contains(#[trigger] b[i]),
{
    a.to_multiset_ensures();
    b.to_multiset_ensures();
    assert forall|x: u128| #[trigger] a.contains(x) <==> b.contains(x) by {
        assert(a.contains(x) <==> a.to_multiset().count(x) > 0);
        assert(b.contains(x) <==> b.to_multiset().count(x) > 0);
    }
    assert forall|i: int| 0 <= i < b.len() implies a.contains(#[trigger] b[i]) by {
        assert(b.contains(b[i]));
    }
}

proof fn lemma_same_distinct(a: Seq<u128>, b: Seq<u128>)
    requires
        a.to_multiset() == b.to_multiset(),
        a.no_duplicates(),
    ensures
        b.no_duplicates(),
{
    a.lemma_multiset_has_no_duplicates();
    assert(b.to_multiset().len() == b.len()) by {
        b.to_multiset_ensures();
    }
    b.lemma_multiset_has_no_duplicates_conv();
}

} // verus!
