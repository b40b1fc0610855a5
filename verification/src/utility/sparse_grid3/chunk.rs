//! Storage of one chunk: a uniform value or a dense array, with a presence mask.

use vstd::laws_eq::obeys_eq;
use vstd::prelude::*;
use vstd::std_specs::cmp::PartialEqSpec;

use crate::utility::sparse_grid3::bitmask::{lemma_mask_range, BitMask};
use crate::utility::sparse_grid3::layout::{
    copy_source_region_into_dense, fill_dense_aabb, in_region, is_full_chunk_local_aabb,
    local_box, local_extent, region_number, source_covers,
    source_index, uniform_value_in_source_region,
};
use crate::utility::sparse_grid3::value::{
    lawful, lemma_same_cell_transitive, same, same_cell,
};
use crate::vec3::UVec3;

verus! {

broadcast use lemma_mask_range;

/// A dense chunk array that holds `value` in every cell.
fn filled<T: Copy>(value: T) -> (v: Vec<T>)
    ensures
        v@.len() == 32768,
        forall|i: int| 0 <= i < 32768 ==> #[trigger] v@[i] == value,
{
    let mut v: Vec<T> = Vec::with_capacity(32768);
    let mut i: usize = 0;
    while i < 32768
        invariant
            i <= 32768,
            v@.len() == i,
            forall|j: int| 0 <= j < i ==> #[trigger] v@[j] == value,
        decreases 32768 - i,
    {
        v.push(value);
        i += 1;
    }
    v
}

/// One chunk of a sparse grid.
#[derive(Debug)]
pub enum Chunk<T: Copy + PartialEq> {
    /// One value for every present voxel, plus a presence mask.
    Uniform { value: T, mask: BitMask },
    /// Dense value array, plus a presence mask.
    Dense { values: Vec<T>, mask: BitMask },
}

impl<T: Copy + PartialEq> Clone for Chunk<T> {
    fn clone(&self) -> (r: Self)
        ensures
            r.wf() == self.wf(),
            r.presence() == self.presence(),
            self.wf() ==> forall|i: int| #[trigger] r.at(i) == self.at(i),
            r is Dense == *self is Dense,
    {
        match self {
            Chunk::Uniform { value, mask } => Chunk::Uniform { value: *value, mask: mask.clone() },
            Chunk::Dense { values, mask } => {
                let mut copy: Vec<T> = Vec::with_capacity(values.len());
                let mut i: usize = 0;
                while i < values.len()
                    invariant
                        i <= values@.len(),
                        copy@.len() == i,
                        forall|j: int| 0 <= j < i ==> #[trigger] copy@[j] == values@[j],
                    decreases values@.len() - i,
                {
                    copy.push(values[i]);
                    i += 1;
                }
                Chunk::Dense { values: copy, mask: mask.clone() }
            },
        }
    }
}

impl<T: Copy + PartialEq> Chunk<T> {
    /// The presence mask.
    pub open spec fn presence(self) -> BitMask {
        match self {
            Chunk::Uniform { mask, .. } => mask,
            Chunk::Dense { mask, .. } => mask,
        }
    }

    /// A dense array has one value per cell.
    pub open spec fn wf(self) -> bool {
        match self {
            Chunk::Uniform { .. } => true,
            Chunk::Dense { values, .. } => values@.len() == 32768,
        }
    }

    /// The value of cell `i`, where it is present.
    pub open spec fn at(self, i: int) -> Option<T> {
        if self.presence().has(i) {
            match self {
                Chunk::Uniform { value, .. } => Some(value),
                Chunk::Dense { values, .. } => Some(values@[i]),
            }
        } else {
            None
        }
    }

    /// True when no cell is present.
    pub fn is_empty(&self) -> (b: bool)
        ensures
            b == self.presence().vacant(),
    {
        match self {
            Chunk::Uniform { mask, .. } => mask.is_empty(),
            Chunk::Dense { mask, .. } => mask.is_empty(),
        }
    }

    /// Number of present cells.
    pub fn present_count(&self) -> (n: usize)
        ensures
            self.presence().cells().finite(),
            n == self.presence().cells().len(),
            n <= 32768,
    {
        match self {
            Chunk::Uniform { mask, .. } => mask.count_ones(),
            Chunk::Dense { mask, .. } => mask.count_ones(),
        }
    }

    /// True when cell `idx` is present.
    pub fn contains_index(&self, idx: usize) -> (b: bool)
        requires
            idx < 32768,
        ensures
            b == self.presence().has(idx as int),
            b == self.at(idx as int) is Some,
    {
        match self {
            Chunk::Uniform { mask, .. } => mask.get(idx),
            Chunk::Dense { mask, .. } => mask.get(idx),
        }
    }

    /// The value of cell `idx`, where it is present.
    pub fn get_index(&self, idx: usize) -> (r: Option<T>)
        requires
            self.wf(),
            idx < 32768,
        ensures
            r == self.at(idx as int),
    {
        match self {
            Chunk::Uniform { value, mask } => if mask.get(idx) {
                Some(*value)
            } else {
                None
            },
            Chunk::Dense { values, mask } => if mask.get(idx) {
                Some(values[idx])
            } else {
                None
            },
        }
    }

    /// Stores `new_value` in cell `idx`.
    pub fn set_index(&mut self, idx: usize, new_value: T)
        requires
            old(self).wf(),
            idx < 32768,
            lawful::<T>(),
        ensures
            final(self).wf(),
            final(self).at(idx as int) == Some(new_value),
            forall|i: int|
                i != idx ==> same_cell(old(self).at(i), #[trigger] final(self).at(i)),
            forall|i: int| #[trigger]
                final(self).presence().has(i) == (i == idx || old(self).presence().has(i)),
    {
        match self {
            Chunk::Uniform { value, mask } => {
                if mask.is_empty() || *value == new_value {
                    *value = new_value;
                    mask.set(idx);
                    return;
                }
                let mut dense = filled(*value);
                dense[idx] = new_value;
                mask.set(idx);
                let mask = mask.clone();
                *self = Chunk::Dense { values: dense, mask };
            },
            Chunk::Dense { values, mask } => {
                values[idx] = new_value;
                mask.set(idx);
            },
        }
    }

    /// Removes cell `idx`. Returns true if it was present.
    pub fn clear_index(&mut self, idx: usize) -> (was_set: bool)
        requires
            old(self).wf(),
            idx < 32768,
        ensures
            final(self).wf(),
            was_set == old(self).at(idx as int) is Some,
            forall|i: int| #[trigger]
                final(self).at(i) == if i == idx {
                    None
                } else {
                    old(self).at(i)
                },
    {
        match self {
            Chunk::Uniform { mask, .. } => mask.clear(idx),
            Chunk::Dense { mask, .. } => mask.clear(idx),
        }
    }

    /// Stores `new_value` in every cell of the local box `[local_min, local_max)`.
    pub fn fill_local_aabb(&mut self, local_min: UVec3, local_max: UVec3, new_value: T)
        requires
            old(self).wf(),
            local_box(local_min, local_max),
            lawful::<T>(),
        ensures
            final(self).wf(),
            forall|i: int|
                in_region(i, local_min, local_max) ==> #[trigger] final(self).at(i) == Some(
                    new_value,
                ),
            forall|i: int|
                !in_region(i, local_min, local_max) ==> same_cell(
                    old(self).at(i),
                    #[trigger] final(self).at(i),
                ),
            forall|i: int| #[trigger]
                final(self).presence().has(i)
                    == (in_region(i, local_min, local_max) || old(self).presence().has(i)),
    {
        if is_full_chunk_local_aabb(local_min, local_max) {
            *self = Chunk::Uniform { value: new_value, mask: BitMask::full() };
            return;
        }
        match self {
            Chunk::Uniform { value, mask } => {
                if mask.is_empty() || *value == new_value {
                    *value = new_value;
                    mask.set_aabb(local_min, local_max);
                    return;
                }
                let mut dense = filled(*value);
                fill_dense_aabb(&mut dense, local_min, local_max, new_value);
                mask.set_aabb(local_min, local_max);
                let mask = mask.clone();
                *self = Chunk::Dense { values: dense, mask };
            },
            Chunk::Dense { values, mask } => {
                fill_dense_aabb(values, local_min, local_max, new_value);
                mask.set_aabb(local_min, local_max);
            },
        }
    }

    /// Removes every cell of the local box `[local_min, local_max)`.
    pub fn clear_local_aabb(&mut self, local_min: UVec3, local_max: UVec3)
        requires
            old(self).wf(),
            local_box(local_min, local_max),
        ensures
            final(self).wf(),
            forall|i: int| #[trigger]
                final(self).at(i) == if in_region(i, local_min, local_max) {
                    None
                } else {
                    old(self).at(i)
                },
    {
        match self {
            Chunk::Uniform { mask, .. } => mask.clear_aabb(local_min, local_max),
            Chunk::Dense { mask, .. } => mask.clear_aabb(local_min, local_max),
        }
    }

    /// True when a cell of the local box `[local_min, local_max)` is present.
    pub fn any_present_local(&self, local_min: UVec3, local_max: UVec3) -> (b: bool)
        requires
            local_box(local_min, local_max),
        ensures
            b <==> exists|i: int| #[trigger]
                self.presence().has(i) && in_region(i, local_min, local_max),
    {
        match self {
            Chunk::Uniform { mask, .. } => {
                assert(self.presence() == *mask);
                mask.any_in_aabb(local_min, local_max)
            },
            Chunk::Dense { mask, .. } => {
                assert(self.presence() == *mask);
                mask.any_in_aabb(local_min, local_max)
            },
        }
    }

    /// The value of a uniform chunk in which every cell of the local box
    /// `[local_min, local_max)` is present.
    pub fn uniform_value_if_all_present(&self, local_min: UVec3, local_max: UVec3) -> (r: Option<T>)
        requires
            local_box(local_min, local_max),
        ensures
            r is Some <==> *self is Uniform && forall|i: int|
                in_region(i, local_min, local_max) ==> #[trigger] self.presence().has(i),
            r is Some ==> r == Some((*self)->value),
    {
        match self {
            Chunk::Uniform { value, mask } => {
                assert(self.presence() == *mask);
                if mask.all_in_aabb(local_min, local_max) {
                    Some(*value)
                } else {
                    None
                }
            },
            Chunk::Dense { .. } => None,
        }
    }

    /// The present cells of the local box `[local_min, local_max)` with their values, in
    /// ascending order of cell number.
    pub fn for_each_present_local(&self, local_min: UVec3, local_max: UVec3) -> (v: Vec<
        (usize, T),
    >)
        requires
            self.wf(),
            local_box(local_min, local_max),
        ensures
            forall|a: int, b: int| 0 <= a < b < v@.len() ==> v@[a].0 < v@[b].0,
            forall|a: int|
                0 <= a < v@.len() ==> in_region((#[trigger] v@[a]).0 as int, local_min, local_max)
                    && self.at(v@[a].0 as int) == Some(v@[a].1),
            forall|i: int| #[trigger]
                self.presence().has(i) && in_region(i, local_min, local_max) ==> v@.contains(
                    (i as usize, self.at(i)->0),
                ),
    {
        let indices = match self {
            Chunk::Uniform { mask, .. } => mask.for_each_set_index_in_aabb(local_min, local_max),
            Chunk::Dense { mask, .. } => mask.for_each_set_index_in_aabb(local_min, local_max),
        };
        let mut out: Vec<(usize, T)> = Vec::with_capacity(indices.len());
        let mut k: usize = 0;
        while k < indices.len()
            invariant
                k <= indices@.len(),
                self.wf(),
                out@.len() == k,
                forall|a: int|
                    0 <= a < indices@.len() ==> self.presence().has(#[trigger] indices@[a] as int),
                forall|a: int|
                    0 <= a < k ==> (#[trigger] out@[a]).0 == indices@[a] && self.at(
                        indices@[a] as int,
                    ) == Some(out@[a].1),
            decreases indices@.len() - k,
        {
            let idx = indices[k];
            assert(self.presence().has(indices@[k as int] as int));
            let value = match self {
                Chunk::Uniform { value, .. } => *value,
                Chunk::Dense { values, .. } => values[idx],
            };
            out.push((idx, value));
            k += 1;
        }
        proof {
            assert forall|i: int| #[trigger]
                self.presence().has(i) && in_region(i, local_min, local_max) implies out@.contains(
                (i as usize, self.at(i)->0),
            ) by {
                assert(indices@.contains(i as usize));
                let a = choose|a: int| 0 <= a < indices@.len() && indices@[a] == i as usize;
                assert(out@[a] == (i as usize, self.at(i)->0));
            }
        }
        out
    }

    /// Removes the present cells of the local box `[local_min, local_max)` for which `pred`
    /// holds. Returns their number.
    pub fn clear_where_present<F: Fn(usize) -> bool>(
        &mut self,
        local_min: UVec3,
        local_max: UVec3,
        pred: F,
    ) -> (n: usize)
        requires
            old(self).wf(),
            local_box(local_min, local_max),
            forall|idx: usize| idx < 32768 ==> #[trigger] call_requires(pred, (idx,)),
        ensures
            final(self).wf(),
            forall|i: int| #[trigger] final(self).presence().has(i) ==> old(self).presence().has(i),
            forall|i: int| #[trigger]
                final(self).presence().has(i) ==> final(self).at(i) == old(self).at(i),
            forall|i: int| #[trigger]
                old(self).presence().has(i) && !in_region(i, local_min, local_max)
                    ==> final(self).presence().has(i),
            forall|i: int| #[trigger]
                old(self).presence().has(i) && in_region(i, local_min, local_max) ==> call_ensures(
                    pred,
                    (i as usize,),
                    !final(self).presence().has(i),
                ),
            old(self).presence().cells().difference(final(self).presence().cells()).finite(),
            n == old(self).presence().cells().difference(final(self).presence().cells()).len(),
            n <= 32768,
    {
        let indices = match self {
            Chunk::Uniform { mask, .. } => mask.for_each_set_index_in_aabb(local_min, local_max),
            Chunk::Dense { mask, .. } => mask.for_each_set_index_in_aabb(local_min, local_max),
        };
        let mut n: usize = 0;
        let mut k: usize = 0;
        let ghost gone0 = old(self).presence().cells().difference(self.presence().cells());
        proof {
            assert(gone0 =~= Set::<int>::empty());
        }
        while k < indices.len()
            invariant
                k <= indices@.len(),
                self.wf(),
                n <= k,
                n <= 32768,
                k < indices@.len() ==> n <= indices@[k as int],
                forall|idx: usize| idx < 32768 ==> #[trigger] call_requires(pred, (idx,)),
                forall|a: int, b: int| 0 <= a < b < indices@.len() ==> indices@[a] < indices@[b],
                forall|a: int|
                    0 <= a < indices@.len() ==> old(self).presence().has(
                        #[trigger] indices@[a] as int,
                    ) && in_region(indices@[a] as int, local_min, local_max),
                forall|i: int| #[trigger]
                    self.presence().has(i)
                        ==> old(self).presence().has(i) && self.at(i) == old(self).at(i),
                forall|i: int| #[trigger]
                    old(self).presence().has(i) && !in_region(i, local_min, local_max)
                        ==> self.presence().has(i),
                forall|a: int|
                    k <= a < indices@.len() ==> self.presence().has(#[trigger] indices@[a] as int),
                forall|a: int|
                    0 <= a < k ==> call_ensures(
                        pred,
                        (#[trigger] indices@[a],),
                        !self.presence().has(indices@[a] as int),
                    ),
                old(self).presence().cells().difference(self.presence().cells()).finite(),
                n == old(self).presence().cells().difference(self.presence().cells()).len(),
            decreases indices@.len() - k,
        {
            let idx = indices[k];
            assert(old(self).presence().has(indices@[k as int] as int));
            assert(self.presence().has(indices@[k as int] as int));
            let ghost before = self.presence();
            if pred(idx) {
                let was_set = self.clear_index(idx);
                n += 1;
                proof {
                    let all = old(self).presence().cells();
                    assert forall|i: int| #[trigger] self.presence().has(i) == (i != idx
                        && before.has(i)) by {
                        assert(self.at(i) is Some <==> self.presence().has(i));
                    }
                    assert(all.difference(self.presence().cells()) =~= all.difference(
                        before.cells(),
                    ).insert(idx as int));
                    assert(!all.difference(before.cells()).contains(idx as int));
                }
            }
            k += 1;
        }
        proof {
            assert forall|i: int| #[trigger]
                old(self).presence().has(i) && in_region(i, local_min, local_max) implies call_ensures(
                pred,
                (i as usize,),
                !self.presence().has(i),
            ) by {
                assert(indices@.contains(i as usize));
                let a = choose|a: int| 0 <= a < indices@.len() && indices@[a] == i as usize;
                assert(call_ensures(pred, (indices@[a],), !self.presence().has(indices@[a] as int)));
            }
        }
        n
    }

    /// Turns a dense chunk into a uniform one when its present values are all equal.
    pub fn try_compact(&mut self)
        requires
            old(self).wf(),
            lawful::<T>(),
        ensures
            final(self).wf(),
            final(self).presence() == old(self).presence(),
            forall|i: int| same_cell(old(self).at(i), #[trigger] final(self).at(i)),
            *old(self) is Uniform ==> *final(self) == *old(self),
            *final(self) is Dense ==> *final(self) == *old(self),
            obeys_eq::<T>() ==> (*final(self) is Uniform <==> *old(self) is Uniform || (
            !old(self).presence().vacant() && forall|i: int, j: int| #[trigger]
                old(self).presence().has(i) && #[trigger] old(self).presence().has(j)
                    ==> old(self).at(i)->0.eq_spec(&old(self).at(j)->0))),
    {
        let replacement = match self {
            Chunk::Dense { values, mask } => {
                match mask.first_set_index() {
                    None => None,
                    Some(first_idx) => {
                        let first_value = values[first_idx];
                        let indices = mask.for_each_set_index();
                        let mut all_same = true;
                        let mut k: usize = 0;
                        while k < indices.len()
                            invariant
                                k <= indices@.len(),
                                values@.len() == 32768,
                                lawful::<T>(),
                                forall|a: int|
                                    0 <= a < indices@.len() ==> mask.has(
                                        #[trigger] indices@[a] as int,
                                    ),
                                all_same ==> forall|a: int|
                                    0 <= a < k ==> same(
                                        values@[#[trigger] indices@[a] as int],
                                        first_value,
                                    ),
                                T::obeys_eq_spec() && all_same ==> forall|a: int|
                                    0 <= a < k ==> values@[#[trigger] indices@[a] as int].eq_spec(
                                        &first_value,
                                    ),
                                T::obeys_eq_spec() && !all_same ==> exists|a: int|
                                    0 <= a < k && !values@[#[trigger] indices@[a] as int].eq_spec(
                                        &first_value,
                                    ),
                            decreases indices@.len() - k,
                        {
                            let idx = indices[k];
                            assert(mask.has(indices@[k as int] as int));
                            if values[idx] != first_value {
                                all_same = false;
                            }
                            k += 1;
                        }
                        proof {
                            reveal(vstd::laws_eq::obeys_eq_spec_properties);
                            assert forall|i: int| #[trigger] mask.has(i) implies indices@.contains(
                                i as usize,
                            ) by {}
                            assert forall|i: int| all_same && #[trigger] mask.has(i) implies same(
                                values@[i],
                                first_value,
                            ) && (T::obeys_eq_spec() ==> values@[i].eq_spec(&first_value)) by {
                                assert(indices@.contains(i as usize));
                                let a = choose|a: int|
                                    0 <= a < indices@.len() && indices@[a] == i as usize;
                                assert(same(values@[indices@[a] as int], first_value));
                            }
                        }
                        if all_same {
                            Some((first_value, mask.clone()))
                        } else {
                            None
                        }
                    },
                }
            },
            Chunk::Uniform { .. } => None,
        };
        proof {
            reveal(vstd::laws_eq::obeys_eq_spec_properties);
        }
        if let Some((value, mask)) = replacement {
            *self = Chunk::Uniform { value, mask };
        }
    }

    /// A chunk whose cells of the local box `[local_min, local_max)` are read from a slice.
    pub fn from_values_local(
        local_min: UVec3,
        local_max: UVec3,
        source_base: UVec3,
        source_extent: UVec3,
        source: &[T],
    ) -> (r: Self)
        requires
            local_box(local_min, local_max),
            local_min.x < local_max.x,
            local_min.y < local_max.y,
            local_min.z < local_max.z,
            source_covers(local_min, local_max, source_base, source_extent, source@.len()),
            lawful::<T>(),
        ensures
            r.wf(),
            forall|i: int| #[trigger] r.presence().has(i) == in_region(i, local_min, local_max),
            forall|i: int|
                in_region(i, local_min, local_max) ==> same_cell(
                    Some(source@[region_number(i, local_min, source_base, source_extent)]),
                    #[trigger] r.at(i),
                ),
    {
        let uniform = uniform_value_in_source_region(
            source,
            source_base,
            source_extent,
            local_extent(local_min, local_max),
        );
        let mut mask = BitMask::empty();
        mask.set_aabb(local_min, local_max);
        match uniform {
            Some(value) => Chunk::Uniform { value, mask },
            None => {
                assert(source@.len() == source.len());
                let first = source[source_index(source_base, source_extent)];
                let mut values = filled(first);
                copy_source_region_into_dense(
                    &mut values,
                    local_min,
                    local_max,
                    source_base,
                    source_extent,
                    source,
                );
                Chunk::Dense { values, mask }
            },
        }
    }

    /// Stores a slice region in the cells of the local box `[local_min, local_max)`.
    pub fn write_values_local(
        &mut self,
        local_min: UVec3,
        local_max: UVec3,
        source_base: UVec3,
        source_extent: UVec3,
        source: &[T],
    )
        requires
            old(self).wf(),
            local_box(local_min, local_max),
            source_covers(local_min, local_max, source_base, source_extent, source@.len()),
            lawful::<T>(),
        ensures
            final(self).wf(),
            forall|i: int| #[trigger]
                final(self).presence().has(i)
                    == (in_region(i, local_min, local_max) || old(self).presence().has(i)),
            forall|i: int|
                in_region(i, local_min, local_max) ==> same_cell(
                    Some(source@[region_number(i, local_min, source_base, source_extent)]),
                    #[trigger] final(self).at(i),
                ),
            forall|i: int|
                !in_region(i, local_min, local_max) ==> same_cell(
                    old(self).at(i),
                    #[trigger] final(self).at(i),
                ),
    {
        let region_extent = local_extent(local_min, local_max);
        let uniform = uniform_value_in_source_region(
            source,
            source_base,
            source_extent,
            region_extent,
        );
        proof {
            if let Some(v) = uniform {
                assert forall|i: int| #[trigger] in_region(i, local_min, local_max) implies same(
                    source@[region_number(i, local_min, source_base, source_extent)],
                    v,
                ) by {}
            }
        }
        match self {
            Chunk::Uniform { value, mask } => {
                if let Some(new_value) = uniform {
                    if mask.is_empty() || *value == new_value {
                        *value = new_value;
                        mask.set_aabb(local_min, local_max);
                        return;
                    }
                    if is_full_chunk_local_aabb(local_min, local_max) {
                        *self = Chunk::Uniform { value: new_value, mask: BitMask::full() };
                        return;
                    }
                }
                let mut dense = filled(*value);
                copy_source_region_into_dense(
                    &mut dense,
                    local_min,
                    local_max,
                    source_base,
                    source_extent,
                    source,
                );
                mask.set_aabb(local_min, local_max);
                let mask = mask.clone();
                *self = Chunk::Dense { values: dense, mask };
            },
            Chunk::Dense { values, mask } => {
                if let Some(new_value) = uniform {
                    fill_dense_aabb(values, local_min, local_max, new_value);
                } else {
                    copy_source_region_into_dense(
                        values,
                        local_min,
                        local_max,
                        source_base,
                        source_extent,
                        source,
                    );
                }
                mask.set_aabb(local_min, local_max);
            },
        }
    }

    /// The present cells of the local box `[local_min, local_max)` as a chunk of their own;
    /// `None` when there are none.
    pub fn copy_present_local(&self, local_min: UVec3, local_max: UVec3) -> (r: Option<Self>)
        requires
            self.wf(),
            local_box(local_min, local_max),
            lawful::<T>(),
        ensures
            r is None <==> forall|i: int|
                !(#[trigger] self.presence().has(i) && in_region(i, local_min, local_max)),
            r matches Some(c) ==> c.wf() && forall|i: int|
                same_cell(
                    if in_region(i, local_min, local_max) {
                        self.at(i)
                    } else {
                        None
                    },
                    #[trigger] c.at(i),
                ),
    {
        let present = self.for_each_present_local(local_min, local_max);
        if present.len() == 0 {
            proof {
                assert forall|i: int| !(#[trigger] self.presence().has(i) && in_region(
                    i,
                    local_min,
                    local_max,
                )) by {
                    if self.presence().has(i) && in_region(i, local_min, local_max) {
                        assert(present@.contains((i as usize, self.at(i)->0)));
                    }
                }
            }
            return None;
        }
        let mut mask = BitMask::empty();
        assert(in_region(present@[0].0 as int, local_min, local_max));
        mask.set(present[0].0);
        let mut out = Chunk::Uniform { value: present[0].1, mask };
        let mut k: usize = 1;
        while k < present.len()
            invariant
                1 <= k <= present@.len(),
                self.wf(),
                out.wf(),
                lawful::<T>(),
                forall|a: int, b: int| 0 <= a < b < present@.len() ==> present@[a].0 < present@[b].0,
                forall|a: int|
                    0 <= a < present@.len() ==> in_region(
                        (#[trigger] present@[a]).0 as int,
                        local_min,
                        local_max,
                    ) && self.at(present@[a].0 as int) == Some(present@[a].1),
                forall|i: int| #[trigger]
                    out.presence().has(i) ==> exists|a: int|
                        0 <= a < k && (#[trigger] present@[a]).0 == i,
                forall|a: int|
                    0 <= a < k ==> same_cell(
                        Some((#[trigger] present@[a]).1),
                        out.at(present@[a].0 as int),
                    ),
            decreases present@.len() - k,
        {
            let (idx, value) = present[k];
            assert(in_region(present@[k as int].0 as int, local_min, local_max));
            let ghost before = out;
            out.set_index(idx, value);
            proof {
                assert forall|i: int| #[trigger] out.presence().has(i) implies exists|a: int|
                    0 <= a < k + 1 && (#[trigger] present@[a]).0 == i by {
                    if i != idx {
                        assert(before.presence().has(i));
                        let a = choose|a: int| 0 <= a < k && (#[trigger] present@[a]).0 == i;
                        assert(present@[a].0 == i);
                    } else {
                        assert(present@[k as int].0 == i);
                    }
                }
                assert forall|a: int| 0 <= a < k + 1 implies same_cell(
                    Some((#[trigger] present@[a]).1),
                    out.at(present@[a].0 as int),
                ) by {
                    if a < k {
                        let i = present@[a].0 as int;
                        assert(present@[a].0 < present@[k as int].0);
                        lemma_same_cell_transitive(Some(present@[a].1), before.at(i), out.at(i));
                    }
                }
            }
            k += 1;
        }
        let ghost before = out;
        out.try_compact();
        proof {
            let i0 = present@[0].0 as int;
            assert(self.at(i0) == Some(present@[0].1));
            assert(self.presence().has(i0) && in_region(i0, local_min, local_max));
            assert forall|i: int| same_cell(
                if in_region(i, local_min, local_max) {
                    self.at(i)
                } else {
                    None
                },
                #[trigger] out.at(i),
            ) by {
                assert(same_cell(before.at(i), out.at(i)));
                if before.presence().has(i) {
                    let a = choose|a: int| 0 <= a < k && (#[trigger] present@[a]).0 == i;
                    lemma_same_cell_transitive(Some(present@[a].1), before.at(i), out.at(i));
                } else if self.presence().has(i) && in_region(i, local_min, local_max) {
                    assert(present@.contains((i as usize, self.at(i)->0)));
                    let a = choose|a: int|
                        0 <= a < present@.len() && present@[a] == (i as usize, self.at(i)->0);
                    assert(same_cell(Some(present@[a].1), before.at(present@[a].0 as int)));
                }
            }
        }
        Some(out)
    }

    /// Stores the present cells of `src` in the local box `[local_min, local_max)`.
    pub fn overlay_local(&mut self, src: &Self, local_min: UVec3, local_max: UVec3)
        requires
            old(self).wf(),
            src.wf(),
            local_box(local_min, local_max),
            lawful::<T>(),
        ensures
            final(self).wf(),
            forall|i: int|
                same_cell(
                    if src.presence().has(i) && in_region(i, local_min, local_max) {
                        src.at(i)
                    } else {
                        old(self).at(i)
                    },
                    #[trigger] final(self).at(i),
                ),
    {
        if let Some(value) = src.uniform_value_if_all_present(local_min, local_max) {
            self.fill_local_aabb(local_min, local_max, value);
            return;
        }
        let present = src.for_each_present_local(local_min, local_max);
        let mut k: usize = 0;
        while k < present.len()
            invariant
                k <= present@.len(),
                self.wf(),
                lawful::<T>(),
                forall|a: int, b: int| 0 <= a < b < present@.len() ==> present@[a].0 < present@[b].0,
                forall|a: int|
                    0 <= a < present@.len() ==> in_region(
                        (#[trigger] present@[a]).0 as int,
                        local_min,
                        local_max,
                    ),
                forall|a: int|
                    0 <= a < k ==> same_cell(
                        Some((#[trigger] present@[a]).1),
                        self.at(present@[a].0 as int),
                    ),
                forall|i: int|
                    (forall|a: int| 0 <= a < k ==> (#[trigger] present@[a]).0 != i) ==> same_cell(
                        old(self).at(i),
                        #[trigger] self.at(i),
                    ),
            decreases present@.len() - k,
        {
            let (idx, value) = present[k];
            assert(in_region(present@[k as int].0 as int, local_min, local_max));
            let ghost before = *self;
            self.set_index(idx, value);
            proof {
                assert forall|a: int| 0 <= a < k + 1 implies same_cell(
                    Some((#[trigger] present@[a]).1),
                    self.at(present@[a].0 as int),
                ) by {
                    if a < k {
                        let i = present@[a].0 as int;
                        assert(present@[a].0 < present@[k as int].0);
                        lemma_same_cell_transitive(Some(present@[a].1), before.at(i), self.at(i));
                    }
                }
                assert forall|i: int|
                    (forall|a: int| 0 <= a < k + 1 ==> (#[trigger] present@[a]).0
                        != i) implies same_cell(old(self).at(i), #[trigger] self.at(i)) by {
                    assert(present@[k as int].0 != i);
                    lemma_same_cell_transitive(old(self).at(i), before.at(i), self.at(i));
                }
            }
            k += 1;
        }
        proof {
            assert forall|i: int| same_cell(
                if src.presence().has(i) && in_region(i, local_min, local_max) {
                    src.at(i)
                } else {
                    old(self).at(i)
                },
                #[trigger] self.at(i),
            ) by {
                if src.presence().has(i) && in_region(i, local_min, local_max) {
                    assert(present@.contains((i as usize, src.at(i)->0)));
                    let a = choose|a: int|
                        0 <= a < present@.len() && present@[a] == (i as usize, src.at(i)->0);
                    assert(same_cell(Some(present@[a].1), self.at(present@[a].0 as int)));
                } else {
                    assert forall|a: int| 0 <= a < k implies (#[trigger] present@[a]).0 != i by {
                        assert(src.at(present@[a].0 as int) == Some(present@[a].1));
                    }
                }
            }
        }
    }
}

} // verus!
