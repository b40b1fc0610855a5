//! Cell-centered samples and dual-lattice cubes of the levels that are extracted.

use vstd::prelude::*;

use crate::compact::{slot_of, CompactLevel, CompactPlot};
use crate::isosurface::ExtractError;
use crate::outcome::{first_refusal, lemma_first_refusal};
use crate::sparse_amr::{level_translation, translation_of};
use crate::utility::sparse_grid3::grid::{shadowed, SparseGrid3};
use crate::utility::sparse_grid3::layout::ChunkKey;
use crate::utility::sparse_grid3::value::Present;
use crate::vec3::{I64Vec3, IVec3, UVec3, Vec3};

verus! {

/// An inclusive range of level indices.
#[derive(Debug, Clone, Copy, PartialEq, Eq, Structural)]
pub struct LevelRange {
    pub start: usize,
    pub end: usize,
}

/// The level is extracted: it lies in the range, if there is one.
pub open spec fn in_range(level_index: usize, range: Option<LevelRange>) -> bool {
    range matches Some(r) ==> r.start <= level_index <= r.end
}

/// True when the level is extracted.
pub fn level_in_range(level_index: usize, level_range: Option<LevelRange>) -> (b: bool)
    ensures
        b == in_range(level_index, level_range),
{
    match level_range {
        None => true,
        Some(range) => range.start <= level_index && level_index <= range.end,
    }
}

/// Cell-centered samples and eligible dual-lattice cube anchors for one AMR level.
///
/// Samples covered by a finer level remain available; only `active_cubes` is masked.
pub struct DualGridLevel<'a, S, T: Copy + PartialEq> {
    pub level_index: usize,
    pub index_origin: IVec3,
    pub physical_origin: Vec3<S>,
    pub cell_size: Vec3<S>,
    pub samples: &'a SparseGrid3<T>,
    pub sampled_quantities: Vec<&'a SparseGrid3<T>>,
    pub active_cubes: SparseGrid3<Present>,
}

impl<'a, S, T: Copy + PartialEq> DualGridLevel<'a, S, T> {
    /// All grids are well-formed.
    pub open spec fn wf(self) -> bool {
        &&& self.samples.wf()
        &&& self.active_cubes.wf()
        &&& forall|c: int|
            0 <= c < self.sampled_quantities@.len() ==> (
            #[trigger] self.sampled_quantities@[c]).wf()
    }
}

/// The places of the levels that are extracted, among the first `n`.
pub open spec fn chosen<S, T: Copy + PartialEq>(
    levels: Seq<CompactLevel<S, T>>,
    range: Option<LevelRange>,
    n: nat,
) -> Seq<int>
    decreases n,
{
    if n == 0 {
        Seq::empty()
    } else {
        let before = chosen(levels, range, (n - 1) as nat);
        if in_range(levels[n - 1].level_index, range) {
            before.push(n - 1)
        } else {
            before
        }
    }
}

/// The chosen places are those of the levels in range, each once, in ascending order.
pub proof fn law_chosen_levels<S, T: Copy + PartialEq>(
    levels: Seq<CompactLevel<S, T>>,
    range: Option<LevelRange>,
    n: nat,
)
    ensures
        ({
            let places = chosen(levels, range, n);
            &&& forall|j: int|
                0 <= j < places.len() ==> 0 <= #[trigger] places[j] < n && in_range(
                    levels[places[j]].level_index,
                    range,
                )
            &&& forall|i: int, j: int| 0 <= i < j < places.len() ==> places[i] < places[j]
            &&& forall|l: int|
                0 <= l < n && in_range(levels[l].level_index, range) ==> #[trigger] places.contains(
                    l,
                )
        }),
    decreases n,
{
    if n > 0 {
        let m = (n - 1) as nat;
        law_chosen_levels(levels, range, m);
        let before = chosen(levels, range, m);
        let places = chosen(levels, range, n);
        assert forall|j: int| 0 <= j < places.len() implies 0 <= #[trigger] places[j] < n
            && in_range(levels[places[j]].level_index, range) by {
            if j < before.len() {
                assert(places[j] == before[j]);
            }
        }
        assert forall|i: int, j: int| 0 <= i < j < places.len() implies places[i] < places[j] by {
            assert(places[i] == before[i]);
            if j < before.len() {
                assert(places[j] == before[j]);
            }
        }
        assert forall|l: int|
            0 <= l < n && in_range(levels[l].level_index, range) implies #[trigger] places.contains(
            l,
        ) by {
            if l < m {
                assert(before.contains(l));
                let j = choose|j: int| 0 <= j < before.len() && before[j] == l;
                assert(places[j] == l);
            } else {
                assert(places[places.len() - 1] == l);
            }
        }
    }
}

/// Refinement ratio below a level.
pub open spec fn ratio_below(ratios: Seq<usize>, level_index: usize) -> Result<u32, ExtractError> {
    if level_index == 0 || level_index - 1 >= ratios.len() {
        Err(ExtractError::MissingRatio)
    } else if ratios[level_index - 1] > u32::MAX {
        Err(ExtractError::RatioTooLarge)
    } else if ratios[level_index - 1] == 0 {
        Err(ExtractError::ZeroRatio)
    } else {
        Ok(ratios[level_index - 1] as u32)
    }
}

/// Refinement ratio below a level.
pub fn find_ratio(ratios: &Vec<usize>, level_index: usize) -> (r: Result<u32, ExtractError>)
    ensures
        r == ratio_below(ratios@, level_index),
{
    if level_index == 0 || level_index - 1 >= ratios.len() {
        return Err(ExtractError::MissingRatio);
    }
    let ratio = ratios[level_index - 1];
    if ratio > u32::MAX as usize {
        return Err(ExtractError::RatioTooLarge);
    }
    if ratio == 0 {
        return Err(ExtractError::ZeroRatio);
    }
    Ok(ratio as u32)
}

/// Samples of a finer level that hide coarse cubes.
pub struct Cover<T: Copy + PartialEq> {
    pub fine: SparseGrid3<T>,
    pub ratio: u32,
    pub translation: I64Vec3,
}

/// `active` holds the eligible cubes that no finer sample covers.
pub open spec fn uncovered<T: Copy + PartialEq>(
    eligible: SparseGrid3<Present>,
    active: SparseGrid3<Present>,
    cover: Option<Cover<T>>,
) -> bool {
    &&& active.wf()
    &&& active.limits() == eligible.limits()
    &&& eligible.tidy() ==> active.tidy()
    &&& forall|p: UVec3| #[trigger]
        active.at(p) == if cover is Some && shadowed(
            cover->0.fine,
            cover->0.ratio,
            cover->0.translation,
            p,
        ) {
            None
        } else {
            eligible.at(p)
        }
}

/// The finer level that hides cubes of the chosen level in place `j`: the next chosen one.
pub open spec fn cover_of<S, T: Copy + PartialEq>(
    plot: CompactPlot<S, T>,
    places: Seq<int>,
    slot: int,
    j: int,
) -> Option<Cover<T>> {
    if j + 1 < places.len() {
        let coarse = plot.levels@[places[j]];
        let fine = plot.levels@[places[j + 1]];
        let ratio = ratio_below(plot.refinement_ratios@, fine.level_index)->Ok_0;
        Some(
            Cover {
                fine: fine.components@[slot],
                ratio,
                translation: translation_of(coarse.index_origin, fine.index_origin, ratio),
            },
        )
    } else {
        None
    }
}

/// Every slot names a component of the level.
pub open spec fn slots_exist<S, T: Copy + PartialEq>(
    level: CompactLevel<S, T>,
    slots: Seq<usize>,
) -> bool {
    forall|k: int| 0 <= k < slots.len() ==> (#[trigger] slots[k]) < level.components@.len()
}

/// The grids in these slots of a level.
pub open spec fn grids_in<T: Copy + PartialEq>(
    components: Seq<SparseGrid3<T>>,
    slots: Seq<usize>,
    grids: Seq<&SparseGrid3<T>>,
) -> bool {
    &&& grids.len() == slots.len()
    &&& forall|k: int|
        0 <= k < slots.len() ==> *(#[trigger] grids[k]) == components[slots[k] as int]
}

/// `d` is the dual grid of the chosen level in place `j`.
pub open spec fn is_dual_level<S, T: Copy + PartialEq>(
    plot: CompactPlot<S, T>,
    places: Seq<int>,
    slot: usize,
    slots: Seq<usize>,
    j: int,
    d: DualGridLevel<'_, S, T>,
) -> bool {
    let level = plot.levels@[places[j]];
    &&& d.level_index == level.level_index
    &&& d.index_origin == level.index_origin
    &&& d.physical_origin == level.physical_origin
    &&& d.cell_size == level.cell_size
    &&& slot < level.components@.len()
    &&& *d.samples == level.components@[slot as int]
    &&& slots_exist(level, slots)
    &&& grids_in(level.components@, slots, d.sampled_quantities@)
    &&& uncovered(level.eligible_cubes, d.active_cubes, cover_of(plot, places, slot as int, j))
}

/// What is wrong with the chosen level in place `j`, if anything.
pub open spec fn dual_level_refusal<S, T: Copy + PartialEq>(
    plot: CompactPlot<S, T>,
    places: Seq<int>,
    slot: usize,
    slots: Seq<usize>,
    j: int,
) -> Option<ExtractError> {
    let level = plot.levels@[places[j]];
    if slot >= level.components@.len() {
        Some(ExtractError::MissingSlot)
    } else if j > 0 && ratio_below(plot.refinement_ratios@, level.level_index) is Err {
        Some(ratio_below(plot.refinement_ratios@, level.level_index)->Err_0)
    } else if !slots_exist(level, slots) {
        Some(ExtractError::MissingSlot)
    } else {
        None
    }
}

/// The places of components among the loaded ones.
pub open spec fn slots_of(ids: Seq<usize>, components: Seq<usize>) -> Result<
    Seq<usize>,
    ExtractError,
> {
    match first_refusal(components, |c: usize| slot_refusal(ids, c)) {
        Some(e) => Err(e),
        None => Ok(components.map_values(|c: usize| slot_of(ids, c)->0)),
    }
}

/// The component must be loaded.
pub open spec fn slot_refusal(ids: Seq<usize>, component: usize) -> Option<ExtractError> {
    if slot_of(ids, component) is None {
        Some(ExtractError::ComponentNotLoaded(component))
    } else {
        None
    }
}

/// The places of components among the loaded ones.
pub fn find_slots<S, T: Copy + PartialEq>(plot: &CompactPlot<S, T>, components: &[usize]) -> (r:
    Result<Vec<usize>, ExtractError>)
    ensures
        match r {
            Ok(v) => slots_of(plot.component_ids@, components@) == Ok::<Seq<usize>, ExtractError>(
                v@,
            ),
            Err(e) => slots_of(plot.component_ids@, components@) == Err::<Seq<usize>, ExtractError>(
                e,
            ),
        },
{
    let ghost refusal = |c: usize| slot_refusal(plot.component_ids@, c);
    let mut out: Vec<usize> = Vec::with_capacity(components.len());
    let mut i: usize = 0;
    while i < components.len()
        invariant
            i <= components@.len(),
            refusal == (|c: usize| slot_refusal(plot.component_ids@, c)),
            out@.len() == i,
            forall|j: int| 0 <= j < i ==> refusal(#[trigger] components@[j]) is None,
            forall|j: int|
                0 <= j < i ==> slot_of(plot.component_ids@, #[trigger] components@[j]) == Some(
                    out@[j],
                ),
        decreases components@.len() - i,
    {
        match plot.component_slot(components[i]) {
            Some(slot) => out.push(slot),
            None => {
                proof {
                    lemma_first_refusal(components@, refusal, i as int);
                }
                return Err(ExtractError::ComponentNotLoaded(components[i]));
            },
        }
        i += 1;
    }
    proof {
        lemma_first_refusal(components@, refusal, components@.len() as int);
        assert(out@ =~= components@.map_values(|c: usize| slot_of(plot.component_ids@, c)->0));
    }
    Ok(out)
}

/// The grids in these slots of a level.
pub fn find_grids<'a, S, T: Copy + PartialEq>(
    level: &'a CompactLevel<S, T>,
    slots: &Vec<usize>,
) -> (r: Result<Vec<&'a SparseGrid3<T>>, ExtractError>)
    ensures
        r is Ok <==> slots_exist(*level, slots@),
        r matches Ok(v) ==> grids_in(level.components@, slots@, v@),
        r matches Err(e) ==> e == ExtractError::MissingSlot,
{
    let mut out: Vec<&'a SparseGrid3<T>> = Vec::with_capacity(slots.len());
    let mut i: usize = 0;
    while i < slots.len()
        invariant
            i <= slots@.len(),
            out@.len() == i,
            forall|k: int| 0 <= k < i ==> (#[trigger] slots@[k]) < level.components@.len(),
            forall|k: int|
                0 <= k < i ==> *(#[trigger] out@[k]) == level.components@[slots@[k] as int],
        decreases slots@.len() - i,
    {
        if slots[i] >= level.components.len() {
            return Err(ExtractError::MissingSlot);
        }
        out.push(&level.components[slots[i]]);
        i += 1;
    }
    Ok(out)
}

/// The places of all chosen levels.
pub open spec fn all_chosen<S, T: Copy + PartialEq>(
    plot: CompactPlot<S, T>,
    range: Option<LevelRange>,
) -> Seq<int> {
    chosen(plot.levels@, range, plot.levels@.len())
}

/// Why the dual grids cannot be built.
pub open spec fn dual_refusal<S, T: Copy + PartialEq>(
    plot: CompactPlot<S, T>,
    component: usize,
    sampled: Seq<usize>,
    range: Option<LevelRange>,
) -> Option<ExtractError> {
    if sampled.len() > 2 {
        Some(ExtractError::TooManySamples)
    } else if slot_of(plot.component_ids@, component) is None {
        Some(ExtractError::ComponentNotLoaded(component))
    } else if slots_of(plot.component_ids@, sampled) is Err {
        Some(slots_of(plot.component_ids@, sampled)->Err_0)
    } else {
        let places = all_chosen(plot, range);
        let slot = slot_of(plot.component_ids@, component)->0;
        let slots = slots_of(plot.component_ids@, sampled)->Ok_0;
        first_refusal(
            Seq::new(places.len(), |j: int| j),
            |j: int| dual_level_refusal(plot, places, slot, slots, j),
        )
    }
}

/// Build the isosurface-specific dual lattice from reusable sparse AMR data.
///
/// Valid fine-level sample coverage masks eligible cube anchors on the
/// immediately coarser level. Fine and coarse meshes are not stitched here.
pub fn dual_grid_levels_from_compact<'a, S: Copy, T: Copy + PartialEq>(
    plot: &'a CompactPlot<S, T>,
    component: usize,
    sampled_components: &[usize],
    level_range: Option<LevelRange>,
) -> (r: Result<Vec<DualGridLevel<'a, S, T>>, ExtractError>)
    requires
        plot.wf(),
    ensures
        match r {
            Err(e) => dual_refusal(*plot, component, sampled_components@, level_range) == Some(e),
            Ok(levels) => {
                let places = all_chosen(*plot, level_range);
                let slot = slot_of(plot.component_ids@, component)->0;
                let slots = slots_of(plot.component_ids@, sampled_components@)->Ok_0;
                &&& dual_refusal(*plot, component, sampled_components@, level_range) is None
                &&& levels@.len() == places.len()
                &&& forall|j: int|
                    0 <= j < levels@.len() ==> is_dual_level(
                        *plot,
                        places,
                        slot,
                        slots,
                        j,
                        #[trigger] levels@[j],
                    )
            },
        },
{
    if sampled_components.len() > 2 {
        return Err(ExtractError::TooManySamples);
    }
    let slot = match plot.component_slot(component) {
        Some(slot) => slot,
        None => return Err(ExtractError::ComponentNotLoaded(component)),
    };
    let slots = match find_slots(plot, sampled_components) {
        Ok(slots) => slots,
        Err(e) => return Err(e),
    };
    build_dual_levels(plot, slot, &slots, level_range)
}

/// The places chosen among fewer levels come first among those chosen among more.
pub proof fn lemma_chosen_prefix<S, T: Copy + PartialEq>(
    levels: Seq<CompactLevel<S, T>>,
    range: Option<LevelRange>,
    l: nat,
    n: nat,
)
    requires
        l <= n,
    ensures
        chosen(levels, range, l).len() <= chosen(levels, range, n).len(),
        forall|j: int|
            0 <= j < chosen(levels, range, l).len() ==> #[trigger] chosen(levels, range, n)[j]
                == chosen(levels, range, l)[j],
    decreases n,
{
    if l < n {
        lemma_chosen_prefix(levels, range, l, (n - 1) as nat);
    }
}

/// The first refused place decides.
pub proof fn lemma_place_refusal<E>(n: nat, refusal: spec_fn(int) -> Option<E>, i: int)
    requires
        0 <= i <= n,
        forall|j: int| 0 <= j < i ==> #[trigger] refusal(j) is None,
        i < n ==> refusal(i) is Some,
    ensures
        first_refusal(Seq::new(n, |j: int| j), refusal) == if i < n {
            refusal(i)
        } else {
            None
        },
{
    let list = Seq::new(n, |j: int| j);
    assert forall|j: int| 0 <= j < i implies refusal(#[trigger] list[j]) is None by {
        assert(list[j] == j);
        assert(refusal(j) is None);
    }
    lemma_first_refusal(list, refusal, i);
}

/// Builds the dual grids of the chosen levels.
fn build_dual_levels<'a, S: Copy, T: Copy + PartialEq>(
    plot: &'a CompactPlot<S, T>,
    slot: usize,
    slots: &Vec<usize>,
    level_range: Option<LevelRange>,
) -> (r: Result<Vec<DualGridLevel<'a, S, T>>, ExtractError>)
    requires
        plot.wf(),
    ensures
        ({
            let places = all_chosen(*plot, level_range);
            let refusal = |j: int| dual_level_refusal(*plot, places, slot, slots@, j);
            match r {
                Err(e) => first_refusal(Seq::new(places.len(), |j: int| j), refusal) == Some(e),
                Ok(levels) => {
                    &&& first_refusal(Seq::new(places.len(), |j: int| j), refusal) is None
                    &&& levels@.len() == places.len()
                    &&& forall|j: int|
                        0 <= j < levels@.len() ==> is_dual_level(
                            *plot,
                            places,
                            slot,
                            slots@,
                            j,
                            #[trigger] levels@[j],
                        )
                },
            }
        }),
{
    let ghost places = all_chosen(*plot, level_range);
    let ghost refusal = |j: int| dual_level_refusal(*plot, places, slot, slots@, j);
    let ghost count = plot.levels@.len();
    let mut out: Vec<DualGridLevel<'a, S, T>> = Vec::with_capacity(plot.levels.len());
    let mut l: usize = 0;
    while l < plot.levels.len()
        invariant
            l <= plot.levels@.len(),
            count == plot.levels@.len(),
            plot.wf(),
            places == all_chosen(*plot, level_range),
            refusal == (|j: int| dual_level_refusal(*plot, places, slot, slots@, j)),
            out@.len() == chosen(plot.levels@, level_range, l as nat).len(),
            forall|j: int| 0 <= j < out@.len() ==> #[trigger] refusal(j) is None,
            forall|j: int|
                0 <= j < out@.len() ==> is_dual_level(
                    *plot,
                    chosen(plot.levels@, level_range, l as nat),
                    slot,
                    slots@,
                    j,
                    #[trigger] out@[j],
                ),
        decreases plot.levels@.len() - l,
    {
        let level = &plot.levels[l];
        assert(plot.levels@[l as int].wf());
        let ghost now = chosen(plot.levels@, level_range, l as nat);
        let ghost next = chosen(plot.levels@, level_range, (l + 1) as nat);
        if level_in_range(level.level_index, level_range) {
            let ghost n = out@.len() as int;
            let ghost before = out@;
            proof {
                assert(next == now.push(l as int));
                lemma_chosen_prefix(plot.levels@, level_range, (l + 1) as nat, count);
                lemma_chosen_prefix(plot.levels@, level_range, l as nat, count);
                assert(places[n] == l);
            }
            if slot >= level.components.len() {
                proof {
                    lemma_place_refusal(places.len(), refusal, n);
                }
                return Err(ExtractError::MissingSlot);
            }
            let samples = &level.components[slot];
            assert(level.components@[slot as int].wf());
            if out.len() > 0 {
                let ratio = match find_ratio(&plot.refinement_ratios, level.level_index) {
                    Ok(ratio) => ratio,
                    Err(e) => {
                        proof {
                            lemma_place_refusal(places.len(), refusal, n);
                        }
                        return Err(e);
                    },
                };
                let last = out.len() - 1;
                assert(is_dual_level(*plot, now, slot, slots@, last as int, out@[last as int]));
                let translation = match level_translation(
                    out[last].index_origin,
                    level.index_origin,
                    ratio,
                ) {
                    Ok(translation) => translation,
                    Err(_) => return Err(ExtractError::RatioTooLarge),
                };
                out[last].active_cubes.mask_out_by_presence_scaled(samples, ratio, translation);
            }
            let sampled_quantities = match find_grids(level, slots) {
                Ok(grids) => grids,
                Err(e) => {
                    proof {
                        lemma_place_refusal(places.len(), refusal, n);
                    }
                    return Err(e);
                },
            };
            let active_cubes = level.eligible_cubes.clone();
            out.push(
                DualGridLevel {
                    level_index: level.level_index,
                    index_origin: level.index_origin,
                    physical_origin: level.physical_origin,
                    cell_size: level.cell_size,
                    samples,
                    sampled_quantities,
                    active_cubes,
                },
            );
            proof {
                assert(refusal(n) is None);
                assert forall|j: int| 0 <= j < out@.len() implies is_dual_level(
                    *plot,
                    next,
                    slot,
                    slots@,
                    j,
                    #[trigger] out@[j],
                ) by {
                    if j < n - 1 {
                        assert(out@[j] == before[j]);
                        assert(is_dual_level(*plot, now, slot, slots@, j, before[j]));
                    } else if j == n - 1 {
                        assert(is_dual_level(*plot, now, slot, slots@, j, before[j]));
                    } else {
                        lemma_same_mask(level.eligible_cubes, out@[j].active_cubes);
                    }
                }
            }
        }
        l += 1;
    }
    proof {
        lemma_place_refusal(places.len(), refusal, places.len() as int);
    }
    Ok(out)
}

/// A copy holds the same marks, and is tidy when its source is.
pub proof fn lemma_same_mask(a: SparseGrid3<Present>, b: SparseGrid3<Present>)
    requires
        a.limits() == b.limits(),
        forall|key: ChunkKey| #[trigger] b.allocated(key) == a.allocated(key),
        forall|key: ChunkKey, i: int| #[trigger] b.cell(key, i) == a.cell(key, i),
    ensures
        a.tidy() ==> b.tidy(),
        forall|p: UVec3| #[trigger] b.at(p) == a.at(p),
{
    if a.tidy() {
        assert forall|key: ChunkKey| #[trigger] b.allocated(key) implies exists|i: int|
            (#[trigger] b.cell(key, i)) is Some by {
            assert(a.allocated(key));
            let i = choose|i: int| (#[trigger] a.cell(key, i)) is Some;
            assert(b.cell(key, i) is Some);
        }
    }
}

} // verus!
