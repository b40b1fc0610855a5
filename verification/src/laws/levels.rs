//! Combining levels: which levels are extracted, and which of their cubes a finer level leaves.

use vstd::prelude::*;

use crate::compact::{slot_of, CompactPlot};
use crate::isosurface::{components_of, requested_levels, specs_of, IsosurfaceOptions, Sample};
use crate::isosurface::dual_grid::{
    all_chosen, law_chosen_levels, slot_refusal, slots_of, DualGridLevel, LevelRange,
};
use crate::outcome::lemma_first_refusal;
use crate::slice::{sliced_levels, SliceLevel, SliceOptions};
use crate::sparse_amr::translation_of;
use crate::utility::sparse_grid3::layout::{law_voxel_span, voxel_span};
use crate::vec3::{IVec3, UVec3};

verus! {

/// The extracted levels are those from the first to the last level of the range, both included,
/// or all of them without a range; each once, in the order of the plot.
pub proof fn law_extracted_levels<S, T: Copy + PartialEq>(
    plot: CompactPlot<S, T>,
    range: Option<LevelRange>,
)
    ensures
        ({
            let places = all_chosen(plot, range);
            &&& forall|l: int| #[trigger]
                places.contains(l) <==> 0 <= l < plot.levels@.len() && (range matches Some(r)
                    ==> r.start <= plot.levels@[l].level_index && plot.levels@[l].level_index
                    <= r.end)
            &&& forall|i: int, j: int| 0 <= i < j < places.len() ==> places[i] < places[j]
        }),
{
    law_chosen_levels(plot.levels@, range, plot.levels@.len());
    let places = all_chosen(plot, range);
    assert forall|l: int| #[trigger] places.contains(l) implies 0 <= l < plot.levels@.len() && (
    range matches Some(r) ==> r.start <= plot.levels@[l].level_index && plot.levels@[l].level_index
        <= r.end) by {
        let j = choose|j: int| 0 <= j < places.len() && places[j] == l;
        assert(places[j] == l);
    }
}

/// The place of a component among the loaded ones is the first that holds its number.
pub proof fn law_slot(ids: Seq<usize>, id: usize, slot: int)
    requires
        0 <= slot < ids.len() <= usize::MAX,
        ids[slot] == id,
        forall|i: int| 0 <= i < slot ==> ids[i] != id,
    ensures
        slot_of(ids, id) == Some(slot as usize),
    decreases ids.len(),
{
    if ids[0] != id {
        assert(ids.drop_first()[slot - 1] == id);
        assert forall|i: int| 0 <= i < slot - 1 implies ids.drop_first()[i] != id by {
            assert(ids.drop_first()[i] == ids[i + 1]);
        }
        law_slot(ids.drop_first(), id, slot - 1);
    }
}

/// A component that is not loaded has no place.
pub proof fn law_no_slot(ids: Seq<usize>, id: usize)
    ensures
        slot_of(ids, id) is None <==> !ids.contains(id),
    decreases ids.len(),
{
    if ids.len() > 0 {
        law_no_slot(ids.drop_first(), id);
        if ids[0] == id {
            assert(ids.contains(id));
        } else {
            if ids.contains(id) {
                let i = choose|i: int| 0 <= i < ids.len() && ids[i] == id;
                assert(ids.drop_first()[i - 1] == id);
            }
            if ids.drop_first().contains(id) {
                let i = choose|i: int|
                    0 <= i < ids.drop_first().len() && ids.drop_first()[i] == id;
                assert(ids[i + 1] == id);
            }
        }
    }
}

/// The cells of the finer level whose indices, divided by the ratio and rounded down, are the
/// index of coarse cell `p`, are exactly those in the span of `p`.
proof fn lemma_refined(coarse: IVec3, fine: IVec3, ratio: u32, p: UVec3, q: UVec3)
    requires
        ratio > 0,
    ensures
        voxel_span(p, ratio, translation_of(coarse, fine, ratio), q) <==> {
            &&& (q.x + fine.x) / (ratio as int) == p.x + coarse.x
            &&& (q.y + fine.y) / (ratio as int) == p.y + coarse.y
            &&& (q.z + fine.z) / (ratio as int) == p.z + coarse.z
        },
{
    let t = translation_of(coarse, fine, ratio);
    lemma_shift(coarse.x, fine.x, ratio, q.x, t.x);
    lemma_shift(coarse.y, fine.y, ratio, q.y, t.y);
    lemma_shift(coarse.z, fine.z, ratio, q.z, t.z);
    law_voxel_span(p, ratio, t, q);
}

/// Shifting by a multiple of the divisor shifts the quotient.
proof fn lemma_shift(coarse: i32, fine: i32, ratio: u32, q: u32, t: i64)
    requires
        ratio > 0,
        t == (coarse * ratio - fine) as i64,
    ensures
        (q - t) / (ratio as int) + coarse == (q + fine) / (ratio as int),
{
    let (c, s, d) = (coarse as int, ratio as int, q + fine);
    assert(-0x8000_0000 * 0xffff_ffff <= c * s <= 0x7fff_ffff * 0xffff_ffff) by (nonlinear_arith)
        requires
            -0x8000_0000 <= c <= 0x7fff_ffff,
            0 <= s <= 0xffff_ffff,
    ;
    assert(q - t == d - c * s);
    vstd::arithmetic::div_mod::lemma_hoist_over_denominator(d, -c, s as nat);
    assert((-c) * s == -(c * s)) by (nonlinear_arith);
}

/// Along each axis, the index of a fine cell, divided by the ratio and rounded down, is the
/// index of the coarse cell that it refines.
pub open spec fn refines(q: UVec3, fine: IVec3, ratio: int, p: UVec3, coarse: IVec3) -> bool {
    &&& (q.x + fine.x) / ratio == p.x + coarse.x
    &&& (q.y + fine.y) / ratio == p.y + coarse.y
    &&& (q.z + fine.z) / ratio == p.z + coarse.z
}

/// A dual grid has the geometry and the samples of its level. Its active cubes are the eligible
/// ones that no sample of the next extracted level refines; in the last level, all eligible
/// ones.
pub proof fn law_extracted_cubes<S, T: Copy + PartialEq>(
    plot: CompactPlot<S, T>,
    options: IsosurfaceOptions<S>,
    levels: Seq<DualGridLevel<'_, S, T>>,
    slot: int,
    j: int,
    p: UVec3,
)
    requires
        requested_levels(plot, options, levels),
        0 <= slot < plot.component_ids@.len(),
        plot.component_ids@[slot] == options.surface.id,
        forall|i: int| 0 <= i < slot ==> plot.component_ids@[i] != options.surface.id,
        0 <= j < levels.len(),
    ensures
        ({
            let places = all_chosen(plot, options.levels);
            let level = plot.levels@[places[j]];
            let fine = plot.levels@[places[j + 1]];
            let ratio = plot.refinement_ratios@[fine.level_index - 1];
            &&& levels.len() == places.len()
            &&& levels[j].level_index == level.level_index
            &&& levels[j].index_origin == level.index_origin
            &&& levels[j].physical_origin == level.physical_origin
            &&& levels[j].cell_size == level.cell_size
            &&& *levels[j].samples == level.components@[slot]
            &&& j + 1 == places.len() ==> levels[j].active_cubes.at(p) == level.eligible_cubes.at(p)
            &&& j + 1 < places.len() && 0 < fine.level_index <= plot.refinement_ratios@.len() && 0
                < ratio <= u32::MAX ==> (levels[j].active_cubes.at(p) is Some <==> {
                &&& level.eligible_cubes.at(p) is Some
                &&& !exists|q: UVec3|
                    (#[trigger] fine.components@[slot].at(q)) is Some && refines(
                        q,
                        fine.index_origin,
                        ratio as int,
                        p,
                        level.index_origin,
                    )
            })
        }),
{
    let places = all_chosen(plot, options.levels);
    assert(plot.component_ids@.len() == plot.component_ids.len());
    law_slot(plot.component_ids@, options.surface.id as usize, slot);
    if j + 1 < places.len() {
        let level = plot.levels@[places[j]];
        let fine = plot.levels@[places[j + 1]];
        let ratio = plot.refinement_ratios@[fine.level_index - 1];
        if 0 < fine.level_index <= plot.refinement_ratios@.len() && 0 < ratio <= u32::MAX {
            assert forall|q: UVec3| #[trigger]
                voxel_span(
                    p,
                    ratio as u32,
                    translation_of(level.index_origin, fine.index_origin, ratio as u32),
                    q,
                ) <==> refines(q, fine.index_origin, ratio as int, p, level.index_origin) by {
                lemma_refined(level.index_origin, fine.index_origin, ratio as u32, p, q);
            }
        }
    }
}

/// The quantities that are sampled onto a dual grid are the components that the options name,
/// in their order.
pub proof fn law_sampled_quantities<S, T: Copy + PartialEq>(
    plot: CompactPlot<S, T>,
    options: IsosurfaceOptions<S>,
    levels: Seq<DualGridLevel<'_, S, T>>,
    j: int,
    k: int,
    slot: int,
)
    requires
        requested_levels(plot, options, levels),
        forall|i: int|
            0 <= i < options.sampled_quantities@.len() ==> plot.component_ids@.contains(
                (#[trigger] options.sampled_quantities@[i]).id as usize,
            ),
        0 <= j < levels.len(),
        0 <= k < options.sampled_quantities@.len(),
        0 <= slot < plot.component_ids@.len(),
        plot.component_ids@[slot] == options.sampled_quantities@[k].id,
        forall|i: int| 0 <= i < slot ==> plot.component_ids@[i] != options.sampled_quantities@[k].id,
    ensures
        ({
            let level = plot.levels@[all_chosen(plot, options.levels)[j]];
            &&& levels[j].sampled_quantities@.len() == options.sampled_quantities@.len()
            &&& *levels[j].sampled_quantities@[k] == level.components@[slot]
        }),
{
    assert(plot.component_ids@.len() == plot.component_ids.len());
    lemma_slots(plot.component_ids@, options.sampled_quantities@, k, slot);
}

/// The slots of samples that are all loaded.
proof fn lemma_slots<S>(
    ids: Seq<usize>,
    samples: Seq<Sample<S>>,
    k: int,
    slot: int,
)
    requires
        ids.len() <= usize::MAX,
        forall|i: int| 0 <= i < samples.len() ==> ids.contains((#[trigger] samples[i]).id as usize),
        0 <= k < samples.len(),
        0 <= slot < ids.len(),
        ids[slot] == samples[k].id,
        forall|i: int| 0 <= i < slot ==> ids[i] != samples[k].id,
    ensures
        slots_of(ids, components_of(specs_of(samples))) matches Ok(slots) && slots.len()
            == samples.len() && slots[k] == slot,
{
    let components = components_of(specs_of(samples));
    let refusal = |c: usize| slot_refusal(ids, c);
    assert(components.len() == samples.len());
    assert forall|i: int| 0 <= i < components.len() implies refusal(#[trigger] components[i]) is None by {
        assert(components[i] == samples[i].id as usize);
        law_no_slot(ids, components[i]);
    }
    lemma_first_refusal(components, refusal, components.len() as int);
    assert(components[k] == samples[k].id as usize);
    law_slot(ids, components[k], slot);
}

/// A level of a slice has the geometry of its level. Its active cubes are the eligible ones that
/// no value of the first sampled quantity in the next extracted level refines; in the last
/// level, all eligible ones.
pub proof fn law_sliced_cubes<S, T: Copy + PartialEq>(
    plot: CompactPlot<S, T>,
    options: SliceOptions<S>,
    levels: Seq<SliceLevel<'_, S, T>>,
    slot: int,
    j: int,
    p: UVec3,
)
    requires
        sliced_levels(plot, options, levels),
        options.sampled_quantities@.len() > 0,
        forall|i: int|
            0 <= i < options.sampled_quantities@.len() ==> plot.component_ids@.contains(
                (#[trigger] options.sampled_quantities@[i]).id as usize,
            ),
        0 <= slot < plot.component_ids@.len(),
        plot.component_ids@[slot] == options.sampled_quantities@[0].id,
        forall|i: int| 0 <= i < slot ==> plot.component_ids@[i] != options.sampled_quantities@[0].id,
        0 <= j < levels.len(),
    ensures
        ({
            let places = all_chosen(plot, options.levels);
            let level = plot.levels@[places[j]];
            let fine = plot.levels@[places[j + 1]];
            let ratio = plot.refinement_ratios@[fine.level_index - 1];
            &&& levels.len() == places.len()
            &&& levels[j].level_index == level.level_index
            &&& levels[j].index_origin == level.index_origin
            &&& levels[j].physical_origin == level.physical_origin
            &&& levels[j].cell_size == level.cell_size
            &&& *levels[j].sampled_quantities@[0] == level.components@[slot]
            &&& j + 1 == places.len() ==> levels[j].active_cubes.at(p) == level.eligible_cubes.at(p)
            &&& j + 1 < places.len() && 0 < fine.level_index <= plot.refinement_ratios@.len() && 0
                < ratio <= u32::MAX ==> (levels[j].active_cubes.at(p) is Some <==> {
                &&& level.eligible_cubes.at(p) is Some
                &&& !exists|q: UVec3|
                    (#[trigger] fine.components@[slot].at(q)) is Some && refines(
                        q,
                        fine.index_origin,
                        ratio as int,
                        p,
                        level.index_origin,
                    )
            })
        }),
{
    let places = all_chosen(plot, options.levels);
    assert(plot.component_ids@.len() == plot.component_ids.len());
    lemma_slots(plot.component_ids@, options.sampled_quantities@, 0, slot);
    if j + 1 < places.len() {
        let level = plot.levels@[places[j]];
        let fine = plot.levels@[places[j + 1]];
        let ratio = plot.refinement_ratios@[fine.level_index - 1];
        if 0 < fine.level_index <= plot.refinement_ratios@.len() && 0 < ratio <= u32::MAX {
            assert forall|q: UVec3| #[trigger]
                voxel_span(
                    p,
                    ratio as u32,
                    translation_of(level.index_origin, fine.index_origin, ratio as u32),
                    q,
                ) <==> refines(q, fine.index_origin, ratio as int, p, level.index_origin) by {
                lemma_refined(level.index_origin, fine.index_origin, ratio as u32, p, q);
            }
        }
    }
}

} // verus!
