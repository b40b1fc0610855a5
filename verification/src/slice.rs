//! Axis-aligned volume slices.

pub mod plane;

use vstd::prelude::*;

use crate::compact::{compact_loaded, CompactLoadError, CompactPlot};
use crate::data_reader::RawScalar;
use crate::isosurface::dual_grid::{
    all_chosen, chosen, cover_of, find_grids, find_ratio, find_slots, grids_in,
    law_chosen_levels, lemma_chosen_prefix, lemma_place_refusal, lemma_same_mask, level_in_range, ratio_below,
    slots_exist, slots_of, uncovered, LevelRange,
};
use crate::isosurface::mesh::{
    face_within, flip_face_winding, flipped, repeats, sound, Mesh3D, MeshError, MeshModel,
};
use crate::isosurface::mesher::{
    corners_below, lemma_seated, seat_error, seat_of, seated, step_or_same, BuildError, Maker,
    Mesher, VertexKey,
};
use crate::isosurface::walk::list_anchors;
use crate::isosurface::{
    components_of, gives, law_flip_turns_every_face, lemma_fewer_parts, lemma_same_parts,
    level_meshes, level_parts, list_components, mesh_levels, samples_refusal, specs_of,
    turned_over, validate_sample_specs_for_len, ExtractError, PlotSurfaceError, Sample,
    SampleSpec, SurfaceError,
};
use crate::native_file::PlotFile;
use crate::outcome::{computes1, computes2, first_refusal, total1, total2};
use crate::sparse_amr::level_translation;
use crate::utility::sparse_grid3::grid::{inside, visited_before, SparseGrid3};
use crate::utility::sparse_grid3::value::{lawful, Present};
use crate::vec3::{IVec3, UVec3, Vec3};

verus! {

/// Cardinal axis normal to a slice plane.
#[derive(Debug, Clone, Copy, PartialEq, Eq, Structural)]
pub enum SliceAxis {
    X,
    Y,
    Z,
}

/// Number of an axis.
pub fn axis_index(axis: SliceAxis) -> (i: usize)
    ensures
        i == match axis {
            SliceAxis::X => 0usize,
            SliceAxis::Y => 1usize,
            SliceAxis::Z => 2usize,
        },
{
    match axis {
        SliceAxis::X => 0,
        SliceAxis::Y => 1,
        SliceAxis::Z => 2,
    }
}

/// The coordinate along an axis.
pub open spec fn along(v: UVec3, axis: SliceAxis) -> u32 {
    match axis {
        SliceAxis::X => v.x,
        SliceAxis::Y => v.y,
        SliceAxis::Z => v.z,
    }
}

/// The coordinate along an axis.
pub fn component(v: UVec3, axis: SliceAxis) -> (c: u32)
    ensures
        c == along(v, axis),
{
    match axis {
        SliceAxis::X => v.x,
        SliceAxis::Y => v.y,
        SliceAxis::Z => v.z,
    }
}

/// `p` moved along an axis.
pub fn add_axis(p: UVec3, axis: SliceAxis, amount: u32) -> (r: Option<UVec3>)
    ensures
        r is Some <==> along(p, axis) + amount <= u32::MAX,
        r matches Some(q) ==> match axis {
            SliceAxis::X => q.x == p.x + amount && q.y == p.y && q.z == p.z,
            SliceAxis::Y => q.x == p.x && q.y == p.y + amount && q.z == p.z,
            SliceAxis::Z => q.x == p.x && q.y == p.y && q.z == p.z + amount,
        },
{
    match axis {
        SliceAxis::X => match p.x.checked_add(amount) {
            Some(x) => Some(UVec3::new(x, p.y, p.z)),
            None => None,
        },
        SliceAxis::Y => match p.y.checked_add(amount) {
            Some(y) => Some(UVec3::new(p.x, y, p.z)),
            None => None,
        },
        SliceAxis::Z => match p.z.checked_add(amount) {
            Some(z) => Some(UVec3::new(p.x, p.y, z)),
            None => None,
        },
    }
}

/// The lattice layer below a plane. `lower` is the layer at or below it, and `on_layer` tells
/// whether the plane lies on that layer; then the layer before it is taken, at its upper end,
/// unless it is the first one. `None` when there is no such layer of cubes.
pub open spec fn anchor_layer(lower: i64, on_layer: bool, bound: u32) -> Option<(u32, bool)> {
    let (layer, at_end) = if on_layer && lower > 0 {
        (lower - 1, true)
    } else {
        (lower as int, false)
    };
    if 0 <= layer < bound {
        Some((layer as u32, at_end))
    } else {
        None
    }
}

/// The layer of cubes that a plane cuts, and whether it cuts it at the upper end.
pub fn plane_anchor(lower: i64, on_layer: bool, bound: u32) -> (r: Option<(u32, bool)>)
    ensures
        r == anchor_layer(lower, on_layer, bound),
{
    let (layer, at_end): (i64, bool) = if on_layer && lower > 0 {
        (lower - 1, true)
    } else {
        (lower, false)
    };
    if layer < 0 || layer >= bound as i64 {
        None
    } else {
        Some((layer as u32, at_end))
    }
}

/// The lower corners of a cube across an axis, turning the same way for every axis.
pub open spec fn quad_points(axis: SliceAxis, a: UVec3) -> Seq<UVec3> {
    match axis {
        SliceAxis::X => seq![
            a,
            UVec3 { x: a.x, y: a.y, z: (a.z + 1) as u32 },
            UVec3 { x: a.x, y: (a.y + 1) as u32, z: (a.z + 1) as u32 },
            UVec3 { x: a.x, y: (a.y + 1) as u32, z: a.z },
        ],
        SliceAxis::Y => seq![
            a,
            UVec3 { x: (a.x + 1) as u32, y: a.y, z: a.z },
            UVec3 { x: (a.x + 1) as u32, y: a.y, z: (a.z + 1) as u32 },
            UVec3 { x: a.x, y: a.y, z: (a.z + 1) as u32 },
        ],
        SliceAxis::Z => seq![
            a,
            UVec3 { x: a.x, y: (a.y + 1) as u32, z: a.z },
            UVec3 { x: (a.x + 1) as u32, y: (a.y + 1) as u32, z: a.z },
            UVec3 { x: (a.x + 1) as u32, y: a.y, z: a.z },
        ],
    }
}

/// The four corners of the quadrilateral that a plane cuts from a cube.
pub fn quad_corners(axis: SliceAxis, anchor: UVec3) -> (r: [UVec3; 4])
    requires
        anchor.x < u32::MAX,
        anchor.y < u32::MAX,
        anchor.z < u32::MAX,
    ensures
        r@ =~= quad_points(axis, anchor),
{
    match axis {
        SliceAxis::X => [
            UVec3::new(anchor.x, anchor.y, anchor.z),
            UVec3::new(anchor.x, anchor.y, anchor.z + 1),
            UVec3::new(anchor.x, anchor.y + 1, anchor.z + 1),
            UVec3::new(anchor.x, anchor.y + 1, anchor.z),
        ],
        SliceAxis::Y => [
            UVec3::new(anchor.x, anchor.y, anchor.z),
            UVec3::new(anchor.x + 1, anchor.y, anchor.z),
            UVec3::new(anchor.x + 1, anchor.y, anchor.z + 1),
            UVec3::new(anchor.x, anchor.y, anchor.z + 1),
        ],
        SliceAxis::Z => [
            UVec3::new(anchor.x, anchor.y, anchor.z),
            UVec3::new(anchor.x, anchor.y + 1, anchor.z),
            UVec3::new(anchor.x + 1, anchor.y + 1, anchor.z),
            UVec3::new(anchor.x + 1, anchor.y, anchor.z),
        ],
    }
}

/// Swaps the orientation of every face.
pub fn flip_winding(faces: &mut [[u32; 3]])
    ensures
        final(faces)@.len() == old(faces)@.len(),
        forall|i: int|
            0 <= i < old(faces)@.len() ==> #[trigger] final(faces)@[i] == flipped(old(faces)@[i]),
{
    flip_face_winding(faces);
}

/// One level of a slice.
pub struct SliceLevel<'a, S, T: Copy + PartialEq> {
    pub level_index: usize,
    pub index_origin: IVec3,
    pub physical_origin: Vec3<S>,
    pub cell_size: Vec3<S>,
    pub sampled_quantities: Vec<&'a SparseGrid3<T>>,
    pub active_cubes: SparseGrid3<Present>,
}

impl<'a, S, T: Copy + PartialEq> SliceLevel<'a, S, T> {
    /// All grids are well-formed.
    pub open spec fn wf(self) -> bool {
        &&& self.active_cubes.wf()
        &&& forall|c: int|
            0 <= c < self.sampled_quantities@.len() ==> (
            #[trigger] self.sampled_quantities@[c]).wf()
    }
}

/// `d` is the slice level of the chosen level in place `j`. The first sampled quantity of the
/// next chosen level hides its cubes.
pub open spec fn is_slice_level<S, T: Copy + PartialEq>(
    plot: CompactPlot<S, T>,
    places: Seq<int>,
    slots: Seq<usize>,
    j: int,
    d: SliceLevel<'_, S, T>,
) -> bool {
    let level = plot.levels@[places[j]];
    &&& d.level_index == level.level_index
    &&& d.index_origin == level.index_origin
    &&& d.physical_origin == level.physical_origin
    &&& d.cell_size == level.cell_size
    &&& slots_exist(level, slots)
    &&& grids_in(level.components@, slots, d.sampled_quantities@)
    &&& uncovered(
        level.eligible_cubes,
        d.active_cubes,
        cover_of(plot, places, slots[0] as int, j),
    )
}

/// What is wrong with the chosen level in place `j`, if anything.
pub open spec fn slice_level_refusal<S, T: Copy + PartialEq>(
    plot: CompactPlot<S, T>,
    places: Seq<int>,
    slots: Seq<usize>,
    j: int,
) -> Option<ExtractError> {
    let level = plot.levels@[places[j]];
    if j > 0 && ratio_below(plot.refinement_ratios@, level.level_index) is Err {
        Some(ratio_below(plot.refinement_ratios@, level.level_index)->Err_0)
    } else if !slots_exist(level, slots) {
        Some(ExtractError::MissingSlot)
    } else {
        None
    }
}

/// Why slice levels cannot be built.
pub open spec fn slice_refusal<S, T: Copy + PartialEq>(
    plot: CompactPlot<S, T>,
    sampled: Seq<usize>,
    range: Option<LevelRange>,
) -> Option<ExtractError> {
    match slots_of(plot.component_ids@, sampled) {
        Err(e) => Some(e),
        Ok(slots) => {
            let places = all_chosen(plot, range);
            first_refusal(
                Seq::new(places.len(), |j: int| j),
                |j: int| slice_level_refusal(plot, places, slots, j),
            )
        },
    }
}

/// Builds the slice levels of the chosen levels.
pub fn slice_levels_from_compact<'a, S: Copy, T: Copy + PartialEq>(
    plot: &'a CompactPlot<S, T>,
    sampled_components: &[usize],
    level_range: Option<LevelRange>,
) -> (r: Result<Vec<SliceLevel<'a, S, T>>, ExtractError>)
    requires
        plot.wf(),
        sampled_components@.len() > 0,
    ensures
        match r {
            Err(e) => slice_refusal(*plot, sampled_components@, level_range) == Some(e),
            Ok(levels) => {
                let places = all_chosen(*plot, level_range);
                let slots = slots_of(plot.component_ids@, sampled_components@)->Ok_0;
                &&& slice_refusal(*plot, sampled_components@, level_range) is None
                &&& levels@.len() == places.len()
                &&& forall|j: int|
                    0 <= j < levels@.len() ==> is_slice_level(
                        *plot,
                        places,
                        slots,
                        j,
                        #[trigger] levels@[j],
                    )
            },
        },
{
    let slots = match find_slots(plot, sampled_components) {
        Ok(slots) => slots,
        Err(e) => return Err(e),
    };
    build_slice_levels(plot, &slots, level_range)
}

fn build_slice_levels<'a, S: Copy, T: Copy + PartialEq>(
    plot: &'a CompactPlot<S, T>,
    slots: &Vec<usize>,
    level_range: Option<LevelRange>,
) -> (r: Result<Vec<SliceLevel<'a, S, T>>, ExtractError>)
    requires
        plot.wf(),
        slots@.len() > 0,
    ensures
        ({
            let places = all_chosen(*plot, level_range);
            let refusal = |j: int| slice_level_refusal(*plot, places, slots@, j);
            match r {
                Err(e) => first_refusal(Seq::new(places.len(), |j: int| j), refusal) == Some(e),
                Ok(levels) => {
                    &&& first_refusal(Seq::new(places.len(), |j: int| j), refusal) is None
                    &&& levels@.len() == places.len()
                    &&& forall|j: int|
                        0 <= j < levels@.len() ==> is_slice_level(
                            *plot,
                            places,
                            slots@,
                            j,
                            #[trigger] levels@[j],
                        )
                },
            }
        }),
{
    let ghost places = all_chosen(*plot, level_range);
    let ghost refusal = |j: int| slice_level_refusal(*plot, places, slots@, j);
    let ghost count = plot.levels@.len();
    let mut out: Vec<SliceLevel<'a, S, T>> = Vec::with_capacity(plot.levels.len());
    let mut l: usize = 0;
    while l < plot.levels.len()
        invariant
            l <= plot.levels@.len(),
            count == plot.levels@.len(),
            plot.wf(),
            slots@.len() > 0,
            places == all_chosen(*plot, level_range),
            refusal == (|j: int| slice_level_refusal(*plot, places, slots@, j)),
            out@.len() == chosen(plot.levels@, level_range, l as nat).len(),
            forall|j: int| 0 <= j < out@.len() ==> #[trigger] refusal(j) is None,
            forall|j: int|
                0 <= j < out@.len() ==> is_slice_level(
                    *plot,
                    chosen(plot.levels@, level_range, l as nat),
                    slots@,
                    j,
                    #[trigger] out@[j],
                ),
        decreases plot.levels@.len() - l,
    {
        let level = &plot.levels[l];
        assert(plot.levels@[l as int].wf());
        let ghost now = chosen(plot.levels@, level_range, l as nat);
        let ghost next = chosen(plot.levels@, level_range, (l + 1) as nat);
        if level_in_range(level.level_index, level_range) {
            let ghost n = out@.len() as int;
            let ghost before = out@;
            proof {
                assert(next == now.push(l as int));
                lemma_chosen_prefix(plot.levels@, level_range, (l + 1) as nat, count);
                lemma_chosen_prefix(plot.levels@, level_range, l as nat, count);
                assert(places[n] == l);
            }
            if out.len() > 0 {
                let ratio = match find_ratio(&plot.refinement_ratios, level.level_index) {
                    Ok(ratio) => ratio,
                    Err(e) => {
                        proof {
                            lemma_place_refusal(places.len(), refusal, n);
                        }
                        return Err(e);
                    },
                };
                let last = out.len() - 1;
                assert(is_slice_level(*plot, now, slots@, last as int, out@[last as int]));
                let translation = match level_translation(
                    out[last].index_origin,
                    level.index_origin,
                    ratio,
                ) {
                    Ok(translation) => translation,
                    Err(_) => return Err(ExtractError::RatioTooLarge),
                };
                if slots[0] >= level.components.len() {
                    proof {
                        assert(!slots_exist(plot.levels@[l as int], slots@));
                        lemma_place_refusal(places.len(), refusal, n);
                    }
                    return Err(ExtractError::MissingSlot);
                }
                assert(level.components@[slots@[0] as int].wf());
                out[last].active_cubes.mask_out_by_presence_scaled(
                    &level.components[slots[0]],
                    ratio,
                    translation,
                );
            }
            let sampled_quantities = match find_grids(level, slots) {
                Ok(grids) => grids,
                Err(e) => {
                    proof {
                        lemma_place_refusal(places.len(), refusal, n);
                    }
                    return Err(e);
                },
            };
            let active_cubes = level.eligible_cubes.clone();
            out.push(
                SliceLevel {
                    level_index: level.level_index,
                    index_origin: level.index_origin,
                    physical_origin: level.physical_origin,
                    cell_size: level.cell_size,
                    sampled_quantities,
                    active_cubes,
                },
            );
            proof {
                assert(refusal(n) is None);
                assert forall|j: int| 0 <= j < out@.len() implies is_slice_level(
                    *plot,
                    next,
                    slots@,
                    j,
                    #[trigger] out@[j],
                ) by {
                    if j < n - 1 {
                        assert(out@[j] == before[j]);
                        assert(is_slice_level(*plot, now, slots@, j, before[j]));
                    } else if j == n - 1 {
                        assert(is_slice_level(*plot, now, slots@, j, before[j]));
                    } else {
                        lemma_same_mask(level.eligible_cubes, out@[j].active_cubes);
                    }
                }
            }
        }
        l += 1;
    }
    proof {
        lemma_place_refusal(places.len(), refusal, places.len() as int);
    }
    Ok(out)
}

/// What is wrong with the samples of a slice, if anything.
pub open spec fn slice_samples_refusal<S>(
    samples: Seq<Sample<S>>,
    variable_count: usize,
    finite: spec_fn(S) -> bool,
    less: spec_fn(S, S) -> bool,
) -> Option<ExtractError> {
    if samples.len() == 0 {
        Some(ExtractError::NoSamples)
    } else {
        samples_refusal(samples, variable_count, finite, less)
    }
}

/// Checks the samples of a slice: one or two, of components that exist, with finite ranges
/// that are not empty.
pub fn validate_slice_options<S: Copy, F: Fn(S) -> bool, L: Fn(S, S) -> bool>(
    variable_count: usize,
    samples: &[Sample<S>],
    finite: &F,
    less: &L,
) -> (r: Result<Vec<SampleSpec<S>>, ExtractError>)
    requires
        total1(*finite),
        total2(*less),
    ensures
        r matches Ok(v) ==> v@ == specs_of(samples@) && v@.len() > 0,
        forall|f: spec_fn(S) -> bool, l: spec_fn(S, S) -> bool|
            #![trigger computes1(*finite, f), computes2(*less, l)]
            computes1(*finite, f) && computes2(*less, l) ==> slice_samples_refusal(
                samples@,
                variable_count,
                f,
                l,
            ) == match r {
                Ok(_) => None,
                Err(e) => Some(e),
            },
{
    if samples.len() == 0 {
        return Err(ExtractError::NoSamples);
    }
    validate_sample_specs_for_len(variable_count, samples, finite, less)
}

/// Why a point of a slice could not be sampled.
#[derive(Debug, Clone, Copy, PartialEq, Eq, Structural)]
pub enum SliceSampleError {
    /// The upper point lies outside the coordinate range.
    CoordinateOverflow,
    /// A sample is absent.
    Missing(UVec3),
}

/// The samples just below and just above a plane, for each sampled quantity.
pub fn sample_pairs<T: Copy + PartialEq>(
    grids: &Vec<&SparseGrid3<T>>,
    axis: SliceAxis,
    lower: UVec3,
) -> (r: Result<Vec<(T, T)>, SliceSampleError>)
    requires
        forall|i: int| 0 <= i < grids@.len() ==> (#[trigger] grids@[i]).wf(),
    ensures
        along(lower, axis) == u32::MAX ==> r == Err::<Vec<(T, T)>, SliceSampleError>(
            SliceSampleError::CoordinateOverflow,
        ),
        along(lower, axis) < u32::MAX ==> match r {
            Ok(v) => v@.len() == grids@.len() && forall|i: int|
                0 <= i < v@.len() ==> grids@[i].at(lower) == Some((#[trigger] v@[i]).0)
                    && grids@[i].at(above(lower, axis)) == Some(v@[i].1),
            Err(SliceSampleError::CoordinateOverflow) => false,
            Err(SliceSampleError::Missing(p)) => exists|i: int|
                0 <= i < grids@.len() && (forall|j: int|
                    0 <= j < i ==> grids@[j].at(lower) is Some && #[trigger] grids@[j].at(
                        above(lower, axis),
                    ) is Some) && (if #[trigger] grids@[i].at(lower) is None {
                    p == lower
                } else {
                    grids@[i].at(above(lower, axis)) is None && p == above(lower, axis)
                }),
        },
{
    let upper = match add_axis(lower, axis, 1) {
        Some(p) => p,
        None => return Err(SliceSampleError::CoordinateOverflow),
    };
    assert(upper == above(lower, axis));
    let mut out: Vec<(T, T)> = Vec::with_capacity(grids.len());
    let mut i: usize = 0;
    while i < grids.len()
        invariant
            i <= grids@.len(),
            along(lower, axis) < u32::MAX,
            upper == above(lower, axis),
            forall|j: int| 0 <= j < grids@.len() ==> (#[trigger] grids@[j]).wf(),
            out@.len() == i,
            forall|j: int|
                0 <= j < i ==> grids@[j].at(lower) == Some((#[trigger] out@[j]).0)
                    && grids@[j].at(upper) == Some(out@[j].1),
        decreases grids@.len() - i,
    {
        assert(grids@[i as int].wf());
        proof {
            assert forall|j: int| 0 <= j < i implies grids@[j].at(lower) is Some
                && #[trigger] grids@[j].at(upper) is Some by {
                assert(grids@[j].at(lower) == Some(out@[j].0));
            }
        }
        let first = match grids[i].get(lower) {
            Some(v) => v,
            None => {
                assert(grids@[i as int].at(lower) is None);
                return Err(SliceSampleError::Missing(lower));
            },
        };
        let second = match grids[i].get(upper) {
            Some(v) => v,
            None => {
                assert(grids@[i as int].at(lower) is Some);
                return Err(SliceSampleError::Missing(upper));
            },
        };
        out.push((first, second));
        i += 1;
    }
    Ok(out)
}

/// The next lattice point along an axis.
pub open spec fn above(p: UVec3, axis: SliceAxis) -> UVec3 {
    match axis {
        SliceAxis::X => UVec3 { x: (p.x + 1) as u32, y: p.y, z: p.z },
        SliceAxis::Y => UVec3 { x: p.x, y: (p.y + 1) as u32, z: p.z },
        SliceAxis::Z => UVec3 { x: p.x, y: p.y, z: (p.z + 1) as u32 },
    }
}

/// Vertex keys and faces of a slice under construction.
pub struct QuadState {
    pub keys: Seq<VertexKey>,
    pub faces: Seq<[u32; 3]>,
}

/// The first place where a corner of a quadrilateral cannot be seated, if any; corners are
/// seated in order.
pub open spec fn quad_error<V, E>(
    keys: Seq<VertexKey>,
    c: Seq<UVec3>,
    make: Maker<V, E>,
    n: nat,
) -> Option<BuildError<E>>
    decreases n,
{
    if n == 0 {
        None
    } else {
        let before = quad_error(keys, c, make, (n - 1) as nat);
        if before is Some {
            before
        } else {
            seat_error(quad_keys(keys, c, (n - 1) as nat), VertexKey::Grid(c[n - 1]), make)
        }
    }
}

/// The keys after the first `n` corners are seated.
pub open spec fn quad_keys(keys: Seq<VertexKey>, c: Seq<UVec3>, n: nat) -> Seq<VertexKey>
    decreases n,
{
    if n == 0 {
        keys
    } else {
        seated(quad_keys(keys, c, (n - 1) as nat), VertexKey::Grid(c[n - 1]))
    }
}

/// The slice with one quadrilateral added, as two triangles that share its first and third
/// corner.
pub open spec fn quad_added(s: QuadState, c: Seq<UVec3>) -> QuadState {
    let keys = quad_keys(s.keys, c, 4);
    let a = seat_of(keys, VertexKey::Grid(c[0])) as u32;
    let b = seat_of(keys, VertexKey::Grid(c[1])) as u32;
    let d = seat_of(keys, VertexKey::Grid(c[2])) as u32;
    let e = seat_of(keys, VertexKey::Grid(c[3])) as u32;
    QuadState { keys, faces: s.faces.push([a, b, d]).push([a, d, e]) }
}

/// The slice with one quadrilateral added, if its corners can be seated.
pub open spec fn with_quad<V, E>(
    s: QuadState,
    c: Seq<UVec3>,
    make: Maker<V, E>,
) -> Result<QuadState, BuildError<E>> {
    match quad_error(s.keys, c, make, 4) {
        Some(e) => Err(e),
        None => Ok(quad_added(s, c)),
    }
}

/// The slice after the first `n` anchors of a list. Anchors in other layers are passed over.
pub open spec fn with_anchors<V, E>(
    anchors: Seq<UVec3>,
    n: nat,
    axis: SliceAxis,
    layer: u32,
    make: Maker<V, E>,
) -> Result<QuadState, BuildError<E>>
    decreases n,
{
    if n == 0 {
        Ok(QuadState { keys: Seq::empty(), faces: Seq::empty() })
    } else {
        match with_anchors(anchors, (n - 1) as nat, axis, layer, make) {
            Err(e) => Err(e),
            Ok(s) => if along(anchors[n - 1], axis) == layer {
                with_quad(s, quad_points(axis, anchors[n - 1]), make)
            } else {
                Ok(s)
            },
        }
    }
}

/// Once an anchor fails, the list fails.
proof fn lemma_anchors_fail<V, E>(
    anchors: Seq<UVec3>,
    i: nat,
    n: nat,
    axis: SliceAxis,
    layer: u32,
    make: Maker<V, E>,
)
    requires
        i <= n,
        with_anchors(anchors, i, axis, layer, make) is Err,
    ensures
        with_anchors(anchors, n, axis, layer, make) == with_anchors(
            anchors,
            i,
            axis,
            layer,
            make,
        ),
    decreases n,
{
    if i < n {
        lemma_anchors_fail(anchors, i, (n - 1) as nat, axis, layer, make);
    }
}

/// Adds a quadrilateral.
fn emit_quad<V: Copy, E, M: Fn(VertexKey) -> Result<V, E>>(
    mesher: &mut Mesher<V>,
    faces: &mut Vec<[u32; 3]>,
    corners: [UVec3; 4],
    make: &M,
) -> (r: Result<(), BuildError<E>>)
    requires
        old(mesher).wf(*make),
        total1(*make),
    ensures
        final(mesher).wf(*make),
        r is Ok ==> quad_added(
            QuadState { keys: old(mesher).state().keys, faces: old(faces)@ },
            corners@,
        ) == (QuadState { keys: final(mesher).state().keys, faces: final(faces)@ }),
        forall|g: Maker<V, E>| #[trigger]
            computes1(*make, g) ==> ({
                let s = QuadState { keys: old(mesher).state().keys, faces: old(faces)@ };
                with_quad(s, corners@, g) == match r {
                    Ok(()) => Ok::<QuadState, BuildError<E>>(
                        QuadState { keys: final(mesher).state().keys, faces: final(faces)@ },
                    ),
                    Err(e) => Err(e),
                }
            }),
{
    let ghost k0 = mesher.state().keys;
    let ghost c = corners@;
    let ghost k1 = seated(k0, VertexKey::Grid(c[0]));
    let ghost k2 = seated(k1, VertexKey::Grid(c[1]));
    let ghost k3 = seated(k2, VertexKey::Grid(c[2]));
    let ghost k4 = seated(k3, VertexKey::Grid(c[3]));
    proof {
        reveal_with_fuel(quad_keys, 5);
        reveal_with_fuel(quad_error, 5);
        mesher.pool.lemma_wf();
        lemma_seated(k0, VertexKey::Grid(c[0]));
        lemma_seated(k1, VertexKey::Grid(c[1]));
        lemma_seated(k2, VertexKey::Grid(c[2]));
        lemma_seated(k3, VertexKey::Grid(c[3]));
    }
    let a = match mesher.vertex(VertexKey::Grid(corners[0]), make) {
        Ok(id) => id,
        Err(e) => return Err(e),
    };
    let b = match mesher.vertex(VertexKey::Grid(corners[1]), make) {
        Ok(id) => id,
        Err(e) => return Err(e),
    };
    let d = match mesher.vertex(VertexKey::Grid(corners[2]), make) {
        Ok(id) => id,
        Err(e) => return Err(e),
    };
    let e = match mesher.vertex(VertexKey::Grid(corners[3]), make) {
        Ok(id) => id,
        Err(e) => return Err(e),
    };
    proof {
        assert(k1.contains(VertexKey::Grid(c[0])));
        assert(k2.contains(VertexKey::Grid(c[0])) && k2.contains(VertexKey::Grid(c[1])));
        assert(k3.contains(VertexKey::Grid(c[0])) && k3.contains(VertexKey::Grid(c[1]))
            && k3.contains(VertexKey::Grid(c[2])));
    }
    faces.push([a, b, d]);
    faces.push([a, d, e]);
    Ok(())
}

/// `mesh` has these keys and faces, and the vertices that `make` gives.
pub open spec fn is_slice_mesh<P, U, E>(
    mesh: Mesh3D<P, U>,
    s: QuadState,
    make: Maker<(P, U), E>,
) -> bool {
    &&& mesh.positions@.len() == s.keys.len()
    &&& mesh.uv@.len() == s.keys.len()
    &&& forall|i: int|
        0 <= i < s.keys.len() ==> make(#[trigger] s.keys[i]) == Ok::<(P, U), E>(
            (mesh.positions@[i], mesh.uv@[i]),
        )
    &&& mesh.indices@ == s.faces
}

/// `r` is what slicing the cubes of a list gives.
pub open spec fn sliced<P, U, E>(
    anchors: Seq<UVec3>,
    axis: SliceAxis,
    layer: u32,
    make: Maker<(P, U), E>,
    r: Result<Mesh3D<P, U>, BuildError<E>>,
) -> bool {
    match with_anchors(anchors, anchors.len(), axis, layer, make) {
        Ok(s) => r matches Ok(mesh) && is_slice_mesh(mesh, s, make),
        Err(e) => r matches Err(f) && f == e,
    }
}

/// Twice the area vector of the triangle between three lattice points.
pub open spec fn area_vector(p: UVec3, q: UVec3, r: UVec3) -> (int, int, int) {
    let (ux, uy, uz) = (q.x - p.x, q.y - p.y, q.z - p.z);
    let (vx, vy, vz) = (r.x - p.x, r.y - p.y, r.z - p.z);
    (uy * vz - uz * vy, uz * vx - ux * vz, ux * vy - uy * vx)
}

/// Both triangles of every quadrilateral face down the slice axis.
pub proof fn law_quads_face_down(axis: SliceAxis, anchor: UVec3)
    requires
        anchor.x < u32::MAX,
        anchor.y < u32::MAX,
        anchor.z < u32::MAX,
    ensures
        ({
            let c = quad_points(axis, anchor);
            let down = match axis {
                SliceAxis::X => (-1int, 0int, 0int),
                SliceAxis::Y => (0int, -1int, 0int),
                SliceAxis::Z => (0int, 0int, -1int),
            };
            &&& area_vector(c[0], c[1], c[2]) == down
            &&& area_vector(c[0], c[2], c[3]) == down
        }),
{
    let c = quad_points(axis, anchor);
    lemma_area(c[0], c[1], c[2]);
    lemma_area(c[0], c[2], c[3]);
}

/// Products of coordinate steps of zero or one.
proof fn lemma_area(p: UVec3, q: UVec3, r: UVec3)
    requires
        step_or_same(p.x, q.x) && step_or_same(p.y, q.y) && step_or_same(p.z, q.z),
        step_or_same(p.x, r.x) && step_or_same(p.y, r.y) && step_or_same(p.z, r.z),
    ensures
        ({
            let (ux, uy, uz) = (q.x - p.x, q.y - p.y, q.z - p.z);
            let (vx, vy, vz) = (r.x - p.x, r.y - p.y, r.z - p.z);
            area_vector(p, q, r) == (
                both(uy, vz) - both(uz, vy),
                both(uz, vx) - both(ux, vz),
                both(ux, vy) - both(uy, vx),
            )
        }),
{
    let (ux, uy, uz) = (q.x - p.x, q.y - p.y, q.z - p.z);
    let (vx, vy, vz) = (r.x - p.x, r.y - p.y, r.z - p.z);
    lemma_both(uy, vz);
    lemma_both(uz, vy);
    lemma_both(uz, vx);
    lemma_both(ux, vz);
    lemma_both(ux, vy);
    lemma_both(uy, vx);
}

/// One when both numbers are one, for numbers that are zero or one.
spec fn both(a: int, b: int) -> int {
    if a == 1 && b == 1 {
        1
    } else {
        0
    }
}

/// The product of numbers that are zero or one.
proof fn lemma_both(a: int, b: int)
    requires
        0 <= a <= 1,
        0 <= b <= 1,
    ensures
        a * b == both(a, b),
{
    if a == 1 {
        assert(a * b == b) by (nonlinear_arith)
            requires
                a == 1,
        ;
    } else {
        assert(a * b == 0) by (nonlinear_arith)
            requires
                a == 0,
        ;
    }
}

/// How many of the first `n` anchors lie in the layer.
pub open spec fn in_layer(anchors: Seq<UVec3>, n: nat, axis: SliceAxis, layer: u32) -> nat
    decreases n,
{
    if n == 0 {
        0
    } else if along(anchors[n - 1], axis) == layer {
        in_layer(anchors, (n - 1) as nat, axis, layer) + 1
    } else {
        in_layer(anchors, (n - 1) as nat, axis, layer)
    }
}

/// Keys are distinct, and every face has three different corners that are vertices.
pub open spec fn well_formed(s: QuadState) -> bool {
    &&& s.keys.no_duplicates()
    &&& s.keys.len() <= 0x1_0000_0000
    &&& forall|i: int|
        0 <= i < s.faces.len() ==> corners_below(#[trigger] s.faces[i], s.keys.len())
            && !repeats(s.faces[i])
}

/// A quadrilateral with four different corners adds two faces with seated corners.
proof fn lemma_quad_added(s: QuadState, c: Seq<UVec3>)
    requires
        well_formed(s),
        c.len() == 4,
        c[0] != c[1],
        c[0] != c[2],
        c[0] != c[3],
        c[1] != c[2],
        c[2] != c[3],
        quad_added(s, c).keys.len() <= 0x1_0000_0000,
    ensures
        well_formed(quad_added(s, c)),
        quad_added(s, c).faces.len() == s.faces.len() + 2,
{
    let (a, b, d, e) = (
        VertexKey::Grid(c[0]),
        VertexKey::Grid(c[1]),
        VertexKey::Grid(c[2]),
        VertexKey::Grid(c[3]),
    );
    reveal_with_fuel(quad_keys, 5);
    let k1 = seated(s.keys, a);
    let k2 = seated(k1, b);
    let k3 = seated(k2, d);
    let k4 = seated(k3, e);
    lemma_seated(s.keys, a);
    lemma_seated(k1, b);
    lemma_seated(k2, d);
    lemma_seated(k3, e);
    assert(k2.contains(a) && k2.contains(b));
    assert(k3.contains(a) && k3.contains(b) && k3.contains(d));
    assert(k4.contains(a) && k4.contains(b) && k4.contains(d) && k4.contains(e));
    let t = quad_added(s, c);
    assert(t.keys == k4);
    assert(k4[seat_of(k4, a)] == a && k4[seat_of(k4, b)] == b && k4[seat_of(k4, d)] == d
        && k4[seat_of(k4, e)] == e);
    assert forall|i: int| 0 <= i < t.faces.len() implies corners_below(
        #[trigger] t.faces[i],
        t.keys.len(),
    ) && !repeats(t.faces[i]) by {
        if i < s.faces.len() {
            assert(t.faces[i] == s.faces[i]);
            assert(corners_below(s.faces[i], s.keys.len()));
        }
    }
}

/// Seating the corners of a quadrilateral keeps the number of keys in range.
proof fn lemma_quad_seats<V, E>(s: QuadState, c: Seq<UVec3>, make: Maker<V, E>)
    requires
        well_formed(s),
    ensures
        with_quad(s, c, make) matches Ok(t) ==> t.keys.len() <= 0x1_0000_0000,
{
    let (a, b, d, e) = (
        VertexKey::Grid(c[0]),
        VertexKey::Grid(c[1]),
        VertexKey::Grid(c[2]),
        VertexKey::Grid(c[3]),
    );
    reveal_with_fuel(quad_keys, 5);
    reveal_with_fuel(quad_error, 5);
    let k1 = seated(s.keys, a);
    let k2 = seated(k1, b);
    let k3 = seated(k2, d);
    lemma_seated(s.keys, a);
    lemma_seated(k1, b);
    lemma_seated(k2, d);
    lemma_seated(k3, e);
}

/// The active cubes of a layer.
pub open spec fn layer_cubes(
    active: SparseGrid3<Present>,
    axis: SliceAxis,
    layer: u32,
) -> Set<UVec3> {
    Set::new(|p: UVec3| active.at(p) is Some && along(p, axis) == layer)
}

/// The first `n` anchors that lie in the layer are as many as `in_layer` says.
proof fn lemma_in_layer(
    active: SparseGrid3<Present>,
    anchors: Seq<UVec3>,
    n: nat,
    axis: SliceAxis,
    layer: u32,
)
    requires
        n <= anchors.len(),
        layer_walk(active, anchors),
    ensures
        ({
            let s = anchors_in_layer(anchors, n, axis, layer);
            s.finite() && s.len() == in_layer(anchors, n, axis, layer)
        }),
    decreases n,
{
    let s = anchors_in_layer(anchors, n, axis, layer);
    if n == 0 {
        assert(s =~= Set::empty());
    } else {
        let m = (n - 1) as nat;
        let before = anchors_in_layer(anchors, m, axis, layer);
        let p = anchors[n - 1];
        lemma_in_layer(active, anchors, m, axis, layer);
        if before.contains(p) {
            let a = choose|a: int| 0 <= a < m && #[trigger] anchors[a] == p;
            assert(visited_before(anchors[a], anchors[n - 1]));
        }
        assert forall|q: UVec3| s.contains(q) <==> before.contains(q) || (q == p && along(p, axis)
            == layer) by {
            if before.contains(q) {
                let a = choose|a: int| 0 <= a < m && #[trigger] anchors[a] == q;
                assert(anchors[a] == q && a < n);
            }
            if s.contains(q) {
                let a = choose|a: int| 0 <= a < n && #[trigger] anchors[a] == q;
                if a < m {
                    assert(anchors[a] == q);
                }
            }
            if q == p {
                assert(anchors[n - 1] == q);
            }
        }
        if along(p, axis) == layer {
            assert(s =~= before.insert(p));
        } else {
            assert(s =~= before);
        }
    }
}

/// The points among the first `n` anchors that lie in the layer.
spec fn anchors_in_layer(anchors: Seq<UVec3>, n: nat, axis: SliceAxis, layer: u32) -> Set<UVec3> {
    Set::new(
        |p: UVec3|
            along(p, axis) == layer && exists|a: int| 0 <= a < n && #[trigger] anchors[a] == p,
    )
}

/// The anchors of a walk that lie in the layer are the active cubes of the layer, each once.
pub proof fn lemma_layer_cubes(
    active: SparseGrid3<Present>,
    anchors: Seq<UVec3>,
    axis: SliceAxis,
    layer: u32,
)
    requires
        layer_walk(active, anchors),
    ensures
        layer_cubes(active, axis, layer).finite(),
        layer_cubes(active, axis, layer).len() == in_layer(anchors, anchors.len(), axis, layer),
{
    lemma_in_layer(active, anchors, anchors.len(), axis, layer);
    let s = anchors_in_layer(anchors, anchors.len(), axis, layer);
    let t = layer_cubes(active, axis, layer);
    assert forall|p: UVec3| s.contains(p) <==> t.contains(p) by {
        if t.contains(p) {
            assert(anchors.contains(p));
            let a = choose|a: int| 0 <= a < anchors.len() && #[trigger] anchors[a] == p;
            assert(anchors[a] == p);
        }
        if s.contains(p) {
            let a = choose|a: int| 0 <= a < anchors.len() && #[trigger] anchors[a] == p;
            assert(active.at(anchors[a]) is Some);
        }
    }
    assert(s =~= t);
}

/// A slice has two triangles per active cube of its layer. Their corners are vertices, and
/// different.
pub proof fn law_slice_faces<V, E>(
    active: SparseGrid3<Present>,
    anchors: Seq<UVec3>,
    n: nat,
    axis: SliceAxis,
    layer: u32,
    make: Maker<V, E>,
)
    requires
        n <= anchors.len(),
        layer_walk(active, anchors),
    ensures
        with_anchors(anchors, n, axis, layer, make) matches Ok(s) ==> well_formed(s)
            && s.faces.len() == 2 * in_layer(anchors, n, axis, layer),
    decreases n,
{
    if n > 0 {
        law_slice_faces(active, anchors, (n - 1) as nat, axis, layer, make);
        if let Ok(s) = with_anchors(anchors, (n - 1) as nat, axis, layer, make) {
            let anchor = anchors[n - 1];
            assert(active.at(anchor) is Some);
            assert(inside(anchor, active.limits()));
            if along(anchor, axis) == layer {
                lemma_quad_seats(s, quad_points(axis, anchor), make);
                if with_quad(s, quad_points(axis, anchor), make) is Ok {
                    lemma_quad_added(s, quad_points(axis, anchor));
                }
            }
        }
    }
}

/// Meshes the layer `layer` of active cubes: one quadrilateral per cube, vertices shared.
pub fn mesh_level<P: Copy, U: Copy, E, M: Fn(VertexKey) -> Result<(P, U), E>>(
    active: &SparseGrid3<Present>,
    axis: SliceAxis,
    layer: u32,
    make: &M,
) -> (r: Result<Mesh3D<P, U>, BuildError<E>>)
    requires
        active.wf(),
        total1(*make),
    ensures
        exists|anchors: Seq<UVec3>| #[trigger]
            layer_walk(*active, anchors) && forall|g: Maker<(P, U), E>| #[trigger]
                computes1(*make, g) ==> sliced(anchors, axis, layer, g, r),
        r matches Ok(mesh) ==> layer_meshed(*active, axis, layer, mesh@),
{
    let full = active.bounds_aabb();
    let anchors = list_anchors(active, full);
    assert(layer_walk(*active, anchors@)) by {
        assert forall|p: UVec3| (#[trigger] active.at(p)) is Some implies anchors@.contains(p) by {
            assert(full.has(p));
        }
    }
    let mut mesher: Mesher<(P, U)> = Mesher::new();
    let mut faces: Vec<[u32; 3]> = Vec::new();
    let mut n: usize = 0;
    assert(faces@ =~= Seq::empty());
    while n < anchors.len()
        invariant
            n <= anchors@.len(),
            layer_walk(*active, anchors@),
            forall|a: int|
                0 <= a < anchors@.len() ==> inside(#[trigger] anchors@[a], active.limits()),
            mesher.wf(*make),
            total1(*make),
            well_formed(QuadState { keys: mesher.state().keys, faces: faces@ }),
            faces@.len() == 2 * in_layer(anchors@, n as nat, axis, layer),
            forall|g: Maker<(P, U), E>| #[trigger]
                computes1(*make, g) ==> with_anchors(anchors@, n as nat, axis, layer, g) == Ok::<
                    QuadState,
                    BuildError<E>,
                >(QuadState { keys: mesher.state().keys, faces: faces@ }),
        decreases anchors@.len() - n,
    {
        let anchor = anchors[n];
        assert(inside(anchors@[n as int], active.limits()));
        if component(anchor, axis) == layer {
            let corners = quad_corners(axis, anchor);
            assert(corners@ == quad_points(axis, anchor));
            let ghost before = QuadState { keys: mesher.state().keys, faces: faces@ };
            match emit_quad(&mut mesher, &mut faces, corners, make) {
                Ok(()) => {
                    proof {
                        mesher.pool.lemma_wf();
                        lemma_quad_added(before, corners@);
                    }
                },
                Err(e) => {
                    proof {
                        assert forall|g: Maker<(P, U), E>| #[trigger]
                            computes1(*make, g) implies with_anchors(
                            anchors@,
                            anchors@.len(),
                            axis,
                            layer,
                            g,
                        ) == Err::<QuadState, BuildError<E>>(e) by {
                            lemma_anchors_fail(
                                anchors@,
                                (n + 1) as nat,
                                anchors@.len(),
                                axis,
                                layer,
                                g,
                            );
                        }
                    }
                    return Err(e);
                },
            }
        }
        n += 1;
    }
    let ghost s = QuadState { keys: mesher.state().keys, faces: faces@ };
    proof {
        mesher.pool.lemma_wf();
    }
    let ghost keys = mesher.pool.keys();
    assert(forall|i: int|
        0 <= i < keys.len() ==> call_ensures(
            *make,
            (#[trigger] keys[i],),
            Ok::<(P, U), E>(mesher.pool.list()[i]),
        ));
    let ghost all = mesher.pool.list();
    let vertices = mesher.pool.into_vertices();
    let mut positions: Vec<P> = Vec::with_capacity(vertices.len());
    let mut uv: Vec<U> = Vec::with_capacity(vertices.len());
    let mut i: usize = 0;
    while i < vertices.len()
        invariant
            i <= vertices@.len(),
            positions@.len() == i,
            uv@.len() == i,
            forall|j: int| 0 <= j < i ==> #[trigger] positions@[j] == vertices@[j].0,
            forall|j: int| 0 <= j < i ==> #[trigger] uv@[j] == vertices@[j].1,
        decreases vertices@.len() - i,
    {
        positions.push(vertices[i].0);
        uv.push(vertices[i].1);
        i += 1;
    }
    let mesh = Mesh3D { positions, uv, indices: faces };
    proof {
        assert forall|g: Maker<(P, U), E>| #[trigger] computes1(*make, g) implies sliced(
            anchors@,
            axis,
            layer,
            g,
            Ok::<Mesh3D<P, U>, BuildError<E>>(mesh),
        ) by {
            assert forall|i: int| 0 <= i < s.keys.len() implies g(#[trigger] s.keys[i]) == Ok::<
                (P, U),
                E,
            >((mesh.positions@[i], mesh.uv@[i])) by {
                assert(call_ensures(*make, (keys[i],), Ok::<(P, U), E>(all[i])));
                assert(mesh.positions@[i] == vertices@[i].0);
                assert(mesh.uv@[i] == vertices@[i].1);
            }
            assert(is_slice_mesh(mesh, s, g));
        }
        assert(layer_walk(*active, anchors@));
        lemma_layer_cubes(*active, anchors@, axis, layer);
        assert forall|i: int| 0 <= i < mesh@.indices.len() implies face_within(
            #[trigger] mesh@.indices[i],
            mesh@.positions.len(),
        ) && !repeats(mesh@.indices[i]) by {
            assert(corners_below(s.faces[i], s.keys.len()));
        }
    }
    Ok(mesh)
}

/// A mesh has two faces per active cube of a layer. Their corners are vertices, and different,
/// and every vertex has a texture coordinate.
pub open spec fn layer_meshed<P, U>(
    active: SparseGrid3<Present>,
    axis: SliceAxis,
    layer: u32,
    mesh: MeshModel<P, U>,
) -> bool {
    &&& layer_cubes(active, axis, layer).finite()
    &&& mesh.indices.len() == 2 * layer_cubes(active, axis, layer).len()
    &&& sound(mesh)
    &&& forall|i: int| 0 <= i < mesh.indices.len() ==> !repeats(#[trigger] mesh.indices[i])
}

/// `anchors` are all marked points, in walk order.
pub open spec fn layer_walk(active: SparseGrid3<Present>, anchors: Seq<UVec3>) -> bool {
    &&& forall|a: int| 0 <= a < anchors.len() ==> active.at(#[trigger] anchors[a]) is Some
    &&& forall|p: UVec3| (#[trigger] active.at(p)) is Some ==> anchors.contains(p)
    &&& forall|a: int, b: int|
        0 <= a < b < anchors.len() ==> visited_before(
            #[trigger] anchors[a],
            #[trigger] anchors[b],
        )
}

/// An axis-aligned physical plane.
#[derive(Debug)]
pub struct SlicePlane<S> {
    /// Cardinal axis normal to the slice plane.
    pub axis: SliceAxis,
    /// Physical coordinate where the slice plane is placed.
    pub value: S,
}

/// Options controlling slice extraction.
#[derive(Debug)]
pub struct SliceOptions<S> {
    /// Axis-aligned physical slice plane.
    pub plane: SlicePlane<S>,
    /// One or two scalar components sampled into mesh UV channels.
    pub sampled_quantities: Vec<Sample<S>>,
    /// Optional inclusive AMR level range to extract.
    pub levels: Option<LevelRange>,
    /// Flip emitted triangle winding if set.
    pub flip_winding: bool,
}

/// Why a slice request on a compact plot is refused.
pub open spec fn slice_request_refusal<S, T: Copy + PartialEq>(
    plot: CompactPlot<S, T>,
    options: SliceOptions<S>,
    finite: spec_fn(S) -> bool,
    less: spec_fn(S, S) -> bool,
) -> Option<ExtractError> {
    let samples = slice_samples_refusal(
        options.sampled_quantities@,
        plot.variable_count,
        finite,
        less,
    );
    if !finite(options.plane.value) {
        Some(ExtractError::ValueNotFinite)
    } else if samples is Some {
        samples
    } else {
        slice_refusal(
            plot,
            components_of(specs_of(options.sampled_quantities@)),
            options.levels,
        )
    }
}

/// `levels` are the slice levels that an accepted request names.
pub open spec fn sliced_levels<S, T: Copy + PartialEq>(
    plot: CompactPlot<S, T>,
    options: SliceOptions<S>,
    levels: Seq<SliceLevel<'_, S, T>>,
) -> bool {
    let places = all_chosen(plot, options.levels);
    let slots = slots_of(
        plot.component_ids@,
        components_of(specs_of(options.sampled_quantities@)),
    )->Ok_0;
    &&& levels.len() == places.len()
    &&& forall|j: int|
        0 <= j < levels.len() ==> is_slice_level(plot, places, slots, j, #[trigger] levels[j])
}

/// The results that a slice level may give for checked samples.
pub type SliceMeshing<'a, S, T, P, U, E> = spec_fn(
    SliceLevel<'a, S, T>,
    Vec<SampleSpec<S>>,
    Result<Mesh3D<P, U>, E>,
) -> bool;

/// The results that a function may give.
pub open spec fn slices_by<
    'a,
    S,
    T: Copy + PartialEq,
    P,
    U,
    E,
    G: Fn(&SliceLevel<'a, S, T>, &Vec<SampleSpec<S>>) -> Result<Mesh3D<P, U>, E>,
>(mesh: G) -> SliceMeshing<'a, S, T, P, U, E> {
    |level: SliceLevel<'a, S, T>, specs: Vec<SampleSpec<S>>, m: Result<Mesh3D<P, U>, E>|
        call_ensures(mesh, (&level, &specs), m)
}

/// `parts` are meshes of the first levels of a list.
pub open spec fn sliced_parts<'a, S, T: Copy + PartialEq, P, U, E>(
    meshing: SliceMeshing<'a, S, T, P, U, E>,
    levels: Seq<SliceLevel<'a, S, T>>,
    specs: Vec<SampleSpec<S>>,
    parts: Seq<MeshModel<P, U>>,
) -> bool {
    &&& parts.len() <= levels.len()
    &&& forall|i: int|
        0 <= i < parts.len() ==> slices_to(meshing, levels[i], specs, #[trigger] parts[i])
}

/// `meshing` lets `part` come out for `level`.
pub open spec fn slices_to<'a, S, T: Copy + PartialEq, P, U, E>(
    meshing: SliceMeshing<'a, S, T, P, U, E>,
    level: SliceLevel<'a, S, T>,
    specs: Vec<SampleSpec<S>>,
    part: MeshModel<P, U>,
) -> bool {
    exists|m: Mesh3D<P, U>| #[trigger]
        meshing(level, specs, Ok::<Mesh3D<P, U>, E>(m)) && m@ == part
}

/// `r` is what the meshes of the first levels give.
pub open spec fn slice_of<'a, S, T: Copy + PartialEq, P, U, E>(
    levels: Seq<SliceLevel<'a, S, T>>,
    specs: Vec<SampleSpec<S>>,
    parts: Seq<MeshModel<P, U>>,
    flip: bool,
    meshing: SliceMeshing<'a, S, T, P, U, E>,
    r: Result<Mesh3D<P, U>, SurfaceError<E>>,
) -> bool {
    match r {
        Ok(m) => parts.len() == levels.len() && level_meshes(parts, parts.len(), flip) == Ok::<
            MeshModel<P, U>,
            MeshError,
        >(m@),
        Err(SurfaceError::Level(index, e)) => parts.len() < levels.len() && index
            == levels[parts.len() as int].level_index && meshing(
            levels[parts.len() as int],
            specs,
            Err::<Mesh3D<P, U>, E>(e),
        ),
        Err(SurfaceError::Mesh(e)) => level_meshes(parts, parts.len(), flip) == Err::<
            MeshModel<P, U>,
            MeshError,
        >(e),
        Err(SurfaceError::Refused(_)) => false,
    }
}

/// `r` is what the chosen levels of a plot give for an accepted request: their meshes, coarse to
/// fine, in one mesh; or the first failure.
pub open spec fn slice_made<'a, S, T: Copy + PartialEq, P, U, E>(
    plot: CompactPlot<S, T>,
    options: SliceOptions<S>,
    meshing: SliceMeshing<'a, S, T, P, U, E>,
    r: Result<Mesh3D<P, U>, SurfaceError<E>>,
) -> bool {
    exists|
        levels: Seq<SliceLevel<'a, S, T>>,
        specs: Vec<SampleSpec<S>>,
        parts: Seq<MeshModel<P, U>>,
    |
        sliced_levels(plot, options, levels) && specs@ == specs_of(options.sampled_quantities@)
            && #[trigger] sliced_parts(meshing, levels, specs, parts) && slice_of(
            levels,
            specs,
            parts,
            options.flip_winding,
            meshing,
            r,
        )
}

/// `r` is what a slice request on a compact plot gives.
pub open spec fn slice_outcome<'a, S, T: Copy + PartialEq, P, U, E>(
    plot: CompactPlot<S, T>,
    options: SliceOptions<S>,
    finite: spec_fn(S) -> bool,
    less: spec_fn(S, S) -> bool,
    meshing: SliceMeshing<'a, S, T, P, U, E>,
    r: Result<Mesh3D<P, U>, SurfaceError<E>>,
) -> bool {
    match slice_request_refusal(plot, options, finite, less) {
        Some(e) => r matches Err(SurfaceError::Refused(f)) && f == e,
        None => slice_made(plot, options, meshing, r),
    }
}

/// A weaker description of the level meshes describes the result too.
pub proof fn lemma_slice_implied<'a, S, T: Copy + PartialEq, P, U, E>(
    plot: CompactPlot<S, T>,
    options: SliceOptions<S>,
    from: SliceMeshing<'a, S, T, P, U, E>,
    to: SliceMeshing<'a, S, T, P, U, E>,
    r: Result<Mesh3D<P, U>, SurfaceError<E>>,
)
    requires
        forall|l: SliceLevel<'a, S, T>, q: Vec<SampleSpec<S>>, m: Result<Mesh3D<P, U>, E>| #[trigger]
            from(l, q, m) ==> to(l, q, m),
        slice_made(plot, options, from, r),
    ensures
        slice_made(plot, options, to, r),
{
    let (levels, specs, parts) = choose|
        levels: Seq<SliceLevel<'a, S, T>>,
        specs: Vec<SampleSpec<S>>,
        parts: Seq<MeshModel<P, U>>,
    |
        sliced_levels(plot, options, levels) && specs@ == specs_of(options.sampled_quantities@)
            && #[trigger] sliced_parts(from, levels, specs, parts) && slice_of(
            levels,
            specs,
            parts,
            options.flip_winding,
            from,
            r,
        );
    assert forall|i: int| 0 <= i < parts.len() implies slices_to(
        to,
        levels[i],
        specs,
        #[trigger] parts[i],
    ) by {
        assert(slices_to(from, levels[i], specs, parts[i]));
        let m = choose|m: Mesh3D<P, U>| #[trigger]
            from(levels[i], specs, Ok::<Mesh3D<P, U>, E>(m)) && m@ == parts[i];
        assert(to(levels[i], specs, Ok::<Mesh3D<P, U>, E>(m)));
    }
    assert(sliced_parts(to, levels, specs, parts));
    assert(slice_of(levels, specs, parts, options.flip_winding, to, r));
}

/// The grids of the levels that a request names are well-formed.
proof fn lemma_sliced_wf<'a, S, T: Copy + PartialEq>(
    plot: CompactPlot<S, T>,
    options: SliceOptions<S>,
    levels: Seq<SliceLevel<'a, S, T>>,
)
    requires
        plot.wf(),
        sliced_levels(plot, options, levels),
    ensures
        forall|j: int| 0 <= j < levels.len() ==> (#[trigger] levels[j]).wf(),
{
    let places = all_chosen(plot, options.levels);
    law_chosen_levels(plot.levels@, options.levels, plot.levels@.len());
    assert forall|j: int| 0 <= j < levels.len() implies (#[trigger] levels[j]).wf() by {
        let level = plot.levels@[places[j]];
        assert(level.wf());
        assert forall|c: int| 0 <= c < levels[j].sampled_quantities@.len() implies (
        #[trigger] levels[j].sampled_quantities@[c]).wf() by {}
    }
}

/// Extract an axis-aligned slice mesh from an already-loaded compact plot: the chosen levels
/// are meshed with `mesh`, coarse to fine, and their meshes merged.
pub fn slice_compact<
    'a,
    S: Copy,
    T: Copy + PartialEq,
    P,
    U,
    E,
    F: Fn(S) -> bool,
    L: Fn(S, S) -> bool,
    G: Fn(&SliceLevel<'a, S, T>, &Vec<SampleSpec<S>>) -> Result<Mesh3D<P, U>, E>,
>(
    plot: &'a CompactPlot<S, T>,
    options: &SliceOptions<S>,
    finite: &F,
    less: &L,
    mesh: &G,
) -> (r: Result<Mesh3D<P, U>, SurfaceError<E>>)
    requires
        plot.wf(),
        total1(*finite),
        total2(*less),
        forall|level: &SliceLevel<'a, S, T>, specs: &Vec<SampleSpec<S>>|
            level.wf() ==> #[trigger] call_requires(*mesh, (level, specs)),
    ensures
        r matches Err(SurfaceError::Refused(_)) || slice_made(
            *plot,
            *options,
            slices_by(*mesh),
            r,
        ),
        forall|f: spec_fn(S) -> bool, l: spec_fn(S, S) -> bool|
            #![trigger computes1(*finite, f), computes2(*less, l)]
            computes1(*finite, f) && computes2(*less, l) ==> slice_outcome(
                *plot,
                *options,
                f,
                l,
                slices_by(*mesh),
                r,
            ),
{
    if !finite(options.plane.value) {
        return Err(SurfaceError::Refused(ExtractError::ValueNotFinite));
    }
    let specs = match validate_slice_options(
        plot.variable_count(),
        options.sampled_quantities.as_slice(),
        finite,
        less,
    ) {
        Ok(v) => v,
        Err(e) => return Err(SurfaceError::Refused(e)),
    };
    let components = list_components(&specs);
    let levels = match slice_levels_from_compact(plot, components.as_slice(), options.levels) {
        Ok(v) => v,
        Err(e) => return Err(SurfaceError::Refused(e)),
    };
    let ghost all = levels@;
    proof {
        lemma_sliced_wf(*plot, *options, all);
    }
    let each = |level: &SliceLevel<'a, S, T>| -> (m: Result<Mesh3D<P, U>, E>)
        requires
            call_requires(mesh, (level, &specs)),
        ensures
            call_ensures(mesh, (level, &specs), m),
        { mesh(level, &specs) };
    assert forall|i: int| 0 <= i < levels@.len() implies call_requires(
        each,
        (&#[trigger] levels@[i],),
    ) by {
        assert(levels@[i].wf());
        assert(call_requires(*mesh, (&levels@[i], &specs)));
    }
    let outcome = mesh_levels(&levels, options.flip_winding, &each);
    let r = match outcome {
        Ok(m) => Ok(m),
        Err((i, Err(e))) => Err(SurfaceError::Level(levels[i].level_index, e)),
        Err((_, Ok(e))) => Err(SurfaceError::Mesh(e)),
    };
    proof {
        let meshing = slices_by(*mesh);
        let parts = choose|parts: Seq<MeshModel<P, U>>| #[trigger]
            level_parts(each, all, parts) && match outcome {
                Ok(m) => parts.len() == all.len() && level_meshes(
                    parts,
                    parts.len(),
                    options.flip_winding,
                ) == Ok::<MeshModel<P, U>, MeshError>(m@),
                Err((i, Err(e))) => i == parts.len() && i < all.len() && call_ensures(
                    each,
                    (&all[i as int],),
                    Err::<Mesh3D<P, U>, E>(e),
                ),
                Err((i, Ok(e))) => i + 1 == parts.len() && level_meshes(
                    parts,
                    parts.len(),
                    options.flip_winding,
                ) == Err::<MeshModel<P, U>, MeshError>(e),
            };
        assert forall|i: int| 0 <= i < parts.len() implies slices_to(
            meshing,
            all[i],
            specs,
            #[trigger] parts[i],
        ) by {
            assert(gives(each, all[i], parts[i]));
            let m = choose|m: Mesh3D<P, U>| #[trigger]
                call_ensures(each, (&all[i],), Ok::<Mesh3D<P, U>, E>(m)) && m@ == parts[i];
            assert(meshing(all[i], specs, Ok::<Mesh3D<P, U>, E>(m)));
        }
        assert(sliced_parts(meshing, all, specs, parts));
        assert(slice_of(all, specs, parts, options.flip_winding, meshing, r));
    }
    r
}

/// For the levels that a request names, the results agree: equal meshes, or failures.
pub open spec fn slices_steadily<'a, S, T: Copy + PartialEq, P, U, E>(
    plot: CompactPlot<S, T>,
    options: SliceOptions<S>,
    meshing: SliceMeshing<'a, S, T, P, U, E>,
) -> bool {
    forall|
        j: int,
        a: Seq<SliceLevel<'a, S, T>>,
        b: Seq<SliceLevel<'a, S, T>>,
        p: Vec<SampleSpec<S>>,
        q: Vec<SampleSpec<S>>,
        m: Result<Mesh3D<P, U>, E>,
        n: Result<Mesh3D<P, U>, E>,
    |
        #![trigger meshing(a[j], p, m), meshing(b[j], q, n)]
        {
            &&& sliced_levels(plot, options, a)
            &&& sliced_levels(plot, options, b)
            &&& 0 <= j < a.len()
            &&& p@ == q@
            &&& meshing(a[j], p, m)
            &&& meshing(b[j], q, n)
        } ==> match (m, n) {
            (Ok(x), Ok(y)) => x@ == y@,
            (Err(_), Err(_)) => true,
            _ => false,
        }
}

/// The requests are the same, but for the faces, which the second one turns over.
pub open spec fn same_slice_but_flip<S>(plain: SliceOptions<S>, flip: SliceOptions<S>) -> bool {
    &&& flip.plane == plain.plane
    &&& flip.sampled_quantities@ == plain.sampled_quantities@
    &&& flip.levels == plain.levels
    &&& !plain.flip_winding
    &&& flip.flip_winding
}

/// A slice request with `flip_winding` gives the mesh that the same request gives without it,
/// with every face turned over. The levels must be meshed the same way both times.
pub proof fn law_slice_flip_winding<'a, S, T: Copy + PartialEq, P, U, E>(
    plot: CompactPlot<S, T>,
    options: SliceOptions<S>,
    flip: SliceOptions<S>,
    finite: spec_fn(S) -> bool,
    less: spec_fn(S, S) -> bool,
    meshing: SliceMeshing<'a, S, T, P, U, E>,
    plain: Mesh3D<P, U>,
    r: Result<Mesh3D<P, U>, SurfaceError<E>>,
)
    requires
        same_slice_but_flip(options, flip),
        slices_steadily(plot, options, meshing),
        slice_outcome(
            plot,
            options,
            finite,
            less,
            meshing,
            Ok::<Mesh3D<P, U>, SurfaceError<E>>(plain),
        ),
        slice_outcome(plot, flip, finite, less, meshing, r),
    ensures
        r matches Ok(turned) && turned_over(plain@, turned@),
{
    let ok = Ok::<Mesh3D<P, U>, SurfaceError<E>>(plain);
    assert(slice_request_refusal(plot, flip, finite, less) == slice_request_refusal(
        plot,
        options,
        finite,
        less,
    ));
    let (a, p, x) = choose|
        levels: Seq<SliceLevel<'a, S, T>>,
        specs: Vec<SampleSpec<S>>,
        parts: Seq<MeshModel<P, U>>,
    |
        sliced_levels(plot, options, levels) && specs@ == specs_of(options.sampled_quantities@)
            && #[trigger] sliced_parts(meshing, levels, specs, parts) && slice_of(
            levels,
            specs,
            parts,
            false,
            meshing,
            ok,
        );
    let (b, q, y) = choose|
        levels: Seq<SliceLevel<'a, S, T>>,
        specs: Vec<SampleSpec<S>>,
        parts: Seq<MeshModel<P, U>>,
    |
        sliced_levels(plot, flip, levels) && specs@ == specs_of(flip.sampled_quantities@)
            && #[trigger] sliced_parts(meshing, levels, specs, parts) && slice_of(
            levels,
            specs,
            parts,
            true,
            meshing,
            r,
        );
    assert(sliced_levels(plot, options, b));
    assert forall|i: int| 0 <= i < y.len() implies #[trigger] x[i] == y[i] by {
        assert(slices_to(meshing, a[i], p, x[i]));
        assert(slices_to(meshing, b[i], q, y[i]));
        let m = choose|m: Mesh3D<P, U>| #[trigger]
            meshing(a[i], p, Ok::<Mesh3D<P, U>, E>(m)) && m@ == x[i];
        let n = choose|n: Mesh3D<P, U>| #[trigger]
            meshing(b[i], q, Ok::<Mesh3D<P, U>, E>(n)) && n@ == y[i];
        assert(meshing(a[i], p, Ok::<Mesh3D<P, U>, E>(m)) && meshing(
            b[i],
            q,
            Ok::<Mesh3D<P, U>, E>(n),
        ));
    }
    let k = y.len();
    lemma_same_parts(x, y, k, true);
    lemma_fewer_parts(x, k, x.len(), false);
    law_flip_turns_every_face(x, k);
    if let Err(SurfaceError::Level(_, e)) = r {
        let i = k as int;
        assert(slices_to(meshing, a[i], p, x[i]));
        let m = choose|m: Mesh3D<P, U>| #[trigger]
            meshing(a[i], p, Ok::<Mesh3D<P, U>, E>(m)) && m@ == x[i];
        assert(meshing(a[i], p, Ok::<Mesh3D<P, U>, E>(m)) && meshing(
            b[i],
            q,
            Err::<Mesh3D<P, U>, E>(e),
        ));
    }
}

/// `r` is what a slice request on a plotfile gives.
pub open spec fn plot_slice_outcome<
    'v,
    'a,
    S: Copy,
    T: Copy + PartialEq,
    P,
    U,
    E,
    X,
    V: Fn(usize, usize) -> Result<&'v [u8], X>,
    C: Fn(RawScalar) -> T,
>(
    plot_file: PlotFile<S>,
    options: SliceOptions<S>,
    file_of: V,
    convert: C,
    finite: spec_fn(S) -> bool,
    less: spec_fn(S, S) -> bool,
    meshing: SliceMeshing<'a, S, T, P, U, E>,
    r: Result<Mesh3D<P, U>, PlotSurfaceError<E, X>>,
) -> bool {
    let wanted = components_of(specs_of(options.sampled_quantities@));
    let refusal = slice_samples_refusal(
        options.sampled_quantities@,
        plot_file.head().names.len() as usize,
        finite,
        less,
    );
    match refusal {
        Some(e) => r matches Err(PlotSurfaceError::Refused(f)) && f == e,
        None => match r {
            Err(PlotSurfaceError::Refused(_)) => false,
            Err(PlotSurfaceError::Load(e)) => compact_loaded(
                plot_file,
                wanted,
                file_of,
                convert,
                Err::<CompactPlot<S, T>, CompactLoadError<X>>(e),
            ),
            Err(PlotSurfaceError::Surface(e)) => exists|plot: CompactPlot<S, T>| #[trigger]
                compact_loaded(
                    plot_file,
                    wanted,
                    file_of,
                    convert,
                    Ok::<CompactPlot<S, T>, CompactLoadError<X>>(plot),
                ) && slice_outcome(
                    plot,
                    options,
                    finite,
                    less,
                    meshing,
                    Err::<Mesh3D<P, U>, SurfaceError<E>>(e),
                ),
            Ok(m) => exists|plot: CompactPlot<S, T>| #[trigger]
                compact_loaded(
                    plot_file,
                    wanted,
                    file_of,
                    convert,
                    Ok::<CompactPlot<S, T>, CompactLoadError<X>>(plot),
                ) && slice_outcome(
                    plot,
                    options,
                    finite,
                    less,
                    meshing,
                    Ok::<Mesh3D<P, U>, SurfaceError<E>>(m),
                ),
        },
    }
}

/// Load required data from a plotfile and extract an axis-aligned slice mesh.
///
/// `file_of` gives the contents of the data file of a patch of a level, and `convert` makes
/// samples of stored values.
pub fn slice<
    'v,
    S: Copy,
    T: Copy + PartialEq,
    P,
    U,
    E,
    X,
    V: Fn(usize, usize) -> Result<&'v [u8], X>,
    C: Fn(RawScalar) -> T,
    F: Fn(S) -> bool,
    L: Fn(S, S) -> bool,
    G: Fn(&SliceLevel<'_, S, T>, &Vec<SampleSpec<S>>) -> Result<Mesh3D<P, U>, E>,
>(
    plot_file: &PlotFile<S>,
    options: &SliceOptions<S>,
    file_of: &V,
    convert: &C,
    finite: &F,
    less: &L,
    mesh: &G,
) -> (r: Result<Mesh3D<P, U>, PlotSurfaceError<E, X>>)
    requires
        plot_file.wf(),
        lawful::<T>(),
        forall|l: usize, k: usize| #[trigger] call_requires(*file_of, (l, k)),
        forall|raw: RawScalar| #[trigger] call_requires(*convert, (raw,)),
        total1(*finite),
        total2(*less),
        forall|level: &SliceLevel<'_, S, T>, specs: &Vec<SampleSpec<S>>|
            level.wf() ==> #[trigger] call_requires(*mesh, (level, specs)),
    ensures
        r matches Ok(m) ==> exists|plot: CompactPlot<S, T>| #[trigger]
            compact_loaded(
                *plot_file,
                components_of(specs_of(options.sampled_quantities@)),
                *file_of,
                *convert,
                Ok::<CompactPlot<S, T>, CompactLoadError<X>>(plot),
            ) && slice_made(
                plot,
                *options,
                slices_by(*mesh),
                Ok::<Mesh3D<P, U>, SurfaceError<E>>(m),
            ),
        forall|f: spec_fn(S) -> bool, l: spec_fn(S, S) -> bool|
            #![trigger computes1(*finite, f), computes2(*less, l)]
            computes1(*finite, f) && computes2(*less, l) ==> plot_slice_outcome(
                *plot_file,
                *options,
                *file_of,
                *convert,
                f,
                l,
                slices_by(*mesh),
                r,
            ),
{
    let specs = match validate_slice_options(
        plot_file.variables().len(),
        options.sampled_quantities.as_slice(),
        finite,
        less,
    ) {
        Ok(v) => v,
        Err(e) => return Err(PlotSurfaceError::Refused(e)),
    };
    let ids = list_components(&specs);
    let plot = match CompactPlot::load(plot_file, ids.as_slice(), file_of, convert) {
        Ok(plot) => plot,
        Err(e) => return Err(PlotSurfaceError::Load(e)),
    };
    match slice_compact(&plot, options, finite, less, mesh) {
        Ok(m) => Ok(m),
        Err(e) => Err(PlotSurfaceError::Surface(e)),
    }
}

} // verus!
