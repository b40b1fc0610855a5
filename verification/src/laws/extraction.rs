//! Whole requests: the mesh of an isosurface or slice request, from the plot to its triangles.

use vstd::prelude::*;

use crate::compact::{slot_of, CompactPlot};
use crate::isosurface::{
    components_of, gives_for, level_meshes, mc33, options_refusal, requested_levels,
    requested_parts, specs_of, surface_made, surface_of, surface_refusal, ExtractError, Extraction,
    IsosurfaceOptions, SampleSpec, Scalars, SurfaceError,
};
use crate::isosurface::dual_grid::{
    all_chosen, dual_level_refusal, law_chosen_levels, slot_refusal, slots_of, DualGridLevel,
};
use crate::isosurface::extraction::{cube_rules, frame_of, mc33_meshing, LevelFrame, LevelRules};
use crate::isosurface::mc33::{Resolution, Tiling};
use crate::isosurface::mc33::tables::Tables;
use crate::isosurface::mesh::{sound, Mesh3D, MeshError, MeshModel};
use crate::isosurface::mesher::{BuildError, VertexKey};
use crate::isosurface::parallel::LevelError;
use crate::isosurface::surface::law_mc33_surface_is_clean;
use crate::laws::levels::law_no_slot;
use crate::laws::requests::lemma_first_none;
use crate::laws::slices::{depth, law_slice_shows_layer, side_shown};
use crate::laws::surfaces::{
    corners_are, cube_resolution, law_surface_shows_every_triangle, list_corner, mesh_shows_listed,
    proper_triangle,
};
use crate::laws::triangles::{law_levels_triangles, triangle, triangles, triangles_of_levels};
use crate::outcome::first_refusal;
use crate::slice::{
    layer_walk, slice_level_refusal, slice_request_refusal, slice_samples_refusal, sliced,
    SliceAxis, SliceLevel, SliceOptions, SlicePlane, SliceSampleError,
};
use crate::slice::plane::{pairs_at, plane_maker, plane_surface, PlaneRules};
use crate::utility::sparse_grid3::grid::{inside, SparseGrid3};
use crate::vec3::{UVec3, Vec3};

verus! {

/// The tests on the samples of a level get the isovalue of the request; its vertices are made
/// from the level's own geometry and samples.
pub proof fn law_level_rules<S, T: Copy + PartialEq, V, E>(
    rules: LevelRules<S, T, V, E>,
    level: DualGridLevel<'_, S, T>,
    isovalue: T,
    specs: Seq<SampleSpec<S>>,
    v: T,
    values: [T; 8],
    face: i8,
    test: mc33::InteriorTest,
    key: VertexKey,
)
    ensures
        ({
            let frame = LevelFrame {
                level_index: level.level_index,
                index_origin: level.index_origin,
                physical_origin: level.physical_origin,
                cell_size: level.cell_size,
                samples: *level.samples,
                sampled_quantities: level.sampled_quantities@.map_values(|g: &SparseGrid3<T>| *g),
            };
            let r = cube_rules(rules, frame_of(level), isovalue, specs);
            &&& (r.above)(v) == (rules.above)(isovalue, v)
            &&& (r.face)(values, face) == (rules.face)(isovalue, values, face)
            &&& (r.interior)(values, test) == (rules.interior)(isovalue, values, test)
            &&& (r.craft.make)(key) == (rules.make)(frame, isovalue, specs, key)
            &&& r.craft.judge == rules.judge
        }),
{
}

proof fn lemma_level_among<P, U>(
    parts: Seq<MeshModel<P, U>>,
    n: nat,
    flip: bool,
    j: int,
    f: int,
) -> (g: int)
    requires
        n <= parts.len(),
        0 <= j < n,
        0 <= f < parts[j].indices.len(),
    ensures
        0 <= g < triangles_of_levels(parts, n, flip).len(),
        ({
            let t = triangle(parts[j], f);
            triangles_of_levels(parts, n, flip)[g] == if flip {
                (t.0, t.2, t.1)
            } else {
                t
            }
        }),
    decreases n,
{
    let before = triangles_of_levels(parts, (n - 1) as nat, flip);
    if j < n - 1 {
        let g = lemma_level_among(parts, (n - 1) as nat, flip, j, f);
        assert(triangles_of_levels(parts, n, flip)[g] == before[g]);
        g
    } else {
        let g = before.len() + f;
        assert(triangles(parts[n - 1])[f] == triangle(parts[n - 1], f));
        g
    }
}

/// The levels that a request names, with their meshes.
proof fn lemma_request_parts<'a, S, T: Copy + PartialEq, P, U, E>(
    plot: CompactPlot<S, T>,
    options: IsosurfaceOptions<S>,
    request: Extraction<S, T>,
    tables: Tables,
    rules: LevelRules<S, T, (P, U), E>,
    mesh: Mesh3D<P, U>,
) -> (r: (Seq<DualGridLevel<'a, S, T>>, Seq<MeshModel<P, U>>))
    requires
        surface_made(
            plot,
            options,
            request,
            mc33_meshing::<'a, S, T, P, U, E>(tables, rules),
            Ok::<Mesh3D<P, U>, SurfaceError<LevelError<BuildError<E>>>>(mesh),
        ),
    ensures
        requested_levels(plot, options, r.0),
        r.0.len() == r.1.len(),
        forall|j: int|
            0 <= j < r.1.len() ==> gives_for(
                mc33_meshing::<'a, S, T, P, U, E>(tables, rules),
                r.0[j],
                request,
                #[trigger] r.1[j],
            ),
        level_meshes(r.1, r.1.len(), options.flip_winding) == Ok::<MeshModel<P, U>, MeshError>(
            mesh@,
        ),
{
    let meshing = mc33_meshing::<'a, S, T, P, U, E>(tables, rules);
    choose|levels: Seq<DualGridLevel<'a, S, T>>, parts: Seq<MeshModel<P, U>>|
        requested_levels(plot, options, levels) && #[trigger] requested_parts(
            meshing,
            levels,
            request,
            parts,
        ) && surface_of(
            levels,
            request,
            parts,
            options.flip_winding,
            meshing,
            Ok::<Mesh3D<P, U>, SurfaceError<LevelError<BuildError<E>>>>(mesh),
        )
}

/// The mesh of an isosurface request shows, for each extracted level, every triangle that the
/// tables list for every active cube of the level, at the vertices that the level's own geometry
/// and samples give.
pub proof fn law_request_shows_every_triangle<'a, S, T: Copy + PartialEq, P, U, E>(
    plot: CompactPlot<S, T>,
    options: IsosurfaceOptions<S>,
    request: Extraction<S, T>,
    tables: Tables,
    rules: LevelRules<S, T, (P, U), E>,
    mesh: Mesh3D<P, U>,
) -> (levels: Seq<DualGridLevel<'a, S, T>>)
    requires
        tables.wf(),
        surface_made(
            plot,
            options,
            request,
            mc33_meshing::<'a, S, T, P, U, E>(tables, rules),
            Ok::<Mesh3D<P, U>, SurfaceError<LevelError<BuildError<E>>>>(mesh),
        ),
    ensures
        requested_levels(plot, options, levels),
        forall|j: int, anchor: UVec3, tiling: Tiling, i: int|
            #![trigger list_corner(tables, tiling, anchor, i, 0), levels[j]]
            0 <= j < levels.len() && levels[j].active_cubes.at(anchor) is Some && cube_resolution(
                *levels[j].samples,
                anchor,
                tables,
                cube_rules(rules, frame_of(levels[j]), request.isovalue, request.specs@),
            ) == Resolution::Found(tiling) && proper_triangle(
                tables,
                tiling,
                anchor,
                i,
                cube_rules(rules, frame_of(levels[j]), request.isovalue, request.specs@).craft,
            ) ==> mesh_shows_listed(
                mesh@,
                tables,
                tiling,
                anchor,
                i,
                cube_rules(rules, frame_of(levels[j]), request.isovalue, request.specs@).craft.make,
            ),
{
    let meshing = mc33_meshing::<'a, S, T, P, U, E>(tables, rules);
    let (levels, parts) = lemma_request_parts::<S, T, P, U, E>(
        plot,
        options,
        request,
        tables,
        rules,
        mesh,
    );
    assert forall|j: int, anchor: UVec3, tiling: Tiling, i: int|
        #![trigger list_corner(tables, tiling, anchor, i, 0), levels[j]]
        0 <= j < levels.len() && levels[j].active_cubes.at(anchor) is Some && cube_resolution(
            *levels[j].samples,
            anchor,
            tables,
            cube_rules(rules, frame_of(levels[j]), request.isovalue, request.specs@),
        ) == Resolution::Found(tiling) && proper_triangle(
            tables,
            tiling,
            anchor,
            i,
            cube_rules(rules, frame_of(levels[j]), request.isovalue, request.specs@).craft,
        ) implies mesh_shows_listed(
        mesh@,
        tables,
        tiling,
        anchor,
        i,
        cube_rules(rules, frame_of(levels[j]), request.isovalue, request.specs@).craft.make,
    ) by {
        lemma_one_shown(plot, options, request, tables, rules, mesh, levels, parts, j, anchor, tiling, i);
    }
    levels
}

proof fn lemma_one_shown<'a, S, T: Copy + PartialEq, P, U, E>(
    plot: CompactPlot<S, T>,
    options: IsosurfaceOptions<S>,
    request: Extraction<S, T>,
    tables: Tables,
    rules: LevelRules<S, T, (P, U), E>,
    mesh: Mesh3D<P, U>,
    levels: Seq<DualGridLevel<'a, S, T>>,
    parts: Seq<MeshModel<P, U>>,
    j: int,
    anchor: UVec3,
    tiling: Tiling,
    i: int,
)
    requires
        tables.wf(),
        requested_levels(plot, options, levels),
        levels.len() == parts.len(),
        forall|j: int|
            0 <= j < parts.len() ==> gives_for(
                mc33_meshing::<'a, S, T, P, U, E>(tables, rules),
                levels[j],
                request,
                #[trigger] parts[j],
            ),
        level_meshes(parts, parts.len(), options.flip_winding) == Ok::<MeshModel<P, U>, MeshError>(
            mesh@,
        ),
        0 <= j < levels.len(),
        levels[j].active_cubes.at(anchor) is Some,
        cube_resolution(
            *levels[j].samples,
            anchor,
            tables,
            cube_rules(rules, frame_of(levels[j]), request.isovalue, request.specs@),
        ) == Resolution::Found(tiling),
        proper_triangle(
            tables,
            tiling,
            anchor,
            i,
            cube_rules(rules, frame_of(levels[j]), request.isovalue, request.specs@).craft,
        ),
    ensures
        mesh_shows_listed(
            mesh@,
            tables,
            tiling,
            anchor,
            i,
            cube_rules(rules, frame_of(levels[j]), request.isovalue, request.specs@).craft.make,
        ),
{
    let meshing = mc33_meshing::<'a, S, T, P, U, E>(tables, rules);
    let flip = options.flip_winding;
    assert forall|k: int| 0 <= k < parts.len() implies sound(#[trigger] parts[k]) by {
        assert(gives_for(meshing, levels[k], request, parts[k]));
        let m = choose|m: Mesh3D<P, U>| #[trigger]
            meshing(levels[k], request, Ok::<Mesh3D<P, U>, LevelError<BuildError<E>>>(m)) && m@
                == parts[k];
        let cubes = cube_rules(rules, frame_of(levels[k]), request.isovalue, request.specs@);
        law_mc33_surface_is_clean(
            *levels[k].samples,
            levels[k].active_cubes,
            tables,
            cubes,
            m,
        );
    }
    law_levels_triangles(parts, parts.len(), flip);
    let cubes = cube_rules(rules, frame_of(levels[j]), request.isovalue, request.specs@);
    assert(gives_for(meshing, levels[j], request, parts[j]));
    let m = choose|m: Mesh3D<P, U>| #[trigger]
        meshing(levels[j], request, Ok::<Mesh3D<P, U>, LevelError<BuildError<E>>>(m)) && m@
            == parts[j];
    law_surface_shows_every_triangle(
        *levels[j].samples,
        levels[j].active_cubes,
        tables,
        cubes,
        m,
        anchor,
        tiling,
        i,
    );
    let make = cubes.craft.make;
    let (a, b, c) = (
        make(list_corner(tables, tiling, anchor, i, 0))->Ok_0,
        make(list_corner(tables, tiling, anchor, i, 1))->Ok_0,
        make(list_corner(tables, tiling, anchor, i, 2))->Ok_0,
    );
    let f = choose|f: int|
        0 <= f < parts[j].indices.len() && corners_are(#[trigger] triangle(parts[j], f), a, b, c);
    let g = lemma_level_among(parts, parts.len(), flip, j, f);
    assert(triangles(mesh@)[g] == triangle(mesh@, g));
    assert(corners_are(triangle(mesh@, g), a, b, c));
}

/// The coordinate along an axis.
pub open spec fn coordinate<S>(v: Vec3<S>, axis: SliceAxis) -> S {
    match axis {
        SliceAxis::X => v.x,
        SliceAxis::Y => v.y,
        SliceAxis::Z => v.z,
    }
}

/// The slice of a level shows the lower side of every active cube of the layer that the plane
/// cuts. The layer is found from the value of the plane, and from origin and cell size along its
/// axis; the vertices are made from the level's geometry and from the samples on both sides of
/// the plane.
pub proof fn law_plane_shows_layer<'a, S, T: Copy + PartialEq, P, U>(
    level: SliceLevel<'a, S, T>,
    specs: Vec<SampleSpec<S>>,
    plane: SlicePlane<S>,
    rules: PlaneRules<S, T, (P, U)>,
    mesh: Mesh3D<P, U>,
    lower: i64,
    on_layer: bool,
    layer: u32,
    at_end: bool,
    p: UVec3,
)
    requires
        plane_surface::<'a, S, T, P, U>(plane, rules)(
            level,
            specs,
            Ok::<Mesh3D<P, U>, BuildError<SliceSampleError>>(mesh),
        ),
        (rules.place)(
            plane.value,
            coordinate(level.physical_origin, plane.axis),
            coordinate(level.cell_size, plane.axis),
        ) == Some((lower, on_layer)),
        level.active_cubes.at(p) is Some,
        depth(p, plane.axis) == layer,
        at_end == (on_layer && lower > 0),
        lower == layer + if at_end { 1int } else { 0 },
    ensures
        exists|f: int| #[trigger]
            side_shown(
                mesh,
                plane_maker(level, specs@, plane.axis, at_end, rules),
                f,
                plane.axis,
                p,
            ),
{
    assert(inside(p, level.active_cubes.limits()));
    let make = plane_maker(level, specs@, plane.axis, at_end, rules);
    let m = Ok::<Mesh3D<P, U>, BuildError<SliceSampleError>>(mesh);
    let anchors = choose|anchors: Seq<UVec3>| #[trigger]
        layer_walk(level.active_cubes, anchors) && sliced(
            anchors,
            plane.axis,
            layer,
            make,
            m,
        );
    law_slice_shows_layer(level.active_cubes, anchors, plane.axis, layer, make, mesh, p);
}

/// A plane that cuts no layer of a level leaves it without a mesh.
pub proof fn law_plane_misses_level<'a, S, T: Copy + PartialEq, P, U>(
    level: SliceLevel<'a, S, T>,
    specs: Vec<SampleSpec<S>>,
    plane: SlicePlane<S>,
    rules: PlaneRules<S, T, (P, U)>,
    r: Result<Mesh3D<P, U>, BuildError<SliceSampleError>>,
)
    requires
        plane_surface::<'a, S, T, P, U>(plane, rules)(level, specs, r),
        (rules.place)(
            plane.value,
            coordinate(level.physical_origin, plane.axis),
            coordinate(level.cell_size, plane.axis),
        ) matches Some((lower, on_layer)) ==> lower < 0 || lower > depth(
            level.active_cubes.limits(),
            plane.axis,
        ) || (lower == depth(level.active_cubes.limits(), plane.axis) && !(on_layer && lower > 0)),
    ensures
        r matches Ok(mesh) && mesh.positions@.len() == 0 && mesh.uv@.len() == 0
            && mesh.indices@.len() == 0,
{
}

/// The vertex of a lattice point: made from origin and cell size of the level, the point, the
/// checked samples, and the samples on both sides of the plane.
pub proof fn law_plane_vertex<S, T: Copy + PartialEq, P, U>(
    level: SliceLevel<'_, S, T>,
    specs: Seq<SampleSpec<S>>,
    axis: SliceAxis,
    at_end: bool,
    rules: PlaneRules<S, T, (P, U)>,
    p: UVec3,
)
    ensures
        ({
            let grids = level.sampled_quantities@.map_values(|g: &SparseGrid3<T>| *g);
            plane_maker(level, specs, axis, at_end, rules)(VertexKey::Grid(p)) == match pairs_at(
                grids,
                axis,
                p,
            ) {
                Ok(pairs) => Ok::<(P, U), SliceSampleError>(
                    (rules.make)(
                        level.physical_origin,
                        level.cell_size,
                        at_end,
                        p,
                        specs,
                        pairs,
                    ),
                ),
                Err(e) => Err(e),
            }
        }),
{
}

/// A request whose options are accepted is accepted on a plot that holds the surface component
/// and all sampled components in every level, and whose ratios between extracted levels are
/// positive and fit 32 bits; and only on such a plot.
pub proof fn law_request_accepted<S, T: Copy + PartialEq>(
    plot: CompactPlot<S, T>,
    options: IsosurfaceOptions<S>,
    scalars: Scalars<S, T>,
)
    requires
        options_refusal(options, plot.variable_count, scalars) is None,
        options.sampled_quantities@.len() <= 2,
        forall|l: int|
            0 <= l < plot.levels@.len() ==> (#[trigger] plot.levels@[l]).components@.len()
                >= plot.component_ids@.len(),
    ensures
        surface_refusal(plot, options, scalars) is None <==> {
            let places = all_chosen(plot, options.levels);
            &&& plot.component_ids@.contains(options.surface.id as usize)
            &&& forall|k: int|
                0 <= k < options.sampled_quantities@.len() ==> plot.component_ids@.contains(
                    (#[trigger] options.sampled_quantities@[k]).id as usize,
                )
            &&& forall|j: int|
                0 < j < places.len() ==> {
                    let index = plot.levels@[#[trigger] places[j]].level_index;
                    0 < index <= plot.refinement_ratios@.len() && 0
                        < plot.refinement_ratios@[index - 1] <= u32::MAX
                }
        },
{
    assert(plot.component_ids@.len() == plot.component_ids.len());
    let places = all_chosen(plot, options.levels);
    law_chosen_levels(plot.levels@, options.levels, plot.levels@.len());
    let ids = plot.component_ids@;
    let samples = options.sampled_quantities@;
    let components = components_of(specs_of(samples));
    assert(components.len() == samples.len());
    law_no_slot(ids, options.surface.id as usize);
    let refusal = |c: usize| slot_refusal(ids, c);
    lemma_first_none(components, refusal);
    assert forall|k: int| 0 <= k < samples.len() implies (refusal(#[trigger] components[k]) is None
        <==> ids.contains(samples[k].id as usize)) by {
        assert(components[k] == samples[k].id as usize);
        law_no_slot(ids, components[k]);
    }
    assert((slots_of(ids, components) is Ok) <==> forall|k: int|
        0 <= k < samples.len() ==> ids.contains((#[trigger] samples[k]).id as usize)) by {
        if slots_of(ids, components) is Ok {
            assert forall|k: int| 0 <= k < samples.len() implies ids.contains(
                (#[trigger] samples[k]).id as usize,
            ) by {
                assert(refusal(components[k]) is None);
            }
        }
    }
    if ids.contains(options.surface.id as usize) && slots_of(ids, components) is Ok {
        let slot = slot_of(ids, options.surface.id as usize)->0;
        let slots = slots_of(ids, components)->Ok_0;
        lemma_slot_range(ids, options.surface.id as usize);
        let per = |j: int| dual_level_refusal(plot, places, slot, slots, j);
        let list = Seq::new(places.len(), |j: int| j);
        lemma_first_none(list, per);
        assert forall|j: int| 0 <= j < places.len() implies (per(#[trigger] list[j]) is None <==> (j
            == 0 || ({
            let index = plot.levels@[places[j]].level_index;
            0 < index <= plot.refinement_ratios@.len() && 0 < plot.refinement_ratios@[index - 1]
                <= u32::MAX
        }))) by {
            let level = plot.levels@[places[j]];
            assert(level.components@.len() >= ids.len());
            assert forall|k: int| 0 <= k < slots.len() implies (#[trigger] slots[k])
                < level.components@.len() by {
                assert(slots[k] == slot_of(ids, components[k])->0);
                assert(refusal(components[k]) is None);
                lemma_slot_range(ids, components[k]);
            }
        }
        if forall|j: int|
            0 < j < places.len() ==> {
                let index = plot.levels@[#[trigger] places[j]].level_index;
                0 < index <= plot.refinement_ratios@.len() && 0
                    < plot.refinement_ratios@[index - 1] <= u32::MAX
            } {
            assert forall|j: int| 0 <= j < list.len() implies per(#[trigger] list[j]) is None by {
                let place = places[j];
            }
        }
        if first_refusal(list, per) is None {
            assert forall|j: int| 0 < j < places.len() implies ({
                let index = plot.levels@[#[trigger] places[j]].level_index;
                0 < index <= plot.refinement_ratios@.len() && 0
                    < plot.refinement_ratios@[index - 1] <= u32::MAX
            }) by {
                assert(per(list[j]) is None);
            }
        }
    }
}

/// A slice request whose plane and samples are accepted is accepted on a plot that holds all
/// sampled components in every level, and whose ratios between sliced levels are positive and
/// fit 32 bits; and only on such a plot.
pub proof fn law_slice_request_accepted<S, T: Copy + PartialEq>(
    plot: CompactPlot<S, T>,
    options: SliceOptions<S>,
    finite: spec_fn(S) -> bool,
    less: spec_fn(S, S) -> bool,
)
    requires
        slice_samples_refusal(
            options.sampled_quantities@,
            plot.variable_count,
            finite,
            less,
        ) is None,
        forall|l: int|
            0 <= l < plot.levels@.len() ==> (#[trigger] plot.levels@[l]).components@.len()
                >= plot.component_ids@.len(),
    ensures
        slice_request_refusal(plot, options, finite, less) is None <==> {
            let places = all_chosen(plot, options.levels);
            &&& finite(options.plane.value)
            &&& forall|k: int|
                0 <= k < options.sampled_quantities@.len() ==> plot.component_ids@.contains(
                    (#[trigger] options.sampled_quantities@[k]).id as usize,
                )
            &&& forall|j: int|
                0 < j < places.len() ==> {
                    let index = plot.levels@[#[trigger] places[j]].level_index;
                    0 < index <= plot.refinement_ratios@.len() && 0
                        < plot.refinement_ratios@[index - 1] <= u32::MAX
                }
        },
        !finite(options.plane.value) ==> slice_request_refusal(plot, options, finite, less) == Some(
            ExtractError::ValueNotFinite,
        ),
{
    assert(plot.component_ids@.len() == plot.component_ids.len());
    let places = all_chosen(plot, options.levels);
    law_chosen_levels(plot.levels@, options.levels, plot.levels@.len());
    let ids = plot.component_ids@;
    let samples = options.sampled_quantities@;
    let components = components_of(specs_of(samples));
    let refusal = |c: usize| slot_refusal(ids, c);
    lemma_first_none(components, refusal);
    assert forall|k: int| 0 <= k < samples.len() implies (refusal(#[trigger] components[k]) is None
        <==> ids.contains(samples[k].id as usize)) by {
        assert(components[k] == samples[k].id as usize);
        law_no_slot(ids, components[k]);
    }
    assert((slots_of(ids, components) is Ok) <==> forall|k: int|
        0 <= k < samples.len() ==> ids.contains((#[trigger] samples[k]).id as usize)) by {
        if slots_of(ids, components) is Ok {
            assert forall|k: int| 0 <= k < samples.len() implies ids.contains(
                (#[trigger] samples[k]).id as usize,
            ) by {
                assert(refusal(components[k]) is None);
            }
        }
    }
    if slots_of(ids, components) is Ok {
        let slots = slots_of(ids, components)->Ok_0;
        let per = |j: int| slice_level_refusal(plot, places, slots, j);
        let list = Seq::new(places.len(), |j: int| j);
        lemma_first_none(list, per);
        assert forall|j: int| 0 <= j < places.len() implies (per(#[trigger] list[j]) is None <==> (j
            == 0 || ({
            let index = plot.levels@[places[j]].level_index;
            0 < index <= plot.refinement_ratios@.len() && 0 < plot.refinement_ratios@[index - 1]
                <= u32::MAX
        }))) by {
            let level = plot.levels@[places[j]];
            assert(level.components@.len() >= ids.len());
            assert forall|k: int| 0 <= k < slots.len() implies (#[trigger] slots[k])
                < level.components@.len() by {
                assert(slots[k] == slot_of(ids, components[k])->0);
                assert(refusal(components[k]) is None);
                lemma_slot_range(ids, components[k]);
            }
        }
        if forall|j: int|
            0 < j < places.len() ==> {
                let index = plot.levels@[#[trigger] places[j]].level_index;
                0 < index <= plot.refinement_ratios@.len() && 0
                    < plot.refinement_ratios@[index - 1] <= u32::MAX
            } {
            assert forall|j: int| 0 <= j < list.len() implies per(#[trigger] list[j]) is None by {
                let place = places[j];
            }
        }
        if first_refusal(list, per) is None {
            assert forall|j: int| 0 < j < places.len() implies ({
                let index = plot.levels@[#[trigger] places[j]].level_index;
                0 < index <= plot.refinement_ratios@.len() && 0
                    < plot.refinement_ratios@[index - 1] <= u32::MAX
            }) by {
                assert(per(list[j]) is None);
            }
        }
    }
}

proof fn lemma_slot_range(ids: Seq<usize>, id: usize)
    ensures
        ids.len() <= usize::MAX ==> (slot_of(ids, id) matches Some(n) ==> n < ids.len()),
    decreases ids.len(),
{
    if ids.len() > 0 && ids[0] != id {
        lemma_slot_range(ids.drop_first(), id);
    }
}

} // verus!
