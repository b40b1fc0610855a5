//! Slices from the plane to the merged mesh.

use vstd::prelude::*;

use crate::compact::{compact_loaded, CompactLoadError, CompactPlot};
use crate::data_reader::RawScalar;
use crate::isosurface::mesh::{sound, Mesh3D, MeshError, MeshModel};
use crate::isosurface::mesher::{BuildError, Maker, VertexKey};
use crate::isosurface::{
    components_of, level_meshes, specs_of, turned_over, PlotSurfaceError, SampleSpec,
    SurfaceError,
};
use crate::isosurface::walk::lemma_same_order;
use crate::native_file::PlotFile;
use crate::outcome::{computes1, computes2, computes3, total1, total2, total3};
use crate::slice::{
    above, along, anchor_layer, component, law_slice_flip_winding, layer_cubes, layer_meshed,
    layer_walk, lemma_slice_implied, mesh_level, plane_anchor, plot_slice_outcome, sample_pairs,
    slice, slice_compact, slice_made, slice_of, slice_outcome, sliced, sliced_levels,
    sliced_parts, slices_by, slices_steadily, slices_to, with_anchors, same_slice_but_flip, SliceAxis,
    SliceLevel, SliceMeshing, SliceOptions, SlicePlane, SliceSampleError,
};
use crate::utility::sparse_grid3::grid::{visited_before, SparseGrid3};
use crate::utility::sparse_grid3::value::{lawful, Present};
use crate::vec3::{UVec3, Vec3};

verus! {

/// The value along an axis.
pub open spec fn value_along<S>(v: Vec3<S>, axis: SliceAxis) -> S {
    match axis {
        SliceAxis::X => v.x,
        SliceAxis::Y => v.y,
        SliceAxis::Z => v.z,
    }
}

fn value_component<S: Copy>(v: &Vec3<S>, axis: SliceAxis) -> (r: S)
    ensures
        r == value_along(*v, axis),
{
    match axis {
        SliceAxis::X => v.x,
        SliceAxis::Y => v.y,
        SliceAxis::Z => v.z,
    }
}

/// The layer of cubes that a plane cuts, and whether it cuts it at the upper end. `at` is the
/// layer at or below the plane, and whether the plane lies on it.
pub open spec fn cut_of(at: Option<(i64, bool)>, bound: u32) -> Option<(u32, bool)> {
    match at {
        None => None,
        Some((lower, on_layer)) => anchor_layer(lower, on_layer, bound),
    }
}

/// The layer of cubes of a level that a plane cuts is one that `place` may give.
pub open spec fn cuts<S, T: Copy + PartialEq, Q: Fn(S, S, S) -> Option<(i64, bool)>>(
    level: SliceLevel<'_, S, T>,
    plane: SlicePlane<S>,
    place: Q,
    layer: Option<u32>,
) -> bool {
    let bound = along(level.active_cubes.limits(), plane.axis);
    if bound == 0 {
        layer is None
    } else {
        exists|at: Option<(i64, bool)>| #[trigger]
            call_ensures(
                place,
                (
                    plane.value,
                    value_along(level.physical_origin, plane.axis),
                    value_along(level.cell_size, plane.axis),
                ),
                at,
            ) && layer == match cut_of(at, bound) {
                Some((layer, _)) => Some(layer),
                None => None,
            }
    }
}

/// Two faces per active cube of the layer that is cut.
pub open spec fn cut_faces<S, T: Copy + PartialEq>(
    level: SliceLevel<'_, S, T>,
    axis: SliceAxis,
    layer: Option<u32>,
) -> nat {
    match layer {
        Some(layer) => 2 * layer_cubes(level.active_cubes, axis, layer).len(),
        None => 0,
    }
}

/// Where planes lie, and the vertices of a slice.
#[verifier::reject_recursive_types(S)]
#[verifier::reject_recursive_types(T)]
pub struct PlaneRules<S, T, V> {
    /// From plane value, origin and cell size along the axis: the layer of samples at or below
    /// the plane, and whether the plane lies on it.
    pub place: spec_fn(S, S, S) -> Option<(i64, bool)>,
    /// From origin, cell size, whether the plane lies at the upper end of the layer, lattice
    /// point, checked samples, and the values just below and just above the plane.
    pub make: spec_fn(Vec3<S>, Vec3<S>, bool, UVec3, Seq<SampleSpec<S>>, Seq<(T, T)>) -> V,
}

/// The functions give what `rules` says.
pub open spec fn draws<
    S,
    T,
    V,
    Q: Fn(S, S, S) -> Option<(i64, bool)>,
    M: Fn(Vec3<S>, Vec3<S>, bool, UVec3, &Vec<SampleSpec<S>>, &Vec<(T, T)>) -> V,
>(place: Q, make: M, rules: PlaneRules<S, T, V>) -> bool {
    &&& computes3(place, rules.place)
    &&& forall|
        origin: Vec3<S>,
        cell_size: Vec3<S>,
        at_end: bool,
        p: UVec3,
        specs: Vec<SampleSpec<S>>,
        pairs: Vec<(T, T)>,
        v: V,
    | #[trigger]
        call_ensures(make, (origin, cell_size, at_end, p, &specs, &pairs), v) ==> v == (
        rules.make)(origin, cell_size, at_end, p, specs@, pairs@)
}

/// `make` takes every argument.
pub open spec fn draws_all<
    S,
    T,
    V,
    M: Fn(Vec3<S>, Vec3<S>, bool, UVec3, &Vec<SampleSpec<S>>, &Vec<(T, T)>) -> V,
>(make: M) -> bool {
    forall|
        origin: Vec3<S>,
        cell_size: Vec3<S>,
        at_end: bool,
        p: UVec3,
        specs: &Vec<SampleSpec<S>>,
        pairs: &Vec<(T, T)>,
    | #[trigger]
        call_requires(make, (origin, cell_size, at_end, p, specs, pairs))
}

/// The grids of a list of references.
pub open spec fn grids_of<T: Copy + PartialEq>(grids: Seq<&SparseGrid3<T>>) -> Seq<SparseGrid3<T>> {
    grids.map_values(|g: &SparseGrid3<T>| *g)
}

/// The first point without a sample, among the lower and the upper point of each of the first
/// `n` grids.
pub open spec fn missing_point<T: Copy + PartialEq>(
    grids: Seq<SparseGrid3<T>>,
    axis: SliceAxis,
    p: UVec3,
    n: nat,
) -> Option<UVec3>
    decreases n,
{
    if n == 0 {
        None
    } else if missing_point(grids, axis, p, (n - 1) as nat) is Some {
        missing_point(grids, axis, p, (n - 1) as nat)
    } else if grids[n - 1].at(p) is None {
        Some(p)
    } else if grids[n - 1].at(above(p, axis)) is None {
        Some(above(p, axis))
    } else {
        None
    }
}

/// The samples just below and just above a plane, for each grid.
pub open spec fn pairs_at<T: Copy + PartialEq>(
    grids: Seq<SparseGrid3<T>>,
    axis: SliceAxis,
    p: UVec3,
) -> Result<Seq<(T, T)>, SliceSampleError> {
    if along(p, axis) == u32::MAX {
        Err(SliceSampleError::CoordinateOverflow)
    } else {
        match missing_point(grids, axis, p, grids.len()) {
            Some(q) => Err(SliceSampleError::Missing(q)),
            None => Ok(
                Seq::new(
                    grids.len(),
                    |i: int| (grids[i].at(p)->0, grids[i].at(above(p, axis))->0),
                ),
            ),
        }
    }
}

/// Nothing is missing before grid `i`.
proof fn lemma_nothing_missing<T: Copy + PartialEq>(
    grids: Seq<SparseGrid3<T>>,
    axis: SliceAxis,
    p: UVec3,
    i: nat,
)
    requires
        i <= grids.len(),
        forall|j: int|
            0 <= j < i ==> (#[trigger] grids[j]).at(p) is Some && grids[j].at(
                above(p, axis),
            ) is Some,
    ensures
        missing_point(grids, axis, p, i) is None,
    decreases i,
{
    if i > 0 {
        lemma_nothing_missing(grids, axis, p, (i - 1) as nat);
    }
}

/// What is missing from some grids is missing from more.
proof fn lemma_missing_stays<T: Copy + PartialEq>(
    grids: Seq<SparseGrid3<T>>,
    axis: SliceAxis,
    p: UVec3,
    i: nat,
    n: nat,
)
    requires
        i <= n,
        missing_point(grids, axis, p, i) is Some,
    ensures
        missing_point(grids, axis, p, n) == missing_point(grids, axis, p, i),
    decreases n,
{
    if i < n {
        lemma_missing_stays(grids, axis, p, i, (n - 1) as nat);
    }
}

/// The samples on both sides of a plane at the lattice point of a key.
fn pairs_for<T: Copy + PartialEq>(
    grids: &Vec<&SparseGrid3<T>>,
    axis: SliceAxis,
    p: UVec3,
) -> (r: Result<Vec<(T, T)>, SliceSampleError>)
    requires
        forall|i: int| 0 <= i < grids@.len() ==> (#[trigger] grids@[i]).wf(),
    ensures
        match r {
            Ok(v) => pairs_at(grids_of(grids@), axis, p) == Ok::<Seq<(T, T)>, SliceSampleError>(v@),
            Err(e) => pairs_at(grids_of(grids@), axis, p) == Err::<Seq<(T, T)>, SliceSampleError>(e),
        },
{
    let r = sample_pairs(grids, axis, p);
    proof {
        let all = grids_of(grids@);
        if along(p, axis) < u32::MAX {
            if r is Ok {
                let v = r->Ok_0;
                assert forall|j: int| 0 <= j < all.len() implies (#[trigger] all[j]).at(p) is Some
                    && all[j].at(above(p, axis)) is Some by {
                    assert(grids@[j].at(p) == Some(v@[j].0));
                }
                lemma_nothing_missing(all, axis, p, all.len());
                assert forall|j: int| 0 <= j < all.len() implies #[trigger] v@[j] == (
                    all[j].at(p)->0,
                    all[j].at(above(p, axis))->0,
                ) by {}
                assert(v@ =~= pairs_at(all, axis, p)->Ok_0);
            } else if let SliceSampleError::Missing(q) = r->Err_0 {
                let i = choose|i: int|
                    0 <= i < grids@.len() && (forall|j: int|
                        0 <= j < i ==> grids@[j].at(p) is Some && #[trigger] grids@[j].at(
                            above(p, axis),
                        ) is Some) && (if #[trigger] grids@[i].at(p) is None {
                        q == p
                    } else {
                        grids@[i].at(above(p, axis)) is None && q == above(p, axis)
                    });
                assert forall|j: int| 0 <= j < i implies (#[trigger] all[j]).at(p) is Some
                    && all[j].at(above(p, axis)) is Some by {
                    assert(grids@[j].at(above(p, axis)) is Some);
                }
                lemma_nothing_missing(all, axis, p, i as nat);
                assert(all[i].at(p) == grids@[i].at(p));
                lemma_missing_stays(all, axis, p, (i + 1) as nat, all.len());
            }
        }
    }
    r
}

/// The lattice point of a key; for an edge, its lower end.
pub open spec fn key_point(key: VertexKey) -> UVec3 {
    match key {
        VertexKey::Grid(p) => p,
        VertexKey::Edge(p, _) => p,
        VertexKey::Interior(p) => p,
    }
}

/// The vertices of a slice of one level.
pub open spec fn plane_maker<S, T: Copy + PartialEq, P, U>(
    level: SliceLevel<'_, S, T>,
    specs: Seq<SampleSpec<S>>,
    axis: SliceAxis,
    at_end: bool,
    rules: PlaneRules<S, T, (P, U)>,
) -> Maker<(P, U), SliceSampleError> {
    |key: VertexKey|
        match pairs_at(grids_of(level.sampled_quantities@), axis, key_point(key)) {
            Err(e) => Err(e),
            Ok(pairs) => Ok(
                (rules.make)(
                    level.physical_origin,
                    level.cell_size,
                    at_end,
                    key_point(key),
                    specs,
                    pairs,
                ),
            ),
        }
}

/// What the levels give for a plane: the layer that it cuts, meshed; or nothing, when it cuts
/// none.
pub open spec fn plane_surface<'a, S, T: Copy + PartialEq, P, U>(
    plane: SlicePlane<S>,
    rules: PlaneRules<S, T, (P, U)>,
) -> SliceMeshing<'a, S, T, P, U, BuildError<SliceSampleError>> {
    |
        level: SliceLevel<'a, S, T>,
        specs: Vec<SampleSpec<S>>,
        m: Result<Mesh3D<P, U>, BuildError<SliceSampleError>>,
    |
        {
            let bound = along(level.active_cubes.limits(), plane.axis);
            let at = (rules.place)(
                plane.value,
                value_along(level.physical_origin, plane.axis),
                value_along(level.cell_size, plane.axis),
            );
            let cut = if bound == 0 {
                None
            } else {
                cut_of(at, bound)
            };
            match cut {
                None => m matches Ok(mesh) && nothing(mesh@),
                Some((layer, at_end)) => exists|anchors: Seq<UVec3>| #[trigger]
                    layer_walk(level.active_cubes, anchors) && sliced(
                        anchors,
                        plane.axis,
                        layer,
                        plane_maker(level, specs@, plane.axis, at_end, rules),
                        m,
                    ),
            }
        }
}

/// A mesh without vertices and faces.
pub open spec fn nothing<P, U>(m: MeshModel<P, U>) -> bool {
    m.positions.len() == 0 && m.uv.len() == 0 && m.indices.len() == 0
}

/// A mesh of a level has two faces per active cube of the layer that the plane cuts, and is
/// sound.
pub open spec fn cut_meshed<'a, S, T: Copy + PartialEq, P, U, Q: Fn(S, S, S) -> Option<(i64, bool)>>(
    plane: SlicePlane<S>,
    place: Q,
    level: SliceLevel<'a, S, T>,
    mesh: MeshModel<P, U>,
) -> bool {
    &&& sound(mesh)
    &&& exists|layer: Option<u32>| #[trigger]
        cuts(level, plane, place, layer) && mesh.indices.len() == cut_faces(
            level,
            plane.axis,
            layer,
        )
}

/// `m` is a slice of a level.
pub open spec fn plane_result<
    'a,
    S,
    T: Copy + PartialEq,
    P,
    U,
    Q: Fn(S, S, S) -> Option<(i64, bool)>,
    M: Fn(Vec3<S>, Vec3<S>, bool, UVec3, &Vec<SampleSpec<S>>, &Vec<(T, T)>) -> (P, U),
>(
    level: &SliceLevel<'a, S, T>,
    specs: &Vec<SampleSpec<S>>,
    plane: &SlicePlane<S>,
    place: &Q,
    make: &M,
    m: Result<Mesh3D<P, U>, BuildError<SliceSampleError>>,
) -> bool {
    &&& m matches Ok(mesh) ==> cut_meshed(*plane, *place, *level, mesh@)
    &&& forall|rules: PlaneRules<S, T, (P, U)>| #[trigger]
        draws(*place, *make, rules) ==> plane_surface(*plane, rules)(*level, *specs, m)
}

/// The slice of one level: the layer of cubes that the plane cuts, one quadrilateral per cube.
///
/// `place` takes the plane value, and origin and cell size along the axis, and gives the layer
/// of samples at or below the plane and whether the plane lies on it; `make` makes the vertex of
/// a lattice point from the samples on both sides of the plane.
pub fn mesh_plane_level<
    'a,
    S: Copy,
    T: Copy + PartialEq,
    P: Copy,
    U: Copy,
    Q: Fn(S, S, S) -> Option<(i64, bool)>,
    M: Fn(Vec3<S>, Vec3<S>, bool, UVec3, &Vec<SampleSpec<S>>, &Vec<(T, T)>) -> (P, U),
>(
    level: &SliceLevel<'a, S, T>,
    specs: &Vec<SampleSpec<S>>,
    plane: &SlicePlane<S>,
    place: &Q,
    make: &M,
) -> (r: Result<Mesh3D<P, U>, BuildError<SliceSampleError>>)
    requires
        level.wf(),
        total3(*place),
        draws_all(*make),
    ensures
        plane_result(level, specs, plane, place, make, r),
{
    let axis = plane.axis;
    let bound = component(level.active_cubes.bounds(), axis);
    if bound == 0 {
        let mesh: Mesh3D<P, U> = Mesh3D {
            positions: Vec::new(),
            uv: Vec::new(),
            indices: Vec::new(),
        };
        assert(cuts(*level, *plane, *place, None));
        return Ok(mesh);
    }
    let at = place(
        plane.value,
        value_component(&level.physical_origin, axis),
        value_component(&level.cell_size, axis),
    );
    let cut = match at {
        Some((lower, on_layer)) => plane_anchor(lower, on_layer, bound),
        None => None,
    };
    let (layer, at_end) = match cut {
        Some(v) => v,
        None => {
            let mesh: Mesh3D<P, U> = Mesh3D {
                positions: Vec::new(),
                uv: Vec::new(),
                indices: Vec::new(),
            };
            assert(cuts(*level, *plane, *place, None));
            return Ok(mesh);
        },
    };
    let make_here = |key: VertexKey| -> (v: Result<(P, U), SliceSampleError>)
        ensures
            made(level, specs, axis, at_end, make, key, v),
        { vertex_at(level, specs, axis, at_end, make, key) };
    let r = mesh_level(&level.active_cubes, axis, layer, &make_here);
    proof {
        assert(cuts(*level, *plane, *place, Some(layer)));
        assert(r is Ok ==> layer_meshed(level.active_cubes, axis, layer, r->Ok_0@));
        assert forall|rules: PlaneRules<S, T, (P, U)>| #[trigger]
            draws(*place, *make, rules) implies plane_surface(*plane, rules)(*level, *specs, r) by {
            let g = plane_maker(*level, specs@, axis, at_end, rules);
            assert(computes1(make_here, g));
        }
    }
    r
}

/// `make` may give `w` for a lattice point of a level.
spec fn drawn<
    'a,
    S,
    T: Copy + PartialEq,
    P,
    U,
    M: Fn(Vec3<S>, Vec3<S>, bool, UVec3, &Vec<SampleSpec<S>>, &Vec<(T, T)>) -> (P, U),
>(
    level: &SliceLevel<'a, S, T>,
    specs: &Vec<SampleSpec<S>>,
    at_end: bool,
    make: &M,
    p: UVec3,
    pairs: &Vec<(T, T)>,
    w: (P, U),
) -> bool {
    call_ensures(*make, (level.physical_origin, level.cell_size, at_end, p, specs, pairs), w)
}

/// `v` is what `make` may give for a key, from the samples on both sides of the plane.
spec fn made<
    'a,
    S,
    T: Copy + PartialEq,
    P,
    U,
    M: Fn(Vec3<S>, Vec3<S>, bool, UVec3, &Vec<SampleSpec<S>>, &Vec<(T, T)>) -> (P, U),
>(
    level: &SliceLevel<'a, S, T>,
    specs: &Vec<SampleSpec<S>>,
    axis: SliceAxis,
    at_end: bool,
    make: &M,
    key: VertexKey,
    v: Result<(P, U), SliceSampleError>,
) -> bool {
    match pairs_at(grids_of(level.sampled_quantities@), axis, key_point(key)) {
        Err(e) => v == Err::<(P, U), SliceSampleError>(e),
        Ok(list) => exists|pairs: Vec<(T, T)>|
            pairs@ == list && v is Ok && #[trigger] drawn(
                level,
                specs,
                at_end,
                make,
                key_point(key),
                &pairs,
                v->Ok_0,
            ),
    }
}

/// The vertex of a key, from the samples on both sides of the plane.
fn vertex_at<
    'a,
    S: Copy,
    T: Copy + PartialEq,
    P: Copy,
    U: Copy,
    M: Fn(Vec3<S>, Vec3<S>, bool, UVec3, &Vec<SampleSpec<S>>, &Vec<(T, T)>) -> (P, U),
>(
    level: &SliceLevel<'a, S, T>,
    specs: &Vec<SampleSpec<S>>,
    axis: SliceAxis,
    at_end: bool,
    make: &M,
    key: VertexKey,
) -> (v: Result<(P, U), SliceSampleError>)
    requires
        level.wf(),
        draws_all(*make),
    ensures
        made(level, specs, axis, at_end, make, key, v),
{
    let p = match key {
        VertexKey::Grid(p) => p,
        VertexKey::Edge(p, _) => p,
        VertexKey::Interior(p) => p,
    };
    match pairs_for(&level.sampled_quantities, axis, p) {
        Ok(pairs) => {
            let w = make(level.physical_origin, level.cell_size, at_end, p, specs, &pairs);
            proof {
                let grids = grids_of(level.sampled_quantities@);
                assert(p == key_point(key));
                assert(pairs_at(grids, axis, p) == Ok::<Seq<(T, T)>, SliceSampleError>(pairs@));
                assert(drawn(level, specs, at_end, make, p, &pairs, w));
                let v: Result<(P, U), SliceSampleError> = Ok(w);
                assert(v->Ok_0 == w);
                assert(drawn(level, specs, at_end, make, key_point(key), &pairs, v->Ok_0));
                assert(made(level, specs, axis, at_end, make, key, v));
            }
            Ok(w)
        },
        Err(e) => Err(e),
    }
}

/// `layers` are layers that a plane cuts, one per level.
pub open spec fn cut_layers<S, T: Copy + PartialEq, Q: Fn(S, S, S) -> Option<(i64, bool)>>(
    levels: Seq<SliceLevel<'_, S, T>>,
    plane: SlicePlane<S>,
    place: Q,
    layers: Seq<Option<u32>>,
) -> bool {
    &&& layers.len() == levels.len()
    &&& forall|i: int|
        0 <= i < levels.len() ==> cuts(levels[i], plane, place, #[trigger] layers[i])
}

/// Two faces per active cube of the layers that are cut in the first `n` levels.
pub open spec fn face_total<S, T: Copy + PartialEq>(
    levels: Seq<SliceLevel<'_, S, T>>,
    axis: SliceAxis,
    layers: Seq<Option<u32>>,
    n: nat,
) -> nat
    decreases n,
{
    if n == 0 {
        0
    } else {
        face_total(levels, axis, layers, (n - 1) as nat) + cut_faces(
            levels[n - 1],
            axis,
            layers[n - 1],
        )
    }
}

/// A mesh has two faces per active cube of the layers that the plane cuts in the levels that a
/// request names.
pub open spec fn plane_cut<S, T: Copy + PartialEq, P, U, Q: Fn(S, S, S) -> Option<(i64, bool)>>(
    plot: CompactPlot<S, T>,
    options: SliceOptions<S>,
    place: Q,
    mesh: MeshModel<P, U>,
) -> bool {
    exists|levels: Seq<SliceLevel<'_, S, T>>, layers: Seq<Option<u32>>|
        sliced_levels(plot, options, levels) && #[trigger] cut_layers(
            levels,
            options.plane,
            place,
            layers,
        ) && mesh.indices.len() == face_total(levels, options.plane.axis, layers, levels.len())
}

/// Merged levels have as many faces as the levels together.
proof fn lemma_face_total<S, T: Copy + PartialEq, P, U>(
    levels: Seq<SliceLevel<'_, S, T>>,
    axis: SliceAxis,
    layers: Seq<Option<u32>>,
    parts: Seq<MeshModel<P, U>>,
    n: nat,
    flip: bool,
)
    requires
        n <= parts.len(),
        forall|i: int|
            0 <= i < n ==> (#[trigger] parts[i]).indices.len() == cut_faces(
                levels[i],
                axis,
                layers[i],
            ),
    ensures
        level_meshes(parts, n, flip) matches Ok(m) ==> m.indices.len() == face_total(
            levels,
            axis,
            layers,
            n,
        ),
    decreases n,
{
    if n > 0 {
        lemma_face_total(levels, axis, layers, parts, (n - 1) as nat, flip);
        assert(parts[n - 1].indices.len() == cut_faces(levels[n - 1], axis, layers[n - 1]));
    }
}

/// Levels that are meshed by layer give two faces per active cube of the layers.
proof fn lemma_plane_cut<
    'a,
    S,
    T: Copy + PartialEq,
    P,
    U,
    E,
    Q: Fn(S, S, S) -> Option<(i64, bool)>,
>(
    plot: CompactPlot<S, T>,
    options: SliceOptions<S>,
    place: Q,
    meshing: SliceMeshing<'a, S, T, P, U, E>,
    mesh: Mesh3D<P, U>,
)
    requires
        forall|l: SliceLevel<'a, S, T>, q: Vec<SampleSpec<S>>, m: Mesh3D<P, U>| #[trigger]
            meshing(l, q, Ok::<Mesh3D<P, U>, E>(m)) ==> cut_meshed(options.plane, place, l, m@),
        slice_made(plot, options, meshing, Ok::<Mesh3D<P, U>, SurfaceError<E>>(mesh)),
    ensures
        plane_cut(plot, options, place, mesh@),
{
    let r = Ok::<Mesh3D<P, U>, SurfaceError<E>>(mesh);
    let (levels, specs, parts) = choose|
        levels: Seq<SliceLevel<'a, S, T>>,
        specs: Vec<SampleSpec<S>>,
        parts: Seq<MeshModel<P, U>>,
    |
        sliced_levels(plot, options, levels) && specs@ == specs_of(options.sampled_quantities@)
            && #[trigger] sliced_parts(meshing, levels, specs, parts) && slice_of(
            levels,
            specs,
            parts,
            options.flip_winding,
            meshing,
            r,
        );
    let axis = options.plane.axis;
    let layers = Seq::new(
        parts.len(),
        |i: int|
            choose|layer: Option<u32>| #[trigger]
                cuts(levels[i], options.plane, place, layer) && parts[i].indices.len()
                    == cut_faces(levels[i], axis, layer),
    );
    assert forall|i: int| 0 <= i < parts.len() implies cuts(
        levels[i],
        options.plane,
        place,
        #[trigger] layers[i],
    ) && parts[i].indices.len() == cut_faces(levels[i], axis, layers[i]) by {
        assert(slices_to(meshing, levels[i], specs, parts[i]));
        assert(cut_meshed(options.plane, place, levels[i], parts[i]));
    }
    assert(cut_layers(levels, options.plane, place, layers));
    assert forall|i: int| 0 <= i < parts.len() implies (#[trigger] parts[i]).indices.len()
        == cut_faces(levels[i], axis, layers[i]) by {
        assert(cuts(levels[i], options.plane, place, layers[i]));
    }
    lemma_face_total(levels, axis, layers, parts, parts.len(), options.flip_winding);
    assert(level_meshes(parts, parts.len(), options.flip_winding) == Ok::<
        MeshModel<P, U>,
        MeshError,
    >(mesh@));
}

/// Extract an axis-aligned slice mesh from an already-loaded compact plot.
///
/// In each chosen level the plane cuts one layer of cubes, or none; the mesh has two faces per
/// active cube of these layers.
pub fn slice_plane_compact<
    'a,
    S: Copy,
    T: Copy + PartialEq,
    P: Copy,
    U: Copy,
    F: Fn(S) -> bool,
    L: Fn(S, S) -> bool,
    Q: Fn(S, S, S) -> Option<(i64, bool)>,
    M: Fn(Vec3<S>, Vec3<S>, bool, UVec3, &Vec<SampleSpec<S>>, &Vec<(T, T)>) -> (P, U),
>(
    plot: &'a CompactPlot<S, T>,
    options: &SliceOptions<S>,
    finite: &F,
    less: &L,
    place: &Q,
    make: &M,
) -> (r: Result<Mesh3D<P, U>, SurfaceError<BuildError<SliceSampleError>>>)
    requires
        plot.wf(),
        total1(*finite),
        total2(*less),
        total3(*place),
        draws_all(*make),
    ensures
        r matches Ok(mesh) ==> plane_cut(*plot, *options, *place, mesh@),
        forall|
            f: spec_fn(S) -> bool,
            l: spec_fn(S, S) -> bool,
            rules: PlaneRules<S, T, (P, U)>,
        |
            #![trigger computes1(*finite, f), computes2(*less, l), draws(*place, *make, rules)]
            computes1(*finite, f) && computes2(*less, l) && draws(*place, *make, rules)
                ==> slice_outcome(
                *plot,
                *options,
                f,
                l,
                plane_surface(options.plane, rules),
                r,
            ),
{
    let plane = &options.plane;
    let mesh = |level: &SliceLevel<'a, S, T>, specs: &Vec<SampleSpec<S>>| -> (m: Result<
        Mesh3D<P, U>,
        BuildError<SliceSampleError>,
    >)
        requires
            level.wf(),
        ensures
            plane_result(level, specs, plane, place, make, m),
        { mesh_plane_level(level, specs, plane, place, make) };
    let r = slice_compact(plot, options, finite, less, &mesh);
    proof {
        let meshing = slices_by(mesh);
        if r is Ok {
            lemma_plane_cut(*plot, *options, *place, meshing, r->Ok_0);
        }
        assert forall|
            f: spec_fn(S) -> bool,
            l: spec_fn(S, S) -> bool,
            rules: PlaneRules<S, T, (P, U)>,
        |
            #![trigger computes1(*finite, f), computes2(*less, l), draws(*place, *make, rules)]
            computes1(*finite, f) && computes2(*less, l) && draws(
                *place,
                *make,
                rules,
            ) implies slice_outcome(
            *plot,
            *options,
            f,
            l,
            plane_surface(options.plane, rules),
            r,
        ) by {
            if slice_made(*plot, *options, meshing, r) {
                lemma_slice_implied(
                    *plot,
                    *options,
                    meshing,
                    plane_surface(options.plane, rules),
                    r,
                );
            }
        }
    }
    r
}

/// Load required data from a plotfile and extract an axis-aligned slice mesh.
///
/// In each chosen level the plane cuts one layer of cubes, or none; the mesh has two faces per
/// active cube of these layers.
pub fn slice_plane<
    'v,
    S: Copy,
    T: Copy + PartialEq,
    P: Copy,
    U: Copy,
    X,
    V: Fn(usize, usize) -> Result<&'v [u8], X>,
    C: Fn(RawScalar) -> T,
    F: Fn(S) -> bool,
    L: Fn(S, S) -> bool,
    Q: Fn(S, S, S) -> Option<(i64, bool)>,
    M: Fn(Vec3<S>, Vec3<S>, bool, UVec3, &Vec<SampleSpec<S>>, &Vec<(T, T)>) -> (P, U),
>(
    plot_file: &PlotFile<S>,
    options: &SliceOptions<S>,
    file_of: &V,
    convert: &C,
    finite: &F,
    less: &L,
    place: &Q,
    make: &M,
) -> (r: Result<Mesh3D<P, U>, PlotSurfaceError<BuildError<SliceSampleError>, X>>)
    requires
        plot_file.wf(),
        lawful::<T>(),
        forall|l: usize, k: usize| #[trigger] call_requires(*file_of, (l, k)),
        forall|raw: RawScalar| #[trigger] call_requires(*convert, (raw,)),
        total1(*finite),
        total2(*less),
        total3(*place),
        draws_all(*make),
    ensures
        r matches Ok(mesh) ==> exists|plot: CompactPlot<S, T>| #[trigger]
            compact_loaded(
                *plot_file,
                components_of(specs_of(options.sampled_quantities@)),
                *file_of,
                *convert,
                Ok::<CompactPlot<S, T>, CompactLoadError<X>>(plot),
            ) && plane_cut(plot, *options, *place, mesh@),
        forall|
            f: spec_fn(S) -> bool,
            l: spec_fn(S, S) -> bool,
            rules: PlaneRules<S, T, (P, U)>,
        |
            #![trigger computes1(*finite, f), computes2(*less, l), draws(*place, *make, rules)]
            computes1(*finite, f) && computes2(*less, l) && draws(*place, *make, rules)
                ==> plot_slice_outcome(
                *plot_file,
                *options,
                *file_of,
                *convert,
                f,
                l,
                plane_surface(options.plane, rules),
                r,
            ),
{
    let plane = &options.plane;
    let mesh = |level: &SliceLevel<'_, S, T>, specs: &Vec<SampleSpec<S>>| -> (m: Result<
        Mesh3D<P, U>,
        BuildError<SliceSampleError>,
    >)
        requires
            level.wf(),
        ensures
            plane_result(level, specs, plane, place, make, m),
        { mesh_plane_level(level, specs, plane, place, make) };
    let r = slice(plot_file, options, file_of, convert, finite, less, &mesh);
    proof {
        let meshing = slices_by(mesh);
        if r is Ok {
            let wanted = components_of(specs_of(options.sampled_quantities@));
            let plot = choose|plot: CompactPlot<S, T>| #[trigger]
                compact_loaded(
                    *plot_file,
                    wanted,
                    *file_of,
                    *convert,
                    Ok::<CompactPlot<S, T>, CompactLoadError<X>>(plot),
                ) && slice_made(
                    plot,
                    *options,
                    meshing,
                    Ok::<Mesh3D<P, U>, SurfaceError<BuildError<SliceSampleError>>>(r->Ok_0),
                );
            lemma_plane_cut(plot, *options, *place, meshing, r->Ok_0);
        }
        assert forall|
            f: spec_fn(S) -> bool,
            l: spec_fn(S, S) -> bool,
            rules: PlaneRules<S, T, (P, U)>,
        |
            #![trigger computes1(*finite, f), computes2(*less, l), draws(*place, *make, rules)]
            computes1(*finite, f) && computes2(*less, l) && draws(
                *place,
                *make,
                rules,
            ) implies plot_slice_outcome(
            *plot_file,
            *options,
            *file_of,
            *convert,
            f,
            l,
            plane_surface(options.plane, rules),
            r,
        ) by {
            let to = plane_surface(options.plane, rules);
            assert forall|
                plot: CompactPlot<S, T>,
                m: Result<Mesh3D<P, U>, SurfaceError<BuildError<SliceSampleError>>>,
            | #[trigger] slice_outcome(plot, *options, f, l, meshing, m) implies slice_outcome(
                plot,
                *options,
                f,
                l,
                to,
                m,
            ) by {
                if slice_made(plot, *options, meshing, m) {
                    lemma_slice_implied(plot, *options, meshing, to, m);
                }
            }
        }
    }
    r
}

/// The walk through all marked points depends on the marked points alone.
proof fn lemma_same_layer_walk(
    a: SparseGrid3<Present>,
    b: SparseGrid3<Present>,
    anchors: Seq<UVec3>,
    others: Seq<UVec3>,
)
    requires
        forall|p: UVec3| #[trigger] a.at(p) == b.at(p),
        layer_walk(a, anchors),
        layer_walk(b, others),
    ensures
        anchors == others,
{
    assert forall|p: UVec3| #[trigger] anchors.contains(p) implies others.contains(p) by {
        let i = choose|i: int| 0 <= i < anchors.len() && anchors[i] == p;
        assert(a.at(anchors[i]) is Some);
        assert(b.at(p) is Some);
    }
    assert forall|p: UVec3| #[trigger] others.contains(p) implies anchors.contains(p) by {
        let i = choose|i: int| 0 <= i < others.len() && others[i] == p;
        assert(b.at(others[i]) is Some);
        assert(a.at(p) is Some);
    }
    lemma_same_order(anchors, others, |p: UVec3, q: UVec3| visited_before(p, q));
}

/// The levels of a plot always give the same slice.
pub proof fn law_plane_is_steady<'a, S, T: Copy + PartialEq, P, U>(
    plot: CompactPlot<S, T>,
    options: SliceOptions<S>,
    rules: PlaneRules<S, T, (P, U)>,
)
    ensures
        slices_steadily(plot, options, plane_surface::<'a, S, T, P, U>(options.plane, rules)),
{
    let meshing = plane_surface::<'a, S, T, P, U>(options.plane, rules);
    let axis = options.plane.axis;
    assert forall|
        j: int,
        a: Seq<SliceLevel<'a, S, T>>,
        b: Seq<SliceLevel<'a, S, T>>,
        p: Vec<SampleSpec<S>>,
        q: Vec<SampleSpec<S>>,
        m: Result<Mesh3D<P, U>, BuildError<SliceSampleError>>,
        n: Result<Mesh3D<P, U>, BuildError<SliceSampleError>>,
    |
        #![trigger meshing(a[j], p, m), meshing(b[j], q, n)]
        {
            &&& sliced_levels(plot, options, a)
            &&& sliced_levels(plot, options, b)
            &&& 0 <= j < a.len()
            &&& p@ == q@
            &&& meshing(a[j], p, m)
            &&& meshing(b[j], q, n)
        } implies match (m, n) {
        (Ok(x), Ok(y)) => x@ == y@,
        (Err(_), Err(_)) => true,
        _ => false,
    } by {
        assert(grids_of(a[j].sampled_quantities@) =~= grids_of(b[j].sampled_quantities@));
        assert forall|c: UVec3| #[trigger] a[j].active_cubes.at(c) == b[j].active_cubes.at(c) by {}
        let bound = along(a[j].active_cubes.limits(), axis);
        let at = (rules.place)(
            options.plane.value,
            value_along(a[j].physical_origin, axis),
            value_along(a[j].cell_size, axis),
        );
        if bound > 0 && cut_of(at, bound) is Some {
            let (layer, at_end) = cut_of(at, bound)->0;
            let make = plane_maker(a[j], p@, axis, at_end, rules);
            let other = plane_maker(b[j], q@, axis, at_end, rules);
            assert(make =~= other);
            let anchors = choose|anchors: Seq<UVec3>| #[trigger]
                layer_walk(a[j].active_cubes, anchors) && sliced(anchors, axis, layer, make, m);
            let others = choose|anchors: Seq<UVec3>| #[trigger]
                layer_walk(b[j].active_cubes, anchors) && sliced(anchors, axis, layer, other, n);
            lemma_same_layer_walk(a[j].active_cubes, b[j].active_cubes, anchors, others);
            if m is Ok && n is Ok {
                let s = with_anchors(anchors, anchors.len(), axis, layer, make)->Ok_0;
                let x = m->Ok_0;
                let y = n->Ok_0;
                assert forall|i: int| 0 <= i < s.keys.len() implies x@.positions[i]
                    == y@.positions[i] && x@.uv[i] == y@.uv[i] by {
                    assert(make(s.keys[i]) == other(s.keys[i]));
                }
                assert(x@.positions =~= y@.positions);
                assert(x@.uv =~= y@.uv);
            }
        } else if m is Ok && n is Ok {
            assert(m->Ok_0@.positions =~= n->Ok_0@.positions);
            assert(m->Ok_0@.uv =~= n->Ok_0@.uv);
            assert(m->Ok_0@.indices =~= n->Ok_0@.indices);
        }
    }
}

/// A slice with `flip_winding` is the slice that the same request gives without it, with every
/// face turned over.
pub proof fn law_plane_flip_winding<'a, S, T: Copy + PartialEq, P, U>(
    plot: CompactPlot<S, T>,
    options: SliceOptions<S>,
    flip: SliceOptions<S>,
    finite: spec_fn(S) -> bool,
    less: spec_fn(S, S) -> bool,
    rules: PlaneRules<S, T, (P, U)>,
    plain: Mesh3D<P, U>,
    r: Result<Mesh3D<P, U>, SurfaceError<BuildError<SliceSampleError>>>,
)
    requires
        same_slice_but_flip(options, flip),
        slice_outcome(
            plot,
            options,
            finite,
            less,
            plane_surface::<'a, S, T, P, U>(options.plane, rules),
            Ok::<Mesh3D<P, U>, SurfaceError<BuildError<SliceSampleError>>>(plain),
        ),
        slice_outcome(
            plot,
            flip,
            finite,
            less,
            plane_surface::<'a, S, T, P, U>(flip.plane, rules),
            r,
        ),
    ensures
        r matches Ok(turned) && turned_over(plain@, turned@),
{
    law_plane_is_steady::<S, T, P, U>(plot, options, rules);
    law_slice_flip_winding(
        plot,
        options,
        flip,
        finite,
        less,
        plane_surface::<S, T, P, U>(options.plane, rules),
        plain,
        r,
    );
}

} // verus!
