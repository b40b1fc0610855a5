//! Isosurface requests by marching cubes, from the compact plot to the merged mesh.

use vstd::prelude::*;

use crate::compact::{compact_loaded, CompactLoadError, CompactPlot};
use crate::data_reader::RawScalar;
use crate::isosurface::dual_grid::{all_chosen, law_chosen_levels, DualGridLevel};
use crate::isosurface::mc33;
use crate::isosurface::mc33::tables::Tables;
use crate::isosurface::mc33::InteriorTest;
use crate::isosurface::mesh::{Mesh3D, MeshError, MeshModel};
use crate::isosurface::mesher::{BuildError, Craft, FaceVerdict, VertexKey};
use crate::isosurface::parallel::LevelError;
use crate::isosurface::surface::{
    clean, law_merged_levels_are_clean, lemma_same_surface, level_surface, mc33_level,
};
use crate::isosurface::{
    calls_of, gives_for, isosurface, isosurface_compact, law_flip_winding, lemma_surface_implied,
    level_meshes, measures, plot_surface_outcome, requested_levels, requested_parts, same_but_flip, steady,
    surface_made, surface_of, surface_outcome, surface_unless_refused, turned_over,
    wanted_components, Extraction, IsosurfaceOptions, LevelMeshing, PlotSurfaceError,
    SampleSpec, Scalars, SurfaceError,
};
use crate::native_file::PlotFile;
use crate::outcome::{computes2, computes3, computes4, total1, total2, total3, total4};
use crate::utility::sparse_grid3::grid::SparseGrid3;
use crate::utility::sparse_grid3::value::lawful;
use crate::vec3::{IVec3, UVec3, Vec3};

verus! {

/// What the vertices of a level depend on.
pub struct LevelFrame<S, T: Copy + PartialEq> {
    pub level_index: usize,
    pub index_origin: IVec3,
    pub physical_origin: Vec3<S>,
    pub cell_size: Vec3<S>,
    pub samples: SparseGrid3<T>,
    pub sampled_quantities: Seq<SparseGrid3<T>>,
}

/// The frame of a level.
pub open spec fn frame_of<S, T: Copy + PartialEq>(level: DualGridLevel<'_, S, T>) -> LevelFrame<
    S,
    T,
> {
    LevelFrame {
        level_index: level.level_index,
        index_origin: level.index_origin,
        physical_origin: level.physical_origin,
        cell_size: level.cell_size,
        samples: *level.samples,
        sampled_quantities: level.sampled_quantities@.map_values(|g: &SparseGrid3<T>| *g),
    }
}

/// The tests on samples, which take the isovalue first, the vertex of each key of a level, and
/// the verdict on each face.
#[verifier::reject_recursive_types(S)]
#[verifier::reject_recursive_types(T)]
#[verifier::reject_recursive_types(V)]
pub struct LevelRules<S, T: Copy + PartialEq, V, E> {
    pub above: spec_fn(T, T) -> bool,
    pub face: spec_fn(T, [T; 8], i8) -> bool,
    pub interior: spec_fn(T, [T; 8], InteriorTest) -> bool,
    pub make: spec_fn(LevelFrame<S, T>, T, Seq<SampleSpec<S>>, VertexKey) -> Result<V, E>,
    pub judge: spec_fn(V, V, V, UVec3) -> FaceVerdict,
}

/// The rules for the cubes of one level.
pub open spec fn cube_rules<S, T: Copy + PartialEq, V, E>(
    rules: LevelRules<S, T, V, E>,
    frame: LevelFrame<S, T>,
    isovalue: T,
    specs: Seq<SampleSpec<S>>,
) -> mc33::Rules<T, V, E> {
    mc33::Rules {
        above: |v: T| (rules.above)(isovalue, v),
        face: |values: [T; 8], face: i8| (rules.face)(isovalue, values, face),
        interior: |values: [T; 8], test: InteriorTest| (rules.interior)(isovalue, values, test),
        craft: Craft {
            make: |key: VertexKey| (rules.make)(frame, isovalue, specs, key),
            judge: rules.judge,
        },
    }
}

/// The functions give what `rules` says.
pub open spec fn obeys<
    'a,
    S,
    T: Copy + PartialEq,
    V,
    E,
    A: Fn(T, T) -> bool,
    F: Fn(T, [T; 8], i8) -> bool,
    G: Fn(T, [T; 8], InteriorTest) -> bool,
    M: Fn(&DualGridLevel<'a, S, T>, &Extraction<S, T>, VertexKey) -> Result<V, E>,
    J: Fn(V, V, V, UVec3) -> FaceVerdict,
>(
    above: A,
    face_test: F,
    interior_test: G,
    make: M,
    judge: J,
    rules: LevelRules<S, T, V, E>,
) -> bool {
    &&& computes2(above, rules.above)
    &&& computes3(face_test, rules.face)
    &&& computes3(interior_test, rules.interior)
    &&& forall|level: DualGridLevel<'a, S, T>, request: Extraction<S, T>, key: VertexKey, v: Result<
        V,
        E,
    >| #[trigger]
        call_ensures(make, (&level, &request, key), v) ==> v == (rules.make)(
            frame_of(level),
            request.isovalue,
            request.specs@,
            key,
        )
    &&& computes4(judge, rules.judge)
}

/// `make` takes every key of a well-formed level.
pub open spec fn makes_all<
    'a,
    S,
    T: Copy + PartialEq,
    V,
    E,
    M: Fn(&DualGridLevel<'a, S, T>, &Extraction<S, T>, VertexKey) -> Result<V, E>,
>(make: M) -> bool {
    forall|level: &DualGridLevel<'a, S, T>, request: &Extraction<S, T>, key: VertexKey|
        level.wf() ==> #[trigger] call_requires(make, (level, request, key))
}

/// What the levels may give by marching cubes.
pub open spec fn mc33_meshing<'a, S, T: Copy + PartialEq, P, U, E>(
    tables: Tables,
    rules: LevelRules<S, T, (P, U), E>,
) -> LevelMeshing<'a, S, T, P, U, LevelError<BuildError<E>>> {
    |
        level: DualGridLevel<'a, S, T>,
        request: Extraction<S, T>,
        m: Result<Mesh3D<P, U>, LevelError<BuildError<E>>>,
    |
        {
            let cubes = cube_rules(rules, frame_of(level), request.isovalue, request.specs@);
            level_surface(
                mc33::cube_rule(*level.samples, tables, cubes),
                level.active_cubes,
                cubes.craft.make,
                m,
            )
        }
}

/// `m` is a surface of a level, and clean.
pub open spec fn level_result<
    'a,
    S,
    T: Copy + PartialEq,
    P,
    U,
    E,
    A: Fn(T, T) -> bool,
    F: Fn(T, [T; 8], i8) -> bool,
    G: Fn(T, [T; 8], InteriorTest) -> bool,
    M: Fn(&DualGridLevel<'a, S, T>, &Extraction<S, T>, VertexKey) -> Result<(P, U), E>,
    J: Fn((P, U), (P, U), (P, U), UVec3) -> FaceVerdict,
>(
    level: &DualGridLevel<'a, S, T>,
    request: &Extraction<S, T>,
    tables: &Tables,
    above: &A,
    face_test: &F,
    interior_test: &G,
    make: &M,
    judge: &J,
    m: Result<Mesh3D<P, U>, LevelError<BuildError<E>>>,
) -> bool {
    &&& m matches Ok(mesh) ==> clean(mesh@)
    &&& forall|rules: LevelRules<S, T, (P, U), E>| #[trigger]
        obeys(*above, *face_test, *interior_test, *make, *judge, rules) ==> mc33_meshing(
            *tables,
            rules,
        )(*level, *request, m)
}

/// The surface of one level of a request by marching cubes.
///
/// `above`, `face_test` and `interior_test` are the tests on samples and take the isovalue first;
/// `make` makes the vertex of a key of the level, and `judge` tells what to do with a face.
pub fn mesh_level_mc33<
    'a,
    S: Sync + Send,
    T: Copy + PartialEq + Sync + Send,
    P: Copy + Send,
    U: Copy + Send,
    E: Send,
    A: Fn(T, T) -> bool + Sync + Send,
    F: Fn(T, [T; 8], i8) -> bool + Sync + Send,
    G: Fn(T, [T; 8], InteriorTest) -> bool + Sync + Send,
    M: Fn(&DualGridLevel<'a, S, T>, &Extraction<S, T>, VertexKey) -> Result<(P, U), E> + Sync
        + Send,
    J: Fn((P, U), (P, U), (P, U), UVec3) -> FaceVerdict + Sync + Send,
>(
    level: &DualGridLevel<'a, S, T>,
    request: &Extraction<S, T>,
    tables: &Tables,
    above: &A,
    face_test: &F,
    interior_test: &G,
    make: &M,
    judge: &J,
) -> (r: Result<Mesh3D<P, U>, LevelError<BuildError<E>>>)
    requires
        level.wf(),
        tables.wf(),
        total2(*above),
        total3(*face_test),
        total3(*interior_test),
        makes_all(*make),
        total4(*judge),
    ensures
        r matches Ok(mesh) ==> clean(mesh@),
        level_result(
            level,
            request,
            tables,
            above,
            face_test,
            interior_test,
            make,
            judge,
            r,
        ),
{
    let isovalue: &T = &request.isovalue;
    let above_here = |v: T| -> (b: bool)
        ensures
            call_ensures(above, (*isovalue, v), b),
        { above(*isovalue, v) };
    let face_here = |values: [T; 8], face: i8| -> (b: bool)
        ensures
            call_ensures(face_test, (*isovalue, values, face), b),
        { face_test(*isovalue, values, face) };
    let interior_here = |values: [T; 8], test: InteriorTest| -> (b: bool)
        ensures
            call_ensures(interior_test, (*isovalue, values, test), b),
        { interior_test(*isovalue, values, test) };
    let make_here = |key: VertexKey| -> (v: Result<(P, U), E>)
        ensures
            call_ensures(make, (level, request, key), v),
        { make(level, request, key) };
    let r = mc33_level(
        level.samples,
        &level.active_cubes,
        tables,
        &above_here,
        &face_here,
        &interior_here,
        &make_here,
        judge,
    );
    proof {
        assert forall|rules: LevelRules<S, T, (P, U), E>| #[trigger]
            obeys(*above, *face_test, *interior_test, *make, *judge, rules) implies mc33_meshing(
            *tables,
            rules,
        )(*level, *request, r) by {
            let cubes = cube_rules(
                rules,
                frame_of(*level),
                request.isovalue,
                request.specs@,
            );
            assert(mc33::follows(
                above_here,
                face_here,
                interior_here,
                make_here,
                *judge,
                cubes,
            ));
        }
    }
    r
}

/// Clean levels make a clean surface.
proof fn lemma_surface_clean<'a, S, T: Copy + PartialEq, P, U, E>(
    plot: CompactPlot<S, T>,
    options: IsosurfaceOptions<S>,
    meshing: LevelMeshing<'a, S, T, P, U, E>,
    mesh: Mesh3D<P, U>,
)
    requires
        forall|l: DualGridLevel<'a, S, T>, q: Extraction<S, T>, m: Mesh3D<P, U>| #[trigger]
            meshing(l, q, Ok::<Mesh3D<P, U>, E>(m)) ==> clean(m@),
        surface_unless_refused(
            plot,
            options,
            meshing,
            Ok::<Mesh3D<P, U>, SurfaceError<E>>(mesh),
        ),
    ensures
        clean(mesh@),
{
    let r = Ok::<Mesh3D<P, U>, SurfaceError<E>>(mesh);
    let request = choose|request: Extraction<S, T>| #[trigger]
        surface_made(plot, options, request, meshing, r);
    let (levels, parts) = choose|levels: Seq<DualGridLevel<'a, S, T>>, parts: Seq<MeshModel<P, U>>|
        requested_levels(plot, options, levels) && #[trigger] requested_parts(
            meshing,
            levels,
            request,
            parts,
        ) && surface_of(levels, request, parts, options.flip_winding, meshing, r);
    assert forall|i: int| 0 <= i < parts.len() implies clean(#[trigger] parts[i]) by {
        assert(gives_for(meshing, levels[i], request, parts[i]));
    }
    law_merged_levels_are_clean(parts, parts.len(), options.flip_winding);
    assert(level_meshes(parts, parts.len(), options.flip_winding) == Ok::<
        MeshModel<P, U>,
        MeshError,
    >(mesh@));
}

/// Extract an isosurface from an already-loaded compact plot by marching cubes.
///
/// In the mesh every face has three different corners, all of them vertices, and no two faces
/// have the same corners.
pub fn isosurface_compact_mc33<
    'a,
    S: Copy + Sync + Send,
    T: Copy + PartialEq + Sync + Send,
    P: Copy + Send,
    U: Copy + Send,
    E: Send,
    B: Fn(S) -> bool,
    L: Fn(S, S) -> bool,
    N: Fn(S) -> Option<T>,
    A: Fn(T, T) -> bool + Sync + Send,
    F: Fn(T, [T; 8], i8) -> bool + Sync + Send,
    G: Fn(T, [T; 8], InteriorTest) -> bool + Sync + Send,
    M: Fn(&DualGridLevel<'a, S, T>, &Extraction<S, T>, VertexKey) -> Result<(P, U), E> + Sync
        + Send,
    J: Fn((P, U), (P, U), (P, U), UVec3) -> FaceVerdict + Sync + Send,
>(
    plot: &'a CompactPlot<S, T>,
    options: &IsosurfaceOptions<S>,
    finite: &B,
    less: &L,
    narrow: &N,
    tables: &Tables,
    above: &A,
    face_test: &F,
    interior_test: &G,
    make: &M,
    judge: &J,
) -> (r: Result<Mesh3D<P, U>, SurfaceError<LevelError<BuildError<E>>>>)
    requires
        plot.wf(),
        tables.wf(),
        total1(*finite),
        total2(*less),
        total1(*narrow),
        total2(*above),
        total3(*face_test),
        total3(*interior_test),
        makes_all(*make),
        total4(*judge),
    ensures
        r matches Ok(mesh) ==> clean(mesh@),
        forall|scalars: Scalars<S, T>, rules: LevelRules<S, T, (P, U), E>|
            #![trigger measures(*finite, *less, *narrow, scalars), obeys(*above, *face_test, *interior_test, *make, *judge, rules)]
            measures(*finite, *less, *narrow, scalars) && obeys(
                *above,
                *face_test,
                *interior_test,
                *make,
                *judge,
                rules,
            ) ==> surface_outcome(*plot, *options, scalars, mc33_meshing(*tables, rules), r),
{
    let mesh_level = |level: &DualGridLevel<'a, S, T>, request: &Extraction<S, T>| -> (m: Result<
        Mesh3D<P, U>,
        LevelError<BuildError<E>>,
    >)
        requires
            level.wf(),
        ensures
            level_result(
                level,
                request,
                tables,
                above,
                face_test,
                interior_test,
                make,
                judge,
                m,
            ),
        {
            mesh_level_mc33(
                level,
                request,
                tables,
                above,
                face_test,
                interior_test,
                make,
                judge,
            )
        };
    let r = isosurface_compact(plot, options, finite, less, narrow, &mesh_level);
    proof {
        let meshing = calls_of(mesh_level);
        if r is Ok {
            let mesh = r->Ok_0;
            lemma_surface_clean(*plot, *options, meshing, mesh);
        }
        assert forall|scalars: Scalars<S, T>, rules: LevelRules<S, T, (P, U), E>|
            #![trigger measures(*finite, *less, *narrow, scalars), obeys(*above, *face_test, *interior_test, *make, *judge, rules)]
            measures(*finite, *less, *narrow, scalars) && obeys(
                *above,
                *face_test,
                *interior_test,
                *make,
                *judge,
                rules,
            ) implies surface_outcome(
            *plot,
            *options,
            scalars,
            mc33_meshing(*tables, rules),
            r,
        ) by {
            lemma_outcome_implied(
                *plot,
                *options,
                scalars,
                meshing,
                mc33_meshing(*tables, rules),
                r,
            );
        }
    }
    r
}

/// A weaker description of the level meshes describes the outcome too.
proof fn lemma_outcome_implied<'a, S, T: Copy + PartialEq, P, U, E>(
    plot: CompactPlot<S, T>,
    options: IsosurfaceOptions<S>,
    scalars: Scalars<S, T>,
    from: LevelMeshing<'a, S, T, P, U, E>,
    to: LevelMeshing<'a, S, T, P, U, E>,
    r: Result<Mesh3D<P, U>, SurfaceError<E>>,
)
    requires
        forall|l: DualGridLevel<'a, S, T>, q: Extraction<S, T>, m: Result<Mesh3D<P, U>, E>| #[trigger]
            from(l, q, m) ==> to(l, q, m),
        surface_outcome(plot, options, scalars, from, r),
    ensures
        surface_outcome(plot, options, scalars, to, r),
{
    assert forall|request: Extraction<S, T>| #[trigger]
        surface_made(plot, options, request, from, r) implies surface_made(
        plot,
        options,
        request,
        to,
        r,
    ) by {
        lemma_surface_implied(plot, options, request, from, to, r);
    }
}

/// Load required data from a plotfile and extract an isosurface by marching cubes.
///
/// In the mesh every face has three different corners, all of them vertices, and no two faces
/// have the same corners.
pub fn isosurface_mc33<
    'v,
    S: Copy + Sync + Send,
    T: Copy + PartialEq + Sync + Send,
    P: Copy + Send,
    U: Copy + Send,
    E: Send,
    X,
    V: Fn(usize, usize) -> Result<&'v [u8], X>,
    C: Fn(RawScalar) -> T,
    B: Fn(S) -> bool,
    L: Fn(S, S) -> bool,
    N: Fn(S) -> Option<T>,
    A: Fn(T, T) -> bool + Sync + Send,
    F: Fn(T, [T; 8], i8) -> bool + Sync + Send,
    G: Fn(T, [T; 8], InteriorTest) -> bool + Sync + Send,
    M: Fn(&DualGridLevel<'_, S, T>, &Extraction<S, T>, VertexKey) -> Result<(P, U), E> + Sync
        + Send,
    J: Fn((P, U), (P, U), (P, U), UVec3) -> FaceVerdict + Sync + Send,
>(
    plot_file: &PlotFile<S>,
    options: &IsosurfaceOptions<S>,
    file_of: &V,
    convert: &C,
    finite: &B,
    less: &L,
    narrow: &N,
    tables: &Tables,
    above: &A,
    face_test: &F,
    interior_test: &G,
    make: &M,
    judge: &J,
) -> (r: Result<Mesh3D<P, U>, PlotSurfaceError<LevelError<BuildError<E>>, X>>)
    requires
        plot_file.wf(),
        lawful::<T>(),
        forall|l: usize, k: usize| #[trigger] call_requires(*file_of, (l, k)),
        forall|raw: RawScalar| #[trigger] call_requires(*convert, (raw,)),
        tables.wf(),
        total1(*finite),
        total2(*less),
        total1(*narrow),
        total2(*above),
        total3(*face_test),
        total3(*interior_test),
        makes_all(*make),
        total4(*judge),
    ensures
        r matches Ok(mesh) ==> clean(mesh@),
        forall|scalars: Scalars<S, T>, rules: LevelRules<S, T, (P, U), E>|
            #![trigger measures(*finite, *less, *narrow, scalars), obeys(*above, *face_test, *interior_test, *make, *judge, rules)]
            measures(*finite, *less, *narrow, scalars) && obeys(
                *above,
                *face_test,
                *interior_test,
                *make,
                *judge,
                rules,
            ) ==> plot_surface_outcome(
                *plot_file,
                *options,
                *file_of,
                *convert,
                scalars,
                mc33_meshing(*tables, rules),
                r,
            ),
{
    let mesh_level = |level: &DualGridLevel<'_, S, T>, request: &Extraction<S, T>| -> (m: Result<
        Mesh3D<P, U>,
        LevelError<BuildError<E>>,
    >)
        requires
            level.wf(),
        ensures
            level_result(
                level,
                request,
                tables,
                above,
                face_test,
                interior_test,
                make,
                judge,
                m,
            ),
        {
            mesh_level_mc33(
                level,
                request,
                tables,
                above,
                face_test,
                interior_test,
                make,
                judge,
            )
        };
    let r = isosurface(
        plot_file,
        options,
        file_of,
        convert,
        finite,
        less,
        narrow,
        &mesh_level,
    );
    proof {
        let meshing = calls_of(mesh_level);
        if r is Ok {
            let mesh = r->Ok_0;
            let plot = choose|plot: CompactPlot<S, T>| #[trigger]
                compact_loaded(
                    *plot_file,
                    wanted_components(*options),
                    *file_of,
                    *convert,
                    Ok::<CompactPlot<S, T>, CompactLoadError<X>>(plot),
                ) && surface_unless_refused(
                    plot,
                    *options,
                    meshing,
                    Ok::<Mesh3D<P, U>, SurfaceError<LevelError<BuildError<E>>>>(mesh),
                );
            lemma_surface_clean(plot, *options, meshing, mesh);
        }
        assert forall|scalars: Scalars<S, T>, rules: LevelRules<S, T, (P, U), E>|
            #![trigger measures(*finite, *less, *narrow, scalars), obeys(*above, *face_test, *interior_test, *make, *judge, rules)]
            measures(*finite, *less, *narrow, scalars) && obeys(
                *above,
                *face_test,
                *interior_test,
                *make,
                *judge,
                rules,
            ) implies plot_surface_outcome(
            *plot_file,
            *options,
            *file_of,
            *convert,
            scalars,
            mc33_meshing(*tables, rules),
            r,
        ) by {
            let to = mc33_meshing(*tables, rules);
            assert forall|
                plot: CompactPlot<S, T>,
                m: Result<Mesh3D<P, U>, SurfaceError<LevelError<BuildError<E>>>>,
            | #[trigger] surface_outcome(plot, *options, scalars, meshing, m) implies surface_outcome(
                plot,
                *options,
                scalars,
                to,
                m,
            ) by {
                lemma_outcome_implied(plot, *options, scalars, meshing, to, m);
            }
        }
    }
    r
}

/// The eligible cubes of every level are tidy, as they are in plots that were loaded.
pub open spec fn plot_tidy<S, T: Copy + PartialEq>(plot: CompactPlot<S, T>) -> bool {
    forall|l: int| 0 <= l < plot.levels@.len() ==> (#[trigger] plot.levels@[l]).eligible_cubes.tidy()
}

/// Plots that were loaded are tidy.
pub proof fn law_loaded_plot_is_tidy<
    'v,
    S: Copy,
    T: Copy + PartialEq,
    X,
    V: Fn(usize, usize) -> Result<&'v [u8], X>,
    C: Fn(RawScalar) -> T,
>(
    plot_file: PlotFile<S>,
    component_ids: Seq<usize>,
    file_of: V,
    convert: C,
    plot: CompactPlot<S, T>,
)
    requires
        compact_loaded(
            plot_file,
            component_ids,
            file_of,
            convert,
            Ok::<CompactPlot<S, T>, CompactLoadError<X>>(plot),
        ),
    ensures
        plot_tidy(plot),
{
}

/// By marching cubes the levels of a tidy plot always give the same mesh.
pub proof fn law_mc33_is_steady<'a, S, T: Copy + PartialEq, P, U, E>(
    plot: CompactPlot<S, T>,
    options: IsosurfaceOptions<S>,
    tables: Tables,
    rules: LevelRules<S, T, (P, U), E>,
)
    requires
        plot_tidy(plot),
    ensures
        steady(plot, options, mc33_meshing::<'a, S, T, P, U, E>(tables, rules)),
{
    let meshing = mc33_meshing::<'a, S, T, P, U, E>(tables, rules);
    let places = all_chosen(plot, options.levels);
    law_chosen_levels(plot.levels@, options.levels, plot.levels@.len());
    assert forall|
        j: int,
        a: Seq<DualGridLevel<'a, S, T>>,
        b: Seq<DualGridLevel<'a, S, T>>,
        p: Extraction<S, T>,
        q: Extraction<S, T>,
        m: Result<Mesh3D<P, U>, LevelError<BuildError<E>>>,
        n: Result<Mesh3D<P, U>, LevelError<BuildError<E>>>,
    |
        #![trigger meshing(a[j], p, m), meshing(b[j], q, n)]
        {
            &&& requested_levels(plot, options, a)
            &&& requested_levels(plot, options, b)
            &&& 0 <= j < a.len()
            &&& p.isovalue == q.isovalue
            &&& p.specs@ == q.specs@
            &&& meshing(a[j], p, m)
            &&& meshing(b[j], q, n)
        } implies match (m, n) {
        (Ok(x), Ok(y)) => x@ == y@,
        (Err(_), Err(_)) => true,
        _ => false,
    } by {
        let level = plot.levels@[places[j]];
        assert(level.eligible_cubes.tidy());
        assert(frame_of(a[j]).sampled_quantities =~= frame_of(b[j]).sampled_quantities);
        assert(frame_of(a[j]) == frame_of(b[j]));
        let cubes = cube_rules(rules, frame_of(a[j]), p.isovalue, p.specs@);
        assert forall|c: UVec3| #[trigger] a[j].active_cubes.at(c) == b[j].active_cubes.at(c) by {}
        lemma_same_surface(
            mc33::cube_rule(*a[j].samples, tables, cubes),
            a[j].active_cubes,
            b[j].active_cubes,
            cubes.craft.make,
            m,
            n,
        );
    }
}

/// A level: what its vertices depend on, and its active cubes.
pub struct LevelModel<S, T: Copy + PartialEq> {
    pub frame: LevelFrame<S, T>,
    pub limits: UVec3,
    pub active: Set<UVec3>,
}

/// The model of a level.
pub open spec fn model_of<S, T: Copy + PartialEq>(level: DualGridLevel<'_, S, T>) -> LevelModel<
    S,
    T,
> {
    LevelModel {
        frame: frame_of(level),
        limits: level.active_cubes.limits(),
        active: level.active_cubes.voxels(),
    }
}

/// What a level gives depends on its model, the isovalue and the checked samples: the mesh that
/// `g` says, or a failure where `g` says nothing.
pub open spec fn answers_by<'a, S, T: Copy + PartialEq, P, U, E>(
    meshing: LevelMeshing<'a, S, T, P, U, E>,
    g: spec_fn(LevelModel<S, T>, T, Seq<SampleSpec<S>>) -> Option<MeshModel<P, U>>,
) -> bool {
    forall|level: DualGridLevel<'a, S, T>, request: Extraction<S, T>, m: Result<Mesh3D<P, U>, E>|
        #[trigger] meshing(level, request, m) ==> g(
            model_of(level),
            request.isovalue,
            request.specs@,
        ) == match m {
            Ok(mesh) => Some(mesh@),
            Err(_) => None,
        }
}

/// Levels that are meshed by a function of what they hold always give the same mesh.
pub proof fn law_functions_are_steady<'a, S, T: Copy + PartialEq, P, U, E>(
    plot: CompactPlot<S, T>,
    options: IsosurfaceOptions<S>,
    meshing: LevelMeshing<'a, S, T, P, U, E>,
    g: spec_fn(LevelModel<S, T>, T, Seq<SampleSpec<S>>) -> Option<MeshModel<P, U>>,
)
    requires
        answers_by(meshing, g),
    ensures
        steady(plot, options, meshing),
{
    assert forall|
        j: int,
        a: Seq<DualGridLevel<'a, S, T>>,
        b: Seq<DualGridLevel<'a, S, T>>,
        p: Extraction<S, T>,
        q: Extraction<S, T>,
        m: Result<Mesh3D<P, U>, E>,
        n: Result<Mesh3D<P, U>, E>,
    |
        #![trigger meshing(a[j], p, m), meshing(b[j], q, n)]
        {
            &&& requested_levels(plot, options, a)
            &&& requested_levels(plot, options, b)
            &&& 0 <= j < a.len()
            &&& p.isovalue == q.isovalue
            &&& p.specs@ == q.specs@
            &&& meshing(a[j], p, m)
            &&& meshing(b[j], q, n)
        } implies match (m, n) {
        (Ok(x), Ok(y)) => x@ == y@,
        (Err(_), Err(_)) => true,
        _ => false,
    } by {
        assert(frame_of(a[j]).sampled_quantities =~= frame_of(b[j]).sampled_quantities);
        assert forall|c: UVec3| #[trigger] a[j].active_cubes.at(c) == b[j].active_cubes.at(c) by {}
        assert(a[j].active_cubes.voxels() =~= b[j].active_cubes.voxels());
        assert(model_of(a[j]) == model_of(b[j]));
    }
}

/// By marching cubes a request with `flip_winding` on a tidy plot gives the mesh that the same
/// request gives without it, with every face turned over.
pub proof fn law_mc33_flip_winding<'a, S, T: Copy + PartialEq, P, U, E>(
    plot: CompactPlot<S, T>,
    options: IsosurfaceOptions<S>,
    flip: IsosurfaceOptions<S>,
    scalars: Scalars<S, T>,
    tables: Tables,
    rules: LevelRules<S, T, (P, U), E>,
    plain: Mesh3D<P, U>,
    r: Result<Mesh3D<P, U>, SurfaceError<LevelError<BuildError<E>>>>,
)
    requires
        plot_tidy(plot),
        same_but_flip(options, flip),
        surface_outcome(
            plot,
            options,
            scalars,
            mc33_meshing::<'a, S, T, P, U, E>(tables, rules),
            Ok::<Mesh3D<P, U>, SurfaceError<LevelError<BuildError<E>>>>(plain),
        ),
        surface_outcome(
            plot,
            flip,
            scalars,
            mc33_meshing::<'a, S, T, P, U, E>(tables, rules),
            r,
        ),
    ensures
        r matches Ok(turned) && turned_over(plain@, turned@),
{
    law_mc33_is_steady::<S, T, P, U, E>(plot, options, tables, rules);
    law_flip_winding(
        plot,
        options,
        flip,
        scalars,
        mc33_meshing::<S, T, P, U, E>(tables, rules),
        plain,
        r,
    );
}

} // verus!
