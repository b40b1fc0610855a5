//! Surfaces of whole levels: the chunks of a level are meshed in parallel, and merged.

use vstd::prelude::*;

use crate::isosurface::mc33;
use crate::isosurface::mc33::tables::Tables;
use crate::isosurface::mc33::InteriorTest;
use crate::isosurface::mesh::{
    face_within, law_merge_keeps_geometry, merge_of, merge_refusal, merged_list, models, repeats,
    shift_fits, shifted, sound, Mesh3D, MeshError, MeshModel,
};
use crate::isosurface::mesher::{
    corners_below, payload, same_corners, sorted_corners, well_built, BuildError, FaceVerdict,
    Maker, MeshState, Mesher, VertexKey,
};
use crate::isosurface::parallel::{
    chunk_meshes, chunk_walk, lemma_same_chunks, mesh_level_parallel, LevelError,
};
use crate::isosurface::rmt;
use crate::isosurface::rmt::EdgeSpot;
use crate::isosurface::walk::{lemma_same_visits, visits, with_cubes};
use crate::isosurface::{level_meshes, with_level};
use crate::outcome::{computes1, total1, total2, total4};
use crate::utility::sparse_grid3::aabb::Aabb3u;
use crate::utility::sparse_grid3::grid::SparseGrid3;
use crate::utility::sparse_grid3::value::Present;
use crate::vec3::UVec3;

verus! {

/// `mesh` has the vertices that `make` gives the keys of a state, and its faces.
pub open spec fn is_mesh_of<P, U, E>(
    mesh: MeshModel<P, U>,
    s: MeshState,
    make: Maker<(P, U), E>,
) -> bool {
    &&& mesh.positions =~= Seq::new(s.keys.len(), |i: int| payload(make, s.keys[i]).0)
    &&& mesh.uv =~= Seq::new(s.keys.len(), |i: int| payload(make, s.keys[i]).1)
    &&& mesh.indices == s.faces
}

/// Positions, texture coordinates and faces of a finished mesh.
pub fn into_mesh<P: Copy, U: Copy>(mesher: Mesher<(P, U)>) -> (mesh: Mesh3D<P, U>)
    ensures
        mesh.positions@ =~= mesher.pool.list().map_values(|v: (P, U)| v.0),
        mesh.uv@ =~= mesher.pool.list().map_values(|v: (P, U)| v.1),
        mesh.indices@ == mesher.faces.list(),
{
    let vertices = mesher.pool.into_vertices();
    let mut positions: Vec<P> = Vec::with_capacity(vertices.len());
    let mut uv: Vec<U> = Vec::with_capacity(vertices.len());
    let mut i: usize = 0;
    while i < vertices.len()
        invariant
            i <= vertices@.len(),
            positions@.len() == i,
            uv@.len() == i,
            forall|j: int| 0 <= j < i ==> #[trigger] positions@[j] == vertices@[j].0,
            forall|j: int| 0 <= j < i ==> #[trigger] uv@[j] == vertices@[j].1,
        decreases vertices@.len() - i,
    {
        positions.push(vertices[i].0);
        uv.push(vertices[i].1);
        i += 1;
    }
    Mesh3D { positions, uv, indices: mesher.faces.into_faces() }
}

/// The vertices of a well-formed mesh are what `make` gives its keys.
proof fn lemma_mesh_of<P: Copy, U: Copy, E, M: Fn(VertexKey) -> Result<(P, U), E>>(
    mesher: Mesher<(P, U)>,
    make: M,
    g: Maker<(P, U), E>,
)
    requires
        mesher.wf(make),
        computes1(make, g),
    ensures
        mesher.pool.list() =~= Seq::new(
            mesher.state().keys.len(),
            |i: int| payload(g, mesher.state().keys[i]),
        ),
{
    mesher.pool.lemma_wf();
    assert forall|i: int| 0 <= i < mesher.state().keys.len() implies #[trigger] mesher.pool.list()[i]
        == payload(g, mesher.state().keys[i]) by {
        assert(call_ensures(
            make,
            (mesher.pool.keys()[i],),
            Ok::<(P, U), E>(mesher.pool.list()[i]),
        ));
    }
}

/// `r` is what the cubes of `active` inside `aabb` give, one after the other.
pub open spec fn chunk_surface<P, U, E>(
    cube: spec_fn(MeshState, UVec3) -> Result<MeshState, BuildError<E>>,
    active: SparseGrid3<Present>,
    aabb: Aabb3u,
    make: Maker<(P, U), E>,
    r: Result<Mesh3D<P, U>, BuildError<E>>,
) -> bool {
    exists|anchors: Seq<UVec3>| #[trigger]
        visits(active, aabb, anchors) && match r {
            Ok(mesh) => with_cubes(cube, anchors, anchors.len()) is Ok && is_mesh_of(
                mesh@,
                with_cubes(cube, anchors, anchors.len())->Ok_0,
                make,
            ),
            Err(e) => with_cubes(cube, anchors, anchors.len()) == Err::<
                MeshState,
                BuildError<E>,
            >(e),
        }
}

/// `parts` are surfaces of the boxes.
pub open spec fn chunk_surfaces<P, U, E>(
    cube: spec_fn(MeshState, UVec3) -> Result<MeshState, BuildError<E>>,
    active: SparseGrid3<Present>,
    boxes: Seq<Aabb3u>,
    make: Maker<(P, U), E>,
    parts: Seq<Mesh3D<P, U>>,
) -> bool {
    &&& parts.len() == boxes.len()
    &&& forall|i: int|
        0 <= i < boxes.len() ==> chunk_surface(
            cube,
            active,
            #[trigger] boxes[i],
            make,
            Ok::<Mesh3D<P, U>, BuildError<E>>(parts[i]),
        )
}

/// `r` is what the stored chunks of `active` give: their surfaces merged by ascending lowest
/// corner, or the error of one of them.
pub open spec fn level_surface<P, U, E>(
    cube: spec_fn(MeshState, UVec3) -> Result<MeshState, BuildError<E>>,
    active: SparseGrid3<Present>,
    make: Maker<(P, U), E>,
    r: Result<Mesh3D<P, U>, LevelError<BuildError<E>>>,
) -> bool {
    exists|boxes: Seq<Aabb3u>| #[trigger]
        chunk_walk(active, boxes) && match r {
            Err(LevelError::Chunk(e)) => exists|a: int|
                0 <= a < boxes.len() && chunk_surface(
                    cube,
                    active,
                    #[trigger] boxes[a],
                    make,
                    Err::<Mesh3D<P, U>, BuildError<E>>(e),
                ),
            Err(LevelError::Mesh(e)) => exists|parts: Seq<Mesh3D<P, U>>| #[trigger]
                chunk_surfaces(cube, active, boxes, make, parts) && merged_list(
                    models(parts),
                    parts.len(),
                ) == Err::<MeshModel<P, U>, MeshError>(e),
            Ok(mesh) => exists|parts: Seq<Mesh3D<P, U>>| #[trigger]
                chunk_surfaces(cube, active, boxes, make, parts) && merged_list(
                    models(parts),
                    parts.len(),
                ) == Ok::<MeshModel<P, U>, MeshError>(mesh@),
        }
}

/// Grids that hold the same points give the same chunk surface.
proof fn lemma_same_chunk<P, U, E>(
    cube: spec_fn(MeshState, UVec3) -> Result<MeshState, BuildError<E>>,
    a: SparseGrid3<Present>,
    b: SparseGrid3<Present>,
    aabb: Aabb3u,
    make: Maker<(P, U), E>,
    m: Result<Mesh3D<P, U>, BuildError<E>>,
    n: Result<Mesh3D<P, U>, BuildError<E>>,
)
    requires
        forall|p: UVec3| #[trigger] a.at(p) == b.at(p),
        chunk_surface(cube, a, aabb, make, m),
        chunk_surface(cube, b, aabb, make, n),
    ensures
        match (m, n) {
            (Ok(x), Ok(y)) => x@ == y@,
            (Err(e), Err(f)) => e == f,
            _ => false,
        },
{
    let anchors = choose|anchors: Seq<UVec3>| #[trigger]
        visits(a, aabb, anchors) && match m {
            Ok(mesh) => with_cubes(cube, anchors, anchors.len()) is Ok && is_mesh_of(
                mesh@,
                with_cubes(cube, anchors, anchors.len())->Ok_0,
                make,
            ),
            Err(e) => with_cubes(cube, anchors, anchors.len()) == Err::<
                MeshState,
                BuildError<E>,
            >(e),
        };
    let others = choose|anchors: Seq<UVec3>| #[trigger]
        visits(b, aabb, anchors) && match n {
            Ok(mesh) => with_cubes(cube, anchors, anchors.len()) is Ok && is_mesh_of(
                mesh@,
                with_cubes(cube, anchors, anchors.len())->Ok_0,
                make,
            ),
            Err(e) => with_cubes(cube, anchors, anchors.len()) == Err::<
                MeshState,
                BuildError<E>,
            >(e),
        };
    lemma_same_visits(a, b, aabb, anchors, others);
    if m is Ok && n is Ok {
        assert(m->Ok_0@.positions =~= n->Ok_0@.positions);
        assert(m->Ok_0@.uv =~= n->Ok_0@.uv);
    }
}

/// Tidy grids that hold the same points give the same surface, or both fail.
pub proof fn lemma_same_surface<P, U, E>(
    cube: spec_fn(MeshState, UVec3) -> Result<MeshState, BuildError<E>>,
    a: SparseGrid3<Present>,
    b: SparseGrid3<Present>,
    make: Maker<(P, U), E>,
    m: Result<Mesh3D<P, U>, LevelError<BuildError<E>>>,
    n: Result<Mesh3D<P, U>, LevelError<BuildError<E>>>,
)
    requires
        a.wf(),
        b.wf(),
        a.tidy(),
        b.tidy(),
        a.limits() == b.limits(),
        forall|p: UVec3| #[trigger] a.at(p) == b.at(p),
        level_surface(cube, a, make, m),
        level_surface(cube, b, make, n),
    ensures
        match (m, n) {
            (Ok(x), Ok(y)) => x@ == y@,
            (Err(_), Err(_)) => true,
            _ => false,
        },
{
    if let Ok(x) = m {
        lemma_surface_again(cube, a, b, make, x, n);
    } else if let Ok(y) = n {
        lemma_surface_again(cube, b, a, make, y, m);
    }
}

/// Where one tidy grid gives a surface, another that holds the same points gives it too.
proof fn lemma_surface_again<P, U, E>(
    cube: spec_fn(MeshState, UVec3) -> Result<MeshState, BuildError<E>>,
    a: SparseGrid3<Present>,
    b: SparseGrid3<Present>,
    make: Maker<(P, U), E>,
    x: Mesh3D<P, U>,
    n: Result<Mesh3D<P, U>, LevelError<BuildError<E>>>,
)
    requires
        a.wf(),
        b.wf(),
        a.tidy(),
        b.tidy(),
        a.limits() == b.limits(),
        forall|p: UVec3| #[trigger] a.at(p) == b.at(p),
        level_surface(cube, a, make, Ok::<Mesh3D<P, U>, LevelError<BuildError<E>>>(x)),
        level_surface(cube, b, make, n),
    ensures
        n matches Ok(y) && x@ == y@,
{
    let boxes = choose|boxes: Seq<Aabb3u>| #[trigger]
        chunk_walk(a, boxes) && exists|parts: Seq<Mesh3D<P, U>>| #[trigger]
            chunk_surfaces(cube, a, boxes, make, parts) && merged_list(models(parts), parts.len())
                == Ok::<MeshModel<P, U>, MeshError>(x@);
    let parts = choose|parts: Seq<Mesh3D<P, U>>| #[trigger]
        chunk_surfaces(cube, a, boxes, make, parts) && merged_list(models(parts), parts.len())
            == Ok::<MeshModel<P, U>, MeshError>(x@);
    let others = choose|boxes: Seq<Aabb3u>| #[trigger]
        chunk_walk(b, boxes) && match n {
            Err(LevelError::Chunk(e)) => exists|i: int|
                0 <= i < boxes.len() && chunk_surface(
                    cube,
                    b,
                    #[trigger] boxes[i],
                    make,
                    Err::<Mesh3D<P, U>, BuildError<E>>(e),
                ),
            Err(LevelError::Mesh(e)) => exists|list: Seq<Mesh3D<P, U>>| #[trigger]
                chunk_surfaces(cube, b, boxes, make, list) && merged_list(
                    models(list),
                    list.len(),
                ) == Err::<MeshModel<P, U>, MeshError>(e),
            Ok(mesh) => exists|list: Seq<Mesh3D<P, U>>| #[trigger]
                chunk_surfaces(cube, b, boxes, make, list) && merged_list(
                    models(list),
                    list.len(),
                ) == Ok::<MeshModel<P, U>, MeshError>(mesh@),
        };
    lemma_same_chunks(a, b, boxes, others);
    if let Err(LevelError::Chunk(e)) = n {
        let i = choose|i: int|
            0 <= i < boxes.len() && chunk_surface(
                cube,
                b,
                #[trigger] boxes[i],
                make,
                Err::<Mesh3D<P, U>, BuildError<E>>(e),
            );
        assert(chunk_surface(
            cube,
            a,
            boxes[i],
            make,
            Ok::<Mesh3D<P, U>, BuildError<E>>(parts[i]),
        ));
        lemma_same_chunk(
            cube,
            a,
            b,
            boxes[i],
            make,
            Ok::<Mesh3D<P, U>, BuildError<E>>(parts[i]),
            Err::<Mesh3D<P, U>, BuildError<E>>(e),
        );
    } else {
        let list = choose|list: Seq<Mesh3D<P, U>>| #[trigger]
            chunk_surfaces(cube, b, boxes, make, list) && match n {
                Ok(mesh) => merged_list(models(list), list.len()) == Ok::<
                    MeshModel<P, U>,
                    MeshError,
                >(mesh@),
                Err(LevelError::Mesh(e)) => merged_list(models(list), list.len()) == Err::<
                    MeshModel<P, U>,
                    MeshError,
                >(e),
                Err(LevelError::Chunk(_)) => false,
            };
        assert forall|i: int| 0 <= i < boxes.len() implies #[trigger] models(parts)[i]
            == models(list)[i] by {
            assert(chunk_surface(
                cube,
                a,
                boxes[i],
                make,
                Ok::<Mesh3D<P, U>, BuildError<E>>(parts[i]),
            ));
            lemma_same_chunk(
                cube,
                a,
                b,
                boxes[i],
                make,
                Ok::<Mesh3D<P, U>, BuildError<E>>(parts[i]),
                Ok::<Mesh3D<P, U>, BuildError<E>>(list[i]),
            );
        }
        assert(models(parts) =~= models(list));
    }
}

/// `r` is what the cubes inside `aabb` give by marching cubes.
pub open spec fn mc33_chunk_surface<
    T: Copy + PartialEq,
    P,
    U,
    E,
    A: Fn(T) -> bool,
    F: Fn([T; 8], i8) -> bool,
    G: Fn([T; 8], InteriorTest) -> bool,
    M: Fn(VertexKey) -> Result<(P, U), E>,
    J: Fn((P, U), (P, U), (P, U), UVec3) -> FaceVerdict,
>(
    samples: &SparseGrid3<T>,
    active: &SparseGrid3<Present>,
    aabb: Aabb3u,
    tables: &Tables,
    above: &A,
    face_test: &F,
    interior_test: &G,
    make: &M,
    judge: &J,
    r: Result<Mesh3D<P, U>, BuildError<E>>,
) -> bool {
    forall|rules: mc33::Rules<T, (P, U), E>| #[trigger]
        mc33::follows(*above, *face_test, *interior_test, *make, *judge, rules) ==> chunk_surface(
            mc33::cube_rule(*samples, *tables, rules),
            *active,
            aabb,
            rules.craft.make,
            r,
        )
}

/// Meshes the active cubes inside `aabb` by marching cubes.
fn mc33_chunk<
    T: Copy + PartialEq,
    P: Copy,
    U: Copy,
    E,
    A: Fn(T) -> bool,
    F: Fn([T; 8], i8) -> bool,
    G: Fn([T; 8], InteriorTest) -> bool,
    M: Fn(VertexKey) -> Result<(P, U), E>,
    J: Fn((P, U), (P, U), (P, U), UVec3) -> FaceVerdict,
>(
    samples: &SparseGrid3<T>,
    active: &SparseGrid3<Present>,
    aabb: Aabb3u,
    tables: &Tables,
    above: &A,
    face_test: &F,
    interior_test: &G,
    make: &M,
    judge: &J,
) -> (r: Result<Mesh3D<P, U>, BuildError<E>>)
    requires
        samples.wf(),
        active.wf(),
        tables.wf(),
        total1(*above),
        total2(*face_test),
        total2(*interior_test),
        total1(*make),
        total4(*judge),
    ensures
        mc33_chunk_surface(
            samples,
            active,
            aabb,
            tables,
            above,
            face_test,
            interior_test,
            make,
            judge,
            r,
        ),
        r matches Ok(mesh) ==> clean(mesh@),
{
    match mc33::mesh_level_aabb(
        samples,
        active,
        aabb,
        tables,
        above,
        face_test,
        interior_test,
        make,
        judge,
    ) {
        Ok(mesher) => {
            proof {
                assert forall|g: Maker<(P, U), E>| #[trigger] computes1(
                    *make,
                    g,
                ) implies mesher.pool.list() =~= Seq::new(
                    mesher.state().keys.len(),
                    |i: int| payload(g, mesher.state().keys[i]),
                ) by {
                    lemma_mesh_of(mesher, *make, g);
                }
            }
            let ghost s = mesher.state();
            proof {
                mesher.pool.lemma_wf();
            }
            let mesh = into_mesh(mesher);
            proof {
                lemma_built_clean(mesh@, s);
            }
            Ok(mesh)
        },
        Err(e) => Err(e),
    }
}

/// The surface of a level by marching cubes.
///
/// `above` tells which samples lie above the isovalue; `make` makes the vertex of a key, and
/// `judge` tells what to do with a face.
pub fn mc33_level<
    T: Copy + PartialEq + Sync + Send,
    P: Copy + Send,
    U: Copy + Send,
    E: Send,
    A: Fn(T) -> bool + Sync + Send,
    F: Fn([T; 8], i8) -> bool + Sync + Send,
    G: Fn([T; 8], InteriorTest) -> bool + Sync + Send,
    M: Fn(VertexKey) -> Result<(P, U), E> + Sync + Send,
    J: Fn((P, U), (P, U), (P, U), UVec3) -> FaceVerdict + Sync + Send,
>(
    samples: &SparseGrid3<T>,
    active: &SparseGrid3<Present>,
    tables: &Tables,
    above: &A,
    face_test: &F,
    interior_test: &G,
    make: &M,
    judge: &J,
) -> (r: Result<Mesh3D<P, U>, LevelError<BuildError<E>>>)
    requires
        samples.wf(),
        active.wf(),
        tables.wf(),
        total1(*above),
        total2(*face_test),
        total2(*interior_test),
        total1(*make),
        total4(*judge),
    ensures
        forall|rules: mc33::Rules<T, (P, U), E>| #[trigger]
            mc33::follows(
                *above,
                *face_test,
                *interior_test,
                *make,
                *judge,
                rules,
            ) ==> level_surface(
                mc33::cube_rule(*samples, *tables, rules),
                *active,
                rules.craft.make,
                r,
            ),
        r matches Ok(mesh) ==> clean(mesh@),
{
    let mesh_chunk = |aabb: Aabb3u| -> (m: Result<Mesh3D<P, U>, BuildError<E>>)
        ensures
            mc33_chunk_surface(
                samples,
                active,
                aabb,
                tables,
                above,
                face_test,
                interior_test,
                make,
                judge,
                m,
            ),
            m matches Ok(mesh) ==> clean(mesh@),
        {
            mc33_chunk(
                samples,
                active,
                aabb,
                tables,
                above,
                face_test,
                interior_test,
                make,
                judge,
            )
        };
    let r = mesh_level_parallel(active, &mesh_chunk);
    proof {
        lemma_chunks_clean(*active, &mesh_chunk, r);
        assert forall|rules: mc33::Rules<T, (P, U), E>| #[trigger]
            mc33::follows(
                *above,
                *face_test,
                *interior_test,
                *make,
                *judge,
                rules,
            ) implies level_surface(
            mc33::cube_rule(*samples, *tables, rules),
            *active,
            rules.craft.make,
            r,
        ) by {
            lemma_level(
                mc33::cube_rule(*samples, *tables, rules),
                *active,
                rules.craft.make,
                &mesh_chunk,
                r,
            );
        }
    }
    r
}

/// Chunk meshes that are chunk surfaces make a level surface.
proof fn lemma_level<P, U, E, C: Fn(Aabb3u) -> Result<Mesh3D<P, U>, BuildError<E>>>(
    cube: spec_fn(MeshState, UVec3) -> Result<MeshState, BuildError<E>>,
    active: SparseGrid3<Present>,
    make: Maker<(P, U), E>,
    mesh_chunk: C,
    r: Result<Mesh3D<P, U>, LevelError<BuildError<E>>>,
)
    requires
        forall|b: Aabb3u, m: Result<Mesh3D<P, U>, BuildError<E>>| #[trigger]
            call_ensures(mesh_chunk, (b,), m) ==> chunk_surface(cube, active, b, make, m),
        exists|boxes: Seq<Aabb3u>| #[trigger]
            chunk_walk(active, boxes) && match r {
                Err(LevelError::Chunk(e)) => exists|a: int|
                    0 <= a < boxes.len() && call_ensures(
                        mesh_chunk,
                        (#[trigger] boxes[a],),
                        Err::<Mesh3D<P, U>, BuildError<E>>(e),
                    ),
                Err(LevelError::Mesh(e)) => exists|parts: Seq<Mesh3D<P, U>>| #[trigger]
                    chunk_meshes(mesh_chunk, boxes, parts) && merged_list(
                        models(parts),
                        parts.len(),
                    ) == Err::<MeshModel<P, U>, MeshError>(e),
                Ok(mesh) => exists|parts: Seq<Mesh3D<P, U>>| #[trigger]
                    chunk_meshes(mesh_chunk, boxes, parts) && merged_list(
                        models(parts),
                        parts.len(),
                    ) == Ok::<MeshModel<P, U>, MeshError>(mesh@),
            },
    ensures
        level_surface(cube, active, make, r),
{
    assert forall|boxes: Seq<Aabb3u>, parts: Seq<Mesh3D<P, U>>| #[trigger]
        chunk_meshes(mesh_chunk, boxes, parts) implies chunk_surfaces(
        cube,
        active,
        boxes,
        make,
        parts,
    ) by {
        assert forall|i: int| 0 <= i < boxes.len() implies chunk_surface(
            cube,
            active,
            #[trigger] boxes[i],
            make,
            Ok::<Mesh3D<P, U>, BuildError<E>>(parts[i]),
        ) by {
            assert(call_ensures(
                mesh_chunk,
                (boxes[i],),
                Ok::<Mesh3D<P, U>, BuildError<E>>(parts[i]),
            ));
        }
    }
}

/// `r` is what the cubes inside `aabb` give by marching tetrahedra.
pub open spec fn rmt_chunk_surface<
    T: Copy + PartialEq,
    P,
    U,
    E,
    A: Fn(T) -> bool,
    K: Fn(T, T) -> EdgeSpot,
    M: Fn(VertexKey) -> Result<(P, U), E>,
    J: Fn((P, U), (P, U), (P, U), UVec3) -> FaceVerdict,
>(
    samples: &SparseGrid3<T>,
    active: &SparseGrid3<Present>,
    aabb: Aabb3u,
    above: &A,
    spot: &K,
    make: &M,
    judge: &J,
    r: Result<Mesh3D<P, U>, BuildError<E>>,
) -> bool {
    forall|rules: rmt::Rules<T, (P, U), E>| #[trigger]
        rmt::follows(*above, *spot, *make, *judge, rules) ==> chunk_surface(
            rmt::cube_rule(*samples, rules),
            *active,
            aabb,
            rules.craft.make,
            r,
        )
}

/// Meshes the active cubes inside `aabb` by marching tetrahedra.
fn rmt_chunk<
    T: Copy + PartialEq,
    P: Copy,
    U: Copy,
    E,
    A: Fn(T) -> bool,
    K: Fn(T, T) -> EdgeSpot,
    M: Fn(VertexKey) -> Result<(P, U), E>,
    J: Fn((P, U), (P, U), (P, U), UVec3) -> FaceVerdict,
>(
    samples: &SparseGrid3<T>,
    active: &SparseGrid3<Present>,
    aabb: Aabb3u,
    above: &A,
    spot: &K,
    make: &M,
    judge: &J,
) -> (r: Result<Mesh3D<P, U>, BuildError<E>>)
    requires
        samples.wf(),
        active.wf(),
        total1(*above),
        total2(*spot),
        total1(*make),
        total4(*judge),
    ensures
        rmt_chunk_surface(samples, active, aabb, above, spot, make, judge, r),
        r matches Ok(mesh) ==> clean(mesh@),
{
    match rmt::mesh_level_aabb(samples, active, aabb, above, spot, make, judge) {
        Ok(mesher) => {
            proof {
                assert forall|g: Maker<(P, U), E>| #[trigger] computes1(
                    *make,
                    g,
                ) implies mesher.pool.list() =~= Seq::new(
                    mesher.state().keys.len(),
                    |i: int| payload(g, mesher.state().keys[i]),
                ) by {
                    lemma_mesh_of(mesher, *make, g);
                }
            }
            let ghost s = mesher.state();
            proof {
                mesher.pool.lemma_wf();
            }
            let mesh = into_mesh(mesher);
            proof {
                lemma_built_clean(mesh@, s);
            }
            Ok(mesh)
        },
        Err(e) => Err(e),
    }
}

/// The surface of a level by regularized marching tetrahedra.
///
/// `spot` tells where on an edge a vertex goes.
pub fn rmt_level<
    T: Copy + PartialEq + Sync + Send,
    P: Copy + Send,
    U: Copy + Send,
    E: Send,
    A: Fn(T) -> bool + Sync + Send,
    K: Fn(T, T) -> EdgeSpot + Sync + Send,
    M: Fn(VertexKey) -> Result<(P, U), E> + Sync + Send,
    J: Fn((P, U), (P, U), (P, U), UVec3) -> FaceVerdict + Sync + Send,
>(
    samples: &SparseGrid3<T>,
    active: &SparseGrid3<Present>,
    above: &A,
    spot: &K,
    make: &M,
    judge: &J,
) -> (r: Result<Mesh3D<P, U>, LevelError<BuildError<E>>>)
    requires
        samples.wf(),
        active.wf(),
        total1(*above),
        total2(*spot),
        total1(*make),
        total4(*judge),
    ensures
        forall|rules: rmt::Rules<T, (P, U), E>| #[trigger]
            rmt::follows(*above, *spot, *make, *judge, rules) ==> level_surface(
                rmt::cube_rule(*samples, rules),
                *active,
                rules.craft.make,
                r,
            ),
        r matches Ok(mesh) ==> clean(mesh@),
{
    let mesh_chunk = |aabb: Aabb3u| -> (m: Result<Mesh3D<P, U>, BuildError<E>>)
        ensures
            rmt_chunk_surface(samples, active, aabb, above, spot, make, judge, m),
            m matches Ok(mesh) ==> clean(mesh@),
        { rmt_chunk(samples, active, aabb, above, spot, make, judge) };
    let r = mesh_level_parallel(active, &mesh_chunk);
    proof {
        lemma_chunks_clean(*active, &mesh_chunk, r);
        assert forall|rules: rmt::Rules<T, (P, U), E>| #[trigger]
            rmt::follows(*above, *spot, *make, *judge, rules) implies level_surface(
            rmt::cube_rule(*samples, rules),
            *active,
            rules.craft.make,
            r,
        ) by {
            lemma_level(
                rmt::cube_rule(*samples, rules),
                *active,
                rules.craft.make,
                &mesh_chunk,
                r,
            );
        }
    }
    r
}

/// Every face has three different corners that are vertices, every vertex has a texture
/// coordinate, and no two faces have the same corners.
pub open spec fn clean<P, U>(m: MeshModel<P, U>) -> bool {
    &&& sound(m)
    &&& forall|i: int| 0 <= i < m.indices.len() ==> !repeats(#[trigger] m.indices[i])
    &&& forall|i: int, j: int|
        0 <= i < j < m.indices.len() ==> !same_corners(
            #[trigger] m.indices[i],
            #[trigger] m.indices[j],
        )
}

/// Every cube keeps a mesh well built.
spec fn careful<E>(cube: spec_fn(MeshState, UVec3) -> Result<MeshState, BuildError<E>>) -> bool {
    forall|s: MeshState, anchor: UVec3|
        well_built(s) ==> (#[trigger] cube(s, anchor) matches Ok(t) ==> well_built(t))
}

/// A list of cubes builds well.
proof fn lemma_cubes_well_built<E>(
    cube: spec_fn(MeshState, UVec3) -> Result<MeshState, BuildError<E>>,
    anchors: Seq<UVec3>,
    n: nat,
)
    requires
        careful(cube),
    ensures
        with_cubes(cube, anchors, n) matches Ok(t) ==> well_built(t),
    decreases n,
{
    if n > 0 {
        lemma_cubes_well_built(cube, anchors, (n - 1) as nat);
    }
}

/// Merging clean meshes gives a clean mesh.
proof fn lemma_merge_clean<P, U>(dest: MeshModel<P, U>, src: MeshModel<P, U>)
    requires
        clean(dest),
        clean(src),
        merge_refusal(dest, src) is None,
    ensures
        clean(merge_of(dest, src)),
{
    let m = merge_of(dest, src);
    let n = dest.indices.len() as int;
    let base = dest.positions.len() as int;
    law_merge_keeps_geometry(dest, src, 0, 0);
    let moved = src.indices.map_values(|face: [u32; 3]| shifted(face, base));
    assert forall|i: int| 0 <= i < m.indices.len() implies !repeats(#[trigger] m.indices[i]) by {
        if i < n {
            assert(m.indices[i] == dest.indices[i]);
        } else {
            assert(m.indices[i] == moved[i - n]);
            assert(shift_fits(src.indices[i - n], base));
            assert(!repeats(src.indices[i - n]));
        }
    }
    assert forall|i: int, j: int| 0 <= i < j < m.indices.len() implies !same_corners(
        #[trigger] m.indices[i],
        #[trigger] m.indices[j],
    ) by {
        if j < n {
            assert(m.indices[i] == dest.indices[i] && m.indices[j] == dest.indices[j]);
        } else {
            assert(m.indices[j] == moved[j - n]);
            assert(shift_fits(src.indices[j - n], base));
            if i < n {
                assert(m.indices[i] == dest.indices[i]);
                assert(face_within(dest.indices[i], dest.positions.len()));
            } else {
                assert(m.indices[i] == moved[i - n]);
                assert(shift_fits(src.indices[i - n], base));
                assert(!same_corners(src.indices[i - n], src.indices[j - n]));
                lemma_shifted_corners(src.indices[i - n], src.indices[j - n], base);
            }
        }
    }
}

/// Raising all indices keeps corners different.
proof fn lemma_shifted_corners(f: [u32; 3], g: [u32; 3], base: int)
    requires
        0 <= base,
        shift_fits(f, base),
        shift_fits(g, base),
    ensures
        same_corners(shifted(f, base), shifted(g, base)) <==> same_corners(f, g),
{
}

/// Merging a list of clean meshes gives a clean mesh.
proof fn lemma_list_clean<P, U>(list: Seq<MeshModel<P, U>>, n: nat)
    requires
        n <= list.len(),
        forall|i: int| 0 <= i < list.len() ==> clean(#[trigger] list[i]),
    ensures
        merged_list(list, n) matches Ok(m) ==> clean(m),
    decreases n,
{
    if n > 0 {
        lemma_list_clean(list, (n - 1) as nat);
        if let Ok(m) = merged_list(list, (n - 1) as nat) {
            if merge_refusal(m, list[n - 1]) is None {
                lemma_merge_clean(m, list[n - 1]);
            }
        }
    }
}

/// A mesh with the faces of a well built state, and a position and a texture coordinate for each
/// of its keys, is clean.
proof fn lemma_built_clean<P, U>(m: MeshModel<P, U>, s: MeshState)
    requires
        well_built(s),
        m.positions.len() == s.keys.len(),
        m.uv.len() == s.keys.len(),
        m.indices == s.faces,
    ensures
        clean(m),
{
    assert forall|f: int| 0 <= f < m.indices.len() implies face_within(
        #[trigger] m.indices[f],
        m.positions.len(),
    ) by {
        assert(corners_below(s.faces[f], s.keys.len()));
    }
}

/// Clean chunk meshes make a clean level.
proof fn lemma_chunks_clean<P, U, E, C: Fn(Aabb3u) -> Result<Mesh3D<P, U>, BuildError<E>>>(
    active: SparseGrid3<Present>,
    mesh_chunk: C,
    r: Result<Mesh3D<P, U>, LevelError<BuildError<E>>>,
)
    requires
        forall|b: Aabb3u, m: Mesh3D<P, U>| #[trigger]
            call_ensures(mesh_chunk, (b,), Ok::<Mesh3D<P, U>, BuildError<E>>(m)) ==> clean(m@),
        r matches Ok(mesh) ==> exists|boxes: Seq<Aabb3u>| #[trigger]
            chunk_walk(active, boxes) && exists|parts: Seq<Mesh3D<P, U>>| #[trigger]
                chunk_meshes(mesh_chunk, boxes, parts) && merged_list(models(parts), parts.len())
                    == Ok::<MeshModel<P, U>, MeshError>(mesh@),
    ensures
        r matches Ok(mesh) ==> clean(mesh@),
{
    if let Ok(mesh) = r {
        let boxes = choose|boxes: Seq<Aabb3u>| #[trigger]
            chunk_walk(active, boxes) && exists|parts: Seq<Mesh3D<P, U>>| #[trigger]
                chunk_meshes(mesh_chunk, boxes, parts) && merged_list(models(parts), parts.len())
                    == Ok::<MeshModel<P, U>, MeshError>(mesh@);
        let parts = choose|parts: Seq<Mesh3D<P, U>>| #[trigger]
            chunk_meshes(mesh_chunk, boxes, parts) && merged_list(models(parts), parts.len())
                == Ok::<MeshModel<P, U>, MeshError>(mesh@);
        let list = models(parts);
        assert forall|i: int| 0 <= i < list.len() implies clean(#[trigger] list[i]) by {
            assert(call_ensures(
                mesh_chunk,
                (boxes[i],),
                Ok::<Mesh3D<P, U>, BuildError<E>>(parts[i]),
            ));
        }
        lemma_list_clean(list, list.len());
    }
}

/// A level surface is clean when every cube builds well.
proof fn lemma_level_clean<P, U, E>(
    cube: spec_fn(MeshState, UVec3) -> Result<MeshState, BuildError<E>>,
    active: SparseGrid3<Present>,
    make: Maker<(P, U), E>,
    mesh: Mesh3D<P, U>,
)
    requires
        careful(cube),
        level_surface(
            cube,
            active,
            make,
            Ok::<Mesh3D<P, U>, LevelError<BuildError<E>>>(mesh),
        ),
    ensures
        clean(mesh@),
{
    let boxes = choose|boxes: Seq<Aabb3u>| #[trigger]
        chunk_walk(active, boxes) && exists|parts: Seq<Mesh3D<P, U>>| #[trigger]
            chunk_surfaces(cube, active, boxes, make, parts) && merged_list(
                models(parts),
                parts.len(),
            ) == Ok::<MeshModel<P, U>, MeshError>(mesh@);
    let parts = choose|parts: Seq<Mesh3D<P, U>>| #[trigger]
        chunk_surfaces(cube, active, boxes, make, parts) && merged_list(
            models(parts),
            parts.len(),
        ) == Ok::<MeshModel<P, U>, MeshError>(mesh@);
    let list = models(parts);
    assert forall|i: int| 0 <= i < list.len() implies clean(#[trigger] list[i]) by {
        let part = parts[i];
        let r = Ok::<Mesh3D<P, U>, BuildError<E>>(part);
        assert(chunk_surface(cube, active, boxes[i], make, r));
        let anchors = choose|anchors: Seq<UVec3>| #[trigger]
            visits(active, boxes[i], anchors) && with_cubes(cube, anchors, anchors.len()) is Ok
                && is_mesh_of(part@, with_cubes(cube, anchors, anchors.len())->Ok_0, make);
        lemma_cubes_well_built(cube, anchors, anchors.len());
        let s = with_cubes(cube, anchors, anchors.len())->Ok_0;
        lemma_built_clean(part@, s);
    }
    lemma_list_clean(list, list.len());
}

/// A surface by marching cubes is clean: its faces have three different corners, all of them
/// vertices, and no two faces have the same corners.
pub proof fn law_mc33_surface_is_clean<T: Copy + PartialEq, P, U, E>(
    samples: SparseGrid3<T>,
    active: SparseGrid3<Present>,
    tables: Tables,
    rules: mc33::Rules<T, (P, U), E>,
    mesh: Mesh3D<P, U>,
)
    requires
        level_surface(
            mc33::cube_rule(samples, tables, rules),
            active,
            rules.craft.make,
            Ok::<Mesh3D<P, U>, LevelError<BuildError<E>>>(mesh),
        ),
    ensures
        clean(mesh@),
{
    let cube = mc33::cube_rule(samples, tables, rules);
    assert forall|s: MeshState, anchor: UVec3| well_built(s) implies (#[trigger] cube(
        s,
        anchor,
    ) matches Ok(t) ==> well_built(t)) by {
        mc33::lemma_cube_well_built(s, samples, anchor, tables, rules);
    }
    lemma_level_clean(cube, active, rules.craft.make, mesh);
}

/// A surface by marching tetrahedra is clean: its faces have three different corners, all of
/// them vertices, and no two faces have the same corners.
pub proof fn law_rmt_surface_is_clean<T: Copy + PartialEq, P, U, E>(
    samples: SparseGrid3<T>,
    active: SparseGrid3<Present>,
    rules: rmt::Rules<T, (P, U), E>,
    mesh: Mesh3D<P, U>,
)
    requires
        level_surface(
            rmt::cube_rule(samples, rules),
            active,
            rules.craft.make,
            Ok::<Mesh3D<P, U>, LevelError<BuildError<E>>>(mesh),
        ),
    ensures
        clean(mesh@),
{
    let cube = rmt::cube_rule(samples, rules);
    assert forall|s: MeshState, anchor: UVec3| well_built(s) implies (#[trigger] cube(
        s,
        anchor,
    ) matches Ok(t) ==> well_built(t)) by {
        rmt::lemma_cube_well_built(s, samples, anchor, rules);
    }
    lemma_level_clean(cube, active, rules.craft.make, mesh);
}

/// Levels with clean meshes merge into a clean mesh, flipped or not.
pub proof fn law_merged_levels_are_clean<P, U>(parts: Seq<MeshModel<P, U>>, n: nat, flip: bool)
    requires
        n <= parts.len(),
        forall|i: int| 0 <= i < parts.len() ==> clean(#[trigger] parts[i]),
    ensures
        level_meshes(parts, n, flip) matches Ok(m) ==> clean(m),
    decreases n,
{
    if n > 0 {
        law_merged_levels_are_clean(parts, (n - 1) as nat, flip);
        if let Ok(m) = level_meshes(parts, (n - 1) as nat, flip) {
            let part = parts[n - 1];
            if merge_refusal(m, part) is None {
                lemma_merge_clean(m, part);
                let plain = merge_of(m, part);
                let turned = with_level(m, part, flip);
                assert forall|i: int| 0 <= i < turned.indices.len() implies face_within(
                    #[trigger] turned.indices[i],
                    turned.positions.len(),
                ) && !repeats(turned.indices[i]) && sorted_corners(turned.indices[i])
                    == sorted_corners(plain.indices[i]) by {
                    assert(face_within(plain.indices[i], plain.positions.len()));
                    assert(!repeats(plain.indices[i]));
                }
                assert forall|i: int, j: int| 0 <= i < j < turned.indices.len() implies !same_corners(
                    #[trigger] turned.indices[i],
                    #[trigger] turned.indices[j],
                ) by {
                    assert(!same_corners(plain.indices[i], plain.indices[j]));
                }
            }
        }
    }
}

} // verus!
