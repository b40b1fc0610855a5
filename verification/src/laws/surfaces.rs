//! Surfaces by marching cubes: the triangles of a cube, of a level, and how cubes resolve.

use vstd::prelude::*;

use crate::isosurface::mc33;
use crate::isosurface::mc33::{
    cube_corner, cube_rule, cube_values, faces_by, first_missing, interiors_by,
    law_patterns_resolve, pattern_of, resolution, sampled, tiling_steps, with_cube, Resolution,
    Rules, Tiling,
};
use crate::isosurface::mc33::tables::Tables;
use crate::isosurface::mesh::{
    face_within, merged_list, models, sound, Mesh3D, MeshError, MeshModel,
};
use crate::isosurface::mesher::{
    corners_below, grounded, lemma_grounded_append, lemma_triangle_grounded, payload, seats_before,
    triangle_steps, well_built, with_all_steps, BuildError, Craft, FaceVerdict, Maker, MeshState,
    Step, VertexKey,
};
use crate::isosurface::parallel::{chunk_walk, LevelError};
use crate::isosurface::surface::{chunk_surface, chunk_surfaces, is_mesh_of, level_surface};
use crate::isosurface::walk::{visits, with_cubes};
use crate::laws::triangles::{
    among, asked_for, extends, has_face, keys_of, law_merged_list_triangles, lemma_extends,
    lemma_steps_faces, oriented, triangle, triangles, triangles_of_all, verdict_on, wanted_face,
};
use crate::utility::sparse_grid3::aabb::Aabb3u;
use crate::utility::sparse_grid3::grid::{inside, SparseGrid3};
use crate::utility::sparse_grid3::grid::storage::chunk_box;
use crate::utility::sparse_grid3::layout::{
    cell_of, key_of, lemma_axis_origin, lemma_position_decomposes,
};
use crate::utility::sparse_grid3::value::Present;
use crate::vec3::UVec3;

verus! {

/// The lattice point `(x, y, z)` steps from an anchor.
pub open spec fn stepped_from(a: UVec3, x: int, y: int, z: int) -> UVec3 {
    UVec3 { x: (a.x + x) as u32, y: (a.y + y) as u32, z: (a.z + z) as u32 }
}

/// The vertex on a numbered edge of the cube anchored at `a`: between its lower and its upper
/// end. Edges 0 to 3 go around the lower side of the cube, 4 to 7 around the upper side, and 8
/// to 11 lead up; 12 is the vertex inside the cube.
pub open spec fn edge_vertex(a: UVec3, e: int) -> VertexKey {
    if e == 0 {
        VertexKey::Edge(stepped_from(a, 0, 0, 0), stepped_from(a, 1, 0, 0))
    } else if e == 1 {
        VertexKey::Edge(stepped_from(a, 1, 0, 0), stepped_from(a, 1, 1, 0))
    } else if e == 2 {
        VertexKey::Edge(stepped_from(a, 0, 1, 0), stepped_from(a, 1, 1, 0))
    } else if e == 3 {
        VertexKey::Edge(stepped_from(a, 0, 0, 0), stepped_from(a, 0, 1, 0))
    } else if e == 4 {
        VertexKey::Edge(stepped_from(a, 0, 0, 1), stepped_from(a, 1, 0, 1))
    } else if e == 5 {
        VertexKey::Edge(stepped_from(a, 1, 0, 1), stepped_from(a, 1, 1, 1))
    } else if e == 6 {
        VertexKey::Edge(stepped_from(a, 0, 1, 1), stepped_from(a, 1, 1, 1))
    } else if e == 7 {
        VertexKey::Edge(stepped_from(a, 0, 0, 1), stepped_from(a, 0, 1, 1))
    } else if e == 8 {
        VertexKey::Edge(stepped_from(a, 0, 0, 0), stepped_from(a, 0, 0, 1))
    } else if e == 9 {
        VertexKey::Edge(stepped_from(a, 1, 0, 0), stepped_from(a, 1, 0, 1))
    } else if e == 10 {
        VertexKey::Edge(stepped_from(a, 1, 1, 0), stepped_from(a, 1, 1, 1))
    } else if e == 11 {
        VertexKey::Edge(stepped_from(a, 0, 1, 0), stepped_from(a, 0, 1, 1))
    } else {
        VertexKey::Interior(a)
    }
}

/// The number that a table holds for place `n` of a triangle list: the lists of a row follow
/// each other, and so do the rows.
pub open spec fn listed_edge(tables: Tables, tiling: Tiling, n: int) -> int {
    let lut = tables.tiling(tiling.table);
    match tiling.subconfig {
        None => lut.data@[tiling.config * lut.columns + n] as int,
        Some(sub) => lut.data@[(tiling.config * lut.columns + sub) * lut.depth + n] as int,
    }
}

/// Corner `c` of triangle `i` of a list.
pub open spec fn list_corner(tables: Tables, tiling: Tiling, anchor: UVec3, i: int, c: int) -> VertexKey {
    edge_vertex(anchor, listed_edge(tables, tiling, 3 * i + c))
}

/// The key of the vertex on an edge.
proof fn lemma_edge_vertex(anchor: UVec3, e: int)
    requires
        0 <= e <= 12,
        anchor.x < u32::MAX,
        anchor.y < u32::MAX,
        anchor.z < u32::MAX,
    ensures
        mc33::tiling_key(anchor, e) == edge_vertex(anchor, e),
{
    assert(e == 0 || e == 1 || e == 2 || e == 3 || e == 4 || e == 5 || e == 6 || e == 7 || e == 8
        || e == 9 || e == 10 || e == 11 || e == 12);
}

/// The edges of a list.
proof fn lemma_listed_edge(tables: Tables, tiling: Tiling, n: int)
    requires
        tables.wf(),
        tiling.wf(tables),
        0 <= n < 3 * tiling.triangle_count,
    ensures
        tiling.edge_at(tables, n) == listed_edge(tables, tiling, n),
        0 <= listed_edge(tables, tiling, n) <= 12,
{
    assert(tables.tiling_ok(tiling.table));
    mc33::lemma_listed_edges(tables, tiling);
    let lut = tables.tiling(tiling.table);
    assert(0 <= tiling.edge_at(tables, n) <= 12);
    if tiling.subconfig is None {
        assert(lut.depth == 1);
        assert((tiling.config * lut.columns + n) * 1 == tiling.config * lut.columns + n)
            by (nonlinear_arith);
    }
}

/// The steps of a list: for each triangle, the vertices on the three edges that the table holds
/// for it are seated, then their face is asked for, wound the other way.
pub proof fn law_list_steps(tables: Tables, tiling: Tiling, anchor: UVec3, n: nat)
    requires
        tables.wf(),
        tiling.wf(tables),
        n <= tiling.triangle_count,
        anchor.x < u32::MAX,
        anchor.y < u32::MAX,
        anchor.z < u32::MAX,
    ensures
        ({
            let list = tiling_steps(tables, tiling, anchor, n);
            &&& list.len() == 4 * n
            &&& grounded(list, 4 * n as int)
            &&& forall|i: int|
                #![trigger list_corner(tables, tiling, anchor, i, 0)]
                0 <= i < n ==> {
                    let a = list_corner(tables, tiling, anchor, i, 0);
                    let b = list_corner(tables, tiling, anchor, i, 1);
                    let c = list_corner(tables, tiling, anchor, i, 2);
                    &&& list[4 * i] == Step::Seat(a)
                    &&& list[4 * i + 1] == Step::Seat(b)
                    &&& list[4 * i + 2] == Step::Seat(c)
                    &&& list[4 * i + 3] == Step::Face(a, c, b, anchor)
                }
        }),
    decreases n,
{
    if n > 0 {
        let m = n - 1;
        law_list_steps(tables, tiling, anchor, m as nat);
        let first = tiling_steps(tables, tiling, anchor, m as nat);
        let list = tiling_steps(tables, tiling, anchor, n);
        let a = list_corner(tables, tiling, anchor, m, 0);
        let b = list_corner(tables, tiling, anchor, m, 1);
        let c = list_corner(tables, tiling, anchor, m, 2);
        lemma_listed_edge(tables, tiling, 3 * m);
        lemma_listed_edge(tables, tiling, 3 * m + 1);
        lemma_listed_edge(tables, tiling, 3 * m + 2);
        lemma_edge_vertex(anchor, listed_edge(tables, tiling, 3 * m));
        lemma_edge_vertex(anchor, listed_edge(tables, tiling, 3 * m + 1));
        lemma_edge_vertex(anchor, listed_edge(tables, tiling, 3 * m + 2));
        let second = triangle_steps(a, b, c, anchor, true);
        assert(list == first + second);
        lemma_triangle_grounded(a, b, c, anchor, true);
        lemma_grounded_append(first, second);
        assert forall|i: int|
            #![trigger list_corner(tables, tiling, anchor, i, 0)]
            0 <= i < n implies {
            let a = list_corner(tables, tiling, anchor, i, 0);
            let b = list_corner(tables, tiling, anchor, i, 1);
            let c = list_corner(tables, tiling, anchor, i, 2);
            &&& list[4 * i] == Step::Seat(a)
            &&& list[4 * i + 1] == Step::Seat(b)
            &&& list[4 * i + 2] == Step::Seat(c)
            &&& list[4 * i + 3] == Step::Face(a, c, b, anchor)
        } by {
            if i < m {
                assert(list[4 * i] == first[4 * i]);
                assert(list[4 * i + 1] == first[4 * i + 1]);
                assert(list[4 * i + 2] == first[4 * i + 2]);
                assert(list[4 * i + 3] == first[4 * i + 3]);
            } else {
                assert(list[4 * m] == second[0]);
                assert(list[4 * m + 1] == second[1]);
                assert(list[4 * m + 2] == second[2]);
                assert(list[4 * m + 3] == second[3]);
            }
        }
    }
}

/// Face `f` shows triangle `i` of a list, facing the smaller samples: the lists wind triangles
/// the other way.
pub open spec fn face_from_list<V, E>(
    s: MeshState,
    f: int,
    tables: Tables,
    tiling: Tiling,
    anchor: UVec3,
    i: int,
    craft: Craft<V, E>,
) -> bool {
    let a = list_corner(tables, tiling, anchor, i, 0);
    let b = list_corner(tables, tiling, anchor, i, 1);
    let c = list_corner(tables, tiling, anchor, i, 2);
    &&& a != b && b != c && c != a
    &&& oriented(verdict_on(craft, a, c, b, anchor), a, c, b, keys_of(s, f))
}

/// Face `f` shows a triangle of a list.
pub open spec fn face_in_list<V, E>(
    s: MeshState,
    f: int,
    tables: Tables,
    tiling: Tiling,
    anchor: UVec3,
    craft: Craft<V, E>,
) -> bool {
    exists|i: int|
        0 <= i < tiling.triangle_count && #[trigger] face_from_list(
            s,
            f,
            tables,
            tiling,
            anchor,
            i,
            craft,
        )
}

/// Every triangle of a list is there: its three vertices, and the face between them, unless two
/// corners are the same or the face is flat.
pub open spec fn list_shown<V, E>(
    t: MeshState,
    tables: Tables,
    tiling: Tiling,
    anchor: UVec3,
    craft: Craft<V, E>,
) -> bool {
    forall|i: int|
        #![trigger list_corner(tables, tiling, anchor, i, 0)]
        0 <= i < tiling.triangle_count ==> {
            let a = list_corner(tables, tiling, anchor, i, 0);
            let b = list_corner(tables, tiling, anchor, i, 1);
            let c = list_corner(tables, tiling, anchor, i, 2);
            &&& t.keys.contains(a) && t.keys.contains(b) && t.keys.contains(c)
            &&& a != b && b != c && c != a && verdict_on(craft, a, c, b, anchor)
                != FaceVerdict::Flat ==> has_face(t, a, b, c)
        }
}

/// `k` is a corner of a triangle of a list.
pub open spec fn corner_in_list(tables: Tables, tiling: Tiling, anchor: UVec3, k: VertexKey) -> bool {
    exists|i: int, c: int|
        0 <= i < tiling.triangle_count && 0 <= c < 3 && k == #[trigger] list_corner(
            tables,
            tiling,
            anchor,
            i,
            c,
        )
}

/// The faces and vertices that `t` has and `s` has not are those of a list.
pub open spec fn only_list_added<V, E>(
    s: MeshState,
    t: MeshState,
    tables: Tables,
    tiling: Tiling,
    anchor: UVec3,
    craft: Craft<V, E>,
) -> bool {
    &&& forall|f: int|
        s.faces.len() <= f < t.faces.len() ==> #[trigger] face_in_list(
            t,
            f,
            tables,
            tiling,
            anchor,
            craft,
        )
    &&& forall|v: int|
        s.keys.len() <= v < t.keys.len() ==> corner_in_list(
            tables,
            tiling,
            anchor,
            #[trigger] t.keys[v],
        )
}

/// The triangles of a list are there.
proof fn lemma_list_shown<V, E>(
    s: MeshState,
    t: MeshState,
    tables: Tables,
    tiling: Tiling,
    anchor: UVec3,
    craft: Craft<V, E>,
)
    requires
        well_built(s),
        tables.wf(),
        tiling.wf(tables),
        anchor.x < u32::MAX,
        anchor.y < u32::MAX,
        anchor.z < u32::MAX,
        with_all_steps(
            s,
            tiling_steps(tables, tiling, anchor, tiling.triangle_count as nat),
            craft,
        ) == Ok::<MeshState, BuildError<E>>(t),
    ensures
        well_built(t),
        extends(s, t),
        list_shown(t, tables, tiling, anchor, craft),
{
    let n = tiling.triangle_count as nat;
    let list = tiling_steps(tables, tiling, anchor, n);
    law_list_steps(tables, tiling, anchor, n);
    lemma_steps_faces(s, list, list.len(), craft);
    assert forall|i: int|
        #![trigger list_corner(tables, tiling, anchor, i, 0)]
        0 <= i < n implies {
        let a = list_corner(tables, tiling, anchor, i, 0);
        let b = list_corner(tables, tiling, anchor, i, 1);
        let c = list_corner(tables, tiling, anchor, i, 2);
        &&& t.keys.contains(a) && t.keys.contains(b) && t.keys.contains(c)
        &&& a != b && b != c && c != a && verdict_on(craft, a, c, b, anchor) != FaceVerdict::Flat
            ==> has_face(t, a, b, c)
    } by {
        let a = list_corner(tables, tiling, anchor, i, 0);
        let b = list_corner(tables, tiling, anchor, i, 1);
        let c = list_corner(tables, tiling, anchor, i, 2);
        assert(list[4 * i] == Step::Seat(a));
        assert(list[4 * i + 1] == Step::Seat(b));
        assert(list[4 * i + 2] == Step::Seat(c));
        assert(list[4 * i + 3] == Step::Face(a, c, b, anchor));
        if has_face(t, a, c, b) {
            let f = choose|f: int|
                0 <= f < t.faces.len() && among(a, #[trigger] keys_of(t, f)) && among(
                    c,
                    keys_of(t, f),
                ) && among(b, keys_of(t, f));
            assert(among(b, keys_of(t, f)));
        }
    }
}

/// Nothing but the triangles of a list is added.
proof fn lemma_only_list_added<V, E>(
    s: MeshState,
    t: MeshState,
    tables: Tables,
    tiling: Tiling,
    anchor: UVec3,
    craft: Craft<V, E>,
)
    requires
        well_built(s),
        tables.wf(),
        tiling.wf(tables),
        anchor.x < u32::MAX,
        anchor.y < u32::MAX,
        anchor.z < u32::MAX,
        with_all_steps(
            s,
            tiling_steps(tables, tiling, anchor, tiling.triangle_count as nat),
            craft,
        ) == Ok::<MeshState, BuildError<E>>(t),
    ensures
        only_list_added(s, t, tables, tiling, anchor, craft),
{
    let n = tiling.triangle_count as nat;
    let list = tiling_steps(tables, tiling, anchor, n);
    law_list_steps(tables, tiling, anchor, n);
    lemma_steps_faces(s, list, list.len(), craft);
    assert forall|f: int| s.faces.len() <= f < t.faces.len() implies #[trigger] face_in_list(
        t,
        f,
        tables,
        tiling,
        anchor,
        craft,
    ) by {
        assert(wanted_face(list, list.len(), t, f, craft));
        let j = choose|j: int| 0 <= j < list.len() && #[trigger] asked_for(list, j, t, f, craft);
        let i = j / 4;
        let a = list_corner(tables, tiling, anchor, i, 0);
        assert(list[4 * i] is Seat && list[4 * i + 1] is Seat && list[4 * i + 2] is Seat);
        assert(j == 4 * i + 3);
        assert(face_from_list(t, f, tables, tiling, anchor, i, craft));
    }
    assert forall|v: int| s.keys.len() <= v < t.keys.len() implies corner_in_list(
        tables,
        tiling,
        anchor,
        #[trigger] t.keys[v],
    ) by {
        let k = t.keys[v];
        assert(seats_before(list, list.len() as int, k));
        let j = choose|j: int| 0 <= j < list.len() && #[trigger] list[j] == Step::Seat(k);
        let i = j / 4;
        let a = list_corner(tables, tiling, anchor, i, 0);
        assert(list[4 * i + 3] is Face);
        assert(j == 4 * i || j == 4 * i + 1 || j == 4 * i + 2);
        assert(k == list_corner(tables, tiling, anchor, i, j - 4 * i));
    }
}

/// A cube adds every triangle of its list: the vertices on the three edges that the table holds
/// in places `3 * i`, `3 * i + 1` and `3 * i + 2`, and the face between them, unless two corners
/// are the same or the face is flat. What was there before stays, and no other face or vertex
/// is added.
pub proof fn law_cube_triangles<T: Copy + PartialEq, V, E>(
    s: MeshState,
    t: MeshState,
    samples: SparseGrid3<T>,
    anchor: UVec3,
    tables: Tables,
    rules: Rules<T, V, E>,
    tiling: Tiling,
)
    requires
        well_built(s),
        tables.wf(),
        anchor.x < u32::MAX,
        anchor.y < u32::MAX,
        anchor.z < u32::MAX,
        sampled(samples, anchor),
        resolution(
            tables,
            pattern_of(samples, anchor, rules.above, 8),
            faces_by(rules.face, cube_values(samples, anchor)),
            interiors_by(rules.interior, cube_values(samples, anchor)),
        ) == Resolution::Found(tiling),
        with_cube(s, samples, anchor, tables, rules) == Ok::<MeshState, BuildError<E>>(t),
    ensures
        well_built(t),
        extends(s, t),
        list_shown(t, tables, tiling, anchor, rules.craft),
        only_list_added(s, t, tables, tiling, anchor, rules.craft),
{
    lemma_pattern_range(samples, anchor, rules.above, 8);
    law_patterns_resolve(
        tables,
        pattern_of(samples, anchor, rules.above, 8),
        faces_by(rules.face, cube_values(samples, anchor)),
        interiors_by(rules.interior, cube_values(samples, anchor)),
    );
    lemma_list_shown(s, t, tables, tiling, anchor, rules.craft);
    lemma_only_list_added(s, t, tables, tiling, anchor, rules.craft);
}

/// The number of a sign pattern lies in range.
proof fn lemma_pattern_range<T: Copy + PartialEq>(
    samples: SparseGrid3<T>,
    anchor: UVec3,
    above: spec_fn(T) -> bool,
    n: nat,
)
    requires
        n <= 8,
    ensures
        n < 8 ==> 0 <= pattern_of(samples, anchor, above, n) < mc33::corner_weight(n as int),
        n == 8 ==> 0 <= pattern_of(samples, anchor, above, n) < 256,
{
    reveal_with_fuel(pattern_of, 9);
    assert(n == 0 || n == 1 || n == 2 || n == 3 || n == 4 || n == 5 || n == 6 || n == 7 || n == 8);
}

/// The value at a lattice point.
pub open spec fn value_at<T: Copy + PartialEq>(samples: SparseGrid3<T>, p: UVec3) -> T {
    samples.at(p)->0
}

/// `n` where `b` holds.
pub open spec fn counted(b: bool, n: int) -> int {
    if b {
        n
    } else {
        0
    }
}

/// The corners of a cube go around its lower side and then around its upper side; corner `i`
/// above the isovalue counts `2^i` in the number of the sign pattern, and the samples are taken
/// in the same order.
pub proof fn law_sign_pattern<T: Copy + PartialEq>(
    samples: SparseGrid3<T>,
    anchor: UVec3,
    above: spec_fn(T) -> bool,
)
    requires
        anchor.x < u32::MAX,
        anchor.y < u32::MAX,
        anchor.z < u32::MAX,
    ensures
        ({
            let v0 = value_at(samples, stepped_from(anchor, 0, 0, 0));
            let v1 = value_at(samples, stepped_from(anchor, 1, 0, 0));
            let v2 = value_at(samples, stepped_from(anchor, 1, 1, 0));
            let v3 = value_at(samples, stepped_from(anchor, 0, 1, 0));
            let v4 = value_at(samples, stepped_from(anchor, 0, 0, 1));
            let v5 = value_at(samples, stepped_from(anchor, 1, 0, 1));
            let v6 = value_at(samples, stepped_from(anchor, 1, 1, 1));
            let v7 = value_at(samples, stepped_from(anchor, 0, 1, 1));
            &&& cube_values(samples, anchor)@ =~= seq![v0, v1, v2, v3, v4, v5, v6, v7]
            &&& pattern_of(samples, anchor, above, 8) == counted(above(v0), 1) + counted(
                above(v1),
                2,
            ) + counted(above(v2), 4) + counted(above(v3), 8) + counted(above(v4), 16) + counted(
                above(v5),
                32,
            ) + counted(above(v6), 64) + counted(above(v7), 128)
        }),
{
    reveal_with_fuel(pattern_of, 9);
    lemma_corners(anchor);
}

/// The corners of a cube.
proof fn lemma_corners(anchor: UVec3)
    requires
        anchor.x < u32::MAX,
        anchor.y < u32::MAX,
        anchor.z < u32::MAX,
    ensures
        cube_corner(anchor, 0) == stepped_from(anchor, 0, 0, 0),
        cube_corner(anchor, 1) == stepped_from(anchor, 1, 0, 0),
        cube_corner(anchor, 2) == stepped_from(anchor, 1, 1, 0),
        cube_corner(anchor, 3) == stepped_from(anchor, 0, 1, 0),
        cube_corner(anchor, 4) == stepped_from(anchor, 0, 0, 1),
        cube_corner(anchor, 5) == stepped_from(anchor, 1, 0, 1),
        cube_corner(anchor, 6) == stepped_from(anchor, 1, 1, 1),
        cube_corner(anchor, 7) == stepped_from(anchor, 0, 1, 1),
{
}

/// A cube is an error when one of the samples at its eight corners is missing.
pub proof fn law_missing_sample<T: Copy + PartialEq, V, E>(
    s: MeshState,
    samples: SparseGrid3<T>,
    anchor: UVec3,
    tables: Tables,
    rules: Rules<T, V, E>,
)
    requires
        anchor.x < u32::MAX,
        anchor.y < u32::MAX,
        anchor.z < u32::MAX,
    ensures
        sampled(samples, anchor) <==> forall|x: int, y: int, z: int|
            0 <= x <= 1 && 0 <= y <= 1 && 0 <= z <= 1 ==> (#[trigger] samples.at(
                stepped_from(anchor, x, y, z),
            )) is Some,
        !sampled(samples, anchor) ==> (with_cube(s, samples, anchor, tables, rules) matches Err(
            BuildError::MissingSample(p),
        ) && samples.at(p) is None),
{
    lemma_corners(anchor);
    if sampled(samples, anchor) {
        assert(samples.at(cube_corner(anchor, 0)) is Some);
        assert(samples.at(cube_corner(anchor, 1)) is Some);
        assert(samples.at(cube_corner(anchor, 2)) is Some);
        assert(samples.at(cube_corner(anchor, 3)) is Some);
        assert(samples.at(cube_corner(anchor, 4)) is Some);
        assert(samples.at(cube_corner(anchor, 5)) is Some);
        assert(samples.at(cube_corner(anchor, 6)) is Some);
        assert(samples.at(cube_corner(anchor, 7)) is Some);
        assert forall|x: int, y: int, z: int|
            0 <= x <= 1 && 0 <= y <= 1 && 0 <= z <= 1 implies (#[trigger] samples.at(
            stepped_from(anchor, x, y, z),
        )) is Some by {
            assert((x == 0 || x == 1) && (y == 0 || y == 1) && (z == 0 || z == 1));
        }
    } else {
        lemma_some_missing(samples, anchor, 8);
        let i = choose|i: int| 0 <= i < 8 && (#[trigger] samples.at(cube_corner(anchor, i))) is None;
        assert(i == 0 || i == 1 || i == 2 || i == 3 || i == 4 || i == 5 || i == 6 || i == 7);
        assert(samples.at(stepped_from(anchor, 0, 0, 0)) is None || samples.at(
            stepped_from(anchor, 1, 0, 0),
        ) is None || samples.at(stepped_from(anchor, 1, 1, 0)) is None || samples.at(
            stepped_from(anchor, 0, 1, 0),
        ) is None || samples.at(stepped_from(anchor, 0, 0, 1)) is None || samples.at(
            stepped_from(anchor, 1, 0, 1),
        ) is None || samples.at(stepped_from(anchor, 1, 1, 1)) is None || samples.at(
            stepped_from(anchor, 0, 1, 1),
        ) is None);
    }
}

/// Where a sample is missing, there is a first one.
proof fn lemma_some_missing<T: Copy + PartialEq>(samples: SparseGrid3<T>, anchor: UVec3, n: int)
    requires
        0 <= n <= 8,
    ensures
        (exists|i: int| 0 <= i < n && (#[trigger] samples.at(cube_corner(anchor, i))) is None)
            ==> exists|i: int| #[trigger] first_missing(samples, anchor, i),
    decreases n,
{
    if n > 0 {
        lemma_some_missing(samples, anchor, n - 1);
        if exists|i: int| 0 <= i < n && (#[trigger] samples.at(cube_corner(anchor, i))) is None {
            if !exists|i: int|
                0 <= i < n - 1 && (#[trigger] samples.at(cube_corner(anchor, i))) is None {
                assert(first_missing(samples, anchor, n - 1));
            }
        }
    }
}

/// How the cube anchored at `anchor` resolves.
pub open spec fn cube_resolution<T: Copy + PartialEq, V, E>(
    samples: SparseGrid3<T>,
    anchor: UVec3,
    tables: Tables,
    rules: Rules<T, V, E>,
) -> Resolution {
    resolution(
        tables,
        pattern_of(samples, anchor, rules.above, 8),
        faces_by(rules.face, cube_values(samples, anchor)),
        interiors_by(rules.interior, cube_values(samples, anchor)),
    )
}

/// Face `f` shows a triangle of one of the first `n` cubes of a list.
pub open spec fn face_of_cube<T: Copy + PartialEq, V, E>(
    t: MeshState,
    f: int,
    samples: SparseGrid3<T>,
    anchors: Seq<UVec3>,
    n: nat,
    tables: Tables,
    rules: Rules<T, V, E>,
) -> bool {
    exists|a: int, tiling: Tiling|
        0 <= a < n && cube_resolution(samples, anchors[a], tables, rules) == Resolution::Found(
            tiling,
        ) && #[trigger] face_in_list(t, f, tables, tiling, anchors[a], rules.craft)
}

/// The cubes of a list add the triangles of their lists, and nothing else.
proof fn lemma_cubes_triangles<T: Copy + PartialEq, V, E>(
    samples: SparseGrid3<T>,
    anchors: Seq<UVec3>,
    n: nat,
    tables: Tables,
    rules: Rules<T, V, E>,
)
    requires
        tables.wf(),
        n <= anchors.len(),
        forall|a: int|
            0 <= a < anchors.len() ==> (#[trigger] anchors[a]).x < u32::MAX && anchors[a].y
                < u32::MAX && anchors[a].z < u32::MAX,
    ensures
        with_cubes(cube_rule(samples, tables, rules), anchors, n) matches Ok(t) ==> {
            &&& well_built(t)
            &&& forall|a: int|
                0 <= a < n ==> (cube_resolution(
                    samples,
                    #[trigger] anchors[a],
                    tables,
                    rules,
                ) matches Resolution::Found(tiling) ==> list_shown(
                    t,
                    tables,
                    tiling,
                    anchors[a],
                    rules.craft,
                ))
            &&& forall|f: int|
                0 <= f < t.faces.len() ==> #[trigger] face_of_cube(
                    t,
                    f,
                    samples,
                    anchors,
                    n,
                    tables,
                    rules,
                )
        },
    decreases n,
{
    if n > 0 {
        let m = (n - 1) as nat;
        let cube = cube_rule(samples, tables, rules);
        lemma_cubes_triangles(samples, anchors, m, tables, rules);
        if with_cubes(cube, anchors, n) is Ok {
            let s = with_cubes(cube, anchors, m)->Ok_0;
            let t = with_cubes(cube, anchors, n)->Ok_0;
            let p = anchors[n - 1];
            assert(with_cube(s, samples, p, tables, rules) == Ok::<MeshState, BuildError<E>>(t));
            match cube_resolution(samples, p, tables, rules) {
                Resolution::Found(tiling) => {
                    law_cube_triangles(s, t, samples, p, tables, rules, tiling);
                    lemma_extends(s, t);
                    assert forall|a: int| 0 <= a < n implies (cube_resolution(
                        samples,
                        #[trigger] anchors[a],
                        tables,
                        rules,
                    ) matches Resolution::Found(other) ==> list_shown(
                        t,
                        tables,
                        other,
                        anchors[a],
                        rules.craft,
                    )) by {
                        if a < m {
                            if let Resolution::Found(other) = cube_resolution(
                                samples,
                                anchors[a],
                                tables,
                                rules,
                            ) {
                                lemma_shown_stays(s, t, tables, other, anchors[a], rules.craft);
                            }
                        }
                    }
                    assert forall|f: int| 0 <= f < t.faces.len() implies #[trigger] face_of_cube(
                        t,
                        f,
                        samples,
                        anchors,
                        n,
                        tables,
                        rules,
                    ) by {
                        if f < s.faces.len() {
                            assert(face_of_cube(s, f, samples, anchors, m, tables, rules));
                            lemma_face_stays(s, t, f, samples, anchors, m, tables, rules);
                        } else {
                            assert(face_in_list(t, f, tables, tiling, anchors[n - 1], rules.craft));
                        }
                    }
                },
                _ => {
                    assert(s == t);
                    assert forall|f: int| 0 <= f < t.faces.len() implies #[trigger] face_of_cube(
                        t,
                        f,
                        samples,
                        anchors,
                        n,
                        tables,
                        rules,
                    ) by {
                        assert(face_of_cube(s, f, samples, anchors, m, tables, rules));
                        lemma_face_stays(s, t, f, samples, anchors, m, tables, rules);
                    }
                },
            }
        }
    }
}

/// Shown triangles stay shown.
proof fn lemma_shown_stays<V, E>(
    s: MeshState,
    t: MeshState,
    tables: Tables,
    tiling: Tiling,
    anchor: UVec3,
    craft: Craft<V, E>,
)
    requires
        well_built(s),
        extends(s, t),
        list_shown(s, tables, tiling, anchor, craft),
    ensures
        list_shown(t, tables, tiling, anchor, craft),
{
    lemma_extends(s, t);
    assert forall|k: VertexKey| s.keys.contains(k) implies #[trigger] t.keys.contains(k) by {
        let i = choose|i: int| 0 <= i < s.keys.len() && s.keys[i] == k;
        assert(t.keys[i] == k);
    }
    assert forall|i: int|
        #![trigger list_corner(tables, tiling, anchor, i, 0)]
        0 <= i < tiling.triangle_count implies {
        let a = list_corner(tables, tiling, anchor, i, 0);
        let b = list_corner(tables, tiling, anchor, i, 1);
        let c = list_corner(tables, tiling, anchor, i, 2);
        &&& t.keys.contains(a) && t.keys.contains(b) && t.keys.contains(c)
        &&& a != b && b != c && c != a && verdict_on(craft, a, c, b, anchor) != FaceVerdict::Flat
            ==> has_face(t, a, b, c)
    } by {
        let a = list_corner(tables, tiling, anchor, i, 0);
    }
}

/// A face stays the face of its cube.
proof fn lemma_face_stays<T: Copy + PartialEq, V, E>(
    s: MeshState,
    t: MeshState,
    f: int,
    samples: SparseGrid3<T>,
    anchors: Seq<UVec3>,
    m: nat,
    tables: Tables,
    rules: Rules<T, V, E>,
)
    requires
        well_built(s),
        extends(s, t),
        0 <= f < s.faces.len(),
        face_of_cube(s, f, samples, anchors, m, tables, rules),
    ensures
        face_of_cube(t, f, samples, anchors, (m + 1) as nat, tables, rules),
{
    lemma_extends(s, t);
    let (a, tiling) = choose|a: int, tiling: Tiling|
        0 <= a < m && cube_resolution(samples, anchors[a], tables, rules) == Resolution::Found(
            tiling,
        ) && #[trigger] face_in_list(s, f, tables, tiling, anchors[a], rules.craft);
    let i = choose|i: int|
        0 <= i < tiling.triangle_count && #[trigger] face_from_list(
            s,
            f,
            tables,
            tiling,
            anchors[a],
            i,
            rules.craft,
        );
    assert(keys_of(t, f) == keys_of(s, f));
    assert(face_from_list(t, f, tables, tiling, anchors[a], i, rules.craft));
    assert(face_in_list(t, f, tables, tiling, anchors[a], rules.craft));
}

/// Three vertices are the corners of a triangle, in some order.
pub open spec fn corners_are<V>(t: (V, V, V), a: V, b: V, c: V) -> bool {
    &&& a == t.0 || a == t.1 || a == t.2
    &&& b == t.0 || b == t.1 || b == t.2
    &&& c == t.0 || c == t.1 || c == t.2
}

/// A mesh has a triangle with these corners.
pub open spec fn mesh_shows<P, U>(m: MeshModel<P, U>, a: (P, U), b: (P, U), c: (P, U)) -> bool {
    exists|f: int| 0 <= f < m.indices.len() && corners_are(#[trigger] triangle(m, f), a, b, c)
}

/// The triangles of a mesh are the faces of the state that it was made of.
proof fn lemma_mesh_triangles<P, U, E>(m: MeshModel<P, U>, s: MeshState, make: Maker<(P, U), E>)
    requires
        well_built(s),
        is_mesh_of(m, s, make),
    ensures
        sound(m),
        m.indices.len() == s.faces.len(),
        forall|f: int|
            0 <= f < s.faces.len() ==> #[trigger] triangle(m, f) == (
                make(keys_of(s, f).0)->Ok_0,
                make(keys_of(s, f).1)->Ok_0,
                make(keys_of(s, f).2)->Ok_0,
            ),
{
    assert forall|f: int| 0 <= f < s.faces.len() implies face_within(
        #[trigger] m.indices[f],
        m.positions.len(),
    ) && triangle(m, f) == (
        make(keys_of(s, f).0)->Ok_0,
        make(keys_of(s, f).1)->Ok_0,
        make(keys_of(s, f).2)->Ok_0,
    ) by {
        assert(corners_below(s.faces[f], s.keys.len()));
        let face = s.faces[f];
        assert(payload(make, s.keys[face@[0] as int]) == make(keys_of(s, f).0)->Ok_0);
        assert(payload(make, s.keys[face@[1] as int]) == make(keys_of(s, f).1)->Ok_0);
        assert(payload(make, s.keys[face@[2] as int]) == make(keys_of(s, f).2)->Ok_0);
    }
}

/// The triangle between three vertices that a verdict asks for.
pub open spec fn turned_by<V>(v: FaceVerdict, a: V, b: V, c: V) -> (V, V, V) {
    if v == FaceVerdict::Swap {
        (b, a, c)
    } else {
        (a, b, c)
    }
}

/// Triangle `i` of the list of an active cube, facing the smaller samples.
pub open spec fn from_cube<T: Copy + PartialEq, P, U, E>(
    t: ((P, U), (P, U), (P, U)),
    active: SparseGrid3<Present>,
    samples: SparseGrid3<T>,
    tables: Tables,
    rules: Rules<T, (P, U), E>,
    anchor: UVec3,
    tiling: Tiling,
    i: int,
) -> bool {
    let a = list_corner(tables, tiling, anchor, i, 0);
    let b = list_corner(tables, tiling, anchor, i, 1);
    let c = list_corner(tables, tiling, anchor, i, 2);
    let v = verdict_on(rules.craft, a, c, b, anchor);
    &&& active.at(anchor) is Some
    &&& cube_resolution(samples, anchor, tables, rules) == Resolution::Found(tiling)
    &&& 0 <= i < tiling.triangle_count
    &&& v != FaceVerdict::Flat
    &&& t == turned_by(
        v,
        (rules.craft.make)(a)->Ok_0,
        (rules.craft.make)(c)->Ok_0,
        (rules.craft.make)(b)->Ok_0,
    )
}

/// The cubes of a chunk, and the state that they leave.
spec fn chunk_state<T: Copy + PartialEq, P, U, E>(
    samples: SparseGrid3<T>,
    active: SparseGrid3<Present>,
    aabb: Aabb3u,
    tables: Tables,
    rules: Rules<T, (P, U), E>,
    mesh: Mesh3D<P, U>,
    anchors: Seq<UVec3>,
    s: MeshState,
) -> bool {
    &&& visits(active, aabb, anchors)
    &&& with_cubes(cube_rule(samples, tables, rules), anchors, anchors.len()) == Ok::<
        MeshState,
        BuildError<E>,
    >(s)
    &&& is_mesh_of(mesh@, s, rules.craft.make)
    &&& forall|a: int|
        0 <= a < anchors.len() ==> (#[trigger] anchors[a]).x < u32::MAX && anchors[a].y < u32::MAX
            && anchors[a].z < u32::MAX
}

/// A chunk surface comes from the cubes of the chunk.
proof fn lemma_chunk_state<T: Copy + PartialEq, P, U, E>(
    samples: SparseGrid3<T>,
    active: SparseGrid3<Present>,
    aabb: Aabb3u,
    tables: Tables,
    rules: Rules<T, (P, U), E>,
    mesh: Mesh3D<P, U>,
) -> (r: (Seq<UVec3>, MeshState))
    requires
        chunk_surface(
            cube_rule(samples, tables, rules),
            active,
            aabb,
            rules.craft.make,
            Ok::<Mesh3D<P, U>, BuildError<E>>(mesh),
        ),
    ensures
        chunk_state(samples, active, aabb, tables, rules, mesh, r.0, r.1),
{
    let cube = cube_rule(samples, tables, rules);
    let anchors = choose|anchors: Seq<UVec3>| #[trigger]
        visits(active, aabb, anchors) && with_cubes(cube, anchors, anchors.len()) is Ok
            && is_mesh_of(
            mesh@,
            with_cubes(cube, anchors, anchors.len())->Ok_0,
            rules.craft.make,
        );
    assert forall|a: int| 0 <= a < anchors.len() implies (#[trigger] anchors[a]).x < u32::MAX
        && anchors[a].y < u32::MAX && anchors[a].z < u32::MAX by {
        assert(active.at(anchors[a]) is Some);
        assert(inside(anchors[a], active.limits()));
    }
    (anchors, with_cubes(cube, anchors, anchors.len())->Ok_0)
}

/// The three corners of triangle `i` of a list are different, and the face between them is not
/// flat.
pub open spec fn proper_triangle<V, E>(
    tables: Tables,
    tiling: Tiling,
    anchor: UVec3,
    i: int,
    craft: Craft<V, E>,
) -> bool {
    let a = list_corner(tables, tiling, anchor, i, 0);
    let b = list_corner(tables, tiling, anchor, i, 1);
    let c = list_corner(tables, tiling, anchor, i, 2);
    &&& 0 <= i < tiling.triangle_count
    &&& a != b && b != c && c != a
    &&& verdict_on(craft, a, c, b, anchor) != FaceVerdict::Flat
}

/// A mesh shows triangle `i` of a list.
pub open spec fn mesh_shows_listed<P, U, E>(
    m: MeshModel<P, U>,
    tables: Tables,
    tiling: Tiling,
    anchor: UVec3,
    i: int,
    make: Maker<(P, U), E>,
) -> bool {
    mesh_shows(
        m,
        make(list_corner(tables, tiling, anchor, i, 0))->Ok_0,
        make(list_corner(tables, tiling, anchor, i, 1))->Ok_0,
        make(list_corner(tables, tiling, anchor, i, 2))->Ok_0,
    )
}

/// A chunk shows the triangles of its active cubes.
proof fn lemma_chunk_shows<T: Copy + PartialEq, P, U, E>(
    samples: SparseGrid3<T>,
    active: SparseGrid3<Present>,
    aabb: Aabb3u,
    tables: Tables,
    rules: Rules<T, (P, U), E>,
    mesh: Mesh3D<P, U>,
    anchor: UVec3,
    tiling: Tiling,
    i: int,
)
    requires
        tables.wf(),
        chunk_surface(
            cube_rule(samples, tables, rules),
            active,
            aabb,
            rules.craft.make,
            Ok::<Mesh3D<P, U>, BuildError<E>>(mesh),
        ),
        aabb.has(anchor),
        active.at(anchor) is Some,
        cube_resolution(samples, anchor, tables, rules) == Resolution::Found(tiling),
        proper_triangle(tables, tiling, anchor, i, rules.craft),
    ensures
        mesh_shows_listed(mesh@, tables, tiling, anchor, i, rules.craft.make),
{
    let make = rules.craft.make;
    let (anchors, s) = lemma_chunk_state(samples, active, aabb, tables, rules, mesh);
    lemma_cubes_triangles(samples, anchors, anchors.len(), tables, rules);
    lemma_mesh_triangles(mesh@, s, make);
    let a = list_corner(tables, tiling, anchor, i, 0);
    let b = list_corner(tables, tiling, anchor, i, 1);
    let c = list_corner(tables, tiling, anchor, i, 2);
    assert(anchors.contains(anchor));
    let n = choose|n: int| 0 <= n < anchors.len() && anchors[n] == anchor;
    assert(list_shown(s, tables, tiling, anchors[n], rules.craft));
    assert(has_face(s, a, b, c));
    let f = choose|f: int|
        0 <= f < s.faces.len() && among(a, #[trigger] keys_of(s, f)) && among(b, keys_of(s, f))
            && among(c, keys_of(s, f));
    assert(corners_are(triangle(mesh@, f), make(a)->Ok_0, make(b)->Ok_0, make(c)->Ok_0));
}

/// A chunk shows nothing but the triangles of active cubes.
proof fn lemma_chunk_shows_only<T: Copy + PartialEq, P, U, E>(
    samples: SparseGrid3<T>,
    active: SparseGrid3<Present>,
    aabb: Aabb3u,
    tables: Tables,
    rules: Rules<T, (P, U), E>,
    mesh: Mesh3D<P, U>,
    f: int,
) -> (r: (UVec3, Tiling, int))
    requires
        tables.wf(),
        chunk_surface(
            cube_rule(samples, tables, rules),
            active,
            aabb,
            rules.craft.make,
            Ok::<Mesh3D<P, U>, BuildError<E>>(mesh),
        ),
        0 <= f < mesh@.indices.len(),
    ensures
        from_cube(triangle(mesh@, f), active, samples, tables, rules, r.0, r.1, r.2),
{
    let make = rules.craft.make;
    let (anchors, s) = lemma_chunk_state(samples, active, aabb, tables, rules, mesh);
    lemma_cubes_triangles(samples, anchors, anchors.len(), tables, rules);
    lemma_mesh_triangles(mesh@, s, make);
    assert(face_of_cube(s, f, samples, anchors, anchors.len(), tables, rules));
    let (n, tiling) = choose|n: int, tiling: Tiling|
        0 <= n < anchors.len() && cube_resolution(samples, anchors[n], tables, rules)
            == Resolution::Found(tiling) && #[trigger] face_in_list(
            s,
            f,
            tables,
            tiling,
            anchors[n],
            rules.craft,
        );
    let i = choose|i: int|
        0 <= i < tiling.triangle_count && #[trigger] face_from_list(
            s,
            f,
            tables,
            tiling,
            anchors[n],
            i,
            rules.craft,
        );
    assert(active.at(anchors[n]) is Some);
    (anchors[n], tiling, i)
}

/// The mesh of a chunk is sound.
proof fn lemma_chunk_sound<T: Copy + PartialEq, P, U, E>(
    samples: SparseGrid3<T>,
    active: SparseGrid3<Present>,
    aabb: Aabb3u,
    tables: Tables,
    rules: Rules<T, (P, U), E>,
    mesh: Mesh3D<P, U>,
)
    requires
        tables.wf(),
        chunk_surface(
            cube_rule(samples, tables, rules),
            active,
            aabb,
            rules.craft.make,
            Ok::<Mesh3D<P, U>, BuildError<E>>(mesh),
        ),
    ensures
        sound(mesh@),
{
    let (anchors, s) = lemma_chunk_state(samples, active, aabb, tables, rules, mesh);
    lemma_cubes_triangles(samples, anchors, anchors.len(), tables, rules);
    lemma_mesh_triangles(mesh@, s, rules.craft.make);
}

/// The parts of a level surface.
proof fn lemma_level_parts<T: Copy + PartialEq, P, U, E>(
    samples: SparseGrid3<T>,
    active: SparseGrid3<Present>,
    tables: Tables,
    rules: Rules<T, (P, U), E>,
    mesh: Mesh3D<P, U>,
) -> (r: (Seq<Aabb3u>, Seq<Mesh3D<P, U>>))
    requires
        tables.wf(),
        level_surface(
            cube_rule(samples, tables, rules),
            active,
            rules.craft.make,
            Ok::<Mesh3D<P, U>, LevelError<BuildError<E>>>(mesh),
        ),
    ensures
        chunk_walk(active, r.0),
        chunk_surfaces(cube_rule(samples, tables, rules), active, r.0, rules.craft.make, r.1),
        sound(mesh@),
        triangles(mesh@) == triangles_of_all(models(r.1), models(r.1).len()),
{
    let cube = cube_rule(samples, tables, rules);
    let make = rules.craft.make;
    let boxes = choose|boxes: Seq<Aabb3u>| #[trigger]
        chunk_walk(active, boxes) && exists|parts: Seq<Mesh3D<P, U>>| #[trigger]
            chunk_surfaces(cube, active, boxes, make, parts) && merged_list(
                models(parts),
                parts.len(),
            ) == Ok::<MeshModel<P, U>, MeshError>(mesh@);
    let parts = choose|parts: Seq<Mesh3D<P, U>>| #[trigger]
        chunk_surfaces(cube, active, boxes, make, parts) && merged_list(
            models(parts),
            parts.len(),
        ) == Ok::<MeshModel<P, U>, MeshError>(mesh@);
    let list = models(parts);
    assert forall|i: int| 0 <= i < list.len() implies sound(#[trigger] list[i]) by {
        assert(chunk_surface(
            cube,
            active,
            boxes[i],
            make,
            Ok::<Mesh3D<P, U>, BuildError<E>>(parts[i]),
        ));
        lemma_chunk_sound(samples, active, boxes[i], tables, rules, parts[i]);
    }
    law_merged_list_triangles(list, list.len());
    (boxes, parts)
}

/// Triangles of a mesh are among those of a list with the mesh.
proof fn lemma_among_all<P, U>(list: Seq<MeshModel<P, U>>, n: nat, i: int, f: int)
    requires
        n <= list.len(),
        0 <= i < n,
        0 <= f < list[i].indices.len(),
    ensures
        triangles_of_all(list, n).contains(triangle(list[i], f)),
    decreases n,
{
    let before = triangles_of_all(list, (n - 1) as nat);
    let all = triangles_of_all(list, n);
    if i < n - 1 {
        lemma_among_all(list, (n - 1) as nat, i, f);
        let g = choose|g: int| 0 <= g < before.len() && before[g] == triangle(list[i], f);
        assert(all[g] == triangle(list[i], f));
    } else {
        assert(all[before.len() + f] == triangles(list[n - 1])[f]);
    }
}

/// Each triangle of a list of meshes is one of a mesh of the list.
proof fn lemma_from_some<P, U>(list: Seq<MeshModel<P, U>>, n: nat, g: int) -> (r: (int, int))
    requires
        n <= list.len(),
        0 <= g < triangles_of_all(list, n).len(),
    ensures
        0 <= r.0 < n,
        0 <= r.1 < list[r.0].indices.len(),
        triangles_of_all(list, n)[g] == triangle(list[r.0], r.1),
    decreases n,
{
    let before = triangles_of_all(list, (n - 1) as nat);
    if g < before.len() {
        lemma_from_some(list, (n - 1) as nat, g)
    } else {
        assert(triangles_of_all(list, n)[g] == triangles(list[n - 1])[g - before.len()]);
        (n - 1, g - before.len())
    }
}

/// A marked point lies in the box of a stored chunk.
proof fn lemma_chunk_of(active: SparseGrid3<Present>, anchor: UVec3)
    requires
        active.wf(),
        active.at(anchor) is Some,
    ensures
        active.allocated(key_of(anchor)),
        chunk_box(key_of(anchor), active.limits()).has(anchor),
        !chunk_box(key_of(anchor), active.limits()).vacant(),
{
    let key = key_of(anchor);
    active.lemma_cell_allocated(key, cell_of(anchor));
    assert(inside(anchor, active.limits()));
    lemma_position_decomposes(anchor);
    lemma_axis_origin(key.x);
    lemma_axis_origin(key.y);
    lemma_axis_origin(key.z);
    assert(chunk_box(key, active.limits()).has(anchor));
}

/// The surface of a level shows every triangle that the tables list for every active cube: a
/// triangle whose corners are the vertices on the three listed edges. Only triangles with two
/// equal corners and flat ones are left out.
pub proof fn law_surface_shows_every_triangle<T: Copy + PartialEq, P, U, E>(
    samples: SparseGrid3<T>,
    active: SparseGrid3<Present>,
    tables: Tables,
    rules: Rules<T, (P, U), E>,
    mesh: Mesh3D<P, U>,
    anchor: UVec3,
    tiling: Tiling,
    i: int,
)
    requires
        tables.wf(),
        active.wf(),
        level_surface(
            cube_rule(samples, tables, rules),
            active,
            rules.craft.make,
            Ok::<Mesh3D<P, U>, LevelError<BuildError<E>>>(mesh),
        ),
        active.at(anchor) is Some,
        cube_resolution(samples, anchor, tables, rules) == Resolution::Found(tiling),
        proper_triangle(tables, tiling, anchor, i, rules.craft),
    ensures
        mesh_shows_listed(mesh@, tables, tiling, anchor, i, rules.craft.make),
{
    let make = rules.craft.make;
    let (boxes, parts) = lemma_level_parts(samples, active, tables, rules, mesh);
    lemma_chunk_of(active, anchor);
    let home = chunk_box(key_of(anchor), active.limits());
    assert(boxes.contains(home));
    let n = choose|n: int| 0 <= n < boxes.len() && boxes[n] == home;
    assert(chunk_surface(
        cube_rule(samples, tables, rules),
        active,
        boxes[n],
        make,
        Ok::<Mesh3D<P, U>, BuildError<E>>(parts[n]),
    ));
    lemma_chunk_shows(samples, active, boxes[n], tables, rules, parts[n], anchor, tiling, i);
    let (a, b, c) = (
        make(list_corner(tables, tiling, anchor, i, 0))->Ok_0,
        make(list_corner(tables, tiling, anchor, i, 1))->Ok_0,
        make(list_corner(tables, tiling, anchor, i, 2))->Ok_0,
    );
    let list = models(parts);
    let f = choose|f: int|
        0 <= f < list[n].indices.len() && corners_are(#[trigger] triangle(list[n], f), a, b, c);
    lemma_among_all(list, list.len(), n, f);
    let all = triangles(mesh@);
    let g = choose|g: int| 0 <= g < all.len() && all[g] == triangle(list[n], f);
    assert(all[g] == triangle(mesh@, g));
    assert(corners_are(triangle(mesh@, g), a, b, c));
}

/// The surface of a level shows nothing else: each of its triangles is one that the tables list
/// for an active cube, wound to face the smaller samples.
pub proof fn law_surface_shows_nothing_else<T: Copy + PartialEq, P, U, E>(
    samples: SparseGrid3<T>,
    active: SparseGrid3<Present>,
    tables: Tables,
    rules: Rules<T, (P, U), E>,
    mesh: Mesh3D<P, U>,
    f: int,
)
    requires
        tables.wf(),
        level_surface(
            cube_rule(samples, tables, rules),
            active,
            rules.craft.make,
            Ok::<Mesh3D<P, U>, LevelError<BuildError<E>>>(mesh),
        ),
        0 <= f < mesh@.indices.len(),
    ensures
        exists|anchor: UVec3, tiling: Tiling, i: int| #[trigger]
            from_cube(triangle(mesh@, f), active, samples, tables, rules, anchor, tiling, i),
{
    let (boxes, parts) = lemma_level_parts(samples, active, tables, rules, mesh);
    let list = models(parts);
    assert(triangles(mesh@)[f] == triangle(mesh@, f));
    let (n, g) = lemma_from_some(list, list.len(), f);
    assert(chunk_surface(
        cube_rule(samples, tables, rules),
        active,
        boxes[n],
        rules.craft.make,
        Ok::<Mesh3D<P, U>, BuildError<E>>(parts[n]),
    ));
    let (anchor, tiling, i) = lemma_chunk_shows_only(
        samples,
        active,
        boxes[n],
        tables,
        rules,
        parts[n],
        g,
    );
    assert(from_cube(triangle(mesh@, f), active, samples, tables, rules, anchor, tiling, i));
}

} // verus!
