//! Slices: which triangles show a layer of cubes, and which layer a plane cuts.

use vstd::prelude::*;

use crate::isosurface::mesh::Mesh3D;
use crate::isosurface::mesher::{corners_below, lemma_seated, seated, BuildError, Maker, VertexKey};
use crate::slice::{
    above, anchor_layer, law_slice_faces, layer_walk, quad_keys, quad_points, sliced, well_formed,
    with_anchors, with_quad, QuadState, SliceAxis, SliceSampleError,
};
use crate::slice::plane::{missing_point, pairs_at};
use crate::utility::sparse_grid3::grid::{inside, SparseGrid3};
use crate::utility::sparse_grid3::value::Present;
use crate::vec3::UVec3;

verus! {

/// The corners of face `f` of a mesh are the vertices of three lattice points, in this order.
pub open spec fn face_shows<P, U, E>(
    mesh: Mesh3D<P, U>,
    make: Maker<(P, U), E>,
    f: int,
    a: UVec3,
    b: UVec3,
    c: UVec3,
) -> bool {
    let face = mesh.indices@[f];
    &&& 0 <= f < mesh.indices@.len()
    &&& make(VertexKey::Grid(a)) == Ok::<(P, U), E>(
        (mesh.positions@[face@[0] as int], mesh.uv@[face@[0] as int]),
    )
    &&& make(VertexKey::Grid(b)) == Ok::<(P, U), E>(
        (mesh.positions@[face@[1] as int], mesh.uv@[face@[1] as int]),
    )
    &&& make(VertexKey::Grid(c)) == Ok::<(P, U), E>(
        (mesh.positions@[face@[2] as int], mesh.uv@[face@[2] as int]),
    )
}

/// Two faces in a row show the two halves of a quadrilateral.
pub open spec fn quad_shown<P, U, E>(
    mesh: Mesh3D<P, U>,
    make: Maker<(P, U), E>,
    f: int,
    a: UVec3,
    b: UVec3,
    c: UVec3,
    d: UVec3,
) -> bool {
    face_shows(mesh, make, f, a, b, c) && face_shows(mesh, make, f + 1, a, c, d)
}

/// Faces `f` and `f + 1` show the lower side of the cube anchored at `p`, across the axis.
pub open spec fn side_shown<P, U, E>(
    mesh: Mesh3D<P, U>,
    make: Maker<(P, U), E>,
    f: int,
    axis: SliceAxis,
    p: UVec3,
) -> bool {
    let (x, y, z) = (p.x, p.y, p.z);
    let (x1, y1, z1) = ((p.x + 1) as u32, (p.y + 1) as u32, (p.z + 1) as u32);
    match axis {
        SliceAxis::X => quad_shown(
            mesh,
            make,
            f,
            UVec3 { x, y, z },
            UVec3 { x, y, z: z1 },
            UVec3 { x, y: y1, z: z1 },
            UVec3 { x, y: y1, z },
        ),
        SliceAxis::Y => quad_shown(
            mesh,
            make,
            f,
            UVec3 { x, y, z },
            UVec3 { x: x1, y, z },
            UVec3 { x: x1, y, z: z1 },
            UVec3 { x, y, z: z1 },
        ),
        SliceAxis::Z => quad_shown(
            mesh,
            make,
            f,
            UVec3 { x, y, z },
            UVec3 { x, y: y1, z },
            UVec3 { x: x1, y: y1, z },
            UVec3 { x: x1, y, z },
        ),
    }
}

/// The coordinate of a lattice point across the slice.
pub open spec fn depth(p: UVec3, axis: SliceAxis) -> u32 {
    match axis {
        SliceAxis::X => p.x,
        SliceAxis::Y => p.y,
        SliceAxis::Z => p.z,
    }
}

/// Faces `f` and `f + 1` of a slice under construction are the halves of a quadrilateral.
#[verifier::opaque]
spec fn quad_listed(s: QuadState, f: int, c: Seq<UVec3>) -> bool {
    &&& 0 <= f
    &&& f + 1 < s.faces.len()
    &&& s.keys[s.faces[f]@[0] as int] == VertexKey::Grid(c[0])
    &&& s.keys[s.faces[f]@[1] as int] == VertexKey::Grid(c[1])
    &&& s.keys[s.faces[f]@[2] as int] == VertexKey::Grid(c[2])
    &&& s.keys[s.faces[f + 1]@[0] as int] == VertexKey::Grid(c[0])
    &&& s.keys[s.faces[f + 1]@[1] as int] == VertexKey::Grid(c[2])
    &&& s.keys[s.faces[f + 1]@[2] as int] == VertexKey::Grid(c[3])
}

/// Faces `2 * h` and `2 * h + 1` are the side of one of the first `n` cubes, in the layer.
spec fn pair_listed(
    s: QuadState,
    anchors: Seq<UVec3>,
    n: nat,
    axis: SliceAxis,
    layer: u32,
    h: int,
) -> bool {
    exists|a: int|
        0 <= a < n && depth(anchors[a], axis) == layer && #[trigger] quad_listed(
            s,
            2 * h,
            quad_points(axis, anchors[a]),
        )
}

/// A quadrilateral is listed after the others, which stay.
proof fn lemma_quad_listed<V, E>(s: QuadState, c: Seq<UVec3>, make: Maker<V, E>)
    requires
        s.keys.no_duplicates(),
        c.len() == 4,
    ensures
        with_quad(s, c, make) matches Ok(t) ==> {
            &&& t.faces.len() == s.faces.len() + 2
            &&& t.keys.len() <= 0x1_0000_0000 ==> quad_listed(t, s.faces.len() as int, c)
            &&& s.keys.len() <= t.keys.len()
            &&& forall|i: int| 0 <= i < s.keys.len() ==> #[trigger] t.keys[i] == s.keys[i]
            &&& forall|f: int| 0 <= f < s.faces.len() ==> #[trigger] t.faces[f] == s.faces[f]
        },
{
    reveal(quad_listed);
    reveal_with_fuel(quad_keys, 5);
    let (a, b, d, e) = (
        VertexKey::Grid(c[0]),
        VertexKey::Grid(c[1]),
        VertexKey::Grid(c[2]),
        VertexKey::Grid(c[3]),
    );
    let k1 = seated(s.keys, a);
    let k2 = seated(k1, b);
    let k3 = seated(k2, d);
    let k4 = seated(k3, e);
    lemma_seated(s.keys, a);
    lemma_seated(k1, b);
    lemma_seated(k2, d);
    lemma_seated(k3, e);
    assert(k2.contains(a) && k2.contains(b));
    assert(k3.contains(a) && k3.contains(b) && k3.contains(d));
    assert(k4.contains(a) && k4.contains(b) && k4.contains(d) && k4.contains(e));
    assert forall|i: int| 0 <= i < s.keys.len() implies #[trigger] k4[i] == s.keys[i] by {
        assert(k1[i] == s.keys[i]);
        assert(k2[i] == k1[i]);
        assert(k3[i] == k2[i]);
        assert(k4[i] == k3[i]);
    }
}

/// A quadrilateral stays listed when vertices and faces are appended.
proof fn lemma_quad_stays(s: QuadState, t: QuadState, f: int, d: Seq<UVec3>)
    requires
        well_formed(s),
        quad_listed(s, f, d),
        s.keys.len() <= t.keys.len(),
        s.faces.len() <= t.faces.len(),
        forall|i: int| 0 <= i < s.keys.len() ==> #[trigger] t.keys[i] == s.keys[i],
        forall|g: int| 0 <= g < s.faces.len() ==> #[trigger] t.faces[g] == s.faces[g],
    ensures
        quad_listed(t, f, d),
{
    reveal(quad_listed);
    assert(t.faces[f] == s.faces[f] && t.faces[f + 1] == s.faces[f + 1]);
    assert(corners_below(s.faces[f], s.keys.len()));
    assert(corners_below(s.faces[f + 1], s.keys.len()));
}

/// The sides of the cubes of the layer are listed in walk order.
proof fn lemma_sides_listed<V, E>(
    active: SparseGrid3<Present>,
    anchors: Seq<UVec3>,
    n: nat,
    axis: SliceAxis,
    layer: u32,
    make: Maker<V, E>,
)
    requires
        n <= anchors.len(),
        layer_walk(active, anchors),
    ensures
        with_anchors(anchors, n, axis, layer, make) matches Ok(s) ==> {
            &&& forall|a: int|
                0 <= a < n && depth(#[trigger] anchors[a], axis) == layer ==> exists|f: int|
                    #[trigger] quad_listed(s, f, quad_points(axis, anchors[a]))
            &&& s.faces.len() % 2 == 0
            &&& forall|h: int|
                0 <= h < s.faces.len() / 2 ==> #[trigger] pair_listed(s, anchors, n, axis, layer, h)
        },
    decreases n,
{
    if n > 0 {
        let m = (n - 1) as nat;
        lemma_sides_listed(active, anchors, m, axis, layer, make);
        law_slice_faces(active, anchors, m, axis, layer, make);
        law_slice_faces(active, anchors, n, axis, layer, make);
        if with_anchors(anchors, n, axis, layer, make) is Ok {
            let s = with_anchors(anchors, m, axis, layer, make)->Ok_0;
            let t = with_anchors(anchors, n, axis, layer, make)->Ok_0;
            let p = anchors[n - 1];
            let c = quad_points(axis, p);
            if depth(p, axis) == layer {
                lemma_quad_listed(s, c, make);
                assert forall|f: int, d: Seq<UVec3>| #[trigger] quad_listed(s, f, d) implies quad_listed(
                    t,
                    f,
                    d,
                ) by {
                    lemma_quad_stays(s, t, f, d);
                }
                assert(quad_listed(t, s.faces.len() as int, c));
                assert forall|a: int| 0 <= a < n && depth(#[trigger] anchors[a], axis)
                    == layer implies exists|f: int| #[trigger]
                    quad_listed(t, f, quad_points(axis, anchors[a])) by {
                    if a < m {
                        let f = choose|f: int| #[trigger]
                            quad_listed(s, f, quad_points(axis, anchors[a]));
                        assert(quad_listed(t, f, quad_points(axis, anchors[a])));
                    }
                }
                assert forall|h: int| 0 <= h < t.faces.len() / 2 implies #[trigger] pair_listed(
                    t,
                    anchors,
                    n,
                    axis,
                    layer,
                    h,
                ) by {
                    if h < s.faces.len() / 2 {
                        assert(pair_listed(s, anchors, m, axis, layer, h));
                        let a = choose|a: int|
                            0 <= a < m && depth(anchors[a], axis) == layer
                                && #[trigger] quad_listed(s, 2 * h, quad_points(axis, anchors[a]));
                        assert(depth(anchors[a], axis) == layer);
                        assert(quad_listed(t, 2 * h, quad_points(axis, anchors[a])));
                    } else {
                        assert(2 * h == s.faces.len());
                        assert(depth(anchors[n - 1], axis) == layer);
                        assert(quad_listed(t, 2 * h, quad_points(axis, anchors[n - 1])));
                    }
                }
            } else {
                assert forall|h: int| 0 <= h < t.faces.len() / 2 implies #[trigger] pair_listed(
                    t,
                    anchors,
                    n,
                    axis,
                    layer,
                    h,
                ) by {
                    assert(pair_listed(s, anchors, m, axis, layer, h));
                }
            }
        }
    }
}

/// A listed quadrilateral is shown by the mesh.
proof fn lemma_shown<P, U, E>(
    active: SparseGrid3<Present>,
    anchors: Seq<UVec3>,
    axis: SliceAxis,
    layer: u32,
    make: Maker<(P, U), E>,
    mesh: Mesh3D<P, U>,
    f: int,
    p: UVec3,
)
    requires
        layer_walk(active, anchors),
        sliced(anchors, axis, layer, make, Ok::<Mesh3D<P, U>, BuildError<E>>(mesh)),
        active.at(p) is Some,
        quad_listed(
            with_anchors(anchors, anchors.len(), axis, layer, make)->Ok_0,
            f,
            quad_points(axis, p),
        ),
    ensures
        side_shown(mesh, make, f, axis, p),
{
    reveal(quad_listed);
    let s = with_anchors(anchors, anchors.len(), axis, layer, make)->Ok_0;
    law_slice_faces(active, anchors, anchors.len(), axis, layer, make);
    assert(corners_below(s.faces[f], s.keys.len()));
    assert(corners_below(s.faces[f + 1], s.keys.len()));
    assert(inside(p, active.limits()));
}

/// A slice shows the lower side of every active cube of its layer, as two triangles that share
/// a diagonal and together cover the side.
pub proof fn law_slice_shows_layer<P, U, E>(
    active: SparseGrid3<Present>,
    anchors: Seq<UVec3>,
    axis: SliceAxis,
    layer: u32,
    make: Maker<(P, U), E>,
    mesh: Mesh3D<P, U>,
    p: UVec3,
)
    requires
        layer_walk(active, anchors),
        sliced(anchors, axis, layer, make, Ok::<Mesh3D<P, U>, BuildError<E>>(mesh)),
        active.at(p) is Some,
        depth(p, axis) == layer,
    ensures
        exists|f: int| #[trigger] side_shown(mesh, make, f, axis, p),
{
    lemma_sides_listed(active, anchors, anchors.len(), axis, layer, make);
    assert(anchors.contains(p));
    let a = choose|a: int| 0 <= a < anchors.len() && anchors[a] == p;
    assert(depth(anchors[a], axis) == layer);
    let s = with_anchors(anchors, anchors.len(), axis, layer, make)->Ok_0;
    let f = choose|f: int| #[trigger] quad_listed(s, f, quad_points(axis, anchors[a]));
    lemma_shown(active, anchors, axis, layer, make, mesh, f, p);
}

/// A slice shows nothing else: its triangles come in pairs, and every pair is the side of an
/// active cube of the layer.
pub proof fn law_slice_shows_only_layer<P, U, E>(
    active: SparseGrid3<Present>,
    anchors: Seq<UVec3>,
    axis: SliceAxis,
    layer: u32,
    make: Maker<(P, U), E>,
    mesh: Mesh3D<P, U>,
    h: int,
)
    requires
        layer_walk(active, anchors),
        sliced(anchors, axis, layer, make, Ok::<Mesh3D<P, U>, BuildError<E>>(mesh)),
        0 <= 2 * h < mesh.indices@.len(),
    ensures
        exists|p: UVec3|
            active.at(p) is Some && depth(p, axis) == layer && #[trigger] side_shown(
                mesh,
                make,
                2 * h,
                axis,
                p,
            ),
{
    lemma_sides_listed(active, anchors, anchors.len(), axis, layer, make);
    let s = with_anchors(anchors, anchors.len(), axis, layer, make)->Ok_0;
    assert(pair_listed(s, anchors, anchors.len(), axis, layer, h));
    let a = choose|a: int|
        0 <= a < anchors.len() && depth(anchors[a], axis) == layer && #[trigger] quad_listed(
            s,
            2 * h,
            quad_points(axis, anchors[a]),
        );
    assert(active.at(anchors[a]) is Some);
    lemma_shown(active, anchors, axis, layer, make, mesh, 2 * h, anchors[a]);
    assert(side_shown(mesh, make, 2 * h, axis, anchors[a]));
}

/// Vertices are shared: two vertices of a slice are never the vertex of the same lattice point,
/// and every vertex is a corner of a triangle's lattice point.
pub proof fn law_slice_shares_vertices<V, E>(
    active: SparseGrid3<Present>,
    anchors: Seq<UVec3>,
    axis: SliceAxis,
    layer: u32,
    make: Maker<V, E>,
    i: int,
    j: int,
)
    requires
        layer_walk(active, anchors),
        with_anchors(anchors, anchors.len(), axis, layer, make) is Ok,
        0 <= i < j < with_anchors(anchors, anchors.len(), axis, layer, make)->Ok_0.keys.len(),
    ensures
        ({
            let s = with_anchors(anchors, anchors.len(), axis, layer, make)->Ok_0;
            s.keys[i] != s.keys[j]
        }),
{
    law_slice_faces(active, anchors, anchors.len(), axis, layer, make);
}

/// A plane cuts the cubes between the layer of samples at or below it and the next one. A plane
/// on a layer of samples, other than the first one, cuts the cubes below that layer, at their
/// upper end. There are no cubes before the first layer or from the bound on.
pub proof fn law_cut_layer(lower: i64, on_layer: bool, bound: u32, layer: u32, at_end: bool)
    ensures
        anchor_layer(lower, on_layer, bound) == Some((layer, at_end)) <==> {
            &&& layer < bound
            &&& lower == layer + if at_end { 1int } else { 0 }
            &&& at_end == (on_layer && lower > 0)
        },
        anchor_layer(lower, on_layer, bound) is None <==> {
            ||| lower < 0
            ||| lower > bound
            ||| lower == bound && !(on_layer && lower > 0)
        },
{
}

/// At a lattice point of the layer a quantity is sampled at the point and at the next point
/// along the axis; a missing sample is reported by its point.
pub proof fn law_slice_samples<T: Copy + PartialEq>(
    grids: Seq<SparseGrid3<T>>,
    axis: SliceAxis,
    p: UVec3,
    q: UVec3,
)
    requires
        depth(p, axis) < u32::MAX,
        q == (match axis {
            SliceAxis::X => UVec3 { x: (p.x + 1) as u32, y: p.y, z: p.z },
            SliceAxis::Y => UVec3 { x: p.x, y: (p.y + 1) as u32, z: p.z },
            SliceAxis::Z => UVec3 { x: p.x, y: p.y, z: (p.z + 1) as u32 },
        }),
    ensures
        match pairs_at(grids, axis, p) {
            Ok(pairs) => pairs.len() == grids.len() && forall|i: int|
                0 <= i < grids.len() ==> grids[i].at(p) == Some((#[trigger] pairs[i]).0)
                    && grids[i].at(q) == Some(pairs[i].1),
            Err(SliceSampleError::Missing(r)) => (r == p || r == q) && exists|i: int|
                0 <= i < grids.len() && (#[trigger] grids[i]).at(r) is None,
            Err(SliceSampleError::CoordinateOverflow) => false,
        },
        (forall|i: int|
            0 <= i < grids.len() ==> (#[trigger] grids[i]).at(p) is Some && grids[i].at(q) is Some)
            ==> pairs_at(grids, axis, p) is Ok,
{
    assert(above(p, axis) == q);
    lemma_missing(grids, axis, p, q, grids.len());
}

/// What is missing.
proof fn lemma_missing<T: Copy + PartialEq>(
    grids: Seq<SparseGrid3<T>>,
    axis: SliceAxis,
    p: UVec3,
    q: UVec3,
    n: nat,
)
    requires
        n <= grids.len(),
        above(p, axis) == q,
    ensures
        match missing_point(grids, axis, p, n) {
            None => forall|i: int|
                0 <= i < n ==> (#[trigger] grids[i]).at(p) is Some && grids[i].at(q) is Some,
            Some(r) => (r == p || r == q) && exists|i: int|
                0 <= i < n && (#[trigger] grids[i]).at(r) is None,
        },
    decreases n,
{
    if n > 0 {
        lemma_missing(grids, axis, p, q, (n - 1) as nat);
        if missing_point(grids, axis, p, (n - 1) as nat) is None {
            assert(grids[n - 1].at(p) is None || grids[n - 1].at(q) is None || grids[n - 1].at(
                p,
            ) is Some);
        }
    }
}

/// The triangles of a slice face towards lower coordinates: twice the area vector of the lattice
/// points `a`, `b` and `c` of a half of a side is `-1` along the axis and `0` across it.
pub proof fn law_slice_faces_down(axis: SliceAxis, p: UVec3)
    requires
        p.x < u32::MAX,
        p.y < u32::MAX,
        p.z < u32::MAX,
    ensures
        ({
            let c = quad_points(axis, p);
            let along_axis = |u: (int, int, int), v: (int, int, int)|
                match axis {
                    SliceAxis::X => u.1 * v.2 - u.2 * v.1,
                    SliceAxis::Y => u.2 * v.0 - u.0 * v.2,
                    SliceAxis::Z => u.0 * v.1 - u.1 * v.0,
                };
            let away = |a: UVec3, b: UVec3| (b.x - a.x, b.y - a.y, b.z - a.z);
            &&& c.len() == 4
            &&& forall|i: int| 0 <= i < 4 ==> depth(#[trigger] c[i], axis) == depth(p, axis)
            &&& along_axis(away(c[0], c[1]), away(c[0], c[2])) == -1
            &&& along_axis(away(c[0], c[2]), away(c[0], c[3])) == -1
        }),
{
    let c = quad_points(axis, p);
    let (x1, y1, z1) = ((p.x + 1) as u32, (p.y + 1) as u32, (p.z + 1) as u32);
    assert(1int * 1 == 1 && 0int * 1 == 0 && 0int * 0 == 0 && 1int * 0 == 0);
}

} // verus!
