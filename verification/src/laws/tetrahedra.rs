//! Surfaces by marching tetrahedra: the triangles of a cube.

use vstd::prelude::*;

use crate::isosurface::mesher::{
    triangle_steps, well_built, BuildError, Craft, FaceVerdict, MeshState, Step, VertexKey,
};
use crate::isosurface::rmt::{
    cube_corner, cube_steps, edge_key, first_missing, lemma_cube_grounded, quad_steps, sampled,
    tetrahedron_flags, tetrahedron_points, tetrahedron_steps, those, with_cube, EdgeSpot, Rules,
    Spotter,
};
use crate::laws::surfaces::{stepped_from, value_at};
use crate::laws::triangles::{
    asked_for, extends, has_face, keys_of, lemma_steps_faces, verdict_on, wanted_face,
};
use crate::utility::sparse_grid3::grid::SparseGrid3;
use crate::vec3::UVec3;

verus! {

/// Corner `m` of tetrahedron `k`: the first corner is the anchor, the last one the opposite
/// corner of the cube, and each tetrahedron walks from one to the other along the three axes in
/// its own order.
#[verifier::opaque]
pub open spec fn tetrahedron_corner(anchor: UVec3, k: int, m: int) -> UVec3 {
    if m == 0 {
        stepped_from(anchor, 0, 0, 0)
    } else if m == 3 {
        stepped_from(anchor, 1, 1, 1)
    } else if k == 0 {
        if m == 1 {
            stepped_from(anchor, 1, 0, 0)
        } else {
            stepped_from(anchor, 1, 1, 0)
        }
    } else if k == 1 {
        if m == 1 {
            stepped_from(anchor, 1, 1, 0)
        } else {
            stepped_from(anchor, 0, 1, 0)
        }
    } else if k == 2 {
        if m == 1 {
            stepped_from(anchor, 0, 1, 0)
        } else {
            stepped_from(anchor, 0, 1, 1)
        }
    } else if k == 3 {
        if m == 1 {
            stepped_from(anchor, 0, 1, 1)
        } else {
            stepped_from(anchor, 0, 0, 1)
        }
    } else if k == 4 {
        if m == 1 {
            stepped_from(anchor, 0, 0, 1)
        } else {
            stepped_from(anchor, 1, 0, 1)
        }
    } else {
        if m == 1 {
            stepped_from(anchor, 1, 0, 1)
        } else {
            stepped_from(anchor, 1, 0, 0)
        }
    }
}

/// The vertex on the edge between two lattice points, from the one that comes first by x, then
/// y, then z to the other; or, close to an end, the end itself.
#[verifier::opaque]
pub open spec fn cut_vertex<T: Copy + PartialEq>(
    samples: SparseGrid3<T>,
    spot: Spotter<T>,
    a: UVec3,
    b: UVec3,
) -> VertexKey {
    let first = a.x < b.x || (a.x == b.x && (a.y < b.y || (a.y == b.y && a.z <= b.z)));
    let (start, end) = if first {
        (a, b)
    } else {
        (b, a)
    };
    match spot(value_at(samples, start), value_at(samples, end)) {
        EdgeSpot::Start => VertexKey::Grid(start),
        EdgeSpot::Middle => VertexKey::Edge(start, end),
        EdgeSpot::End => VertexKey::Grid(end),
    }
}

/// The mesh has a face between three vertices, unless two of them are the same or it is flat.
pub open spec fn face_shown<V, E>(
    t: MeshState,
    craft: Craft<V, E>,
    a: VertexKey,
    b: VertexKey,
    c: VertexKey,
    inside: UVec3,
) -> bool {
    a != b && b != c && c != a && verdict_on(craft, a, b, c, inside) != FaceVerdict::Flat
        ==> has_face(t, a, b, c)
}

proof fn lemma_points<T: Copy + PartialEq>(
    samples: SparseGrid3<T>,
    above: spec_fn(T) -> bool,
    anchor: UVec3,
    k: int,
    m: int,
)
    requires
        0 <= k < 6,
        0 <= m < 4,
        anchor.x < u32::MAX,
        anchor.y < u32::MAX,
        anchor.z < u32::MAX,
    ensures
        tetrahedron_points(anchor, k)[m] == tetrahedron_corner(anchor, k, m),
        tetrahedron_flags(samples, above, anchor, k)[m] == above(
            value_at(samples, tetrahedron_corner(anchor, k, m)),
        ),
{
    reveal(tetrahedron_corner);
    assert(k == 0 || k == 1 || k == 2 || k == 3 || k == 4 || k == 5);
    assert(m == 0 || m == 1 || m == 2 || m == 3);
}

proof fn lemma_lone(flags: Seq<bool>, lone: int, x: int, y: int, z: int)
    requires
        flags.len() == 4,
        0 <= lone < 4,
        0 <= x < y,
        y < z < 4,
        lone != x && lone != y && lone != z,
        flags[x] == flags[y] && flags[y] == flags[z] && flags[lone] != flags[x],
    ensures
        those(flags, flags[lone], 4) == seq![lone],
        those(flags, !flags[lone], 4) == seq![x, y, z],
{
    reveal_with_fuel(those, 5);
    assert((lone == 0 && x == 1 && y == 2 && z == 3) || (lone == 1 && x == 0 && y == 2 && z == 3)
        || (lone == 2 && x == 0 && y == 1 && z == 3) || (lone == 3 && x == 0 && y == 1 && z == 2));
    assert(those(flags, flags[lone], 4) =~= seq![lone]);
    assert(those(flags, !flags[lone], 4) =~= seq![x, y, z]);
}

proof fn lemma_pairs(flags: Seq<bool>, i0: int, i1: int, o0: int, o1: int)
    requires
        flags.len() == 4,
        0 <= i0 < i1,
        i1 < 4,
        0 <= o0 < o1,
        o1 < 4,
        flags[i0] && flags[i1] && !flags[o0] && !flags[o1],
    ensures
        those(flags, true, 4) == seq![i0, i1],
        those(flags, false, 4) == seq![o0, o1],
{
    reveal_with_fuel(those, 5);
    assert(those(flags, true, 4) =~= seq![i0, i1]);
    assert(those(flags, false, 4) =~= seq![o0, o1]);
}

proof fn lemma_cut_vertex<T: Copy + PartialEq>(
    samples: SparseGrid3<T>,
    spot: Spotter<T>,
    a: UVec3,
    b: UVec3,
)
    ensures
        edge_key(samples, spot, a, b) == cut_vertex(samples, spot, a, b),
{
    reveal(cut_vertex);
}

proof fn lemma_lone_step<T: Copy + PartialEq>(
    samples: SparseGrid3<T>,
    spot: Spotter<T>,
    points: Seq<UVec3>,
    flags: Seq<bool>,
    lone: int,
    x: int,
    y: int,
    z: int,
)
    requires
        points.len() == 4,
        flags.len() == 4,
        0 <= lone < 4,
        0 <= x < y,
        y < z < 4,
        lone != x && lone != y && lone != z,
        flags[x] == flags[y] && flags[y] == flags[z] && flags[lone] != flags[x],
    ensures
        tetrahedron_steps(samples, spot, points, flags).len() == 4,
        tetrahedron_steps(samples, spot, points, flags)[3] == Step::Face(
            cut_vertex(samples, spot, points[lone], points[x]),
            cut_vertex(samples, spot, points[lone], points[y]),
            cut_vertex(samples, spot, points[lone], points[z]),
            if flags[lone] {
                points[lone]
            } else {
                points[x]
            },
        ),
{
    lemma_lone(flags, lone, x, y, z);
    lemma_cut_vertex(samples, spot, points[lone], points[x]);
    lemma_cut_vertex(samples, spot, points[lone], points[y]);
    lemma_cut_vertex(samples, spot, points[lone], points[z]);
}

#[verifier::spinoff_prover]
#[verifier::rlimit(40)]
proof fn lemma_pair_steps<T: Copy + PartialEq>(
    samples: SparseGrid3<T>,
    spot: Spotter<T>,
    points: Seq<UVec3>,
    flags: Seq<bool>,
    i0: int,
    i1: int,
    o0: int,
    o1: int,
)
    requires
        points.len() == 4,
        flags.len() == 4,
        0 <= i0 < i1,
        i1 < 4,
        0 <= o0 < o1,
        o1 < 4,
        flags[i0] && flags[i1] && !flags[o0] && !flags[o1],
    ensures
        tetrahedron_steps(samples, spot, points, flags).len() == 6,
        tetrahedron_steps(samples, spot, points, flags)[4] == Step::Face(
            cut_vertex(samples, spot, points[i0], points[o0]),
            cut_vertex(samples, spot, points[i0], points[o1]),
            cut_vertex(samples, spot, points[i1], points[o1]),
            points[i0],
        ),
        tetrahedron_steps(samples, spot, points, flags)[5] == Step::Face(
            cut_vertex(samples, spot, points[i0], points[o0]),
            cut_vertex(samples, spot, points[i1], points[o1]),
            cut_vertex(samples, spot, points[i1], points[o0]),
            points[i0],
        ),
{
    lemma_pairs(flags, i0, i1, o0, o1);
    let p00 = edge_key(samples, spot, points[i0], points[o0]);
    let p01 = edge_key(samples, spot, points[i0], points[o1]);
    let p10 = edge_key(samples, spot, points[i1], points[o0]);
    let p11 = edge_key(samples, spot, points[i1], points[o1]);
    assert(tetrahedron_steps(samples, spot, points, flags) == quad_steps(
        p00,
        p01,
        p10,
        p11,
        points[i0],
    ));
    lemma_cut_vertex(samples, spot, points[i0], points[o0]);
    lemma_cut_vertex(samples, spot, points[i0], points[o1]);
    lemma_cut_vertex(samples, spot, points[i1], points[o0]);
    lemma_cut_vertex(samples, spot, points[i1], points[o1]);
}

/// The steps of tetrahedron `k` are among those of the cube.
proof fn lemma_part_of_cube<T: Copy + PartialEq>(
    samples: SparseGrid3<T>,
    above: spec_fn(T) -> bool,
    spot: Spotter<T>,
    anchor: UVec3,
    n: nat,
    k: int,
    i: int,
) -> (j: int)
    requires
        0 <= k < n,
        0 <= i < tetrahedron_steps(
            samples,
            spot,
            tetrahedron_points(anchor, k),
            tetrahedron_flags(samples, above, anchor, k),
        ).len(),
    ensures
        0 <= j < cube_steps(samples, above, spot, anchor, n).len(),
        cube_steps(samples, above, spot, anchor, n)[j] == tetrahedron_steps(
            samples,
            spot,
            tetrahedron_points(anchor, k),
            tetrahedron_flags(samples, above, anchor, k),
        )[i],
    decreases n,
{
    let before = cube_steps(samples, above, spot, anchor, (n - 1) as nat);
    if k < n - 1 {
        let j = lemma_part_of_cube(samples, above, spot, anchor, (n - 1) as nat, k, i);
        assert(cube_steps(samples, above, spot, anchor, n)[j] == before[j]);
        j
    } else {
        before.len() + i
    }
}

/// A face that a tetrahedron asks for is there after the cube.
proof fn lemma_asked<T: Copy + PartialEq, V, E>(
    s: MeshState,
    t: MeshState,
    samples: SparseGrid3<T>,
    anchor: UVec3,
    rules: Rules<T, V, E>,
    k: int,
    i: int,
)
    requires
        well_built(s),
        sampled(samples, anchor),
        with_cube(s, samples, anchor, rules) == Ok::<MeshState, BuildError<E>>(t),
        0 <= k < 6,
        0 <= i < tetrahedron_steps(
            samples,
            rules.spot,
            tetrahedron_points(anchor, k),
            tetrahedron_flags(samples, rules.above, anchor, k),
        ).len(),
    ensures
        well_built(t),
        extends(s, t),
        tetrahedron_steps(
            samples,
            rules.spot,
            tetrahedron_points(anchor, k),
            tetrahedron_flags(samples, rules.above, anchor, k),
        )[i] matches Step::Face(a, b, c, inside) ==> face_shown(t, rules.craft, a, b, c, inside),
{
    let list = cube_steps(samples, rules.above, rules.spot, anchor, 6);
    lemma_cube_grounded(samples, rules.above, rules.spot, anchor, 6);
    lemma_steps_faces(s, list, list.len(), rules.craft);
    let j = lemma_part_of_cube(samples, rules.above, rules.spot, anchor, 6, k, i);
    assert(list[j] == list[j]);
}

/// A tetrahedron with one corner on the other side of the surface than the three others shows a
/// triangle between the vertices on the three edges from that corner.
pub proof fn law_one_corner_cut<T: Copy + PartialEq, V, E>(
    s: MeshState,
    t: MeshState,
    samples: SparseGrid3<T>,
    anchor: UVec3,
    rules: Rules<T, V, E>,
    k: int,
    lone: int,
    x: int,
    y: int,
    z: int,
)
    requires
        well_built(s),
        sampled(samples, anchor),
        anchor.x < u32::MAX,
        anchor.y < u32::MAX,
        anchor.z < u32::MAX,
        with_cube(s, samples, anchor, rules) == Ok::<MeshState, BuildError<E>>(t),
        0 <= k < 6,
        0 <= lone < 4,
        0 <= x < y,
        y < z < 4,
        lone != x && lone != y && lone != z,
        ({
            let flag = |m: int|
                (rules.above)(value_at(samples, tetrahedron_corner(anchor, k, m)));
            flag(x) == flag(y) && flag(y) == flag(z) && flag(lone) != flag(x)
        }),
    ensures
        ({
            let p = |m: int| tetrahedron_corner(anchor, k, m);
            let cut = |m: int| cut_vertex(samples, rules.spot, p(lone), p(m));
            let inner = if (rules.above)(value_at(samples, p(lone))) {
                p(lone)
            } else {
                p(x)
            };
            face_shown(t, rules.craft, cut(x), cut(y), cut(z), inner)
        }),
{
    let points = tetrahedron_points(anchor, k);
    let flags = tetrahedron_flags(samples, rules.above, anchor, k);
    lemma_points(samples, rules.above, anchor, k, 0);
    lemma_points(samples, rules.above, anchor, k, 1);
    lemma_points(samples, rules.above, anchor, k, 2);
    lemma_points(samples, rules.above, anchor, k, 3);
    lemma_lone_step(samples, rules.spot, points, flags, lone, x, y, z);
    lemma_asked(s, t, samples, anchor, rules, k, 3);
}

/// A tetrahedron with two corners on either side of the surface shows two triangles that make up
/// the quadrilateral between the vertices on the four edges that cross the surface.
pub proof fn law_two_corners_cut<T: Copy + PartialEq, V, E>(
    s: MeshState,
    t: MeshState,
    samples: SparseGrid3<T>,
    anchor: UVec3,
    rules: Rules<T, V, E>,
    k: int,
    i0: int,
    i1: int,
    o0: int,
    o1: int,
)
    requires
        well_built(s),
        sampled(samples, anchor),
        anchor.x < u32::MAX,
        anchor.y < u32::MAX,
        anchor.z < u32::MAX,
        with_cube(s, samples, anchor, rules) == Ok::<MeshState, BuildError<E>>(t),
        0 <= k < 6,
        0 <= i0 < i1,
        i1 < 4,
        0 <= o0 < o1,
        o1 < 4,
        ({
            let flag = |m: int|
                (rules.above)(value_at(samples, tetrahedron_corner(anchor, k, m)));
            flag(i0) && flag(i1) && !flag(o0) && !flag(o1)
        }),
    ensures
        ({
            let p = |m: int| tetrahedron_corner(anchor, k, m);
            let cut = |i: int, o: int| cut_vertex(samples, rules.spot, p(i), p(o));
            &&& face_shown(t, rules.craft, cut(i0, o0), cut(i0, o1), cut(i1, o1), p(i0))
            &&& face_shown(t, rules.craft, cut(i0, o0), cut(i1, o1), cut(i1, o0), p(i0))
        }),
{
    let points = tetrahedron_points(anchor, k);
    let flags = tetrahedron_flags(samples, rules.above, anchor, k);
    lemma_points(samples, rules.above, anchor, k, 0);
    lemma_points(samples, rules.above, anchor, k, 1);
    lemma_points(samples, rules.above, anchor, k, 2);
    lemma_points(samples, rules.above, anchor, k, 3);
    lemma_pair_steps(samples, rules.spot, points, flags, i0, i1, o0, o1);
    lemma_asked(s, t, samples, anchor, rules, k, 4);
    lemma_asked(s, t, samples, anchor, rules, k, 5);
}

/// `key` is the vertex on an edge of tetrahedron `k` whose ends lie on different sides of the
/// surface.
pub open spec fn on_cut_edge<T: Copy + PartialEq>(
    samples: SparseGrid3<T>,
    above: spec_fn(T) -> bool,
    spot: Spotter<T>,
    anchor: UVec3,
    k: int,
    key: VertexKey,
) -> bool {
    exists|m: int, n: int|
        0 <= m < 4 && 0 <= n < 4 && above(
            value_at(samples, #[trigger] tetrahedron_corner(anchor, k, m)),
        ) != above(value_at(samples, #[trigger] tetrahedron_corner(anchor, k, n))) && key
            == cut_vertex(
            samples,
            spot,
            tetrahedron_corner(anchor, k, m),
            tetrahedron_corner(anchor, k, n),
        )
}

/// The numbers with a flag.
proof fn lemma_those(flags: Seq<bool>, want: bool, n: nat)
    requires
        n <= flags.len(),
    ensures
        those(flags, want, n).len() <= n,
        those(flags, want, n).len() + those(flags, !want, n).len() == n,
        forall|i: int|
            0 <= i < those(flags, want, n).len() ==> 0 <= #[trigger] those(flags, want, n)[i] < n
                && flags[those(flags, want, n)[i]] == want,
    decreases n,
{
    if n > 0 {
        lemma_those(flags, want, (n - 1) as nat);
    }
}

/// Two corners of a tetrahedron with different flags.
proof fn lemma_cut_edge<T: Copy + PartialEq>(
    samples: SparseGrid3<T>,
    above: spec_fn(T) -> bool,
    spot: Spotter<T>,
    anchor: UVec3,
    k: int,
    m: int,
    n: int,
)
    requires
        0 <= k < 6,
        0 <= m < 4,
        0 <= n < 4,
        anchor.x < u32::MAX,
        anchor.y < u32::MAX,
        anchor.z < u32::MAX,
        tetrahedron_flags(samples, above, anchor, k)[m] != tetrahedron_flags(
            samples,
            above,
            anchor,
            k,
        )[n],
    ensures
        on_cut_edge(
            samples,
            above,
            spot,
            anchor,
            k,
            edge_key(
                samples,
                spot,
                tetrahedron_points(anchor, k)[m],
                tetrahedron_points(anchor, k)[n],
            ),
        ),
{
    lemma_points(samples, above, anchor, k, m);
    lemma_points(samples, above, anchor, k, n);
    lemma_cut_vertex(
        samples,
        spot,
        tetrahedron_corner(anchor, k, m),
        tetrahedron_corner(anchor, k, n),
    );
}

/// The steps for a triangle on three edges from one corner.
spec fn three_cut<T: Copy + PartialEq>(
    samples: SparseGrid3<T>,
    spot: Spotter<T>,
    points: Seq<UVec3>,
    lone: int,
    others: Seq<int>,
    inside: UVec3,
) -> Seq<Step> {
    triangle_steps(
        edge_key(samples, spot, points[lone], points[others[0]]),
        edge_key(samples, spot, points[lone], points[others[1]]),
        edge_key(samples, spot, points[lone], points[others[2]]),
        inside,
        false,
    )
}

/// The steps for a quadrilateral on four edges.
spec fn four_cut<T: Copy + PartialEq>(
    samples: SparseGrid3<T>,
    spot: Spotter<T>,
    points: Seq<UVec3>,
    ins: Seq<int>,
    outs: Seq<int>,
) -> Seq<Step> {
    quad_steps(
        edge_key(samples, spot, points[ins[0]], points[outs[0]]),
        edge_key(samples, spot, points[ins[0]], points[outs[1]]),
        edge_key(samples, spot, points[ins[1]], points[outs[0]]),
        edge_key(samples, spot, points[ins[1]], points[outs[1]]),
        points[ins[0]],
    )
}

/// All corners of a face are vertices on cut edges.
spec fn face_on_cut_edges<T: Copy + PartialEq>(
    samples: SparseGrid3<T>,
    above: spec_fn(T) -> bool,
    spot: Spotter<T>,
    anchor: UVec3,
    k: int,
    step: Step,
) -> bool {
    step matches Step::Face(a, b, c, inside) ==> {
        &&& on_cut_edge(samples, above, spot, anchor, k, a)
        &&& on_cut_edge(samples, above, spot, anchor, k, b)
        &&& on_cut_edge(samples, above, spot, anchor, k, c)
    }
}

proof fn lemma_triangle_on<T: Copy + PartialEq>(
    samples: SparseGrid3<T>,
    above: spec_fn(T) -> bool,
    spot: Spotter<T>,
    anchor: UVec3,
    k: int,
    a: VertexKey,
    b: VertexKey,
    c: VertexKey,
    inside: UVec3,
    i: int,
)
    requires
        0 <= i < 4,
        on_cut_edge(samples, above, spot, anchor, k, a),
        on_cut_edge(samples, above, spot, anchor, k, b),
        on_cut_edge(samples, above, spot, anchor, k, c),
    ensures
        face_on_cut_edges(
            samples,
            above,
            spot,
            anchor,
            k,
            triangle_steps(a, b, c, inside, false)[i],
        ),
{
}

proof fn lemma_quad_on<T: Copy + PartialEq>(
    samples: SparseGrid3<T>,
    above: spec_fn(T) -> bool,
    spot: Spotter<T>,
    anchor: UVec3,
    k: int,
    a: VertexKey,
    b: VertexKey,
    c: VertexKey,
    d: VertexKey,
    inside: UVec3,
    i: int,
)
    requires
        0 <= i < 6,
        on_cut_edge(samples, above, spot, anchor, k, a),
        on_cut_edge(samples, above, spot, anchor, k, b),
        on_cut_edge(samples, above, spot, anchor, k, c),
        on_cut_edge(samples, above, spot, anchor, k, d),
    ensures
        face_on_cut_edges(samples, above, spot, anchor, k, quad_steps(a, b, c, d, inside)[i]),
{
}

proof fn lemma_three_cut_edges<T: Copy + PartialEq>(
    samples: SparseGrid3<T>,
    above: spec_fn(T) -> bool,
    spot: Spotter<T>,
    anchor: UVec3,
    k: int,
    lone: int,
    others: Seq<int>,
    i: int,
)
    requires
        0 <= k < 6,
        anchor.x < u32::MAX,
        anchor.y < u32::MAX,
        anchor.z < u32::MAX,
        0 <= lone < 4,
        others.len() == 3,
        0 <= i < 4,
        forall|x: int|
            0 <= x < 3 ==> 0 <= #[trigger] others[x] < 4 && tetrahedron_flags(
                samples,
                above,
                anchor,
                k,
            )[others[x]] != tetrahedron_flags(samples, above, anchor, k)[lone],
    ensures
        forall|inside: UVec3|
            face_on_cut_edges(
                samples,
                above,
                spot,
                anchor,
                k,
                (#[trigger] three_cut(
                    samples,
                    spot,
                    tetrahedron_points(anchor, k),
                    lone,
                    others,
                    inside,
                ))[i],
            ),
{
    let points = tetrahedron_points(anchor, k);
    lemma_cut_edge(samples, above, spot, anchor, k, lone, others[0]);
    lemma_cut_edge(samples, above, spot, anchor, k, lone, others[1]);
    lemma_cut_edge(samples, above, spot, anchor, k, lone, others[2]);
    assert forall|inside: UVec3|
        face_on_cut_edges(
            samples,
            above,
            spot,
            anchor,
            k,
            (#[trigger] three_cut(samples, spot, points, lone, others, inside))[i],
        ) by {
        lemma_triangle_on(
            samples,
            above,
            spot,
            anchor,
            k,
            edge_key(samples, spot, points[lone], points[others[0]]),
            edge_key(samples, spot, points[lone], points[others[1]]),
            edge_key(samples, spot, points[lone], points[others[2]]),
            inside,
            i,
        );
    }
}

proof fn lemma_four_cut_edges<T: Copy + PartialEq>(
    samples: SparseGrid3<T>,
    above: spec_fn(T) -> bool,
    spot: Spotter<T>,
    anchor: UVec3,
    k: int,
    ins: Seq<int>,
    outs: Seq<int>,
    i: int,
)
    requires
        0 <= k < 6,
        anchor.x < u32::MAX,
        anchor.y < u32::MAX,
        anchor.z < u32::MAX,
        ins.len() == 2,
        outs.len() == 2,
        0 <= i < 6,
        forall|x: int|
            0 <= x < 2 ==> 0 <= #[trigger] ins[x] < 4 && tetrahedron_flags(
                samples,
                above,
                anchor,
                k,
            )[ins[x]],
        forall|x: int|
            0 <= x < 2 ==> 0 <= #[trigger] outs[x] < 4 && !tetrahedron_flags(
                samples,
                above,
                anchor,
                k,
            )[outs[x]],
    ensures
        face_on_cut_edges(
            samples,
            above,
            spot,
            anchor,
            k,
            four_cut(samples, spot, tetrahedron_points(anchor, k), ins, outs)[i],
        ),
{
    let points = tetrahedron_points(anchor, k);
    lemma_cut_edge(samples, above, spot, anchor, k, ins[0], outs[0]);
    lemma_cut_edge(samples, above, spot, anchor, k, ins[0], outs[1]);
    lemma_cut_edge(samples, above, spot, anchor, k, ins[1], outs[0]);
    lemma_cut_edge(samples, above, spot, anchor, k, ins[1], outs[1]);
    lemma_quad_on(
        samples,
        above,
        spot,
        anchor,
        k,
        edge_key(samples, spot, points[ins[0]], points[outs[0]]),
        edge_key(samples, spot, points[ins[0]], points[outs[1]]),
        edge_key(samples, spot, points[ins[1]], points[outs[0]]),
        edge_key(samples, spot, points[ins[1]], points[outs[1]]),
        points[ins[0]],
        i,
    );
}

/// Every face that a tetrahedron asks for lies between vertices on its cut edges.
proof fn lemma_face_on_cut_edges<T: Copy + PartialEq>(
    samples: SparseGrid3<T>,
    above: spec_fn(T) -> bool,
    spot: Spotter<T>,
    anchor: UVec3,
    k: int,
    i: int,
)
    requires
        0 <= k < 6,
        anchor.x < u32::MAX,
        anchor.y < u32::MAX,
        anchor.z < u32::MAX,
        0 <= i < tetrahedron_steps(
            samples,
            spot,
            tetrahedron_points(anchor, k),
            tetrahedron_flags(samples, above, anchor, k),
        ).len(),
    ensures
        tetrahedron_steps(
            samples,
            spot,
            tetrahedron_points(anchor, k),
            tetrahedron_flags(samples, above, anchor, k),
        )[i] matches Step::Face(a, b, c, inside) ==> {
            &&& on_cut_edge(samples, above, spot, anchor, k, a)
            &&& on_cut_edge(samples, above, spot, anchor, k, b)
            &&& on_cut_edge(samples, above, spot, anchor, k, c)
        },
{
    let points = tetrahedron_points(anchor, k);
    let flags = tetrahedron_flags(samples, above, anchor, k);
    let steps = tetrahedron_steps(samples, spot, points, flags);
    let (ins, outs) = (those(flags, true, 4), those(flags, false, 4));
    lemma_those(flags, true, 4);
    lemma_those(flags, false, 4);
    if ins.len() == 1 {
        lemma_three_cut_edges(samples, above, spot, anchor, k, ins[0], outs, i);
        assert(steps == three_cut(samples, spot, points, ins[0], outs, points[ins[0]]));
    } else if ins.len() == 3 {
        lemma_three_cut_edges(samples, above, spot, anchor, k, outs[0], ins, i);
        assert(steps == three_cut(samples, spot, points, outs[0], ins, points[ins[0]]));
    } else if ins.len() == 2 {
        lemma_four_cut_edges(samples, above, spot, anchor, k, ins, outs, i);
        assert(steps == four_cut(samples, spot, points, ins, outs));
    }
}

/// Where a step of a cube comes from.
proof fn lemma_step_of_cube<T: Copy + PartialEq>(
    samples: SparseGrid3<T>,
    above: spec_fn(T) -> bool,
    spot: Spotter<T>,
    anchor: UVec3,
    n: nat,
    j: int,
) -> (r: (int, int))
    requires
        0 <= j < cube_steps(samples, above, spot, anchor, n).len(),
    ensures
        0 <= r.0 < n,
        0 <= r.1 < tetrahedron_steps(
            samples,
            spot,
            tetrahedron_points(anchor, r.0),
            tetrahedron_flags(samples, above, anchor, r.0),
        ).len(),
        cube_steps(samples, above, spot, anchor, n)[j] == tetrahedron_steps(
            samples,
            spot,
            tetrahedron_points(anchor, r.0),
            tetrahedron_flags(samples, above, anchor, r.0),
        )[r.1],
    decreases n,
{
    let before = cube_steps(samples, above, spot, anchor, (n - 1) as nat);
    if j < before.len() {
        lemma_step_of_cube(samples, above, spot, anchor, (n - 1) as nat, j)
    } else {
        (n - 1, j - before.len())
    }
}

/// The corners of face `f` are vertices on cut edges of tetrahedron `k`.
pub open spec fn face_in_tetrahedron<T: Copy + PartialEq, V, E>(
    t: MeshState,
    samples: SparseGrid3<T>,
    anchor: UVec3,
    rules: Rules<T, V, E>,
    f: int,
    k: int,
) -> bool {
    let keys = keys_of(t, f);
    &&& 0 <= k < 6
    &&& on_cut_edge(samples, rules.above, rules.spot, anchor, k, keys.0)
    &&& on_cut_edge(samples, rules.above, rules.spot, anchor, k, keys.1)
    &&& on_cut_edge(samples, rules.above, rules.spot, anchor, k, keys.2)
    &&& keys.0 != keys.1 && keys.1 != keys.2 && keys.2 != keys.0
}

/// A cube adds nothing but triangles between vertices on cut edges of one of its tetrahedra, and
/// keeps what was there. A cube on one side of the surface adds none.
pub proof fn law_tetrahedra_show_nothing_else<T: Copy + PartialEq, V, E>(
    s: MeshState,
    t: MeshState,
    samples: SparseGrid3<T>,
    anchor: UVec3,
    rules: Rules<T, V, E>,
    f: int,
)
    requires
        well_built(s),
        sampled(samples, anchor),
        anchor.x < u32::MAX,
        anchor.y < u32::MAX,
        anchor.z < u32::MAX,
        with_cube(s, samples, anchor, rules) == Ok::<MeshState, BuildError<E>>(t),
        s.faces.len() <= f < t.faces.len(),
    ensures
        extends(s, t),
        exists|k: int| #[trigger] face_in_tetrahedron(t, samples, anchor, rules, f, k),
{
    let list = cube_steps(samples, rules.above, rules.spot, anchor, 6);
    lemma_cube_grounded(samples, rules.above, rules.spot, anchor, 6);
    lemma_steps_faces(s, list, list.len(), rules.craft);
    assert(wanted_face(list, list.len(), t, f, rules.craft));
    let j = choose|j: int|
        0 <= j < list.len() && #[trigger] asked_for(list, j, t, f, rules.craft);
    let (k, i) = lemma_step_of_cube(samples, rules.above, rules.spot, anchor, 6, j);
    lemma_face_on_cut_edges(samples, rules.above, rules.spot, anchor, k, i);
    assert(face_in_tetrahedron(t, samples, anchor, rules, f, k));
}

/// A cube is an error when one of the samples at its eight corners is missing.
pub proof fn law_tetrahedra_missing_sample<T: Copy + PartialEq, V, E>(
    s: MeshState,
    samples: SparseGrid3<T>,
    anchor: UVec3,
    rules: Rules<T, V, E>,
)
    requires
        anchor.x < u32::MAX,
        anchor.y < u32::MAX,
        anchor.z < u32::MAX,
    ensures
        sampled(samples, anchor) <==> forall|x: int, y: int, z: int|
            0 <= x <= 1 && 0 <= y <= 1 && 0 <= z <= 1 ==> (#[trigger] samples.at(
                stepped_from(anchor, x, y, z),
            )) is Some,
        !sampled(samples, anchor) ==> (with_cube(s, samples, anchor, rules) matches Err(
            BuildError::MissingSample(p),
        ) && samples.at(p) is None),
{
    lemma_eight_corners(anchor);
    if sampled(samples, anchor) {
        assert forall|x: int, y: int, z: int|
            0 <= x <= 1 && 0 <= y <= 1 && 0 <= z <= 1 implies (#[trigger] samples.at(
            stepped_from(anchor, x, y, z),
        )) is Some by {
            let i = x + 2 * y + 4 * z;
            assert(samples.at(cube_corner(anchor, i)) is Some);
            assert((x == 0 || x == 1) && (y == 0 || y == 1) && (z == 0 || z == 1));
        }
    } else {
        lemma_some_missing(samples, anchor, 8);
        let i = choose|i: int| 0 <= i < 8 && (#[trigger] samples.at(cube_corner(anchor, i))) is None;
        assert(i == 0 || i == 1 || i == 2 || i == 3 || i == 4 || i == 5 || i == 6 || i == 7);
        let (x, y, z) = (i % 2, (i / 2) % 2, i / 4);
        assert(samples.at(stepped_from(anchor, x, y, z)) is None);
    }
}

proof fn lemma_eight_corners(anchor: UVec3)
    requires
        anchor.x < u32::MAX,
        anchor.y < u32::MAX,
        anchor.z < u32::MAX,
    ensures
        cube_corner(anchor, 0) == stepped_from(anchor, 0, 0, 0),
        cube_corner(anchor, 1) == stepped_from(anchor, 1, 0, 0),
        cube_corner(anchor, 2) == stepped_from(anchor, 0, 1, 0),
        cube_corner(anchor, 3) == stepped_from(anchor, 1, 1, 0),
        cube_corner(anchor, 4) == stepped_from(anchor, 0, 0, 1),
        cube_corner(anchor, 5) == stepped_from(anchor, 1, 0, 1),
        cube_corner(anchor, 6) == stepped_from(anchor, 0, 1, 1),
        cube_corner(anchor, 7) == stepped_from(anchor, 1, 1, 1),
{
}

/// Where a sample is missing, there is a first one.
proof fn lemma_some_missing<T: Copy + PartialEq>(samples: SparseGrid3<T>, anchor: UVec3, n: int)
    requires
        0 <= n <= 8,
    ensures
        (exists|i: int| 0 <= i < n && (#[trigger] samples.at(cube_corner(anchor, i))) is None)
            ==> exists|i: int| #[trigger] first_missing(samples, anchor, i),
    decreases n,
{
    if n > 0 {
        lemma_some_missing(samples, anchor, n - 1);
        if samples.at(cube_corner(anchor, n - 1)) is None && (forall|j: int|
            0 <= j < n - 1 ==> (#[trigger] samples.at(cube_corner(anchor, j))) is Some) {
            assert(first_missing(samples, anchor, n - 1));
        }
    }
}

} // verus!
