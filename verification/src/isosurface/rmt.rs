//! Regularized marching tetrahedra.
//!
//! Each dual cube is split into six tetrahedra around its body diagonal. A tetrahedron that the
//! surface cuts gives one or two triangles with corners on its edges; a corner close to a
//! lattice point is snapped to it.

use vstd::prelude::*;

use crate::isosurface::mesher::{
    built, crafts, grounded, lemma_grounded_append, lemma_seated, lemma_steps_append,
    lemma_steps_well_built, lemma_triangle_grounded, meshed, proper, seated, step_or_same,
    triangle_steps, well_built, with_all_steps, with_steps, BuildError, Craft, FaceVerdict,
    MeshState, Mesher, Step, VertexKey,
};
use crate::isosurface::walk::{
    grid_point_le, in_order, lemma_cubes_fail, list_anchors, visits, with_cubes,
};
use crate::outcome::{computes1, computes2, total1, total2, total4};
use crate::utility::sparse_grid3::aabb::Aabb3u;
use crate::utility::sparse_grid3::grid::accessor::GridAccessor;
use crate::utility::sparse_grid3::grid::{inside, SparseGrid3};
use crate::utility::sparse_grid3::value::Present;
use crate::vec3::UVec3;

verus! {

/// Where on an edge the surface crosses it.
#[derive(Debug, Clone, Copy, PartialEq, Eq, Structural)]
pub enum EdgeSpot {
    /// So close to the start that it is snapped to it.
    Start,
    /// Between the ends.
    Middle,
    /// So close to the end that it is snapped to it.
    End,
}

/// Corner `i` of the cube anchored at `anchor`: bit 0 of `i` steps along x, bit 1 along y,
/// bit 2 along z.
pub open spec fn cube_corner(anchor: UVec3, i: int) -> UVec3 {
    UVec3 {
        x: (anchor.x + i % 2) as u32,
        y: (anchor.y + (i / 2) % 2) as u32,
        z: (anchor.z + i / 4) as u32,
    }
}

/// Corner numbers of the tetrahedra around the body diagonal from corner 0 to corner 7. This
/// produces matching face diagonals in adjacent cubes.
pub open spec fn tetrahedron_corners(k: int) -> Seq<int> {
    if k == 0 {
        seq![0, 1, 3, 7]
    } else if k == 1 {
        seq![0, 3, 2, 7]
    } else if k == 2 {
        seq![0, 2, 6, 7]
    } else if k == 3 {
        seq![0, 6, 4, 7]
    } else if k == 4 {
        seq![0, 4, 5, 7]
    } else {
        seq![0, 5, 1, 7]
    }
}

fn tetrahedron(k: usize) -> (r: [usize; 4])
    requires
        k < 6,
    ensures
        forall|m: int|
            0 <= m < 4 ==> #[trigger] r@[m] == tetrahedron_corners(k as int)[m] && r@[m] < 8,
{
    match k {
        0 => [0, 1, 3, 7],
        1 => [0, 3, 2, 7],
        2 => [0, 2, 6, 7],
        3 => [0, 6, 4, 7],
        4 => [0, 4, 5, 7],
        _ => [0, 5, 1, 7],
    }
}

/// Where vertices on edges go.
pub type Spotter<T> = spec_fn(T, T) -> EdgeSpot;

/// The key of the vertex on the edge between two corners.
pub open spec fn edge_key<T: Copy + PartialEq>(
    samples: SparseGrid3<T>,
    spot: Spotter<T>,
    a: UVec3,
    b: UVec3,
) -> VertexKey {
    let (start, end) = in_order(a, b);
    match spot(samples.at(start)->0, samples.at(end)->0) {
        EdgeSpot::Start => VertexKey::Grid(start),
        EdgeSpot::Middle => VertexKey::Edge(start, end),
        EdgeSpot::End => VertexKey::Grid(end),
    }
}

/// Two different corners of a cube of which one lies below the other along every axis.
pub open spec fn comparable(a: UVec3, b: UVec3) -> bool {
    &&& a != b
    &&& {
        ||| step_or_same(a.x, b.x) && step_or_same(a.y, b.y) && step_or_same(a.z, b.z)
        ||| step_or_same(b.x, a.x) && step_or_same(b.y, a.y) && step_or_same(b.z, a.z)
    }
}

/// The numbers below `n` whose flag is `want`.
pub open spec fn those(flags: Seq<bool>, want: bool, n: nat) -> Seq<int>
    decreases n,
{
    if n == 0 {
        Seq::empty()
    } else if flags[n - 1] == want {
        those(flags, want, (n - 1) as nat).push(n - 1)
    } else {
        those(flags, want, (n - 1) as nat)
    }
}

/// The steps for one tetrahedron. `above` tells which corners lie on the inner side.
pub open spec fn tetrahedron_steps<T: Copy + PartialEq>(
    samples: SparseGrid3<T>,
    spot: Spotter<T>,
    points: Seq<UVec3>,
    above: Seq<bool>,
) -> Seq<Step> {
    let ins = those(above, true, 4);
    let outs = those(above, false, 4);
    if ins.len() == 1 {
        let i = points[ins[0]];
        triangle_steps(
            edge_key(samples, spot, i, points[outs[0]]),
            edge_key(samples, spot, i, points[outs[1]]),
            edge_key(samples, spot, i, points[outs[2]]),
            i,
            false,
        )
    } else if ins.len() == 3 {
        let o = points[outs[0]];
        triangle_steps(
            edge_key(samples, spot, o, points[ins[0]]),
            edge_key(samples, spot, o, points[ins[1]]),
            edge_key(samples, spot, o, points[ins[2]]),
            points[ins[0]],
            false,
        )
    } else if ins.len() == 2 {
        let p00 = edge_key(samples, spot, points[ins[0]], points[outs[0]]);
        let p01 = edge_key(samples, spot, points[ins[0]], points[outs[1]]);
        let p10 = edge_key(samples, spot, points[ins[1]], points[outs[0]]);
        let p11 = edge_key(samples, spot, points[ins[1]], points[outs[1]]);
        quad_steps(p00, p01, p10, p11, points[ins[0]])
    } else {
        Seq::empty()
    }
}

/// Four corners, then the two faces of the quadrilateral that they span.
pub open spec fn quad_steps(
    p00: VertexKey,
    p01: VertexKey,
    p10: VertexKey,
    p11: VertexKey,
    inside: UVec3,
) -> Seq<Step> {
    seq![
        Step::Seat(p00),
        Step::Seat(p01),
        Step::Seat(p10),
        Step::Seat(p11),
        Step::Face(p00, p01, p11, inside),
        Step::Face(p00, p11, p10, inside),
    ]
}

/// The corners of tetrahedron `k` of the cube anchored at `anchor`.
pub open spec fn tetrahedron_points(anchor: UVec3, k: int) -> Seq<UVec3> {
    Seq::new(4, |m: int| cube_corner(anchor, tetrahedron_corners(k)[m]))
}

/// Which corners of tetrahedron `k` lie on the inner side.
pub open spec fn tetrahedron_flags<T: Copy + PartialEq>(
    samples: SparseGrid3<T>,
    above: spec_fn(T) -> bool,
    anchor: UVec3,
    k: int,
) -> Seq<bool> {
    Seq::new(
        4,
        |m: int|
            above(samples.at(cube_corner(anchor, tetrahedron_corners(k)[m]))->0),
    )
}

/// The steps for the first `k` tetrahedra of a cube.
pub open spec fn cube_steps<T: Copy + PartialEq>(
    samples: SparseGrid3<T>,
    above: spec_fn(T) -> bool,
    spot: Spotter<T>,
    anchor: UVec3,
    k: nat,
) -> Seq<Step>
    decreases k,
{
    if k == 0 {
        Seq::empty()
    } else {
        cube_steps(samples, above, spot, anchor, (k - 1) as nat) + tetrahedron_steps(
            samples,
            spot,
            tetrahedron_points(anchor, k - 1),
            tetrahedron_flags(samples, above, anchor, k - 1),
        )
    }
}

/// Corner `i` is the first without a sample.
pub open spec fn first_missing<T: Copy + PartialEq>(
    samples: SparseGrid3<T>,
    anchor: UVec3,
    i: int,
) -> bool {
    &&& 0 <= i < 8
    &&& samples.at(cube_corner(anchor, i)) is None
    &&& forall|j: int| 0 <= j < i ==> (#[trigger] samples.at(cube_corner(anchor, j))) is Some
}

/// All eight samples of the cube are present.
pub open spec fn sampled<T: Copy + PartialEq>(samples: SparseGrid3<T>, anchor: UVec3) -> bool {
    forall|i: int| 0 <= i < 8 ==> (#[trigger] samples.at(cube_corner(anchor, i))) is Some
}

/// What is above the isovalue, where vertices on edges go, and what becomes of vertices and
/// faces.
#[verifier::reject_recursive_types(T)]
#[verifier::reject_recursive_types(V)]
pub struct Rules<T, V, E> {
    pub above: spec_fn(T) -> bool,
    pub spot: Spotter<T>,
    pub craft: Craft<V, E>,
}

/// The functions give what `rules` says.
pub open spec fn follows<
    T,
    V,
    E,
    A: Fn(T) -> bool,
    K: Fn(T, T) -> EdgeSpot,
    M: Fn(VertexKey) -> Result<V, E>,
    J: Fn(V, V, V, UVec3) -> FaceVerdict,
>(above: A, spot: K, make: M, judge: J, rules: Rules<T, V, E>) -> bool {
    &&& computes1(above, rules.above)
    &&& computes2(spot, rules.spot)
    &&& crafts(make, judge, rules.craft)
}

/// The mesh after one cube.
pub open spec fn with_cube<T: Copy + PartialEq, V, E>(
    s: MeshState,
    samples: SparseGrid3<T>,
    anchor: UVec3,
    rules: Rules<T, V, E>,
) -> Result<MeshState, BuildError<E>> {
    if sampled(samples, anchor) {
        with_all_steps(
            s,
            cube_steps(samples, rules.above, rules.spot, anchor, 6),
            rules.craft,
        )
    } else {
        let i = choose|i: int| #[trigger] first_missing(samples, anchor, i);
        Err(BuildError::MissingSample(cube_corner(anchor, i)))
    }
}

/// Any two corners of a tetrahedron are comparable.
proof fn lemma_comparable(anchor: UVec3, k: int, m: int, n: int)
    requires
        0 <= k < 6,
        0 <= m < 4,
        0 <= n < 4,
        m != n,
        anchor.x < u32::MAX,
        anchor.y < u32::MAX,
        anchor.z < u32::MAX,
    ensures
        comparable(tetrahedron_points(anchor, k)[m], tetrahedron_points(anchor, k)[n]),
{
    let i = tetrahedron_corners(k)[m];
    let j = tetrahedron_corners(k)[n];
    assert(k == 0 || k == 1 || k == 2 || k == 3 || k == 4 || k == 5);
    assert(m == 0 || m == 1 || m == 2 || m == 3);
    assert(n == 0 || n == 1 || n == 2 || n == 3);
    assert(0 <= i < 8 && 0 <= j < 8 && i != j);
    assert((i % 2 <= j % 2 && (i / 2) % 2 <= (j / 2) % 2 && i / 4 <= j / 4) || (j % 2 <= i % 2 && (j
        / 2) % 2 <= (i / 2) % 2 && j / 4 <= i / 4));
}

/// `p` is a corner of the cube anchored at `anchor`.
pub open spec fn is_corner(anchor: UVec3, p: UVec3) -> bool {
    step_or_same(anchor.x, p.x) && step_or_same(anchor.y, p.y) && step_or_same(anchor.z, p.z)
}

/// Points `m` and `n` of tetrahedron `k` of a cube are `p` and `q`.
pub open spec fn holds_both(
    anchor: UVec3,
    p: UVec3,
    q: UVec3,
    k: int,
    m: int,
    n: int,
) -> bool {
    &&& 0 <= k < 6
    &&& 0 <= m < 4
    &&& 0 <= n < 4
    &&& tetrahedron_points(anchor, k)[m] == p
    &&& tetrahedron_points(anchor, k)[n] == q
}

/// Some tetrahedron of a cube has both points as corners, so that the cube has the edge or
/// diagonal between them.
pub open spec fn joined(anchor: UVec3, p: UVec3, q: UVec3) -> bool {
    exists|k: int, m: int, n: int| #[trigger] holds_both(anchor, p, q, k, m, n)
}

/// A tetrahedron, with places in it, that has corners `i` and `j`, where the offsets of `i` do
/// not exceed those of `j`.
spec fn common_tetrahedron(i: int, j: int) -> (int, int, int) {
    let (ki, mi) = some_tetrahedron(i);
    let (kj, mj) = some_tetrahedron(j);
    if i == j {
        (ki, mi, mi)
    } else if i == 0 {
        (kj, 0, mj)
    } else if j == 7 {
        (ki, mi, 3)
    } else if i == 1 && j == 3 {
        (0, 1, 2)
    } else if i == 1 {
        (5, 2, 1)
    } else if i == 2 && j == 3 {
        (1, 2, 1)
    } else if i == 2 {
        (2, 1, 2)
    } else if j == 6 {
        (3, 2, 1)
    } else {
        (4, 1, 2)
    }
}

/// A tetrahedron that has corner `i`, and the place of `i` in it.
spec fn some_tetrahedron(i: int) -> (int, int) {
    if i == 0 {
        (0, 0)
    } else if i == 1 {
        (0, 1)
    } else if i == 2 {
        (1, 2)
    } else if i == 3 {
        (0, 2)
    } else if i == 4 {
        (3, 2)
    } else if i == 5 {
        (4, 2)
    } else if i == 6 {
        (2, 2)
    } else {
        (0, 3)
    }
}

/// Corners of which one lies below the other have a tetrahedron in common.
proof fn lemma_common_tetrahedron(i: int, j: int)
    requires
        0 <= i < 8,
        0 <= j < 8,
        i % 2 <= j % 2,
        (i / 2) % 2 <= (j / 2) % 2,
        i / 4 <= j / 4,
    ensures
        ({
            let (k, m, n) = common_tetrahedron(i, j);
            &&& 0 <= k < 6
            &&& 0 <= m < 4
            &&& 0 <= n < 4
            &&& tetrahedron_corners(k)[m] == i
            &&& tetrahedron_corners(k)[n] == j
        }),
{
    assert(i == 0 || i == 1 || i == 2 || i == 3 || i == 4 || i == 5 || i == 6 || i == 7);
    assert(j == 0 || j == 1 || j == 2 || j == 3 || j == 4 || j == 5 || j == 6 || j == 7);
}

/// The number of a corner of a cube.
spec fn corner_number(anchor: UVec3, p: UVec3) -> int {
    (p.x - anchor.x) + 2 * (p.y - anchor.y) + 4 * (p.z - anchor.z)
}

/// `p` lies below `q` along every axis, or is the same.
pub open spec fn below(p: UVec3, q: UVec3) -> bool {
    p.x <= q.x && p.y <= q.y && p.z <= q.z
}

/// A cube joins its corner `p` to its corner `q` above it.
proof fn lemma_joined_above(anchor: UVec3, p: UVec3, q: UVec3)
    requires
        is_corner(anchor, p),
        is_corner(anchor, q),
        below(p, q),
    ensures
        joined(anchor, p, q),
        joined(anchor, q, p),
{
    let i = corner_number(anchor, p);
    let j = corner_number(anchor, q);
    assert(i % 2 == p.x - anchor.x && (i / 2) % 2 == p.y - anchor.y && i / 4 == p.z - anchor.z);
    assert(j % 2 == q.x - anchor.x && (j / 2) % 2 == q.y - anchor.y && j / 4 == q.z - anchor.z);
    lemma_common_tetrahedron(i, j);
    let (k, m, n) = common_tetrahedron(i, j);
    assert(holds_both(anchor, p, q, k, m, n));
    assert(holds_both(anchor, q, p, k, n, m));
}

/// A cube joins two of its corners exactly when one lies below the other.
proof fn lemma_joined(anchor: UVec3, p: UVec3, q: UVec3)
    requires
        is_corner(anchor, p),
        is_corner(anchor, q),
        anchor.x < u32::MAX,
        anchor.y < u32::MAX,
        anchor.z < u32::MAX,
    ensures
        joined(anchor, p, q) <==> below(p, q) || below(q, p),
{
    if below(p, q) {
        lemma_joined_above(anchor, p, q);
    } else if below(q, p) {
        lemma_joined_above(anchor, q, p);
    }
    if joined(anchor, p, q) {
        let (k, m, n) = choose|k: int, m: int, n: int| #[trigger]
            holds_both(anchor, p, q, k, m, n);
        if m != n {
            lemma_comparable(anchor, k, m, n);
        }
    }
}

/// Adjacent cubes have matching edges and face diagonals: of two points that are corners of
/// both cubes, either both cubes join them or none does.
pub proof fn law_face_diagonals_match(a: UVec3, b: UVec3, p: UVec3, q: UVec3)
    requires
        a.x < u32::MAX,
        a.y < u32::MAX,
        a.z < u32::MAX,
        b.x < u32::MAX,
        b.y < u32::MAX,
        b.z < u32::MAX,
        is_corner(a, p),
        is_corner(a, q),
        is_corner(b, p),
        is_corner(b, q),
    ensures
        joined(a, p, q) <==> joined(b, p, q),
{
    lemma_joined(a, p, q);
    lemma_joined(b, p, q);
}

/// The key of the vertex on the edge between two corners.
fn find_edge_key<T: Copy + PartialEq, K: Fn(T, T) -> EdgeSpot>(
    samples: &mut GridAccessor<'_, T>,
    spot: &K,
    a: UVec3,
    b: UVec3,
) -> (key: VertexKey)
    requires
        old(samples).wf(),
        total2(*spot),
        comparable(a, b),
        old(samples).source().at(a) is Some,
        old(samples).source().at(b) is Some,
    ensures
        final(samples).wf(),
        final(samples).source() == old(samples).source(),
        forall|g: Spotter<T>| #[trigger]
            computes2(*spot, g) ==> key == edge_key(old(samples).source(), g, a, b),
        proper(key),
{
    let (start, end) = if grid_point_le(a, b) {
        (a, b)
    } else {
        (b, a)
    };
    let first = samples.get(start);
    let second = samples.get(end);
    match (first, second) {
        (Some(v), Some(w)) => match spot(v, w) {
            EdgeSpot::Start => VertexKey::Grid(start),
            EdgeSpot::Middle => VertexKey::Edge(start, end),
            EdgeSpot::End => VertexKey::Grid(end),
        },
        _ => VertexKey::Grid(start),
    }
}

/// All points of a tetrahedron have samples and are pairwise comparable.
spec fn ready<T: Copy + PartialEq>(samples: SparseGrid3<T>, points: Seq<UVec3>) -> bool {
    &&& points.len() == 4
    &&& forall|m: int| 0 <= m < 4 ==> (#[trigger] samples.at(points[m])) is Some
    &&& forall|m: int, n: int|
        0 <= m < 4 && 0 <= n < 4 && m != n ==> comparable(
            #[trigger] points[m],
            #[trigger] points[n],
        )
}

/// Listed numbers are below the limit, distinct, and have the wanted flag.
proof fn lemma_those(flags: Seq<bool>, want: bool, n: nat)
    requires
        n <= flags.len(),
    ensures
        those(flags, want, n).len() + those(flags, !want, n).len() == n,
        forall|j: int|
            0 <= j < those(flags, want, n).len() ==> 0 <= #[trigger] those(flags, want, n)[j] < n
                && flags[those(flags, want, n)[j]] == want,
    decreases n,
{
    if n > 0 {
        lemma_those(flags, want, (n - 1) as nat);
        lemma_those(flags, !want, (n - 1) as nat);
        let before = those(flags, want, (n - 1) as nat);
        let now = those(flags, want, n);
        assert forall|j: int| 0 <= j < now.len() implies 0 <= #[trigger] now[j] < n
            && flags[now[j]] == want by {
            if j < before.len() {
                assert(now[j] == before[j]);
            }
        }
    }
}

/// Adds the triangles of one tetrahedron.
fn march_tetrahedron<
    T: Copy + PartialEq,
    V: Copy,
    E,
    K: Fn(T, T) -> EdgeSpot,
    M: Fn(VertexKey) -> Result<V, E>,
    J: Fn(V, V, V, UVec3) -> FaceVerdict,
>(
    mesher: &mut Mesher<V>,
    samples: &mut GridAccessor<'_, T>,
    points: [UVec3; 4],
    above: [bool; 4],
    spot: &K,
    make: &M,
    judge: &J,
) -> (r: Result<(), BuildError<E>>)
    requires
        old(mesher).wf(*make),
        old(samples).wf(),
        total2(*spot),
        total1(*make),
        total4(*judge),
        ready(old(samples).source(), points@),
    ensures
        final(mesher).wf(*make),
        final(samples).wf(),
        final(samples).source() == old(samples).source(),
        forall|g: Spotter<T>, craft: Craft<V, E>|
            #![trigger computes2(*spot, g), crafts(*make, *judge, craft)]
            computes2(*spot, g) && crafts(*make, *judge, craft) ==> built(
                with_all_steps(
                    old(mesher).state(),
                    tetrahedron_steps(old(samples).source(), g, points@, above@),
                    craft,
                ),
                r,
                final(mesher).state(),
            ),
{
    let ghost grid = samples.source();
    let mut ins: Vec<usize> = Vec::with_capacity(4);
    let mut outs: Vec<usize> = Vec::with_capacity(4);
    let mut m: usize = 0;
    while m < 4
        invariant
            m <= 4,
            ins@.len() == those(above@, true, m as nat).len(),
            outs@.len() == those(above@, false, m as nat).len(),
            forall|j: int|
                0 <= j < ins@.len() ==> #[trigger] ins@[j] == those(above@, true, m as nat)[j],
            forall|j: int|
                0 <= j < outs@.len() ==> #[trigger] outs@[j] == those(above@, false, m as nat)[j],
        decreases 4 - m,
    {
        if above[m] {
            ins.push(m);
        } else {
            outs.push(m);
        }
        m += 1;
    }
    proof {
        lemma_those(above@, true, 4);
        lemma_those(above@, false, 4);
        assert forall|j: int| 0 <= j < ins@.len() implies (#[trigger] ins@[j]) < 4
            && above@[ins@[j] as int] by {
            assert(those(above@, true, 4)[j] == ins@[j]);
        }
        assert forall|j: int| 0 <= j < outs@.len() implies (#[trigger] outs@[j]) < 4
            && !above@[outs@[j] as int] by {
            assert(those(above@, false, 4)[j] == outs@[j]);
        }
    }
    let steps = ins.len();
    if steps == 1 {
        let i = points[ins[0]];
        assert(grid.at(points@[ins@[0] as int]) is Some);
        assert(grid.at(points@[outs@[0] as int]) is Some);
        assert(grid.at(points@[outs@[1] as int]) is Some);
        assert(grid.at(points@[outs@[2] as int]) is Some);
        let a = find_edge_key(samples, spot, i, points[outs[0]]);
        let b = find_edge_key(samples, spot, i, points[outs[1]]);
        let c = find_edge_key(samples, spot, i, points[outs[2]]);
        mesher.triangle(a, b, c, i, false, make, judge)
    } else if steps == 3 {
        let o = points[outs[0]];
        assert(grid.at(points@[outs@[0] as int]) is Some);
        assert(grid.at(points@[ins@[0] as int]) is Some);
        assert(grid.at(points@[ins@[1] as int]) is Some);
        assert(grid.at(points@[ins@[2] as int]) is Some);
        let a = find_edge_key(samples, spot, o, points[ins[0]]);
        let b = find_edge_key(samples, spot, o, points[ins[1]]);
        let c = find_edge_key(samples, spot, o, points[ins[2]]);
        mesher.triangle(a, b, c, points[ins[0]], false, make, judge)
    } else if steps == 2 {
        assert(grid.at(points@[ins@[0] as int]) is Some);
        assert(grid.at(points@[ins@[1] as int]) is Some);
        assert(grid.at(points@[outs@[0] as int]) is Some);
        assert(grid.at(points@[outs@[1] as int]) is Some);
        let p00 = find_edge_key(samples, spot, points[ins[0]], points[outs[0]]);
        let p01 = find_edge_key(samples, spot, points[ins[0]], points[outs[1]]);
        let p10 = find_edge_key(samples, spot, points[ins[1]], points[outs[0]]);
        let p11 = find_edge_key(samples, spot, points[ins[1]], points[outs[1]]);
        add_quad(mesher, p00, p01, p10, p11, points[ins[0]], make, judge)
    } else {
        Ok(())
    }
}

/// Seats four corners and adds the two faces of their quadrilateral.
fn add_quad<V: Copy, E, M: Fn(VertexKey) -> Result<V, E>, J: Fn(V, V, V, UVec3) -> FaceVerdict>(
    mesher: &mut Mesher<V>,
    p00: VertexKey,
    p01: VertexKey,
    p10: VertexKey,
    p11: VertexKey,
    inside: UVec3,
    make: &M,
    judge: &J,
) -> (r: Result<(), BuildError<E>>)
    requires
        old(mesher).wf(*make),
        total1(*make),
        total4(*judge),
        proper(p00),
        proper(p01),
        proper(p10),
        proper(p11),
    ensures
        final(mesher).wf(*make),
        forall|craft: Craft<V, E>| #[trigger]
            crafts(*make, *judge, craft) ==> built(
                with_all_steps(
                    old(mesher).state(),
                    quad_steps(p00, p01, p10, p11, inside),
                    craft,
                ),
                r,
                final(mesher).state(),
            ),
{
    let ghost s = mesher.state();
    let ghost k1 = seated(s.keys, p00);
    let ghost k2 = seated(k1, p01);
    let ghost k3 = seated(k2, p10);
    let ghost k4 = seated(k3, p11);
    proof {
        reveal_with_fuel(with_steps, 7);
        mesher.pool.lemma_wf();
        lemma_seated(s.keys, p00);
        lemma_seated(k1, p01);
        lemma_seated(k2, p10);
        lemma_seated(k3, p11);
    }
    let a = match mesher.vertex(p00, make) {
        Ok(id) => id,
        Err(e) => return Err(e),
    };
    let b = match mesher.vertex(p01, make) {
        Ok(id) => id,
        Err(e) => return Err(e),
    };
    let c = match mesher.vertex(p10, make) {
        Ok(id) => id,
        Err(e) => return Err(e),
    };
    let d = match mesher.vertex(p11, make) {
        Ok(id) => id,
        Err(e) => return Err(e),
    };
    proof {
        assert(k1.contains(p00));
        assert(k2.contains(p00) && k2.contains(p01));
        assert(k3.contains(p00) && k3.contains(p01) && k3.contains(p10));
        assert(k4[a as int] == p00 && k4[b as int] == p01 && k4[c as int] == p10 && k4[d as int]
            == p11);
    }
    mesher.face(a, b, d, inside, make, judge);
    mesher.face(a, d, c, inside, make, judge);
    Ok(())
}

/// Corner `j` of a cube has a sample, and its flag tells whether that lies above the isovalue.
spec fn corner_read<T: Copy + PartialEq, A: Fn(T) -> bool>(
    above: A,
    grid: SparseGrid3<T>,
    anchor: UVec3,
    corners: Seq<UVec3>,
    flags: Seq<bool>,
    j: int,
) -> bool {
    &&& corners[j] == cube_corner(anchor, j)
    &&& grid.at(cube_corner(anchor, j)) is Some
    &&& flagged(above, grid, anchor, j, flags[j])
}

/// The corners of a cube, and which of their samples lie above the isovalue; or the first corner
/// without a sample.
fn read_corners<T: Copy + PartialEq, A: Fn(T) -> bool>(
    samples: &mut GridAccessor<'_, T>,
    anchor: UVec3,
    above: &A,
) -> (r: Result<([UVec3; 8], [bool; 8]), UVec3>)
    requires
        old(samples).wf(),
        total1(*above),
        anchor.x < u32::MAX,
        anchor.y < u32::MAX,
        anchor.z < u32::MAX,
    ensures
        final(samples).wf(),
        final(samples).source() == old(samples).source(),
        match r {
            Ok((corners, flags)) => {
                &&& sampled(old(samples).source(), anchor)
                &&& forall|j: int|
                    0 <= j < 8 ==> #[trigger] corner_read(
                        *above,
                        old(samples).source(),
                        anchor,
                        corners@,
                        flags@,
                        j,
                    )
            },
            Err(corner) => {
                &&& !sampled(old(samples).source(), anchor)
                &&& corner == cube_corner(
                    anchor,
                    choose|i: int| #[trigger] first_missing(old(samples).source(), anchor, i),
                )
            },
        },
{
    let ghost grid = samples.source();
    let mut corners: [UVec3; 8] = [anchor;8];
    let mut flags: [bool; 8] = [false;8];
    let mut i: usize = 0;
    while i < 8
        invariant
            i <= 8,
            samples.wf(),
            samples.source() == grid,
            grid == old(samples).source(),
            total1(*above),
            anchor.x < u32::MAX,
            anchor.y < u32::MAX,
            anchor.z < u32::MAX,
            forall|j: int|
                0 <= j < i ==> #[trigger] corner_read(*above, grid, anchor, corners@, flags@, j),
        decreases 8 - i,
    {
        let corner = UVec3::new(
            anchor.x + (i % 2) as u32,
            anchor.y + ((i / 2) % 2) as u32,
            anchor.z + (i / 4) as u32,
        );
        assert(corner == cube_corner(anchor, i as int));
        match samples.get(corner) {
            Some(value) => {
                let flag = above(value);
                let ghost corners0 = corners@;
                let ghost flags0 = flags@;
                corners[i] = corner;
                flags[i] = flag;
                proof {
                    assert(corners@ == corners0.update(i as int, corner));
                    assert(flags@ == flags0.update(i as int, flag));
                    assert forall|j: int| 0 <= j < i + 1 implies #[trigger] corner_read(
                        *above,
                        grid,
                        anchor,
                        corners@,
                        flags@,
                        j,
                    ) by {
                        if j < i {
                            assert(corner_read(*above, grid, anchor, corners0, flags0, j));
                        }
                    }
                }
            },
            None => {
                proof {
                    assert forall|j: int| 0 <= j < i implies (#[trigger] grid.at(
                        cube_corner(anchor, j),
                    )) is Some by {
                        assert(corner_read(*above, grid, anchor, corners@, flags@, j));
                    }
                    assert(first_missing(grid, anchor, i as int));
                    let c = choose|c: int| #[trigger] first_missing(grid, anchor, c);
                    assert(c == i) by {
                        if c < i {
                            assert(grid.at(cube_corner(anchor, c)) is Some);
                        } else if c > i {
                            assert(grid.at(cube_corner(anchor, i as int)) is Some);
                        }
                    }
                    assert(!sampled(grid, anchor));
                }
                return Err(corner);
            },
        }
        i += 1;
    }
    proof {
        assert forall|j: int| 0 <= j < 8 implies (#[trigger] grid.at(
            cube_corner(anchor, j),
        )) is Some by {
            assert(corner_read(*above, grid, anchor, corners@, flags@, j));
        }
    }
    Ok((corners, flags))
}

/// Adds the triangles of one dual cube.
pub fn march_cube<
    T: Copy + PartialEq,
    V: Copy,
    E,
    A: Fn(T) -> bool,
    K: Fn(T, T) -> EdgeSpot,
    M: Fn(VertexKey) -> Result<V, E>,
    J: Fn(V, V, V, UVec3) -> FaceVerdict,
>(
    mesher: &mut Mesher<V>,
    samples: &mut GridAccessor<'_, T>,
    anchor: UVec3,
    above: &A,
    spot: &K,
    make: &M,
    judge: &J,
) -> (r: Result<(), BuildError<E>>)
    requires
        old(mesher).wf(*make),
        old(samples).wf(),
        total1(*above),
        total2(*spot),
        total1(*make),
        total4(*judge),
        anchor.x < u32::MAX,
        anchor.y < u32::MAX,
        anchor.z < u32::MAX,
    ensures
        final(mesher).wf(*make),
        final(samples).wf(),
        final(samples).source() == old(samples).source(),
        forall|rules: Rules<T, V, E>| #[trigger]
            follows(*above, *spot, *make, *judge, rules) ==> built(
                with_cube(old(mesher).state(), old(samples).source(), anchor, rules),
                r,
                final(mesher).state(),
            ),
{
    let ghost grid = samples.source();
    let (corners, flags) = match read_corners(samples, anchor, above) {
        Ok(read) => read,
        Err(corner) => return Err(BuildError::MissingSample(corner)),
    };
    let ghost s = mesher.state();
    let mut k: usize = 0;
    while k < 6
        invariant
            k <= 6,
            mesher.wf(*make),
            samples.wf(),
            samples.source() == grid,
            grid == old(samples).source(),
            s == old(mesher).state(),
            sampled(grid, anchor),
            total2(*spot),
            total1(*make),
            total4(*judge),
            anchor.x < u32::MAX,
            anchor.y < u32::MAX,
            anchor.z < u32::MAX,
            forall|j: int|
                0 <= j < 8 ==> #[trigger] corner_read(*above, grid, anchor, corners@, flags@, j),
            forall|rules: Rules<T, V, E>| #[trigger]
                follows(*above, *spot, *make, *judge, rules) ==> with_all_steps(
                    s,
                    cube_steps(grid, rules.above, rules.spot, anchor, k as nat),
                    rules.craft,
                ) == Ok::<MeshState, BuildError<E>>(mesher.state()),
        decreases 6 - k,
    {
        let t = tetrahedron(k);
        let points = [corners[t[0]], corners[t[1]], corners[t[2]], corners[t[3]]];
        let inner = [flags[t[0]], flags[t[1]], flags[t[2]], flags[t[3]]];
        let ghost pts = tetrahedron_points(anchor, k as int);
        proof {
            assert forall|m: int| 0 <= m < 4 implies points@[m] == #[trigger] pts[m] by {
                assert(corner_read(*above, grid, anchor, corners@, flags@, t@[m] as int));
            }
            assert(points@ =~= pts);
            assert forall|m: int| 0 <= m < 4 implies (#[trigger] grid.at(pts[m])) is Some by {
                assert(grid.at(cube_corner(anchor, t@[m] as int)) is Some);
            }
            assert forall|m: int, n: int| 0 <= m < 4 && 0 <= n < 4 && m != n implies comparable(
                #[trigger] pts[m],
                #[trigger] pts[n],
            ) by {
                lemma_comparable(anchor, k as int, m, n);
            }
        }
        let outcome = march_tetrahedron(mesher, samples, points, inner, spot, make, judge);
        proof {
            assert forall|rules: Rules<T, V, E>| #[trigger]
                follows(*above, *spot, *make, *judge, rules) implies built(
                with_all_steps(
                    s,
                    cube_steps(grid, rules.above, rules.spot, anchor, (k + 1) as nat),
                    rules.craft,
                ),
                outcome,
                mesher.state(),
            ) by {
                let flags_of = tetrahedron_flags(grid, rules.above, anchor, k as int);
                assert forall|m: int| 0 <= m < 4 implies inner@[m] == #[trigger] flags_of[m] by {
                    let c = t@[m] as int;
                    assert(corner_read(*above, grid, anchor, corners@, flags@, c));
                }
                assert(inner@ =~= flags_of);
                let first = cube_steps(grid, rules.above, rules.spot, anchor, k as nat);
                let second = tetrahedron_steps(grid, rules.spot, pts, flags_of);
                lemma_steps_append(s, first, second, second.len(), rules.craft);
                assert((first + second).len() == first.len() + second.len());
                assert(cube_steps(grid, rules.above, rules.spot, anchor, (k + 1) as nat)
                    == first + second);
            }
        }
        match outcome {
            Ok(()) => {},
            Err(e) => {
                proof {
                    assert forall|rules: Rules<T, V, E>| #[trigger]
                        follows(*above, *spot, *make, *judge, rules) implies with_all_steps(
                        s,
                        cube_steps(grid, rules.above, rules.spot, anchor, 6),
                        rules.craft,
                    ) == Err::<MeshState, BuildError<E>>(e) by {
                        lemma_cube_fails(s, grid, anchor, (k + 1) as nat, 6, rules);
                    }
                }
                return Err(e);
            },
        }
        k += 1;
    }
    Ok(())
}

/// `flag` is what `above` gave for the sample at corner `j`.
spec fn flagged<T: Copy + PartialEq, A: Fn(T) -> bool>(
    above: A,
    grid: SparseGrid3<T>,
    anchor: UVec3,
    j: int,
    flag: bool,
) -> bool {
    call_ensures(above, (grid.at(cube_corner(anchor, j))->0,), flag)
}

/// Once a tetrahedron fails, the cube fails.
proof fn lemma_cube_fails<T: Copy + PartialEq, V, E>(
    s: MeshState,
    grid: SparseGrid3<T>,
    anchor: UVec3,
    k: nat,
    n: nat,
    rules: Rules<T, V, E>,
)
    requires
        k <= n,
        with_all_steps(
            s,
            cube_steps(grid, rules.above, rules.spot, anchor, k),
            rules.craft,
        ) is Err,
    ensures
        with_all_steps(s, cube_steps(grid, rules.above, rules.spot, anchor, n), rules.craft)
            == with_all_steps(
            s,
            cube_steps(grid, rules.above, rules.spot, anchor, k),
            rules.craft,
        ),
    decreases n,
{
    if k < n {
        lemma_cube_fails(s, grid, anchor, k, (n - 1) as nat, rules);
        let first = cube_steps(grid, rules.above, rules.spot, anchor, (n - 1) as nat);
        let second = tetrahedron_steps(
            grid,
            rules.spot,
            tetrahedron_points(anchor, n - 1),
            tetrahedron_flags(grid, rules.above, anchor, n - 1),
        );
        lemma_steps_append(s, first, second, second.len(), rules.craft);
        assert((first + second).len() == first.len() + second.len());
    }
}

/// What one cube adds.
pub open spec fn cube_rule<T: Copy + PartialEq, V, E>(
    samples: SparseGrid3<T>,
    rules: Rules<T, V, E>,
) -> spec_fn(MeshState, UVec3) -> Result<MeshState, BuildError<E>> {
    |s: MeshState, anchor: UVec3| with_cube(s, samples, anchor, rules)
}

/// The triangles of a tetrahedron are grounded.
proof fn lemma_tetrahedron_grounded<T: Copy + PartialEq>(
    samples: SparseGrid3<T>,
    spot: Spotter<T>,
    points: Seq<UVec3>,
    above: Seq<bool>,
)
    ensures
        grounded(
            tetrahedron_steps(samples, spot, points, above),
            tetrahedron_steps(samples, spot, points, above).len() as int,
        ),
{
    let ins = those(above, true, 4);
    let outs = those(above, false, 4);
    if ins.len() == 1 {
        let i = points[ins[0]];
        lemma_triangle_grounded(
            edge_key(samples, spot, i, points[outs[0]]),
            edge_key(samples, spot, i, points[outs[1]]),
            edge_key(samples, spot, i, points[outs[2]]),
            i,
            false,
        );
    } else if ins.len() == 3 {
        let o = points[outs[0]];
        lemma_triangle_grounded(
            edge_key(samples, spot, o, points[ins[0]]),
            edge_key(samples, spot, o, points[ins[1]]),
            edge_key(samples, spot, o, points[ins[2]]),
            points[ins[0]],
            false,
        );
    } else if ins.len() == 2 {
        let p00 = edge_key(samples, spot, points[ins[0]], points[outs[0]]);
        let p01 = edge_key(samples, spot, points[ins[0]], points[outs[1]]);
        let p10 = edge_key(samples, spot, points[ins[1]], points[outs[0]]);
        let p11 = edge_key(samples, spot, points[ins[1]], points[outs[1]]);
        let list = quad_steps(p00, p01, p10, p11, points[ins[0]]);
        assert(list[0] == Step::Seat(p00));
        assert(list[1] == Step::Seat(p01));
        assert(list[2] == Step::Seat(p10));
        assert(list[3] == Step::Seat(p11));
    }
}

/// The triangles of a cube are grounded.
pub proof fn lemma_cube_grounded<T: Copy + PartialEq>(
    samples: SparseGrid3<T>,
    above: spec_fn(T) -> bool,
    spot: Spotter<T>,
    anchor: UVec3,
    k: nat,
)
    ensures
        grounded(
            cube_steps(samples, above, spot, anchor, k),
            cube_steps(samples, above, spot, anchor, k).len() as int,
        ),
    decreases k,
{
    if k > 0 {
        lemma_cube_grounded(samples, above, spot, anchor, (k - 1) as nat);
        let points = tetrahedron_points(anchor, k - 1);
        let flags = tetrahedron_flags(samples, above, anchor, k - 1);
        lemma_tetrahedron_grounded(samples, spot, points, flags);
        lemma_grounded_append(
            cube_steps(samples, above, spot, anchor, (k - 1) as nat),
            tetrahedron_steps(samples, spot, points, flags),
        );
    }
}

/// A cube keeps a mesh well built.
pub proof fn lemma_cube_well_built<T: Copy + PartialEq, V, E>(
    s: MeshState,
    samples: SparseGrid3<T>,
    anchor: UVec3,
    rules: Rules<T, V, E>,
)
    requires
        well_built(s),
    ensures
        with_cube(s, samples, anchor, rules) matches Ok(t) ==> well_built(t),
{
    let list = cube_steps(samples, rules.above, rules.spot, anchor, 6);
    lemma_cube_grounded(samples, rules.above, rules.spot, anchor, 6);
    lemma_steps_well_built(s, list, list.len(), rules.craft);
}

/// Meshes the active cubes inside `aabb`.
pub fn mesh_level_aabb<
    T: Copy + PartialEq,
    V: Copy,
    E,
    A: Fn(T) -> bool,
    K: Fn(T, T) -> EdgeSpot,
    M: Fn(VertexKey) -> Result<V, E>,
    J: Fn(V, V, V, UVec3) -> FaceVerdict,
>(
    samples: &SparseGrid3<T>,
    active: &SparseGrid3<Present>,
    aabb: Aabb3u,
    above: &A,
    spot: &K,
    make: &M,
    judge: &J,
) -> (r: Result<Mesher<V>, BuildError<E>>)
    requires
        samples.wf(),
        active.wf(),
        total1(*above),
        total2(*spot),
        total1(*make),
        total4(*judge),
    ensures
        r matches Ok(mesher) ==> mesher.wf(*make),
        exists|anchors: Seq<UVec3>| #[trigger]
            visits(*active, aabb, anchors) && forall|rules: Rules<T, V, E>| #[trigger]
                follows(*above, *spot, *make, *judge, rules) ==> meshed(
                    with_cubes(cube_rule(*samples, rules), anchors, anchors.len()),
                    r,
                ),
{
    let anchors = list_anchors(active, aabb);
    let mut mesher: Mesher<V> = Mesher::new();
    let mut accessor = samples.accessor();
    let mut n: usize = 0;
    proof {
        assert(mesher.state() == (MeshState { keys: Seq::empty(), faces: Seq::empty() }));
    }
    while n < anchors.len()
        invariant
            n <= anchors@.len(),
            visits(*active, aabb, anchors@),
            forall|a: int|
                0 <= a < anchors@.len() ==> inside(#[trigger] anchors@[a], active.limits()),
            mesher.wf(*make),
            accessor.wf(),
            accessor.source() == *samples,
            total1(*above),
            total2(*spot),
            total1(*make),
            total4(*judge),
            forall|rules: Rules<T, V, E>| #[trigger]
                follows(*above, *spot, *make, *judge, rules) ==> with_cubes(
                    cube_rule(*samples, rules),
                    anchors@,
                    n as nat,
                ) == Ok::<MeshState, BuildError<E>>(mesher.state()),
        decreases anchors@.len() - n,
    {
        assert(inside(anchors@[n as int], active.limits()));
        match march_cube(&mut mesher, &mut accessor, anchors[n], above, spot, make, judge) {
            Ok(()) => {},
            Err(e) => {
                proof {
                    assert forall|rules: Rules<T, V, E>| #[trigger]
                        follows(*above, *spot, *make, *judge, rules) implies with_cubes(
                        cube_rule(*samples, rules),
                        anchors@,
                        anchors@.len(),
                    ) == Err::<MeshState, BuildError<E>>(e) by {
                        lemma_cubes_fail(
                            cube_rule(*samples, rules),
                            anchors@,
                            (n + 1) as nat,
                            anchors@.len(),
                        );
                    }
                }
                return Err(e);
            },
        }
        n += 1;
    }
    Ok(mesher)
}

} // verus!
