//! Walks over lattice points and cubes.

use vstd::prelude::*;

use crate::isosurface::mesher::{BuildError, MeshState};
use crate::utility::sparse_grid3::aabb::Aabb3u;
use crate::utility::sparse_grid3::grid::{inside, visited_before, SparseGrid3};
use crate::utility::sparse_grid3::value::Present;
use crate::vec3::UVec3;

verus! {

/// Lexicographic order of lattice points.
pub open spec fn point_le(a: UVec3, b: UVec3) -> bool {
    a.x < b.x || (a.x == b.x && (a.y < b.y || (a.y == b.y && a.z <= b.z)))
}

/// True when `a` does not come after `b`.
pub fn grid_point_le(a: UVec3, b: UVec3) -> (r: bool)
    ensures
        r == point_le(a, b),
{
    a.x < b.x || (a.x == b.x && (a.y < b.y || (a.y == b.y && a.z <= b.z)))
}

/// The two points in order.
pub open spec fn in_order(a: UVec3, b: UVec3) -> (UVec3, UVec3) {
    if point_le(a, b) {
        (a, b)
    } else {
        (b, a)
    }
}

/// `anchors` are the marked points of `active` inside `aabb`, in walk order.
pub open spec fn visits(
    active: SparseGrid3<Present>,
    aabb: Aabb3u,
    anchors: Seq<UVec3>,
) -> bool {
    &&& forall|a: int|
        0 <= a < anchors.len() ==> aabb.has(#[trigger] anchors[a]) && active.at(
            anchors[a],
        ) is Some
    &&& forall|p: UVec3|
        aabb.has(p) && (#[trigger] active.at(p)) is Some ==> anchors.contains(p)
    &&& forall|a: int, b: int|
        0 <= a < b < anchors.len() ==> visited_before(
            #[trigger] anchors[a],
            #[trigger] anchors[b],
        )
}

/// Two lists with the same items, each in strict order, are the same list.
pub proof fn lemma_same_order<A>(a: Seq<A>, b: Seq<A>, before: spec_fn(A, A) -> bool)
    requires
        forall|x: A, y: A| #[trigger] before(x, y) ==> !before(y, x),
        forall|i: int, j: int|
            0 <= i < j < a.len() ==> before(#[trigger] a[i], #[trigger] a[j]),
        forall|i: int, j: int|
            0 <= i < j < b.len() ==> before(#[trigger] b[i], #[trigger] b[j]),
        forall|x: A| #[trigger] a.contains(x) ==> b.contains(x),
        forall|x: A| #[trigger] b.contains(x) ==> a.contains(x),
    ensures
        a == b,
{
    lemma_same_start(a, b, before, a.len());
    lemma_same_start(b, a, before, b.len());
    assert(a =~= b);
}

/// The first `n` items of a list are those of the other.
proof fn lemma_same_start<A>(a: Seq<A>, b: Seq<A>, before: spec_fn(A, A) -> bool, n: nat)
    requires
        n <= a.len(),
        forall|x: A, y: A| #[trigger] before(x, y) ==> !before(y, x),
        forall|i: int, j: int|
            0 <= i < j < a.len() ==> before(#[trigger] a[i], #[trigger] a[j]),
        forall|i: int, j: int|
            0 <= i < j < b.len() ==> before(#[trigger] b[i], #[trigger] b[j]),
        forall|x: A| #[trigger] a.contains(x) ==> b.contains(x),
        forall|x: A| #[trigger] b.contains(x) ==> a.contains(x),
    ensures
        n <= b.len(),
        forall|i: int| 0 <= i < n ==> #[trigger] a[i] == b[i],
    decreases n,
{
    if n > 0 {
        let i = n - 1;
        lemma_same_start(a, b, before, i as nat);
        assert(a.contains(a[i]));
        let k = choose|k: int| 0 <= k < b.len() && b[k] == a[i];
        if k < i {
            assert(a[k] == b[k]);
            assert(before(a[k], a[i]));
        }
        if k > i {
            assert(before(b[i], b[k]));
            assert(b.contains(b[i]));
            let m = choose|m: int| 0 <= m < a.len() && a[m] == b[i];
            if m < i {
                assert(a[m] == b[m]);
                assert(before(b[m], b[i]));
            } else if m > i {
                assert(before(a[i], a[m]));
            }
        }
    }
}

/// The walk through the marked points inside a box depends on the marked points alone.
pub proof fn lemma_same_visits(
    a: SparseGrid3<Present>,
    b: SparseGrid3<Present>,
    aabb: Aabb3u,
    anchors: Seq<UVec3>,
    others: Seq<UVec3>,
)
    requires
        forall|p: UVec3| #[trigger] a.at(p) == b.at(p),
        visits(a, aabb, anchors),
        visits(b, aabb, others),
    ensures
        anchors == others,
{
    assert forall|p: UVec3| #[trigger] anchors.contains(p) implies others.contains(p) by {
        let i = choose|i: int| 0 <= i < anchors.len() && anchors[i] == p;
        assert(a.at(anchors[i]) is Some);
        assert(b.at(p) is Some);
    }
    assert forall|p: UVec3| #[trigger] others.contains(p) implies anchors.contains(p) by {
        let i = choose|i: int| 0 <= i < others.len() && others[i] == p;
        assert(b.at(others[i]) is Some);
        assert(a.at(p) is Some);
    }
    lemma_same_order(anchors, others, |p: UVec3, q: UVec3| visited_before(p, q));
}

/// The marked points of `active` inside `aabb`, in walk order.
pub fn list_anchors(active: &SparseGrid3<Present>, aabb: Aabb3u) -> (v: Vec<UVec3>)
    requires
        active.wf(),
    ensures
        visits(*active, aabb, v@),
        forall|a: int| 0 <= a < v@.len() ==> inside(#[trigger] v@[a], active.limits()),
{
    let found = active.for_each_present_in_aabb(aabb);
    let mut out: Vec<UVec3> = Vec::with_capacity(found.len());
    let mut i: usize = 0;
    while i < found.len()
        invariant
            i <= found@.len(),
            out@.len() == i,
            forall|a: int| 0 <= a < i ==> #[trigger] out@[a] == found@[a].0,
        decreases found@.len() - i,
    {
        out.push(found[i].0);
        i += 1;
    }
    proof {
        assert forall|p: UVec3| aabb.has(p) && (#[trigger] active.at(p)) is Some implies out@.contains(
            p,
        ) by {
            assert(found@.contains((p, active.at(p)->0)));
            let a = choose|a: int| 0 <= a < found@.len() && found@[a] == (p, active.at(p)->0);
            assert(out@[a] == p);
        }
        assert forall|a: int, b: int| 0 <= a < b < out@.len() implies visited_before(
            #[trigger] out@[a],
            #[trigger] out@[b],
        ) by {
            assert(visited_before(found@[a].0, found@[b].0));
        }
        assert forall|a: int| 0 <= a < out@.len() implies aabb.has(#[trigger] out@[a])
            && active.at(out@[a]) is Some by {
            assert(aabb.has(found@[a].0));
        }
    }
    out
}

/// The mesh after the first `n` of a list of cubes, from an empty mesh. `cube` says what one
/// cube adds.
pub open spec fn with_cubes<E>(
    cube: spec_fn(MeshState, UVec3) -> Result<MeshState, BuildError<E>>,
    anchors: Seq<UVec3>,
    n: nat,
) -> Result<MeshState, BuildError<E>>
    decreases n,
{
    if n == 0 {
        Ok(MeshState { keys: Seq::empty(), faces: Seq::empty() })
    } else {
        match with_cubes(cube, anchors, (n - 1) as nat) {
            Err(e) => Err(e),
            Ok(s) => cube(s, anchors[n - 1]),
        }
    }
}

/// Once a cube fails, the list fails.
pub proof fn lemma_cubes_fail<E>(
    cube: spec_fn(MeshState, UVec3) -> Result<MeshState, BuildError<E>>,
    anchors: Seq<UVec3>,
    i: nat,
    n: nat,
)
    requires
        i <= n,
        with_cubes(cube, anchors, i) is Err,
    ensures
        with_cubes(cube, anchors, n) == with_cubes(cube, anchors, i),
    decreases n,
{
    if i < n {
        lemma_cubes_fail(cube, anchors, i, (n - 1) as nat);
    }
}

} // verus!
