//! What steps of building a mesh leave behind: which triangles a mesh has, by their vertices.

use vstd::prelude::*;

use crate::isosurface::{level_meshes, with_level};
use crate::isosurface::mesh::{
    face_within, law_merge_keeps_geometry, merge_of, merge_refusal, merged_list, shift_fits,
    shifted, sound, MeshError, MeshModel,
};
use crate::isosurface::mesher::{
    corners_below, grounded, law_same_corners, lemma_seated, lemma_steps_well_built, payload,
    same_corners, seat_of, seats_before, seen, well_built, with_step, with_steps, BuildError, Craft,
    FaceVerdict, MeshState, Step, VertexKey,
};
use crate::vec3::UVec3;

verus! {

/// The keys of the corners of a face.
pub open spec fn keys_of(s: MeshState, f: int) -> (VertexKey, VertexKey, VertexKey) {
    let face = s.faces[f];
    (s.keys[face@[0] as int], s.keys[face@[1] as int], s.keys[face@[2] as int])
}

/// `k` is one of three keys.
pub open spec fn among(k: VertexKey, t: (VertexKey, VertexKey, VertexKey)) -> bool {
    k == t.0 || k == t.1 || k == t.2
}

/// Some face has these corners, in some order.
pub open spec fn has_face(s: MeshState, a: VertexKey, b: VertexKey, c: VertexKey) -> bool {
    exists|f: int|
        0 <= f < s.faces.len() && among(a, #[trigger] keys_of(s, f)) && among(b, keys_of(s, f))
            && among(c, keys_of(s, f))
}

/// `t` has the vertices and faces of `s`, in their places, and may have more.
pub open spec fn extends(s: MeshState, t: MeshState) -> bool {
    &&& s.keys.len() <= t.keys.len()
    &&& s.faces.len() <= t.faces.len()
    &&& forall|i: int| 0 <= i < s.keys.len() ==> #[trigger] t.keys[i] == s.keys[i]
    &&& forall|f: int| 0 <= f < s.faces.len() ==> #[trigger] t.faces[f] == s.faces[f]
}

/// The verdict on a triangle.
pub open spec fn verdict_on<V, E>(
    craft: Craft<V, E>,
    a: VertexKey,
    b: VertexKey,
    c: VertexKey,
    inside: UVec3,
) -> FaceVerdict {
    (craft.judge)(
        (craft.make)(a)->Ok_0,
        (craft.make)(b)->Ok_0,
        (craft.make)(c)->Ok_0,
        inside,
    )
}

/// The corners of a new face, in the order that the verdict on the triangle asks for.
pub open spec fn oriented(
    v: FaceVerdict,
    a: VertexKey,
    b: VertexKey,
    c: VertexKey,
    t: (VertexKey, VertexKey, VertexKey),
) -> bool {
    ||| v == FaceVerdict::Keep && t == (a, b, c)
    ||| v == FaceVerdict::Swap && t == (b, a, c)
}

/// Step `j` of a list asks for face `f`.
pub open spec fn asked_for<V, E>(
    list: Seq<Step>,
    j: int,
    s: MeshState,
    f: int,
    craft: Craft<V, E>,
) -> bool {
    list[j] matches Step::Face(a, b, c, inside) && a != b && b != c && c != a && oriented(
        verdict_on(craft, a, b, c, inside),
        a,
        b,
        c,
        keys_of(s, f),
    )
}

/// One of the first `n` steps asks for face `f`.
pub open spec fn wanted_face<V, E>(
    list: Seq<Step>,
    n: nat,
    s: MeshState,
    f: int,
    craft: Craft<V, E>,
) -> bool {
    exists|j: int| 0 <= j < n && #[trigger] asked_for(list, j, s, f, craft)
}

/// Extending a well built mesh keeps the corners of its faces.
pub proof fn lemma_extends(s: MeshState, t: MeshState)
    requires
        well_built(s),
        extends(s, t),
    ensures
        forall|f: int| 0 <= f < s.faces.len() ==> #[trigger] keys_of(t, f) == keys_of(s, f),
        forall|a: VertexKey, b: VertexKey, c: VertexKey|
            has_face(s, a, b, c) ==> #[trigger] has_face(t, a, b, c),
{
    assert forall|f: int| 0 <= f < s.faces.len() implies #[trigger] keys_of(t, f) == keys_of(s, f) by {
        assert(corners_below(s.faces[f], s.keys.len()));
        assert(t.faces[f] == s.faces[f]);
    }
    assert forall|a: VertexKey, b: VertexKey, c: VertexKey| has_face(s, a, b, c) implies
        #[trigger] has_face(t, a, b, c) by {
        let f = choose|f: int|
            0 <= f < s.faces.len() && among(a, #[trigger] keys_of(s, f)) && among(b, keys_of(s, f))
                && among(c, keys_of(s, f));
        assert(keys_of(t, f) == keys_of(s, f));
    }
}

/// What one step does.
proof fn lemma_step<V, E>(s: MeshState, step: Step, craft: Craft<V, E>)
    requires
        well_built(s),
        step matches Step::Face(a, b, c, _) ==> s.keys.contains(a) && s.keys.contains(b)
            && s.keys.contains(c),
    ensures
        with_step(s, step, craft) matches Ok(t) ==> {
            &&& extends(s, t)
            &&& step matches Step::Seat(k) ==> {
                &&& t.faces == s.faces
                &&& t.keys.contains(k)
                &&& forall|i: int| s.keys.len() <= i < t.keys.len() ==> #[trigger] t.keys[i] == k
            }
            &&& step matches Step::Face(a, b, c, inside) ==> {
                let v = verdict_on(craft, a, b, c, inside);
                &&& t.keys == s.keys
                &&& a != b && b != c && c != a && v != FaceVerdict::Flat ==> has_face(t, a, b, c)
                &&& forall|f: int|
                    s.faces.len() <= f < t.faces.len() ==> a != b && b != c && c != a && oriented(
                        v,
                        a,
                        b,
                        c,
                        #[trigger] keys_of(t, f),
                    )
            }
        },
{
    if let Ok(t) = with_step(s, step, craft) {
        match step {
            Step::Seat(k) => {
                lemma_seated(s.keys, k);
            },
            Step::Face(a, b, c, inside) => {
                let v = verdict_on(craft, a, b, c, inside);
                assert(v == (craft.judge)(
                    payload(craft.make, a),
                    payload(craft.make, b),
                    payload(craft.make, c),
                    inside,
                ));
                let (i, j, k) = (seat_of(s.keys, a), seat_of(s.keys, b), seat_of(s.keys, c));
                assert(s.keys[i] == a && s.keys[j] == b && s.keys[k] == c);
                assert(0 <= i < s.keys.len() && 0 <= j < s.keys.len() && 0 <= k < s.keys.len());
                let face = if v == FaceVerdict::Swap {
                    [j as u32, i as u32, k as u32]
                } else {
                    [i as u32, j as u32, k as u32]
                };
                assert(a != b && b != c && c != a <==> i != j && j != k && k != i);
                if a != b && b != c && c != a && v != FaceVerdict::Flat {
                    if seen(s.faces, face) {
                        let f = choose|f: int|
                            0 <= f < s.faces.len() && same_corners(#[trigger] s.faces[f], face);
                        law_same_corners(s.faces[f], face);
                        let g = s.faces[f];
                        assert(g@.len() == 3);
                        assert(among(a, keys_of(t, f)) && among(b, keys_of(t, f)) && among(
                            c,
                            keys_of(t, f),
                        ));
                    } else {
                        let f = s.faces.len() as int;
                        assert(t.faces == s.faces.push(face));
                        assert(t.faces[f] == face);
                        assert(among(a, keys_of(t, f)) && among(b, keys_of(t, f)) && among(
                            c,
                            keys_of(t, f),
                        ));
                    }
                }
            },
        }
    }
}

/// Carried out, the faces that a list of steps asks for are there, nothing that was there is
/// lost, and nothing else is added.
pub proof fn lemma_steps_faces<V, E>(s: MeshState, list: Seq<Step>, n: nat, craft: Craft<V, E>)
    requires
        well_built(s),
        n <= list.len(),
        grounded(list, n as int),
    ensures
        with_steps(s, list, n, craft) matches Ok(t) ==> {
            &&& well_built(t)
            &&& extends(s, t)
            &&& forall|j: int|
                0 <= j < n ==> (#[trigger] list[j] matches Step::Seat(k) ==> t.keys.contains(k))
            &&& forall|j: int|
                0 <= j < n ==> (#[trigger] list[j] matches Step::Face(a, b, c, inside) ==> (a != b
                    && b != c && c != a && verdict_on(craft, a, b, c, inside) != FaceVerdict::Flat
                    ==> has_face(t, a, b, c)))
            &&& forall|f: int|
                s.faces.len() <= f < t.faces.len() ==> #[trigger] wanted_face(list, n, t, f, craft)
            &&& forall|i: int|
                s.keys.len() <= i < t.keys.len() ==> seats_before(
                    list,
                    n as int,
                    #[trigger] t.keys[i],
                )
        },
    decreases n,
{
    lemma_steps_well_built(s, list, n, craft);
    if n > 0 {
        let m = (n - 1) as nat;
        lemma_steps_faces(s, list, m, craft);
        lemma_steps_well_built(s, list, m, craft);
        if with_steps(s, list, n, craft) is Ok {
            let u = with_steps(s, list, m, craft)->Ok_0;
            let t = with_steps(s, list, n, craft)->Ok_0;
            if let Step::Face(a, b, c, _) = list[n - 1] {
                assert(seats_before(list, n - 1, a));
                assert(seats_before(list, n - 1, b));
                assert(seats_before(list, n - 1, c));
            }
            lemma_step(u, list[n - 1], craft);
            lemma_extends(u, t);
            assert forall|i: int| 0 <= i < s.keys.len() implies #[trigger] t.keys[i] == s.keys[i] by {
                assert(u.keys[i] == s.keys[i]);
            }
            assert forall|f: int| 0 <= f < s.faces.len() implies #[trigger] t.faces[f]
                == s.faces[f] by {
                assert(u.faces[f] == s.faces[f]);
            }
            assert forall|j: int| 0 <= j < n implies (#[trigger] list[j] matches Step::Seat(k)
                ==> t.keys.contains(k)) by {
                if j < m {
                    if let Step::Seat(k) = list[j] {
                        let i = choose|i: int| 0 <= i < u.keys.len() && u.keys[i] == k;
                        assert(t.keys[i] == k);
                    }
                }
            }
            assert forall|f: int| s.faces.len() <= f < t.faces.len() implies #[trigger] wanted_face(
                list,
                n,
                t,
                f,
                craft,
            ) by {
                if f < u.faces.len() {
                    assert(wanted_face(list, m, u, f, craft));
                    let j = choose|j: int| 0 <= j < m && #[trigger] asked_for(list, j, u, f, craft);
                    assert(keys_of(t, f) == keys_of(u, f));
                    assert(asked_for(list, j, t, f, craft));
                } else {
                    let keys = keys_of(t, f);
                    assert(asked_for(list, n - 1, t, f, craft));
                }
            }
            assert forall|i: int| s.keys.len() <= i < t.keys.len() implies seats_before(
                list,
                n as int,
                #[trigger] t.keys[i],
            ) by {
                if i < u.keys.len() {
                    assert(seats_before(list, m as int, u.keys[i]));
                    let j = choose|j: int| 0 <= j < m && #[trigger] list[j] == Step::Seat(u.keys[i]);
                    assert(list[j] == Step::Seat(t.keys[i]));
                } else {
                    assert(list[n - 1] == Step::Seat(t.keys[i]));
                }
            }
        }
    }
}

/// Position and texture coordinate of corner `k` of face `f`.
pub open spec fn corner<P, U>(m: MeshModel<P, U>, f: int, k: int) -> (P, U) {
    (m.positions[m.indices[f]@[k] as int], m.uv[m.indices[f]@[k] as int])
}

/// The corners of face `f`.
pub open spec fn triangle<P, U>(m: MeshModel<P, U>, f: int) -> ((P, U), (P, U), (P, U)) {
    (corner(m, f, 0), corner(m, f, 1), corner(m, f, 2))
}

/// All triangles of a mesh, in order.
pub open spec fn triangles<P, U>(m: MeshModel<P, U>) -> Seq<((P, U), (P, U), (P, U))> {
    Seq::new(m.indices.len(), |f: int| triangle(m, f))
}

/// A merged mesh has the vertices and the triangles of both meshes, those of the first mesh
/// before those of the second.
pub proof fn law_merge_triangles<P, U>(dest: MeshModel<P, U>, src: MeshModel<P, U>)
    requires
        merge_refusal(dest, src) is None,
        sound(dest),
        sound(src),
    ensures
        sound(merge_of(dest, src)),
        merge_of(dest, src).positions == dest.positions + src.positions,
        merge_of(dest, src).uv == dest.uv + src.uv,
        triangles(merge_of(dest, src)) == triangles(dest) + triangles(src),
{
    let m = merge_of(dest, src);
    let n = dest.indices.len() as int;
    let base = dest.positions.len() as int;
    law_merge_keeps_geometry(dest, src, 0, 0);
    let moved = src.indices.map_values(|face: [u32; 3]| shifted(face, base));
    assert forall|f: int| 0 <= f < m.indices.len() implies #[trigger] triangle(m, f) == if f < n {
        triangle(dest, f)
    } else {
        triangle(src, f - n)
    } by {
        if f < n {
            assert(m.indices[f] == dest.indices[f]);
            assert(face_within(dest.indices[f], dest.positions.len()));
        } else {
            assert(m.indices[f] == moved[f - n]);
            assert(shift_fits(src.indices[f - n], base));
            assert(face_within(src.indices[f - n], src.positions.len()));
        }
    }
    assert(triangles(m) =~= triangles(dest) + triangles(src));
}

/// Meshes are refused exactly when the first has more vertices than there are numbers, the
/// second has not one texture coordinate per vertex, or a renumbered corner has no number.
pub proof fn law_merge_refused<P, U>(dest: MeshModel<P, U>, src: MeshModel<P, U>)
    ensures
        merge_refusal(dest, src) is None <==> {
            &&& dest.positions.len() <= 0xffff_ffff
            &&& src.positions.len() == src.uv.len()
            &&& forall|f: int, k: int|
                0 <= f < src.indices.len() && 0 <= k < 3 ==> #[trigger] src.indices[f]@[k]
                    + dest.positions.len() <= 0xffff_ffff
        },
{
    let base = dest.positions.len() as int;
    assert forall|f: int| 0 <= f < src.indices.len() implies (shift_fits(
        #[trigger] src.indices[f],
        base,
    ) <==> src.indices[f]@[0] + base <= 0xffff_ffff && src.indices[f]@[1] + base <= 0xffff_ffff
        && src.indices[f]@[2] + base <= 0xffff_ffff) by {}
    if forall|f: int, k: int|
        0 <= f < src.indices.len() && 0 <= k < 3 ==> #[trigger] src.indices[f]@[k]
            + dest.positions.len() <= 0xffff_ffff {
        assert forall|f: int| 0 <= f < src.indices.len() implies shift_fits(
            #[trigger] src.indices[f],
            base,
        ) by {
            assert(src.indices[f]@[0] + base <= 0xffff_ffff);
            assert(src.indices[f]@[1] + base <= 0xffff_ffff);
            assert(src.indices[f]@[2] + base <= 0xffff_ffff);
        }
    }
}

/// The triangles of the first `n` meshes of a list, one mesh after the other.
pub open spec fn triangles_of_all<P, U>(list: Seq<MeshModel<P, U>>, n: nat) -> Seq<
    ((P, U), (P, U), (P, U)),
>
    decreases n,
{
    if n == 0 {
        Seq::empty()
    } else {
        triangles_of_all(list, (n - 1) as nat) + triangles(list[n - 1])
    }
}

/// A list of meshes merges into a mesh with all their triangles, in order.
pub proof fn law_merged_list_triangles<P, U>(list: Seq<MeshModel<P, U>>, n: nat)
    requires
        n <= list.len(),
        forall|i: int| 0 <= i < list.len() ==> sound(#[trigger] list[i]),
    ensures
        merged_list(list, n) matches Ok(m) ==> sound(m) && triangles(m) == triangles_of_all(list, n),
    decreases n,
{
    if n > 0 {
        law_merged_list_triangles(list, (n - 1) as nat);
        if let Ok(m) = merged_list(list, (n - 1) as nat) {
            if merge_refusal(m, list[n - 1]) is None {
                law_merge_triangles(m, list[n - 1]);
            }
        }
    } else if let Ok(m) = merged_list(list, n) {
        assert(triangles(m) =~= Seq::empty());
    }
}

/// The triangles of the levels, one level after the other; with `flip` the second and third
/// corner of each change places.
pub open spec fn triangles_of_levels<P, U>(
    parts: Seq<MeshModel<P, U>>,
    n: nat,
    flip: bool,
) -> Seq<((P, U), (P, U), (P, U))>
    decreases n,
{
    if n == 0 {
        Seq::empty()
    } else {
        triangles_of_levels(parts, (n - 1) as nat, flip) + triangles(parts[n - 1]).map_values(
            |t: ((P, U), (P, U), (P, U))|
                if flip {
                    (t.0, t.2, t.1)
                } else {
                    t
                },
        )
    }
}

/// Levels merge into a mesh with the triangles of all levels, coarse to fine, each as it was or
/// turned over.
pub proof fn law_levels_triangles<P, U>(parts: Seq<MeshModel<P, U>>, n: nat, flip: bool)
    requires
        n <= parts.len(),
        forall|i: int| 0 <= i < parts.len() ==> sound(#[trigger] parts[i]),
    ensures
        level_meshes(parts, n, flip) matches Ok(m) ==> sound(m) && triangles(m)
            == triangles_of_levels(parts, n, flip),
    decreases n,
{
    if n > 0 {
        law_levels_triangles(parts, (n - 1) as nat, flip);
        if let Ok(m) = level_meshes(parts, (n - 1) as nat, flip) {
            let part = parts[n - 1];
            if merge_refusal(m, part) is None {
                law_merge_triangles(m, part);
                let plain = merge_of(m, part);
                let w = with_level(m, part, flip);
                let start = m.indices.len() as int;
                assert forall|f: int| 0 <= f < w.indices.len() implies face_within(
                    #[trigger] w.indices[f],
                    w.positions.len(),
                ) by {
                    assert(face_within(plain.indices[f], plain.positions.len()));
                }
                let turned = triangles(part).map_values(
                    |t: ((P, U), (P, U), (P, U))|
                        if flip {
                            (t.0, t.2, t.1)
                        } else {
                            t
                        },
                );
                assert(triangles(plain).len() == start + triangles(part).len());
                assert forall|f: int| 0 <= f < w.indices.len() implies #[trigger] triangle(w, f)
                    == (triangles(m) + turned)[f] by {
                    assert(triangle(plain, f) == triangles(plain)[f]);
                    if f < start {
                        assert(w.indices[f] == plain.indices[f]);
                    }
                }
                assert(triangles(w) =~= triangles(m) + turned);
            }
        }
    } else if let Ok(m) = level_meshes(parts, n, flip) {
        assert(triangles(m) =~= Seq::empty());
    }
}

/// Building stops only for a vertex that cannot be made, with the reason for that vertex, or
/// because there is no number left for a vertex.
pub proof fn law_steps_fail<V, E>(
    s: MeshState,
    list: Seq<Step>,
    n: nat,
    craft: Craft<V, E>,
    e: BuildError<E>,
)
    requires
        n <= list.len(),
        with_steps(s, list, n, craft) == Err::<MeshState, BuildError<E>>(e),
    ensures
        exists|j: int| 0 <= j < n && #[trigger] stops_at(s, list, j, craft, e),
    decreases n,
{
    if n > 0 {
        match with_steps(s, list, (n - 1) as nat, craft) {
            Ok(_) => {
                assert(stops_at(s, list, n - 1, craft, e));
            },
            Err(f) => {
                law_steps_fail(s, list, (n - 1) as nat, craft, f);
                let j = choose|j: int| 0 <= j < n - 1 && #[trigger] stops_at(s, list, j, craft, f);
                assert(stops_at(s, list, j, craft, e));
            },
        }
    }
}

/// Step `j` asks for a new vertex that cannot be made or numbered.
pub open spec fn stops_at<V, E>(
    s: MeshState,
    list: Seq<Step>,
    j: int,
    craft: Craft<V, E>,
    e: BuildError<E>,
) -> bool {
    with_steps(s, list, j as nat, craft) matches Ok(t) && list[j] matches Step::Seat(k)
        && !t.keys.contains(k) && match (craft.make)(k) {
        Err(f) => e == BuildError::Vertex(f),
        Ok(_) => e == BuildError::<E>::Mesh(MeshError::TooManyVertices) && t.keys.len()
            >= 0x1_0000_0000,
    }
}

} // verus!
