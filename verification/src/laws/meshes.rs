//! Mesh clean-up: which vertices merge, and which triangles stay.

use vstd::prelude::*;

use crate::isosurface::dedup::{
    candidate, dedup_outcome, is_plan, judged, looked_at_before, merged, neighboring, placed,
    remapped, uv_of, verdicts_on, visit_rank, BucketKey, BucketRule, NearRule,
};
use crate::isosurface::mesh::{
    face_refusal, flipped, removal, vertex_refusal, worth_keeping, Mesh3D, MeshError,
};

verus! {

/// Two buckets are the same or lie next to each other: their parts differ by at most one. Without
/// texture coordinates only the three parts of the position may differ.
pub open spec fn adjacent_buckets(k: BucketKey, c: BucketKey, use_uv: bool) -> bool {
    &&& -1 <= c@[0] - k@[0] <= 1
    &&& -1 <= c@[1] - k@[1] <= 1
    &&& -1 <= c@[2] - k@[2] <= 1
    &&& use_uv ==> -1 <= c@[3] - k@[3] <= 1 && -1 <= c@[4] - k@[4] <= 1
    &&& !use_uv ==> c@[3] == k@[3] && c@[4] == k@[4]
}

/// Bucket `c` is visited before bucket `d`: by the third part of the position first, then by the
/// second and the first, and then by the second and the first part of the texture coordinate.
pub open spec fn visited_earlier(c: BucketKey, d: BucketKey, use_uv: bool) -> bool {
    if c@[2] != d@[2] {
        c@[2] < d@[2]
    } else if c@[1] != d@[1] {
        c@[1] < d@[1]
    } else if c@[0] != d@[0] {
        c@[0] < d@[0]
    } else if use_uv && c@[4] != d@[4] {
        c@[4] < d@[4]
    } else {
        use_uv && c@[3] < d@[3]
    }
}

/// Only adjacent buckets are looked at, in order of visit.
pub proof fn law_bucket_visits(k: BucketKey, c: BucketKey, d: BucketKey, use_uv: bool)
    ensures
        neighboring(k, c, use_uv) <==> adjacent_buckets(k, c, use_uv),
        neighboring(k, c, use_uv) && neighboring(k, d, use_uv) ==> (visit_rank(k, c, use_uv)
            < visit_rank(k, d, use_uv) <==> visited_earlier(c, d, use_uv)),
{
}

/// Vertex `i` of a mesh gets number `t`. Each number belongs to one kept vertex, in order. The
/// vertex is kept itself, and then it is near no earlier kept vertex of an adjacent bucket; or
/// an earlier kept vertex of an adjacent bucket is near it, the first such in order of visit.
pub open spec fn numbered_well<P, U>(
    old: Mesh3D<P, U>,
    near: NearRule<P, U>,
    keys: Seq<BucketKey>,
    kept: Seq<usize>,
    i: int,
    t: int,
) -> bool {
    let use_uv = old.uv@.len() > 0;
    let uv = |j: int|
        if use_uv {
            Some(old.uv@[j])
        } else {
            None
        };
    let verdict = |j: int, v: bool| near(old.positions@[i], uv(i), old.positions@[j], uv(j), v);
    &&& 0 <= t < kept.len()
    &&& kept[t] <= i
    &&& kept[t] == i ==> forall|c: int|
        0 <= c < t && adjacent_buckets(keys[i], keys[#[trigger] kept[c] as int], use_uv)
            ==> verdict(kept[c] as int, false)
    &&& kept[t] < i ==> {
        &&& adjacent_buckets(keys[i], keys[kept[t] as int], use_uv)
        &&& verdict(kept[t] as int, true)
        &&& forall|c: int|
            0 <= c < kept.len() && (#[trigger] kept[c]) < i && adjacent_buckets(
                keys[i],
                keys[kept[c] as int],
                use_uv,
            ) && (visited_earlier(keys[kept[c] as int], keys[kept[t] as int], use_uv) || (
            !visited_earlier(keys[kept[t] as int], keys[kept[c] as int], use_uv) && c < t))
                ==> verdict(kept[c] as int, false)
    }
}

/// The vertices of `new` are the kept ones of `old`, in order, and its faces those of `old` with
/// their corners renumbered.
pub open spec fn renumbered<P, U>(
    old: Mesh3D<P, U>,
    new: Mesh3D<P, U>,
    remap: Seq<u32>,
    kept: Seq<usize>,
) -> bool {
    &&& new.positions@.len() == kept.len()
    &&& forall|c: int|
        0 <= c < kept.len() ==> (#[trigger] kept[c]) < old.positions@.len() && new.positions@[c]
            == old.positions@[kept[c] as int]
    &&& old.uv@.len() == 0 ==> new.uv@.len() == 0
    &&& old.uv@.len() > 0 ==> new.uv@.len() == kept.len() && forall|c: int|
        0 <= c < kept.len() ==> new.uv@[c] == old.uv@[#[trigger] kept[c] as int]
    &&& forall|c: int, d: int| 0 <= c < d < kept.len() ==> kept[c] < kept[d]
    &&& new.indices@.len() == old.indices@.len()
    &&& forall|f: int, k: int|
        0 <= f < old.indices@.len() && 0 <= k < 3 ==> #[trigger] new.indices@[f]@[k]
            == remap[old.indices@[f]@[k] as int]
}

/// Merging keeps the first vertex of every group and renumbers the corners of all faces: each
/// vertex gets the number of the first near vertex that is kept, or a number of its own.
pub proof fn law_merged_mesh<P, U>(
    old: Mesh3D<P, U>,
    new: Mesh3D<P, U>,
    buckets: BucketRule<P, U>,
    near: NearRule<P, U>,
    removed: usize,
) -> (r: (Seq<BucketKey>, Seq<u32>, Seq<usize>))
    requires
        old.positions@.len() > 0,
        dedup_outcome(old, new, buckets, near, Ok::<usize, MeshError>(removed)),
    ensures
        removed == old.positions@.len() - new.positions@.len(),
        old.uv@.len() == 0 || old.uv@.len() == old.positions@.len(),
        r.0.len() == old.positions@.len(),
        r.1.len() == old.positions@.len(),
        forall|i: int|
            0 <= i < old.positions@.len() ==> buckets(
                old.positions@[i],
                if old.uv@.len() > 0 {
                    Some(old.uv@[i])
                } else {
                    None
                },
                Ok::<BucketKey, MeshError>(#[trigger] r.0[i]),
            ),
        renumbered(old, new, r.1, r.2),
        forall|i: int|
            0 <= i < old.positions@.len() ==> numbered_well(
                old,
                near,
                r.0,
                r.2,
                i,
                #[trigger] r.1[i] as int,
            ),
{
    let (keys, remap, kept) = choose|keys: Seq<BucketKey>, remap: Seq<u32>, kept: Seq<usize>|
        #[trigger] merged(old, new, buckets, near, keys, remap, kept);
    let use_uv = old.uv@.len() > 0;
    let pairs = verdicts_on(old@, near);
    assert forall|i: int| 0 <= i < old.positions@.len() implies buckets(
        old.positions@[i],
        if old.uv@.len() > 0 {
            Some(old.uv@[i])
        } else {
            None
        },
        Ok::<BucketKey, MeshError>(#[trigger] keys[i]),
    ) by {
        assert(uv_of(old@, i) == if use_uv {
            Some(old.uv@[i])
        } else {
            None
        });
    }
    assert forall|i: int| 0 <= i < old.positions@.len() implies numbered_well(
        old,
        near,
        keys,
        kept,
        i,
        #[trigger] remap[i] as int,
    ) by {
        lemma_numbered_well(old, near, keys, remap, kept, i);
    }
    assert forall|f: int, k: int| 0 <= f < old.indices@.len() && 0 <= k < 3 implies
        #[trigger] new.indices@[f]@[k] == remap[old.indices@[f]@[k] as int] by {
        assert(new.indices@[f] == remapped(old.indices@[f], remap));
        assert(k == 0 || k == 1 || k == 2);
    }
    (keys, remap, kept)
}

proof fn lemma_numbered_well<P, U>(
    old: Mesh3D<P, U>,
    near: NearRule<P, U>,
    keys: Seq<BucketKey>,
    remap: Seq<u32>,
    kept: Seq<usize>,
    i: int,
)
    requires
        is_plan(
            keys,
            verdicts_on(old@, near),
            old.uv@.len() > 0,
            old.positions@.len() as int,
            remap,
            kept,
        ),
        0 <= i < old.positions@.len(),
    ensures
        numbered_well(old, near, keys, kept, i, remap[i] as int),
{
    let use_uv = old.uv@.len() > 0;
    let pairs = verdicts_on(old@, near);
    let t = remap[i] as int;
    assert(placed(keys, pairs, use_uv, kept, i, remap[i]));
    assert forall|c: int| 0 <= c < kept.len() && (#[trigger] kept[c]) < i && adjacent_buckets(
        keys[i],
        keys[kept[c] as int],
        use_uv,
    ) implies candidate(keys, use_uv, kept, i, c) by {
        law_bucket_visits(keys[i], keys[kept[c] as int], keys[kept[c] as int], use_uv);
    }
    if kept[t] == i {
        assert forall|c: int|
            0 <= c < t && adjacent_buckets(keys[i], keys[#[trigger] kept[c] as int], use_uv) implies
            pairs(i, kept[c] as int, false) by {
            assert(kept[c] < kept[t]);
            assert(candidate(keys, use_uv, kept, i, c));
            assert(judged(pairs, i, kept[c], false));
        }
    } else {
        assert(candidate(keys, use_uv, kept, i, t));
        assert(judged(pairs, i, kept[t], true));
        law_bucket_visits(keys[i], keys[kept[t] as int], keys[kept[t] as int], use_uv);
        assert forall|c: int|
            0 <= c < kept.len() && (#[trigger] kept[c]) < i && adjacent_buckets(
                keys[i],
                keys[kept[c] as int],
                use_uv,
            ) && (visited_earlier(keys[kept[c] as int], keys[kept[t] as int], use_uv) || (
            !visited_earlier(keys[kept[t] as int], keys[kept[c] as int], use_uv) && c < t)) implies
            pairs(i, kept[c] as int, false) by {
            assert(candidate(keys, use_uv, kept, i, c));
            law_bucket_visits(keys[i], keys[kept[c] as int], keys[kept[t] as int], use_uv);
            law_bucket_visits(keys[i], keys[kept[t] as int], keys[kept[c] as int], use_uv);
            assert(looked_at_before(keys, use_uv, kept, i, c, t));
            assert(judged(pairs, i, kept[c], false));
        }
    }
}

/// Removing degenerate triangles keeps, in order, exactly the faces with three different corners
/// that are not too small; every face with three different corners must refer to finite
/// positions.
pub proof fn law_removal<P>(
    positions: Seq<P>,
    before: Seq<[u32; 3]>,
    after: Seq<[u32; 3]>,
    finite: spec_fn(P) -> bool,
    tiny: spec_fn(P, P, P) -> bool,
    removed: usize,
)
    requires
        removal(positions, before, after, finite, tiny, Ok::<usize, MeshError>(removed)),
    ensures
        after == before.filter(
            |f: [u32; 3]|
                f@[0] != f@[1] && f@[0] != f@[2] && f@[1] != f@[2] && !tiny(
                    positions[f@[0] as int],
                    positions[f@[1] as int],
                    positions[f@[2] as int],
                ),
        ),
        forall|i: int, k: int|
            0 <= i < before.len() && 0 <= k < 3 && before[i]@[0] != before[i]@[1] && before[i]@[0]
                != before[i]@[2] && before[i]@[1] != before[i]@[2] ==> (
            #[trigger] before[i]@[k] as int) < positions.len() && finite(
                positions[before[i]@[k] as int],
            ),
{
    let a = |f: [u32; 3]| worth_keeping(positions, f, tiny);
    let b = |f: [u32; 3]|
        f@[0] != f@[1] && f@[0] != f@[2] && f@[1] != f@[2] && !tiny(
            positions[f@[0] as int],
            positions[f@[1] as int],
            positions[f@[2] as int],
        );
    assert forall|f: [u32; 3]| #[trigger] a(f) == b(f) by {}
    assert(a =~= b);
    assert forall|i: int, k: int|
        0 <= i < before.len() && 0 <= k < 3 && before[i]@[0] != before[i]@[1] && before[i]@[0]
            != before[i]@[2] && before[i]@[1] != before[i]@[2] implies (
    #[trigger] before[i]@[k] as int) < positions.len() && finite(positions[before[i]@[k] as int]) by {
        assert(face_refusal(positions, before[i], finite) is None);
        assert(k == 0 || k == 1 || k == 2);
    }
}

/// Removing degenerate triangles is refused for a face with three different corners of which one
/// does not exist or is not finite.
pub proof fn law_removal_refused<P>(
    positions: Seq<P>,
    before: Seq<[u32; 3]>,
    after: Seq<[u32; 3]>,
    finite: spec_fn(P) -> bool,
    tiny: spec_fn(P, P, P) -> bool,
    e: MeshError,
)
    requires
        removal(positions, before, after, finite, tiny, Err::<usize, MeshError>(e)),
    ensures
        exists|i: int, k: int|
            0 <= i < before.len() && 0 <= k < 3 && before[i]@[0] != before[i]@[1] && before[i]@[0]
                != before[i]@[2] && before[i]@[1] != before[i]@[2] && (if (
            #[trigger] before[i]@[k] as int) < positions.len() {
                e == MeshError::NotFinite && !finite(positions[before[i]@[k] as int])
            } else {
                e == MeshError::IndexOutOfBounds
            }),
{
    let i = choose|i: int|
        0 <= i < before.len() && face_refusal(positions, #[trigger] before[i], finite) == Some(e)
            && forall|j: int|
            0 <= j < i ==> face_refusal(positions, #[trigger] before[j], finite) is None;
    let k: int = if vertex_refusal(positions, before[i]@[0], finite) is Some {
        0
    } else if vertex_refusal(positions, before[i]@[1], finite) is Some {
        1
    } else {
        2
    };
    assert(vertex_refusal(positions, before[i]@[k], finite) == Some(e));
    let corner = before[i]@[k];
}

/// A face that is turned over has its second and third corner exchanged.
pub proof fn law_turned_face(face: [u32; 3])
    ensures
        flipped(face)@ =~= seq![face@[0], face@[2], face@[1]],
{
}

} // verus!
