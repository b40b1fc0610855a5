//! Merging of nearby vertices.
//!
//! Vertices are hashed into buckets; a vertex merges with a kept vertex of its own or a
//! neighbouring bucket that lies near enough.

use std::collections::HashMap;

use rayon::iter::{IntoParallelRefMutIterator, ParallelIterator};
use vstd::arithmetic::div_mod::lemma_div_denominator;
use vstd::prelude::*;

use crate::isosurface::mesh::{face_within, Mesh3D, MeshError, MeshModel};
use crate::outcome::{total2, total4};

verus! {

broadcast use vstd::std_specs::hash::group_hash_axioms;

/// Bucket coordinates: three of the position, two of the texture coordinate.
pub type BucketKey = [i64; 5];

/// `c` equals `k` or is next to it.
pub open spec fn beside(k: i64, c: i64) -> bool {
    -1 <= c - k <= 1
}

/// Bucket `c` is bucket `k` or a neighbour of it. Without texture coordinates only the
/// position parts may differ.
pub open spec fn neighboring(k: BucketKey, c: BucketKey, use_uv: bool) -> bool {
    &&& beside(k@[0], c@[0])
    &&& beside(k@[1], c@[1])
    &&& beside(k@[2], c@[2])
    &&& if use_uv {
        beside(k@[3], c@[3]) && beside(k@[4], c@[4])
    } else {
        k@[3] == c@[3] && k@[4] == c@[4]
    }
}

/// Place of neighbour `c` in the order in which the neighbours of `k` are visited: the first
/// texture part changes fastest, then the second, then the position parts x, y and z.
pub open spec fn visit_rank(k: BucketKey, c: BucketKey, use_uv: bool) -> int {
    let p = ((c@[2] - k@[2] + 1) * 3 + (c@[1] - k@[1] + 1)) * 3 + (c@[0] - k@[0] + 1);
    if use_uv {
        (p * 3 + (c@[4] - k@[4] + 1)) * 3 + (c@[3] - k@[3] + 1)
    } else {
        p
    }
}

/// Number of buckets that are visited.
pub open spec fn visit_count(use_uv: bool) -> int {
    if use_uv {
        243
    } else {
        27
    }
}

/// No part is an extreme number, so that every neighbour exists.
pub open spec fn has_neighbors(k: BucketKey) -> bool {
    forall|t: int| 0 <= t < 5 ==> i64::MIN < #[trigger] k@[t] < i64::MAX
}

/// The neighbour in place `r`.
fn neighbor_key(k: &BucketKey, r: usize, use_uv: bool) -> (c: BucketKey)
    requires
        has_neighbors(*k),
        r < visit_count(use_uv),
    ensures
        neighboring(*k, c, use_uv),
        visit_rank(*k, c, use_uv) == r,
        forall|d: BucketKey|
            neighboring(*k, d, use_uv) && #[trigger] visit_rank(*k, d, use_uv) == r ==> d == c,
{
    assert(i64::MIN < k@[0] < i64::MAX);
    assert(i64::MIN < k@[1] < i64::MAX);
    assert(i64::MIN < k@[2] < i64::MAX);
    assert(i64::MIN < k@[3] < i64::MAX);
    assert(i64::MIN < k@[4] < i64::MAX);
    let p: i64 = if use_uv {
        (r / 9) as i64
    } else {
        r as i64
    };
    let dx: i64 = p % 3 - 1;
    let dy: i64 = (p / 3) % 3 - 1;
    let dz: i64 = p / 9 - 1;
    let c: BucketKey = if use_uv {
        let du: i64 = (r % 3) as i64 - 1;
        let dv: i64 = ((r / 3) % 3) as i64 - 1;
        [k[0] + dx, k[1] + dy, k[2] + dz, k[3] + du, k[4] + dv]
    } else {
        [k[0] + dx, k[1] + dy, k[2] + dz, k[3], k[4]]
    };
    proof {
        lemma_base_three(p as int);
        lemma_base_three(r as int);
        assert forall|d: BucketKey|
            neighboring(*k, d, use_uv) && #[trigger] visit_rank(*k, d, use_uv) == r implies d
            == c by {
            lemma_same_rank(*k, d, c, use_uv);
        }
    }
    c
}

/// The two lowest digits of a number to base three, and the rest.
proof fn lemma_base_three(p: int)
    requires
        0 <= p,
    ensures
        p == ((p / 9) * 3 + (p / 3) % 3) * 3 + p % 3,
        0 <= p % 3 < 3,
        0 <= (p / 3) % 3 < 3,
        p < 27 ==> 0 <= p / 9 < 3,
        p < 243 ==> 0 <= p / 9 < 27,
{
    let q = p / 3;
    lemma_div_denominator(p, 3, 3);
    assert(p / 9 == q / 3);
    assert(p == q * 3 + p % 3);
    assert(q == (q / 3) * 3 + q % 3);
}

/// Neighbours with the same place are the same.
proof fn lemma_same_rank(k: BucketKey, c: BucketKey, d: BucketKey, use_uv: bool)
    requires
        neighboring(k, c, use_uv),
        neighboring(k, d, use_uv),
        visit_rank(k, c, use_uv) == visit_rank(k, d, use_uv),
    ensures
        c == d,
{
    lemma_rank_digits(k, c, use_uv);
    lemma_rank_digits(k, d, use_uv);
    assert(c =~= d);
}

/// A neighbour's place determines the neighbour.
proof fn lemma_rank_digits(k: BucketKey, c: BucketKey, use_uv: bool)
    requires
        neighboring(k, c, use_uv),
    ensures
        0 <= visit_rank(k, c, use_uv) < visit_count(use_uv),
        ({
            let r = visit_rank(k, c, use_uv);
            let p = if use_uv {
                r / 9
            } else {
                r
            };
            &&& c@[0] == k@[0] + p % 3 - 1
            &&& c@[1] == k@[1] + (p / 3) % 3 - 1
            &&& c@[2] == k@[2] + p / 9 - 1
            &&& use_uv ==> c@[3] == k@[3] + r % 3 - 1 && c@[4] == k@[4] + (r / 3) % 3 - 1
            &&& !use_uv ==> c@[3] == k@[3] && c@[4] == k@[4]
        }),
{
}

/// One step of the bucket hash.
pub open spec fn mixed(h: u64, part: i64) -> u64 {
    ((((h * 0x9e37_79b9_7f4a_7c15) % 0x1_0000_0000_0000_0000) as u64 + part as u64)
        % 0x1_0000_0000_0000_0000) as u64
}

/// Hash of a bucket.
pub open spec fn bucket_hash(k: BucketKey) -> u64 {
    mixed(mixed(mixed(mixed(mixed(0, k@[0]), k@[1]), k@[2]), k@[3]), k@[4])
}

fn mix(h: u64, part: i64) -> (r: u64)
    ensures
        r == mixed(h, part),
{
    h.wrapping_mul(0x9e37_79b9_7f4a_7c15).wrapping_add(part as u64)
}

fn hash_of(k: &BucketKey) -> (r: u64)
    ensures
        r == bucket_hash(*k),
{
    mix(mix(mix(mix(mix(0, k[0]), k[1]), k[2]), k[3]), k[4])
}

fn same_key(a: &BucketKey, b: &BucketKey) -> (r: bool)
    ensures
        r == (*a == *b),
{
    let r = a[0] == b[0] && a[1] == b[1] && a[2] == b[2] && a[3] == b[3] && a[4] == b[4];
    proof {
        if r {
            assert(*a =~= *b);
        }
    }
    r
}

/// The buckets that a position and a texture coordinate may be given.
pub type BucketRule<P, U> = spec_fn(P, Option<U>, Result<BucketKey, MeshError>) -> bool;

/// The verdicts on two vertices that may be given: whether the first is near the second.
pub type NearRule<P, U> = spec_fn(P, Option<U>, P, Option<U>, bool) -> bool;

/// The buckets that a function may give.
pub open spec fn buckets_by<P, U, K: Fn(P, Option<U>) -> Result<BucketKey, MeshError>>(
    key_of: K,
) -> BucketRule<P, U> {
    |p: P, u: Option<U>, k: Result<BucketKey, MeshError>| call_ensures(key_of, (p, u), k)
}

/// The verdicts that a function may give.
pub open spec fn nearness_by<P, U, N: Fn(P, Option<U>, P, Option<U>) -> bool>(
    near: N,
) -> NearRule<P, U> {
    |p: P, u: Option<U>, q: P, v: Option<U>, verdict: bool|
        call_ensures(near, (p, u, q, v), verdict)
}

/// The texture coordinate of a vertex, if the mesh has texture coordinates.
pub open spec fn uv_of<P, U>(mesh: MeshModel<P, U>, i: int) -> Option<U> {
    if mesh.uv.len() > 0 {
        Some(mesh.uv[i])
    } else {
        None
    }
}

/// The verdicts on vertices of a mesh, by their numbers.
pub type Verdicts = spec_fn(int, int, bool) -> bool;

/// The verdicts on the vertices of a mesh.
pub open spec fn verdicts_on<P, U>(mesh: MeshModel<P, U>, near: NearRule<P, U>) -> Verdicts {
    |i: int, j: int, verdict: bool|
        near(mesh.positions[i], uv_of(mesh, i), mesh.positions[j], uv_of(mesh, j), verdict)
}

/// `keys` are buckets of the first `n` vertices.
pub open spec fn keyed<P, U>(
    mesh: MeshModel<P, U>,
    buckets: BucketRule<P, U>,
    n: int,
    keys: Seq<BucketKey>,
) -> bool {
    &&& keys.len() == n
    &&& forall|i: int|
        0 <= i < n ==> buckets(
            mesh.positions[i],
            uv_of(mesh, i),
            Ok::<BucketKey, MeshError>(#[trigger] keys[i]),
        )
}

/// The verdict on vertices `i` and `j` may be `verdict`.
pub open spec fn judged(near: Verdicts, i: int, j: usize, verdict: bool) -> bool {
    near(i, j as int, verdict)
}

/// Which vertices are kept, and where each vertex goes.
pub struct DedupPlan {
    /// For each vertex its new number.
    pub remap: Vec<u32>,
    /// For each new number the vertex that is kept.
    pub kept: Vec<usize>,
}

/// Kept vertex `c` is looked at for vertex `i`: it comes earlier, in a neighbouring bucket.
pub open spec fn candidate(
    keys: Seq<BucketKey>,
    use_uv: bool,
    kept: Seq<usize>,
    i: int,
    c: int,
) -> bool {
    &&& 0 <= c < kept.len()
    &&& kept[c] < i
    &&& neighboring(keys[i], keys[kept[c] as int], use_uv)
}

/// Candidate `c` of vertex `i` is looked at before candidate `d`.
pub open spec fn looked_at_before(
    keys: Seq<BucketKey>,
    use_uv: bool,
    kept: Seq<usize>,
    i: int,
    c: int,
    d: int,
) -> bool {
    let k = keys[i];
    let rc = visit_rank(k, keys[kept[c] as int], use_uv);
    let rd = visit_rank(k, keys[kept[d] as int], use_uv);
    rc < rd || (rc == rd && c < d)
}

/// Vertex `i` goes where it should: to the first candidate that is near, or, when none is, to a
/// number of its own.
pub open spec fn placed(
    keys: Seq<BucketKey>,
    near: Verdicts,
    use_uv: bool,
    kept: Seq<usize>,
    i: int,
    target: u32,
) -> bool {
    let t = target as int;
    if 0 <= t < kept.len() && kept[t] < i {
        &&& candidate(keys, use_uv, kept, i, t)
        &&& judged(near, i, kept[t], true)
        &&& forall|c: int| #[trigger]
            candidate(keys, use_uv, kept, i, c) && looked_at_before(
                keys,
                use_uv,
                kept,
                i,
                c,
                t,
            ) ==> judged(near, i, kept[c], false)
    } else {
        &&& 0 <= t < kept.len()
        &&& kept[t] == i
        &&& forall|c: int| #[trigger]
            candidate(keys, use_uv, kept, i, c) ==> judged(near, i, kept[c], false)
    }
}

/// Kept vertices come in ascending order.
pub open spec fn rising(kept: Seq<usize>) -> bool {
    forall|a: int, b: int| 0 <= a < b < kept.len() ==> kept[a] < kept[b]
}

/// The plan for the first `n` vertices.
pub open spec fn is_plan(
    keys: Seq<BucketKey>,
    near: Verdicts,
    use_uv: bool,
    n: int,
    remap: Seq<u32>,
    kept: Seq<usize>,
) -> bool {
    &&& remap.len() == n
    &&& rising(kept)
    &&& kept.len() <= n
    &&& kept.len() <= 0x1_0000_0000
    &&& forall|c: int|
        0 <= c < kept.len() ==> (#[trigger] kept[c]) < n && remap[kept[c] as int] == c
    &&& forall|i: int|
        0 <= i < n ==> placed(keys, near, use_uv, kept, i, #[trigger] remap[i])
}

/// The buckets hold every kept vertex under its hash, in ascending order.
spec fn bucketed(buckets: Map<u64, Vec<u32>>, keys: Seq<BucketKey>) -> bool {
    &&& forall|h: u64, j: int|
        buckets.contains_key(h) && 0 <= j < buckets[h]@.len() ==> (
        #[trigger] buckets[h]@[j]) < keys.len() && bucket_hash(keys[buckets[h]@[j] as int]) == h
    &&& forall|h: u64, a: int, b: int|
        buckets.contains_key(h) && 0 <= a < b < buckets[h]@.len() ==> (#[trigger] buckets[h]@[a]) < (
        #[trigger] buckets[h]@[b])
    &&& forall|c: int|
        0 <= c < keys.len()
            ==> buckets.contains_key(bucket_hash(#[trigger] keys[c])) && buckets[bucket_hash(
            keys[c],
        )]@.contains(c as u32)
}

/// Texture coordinates are absent, or there is one per vertex.
pub open spec fn uv_fits<P, U>(mesh: Mesh3D<P, U>) -> bool {
    mesh.uv@.len() == 0 || mesh.uv@.len() == mesh.positions@.len()
}

fn uv_at<P, U: Copy>(mesh: &Mesh3D<P, U>, i: usize) -> (u: Option<U>)
    requires
        uv_fits(*mesh),
        i < mesh.positions@.len(),
    ensures
        u == uv_of(mesh@, i as int),
{
    if mesh.uv.len() > 0 {
        Some(mesh.uv[i])
    } else {
        None
    }
}

/// Whether vertex `i` is near vertex `j`.
fn judge<P: Copy, U: Copy, N: Fn(P, Option<U>, P, Option<U>) -> bool>(
    mesh: &Mesh3D<P, U>,
    i: usize,
    j: usize,
    near: &N,
) -> (verdict: bool)
    requires
        total4(*near),
        uv_fits(*mesh),
        i < mesh.positions@.len(),
        j < mesh.positions@.len(),
    ensures
        judged(verdicts_on(mesh@, nearness_by(*near)), i as int, j, verdict),
{
    near(mesh.positions[i], uv_at(mesh, i), mesh.positions[j], uv_at(mesh, j))
}

/// Looks for the first near candidate of vertex `i` among the kept vertices.
fn find_near<P: Copy, U: Copy, N: Fn(P, Option<U>, P, Option<U>) -> bool>(
    mesh: &Mesh3D<P, U>,
    buckets: &HashMap<u64, Vec<u32>>,
    keys: &Vec<BucketKey>,
    kept: &Vec<usize>,
    key: &BucketKey,
    i: usize,
    use_uv: bool,
    near: &N,
    Ghost(all): Ghost<Seq<BucketKey>>,
) -> (r: Option<u32>)
    requires
        total4(*near),
        uv_fits(*mesh),
        use_uv == (mesh.uv@.len() > 0),
        i < mesh.positions@.len(),
        has_neighbors(*key),
        *key == all[i as int],
        keys@.len() == kept@.len(),
        kept@.len() <= 0x1_0000_0000,
        bucketed(buckets@, keys@),
        forall|c: int|
            0 <= c < kept@.len() ==> (#[trigger] kept@[c]) < i && keys@[c] == all[kept@[c] as int],
    ensures
        ({
            let pairs = verdicts_on(mesh@, nearness_by(*near));
            match r {
                Some(t) => {
                    &&& t < kept@.len()
                    &&& placed(all, pairs, use_uv, kept@, i as int, t)
                },
                None => forall|c: int| #[trigger]
                    candidate(all, use_uv, kept@, i as int, c) ==> judged(
                        pairs,
                        i as int,
                        kept@[c],
                        false,
                    ),
            }
        }),
{
    let ghost pairs = verdicts_on(mesh@, nearness_by(*near));
    let count: usize = if use_uv {
        243
    } else {
        27
    };
    let mut r: usize = 0;
    while r < count
        invariant
            r <= count,
            count == visit_count(use_uv),
            total4(*near),
            uv_fits(*mesh),
            use_uv == (mesh.uv@.len() > 0),
            pairs == verdicts_on(mesh@, nearness_by(*near)),
            i < mesh.positions@.len(),
            has_neighbors(*key),
            *key == all[i as int],
            keys@.len() == kept@.len(),
            kept@.len() <= 0x1_0000_0000,
            bucketed(buckets@, keys@),
            forall|c: int|
                0 <= c < kept@.len() ==> (#[trigger] kept@[c]) < i && keys@[c] == all[kept@[c] as int],
            forall|c: int| #[trigger]
                candidate(all, use_uv, kept@, i as int, c) && visit_rank(*key, keys@[c], use_uv)
                    < r ==> judged(pairs, i as int, kept@[c], false),
        decreases count - r,
    {
        let wanted = neighbor_key(key, r, use_uv);
        let h = hash_of(&wanted);
        match buckets.get(&h) {
            None => {
                proof {
                    assert forall|c: int| #[trigger]
                        candidate(all, use_uv, kept@, i as int, c) && visit_rank(
                            *key,
                            keys@[c],
                            use_uv,
                        ) < r + 1 implies judged(pairs, i as int, kept@[c], false) by {
                        if visit_rank(*key, keys@[c], use_uv) == r {
                            assert(keys@[c] == wanted);
                        }
                    }
                }
            },
            Some(list) => {
                let mut j: usize = 0;
                while j < list.len()
                    invariant
                        j <= list@.len(),
                        r < count,
                        count == visit_count(use_uv),
                        total4(*near),
            uv_fits(*mesh),
            use_uv == (mesh.uv@.len() > 0),
            pairs == verdicts_on(mesh@, nearness_by(*near)),
            i < mesh.positions@.len(),
            *key == all[i as int],
                        keys@.len() == kept@.len(),
                        kept@.len() <= 0x1_0000_0000,
                        bucketed(buckets@, keys@),
                        h == bucket_hash(wanted),
                        buckets@.contains_key(h),
                        *list == buckets@[h],
                        neighboring(*key, wanted, use_uv),
                        visit_rank(*key, wanted, use_uv) == r,
                        forall|d: BucketKey|
                            neighboring(*key, d, use_uv) && #[trigger] visit_rank(*key, d, use_uv)
                                == r ==> d == wanted,
                        forall|c: int|
                            0 <= c < kept@.len() ==> (#[trigger] kept@[c]) < i && keys@[c]
                                == all[kept@[c] as int],
                        forall|c: int| #[trigger]
                            candidate(all, use_uv, kept@, i as int, c) && visit_rank(
                                *key,
                                keys@[c],
                                use_uv,
                            ) < r ==> judged(pairs, i as int, kept@[c], false),
                        forall|a: int|
                            0 <= a < j && keys@[(#[trigger] list@[a]) as int] == wanted
                                ==> judged(pairs, i as int, kept@[list@[a] as int], false),
                    decreases list@.len() - j,
                {
                    let t = list[j];
                    assert(buckets@[h]@[j as int] < keys@.len());
                    let place = t as usize;
                    if same_key(&keys[place], &wanted) && judge(mesh, i, kept[place], near) {
                        proof {
                            assert(candidate(all, use_uv, kept@, i as int, t as int));
                            assert forall|c: int| #[trigger]
                                candidate(all, use_uv, kept@, i as int, c) && looked_at_before(
                                    all,
                                    use_uv,
                                    kept@,
                                    i as int,
                                    c,
                                    t as int,
                                ) implies judged(pairs, i as int, kept@[c], false) by {
                                if visit_rank(*key, keys@[c], use_uv) == r {
                                    assert(keys@[c] == wanted);
                                    assert(buckets@[h]@.contains(c as u32));
                                    let a = choose|a: int|
                                        0 <= a < list@.len() && list@[a] == c as u32;
                                    assert(a < j) by {
                                        if a > j {
                                            assert(buckets@[h]@[j as int] < buckets@[h]@[a]);
                                        }
                                    }
                                    assert(keys@[list@[a] as int] == wanted);
                                }
                            }
                        }
                        return Some(t);
                    }
                    j += 1;
                }
                proof {
                    assert forall|c: int| #[trigger]
                        candidate(all, use_uv, kept@, i as int, c) && visit_rank(
                            *key,
                            keys@[c],
                            use_uv,
                        ) < r + 1 implies judged(pairs, i as int, kept@[c], false) by {
                        if visit_rank(*key, keys@[c], use_uv) == r {
                            assert(keys@[c] == wanted);
                            assert(buckets@[h]@.contains(c as u32));
                            let a = choose|a: int| 0 <= a < list@.len() && list@[a] == c as u32;
                            assert(keys@[list@[a] as int] == wanted);
                        }
                    }
                }
            },
        }
        r += 1;
    }
    proof {
        assert forall|c: int| #[trigger]
            candidate(all, use_uv, kept@, i as int, c) implies judged(pairs, i as int, kept@[c], false) by {
            lemma_rank_digits(*key, keys@[c], use_uv);
        }
    }
    None
}

/// A vertex stays placed when a later one is kept.
proof fn lemma_placed_extends(
    keys: Seq<BucketKey>,
    near: Verdicts,
    use_uv: bool,
    kept: Seq<usize>,
    i: int,
    target: u32,
    later: usize,
)
    requires
        placed(keys, near, use_uv, kept, i, target),
        i <= later,
    ensures
        placed(keys, near, use_uv, kept.push(later), i, target),
{
    let more = kept.push(later);
    let t = target as int;
    assert forall|c: int| #[trigger] candidate(keys, use_uv, more, i, c) implies candidate(
        keys,
        use_uv,
        kept,
        i,
        c,
    ) && more[c] == kept[c] by {}
    if kept[t] < i {
        assert forall|c: int| #[trigger]
            candidate(keys, use_uv, more, i, c) && looked_at_before(
                keys,
                use_uv,
                more,
                i,
                c,
                t,
            ) implies judged(near, i, more[c], false) by {
            assert(candidate(keys, use_uv, kept, i, c));
            assert(looked_at_before(keys, use_uv, kept, i, c, t));
        }
    }
}

/// A vertex stays placed when the bucket of a later one becomes known.
proof fn lemma_placed_keys(
    keys: Seq<BucketKey>,
    more: BucketKey,
    near: Verdicts,
    use_uv: bool,
    kept: Seq<usize>,
    i: int,
    target: u32,
)
    requires
        0 <= i < keys.len(),
        placed(keys, near, use_uv, kept, i, target),
    ensures
        placed(keys.push(more), near, use_uv, kept, i, target),
{
    let all = keys.push(more);
    let t = target as int;
    assert forall|c: int| #[trigger] candidate(all, use_uv, kept, i, c) implies candidate(
        keys,
        use_uv,
        kept,
        i,
        c,
    ) by {}
    if kept[t] < i {
        assert(candidate(keys, use_uv, kept, i, t));
        assert forall|c: int| #[trigger]
            candidate(all, use_uv, kept, i, c) && looked_at_before(
                all,
                use_uv,
                kept,
                i,
                c,
                t,
            ) implies judged(near, i, kept[c], false) by {
            assert(candidate(keys, use_uv, kept, i, c));
            assert(looked_at_before(keys, use_uv, kept, i, c, t));
        }
    }
}

/// `e` is the first reason not to merge the vertices of a mesh: a vertex is refused a bucket
/// after all earlier ones have got theirs; or there are as many kept vertices as there are
/// numbers for them, and the next vertex is near none of its candidates.
pub open spec fn plan_refusal<P, U>(
    mesh: MeshModel<P, U>,
    buckets: BucketRule<P, U>,
    near: NearRule<P, U>,
    e: MeshError,
) -> bool {
    exists|i: int, keys: Seq<BucketKey>, remap: Seq<u32>, kept: Seq<usize>| #[trigger]
        stopped(mesh, buckets, near, i, keys, remap, kept, e)
}

/// The plan of the first `i` vertices cannot be continued.
pub open spec fn stopped<P, U>(
    mesh: MeshModel<P, U>,
    buckets: BucketRule<P, U>,
    near: NearRule<P, U>,
    i: int,
    keys: Seq<BucketKey>,
    remap: Seq<u32>,
    kept: Seq<usize>,
    e: MeshError,
) -> bool {
    let use_uv = mesh.uv.len() > 0;
    let pairs = verdicts_on(mesh, near);
    &&& 0 <= i < mesh.positions.len()
    &&& is_plan(keys, pairs, use_uv, i, remap, kept)
    &&& {
        ||| {
            &&& keyed(mesh, buckets, i, keys)
            &&& buckets(mesh.positions[i], uv_of(mesh, i), Err::<BucketKey, MeshError>(e))
        }
        ||| {
            &&& e == MeshError::TooManyVertices
            &&& keyed(mesh, buckets, i + 1, keys)
            &&& kept.len() == 0x1_0000_0000
            &&& forall|c: int| #[trigger]
                candidate(keys, use_uv, kept, i, c) ==> judged(pairs, i, kept[c], false)
        }
    }
}

/// Every bucket that a vertex of the mesh may be given has neighbours.
pub open spec fn keys_fit<P, U>(mesh: MeshModel<P, U>, buckets: BucketRule<P, U>) -> bool {
    forall|i: int, k: BucketKey| #![trigger buckets(
        mesh.positions[i],
        uv_of(mesh, i),
        Ok::<BucketKey, MeshError>(k),
    )]
        0 <= i < mesh.positions.len() && buckets(
            mesh.positions[i],
            uv_of(mesh, i),
            Ok::<BucketKey, MeshError>(k),
        ) ==> has_neighbors(k)
}

/// Decides for each vertex where it goes. Vertices are looked at in order; each merges with the
/// first near candidate among the kept ones, or is kept itself.
pub fn dedup_plan<
    P: Copy,
    U: Copy,
    K: Fn(P, Option<U>) -> Result<BucketKey, MeshError>,
    N: Fn(P, Option<U>, P, Option<U>) -> bool,
>(mesh: &Mesh3D<P, U>, key_of: &K, near: &N) -> (r: Result<DedupPlan, MeshError>)
    requires
        uv_fits(*mesh),
        total2(*key_of),
        total4(*near),
        keys_fit(mesh@, buckets_by(*key_of)),
    ensures
        match r {
            Ok(plan) => exists|keys: Seq<BucketKey>| #[trigger]
                keyed(mesh@, buckets_by(*key_of), mesh.positions@.len() as int, keys) && is_plan(
                    keys,
                    verdicts_on(mesh@, nearness_by(*near)),
                    mesh.uv@.len() > 0,
                    mesh.positions@.len() as int,
                    plan.remap@,
                    plan.kept@,
                ),
            Err(e) => plan_refusal(mesh@, buckets_by(*key_of), nearness_by(*near), e),
        },
{
    let n = mesh.positions.len();
    let use_uv = mesh.uv.len() > 0;
    let ghost rule = buckets_by(*key_of);
    let ghost pairs = verdicts_on(mesh@, nearness_by(*near));
    let ghost mut all: Seq<BucketKey> = Seq::empty();
    let mut remap: Vec<u32> = Vec::with_capacity(n);
    let mut kept: Vec<usize> = Vec::new();
    let mut keys: Vec<BucketKey> = Vec::new();
    let mut buckets: HashMap<u64, Vec<u32>> = HashMap::new();
    let mut i: usize = 0;
    while i < n
        invariant
            i <= n,
            n == mesh.positions@.len(),
            use_uv == (mesh.uv@.len() > 0),
            rule == buckets_by(*key_of),
            pairs == verdicts_on(mesh@, nearness_by(*near)),
            uv_fits(*mesh),
            total2(*key_of),
            total4(*near),
            keys_fit(mesh@, rule),
            keyed(mesh@, rule, i as int, all),
            is_plan(all, pairs, use_uv, i as int, remap@, kept@),
            keys@.len() == kept@.len(),
            forall|c: int|
                0 <= c < kept@.len() ==> keys@[c] == all[(#[trigger] kept@[c]) as int],
            bucketed(buckets@, keys@),
        decreases n - i,
    {
        let key = match key_of(mesh.positions[i], uv_at(mesh, i)) {
            Ok(key) => key,
            Err(e) => {
                assert(stopped(
                    mesh@,
                    rule,
                    nearness_by(*near),
                    i as int,
                    all,
                    remap@,
                    kept@,
                    e,
                ));
                return Err(e);
            },
        };
        proof {
            let more = all.push(key);
            assert(rule(
                mesh@.positions[i as int],
                uv_of(mesh@, i as int),
                Ok::<BucketKey, MeshError>(key),
            ));
            assert forall|j: int| 0 <= j < more.len() implies rule(
                mesh@.positions[j],
                uv_of(mesh@, j),
                Ok::<BucketKey, MeshError>(#[trigger] more[j]),
            ) by {
                if j < i {
                    assert(more[j] == all[j]);
                }
            }
            assert forall|j: int| 0 <= j < i implies placed(
                more,
                pairs,
                use_uv,
                kept@,
                j,
                #[trigger] remap@[j],
            ) by {
                assert(placed(all, pairs, use_uv, kept@, j, remap@[j]));
                lemma_placed_keys(all, key, pairs, use_uv, kept@, j, remap@[j]);
            }
            assert forall|c: int| 0 <= c < kept@.len() implies keys@[c] == more[(
            #[trigger] kept@[c]) as int] by {
                assert(kept@[c] < i);
            }
            all = more;
        }
        let found = find_near(mesh, &buckets, &keys, &kept, &key, i, use_uv, near, Ghost(all));
        let ghost old_kept = kept@;
        let ghost old_remap = remap@;
        match found {
            Some(t) => {
                remap.push(t);
                proof {
                    assert forall|c: int| 0 <= c < kept@.len() implies (#[trigger] kept@[c]) < i + 1
                        && remap@[kept@[c] as int] == c by {
                        assert(old_remap[kept@[c] as int] == c);
                    }
                    assert forall|j: int| 0 <= j < i + 1 implies placed(
                        all,
                        pairs,
                        use_uv,
                        kept@,
                        j,
                        #[trigger] remap@[j],
                    ) by {
                        if j < i {
                            assert(remap@[j] == old_remap[j]);
                        }
                    }
                }
            },
            None => {
                if kept.len() > u32::MAX as usize {
                    assert(stopped(
                        mesh@,
                        rule,
                        nearness_by(*near),
                        i as int,
                        all,
                        remap@,
                        kept@,
                        MeshError::TooManyVertices,
                    ));
                    return Err(MeshError::TooManyVertices);
                }
                let index = kept.len() as u32;
                let h = hash_of(&key);
                add_to_bucket(&mut buckets, h, index, &key, Ghost(keys@));
                kept.push(i);
                keys.push(key);
                remap.push(index);
                proof {
                    assert forall|c: int| 0 <= c < kept@.len() implies (#[trigger] kept@[c]) < i + 1
                        && remap@[kept@[c] as int] == c by {
                        if c < old_kept.len() {
                            assert(kept@[c] == old_kept[c]);
                            assert(old_remap[old_kept[c] as int] == c);
                        }
                    }
                    assert forall|j: int| 0 <= j < i + 1 implies placed(
                        all,
                        pairs,
                        use_uv,
                        kept@,
                        j,
                        #[trigger] remap@[j],
                    ) by {
                        if j < i {
                            assert(remap@[j] == old_remap[j]);
                            lemma_placed_extends(
                                all,
                                pairs,
                                use_uv,
                                old_kept,
                                j,
                                remap@[j],
                                i,
                            );
                        } else {
                            assert forall|c: int| #[trigger]
                                candidate(all, use_uv, kept@, i as int, c) implies judged(
                                pairs,
                                i as int,
                                kept@[c],
                                false,
                            ) by {
                                assert(candidate(all, use_uv, old_kept, i as int, c));
                            }
                        }
                    }
                }
            },
        }
        i += 1;
    }
    Ok(DedupPlan { remap, kept })
}

/// Adds kept vertex `index` with bucket `key` under its hash.
fn add_to_bucket(
    buckets: &mut HashMap<u64, Vec<u32>>,
    h: u64,
    index: u32,
    key: &BucketKey,
    Ghost(keys): Ghost<Seq<BucketKey>>,
)
    requires
        bucketed(old(buckets)@, keys),
        h == bucket_hash(*key),
        index == keys.len(),
    ensures
        bucketed(final(buckets)@, keys.push(*key)),
{
    let mut list = match buckets.remove(&h) {
        Some(list) => list,
        None => Vec::new(),
    };
    let ghost before = list@;
    proof {
        if old(buckets)@.contains_key(h) {
            assert(before == old(buckets)@[h]@);
        }
    }
    list.push(index);
    let ghost now = list@;
    buckets.insert(h, list);
    proof {
        let all = keys.push(*key);
        assert(buckets@[h]@ == now);
        assert forall|g: u64, j: int|
            buckets@.contains_key(g) && 0 <= j < buckets@[g]@.len() implies (
        #[trigger] buckets@[g]@[j]) < all.len() && bucket_hash(all[buckets@[g]@[j] as int])
            == g by {
            if g == h {
                if j < before.len() {
                    assert(buckets@[g]@[j] == before[j]);
                    assert(old(buckets)@[h]@[j] < keys.len());
                    assert(all[before[j] as int] == keys[before[j] as int]);
                }
            } else {
                assert(buckets@[g] == old(buckets)@[g]);
                assert(old(buckets)@[g]@[j] < keys.len());
                assert(all[old(buckets)@[g]@[j] as int] == keys[old(buckets)@[g]@[j] as int]);
            }
        }
        assert forall|g: u64, a: int, b: int|
            buckets@.contains_key(g) && 0 <= a < b < buckets@[g]@.len() implies (
        #[trigger] buckets@[g]@[a]) < (#[trigger] buckets@[g]@[b]) by {
            if g == h {
                if b < before.len() {
                    assert(old(buckets)@[h]@[a] < old(buckets)@[h]@[b]);
                } else {
                    assert(old(buckets)@[h]@[a] < keys.len());
                }
            } else {
                assert(buckets@[g] == old(buckets)@[g]);
                assert(old(buckets)@[g]@[a] < old(buckets)@[g]@[b]);
            }
        }
        assert forall|c: int| 0 <= c < all.len() implies buckets@.contains_key(
            bucket_hash(#[trigger] all[c]),
        ) && buckets@[bucket_hash(all[c])]@.contains(c as u32) by {
            let g = bucket_hash(all[c]);
            if c < keys.len() {
                assert(all[c] == keys[c]);
                assert(old(buckets)@[g]@.contains(c as u32));
                let a = choose|a: int|
                    0 <= a < old(buckets)@[g]@.len() && old(buckets)@[g]@[a] == c as u32;
                if g == h {
                    assert(now[a] == c as u32);
                } else {
                    assert(buckets@[g]@[a] == c as u32);
                }
            } else {
                assert(now[before.len() as int] == c as u32);
            }
        }
    }
}

/// The face with its vertices renumbered.
pub open spec fn remapped(face: [u32; 3], remap: Seq<u32>) -> [u32; 3] {
    [remap[face@[0] as int], remap[face@[1] as int], remap[face@[2] as int]]
}

/// Renumbers the vertices of a face.
pub fn remap_face(face: &mut [u32; 3], remap: &Vec<u32>) -> (r: Result<(), MeshError>)
    ensures
        r is Ok <==> face_within(*old(face), remap@.len()),
        r is Ok ==> *final(face) == remapped(*old(face), remap@),
        r matches Err(e) ==> e == MeshError::IndexOutOfBounds && *final(face) == *old(face),
{
    let n = remap.len();
    let a = face[0] as usize;
    let b = face[1] as usize;
    let c = face[2] as usize;
    if a >= n || b >= n || c >= n {
        return Err(MeshError::IndexOutOfBounds);
    }
    *face = [remap[a], remap[b], remap[c]];
    Ok(())
}

/// `rayon`'s parallel `try_for_each` over the faces, with [`remap_face`] for each of them.
///
/// Claimed of it: it succeeds exactly when every call succeeds, and then every face has been
/// handed to one call; otherwise it hands back the error of a call that failed. Which faces
/// were reached before a failure is left open.
#[verifier::external_body]
fn remap_faces(faces: &mut Vec<[u32; 3]>, remap: &Vec<u32>) -> (r: Result<(), MeshError>)
    ensures
        final(faces)@.len() == old(faces)@.len(),
        r is Ok <==> forall|i: int|
            0 <= i < old(faces)@.len() ==> face_within(#[trigger] old(faces)@[i], remap@.len()),
        r is Ok ==> forall|i: int|
            0 <= i < old(faces)@.len() ==> #[trigger] final(faces)@[i] == remapped(
                old(faces)@[i],
                remap@,
            ),
        r matches Err(e) ==> e == MeshError::IndexOutOfBounds,
{
    faces.par_iter_mut().try_for_each(|face| remap_face(face, remap))
}

/// The items that are kept.
fn picked<A: Copy>(items: &Vec<A>, kept: &Vec<usize>) -> (r: Vec<A>)
    requires
        forall|c: int| 0 <= c < kept@.len() ==> (#[trigger] kept@[c]) < items@.len(),
    ensures
        r@ == kept@.map_values(|i: usize| items@[i as int]),
{
    let mut out: Vec<A> = Vec::with_capacity(kept.len());
    let mut c: usize = 0;
    while c < kept.len()
        invariant
            c <= kept@.len(),
            forall|d: int| 0 <= d < kept@.len() ==> (#[trigger] kept@[d]) < items@.len(),
            out@.len() == c,
            forall|d: int| 0 <= d < c ==> #[trigger] out@[d] == items@[kept@[d] as int],
        decreases kept@.len() - c,
    {
        assert(kept@[c as int] < items@.len());
        out.push(items[kept[c]]);
        c += 1;
    }
    assert(out@ =~= kept@.map_values(|i: usize| items@[i as int]));
    out
}

/// `new` is `old` with its vertices merged by the plan.
pub open spec fn applied<P, U>(
    old: Mesh3D<P, U>,
    new: Mesh3D<P, U>,
    remap: Seq<u32>,
    kept: Seq<usize>,
) -> bool {
    &&& new.positions@ == kept.map_values(|i: usize| old.positions@[i as int])
    &&& new.uv@ == if old.uv@.len() > 0 {
        kept.map_values(|i: usize| old.uv@[i as int])
    } else {
        Seq::empty()
    }
    &&& new.indices@.len() == old.indices@.len()
    &&& forall|i: int|
        0 <= i < old.indices@.len() ==> #[trigger] new.indices@[i] == remapped(
            old.indices@[i],
            remap,
        )
}

/// Every face refers to vertices that exist.
pub open spec fn faces_exist<P, U>(mesh: Mesh3D<P, U>) -> bool {
    forall|i: int|
        0 <= i < mesh.indices@.len() ==> face_within(
            #[trigger] mesh.indices@[i],
            mesh.positions@.len(),
        )
}

/// `r` and `new` are what merging the vertices of `old` gives.
pub open spec fn dedup_outcome<P, U>(
    old: Mesh3D<P, U>,
    new: Mesh3D<P, U>,
    buckets: BucketRule<P, U>,
    near: NearRule<P, U>,
    r: Result<usize, MeshError>,
) -> bool {
    if !uv_fits(old) {
        r == Err::<usize, MeshError>(MeshError::LengthMismatch) && new == old
    } else if old.positions@.len() == 0 {
        r == Ok::<usize, MeshError>(0) && new == old
    } else {
        match r {
            Ok(removed) => {
                &&& removed == old.positions@.len() - new.positions@.len()
                &&& faces_exist(old)
                &&& exists|keys: Seq<BucketKey>, remap: Seq<u32>, kept: Seq<usize>| #[trigger]
                    merged(old, new, buckets, near, keys, remap, kept)
            },
            Err(e) => {
                ||| plan_refusal(old@, buckets, near, e) && new == old
                ||| {
                    &&& e == MeshError::IndexOutOfBounds
                    &&& !faces_exist(old)
                    &&& exists|keys: Seq<BucketKey>, remap: Seq<u32>, kept: Seq<usize>| #[trigger]
                        planned(old@, buckets, near, keys, remap, kept)
                    &&& new.positions == old.positions
                    &&& new.uv == old.uv
                    &&& new.indices@.len() == old.indices@.len()
                }
            },
        }
    }
}

/// Buckets of all vertices of a mesh, and a plan for them.
pub open spec fn planned<P, U>(
    mesh: MeshModel<P, U>,
    buckets: BucketRule<P, U>,
    near: NearRule<P, U>,
    keys: Seq<BucketKey>,
    remap: Seq<u32>,
    kept: Seq<usize>,
) -> bool {
    let n = mesh.positions.len() as int;
    &&& keyed(mesh, buckets, n, keys)
    &&& is_plan(keys, verdicts_on(mesh, near), mesh.uv.len() > 0, n, remap, kept)
}

/// `new` is `old` with its vertices merged by a plan.
pub open spec fn merged<P, U>(
    old: Mesh3D<P, U>,
    new: Mesh3D<P, U>,
    buckets: BucketRule<P, U>,
    near: NearRule<P, U>,
    keys: Seq<BucketKey>,
    remap: Seq<u32>,
    kept: Seq<usize>,
) -> bool {
    planned(old@, buckets, near, keys, remap, kept) && applied(old, new, remap, kept)
}

/// Merge vertices that `near` finds close enough, among those in neighbouring buckets.
///
/// The operation is in-place and returns the number of removed vertices. Meshes
/// with an empty UV buffer are deduplicated by position only. Meshes with a
/// non-empty UV buffer must have one UV per position. `key_of` gives the bucket of a vertex,
/// or refuses it; `near` compares two vertices. A refused mesh is left as it is, except that
/// faces may be renumbered already when one of them refers to a vertex that does not exist.
pub fn dedup_mesh_vertices<
    P: Copy,
    U: Copy,
    K: Fn(P, Option<U>) -> Result<BucketKey, MeshError>,
    N: Fn(P, Option<U>, P, Option<U>) -> bool,
>(mesh: &mut Mesh3D<P, U>, key_of: &K, near: &N) -> (r: Result<usize, MeshError>)
    requires
        total2(*key_of),
        total4(*near),
        keys_fit(old(mesh)@, buckets_by(*key_of)),
    ensures
        dedup_outcome(*old(mesh), *final(mesh), buckets_by(*key_of), nearness_by(*near), r),
{
    let n = mesh.positions.len();
    if mesh.uv.len() != 0 && mesh.uv.len() != n {
        return Err(MeshError::LengthMismatch);
    }
    if n == 0 {
        return Ok(0);
    }
    let use_uv = mesh.uv.len() > 0;
    let plan = match dedup_plan(mesh, key_of, near) {
        Ok(plan) => plan,
        Err(e) => return Err(e),
    };
    let ghost keys = choose|keys: Seq<BucketKey>| #[trigger]
        keyed(mesh@, buckets_by(*key_of), n as int, keys) && is_plan(
            keys,
            verdicts_on(mesh@, nearness_by(*near)),
            use_uv,
            n as int,
            plan.remap@,
            plan.kept@,
        );
    proof {
        assert(planned(
            old(mesh)@,
            buckets_by(*key_of),
            nearness_by(*near),
            keys,
            plan.remap@,
            plan.kept@,
        ));
    }
    match remap_faces(&mut mesh.indices, &plan.remap) {
        Ok(()) => {},
        Err(e) => return Err(e),
    }
    let positions = picked(&mesh.positions, &plan.kept);
    let uv = if use_uv {
        picked(&mesh.uv, &plan.kept)
    } else {
        Vec::new()
    };
    let removed = n - positions.len();
    mesh.positions = positions;
    mesh.uv = uv;
    proof {
        assert(old(mesh).uv@.len() == 0 ==> mesh.uv@ =~= Seq::empty());
        assert(applied(*old(mesh), *mesh, plan.remap@, plan.kept@));
        assert(merged(
            *old(mesh),
            *mesh,
            buckets_by(*key_of),
            nearness_by(*near),
            keys,
            plan.remap@,
            plan.kept@,
        ));
    }
    Ok(removed)
}

/// Merging keeps faces on existing vertices, and sends every vertex to a kept one that is the
/// vertex itself or lies near it.
pub proof fn law_dedup_moves_nearby<P, U>(
    old: Mesh3D<P, U>,
    new: Mesh3D<P, U>,
    buckets: BucketRule<P, U>,
    near: NearRule<P, U>,
    keys: Seq<BucketKey>,
    remap: Seq<u32>,
    kept: Seq<usize>,
    i: int,
)
    requires
        merged(old, new, buckets, near, keys, remap, kept),
        faces_exist(old),
        0 <= i < old.positions@.len(),
    ensures
        faces_exist(new),
        new.positions@[remap[i] as int] == old.positions@[kept[remap[i] as int] as int],
        kept[remap[i] as int] == i || judged(
            verdicts_on(old@, near),
            i,
            kept[remap[i] as int],
            true,
        ),
{
    let pairs = verdicts_on(old@, near);
    let use_uv = old.uv@.len() > 0;
    assert(placed(keys, pairs, use_uv, kept, i, remap[i]));
    assert forall|f: int| 0 <= f < new.indices@.len() implies face_within(
        #[trigger] new.indices@[f],
        new.positions@.len(),
    ) by {
        let face = old.indices@[f];
        assert(face_within(face, old.positions@.len()));
        assert(placed(keys, pairs, use_uv, kept, face@[0] as int, remap[face@[0] as int]));
        assert(placed(keys, pairs, use_uv, kept, face@[1] as int, remap[face@[1] as int]));
        assert(placed(keys, pairs, use_uv, kept, face@[2] as int, remap[face@[2] as int]));
    }
}

/// No two answers differ on the same vertices.
pub open spec fn decided<P, U>(buckets: BucketRule<P, U>, near: NearRule<P, U>) -> bool {
    &&& forall|p: P, u: Option<U>, k: Result<BucketKey, MeshError>, l: Result<BucketKey, MeshError>|
        #[trigger] buckets(p, u, k) && #[trigger] buckets(p, u, l) ==> k == l
    &&& forall|p: P, u: Option<U>, q: P, v: Option<U>|
        !(#[trigger] near(p, u, q, v, true) && near(p, u, q, v, false))
}

/// Vertices that are near each other lie in neighbouring buckets.
pub open spec fn near_in_buckets<P, U>(
    buckets: BucketRule<P, U>,
    near: NearRule<P, U>,
    use_uv: bool,
) -> bool {
    forall|p: P, u: Option<U>, q: P, v: Option<U>, k: BucketKey, l: BucketKey|
        #![trigger
            near(p, u, q, v, true),
            buckets(p, u, Ok::<BucketKey, MeshError>(k)),
            buckets(q, v, Ok::<BucketKey, MeshError>(l))]
        near(p, u, q, v, true) && buckets(p, u, Ok::<BucketKey, MeshError>(k)) && buckets(
            q,
            v,
            Ok::<BucketKey, MeshError>(l),
        ) ==> neighboring(k, l, use_uv)
}

/// After merging, no vertex is near an earlier one; where nearness is mutual, no two vertices are
/// near each other. Nearness must reach no farther than the neighbouring buckets.
pub proof fn law_merged_vertices_lie_apart<P, U>(
    old: Mesh3D<P, U>,
    new: Mesh3D<P, U>,
    buckets: BucketRule<P, U>,
    near: NearRule<P, U>,
    removed: usize,
    a: int,
    b: int,
)
    requires
        dedup_outcome(old, new, buckets, near, Ok::<usize, MeshError>(removed)),
        decided(buckets, near),
        near_in_buckets(buckets, near, old.uv@.len() > 0),
        0 <= a < b < new.positions@.len(),
    ensures
        !verdicts_on(new@, near)(b, a, true),
        (forall|p: P, u: Option<U>, q: P, v: Option<U>|
            near(p, u, q, v, true) == #[trigger] near(q, v, p, u, true)) ==> !verdicts_on(
            new@,
            near,
        )(a, b, true),
{
    let (keys, remap, kept) = choose|keys: Seq<BucketKey>, remap: Seq<u32>, kept: Seq<usize>|
        #[trigger] merged(old, new, buckets, near, keys, remap, kept);
    let pairs = verdicts_on(old@, near);
    let use_uv = old.uv@.len() > 0;
    let i = kept[b] as int;
    let j = kept[a] as int;
    assert(kept[a] < kept[b]);
    assert(remap[i] == b);
    assert(placed(keys, pairs, use_uv, kept, i, remap[i]));
    assert(new.positions@[a] == old.positions@[j] && new.positions@[b] == old.positions@[i]);
    assert(uv_of(new@, a) == uv_of(old@, j) && uv_of(new@, b) == uv_of(old@, i));
    if pairs(i, j, true) {
        assert(buckets(
            old.positions@[i],
            uv_of(old@, i),
            Ok::<BucketKey, MeshError>(keys[i]),
        ));
        assert(buckets(
            old.positions@[j],
            uv_of(old@, j),
            Ok::<BucketKey, MeshError>(keys[j]),
        ));
        assert(candidate(keys, use_uv, kept, i, a));
        assert(judged(pairs, i, kept[a], false));
        assert(near(
            old.positions@[i],
            uv_of(old@, i),
            old.positions@[j],
            uv_of(old@, j),
            true,
        ));
    }
}

/// A plan under which no vertex is near an earlier one keeps every vertex in its place.
proof fn lemma_nothing_merges(
    keys: Seq<BucketKey>,
    pairs: Verdicts,
    use_uv: bool,
    n: int,
    remap: Seq<u32>,
    kept: Seq<usize>,
    i: int,
)
    requires
        is_plan(keys, pairs, use_uv, n, remap, kept),
        n <= 0x1_0000_0000,
        forall|p: int, q: int| 0 <= q < p < n ==> !#[trigger] pairs(p, q, true),
        -1 <= i < n,
    ensures
        forall|c: int| 0 <= c <= i ==> c < kept.len() && #[trigger] kept[c] == c && remap[c] == c,
    decreases i + 1,
{
    if i >= 0 {
        lemma_nothing_merges(keys, pairs, use_uv, n, remap, kept, i - 1);
        assert(placed(keys, pairs, use_uv, kept, i, remap[i]));
        let t = remap[i] as int;
        if 0 <= t < kept.len() && kept[t] < i {
            assert(judged(pairs, i, kept[t], true));
            assert(!pairs(i, kept[t] as int, true));
        }
        assert(kept[t] == i);
        if t < i {
            assert(kept[t] == t);
        } else if t > i {
            assert(kept[i] < kept[t]);
            if i > 0 {
                assert(kept[i - 1] == i - 1);
                assert(kept[i - 1] < kept[i]);
            }
        }
    }
}

/// The vertices of a merged mesh are among those of the mesh, with their buckets, and no more
/// than there are numbers.
proof fn lemma_merged_vertices<P, U>(
    old: Mesh3D<P, U>,
    mid: Mesh3D<P, U>,
    buckets: BucketRule<P, U>,
    near: NearRule<P, U>,
    removed: usize,
)
    requires
        old.positions@.len() > 0,
        dedup_outcome(old, mid, buckets, near, Ok::<usize, MeshError>(removed)),
    ensures
        uv_fits(mid),
        mid.uv@.len() > 0 <==> old.uv@.len() > 0,
        0 < mid.positions@.len() <= 0x1_0000_0000,
        faces_exist(mid),
        forall|i: int|
            0 <= i < mid.positions@.len() ==> exists|k: BucketKey|
                buckets(
                    #[trigger] mid.positions@[i],
                    uv_of(mid@, i),
                    Ok::<BucketKey, MeshError>(k),
                ),
{
    let (keys, remap, kept) = choose|keys: Seq<BucketKey>, remap: Seq<u32>, kept: Seq<usize>|
        #[trigger] merged(old, mid, buckets, near, keys, remap, kept);
    let pairs = verdicts_on(old@, near);
    law_dedup_moves_nearby(old, mid, buckets, near, keys, remap, kept, 0);
    assert(placed(keys, pairs, old.uv@.len() > 0, kept, 0, remap[0]));
    assert forall|i: int| 0 <= i < mid.positions@.len() implies exists|k: BucketKey|
        buckets(
            #[trigger] mid.positions@[i],
            uv_of(mid@, i),
            Ok::<BucketKey, MeshError>(k),
        ) by {
        let j = kept[i] as int;
        assert(buckets(
            old.positions@[j],
            uv_of(old@, j),
            Ok::<BucketKey, MeshError>(keys[j]),
        ));
        assert(mid.positions@[i] == old.positions@[j] && uv_of(mid@, i) == uv_of(old@, j));
    }
}

/// Merging a merged mesh again with the same functions succeeds, removes nothing and changes
/// nothing. Nearness must reach no farther than the neighbouring buckets.
pub proof fn law_dedup_again_changes_nothing<P, U>(
    old: Mesh3D<P, U>,
    mid: Mesh3D<P, U>,
    new: Mesh3D<P, U>,
    buckets: BucketRule<P, U>,
    near: NearRule<P, U>,
    removed: usize,
    r: Result<usize, MeshError>,
)
    requires
        dedup_outcome(old, mid, buckets, near, Ok::<usize, MeshError>(removed)),
        dedup_outcome(mid, new, buckets, near, r),
        decided(buckets, near),
        near_in_buckets(buckets, near, old.uv@.len() > 0),
    ensures
        r == Ok::<usize, MeshError>(0),
        new@ == mid@,
{
    if old.positions@.len() > 0 {
        let n = mid.positions@.len() as int;
        let pairs = verdicts_on(mid@, near);
        let use_uv = mid.uv@.len() > 0;
        lemma_merged_vertices(old, mid, buckets, near, removed);
        assert forall|p: int, q: int| 0 <= q < p < n implies !#[trigger] pairs(p, q, true) by {
            law_merged_vertices_lie_apart(old, mid, buckets, near, removed, q, p);
        }
        if let Err(e) = r {
            assert(plan_refusal(mid@, buckets, near, e));
            let (i, keys, remap, kept) = choose|
                i: int,
                keys: Seq<BucketKey>,
                remap: Seq<u32>,
                kept: Seq<usize>,
            | #[trigger] stopped(mid@, buckets, near, i, keys, remap, kept, e);
            let k = choose|k: BucketKey|
                buckets(
                    mid.positions@[i],
                    uv_of(mid@, i),
                    Ok::<BucketKey, MeshError>(k),
                );
            assert(buckets(mid.positions@[i], uv_of(mid@, i), Ok::<BucketKey, MeshError>(k)));
            assert(false);
        }
        let (keys, remap, kept) = choose|keys: Seq<BucketKey>, remap: Seq<u32>, kept: Seq<usize>|
            #[trigger] merged(mid, new, buckets, near, keys, remap, kept);
        lemma_nothing_merges(keys, pairs, use_uv, n, remap, kept, n - 1);
        assert(kept[n - 1] == n - 1);
        assert(kept.len() == n);
        assert(new.positions@ =~= mid.positions@);
        assert(new.uv@ =~= mid.uv@);
        assert forall|f: int| 0 <= f < mid.indices@.len() implies #[trigger] new.indices@[f]
            == mid.indices@[f] by {
            let face = mid.indices@[f];
            assert(face_within(face, mid.positions@.len()));
            assert(kept[face@[0] as int] == face@[0]);
            assert(kept[face@[1] as int] == face@[1]);
            assert(kept[face@[2] as int] == face@[2]);
            assert(remapped(face, remap) =~= face);
        }
        assert(new.indices@ =~= mid.indices@);
    }
}

} // verus!
