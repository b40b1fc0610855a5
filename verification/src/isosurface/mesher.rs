//! Shared vertices and distinct faces of a mesh under construction.

use std::collections::{HashMap, HashSet};

use vstd::prelude::*;

use crate::isosurface::mesh::{repeats, MeshError};
use crate::outcome::{computes1, computes4, total1, total4};
use crate::utility::sparse_grid3::layout::{lemma_packed, packed, ChunkKey};
use crate::vec3::UVec3;

verus! {

broadcast use vstd::std_specs::hash::group_hash_axioms;

/// Where a vertex belongs.
#[derive(Debug, Clone, Copy, PartialEq, Eq, Hash, Structural)]
pub enum VertexKey {
    /// A lattice point.
    Grid(UVec3),
    /// A point on the edge or diagonal from the first to the second lattice point.
    Edge(UVec3, UVec3),
    /// A point inside the cube anchored at the lattice point.
    Interior(UVec3),
}

/// `b` is `a` or one more.
pub open spec fn step_or_same(a: u32, b: u32) -> bool {
    a <= b <= a + 1
}

/// An edge key joins two different corners of a cube, the lower one first.
pub open spec fn proper(key: VertexKey) -> bool {
    match key {
        VertexKey::Edge(a, b) => a != b && step_or_same(a.x, b.x) && step_or_same(a.y, b.y)
            && step_or_same(a.z, b.z),
        _ => true,
    }
}

/// A proper key as one number.
pub open spec fn key_number(key: VertexKey) -> u128 {
    match key {
        VertexKey::Grid(p) => (packed(ChunkKey { x: p.x, y: p.y, z: p.z }) * 16) as u128,
        VertexKey::Edge(a, b) => (packed(ChunkKey { x: a.x, y: a.y, z: a.z }) * 16 + (b.x - a.x)
            + 2 * (b.y - a.y) + 4 * (b.z - a.z)) as u128,
        VertexKey::Interior(p) => (packed(ChunkKey { x: p.x, y: p.y, z: p.z }) * 16 + 8) as u128,
    }
}

/// Number, base point and tag of a key.
proof fn lemma_key_parts(k: VertexKey)
    requires
        proper(k),
    ensures
        ({
            let (p, t) = key_parts(k);
            let m = packed(ChunkKey { x: p.x, y: p.y, z: p.z });
            &&& 0 <= t < 16
            &&& m < 0x1_0000_0000_0000_0000_0000_0000
            &&& key_number(k) == m * 16 + t
        }),
{
    let (p, t) = key_parts(k);
    lemma_packed(ChunkKey { x: p.x, y: p.y, z: p.z });
}

/// Base point and tag determine a key.
proof fn lemma_parts_determine(k: VertexKey, l: VertexKey)
    requires
        proper(k),
        proper(l),
        key_parts(k) == key_parts(l),
    ensures
        k == l,
{
    if let VertexKey::Edge(a, b) = k {
        let t = key_parts(k).1;
        assert(1 <= t <= 7);
        assert(t % 2 == b.x - a.x);
        assert((t / 2) % 2 == b.y - a.y);
        assert(t / 4 == b.z - a.z);
    }
    if let VertexKey::Edge(c, d) = l {
        let t = key_parts(l).1;
        assert(1 <= t <= 7);
        assert(t % 2 == d.x - c.x);
        assert((t / 2) % 2 == d.y - c.y);
        assert(t / 4 == d.z - c.z);
    }
}

/// Different proper keys have different numbers.
proof fn lemma_key_number(k: VertexKey, l: VertexKey)
    requires
        proper(k),
        proper(l),
    ensures
        key_number(k) == key_number(l) <==> k == l,
{
    if key_number(k) == key_number(l) {
        lemma_key_parts(k);
        lemma_key_parts(l);
        let p = key_parts(k).0;
        let q = key_parts(l).0;
        let m = ChunkKey { x: p.x, y: p.y, z: p.z };
        let n = ChunkKey { x: q.x, y: q.y, z: q.z };
        assert(packed(m) == packed(n));
        lemma_packed(m);
        lemma_packed(n);
        assert(m == n);
        lemma_parts_determine(k, l);
    }
}

/// Base point and tag of a key.
spec fn key_parts(key: VertexKey) -> (UVec3, int) {
    match key {
        VertexKey::Grid(p) => (p, 0),
        VertexKey::Edge(a, b) => (a, (b.x - a.x) + 2 * (b.y - a.y) + 4 * (b.z - a.z)),
        VertexKey::Interior(p) => (p, 8),
    }
}

fn number_of(key: VertexKey) -> (n: u128)
    requires
        proper(key),
    ensures
        n == key_number(key),
{
    let (base, tag) = match key {
        VertexKey::Grid(p) => (p, 0u128),
        VertexKey::Edge(a, b) => (
            a,
            (b.x - a.x) as u128 + 2 * ((b.y - a.y) as u128) + 4 * ((b.z - a.z) as u128),
        ),
        VertexKey::Interior(p) => (p, 8u128),
    };
    proof {
        lemma_packed(ChunkKey { x: base.x, y: base.y, z: base.z });
    }
    ChunkKey::new(base.x, base.y, base.z).pack() * 16 + tag
}

/// `keys` with `k` appended, unless it is there.
pub open spec fn seated(keys: Seq<VertexKey>, k: VertexKey) -> Seq<VertexKey> {
    if keys.contains(k) {
        keys
    } else {
        keys.push(k)
    }
}

/// Place of `k` in a list of distinct keys.
pub open spec fn seat_of(keys: Seq<VertexKey>, k: VertexKey) -> int {
    keys.index_of(k)
}

/// Seating keeps keys distinct, keeps the seats taken before, and seats the key.
pub proof fn lemma_seated(keys: Seq<VertexKey>, k: VertexKey)
    requires
        keys.no_duplicates(),
    ensures
        seated(keys, k).no_duplicates(),
        seated(keys, k).contains(k),
        0 <= seat_of(seated(keys, k), k) < seated(keys, k).len(),
        seated(keys, k)[seat_of(seated(keys, k), k)] == k,
        keys.len() <= seated(keys, k).len() <= keys.len() + 1,
        forall|i: int| 0 <= i < keys.len() ==> #[trigger] seated(keys, k)[i] == keys[i],
        forall|l: VertexKey| #[trigger]
            keys.contains(l) ==> seated(keys, k).contains(l) && seat_of(seated(keys, k), l)
                == seat_of(keys, l),
        !keys.contains(k) ==> seat_of(seated(keys, k), k) == keys.len(),
{
    let s = seated(keys, k);
    if !keys.contains(k) {
        assert(s[keys.len() as int] == k);
        assert(s.contains(k));
        let i = s.index_of(k);
        assert(s[i] == k);
        if i < keys.len() {
            assert(keys[i] == k);
            assert(keys.contains(k));
        }
    }
    assert forall|l: VertexKey| #[trigger] keys.contains(l) implies s.contains(l) && seat_of(s, l)
        == seat_of(keys, l) by {
        let i = keys.index_of(l);
        assert(s[i] == l);
        assert(s.contains(l));
        lemma_seat_is(s, i);
    }
}

/// In a list of distinct keys the place of a key is the only one that holds it.
pub proof fn lemma_seat_is(keys: Seq<VertexKey>, i: int)
    requires
        keys.no_duplicates(),
        0 <= i < keys.len(),
    ensures
        keys.contains(keys[i]),
        seat_of(keys, keys[i]) == i,
{
    let j = keys.index_of(keys[i]);
    assert(keys.contains(keys[i]));
    assert(keys[j] == keys[i]);
}

/// Vertices by key: each key has at most one vertex.
pub struct VertexPool<V> {
    vertices: Vec<V>,
    ids: HashMap<u128, u32>,
    keys: Ghost<Seq<VertexKey>>,
}

impl<V> VertexPool<V> {
    /// The keys of the vertices, in order.
    pub closed spec fn keys(self) -> Seq<VertexKey> {
        self.keys@
    }

    /// The vertices, in order.
    pub closed spec fn list(self) -> Seq<V> {
        self.vertices@
    }

    /// Each vertex is found under the number of its key.
    pub closed spec fn wf(self) -> bool {
        &&& self.keys@.len() == self.vertices@.len()
        &&& self.keys@.no_duplicates()
        &&& self.keys@.len() <= 0x1_0000_0000
        &&& forall|i: int|
            0 <= i < self.keys@.len() ==> proper(#[trigger] self.keys@[i])
                && self.ids@.contains_key(key_number(self.keys@[i]))
                && self.ids@[key_number(self.keys@[i])] == i
        &&& forall|n: u128| #[trigger]
            self.ids@.contains_key(n) ==> self.ids@[n] < self.keys@.len() && key_number(
                self.keys@[self.ids@[n] as int],
            ) == n
    }

    /// What every well-formed pool satisfies.
    pub proof fn lemma_wf(self)
        requires
            self.wf(),
        ensures
            self.keys().len() == self.list().len(),
            self.keys().no_duplicates(),
            self.keys().len() <= 0x1_0000_0000,
            forall|i: int| 0 <= i < self.keys().len() ==> proper(#[trigger] self.keys()[i]),
    {
    }

    /// A pool without vertices.
    pub fn new() -> (p: Self)
        ensures
            p.wf(),
            p.keys().len() == 0,
            p.list().len() == 0,
    {
        VertexPool { vertices: Vec::new(), ids: HashMap::new(), keys: Ghost(Seq::empty()) }
    }

    /// The number of the vertex with key `key`.
    pub fn find(&self, key: VertexKey) -> (r: Option<u32>)
        requires
            self.wf(),
            proper(key),
        ensures
            r is Some <==> self.keys().contains(key),
            r matches Some(id) ==> id < self.keys().len() && self.keys()[id as int] == key && id
                == seat_of(self.keys(), key),
    {
        match self.ids.get(&number_of(key)) {
            Some(id) => {
                proof {
                    lemma_key_number(self.keys@[*id as int], key);
                    lemma_seat_is(self.keys@, *id as int);
                }
                Some(*id)
            },
            None => {
                proof {
                    if self.keys@.contains(key) {
                        let i = choose|i: int| 0 <= i < self.keys@.len() && self.keys@[i] == key;
                        assert(self.ids@.contains_key(key_number(self.keys@[i])));
                    }
                }
                None
            },
        }
    }

    /// The vertex with number `id`.
    pub fn get(&self, id: u32) -> (v: &V)
        requires
            self.wf(),
            id < self.list().len(),
        ensures
            *v == self.list()[id as int],
    {
        &self.vertices[id as usize]
    }

    /// The vertices, in order.
    pub fn into_vertices(self) -> (v: Vec<V>)
        ensures
            v@ == self.list(),
    {
        self.vertices
    }

    /// Adds a vertex under a new key.
    pub fn insert(&mut self, key: VertexKey, vertex: V) -> (r: Result<u32, MeshError>)
        requires
            old(self).wf(),
            proper(key),
            !old(self).keys().contains(key),
        ensures
            final(self).wf(),
            match r {
                Ok(id) => {
                    &&& id == old(self).keys().len()
                    &&& final(self).keys() == old(self).keys().push(key)
                    &&& final(self).list() == old(self).list().push(vertex)
                },
                Err(e) => {
                    &&& e == MeshError::TooManyVertices
                    &&& old(self).keys().len() == 0x1_0000_0000
                    &&& *final(self) == *old(self)
                },
            },
    {
        if self.vertices.len() > u32::MAX as usize {
            return Err(MeshError::TooManyVertices);
        }
        let id = self.vertices.len() as u32;
        let ghost before = self.keys@;
        let number = number_of(key);
        self.vertices.push(vertex);
        self.ids.insert(number, id);
        self.keys = Ghost(before.push(key));
        proof {
            assert forall|i: int| 0 <= i < self.keys@.len() implies proper(
                #[trigger] self.keys@[i],
            ) && self.ids@.contains_key(key_number(self.keys@[i])) && self.ids@[key_number(
                self.keys@[i],
            )] == i by {
                if i < before.len() {
                    assert(self.keys@[i] == before[i]);
                    assert(before.contains(before[i]));
                    assert(old(self).ids@.contains_key(key_number(before[i])));
                    lemma_key_number(before[i], key);
                }
            }
            lemma_seated(before, key);
            assert(seated(before, key) == before.push(key));
        }
        Ok(id)
    }
}

/// The smallest of three numbers.
pub open spec fn least(a: u32, b: u32, c: u32) -> u32 {
    if a <= b && a <= c {
        a
    } else if b <= c {
        b
    } else {
        c
    }
}

/// The largest of three numbers.
pub open spec fn greatest(a: u32, b: u32, c: u32) -> u32 {
    if a >= b && a >= c {
        a
    } else if b >= c {
        b
    } else {
        c
    }
}

/// The corners of a face in ascending order.
pub open spec fn sorted_corners(face: [u32; 3]) -> (u32, u32, u32) {
    let (a, b, c) = (face@[0], face@[1], face@[2]);
    let lo = least(a, b, c);
    let hi = greatest(a, b, c);
    (lo, (a + b + c - lo - hi) as u32, hi)
}

/// Two faces have the same corners, whatever their order.
pub open spec fn same_corners(f: [u32; 3], g: [u32; 3]) -> bool {
    sorted_corners(f) == sorted_corners(g)
}

/// Faces have the same corners exactly when one is a rearrangement of the other.
pub proof fn law_same_corners(f: [u32; 3], g: [u32; 3])
    ensures
        same_corners(f, g) <==> {
            ||| f@ =~= seq![g@[0], g@[1], g@[2]]
            ||| f@ =~= seq![g@[0], g@[2], g@[1]]
            ||| f@ =~= seq![g@[1], g@[0], g@[2]]
            ||| f@ =~= seq![g@[1], g@[2], g@[0]]
            ||| f@ =~= seq![g@[2], g@[0], g@[1]]
            ||| f@ =~= seq![g@[2], g@[1], g@[0]]
        },
{
    let (a, b, c) = (f@[0], f@[1], f@[2]);
    let (x, y, z) = (g@[0], g@[1], g@[2]);
    assert(f@.len() == 3 && g@.len() == 3);
    assert(same_corners(f, g) <==> ((a == x && b == y && c == z) || (a == x && b == z && c == y) || (
    a == y && b == x && c == z) || (a == y && b == z && c == x) || (a == z && b == x && c == y) || (
    a == z && b == y && c == x)));
}

/// The corners of a face as one number.
pub open spec fn corner_key(face: [u32; 3]) -> u128 {
    let s = sorted_corners(face);
    packed(ChunkKey { x: s.0, y: s.1, z: s.2 })
}

/// Some face of the list has the same corners as `face`.
pub open spec fn seen(faces: Seq<[u32; 3]>, face: [u32; 3]) -> bool {
    exists|i: int| 0 <= i < faces.len() && same_corners(#[trigger] faces[i], face)
}

/// `faces` with `face` appended, unless a face with the same corners is there.
pub open spec fn with_face(faces: Seq<[u32; 3]>, face: [u32; 3]) -> Seq<[u32; 3]> {
    if seen(faces, face) {
        faces
    } else {
        faces.push(face)
    }
}

/// Faces of which no two have the same corners.
pub struct FaceList {
    faces: Vec<[u32; 3]>,
    ids: HashSet<u128>,
}

impl FaceList {
    /// The faces, in order.
    pub closed spec fn list(self) -> Seq<[u32; 3]> {
        self.faces@
    }

    /// Exactly the corners of the listed faces are remembered.
    pub closed spec fn wf(self) -> bool {
        &&& forall|k: u128| #[trigger]
            self.ids@.contains(k) <==> exists|i: int|
                0 <= i < self.faces@.len() && corner_key(#[trigger] self.faces@[i]) == k
        &&& forall|i: int, j: int|
            0 <= i < j < self.faces@.len() ==> !same_corners(
                #[trigger] self.faces@[i],
                #[trigger] self.faces@[j],
            )
    }

    /// A list without faces.
    pub fn new() -> (l: Self)
        ensures
            l.wf(),
            l.list().len() == 0,
    {
        FaceList { faces: Vec::new(), ids: HashSet::new() }
    }

    /// The faces, in order.
    pub fn into_faces(self) -> (v: Vec<[u32; 3]>)
        ensures
            v@ == self.list(),
    {
        self.faces
    }

    /// Adds a face, unless one with the same corners is there.
    pub fn add(&mut self, face: [u32; 3])
        requires
            old(self).wf(),
        ensures
            final(self).wf(),
            final(self).list() == with_face(old(self).list(), face),
    {
        let key = corner_number(face);
        proof {
            lemma_corner_key(face);
            assert forall|i: int| 0 <= i < self.faces@.len() implies (corner_key(
                #[trigger] self.faces@[i],
            ) == key <==> same_corners(self.faces@[i], face)) by {
                lemma_corner_key(self.faces@[i]);
                lemma_corner_keys(self.faces@[i], face);
            }
        }
        let ghost before = self.faces@;
        if self.ids.insert(key) {
            self.faces.push(face);
            proof {
                assert forall|k: u128| #[trigger] self.ids@.contains(k) <==> exists|i: int|
                    0 <= i < self.faces@.len() && corner_key(#[trigger] self.faces@[i]) == k by {
                    if k == key {
                        assert(corner_key(self.faces@[before.len() as int]) == k);
                    }
                    if old(self).ids@.contains(k) {
                        let i = choose|i: int|
                            0 <= i < before.len() && corner_key(#[trigger] before[i]) == k;
                        assert(corner_key(self.faces@[i]) == k);
                    }
                    if exists|i: int|
                        0 <= i < self.faces@.len() && corner_key(#[trigger] self.faces@[i]) == k {
                        let i = choose|i: int|
                            0 <= i < self.faces@.len() && corner_key(#[trigger] self.faces@[i]) == k;
                        if i < before.len() {
                            assert(corner_key(before[i]) == k);
                        }
                    }
                }
                assert(!seen(before, face));
            }
        } else {
            proof {
                let i = choose|i: int|
                    0 <= i < before.len() && corner_key(#[trigger] before[i]) == key;
                assert(same_corners(before[i], face));
            }
        }
    }
}

/// The sorted corners lie between each other.
proof fn lemma_corner_key(face: [u32; 3])
    ensures
        ({
            let s = sorted_corners(face);
            let (a, b, c) = (face@[0], face@[1], face@[2]);
            &&& s.0 <= s.1 <= s.2
            &&& s.0 + s.1 + s.2 == a + b + c
        }),
{
}

/// The corner number tells faces with different corners apart.
proof fn lemma_corner_keys(f: [u32; 3], g: [u32; 3])
    ensures
        corner_key(f) == corner_key(g) <==> same_corners(f, g),
{
    let s = sorted_corners(f);
    let t = sorted_corners(g);
    lemma_packed(ChunkKey { x: s.0, y: s.1, z: s.2 });
    lemma_packed(ChunkKey { x: t.0, y: t.1, z: t.2 });
}

/// The corners of a face as one number.
fn corner_number(face: [u32; 3]) -> (k: u128)
    ensures
        k == corner_key(face),
{
    let a = face[0];
    let b = face[1];
    let c = face[2];
    let lo = if a <= b && a <= c {
        a
    } else if b <= c {
        b
    } else {
        c
    };
    let hi = if a >= b && a >= c {
        a
    } else if b >= c {
        b
    } else {
        c
    };
    let sum: u64 = a as u64 + b as u64 + c as u64;
    let mid = (sum - lo as u64 - hi as u64) as u32;
    ChunkKey::new(lo, mid, hi).pack()
}

/// What the geometry of a face says of it.
#[derive(Debug, Clone, Copy, PartialEq, Eq, Structural)]
pub enum FaceVerdict {
    /// The face has no area.
    Flat,
    /// The face is oriented as wanted.
    Keep,
    /// The face must be turned over: its first two corners change places.
    Swap,
}

/// What becomes of the face `[a, b, c]`.
pub open spec fn emitted(
    faces: Seq<[u32; 3]>,
    a: u32,
    b: u32,
    c: u32,
    verdict: FaceVerdict,
) -> Seq<[u32; 3]> {
    if repeats([a, b, c]) {
        faces
    } else {
        match verdict {
            FaceVerdict::Flat => faces,
            FaceVerdict::Keep => with_face(faces, [a, b, c]),
            FaceVerdict::Swap => with_face(faces, [b, a, c]),
        }
    }
}

/// Why a mesh could not be built.
#[derive(Debug)]
pub enum BuildError<E> {
    /// A vertex could not be made.
    Vertex(E),
    /// The mesh does not fit.
    Mesh(MeshError),
    /// A sample is absent.
    MissingSample(UVec3),
    /// The lookup tables do not resolve the cube.
    Unresolved(UVec3),
}

/// Keys of the vertices and faces of a mesh under construction.
pub struct MeshState {
    pub keys: Seq<VertexKey>,
    pub faces: Seq<[u32; 3]>,
}

/// One step of building a mesh.
pub enum Step {
    /// The vertex with this key must be there.
    Seat(VertexKey),
    /// The face with these corners is added. The point lies on its inner side.
    Face(VertexKey, VertexKey, VertexKey, UVec3),
}

/// The vertex of each key, or why there is none.
pub type Maker<V, E> = spec_fn(VertexKey) -> Result<V, E>;

/// The vertex of each key, and the verdict on each face.
#[verifier::reject_recursive_types(V)]
pub struct Craft<V, E> {
    pub make: Maker<V, E>,
    pub judge: spec_fn(V, V, V, UVec3) -> FaceVerdict,
}

/// `make` and `judge` give what `craft` says.
pub open spec fn crafts<
    V,
    E,
    M: Fn(VertexKey) -> Result<V, E>,
    J: Fn(V, V, V, UVec3) -> FaceVerdict,
>(make: M, judge: J, craft: Craft<V, E>) -> bool {
    computes1(make, craft.make) && computes4(judge, craft.judge)
}

/// The vertex that belongs to a key.
pub open spec fn payload<V, E>(make: Maker<V, E>, key: VertexKey) -> V {
    make(key)->Ok_0
}

/// What stops a key from being seated, if anything.
pub open spec fn seat_error<V, E>(
    keys: Seq<VertexKey>,
    key: VertexKey,
    make: Maker<V, E>,
) -> Option<BuildError<E>> {
    if keys.contains(key) {
        None
    } else {
        match make(key) {
            Err(e) => Some(BuildError::Vertex(e)),
            Ok(_) => if keys.len() >= 0x1_0000_0000 {
                Some(BuildError::Mesh(MeshError::TooManyVertices))
            } else {
                None
            },
        }
    }
}

/// The faces after the face with these corners is added: it is listed unless it is degenerate
/// or there already.
pub open spec fn with_judged_face<V, E>(
    s: MeshState,
    a: VertexKey,
    b: VertexKey,
    c: VertexKey,
    inside: UVec3,
    craft: Craft<V, E>,
) -> Seq<[u32; 3]> {
    emitted(
        s.faces,
        seat_of(s.keys, a) as u32,
        seat_of(s.keys, b) as u32,
        seat_of(s.keys, c) as u32,
        (craft.judge)(
            payload(craft.make, a),
            payload(craft.make, b),
            payload(craft.make, c),
            inside,
        ),
    )
}

/// The mesh after one step.
pub open spec fn with_step<V, E>(s: MeshState, step: Step, craft: Craft<V, E>) -> Result<MeshState, BuildError<E>> {
    match step {
        Step::Seat(k) => match seat_error(s.keys, k, craft.make) {
            Some(e) => Err(e),
            None => Ok(MeshState { keys: seated(s.keys, k), faces: s.faces }),
        },
        Step::Face(a, b, c, inside) => Ok(
            MeshState {
                keys: s.keys,
                faces: with_judged_face(s, a, b, c, inside, craft),
            },
        ),
    }
}

/// The mesh after the first `n` steps of a list.
pub open spec fn with_steps<V, E>(s: MeshState, list: Seq<Step>, n: nat, craft: Craft<V, E>) -> Result<MeshState, BuildError<E>>
    decreases n,
{
    if n == 0 {
        Ok(s)
    } else {
        match with_steps(s, list, (n - 1) as nat, craft) {
            Err(e) => Err(e),
            Ok(before) => with_step(before, list[n - 1], craft),
        }
    }
}

/// The mesh after all steps of a list.
pub open spec fn with_all_steps<V, E>(s: MeshState, list: Seq<Step>, craft: Craft<V, E>) -> Result<MeshState, BuildError<E>> {
    with_steps(s, list, list.len(), craft)
}

/// Only the first `n` steps of a list matter for what comes after `n` steps.
pub proof fn lemma_steps_prefix<V, E>(s: MeshState, list: Seq<Step>, more: Seq<Step>, n: nat, craft: Craft<V, E>)
    requires
        n <= list.len(),
        n <= more.len(),
        forall|i: int| 0 <= i < n ==> list[i] == more[i],
    ensures
        with_steps(s, list, n, craft) == with_steps(s, more, n, craft),
    decreases n,
{
    if n > 0 {
        lemma_steps_prefix(s, list, more, (n - 1) as nat, craft);
    }
}

/// Steps of two lists in a row.
pub proof fn lemma_steps_append<V, E>(s: MeshState, first: Seq<Step>, second: Seq<Step>, n: nat, craft: Craft<V, E>)
    requires
        n <= second.len(),
    ensures
        with_steps(s, first + second, first.len() + n, craft) == match with_all_steps(
            s,
            first,
            craft,
        ) {
            Err(e) => Err(e),
            Ok(mid) => with_steps(mid, second, n, craft),
        },
    decreases n,
{
    let both = first + second;
    if n == 0 {
        lemma_steps_prefix(s, first, both, first.len(), craft);
    } else {
        lemma_steps_append(s, first, second, (n - 1) as nat, craft);
        assert(both[first.len() + n - 1] == second[n - 1]);
    }
}

/// The corners of a face are among the first `n` vertices.
pub open spec fn corners_below(face: [u32; 3], n: nat) -> bool {
    face@[0] < n && face@[1] < n && face@[2] < n
}

/// Keys are distinct, every face has three different corners that are vertices, and no two
/// faces have the same corners.
pub open spec fn well_built(s: MeshState) -> bool {
    &&& s.keys.no_duplicates()
    &&& s.keys.len() <= 0x1_0000_0000
    &&& forall|i: int|
        0 <= i < s.faces.len() ==> corners_below(#[trigger] s.faces[i], s.keys.len())
            && !repeats(s.faces[i])
    &&& forall|i: int, j: int|
        0 <= i < j < s.faces.len() ==> !same_corners(#[trigger] s.faces[i], #[trigger] s.faces[j])
}

/// The key is seated in one of the first `n` steps.
pub open spec fn seats_before(list: Seq<Step>, n: int, key: VertexKey) -> bool {
    exists|i: int| 0 <= i < n && #[trigger] list[i] == Step::Seat(key)
}

/// In the first `n` steps the corners of a face are seated before the face.
pub open spec fn grounded(list: Seq<Step>, n: int) -> bool {
    forall|j: int|
        0 <= j < n ==> (#[trigger] list[j] matches Step::Face(a, b, c, _) ==> seats_before(
            list,
            j,
            a,
        ) && seats_before(list, j, b) && seats_before(list, j, c))
}

/// Two grounded lists in a row are grounded.
pub proof fn lemma_grounded_append(first: Seq<Step>, second: Seq<Step>)
    requires
        grounded(first, first.len() as int),
        grounded(second, second.len() as int),
    ensures
        grounded(first + second, (first + second).len() as int),
{
    let both = first + second;
    let n = first.len() as int;
    assert forall|j: int| 0 <= j < both.len() implies (#[trigger] both[j] matches Step::Face(
        a,
        b,
        c,
        _,
    ) ==> seats_before(both, j, a) && seats_before(both, j, b) && seats_before(both, j, c)) by {
        if let Step::Face(a, b, c, _) = both[j] {
            if j < n {
                assert(both[j] == first[j]);
                assert forall|k: VertexKey| seats_before(first, j, k) implies #[trigger] seats_before(
                    both,
                    j,
                    k,
                ) by {
                    let i = choose|i: int| 0 <= i < j && #[trigger] first[i] == Step::Seat(k);
                    assert(both[i] == Step::Seat(k));
                }
            } else {
                assert(both[j] == second[j - n]);
                assert forall|k: VertexKey| seats_before(
                    second,
                    j - n,
                    k,
                ) implies #[trigger] seats_before(both, j, k) by {
                    let i = choose|i: int| 0 <= i < j - n && #[trigger] second[i] == Step::Seat(k);
                    assert(both[n + i] == Step::Seat(k));
                }
            }
        }
    }
}

/// A triangle's corners are seated before its face.
pub proof fn lemma_triangle_grounded(
    a: VertexKey,
    b: VertexKey,
    c: VertexKey,
    inside: UVec3,
    turned: bool,
)
    ensures
        grounded(
            triangle_steps(a, b, c, inside, turned),
            triangle_steps(a, b, c, inside, turned).len() as int,
        ),
{
    let list = triangle_steps(a, b, c, inside, turned);
    assert(list[0] == Step::Seat(a));
    assert(list[1] == Step::Seat(b));
    assert(list[2] == Step::Seat(c));
    assert(seats_before(list, 3, a) && seats_before(list, 3, b) && seats_before(list, 3, c));
}

/// A face with three different vertices keeps a mesh well built.
proof fn lemma_added_well_built(s: MeshState, face: [u32; 3])
    requires
        well_built(s),
        corners_below(face, s.keys.len()),
        !repeats(face),
    ensures
        well_built(MeshState { keys: s.keys, faces: with_face(s.faces, face) }),
{
    let faces = with_face(s.faces, face);
    assert forall|m: int, n: int| 0 <= m < n < faces.len() implies !same_corners(
        #[trigger] faces[m],
        #[trigger] faces[n],
    ) by {
        assert(faces[m] == s.faces[m]);
        if n < s.faces.len() {
            assert(faces[n] == s.faces[n]);
        }
    }
}

/// A face with seated corners keeps a mesh well built.
proof fn lemma_face_well_built<V, E>(
    s: MeshState,
    a: VertexKey,
    b: VertexKey,
    c: VertexKey,
    inside: UVec3,
    craft: Craft<V, E>,
)
    requires
        well_built(s),
        s.keys.contains(a),
        s.keys.contains(b),
        s.keys.contains(c),
    ensures
        well_built(
            MeshState { keys: s.keys, faces: with_judged_face(s, a, b, c, inside, craft) },
        ),
{
    let (i, j, k) = (seat_of(s.keys, a), seat_of(s.keys, b), seat_of(s.keys, c));
    assert(s.keys[i] == a && s.keys[j] == b && s.keys[k] == c);
    assert(0 <= i < s.keys.len() && 0 <= j < s.keys.len() && 0 <= k < s.keys.len());
    if !repeats([i as u32, j as u32, k as u32]) {
        lemma_added_well_built(s, [i as u32, j as u32, k as u32]);
        lemma_added_well_built(s, [j as u32, i as u32, k as u32]);
    }
}

/// Grounded steps keep a mesh well built, and seat their keys.
pub proof fn lemma_steps_well_built<V, E>(s: MeshState, list: Seq<Step>, n: nat, craft: Craft<V, E>)
    requires
        well_built(s),
        n <= list.len(),
        grounded(list, n as int),
    ensures
        with_steps(s, list, n, craft) matches Ok(t) ==> well_built(t) && forall|k: VertexKey|
            #[trigger] seats_before(list, n as int, k) ==> t.keys.contains(k),
    decreases n,
{
    if n > 0 {
        let m = (n - 1) as nat;
        lemma_steps_well_built(s, list, m, craft);
        if let Ok(before) = with_steps(s, list, m, craft) {
            if let Ok(t) = with_step(before, list[n - 1], craft) {
                match list[n - 1] {
                    Step::Seat(k) => {
                        lemma_seated(before.keys, k);
                        assert forall|i: int| 0 <= i < t.faces.len() implies corners_below(
                            #[trigger] t.faces[i],
                            t.keys.len(),
                        ) && !repeats(t.faces[i]) by {
                            assert(corners_below(before.faces[i], before.keys.len()));
                        }
                        assert(well_built(t));
                    },
                    Step::Face(a, b, c, inside) => {
                        lemma_face_well_built(before, a, b, c, inside, craft);
                    },
                }
                assert forall|k: VertexKey| #[trigger]
                    seats_before(list, n as int, k) implies t.keys.contains(k) by {
                    let i = choose|i: int| 0 <= i < n && #[trigger] list[i] == Step::Seat(k);
                    if i < n - 1 {
                        assert(seats_before(list, m as int, k));
                    }
                }
            }
        }
    }
}

/// A mesh under construction.
pub struct Mesher<V> {
    pub pool: VertexPool<V>,
    pub faces: FaceList,
}

impl<V: Copy> Mesher<V> {
    /// Keys and faces.
    pub open spec fn state(self) -> MeshState {
        MeshState { keys: self.pool.keys(), faces: self.faces.list() }
    }

    /// Pool and faces are well-formed, the mesh is well built, and every vertex is the one that
    /// `make` gives its key.
    pub open spec fn wf<E, M: Fn(VertexKey) -> Result<V, E>>(self, make: M) -> bool {
        &&& self.pool.wf()
        &&& self.faces.wf()
        &&& well_built(self.state())
        &&& forall|i: int|
            0 <= i < self.pool.keys().len() ==> call_ensures(
                make,
                (#[trigger] self.pool.keys()[i],),
                Ok::<V, E>(self.pool.list()[i]),
            )
    }

    /// A mesh without vertices and faces.
    pub fn new() -> (m: Self)
        ensures
            m.pool.wf(),
            m.faces.wf(),
            m.state().keys =~= Seq::empty(),
            m.state().faces =~= Seq::empty(),
    {
        Mesher { pool: VertexPool::new(), faces: FaceList::new() }
    }

    /// The number of the vertex with key `key`, which is made if it is not there.
    pub fn vertex<E, M: Fn(VertexKey) -> Result<V, E>>(&mut self, key: VertexKey, make: &M) -> (r:
        Result<u32, BuildError<E>>)
        requires
            old(self).wf(*make),
            total1(*make),
            proper(key),
        ensures
            final(self).wf(*make),
            final(self).faces == old(self).faces,
            forall|g: Maker<V, E>| #[trigger]
                computes1(*make, g) ==> seat_error(old(self).state().keys, key, g) == match r {
                    Ok(_) => None,
                    Err(e) => Some(e),
                },
            match r {
                Ok(id) => {
                    &&& final(self).state().keys == seated(old(self).state().keys, key)
                    &&& id == seat_of(final(self).state().keys, key)
                    &&& id < final(self).state().keys.len()
                    &&& final(self).state().keys[id as int] == key
                },
                Err(_) => *final(self) == *old(self),
            },
    {
        proof {
            self.pool.lemma_wf();
            lemma_seated(self.pool.keys(), key);
        }
        if let Some(id) = self.pool.find(key) {
            return Ok(id);
        }
        let vertex = match make(key) {
            Ok(vertex) => vertex,
            Err(e) => return Err(BuildError::Vertex(e)),
        };
        let ghost before = self.state();
        let r = match self.pool.insert(key, vertex) {
            Ok(id) => Ok(id),
            Err(e) => Err(BuildError::Mesh(e)),
        };
        proof {
            self.pool.lemma_wf();
            assert forall|i: int| 0 <= i < self.state().faces.len() implies corners_below(
                #[trigger] self.state().faces[i],
                self.state().keys.len(),
            ) && !repeats(self.state().faces[i]) by {
                assert(corners_below(before.faces[i], before.keys.len()));
            }
        }
        r
    }

    /// Adds the face with corners `a`, `b` and `c`, unless it is degenerate or there already.
    pub fn face<
        E,
        M: Fn(VertexKey) -> Result<V, E>,
        J: Fn(V, V, V, UVec3) -> FaceVerdict,
    >(&mut self, a: u32, b: u32, c: u32, inside: UVec3, make: &M, judge: &J)
        requires
            old(self).wf(*make),
            total4(*judge),
            a < old(self).state().keys.len(),
            b < old(self).state().keys.len(),
            c < old(self).state().keys.len(),
        ensures
            final(self).wf(*make),
            final(self).pool == old(self).pool,
            forall|craft: Craft<V, E>| #[trigger]
                crafts(*make, *judge, craft) ==> ({
                    let s = old(self).state();
                    final(self).state().faces == with_judged_face(
                        s,
                        s.keys[a as int],
                        s.keys[b as int],
                        s.keys[c as int],
                        inside,
                        craft,
                    )
                }),
    {
        let ghost before = self.state();
        let ghost keys = before.keys;
        proof {
            self.pool.lemma_wf();
            lemma_seat_is(keys, a as int);
            lemma_seat_is(keys, b as int);
            lemma_seat_is(keys, c as int);
        }
        if a == b || b == c || c == a {
            return;
        }
        let va = *self.pool.get(a);
        let vb = *self.pool.get(b);
        let vc = *self.pool.get(c);
        assert(call_ensures(*make, (keys[a as int],), Ok::<V, E>(va)));
        assert(call_ensures(*make, (keys[b as int],), Ok::<V, E>(vb)));
        assert(call_ensures(*make, (keys[c as int],), Ok::<V, E>(vc)));
        match judge(va, vb, vc, inside) {
            FaceVerdict::Flat => {},
            FaceVerdict::Keep => self.faces.add([a, b, c]),
            FaceVerdict::Swap => self.faces.add([b, a, c]),
        }
        proof {
            lemma_added_well_built(before, [a, b, c]);
            lemma_added_well_built(before, [b, a, c]);
        }
    }

    /// Seats three corners and adds their face, turned over on demand.
    pub fn triangle<
        E,
        M: Fn(VertexKey) -> Result<V, E>,
        J: Fn(V, V, V, UVec3) -> FaceVerdict,
    >(
        &mut self,
        a: VertexKey,
        b: VertexKey,
        c: VertexKey,
        inside: UVec3,
        turned: bool,
        make: &M,
        judge: &J,
    ) -> (r: Result<(), BuildError<E>>)
        requires
            old(self).wf(*make),
            total1(*make),
            total4(*judge),
            proper(a),
            proper(b),
            proper(c),
        ensures
            final(self).wf(*make),
            forall|craft: Craft<V, E>| #[trigger]
                crafts(*make, *judge, craft) ==> built(
                    with_all_steps(
                        old(self).state(),
                        triangle_steps(a, b, c, inside, turned),
                        craft,
                    ),
                    r,
                    final(self).state(),
                ),
    {
        let ghost s = self.state();
        proof {
            reveal_with_fuel(with_steps, 5);
            self.pool.lemma_wf();
            lemma_seated(s.keys, a);
            lemma_seated(seated(s.keys, a), b);
            lemma_seated(seated(seated(s.keys, a), b), c);
        }
        let ia = match self.vertex(a, make) {
            Ok(id) => id,
            Err(e) => return Err(e),
        };
        let ib = match self.vertex(b, make) {
            Ok(id) => id,
            Err(e) => return Err(e),
        };
        let ic = match self.vertex(c, make) {
            Ok(id) => id,
            Err(e) => return Err(e),
        };
        proof {
            assert(seated(s.keys, a).contains(a));
            assert(seated(seated(s.keys, a), b).contains(a));
            assert(seated(seated(s.keys, a), b).contains(b));
        }
        if turned {
            self.face(ia, ic, ib, inside, make, judge);
        } else {
            self.face(ia, ib, ic, inside, make, judge);
        }
        Ok(())
    }
}

/// Three corners, then their face, turned over on demand.
pub open spec fn triangle_steps(
    a: VertexKey,
    b: VertexKey,
    c: VertexKey,
    inside: UVec3,
    turned: bool,
) -> Seq<Step> {
    let face = if turned {
        Step::Face(a, c, b, inside)
    } else {
        Step::Face(a, b, c, inside)
    };
    seq![Step::Seat(a), Step::Seat(b), Step::Seat(c), face]
}

/// What was returned, and the mesh that is left, are what the steps say.
pub open spec fn built<E>(
    steps: Result<MeshState, BuildError<E>>,
    r: Result<(), BuildError<E>>,
    left: MeshState,
) -> bool {
    match r {
        Ok(()) => steps == Ok::<MeshState, BuildError<E>>(left),
        Err(e) => steps == Err::<MeshState, BuildError<E>>(e),
    }
}

/// The mesh that was built, or the error, is what the cubes say.
pub open spec fn meshed<V: Copy, E>(
    steps: Result<MeshState, BuildError<E>>,
    r: Result<Mesher<V>, BuildError<E>>,
) -> bool {
    match r {
        Ok(mesher) => steps == Ok::<MeshState, BuildError<E>>(mesher.state()),
        Err(e) => steps == Err::<MeshState, BuildError<E>>(e),
    }
}

} // verus!
