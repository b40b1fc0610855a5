//! Triangle meshes: merging, winding, and removal of degenerate triangles.

use vstd::prelude::*;

use crate::outcome::{computes1, computes3, total1, total3};

verus! {

/// Why a mesh operation was refused.
#[derive(Debug, Clone, Copy, PartialEq, Eq, Structural)]
pub enum MeshError {
    /// A vertex or index number does not fit in 32 bits.
    TooManyVertices,
    /// Position and texture-coordinate buffers have different lengths.
    LengthMismatch,
    /// A face index after merging does not fit in 32 bits.
    IndexTooLarge,
    /// A face refers to a vertex that does not exist.
    IndexOutOfBounds,
    /// A position or texture coordinate is not finite.
    NotFinite,
}

/// Triangle mesh with positions of type `P` and texture coordinates of type `U`.
#[derive(Debug)]
pub struct Mesh3D<P, U> {
    /// Physical-space vertex positions.
    pub positions: Vec<P>,
    /// Per-vertex texture coordinates. Indices match `positions`.
    pub uv: Vec<U>,
    /// Triangle vertex indices.
    pub indices: Vec<[u32; 3]>,
}

impl<P, U> Mesh3D<P, U> {
    /// The mesh without vertices and faces.
    pub fn new() -> (m: Self)
        ensures
            m.positions@.len() == 0,
            m.uv@.len() == 0,
            m.indices@.len() == 0,
    {
        Mesh3D { positions: Vec::new(), uv: Vec::new(), indices: Vec::new() }
    }

    /// Every face refers to vertices that exist, and every vertex has a texture coordinate.
    pub open spec fn wf(self) -> bool {
        &&& self.uv@.len() == self.positions@.len()
        &&& forall|i: int|
            0 <= i < self.indices@.len() ==> face_within(
                #[trigger] self.indices@[i],
                self.positions@.len(),
            )
    }
}

impl<P, U> Default for Mesh3D<P, U> {
    fn default() -> (m: Self)
        ensures
            m.positions@.len() == 0,
            m.uv@.len() == 0,
            m.indices@.len() == 0,
    {
        Mesh3D::new()
    }
}

/// The face's indices are below `n`.
pub open spec fn face_within(face: [u32; 3], n: nat) -> bool {
    face@[0] < n && face@[1] < n && face@[2] < n
}

/// The face with other orientation.
pub open spec fn flipped(face: [u32; 3]) -> [u32; 3] {
    [face@[0], face@[2], face@[1]]
}

/// Flipping a face twice gives it back.
pub proof fn law_flip_twice(face: [u32; 3])
    ensures
        flipped(flipped(face)) == face,
{
    assert(flipped(flipped(face))@ =~= face@);
}

/// Swaps the orientation of every face.
pub fn flip_face_winding(faces: &mut [[u32; 3]])
    ensures
        final(faces)@.len() == old(faces)@.len(),
        forall|i: int|
            0 <= i < old(faces)@.len() ==> #[trigger] final(faces)@[i] == flipped(old(faces)@[i]),
{
    let n = faces.len();
    let mut i: usize = 0;
    while i < n
        invariant
            i <= n,
            n == faces@.len(),
            faces@.len() == old(faces)@.len(),
            forall|j: int| 0 <= j < i ==> #[trigger] faces@[j] == flipped(old(faces)@[j]),
            forall|j: int| i <= j < n ==> #[trigger] faces@[j] == old(faces)@[j],
        decreases n - i,
    {
        let face = faces[i];
        faces[i] = [face[0], face[2], face[1]];
        i += 1;
    }
}

/// Swaps the orientation of the faces from `start` on.
pub fn flip_faces_from(faces: &mut Vec<[u32; 3]>, start: usize)
    requires
        start <= old(faces)@.len(),
    ensures
        final(faces)@.len() == old(faces)@.len(),
        forall|i: int|
            0 <= i < old(faces)@.len() ==> #[trigger] final(faces)@[i] == if i < start {
                old(faces)@[i]
            } else {
                flipped(old(faces)@[i])
            },
{
    let n = faces.len();
    let mut i: usize = start;
    while i < n
        invariant
            start <= i <= n,
            n == faces@.len(),
            faces@.len() == old(faces)@.len(),
            forall|j: int|
                0 <= j < n ==> #[trigger] faces@[j] == if j < start || j >= i {
                    old(faces)@[j]
                } else {
                    flipped(old(faces)@[j])
                },
        decreases n - i,
    {
        let face = faces[i];
        faces[i] = [face[0], face[2], face[1]];
        i += 1;
    }
}

/// The face with every index raised by `base`.
pub open spec fn shifted(face: [u32; 3], base: int) -> [u32; 3] {
    [(face@[0] + base) as u32, (face@[1] + base) as u32, (face@[2] + base) as u32]
}

/// The face with every index raised by `base` still has 32-bit indices.
pub open spec fn shift_fits(face: [u32; 3], base: int) -> bool {
    &&& face@[0] + base <= u32::MAX
    &&& face@[1] + base <= u32::MAX
    &&& face@[2] + base <= u32::MAX
}

/// What a mesh holds.
pub struct MeshModel<P, U> {
    pub positions: Seq<P>,
    pub uv: Seq<U>,
    pub indices: Seq<[u32; 3]>,
}

impl<P, U> View for Mesh3D<P, U> {
    type V = MeshModel<P, U>;

    open spec fn view(&self) -> MeshModel<P, U> {
        MeshModel { positions: self.positions@, uv: self.uv@, indices: self.indices@ }
    }
}

/// The mesh without vertices and faces.
pub open spec fn empty_mesh<P, U>() -> MeshModel<P, U> {
    MeshModel { positions: Seq::empty(), uv: Seq::empty(), indices: Seq::empty() }
}

/// Why two meshes cannot be merged.
pub open spec fn merge_refusal<P, U>(
    dest: MeshModel<P, U>,
    src: MeshModel<P, U>,
) -> Option<MeshError> {
    if dest.positions.len() > u32::MAX {
        Some(MeshError::TooManyVertices)
    } else if src.positions.len() != src.uv.len() {
        Some(MeshError::LengthMismatch)
    } else if exists|i: int|
        0 <= i < src.indices.len() && !shift_fits(
            #[trigger] src.indices[i],
            dest.positions.len() as int,
        ) {
        Some(MeshError::IndexTooLarge)
    } else {
        None
    }
}

/// The vertices and faces of `dest`, then those of `src` renumbered.
pub open spec fn merge_of<P, U>(
    dest: MeshModel<P, U>,
    src: MeshModel<P, U>,
) -> MeshModel<P, U> {
    MeshModel {
        positions: dest.positions + src.positions,
        uv: dest.uv + src.uv,
        indices: dest.indices + src.indices.map_values(
            |face: [u32; 3]| shifted(face, dest.positions.len() as int),
        ),
    }
}

/// Appends `src` to `dest`.
pub fn merge_mesh<P, U>(dest: &mut Mesh3D<P, U>, src: Mesh3D<P, U>) -> (r: Result<(), MeshError>)
    ensures
        match r {
            Ok(()) => merge_refusal(old(dest)@, src@) is None && final(dest)@ == merge_of(
                old(dest)@,
                src@,
            ),
            Err(e) => merge_refusal(old(dest)@, src@) == Some(e) && *final(dest) == *old(dest),
        },
{
    if dest.positions.len() > u32::MAX as usize {
        return Err(MeshError::TooManyVertices);
    }
    let base = dest.positions.len() as u32;
    if src.positions.len() != src.uv.len() {
        return Err(MeshError::LengthMismatch);
    }
    let mut i: usize = 0;
    while i < src.indices.len()
        invariant
            i <= src.indices@.len(),
            base == old(dest).positions@.len(),
            *dest == *old(dest),
            src.positions@.len() == src.uv@.len(),
            old(dest).positions@.len() <= u32::MAX,
            forall|j: int| 0 <= j < i ==> shift_fits(#[trigger] src.indices@[j], base as int),
        decreases src.indices@.len() - i,
    {
        let face = src.indices[i];
        let room = u32::MAX - base;
        if face[0] > room || face[1] > room || face[2] > room {
            assert(!shift_fits(src@.indices[i as int], base as int));
            return Err(MeshError::IndexTooLarge);
        }
        i += 1;
    }
    let mut positions = src.positions;
    let mut uv = src.uv;
    dest.positions.append(&mut positions);
    dest.uv.append(&mut uv);
    append_shifted(&mut dest.indices, &src.indices, base);
    Ok(())
}

/// Appends renumbered faces.
fn append_shifted(dest: &mut Vec<[u32; 3]>, src: &Vec<[u32; 3]>, base: u32)
    requires
        forall|j: int|
            0 <= j < src@.len() ==> shift_fits(#[trigger] src@[j], base as int),
    ensures
        final(dest)@ == old(dest)@ + src@.map_values(|face: [u32; 3]| shifted(face, base as int)),
{
    let ghost all = src@.map_values(|face: [u32; 3]| shifted(face, base as int));
    let mut i: usize = 0;
    assert(old(dest)@ + all.take(0) =~= old(dest)@);
    while i < src.len()
        invariant
            i <= src@.len(),
            all == src@.map_values(|face: [u32; 3]| shifted(face, base as int)),
            forall|j: int|
                0 <= j < src@.len() ==> shift_fits(#[trigger] src@[j], base as int),
            dest@ == old(dest)@ + all.take(i as int),
        decreases src@.len() - i,
    {
        let face = src[i];
        assert(shift_fits(src@[i as int], base as int));
        let moved = [face[0] + base, face[1] + base, face[2] + base];
        proof {
            assert(moved@ =~= shifted(face, base as int)@);
            assert(all.take(i + 1) =~= all.take(i as int).push(moved));
            assert((old(dest)@ + all.take(i as int)).push(moved) =~= old(dest)@ + all.take(i + 1));
        }
        dest.push(moved);
        i += 1;
    }
    assert(all.take(i as int) =~= all);
}

/// Every face refers to vertices that exist, and every vertex has a texture coordinate.
pub open spec fn sound<P, U>(m: MeshModel<P, U>) -> bool {
    &&& m.uv.len() == m.positions.len()
    &&& forall|i: int|
        0 <= i < m.indices.len() ==> face_within(#[trigger] m.indices[i], m.positions.len())
}

/// In a merged mesh, the faces of both parts still refer to the vertices they referred to.
pub proof fn law_merge_keeps_geometry<P, U>(
    dest: MeshModel<P, U>,
    src: MeshModel<P, U>,
    i: int,
    k: int,
)
    requires
        merge_refusal(dest, src) is None,
        sound(dest),
        sound(src),
        0 <= k < 3,
    ensures
        sound(merge_of(dest, src)),
        0 <= i < dest.indices.len() ==> merge_of(dest, src).positions[merge_of(
            dest,
            src,
        ).indices[i]@[k] as int] == dest.positions[dest.indices[i]@[k] as int],
        0 <= i < src.indices.len() ==> merge_of(dest, src).positions[merge_of(
            dest,
            src,
        ).indices[dest.indices.len() + i]@[k] as int] == src.positions[src.indices[i]@[k] as int],
{
    let merged = merge_of(dest, src);
    let base = dest.positions.len() as int;
    let moved = src.indices.map_values(|face: [u32; 3]| shifted(face, base));
    assert forall|j: int| 0 <= j < merged.indices.len() implies face_within(
        #[trigger] merged.indices[j],
        merged.positions.len(),
    ) by {
        if j < dest.indices.len() {
            assert(merged.indices[j] == dest.indices[j]);
            assert(face_within(dest.indices[j], dest.positions.len()));
        } else {
            let s = j - dest.indices.len();
            assert(merged.indices[j] == moved[s]);
            assert(shift_fits(src.indices[s], base));
            assert(face_within(src.indices[s], src.positions.len()));
        }
    }
    if 0 <= i < dest.indices.len() {
        assert(merged.indices[i] == dest.indices[i]);
        assert(face_within(dest.indices[i], dest.positions.len()));
        assert(dest.indices[i]@[k] < dest.positions.len());
    }
    if 0 <= i < src.indices.len() {
        let j = dest.indices.len() + i;
        assert(merged.indices[j] == moved[i]);
        assert(shift_fits(src.indices[i], base));
        assert(face_within(src.indices[i], src.positions.len()));
        assert(src.indices[i]@[k] < src.positions.len());
    }
}

/// The meshes `0..n` of a list, merged in order into the empty mesh.
pub open spec fn merged_list<P, U>(list: Seq<MeshModel<P, U>>, n: nat) -> Result<
    MeshModel<P, U>,
    MeshError,
>
    decreases n,
{
    if n == 0 {
        Ok(empty_mesh())
    } else {
        match merged_list(list, (n - 1) as nat) {
            Err(e) => Err(e),
            Ok(m) => match merge_refusal(m, list[n - 1]) {
                Some(e) => Err(e),
                None => Ok(merge_of(m, list[n - 1])),
            },
        }
    }
}

/// Once a merge is refused, the list is refused.
pub proof fn lemma_merge_fails<P, U>(list: Seq<MeshModel<P, U>>, i: nat, n: nat)
    requires
        i <= n,
        merged_list(list, i) is Err,
    ensures
        merged_list(list, n) == merged_list(list, i),
    decreases n,
{
    if i < n {
        lemma_merge_fails(list, i, (n - 1) as nat);
    }
}

/// What meshes hold.
pub open spec fn models<P, U>(list: Seq<Mesh3D<P, U>>) -> Seq<MeshModel<P, U>> {
    list.map_values(|m: Mesh3D<P, U>| m@)
}

/// Merges meshes in order.
pub fn merge_all<P, U>(list: Vec<Mesh3D<P, U>>) -> (r: Result<Mesh3D<P, U>, MeshError>)
    ensures
        match r {
            Ok(m) => merged_list(models(list@), list@.len()) == Ok::<MeshModel<P, U>, MeshError>(
                m@,
            ),
            Err(e) => merged_list(models(list@), list@.len()) == Err::<MeshModel<P, U>, MeshError>(
                e,
            ),
        },
{
    let ghost all = models(list@);
    let ghost count = list@.len();
    let mut mesh: Mesh3D<P, U> = Mesh3D::new();
    assert(mesh@.positions =~= Seq::empty());
    assert(mesh@.uv =~= Seq::empty());
    assert(mesh@.indices =~= Seq::empty());
    for part in it: list
        invariant
            it.seq() == list@,
            all == models(list@),
            count == list@.len(),
            merged_list(all, it.index() as nat) == Ok::<MeshModel<P, U>, MeshError>(mesh@),
    {
        let ghost n = it.index() as int;
        assert(part@ == all[n]);
        match merge_mesh(&mut mesh, part) {
            Ok(()) => {},
            Err(e) => {
                proof {
                    lemma_merge_fails(all, (n + 1) as nat, count);
                }
                return Err(e);
            },
        }
    }
    Ok(mesh)
}

/// The face names a vertex twice.
pub open spec fn repeats(face: [u32; 3]) -> bool {
    face@[0] == face@[1] || face@[0] == face@[2] || face@[1] == face@[2]
}

/// True when the face names a vertex twice.
pub fn has_repeated_index(face: [u32; 3]) -> (b: bool)
    ensures
        b == repeats(face),
{
    face[0] == face[1] || face[0] == face[2] || face[1] == face[2]
}

/// What is wrong with a face's vertex, if anything.
pub open spec fn vertex_refusal<P>(
    positions: Seq<P>,
    index: u32,
    finite: spec_fn(P) -> bool,
) -> Option<MeshError> {
    if index >= positions.len() {
        Some(MeshError::IndexOutOfBounds)
    } else if !finite(positions[index as int]) {
        Some(MeshError::NotFinite)
    } else {
        None
    }
}

/// What is wrong with a face, if anything: a face that names a vertex twice is not looked at.
pub open spec fn face_refusal<P>(
    positions: Seq<P>,
    face: [u32; 3],
    finite: spec_fn(P) -> bool,
) -> Option<MeshError> {
    if repeats(face) {
        None
    } else if vertex_refusal(positions, face@[0], finite) is Some {
        vertex_refusal(positions, face@[0], finite)
    } else if vertex_refusal(positions, face@[1], finite) is Some {
        vertex_refusal(positions, face@[1], finite)
    } else {
        vertex_refusal(positions, face@[2], finite)
    }
}

/// The face has three different vertices and is not too small.
pub open spec fn worth_keeping<P>(
    positions: Seq<P>,
    face: [u32; 3],
    tiny: spec_fn(P, P, P) -> bool,
) -> bool {
    !repeats(face) && !tiny(
        positions[face@[0] as int],
        positions[face@[1] as int],
        positions[face@[2] as int],
    )
}

/// The position of a face's vertex.
fn position_for_face_vertex<P: Copy, F: Fn(P) -> bool>(
    positions: &Vec<P>,
    index: u32,
    finite: &F,
) -> (r: Result<P, MeshError>)
    requires
        total1(*finite),
    ensures
        r matches Ok(p) ==> index < positions@.len() && p == positions@[index as int],
        forall|f: spec_fn(P) -> bool| #[trigger]
            computes1(*finite, f) ==> vertex_refusal(positions@, index, f) == match r {
                Ok(_) => None,
                Err(e) => Some(e),
            },
{
    let i = index as usize;
    if i >= positions.len() {
        return Err(MeshError::IndexOutOfBounds);
    }
    let p = positions[i];
    if !finite(p) {
        return Err(MeshError::NotFinite);
    }
    Ok(p)
}

/// Tells whether a face is kept.
fn is_worth_keeping<P: Copy, F: Fn(P) -> bool, G: Fn(P, P, P) -> bool>(
    positions: &Vec<P>,
    face: [u32; 3],
    finite: &F,
    tiny: &G,
) -> (r: Result<bool, MeshError>)
    requires
        total1(*finite),
        total3(*tiny),
    ensures
        forall|f: spec_fn(P) -> bool, t: spec_fn(P, P, P) -> bool|
            #![trigger computes1(*finite, f), computes3(*tiny, t)]
            computes1(*finite, f) && computes3(*tiny, t) ==> match r {
                Ok(keep) => face_refusal(positions@, face, f) is None && keep == worth_keeping(
                    positions@,
                    face,
                    t,
                ),
                Err(e) => face_refusal(positions@, face, f) == Some(e),
            },
{
    if has_repeated_index(face) {
        return Ok(false);
    }
    let a = match position_for_face_vertex(positions, face[0], finite) {
        Ok(p) => p,
        Err(e) => return Err(e),
    };
    let b = match position_for_face_vertex(positions, face[1], finite) {
        Ok(p) => p,
        Err(e) => return Err(e),
    };
    let c = match position_for_face_vertex(positions, face[2], finite) {
        Ok(p) => p,
        Err(e) => return Err(e),
    };
    Ok(!tiny(a, b, c))
}

/// The first `n` faces are in order, and `kept` are those worth keeping.
spec fn sifted<P>(
    positions: Seq<P>,
    faces: Seq<[u32; 3]>,
    n: int,
    kept: Seq<[u32; 3]>,
    finite: spec_fn(P) -> bool,
    tiny: spec_fn(P, P, P) -> bool,
) -> bool {
    &&& forall|j: int| 0 <= j < n ==> face_refusal(positions, #[trigger] faces[j], finite) is None
    &&& kept == faces.take(n).filter(|face: [u32; 3]| worth_keeping(positions, face, tiny))
}

/// What removing triangles from a mesh gives: `after` are the faces that are left.
pub open spec fn removal<P>(
    positions: Seq<P>,
    before: Seq<[u32; 3]>,
    after: Seq<[u32; 3]>,
    finite: spec_fn(P) -> bool,
    tiny: spec_fn(P, P, P) -> bool,
    r: Result<usize, MeshError>,
) -> bool {
    match r {
        Ok(removed) => {
            &&& forall|i: int|
                0 <= i < before.len() ==> face_refusal(
                    positions,
                    #[trigger] before[i],
                    finite,
                ) is None
            &&& after == before.filter(|face: [u32; 3]| worth_keeping(positions, face, tiny))
        },
        Err(e) => exists|i: int|
            0 <= i < before.len() && face_refusal(positions, #[trigger] before[i], finite) == Some(
                e,
            ) && forall|j: int|
                0 <= j < i ==> face_refusal(positions, #[trigger] before[j], finite) is None,
    }
}

/// Remove triangles that name a vertex twice or that `tiny` finds too small.
///
/// The operation is in-place and returns the number of removed triangles. It is refused, and
/// the mesh left as it is, at the first triangle with three different vertices of which one
/// does not exist or is not `finite`.
pub fn remove_degenerate_triangles<P: Copy, U, F: Fn(P) -> bool, G: Fn(P, P, P) -> bool>(
    mesh: &mut Mesh3D<P, U>,
    finite: &F,
    tiny: &G,
) -> (r: Result<usize, MeshError>)
    requires
        total1(*finite),
        total3(*tiny),
    ensures
        final(mesh).positions == old(mesh).positions,
        final(mesh).uv == old(mesh).uv,
        r is Err ==> final(mesh).indices == old(mesh).indices,
        r matches Ok(removed) ==> removed == old(mesh).indices@.len() - final(mesh).indices@.len(),
        forall|f: spec_fn(P) -> bool, t: spec_fn(P, P, P) -> bool|
            #![trigger computes1(*finite, f), computes3(*tiny, t)]
            computes1(*finite, f) && computes3(*tiny, t) ==> removal(
                old(mesh).positions@,
                old(mesh).indices@,
                final(mesh).indices@,
                f,
                t,
                r,
            ),
{
    let ghost all = mesh.indices@;
    let ghost positions = mesh.positions@;
    let mut kept: Vec<[u32; 3]> = Vec::with_capacity(mesh.indices.len());
    let mut i: usize = 0;
    proof {
        reveal(Seq::filter);
        assert(all.take(0) =~= Seq::empty());
        assert forall|f: spec_fn(P) -> bool, t: spec_fn(P, P, P) -> bool|
            #![trigger computes1(*finite, f), computes3(*tiny, t)]
            computes1(*finite, f) && computes3(*tiny, t) implies sifted(
            positions,
            all,
            0,
            kept@,
            f,
            t,
        ) by {
            assert(kept@ =~= all.take(0).filter(
                |face: [u32; 3]| worth_keeping(positions, face, t),
            ));
        }
    }
    while i < mesh.indices.len()
        invariant
            i <= mesh.indices@.len(),
            *mesh == *old(mesh),
            all == mesh.indices@,
            positions == mesh.positions@,
            total1(*finite),
            total3(*tiny),
            kept@.len() <= i,
            forall|f: spec_fn(P) -> bool, t: spec_fn(P, P, P) -> bool|
                #![trigger computes1(*finite, f), computes3(*tiny, t)]
                computes1(*finite, f) && computes3(*tiny, t) ==> sifted(
                    positions,
                    all,
                    i as int,
                    kept@,
                    f,
                    t,
                ),
        decreases mesh.indices@.len() - i,
    {
        let face = mesh.indices[i];
        let keep = match is_worth_keeping(&mesh.positions, face, finite, tiny) {
            Ok(keep) => keep,
            Err(e) => {
                proof {
                    assert forall|f: spec_fn(P) -> bool, t: spec_fn(P, P, P) -> bool|
                        #![trigger computes1(*finite, f), computes3(*tiny, t)]
                        computes1(*finite, f) && computes3(*tiny, t) implies removal(
                        positions,
                        all,
                        all,
                        f,
                        t,
                        Err(e),
                    ) by {
                        assert(sifted(positions, all, i as int, kept@, f, t));
                        assert(face_refusal(positions, all[i as int], f) == Some(e));
                    }
                }
                return Err(e);
            },
        };
        let ghost before = kept@;
        if keep {
            kept.push(face);
        }
        proof {
            assert(all.take(i + 1).drop_last() =~= all.take(i as int));
            assert(all.take(i + 1).last() == face);
            assert forall|f: spec_fn(P) -> bool, t: spec_fn(P, P, P) -> bool|
                #![trigger computes1(*finite, f), computes3(*tiny, t)]
                computes1(*finite, f) && computes3(*tiny, t) implies sifted(
                positions,
                all,
                i + 1,
                kept@,
                f,
                t,
            ) by {
                reveal(Seq::filter);
                assert(sifted(positions, all, i as int, before, f, t));
            }
        }
        i += 1;
    }
    let removed = mesh.indices.len() - kept.len();
    mesh.indices = kept;
    proof {
        assert(all.take(i as int) =~= all);
        assert forall|f: spec_fn(P) -> bool, t: spec_fn(P, P, P) -> bool|
            #![trigger computes1(*finite, f), computes3(*tiny, t)]
            computes1(*finite, f) && computes3(*tiny, t) implies removal(
            positions,
            all,
            mesh.indices@,
            f,
            t,
            Ok(removed),
        ) by {
            assert(sifted(positions, all, i as int, mesh.indices@, f, t));
        }
    }
    Ok(removed)
}

} // verus!
