//! Meshing the chunks of a level in parallel.

use rayon::iter::{IntoParallelIterator, ParallelIterator};
use vstd::prelude::*;

use crate::isosurface::mesh::{merge_all, merged_list, models, Mesh3D, MeshError, MeshModel};
use crate::utility::sparse_grid3::aabb::Aabb3u;
use crate::utility::sparse_grid3::grid::storage::{chunk_box, corner_number};
use crate::utility::sparse_grid3::grid::SparseGrid3;
use crate::isosurface::walk::lemma_same_order;
use crate::utility::sparse_grid3::layout::{cell_position, lemma_cell_recomposes, ChunkKey};
use crate::utility::sparse_grid3::value::Present;
use crate::vec3::UVec3;

verus! {

/// `rayon`'s parallel `map` over a list, collected into a `Result` of a list.
///
/// Claimed of it: on success there is one result per item, in the order of the items, and each
/// is what `f` gave for its item; otherwise it hands back an error that `f` gave for some item.
/// Which one, when several items fail, is left open.
#[verifier::external_body]
fn try_map_parallel<A: Send, B: Send, E: Send, F: Fn(A) -> Result<B, E> + Sync + Send>(
    items: Vec<A>,
    f: F,
) -> (r: Result<Vec<B>, E>)
    requires
        forall|i: int| 0 <= i < items@.len() ==> call_requires(f, (#[trigger] items@[i],)),
    ensures
        match r {
            Ok(v) => v@.len() == items@.len() && forall|i: int|
                0 <= i < items@.len() ==> call_ensures(
                    f,
                    (#[trigger] items@[i],),
                    Ok::<B, E>(v@[i]),
                ),
            Err(e) => exists|i: int|
                0 <= i < items@.len() && call_ensures(
                    f,
                    (#[trigger] items@[i],),
                    Err::<B, E>(e),
                ),
        },
{
    items.into_par_iter().map(f).collect()
}

/// Why a level could not be meshed.
#[derive(Debug)]
pub enum LevelError<E> {
    /// A chunk could not be meshed.
    Chunk(E),
    /// The chunk meshes could not be merged.
    Mesh(MeshError),
}

/// `boxes` are the in-bounds boxes of the stored chunks, by ascending lowest corner.
pub open spec fn chunk_walk(active: SparseGrid3<Present>, boxes: Seq<Aabb3u>) -> bool {
    &&& forall|a: int|
        #![trigger boxes[a]]
        0 <= a < boxes.len() ==> exists|key: ChunkKey|
            #![trigger active.allocated(key)]
            active.allocated(key) && boxes[a] == chunk_box(key, active.limits())
                && !boxes[a].vacant()
    &&& forall|key: ChunkKey| #[trigger]
        active.allocated(key) && !chunk_box(key, active.limits()).vacant() ==> boxes.contains(
            chunk_box(key, active.limits()),
        )
    &&& forall|a: int, b: int|
        0 <= a < b < boxes.len() ==> corner_number(#[trigger] boxes[a]) <= corner_number(
            #[trigger] boxes[b],
        )
    &&& active.tidy() ==> forall|a: int, b: int|
        0 <= a < b < boxes.len() ==> corner_number(#[trigger] boxes[a]) < corner_number(
            #[trigger] boxes[b],
        )
}

/// Tidy grids that hold the same points are walked chunk by chunk in the same way.
pub proof fn lemma_same_chunks(
    a: SparseGrid3<Present>,
    b: SparseGrid3<Present>,
    boxes: Seq<Aabb3u>,
    others: Seq<Aabb3u>,
)
    requires
        a.wf(),
        b.wf(),
        a.tidy(),
        b.tidy(),
        a.limits() == b.limits(),
        forall|p: UVec3| #[trigger] a.at(p) == b.at(p),
        chunk_walk(a, boxes),
        chunk_walk(b, others),
    ensures
        boxes == others,
{
    lemma_chunks_listed(a, b, boxes, others);
    lemma_chunks_listed(b, a, others, boxes);
    lemma_same_order(
        boxes,
        others,
        |x: Aabb3u, y: Aabb3u| corner_number(x) < corner_number(y),
    );
}

/// The boxes of one walk are among those of the other.
proof fn lemma_chunks_listed(
    a: SparseGrid3<Present>,
    b: SparseGrid3<Present>,
    boxes: Seq<Aabb3u>,
    others: Seq<Aabb3u>,
)
    requires
        a.wf(),
        b.wf(),
        a.tidy(),
        a.limits() == b.limits(),
        forall|p: UVec3| #[trigger] a.at(p) == b.at(p),
        chunk_walk(a, boxes),
        chunk_walk(b, others),
    ensures
        forall|x: Aabb3u| #[trigger] boxes.contains(x) ==> others.contains(x),
{
    assert forall|x: Aabb3u| #[trigger] boxes.contains(x) implies others.contains(x) by {
        let i = choose|i: int| 0 <= i < boxes.len() && boxes[i] == x;
        let key = choose|key: ChunkKey|
            #![trigger a.allocated(key)]
            a.allocated(key) && boxes[i] == chunk_box(key, a.limits()) && !boxes[i].vacant();
        let c = choose|c: int| (#[trigger] a.cell(key, c)) is Some;
        a.lemma_cell_range(key, c);
        lemma_cell_recomposes(key, c);
        assert(a.at(cell_position(key, c)) is Some);
        b.lemma_cell_allocated(key, c);
    }
}

/// Meshes every stored chunk of `active` with `mesh_chunk`, in parallel, and merges the chunk
/// meshes by ascending lowest corner of their chunks.
pub fn mesh_level_parallel<
    P: Send,
    U: Send,
    E: Send,
    F: Fn(Aabb3u) -> Result<Mesh3D<P, U>, E> + Sync + Send,
>(active: &SparseGrid3<Present>, mesh_chunk: F) -> (r: Result<Mesh3D<P, U>, LevelError<E>>)
    requires
        active.wf(),
        forall|b: Aabb3u| #[trigger] call_requires(mesh_chunk, (b,)),
    ensures
        exists|boxes: Seq<Aabb3u>| #[trigger]
            chunk_walk(*active, boxes) && match r {
                Err(LevelError::Chunk(e)) => exists|a: int|
                    0 <= a < boxes.len() && call_ensures(
                        mesh_chunk,
                        (#[trigger] boxes[a],),
                        Err::<Mesh3D<P, U>, E>(e),
                    ),
                Err(LevelError::Mesh(e)) => exists|parts: Seq<Mesh3D<P, U>>| #[trigger]
                    chunk_meshes(mesh_chunk, boxes, parts) && merged_list(
                        models(parts),
                        parts.len(),
                    ) == Err::<MeshModel<P, U>, MeshError>(e),
                Ok(mesh) => exists|parts: Seq<Mesh3D<P, U>>| #[trigger]
                    chunk_meshes(mesh_chunk, boxes, parts) && merged_list(
                        models(parts),
                        parts.len(),
                    ) == Ok::<MeshModel<P, U>, MeshError>(mesh@),
            },
{
    let boxes = active.chunk_aabbs();
    let ghost all = boxes@;
    assert(chunk_walk(*active, all));
    let parts = match try_map_parallel(boxes, mesh_chunk) {
        Ok(parts) => parts,
        Err(e) => return Err(LevelError::Chunk(e)),
    };
    assert(chunk_meshes(mesh_chunk, all, parts@));
    match merge_all(parts) {
        Ok(mesh) => Ok(mesh),
        Err(e) => Err(LevelError::Mesh(e)),
    }
}

/// `parts` are what `mesh_chunk` gave for the boxes.
pub open spec fn chunk_meshes<P, U, E, F: Fn(Aabb3u) -> Result<Mesh3D<P, U>, E>>(
    mesh_chunk: F,
    boxes: Seq<Aabb3u>,
    parts: Seq<Mesh3D<P, U>>,
) -> bool {
    &&& parts.len() == boxes.len()
    &&& forall|i: int|
        0 <= i < boxes.len() ==> call_ensures(
            mesh_chunk,
            (#[trigger] boxes[i],),
            Ok::<Mesh3D<P, U>, E>(parts[i]),
        )
}

} // verus!
