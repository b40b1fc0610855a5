//! The archive form of a compact plot: plain lists, ready to be serialized.

use vstd::prelude::*;

use crate::compact::{CompactError, CompactLevel, CompactPlot};
use crate::outcome::{first_refusal, lemma_first_refusal};
use crate::native_file::{CoordinateSystem, Header, IndexDomain};
use crate::utility::sparse_grid3::grid::storage::{mask_has, SparseGridChunkView};
use crate::utility::sparse_grid3::grid::SparseGrid3;
use crate::utility::sparse_grid3::layout::{packed, ChunkKey, CHUNK_BITS};
use crate::utility::sparse_grid3::value::Present;
use crate::vec3::{IVec3, UVec3, Vec3};

verus! {

/// One chunk of an archived grid.
pub enum ArchiveChunk<T> {
    Uniform { key: [u32; 3], value: T, mask: [u64; 512] },
    Dense { key: [u32; 3], values: Vec<T>, mask: [u64; 512] },
}

/// A grid as bounds and a list of chunks.
pub struct ArchiveGrid<T> {
    pub bounds: [u32; 3],
    pub chunks: Vec<ArchiveChunk<T>>,
}

/// One chunk of an archived mask.
pub struct ArchiveMaskChunk {
    pub key: [u32; 3],
    pub mask: [u64; 512],
}

/// A mask as bounds and a list of chunks.
pub struct ArchiveMaskGrid {
    pub bounds: [u32; 3],
    pub chunks: Vec<ArchiveMaskChunk>,
}

/// The chunk coordinates that an array stands for.
pub open spec fn key_at(a: Seq<u32>) -> ChunkKey {
    ChunkKey { x: a[0], y: a[1], z: a[2] }
}

/// The coordinates that an array stands for.
pub open spec fn coords_at(a: Seq<u32>) -> UVec3 {
    UVec3 { x: a[0], y: a[1], z: a[2] }
}

impl<T: Copy> ArchiveChunk<T> {
    /// Coordinates of the chunk.
    pub open spec fn chunk_key(self) -> ChunkKey {
        match self {
            ArchiveChunk::Uniform { key, .. } => key_at(key@),
            ArchiveChunk::Dense { key, .. } => key_at(key@),
        }
    }

    /// The value of cell `i`, where it is present.
    pub open spec fn at(self, i: int) -> Option<T> {
        match self {
            ArchiveChunk::Uniform { value, mask, .. } => if mask_has(mask@, i) {
                Some(value)
            } else {
                None
            },
            ArchiveChunk::Dense { values, mask, .. } => if mask_has(mask@, i) {
                Some(values@[i])
            } else {
                None
            },
        }
    }

    /// A dense chunk must have one value per cell.
    pub open spec fn refusal(self) -> Option<CompactError> {
        match self {
            ArchiveChunk::Uniform { .. } => None,
            ArchiveChunk::Dense { values, .. } => if values@.len() == 32768 {
                None
            } else {
                Some(CompactError::DenseLength(values@.len() as usize))
            },
        }
    }
}

/// Cell `i` of chunk `key` in a list of chunks, of which the last with that key counts.
pub open spec fn stored_cell<T: Copy>(
    chunks: Seq<ArchiveChunk<T>>,
    key: ChunkKey,
    i: int,
) -> Option<T>
    decreases chunks.len(),
{
    if chunks.len() == 0 {
        None
    } else if chunks.last().chunk_key() == key {
        chunks.last().at(i)
    } else {
        stored_cell(chunks.drop_last(), key, i)
    }
}

/// A list of chunks has one for `key`.
pub open spec fn has_chunk<T: Copy>(chunks: Seq<ArchiveChunk<T>>, key: ChunkKey) -> bool {
    exists|a: int| 0 <= a < chunks.len() && (#[trigger] chunks[a]).chunk_key() == key
}

/// Without a chunk for `key`, no cell of it is stored.
proof fn lemma_stored_cell_absent<T: Copy>(chunks: Seq<ArchiveChunk<T>>, key: ChunkKey, i: int)
    requires
        !has_chunk(chunks, key),
    ensures
        stored_cell(chunks, key, i) is None,
    decreases chunks.len(),
{
    if chunks.len() > 0 {
        assert(chunks[chunks.len() - 1].chunk_key() != key);
        let rest = chunks.drop_last();
        assert(!has_chunk(rest, key)) by {
            if has_chunk(rest, key) {
                let a = choose|a: int| 0 <= a < rest.len() && (#[trigger] rest[a]).chunk_key() == key;
                assert(chunks[a].chunk_key() == key);
            }
        }
        lemma_stored_cell_absent(rest, key, i);
    }
}

/// Chunks come by ascending key.
pub open spec fn ascending_chunks<T: Copy>(chunks: Seq<ArchiveChunk<T>>) -> bool {
    forall|a: int, b: int|
        0 <= a < b < chunks.len() ==> packed((#[trigger] chunks[a]).chunk_key()) < packed(
            (#[trigger] chunks[b]).chunk_key(),
        )
}

/// With ascending keys, the only chunk with a key holds its cells.
proof fn lemma_stored_cell_at<T: Copy>(chunks: Seq<ArchiveChunk<T>>, a: int, i: int)
    requires
        ascending_chunks(chunks),
        0 <= a < chunks.len(),
    ensures
        stored_cell(chunks, chunks[a].chunk_key(), i) == chunks[a].at(i),
    decreases chunks.len(),
{
    if a < chunks.len() - 1 {
        let rest = chunks.drop_last();
        assert(packed(chunks[a].chunk_key()) < packed(chunks[chunks.len() - 1].chunk_key()));
        assert forall|x: int, y: int| 0 <= x < y < rest.len() implies packed(
            (#[trigger] rest[x]).chunk_key(),
        ) < packed((#[trigger] rest[y]).chunk_key()) by {
            assert(rest[x] == chunks[x] && rest[y] == chunks[y]);
        }
        lemma_stored_cell_at(rest, a, i);
        assert(rest[a] == chunks[a]);
    }
}

/// Copies the values of a dense chunk.
fn copied<T: Copy>(values: &[T]) -> (v: Vec<T>)
    ensures
        v@ == values@,
{
    let mut v: Vec<T> = Vec::with_capacity(values.len());
    let mut i: usize = 0;
    while i < values.len()
        invariant
            i <= values@.len(),
            v@ == values@.take(i as int),
        decreases values@.len() - i,
    {
        proof {
            assert(values@.take(i + 1) =~= values@.take(i as int).push(values@[i as int]));
        }
        v.push(values[i]);
        i += 1;
    }
    assert(values@.take(i as int) =~= values@);
    v
}

/// `archived` is the archive form of a grid with these cells.
pub open spec fn archives_grid<T: Copy + PartialEq>(
    archived: ArchiveGrid<T>,
    grid: SparseGrid3<T>,
) -> bool {
    &&& coords_at(archived.bounds@) == grid.limits()
    &&& ascending_chunks(archived.chunks@)
    &&& forall|a: int|
        0 <= a < archived.chunks@.len() ==> {
            &&& (#[trigger] archived.chunks@[a]).refusal() is None
            &&& archived.chunks@[a] is Dense <==> grid.dense(archived.chunks@[a].chunk_key())
        }
    &&& forall|key: ChunkKey| #[trigger]
        has_chunk(archived.chunks@, key) <==> grid.allocated(key)
    &&& forall|key: ChunkKey, i: int| #[trigger]
        stored_cell(archived.chunks@, key, i) == grid.cell(key, i)
}

/// `grid` is what an archived grid stands for.
pub open spec fn restores_grid<T: Copy + PartialEq>(
    archived: ArchiveGrid<T>,
    grid: SparseGrid3<T>,
) -> bool {
    &&& grid.wf()
    &&& grid.limits() == coords_at(archived.bounds@)
    &&& forall|key: ChunkKey| #[trigger]
        grid.allocated(key) <==> has_chunk(archived.chunks@, key)
    &&& forall|key: ChunkKey, i: int| #[trigger]
        grid.cell(key, i) == stored_cell(archived.chunks@, key, i)
}

impl<T: Copy + PartialEq> ArchiveGrid<T> {
    /// The archive form of a grid, chunks by ascending key.
    pub fn from_grid(grid: &SparseGrid3<T>) -> (r: Self)
        requires
            grid.wf(),
        ensures
            archives_grid(r, *grid),
    {
        let views = grid.for_each_chunk();
        let mut chunks: Vec<ArchiveChunk<T>> = Vec::with_capacity(views.len());
        let mut n: usize = 0;
        while n < views.len()
            invariant
                n <= views@.len(),
                chunks@.len() == n,
                forall|a: int| 0 <= a < views@.len() ==> (#[trigger] views@[a]).wf(),
                forall|a: int|
                    0 <= a < n ==> {
                        &&& (#[trigger] chunks@[a]).chunk_key() == views@[a].chunk_key()
                        &&& chunks@[a].refusal() is None
                        &&& chunks@[a] is Dense <==> views@[a] is Dense
                        &&& forall|i: int| #[trigger] chunks@[a].at(i) == views@[a].at(i)
                    },
            decreases views@.len() - n,
        {
            assert(views@[n as int].wf());
            let chunk = match &views[n] {
                SparseGridChunkView::Uniform { key, value, mask } => ArchiveChunk::Uniform {
                    key: [key.x, key.y, key.z],
                    value: *value,
                    mask: *mask,
                },
                SparseGridChunkView::Dense { key, values, mask } => ArchiveChunk::Dense {
                    key: [key.x, key.y, key.z],
                    values: copied(values),
                    mask: *mask,
                },
            };
            chunks.push(chunk);
            n += 1;
        }
        let bounds = grid.bounds();
        proof {
            assert forall|a: int| 0 <= a < chunks@.len() implies ((#[trigger] chunks@[a]) is Dense
                <==> grid.dense(chunks@[a].chunk_key())) by {
                assert(views@[a] is Dense <==> grid.dense(views@[a].chunk_key()));
            }
            assert forall|a: int, b: int| 0 <= a < b < chunks@.len() implies packed(
                (#[trigger] chunks@[a]).chunk_key(),
            ) < packed((#[trigger] chunks@[b]).chunk_key()) by {
                assert(packed(views@[a].chunk_key()) < packed(views@[b].chunk_key()));
            }
            assert forall|key: ChunkKey| #[trigger] has_chunk(chunks@, key) <==> grid.allocated(
                key,
            ) by {
                if grid.allocated(key) {
                    let a = choose|a: int|
                        0 <= a < views@.len() && (#[trigger] views@[a]).chunk_key() == key;
                    assert(chunks@[a].chunk_key() == key);
                }
                if has_chunk(chunks@, key) {
                    let a = choose|a: int|
                        0 <= a < chunks@.len() && (#[trigger] chunks@[a]).chunk_key() == key;
                    assert(grid.allocated(views@[a].chunk_key()));
                }
            }
            assert forall|key: ChunkKey, i: int| #[trigger] stored_cell(chunks@, key, i)
                == grid.cell(key, i) by {
                if grid.allocated(key) {
                    let a = choose|a: int|
                        0 <= a < views@.len() && (#[trigger] views@[a]).chunk_key() == key;
                    assert(chunks@[a].chunk_key() == key);
                    lemma_stored_cell_at(chunks@, a, i);
                    assert(chunks@[a].at(i) == views@[a].at(i));
                    assert(views@[a].at(i) == grid.cell(key, i));
                } else {
                    assert(!has_chunk(chunks@, key));
                    lemma_stored_cell_absent(chunks@, key, i);
                    grid.lemma_cell_allocated(key, i);
                }
            }
        }
        ArchiveGrid { bounds: [bounds.x, bounds.y, bounds.z], chunks }
    }

    /// The grid that an archived grid stands for.
    pub fn into_grid(self) -> (r: Result<SparseGrid3<T>, CompactError>)
        ensures
            match r {
                Ok(grid) => first_refusal(self.chunks@, |c: ArchiveChunk<T>| c.refusal()) is None
                    && restores_grid(self, grid),
                Err(e) => first_refusal(self.chunks@, |c: ArchiveChunk<T>| c.refusal()) == Some(e),
            },
    {
        let ghost all = self.chunks@;
        let ghost refusal = |c: ArchiveChunk<T>| c.refusal();
        let mut grid: SparseGrid3<T> = SparseGrid3::with_chunk_capacity(
            UVec3::new(self.bounds[0], self.bounds[1], self.bounds[2]),
            self.chunks.len(),
        );
        proof {
            assert(all.take(0) =~= Seq::empty());
            assert forall|key: ChunkKey| #[trigger] grid.allocated(key) implies false by {
                grid.lemma_nothing_allocated(key);
            }
        }
        for chunk in it: self.chunks
            invariant
                it.seq() == all,
                refusal == (|c: ArchiveChunk<T>| c.refusal()),
                grid.wf(),
                grid.limits() == coords_at(self.bounds@),
                forall|a: int| 0 <= a < it.index() ==> refusal(#[trigger] all[a]) is None,
                forall|key: ChunkKey| #[trigger]
                    grid.allocated(key) <==> has_chunk(all.take(it.index() as int), key),
                forall|key: ChunkKey, i: int| #[trigger]
                    grid.cell(key, i) == stored_cell(all.take(it.index() as int), key, i),
        {
            let ghost n = it.index() as int;
            assert(chunk == all[n]);
            let ghost before = grid;
            let ghost part = all.take(n);
            let ghost next = all.take(n + 1);
            proof {
                assert(next.drop_last() =~= part);
                assert(next.last() == chunk);
                assert forall|key: ChunkKey| #[trigger] has_chunk(next, key) <==> has_chunk(
                    part,
                    key,
                ) || chunk.chunk_key() == key by {
                    if has_chunk(part, key) {
                        let a = choose|a: int|
                            0 <= a < part.len() && (#[trigger] part[a]).chunk_key() == key;
                        assert(next[a] == part[a]);
                    }
                    if chunk.chunk_key() == key {
                        assert(next[n].chunk_key() == key);
                    }
                    if has_chunk(next, key) && chunk.chunk_key() != key {
                        let a = choose|a: int|
                            0 <= a < next.len() && (#[trigger] next[a]).chunk_key() == key;
                        assert(a < n);
                        assert(part[a] == next[a]);
                    }
                }
            }
            match chunk {
                ArchiveChunk::Uniform { key, value, mask } => {
                    grid.insert_uniform_chunk(UVec3::new(key[0], key[1], key[2]), value, mask);
                },
                ArchiveChunk::Dense { key, values, mask } => {
                    if values.len() != 32768 {
                        proof {
                            lemma_first_refusal(all, refusal, n);
                        }
                        return Err(CompactError::DenseLength(values.len()));
                    }
                    grid.insert_dense_chunk(UVec3::new(key[0], key[1], key[2]), values, mask);
                },
            }
            proof {
                let k = all[n].chunk_key();
                assert forall|key: ChunkKey, i: int| #[trigger] grid.cell(key, i) == stored_cell(
                    next,
                    key,
                    i,
                ) by {
                    if key != k {
                        assert(before.cell(key, i) == stored_cell(part, key, i));
                    }
                }
            }
        }
        proof {
            lemma_first_refusal(all, refusal, all.len() as int);
            assert(all.take(all.len() as int) =~= all);
        }
        Ok(grid)
    }
}

impl ArchiveMaskChunk {
    /// Coordinates of the chunk.
    pub open spec fn chunk_key(self) -> ChunkKey {
        key_at(self.key@)
    }
}

/// Cell `i` of chunk `key` in a list of mask chunks, of which the last with that key counts.
pub open spec fn stored_mark(chunks: Seq<ArchiveMaskChunk>, key: ChunkKey, i: int) -> bool
    decreases chunks.len(),
{
    if chunks.len() == 0 {
        false
    } else if chunks.last().chunk_key() == key {
        mask_has(chunks.last().mask@, i)
    } else {
        stored_mark(chunks.drop_last(), key, i)
    }
}

/// A list of mask chunks has one for `key`.
pub open spec fn has_mask_chunk(chunks: Seq<ArchiveMaskChunk>, key: ChunkKey) -> bool {
    exists|a: int| 0 <= a < chunks.len() && (#[trigger] chunks[a]).chunk_key() == key
}

/// Mask chunks come by ascending key.
pub open spec fn ascending_masks(chunks: Seq<ArchiveMaskChunk>) -> bool {
    forall|a: int, b: int|
        0 <= a < b < chunks.len() ==> packed((#[trigger] chunks[a]).chunk_key()) < packed(
            (#[trigger] chunks[b]).chunk_key(),
        )
}

proof fn lemma_stored_mark_absent(chunks: Seq<ArchiveMaskChunk>, key: ChunkKey, i: int)
    requires
        !has_mask_chunk(chunks, key),
    ensures
        !stored_mark(chunks, key, i),
    decreases chunks.len(),
{
    if chunks.len() > 0 {
        assert(chunks[chunks.len() - 1].chunk_key() != key);
        let rest = chunks.drop_last();
        assert(!has_mask_chunk(rest, key)) by {
            if has_mask_chunk(rest, key) {
                let a = choose|a: int| 0 <= a < rest.len() && (#[trigger] rest[a]).chunk_key() == key;
                assert(chunks[a].chunk_key() == key);
            }
        }
        lemma_stored_mark_absent(rest, key, i);
    }
}

proof fn lemma_stored_mark_at(chunks: Seq<ArchiveMaskChunk>, a: int, i: int)
    requires
        ascending_masks(chunks),
        0 <= a < chunks.len(),
    ensures
        stored_mark(chunks, chunks[a].chunk_key(), i) == mask_has(chunks[a].mask@, i),
    decreases chunks.len(),
{
    if a < chunks.len() - 1 {
        let rest = chunks.drop_last();
        assert(packed(chunks[a].chunk_key()) < packed(chunks[chunks.len() - 1].chunk_key()));
        assert forall|x: int, y: int| 0 <= x < y < rest.len() implies packed(
            (#[trigger] rest[x]).chunk_key(),
        ) < packed((#[trigger] rest[y]).chunk_key()) by {
            assert(rest[x] == chunks[x] && rest[y] == chunks[y]);
        }
        lemma_stored_mark_at(rest, a, i);
        assert(rest[a] == chunks[a]);
    }
}

/// `archived` is the archive form of a mask with these cells.
pub open spec fn archives_mask(archived: ArchiveMaskGrid, grid: SparseGrid3<Present>) -> bool {
    &&& coords_at(archived.bounds@) == grid.limits()
    &&& ascending_masks(archived.chunks@)
    &&& forall|key: ChunkKey| #[trigger]
        has_mask_chunk(archived.chunks@, key) <==> grid.allocated(key)
    &&& forall|key: ChunkKey, i: int| #[trigger]
        stored_mark(archived.chunks@, key, i) <==> grid.cell(key, i) is Some
}

/// `grid` is what an archived mask stands for.
pub open spec fn restores_mask(archived: ArchiveMaskGrid, grid: SparseGrid3<Present>) -> bool {
    &&& grid.wf()
    &&& grid.limits() == coords_at(archived.bounds@)
    &&& forall|key: ChunkKey| #[trigger]
        grid.allocated(key) <==> has_mask_chunk(archived.chunks@, key)
    &&& forall|key: ChunkKey, i: int|
        (#[trigger] grid.cell(key, i)) is Some <==> stored_mark(archived.chunks@, key, i)
}

impl ArchiveMaskGrid {
    /// The archive form of a mask, chunks by ascending key.
    pub fn from_grid(grid: &SparseGrid3<Present>) -> (r: Self)
        requires
            grid.wf(),
        ensures
            archives_mask(r, *grid),
    {
        let views = grid.for_each_chunk();
        let mut chunks: Vec<ArchiveMaskChunk> = Vec::with_capacity(views.len());
        let mut n: usize = 0;
        while n < views.len()
            invariant
                n <= views@.len(),
                chunks@.len() == n,
                forall|a: int|
                    0 <= a < n ==> {
                        &&& (#[trigger] chunks@[a]).chunk_key() == views@[a].chunk_key()
                        &&& forall|i: int| #[trigger]
                            mask_has(chunks@[a].mask@, i) <==> views@[a].at(i) is Some
                    },
            decreases views@.len() - n,
        {
            let chunk = match &views[n] {
                SparseGridChunkView::Uniform { key, mask, .. } => ArchiveMaskChunk {
                    key: [key.x, key.y, key.z],
                    mask: *mask,
                },
                SparseGridChunkView::Dense { key, mask, .. } => ArchiveMaskChunk {
                    key: [key.x, key.y, key.z],
                    mask: *mask,
                },
            };
            chunks.push(chunk);
            n += 1;
        }
        let bounds = grid.bounds();
        proof {
            assert forall|a: int, b: int| 0 <= a < b < chunks@.len() implies packed(
                (#[trigger] chunks@[a]).chunk_key(),
            ) < packed((#[trigger] chunks@[b]).chunk_key()) by {
                assert(packed(views@[a].chunk_key()) < packed(views@[b].chunk_key()));
            }
            assert forall|key: ChunkKey| #[trigger] has_mask_chunk(chunks@, key)
                <==> grid.allocated(key) by {
                if grid.allocated(key) {
                    let a = choose|a: int|
                        0 <= a < views@.len() && (#[trigger] views@[a]).chunk_key() == key;
                    assert(chunks@[a].chunk_key() == key);
                }
                if has_mask_chunk(chunks@, key) {
                    let a = choose|a: int|
                        0 <= a < chunks@.len() && (#[trigger] chunks@[a]).chunk_key() == key;
                    assert(grid.allocated(views@[a].chunk_key()));
                }
            }
            assert forall|key: ChunkKey, i: int| #[trigger] stored_mark(chunks@, key, i)
                <==> grid.cell(key, i) is Some by {
                if grid.allocated(key) {
                    let a = choose|a: int|
                        0 <= a < views@.len() && (#[trigger] views@[a]).chunk_key() == key;
                    assert(chunks@[a].chunk_key() == key);
                    lemma_stored_mark_at(chunks@, a, i);
                    assert(mask_has(chunks@[a].mask@, i) <==> views@[a].at(i) is Some);
                    assert(views@[a].at(i) == grid.cell(key, i));
                } else {
                    assert(!has_mask_chunk(chunks@, key));
                    lemma_stored_mark_absent(chunks@, key, i);
                    grid.lemma_cell_allocated(key, i);
                }
            }
        }
        ArchiveMaskGrid { bounds: [bounds.x, bounds.y, bounds.z], chunks }
    }

    /// The mask that an archived mask stands for.
    pub fn into_grid(self) -> (grid: SparseGrid3<Present>)
        ensures
            restores_mask(self, grid),
    {
        let ghost all = self.chunks@;
        let mut grid: SparseGrid3<Present> = SparseGrid3::with_chunk_capacity(
            UVec3::new(self.bounds[0], self.bounds[1], self.bounds[2]),
            self.chunks.len(),
        );
        proof {
            assert(all.take(0) =~= Seq::empty());
            assert forall|key: ChunkKey| #[trigger] grid.allocated(key) implies false by {
                grid.lemma_nothing_allocated(key);
            }
        }
        for chunk in it: self.chunks
            invariant
                it.seq() == all,
                grid.wf(),
                grid.limits() == coords_at(self.bounds@),
                forall|key: ChunkKey| #[trigger]
                    grid.allocated(key) <==> has_mask_chunk(all.take(it.index() as int), key),
                forall|key: ChunkKey, i: int|
                    (#[trigger] grid.cell(key, i)) is Some <==> stored_mark(
                        all.take(it.index() as int),
                        key,
                        i,
                    ),
        {
            let ghost n = it.index() as int;
            assert(chunk == all[n]);
            let ghost before = grid;
            let ghost part = all.take(n);
            let ghost next = all.take(n + 1);
            proof {
                assert(next.drop_last() =~= part);
                assert(next.last() == chunk);
                assert forall|key: ChunkKey| #[trigger] has_mask_chunk(next, key)
                    <==> has_mask_chunk(part, key) || chunk.chunk_key() == key by {
                    if has_mask_chunk(part, key) {
                        let a = choose|a: int|
                            0 <= a < part.len() && (#[trigger] part[a]).chunk_key() == key;
                        assert(next[a] == part[a]);
                    }
                    if chunk.chunk_key() == key {
                        assert(next[n].chunk_key() == key);
                    }
                    if has_mask_chunk(next, key) && chunk.chunk_key() != key {
                        let a = choose|a: int|
                            0 <= a < next.len() && (#[trigger] next[a]).chunk_key() == key;
                        assert(a < n);
                        assert(part[a] == next[a]);
                    }
                }
            }
            let key = UVec3::new(chunk.key[0], chunk.key[1], chunk.key[2]);
            grid.insert_uniform_chunk(key, Present, chunk.mask);
            proof {
                let k = all[n].chunk_key();
                assert forall|key: ChunkKey, i: int| (#[trigger] grid.cell(key, i)) is Some
                    <==> stored_mark(next, key, i) by {
                    if key != k {
                        assert(before.cell(key, i) is Some <==> stored_mark(part, key, i));
                    }
                }
            }
        }
        proof {
            assert(all.take(all.len() as int) =~= all);
        }
        grid
    }
}

/// A variable of an archived header.
pub struct ArchiveVariable {
    pub name: String,
    pub index: u64,
}

/// An index domain of an archived header.
pub struct ArchiveIndexDomain {
    pub min: [i32; 3],
    pub max: [i32; 3],
    pub index_type: [i32; 3],
}

/// The archived part of a plotfile header.
pub struct ArchiveHeader<S> {
    pub simulation_time: S,
    pub finest_level: u64,
    pub domain_min: [S; 3],
    pub domain_max: [S; 3],
    pub variables: Vec<ArchiveVariable>,
    pub refinement_ratios: Vec<u64>,
    pub index_domains: Vec<ArchiveIndexDomain>,
    pub level_steps: Vec<u64>,
    pub cell_sizes: Vec<[S; 3]>,
    pub coordinate_system: u8,
    pub boundary_width: u64,
}

/// One level of an archive.
pub struct ArchiveLevel<S, T> {
    pub level_index: u64,
    pub index_origin: [i32; 3],
    pub physical_origin: [S; 3],
    pub cell_size: [S; 3],
    pub components: Vec<ArchiveGrid<T>>,
    pub active_cubes: ArchiveMaskGrid,
}

/// A compact plot as plain lists.
pub struct CompactArchive<S, T> {
    pub magic: [u8; 8],
    pub version: u32,
    pub chunk_bits: u32,
    pub header: ArchiveHeader<S>,
    pub component_ids: Vec<u32>,
    pub levels: Vec<ArchiveLevel<S, T>>,
}

/// The archive magic, `AMRCMPCT`.
pub open spec fn format_magic() -> Seq<u8> {
    seq![65u8, 77, 82, 67, 77, 80, 67, 84]
}

/// The archive version.
pub const FORMAT_VERSION: u32 = 1;

/// The vector that an array stands for.
pub open spec fn triple_at<S>(a: Seq<S>) -> Vec3<S> {
    Vec3 { x: a[0], y: a[1], z: a[2] }
}

/// The index that an array stands for.
pub open spec fn index_at(a: Seq<i32>) -> IVec3 {
    IVec3 { x: a[0], y: a[1], z: a[2] }
}

fn triple_to_array<S: Copy>(v: Vec3<S>) -> (a: [S; 3])
    ensures
        triple_at(a@) == v,
        a@ =~= seq![v.x, v.y, v.z],
{
    [v.x, v.y, v.z]
}

fn ivec3_to_array(v: IVec3) -> (a: [i32; 3])
    ensures
        a@ =~= seq![v.x, v.y, v.z],
{
    [v.x, v.y, v.z]
}

/// Number of a coordinate system.
pub open spec fn system_number(c: CoordinateSystem) -> u8 {
    match c {
        CoordinateSystem::Cartesian => 0,
        CoordinateSystem::Cylindrical => 1,
        CoordinateSystem::Spherical => 2,
    }
}

/// `a` holds what the header `h` says.
pub open spec fn archives_header<S>(a: ArchiveHeader<S>, h: Header<S>) -> bool {
    &&& a.simulation_time == h.simulation_time
    &&& a.finest_level == h.finest_level
    &&& triple_at(a.domain_min@) == h.domain.min
    &&& triple_at(a.domain_max@) == h.domain.max
    &&& a.variables@.len() == h.variables@.len()
    &&& forall|i: int|
        0 <= i < a.variables@.len() ==> (#[trigger] a.variables@[i]).name@ == h.variables@[i].name@
            && a.variables@[i].index == h.variables@[i].index
    &&& a.refinement_ratios@.len() == h.refinement_ratios@.len()
    &&& forall|i: int|
        0 <= i < a.refinement_ratios@.len() ==> #[trigger] a.refinement_ratios@[i]
            == h.refinement_ratios@[i]
    &&& a.index_domains@.len() == h.index_domains@.len()
    &&& forall|i: int|
        0 <= i < a.index_domains@.len() ==> archives_domain(
            #[trigger] a.index_domains@[i],
            h.index_domains@[i],
        )
    &&& a.level_steps@.len() == h.level_steps@.len()
    &&& forall|i: int|
        0 <= i < a.level_steps@.len() ==> #[trigger] a.level_steps@[i] == h.level_steps@[i]
    &&& a.cell_sizes@.len() == h.cell_sizes@.len()
    &&& forall|i: int|
        0 <= i < a.cell_sizes@.len() ==> triple_at((#[trigger] a.cell_sizes@[i])@)
            == h.cell_sizes@[i]
    &&& a.coordinate_system == system_number(h.coordinate_system)
    &&& a.boundary_width == h.boundary_width
}

/// `a` holds the index domain `d`.
pub open spec fn archives_domain(a: ArchiveIndexDomain, d: IndexDomain) -> bool {
    &&& a.min@ == seq![d.min.x, d.min.y, d.min.z]
    &&& a.max@ == seq![d.max.x, d.max.y, d.max.z]
    &&& a.index_type@ == seq![d.index_type.x, d.index_type.y, d.index_type.z]
}

/// Widens every number of a list.
fn widened(list: &Vec<usize>) -> (r: Vec<u64>)
    ensures
        r@.len() == list@.len(),
        forall|i: int| 0 <= i < r@.len() ==> #[trigger] r@[i] == list@[i],
{
    let mut out: Vec<u64> = Vec::with_capacity(list.len());
    let mut i: usize = 0;
    while i < list.len()
        invariant
            i <= list@.len(),
            out@.len() == i,
            forall|j: int| 0 <= j < i ==> #[trigger] out@[j] == list@[j],
        decreases list@.len() - i,
    {
        out.push(list[i] as u64);
        i += 1;
    }
    out
}

impl<S: Copy> ArchiveHeader<S> {
    /// The archived part of a header.
    pub fn from_header(header: &Header<S>) -> (r: Self)
        ensures
            archives_header(r, *header),
    {
        let mut variables: Vec<ArchiveVariable> = Vec::with_capacity(header.variables.len());
        let mut i: usize = 0;
        while i < header.variables.len()
            invariant
                i <= header.variables@.len(),
                variables@.len() == i,
                forall|j: int|
                    0 <= j < i ==> (#[trigger] variables@[j]).name@ == header.variables@[j].name@
                        && variables@[j].index == header.variables@[j].index,
            decreases header.variables@.len() - i,
        {
            let variable = &header.variables[i];
            variables.push(
                ArchiveVariable { name: variable.name.clone(), index: variable.index as u64 },
            );
            i += 1;
        }
        let mut index_domains: Vec<ArchiveIndexDomain> = Vec::with_capacity(
            header.index_domains.len(),
        );
        let mut j: usize = 0;
        while j < header.index_domains.len()
            invariant
                j <= header.index_domains@.len(),
                index_domains@.len() == j,
                forall|k: int|
                    0 <= k < j ==> archives_domain(
                        #[trigger] index_domains@[k],
                        header.index_domains@[k],
                    ),
            decreases header.index_domains@.len() - j,
        {
            let domain = header.index_domains[j];
            index_domains.push(
                ArchiveIndexDomain {
                    min: ivec3_to_array(domain.min),
                    max: ivec3_to_array(domain.max),
                    index_type: ivec3_to_array(domain.index_type),
                },
            );
            j += 1;
        }
        let mut cell_sizes: Vec<[S; 3]> = Vec::with_capacity(header.cell_sizes.len());
        let mut n: usize = 0;
        while n < header.cell_sizes.len()
            invariant
                n <= header.cell_sizes@.len(),
                cell_sizes@.len() == n,
                forall|k: int|
                    0 <= k < n ==> triple_at((#[trigger] cell_sizes@[k])@) == header.cell_sizes@[k],
            decreases header.cell_sizes@.len() - n,
        {
            cell_sizes.push(triple_to_array(header.cell_sizes[n]));
            n += 1;
        }
        ArchiveHeader {
            simulation_time: header.simulation_time,
            finest_level: header.finest_level as u64,
            domain_min: triple_to_array(header.domain.min),
            domain_max: triple_to_array(header.domain.max),
            variables,
            refinement_ratios: widened(&header.refinement_ratios),
            index_domains,
            level_steps: widened(&header.level_steps),
            cell_sizes,
            coordinate_system: match header.coordinate_system {
                CoordinateSystem::Cartesian => 0,
                CoordinateSystem::Cylindrical => 1,
                CoordinateSystem::Spherical => 2,
            },
            boundary_width: header.boundary_width as u64,
        }
    }
}

/// `a` is the archive form of the level `l`.
pub open spec fn archives_level<S, T: Copy + PartialEq>(
    a: ArchiveLevel<S, T>,
    l: CompactLevel<S, T>,
) -> bool {
    &&& a.level_index == l.level_index
    &&& a.index_origin@ == seq![l.index_origin.x, l.index_origin.y, l.index_origin.z]
    &&& triple_at(a.physical_origin@) == l.physical_origin
    &&& triple_at(a.cell_size@) == l.cell_size
    &&& a.components@.len() == l.components@.len()
    &&& forall|i: int|
        0 <= i < a.components@.len() ==> archives_grid(#[trigger] a.components@[i], l.components@[i])
    &&& archives_mask(a.active_cubes, l.eligible_cubes)
}

/// `l` is what an archived level stands for.
pub open spec fn restores_level<S, T: Copy + PartialEq>(
    a: ArchiveLevel<S, T>,
    l: CompactLevel<S, T>,
) -> bool {
    &&& l.wf()
    &&& l.level_index == a.level_index
    &&& l.index_origin == index_at(a.index_origin@)
    &&& l.physical_origin == triple_at(a.physical_origin@)
    &&& l.cell_size == triple_at(a.cell_size@)
    &&& l.components@.len() == a.components@.len()
    &&& forall|i: int|
        0 <= i < a.components@.len() ==> restores_grid(
            a.components@[i],
            #[trigger] l.components@[i],
        )
    &&& restores_mask(a.active_cubes, l.eligible_cubes)
}

/// Why an archived grid is refused.
pub open spec fn grid_refusal<T: Copy>(g: ArchiveGrid<T>) -> Option<CompactError> {
    first_refusal(g.chunks@, |c: ArchiveChunk<T>| c.refusal())
}

/// Why an archived level is refused.
pub open spec fn archived_level_refusal<S, T: Copy>(
    a: ArchiveLevel<S, T>,
    component_count: nat,
) -> Option<CompactError> {
    if a.components@.len() != component_count {
        Some(CompactError::ComponentCountMismatch)
    } else if a.level_index > usize::MAX {
        Some(CompactError::TooLarge)
    } else {
        first_refusal(a.components@, |g: ArchiveGrid<T>| grid_refusal(g))
    }
}

/// The grids that archived grids stand for.
fn restored_grids<T: Copy + PartialEq>(list: Vec<ArchiveGrid<T>>) -> (r: Result<
    Vec<SparseGrid3<T>>,
    CompactError,
>)
    ensures
        match r {
            Ok(v) => {
                &&& first_refusal(list@, |g: ArchiveGrid<T>| grid_refusal(g)) is None
                &&& v@.len() == list@.len()
                &&& forall|j: int| 0 <= j < v@.len() ==> restores_grid(list@[j], #[trigger] v@[j])
            },
            Err(e) => first_refusal(list@, |g: ArchiveGrid<T>| grid_refusal(g)) == Some(e),
        },
{
    let ghost all = list@;
    let ghost refusal = |g: ArchiveGrid<T>| grid_refusal(g);
    let mut components: Vec<SparseGrid3<T>> = Vec::with_capacity(list.len());
    for grid in it: list
        invariant
            it.seq() == all,
            all == list@,
            refusal == (|g: ArchiveGrid<T>| grid_refusal(g)),
            components@.len() == it.index(),
            forall|j: int| 0 <= j < it.index() ==> refusal(#[trigger] all[j]) is None,
            forall|j: int|
                0 <= j < components@.len() ==> restores_grid(all[j], #[trigger] components@[j]),
    {
        let ghost n = it.index() as int;
        assert(grid == all[n]);
        match grid.into_grid() {
            Ok(g) => components.push(g),
            Err(e) => {
                proof {
                    lemma_first_refusal(all, refusal, n);
                }
                return Err(e);
            },
        }
    }
    proof {
        lemma_first_refusal(all, refusal, all.len() as int);
    }
    Ok(components)
}

impl<S: Copy, T: Copy + PartialEq> ArchiveLevel<S, T> {
    /// The archive form of a level.
    pub fn from_level(level: &CompactLevel<S, T>) -> (r: Self)
        requires
            level.wf(),
        ensures
            archives_level(r, *level),
    {
        let mut components: Vec<ArchiveGrid<T>> = Vec::with_capacity(level.components.len());
        let mut i: usize = 0;
        while i < level.components.len()
            invariant
                i <= level.components@.len(),
                level.wf(),
                components@.len() == i,
                forall|j: int|
                    0 <= j < i ==> archives_grid(#[trigger] components@[j], level.components@[j]),
            decreases level.components@.len() - i,
        {
            assert(level.components@[i as int].wf());
            components.push(ArchiveGrid::from_grid(&level.components[i]));
            i += 1;
        }
        ArchiveLevel {
            level_index: level.level_index as u64,
            index_origin: ivec3_to_array(level.index_origin),
            physical_origin: triple_to_array(level.physical_origin),
            cell_size: triple_to_array(level.cell_size),
            components,
            active_cubes: ArchiveMaskGrid::from_grid(&level.eligible_cubes),
        }
    }

    /// The level that an archived level stands for.
    pub fn into_compact_level(self, component_count: usize) -> (r: Result<
        CompactLevel<S, T>,
        CompactError,
    >)
        ensures
            match r {
                Ok(l) => archived_level_refusal(self, component_count as nat) is None
                    && restores_level(self, l),
                Err(e) => archived_level_refusal(self, component_count as nat) == Some(e),
            },
    {
        if self.components.len() != component_count {
            return Err(CompactError::ComponentCountMismatch);
        }
        if self.level_index > usize::MAX as u64 {
            return Err(CompactError::TooLarge);
        }
        let components = match restored_grids(self.components) {
            Ok(components) => components,
            Err(e) => return Err(e),
        };
        Ok(
            CompactLevel {
                level_index: self.level_index as usize,
                index_origin: IVec3::new(
                    self.index_origin[0],
                    self.index_origin[1],
                    self.index_origin[2],
                ),
                physical_origin: Vec3 {
                    x: self.physical_origin[0],
                    y: self.physical_origin[1],
                    z: self.physical_origin[2],
                },
                cell_size: Vec3 {
                    x: self.cell_size[0],
                    y: self.cell_size[1],
                    z: self.cell_size[2],
                },
                components,
                eligible_cubes: self.active_cubes.into_grid(),
            },
        )
    }
}

/// Why an archive is refused.
pub open spec fn archive_refusal<S, T: Copy>(a: CompactArchive<S, T>) -> Option<CompactError> {
    let variable_count = a.header.variables@.len();
    let level_check = |l: ArchiveLevel<S, T>| archived_level_refusal(l, a.component_ids@.len());
    if a.magic@ != format_magic() {
        Some(CompactError::InvalidMagic)
    } else if a.version != FORMAT_VERSION {
        Some(CompactError::UnsupportedVersion(a.version))
    } else if a.chunk_bits != CHUNK_BITS {
        Some(CompactError::UnsupportedChunkSize)
    } else if first_refusal(a.component_ids@, |id: u32| id_refusal(id, variable_count)) is Some {
        first_refusal(a.component_ids@, |id: u32| id_refusal(id, variable_count))
    } else if first_refusal(a.levels@, level_check) is Some {
        first_refusal(a.levels@, level_check)
    } else {
        first_refusal(a.header.refinement_ratios@, |ratio: u64| ratio_refusal(ratio))
    }
}

/// Why a component id is refused.
pub open spec fn id_refusal(id: u32, variable_count: nat) -> Option<CompactError> {
    if id < variable_count {
        None
    } else {
        Some(CompactError::ComponentOutOfRange(id as usize))
    }
}

/// Why a refinement ratio is refused.
pub open spec fn ratio_refusal(ratio: u64) -> Option<CompactError> {
    if ratio <= usize::MAX {
        None
    } else {
        Some(CompactError::TooLarge)
    }
}

/// `a` is the archive form of the plot `p` with header `h`.
pub open spec fn archives<S, T: Copy + PartialEq>(
    a: CompactArchive<S, T>,
    h: Header<S>,
    p: CompactPlot<S, T>,
) -> bool {
    &&& a.magic@ == format_magic()
    &&& a.version == FORMAT_VERSION
    &&& a.chunk_bits == CHUNK_BITS
    &&& archives_header(a.header, h)
    &&& a.component_ids@.len() == p.component_ids@.len()
    &&& forall|i: int|
        0 <= i < a.component_ids@.len() ==> #[trigger] a.component_ids@[i] == p.component_ids@[i]
    &&& a.levels@.len() == p.levels@.len()
    &&& forall|i: int|
        0 <= i < a.levels@.len() ==> archives_level(#[trigger] a.levels@[i], p.levels@[i])
}

/// `p` is what an archive stands for.
pub open spec fn restores<S, T: Copy + PartialEq>(
    a: CompactArchive<S, T>,
    p: CompactPlot<S, T>,
) -> bool {
    &&& p.wf()
    &&& p.variable_count == a.header.variables@.len()
    &&& p.refinement_ratios@.len() == a.header.refinement_ratios@.len()
    &&& forall|i: int|
        0 <= i < p.refinement_ratios@.len() ==> #[trigger] p.refinement_ratios@[i]
            == a.header.refinement_ratios@[i]
    &&& p.component_ids@.len() == a.component_ids@.len()
    &&& forall|i: int|
        0 <= i < p.component_ids@.len() ==> #[trigger] p.component_ids@[i] == a.component_ids@[i]
    &&& p.levels@.len() == a.levels@.len()
    &&& forall|i: int|
        0 <= i < p.levels@.len() ==> restores_level(a.levels@[i], #[trigger] p.levels@[i])
}

/// True when the eight bytes are the archive magic.
fn is_magic(magic: &[u8; 8]) -> (b: bool)
    ensures
        b == (magic@ == format_magic()),
{
    let same = magic[0] == 65 && magic[1] == 77 && magic[2] == 82 && magic[3] == 67 && magic[4]
        == 77 && magic[5] == 80 && magic[6] == 67 && magic[7] == 84;
    proof {
        if same {
            assert(magic@ =~= format_magic());
        } else {
            let f = format_magic();
            assert(f[0] == 65 && f[1] == 77 && f[2] == 82 && f[3] == 67 && f[4] == 77 && f[5] == 80
                && f[6] == 67 && f[7] == 84);
        }
    }
    same
}

/// The component ids of an archive.
fn restored_ids(ids: &Vec<u32>, variable_count: usize) -> (r: Result<Vec<usize>, CompactError>)
    ensures
        match r {
            Ok(v) => {
                &&& first_refusal(ids@, |id: u32| id_refusal(id, variable_count as nat)) is None
                &&& v@.len() == ids@.len()
                &&& forall|i: int| 0 <= i < v@.len() ==> #[trigger] v@[i] == ids@[i]
            },
            Err(e) => first_refusal(ids@, |id: u32| id_refusal(id, variable_count as nat)) == Some(
                e,
            ),
        },
{
    let ghost refusal = |id: u32| id_refusal(id, variable_count as nat);
    let mut out: Vec<usize> = Vec::with_capacity(ids.len());
    let mut i: usize = 0;
    while i < ids.len()
        invariant
            i <= ids@.len(),
            refusal == (|id: u32| id_refusal(id, variable_count as nat)),
            out@.len() == i,
            forall|j: int| 0 <= j < i ==> refusal(#[trigger] ids@[j]) is None,
            forall|j: int| 0 <= j < i ==> #[trigger] out@[j] == ids@[j],
        decreases ids@.len() - i,
    {
        let id = ids[i] as usize;
        if id >= variable_count {
            proof {
                lemma_first_refusal(ids@, refusal, i as int);
            }
            return Err(CompactError::ComponentOutOfRange(id));
        }
        out.push(id);
        i += 1;
    }
    proof {
        lemma_first_refusal(ids@, refusal, ids@.len() as int);
    }
    Ok(out)
}

/// The refinement ratios of an archive.
fn restored_ratios(ratios: &Vec<u64>) -> (r: Result<Vec<usize>, CompactError>)
    ensures
        match r {
            Ok(v) => {
                &&& first_refusal(ratios@, |ratio: u64| ratio_refusal(ratio)) is None
                &&& v@.len() == ratios@.len()
                &&& forall|i: int| 0 <= i < v@.len() ==> #[trigger] v@[i] == ratios@[i]
            },
            Err(e) => first_refusal(ratios@, |ratio: u64| ratio_refusal(ratio)) == Some(e),
        },
{
    let ghost refusal = |ratio: u64| ratio_refusal(ratio);
    let mut out: Vec<usize> = Vec::with_capacity(ratios.len());
    let mut i: usize = 0;
    while i < ratios.len()
        invariant
            i <= ratios@.len(),
            refusal == (|ratio: u64| ratio_refusal(ratio)),
            out@.len() == i,
            forall|j: int| 0 <= j < i ==> refusal(#[trigger] ratios@[j]) is None,
            forall|j: int| 0 <= j < i ==> #[trigger] out@[j] == ratios@[j],
        decreases ratios@.len() - i,
    {
        if ratios[i] > usize::MAX as u64 {
            proof {
                lemma_first_refusal(ratios@, refusal, i as int);
            }
            return Err(CompactError::TooLarge);
        }
        out.push(ratios[i] as usize);
        i += 1;
    }
    proof {
        lemma_first_refusal(ratios@, refusal, ratios@.len() as int);
    }
    Ok(out)
}

/// The levels of an archive.
fn restored_levels<S: Copy, T: Copy + PartialEq>(
    list: Vec<ArchiveLevel<S, T>>,
    component_count: usize,
) -> (r: Result<Vec<CompactLevel<S, T>>, CompactError>)
    ensures
        match r {
            Ok(v) => {
                &&& first_refusal(
                    list@,
                    |l: ArchiveLevel<S, T>| archived_level_refusal(l, component_count as nat),
                ) is None
                &&& v@.len() == list@.len()
                &&& forall|j: int| 0 <= j < v@.len() ==> restores_level(list@[j], #[trigger] v@[j])
            },
            Err(e) => first_refusal(
                list@,
                |l: ArchiveLevel<S, T>| archived_level_refusal(l, component_count as nat),
            ) == Some(e),
        },
{
    let ghost all = list@;
    let ghost refusal = |l: ArchiveLevel<S, T>| archived_level_refusal(l, component_count as nat);
    let mut out: Vec<CompactLevel<S, T>> = Vec::with_capacity(list.len());
    for level in it: list
        invariant
            it.seq() == all,
            all == list@,
            refusal == (|l: ArchiveLevel<S, T>|
                archived_level_refusal(l, component_count as nat)),
            out@.len() == it.index(),
            forall|j: int| 0 <= j < it.index() ==> refusal(#[trigger] all[j]) is None,
            forall|j: int| 0 <= j < out@.len() ==> restores_level(all[j], #[trigger] out@[j]),
    {
        let ghost n = it.index() as int;
        assert(level == all[n]);
        match level.into_compact_level(component_count) {
            Ok(l) => out.push(l),
            Err(e) => {
                proof {
                    lemma_first_refusal(all, refusal, n);
                }
                return Err(e);
            },
        }
    }
    proof {
        lemma_first_refusal(all, refusal, all.len() as int);
    }
    Ok(out)
}

impl<S: Copy, T: Copy + PartialEq> CompactArchive<S, T> {
    /// The archive form of a plot. Refused when a component id does not fit in 32 bits.
    pub fn from_plot(header: &Header<S>, compact: &CompactPlot<S, T>) -> (r: Result<
        Self,
        CompactError,
    >)
        requires
            compact.wf(),
        ensures
            r is Ok <==> forall|i: int|
                0 <= i < compact.component_ids@.len() ==> #[trigger] compact.component_ids@[i]
                    <= u32::MAX,
            r matches Ok(a) ==> archives(a, *header, *compact),
            r matches Err(e) ==> e == CompactError::TooLarge,
    {
        let mut component_ids: Vec<u32> = Vec::with_capacity(compact.component_ids.len());
        let mut i: usize = 0;
        while i < compact.component_ids.len()
            invariant
                i <= compact.component_ids@.len(),
                component_ids@.len() == i,
                forall|j: int| 0 <= j < i ==> #[trigger] compact.component_ids@[j] <= u32::MAX,
                forall|j: int|
                    0 <= j < i ==> #[trigger] component_ids@[j] == compact.component_ids@[j],
            decreases compact.component_ids@.len() - i,
        {
            let id = compact.component_ids[i];
            if id > u32::MAX as usize {
                return Err(CompactError::TooLarge);
            }
            component_ids.push(id as u32);
            i += 1;
        }
        let mut levels: Vec<ArchiveLevel<S, T>> = Vec::with_capacity(compact.levels.len());
        let mut n: usize = 0;
        while n < compact.levels.len()
            invariant
                n <= compact.levels@.len(),
                compact.wf(),
                levels@.len() == n,
                forall|j: int|
                    0 <= j < n ==> archives_level(#[trigger] levels@[j], compact.levels@[j]),
            decreases compact.levels@.len() - n,
        {
            assert(compact.levels@[n as int].wf());
            levels.push(ArchiveLevel::from_level(&compact.levels[n]));
            n += 1;
        }
        let magic: [u8; 8] = [65, 77, 82, 67, 77, 80, 67, 84];
        assert(magic@ =~= format_magic());
        Ok(
            CompactArchive {
                magic,
                version: FORMAT_VERSION,
                chunk_bits: CHUNK_BITS,
                header: ArchiveHeader::from_header(header),
                component_ids,
                levels,
            },
        )
    }

    /// The plot that an archive stands for.
    pub fn into_compact_plot(self) -> (r: Result<CompactPlot<S, T>, CompactError>)
        ensures
            match r {
                Ok(p) => archive_refusal(self) is None && restores(self, p),
                Err(e) => archive_refusal(self) == Some(e),
            },
    {
        if !is_magic(&self.magic) {
            return Err(CompactError::InvalidMagic);
        }
        if self.version != FORMAT_VERSION {
            return Err(CompactError::UnsupportedVersion(self.version));
        }
        if self.chunk_bits != CHUNK_BITS {
            return Err(CompactError::UnsupportedChunkSize);
        }
        let variable_count = self.header.variables.len();
        let component_ids = match restored_ids(&self.component_ids, variable_count) {
            Ok(v) => v,
            Err(e) => return Err(e),
        };
        let levels = match restored_levels(self.levels, component_ids.len()) {
            Ok(v) => v,
            Err(e) => return Err(e),
        };
        let refinement_ratios = match restored_ratios(&self.header.refinement_ratios) {
            Ok(v) => v,
            Err(e) => return Err(e),
        };
        Ok(CompactPlot { variable_count, refinement_ratios, component_ids, levels })
    }
}

/// Two grids hold the same voxels in the same chunks.
pub open spec fn same_grid<T: Copy + PartialEq>(a: SparseGrid3<T>, b: SparseGrid3<T>) -> bool {
    &&& a.limits() == b.limits()
    &&& forall|key: ChunkKey| #[trigger] a.allocated(key) == b.allocated(key)
    &&& forall|key: ChunkKey, i: int| #[trigger] a.cell(key, i) == b.cell(key, i)
}

/// Two levels hold the same data.
pub open spec fn same_level<S, T: Copy + PartialEq>(
    a: CompactLevel<S, T>,
    b: CompactLevel<S, T>,
) -> bool {
    &&& a.level_index == b.level_index
    &&& a.index_origin == b.index_origin
    &&& a.physical_origin == b.physical_origin
    &&& a.cell_size == b.cell_size
    &&& a.components@.len() == b.components@.len()
    &&& forall|i: int|
        0 <= i < a.components@.len() ==> same_grid(#[trigger] a.components@[i], b.components@[i])
    &&& same_grid(a.eligible_cubes, b.eligible_cubes)
}

/// What is read back from the archive of a plot is the plot: an archive made from a plot whose
/// components exist and are present on every level is accepted, and stands for a plot with the
/// same components, levels and voxels, and the header's variable count and ratios.
pub proof fn law_archive_round_trip<S, T: Copy + PartialEq>(
    a: CompactArchive<S, T>,
    h: Header<S>,
    p: CompactPlot<S, T>,
    q: CompactPlot<S, T>,
)
    requires
        archives(a, h, p),
        forall|i: int|
            0 <= i < p.component_ids@.len() ==> #[trigger] p.component_ids@[i] < h.variables@.len(),
        forall|i: int|
            0 <= i < p.levels@.len() ==> (#[trigger] p.levels@[i]).components@.len()
                == p.component_ids@.len(),
    ensures
        archive_refusal(a) is None,
        restores(a, q) ==> {
            &&& q.variable_count == h.variables@.len()
            &&& q.refinement_ratios@ =~= h.refinement_ratios@
            &&& q.component_ids@ =~= p.component_ids@
            &&& q.levels@.len() == p.levels@.len()
            &&& forall|i: int|
                0 <= i < p.levels@.len() ==> same_level(#[trigger] q.levels@[i], p.levels@[i])
        },
{
    let variable_count = a.header.variables@.len();
    let ids = |id: u32| id_refusal(id, variable_count);
    let level_check = |l: ArchiveLevel<S, T>| archived_level_refusal(l, a.component_ids@.len());
    let ratios = |ratio: u64| ratio_refusal(ratio);
    assert forall|i: int| 0 <= i < a.component_ids@.len() implies ids(
        #[trigger] a.component_ids@[i],
    ) is None by {
        assert(a.component_ids@[i] == p.component_ids@[i]);
    }
    lemma_first_refusal(a.component_ids@, ids, a.component_ids@.len() as int);
    assert forall|i: int| 0 <= i < a.levels@.len() implies level_check(
        #[trigger] a.levels@[i],
    ) is None by {
        let l = a.levels@[i];
        assert(archives_level(l, p.levels@[i]));
        let grids = |g: ArchiveGrid<T>| grid_refusal(g);
        assert forall|j: int| 0 <= j < l.components@.len() implies grids(
            #[trigger] l.components@[j],
        ) is None by {
            let g = l.components@[j];
            assert(archives_grid(g, p.levels@[i].components@[j]));
            let chunks = |c: ArchiveChunk<T>| c.refusal();
            assert forall|k: int| 0 <= k < g.chunks@.len() implies chunks(
                #[trigger] g.chunks@[k],
            ) is None by {}
            lemma_first_refusal(g.chunks@, chunks, g.chunks@.len() as int);
        }
        lemma_first_refusal(l.components@, grids, l.components@.len() as int);
    }
    lemma_first_refusal(a.levels@, level_check, a.levels@.len() as int);
    assert forall|i: int| 0 <= i < a.header.refinement_ratios@.len() implies ratios(
        #[trigger] a.header.refinement_ratios@[i],
    ) is None by {
        assert(a.header.refinement_ratios@[i] == h.refinement_ratios@[i]);
    }
    lemma_first_refusal(
        a.header.refinement_ratios@,
        ratios,
        a.header.refinement_ratios@.len() as int,
    );
    if restores(a, q) {
        assert forall|i: int| 0 <= i < h.refinement_ratios@.len() implies q.refinement_ratios@[i]
            == h.refinement_ratios@[i] by {
            assert(a.header.refinement_ratios@[i] == h.refinement_ratios@[i]);
        }
        assert forall|i: int| 0 <= i < p.component_ids@.len() implies q.component_ids@[i]
            == p.component_ids@[i] by {
            assert(a.component_ids@[i] == p.component_ids@[i]);
        }
        assert forall|i: int| 0 <= i < p.levels@.len() implies same_level(
            #[trigger] q.levels@[i],
            p.levels@[i],
        ) by {
            let l = a.levels@[i];
            assert(archives_level(l, p.levels@[i]));
            assert(restores_level(l, q.levels@[i]));
            assert(l.index_origin@[0] == p.levels@[i].index_origin.x);
            assert(l.index_origin@[1] == p.levels@[i].index_origin.y);
            assert(l.index_origin@[2] == p.levels@[i].index_origin.z);
            assert forall|j: int| 0 <= j < q.levels@[i].components@.len() implies same_grid(
                #[trigger] q.levels@[i].components@[j],
                p.levels@[i].components@[j],
            ) by {
                assert(archives_grid(l.components@[j], p.levels@[i].components@[j]));
                assert(restores_grid(l.components@[j], q.levels@[i].components@[j]));
            }
            let u = q.levels@[i].eligible_cubes;
            let v = p.levels@[i].eligible_cubes;
            assert forall|key: ChunkKey, c: int| #[trigger] u.cell(key, c) == v.cell(key, c) by {
                assert(u.cell(key, c) is Some <==> stored_mark(l.active_cubes.chunks@, key, c));
                if u.cell(key, c) is Some {
                    assert(u.cell(key, c)->0 == v.cell(key, c)->0);
                }
            }
        }
    }
}

} // verus!
