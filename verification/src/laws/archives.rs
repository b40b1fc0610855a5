//! Archives: what each field holds, how cells are stored, and which archives are accepted.

use vstd::prelude::*;

use crate::compact::{CompactError, CompactPlot};
use crate::compact::archive::{
    archive_refusal, archived_level_refusal, archives, archives_grid, archives_mask, grid_refusal,
    id_refusal, ratio_refusal, restores, restores_grid, restores_mask, stored_cell, stored_mark,
    ArchiveChunk, ArchiveGrid, ArchiveLevel, ArchiveMaskChunk, ArchiveMaskGrid, CompactArchive,
};
use crate::laws::grids::{law_chunk_cell, law_mask};
use crate::laws::requests::lemma_first_none;
use crate::native_file::{CoordinateSystem, Header};
use crate::outcome::first_refusal;
use crate::utility::sparse_grid3::grid::{inside, SparseGrid3};
use crate::utility::sparse_grid3::layout::{key_of, packed, ChunkKey};
use crate::utility::sparse_grid3::value::Present;
use crate::vec3::{IVec3, UVec3, Vec3};

verus! {

/// Three numbers in the order x, y, z.
pub open spec fn xyz<S>(a: Seq<S>, v: Vec3<S>) -> bool {
    a[0] == v.x && a[1] == v.y && a[2] == v.z
}

/// Three indices in the order x, y, z.
pub open spec fn index_xyz(a: Seq<i32>, v: IVec3) -> bool {
    a[0] == v.x && a[1] == v.y && a[2] == v.z
}

/// Three lattice coordinates in the order x, y, z.
pub open spec fn lattice_xyz(a: Seq<u32>, x: int, y: int, z: int) -> bool {
    a[0] == x && a[1] == y && a[2] == z
}

/// An archive starts with the letters `AMRCMPCT`, version 1 and five bits per chunk axis. Its
/// header holds what the plot's header says, its levels lie where the plot's levels lie, and
/// coordinates stand in the order x, y, z.
pub proof fn law_archive_fields<S, T: Copy + PartialEq>(
    a: CompactArchive<S, T>,
    h: Header<S>,
    p: CompactPlot<S, T>,
)
    requires
        archives(a, h, p),
    ensures
        a.magic@ == seq![65u8, 77u8, 82u8, 67u8, 77u8, 80u8, 67u8, 84u8],
        a.version == 1 && a.chunk_bits == 5,
        a.header.simulation_time == h.simulation_time,
        a.header.finest_level == h.finest_level,
        a.header.boundary_width == h.boundary_width,
        xyz(a.header.domain_min@, h.domain.min),
        xyz(a.header.domain_max@, h.domain.max),
        a.header.coordinate_system == 0 <==> h.coordinate_system == CoordinateSystem::Cartesian,
        a.header.coordinate_system == 1 <==> h.coordinate_system == CoordinateSystem::Cylindrical,
        a.header.coordinate_system == 2 <==> h.coordinate_system == CoordinateSystem::Spherical,
        a.header.variables@.len() == h.variables@.len(),
        forall|i: int|
            0 <= i < h.variables@.len() ==> (#[trigger] a.header.variables@[i]).name@
                == h.variables@[i].name@ && a.header.variables@[i].index == h.variables@[i].index,
        a.header.refinement_ratios@.len() == h.refinement_ratios@.len(),
        forall|i: int|
            0 <= i < h.refinement_ratios@.len() ==> #[trigger] a.header.refinement_ratios@[i]
                == h.refinement_ratios@[i],
        a.header.level_steps@.len() == h.level_steps@.len(),
        forall|i: int|
            0 <= i < h.level_steps@.len() ==> #[trigger] a.header.level_steps@[i]
                == h.level_steps@[i],
        a.header.cell_sizes@.len() == h.cell_sizes@.len(),
        forall|i: int|
            0 <= i < h.cell_sizes@.len() ==> xyz(
                (#[trigger] a.header.cell_sizes@[i])@,
                h.cell_sizes@[i],
            ),
        a.header.index_domains@.len() == h.index_domains@.len(),
        forall|i: int|
            0 <= i < h.index_domains@.len() ==> {
                let (d, e) = (#[trigger] a.header.index_domains@[i], h.index_domains@[i]);
                &&& index_xyz(d.min@, e.min)
                &&& index_xyz(d.max@, e.max)
                &&& index_xyz(d.index_type@, e.index_type)
            },
        a.component_ids@.len() == p.component_ids@.len(),
        forall|i: int|
            0 <= i < p.component_ids@.len() ==> #[trigger] a.component_ids@[i]
                == p.component_ids@[i],
        a.levels@.len() == p.levels@.len(),
        forall|i: int|
            0 <= i < p.levels@.len() ==> {
                let (d, e) = (#[trigger] a.levels@[i], p.levels@[i]);
                &&& d.level_index == e.level_index
                &&& index_xyz(d.index_origin@, e.index_origin)
                &&& xyz(d.physical_origin@, e.physical_origin)
                &&& xyz(d.cell_size@, e.cell_size)
                &&& d.components@.len() == e.components@.len()
            },
{
    assert(a.magic@ =~= seq![65u8, 77u8, 82u8, 67u8, 77u8, 80u8, 67u8, 84u8]);
}

/// A restored plot has the archive's ids, ratios and levels, each level where the archive says,
/// with coordinates read in the order x, y, z.
pub proof fn law_restored_fields<S, T: Copy + PartialEq>(
    a: CompactArchive<S, T>,
    p: CompactPlot<S, T>,
)
    requires
        restores(a, p),
    ensures
        p.variable_count == a.header.variables@.len(),
        p.refinement_ratios@.len() == a.header.refinement_ratios@.len(),
        forall|i: int|
            0 <= i < p.refinement_ratios@.len() ==> #[trigger] p.refinement_ratios@[i]
                == a.header.refinement_ratios@[i],
        p.component_ids@.len() == a.component_ids@.len(),
        forall|i: int|
            0 <= i < p.component_ids@.len() ==> #[trigger] p.component_ids@[i]
                == a.component_ids@[i],
        p.levels@.len() == a.levels@.len(),
        forall|i: int|
            0 <= i < p.levels@.len() ==> {
                let (d, e) = (a.levels@[i], #[trigger] p.levels@[i]);
                &&& d.level_index == e.level_index
                &&& index_xyz(d.index_origin@, e.index_origin)
                &&& xyz(d.physical_origin@, e.physical_origin)
                &&& xyz(d.cell_size@, e.cell_size)
                &&& d.components@.len() == e.components@.len()
            },
{
}

/// The key of a chunk as it is stored.
pub open spec fn key_words<T>(c: ArchiveChunk<T>) -> Seq<u32> {
    match c {
        ArchiveChunk::Uniform { key, .. } => key@,
        ArchiveChunk::Dense { key, .. } => key@,
    }
}

/// What a stored chunk holds for the voxel `p` of its box: one bit of the mask tells whether the
/// voxel is there, and a dense chunk has one value for each cell, along x first.
pub open spec fn chunk_holds<T>(c: ArchiveChunk<T>, p: UVec3) -> Option<T> {
    let i = p.x % 32 + 32 * (p.y % 32) + 1024 * (p.z % 32);
    match c {
        ArchiveChunk::Uniform { value, mask, .. } => if (mask@[i / 64] >> ((i % 64) as u64)) & 1
            == 1 {
            Some(value)
        } else {
            None
        },
        ArchiveChunk::Dense { values, mask, .. } => if (mask@[i / 64] >> ((i % 64) as u64)) & 1
            == 1 {
            Some(values@[i])
        } else {
            None
        },
    }
}

/// Chunk `c` is the one for the voxel `p`.
pub open spec fn chunk_for<T>(c: ArchiveChunk<T>, p: UVec3) -> bool {
    lattice_xyz(key_words(c), p.x as int / 32, p.y as int / 32, p.z as int / 32)
}

proof fn lemma_last_chunk<T: Copy>(chunks: Seq<ArchiveChunk<T>>, key: ChunkKey, a: int, i: int)
    requires
        0 <= a < chunks.len(),
        chunks[a].chunk_key() == key,
        forall|b: int| a < b < chunks.len() ==> (#[trigger] chunks[b]).chunk_key() != key,
    ensures
        stored_cell(chunks, key, i) == chunks[a].at(i),
    decreases chunks.len(),
{
    if a < chunks.len() - 1 {
        let rest = chunks.drop_last();
        assert(chunks[chunks.len() - 1].chunk_key() != key);
        assert(forall|b: int| 0 <= b < rest.len() ==> #[trigger] rest[b] == chunks[b]);
        lemma_last_chunk(rest, key, a, i);
    }
}

proof fn lemma_no_chunk<T: Copy>(chunks: Seq<ArchiveChunk<T>>, key: ChunkKey, i: int)
    requires
        forall|b: int| 0 <= b < chunks.len() ==> (#[trigger] chunks[b]).chunk_key() != key,
    ensures
        stored_cell(chunks, key, i) is None,
    decreases chunks.len(),
{
    if chunks.len() > 0 {
        let rest = chunks.drop_last();
        assert(chunks[chunks.len() - 1].chunk_key() != key);
        assert(forall|b: int| 0 <= b < rest.len() ==> #[trigger] rest[b] == chunks[b]);
        lemma_no_chunk(rest, key, i);
    }
}

proof fn lemma_chunk_holds<T: Copy>(c: ArchiveChunk<T>, p: UVec3)
    ensures
        c.at(p.x % 32 + 32 * (p.y % 32) + 1024 * (p.z % 32)) == chunk_holds(c, p),
        chunk_for(c, p) <==> c.chunk_key() == key_of(p),
{
    let i = p.x % 32 + 32 * (p.y % 32) + 1024 * (p.z % 32);
    law_chunk_cell(p);
    match c {
        ArchiveChunk::Uniform { mask, .. } => {
            law_mask(mask@, i);
        },
        ArchiveChunk::Dense { mask, .. } => {
            law_mask(mask@, i);
        },
    }
}

/// A voxel of an archived grid stands in the chunk whose key is the voxel's coordinates divided
/// by 32, and only there. The chunks come in the order of their keys, by x, then y, then z.
pub proof fn law_archived_voxel<T: Copy + PartialEq>(
    archived: ArchiveGrid<T>,
    grid: SparseGrid3<T>,
    p: UVec3,
)
    requires
        archives_grid(archived, grid),
    ensures
        lattice_xyz(
            archived.bounds@,
            grid.limits().x as int,
            grid.limits().y as int,
            grid.limits().z as int,
        ),
        inside(p, grid.limits()) ==> forall|a: int|
            0 <= a < archived.chunks@.len() && chunk_for(#[trigger] archived.chunks@[a], p)
                ==> grid.at(p) == chunk_holds(archived.chunks@[a], p),
        grid.at(p) is Some ==> exists|a: int|
            0 <= a < archived.chunks@.len() && chunk_for(#[trigger] archived.chunks@[a], p),
        forall|a: int, b: int|
            #![trigger archived.chunks@[a], archived.chunks@[b]]
            0 <= a < b < archived.chunks@.len() ==> key_before(
                key_words(archived.chunks@[a]),
                key_words(archived.chunks@[b]),
            ),
        forall|a: int|
            0 <= a < archived.chunks@.len() ==> (#[trigger] archived.chunks@[a] matches
                ArchiveChunk::Dense { values, .. } ==> values@.len() == 32768),
{
    let chunks = archived.chunks@;
    let i = p.x % 32 + 32 * (p.y % 32) + 1024 * (p.z % 32);
    law_chunk_cell(p);
    assert(stored_cell(chunks, key_of(p), i) == grid.cell(key_of(p), i));
    assert forall|a: int|
        0 <= a < chunks.len() && chunk_for(#[trigger] chunks[a], p) && inside(
            p,
            grid.limits(),
        ) implies grid.at(p) == chunk_holds(chunks[a], p) by {
        lemma_chunk_holds(chunks[a], p);
        lemma_last_chunk(chunks, key_of(p), a, i);
    }
    if grid.at(p) is Some {
        if forall|b: int| 0 <= b < chunks.len() ==> (#[trigger] chunks[b]).chunk_key() != key_of(p) {
            lemma_no_chunk(chunks, key_of(p), i);
        } else {
            let a = choose|a: int|
                0 <= a < chunks.len() && (#[trigger] chunks[a]).chunk_key() == key_of(p);
            lemma_chunk_holds(chunks[a], p);
            assert(chunk_for(chunks[a], p));
        }
    }
    assert forall|a: int, b: int|
        #![trigger chunks[a], chunks[b]]
        0 <= a < b < chunks.len() implies key_before(
        key_words(chunks[a]),
        key_words(chunks[b]),
    ) by {
        lemma_key_before(chunks[a].chunk_key(), chunks[b].chunk_key());
    }
}

/// One key comes before another: by x, then y, then z.
pub open spec fn key_before(a: Seq<u32>, b: Seq<u32>) -> bool {
    a[0] < b[0] || (a[0] == b[0] && (a[1] < b[1] || (a[1] == b[1] && a[2] < b[2])))
}

proof fn lemma_key_before(a: ChunkKey, b: ChunkKey)
    requires
        packed(a) < packed(b),
    ensures
        a.x < b.x || (a.x == b.x && (a.y < b.y || (a.y == b.y && a.z < b.z))),
{
}

/// A voxel of a restored grid is what the archive's last chunk with the voxel's key holds for
/// it, and is absent where there is no such chunk.
pub proof fn law_restored_voxel<T: Copy + PartialEq>(
    archived: ArchiveGrid<T>,
    grid: SparseGrid3<T>,
    p: UVec3,
    a: int,
)
    requires
        restores_grid(archived, grid),
        inside(p, grid.limits()),
    ensures
        lattice_xyz(
            archived.bounds@,
            grid.limits().x as int,
            grid.limits().y as int,
            grid.limits().z as int,
        ),
        0 <= a < archived.chunks@.len() && chunk_for(archived.chunks@[a], p) && (forall|b: int|
            a < b < archived.chunks@.len() ==> !chunk_for(#[trigger] archived.chunks@[b], p))
            ==> grid.at(p) == chunk_holds(archived.chunks@[a], p),
        (forall|b: int|
            0 <= b < archived.chunks@.len() ==> !chunk_for(#[trigger] archived.chunks@[b], p))
            ==> grid.at(p) is None,
{
    let chunks = archived.chunks@;
    let i = p.x % 32 + 32 * (p.y % 32) + 1024 * (p.z % 32);
    law_chunk_cell(p);
    assert(grid.cell(key_of(p), i) == stored_cell(chunks, key_of(p), i));
    assert forall|b: int| 0 <= b < chunks.len() implies (chunk_for(#[trigger] chunks[b], p)
        <==> chunks[b].chunk_key() == key_of(p)) by {
        lemma_chunk_holds(chunks[b], p);
    }
    if 0 <= a < chunks.len() && chunk_for(chunks[a], p) && (forall|b: int|
        a < b < chunks.len() ==> !chunk_for(#[trigger] chunks[b], p)) {
        lemma_chunk_holds(chunks[a], p);
        lemma_last_chunk(chunks, key_of(p), a, i);
    }
    if forall|b: int| 0 <= b < chunks.len() ==> !chunk_for(#[trigger] chunks[b], p) {
        lemma_no_chunk(chunks, key_of(p), i);
    }
}

/// The mask chunk `c` is the one for the voxel `p`.
pub open spec fn mask_for(c: ArchiveMaskChunk, p: UVec3) -> bool {
    lattice_xyz(c.key@, p.x as int / 32, p.y as int / 32, p.z as int / 32)
}

/// The mask chunk `c` has the bit of the voxel `p` set.
pub open spec fn mask_holds(c: ArchiveMaskChunk, p: UVec3) -> bool {
    let i = p.x % 32 + 32 * (p.y % 32) + 1024 * (p.z % 32);
    (c.mask@[i / 64] >> ((i % 64) as u64)) & 1 == 1
}

proof fn lemma_last_mark(chunks: Seq<ArchiveMaskChunk>, p: UVec3, a: int)
    requires
        0 <= a < chunks.len(),
        mask_for(chunks[a], p),
        forall|b: int| a < b < chunks.len() ==> !mask_for(#[trigger] chunks[b], p),
    ensures
        stored_mark(
            chunks,
            key_of(p),
            p.x % 32 + 32 * (p.y % 32) + 1024 * (p.z % 32),
        ) == mask_holds(chunks[a], p),
    decreases chunks.len(),
{
    law_chunk_cell(p);
    if a < chunks.len() - 1 {
        let rest = chunks.drop_last();
        assert(!mask_for(chunks[chunks.len() - 1], p));
        assert(forall|b: int| 0 <= b < rest.len() ==> #[trigger] rest[b] == chunks[b]);
        lemma_last_mark(rest, p, a);
    } else {
        law_mask(chunks[a].mask@, p.x % 32 + 32 * (p.y % 32) + 1024 * (p.z % 32));
    }
}

proof fn lemma_no_mark(chunks: Seq<ArchiveMaskChunk>, p: UVec3)
    requires
        forall|b: int| 0 <= b < chunks.len() ==> !mask_for(#[trigger] chunks[b], p),
    ensures
        !stored_mark(chunks, key_of(p), p.x % 32 + 32 * (p.y % 32) + 1024 * (p.z % 32)),
    decreases chunks.len(),
{
    law_chunk_cell(p);
    if chunks.len() > 0 {
        let rest = chunks.drop_last();
        assert(!mask_for(chunks[chunks.len() - 1], p));
        assert(forall|b: int| 0 <= b < rest.len() ==> #[trigger] rest[b] == chunks[b]);
        lemma_no_mark(rest, p);
    }
}

/// A voxel of an archived mask has its bit set in the chunk whose key is the voxel's coordinates
/// divided by 32.
pub proof fn law_archived_mark(archived: ArchiveMaskGrid, grid: SparseGrid3<Present>, p: UVec3)
    requires
        archives_mask(archived, grid),
        inside(p, grid.limits()),
    ensures
        grid.at(p) is Some <==> exists|a: int|
            0 <= a < archived.chunks@.len() && mask_for(#[trigger] archived.chunks@[a], p)
                && mask_holds(archived.chunks@[a], p),
{
    let chunks = archived.chunks@;
    let i = p.x % 32 + 32 * (p.y % 32) + 1024 * (p.z % 32);
    law_chunk_cell(p);
    assert(stored_mark(chunks, key_of(p), i) <==> grid.cell(key_of(p), i) is Some);
    if exists|a: int| 0 <= a < chunks.len() && mask_for(#[trigger] chunks[a], p) {
        let a = choose|a: int| 0 <= a < chunks.len() && mask_for(#[trigger] chunks[a], p);
        assert forall|b: int| 0 <= b < chunks.len() && b != a implies !mask_for(
            #[trigger] chunks[b],
            p,
        ) by {
            if a < b {
                assert(packed(chunks[a].chunk_key()) < packed(chunks[b].chunk_key()));
            } else {
                assert(packed(chunks[b].chunk_key()) < packed(chunks[a].chunk_key()));
            }
        }
        lemma_last_mark(chunks, p, a);
    } else {
        lemma_no_mark(chunks, p);
    }
}

/// A voxel of a restored mask is present when the archive's last chunk with the voxel's key has
/// its bit set.
pub proof fn law_restored_mark(
    archived: ArchiveMaskGrid,
    grid: SparseGrid3<Present>,
    p: UVec3,
    a: int,
)
    requires
        restores_mask(archived, grid),
        inside(p, grid.limits()),
    ensures
        0 <= a < archived.chunks@.len() && mask_for(archived.chunks@[a], p) && (forall|b: int|
            a < b < archived.chunks@.len() ==> !mask_for(#[trigger] archived.chunks@[b], p)) ==> (
        grid.at(p) is Some <==> mask_holds(archived.chunks@[a], p)),
        (forall|b: int|
            0 <= b < archived.chunks@.len() ==> !mask_for(#[trigger] archived.chunks@[b], p))
            ==> grid.at(p) is None,
{
    let chunks = archived.chunks@;
    let i = p.x % 32 + 32 * (p.y % 32) + 1024 * (p.z % 32);
    law_chunk_cell(p);
    assert(grid.cell(key_of(p), i) is Some <==> stored_mark(chunks, key_of(p), i));
    if 0 <= a < chunks.len() && mask_for(chunks[a], p) && (forall|b: int|
        a < b < chunks.len() ==> !mask_for(#[trigger] chunks[b], p)) {
        lemma_last_mark(chunks, p, a);
    }
    if forall|b: int| 0 <= b < chunks.len() ==> !mask_for(#[trigger] chunks[b], p) {
        lemma_no_mark(chunks, p);
    }
}

/// A grid that can be restored: every dense chunk has 32768 values.
pub open spec fn grid_whole<T>(g: ArchiveGrid<T>) -> bool {
    forall|a: int|
        0 <= a < g.chunks@.len() ==> (#[trigger] g.chunks@[a] matches ArchiveChunk::Dense {
            values,
            ..
        } ==> values@.len() == 32768)
}

/// A level that can be restored: it has a grid for each component, and each can be restored.
pub open spec fn level_whole<S, T>(l: ArchiveLevel<S, T>, component_count: nat) -> bool {
    &&& l.components@.len() == component_count
    &&& l.level_index <= usize::MAX
    &&& forall|j: int| 0 <= j < l.components@.len() ==> grid_whole(#[trigger] l.components@[j])
}

proof fn lemma_grid_whole<T: Copy>(g: ArchiveGrid<T>)
    ensures
        grid_refusal(g) is None <==> grid_whole(g),
{
    let refusal = |c: ArchiveChunk<T>| c.refusal();
    lemma_first_none(g.chunks@, refusal);
    assert forall|a: int| 0 <= a < g.chunks@.len() implies (refusal(#[trigger] g.chunks@[a]) is None
        <==> (g.chunks@[a] matches ArchiveChunk::Dense { values, .. } ==> values@.len()
        == 32768)) by {}
}

proof fn lemma_level_whole<S, T: Copy>(l: ArchiveLevel<S, T>, component_count: nat)
    ensures
        archived_level_refusal(l, component_count) is None <==> level_whole(l, component_count),
{
    let refusal = |g: ArchiveGrid<T>| grid_refusal(g);
    lemma_first_none(l.components@, refusal);
    assert forall|j: int| 0 <= j < l.components@.len() implies (refusal(
        #[trigger] l.components@[j],
    ) is None <==> grid_whole(l.components@[j])) by {
        lemma_grid_whole(l.components@[j]);
    }
}

/// An archive is accepted exactly when it has the magic letters, version 1 and five bits per
/// chunk axis, its component ids name variables of its header, each of its levels has a grid for
/// each component with full dense chunks, and its numbers fit the machine.
pub proof fn law_archive_accepted<S, T: Copy>(a: CompactArchive<S, T>)
    ensures
        archive_refusal(a) is None <==> {
            &&& a.magic@ == seq![65u8, 77u8, 82u8, 67u8, 77u8, 80u8, 67u8, 84u8]
            &&& a.version == 1
            &&& a.chunk_bits == 5
            &&& forall|i: int|
                0 <= i < a.component_ids@.len() ==> #[trigger] a.component_ids@[i]
                    < a.header.variables@.len()
            &&& forall|i: int|
                0 <= i < a.levels@.len() ==> level_whole(
                    #[trigger] a.levels@[i],
                    a.component_ids@.len(),
                )
            &&& forall|i: int|
                0 <= i < a.header.refinement_ratios@.len()
                    ==> #[trigger] a.header.refinement_ratios@[i] <= usize::MAX
        },
{
    let n = a.header.variables@.len();
    let count = a.component_ids@.len();
    let ids = |id: u32| id_refusal(id, n);
    let levels = |l: ArchiveLevel<S, T>| archived_level_refusal(l, count);
    let ratios = |ratio: u64| ratio_refusal(ratio);
    lemma_first_none(a.component_ids@, ids);
    lemma_first_none(a.levels@, levels);
    lemma_first_none(a.header.refinement_ratios@, ratios);
    assert forall|i: int| 0 <= i < a.component_ids@.len() implies (ids(
        #[trigger] a.component_ids@[i],
    ) is None <==> a.component_ids@[i] < n) by {}
    assert forall|i: int| 0 <= i < a.levels@.len() implies (levels(#[trigger] a.levels@[i]) is None
        <==> level_whole(a.levels@[i], count)) by {
        lemma_level_whole(a.levels@[i], count);
    }
    assert forall|i: int| 0 <= i < a.header.refinement_ratios@.len() implies (ratios(
        #[trigger] a.header.refinement_ratios@[i],
    ) is None <==> a.header.refinement_ratios@[i] <= usize::MAX) by {}
    assert(seq![65u8, 77u8, 82u8, 67u8, 77u8, 80u8, 67u8, 84u8] =~= seq![
        65u8,
        77,
        82,
        67,
        77,
        80,
        67,
        84,
    ]);
}

/// A refused archive is refused for its magic before its version, for its version before its
/// chunk size, and for its chunk size before anything else; the error gives the version, or the
/// first id that names no variable.
pub proof fn law_archive_refused<S, T: Copy>(a: CompactArchive<S, T>)
    ensures
        archive_refusal(a) matches Some(e) ==> {
            let magic = a.magic@ == seq![65u8, 77u8, 82u8, 67u8, 77u8, 80u8, 67u8, 84u8];
            &&& !magic <==> e == CompactError::InvalidMagic
            &&& magic && a.version != 1 <==> e == CompactError::UnsupportedVersion(a.version)
            &&& magic && a.version == 1 && a.chunk_bits != 5 <==> e
                == CompactError::UnsupportedChunkSize
            &&& e matches CompactError::ComponentOutOfRange(id) ==> exists|i: int|
                0 <= i < a.component_ids@.len() && #[trigger] a.component_ids@[i] == id && id
                    >= a.header.variables@.len() && forall|j: int|
                    0 <= j < i ==> #[trigger] a.component_ids@[j] < a.header.variables@.len()
        },
{
    let n = a.header.variables@.len();
    let count = a.component_ids@.len();
    let ids = |id: u32| id_refusal(id, n);
    let levels = |l: ArchiveLevel<S, T>| archived_level_refusal(l, count);
    let ratios = |ratio: u64| ratio_refusal(ratio);
    lemma_first_none(a.component_ids@, ids);
    lemma_first_none(a.levels@, levels);
    lemma_first_none(a.header.refinement_ratios@, ratios);
    assert forall|i: int| 0 <= i < a.levels@.len() implies (levels(#[trigger] a.levels@[i]) matches
        Some(e) ==> e == CompactError::ComponentCountMismatch || e == CompactError::TooLarge || e
        is DenseLength) by {
        lemma_level_errors(a.levels@[i], count);
    }
    if first_refusal(a.component_ids@, ids) is Some {
        let e = first_refusal(a.component_ids@, ids)->0;
        let i = choose|i: int|
            0 <= i < count && ids(#[trigger] a.component_ids@[i]) == Some(e) && forall|j: int|
                0 <= j < i ==> ids(#[trigger] a.component_ids@[j]) is None;
        assert(a.component_ids@[i] >= n);
        assert forall|j: int| 0 <= j < i implies #[trigger] a.component_ids@[j] < n by {
            assert(ids(a.component_ids@[j]) is None);
        }
    }
}

proof fn lemma_level_errors<S, T: Copy>(l: ArchiveLevel<S, T>, component_count: nat)
    ensures
        archived_level_refusal(l, component_count) matches Some(e) ==> e
            == CompactError::ComponentCountMismatch || e == CompactError::TooLarge || e
            is DenseLength,
{
    let grids = |g: ArchiveGrid<T>| grid_refusal(g);
    lemma_first_none(l.components@, grids);
    assert forall|j: int| 0 <= j < l.components@.len() implies (grids(
        #[trigger] l.components@[j],
    ) matches Some(e) ==> e is DenseLength) by {
        let g = l.components@[j];
        let chunks = |c: ArchiveChunk<T>| c.refusal();
        lemma_first_none(g.chunks@, chunks);
    }
}

} // verus!
