//! Compact sparse AMR plots.
//!
//! A compact plot stores selected components in a chunked sparse layout, together with the
//! dual cubes that isosurface extraction may use.

pub mod archive;

use vstd::prelude::*;
use vstd::slice::slice_to_vec;

use crate::data_reader::RawScalar;
use crate::native_file::PlotFile;
use crate::outcome::{first_refusal, lemma_first_refusal};
use crate::sparse_amr::load::{level_loaded, plot_failure, plot_loaded, PlotLoadError};
use crate::sparse_amr::{SparseAmr, SparseAmrLevel};
use crate::utility::sparse_grid3::aabb::{truncated_difference, Aabb3u};
use crate::utility::sparse_grid3::grid::accessor::GridAccessor;
use crate::utility::sparse_grid3::grid::{inside, visited_before, SparseGrid3};
use crate::utility::sparse_grid3::value::{lawful, lemma_present_lawful, same_cell, Present};
use crate::vec3::{IVec3, UVec3, Vec3};

verus! {

/// Why a compact plot was refused.
#[derive(Debug, Clone, Copy, PartialEq, Eq, Structural)]
pub enum CompactError {
    /// Not a compact archive.
    InvalidMagic,
    /// The archive version is not supported.
    UnsupportedVersion(u32),
    /// The chunk size is not supported.
    UnsupportedChunkSize,
    /// The component does not exist.
    ComponentOutOfRange(usize),
    /// A level does not have the expected number of components.
    ComponentCountMismatch,
    /// A number does not fit.
    TooLarge,
    /// A dense chunk does not have one value per cell.
    DenseLength(usize),
    /// The data is not cell-centered.
    NotCellCentered,
    /// There is no component.
    NoComponents,
}

/// Options controlling which data are written to a compact archive.
#[derive(Debug)]
pub struct CompactOptions {
    /// Component ids to include. Empty means all plotfile variables.
    pub component_ids: Vec<u32>,
}

impl Default for CompactOptions {
    fn default() -> (r: Self)
        ensures
            r.component_ids@.len() == 0,
    {
        CompactOptions { component_ids: Vec::new() }
    }
}

/// One level of a compact plot.
pub struct CompactLevel<S, T: Copy + PartialEq> {
    pub level_index: usize,
    pub index_origin: IVec3,
    pub physical_origin: Vec3<S>,
    pub cell_size: Vec3<S>,
    pub components: Vec<SparseGrid3<T>>,
    pub eligible_cubes: SparseGrid3<Present>,
}

/// Sparse AMR data loaded from a plotfile or compact archive.
///
/// A `CompactPlot` stores selected components as sparse grids per AMR level and
/// precomputes dual-cell eligibility used by isosurface extraction.
pub struct CompactPlot<S, T: Copy + PartialEq> {
    pub variable_count: usize,
    pub refinement_ratios: Vec<usize>,
    pub component_ids: Vec<usize>,
    pub levels: Vec<CompactLevel<S, T>>,
}

impl<S, T: Copy + PartialEq> CompactLevel<S, T> {
    /// All grids are well-formed.
    pub open spec fn wf(self) -> bool {
        &&& self.eligible_cubes.wf()
        &&& forall|i: int|
            0 <= i < self.components@.len() ==> (#[trigger] self.components@[i]).wf()
    }
}

impl<S, T: Copy + PartialEq> CompactPlot<S, T> {
    /// All grids are well-formed.
    pub open spec fn wf(self) -> bool {
        forall|i: int| 0 <= i < self.levels@.len() ==> (#[trigger] self.levels@[i]).wf()
    }

    /// Number of variables in the original plotfile.
    pub fn variable_count(&self) -> (n: usize)
        ensures
            n == self.variable_count,
    {
        self.variable_count
    }

    /// Place of a component among the loaded ones.
    pub fn component_slot(&self, component_id: usize) -> (r: Option<usize>)
        ensures
            r == slot_of(self.component_ids@, component_id),
    {
        let mut i: usize = 0;
        assert(self.component_ids@.skip(0) =~= self.component_ids@);
        while i < self.component_ids.len()
            invariant
                i <= self.component_ids@.len(),
                slot_of(self.component_ids@, component_id) == match slot_of(
                    self.component_ids@.skip(i as int),
                    component_id,
                ) {
                    Some(n) => Some((n + i) as usize),
                    None => None,
                },
                forall|j: int| 0 <= j < i ==> #[trigger] self.component_ids@[j] != component_id,
            decreases self.component_ids@.len() - i,
        {
            let ghost rest = self.component_ids@.skip(i as int);
            proof {
                assert(rest.drop_first() =~= self.component_ids@.skip(i + 1));
                lemma_slot_of(rest.drop_first(), component_id);
            }
            if self.component_ids[i] == component_id {
                return Some(i);
            }
            i += 1;
        }
        None
    }
}

/// Place of the first `id` in a list.
pub open spec fn slot_of(ids: Seq<usize>, id: usize) -> Option<usize>
    decreases ids.len(),
{
    if ids.len() == 0 {
        None
    } else if ids[0] == id {
        Some(0)
    } else {
        match slot_of(ids.drop_first(), id) {
            Some(n) => Some((n + 1) as usize),
            None => None,
        }
    }
}

/// The first place of `id` holds it.
pub proof fn lemma_slot_of(ids: Seq<usize>, id: usize)
    requires
        ids.len() <= usize::MAX,
    ensures
        slot_of(ids, id) matches Some(n) ==> n < ids.len() && ids[n as int] == id && forall|j: int|
            0 <= j < n ==> #[trigger] ids[j] != id,
        slot_of(ids, id) is None <==> forall|j: int| 0 <= j < ids.len() ==> #[trigger] ids[j] != id,
    decreases ids.len(),
{
    if ids.len() > 0 {
        lemma_slot_of(ids.drop_first(), id);
        if ids[0] != id {
            let rest = ids.drop_first();
            match slot_of(rest, id) {
                Some(n) => {
                    assert(rest[n as int] == ids[n + 1]);
                    assert forall|j: int| 0 <= j < n + 1 implies #[trigger] ids[j] != id by {
                        if j > 0 {
                            assert(rest[j - 1] == ids[j]);
                        }
                    }
                },
                None => {
                    assert forall|j: int| 0 <= j < ids.len() implies #[trigger] ids[j] != id by {
                        if j > 0 {
                            assert(rest[j - 1] == ids[j]);
                        }
                    }
                },
            }
        }
    }
}

/// Corner `(dx, dy, dz)` of the dual cube anchored at `p`.
pub open spec fn corner(p: UVec3, dx: u32, dy: u32, dz: u32) -> UVec3 {
    UVec3 { x: (p.x + dx) as u32, y: (p.y + dy) as u32, z: (p.z + dz) as u32 }
}

/// All eight samples of the dual cube anchored at `p` are present.
pub open spec fn complete<T: Copy + PartialEq>(samples: SparseGrid3<T>, p: UVec3) -> bool {
    forall|dx: u32, dy: u32, dz: u32|
        dx <= 1 && dy <= 1 && dz <= 1 ==> (#[trigger] samples.at(corner(p, dx, dy, dz))) is Some
}

/// Anchors of the dual cubes that a sample region may touch.
pub open spec fn candidate_region(region: Aabb3u) -> Aabb3u {
    Aabb3u {
        min: UVec3 {
            x: truncated_difference(region.min.x, 1),
            y: truncated_difference(region.min.y, 1),
            z: truncated_difference(region.min.z, 1),
        },
        max: region.max,
    }
}

/// Some sample region touches the dual cube anchored at `p`.
pub open spec fn touched(regions: Seq<Aabb3u>, p: UVec3) -> bool {
    exists|i: int| 0 <= i < regions.len() && candidate_region(#[trigger] regions[i]).has(p)
}

/// Exclusive limits of the dual cube anchors.
pub open spec fn cube_limits(sample_limits: UVec3) -> UVec3 {
    UVec3 {
        x: truncated_difference(sample_limits.x, 1),
        y: truncated_difference(sample_limits.y, 1),
        z: truncated_difference(sample_limits.z, 1),
    }
}

/// True when all eight samples of the dual cube anchored at `anchor` are present.
fn is_complete<T: Copy + PartialEq>(accessor: &mut GridAccessor<'_, T>, anchor: UVec3) -> (b: bool)
    requires
        old(accessor).wf(),
        anchor.x < u32::MAX,
        anchor.y < u32::MAX,
        anchor.z < u32::MAX,
    ensures
        final(accessor).wf(),
        final(accessor).source() == old(accessor).source(),
        b == complete(old(accessor).source(), anchor),
{
    let ghost samples = accessor.source();
    let mut all = true;
    let mut dz: u32 = 0;
    while dz <= 1
        invariant
            dz <= 2,
            anchor.x < u32::MAX,
            anchor.y < u32::MAX,
            anchor.z < u32::MAX,
            accessor.wf(),
            accessor.source() == samples,
            all <==> forall|ex: u32, ey: u32, ez: u32|
                ex <= 1 && ey <= 1 && ez < dz ==> (#[trigger] samples.at(
                    corner(anchor, ex, ey, ez),
                )) is Some,
        decreases 2 - dz,
    {
        let mut dy: u32 = 0;
        while dy <= 1
            invariant
                dz <= 1,
                dy <= 2,
                anchor.x < u32::MAX,
                anchor.y < u32::MAX,
                anchor.z < u32::MAX,
                accessor.wf(),
                accessor.source() == samples,
                all <==> forall|ex: u32, ey: u32, ez: u32|
                    ex <= 1 && ey <= 1 && (ez < dz || (ez == dz && ey < dy)) ==> (
                    #[trigger] samples.at(corner(anchor, ex, ey, ez))) is Some,
            decreases 2 - dy,
        {
            let mut dx: u32 = 0;
            while dx <= 1
                invariant
                    dz <= 1,
                    dy <= 1,
                    dx <= 2,
                    anchor.x < u32::MAX,
                    anchor.y < u32::MAX,
                    anchor.z < u32::MAX,
                    accessor.wf(),
                    accessor.source() == samples,
                    all <==> forall|ex: u32, ey: u32, ez: u32|
                        ex <= 1 && ey <= 1 && (ez < dz || (ez == dz && (ey < dy || (ey == dy && ex
                            < dx)))) ==> (#[trigger] samples.at(
                            corner(anchor, ex, ey, ez),
                        )) is Some,
                decreases 2 - dx,
            {
                let p = UVec3::new(anchor.x + dx, anchor.y + dy, anchor.z + dz);
                assert(p == corner(anchor, dx, dy, dz));
                let present = accessor.contains(p);
                all = all && present;
                dx += 1;
            }
            dy += 1;
        }
        dz += 1;
    }
    all
}

/// The dual cubes that isosurface extraction may use: those that a sample region touches and
/// whose eight samples are all present.
pub fn build_active_dual_cubes<T: Copy + PartialEq>(
    samples: &SparseGrid3<T>,
    sample_regions: &[Aabb3u],
) -> (active: SparseGrid3<Present>)
    requires
        samples.wf(),
    ensures
        active.wf(),
        active.tidy(),
        active.limits() == cube_limits(samples.limits()),
        forall|p: UVec3|
            (#[trigger] active.at(p)) is Some <==> inside(p, cube_limits(samples.limits()))
                && touched(sample_regions@, p) && complete(*samples, p),
{
    let sample_bounds = samples.bounds();
    let cube_bounds = UVec3::new(
        sample_bounds.x.saturating_sub(1),
        sample_bounds.y.saturating_sub(1),
        sample_bounds.z.saturating_sub(1),
    );
    proof {
        lemma_present_lawful();
    }
    let candidates = candidate_cubes(cube_bounds, sample_regions);
    let mut active: SparseGrid3<Present> = SparseGrid3::with_chunk_capacity(
        cube_bounds,
        candidates.chunk_count(),
    );
    let mut accessor = samples.accessor();
    let full = candidates.bounds_aabb();
    let anchors = candidates.for_each_present_in_aabb(full);
    let mut k: usize = 0;
    while k < anchors.len()
        invariant
            k <= anchors@.len(),
            lawful::<Present>(),
            cube_bounds == cube_limits(samples.limits()),
            accessor.wf(),
            accessor.source() == *samples,
            active.wf(),
            active.tidy(),
            active.limits() == cube_bounds,
            forall|a: int| 0 <= a < anchors@.len() ==> inside((#[trigger] anchors@[a]).0, cube_bounds),
            forall|a: int, b: int|
                0 <= a < b < anchors@.len() ==> visited_before(
                    (#[trigger] anchors@[a]).0,
                    (#[trigger] anchors@[b]).0,
                ),
            forall|p: UVec3|
                (#[trigger] active.at(p)) is Some <==> complete(*samples, p) && exists|a: int|
                    0 <= a < k && (#[trigger] anchors@[a]).0 == p,
        decreases anchors@.len() - k,
    {
        let anchor = anchors[k].0;
        assert(inside(anchors@[k as int].0, cube_bounds));
        let ghost before = active;
        if is_complete(&mut accessor, anchor) {
            active.set(anchor, Present);
        }
        proof {
            assert forall|p: UVec3|
                (#[trigger] active.at(p)) is Some <==> complete(*samples, p) && exists|a: int|
                    0 <= a < k + 1 && (#[trigger] anchors@[a]).0 == p by {
                assert(same_cell(before.at(p), active.at(p)) || p == anchor);
                if p == anchor {
                    assert(anchors@[k as int].0 == p);
                }
                if before.at(p) is Some {
                    let a = choose|a: int| 0 <= a < k && (#[trigger] anchors@[a]).0 == p;
                    assert(anchors@[a].0 == p);
                }
                if p != anchor && exists|a: int| 0 <= a < k + 1 && (#[trigger] anchors@[a]).0 == p {
                    let a = choose|a: int| 0 <= a < k + 1 && (#[trigger] anchors@[a]).0 == p;
                    assert(a < k);
                }
            }
        }
        k += 1;
    }
    proof {
        assert forall|p: UVec3|
            (#[trigger] active.at(p)) is Some <==> inside(p, cube_limits(samples.limits()))
                && touched(sample_regions@, p) && complete(*samples, p) by {
            if active.at(p) is Some {
                let a = choose|a: int| 0 <= a < k && (#[trigger] anchors@[a]).0 == p;
                assert(candidates.at(anchors@[a].0) is Some);
            }
            if candidates.at(p) is Some {
                assert(full.has(p));
                assert(anchors@.contains((p, candidates.at(p)->0)));
                let a = choose|a: int|
                    0 <= a < anchors@.len() && anchors@[a] == (p, candidates.at(p)->0);
                assert(anchors@[a].0 == p);
            }
        }
    }
    active
}

/// The dual cubes that the sample regions touch.
fn candidate_cubes(cube_bounds: UVec3, sample_regions: &[Aabb3u]) -> (candidates: SparseGrid3<Present>)
    requires
        lawful::<Present>(),
    ensures
        candidates.wf(),
        candidates.tidy(),
        candidates.limits() == cube_bounds,
        forall|p: UVec3|
            (#[trigger] candidates.at(p)) is Some <==> inside(p, cube_bounds) && touched(
                sample_regions@,
                p,
            ),
{
    let mut candidates: SparseGrid3<Present> = SparseGrid3::with_chunk_capacity(
        cube_bounds,
        sample_regions.len(),
    );
    let mut i: usize = 0;
    while i < sample_regions.len()
        invariant
            i <= sample_regions@.len(),
            lawful::<Present>(),
            candidates.wf(),
            candidates.tidy(),
            candidates.limits() == cube_bounds,
            forall|p: UVec3|
                (#[trigger] candidates.at(p)) is Some <==> inside(p, cube_bounds) && exists|j: int|
                    0 <= j < i && candidate_region(#[trigger] sample_regions@[j]).has(p),
        decreases sample_regions@.len() - i,
    {
        let region = sample_regions[i];
        let candidate = Aabb3u::new(
            UVec3::new(
                region.min.x.saturating_sub(1),
                region.min.y.saturating_sub(1),
                region.min.z.saturating_sub(1),
            ),
            region.max,
        );
        let ghost before = candidates;
        candidates.fill_aabb(candidate, Present);
        proof {
            assert(candidate == candidate_region(region));
            assert forall|p: UVec3|
                (#[trigger] candidates.at(p)) is Some <==> inside(p, cube_bounds) && exists|j: int|
                    0 <= j < i + 1 && candidate_region(#[trigger] sample_regions@[j]).has(p) by {
                if candidate.has(p) {
                    assert(candidate_region(sample_regions@[i as int]).has(p));
                } else {
                    assert(same_cell(before.at(p), candidates.at(p)));
                }
                if before.at(p) is Some {
                    let j = choose|j: int|
                        0 <= j < i && candidate_region(#[trigger] sample_regions@[j]).has(p);
                    assert(candidate_region(sample_regions@[j]).has(p));
                }
            }
        }
        i += 1;
    }
    candidates
}

/// Every complete dual cube is active when the sample regions cover the present samples.
pub proof fn law_complete_cubes_are_active<T: Copy + PartialEq>(
    samples: SparseGrid3<T>,
    regions: Seq<Aabb3u>,
    p: UVec3,
)
    requires
        forall|q: UVec3|
            (#[trigger] samples.at(q)) is Some ==> exists|i: int|
                0 <= i < regions.len() && (#[trigger] regions[i]).has(q),
        complete(samples, p),
        inside(p, cube_limits(samples.limits())),
    ensures
        touched(regions, p),
{
    let q = corner(p, 0, 0, 0);
    assert(samples.at(corner(p, 0, 0, 0)) is Some);
    assert(q == p);
    let i = choose|i: int| 0 <= i < regions.len() && (#[trigger] regions[i]).has(q);
    assert(candidate_region(regions[i]).has(p));
}

/// The component ids that options select.
pub open spec fn selected_ids(ids: Seq<u32>, variable_count: usize) -> Result<
    Seq<usize>,
    CompactError,
> {
    if ids.len() == 0 {
        Ok(Seq::new(variable_count as nat, |i: int| i as usize))
    } else if exists|i: int| #![trigger ids[i]] first_out_of_range(ids, variable_count, i) {
        let i = choose|i: int| #![trigger ids[i]] first_out_of_range(ids, variable_count, i);
        Err(CompactError::ComponentOutOfRange(ids[i] as usize))
    } else {
        Ok(ids.map_values(|id: u32| id as usize))
    }
}

/// The id in place `i` is the first that is out of range.
pub open spec fn first_out_of_range(ids: Seq<u32>, variable_count: usize, i: int) -> bool {
    &&& 0 <= i < ids.len()
    &&& ids[i] >= variable_count
    &&& forall|j: int| 0 <= j < i ==> #[trigger] ids[j] < variable_count
}

/// The component ids that options select: all variables when none is named.
pub fn selected_component_ids(variable_count: usize, options: &CompactOptions) -> (r: Result<
    Vec<usize>,
    CompactError,
>)
    ensures
        match r {
            Ok(v) => selected_ids(options.component_ids@, variable_count) == Ok::<
                Seq<usize>,
                CompactError,
            >(v@),
            Err(e) => selected_ids(options.component_ids@, variable_count) == Err::<
                Seq<usize>,
                CompactError,
            >(e),
        },
{
    let ghost ids = options.component_ids@;
    let mut out: Vec<usize> = Vec::new();
    if options.component_ids.len() == 0 {
        let mut i: usize = 0;
        while i < variable_count
            invariant
                i <= variable_count,
                out@ =~= Seq::new(i as nat, |j: int| j as usize),
            decreases variable_count - i,
        {
            out.push(i);
            i += 1;
        }
        return Ok(out);
    }
    let mut i: usize = 0;
    while i < options.component_ids.len()
        invariant
            i <= options.component_ids@.len(),
            ids == options.component_ids@,
            ids.len() > 0,
            out@.len() == i,
            forall|j: int| 0 <= j < i ==> #[trigger] ids[j] < variable_count,
            forall|j: int| 0 <= j < i ==> #[trigger] out@[j] == ids[j],
        decreases options.component_ids@.len() - i,
    {
        let id = options.component_ids[i] as usize;
        if id >= variable_count {
            proof {
                assert(first_out_of_range(ids, variable_count, i as int));
                let c = choose|c: int| #![trigger ids[c]] first_out_of_range(
                    ids,
                    variable_count,
                    c,
                );
                assert(ids[i as int] == id);
                assert(c == i) by {
                    if c < i {
                        assert(ids[c] < variable_count);
                    } else if c > i {
                        assert(ids[i as int] < variable_count);
                    }
                }
            }
            return Err(CompactError::ComponentOutOfRange(id));
        }
        out.push(id);
        i += 1;
    }
    assert(out@ =~= ids.map_values(|id: u32| id as usize));
    Ok(out)
}

/// Why a sparse level cannot become a compact one.
pub open spec fn level_refusal<D, T: Copy + PartialEq>(level: SparseAmrLevel<D, T>) -> Option<
    CompactError,
> {
    if level.index_type != (IVec3 { x: 0, y: 0, z: 0 }) {
        Some(CompactError::NotCellCentered)
    } else if level.components@.len() == 0 {
        Some(CompactError::NoComponents)
    } else {
        None
    }
}

/// `c` is the compact form of the sparse level `l`.
pub open spec fn compacted<S, T: Copy + PartialEq>(
    l: SparseAmrLevel<Vec3<S>, T>,
    c: CompactLevel<S, T>,
) -> bool {
    &&& c.level_index == l.level_index
    &&& c.index_origin == l.index_origin
    &&& c.physical_origin == l.physical_origin
    &&& c.cell_size == l.cell_size
    &&& c.components == l.components
    &&& c.eligible_cubes.wf()
    &&& c.eligible_cubes.tidy()
    &&& c.eligible_cubes.limits() == cube_limits(l.components@[0].limits())
    &&& forall|p: UVec3|
        (#[trigger] c.eligible_cubes.at(p)) is Some <==> inside(
            p,
            cube_limits(l.components@[0].limits()),
        ) && touched(l.valid_regions@, p) && complete(l.components@[0], p)
}

/// The compact form of one sparse level.
fn compact_level<S, T: Copy + PartialEq>(level: SparseAmrLevel<Vec3<S>, T>) -> (r: Result<
    CompactLevel<S, T>,
    CompactError,
>)
    requires
        forall|i: int| 0 <= i < level.components@.len() ==> (#[trigger] level.components@[i]).wf(),
    ensures
        match r {
            Ok(c) => level_refusal(level) is None && compacted(level, c) && c.wf(),
            Err(e) => level_refusal(level) == Some(e),
        },
{
    if level.index_type != IVec3::new(0, 0, 0) {
        return Err(CompactError::NotCellCentered);
    }
    if level.components.len() == 0 {
        return Err(CompactError::NoComponents);
    }
    let eligible_cubes = build_active_dual_cubes(
        &level.components[0],
        level.valid_regions.as_slice(),
    );
    Ok(
        CompactLevel {
            level_index: level.level_index,
            index_origin: level.index_origin,
            physical_origin: level.physical_origin,
            cell_size: level.cell_size,
            components: level.components,
            eligible_cubes,
        },
    )
}

/// `plot` is the compact form of sparse data.
pub open spec fn compact_of<S, T: Copy + PartialEq>(
    variable_count: usize,
    refinement_ratios: Seq<usize>,
    sparse: SparseAmr<Vec3<S>, T>,
    plot: CompactPlot<S, T>,
) -> bool {
    &&& first_refusal(
        sparse.levels@,
        |l: SparseAmrLevel<Vec3<S>, T>| level_refusal(l),
    ) is None
    &&& plot.wf()
    &&& plot.variable_count == variable_count
    &&& plot.refinement_ratios@ == refinement_ratios
    &&& plot.component_ids == sparse.component_ids
    &&& plot.levels@.len() == sparse.levels@.len()
    &&& forall|l: int|
        0 <= l < plot.levels@.len() ==> compacted(sparse.levels@[l], #[trigger] plot.levels@[l])
}

/// Why a plotfile could not be loaded in compact form.
#[derive(Debug)]
pub enum CompactLoadError<E> {
    /// The data could not be loaded.
    Load(PlotLoadError<E>),
    /// The data has no compact form.
    Compact(CompactError),
}

/// `r` is what loading the wanted components of a plotfile in compact form gives.
pub open spec fn compact_loaded<
    'v,
    S: Copy,
    T: Copy + PartialEq,
    E,
    V: Fn(usize, usize) -> Result<&'v [u8], E>,
    F: Fn(RawScalar) -> T,
>(
    plot_file: PlotFile<S>,
    component_ids: Seq<usize>,
    file_of: V,
    convert: F,
    r: Result<CompactPlot<S, T>, CompactLoadError<E>>,
) -> bool {
    match r {
        Ok(plot) => exists|sparse: SparseAmr<Vec3<S>, T>| #[trigger]
            plot_loaded(plot_file, component_ids, file_of, convert, sparse) && compact_of(
                plot_file.head().names.len() as usize,
                plot_file.head().ratios,
                sparse,
                plot,
            ),
        Err(CompactLoadError::Load(e)) => plot_failure(plot_file, component_ids, file_of, e),
        Err(CompactLoadError::Compact(e)) => exists|sparse: SparseAmr<Vec3<S>, T>| #[trigger]
            plot_loaded(plot_file, component_ids, file_of, convert, sparse) && first_refusal(
                sparse.levels@,
                |l: SparseAmrLevel<Vec3<S>, T>| level_refusal(l),
            ) == Some(e),
    }
}

impl<S: Copy, T: Copy + PartialEq> CompactPlot<S, T> {
    /// Load selected component ids from an AMReX plotfile into sparse AMR storage.
    ///
    /// `component_ids` are plotfile variable indices. At least one component is
    /// required because the first component defines active dual cubes. `file_of` gives the
    /// contents of the data file of a patch of a level, and `convert` makes samples of stored
    /// values.
    pub fn load<'v, E, V: Fn(usize, usize) -> Result<&'v [u8], E>, F: Fn(RawScalar) -> T>(
        plot_file: &PlotFile<S>,
        component_ids: &[usize],
        file_of: &V,
        convert: &F,
    ) -> (r: Result<Self, CompactLoadError<E>>)
        requires
            plot_file.wf(),
            lawful::<T>(),
            forall|l: usize, k: usize| #[trigger] call_requires(*file_of, (l, k)),
            forall|raw: RawScalar| #[trigger] call_requires(*convert, (raw,)),
        ensures
            compact_loaded(*plot_file, component_ids@, *file_of, *convert, r),
    {
        let sparse = match SparseAmr::load(plot_file, component_ids, file_of, convert) {
            Ok(sparse) => sparse,
            Err(e) => return Err(CompactLoadError::Load(e)),
        };
        let variable_count = plot_file.variables().len();
        let ratios = slice_to_vec(plot_file.header().refinement_ratios.as_slice());
        proof {
            assert(plot_loaded(*plot_file, component_ids@, *file_of, *convert, sparse));
            assert forall|l: int, i: int|
                0 <= l < sparse.levels@.len() && 0 <= i < sparse.levels@[l].components@.len() implies (
            #[trigger] sparse.levels@[l].components@[i]).wf() by {
                let out = sparse.levels@[l];
                assert(level_loaded(
                    *plot_file,
                    l,
                    plot_file.head().domain.min,
                    component_ids@,
                    *file_of,
                    *convert,
                    out,
                ));
            }
        }
        match CompactPlot::from_sparse(variable_count, ratios, sparse) {
            Ok(plot) => Ok(plot),
            Err(e) => Err(CompactLoadError::Compact(e)),
        }
    }
}

impl<S, T: Copy + PartialEq> CompactPlot<S, T> {
    /// The compact form of loaded sparse data. The first component defines the active dual
    /// cubes, so at least one is required.
    pub fn from_sparse(
        variable_count: usize,
        refinement_ratios: Vec<usize>,
        sparse: SparseAmr<Vec3<S>, T>,
    ) -> (r: Result<Self, CompactError>)
        requires
            forall|l: int, i: int|
                0 <= l < sparse.levels@.len() && 0 <= i < sparse.levels@[l].components@.len()
                    ==> (#[trigger] sparse.levels@[l].components@[i]).wf(),
        ensures
            match r {
                Err(e) => first_refusal(
                    sparse.levels@,
                    |l: SparseAmrLevel<Vec3<S>, T>| level_refusal(l),
                ) == Some(e),
                Ok(plot) => compact_of(variable_count, refinement_ratios@, sparse, plot),
            },
    {
        let ghost all = sparse.levels@;
        let ghost refusal = |l: SparseAmrLevel<Vec3<S>, T>| level_refusal(l);
        let mut levels: Vec<CompactLevel<S, T>> = Vec::with_capacity(sparse.levels.len());
        for level in it: sparse.levels
            invariant
                it.seq() == all,
                refusal == (|l: SparseAmrLevel<Vec3<S>, T>| level_refusal(l)),
                levels@.len() == it.index(),
                forall|l: int, i: int|
                    0 <= l < all.len() && 0 <= i < all[l].components@.len() ==> (
                    #[trigger] all[l].components@[i]).wf(),
                forall|l: int| 0 <= l < it.index() ==> refusal(#[trigger] all[l]) is None,
                forall|l: int|
                    0 <= l < levels@.len() ==> compacted(all[l], #[trigger] levels@[l])
                        && levels@[l].wf(),
        {
            let ghost n = it.index() as int;
            assert(level == all[n]);
            match compact_level(level) {
                Ok(c) => levels.push(c),
                Err(e) => {
                    proof {
                        lemma_first_refusal(all, refusal, n);
                    }
                    return Err(e);
                },
            }
        }
        proof {
            lemma_first_refusal(all, refusal, all.len() as int);
        }
        Ok(
            CompactPlot {
                variable_count,
                refinement_ratios,
                component_ids: sparse.component_ids,
                levels,
            },
        )
    }
}

} // verus!
