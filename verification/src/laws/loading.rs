//! Loading: which sample a cell holds, and which cubes may be extracted.

use vstd::prelude::*;

use crate::compact::{
    candidate_region, compact_loaded, compact_of, compacted, complete, corner, cube_limits,
    CompactLevel, CompactLoadError, CompactPlot,
};
use crate::data_reader::{decoded, ComponentView, RawScalar};
use crate::laws::records::law_value_place;
use crate::laws::surfaces::stepped_from;
use crate::native_file::{IndexDomain, PlotFile};
use crate::sparse_amr::{converted, extent_of, index_at, SparseAmr, SparseAmrLevel};
use crate::sparse_amr::load::{
    cell_loaded, cells_loaded, last_cover, level_domain, level_loaded, patch_total, plot_loaded,
    reads, reads_all, reads_patches, region_of, stored_component,
};
use crate::utility::sparse_grid3::aabb::Aabb3u;
use crate::utility::sparse_grid3::grid::{inside, SparseGrid3};
use crate::utility::sparse_grid3::value::same_cell;
use crate::vec3::{IVec3, UVec3, Vec3};

verus! {

/// The cube anchored at `p` has a sample at each of its eight corners.
pub open spec fn cube_sampled<T: Copy + PartialEq>(samples: SparseGrid3<T>, p: UVec3) -> bool {
    forall|x: int, y: int, z: int|
        0 <= x <= 1 && 0 <= y <= 1 && 0 <= z <= 1 ==> (#[trigger] samples.at(
            stepped_from(p, x, y, z),
        )) is Some
}

/// A region reaches the cube anchored at `p`: it holds a lattice point at the anchor or one step
/// further, along every axis.
pub open spec fn reaches(r: Aabb3u, p: UVec3) -> bool {
    &&& r.min.x <= p.x + 1 && p.x < r.max.x
    &&& r.min.y <= p.y + 1 && p.y < r.max.y
    &&& r.min.z <= p.z + 1 && p.z < r.max.z
}

/// The cubes of a compact level are those with a sample at each corner that a region of samples
/// reaches. Otherwise the level is what was loaded.
pub proof fn law_eligible_cubes<S, T: Copy + PartialEq>(
    l: SparseAmrLevel<Vec3<S>, T>,
    c: CompactLevel<S, T>,
    p: UVec3,
)
    requires
        compacted(l, c),
        l.components@.len() > 0,
        p.x < u32::MAX,
        p.y < u32::MAX,
        p.z < u32::MAX,
    ensures
        c.level_index == l.level_index,
        c.index_origin == l.index_origin,
        c.physical_origin == l.physical_origin,
        c.cell_size == l.cell_size,
        c.components == l.components,
        c.eligible_cubes.at(p) is Some <==> cube_sampled(l.components@[0], p) && exists|i: int|
            0 <= i < l.valid_regions@.len() && reaches(#[trigger] l.valid_regions@[i], p),
{
    let samples = l.components@[0];
    assert(complete(samples, p) <==> cube_sampled(samples, p)) by {
        if complete(samples, p) {
            assert forall|x: int, y: int, z: int|
                0 <= x <= 1 && 0 <= y <= 1 && 0 <= z <= 1 implies (#[trigger] samples.at(
                stepped_from(p, x, y, z),
            )) is Some by {
                assert(samples.at(corner(p, x as u32, y as u32, z as u32)) is Some);
                assert(corner(p, x as u32, y as u32, z as u32)
                    == stepped_from(p, x, y, z));
            }
        }
        if cube_sampled(samples, p) {
            assert forall|dx: u32, dy: u32, dz: u32|
                dx <= 1 && dy <= 1 && dz <= 1 implies (#[trigger] samples.at(
                corner(p, dx, dy, dz),
            )) is Some by {
                assert(samples.at(
                    stepped_from(p, dx as int, dy as int, dz as int),
                ) is Some);
                assert(corner(p, dx, dy, dz) == stepped_from(
                    p,
                    dx as int,
                    dy as int,
                    dz as int,
                ));
            }
        }
    }
    if cube_sampled(samples, p) {
        let q = stepped_from(p, 1, 1, 1);
        assert(samples.at(q) is Some);
        assert(inside(q, samples.limits()));
        assert(inside(p, cube_limits(samples.limits())));
    }
    assert forall|i: int| 0 <= i < l.valid_regions@.len() implies (
    candidate_region(#[trigger] l.valid_regions@[i]).has(p) <==> reaches(
        l.valid_regions@[i],
        p,
    )) by {}
    if exists|i: int|
        0 <= i < l.valid_regions@.len() && reaches(#[trigger] l.valid_regions@[i], p) {
        let i = choose|i: int|
            0 <= i < l.valid_regions@.len() && reaches(#[trigger] l.valid_regions@[i], p);
        assert(candidate_region(l.valid_regions@[i]).has(p));
    }
}

/// A plot that was loaded has, for each level of the plotfile, a level with the cell size of
/// that level, the lower corner of the domain as its physical origin and the lowest index of its
/// own domain as its index origin; its ratios and its number of variables are the plotfile's.
pub proof fn law_loaded_geometry<
    'v,
    S: Copy,
    T: Copy + PartialEq,
    E,
    V: Fn(usize, usize) -> Result<&'v [u8], E>,
    F: Fn(RawScalar) -> T,
>(
    plot_file: PlotFile<S>,
    ids: Seq<usize>,
    file_of: V,
    convert: F,
    plot: CompactPlot<S, T>,
    l: int,
)
    requires
        compact_loaded(
            plot_file,
            ids,
            file_of,
            convert,
            Ok::<CompactPlot<S, T>, CompactLoadError<E>>(plot),
        ),
        0 <= l < plot.levels@.len(),
    ensures
        plot.levels@.len() == plot_file.head().records.len(),
        plot.component_ids@ == ids,
        plot.variable_count == plot_file.head().names.len() as usize,
        plot.refinement_ratios@ == plot_file.head().ratios,
        plot.levels@[l].level_index == l,
        plot.levels@[l].cell_size == plot_file.head().cell_sizes[l],
        plot.levels@[l].physical_origin == plot_file.head().domain.min,
        plot.levels@[l].index_origin == plot_file.head().index_domains[l].min,
        plot.levels@[l].components@.len() == ids.len(),
{
    let sparse = choose|sparse: SparseAmr<Vec3<S>, T>| #[trigger]
        plot_loaded(plot_file, ids, file_of, convert, sparse) && compact_of(
            plot_file.head().names.len() as usize,
            plot_file.head().ratios,
            sparse,
            plot,
        );
    assert(compacted(sparse.levels@[l], plot.levels@[l]));
    assert(level_loaded(
        plot_file,
        l,
        plot_file.head().domain.min,
        ids,
        file_of,
        convert,
        sparse.levels@[l],
    ));
}

/// The index lies in a box, both corners included.
pub open spec fn index_in(b: IndexDomain, index: IVec3) -> bool {
    &&& b.min.x <= index.x <= b.max.x
    &&& b.min.y <= index.y <= b.max.y
    &&& b.min.z <= index.z <= b.max.z
}

/// The cell of an index, counted from the lowest index of the domain.
pub open spec fn cell_of_index(domain: IndexDomain, index: IVec3) -> UVec3 {
    UVec3 {
        x: (index.x - domain.min.x) as u32,
        y: (index.y - domain.min.y) as u32,
        z: (index.z - domain.min.z) as u32,
    }
}

/// `v` is what `convert` may make of the value that is stored for an index in a component of a
/// patch.
pub open spec fn stored_sample<
    'v,
    S: Copy,
    T,
    E,
    V: Fn(usize, usize) -> Result<&'v [u8], E>,
    F: Fn(RawScalar) -> T,
>(
    plot: PlotFile<S>,
    l: int,
    k: int,
    component: usize,
    file_of: V,
    convert: F,
    index: IVec3,
    view: ComponentView<'v>,
    v: T,
) -> bool {
    let (encoding, lower, upper) = view.header();
    let (nx, ny) = (upper.x - lower.x + 1, upper.y - lower.y + 1);
    &&& reads(plot, l, k, component, file_of, view)
    &&& lower.x <= index.x <= upper.x && lower.y <= index.y <= upper.y && lower.z <= index.z
        <= upper.z
    &&& call_ensures(
        convert,
        (decoded(
            view.data(),
            encoding,
            (index.x - lower.x) + nx * (index.y - lower.y) + nx * ny * (index.z - lower.z),
        ),),
        v,
    )
}

proof fn lemma_last_cover(regions: Seq<Aabb3u>, p: UVec3, k: int, n: nat)
    requires
        0 <= k < n <= regions.len(),
        regions[k].has(p),
        forall|j: int| k < j < n ==> !(#[trigger] regions[j]).has(p),
    ensures
        last_cover(regions, p, n) == Some(k),
    decreases n,
{
    if n - 1 > k {
        assert(!regions[n - 1].has(p));
        lemma_last_cover(regions, p, k, (n - 1) as nat);
    }
}

proof fn lemma_no_cover(regions: Seq<Aabb3u>, p: UVec3, n: nat)
    requires
        n <= regions.len(),
        forall|j: int| 0 <= j < n ==> !(#[trigger] regions[j]).has(p),
    ensures
        last_cover(regions, p, n) is None,
    decreases n,
{
    if n > 0 {
        assert(!regions[n - 1].has(p));
        lemma_no_cover(regions, p, (n - 1) as nat);
    }
}

/// A cell of a loaded level holds the value that the last patch with its index stores for it, in
/// the wanted component.
pub proof fn law_loaded_sample<
    'v,
    S: Copy,
    T: Copy + PartialEq,
    E,
    V: Fn(usize, usize) -> Result<&'v [u8], E>,
    F: Fn(RawScalar) -> T,
>(
    plot: PlotFile<S>,
    l: int,
    physical_origin: Vec3<S>,
    ids: Seq<usize>,
    file_of: V,
    convert: F,
    out: SparseAmrLevel<Vec3<S>, T>,
    k: int,
    i: int,
    index: IVec3,
)
    requires
        level_loaded(plot, l, physical_origin, ids, file_of, convert, out),
        0 <= k < plot.head().records[l].patches,
        0 <= i < ids.len(),
        index_in(plot.cells(l)->0.fabs[k].domain, index),
        forall|j: int|
            k < j < plot.head().records[l].patches ==> !index_in(
                (#[trigger] plot.cells(l)->0.fabs[j]).domain,
                index,
            ),
    ensures
        exists|view: ComponentView<'v>, v: T|
            #[trigger] stored_sample(plot, l, k, ids[i], file_of, convert, index, view, v)
                && same_cell(
                Some(v),
                out.components@[i].at(cell_of_index(plot.head().index_domains[l], index)),
            ),
{
    let domain = level_domain(plot, l);
    let n = patch_total(plot, l);
    let p = cell_of_index(domain, index);
    let regions = out.valid_regions@;
    let limits = extent_of(domain)->Ok_0;
    assert(region_of(plot, l, regions[k], k));
    assert(regions[k].has(p));
    assert forall|j: int| k < j < n implies !(#[trigger] regions[j]).has(p) by {
        assert(region_of(plot, l, regions[j], j));
        assert(!index_in(plot.cells(l)->0.fabs[j].domain, index));
    }
    lemma_last_cover(regions, p, k, n);
    let views = choose|views: Seq<Seq<ComponentView<'v>>>| #[trigger]
        reads_patches(plot, l, ids, file_of, views, n as int)
            && cells_loaded(
            out.components@,
            regions,
            views,
            domain.min,
            limits,
            convert,
            n,
        );
    assert(inside(p, limits));
    assert(cell_loaded(out.components@[i], p, regions, views, i, domain.min, convert, n));
    let view = views[k][i];
    assert(reads_all(plot, l, k, ids, file_of, views[k]));
    assert(reads(plot, l, k, ids[i], file_of, view));
    assert(index_at(p, domain.min) == index);
    let v = choose|v: T| #[trigger]
        converted(convert, view, index_at(p, domain.min), v) && same_cell(
            Some(v),
            out.components@[i].at(p),
        );
    lemma_view_box(plot, l, k, ids[i], file_of, view, index);
    law_value_place(view, index);
    assert(stored_sample(plot, l, k, ids[i], file_of, convert, index, view, v));
}

/// A view of a patch reaches over the box of the patch.
proof fn lemma_view_box<'v, S: Copy, E, V: Fn(usize, usize) -> Result<&'v [u8], E>>(
    plot: PlotFile<S>,
    l: int,
    k: int,
    component: usize,
    file_of: V,
    view: ComponentView<'v>,
    index: IVec3,
)
    requires
        reads(plot, l, k, component, file_of, view),
        index_in(plot.cells(l)->0.fabs[k].domain, index),
    ensures
        view.wf(),
        ({
            let (_, lower, upper) = view.header();
            lower.x <= index.x <= upper.x && lower.y <= index.y <= upper.y && lower.z <= index.z
                <= upper.z
        }),
{
    let file = choose|file: &'v [u8]| #[trigger]
        call_ensures(file_of, (l as usize, k as usize), Ok::<&'v [u8], E>(file)) && view.wf() && (
        stored_component(plot, l, k, file@, component) matches Ok((h, data)) && view.header() == (
            h.encoding,
            h.lower,
            h.upper,
        ) && view.data() == data && view.number() == component);
    let (h, _) = stored_component(plot, l, k, file@, component)->Ok_0;
}

/// A cell of a loaded level whose index is in no patch holds nothing.
pub proof fn law_unloaded_cell<
    'v,
    S: Copy,
    T: Copy + PartialEq,
    E,
    V: Fn(usize, usize) -> Result<&'v [u8], E>,
    F: Fn(RawScalar) -> T,
>(
    plot: PlotFile<S>,
    l: int,
    physical_origin: Vec3<S>,
    ids: Seq<usize>,
    file_of: V,
    convert: F,
    out: SparseAmrLevel<Vec3<S>, T>,
    i: int,
    index: IVec3,
)
    requires
        level_loaded(plot, l, physical_origin, ids, file_of, convert, out),
        0 <= i < ids.len(),
        index_in(plot.head().index_domains[l], index),
        forall|j: int|
            0 <= j < plot.head().records[l].patches ==> !index_in(
                (#[trigger] plot.cells(l)->0.fabs[j]).domain,
                index,
            ),
    ensures
        out.components@[i].at(cell_of_index(plot.head().index_domains[l], index)) is None,
{
    let domain = level_domain(plot, l);
    let n = patch_total(plot, l);
    let p = cell_of_index(domain, index);
    let regions = out.valid_regions@;
    let limits = extent_of(domain)->Ok_0;
    assert forall|j: int| 0 <= j < n implies !(#[trigger] regions[j]).has(p) by {
        assert(region_of(plot, l, regions[j], j));
        assert(!index_in(plot.cells(l)->0.fabs[j].domain, index));
    }
    lemma_no_cover(regions, p, n);
    let views = choose|views: Seq<Seq<ComponentView<'v>>>| #[trigger]
        reads_patches(plot, l, ids, file_of, views, n as int)
            && cells_loaded(
            out.components@,
            regions,
            views,
            domain.min,
            limits,
            convert,
            n,
        );
    assert(inside(p, limits));
    assert(cell_loaded(out.components@[i], p, regions, views, i, domain.min, convert, n));
}

/// The regions of a loaded level are the boxes of its patches, counted from the lowest index of
/// the domain, with exclusive upper corners; every box lies in the domain and has its index
/// type.
pub proof fn law_loaded_regions<
    'v,
    S: Copy,
    T: Copy + PartialEq,
    E,
    V: Fn(usize, usize) -> Result<&'v [u8], E>,
    F: Fn(RawScalar) -> T,
>(
    plot: PlotFile<S>,
    l: int,
    physical_origin: Vec3<S>,
    ids: Seq<usize>,
    file_of: V,
    convert: F,
    out: SparseAmrLevel<Vec3<S>, T>,
    k: int,
)
    requires
        level_loaded(plot, l, physical_origin, ids, file_of, convert, out),
        0 <= k < plot.head().records[l].patches,
    ensures
        ({
            let domain = plot.head().index_domains[l];
            let b = plot.cells(l)->0.fabs[k].domain;
            let r = out.valid_regions@[k];
            &&& out.valid_regions@.len() == plot.head().records[l].patches
            &&& b.index_type == domain.index_type
            &&& domain.min.x <= b.min.x && b.max.x <= domain.max.x
            &&& domain.min.y <= b.min.y && b.max.y <= domain.max.y
            &&& domain.min.z <= b.min.z && b.max.z <= domain.max.z
            &&& r.min.x == b.min.x - domain.min.x && r.max.x == b.max.x - domain.min.x + 1
            &&& r.min.y == b.min.y - domain.min.y && r.max.y == b.max.y - domain.min.y + 1
            &&& r.min.z == b.min.z - domain.min.z && r.max.z == b.max.z - domain.min.z + 1
        }),
{
    assert(region_of(plot, l, out.valid_regions@[k], k));
}

/// The grids of a loaded level are as large as its index domain.
pub proof fn law_loaded_extent(domain: IndexDomain)
    ensures
        match extent_of(domain) {
            Ok(e) => e.x == domain.max.x - domain.min.x + 1 && e.y == domain.max.y - domain.min.y
                + 1 && e.z == domain.max.z - domain.min.z + 1,
            Err(_) => domain.max.x < domain.min.x || domain.max.y < domain.min.y || domain.max.z
                < domain.min.z || domain.max.x - domain.min.x >= 0xffff_ffff || domain.max.y
                - domain.min.y >= 0xffff_ffff || domain.max.z - domain.min.z >= 0xffff_ffff,
        },
{
}

} // verus!
