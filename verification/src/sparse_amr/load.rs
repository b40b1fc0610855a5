//! Loading the levels of a plotfile into sparse grids.

use vstd::prelude::*;
use vstd::slice::slice_to_vec;

use crate::data_reader::{component_view, ComponentView, FabError, FabHeader, RawScalar};
use crate::data_reader::{component_of, patch_component_of};
use crate::native_file::{IndexDomain, Level, Patch, PlotFile};
use crate::sparse_amr::{
    check_component_ids, converted, covers, extent_of, index_at, index_count,
    load_patch_component, loaded, local_aabb, localized, upper_fits, within, AmrError, SparseAmr,
        SparseAmrLevel,
};
use crate::utility::sparse_grid3::aabb::Aabb3u;
use crate::utility::sparse_grid3::grid::{inside, SparseGrid3};
use crate::utility::sparse_grid3::value::{lawful, lemma_same_cell_transitive, same_cell};
use crate::vec3::{IVec3, UVec3, Vec3};

verus! {

/// Why a level could not be loaded.
#[derive(Debug)]
pub enum LoadError<E> {
    /// The level's cell header is not loaded.
    NoCellHeader,
    /// The data file of a patch could not be had.
    File(E),
    /// A patch component could not be read.
    Fab(FabError),
    /// A patch does not fit its level.
    Amr(AmrError),
}

/// One component of patch `k` of a level, in the contents of its data file.
pub open spec fn stored_component<S: Copy>(
    plot: PlotFile<S>,
    l: int,
    k: int,
    file: Seq<u8>,
    component: usize,
) -> Result<(FabHeader, Seq<u8>), FabError> {
    let cells = plot.cells(l)->0;
    if component >= plot.head().names.len() {
        Err(FabError::ComponentOutOfRange)
    } else {
        component_of(
            file,
            cells.fabs[k].file_offset,
            plot.head().names.len(),
            cells.ghost_cell_width,
            cells.fabs[k].domain,
            component,
        )
    }
}

/// The box of patch `k` of a level.
pub open spec fn patch_box<S: Copy>(plot: PlotFile<S>, l: int, k: int) -> IndexDomain {
    (plot.cells(l)->0).fabs[k].domain
}

/// Number of patches of a level.
pub open spec fn patch_total<S: Copy>(plot: PlotFile<S>, l: int) -> nat {
    plot.head().records[l].patches as nat
}

/// The index domain of a level.
pub open spec fn level_domain<S: Copy>(plot: PlotFile<S>, l: int) -> IndexDomain {
    plot.head().index_domains[l]
}

/// Why a patch box does not fit its level.
pub open spec fn box_refusal(domain: IndexDomain, b: IndexDomain) -> Option<AmrError> {
    if b.index_type != domain.index_type {
        Some(AmrError::IndexTypeMismatch)
    } else if !within(b, domain) {
        Some(AmrError::OutsideDomain)
    } else if !upper_fits(b, domain.min) {
        Some(AmrError::ExtentTooLarge)
    } else {
        None
    }
}

/// `view` is a component of patch `k`, in contents that `file_of` may give for the patch.
pub open spec fn reads<'v, S: Copy, E, V: Fn(usize, usize) -> Result<&'v [u8], E>>(
    plot: PlotFile<S>,
    l: int,
    k: int,
    component: usize,
    file_of: V,
    view: ComponentView<'v>,
) -> bool {
    exists|file: &'v [u8]| #[trigger]
        call_ensures(file_of, (l as usize, k as usize), Ok::<&'v [u8], E>(file)) && view.wf() && (
        stored_component(plot, l, k, file@, component) matches Ok((h, data)) && view.header() == (
            h.encoding,
            h.lower,
            h.upper,
        ) && view.data() == data && view.number() == component)
}

/// `views` are the wanted components of patch `k`.
pub open spec fn reads_all<'v, S: Copy, E, V: Fn(usize, usize) -> Result<&'v [u8], E>>(
    plot: PlotFile<S>,
    l: int,
    k: int,
    component_ids: Seq<usize>,
    file_of: V,
    views: Seq<ComponentView<'v>>,
) -> bool {
    &&& views.len() == component_ids.len()
    &&& forall|i: int|
        0 <= i < views.len() ==> reads(plot, l, k, component_ids[i], file_of, #[trigger] views[i])
}

/// A component of patch `k` can be read, and has a value for each index of the patch.
pub open spec fn component_loads<'v, S: Copy, E, V: Fn(usize, usize) -> Result<&'v [u8], E>>(
    plot: PlotFile<S>,
    l: int,
    k: int,
    component: usize,
    file_of: V,
) -> bool {
    &&& index_count(patch_box(plot, l, k)) <= usize::MAX
    &&& exists|view: ComponentView<'v>| #[trigger]
        reads(plot, l, k, component, file_of, view) && covers(view, patch_box(plot, l, k))
}

/// `e` is the reason not to load a component of patch `k`, which fits its level.
pub open spec fn component_failure<'v, S: Copy, E, V: Fn(usize, usize) -> Result<&'v [u8], E>>(
    plot: PlotFile<S>,
    l: int,
    k: int,
    component: usize,
    file_of: V,
    e: LoadError<E>,
) -> bool {
    match e {
        LoadError::NoCellHeader => false,
        LoadError::File(f) => call_ensures(
            file_of,
            (l as usize, k as usize),
            Err::<&'v [u8], E>(f),
        ),
        LoadError::Fab(f) => exists|file: &'v [u8]| #[trigger]
            call_ensures(file_of, (l as usize, k as usize), Ok::<&'v [u8], E>(file))
                && stored_component(plot, l, k, file@, component) == Err::<
                (FabHeader, Seq<u8>),
                FabError,
            >(f),
        LoadError::Amr(f) => exists|view: ComponentView<'v>| #[trigger]
            reads(plot, l, k, component, file_of, view) && if index_count(patch_box(plot, l, k))
                > usize::MAX {
                f == AmrError::ExtentTooLarge
            } else {
                f == AmrError::MissingIndex && !covers(view, patch_box(plot, l, k))
            },
    }
}

/// Patch `k` fits its level, and the first `n` wanted components of it load.
pub open spec fn patch_loads<'v, S: Copy, E, V: Fn(usize, usize) -> Result<&'v [u8], E>>(
    plot: PlotFile<S>,
    l: int,
    k: int,
    component_ids: Seq<usize>,
    file_of: V,
    n: int,
) -> bool {
    &&& box_refusal(level_domain(plot, l), patch_box(plot, l, k)) is None
    &&& forall|i: int|
        0 <= i < n ==> component_loads(plot, l, k, #[trigger] component_ids[i], file_of)
}

/// `e` is the first reason not to load patch `k`: its box does not fit, or a wanted component
/// fails after all wanted components before it have loaded.
pub open spec fn patch_failure<'v, S: Copy, E, V: Fn(usize, usize) -> Result<&'v [u8], E>>(
    plot: PlotFile<S>,
    l: int,
    k: int,
    component_ids: Seq<usize>,
    file_of: V,
    e: LoadError<E>,
) -> bool {
    match box_refusal(level_domain(plot, l), patch_box(plot, l, k)) {
        Some(f) => e == LoadError::<E>::Amr(f),
        None => exists|i: int|
            0 <= i < component_ids.len() && #[trigger] patch_loads(
                plot,
                l,
                k,
                component_ids,
                file_of,
                i,
            ) && component_failure(plot, l, k, component_ids[i], file_of, e),
    }
}

/// The wanted components of the first `n` patches of a level load.
pub open spec fn patches_load<'v, S: Copy, E, V: Fn(usize, usize) -> Result<&'v [u8], E>>(
    plot: PlotFile<S>,
    l: int,
    component_ids: Seq<usize>,
    file_of: V,
    n: int,
) -> bool {
    forall|k: int|
        0 <= k < n ==> #[trigger] patch_loads(
            plot,
            l,
            k,
            component_ids,
            file_of,
            component_ids.len() as int,
        )
}

/// The wanted components of a level load.
pub open spec fn level_loads<'v, S: Copy, E, V: Fn(usize, usize) -> Result<&'v [u8], E>>(
    plot: PlotFile<S>,
    l: int,
    component_ids: Seq<usize>,
    file_of: V,
) -> bool {
    &&& extent_of(level_domain(plot, l)) is Ok
    &&& plot.cells(l) is Some
    &&& patches_load(plot, l, component_ids, file_of, patch_total(plot, l) as int)
}

/// Apart from cells and regions, two levels are the same.
pub open spec fn same_frame<D, T: Copy + PartialEq>(
    a: SparseAmrLevel<D, T>,
    b: SparseAmrLevel<D, T>,
) -> bool {
    &&& a.level_index == b.level_index
    &&& a.index_origin == b.index_origin
    &&& a.index_type == b.index_type
    &&& a.physical_origin == b.physical_origin
    &&& a.cell_size == b.cell_size
    &&& a.components@.len() == b.components@.len()
}

/// The cells of `local` are those of the views; the others are as before.
pub open spec fn patched<T: Copy + PartialEq, F: Fn(RawScalar) -> T>(
    before: Seq<SparseGrid3<T>>,
    after: Seq<SparseGrid3<T>>,
    views: Seq<ComponentView<'_>>,
    local: Aabb3u,
    origin: IVec3,
    limits: UVec3,
    convert: F,
    n: int,
) -> bool {
    &&& forall|i: int, p: UVec3|
        0 <= i < n && local.has(p) && inside(p, limits) ==> #[trigger] loaded(
            after[i],
            p,
            views[i],
            origin,
            convert,
        )
    &&& forall|i: int, p: UVec3|
        0 <= i < n && !local.has(p) ==> same_cell(before[i].at(p), #[trigger] after[i].at(p))
}

/// Reads component `component` of a patch from its data file.
fn read_component<'v, S: Copy, E, V: Fn(usize, usize) -> Result<&'v [u8], E>>(
    level: Level<'_, S>,
    patch: Patch<'_, S>,
    component: usize,
    file_of: &V,
) -> (r: Result<ComponentView<'v>, LoadError<E>>)
    requires
        patch.wf(),
        patch.file() == level.file(),
        patch.level() == level.number(),
        forall|l: usize, k: usize| #[trigger] call_requires(*file_of, (l, k)),
    ensures
        match r {
            Ok(view) => reads(level.file(), level.number(), patch.number(), component, *file_of, view),
            Err(LoadError::File(e)) => call_ensures(
                *file_of,
                (level.number() as usize, patch.number() as usize),
                Err::<&'v [u8], E>(e),
            ),
            Err(LoadError::Fab(e)) => exists|file: &'v [u8]| #[trigger]
                call_ensures(
                    *file_of,
                    (level.number() as usize, patch.number() as usize),
                    Ok::<&'v [u8], E>(file),
                ) && stored_component(level.file(), level.number(), patch.number(), file@,
                    component) == Err::<
                    (FabHeader, Seq<u8>),
                    FabError,
                >(e),
            Err(_) => false,
        },
{
    let file = match file_of(level.index(), patch.index()) {
        Ok(file) => file,
        Err(e) => return Err(LoadError::File(e)),
    };
    proof {
        let (l, k) = (level.number() as usize, patch.number() as usize);
        assert(call_ensures(*file_of, (l, k), Ok::<&'v [u8], E>(file)));
        assert(patch_component_of(file@, patch, component) == stored_component(
            level.file(),
            level.number(),
            patch.number(),
            file@,
            component,
        ));
    }
    match component_view(file, patch, component) {
        Ok(view) => Ok(view),
        Err(e) => Err(LoadError::Fab(e)),
    }
}

/// Loads the wanted components of one patch.
fn load_patch<
    'v,
    S: Copy,
    D: Copy,
    T: Copy + PartialEq,
    E,
    V: Fn(usize, usize) -> Result<&'v [u8], E>,
    F: Fn(RawScalar) -> T,
>(
    out: &mut SparseAmrLevel<D, T>,
    level: Level<'_, S>,
    patch: Patch<'_, S>,
    component_ids: &[usize],
    file_of: &V,
    convert: &F,
) -> (r: Result<Aabb3u, LoadError<E>>)
    requires
        level.wf(),
        patch.wf(),
        patch.file() == level.file(),
        patch.level() == level.number(),
        extent_of(level_domain(level.file(), level.number())) is Ok,
        old(out).wf(extent_of(level_domain(level.file(), level.number()))->Ok_0),
        old(out).components@.len() == component_ids@.len(),
        lawful::<T>(),
        forall|l: usize, k: usize| #[trigger] call_requires(*file_of, (l, k)),
        forall|raw: RawScalar| #[trigger] call_requires(*convert, (raw,)),
    ensures
        final(out).wf(extent_of(level_domain(level.file(), level.number()))->Ok_0),
        same_frame(*final(out), *old(out)),
        match r {
            Ok(local) => {
                &&& region_of(level.file(), level.number(), local, patch.number())
                &&& patch_loads(level.file(), level.number(), patch.number(), component_ids@,
                    *file_of, component_ids@.len() as int)
                &&& final(out).valid_regions@ == old(out).valid_regions@.push(local)
                &&& exists|views: Seq<ComponentView<'v>>| #[trigger]
                    reads_all(level.file(), level.number(), patch.number(), component_ids@,
                        *file_of, views) && patched(
                        old(out).components@,
                        final(out).components@,
                        views,
                        local,
                        level_domain(level.file(), level.number()).min,
                        extent_of(level_domain(level.file(), level.number()))->Ok_0,
                        *convert,
                        component_ids@.len() as int,
                    )
            },
            Err(e) => patch_failure(level.file(), level.number(), patch.number(), component_ids@,
                *file_of, e),
        },
{
    let domain = level.index_domain();
    let area = patch.index_box();
    if area.index_type != domain.index_type {
        return Err(LoadError::Amr(AmrError::IndexTypeMismatch));
    }
    let local = match local_aabb(&area, &domain) {
        Ok(local) => local,
        Err(e) => return Err(LoadError::Amr(e)),
    };
    let ghost limits = extent_of(domain)->Ok_0;
    let ghost mut views: Seq<ComponentView<'v>> = Seq::empty();
    assert(local.volume() == index_count(area));
    let mut i: usize = 0;
    while i < component_ids.len()
        invariant
            i <= component_ids@.len(),
            views.len() == i,
            patch_loads(level.file(), level.number(), patch.number(), component_ids@, *file_of,
                i as int),
            domain == level_domain(level.file(), level.number()),
            area == patch_box(level.file(), level.number(), patch.number()),
            limits == extent_of(domain)->Ok_0,
            box_refusal(domain, area) is None,
            localized(local, area, domain.min),
            local.volume() == index_count(area),
            patch.wf(),
            patch.file() == level.file(),
            patch.level() == level.number(),
            out.wf(limits),
            same_frame(*out, *old(out)),
            out.components@.len() == component_ids@.len(),
            out.valid_regions@ == old(out).valid_regions@,
            lawful::<T>(),
            forall|l: usize, k: usize| #[trigger] call_requires(*file_of, (l, k)),
            forall|raw: RawScalar| #[trigger] call_requires(*convert, (raw,)),
            forall|j: int|
                0 <= j < i ==> reads(
                    level.file(),
                    level.number(),
                    patch.number(),
                    component_ids@[j],
                    *file_of,
                    #[trigger] views[j],
                ),
            patched(
                old(out).components@,
                out.components@,
                views,
                local,
                domain.min,
                limits,
                *convert,
                i as int,
            ),
            forall|j: int|
                i <= j < component_ids@.len() ==> #[trigger] out.components@[j] == old(
                    out).components@[j],
        decreases component_ids@.len() - i,
    {
        let view = match read_component(level, patch, component_ids[i], file_of) {
            Ok(view) => view,
            Err(e) => {
                assert(component_failure(level.file(), level.number(), patch.number(),
                    component_ids@[i as int], *file_of, e));
                return Err(e);
            },
        };
        let ghost before = out.components@;
        assert(out.components@[i as int].wf());
        let outcome = load_patch_component(
            &view,
            area,
            local,
            domain.min,
            &mut out.components[i],
            convert,
        );
        proof {
            assert forall|j: int| 0 <= j < out.components@.len() implies (
            #[trigger] out.components@[j]).wf() && out.components@[j].tidy()
                && out.components@[j].limits() == limits by {
                if j != i {
                    assert(out.components@[j] == before[j]);
                } else {
                    assert(before[i as int].tidy() && before[i as int].limits() == limits);
                }
            }
        }
        match outcome {
            Ok(()) => {},
            Err(e) => {
                proof {
                    assert(reads(
                        level.file(),
                        level.number(),
                        patch.number(),
                        component_ids@[i as int],
                        *file_of,
                        view,
                    ));
                }
                return Err(LoadError::Amr(e));
            },
        }
        proof {
            assert(reads(
                level.file(),
                level.number(),
                patch.number(),
                component_ids@[i as int],
                *file_of,
                view,
            ) && covers(view, area));
            let now = views.push(view);
            assert forall|j: int| 0 <= j < now.len() implies reads(
                level.file(),
                level.number(),
                patch.number(),
                component_ids@[j],
                *file_of,
                #[trigger] now[j],
            ) by {
                if j < i {
                    assert(now[j] == views[j]);
                }
            }
            assert forall|j: int, p: UVec3|
                0 <= j < i + 1 && local.has(p) && inside(p, limits) implies #[trigger] loaded(
                out.components@[j],
                p,
                now[j],
                domain.min,
                *convert,
            ) by {
                if j < i {
                    assert(out.components@[j] == before[j]);
                    assert(now[j] == views[j]);
                    assert(loaded(before[j], p, views[j], domain.min, *convert));
                }
            }
            assert forall|j: int, p: UVec3| 0 <= j < i + 1 && !local.has(p) implies same_cell(
                old(out).components@[j].at(p),
                #[trigger] out.components@[j].at(p),
            ) by {
                if j < i {
                    assert(out.components@[j] == before[j]);
                    assert(same_cell(old(out).components@[j].at(p), before[j].at(p)));
                }
            }
            views = now;
        }
        i += 1;
    }
    out.valid_regions.push(local);
    assert(reads_all(level.file(), level.number(), patch.number(), component_ids@, *file_of, views));
    Ok(local)
}

/// The last of the first `n` regions that has the point.
pub open spec fn last_cover(regions: Seq<Aabb3u>, p: UVec3, n: nat) -> Option<int>
    decreases n,
{
    if n == 0 {
        None
    } else if regions[n - 1].has(p) {
        Some(n - 1)
    } else {
        last_cover(regions, p, (n - 1) as nat)
    }
}

/// A cell of a component holds the value of the last patch that has it, or nothing.
pub open spec fn cell_loaded<T: Copy + PartialEq, F: Fn(RawScalar) -> T>(
    grid: SparseGrid3<T>,
    p: UVec3,
    regions: Seq<Aabb3u>,
    views: Seq<Seq<ComponentView<'_>>>,
    i: int,
    origin: IVec3,
    convert: F,
    n: nat,
) -> bool {
    match last_cover(regions, p, n) {
        None => grid.at(p) is None,
        Some(k) => loaded(grid, p, views[k][i], origin, convert),
    }
}

/// The views that the first `n` patches are loaded from.
pub open spec fn reads_patches<'v, S: Copy, E, V: Fn(usize, usize) -> Result<&'v [u8], E>>(
    plot: PlotFile<S>,
    l: int,
    component_ids: Seq<usize>,
    file_of: V,
    views: Seq<Seq<ComponentView<'v>>>,
    n: int,
) -> bool {
    &&& views.len() == n
    &&& forall|k: int|
        0 <= k < n ==> reads_all(plot, l, k, component_ids, file_of, #[trigger] views[k])
}

/// Every cell of every component holds the value of the last of the first `n` patches that has
/// it.
pub open spec fn cells_loaded<T: Copy + PartialEq, F: Fn(RawScalar) -> T>(
    components: Seq<SparseGrid3<T>>,
    regions: Seq<Aabb3u>,
    views: Seq<Seq<ComponentView<'_>>>,
    origin: IVec3,
    limits: UVec3,
    convert: F,
    n: nat,
) -> bool {
    forall|i: int, p: UVec3|
        0 <= i < components.len() && inside(p, limits) ==> #[trigger] cell_loaded(
            components[i],
            p,
            regions,
            views,
            i,
            origin,
            convert,
            n,
        )
}

/// `region` is the local box of patch `k`, which fits.
pub open spec fn region_of<S: Copy>(plot: PlotFile<S>, l: int, region: Aabb3u, k: int) -> bool {
    &&& box_refusal(level_domain(plot, l), patch_box(plot, l, k)) is None
    &&& localized(region, patch_box(plot, l, k), level_domain(plot, l).min)
}

/// The first `n` regions are the local boxes of the patches, which fit.
pub open spec fn regions_of<S: Copy>(plot: PlotFile<S>, l: int, regions: Seq<Aabb3u>, n: int) -> bool {
    &&& regions.len() == n
    &&& forall|k: int|
        0 <= k < n ==> region_of(plot, l, #[trigger] regions[k], k)
}

/// `out` is the level with the wanted components of all patches loaded.
pub open spec fn level_loaded<
    'v,
    S: Copy,
    T: Copy + PartialEq,
    E,
    V: Fn(usize, usize) -> Result<&'v [u8], E>,
    F: Fn(RawScalar) -> T,
>(
    plot: PlotFile<S>,
    l: int,
    physical_origin: Vec3<S>,
    component_ids: Seq<usize>,
    file_of: V,
    convert: F,
    out: SparseAmrLevel<Vec3<S>, T>,
) -> bool {
    &&& level_loads(plot, l, component_ids, file_of)
    &&& out.wf(extent_of(level_domain(plot, l))->Ok_0)
    &&& out.level_index == l
    &&& out.index_origin == level_domain(plot, l).min
    &&& out.index_type == level_domain(plot, l).index_type
    &&& out.physical_origin == physical_origin
    &&& out.cell_size == plot.head().cell_sizes[l]
    &&& out.components@.len() == component_ids.len()
    &&& regions_of(plot, l, out.valid_regions@, patch_total(plot, l) as int)
    &&& exists|views: Seq<Seq<ComponentView<'v>>>| #[trigger]
        reads_patches(
            plot, l,
            component_ids,
            file_of,
            views,
            patch_total(plot, l) as int,
        ) && cells_loaded(
            out.components@,
            out.valid_regions@,
            views,
            level_domain(plot, l).min,
            extent_of(level_domain(plot, l))->Ok_0,
            convert,
            patch_total(plot, l),
        )
}

/// `e` is the first reason not to load a level, in the order of its patches.
pub open spec fn level_failure<'v, S: Copy, E, V: Fn(usize, usize) -> Result<&'v [u8], E>>(
    plot: PlotFile<S>,
    l: int,
    component_ids: Seq<usize>,
    file_of: V,
    e: LoadError<E>,
) -> bool {
    if extent_of(level_domain(plot, l)) is Err {
        e == LoadError::<E>::Amr(extent_of(level_domain(plot, l))->Err_0)
    } else if plot.cells(l) is None {
        e == LoadError::<E>::NoCellHeader
    } else {
        exists|k: int|
            0 <= k < patch_total(plot, l) && #[trigger] patch_failure(
                plot, l,
                k,
                component_ids,
                file_of,
                e,
            ) && patches_load(plot, l, component_ids, file_of, k)
    }
}

/// A patch keeps the cells of the other patches, and adds its own.
proof fn lemma_patched<T: Copy + PartialEq, F: Fn(RawScalar) -> T>(
    before: Seq<SparseGrid3<T>>,
    after: Seq<SparseGrid3<T>>,
    regions: Seq<Aabb3u>,
    views: Seq<Seq<ComponentView<'_>>>,
    local: Aabb3u,
    new: Seq<ComponentView<'_>>,
    origin: IVec3,
    limits: UVec3,
    convert: F,
)
    requires
        lawful::<T>(),
        before.len() == after.len(),
        regions.len() == views.len(),
        cells_loaded(before, regions, views, origin, limits, convert, regions.len()),
        patched(before, after, new, local, origin, limits, convert, before.len() as int),
    ensures
        cells_loaded(
            after,
            regions.push(local),
            views.push(new),
            origin,
            limits,
            convert,
            regions.len() + 1,
        ),
{
    let n = regions.len();
    assert forall|i: int, p: UVec3| 0 <= i < after.len() && inside(
        p,
        limits,
    ) implies #[trigger] cell_loaded(
        after[i],
        p,
        regions.push(local),
        views.push(new),
        i,
        origin,
        convert,
        n + 1,
    ) by {
        lemma_cover_prefix(regions, local, p, n);
        assert(cell_loaded(before[i], p, regions, views, i, origin, convert, n));
        if local.has(p) {
            assert(loaded(after[i], p, new[i], origin, convert));
            assert(views.push(new)[n as int] == new);
        } else {
            assert(same_cell(before[i].at(p), after[i].at(p)));
            match last_cover(regions, p, n) {
                None => {},
                Some(k) => {
                    lemma_cover_range(regions, p, n);
                    assert(views.push(new)[k] == views[k]);
                    lemma_loaded_kept(before[i], after[i], p, views[k][i], origin, convert);
                },
            }
        }
    }
}

/// Only the first `n` regions matter for the last cover among them.
proof fn lemma_cover_prefix(regions: Seq<Aabb3u>, more: Aabb3u, p: UVec3, n: nat)
    requires
        n <= regions.len(),
    ensures
        last_cover(regions.push(more), p, n) == last_cover(regions, p, n),
    decreases n,
{
    if n > 0 {
        lemma_cover_prefix(regions, more, p, (n - 1) as nat);
    }
}

/// The last cover is one of the first `n` regions.
proof fn lemma_cover_range(regions: Seq<Aabb3u>, p: UVec3, n: nat)
    ensures
        last_cover(regions, p, n) matches Some(k) ==> 0 <= k < n && regions[k].has(p),
    decreases n,
{
    if n > 0 {
        lemma_cover_range(regions, p, (n - 1) as nat);
    }
}

/// A cell that compares equal still holds the value.
proof fn lemma_loaded_kept<T: Copy + PartialEq, F: Fn(RawScalar) -> T>(
    before: SparseGrid3<T>,
    after: SparseGrid3<T>,
    p: UVec3,
    view: ComponentView<'_>,
    origin: IVec3,
    convert: F,
)
    requires
        lawful::<T>(),
        loaded(before, p, view, origin, convert),
        same_cell(before.at(p), after.at(p)),
    ensures
        loaded(after, p, view, origin, convert),
{
    let v = choose|v: T| #[trigger]
        converted(convert, view, index_at(p, origin), v) && same_cell(Some(v), before.at(p));
    lemma_same_cell_transitive(Some(v), before.at(p), after.at(p));
    assert(converted(convert, view, index_at(p, origin), v));
}

/// Loads the wanted components of a level. `file_of` gives the contents of the data file of a
/// patch of a level, and `convert` makes samples of stored values.
pub fn load_level<
    'v,
    S: Copy,
    T: Copy + PartialEq,
    E,
    V: Fn(usize, usize) -> Result<&'v [u8], E>,
    F: Fn(RawScalar) -> T,
>(
    level: Level<'_, S>,
    physical_origin: Vec3<S>,
    component_ids: &[usize],
    file_of: &V,
    convert: &F,
) -> (r: Result<SparseAmrLevel<Vec3<S>, T>, LoadError<E>>)
    requires
        level.wf(),
        lawful::<T>(),
        forall|l: usize, k: usize| #[trigger] call_requires(*file_of, (l, k)),
        forall|raw: RawScalar| #[trigger] call_requires(*convert, (raw,)),
    ensures
        match r {
            Ok(out) => level_loaded(
                level.file(),
                level.number(),
                physical_origin,
                component_ids@,
                *file_of,
                *convert,
                out,
            ),
            Err(e) => level_failure(level.file(), level.number(), component_ids@, *file_of, e),
        },
{
    let domain = level.index_domain();
    let mut out: SparseAmrLevel<Vec3<S>, T> = match SparseAmrLevel::empty(
        level.index(),
        &domain,
        physical_origin,
        level.cell_size(),
        component_ids.len(),
        level.patch_count(),
    ) {
        Ok(out) => out,
        Err(e) => return Err(LoadError::Amr(e)),
    };
    let mut patches = match level.patches() {
        Some(patches) => patches,
        None => return Err(LoadError::NoCellHeader),
    };
    let count = level.patch_count();
    let ghost limits = extent_of(domain)->Ok_0;
    let ghost mut views: Seq<Seq<ComponentView<'v>>> = Seq::empty();
    let ghost blank = out;
    let mut k: usize = 0;
    while k < count
        invariant
            k <= count,
            count == patch_total(level.file(), level.number()),
            views.len() == k,
            patches_load(level.file(), level.number(), component_ids@, *file_of, k as int),
            level.wf(),
            level.file().cells(level.number()) is Some,
            domain == level_domain(level.file(), level.number()),
            extent_of(domain) is Ok,
            limits == extent_of(domain)->Ok_0,
            patches.wf(),
            patches.file() == level.file(),
            patches.number() == level.number(),
            patches.position() == k,
            out.wf(limits),
            same_frame(out, blank),
            out.components@.len() == component_ids@.len(),
            regions_of(level.file(), level.number(), out.valid_regions@, k as int),
            reads_patches(level.file(), level.number(), component_ids@, *file_of, views, k as int),
            cells_loaded(
                out.components@,
                out.valid_regions@,
                views,
                domain.min,
                limits,
                *convert,
                k as nat,
            ),
            lawful::<T>(),
            forall|l: usize, j: usize| #[trigger] call_requires(*file_of, (l, j)),
            forall|raw: RawScalar| #[trigger] call_requires(*convert, (raw,)),
        decreases count - k,
    {
        let patch = match patches.next() {
            Some(patch) => patch,
            None => return Err(LoadError::NoCellHeader),
        };
        let ghost before = out;
        let local = match load_patch(&mut out, level, patch, component_ids, file_of, convert) {
            Ok(local) => local,
            Err(e) => {
                assert(patch_failure(level.file(), level.number(), k as int, component_ids@,
                    *file_of, e));
                return Err(e);
            },
        };
        proof {
            let new = choose|new: Seq<ComponentView<'v>>| #[trigger]
                reads_all(level.file(), level.number(), k as int, component_ids@, *file_of, new)
                    && patched(
                    before.components@,
                    out.components@,
                    new,
                    local,
                    domain.min,
                    limits,
                    *convert,
                    component_ids@.len() as int,
                );
            lemma_patched(
                before.components@,
                out.components@,
                before.valid_regions@,
                views,
                local,
                new,
                domain.min,
                limits,
                *convert,
            );
            let now = views.push(new);
            assert forall|j: int| 0 <= j < k + 1 implies reads_all(
                level.file(),
                level.number(),
                j,
                component_ids@,
                *file_of,
                #[trigger] now[j],
            ) by {
                if j < k {
                    assert(now[j] == views[j]);
                }
            }
            assert forall|j: int| 0 <= j < k + 1 implies region_of(
                level.file(),
                level.number(),
                #[trigger] out.valid_regions@[j],
                j,
            ) by {
                if j < k {
                    assert(out.valid_regions@[j] == before.valid_regions@[j]);
                }
            }
            assert(out.valid_regions@.len() == k + 1);
            assert(regions_of(level.file(), level.number(), out.valid_regions@, k + 1));
            views = now;
        }
        k += 1;
    }
    Ok(out)
}

/// Why a plotfile could not be loaded.
#[derive(Debug)]
pub enum PlotLoadError<E> {
    /// A wanted component does not exist.
    ComponentOutOfRange,
    /// The level with this index could not be loaded.
    Level(usize, LoadError<E>),
}

/// All wanted components exist.
pub open spec fn components_exist<S: Copy>(plot: PlotFile<S>, component_ids: Seq<usize>) -> bool {
    forall|i: int|
        0 <= i < component_ids.len() ==> #[trigger] component_ids[i] < plot.head().names.len()
}

/// `out` has the wanted components of all levels.
pub open spec fn plot_loaded<
    'v,
    S: Copy,
    T: Copy + PartialEq,
    E,
    V: Fn(usize, usize) -> Result<&'v [u8], E>,
    F: Fn(RawScalar) -> T,
>(
    plot: PlotFile<S>,
    component_ids: Seq<usize>,
    file_of: V,
    convert: F,
    out: SparseAmr<Vec3<S>, T>,
) -> bool {
    &&& components_exist(plot, component_ids)
    &&& out.component_ids@ == component_ids
    &&& out.levels@.len() == plot.head().records.len()
    &&& forall|l: int|
        0 <= l < out.levels@.len() ==> level_loaded(
            plot,
            l,
            plot.head().domain.min,
            component_ids,
            file_of,
            convert,
            #[trigger] out.levels@[l],
        )
}

/// `e` is the first reason not to load a plotfile, in the order of its levels.
pub open spec fn plot_failure<'v, S: Copy, E, V: Fn(usize, usize) -> Result<&'v [u8], E>>(
    plot: PlotFile<S>,
    component_ids: Seq<usize>,
    file_of: V,
    e: PlotLoadError<E>,
) -> bool {
    match e {
        PlotLoadError::ComponentOutOfRange => !components_exist(plot, component_ids),
        PlotLoadError::Level(l, e) => components_exist(plot, component_ids) && l
            < plot.head().records.len() && level_failure(plot, l as int, component_ids, file_of, e)
            && forall|m: int|
            0 <= m < l ==> #[trigger] level_loads(plot, m, component_ids, file_of),
    }
}

impl<S: Copy, T: Copy + PartialEq> SparseAmr<Vec3<S>, T> {
    /// Loads the wanted components of a plotfile, coarse to fine. `file_of` gives the contents
    /// of the data file of a patch of a level, and `convert` makes samples of stored values.
    pub fn load<'v, E, V: Fn(usize, usize) -> Result<&'v [u8], E>, F: Fn(RawScalar) -> T>(
        plot_file: &PlotFile<S>,
        component_ids: &[usize],
        file_of: &V,
        convert: &F,
    ) -> (r: Result<Self, PlotLoadError<E>>)
        requires
            plot_file.wf(),
            lawful::<T>(),
            forall|l: usize, k: usize| #[trigger] call_requires(*file_of, (l, k)),
            forall|raw: RawScalar| #[trigger] call_requires(*convert, (raw,)),
        ensures
            match r {
                Ok(out) => plot_loaded(*plot_file, component_ids@, *file_of, *convert, out),
                Err(e) => plot_failure(*plot_file, component_ids@, *file_of, e),
            },
    {
        match check_component_ids(component_ids, plot_file.variables().len()) {
            Ok(()) => {},
            Err(_) => return Err(PlotLoadError::ComponentOutOfRange),
        }
        let origin = plot_file.header().domain.min;
        let mut source = plot_file.levels();
        let count = source.len();
        let mut levels: Vec<SparseAmrLevel<Vec3<S>, T>> = Vec::with_capacity(count);
        let mut l: usize = 0;
        while l < count
            invariant
                l <= count,
                count == plot_file.head().records.len(),
                components_exist(*plot_file, component_ids@),
                origin == plot_file.head().domain.min,
                source.wf(),
                source.file() == *plot_file,
                source.position() == l,
                lawful::<T>(),
                forall|l: usize, k: usize| #[trigger] call_requires(*file_of, (l, k)),
                forall|raw: RawScalar| #[trigger] call_requires(*convert, (raw,)),
                levels@.len() == l,
                forall|m: int|
                    0 <= m < l ==> level_loaded(
                        *plot_file,
                        m,
                        origin,
                        component_ids@,
                        *file_of,
                        *convert,
                        #[trigger] levels@[m],
                    ),
            decreases count - l,
        {
            let level = match source.next() {
                Some(level) => level,
                None => return Err(PlotLoadError::ComponentOutOfRange),
            };
            match load_level(level, origin, component_ids, file_of, convert) {
                Ok(loaded_level) => levels.push(loaded_level),
                Err(e) => {
                    assert forall|m: int| 0 <= m < l implies #[trigger] level_loads(
                        *plot_file,
                        m,
                        component_ids@,
                        *file_of,
                    ) by {
                        assert(level_loaded(
                            *plot_file,
                            m,
                            origin,
                            component_ids@,
                            *file_of,
                            *convert,
                            levels@[m],
                        ));
                    }
                    return Err(PlotLoadError::Level(l, e));
                },
            }
            l += 1;
        }
        Ok(SparseAmr { component_ids: slice_to_vec(component_ids), levels })
    }
}

} // verus!
