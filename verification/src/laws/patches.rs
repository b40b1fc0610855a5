//! Patches: which bytes a component is read from, and why a patch or a plot is not loaded.

use vstd::prelude::*;

use crate::compact::{cube_limits, first_out_of_range, level_refusal, selected_ids, CompactError};
use crate::data_reader::{
    component_of, newline, patch_component_of, ComponentView, FabError, FabHeader,
};
use crate::laws::records::{bytes_per_value, cells_in};
use crate::native_file::{ComponentBounds, IndexDomain, Patch, PlotFile};
use crate::sparse_amr::{extent_of, index_count, AmrError, SparseAmrLevel};
use crate::sparse_amr::load::{
    box_refusal, component_failure, patch_failure, patch_loads, patches_load, plot_failure, reads,
    stored_component, LoadError, PlotLoadError,
};
use crate::vec3::UVec3;

verus! {

/// A component of a patch is read at the offset that the cell header gives the patch, for the
/// patch's box grown by the level's ghost width; a component that the header does not name is
/// refused.
pub proof fn law_patch_component<S: Copy>(file: Seq<u8>, patch: Patch<'_, S>, component: usize)
    ensures
        ({
            let fab = patch.cell_header().fabs[patch.number()];
            let names = patch.file().head().names;
            &&& component < names.len() ==> patch_component_of(file, patch, component)
                == component_of(
                file,
                fab.file_offset,
                names.len(),
                patch.cell_header().ghost_cell_width,
                fab.domain,
                component,
            )
            &&& component >= names.len() ==> patch_component_of(file, patch, component) == Err::<
                (FabHeader, Seq<u8>),
                FabError,
            >(FabError::ComponentOutOfRange)
        }),
{
}

/// `file` holds a component at the place that the cell header gives patch `k` of level `l`.
pub open spec fn held_in<S: Copy>(
    plot: PlotFile<S>,
    l: int,
    k: int,
    component: usize,
    view: ComponentView<'_>,
    file: Seq<u8>,
) -> bool {
    let cells = plot.cells(l)->0;
    component_of(
        file,
        cells.fabs[k].file_offset,
        plot.head().names.len(),
        cells.ghost_cell_width,
        cells.fabs[k].domain,
        component,
    ) matches Ok((h, data)) && view.data() == data && view.header() == (
        h.encoding,
        h.lower,
        h.upper,
    )
}

/// What is read for a component of a patch lies in the contents that are given for that level
/// and patch.
pub proof fn law_read_component<'v, S: Copy, E, V: Fn(usize, usize) -> Result<&'v [u8], E>>(
    plot: PlotFile<S>,
    l: usize,
    k: usize,
    component: usize,
    file_of: V,
    view: ComponentView<'v>,
)
    requires
        reads(plot, l as int, k as int, component, file_of, view),
    ensures
        component < plot.head().names.len(),
        view.number() == component,
        exists|file: &'v [u8]| #[trigger]
            call_ensures(file_of, (l, k), Ok::<&'v [u8], E>(file)) && held_in(
                plot,
                l as int,
                k as int,
                component,
                view,
                file@,
            ),
{
    let file = choose|file: &'v [u8]| #[trigger]
        call_ensures(
            file_of,
            ((l as int) as usize, (k as int) as usize),
            Ok::<&'v [u8], E>(file),
        ) && view.wf() && (stored_component(
            plot,
            l as int,
            k as int,
            file@,
            component,
        ) matches Ok((h, data)) && view.header() == (h.encoding, h.lower, h.upper) && view.data()
            == data && view.number() == component);
    assert(held_in(plot, l as int, k as int, component, view, file@));
}

/// A record that does not start inside the file, has no header line within the first 4096
/// bytes, or ends behind the file is refused.
pub proof fn law_record_out_of_file(
    file: Seq<u8>,
    offset: u64,
    variable_count: nat,
    ghost_width: usize,
    domain: IndexDomain,
    component: usize,
)
    requires
        offset <= usize::MAX,
    ensures
        ({
            let r = component_of(file, offset, variable_count, ghost_width, domain, component);
            &&& offset >= file.len() ==> r == Err::<(FabHeader, Seq<u8>), FabError>(
                FabError::OffsetPastEnd,
            )
            &&& offset < file.len() && (forall|i: int|
                offset <= i < file.len() && i < offset + 4096 ==> #[trigger] file[i] != 10) ==> r
                == Err::<(FabHeader, Seq<u8>), FabError>(FabError::MissingHeaderLine)
            &&& r matches Ok((h, data)) ==> {
                &&& data.len() == cells_in(h.lower, h.upper) * bytes_per_value(h.encoding)
                &&& h.component_count == variable_count
                &&& h.lower.x == domain.min.x - ghost_width
                &&& h.lower.y == domain.min.y - ghost_width
                &&& h.lower.z == domain.min.z - ghost_width
                &&& h.upper.x == domain.max.x + ghost_width
                &&& h.upper.y == domain.max.y + ghost_width
                &&& h.upper.z == domain.max.z + ghost_width
                &&& h.index_type == domain.index_type
                &&& h.lower.x <= h.upper.x && h.lower.y <= h.upper.y && h.lower.z <= h.upper.z
            }
        }),
{
    let tail = file.skip(offset as int);
    if offset < file.len() {
        lemma_line_end(tail);
        let n = newline(tail) as int;
        if n < 4096 && n < tail.len() {
            assert(file[offset + n] == tail[n]);
        }
        let r = component_of(file, offset, variable_count, ghost_width, domain, component);
        if r is Ok {
            let h = r->Ok_0.0;
            let (x, y, z) = (
                h.upper.x - h.lower.x + 1,
                h.upper.y - h.lower.y + 1,
                h.upper.z - h.lower.z + 1,
            );
            let w = h.encoding.scalar.width() as int;
            let size = x * y * z * w;
            assert(x * y * z >= 0) by (nonlinear_arith)
                requires
                    x >= 0,
                    y >= 0,
                    z >= 0,
            ;
            assert(size >= 0) by (nonlinear_arith)
                requires
                    x * y * z >= 0,
                    w >= 0,
                    size == x * y * z * w,
            ;
            assert(component * size >= 0) by (nonlinear_arith)
                requires
                    component >= 0,
                    size >= 0,
            ;
        }
    }
}

proof fn lemma_line_end(s: Seq<u8>)
    ensures
        newline(s) <= s.len(),
        newline(s) < s.len() ==> s[newline(s) as int] == 10,
    decreases s.len(),
{
    if s.len() > 0 && s[0] != 10 {
        lemma_line_end(s.skip(1));
    }
}

/// A patch fits its level when it has the level's index type and lies in the level's domain; the
/// first condition that fails is reported.
pub proof fn law_patch_fits(domain: IndexDomain, b: IndexDomain)
    ensures
        ({
            let inside_domain = domain.min.x <= b.min.x && b.max.x <= domain.max.x && domain.min.y
                <= b.min.y && b.max.y <= domain.max.y && domain.min.z <= b.min.z && b.max.z
                <= domain.max.z;
            &&& box_refusal(domain, b) == Some(AmrError::IndexTypeMismatch) <==> b.index_type
                != domain.index_type
            &&& box_refusal(domain, b) == Some(AmrError::OutsideDomain) <==> b.index_type
                == domain.index_type && !inside_domain
            &&& b.index_type == domain.index_type && inside_domain && b.min.x <= b.max.x && b.min.y
                <= b.max.y && b.min.z <= b.max.z && domain.max.x - domain.min.x < u32::MAX
                && domain.max.y - domain.min.y < u32::MAX && domain.max.z - domain.min.z
                < u32::MAX ==> box_refusal(domain, b) is None
        }),
{
}

/// A domain is empty when it has no index along some axis, and too large when it has more than
/// fit 32 bits.
pub proof fn law_extent_refused(domain: IndexDomain)
    ensures
        extent_of(domain) == Err::<UVec3, AmrError>(AmrError::EmptyDomain) <==> domain.max.x
            < domain.min.x || domain.max.y < domain.min.y || domain.max.z < domain.min.z,
        extent_of(domain) == Err::<UVec3, AmrError>(AmrError::ExtentTooLarge) <==> domain.min.x
            <= domain.max.x && domain.min.y <= domain.max.y && domain.min.z <= domain.max.z && (
        domain.max.x - domain.min.x >= u32::MAX || domain.max.y - domain.min.y >= u32::MAX
            || domain.max.z - domain.min.z >= u32::MAX),
{
}

/// A box has the product of its lengths along the axes as number of indices, and none where a
/// length is not positive.
pub proof fn law_index_count(b: IndexDomain)
    ensures
        b.min.x <= b.max.x && b.min.y <= b.max.y && b.min.z <= b.max.z ==> index_count(b) == (
        b.max.x - b.min.x + 1) * (b.max.y - b.min.y + 1) * (b.max.z - b.min.z + 1),
        b.max.x < b.min.x || b.max.y < b.min.y || b.max.z < b.min.z ==> index_count(b) == 0,
{
    let (x, y, z) = (b.max.x - b.min.x + 1, b.max.y - b.min.y + 1, b.max.z - b.min.z + 1);
    let nx: int = if x > 0 {
        x
    } else {
        0
    };
    let ny: int = if y > 0 {
        y
    } else {
        0
    };
    let nz: int = if z > 0 {
        z
    } else {
        0
    };
    assert(nx == 0 || ny == 0 || nz == 0 ==> nx * ny * nz == 0) by (nonlinear_arith);
}

/// A plot is not loaded for one of these reasons: a wanted component does not exist; or, of the
/// first level that fails, the domain has no extent, the cell header is missing, or its first
/// patch that fails does not fit the level, has no file, or has a component that cannot be read.
pub proof fn law_plot_not_loaded<'v, S: Copy, E, V: Fn(usize, usize) -> Result<&'v [u8], E>>(
    plot: PlotFile<S>,
    ids: Seq<usize>,
    file_of: V,
    e: PlotLoadError<E>,
)
    requires
        plot_failure(plot, ids, file_of, e),
    ensures
        e == PlotLoadError::<E>::ComponentOutOfRange <==> exists|i: int|
            0 <= i < ids.len() && #[trigger] ids[i] >= plot.head().names.len(),
        e matches PlotLoadError::Level(l, LoadError::NoCellHeader) ==> plot.cells(l as int) is None,
        e matches PlotLoadError::Level(l, LoadError::File(f)) ==> exists|k: usize|
            k < plot.head().records[l as int].patches && #[trigger] call_ensures(
                file_of,
                (l, k),
                Err::<&'v [u8], E>(f),
            ),
        e matches PlotLoadError::Level(l, LoadError::Fab(f)) ==> exists|
            k: usize,
            i: int,
            file: &'v [u8],
        |
            #[trigger] refused_in(plot, l, k, ids, i, file, f) && #[trigger] call_ensures(
                file_of,
                (l, k),
                Ok::<&'v [u8], E>(file),
            ),
{
    match e {
        PlotLoadError::Level(l, f) => {
            if plot.cells(l as int) is Some && extent_of(plot.head().index_domains[l as int]) is Ok {
                let n = plot.head().records[l as int].patches as int;
                let k = choose|k: int|
                    0 <= k < n && #[trigger] patch_failure(plot, l as int, k, ids, file_of, f)
                        && patches_load(plot, l as int, ids, file_of, k);
                assert((k as usize) as int == k);
                if box_refusal(
                    plot.head().index_domains[l as int],
                    plot.cells(l as int)->0.fabs[k].domain,
                ) is None {
                    let i = choose|i: int|
                        0 <= i < ids.len() && #[trigger] patch_loads(
                            plot,
                            l as int,
                            k,
                            ids,
                            file_of,
                            i,
                        ) && component_failure(
                            plot,
                            l as int,
                            k,
                            ids[i],
                            file_of,
                            f,
                        );
                    match f {
                        LoadError::File(g) => {
                            assert(call_ensures(file_of, (l, k as usize), Err::<&'v [u8], E>(g)));
                        },
                        LoadError::Fab(g) => {
                            let file = choose|file: &'v [u8]| #[trigger]
                                call_ensures(
                                    file_of,
                                    ((l as int) as usize, k as usize),
                                    Ok::<&'v [u8], E>(file),
                                ) && stored_component(
                                    plot,
                                    l as int,
                                    k,
                                    file@,
                                    ids[i],
                                ) == Err::<(FabHeader, Seq<u8>), FabError>(g);
                            assert(ids[i] < plot.head().names.len());
                            assert(refused_in(plot, l, k as usize, ids, i, file, g));
                        },
                        _ => {},
                    }
                }
            }
        },
        _ => {},
    }
}

/// Reading wanted component `i` of patch `k` in `file` is refused.
pub open spec fn refused_in<S: Copy>(
    plot: PlotFile<S>,
    l: usize,
    k: usize,
    ids: Seq<usize>,
    i: int,
    file: &[u8],
    f: FabError,
) -> bool {
    let cells = plot.cells(l as int)->0;
    &&& k < plot.head().records[l as int].patches
    &&& 0 <= i < ids.len()
    &&& component_of(
        file@,
        cells.fabs[k as int].file_offset,
        plot.head().names.len(),
        cells.ghost_cell_width,
        cells.fabs[k as int].domain,
        ids[i],
    ) == Err::<(FabHeader, Seq<u8>), FabError>(f)
}

/// The bounds of a patch stand in a row of their own, in the order of the components.
pub proof fn law_bounds_entry<S: Copy>(
    bounds: ComponentBounds<S>,
    rows: Seq<Seq<S>>,
    list: Seq<S>,
    patch: usize,
    component: usize,
)
    requires
        rows.len() == bounds.patch_count,
        list.len() == bounds.component_count * bounds.patch_count,
        forall|i: int, j: int|
            0 <= i < bounds.patch_count && 0 <= j < bounds.component_count ==> list[(
            bounds.component_count * i) + j] == #[trigger] rows[i][j],
    ensures
        bounds.entry(list, patch, component) == if patch < bounds.patch_count && component
            < bounds.component_count {
            Some(rows[patch as int][component as int])
        } else {
            None
        },
{
    let (n, m) = (bounds.component_count as int, bounds.patch_count as int);
    assert(patch * n == n * patch) by (nonlinear_arith);
    assert(patch < m && component < n ==> n * patch + component < n * m) by (nonlinear_arith)
        requires
            0 <= patch,
            0 <= component,
            0 <= n,
    ;
    if patch < m && component < n {
        assert(rows[patch as int][component as int] == rows[patch as int][component as int]);
    }
}

/// Options without components select all of them; otherwise those that they name, in their
/// order, and the first id that names no variable is reported.
pub proof fn law_selected(ids: Seq<u32>, variable_count: usize)
    ensures
        ids.len() == 0 ==> (selected_ids(ids, variable_count) matches Ok(s) && s.len()
            == variable_count && forall|i: int| 0 <= i < s.len() ==> #[trigger] s[i] == i),
        ids.len() > 0 && (forall|i: int| 0 <= i < ids.len() ==> #[trigger] ids[i] < variable_count)
            ==> (selected_ids(ids, variable_count) matches Ok(s) && s.len() == ids.len() && forall|
            i: int,
        |
            0 <= i < s.len() ==> #[trigger] s[i] == ids[i]),
        forall|i: int|
            0 <= i < ids.len() && #[trigger] ids[i] >= variable_count && (forall|j: int|
                0 <= j < i ==> #[trigger] ids[j] < variable_count) ==> selected_ids(
                ids,
                variable_count,
            ) == Err::<Seq<usize>, CompactError>(
                CompactError::ComponentOutOfRange(ids[i] as usize),
            ),
{
    assert forall|i: int|
        0 <= i < ids.len() && #[trigger] ids[i] >= variable_count && (forall|j: int|
            0 <= j < i ==> #[trigger] ids[j] < variable_count) implies selected_ids(
        ids,
        variable_count,
    ) == Err::<Seq<usize>, CompactError>(CompactError::ComponentOutOfRange(ids[i] as usize)) by {
        assert(first_out_of_range(ids, variable_count, i));
        let m = choose|m: int|
            #![trigger ids[m]]
            first_out_of_range(ids, variable_count, m);
        assert(m == i) by {
            if m < i {
                assert(ids[m] < variable_count);
            }
            if i < m {
                assert(ids[i] < variable_count);
            }
        }
    }
}

/// A level becomes a compact one when it is cell-centered along every axis and has a component.
pub proof fn law_compaction_refused<D, T: Copy + PartialEq>(level: SparseAmrLevel<D, T>)
    ensures
        level_refusal(level) == Some(CompactError::NotCellCentered) <==> level.index_type.x != 0
            || level.index_type.y != 0 || level.index_type.z != 0,
        level_refusal(level) == Some(CompactError::NoComponents) <==> level.index_type.x == 0
            && level.index_type.y == 0 && level.index_type.z == 0 && level.components@.len() == 0,
        level_refusal(level) is None <==> level.index_type.x == 0 && level.index_type.y == 0
            && level.index_type.z == 0 && level.components@.len() > 0,
{
}

/// There is one cube less than samples along each axis.
pub proof fn law_cube_limits(limits: UVec3)
    ensures
        cube_limits(limits).x == if limits.x == 0 { 0int } else { limits.x - 1 },
        cube_limits(limits).y == if limits.y == 0 { 0int } else { limits.y - 1 },
        cube_limits(limits).z == if limits.z == 0 { 0int } else { limits.z - 1 },
{
}

} // verus!
