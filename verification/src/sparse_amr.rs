//! Sparse, cell-centered component data for an AMR hierarchy.

pub mod load;

use vstd::prelude::*;

use crate::data_reader::{decoded, span, ComponentView, RawScalar};
use crate::native_file::IndexDomain;
use crate::utility::sparse_grid3::aabb::Aabb3u;
use crate::utility::sparse_grid3::grid::{inside, slot, SparseGrid3};
use crate::utility::sparse_grid3::layout::{lemma_slice_number, slice_number};
use crate::utility::sparse_grid3::value::{lawful, same_cell};
use crate::vec3::{I64Vec3, IVec3, UVec3};

verus! {

/// Why AMR data was refused.
#[derive(Debug, Clone, Copy, PartialEq, Eq, Structural)]
pub enum AmrError {
    /// The component does not exist.
    ComponentOutOfRange,
    /// An index domain has no cells.
    EmptyDomain,
    /// An extent does not fit.
    ExtentTooLarge,
    /// A patch lies outside its level's domain.
    OutsideDomain,
    /// A patch and its level differ in index type.
    IndexTypeMismatch,
    /// A valid index has no stored value.
    MissingIndex,
}

/// Sparse data of one level. Component grids use coordinates local to `index_origin`.
pub struct SparseAmrLevel<D, T: Copy + PartialEq> {
    pub level_index: usize,
    pub index_origin: IVec3,
    pub index_type: IVec3,
    pub physical_origin: D,
    pub cell_size: D,
    pub components: Vec<SparseGrid3<T>>,
    pub valid_regions: Vec<Aabb3u>,
}

/// Sparse, cell-centered component data for an AMR hierarchy.
///
/// Levels are ordered from coarse to fine. Component grids at every level use
/// the same order as `component_ids` and coordinates local to `index_origin`.
pub struct SparseAmr<D, T: Copy + PartialEq> {
    pub component_ids: Vec<usize>,
    pub levels: Vec<SparseAmrLevel<D, T>>,
}

/// Number of indices of a domain along each axis.
pub fn index_extent(domain: &IndexDomain) -> (r: Result<UVec3, AmrError>)
    ensures
        r == extent_of(*domain),
{
    let x: i64 = domain.max.x as i64 - domain.min.x as i64 + 1;
    let y: i64 = domain.max.y as i64 - domain.min.y as i64 + 1;
    let z: i64 = domain.max.z as i64 - domain.min.z as i64 + 1;
    if x <= 0 || y <= 0 || z <= 0 {
        return Err(AmrError::EmptyDomain);
    }
    if x > u32::MAX as i64 || y > u32::MAX as i64 || z > u32::MAX as i64 {
        return Err(AmrError::ExtentTooLarge);
    }
    Ok(UVec3::new(x as u32, y as u32, z as u32))
}

/// `inner` lies inside `outer`.
pub open spec fn within(inner: IndexDomain, outer: IndexDomain) -> bool {
    &&& outer.min.x <= inner.min.x && inner.max.x <= outer.max.x
    &&& outer.min.y <= inner.min.y && inner.max.y <= outer.max.y
    &&& outer.min.z <= inner.min.z && inner.max.z <= outer.max.z
}

/// `b` is `index_box` in coordinates local to `origin`, with exclusive upper bounds.
pub open spec fn localized(b: Aabb3u, index_box: IndexDomain, origin: IVec3) -> bool {
    &&& b.min.x == index_box.min.x - origin.x
    &&& b.min.y == index_box.min.y - origin.y
    &&& b.min.z == index_box.min.z - origin.z
    &&& b.max.x == index_box.max.x - origin.x + 1
    &&& b.max.y == index_box.max.y - origin.y + 1
    &&& b.max.z == index_box.max.z - origin.z + 1
}

/// The upper bounds of `index_box`, made local and exclusive, are coordinates.
pub open spec fn upper_fits(index_box: IndexDomain, origin: IVec3) -> bool {
    &&& 0 <= index_box.max.x - origin.x + 1 <= u32::MAX
    &&& 0 <= index_box.max.y - origin.y + 1 <= u32::MAX
    &&& 0 <= index_box.max.z - origin.z + 1 <= u32::MAX
}

/// An index box in coordinates local to its level's domain.
pub fn local_aabb(index_box: &IndexDomain, domain: &IndexDomain) -> (r: Result<Aabb3u, AmrError>)
    ensures
        r matches Ok(b) ==> localized(b, *index_box, domain.min),
        r is Ok <==> within(*index_box, *domain) && upper_fits(*index_box, domain.min),
        r matches Err(e) ==> e == if within(*index_box, *domain) {
            AmrError::ExtentTooLarge
        } else {
            AmrError::OutsideDomain
        },
{
    let inside_domain = index_box.min.x >= domain.min.x && index_box.min.y >= domain.min.y
        && index_box.min.z >= domain.min.z && index_box.max.x <= domain.max.x && index_box.max.y
        <= domain.max.y && index_box.max.z <= domain.max.z;
    if !inside_domain {
        return Err(AmrError::OutsideDomain);
    }
    let min_x: i64 = index_box.min.x as i64 - domain.min.x as i64;
    let min_y: i64 = index_box.min.y as i64 - domain.min.y as i64;
    let min_z: i64 = index_box.min.z as i64 - domain.min.z as i64;
    let max_x: i64 = index_box.max.x as i64 - domain.min.x as i64 + 1;
    let max_y: i64 = index_box.max.y as i64 - domain.min.y as i64 + 1;
    let max_z: i64 = index_box.max.z as i64 - domain.min.z as i64 + 1;
    let limit: i64 = u32::MAX as i64;
    if max_x < 0 || max_y < 0 || max_z < 0 || max_x > limit || max_y > limit || max_z > limit {
        return Err(AmrError::ExtentTooLarge);
    }
    Ok(
        Aabb3u::new(
            UVec3::new(min_x as u32, min_y as u32, min_z as u32),
            UVec3::new(max_x as u32, max_y as u32, max_z as u32),
        ),
    )
}

/// `coarse * scale - fine`.
pub open spec fn axis_translation(coarse: i32, fine: i32, scale: u32) -> int {
    coarse * scale - fine
}

/// One axis of a translation always fits.
proof fn lemma_axis_translation(coarse: i32, fine: i32, scale: u32)
    ensures
        i64::MIN <= coarse * scale <= i64::MAX,
        i64::MIN <= axis_translation(coarse, fine, scale) <= i64::MAX,
{
    let (c, s) = (coarse as int, scale as int);
    assert(-0x8000_0000 * 0xffff_ffff <= c * s <= 0x7fff_ffff * 0xffff_ffff) by (nonlinear_arith)
        requires
            -0x8000_0000 <= c <= 0x7fff_ffff,
            0 <= s <= 0xffff_ffff,
    ;
}

/// The offset that takes coarse-local cells, scaled, to fine-local cells.
pub open spec fn translation_of(coarse_origin: IVec3, fine_origin: IVec3, scale: u32) -> I64Vec3 {
    I64Vec3 {
        x: axis_translation(coarse_origin.x, fine_origin.x, scale) as i64,
        y: axis_translation(coarse_origin.y, fine_origin.y, scale) as i64,
        z: axis_translation(coarse_origin.z, fine_origin.z, scale) as i64,
    }
}

fn axis(coarse: i32, fine: i32, scale: u32) -> (r: i64)
    ensures
        r == axis_translation(coarse, fine, scale),
{
    proof {
        lemma_axis_translation(coarse, fine, scale);
    }
    (coarse as i64) * (scale as i64) - fine as i64
}

/// The offset that takes coarse-local cells, scaled, to fine-local cells.
///
/// It always fits, so there is no error to return.
pub fn level_translation(coarse_origin: IVec3, fine_origin: IVec3, scale: u32) -> (r: Result<
    I64Vec3,
    AmrError,
>)
    ensures
        r == Ok::<I64Vec3, AmrError>(translation_of(coarse_origin, fine_origin, scale)),
        r matches Ok(t) ==> {
            &&& t.x == axis_translation(coarse_origin.x, fine_origin.x, scale)
            &&& t.y == axis_translation(coarse_origin.y, fine_origin.y, scale)
            &&& t.z == axis_translation(coarse_origin.z, fine_origin.z, scale)
        },
{
    Ok(
        I64Vec3::new(
            axis(coarse_origin.x, fine_origin.x, scale),
            axis(coarse_origin.y, fine_origin.y, scale),
            axis(coarse_origin.z, fine_origin.z, scale),
        ),
    )
}

/// Refining a coarse index and making it local to the fine level is the same as scaling the
/// coarse-local coordinate and translating it.
pub proof fn law_translation(index: int, coarse: i32, fine: i32, scale: u32)
    ensures
        (index - coarse) * scale + axis_translation(coarse, fine, scale) == index * scale - fine,
{
    let (c, s) = (coarse as int, scale as int);
    assert((index - c) * s + c * s == index * s) by (nonlinear_arith);
}

/// Checks that every component exists.
pub fn check_component_ids(component_ids: &[usize], variable_count: usize) -> (r: Result<
    (),
    AmrError,
>)
    ensures
        r is Ok <==> forall|i: int|
            0 <= i < component_ids@.len() ==> #[trigger] component_ids@[i] < variable_count,
        r matches Err(e) ==> e == AmrError::ComponentOutOfRange,
{
    let mut i: usize = 0;
    while i < component_ids.len()
        invariant
            i <= component_ids@.len(),
            forall|j: int| 0 <= j < i ==> #[trigger] component_ids@[j] < variable_count,
        decreases component_ids@.len() - i,
    {
        if component_ids[i] >= variable_count {
            return Err(AmrError::ComponentOutOfRange);
        }
        i += 1;
    }
    Ok(())
}

/// `index` lies in the box.
pub open spec fn box_has(b: IndexDomain, index: IVec3) -> bool {
    &&& b.min.x <= index.x <= b.max.x
    &&& b.min.y <= index.y <= b.max.y
    &&& b.min.z <= index.z <= b.max.z
}

/// The index at local position `p`.
pub open spec fn index_at(p: UVec3, origin: IVec3) -> IVec3 {
    IVec3 {
        x: (p.x + origin.x) as i32,
        y: (p.y + origin.y) as i32,
        z: (p.z + origin.z) as i32,
    }
}

/// The bits that a view holds at `index`.
pub open spec fn raw_at(view: ComponentView<'_>, index: IVec3) -> RawScalar {
    decoded(view.data(), view.stored_as(), view.place(index)->0)
}

/// `v` is what `convert` may make of the view's value at `index`.
pub open spec fn converted<T, F: Fn(RawScalar) -> T>(
    convert: F,
    view: ComponentView<'_>,
    index: IVec3,
    v: T,
) -> bool {
    call_ensures(convert, (raw_at(view, index),), v)
}

/// Slice places of a box in walk order.
spec fn walk_place(b: IndexDomain, x: int, y: int, z: int) -> int {
    slice_number(
        x - b.min.x,
        y - b.min.y,
        z - b.min.z,
        span(b.min.x, b.max.x),
        span(b.min.y, b.max.y),
    )
}

/// The values of `values` up to place `n` are those of the box.
spec fn gathered<T, F: Fn(RawScalar) -> T>(
    values: Seq<T>,
    view: ComponentView<'_>,
    b: IndexDomain,
    convert: F,
) -> bool {
    forall|index: IVec3|
        box_has(b, index) && (#[trigger] walk_place(
            b,
            index.x as int,
            index.y as int,
            index.z as int,
        )) < values.len() ==> view.place(index) is Some && converted(
            convert,
            view,
            index,
            values[walk_place(b, index.x as int, index.y as int, index.z as int)],
        )
}

/// Different indices of a box have different places.
proof fn lemma_walk_injective(b: IndexDomain, p: IVec3, q: IVec3)
    requires
        box_has(b, p),
        box_has(b, q),
        walk_place(b, p.x as int, p.y as int, p.z as int) == walk_place(
            b,
            q.x as int,
            q.y as int,
            q.z as int,
        ),
    ensures
        p == q,
{
    let ex = span(b.min.x, b.max.x);
    let ey = span(b.min.y, b.max.y);
    let (px, py, pz) = (p.x - b.min.x, p.y - b.min.y, p.z - b.min.z);
    let (qx, qy, qz) = (q.x - b.min.x, q.y - b.min.y, q.z - b.min.z);
    lemma_place_parts(px, py, pz, ex, ey);
    lemma_place_parts(qx, qy, qz, ex, ey);
}

/// A place determines its coordinates.
proof fn lemma_place_parts(x: int, y: int, z: int, ex: int, ey: int)
    requires
        0 <= x < ex,
        0 <= y < ey,
        0 <= z,
    ensures
        slice_number(x, y, z, ex, ey) % ex == x,
        (slice_number(x, y, z, ex, ey) / ex) % ey == y,
        (slice_number(x, y, z, ex, ey) / ex) / ey == z,
{
    let row = y + z * ey;
    assert(slice_number(x, y, z, ex, ey) == row * ex + x) by (nonlinear_arith)
        requires
            row == y + z * ey,
            slice_number(x, y, z, ex, ey) == x + y * ex + z * ex * ey,
    ;
    vstd::arithmetic::div_mod::lemma_fundamental_div_mod_converse(row * ex + x, ex, row, x);
    vstd::arithmetic::div_mod::lemma_fundamental_div_mod_converse(z * ey + y, ey, z, y);
}

/// The places at the ends of a row and of a slab.
proof fn lemma_walk_ends(b: IndexDomain, y: int, z: int)
    ensures
        walk_place(b, b.max.x + 1, y, z) == walk_place(b, b.min.x as int, y + 1, z),
        walk_place(b, b.min.x as int, b.max.y + 1, z) == walk_place(
            b,
            b.min.x as int,
            b.min.y as int,
            z + 1,
        ),
        walk_place(b, b.min.x as int, b.min.y as int, b.min.z as int) == 0,
        walk_place(b, b.min.x as int, b.min.y as int, b.max.z + 1) == span(b.min.x, b.max.x) * span(
            b.min.y,
            b.max.y,
        ) * span(b.min.z, b.max.z),
{
    let ex = span(b.min.x, b.max.x);
    let ey = span(b.min.y, b.max.y);
    let ez = span(b.min.z, b.max.z);
    let dy = y - b.min.y;
    let dz = z - b.min.z;
    assert(ex + dy * ex + dz * ex * ey == 0 + (dy + 1) * ex + dz * ex * ey) by (nonlinear_arith);
    assert(0 + ey * ex + dz * ex * ey == 0 + 0 * ex + (dz + 1) * ex * ey) by (nonlinear_arith);
    assert(0 + 0 * ex + 0 * ex * ey == 0) by (nonlinear_arith);
    assert(0 + 0 * ex + ez * ex * ey == ex * ey * ez) by (nonlinear_arith);
}

/// The values of a box in walk order, x fastest; `MissingIndex` when the view lacks one.
fn gather<T: Copy + PartialEq, F: Fn(RawScalar) -> T>(
    view: &ComponentView<'_>,
    b: IndexDomain,
    convert: &F,
) -> (r: Result<Vec<T>, AmrError>)
    requires
        view.wf(),
        span(b.min.x, b.max.x) > 0,
        span(b.min.y, b.max.y) > 0,
        span(b.min.z, b.max.z) > 0,
        forall|raw: RawScalar| #[trigger] call_requires(*convert, (raw,)),
    ensures
        r matches Ok(values) ==> gathered(values@, *view, b, *convert) && values@.len() == span(
            b.min.x,
            b.max.x,
        ) * span(b.min.y, b.max.y) * span(b.min.z, b.max.z),
        r is Ok <==> forall|index: IVec3| box_has(b, index) ==> #[trigger] view.place(index) is Some,
        r matches Err(e) ==> e == AmrError::MissingIndex,
{
    let mut values: Vec<T> = Vec::new();
    proof {
        lemma_walk_ends(b, b.min.y as int, b.min.z as int);
        assert forall|index: IVec3| box_has(b, index) implies (#[trigger] walk_place(
            b,
            index.x as int,
            index.y as int,
            index.z as int,
        )) >= 0 by {
            lemma_slice_number(
                index.x - b.min.x,
                index.y - b.min.y,
                index.z - b.min.z,
                span(b.min.x, b.max.x),
                span(b.min.y, b.max.y),
                span(b.min.z, b.max.z),
            );
        }
    }
    let mut z: i64 = b.min.z as i64;
    while z <= b.max.z as i64
        invariant
            view.wf(),
            forall|raw: RawScalar| #[trigger] call_requires(*convert, (raw,)),
            span(b.min.x, b.max.x) > 0,
            span(b.min.y, b.max.y) > 0,
            b.min.z <= z <= b.max.z + 1,
            gathered(values@, *view, b, *convert),
            values@.len() == walk_place(b, b.min.x as int, b.min.y as int, z as int),
        decreases b.max.z + 1 - z,
    {
        let mut y: i64 = b.min.y as i64;
        while y <= b.max.y as i64
            invariant
                view.wf(),
                forall|raw: RawScalar| #[trigger] call_requires(*convert, (raw,)),
                span(b.min.x, b.max.x) > 0,
                b.min.z <= z <= b.max.z,
                b.min.y <= y <= b.max.y + 1,
                gathered(values@, *view, b, *convert),
                values@.len() == walk_place(b, b.min.x as int, y as int, z as int),
            decreases b.max.y + 1 - y,
        {
            let mut x: i64 = b.min.x as i64;
            while x <= b.max.x as i64
                invariant
                    view.wf(),
                    forall|raw: RawScalar| #[trigger] call_requires(*convert, (raw,)),
                    b.min.z <= z <= b.max.z,
                    b.min.y <= y <= b.max.y,
                    b.min.x <= x <= b.max.x + 1,
                    gathered(values@, *view, b, *convert),
                    values@.len() == walk_place(b, x as int, y as int, z as int),
                decreases b.max.x + 1 - x,
            {
                let index = IVec3::new(x as i32, y as i32, z as i32);
                assert(box_has(b, index));
                let ghost before = values@;
                match view.get(index) {
                    Some(raw) => {
                        let v = convert(raw);
                        values.push(v);
                        proof {
                            assert(converted(*convert, *view, index, v));
                            assert forall|p: IVec3|
                                box_has(b, p) && (#[trigger] walk_place(
                                    b,
                                    p.x as int,
                                    p.y as int,
                                    p.z as int,
                                )) < values@.len() implies view.place(p) is Some && converted(
                                *convert,
                                *view,
                                p,
                                values@[walk_place(b, p.x as int, p.y as int, p.z as int)],
                            ) by {
                                let k = walk_place(b, p.x as int, p.y as int, p.z as int);
                                if k == before.len() {
                                    lemma_walk_injective(b, p, index);
                                } else {
                                    lemma_slice_number(
                                        p.x - b.min.x,
                                        p.y - b.min.y,
                                        p.z - b.min.z,
                                        span(b.min.x, b.max.x),
                                        span(b.min.y, b.max.y),
                                        span(b.min.z, b.max.z),
                                    );
                                    assert(values@[k] == before[k]);
                                }
                            }
                            assert(walk_place(b, x + 1, y as int, z as int) == walk_place(
                                b,
                                x as int,
                                y as int,
                                z as int,
                            ) + 1);
                        }
                    },
                    None => {
                        assert(view.place(index) is None);
                        return Err(AmrError::MissingIndex);
                    },
                }
                x += 1;
            }
            proof {
                lemma_walk_ends(b, y as int, z as int);
            }
            y += 1;
        }
        proof {
            lemma_walk_ends(b, b.min.y as int, z as int);
        }
        z += 1;
    }
    proof {
        lemma_walk_ends(b, b.min.y as int, b.min.z as int);
        assert forall|index: IVec3| box_has(b, index) implies #[trigger] view.place(index) is Some by {
            lemma_slice_number(
                index.x - b.min.x,
                index.y - b.min.y,
                index.z - b.min.z,
                span(b.min.x, b.max.x),
                span(b.min.y, b.max.y),
                span(b.min.z, b.max.z),
            );
            assert(walk_place(b, index.x as int, index.y as int, index.z as int) < values@.len());
        }
    }
    Ok(values)
}

/// The view has a value for every index of the box.
pub open spec fn covers(view: ComponentView<'_>, b: IndexDomain) -> bool {
    forall|index: IVec3| box_has(b, index) ==> #[trigger] view.place(index) is Some
}

/// Cell `p` of `g` holds the view's value at the index that `p` stands for.
pub open spec fn loaded<T: Copy + PartialEq, F: Fn(RawScalar) -> T>(
    g: SparseGrid3<T>,
    p: UVec3,
    view: ComponentView<'_>,
    origin: IVec3,
    convert: F,
) -> bool {
    exists|v: T| #[trigger]
        converted(convert, view, index_at(p, origin), v) && same_cell(Some(v), g.at(p))
}

/// Copies the valid cells of a patch component into a grid. The view may also hold ghost
/// cells; they are left out.
pub fn load_patch_component<T: Copy + PartialEq, F: Fn(RawScalar) -> T>(
    view: &ComponentView<'_>,
    patch_box: IndexDomain,
    local: Aabb3u,
    origin: IVec3,
    destination: &mut SparseGrid3<T>,
    convert: &F,
) -> (r: Result<(), AmrError>)
    requires
        view.wf(),
        old(destination).wf(),
        lawful::<T>(),
        localized(local, patch_box, origin),
        forall|raw: RawScalar| #[trigger] call_requires(*convert, (raw,)),
    ensures
        final(destination).wf(),
        final(destination).limits() == old(destination).limits(),
        old(destination).tidy() ==> final(destination).tidy(),
        r is Ok <==> local.volume() <= usize::MAX && covers(*view, patch_box),
        r matches Err(e) ==> e == if local.volume() <= usize::MAX {
            AmrError::MissingIndex
        } else {
            AmrError::ExtentTooLarge
        },
        r is Err ==> *final(destination) == *old(destination),
        r is Ok ==> forall|p: UVec3|
            local.has(p) && inside(p, old(destination).limits()) ==> #[trigger] loaded(
                *final(destination),
                p,
                *view,
                origin,
                *convert,
            ),
        forall|p: UVec3|
            !local.has(p) ==> same_cell(old(destination).at(p), #[trigger] final(destination).at(p)),
{
    if local.volume_usize().is_none() {
        return Err(AmrError::ExtentTooLarge);
    }
    let ghost ex = span(patch_box.min.x, patch_box.max.x);
    let ghost ey = span(patch_box.min.y, patch_box.max.y);
    let ghost ez = span(patch_box.min.z, patch_box.max.z);
    if local.is_empty() {
        proof {
            assert forall|index: IVec3| !box_has(patch_box, index) by {}
        }
        return Ok(());
    }
    proof {
        assert(local.volume() == ex * ey * ez);
    }
    let values = match gather(view, patch_box, convert) {
        Ok(values) => values,
        Err(e) => return Err(e),
    };
    let written = destination.write_aabb_values(local, values.as_slice());
    proof {
        assert(written is Ok);
        assert forall|p: UVec3|
            local.has(p) && inside(p, old(destination).limits()) implies #[trigger] loaded(
            *destination,
            p,
            *view,
            origin,
            *convert,
        ) by {
            let index = index_at(p, origin);
            assert(box_has(patch_box, index));
            let k = walk_place(patch_box, index.x as int, index.y as int, index.z as int);
            assert(k == slot(local, p));
            lemma_slice_number(
                index.x - patch_box.min.x,
                index.y - patch_box.min.y,
                index.z - patch_box.min.z,
                ex,
                ey,
                ez,
            );
            assert(converted(*convert, *view, index, values@[k]));
            assert(same_cell(Some(values@[slot(local, p)]), destination.at(p)));
        }
    }
    Ok(())
}

/// Number of indices of a box.
pub open spec fn index_count(b: IndexDomain) -> int {
    let x = span(b.min.x, b.max.x);
    let y = span(b.min.y, b.max.y);
    let z = span(b.min.z, b.max.z);
    (if x > 0 {
        x
    } else {
        0
    }) * (if y > 0 {
        y
    } else {
        0
    }) * (if z > 0 {
        z
    } else {
        0
    })
}

/// The extent of a domain, where it has one.
pub open spec fn extent_of(domain: IndexDomain) -> Result<UVec3, AmrError> {
    let x = span(domain.min.x, domain.max.x);
    let y = span(domain.min.y, domain.max.y);
    let z = span(domain.min.z, domain.max.z);
    if x <= 0 || y <= 0 || z <= 0 {
        Err(AmrError::EmptyDomain)
    } else if x > u32::MAX || y > u32::MAX || z > u32::MAX {
        Err(AmrError::ExtentTooLarge)
    } else {
        Ok(UVec3 { x: x as u32, y: y as u32, z: z as u32 })
    }
}

impl<D: Copy, T: Copy + PartialEq> SparseAmrLevel<D, T> {
    /// The component grids are well-formed and tidy, and cover `limits`.
    pub open spec fn wf(self, limits: UVec3) -> bool {
        forall|i: int|
            0 <= i < self.components@.len() ==> (#[trigger] self.components@[i]).wf()
                && self.components@[i].tidy() && self.components@[i].limits() == limits
    }

    /// A level over `domain` without any patch, with `component_count` empty grids.
    pub fn empty(
        level_index: usize,
        domain: &IndexDomain,
        physical_origin: D,
        cell_size: D,
        component_count: usize,
        patch_count: usize,
    ) -> (r: Result<Self, AmrError>)
        ensures
            r matches Err(e) ==> extent_of(*domain) == Err::<UVec3, AmrError>(e),
            r matches Ok(level) ==> {
                &&& extent_of(*domain) matches Ok(limits) && level.wf(limits)
                &&& level.level_index == level_index
                &&& level.index_origin == domain.min
                &&& level.index_type == domain.index_type
                &&& level.physical_origin == physical_origin
                &&& level.cell_size == cell_size
                &&& level.components@.len() == component_count
                &&& forall|i: int, p: UVec3|
                    0 <= i < component_count ==> #[trigger] level.components@[i].at(p) is None
                &&& level.valid_regions@.len() == 0
            },
    {
        let bounds = match index_extent(domain) {
            Ok(bounds) => bounds,
            Err(e) => return Err(e),
        };
        let mut components: Vec<SparseGrid3<T>> = Vec::new();
        let mut i: usize = 0;
        while i < component_count
            invariant
                i <= component_count,
                components@.len() == i,
                forall|j: int|
                    0 <= j < i ==> (#[trigger] components@[j]).wf() && components@[j].tidy()
                        && components@[j].limits() == bounds,
                forall|j: int, p: UVec3| 0 <= j < i ==> #[trigger] components@[j].at(p) is None,
            decreases component_count - i,
        {
            components.push(SparseGrid3::with_chunk_capacity(bounds, patch_count));
            i += 1;
        }
        Ok(
            SparseAmrLevel {
                level_index,
                index_origin: domain.min,
                index_type: domain.index_type,
                physical_origin,
                cell_size,
                components,
                valid_regions: Vec::new(),
            },
        )
    }
}

} // verus!
