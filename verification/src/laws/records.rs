//! FAB records: what their header lines say, and where the value of a cell is stored.

use vstd::prelude::*;
use vstd::utf8::valid_utf8;

use crate::data_reader::{
    balanced_prefix, big_endian_value, component_of, decoded, digit_run, encoding_of, fab_header_of,
    fits_index, integers_of, little_endian_value, nesting, newline, number_value, ByteOrder,
    ComponentView, Encoding, FabError, FabHeader, RawScalar, ScalarType,
};
use crate::native_file::IndexDomain;
use crate::vec3::IVec3;

verus! {

/// A natural number in decimal digits, as bytes.
pub open spec fn digits_of(n: nat) -> Seq<u8>
    decreases n,
{
    if n < 10 {
        seq![(48 + n) as u8]
    } else {
        digits_of(n / 10).push((48 + n % 10) as u8)
    }
}

/// An integer in decimal digits, with a minus sign where it is negative.
pub open spec fn number_text(v: int) -> Seq<u8> {
    if v < 0 {
        seq![45u8] + digits_of((-v) as nat)
    } else {
        digits_of(v as nat)
    }
}

/// A text without digits and minus signs.
pub open spec fn is_gap(s: Seq<u8>) -> bool {
    forall|i: int| 0 <= i < s.len() ==> #[trigger] s[i] != 45 && !(48 <= s[i] <= 57)
}

/// Numbers with gaps before, between and after them.
pub open spec fn spelled(values: Seq<i64>, gaps: Seq<Seq<u8>>) -> Seq<u8>
    decreases values.len(),
{
    if values.len() == 0 {
        gaps[0]
    } else {
        gaps[0] + number_text(values[0] as int) + spelled(values.drop_first(), gaps.drop_first())
    }
}

/// There is a gap before, between and after the numbers, and none between two of them is empty.
pub open spec fn gaps_fit(values: Seq<i64>, gaps: Seq<Seq<u8>>) -> bool {
    &&& gaps.len() == values.len() + 1
    &&& forall|i: int| 0 <= i < gaps.len() ==> is_gap(#[trigger] gaps[i])
    &&& forall|i: int| 0 < i < values.len() ==> (#[trigger] gaps[i]).len() > 0
}

proof fn lemma_digits(n: nat)
    ensures
        digits_of(n).len() > 0,
        forall|i: int| 0 <= i < digits_of(n).len() ==> 48 <= #[trigger] digits_of(n)[i] <= 57,
        number_value(digits_of(n)) == n,
    decreases n,
{
    reveal_with_fuel(number_value, 2);
    if n < 10 {
        assert(digits_of(n).drop_last() =~= Seq::empty());
    } else {
        lemma_digits(n / 10);
        assert(digits_of(n).drop_last() =~= digits_of(n / 10));
    }
}

proof fn lemma_digit_run_of(d: Seq<u8>, rest: Seq<u8>)
    requires
        forall|i: int| 0 <= i < d.len() ==> 48 <= #[trigger] d[i] <= 57,
        rest.len() == 0 || !(48 <= rest[0] <= 57),
    ensures
        digit_run(d + rest) == d.len(),
    decreases d.len(),
{
    let s = d + rest;
    if d.len() > 0 {
        assert(s[0] == d[0]);
        assert(s.drop_first() =~= d.drop_first() + rest);
        assert forall|i: int| 0 <= i < d.drop_first().len() implies 48 <= #[trigger] d.drop_first()[i]
            <= 57 by {
            assert(d.drop_first()[i] == d[i + 1]);
        }
        lemma_digit_run_of(d.drop_first(), rest);
    } else {
        assert(s =~= rest);
    }
}

/// Gaps hold no integers.
proof fn lemma_skip_gap(gap: Seq<u8>, rest: Seq<u8>)
    requires
        is_gap(gap),
    ensures
        integers_of(gap + rest) == integers_of(rest),
    decreases gap.len(),
{
    let s = gap + rest;
    if gap.len() > 0 {
        assert(s[0] == gap[0]);
        assert(s.skip(0) =~= s);
        assert(digit_run(s) == 0);
        assert(s.skip(1) =~= gap.skip(1) + rest);
        assert forall|i: int| 0 <= i < gap.skip(1).len() implies #[trigger] gap.skip(1)[i] != 45
            && !(48 <= gap.skip(1)[i] <= 57) by {
            assert(gap.skip(1)[i] == gap[i + 1]);
        }
        lemma_skip_gap(gap.skip(1), rest);
    } else {
        assert(s =~= rest);
    }
}

/// An integer at the front of a text.
proof fn lemma_front_integer(v: i64, rest: Seq<u8>)
    requires
        rest.len() == 0 || !(48 <= rest[0] <= 57),
    ensures
        integers_of(number_text(v as int) + rest) == match integers_of(rest) {
            Some(list) => Some(seq![v] + list),
            None => None,
        },
{
    let t = number_text(v as int);
    let s = t + rest;
    let n: nat = if v < 0 {
        (-v) as nat
    } else {
        v as nat
    };
    let d = digits_of(n);
    lemma_digits(n);
    lemma_digit_run_of(d, rest);
    if v < 0 {
        assert(s[0] == 45);
        assert(s.skip(1) =~= d + rest);
        assert(s.subrange(1, 1 + d.len() as int) =~= d);
        assert(s.skip(1 + d.len() as int) =~= rest);
    } else {
        assert(s[0] == d[0]);
        assert(s.skip(0) =~= d + rest);
        assert(s.subrange(0, d.len() as int) =~= d);
        assert(s.skip(d.len() as int) =~= rest);
    }
}

/// The integers of a text are the numbers written in it, in order.
pub proof fn law_integers(values: Seq<i64>, gaps: Seq<Seq<u8>>)
    requires
        gaps_fit(values, gaps),
    ensures
        integers_of(spelled(values, gaps)) == Some(values),
    decreases values.len(),
{
    if values.len() == 0 {
        lemma_skip_gap(gaps[0], Seq::empty());
        assert(gaps[0] + Seq::<u8>::empty() =~= gaps[0]);
        assert(values =~= Seq::empty());
    } else {
        let more = values.drop_first();
        let after = gaps.drop_first();
        let rest = spelled(more, after);
        assert forall|i: int| 0 <= i < after.len() implies is_gap(#[trigger] after[i]) by {
            assert(after[i] == gaps[i + 1]);
        }
        assert forall|i: int| 0 < i < more.len() implies (#[trigger] after[i]).len() > 0 by {
            assert(after[i] == gaps[i + 1]);
        }
        law_integers(more, after);
        let text = number_text(values[0] as int);
        assert(spelled(values, gaps) =~= gaps[0] + (text + rest));
        lemma_skip_gap(gaps[0], text + rest);
        assert(after[0] == gaps[1]);
        if more.len() > 0 {
            assert(after[0].len() > 0);
            assert(is_gap(after[0]));
            assert(rest[0] == after[0][0]);
        } else if rest.len() > 0 {
            assert(is_gap(after[0]));
            assert(rest[0] == after[0][0]);
        }
        lemma_front_integer(values[0], rest);
        assert(seq![values[0]] + more =~= values);
    }
}

/// How deep the parentheses are nested after the first `n` bytes.
pub open spec fn depth_after(text: Seq<u8>, n: nat) -> int
    decreases n,
{
    if n == 0 {
        0
    } else if text[n - 1] == 40 {
        depth_after(text, (n - 1) as nat) + 1
    } else if text[n - 1] == 41 {
        depth_after(text, (n - 1) as nat) - 1
    } else {
        depth_after(text, (n - 1) as nat)
    }
}

/// A text in parentheses: the first one is closed by the last byte.
pub open spec fn parenthesised(text: Seq<u8>) -> bool {
    &&& text.len() > 0
    &&& text[0] == 40
    &&& depth_after(text, text.len()) == 0
    &&& forall|n: nat| 0 < n < text.len() ==> #[trigger] depth_after(text, n) > 0
}

proof fn lemma_depth(text: Seq<u8>, rest: Seq<u8>, n: nat)
    requires
        n <= text.len(),
    ensures
        nesting(text + rest, n) == depth_after(text, n),
    decreases n,
{
    if n > 0 {
        lemma_depth(text, rest, (n - 1) as nat);
        assert((text + rest)[n - 1] == text[n - 1]);
    }
}

/// The numbers of a descriptor: width, format and, once more, the width; then the byte order.
pub open spec fn descriptor_numbers(e: Encoding, order: Seq<i64>) -> Seq<i64> {
    match e.scalar {
        ScalarType::F64 => seq![8i64, 64, 11, 52, 0, 1, 12, 0, 1023, 8] + order,
        ScalarType::F32 => seq![4i64, 32, 8, 23, 0, 1, 9, 0, 127, 4] + order,
    }
}

/// The order lists the bytes of a value as they are stored, counted from the highest: its first
/// or its last number is the width.
pub open spec fn order_says(e: Encoding, order: Seq<i64>) -> bool {
    let w: i64 = if e.scalar == ScalarType::F64 {
        8
    } else {
        4
    };
    &&& order.len() == w
    &&& match e.byte_order {
        ByteOrder::LittleEndian => order[0] == w,
        ByteOrder::BigEndian => order[w - 1] == w && order[0] != w,
    }
}

/// The numbers of a box and a component count: lower corner, upper corner and index type, each
/// as x, y and z.
pub open spec fn box_numbers(
    lower: IVec3,
    upper: IVec3,
    index_type: IVec3,
    components: i64,
) -> Seq<i64> {
    seq![
        lower.x as i64,
        lower.y as i64,
        lower.z as i64,
        upper.x as i64,
        upper.y as i64,
        upper.z as i64,
        index_type.x as i64,
        index_type.y as i64,
        index_type.z as i64,
        components,
    ]
}

/// A header line such as
/// `FAB ((8, (64 11 52 0 1 12 0 1023)),(8, (8 7 6 5 4 3 2 1)))((0,0,0) (15,7,31) (0,0,0)) 1`:
/// the tag, a descriptor in parentheses, and the box with the component count.
pub open spec fn fab_line(
    descriptor: Seq<u8>,
    lower: IVec3,
    upper: IVec3,
    index_type: IVec3,
    components: i64,
    gaps: Seq<Seq<u8>>,
) -> Seq<u8> {
    seq![70u8, 65, 66, 32] + descriptor + spelled(
        box_numbers(lower, upper, index_type, components),
        gaps,
    )
}

/// What is written in a header line is read from it: encoding, lower and upper corner, index
/// type and component count, whatever stands between the numbers.
pub proof fn law_fab_line(
    encoding: Encoding,
    order: Seq<i64>,
    descriptor: Seq<u8>,
    descriptor_gaps: Seq<Seq<u8>>,
    lower: IVec3,
    upper: IVec3,
    index_type: IVec3,
    components: i64,
    gaps: Seq<Seq<u8>>,
)
    requires
        order_says(encoding, order),
        gaps_fit(descriptor_numbers(encoding, order), descriptor_gaps),
        descriptor == spelled(descriptor_numbers(encoding, order), descriptor_gaps),
        parenthesised(descriptor),
        gaps_fit(box_numbers(lower, upper, index_type, components), gaps),
        0 <= components <= usize::MAX,
    ensures
        fab_header_of(fab_line(descriptor, lower, upper, index_type, components, gaps)) == Ok::<
            FabHeader,
            FabError,
        >(
            FabHeader {
                encoding,
                lower,
                upper,
                index_type,
                component_count: components as usize,
            },
        ),
{
    let d = descriptor_numbers(encoding, order);
    let v = box_numbers(lower, upper, index_type, components);
    let tail = spelled(v, gaps);
    let line = fab_line(descriptor, lower, upper, index_type, components, gaps);
    let rest = descriptor + tail;
    assert(line.skip(4) =~= rest);
    assert(seq![70u8, 65, 66, 32] =~= line.take(4));
    law_integers(d, descriptor_gaps);
    law_integers(v, gaps);
    let n = descriptor.len();
    assert(balanced_prefix(rest, n)) by {
        lemma_depth(descriptor, tail, n);
        assert forall|k: nat| 0 < k < n implies #[trigger] nesting(rest, k) > 0 by {
            lemma_depth(descriptor, tail, k);
        }
    }
    let m = choose|m: nat| #[trigger] balanced_prefix(rest, m);
    assert(m == n) by {
        if m < n {
            lemma_depth(descriptor, tail, m);
            assert(depth_after(descriptor, m) > 0);
        } else if n < m {
            assert(nesting(rest, n) > 0);
        }
    }
    assert(rest.take(n as int) =~= descriptor);
    assert(rest.skip(n as int) =~= tail);
    assert(d.len() == 10 + order.len());
    assert(d.skip(10) =~= order);
    assert(d.subrange(1, 9) =~= if encoding.scalar == ScalarType::F64 {
        seq![64i64, 11, 52, 0, 1, 12, 0, 1023]
    } else {
        seq![32i64, 8, 23, 0, 1, 9, 0, 127]
    });
    assert(order.last() == order[order.len() - 1]);
    assert(encoding_of(d) == Ok::<Encoding, FabError>(encoding));
    assert forall|i: int| 0 <= i < 9 implies fits_index(#[trigger] v[i]) by {
        assert(i == 0 || i == 1 || i == 2 || i == 3 || i == 4 || i == 5 || i == 6 || i == 7 || i == 8);
    }
    assert(v[0] == lower.x && v[1] == lower.y && v[2] == lower.z && v[3] == upper.x && v[4]
        == upper.y && v[5] == upper.z && v[6] == index_type.x && v[7] == index_type.y && v[8]
        == index_type.z && v[9] == components);
}

/// The number of indices of a box.
pub open spec fn cells_in(lower: IVec3, upper: IVec3) -> int {
    (upper.x - lower.x + 1) * (upper.y - lower.y + 1) * (upper.z - lower.z + 1)
}

/// Bytes of one value.
pub open spec fn bytes_per_value(e: Encoding) -> int {
    match e.scalar {
        ScalarType::F64 => 8,
        ScalarType::F32 => 4,
    }
}

proof fn lemma_newline(line: Seq<u8>, rest: Seq<u8>)
    requires
        forall|i: int| 0 <= i < line.len() ==> #[trigger] line[i] != 10,
        rest.len() > 0,
        rest[0] == 10,
    ensures
        newline(line + rest) == line.len(),
    decreases line.len(),
{
    let s = line + rest;
    if line.len() > 0 {
        assert(s[0] == line[0]);
        assert(s.drop_first() =~= line.drop_first() + rest);
        assert forall|i: int| 0 <= i < line.drop_first().len() implies #[trigger] line.drop_first()[i]
            != 10 by {
            assert(line.drop_first()[i] == line[i + 1]);
        }
        lemma_newline(line.drop_first(), rest);
    } else {
        assert(s =~= rest);
    }
}

/// A record whose box is the patch box grown by the ghost width is accepted, and component `c`
/// of it is the `c`-th block of values behind the header line.
pub proof fn law_record(
    before: Seq<u8>,
    line: Seq<u8>,
    data: Seq<u8>,
    h: FabHeader,
    ghost_width: usize,
    domain: IndexDomain,
    component: usize,
)
    requires
        before.len() <= u64::MAX,
        line.len() < 4096,
        forall|i: int| 0 <= i < line.len() ==> #[trigger] line[i] != 10,
        valid_utf8(line),
        fab_header_of(line) == Ok::<FabHeader, FabError>(h),
        ghost_width <= i32::MAX,
        h.lower.x == domain.min.x - ghost_width,
        h.lower.y == domain.min.y - ghost_width,
        h.lower.z == domain.min.z - ghost_width,
        h.upper.x == domain.max.x + ghost_width,
        h.upper.y == domain.max.y + ghost_width,
        h.upper.z == domain.max.z + ghost_width,
        h.index_type == domain.index_type,
        h.lower.x <= h.upper.x,
        h.lower.y <= h.upper.y,
        h.lower.z <= h.upper.z,
        component < h.component_count,
        before.len() + line.len() + 1 + data.len() <= usize::MAX,
        data.len() >= (component + 1) * (cells_in(h.lower, h.upper) * bytes_per_value(h.encoding)),
    ensures
        ({
            let file = before + line + seq![10u8] + data;
            let size = cells_in(h.lower, h.upper) * bytes_per_value(h.encoding);
            component_of(
                file,
                before.len() as u64,
                h.component_count as nat,
                ghost_width,
                domain,
                component,
            ) == Ok::<(FabHeader, Seq<u8>), FabError>(
                (h, data.subrange(component * size, (component + 1) * size)),
            )
        }),
{
    let file = before + line + seq![10u8] + data;
    let offset = before.len() as int;
    let size = cells_in(h.lower, h.upper) * bytes_per_value(h.encoding);
    let rest = seq![10u8] + data;
    assert(file.skip(offset) =~= line + rest);
    lemma_newline(line, rest);
    assert((line + rest).take(line.len() as int) =~= line);
    let start = offset + line.len() + 1;
    assert(0 <= size) by {
        let (x, y, z) = (
            h.upper.x - h.lower.x + 1,
            h.upper.y - h.lower.y + 1,
            h.upper.z - h.lower.z + 1,
        );
        assert(x * y >= 0) by (nonlinear_arith)
            requires
                x >= 0,
                y >= 0,
        ;
        assert(x * y * z >= 0) by (nonlinear_arith)
            requires
                x * y >= 0,
                z >= 0,
        ;
    }
    assert((component + 1) * size == component * size + size) by (nonlinear_arith);
    assert(component * size >= 0) by (nonlinear_arith)
        requires
            component >= 0,
            size >= 0,
    ;
    let (from, to) = (start + component * size, start + component * size + size);
    assert(file.subrange(from, to) =~= data.subrange(component * size, (component + 1) * size));
}

/// A record for another box, or with another number of components, is refused.
pub proof fn law_record_refused(
    before: Seq<u8>,
    line: Seq<u8>,
    data: Seq<u8>,
    h: FabHeader,
    count: nat,
    ghost_width: usize,
    domain: IndexDomain,
    component: usize,
)
    requires
        before.len() <= usize::MAX,
        before.len() <= u64::MAX,
        line.len() < 4096,
        forall|i: int| 0 <= i < line.len() ==> #[trigger] line[i] != 10,
        valid_utf8(line),
        fab_header_of(line) == Ok::<FabHeader, FabError>(h),
        ghost_width <= i32::MAX,
    ensures
        ({
            let r = component_of(
                before + line + seq![10u8] + data,
                before.len() as u64,
                count,
                ghost_width,
                domain,
                component,
            );
            &&& count != h.component_count ==> r == Err::<(FabHeader, Seq<u8>), FabError>(
                FabError::ComponentCountMismatch,
            )
            &&& count == h.component_count && (h.lower.x != domain.min.x - ghost_width
                || h.lower.y != domain.min.y - ghost_width || h.lower.z != domain.min.z
                - ghost_width || h.upper.x != domain.max.x + ghost_width || h.upper.y
                != domain.max.y + ghost_width || h.upper.z != domain.max.z + ghost_width
                || h.index_type != domain.index_type) ==> r == Err::<
                (FabHeader, Seq<u8>),
                FabError,
            >(FabError::BoxMismatch)
        }),
{
    let file = before + line + seq![10u8] + data;
    let rest = seq![10u8] + data;
    assert(file.skip(before.len() as int) =~= line + rest);
    lemma_newline(line, rest);
    assert((line + rest).take(line.len() as int) =~= line);
}

/// The value of a cell is stored behind those of the cells before it, x fastest, then y, then z;
/// a cell outside the box has none.
pub proof fn law_value_place(view: ComponentView<'_>, index: IVec3)
    requires
        view.wf(),
    ensures
        ({
            let (_, lower, upper) = view.header();
            let (nx, ny) = (upper.x - lower.x + 1, upper.y - lower.y + 1);
            view.place(index) == if lower.x <= index.x <= upper.x && lower.y <= index.y <= upper.y
                && lower.z <= index.z <= upper.z {
                Some(
                    (index.x - lower.x) + nx * (index.y - lower.y) + nx * ny * (index.z - lower.z),
                )
            } else {
                None
            }
        }),
{
    view.lemma_box();
    let (_, lower, upper) = view.header();
    let (nx, ny) = (upper.x - lower.x + 1, upper.y - lower.y + 1);
    let (y, z) = (index.y - lower.y, index.z - lower.z);
    assert(nx * (y + ny * z) == nx * y + nx * ny * z) by (nonlinear_arith);
}

/// A stored value is the number that its bytes spell to base 256, lowest or highest byte first.
pub proof fn law_stored_value(bytes: Seq<u8>, encoding: Encoding, k: int)
    requires
        0 <= k,
        (k + 1) * bytes_per_value(encoding) <= bytes.len(),
    ensures
        ({
            let w = bytes_per_value(encoding);
            let b = |i: int|
                bytes[w * k + if encoding.byte_order == ByteOrder::LittleEndian {
                    i
                } else {
                    w - 1 - i
                }] as int;
            decoded(bytes, encoding, k) == match encoding.scalar {
                ScalarType::F32 => RawScalar::F32(
                    (b(0) + 0x100 * b(1) + 0x1_0000 * b(2) + 0x100_0000 * b(3)) as u32,
                ),
                ScalarType::F64 => RawScalar::F64(
                    (b(0) + 0x100 * b(1) + 0x1_0000 * b(2) + 0x100_0000 * b(3) + 0x1_0000_0000 * b(
                        4,
                    ) + 0x100_0000_0000 * b(5) + 0x1_0000_0000_0000 * b(6) + 0x100_0000_0000_0000
                        * b(7)) as u64,
                ),
            }
        }),
{
    let w = bytes_per_value(encoding);
    assert(k * w == w * k && (k + 1) * w == w * k + w) by (nonlinear_arith);
    assert(k * w >= 0) by (nonlinear_arith)
        requires
            k >= 0,
            w >= 0,
    ;
    let s = bytes.subrange(k * w, k * w + w);
    match encoding.byte_order {
        ByteOrder::LittleEndian => {
            lemma_little(s);
        },
        ByteOrder::BigEndian => {
            lemma_big(s);
        },
    }
}

proof fn lemma_little(s: Seq<u8>)
    requires
        s.len() == 4 || s.len() == 8,
    ensures
        s.len() == 4 ==> little_endian_value(s) == s[0] + 0x100 * s[1]
            + 0x1_0000 * s[2] + 0x100_0000 * s[3],
        s.len() == 8 ==> little_endian_value(s) == s[0] + 0x100 * s[1]
            + 0x1_0000 * s[2] + 0x100_0000 * s[3] + 0x1_0000_0000 * s[4] + 0x100_0000_0000 * s[5]
            + 0x1_0000_0000_0000 * s[6] + 0x100_0000_0000_0000 * s[7],
{
    reveal_with_fuel(little_endian_value, 9);
    assert(s.drop_first() =~= s.skip(1));
    assert(s.skip(1).drop_first() =~= s.skip(2));
    assert(s.skip(2).drop_first() =~= s.skip(3));
    assert(s.skip(3).drop_first() =~= s.skip(4));
    if s.len() == 8 {
        assert(s.skip(4).drop_first() =~= s.skip(5));
        assert(s.skip(5).drop_first() =~= s.skip(6));
        assert(s.skip(6).drop_first() =~= s.skip(7));
        assert(s.skip(7).drop_first() =~= s.skip(8));
    }
}

proof fn lemma_big(s: Seq<u8>)
    requires
        s.len() == 4 || s.len() == 8,
    ensures
        s.len() == 4 ==> big_endian_value(s) == s[3] + 0x100 * s[2] + 0x1_0000
            * s[1] + 0x100_0000 * s[0],
        s.len() == 8 ==> big_endian_value(s) == s[7] + 0x100 * s[6] + 0x1_0000
            * s[5] + 0x100_0000 * s[4] + 0x1_0000_0000 * s[3] + 0x100_0000_0000 * s[2]
            + 0x1_0000_0000_0000 * s[1] + 0x100_0000_0000_0000 * s[0],
{
    reveal_with_fuel(big_endian_value, 9);
    let n = s.len() as int;
    assert(s.drop_last() =~= s.take(n - 1));
    assert(s.take(n - 1).drop_last() =~= s.take(n - 2));
    assert(s.take(n - 2).drop_last() =~= s.take(n - 3));
    assert(s.take(n - 3).drop_last() =~= s.take(n - 4));
    if n == 8 {
        assert(s.take(4).drop_last() =~= s.take(3));
        assert(s.take(3).drop_last() =~= s.take(2));
        assert(s.take(2).drop_last() =~= s.take(1));
        assert(s.take(1).drop_last() =~= s.take(0));
    }
}

} // verus!
