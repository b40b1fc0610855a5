//! FAB records: the self-describing header line, and views of component data.
//!
//! A view decodes its values to their bits; turning bits into numbers is the caller's.

use vstd::prelude::*;
use vstd::string::StringSliceAdditionalSpecFns;
use vstd::utf8::{valid_utf8};

use crate::native_file::{IndexDomain, Patch};
use crate::text_parsing::utf8_text;
use crate::vec3::IVec3;

verus! {

/// Width of the stored floating-point values.
#[derive(Debug, Clone, Copy, PartialEq, Eq, Structural)]
pub enum ScalarType {
    F32,
    F64,
}

impl ScalarType {
    /// Number of bytes of one value.
    pub open spec fn width(self) -> nat {
        match self {
            ScalarType::F32 => 4,
            ScalarType::F64 => 8,
        }
    }

    /// Number of bytes of one value.
    pub fn byte_width(self) -> (n: usize)
        ensures
            n == self.width(),
    {
        match self {
            ScalarType::F32 => 4,
            ScalarType::F64 => 8,
        }
    }
}

/// Order of the bytes of one value.
#[derive(Debug, Clone, Copy, PartialEq, Eq, Structural)]
pub enum ByteOrder {
    LittleEndian,
    BigEndian,
}

/// How values are stored.
#[derive(Debug, Clone, Copy, PartialEq, Eq, Structural)]
pub struct Encoding {
    pub scalar: ScalarType,
    pub byte_order: ByteOrder,
}

/// The bits of one stored value.
#[derive(Debug, Clone, Copy, PartialEq, Eq, Structural)]
pub enum RawScalar {
    F32(u32),
    F64(u64),
}

/// Why FAB data was refused.
#[derive(Debug, Clone, Copy, PartialEq, Eq, Structural)]
pub enum FabError {
    /// The header line does not start with `FAB `.
    MissingPrefix,
    /// The header line has no descriptor.
    MissingDescriptor,
    /// The descriptor does not end.
    UnterminatedDescriptor,
    /// A number is out of range.
    InvalidNumber,
    /// The descriptor does not have the expected numbers.
    MalformedDescriptor,
    /// The floating-point format is not supported.
    UnsupportedDescriptor,
    /// The byte order is not supported.
    UnsupportedByteOrder,
    /// The box or component count does not have the expected numbers.
    MalformedBox,
    /// The component does not exist.
    ComponentOutOfRange,
    /// The record starts past the end of the file.
    OffsetPastEnd,
    /// The header line is missing or too long.
    MissingHeaderLine,
    /// The header line is not UTF-8.
    InvalidText,
    /// The component count differs from the plotfile's.
    ComponentCountMismatch,
    /// The box differs from the one in `Cell_H`.
    BoxMismatch,
    /// The box is empty.
    EmptyBox,
    /// A size or offset does not fit.
    Overflow,
    /// The data extends past the end of the file.
    DataPastEnd,
}

/// What the header line of a FAB record says.
#[derive(Debug, Clone, Copy, PartialEq, Eq, Structural)]
pub struct FabHeader {
    pub encoding: Encoding,
    pub lower: IVec3,
    pub upper: IVec3,
    pub index_type: IVec3,
    pub component_count: usize,
}

/// Opening minus closing parentheses in the first `n` bytes.
pub open spec fn nesting(text: Seq<u8>, n: nat) -> int
    decreases n,
{
    if n == 0 {
        0
    } else {
        nesting(text, (n - 1) as nat) + if text[n - 1] == 40 {
            1int
        } else if text[n - 1] == 41 {
            -1
        } else {
            0
        }
    }
}

/// The first `n` bytes are the shortest prefix in which every parenthesis is closed.
pub open spec fn balanced_prefix(text: Seq<u8>, n: nat) -> bool {
    &&& 0 < n <= text.len()
    &&& text[0] == 40
    &&& nesting(text, n) == 0
    &&& forall|k: nat| 0 < k < n ==> #[trigger] nesting(text, k) > 0
}

/// Length of the parenthesised prefix of `text`.
pub fn balanced_prefix_len(text: &[u8]) -> (r: Result<usize, FabError>)
    ensures
        r matches Ok(n) ==> balanced_prefix(text@, n as nat),
        r matches Err(e) ==> {
            &&& e == FabError::MissingDescriptor || e == FabError::UnterminatedDescriptor
            &&& e == FabError::MissingDescriptor <==> text@.len() == 0 || text@[0] != 40
            &&& forall|n: nat| !#[trigger] balanced_prefix(text@, n)
        },
{
    let len = text.len();
    if len == 0 || text[0] != 40 {
        return Err(FabError::MissingDescriptor);
    }
    let mut depth: usize = 0;
    let mut index: usize = 0;
    while index < len
        invariant
            index <= len,
            len == text@.len(),
            text@.len() > 0,
            text@[0] == 40,
            depth <= index,
            depth == nesting(text@, index as nat),
            forall|k: nat| 0 < k <= index ==> #[trigger] nesting(text@, k) > 0,
        decreases len - index,
    {
        let byte = text[index];
        proof {
            assert(nesting(text@, (index + 1) as nat) == nesting(text@, index as nat) + if byte
                == 40 {
                1int
            } else if byte == 41 {
                -1
            } else {
                0
            });
            assert(index > 0 ==> nesting(text@, index as nat) > 0);
        }
        if byte == 40 {
            depth += 1;
        } else if byte == 41 {
            depth -= 1;
            if depth == 0 {
                return Ok(index + 1);
            }
        }
        index += 1;
    }
    Err(FabError::UnterminatedDescriptor)
}

/// True for ASCII decimal digits.
pub open spec fn is_digit(b: u8) -> bool {
    48 <= b <= 57
}

/// Number of leading digits.
pub open spec fn digit_run(s: Seq<u8>) -> nat
    decreases s.len(),
{
    if s.len() > 0 && is_digit(s[0]) {
        1 + digit_run(s.drop_first())
    } else {
        0
    }
}

/// The number that a string of digits denotes.
pub open spec fn number_value(s: Seq<u8>) -> nat
    decreases s.len(),
{
    if s.len() == 0 {
        0
    } else {
        10 * number_value(s.drop_last()) + (s.last() - 48) as nat
    }
}

/// The integers in a text, each a run of digits with an optional minus sign directly before
/// it; `None` when one does not fit.
pub open spec fn integers_of(s: Seq<u8>) -> Option<Seq<i64>>
    decreases s.len(),
{
    if s.len() == 0 {
        Some(Seq::empty())
    } else {
        let sign: int = if s[0] == 45 {
            1
        } else {
            0
        };
        let n = digit_run(s.skip(sign)) as int;
        if n <= 0 || sign + n > s.len() {
            integers_of(s.skip(1))
        } else {
            let v = number_value(s.subrange(sign, sign + n)) as int;
            let x = if sign == 1 {
                -v
            } else {
                v
            };
            if i64::MIN <= x <= i64::MAX {
                match integers_of(s.skip(sign + n)) {
                    Some(rest) => Some(seq![x as i64] + rest),
                    None => None,
                }
            } else {
                None
            }
        }
    }
}

proof fn lemma_digit_run(s: Seq<u8>)
    ensures
        digit_run(s) <= s.len(),
        forall|i: int| 0 <= i < digit_run(s) ==> is_digit(#[trigger] s[i]),
    decreases s.len(),
{
    if s.len() > 0 && is_digit(s[0]) {
        lemma_digit_run(s.drop_first());
        assert forall|i: int| 0 <= i < digit_run(s) implies is_digit(#[trigger] s[i]) by {
            if i > 0 {
                assert(s.drop_first()[i - 1] == s[i]);
            }
        }
    }
}

proof fn lemma_number_grows(s: Seq<u8>, n: int)
    requires
        0 <= n <= s.len(),
        forall|i: int| 0 <= i < s.len() ==> is_digit(#[trigger] s[i]),
    ensures
        number_value(s.take(n)) <= number_value(s),
    decreases s.len(),
{
    if n == s.len() {
        assert(s.take(n) =~= s);
    } else {
        assert(s.drop_last().take(n) =~= s.take(n));
        assert forall|i: int| 0 <= i < s.drop_last().len() implies is_digit(
            #[trigger] s.drop_last()[i],
        ) by {
            assert(s.drop_last()[i] == s[i]);
        }
        lemma_number_grows(s.drop_last(), n);
        assert(is_digit(s.last()));
    }
}

/// The number that the digits `text[from..to]` denote, where it is at most `2^63`.
fn number_in(text: &[u8], from: usize, to: usize) -> (r: Option<u64>)
    requires
        from <= to <= text@.len(),
        forall|i: int| from <= i < to ==> is_digit(#[trigger] text@[i]),
    ensures
        r == ({
            let v = number_value(text@.subrange(from as int, to as int));
            if v <= 0x8000_0000_0000_0000 {
                Some(v as u64)
            } else {
                None
            }
        }),
{
    let ghost d = text@.subrange(from as int, to as int);
    let mut value: u64 = 0;
    let mut at: usize = from;
    proof {
        assert(d.take(0) =~= Seq::empty());
        assert forall|i: int| 0 <= i < d.len() implies is_digit(#[trigger] d[i]) by {
            assert(d[i] == text@[from + i]);
        }
    }
    while at < to
        invariant
            from <= at <= to <= text@.len(),
            d == text@.subrange(from as int, to as int),
            forall|i: int| 0 <= i < d.len() ==> is_digit(#[trigger] d[i]),
            value <= 0x8000_0000_0000_0000,
            value == number_value(d.take(at - from)),
        decreases to - at,
    {
        let byte = text[at];
        assert(byte == d[at - from]);
        assert(is_digit(d[at - from]));
        let digit: u64 = (byte - 48) as u64;
        proof {
            assert(d.take(at - from + 1).drop_last() =~= d.take(at - from));
            lemma_number_grows(d, at - from + 1);
        }
        if value > (0x8000_0000_0000_0000 - digit) / 10 {
            return None;
        }
        value = value * 10 + digit;
        at += 1;
    }
    assert(d.take(to - from) =~= d);
    Some(value)
}

/// The integers in a text.
pub fn integers(text: &[u8]) -> (r: Result<Vec<i64>, FabError>)
    ensures
        match integers_of(text@) {
            Some(list) => r matches Ok(v) && v@ == list,
            None => r == Err::<Vec<i64>, FabError>(FabError::InvalidNumber),
        },
{
    let len = text.len();
    let mut result: Vec<i64> = Vec::new();
    let mut index: usize = 0;
    proof {
        assert(text@.skip(0) =~= text@);
        if let Some(list) = integers_of(text@) {
            assert(result@ + list =~= list);
        }
    }
    while index < len
        invariant
            index <= len,
            len == text@.len(),
            match integers_of(text@.skip(index as int)) {
                Some(list) => integers_of(text@) == Some(result@ + list),
                None => integers_of(text@) is None,
            },
        decreases len - index,
    {
        let start = index;
        let ghost here = text@.skip(start as int);
        let negative = text[index] == 45;
        if negative {
            index += 1;
        }
        let digit_start = index;
        let ghost tail = text@.skip(digit_start as int);
        assert(tail =~= here.skip(digit_start - start));
        while index < len && 48 <= text[index] && text[index] <= 57
            invariant
                start <= digit_start <= index <= len,
                len == text@.len(),
                tail == text@.skip(digit_start as int),
                digit_run(tail) == (index - digit_start) + digit_run(text@.skip(index as int)),
            decreases len - index,
        {
            assert(text@.skip(index as int).drop_first() =~= text@.skip(index + 1));
            index += 1;
        }
        assert(digit_run(tail) == index - digit_start);
        if digit_start != index {
            proof {
                lemma_digit_run(tail);
                assert forall|i: int| digit_start <= i < index implies is_digit(
                    #[trigger] text@[i],
                ) by {
                    assert(tail[i - digit_start] == text@[i]);
                }
                assert(text@.subrange(digit_start as int, index as int) =~= here.subrange(
                    digit_start - start,
                    index - start,
                ));
                assert(here.skip(index - start) =~= text@.skip(index as int));
            }
            let ghost before = result@;
            match number_in(text, digit_start, index) {
                Some(magnitude) => {
                    if negative {
                        if magnitude == 0x8000_0000_0000_0000 {
                            result.push(i64::MIN);
                        } else {
                            result.push(-(magnitude as i64));
                        }
                    } else {
                        if magnitude == 0x8000_0000_0000_0000 {
                            return Err(FabError::InvalidNumber);
                        }
                        result.push(magnitude as i64);
                    }
                    proof {
                        if let Some(list) = integers_of(text@.skip(index as int)) {
                            assert(before + (seq![result@.last()] + list) =~= result@ + list);
                        }
                    }
                },
                None => return Err(FabError::InvalidNumber),
            }
        } else {
            index = start + 1;
            assert(here.skip(1) =~= text@.skip(index as int));
        }
    }
    proof {
        assert(text@.skip(index as int) =~= Seq::empty());
        assert(result@ + Seq::<i64>::empty() =~= result@);
    }
    Ok(result)
}

/// A shortest balanced prefix is unique.
proof fn lemma_balanced_unique(text: Seq<u8>, a: nat, b: nat)
    requires
        balanced_prefix(text, a),
        balanced_prefix(text, b),
    ensures
        a == b,
{
    if a < b {
        assert(nesting(text, a) > 0);
    } else if b < a {
        assert(nesting(text, b) > 0);
    }
}

/// The IEEE double format: bit counts and positions of its fields.
pub open spec fn double_format() -> Seq<i64> {
    seq![64i64, 11, 52, 0, 1, 12, 0, 1023]
}

/// The IEEE single format.
pub open spec fn single_format() -> Seq<i64> {
    seq![32i64, 8, 23, 0, 1, 9, 0, 127]
}

/// `n` as a `usize`.
pub open spec fn as_size(n: i64) -> Option<usize> {
    if 0 <= n <= usize::MAX {
        Some(n as usize)
    } else {
        None
    }
}

/// The encoding that a descriptor's integers say: width, format, order length, order.
pub open spec fn encoding_of(d: Seq<i64>) -> Result<Encoding, FabError> {
    if d.len() < 10 {
        Err(FabError::MalformedDescriptor)
    } else {
        match (as_size(d[0]), as_size(d[9])) {
            (Some(width), Some(order_len)) => if d.len() != 10 + order_len || width != order_len {
                Err(FabError::MalformedDescriptor)
            } else {
                let format = d.subrange(1, 9);
                if width == 8 && format == double_format() {
                    match byte_order_of(d.skip(10), 8) {
                        Some(byte_order) => Ok(Encoding { scalar: ScalarType::F64, byte_order }),
                        None => Err(FabError::UnsupportedByteOrder),
                    }
                } else if width == 4 && format == single_format() {
                    match byte_order_of(d.skip(10), 4) {
                        Some(byte_order) => Ok(Encoding { scalar: ScalarType::F32, byte_order }),
                        None => Err(FabError::UnsupportedByteOrder),
                    }
                } else {
                    Err(FabError::UnsupportedDescriptor)
                }
            },
            _ => Err(FabError::InvalidNumber),
        }
    }
}

/// The byte order in which the highest byte comes first or last.
pub open spec fn byte_order_of(order: Seq<i64>, width: i64) -> Option<ByteOrder> {
    if order.len() > 0 && order[0] == width {
        Some(ByteOrder::LittleEndian)
    } else if order.len() > 0 && order.last() == width {
        Some(ByteOrder::BigEndian)
    } else {
        None
    }
}

/// `n` fits in an `i32`.
pub open spec fn fits_index(n: i64) -> bool {
    i32::MIN <= n <= i32::MAX
}

/// Box and component count from ten integers.
pub open spec fn fab_box_of(v: Seq<i64>, encoding: Encoding) -> Result<FabHeader, FabError> {
    if v.len() != 10 {
        Err(FabError::MalformedBox)
    } else if exists|i: int| 0 <= i < 9 && !fits_index(#[trigger] v[i]) {
        Err(FabError::InvalidNumber)
    } else {
        match as_size(v[9]) {
            None => Err(FabError::InvalidNumber),
            Some(component_count) => Ok(
                FabHeader {
                    encoding,
                    lower: IVec3 { x: v[0] as i32, y: v[1] as i32, z: v[2] as i32 },
                    upper: IVec3 { x: v[3] as i32, y: v[4] as i32, z: v[5] as i32 },
                    index_type: IVec3 { x: v[6] as i32, y: v[7] as i32, z: v[8] as i32 },
                    component_count,
                },
            ),
        }
    }
}

/// What follows the `FAB ` prefix, given the length of the descriptor.
pub open spec fn described_by(rest: Seq<u8>, n: nat) -> Result<FabHeader, FabError> {
    match integers_of(rest.take(n as int)) {
        None => Err(FabError::InvalidNumber),
        Some(d) => match encoding_of(d) {
            Err(e) => Err(e),
            Ok(encoding) => match integers_of(rest.skip(n as int)) {
                None => Err(FabError::InvalidNumber),
                Some(v) => fab_box_of(v, encoding),
            },
        },
    }
}

/// The bytes of `FAB `.
pub open spec fn fab_prefix() -> Seq<u8> {
    seq![70u8, 65, 66, 32]
}

/// The header line of a FAB record.
pub open spec fn fab_header_of(line: Seq<u8>) -> Result<FabHeader, FabError> {
    if !fab_prefix().is_prefix_of(line) {
        Err(FabError::MissingPrefix)
    } else {
        let rest = line.skip(4);
        if rest.len() == 0 || rest[0] != 40 {
            Err(FabError::MissingDescriptor)
        } else if exists|n: nat| #[trigger] balanced_prefix(rest, n) {
            described_by(rest, choose|n: nat| #[trigger] balanced_prefix(rest, n))
        } else {
            Err(FabError::UnterminatedDescriptor)
        }
    }
}

/// `n` as a `usize`.
fn to_size(n: i64) -> (r: Option<usize>)
    ensures
        r == as_size(n),
{
    if n < 0 || n as u64 > usize::MAX as u64 {
        None
    } else {
        Some(n as usize)
    }
}

/// True when the eight integers from place 1 on are `format`.
fn has_format(d: &Vec<i64>, format: [i64; 8]) -> (b: bool)
    requires
        d@.len() >= 10,
    ensures
        b == (d@.subrange(1, 9) == format@),
{
    let mut i: usize = 0;
    while i < 8
        invariant
            i <= 8,
            d@.len() >= 10,
            forall|j: int| 0 <= j < i ==> d@[1 + j] == #[trigger] format@[j],
        decreases 8 - i,
    {
        if d[1 + i] != format[i] {
            assert(d@.subrange(1, 9)[i as int] != format@[i as int]);
            return false;
        }
        i += 1;
    }
    assert(d@.subrange(1, 9) =~= format@);
    true
}

fn parse_byte_order(d: &Vec<i64>, width: i64) -> (r: Option<ByteOrder>)
    requires
        d@.len() > 10,
    ensures
        r == byte_order_of(d@.skip(10), width),
{
    if d[10] == width {
        Some(ByteOrder::LittleEndian)
    } else if d[d.len() - 1] == width {
        Some(ByteOrder::BigEndian)
    } else {
        None
    }
}

fn parse_encoding(d: &Vec<i64>) -> (r: Result<Encoding, FabError>)
    ensures
        r == encoding_of(d@),
{
    if d.len() < 10 {
        return Err(FabError::MalformedDescriptor);
    }
    let (width, order_len) = match (to_size(d[0]), to_size(d[9])) {
        (Some(width), Some(order_len)) => (width, order_len),
        _ => return Err(FabError::InvalidNumber),
    };
    if d.len() - 10 != order_len || width != order_len {
        return Err(FabError::MalformedDescriptor);
    }
    let double: [i64; 8] = [64, 11, 52, 0, 1, 12, 0, 1023];
    let single: [i64; 8] = [32, 8, 23, 0, 1, 9, 0, 127];
    proof {
        assert(double@ =~= double_format());
        assert(single@ =~= single_format());
    }
    if width == 8 && has_format(d, double) {
        match parse_byte_order(d, 8) {
            Some(byte_order) => Ok(Encoding { scalar: ScalarType::F64, byte_order }),
            None => Err(FabError::UnsupportedByteOrder),
        }
    } else if width == 4 && has_format(d, single) {
        match parse_byte_order(d, 4) {
            Some(byte_order) => Ok(Encoding { scalar: ScalarType::F32, byte_order }),
            None => Err(FabError::UnsupportedByteOrder),
        }
    } else {
        Err(FabError::UnsupportedDescriptor)
    }
}

fn parse_fab_box(v: &Vec<i64>, encoding: Encoding) -> (r: Result<FabHeader, FabError>)
    ensures
        r == fab_box_of(v@, encoding),
{
    if v.len() != 10 {
        return Err(FabError::MalformedBox);
    }
    let mut i: usize = 0;
    while i < 9
        invariant
            i <= 9,
            v@.len() == 10,
            forall|j: int| 0 <= j < i ==> fits_index(#[trigger] v@[j]),
        decreases 9 - i,
    {
        if v[i] < i32::MIN as i64 || v[i] > i32::MAX as i64 {
            assert(!fits_index(v@[i as int]));
            return Err(FabError::InvalidNumber);
        }
        i += 1;
    }
    match to_size(v[9]) {
        None => Err(FabError::InvalidNumber),
        Some(component_count) => Ok(
            FabHeader {
                encoding,
                lower: IVec3::new(v[0] as i32, v[1] as i32, v[2] as i32),
                upper: IVec3::new(v[3] as i32, v[4] as i32, v[5] as i32),
                index_type: IVec3::new(v[6] as i32, v[7] as i32, v[8] as i32),
                component_count,
            },
        ),
    }
}

/// Parses the header line of a FAB record.
pub fn parse_fab_header(header: &str) -> (r: Result<FabHeader, FabError>)
    ensures
        r == fab_header_of(header.spec_bytes()),
{
    let line = header.as_bytes();
    let n = line.len();
    if n < 4 || line[0] != 70 || line[1] != 65 || line[2] != 66 || line[3] != 32 {
        proof {
            if fab_prefix().is_prefix_of(line@) {
                assert(line@[0] == fab_prefix()[0]);
                assert(line@[1] == fab_prefix()[1]);
                assert(line@[2] == fab_prefix()[2]);
                assert(line@[3] == fab_prefix()[3]);
            }
        }
        return Err(FabError::MissingPrefix);
    }
    assert(fab_prefix() =~= line@.take(4));
    let rest = &line[4..n];
    assert(rest@ =~= line@.skip(4));
    let len = match balanced_prefix_len(rest) {
        Ok(len) => len,
        Err(e) => return Err(e),
    };
    proof {
        let c = choose|c: nat| #[trigger] balanced_prefix(rest@, c);
        lemma_balanced_unique(rest@, c, len as nat);
        assert(rest@.subrange(0, len as int) =~= rest@.take(len as int));
        assert(rest@.subrange(len as int, rest@.len() as int) =~= rest@.skip(len as int));
    }
    let descriptor = match integers(&rest[0..len]) {
        Ok(d) => d,
        Err(e) => return Err(e),
    };
    let encoding = match parse_encoding(&descriptor) {
        Ok(encoding) => encoding,
        Err(e) => return Err(e),
    };
    match integers(&rest[len..rest.len()]) {
        Ok(v) => parse_fab_box(&v, encoding),
        Err(e) => Err(e),
    }
}

/// Number of indices from `lower` to `upper`, both included.
pub open spec fn span(lower: i32, upper: i32) -> int {
    upper - lower + 1
}

/// Extent of a box along each axis.
pub fn shape(lower: IVec3, upper: IVec3) -> (r: Result<[usize; 3], FabError>)
    ensures
        r matches Ok(s) ==> {
            &&& s@[0] == span(lower.x, upper.x)
            &&& s@[1] == span(lower.y, upper.y)
            &&& s@[2] == span(lower.z, upper.z)
        },
        r is Ok <==> {
            &&& 0 < span(lower.x, upper.x) <= usize::MAX
            &&& 0 < span(lower.y, upper.y) <= usize::MAX
            &&& 0 < span(lower.z, upper.z) <= usize::MAX
        },
        r matches Err(e) ==> e == if span(lower.x, upper.x) <= 0 || span(lower.y, upper.y) <= 0
            || span(lower.z, upper.z) <= 0 {
            FabError::EmptyBox
        } else {
            FabError::Overflow
        },
{
    let x: i64 = upper.x as i64 - lower.x as i64 + 1;
    let y: i64 = upper.y as i64 - lower.y as i64 + 1;
    let z: i64 = upper.z as i64 - lower.z as i64 + 1;
    if x <= 0 || y <= 0 || z <= 0 {
        return Err(FabError::EmptyBox);
    }
    match (to_size(x), to_size(y), to_size(z)) {
        (Some(x), Some(y), Some(z)) => Ok([x, y, z]),
        _ => Err(FabError::Overflow),
    }
}

/// The box of a FAB is the patch box grown by the ghost width.
pub open spec fn grown_box(h: FabHeader, domain: IndexDomain, ghost_width: int) -> bool {
    &&& h.lower.x == domain.min.x - ghost_width
    &&& h.lower.y == domain.min.y - ghost_width
    &&& h.lower.z == domain.min.z - ghost_width
    &&& h.upper.x == domain.max.x + ghost_width
    &&& h.upper.y == domain.max.y + ghost_width
    &&& h.upper.z == domain.max.z + ghost_width
    &&& h.index_type == domain.index_type
}

fn is_grown_box(h: &FabHeader, domain: IndexDomain, ghost_width: i32) -> (b: bool)
    requires
        ghost_width >= 0,
    ensures
        b == grown_box(*h, domain, ghost_width as int),
{
    let g: i64 = ghost_width as i64;
    h.lower.x as i64 == domain.min.x as i64 - g && h.lower.y as i64 == domain.min.y as i64 - g
        && h.lower.z as i64 == domain.min.z as i64 - g && h.upper.x as i64 == domain.max.x as i64
        + g && h.upper.y as i64 == domain.max.y as i64 + g && h.upper.z as i64
        == domain.max.z as i64 + g && h.index_type == domain.index_type
}

/// Place of the first newline, or the length.
pub open spec fn newline(bytes: Seq<u8>) -> nat
    decreases bytes.len(),
{
    if bytes.len() == 0 || bytes[0] == 10 {
        0
    } else {
        1 + newline(bytes.drop_first())
    }
}

/// Number of cells of a FAB.
pub open spec fn cell_total(h: FabHeader) -> int {
    span(h.lower.x, h.upper.x) * span(h.lower.y, h.upper.y) * span(h.lower.z, h.upper.z)
}

/// Where the data of one component lies in the file: from the first to the second place.
pub open spec fn data_range(h: FabHeader, data_start: int, component: usize) -> (int, int) {
    let per = cell_total(h) * h.encoding.scalar.width();
    (data_start + component * per, data_start + component * per + per)
}

/// The FAB record at `offset` of a file.
pub open spec fn record_header_of(
    file: Seq<u8>,
    offset: u64,
    variable_count: nat,
    ghost_width: usize,
    domain: IndexDomain,
) -> Result<FabHeader, FabError> {
    let tail = file.skip(offset as int);
    let n = newline(tail) as int;
    if offset > usize::MAX {
        Err(FabError::Overflow)
    } else if offset >= file.len() {
        Err(FabError::OffsetPastEnd)
    } else if n >= 4096 || n >= tail.len() {
        Err(FabError::MissingHeaderLine)
    } else if !valid_utf8(tail.take(n)) {
        Err(FabError::InvalidText)
    } else {
        match fab_header_of(tail.take(n)) {
            Err(e) => Err(e),
            Ok(h) => if h.component_count != variable_count {
                Err(FabError::ComponentCountMismatch)
            } else if ghost_width > i32::MAX {
                Err(FabError::InvalidNumber)
            } else if !grown_box(h, domain, ghost_width as int) {
                Err(FabError::BoxMismatch)
            } else {
                Ok(h)
            },
        }
    }
}

/// One component of the FAB record at `offset` of a file: its header and its bytes.
pub open spec fn component_of(
    file: Seq<u8>,
    offset: u64,
    variable_count: nat,
    ghost_width: usize,
    domain: IndexDomain,
    component: usize,
) -> Result<(FabHeader, Seq<u8>), FabError> {
    match record_header_of(file, offset, variable_count, ghost_width, domain) {
        Err(e) => Err(e),
        Ok(h) => {
            let data_start = offset + newline(file.skip(offset as int)) + 1;
            let (start, end) = data_range(h, data_start, component);
            if span(h.lower.x, h.upper.x) <= 0 || span(h.lower.y, h.upper.y) <= 0 || span(
                h.lower.z,
                h.upper.z,
            ) <= 0 {
                Err(FabError::EmptyBox)
            } else if end > usize::MAX {
                Err(FabError::Overflow)
            } else if end > file.len() {
                Err(FabError::DataPastEnd)
            } else {
                Ok((h, file.subrange(start, end)))
            }
        },
    }
}

/// Place of the first newline among the first 4096 bytes.
fn find_newline(bytes: &[u8]) -> (r: Option<usize>)
    ensures
        r == if newline(bytes@) < 4096 && newline(bytes@) < bytes@.len() {
            Some(newline(bytes@) as usize)
        } else {
            None
        },
{
    let len = bytes.len();
    let mut at: usize = 0;
    assert(bytes@.skip(0) =~= bytes@);
    while at < len && at < 4096
        invariant
            at <= len,
            at <= 4096,
            len == bytes@.len(),
            newline(bytes@) == at + newline(bytes@.skip(at as int)),
        decreases len - at,
    {
        if bytes[at] == 10 {
            return Some(at);
        }
        assert(bytes@.skip(at as int).drop_first() =~= bytes@.skip(at + 1));
        at += 1;
    }
    None
}

/// Reads and checks the header line of the FAB record at `offset`. Returns it with the place
/// where the data starts.
fn record_header(
    file: &[u8],
    offset: u64,
    variable_count: usize,
    ghost_width: usize,
    domain: IndexDomain,
) -> (r: Result<(FabHeader, usize), FabError>)
    ensures
        match record_header_of(file@, offset, variable_count as nat, ghost_width, domain) {
            Err(e) => r == Err::<(FabHeader, usize), FabError>(e),
            Ok(h) => r matches Ok((g, at)) && g == h && at == offset + newline(
                file@.skip(offset as int),
            ) + 1 && at <= file@.len(),
        },
{
    if offset > usize::MAX as u64 {
        return Err(FabError::Overflow);
    }
    let start = offset as usize;
    if start >= file.len() {
        return Err(FabError::OffsetPastEnd);
    }
    let tail = &file[start..file.len()];
    assert(tail@ =~= file@.skip(offset as int));
    let n = match find_newline(tail) {
        Some(n) => n,
        None => return Err(FabError::MissingHeaderLine),
    };
    let line = &tail[0..n];
    assert(line@ =~= tail@.take(n as int));
    let text = match utf8_text(line) {
        Some(text) => text,
        None => return Err(FabError::InvalidText),
    };
    proof {
        vstd::utf8::decode_utf8_encode_utf8(line@);
    }
    let h = match parse_fab_header(text) {
        Ok(h) => h,
        Err(e) => return Err(e),
    };
    if h.component_count != variable_count {
        return Err(FabError::ComponentCountMismatch);
    }
    if ghost_width > i32::MAX as usize {
        return Err(FabError::InvalidNumber);
    }
    if !is_grown_box(&h, domain, ghost_width as i32) {
        return Err(FabError::BoxMismatch);
    }
    Ok((h, start + n + 1))
}

/// A product of positive factors is no smaller than a partial one.
proof fn lemma_products(x: int, y: int, z: int, w: int)
    requires
        x > 0,
        y > 0,
        z > 0,
        w > 0,
    ensures
        0 < x * y <= x * y * z <= x * y * z * w,
{
    assert(0 < x * y) by (nonlinear_arith)
        requires
            x > 0,
            y > 0,
    ;
    assert(x * y <= x * y * z) by (nonlinear_arith)
        requires
            0 < x * y,
            z >= 1,
    ;
    assert(x * y * z <= x * y * z * w) by (nonlinear_arith)
        requires
            0 < x * y * z,
            w >= 1,
    ;
}

/// Finds one component of the FAB record at `offset` of a file.
pub fn view_record<'a>(
    file: &'a [u8],
    offset: u64,
    variable_count: usize,
    ghost_width: usize,
    domain: IndexDomain,
    component: usize,
) -> (r: Result<ComponentView<'a>, FabError>)
    ensures
        match component_of(
            file@,
            offset,
            variable_count as nat,
            ghost_width,
            domain,
            component,
        ) {
            Err(e) => r == Err::<ComponentView<'a>, FabError>(e),
            Ok((h, data)) => r matches Ok(view) && view.wf()
                && view.header() == (h.encoding, h.lower, h.upper) && view.data()
                == data && view.number() == component,
        },
{
    let (h, data_start) = match record_header(file, offset, variable_count, ghost_width, domain) {
        Ok(v) => v,
        Err(e) => return Err(e),
    };
    let sx: i64 = h.upper.x as i64 - h.lower.x as i64 + 1;
    let sy: i64 = h.upper.y as i64 - h.lower.y as i64 + 1;
    let sz: i64 = h.upper.z as i64 - h.lower.z as i64 + 1;
    let ghost (x, y, z) = (sx as int, sy as int, sz as int);
    let width = h.encoding.scalar.byte_width();
    let ghost w = width as int;
    let ghost cells = cell_total(h);
    let ghost per = cells * w;
    let ghost (start, end) = data_range(h, data_start as int, component);
    if sx <= 0 || sy <= 0 || sz <= 0 {
        return Err(FabError::EmptyBox);
    }
    proof {
        lemma_products(x, y, z, w);
        assert(component * per >= 0) by (nonlinear_arith)
            requires
                per > 0,
                component >= 0,
        ;
        assert(x <= x * y && y <= x * y) by (nonlinear_arith)
            requires
                x >= 1,
                y >= 1,
        ;
        assert(z <= x * y * z) by (nonlinear_arith)
            requires
                x * y >= 1,
                z >= 1,
        ;
    }
    let extent = match shape(h.lower, h.upper) {
        Ok(extent) => extent,
        Err(e) => return Err(e),
    };
    let cell_count = match extent[0].checked_mul(extent[1]) {
        Some(xy) => match xy.checked_mul(extent[2]) {
            Some(n) => n,
            None => return Err(FabError::Overflow),
        },
        None => return Err(FabError::Overflow),
    };
    let bytes_per_component = match cell_count.checked_mul(width) {
        Some(n) => n,
        None => return Err(FabError::Overflow),
    };
    let component_offset = match component.checked_mul(bytes_per_component) {
        Some(n) => n,
        None => return Err(FabError::Overflow),
    };
    let from = match data_start.checked_add(component_offset) {
        Some(n) => n,
        None => return Err(FabError::Overflow),
    };
    let to = match from.checked_add(bytes_per_component) {
        Some(n) => n,
        None => return Err(FabError::Overflow),
    };
    if to > file.len() {
        return Err(FabError::DataPastEnd);
    }
    Ok(
        ComponentView {
            bytes: &file[from..to],
            shape: extent,
            origin: h.lower,
            component,
            encoding: h.encoding,
        },
    )
}

/// Finds one component of a patch in the mapped data file of the patch.
pub fn component_view<'a, S: Copy>(mapping: &'a [u8], patch: Patch<'_, S>, component: usize) -> (r:
    Result<ComponentView<'a>, FabError>)
    requires
        patch.wf(),
    ensures
        patch_component_of(mapping@, patch, component) matches Err(e) ==> r == Err::<
            ComponentView<'a>,
            FabError,
        >(e),
        patch_component_of(mapping@, patch, component) matches Ok((h, data)) ==> (r matches Ok(view)
            && view.wf() && view.header() == (h.encoding, h.lower, h.upper) && view.data() == data
            && view.number() == component),
{
    if component >= patch.variable_count() {
        return Err(FabError::ComponentOutOfRange);
    }
    view_record(
        mapping,
        patch.data_offset(),
        patch.variable_count(),
        patch.ghost_cell_width(),
        patch.index_box(),
        component,
    )
}

/// One component of a patch in its data file.
pub open spec fn patch_component_of<S: Copy>(
    file: Seq<u8>,
    patch: Patch<'_, S>,
    component: usize,
) -> Result<(FabHeader, Seq<u8>), FabError> {
    let fab = patch.cell_header().fabs[patch.number()];
    if component >= patch.file().head().names.len() {
        Err(FabError::ComponentOutOfRange)
    } else {
        component_of(
            file,
            fab.file_offset,
            patch.file().head().names.len(),
            patch.cell_header().ghost_cell_width,
            fab.domain,
            component,
        )
    }
}

/// The number whose digits to base 256 are `s`, lowest first.
pub open spec fn little_endian_value(s: Seq<u8>) -> nat
    decreases s.len(),
{
    if s.len() == 0 {
        0
    } else {
        s[0] as nat + 256 * little_endian_value(s.drop_first())
    }
}

/// The number whose digits to base 256 are `s`, highest first.
pub open spec fn big_endian_value(s: Seq<u8>) -> nat
    decreases s.len(),
{
    if s.len() == 0 {
        0
    } else {
        256 * big_endian_value(s.drop_last()) + s.last() as nat
    }
}

/// The number that `s` stores.
pub open spec fn stored_value(s: Seq<u8>, order: ByteOrder) -> nat {
    match order {
        ByteOrder::LittleEndian => little_endian_value(s),
        ByteOrder::BigEndian => big_endian_value(s),
    }
}

/// The bits of value `index` of a list of stored values.
pub open spec fn decoded(bytes: Seq<u8>, encoding: Encoding, index: int) -> RawScalar {
    let w = encoding.scalar.width() as int;
    let v = stored_value(bytes.subrange(index * w, index * w + w), encoding.byte_order);
    match encoding.scalar {
        ScalarType::F32 => RawScalar::F32(v as u32),
        ScalarType::F64 => RawScalar::F64(v as u64),
    }
}

/// `256^n`.
spec fn pow256(n: nat) -> nat
    decreases n,
{
    if n == 0 {
        1
    } else {
        256 * pow256((n - 1) as nat)
    }
}

proof fn lemma_pow256_monotone(a: nat, b: nat)
    requires
        a <= b,
    ensures
        1 <= pow256(a) <= pow256(b),
    decreases b,
{
    if a < b {
        lemma_pow256_monotone(a, (b - 1) as nat);
    } else if a > 0 {
        lemma_pow256_monotone((a - 1) as nat, (a - 1) as nat);
    }
}

proof fn lemma_pow256_values()
    ensures
        pow256(4) == 0x1_0000_0000,
        pow256(8) == 0x1_0000_0000_0000_0000,
{
    reveal_with_fuel(pow256, 9);
}

/// The number that `bytes[start..start + width]` stores.
fn stored_bits(bytes: &[u8], start: usize, width: usize, order: ByteOrder) -> (v: u64)
    requires
        width <= 8,
        start + width <= bytes@.len(),
    ensures
        v == stored_value(bytes@.subrange(start as int, start + width), order),
        v < pow256(width as nat),
{
    let ghost s = bytes@.subrange(start as int, start + width);
    let end = bytes.len();
    proof {
        lemma_pow256_values();
    }
    let mut value: u64 = 0;
    let mut done: usize = 0;
    match order {
        ByteOrder::LittleEndian => {
            assert(s.skip(width as int) =~= Seq::empty());
            while done < width
                invariant
                    done <= width <= 8,
                    start + width <= end == bytes@.len(),
                    s == bytes@.subrange(start as int, start + width),
                    value == little_endian_value(s.skip(width - done)),
                    value < pow256(done as nat),
                    pow256(8) == 0x1_0000_0000_0000_0000,
                decreases width - done,
            {
                let at = start + (width - 1 - done);
                proof {
                    let t = s.skip(width - done - 1);
                    assert(t.drop_first() =~= s.skip(width - done));
                    assert(t[0] == bytes@[at as int]);
                    lemma_pow256_monotone((done + 1) as nat, 8);
                    assert(pow256((done + 1) as nat) == 256 * pow256(done as nat));
                }
                value = value * 256 + bytes[at] as u64;
                done += 1;
            }
            assert(s.skip(0) =~= s);
        },
        ByteOrder::BigEndian => {
            assert(s.take(0) =~= Seq::empty());
            while done < width
                invariant
                    done <= width <= 8,
                    start + width <= end == bytes@.len(),
                    s == bytes@.subrange(start as int, start + width),
                    value == big_endian_value(s.take(done as int)),
                    value < pow256(done as nat),
                    pow256(8) == 0x1_0000_0000_0000_0000,
                decreases width - done,
            {
                let at = start + done;
                proof {
                    let t = s.take(done + 1);
                    assert(t.drop_last() =~= s.take(done as int));
                    assert(t.last() == bytes@[at as int]);
                    lemma_pow256_monotone((done + 1) as nat, 8);
                    assert(pow256((done + 1) as nat) == 256 * pow256(done as nat));
                }
                value = value * 256 + bytes[at] as u64;
                done += 1;
            }
            assert(s.take(width as int) =~= s);
        },
    }
    value
}

/// The bits of value `index` of a list of stored values.
pub fn decode(bytes: &[u8], encoding: Encoding, index: usize) -> (r: RawScalar)
    requires
        (index + 1) * encoding.scalar.width() <= bytes@.len(),
    ensures
        r == decoded(bytes@, encoding, index as int),
{
    let width = encoding.scalar.byte_width();
    let total = bytes.len();
    assert((index + 1) * (width as int) == index * (width as int) + width) by (nonlinear_arith);
    assert(0 <= index * (width as int)) by (nonlinear_arith)
        requires
            index >= 0,
            width >= 0,
    ;
    let start = index * width;
    let v = stored_bits(bytes, start, width, encoding.byte_order);
    proof {
        lemma_pow256_values();
    }
    match encoding.scalar {
        ScalarType::F32 => RawScalar::F32(v as u32),
        ScalarType::F64 => RawScalar::F64(v),
    }
}

/// The values of one component of one FAB.
#[derive(Clone, Copy)]
pub struct ComponentView<'a> {
    bytes: &'a [u8],
    shape: [usize; 3],
    origin: IVec3,
    component: usize,
    encoding: Encoding,
}

impl<'a> ComponentView<'a> {
    /// The stored bytes.
    pub closed spec fn data(self) -> Seq<u8> {
        self.bytes@
    }

    /// Extents along the three axes.
    pub closed spec fn extents(self) -> (nat, nat, nat) {
        (self.shape@[0] as nat, self.shape@[1] as nat, self.shape@[2] as nat)
    }

    /// Lowest index.
    pub closed spec fn lowest(self) -> IVec3 {
        self.origin
    }

    /// Index of the component.
    pub closed spec fn number(self) -> usize {
        self.component
    }

    /// How the values are stored.
    pub closed spec fn stored_as(self) -> Encoding {
        self.encoding
    }

    /// Encoding and box.
    pub open spec fn header(self) -> (Encoding, IVec3, IVec3) {
        (
            self.stored_as(),
            self.lowest(),
            IVec3 {
                x: (self.lowest().x + self.extents().0 - 1) as i32,
                y: (self.lowest().y + self.extents().1 - 1) as i32,
                z: (self.lowest().z + self.extents().2 - 1) as i32,
            },
        )
    }

    /// Number of values.
    pub open spec fn count(self) -> nat {
        self.extents().0 * self.extents().1 * self.extents().2
    }

    /// There are exactly the bytes of the values.
    pub closed spec fn wf(self) -> bool {
        &&& self.count() * self.encoding.scalar.width() == self.bytes@.len()
        &&& self.shape@[0] > 0
        &&& self.shape@[1] > 0
        &&& self.shape@[2] > 0
        &&& self.origin.x + self.shape@[0] - 1 <= i32::MAX
        &&& self.origin.y + self.shape@[1] - 1 <= i32::MAX
        &&& self.origin.z + self.shape@[2] - 1 <= i32::MAX
    }

    /// Position of an index in the list of values, x-fastest; `None` outside the box.
    pub open spec fn place(self, index: IVec3) -> Option<int> {
        let (x, y, z) = (
            index.x - self.lowest().x,
            index.y - self.lowest().y,
            index.z - self.lowest().z,
        );
        let (ex, ey, ez) = self.extents();
        if 0 <= x < ex && 0 <= y < ey && 0 <= z < ez {
            Some(x + ex * (y + ey * z))
        } else {
            None
        }
    }

    /// The extents are those of the box.
    pub proof fn lemma_box(self)
        requires
            self.wf(),
        ensures
            ({
                let (_, lower, upper) = self.header();
                &&& lower == self.lowest()
                &&& upper.x == lower.x + self.extents().0 - 1
                &&& upper.y == lower.y + self.extents().1 - 1
                &&& upper.z == lower.z + self.extents().2 - 1
            }),
    {
    }

    /// Extents along the three axes.
    pub fn shape(&self) -> (r: [usize; 3])
        ensures
            r@[0] == self.extents().0,
            r@[1] == self.extents().1,
            r@[2] == self.extents().2,
    {
        self.shape
    }

    /// Lowest index.
    pub fn origin(&self) -> (r: IVec3)
        ensures
            r == self.lowest(),
    {
        self.origin
    }

    /// Index of the component.
    pub fn component(&self) -> (r: usize)
        ensures
            r == self.number(),
    {
        self.component
    }

    /// Width of the stored values.
    pub fn scalar_type(&self) -> (r: ScalarType)
        ensures
            r == self.stored_as().scalar,
    {
        self.encoding.scalar
    }

    /// Byte order of the stored values.
    pub fn byte_order(&self) -> (r: ByteOrder)
        ensures
            r == self.stored_as().byte_order,
    {
        self.encoding.byte_order
    }

    /// Number of values.
    pub fn len(&self) -> (n: usize)
        requires
            self.wf(),
        ensures
            n == self.count(),
    {
        let total = self.bytes.len();
        proof {
            lemma_products(
                self.shape@[0] as int,
                self.shape@[1] as int,
                self.shape@[2] as int,
                self.encoding.scalar.width() as int,
            );
        }
        self.shape[0] * self.shape[1] * self.shape[2]
    }

    /// True when there are no values.
    pub fn is_empty(&self) -> (b: bool)
        requires
            self.wf(),
        ensures
            b == (self.count() == 0),
    {
        self.len() == 0
    }

    /// The values in storage order.
    pub fn values(&self) -> (r: Values<'a>)
        requires
            self.wf(),
        ensures
            r.wf(),
            r.pending() == Seq::new(
                self.count(),
                |k: int| decoded(self.data(), self.stored_as(), k),
            ),
    {
        let n = self.len();
        proof {
            assert(self.count() * self.encoding.scalar.width() == self.bytes@.len());
        }
        let r = Values { bytes: self.bytes, encoding: self.encoding, front: 0, back: n };
        assert(r.pending() =~= Seq::new(
            self.count(),
            |k: int| decoded(self.data(), self.stored_as(), k),
        ));
        r
    }

    /// The bits of the value in place `index`.
    pub fn get_linear(&self, index: usize) -> (r: Option<RawScalar>)
        requires
            self.wf(),
        ensures
            r == if index < self.count() {
                Some(decoded(self.data(), self.stored_as(), index as int))
            } else {
                None
            },
    {
        if index < self.len() {
            proof {
                let w = self.encoding.scalar.width();
                let n = self.count();
                assert((index + 1) * w <= n * w) by (nonlinear_arith)
                    requires
                        index + 1 <= n,
                ;
            }
            Some(decode(self.bytes, self.encoding, index))
        } else {
            None
        }
    }

    /// The bits of the value at `index`.
    pub fn get(&self, index: IVec3) -> (r: Option<RawScalar>)
        requires
            self.wf(),
        ensures
            r == match self.place(index) {
                Some(k) => Some(decoded(self.data(), self.stored_as(), k)),
                None => None,
            },
            self.place(index) matches Some(k) ==> 0 <= k < self.count(),
    {
        let x: i64 = index.x as i64 - self.origin.x as i64;
        let y: i64 = index.y as i64 - self.origin.y as i64;
        let z: i64 = index.z as i64 - self.origin.z as i64;
        if x < 0 || y < 0 || z < 0 || x as u64 >= self.shape[0] as u64 || y as u64
            >= self.shape[1] as u64 || z as u64 >= self.shape[2] as u64 {
            return None;
        }
        let n = self.len();
        proof {
            lemma_place(
                x as int,
                y as int,
                z as int,
                self.shape@[0] as int,
                self.shape@[1] as int,
                self.shape@[2] as int,
            );
        }
        let linear = x as usize + self.shape[0] * (y as usize + self.shape[1] * z as usize);
        self.get_linear(linear)
    }

    /// The stored bytes.
    pub fn as_bytes(&self) -> (r: &'a [u8])
        ensures
            r@ == self.data(),
    {
        self.bytes
    }

    /// True when the bytes, lying at `address` on a machine with byte order `native`, are
    /// 64-bit values that can be read in place.
    pub fn is_native_f64(&self, native: ByteOrder, address: usize) -> (b: bool)
        ensures
            b == (self.stored_as() == (Encoding { scalar: ScalarType::F64, byte_order: native })
                && self.data().len() % 8 == 0 && address % 8 == 0),
    {
        self.encoding.scalar == ScalarType::F64 && self.encoding.byte_order == native
            && self.bytes.len() % 8 == 0 && address % 8 == 0
    }
}

/// x-fastest places lie below the number of values.
proof fn lemma_place(x: int, y: int, z: int, ex: int, ey: int, ez: int)
    requires
        0 <= x < ex,
        0 <= y < ey,
        0 <= z < ez,
    ensures
        0 <= ey * z <= y + ey * z,
        0 <= ex * (y + ey * z) <= x + ex * (y + ey * z) < ex * ey * ez,
        y + ey * z <= ex * (y + ey * z),
{
    assert(0 <= ey * z) by (nonlinear_arith)
        requires
            0 <= z,
            0 < ey,
    ;
    let r = y + ey * z;
    assert(r + 1 <= ey * ez) by (nonlinear_arith)
        requires
            r == y + ey * z,
            y + 1 <= ey,
            z + 1 <= ez,
            ey > 0,
    ;
    assert(0 <= ex * r && r <= ex * r) by (nonlinear_arith)
        requires
            0 <= r,
            1 <= ex,
    ;
    assert(ex * r + ex <= ex * ey * ez) by (nonlinear_arith)
        requires
            r + 1 <= ey * ez,
            0 < ex,
    ;
}

/// Walks the values of a view from both ends.
pub struct Values<'a> {
    bytes: &'a [u8],
    encoding: Encoding,
    front: usize,
    back: usize,
}

impl<'a> Values<'a> {
    /// The values not handed out yet.
    pub closed spec fn pending(self) -> Seq<RawScalar> {
        Seq::new(
            (self.back - self.front) as nat,
            |k: int| decoded(self.bytes@, self.encoding, self.front + k),
        )
    }

    /// Everything not handed out is stored.
    pub closed spec fn wf(self) -> bool {
        self.front <= self.back && self.back * self.encoding.scalar.width() <= self.bytes@.len()
    }

    /// The first `count` values of `bytes`.
    pub fn new(bytes: &'a [u8], encoding: Encoding, count: usize) -> (r: Self)
        requires
            count * encoding.scalar.width() <= bytes@.len(),
        ensures
            r.wf(),
            r.pending() == Seq::new(count as nat, |k: int| decoded(bytes@, encoding, k)),
    {
        let r = Values { bytes, encoding, front: 0, back: count };
        assert(r.pending() =~= Seq::new(count as nat, |k: int| decoded(bytes@, encoding, k)));
        r
    }

    /// The next value.
    pub fn next(&mut self) -> (r: Option<RawScalar>)
        requires
            old(self).wf(),
        ensures
            final(self).wf(),
            match r {
                None => old(self).pending().len() == 0 && final(self).pending() == old(
                    self).pending(),
                Some(v) => old(self).pending() == seq![v] + final(self).pending(),
            },
    {
        if self.front == self.back {
            return None;
        }
        let index = self.front;
        proof {
            let w = self.encoding.scalar.width();
            let b = self.back;
            assert((index + 1) * w <= b * w) by (nonlinear_arith)
                requires
                    index + 1 <= b,
            ;
        }
        self.front = index + 1;
        let v = decode(self.bytes, self.encoding, index);
        assert(old(self).pending() =~= seq![v] + self.pending());
        Some(v)
    }

    /// The last value.
    pub fn next_back(&mut self) -> (r: Option<RawScalar>)
        requires
            old(self).wf(),
        ensures
            final(self).wf(),
            match r {
                None => old(self).pending().len() == 0 && final(self).pending() == old(
                    self).pending(),
                Some(v) => old(self).pending() == final(self).pending().push(v),
            },
    {
        if self.front == self.back {
            return None;
        }
        let last = self.back - 1;
        proof {
            let w = self.encoding.scalar.width();
            let b = self.back;
            assert(last * w <= b * w) by (nonlinear_arith)
                requires
                    last <= b,
            ;
        }
        self.back = last;
        let v = decode(self.bytes, self.encoding, last);
        assert(old(self).pending() =~= self.pending().push(v));
        Some(v)
    }

    /// Number of values not handed out yet.
    pub fn len(&self) -> (n: usize)
        requires
            self.wf(),
        ensures
            n == self.pending().len(),
    {
        self.back - self.front
    }
}

/// `u16::to_ne_bytes` of the number one.
///
/// Claimed of it: one of the two bytes is 1 and the other 0. Which one depends on the machine.
#[verifier::external_body]
fn one_in_memory() -> (r: [u8; 2])
    ensures
        r@ =~= seq![1u8, 0] || r@ =~= seq![0u8, 1],
{
    1u16.to_ne_bytes()
}

/// The byte order of a machine that stores the number one as these two bytes.
pub open spec fn order_of(one: [u8; 2]) -> ByteOrder {
    if one@[0] == 1 {
        ByteOrder::LittleEndian
    } else {
        ByteOrder::BigEndian
    }
}

/// The byte order of a machine that stores the number one as these two bytes.
pub fn byte_order_from(one: [u8; 2]) -> (r: ByteOrder)
    ensures
        r == order_of(one),
{
    if one[0] == 1 {
        ByteOrder::LittleEndian
    } else {
        ByteOrder::BigEndian
    }
}

/// `one` is what `u16::to_ne_bytes` gives for the number one.
pub closed spec fn stores_one_as(one: [u8; 2]) -> bool {
    call_ensures(one_in_memory, (), one)
}

/// The byte order of this machine: little-endian when it stores the low byte of the number one
/// first, big-endian when it stores the high byte first. Which of them is left to the machine.
pub fn native_byte_order() -> (r: ByteOrder)
    ensures
        exists|one: [u8; 2]| #[trigger]
            stores_one_as(one) && r == order_of(one) && one@ =~= match r {
                ByteOrder::LittleEndian => seq![1u8, 0],
                ByteOrder::BigEndian => seq![0u8, 1],
            },
{
    let one = one_in_memory();
    assert(stores_one_as(one));
    byte_order_from(one)
}

} // verus!
