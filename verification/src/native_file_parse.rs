//! Parsing of the `Header` and `Cell_H` metadata files.

use std::collections::HashMap;

use vstd::prelude::*;

use crate::native_file::{
    box_models, cell_consistent, consistent, matches_level, names_of, numbered, record_models,
    BoundingBox, BoxInfo, BoxModel, CellHeader, CellHeaderModel, ComponentBounds, CoordinateSystem, Header, HeaderModel, IndexDomain,
    PerLevelRecord, RecordModel, V1StorageMode, Variable,
};
use crate::text_parsing::{
    after_prefix, chars_of, demand_step, dyn_array_step, fixed_array_of, fixed_array_step, i32_of,
    lemma_repeat_fails, line_len, list_view, parse_fields, parse_i32, parse_u32, parse_u64,
    parse_usize, parses, pieces, read_dyn_array, read_fixed_array, read_parsed, repeat_step,
    skipped, split_on, split_whitespace, stepped, string_of, strip_prefix, taken, takes_all,
    text_is, texts, trim, trimmed, u32_of, u64_of, usize_of, value_step, values_of, words,
    Delimiter, LineChomper, Meaning, ParseError, Reader, Step,
};
use crate::vec3::{IVec3, Vec3};

verus! {

/// Three integers, from a field of three comma-separated ones.
pub open spec fn index_of(text: Seq<char>) -> Result<IVec3, ParseError> {
    match fixed_array_of(Delimiter::Char(','), text, 3, |t: Seq<char>| i32_of(t)) {
        Err(e) => Err(e),
        Ok(v) => Ok(IVec3 { x: v[0], y: v[1], z: v[2] }),
    }
}

/// The text after blanks and then opening parentheses.
pub open spec fn opened(s: Seq<char>) -> Seq<char> {
    skipped(skipped(s, ' '), '(')
}

/// A box such as `((0,0,0) (255,95,95) (0,0,0))` at the front of a text, and the text after it.
pub open spec fn index_domain_of(s: Seq<char>) -> Result<(IndexDomain, Seq<char>), ParseError> {
    let (first, s1) = taken(opened(s), ')');
    let (second, s2) = taken(opened(s1), ')');
    let (third, s3) = taken(opened(s2), ')');
    match index_of(first) {
        Err(e) => Err(e),
        Ok(min) => match index_of(second) {
            Err(e) => Err(e),
            Ok(max) => match index_of(third) {
                Err(e) => Err(e),
                Ok(index_type) => Ok(
                    (IndexDomain { min, max, index_type }, skipped(skipped(s3, ')'), ' ')),
                ),
            },
        },
    }
}

/// The boxes of a line.
pub open spec fn index_domains_of(s: Seq<char>) -> Result<Seq<IndexDomain>, ParseError>
    decreases s.len(),
{
    if s.len() == 0 {
        Ok(Seq::empty())
    } else {
        match index_domain_of(s) {
            Err(e) => Err(e),
            Ok((d, rest)) => if rest.len() < s.len() {
                match index_domains_of(rest) {
                    Err(e) => Err(e),
                    Ok(list) => Ok(seq![d] + list),
                }
            } else {
                Err(ParseError::InvalidValue)
            },
        }
    }
}

/// Reads three comma-separated integers.
fn read_index(text: &[char]) -> (r: Result<IVec3, ParseError>)
    ensures
        r == index_of(text@),
        r is Ok ==> text@.len() > 0,
{
    let tokens = split_on(text, ',');
    proof {
        assert(parses(parse_i32, |t: Seq<char>| i32_of(t)));
        if text@.len() == 0 {
            assert(pieces(text@, ',') =~= seq![text@]);
        }
    }
    match parse_fields(&tokens, &parse_i32) {
        Err(e) => Err(e),
        Ok(v) => if v.len() == 3 {
            Ok(IVec3::new(v[0], v[1], v[2]))
        } else {
            Err(ParseError::WrongCount)
        },
    }
}

/// Reads a box such as `((0,0,0) (255,95,95) (0,0,0))`.
pub fn read_index_domain(chomper: &mut LineChomper) -> (r: Result<IndexDomain, ParseError>)
    ensures
        r matches Ok(d) ==> index_domain_of(old(chomper)@) == Ok::<
            (IndexDomain, Seq<char>),
            ParseError,
        >((d, final(chomper)@)) && final(chomper)@.len() < old(chomper)@.len(),
        r matches Err(e) ==> index_domain_of(old(chomper)@) == Err::<
            (IndexDomain, Seq<char>),
            ParseError,
        >(e),
{
    chomper.skip_whitespace();
    chomper.skip('(');
    let min = match read_index(chomper.take_till(')')) {
        Ok(v) => v,
        Err(e) => return Err(e),
    };
    chomper.skip_whitespace();
    chomper.skip('(');
    let max = match read_index(chomper.take_till(')')) {
        Ok(v) => v,
        Err(e) => return Err(e),
    };
    chomper.skip_whitespace();
    chomper.skip('(');
    let index_type = match read_index(chomper.take_till(')')) {
        Ok(v) => v,
        Err(e) => return Err(e),
    };
    chomper.skip(')');
    chomper.skip_whitespace();
    Ok(IndexDomain { min, max, index_type })
}

/// A line of boxes.
pub open spec fn index_domains_step(bytes: Seq<u8>) -> Step<Seq<IndexDomain>> {
    match demand_step(bytes) {
        Err(e) => Err(e),
        Ok((text, rest)) => match index_domains_of(trimmed(text)) {
            Err(e) => Err(e),
            Ok(list) => Ok((list, rest)),
        },
    }
}

/// Parses a line of boxes.
fn parse_index_domains(text: &[char]) -> (r: Result<Vec<IndexDomain>, ParseError>)
    ensures
        list_view(r) == index_domains_of(trimmed(text@)),
{
    let mut chomper = LineChomper::new(text);
    let mut out: Vec<IndexDomain> = Vec::new();
    let ghost whole = index_domains_of(trimmed(text@));
    proof {
        if whole is Ok {
            assert(out@ + whole->Ok_0 =~= whole->Ok_0);
        }
    }
    while chomper.has_more()
        invariant
            whole == index_domains_of(trimmed(text@)),
            match index_domains_of(chomper@) {
                Ok(list) => whole == Ok::<Seq<IndexDomain>, ParseError>(out@ + list),
                Err(e) => whole == Err::<Seq<IndexDomain>, ParseError>(e),
            },
        decreases chomper@.len(),
    {
        let ghost before = out@;
        let ghost here = chomper@;
        match read_index_domain(&mut chomper) {
            Ok(d) => {
                out.push(d);
                proof {
                    if let Ok(list) = index_domains_of(chomper@) {
                        assert(before + (seq![d] + list) =~= out@ + list);
                    }
                }
            },
            Err(e) => return Err(e),
        }
    }
    proof {
        assert(out@ + Seq::<IndexDomain>::empty() =~= out@);
    }
    Ok(out)
}

/// Reads a line of boxes.
pub fn read_index_domains(lines: &mut Reader) -> (r: Result<Vec<IndexDomain>, ParseError>)
    requires
        old(lines).wf(),
    ensures
        final(lines).wf(),
        stepped(index_domains_step(old(lines)@), list_view(r), final(lines)@),
{
    let text = match lines.demand_next_line() {
        Ok(text) => text,
        Err(e) => return Err(e),
    };
    let chars = chars_of(text.as_str());
    parse_index_domains(chars.as_slice())
}

/// A pair of scalars, lower and upper, per axis: one line for each.
pub open spec fn grid_step<S>(
    bytes: Seq<u8>,
    value: Meaning<S>,
) -> Step<BoundingBox<S>> {
    match fixed_array_step(bytes, Delimiter::Whitespace, 2, value) {
        Err(e) => Err(e),
        Ok((x, rest)) => match fixed_array_step(rest, Delimiter::Whitespace, 2, value) {
            Err(e) => Err(e),
            Ok((y, rest)) => match fixed_array_step(rest, Delimiter::Whitespace, 2, value) {
                Err(e) => Err(e),
                Ok((z, rest)) => Ok(
                    (
                        BoundingBox {
                            min: Vec3 { x: x[0], y: y[0], z: z[0] },
                            max: Vec3 { x: x[1], y: y[1], z: z[1] },
                        },
                        rest,
                    ),
                ),
            },
        },
    }
}

fn read_grid<S: Copy, F: Fn(&[char]) -> Option<S>>(
    lines: &mut Reader,
    parse: &F,
) -> (r: Result<BoundingBox<S>, ParseError>)
    requires
        old(lines).wf(),
        takes_all(*parse),
    ensures
        final(lines).wf(),
        forall|value: Meaning<S>| #[trigger]
            parses(*parse, value) ==> stepped(grid_step(old(lines)@, value), r, final(lines)@),
{
    let x = match read_fixed_array::<S, F, 2>(Delimiter::Whitespace, lines, parse) {
        Ok(v) => v,
        Err(e) => return Err(e),
    };
    let y = match read_fixed_array::<S, F, 2>(Delimiter::Whitespace, lines, parse) {
        Ok(v) => v,
        Err(e) => return Err(e),
    };
    let z = match read_fixed_array::<S, F, 2>(Delimiter::Whitespace, lines, parse) {
        Ok(v) => v,
        Err(e) => return Err(e),
    };
    Ok(
        BoundingBox {
            min: Vec3 { x: x[0], y: y[0], z: z[0] },
            max: Vec3 { x: x[1], y: y[1], z: z[1] },
        },
    )
}

/// Reads the bounds of `count` patches.
fn read_grids<S: Copy, F: Fn(&[char]) -> Option<S>>(
    lines: &mut Reader,
    count: usize,
    parse: &F,
) -> (r: Result<Vec<BoundingBox<S>>, ParseError>)
    requires
        old(lines).wf(),
        takes_all(*parse),
    ensures
        final(lines).wf(),
        r matches Ok(v) ==> v@.len() == count,
        forall|value: Meaning<S>| #[trigger]
            parses(*parse, value) ==> stepped(
                repeat_step(old(lines)@, count as nat, |b: Seq<u8>| grid_step(b, value)),
                list_view(r),
                final(lines)@,
            ),
{
    let ghost start = lines@;
    let mut grids: Vec<BoundingBox<S>> = Vec::new();
    let mut i: usize = 0;
    while i < count
        invariant
            i <= count,
            lines.wf(),
            start == old(lines)@,
            takes_all(*parse),
            grids@.len() == i,
            forall|value: Meaning<S>| #[trigger]
                parses(*parse, value) ==> repeat_step(
                    start,
                    i as nat,
                    |b: Seq<u8>| grid_step(b, value),
                ) == Ok::<(Seq<BoundingBox<S>>, Seq<u8>), ParseError>((grids@, lines@)),
        decreases count - i,
    {
        match read_grid(lines, parse) {
            Ok(grid) => grids.push(grid),
            Err(e) => {
                proof {
                    assert forall|value: Meaning<S>| #[trigger]
                        parses(*parse, value) implies repeat_step(
                        start,
                        count as nat,
                        |b: Seq<u8>| grid_step(b, value),
                    ) == Err::<(Seq<BoundingBox<S>>, Seq<u8>), ParseError>(e) by {
                        lemma_repeat_fails(
                            start,
                            (i + 1) as nat,
                            count as nat,
                            |b: Seq<u8>| grid_step(b, value),
                        );
                    }
                }
                return Err(e);
            },
        }
        i += 1;
    }
    Ok(grids)
}

/// A triple of scalars in one line.
pub open spec fn triple_step<S>(
    bytes: Seq<u8>,
    value: Meaning<S>,
) -> Step<Vec3<S>> {
    match fixed_array_step(bytes, Delimiter::Whitespace, 3, value) {
        Err(e) => Err(e),
        Ok((v, rest)) => Ok((Vec3 { x: v[0], y: v[1], z: v[2] }, rest)),
    }
}

fn read_triple<S: Copy, F: Fn(&[char]) -> Option<S>>(
    lines: &mut Reader,
    parse: &F,
) -> (r: Result<Vec3<S>, ParseError>)
    requires
        old(lines).wf(),
        takes_all(*parse),
    ensures
        final(lines).wf(),
        forall|value: Meaning<S>| #[trigger]
            parses(*parse, value) ==> stepped(triple_step(old(lines)@, value), r, final(lines)@),
{
    match read_fixed_array::<S, F, 3>(Delimiter::Whitespace, lines, parse) {
        Ok(v) => Ok(Vec3 { x: v[0], y: v[1], z: v[2] }),
        Err(e) => Err(e),
    }
}

/// Level index, patch count and time of a record's first line.
pub open spec fn record_line_of<S>(
    text: Seq<char>,
    value: Meaning<S>,
) -> Result<(usize, usize, S), ParseError> {
    let w = words(text);
    if w.len() < 3 {
        Err(ParseError::MissingField)
    } else {
        match (usize_of(w[0]), usize_of(w[1]), value(w[2])) {
            (Some(level), Some(patches), Some(time)) => Ok((level, patches, time)),
            _ => Err(ParseError::InvalidValue),
        }
    }
}

/// The record of one level: its first line, the step, the patch bounds, the data path.
pub open spec fn record_step<S>(
    bytes: Seq<u8>,
    value: Meaning<S>,
) -> Step<RecordModel<S>> {
    match demand_step(bytes) {
        Err(e) => Err(e),
        Ok((text, rest)) => match record_line_of(text, value) {
            Err(e) => Err(e),
            Ok((level_index, patches, time)) => match value_step(rest, |t: Seq<char>| usize_of(t)) {
                Err(e) => Err(e),
                Ok((step, rest)) => match repeat_step(
                    rest,
                    patches as nat,
                    |b: Seq<u8>| grid_step(b, value),
                ) {
                    Err(e) => Err(e),
                    Ok((grids, rest)) => match demand_step(rest) {
                        Err(e) => Err(e),
                        Ok((path, rest)) => Ok(
                            (
                                RecordModel { level_index, patches, time, step, grids, path },
                                rest,
                            ),
                        ),
                    },
                },
            },
        },
    }
}

fn read_record<S: Copy, F: Fn(&[char]) -> Option<S>>(
    lines: &mut Reader,
    parse: &F,
) -> (r: Result<PerLevelRecord<S>, ParseError>)
    requires
        old(lines).wf(),
        takes_all(*parse),
    ensures
        final(lines).wf(),
        r matches Ok(record) ==> record.grids@.len() == record.number_of_grid_patches,
        forall|value: Meaning<S>| #[trigger]
            parses(*parse, value) ==> stepped(
                record_step(old(lines)@, value),
                match r {
                    Ok(record) => Ok(record@),
                    Err(e) => Err(e),
                },
                final(lines)@,
            ),
{
    assert(parses(parse_usize, |t: Seq<char>| usize_of(t)));
    let text = match lines.demand_next_line() {
        Ok(text) => text,
        Err(e) => return Err(e),
    };
    let chars = chars_of(text.as_str());
    let tokens = split_whitespace(chars.as_slice());
    assert(texts(tokens@).len() == tokens@.len());
    if tokens.len() < 3 {
        return Err(ParseError::MissingField);
    }
    proof {
        assert(texts(tokens@)[0] == tokens@[0]@);
        assert(texts(tokens@)[1] == tokens@[1]@);
        assert(texts(tokens@)[2] == tokens@[2]@);
    }
    let (level_index, number_of_grid_patches, simulation_time) = match (
        parse_usize(tokens[0]),
        parse_usize(tokens[1]),
        parse(tokens[2]),
    ) {
        (Some(level), Some(patches), Some(time)) => (level, patches, time),
        _ => return Err(ParseError::InvalidValue),
    };
    let level_step = match read_parsed(lines, &parse_usize) {
        Ok(v) => v,
        Err(e) => return Err(e),
    };
    let grids = match read_grids(lines, number_of_grid_patches, parse) {
        Ok(v) => v,
        Err(e) => return Err(e),
    };
    let path = match lines.demand_next_line() {
        Ok(path) => path,
        Err(e) => return Err(e),
    };
    Ok(
        PerLevelRecord {
            level_index,
            number_of_grid_patches,
            simulation_time,
            level_step,
            grids,
            path,
        },
    )
}

/// Reads `count` lines of text.
fn read_names(lines: &mut Reader, count: usize) -> (r: Result<Vec<Variable>, ParseError>)
    requires
        old(lines).wf(),
    ensures
        final(lines).wf(),
        r matches Ok(v) ==> numbered(v@),
        stepped(
            repeat_step(old(lines)@, count as nat, |b: Seq<u8>| demand_step(b)),
            match r {
                Ok(v) => Ok(names_of(v@)),
                Err(e) => Err(e),
            },
            final(lines)@,
        ),
{
    let ghost start = lines@;
    let ghost item = |b: Seq<u8>| demand_step(b);
    let mut out: Vec<Variable> = Vec::new();
    let mut index: usize = 0;
    assert(names_of(out@) =~= Seq::empty());
    while index < count
        invariant
            index <= count,
            lines.wf(),
            start == old(lines)@,
            item == (|b: Seq<u8>| demand_step(b)),
            out@.len() == index,
            numbered(out@),
            repeat_step(start, index as nat, item) == Ok::<(Seq<Seq<char>>, Seq<u8>), ParseError>(
                (names_of(out@), lines@),
            ),
        decreases count - index,
    {
        let ghost before = out@;
        match lines.demand_next_line() {
            Ok(name) => {
                let ghost text = name@;
                out.push(Variable { name, index });
                assert(names_of(out@) =~= names_of(before).push(text));
            },
            Err(e) => {
                proof {
                    lemma_repeat_fails(start, (index + 1) as nat, count as nat, item);
                }
                return Err(e);
            },
        }
        index += 1;
    }
    Ok(out)
}

/// Reads `count` triples.
fn read_triples<S: Copy, F: Fn(&[char]) -> Option<S>>(
    lines: &mut Reader,
    count: usize,
    parse: &F,
) -> (r: Result<Vec<Vec3<S>>, ParseError>)
    requires
        old(lines).wf(),
        takes_all(*parse),
    ensures
        final(lines).wf(),
        r matches Ok(v) ==> v@.len() == count,
        forall|value: Meaning<S>| #[trigger]
            parses(*parse, value) ==> stepped(
                repeat_step(old(lines)@, count as nat, |b: Seq<u8>| triple_step(b, value)),
                list_view(r),
                final(lines)@,
            ),
{
    let ghost start = lines@;
    let mut out: Vec<Vec3<S>> = Vec::new();
    let mut i: usize = 0;
    while i < count
        invariant
            i <= count,
            lines.wf(),
            start == old(lines)@,
            takes_all(*parse),
            out@.len() == i,
            forall|value: Meaning<S>| #[trigger]
                parses(*parse, value) ==> repeat_step(
                    start,
                    i as nat,
                    |b: Seq<u8>| triple_step(b, value),
                ) == Ok::<(Seq<Vec3<S>>, Seq<u8>), ParseError>((out@, lines@)),
        decreases count - i,
    {
        match read_triple(lines, parse) {
            Ok(v) => out.push(v),
            Err(e) => {
                proof {
                    assert forall|value: Meaning<S>| #[trigger]
                        parses(*parse, value) implies repeat_step(
                        start,
                        count as nat,
                        |b: Seq<u8>| triple_step(b, value),
                    ) == Err::<(Seq<Vec3<S>>, Seq<u8>), ParseError>(e) by {
                        lemma_repeat_fails(
                            start,
                            (i + 1) as nat,
                            count as nat,
                            |b: Seq<u8>| triple_step(b, value),
                        );
                    }
                }
                return Err(e);
            },
        }
        i += 1;
    }
    Ok(out)
}

/// The records of the first `n` levels; the record in place `i` must be of level `i`.
pub open spec fn records_step<S>(
    bytes: Seq<u8>,
    n: nat,
    value: Meaning<S>,
) -> Step<Seq<RecordModel<S>>>
    decreases n,
{
    if n == 0 {
        Ok((Seq::empty(), bytes))
    } else {
        match records_step(bytes, (n - 1) as nat, value) {
            Err(e) => Err(e),
            Ok((list, rest)) => match record_step(rest, value) {
                Err(e) => Err(e),
                Ok((record, after)) => if record.level_index == n - 1 {
                    Ok((list.push(record), after))
                } else {
                    Err(ParseError::Mismatch)
                },
            },
        }
    }
}

proof fn lemma_records_fail<S>(
    bytes: Seq<u8>,
    i: nat,
    n: nat,
    value: Meaning<S>,
)
    requires
        i <= n,
        records_step(bytes, i, value) is Err,
    ensures
        records_step(bytes, n, value) == records_step(bytes, i, value),
    decreases n,
{
    if i < n {
        lemma_records_fail(bytes, i, (n - 1) as nat, value);
    }
}

/// Each record names its own place as its level, and has as many grids as patches.
spec fn orderly<S>(records: Seq<PerLevelRecord<S>>) -> bool {
    forall|i: int|
        0 <= i < records.len() ==> (#[trigger] records[i]).level_index == i
            && records[i].grids@.len() == records[i].number_of_grid_patches
}

fn read_records<S: Copy, F: Fn(&[char]) -> Option<S>>(
    lines: &mut Reader,
    count: usize,
    parse: &F,
) -> (r: Result<Vec<PerLevelRecord<S>>, ParseError>)
    requires
        old(lines).wf(),
        takes_all(*parse),
    ensures
        final(lines).wf(),
        r matches Ok(v) ==> v@.len() == count && orderly(v@),
        forall|value: Meaning<S>| #[trigger]
            parses(*parse, value) ==> stepped(
                records_step(old(lines)@, count as nat, value),
                match r {
                    Ok(v) => Ok(record_models(v@)),
                    Err(e) => Err(e),
                },
                final(lines)@,
            ),
{
    let ghost start = lines@;
    let mut out: Vec<PerLevelRecord<S>> = Vec::new();
    let mut i: usize = 0;
    assert(record_models(out@) =~= Seq::empty());
    while i < count
        invariant
            i <= count,
            lines.wf(),
            start == old(lines)@,
            takes_all(*parse),
            out@.len() == i,
            orderly(out@),
            forall|value: Meaning<S>| #[trigger]
                parses(*parse, value) ==> records_step(start, i as nat, value) == Ok::<
                    (Seq<RecordModel<S>>, Seq<u8>),
                    ParseError,
                >((record_models(out@), lines@)),
        decreases count - i,
    {
        let ghost before = out@;
        match read_record(lines, parse) {
            Ok(record) => {
                if record.level_index != i {
                    proof {
                        assert forall|value: Meaning<S>| #[trigger]
                            parses(*parse, value) implies records_step(
                            start,
                            count as nat,
                            value,
                        ) == Err::<(Seq<RecordModel<S>>, Seq<u8>), ParseError>(
                            ParseError::Mismatch,
                        ) by {
                            lemma_records_fail(start, (i + 1) as nat, count as nat, value);
                        }
                    }
                    return Err(ParseError::Mismatch);
                }
                let ghost model = record@;
                out.push(record);
                assert(record_models(out@) =~= record_models(before).push(model));
            },
            Err(e) => {
                proof {
                    assert forall|value: Meaning<S>| #[trigger]
                        parses(*parse, value) implies records_step(start, count as nat, value)
                        == Err::<(Seq<RecordModel<S>>, Seq<u8>), ParseError>(e) by {
                        lemma_records_fail(start, (i + 1) as nat, count as nat, value);
                    }
                }
                return Err(e);
            },
        }
        i += 1;
    }
    Ok(out)
}

/// The coordinate system with the given number.
pub open spec fn coordinate_system_of(n: usize) -> Option<CoordinateSystem> {
    if n == 0 {
        Some(CoordinateSystem::Cartesian)
    } else if n == 1 {
        Some(CoordinateSystem::Cylindrical)
    } else if n == 2 {
        Some(CoordinateSystem::Spherical)
    } else {
        None
    }
}

/// The names of the quantities: their number, then one line each.
pub open spec fn names_step(bytes: Seq<u8>) -> Step<Seq<Seq<char>>> {
    match value_step(bytes, |t: Seq<char>| usize_of(t)) {
        Err(e) => Err(e),
        Ok((count, rest)) => if count >= 2048 {
            Err(ParseError::TooManyQuantities)
        } else {
            repeat_step(rest, count as nat, |b: Seq<u8>| demand_step(b))
        },
    }
}

/// The physical domain: lower corner, then upper corner.
pub open spec fn domain_step<S>(
    bytes: Seq<u8>,
    value: Meaning<S>,
) -> Step<BoundingBox<S>> {
    match triple_step(bytes, value) {
        Err(e) => Err(e),
        Ok((min, rest)) => match triple_step(rest, value) {
            Err(e) => Err(e),
            Ok((max, rest)) => Ok((BoundingBox { min, max }, rest)),
        },
    }
}

/// The per-level integer data of a header.
pub struct LevelLists {
    pub ratios: Seq<usize>,
    pub index_domains: Seq<IndexDomain>,
    pub level_steps: Seq<usize>,
}

/// Refinement ratios, index domains and level steps: one ratio less than there are levels,
/// and one domain and one step per level.
pub open spec fn level_lists_step(bytes: Seq<u8>, finest_level: usize) -> Step<LevelLists> {
    match dyn_array_step(bytes, Delimiter::Whitespace, |t: Seq<char>| usize_of(t)) {
        Err(e) => Err(e),
        Ok((ratios, rest)) => if ratios.len() != finest_level {
            Err(ParseError::Mismatch)
        } else {
            match index_domains_step(rest) {
                Err(e) => Err(e),
                Ok((index_domains, rest)) => if index_domains.len() != finest_level + 1 {
                    Err(ParseError::Mismatch)
                } else {
                    match dyn_array_step(rest, Delimiter::Whitespace, |t: Seq<char>| usize_of(t)) {
                        Err(e) => Err(e),
                        Ok((level_steps, rest)) => if level_steps.len() != finest_level + 1 {
                            Err(ParseError::Mismatch)
                        } else {
                            Ok((LevelLists { ratios, index_domains, level_steps }, rest))
                        },
                    }
                },
            }
        },
    }
}

/// The part of a header after the format tag.
pub open spec fn hyper_of<S>(
    bytes: Seq<u8>,
    value: Meaning<S>,
) -> Result<HeaderModel<S>, ParseError> {
    let natural = |t: Seq<char>| usize_of(t);
    match names_step(bytes) {
        Err(e) => Err(e),
        Ok((names, rest)) => match value_step(rest, natural) {
            Err(e) => Err(e),
            Ok((dims, rest)) => if dims != 3 {
                Err(ParseError::Unsupported)
            } else {
                match value_step(rest, value) {
                    Err(e) => Err(e),
                    Ok((time, rest)) => match value_step(rest, natural) {
                        Err(e) => Err(e),
                        Ok((finest_level, rest)) => match domain_step(rest, value) {
                            Err(e) => Err(e),
                            Ok((domain, rest)) => match level_lists_step(rest, finest_level) {
                                Err(e) => Err(e),
                                Ok((lists, rest)) => hyper_tail_of(
                                    rest,
                                    value,
                                    names,
                                    time,
                                    finest_level,
                                    domain,
                                    lists,
                                ),
                            },
                        },
                    },
                }
            },
        },
    }
}

/// The part of a header after the per-level integer lists.
pub open spec fn hyper_tail_of<S>(
    bytes: Seq<u8>,
    value: Meaning<S>,
    names: Seq<Seq<char>>,
    time: S,
    finest_level: usize,
    domain: BoundingBox<S>,
    lists: LevelLists,
) -> Result<HeaderModel<S>, ParseError> {
    let natural = |t: Seq<char>| usize_of(t);
    match repeat_step(bytes, (finest_level + 1) as nat, |b: Seq<u8>| triple_step(b, value)) {
        Err(e) => Err(e),
        Ok((cell_sizes, rest)) => match value_step(rest, natural) {
            Err(e) => Err(e),
            Ok((number, rest)) => match coordinate_system_of(number) {
                None => Err(ParseError::Unsupported),
                Some(coordinate_system) => match value_step(rest, natural) {
                    Err(e) => Err(e),
                    Ok((boundary_width, rest)) => match records_step(
                        rest,
                        (finest_level + 1) as nat,
                        value,
                    ) {
                        Err(e) => Err(e),
                        Ok((records, _)) => Ok(
                            HeaderModel {
                                time,
                                finest_level,
                                domain,
                                names,
                                ratios: lists.ratios,
                                index_domains: lists.index_domains,
                                level_steps: lists.level_steps,
                                cell_sizes,
                                coordinate_system,
                                boundary_width,
                                records,
                            },
                        ),
                    },
                },
            },
        },
    }
}

/// A whole `Header` file.
pub open spec fn header_of<S>(
    bytes: Seq<u8>,
    value: Meaning<S>,
) -> Result<HeaderModel<S>, ParseError> {
    match demand_step(bytes) {
        Err(e) => Err(e),
        Ok((tag, rest)) => if tag == "HyperCLaw-V1.1"@ {
            hyper_of(rest, value)
        } else {
            Err(ParseError::UnknownFormat)
        },
    }
}

/// A header by what it says.
pub open spec fn header_view<S>(r: Result<Header<S>, ParseError>) -> Result<
    HeaderModel<S>,
    ParseError,
> {
    match r {
        Ok(h) => Ok(h@),
        Err(e) => Err(e),
    }
}

fn read_variables(lines: &mut Reader) -> (r: Result<Vec<Variable>, ParseError>)
    requires
        old(lines).wf(),
    ensures
        final(lines).wf(),
        r matches Ok(v) ==> numbered(v@),
        stepped(
            names_step(old(lines)@),
            match r {
                Ok(v) => Ok(names_of(v@)),
                Err(e) => Err(e),
            },
            final(lines)@,
        ),
{
    assert(parses(parse_usize, |t: Seq<char>| usize_of(t)));
    let count = match read_parsed(lines, &parse_usize) {
        Ok(v) => v,
        Err(e) => return Err(e),
    };
    if count >= 2048 {
        return Err(ParseError::TooManyQuantities);
    }
    read_names(lines, count)
}

fn read_domain<S: Copy, F: Fn(&[char]) -> Option<S>>(
    lines: &mut Reader,
    parse: &F,
) -> (r: Result<BoundingBox<S>, ParseError>)
    requires
        old(lines).wf(),
        takes_all(*parse),
    ensures
        final(lines).wf(),
        forall|value: Meaning<S>| #[trigger]
            parses(*parse, value) ==> stepped(domain_step(old(lines)@, value), r, final(lines)@),
{
    let min = match read_triple(lines, parse) {
        Ok(v) => v,
        Err(e) => return Err(e),
    };
    match read_triple(lines, parse) {
        Ok(max) => Ok(BoundingBox { min, max }),
        Err(e) => Err(e),
    }
}

fn read_level_lists(lines: &mut Reader, finest_level: usize) -> (r: Result<
    (Vec<usize>, Vec<IndexDomain>, Vec<usize>),
    ParseError,
>)
    requires
        old(lines).wf(),
    ensures
        final(lines).wf(),
        r matches Ok(v) ==> v.1@.len() == finest_level + 1,
        stepped(
            level_lists_step(old(lines)@, finest_level),
            match r {
                Ok(v) => Ok(
                    LevelLists { ratios: v.0@, index_domains: v.1@, level_steps: v.2@ },
                ),
                Err(e) => Err(e),
            },
            final(lines)@,
        ),
{
    assert(parses(parse_usize, |t: Seq<char>| usize_of(t)));
    let ratios = match read_dyn_array(Delimiter::Whitespace, lines, &parse_usize) {
        Ok(v) => v,
        Err(e) => return Err(e),
    };
    if ratios.len() != finest_level {
        return Err(ParseError::Mismatch);
    }
    let index_domains = match read_index_domains(lines) {
        Ok(v) => v,
        Err(e) => return Err(e),
    };
    if index_domains.len() == 0 || index_domains.len() - 1 != finest_level {
        return Err(ParseError::Mismatch);
    }
    let level_steps = match read_dyn_array(
        Delimiter::Whitespace,
        lines,
        &parse_usize,
    ) {
        Ok(v) => v,
        Err(e) => return Err(e),
    };
    if level_steps.len() == 0 || level_steps.len() - 1 != finest_level {
        return Err(ParseError::Mismatch);
    }
    Ok((ratios, index_domains, level_steps))
}

fn read_hyper<S: Copy, F: Fn(&[char]) -> Option<S>>(
    lines: &mut Reader,
    parse: &F,
) -> (r: Result<Header<S>, ParseError>)
    requires
        old(lines).wf(),
        takes_all(*parse),
    ensures
        final(lines).wf(),
        r matches Ok(h) ==> numbered(h.variables@) && consistent(h@),
        forall|value: Meaning<S>| #[trigger]
            parses(*parse, value) ==> header_view(r) == hyper_of(old(lines)@, value),
{
    assert(parses(parse_usize, |t: Seq<char>| usize_of(t)));
    let variables = match read_variables(lines) {
        Ok(v) => v,
        Err(e) => return Err(e),
    };
    let dims = match read_parsed(lines, &parse_usize) {
        Ok(v) => v,
        Err(e) => return Err(e),
    };
    if dims != 3 {
        return Err(ParseError::Unsupported);
    }
    let simulation_time = match read_parsed(lines, parse) {
        Ok(v) => v,
        Err(e) => return Err(e),
    };
    let finest_level = match read_parsed(lines, &parse_usize) {
        Ok(v) => v,
        Err(e) => return Err(e),
    };
    let domain = match read_domain(lines, parse) {
        Ok(v) => v,
        Err(e) => return Err(e),
    };
    let (refinement_ratios, index_domains, level_steps) = match read_level_lists(
        lines,
        finest_level,
    ) {
        Ok(v) => v,
        Err(e) => return Err(e),
    };
    let level_count = index_domains.len();
    let cell_sizes = match read_triples(lines, level_count, parse) {
        Ok(v) => v,
        Err(e) => return Err(e),
    };
    let coordinate_system = match read_parsed(lines, &parse_usize) {
        Ok(0) => CoordinateSystem::Cartesian,
        Ok(1) => CoordinateSystem::Cylindrical,
        Ok(2) => CoordinateSystem::Spherical,
        Ok(_) => return Err(ParseError::Unsupported),
        Err(e) => return Err(e),
    };
    let boundary_width = match read_parsed(lines, &parse_usize) {
        Ok(v) => v,
        Err(e) => return Err(e),
    };
    let level_records = match read_records(lines, level_count, parse) {
        Ok(v) => v,
        Err(e) => return Err(e),
    };
    Ok(
        Header {
            simulation_time,
            finest_level,
            domain,
            variables,
            refinement_ratios,
            index_domains,
            level_steps,
            cell_sizes,
            coordinate_system,
            boundary_width,
            level_records,
        },
    )
}

/// Parses the contents of a `Header` file. `parse` reads one physical scalar.
pub fn read_header<S: Copy, F: Fn(&[char]) -> Option<S>>(contents: Vec<u8>, parse: &F) -> (r: Result<
    Header<S>,
    ParseError,
>)
    requires
        takes_all(*parse),
    ensures
        r matches Ok(h) ==> numbered(h.variables@) && consistent(h@),
        forall|value: Meaning<S>| #[trigger]
            parses(*parse, value) ==> header_view(r) == header_of(contents@, value),
{
    let mut reader = Reader::new(contents);
    let tag = match reader.demand_next_line() {
        Ok(text) => text,
        Err(e) => return Err(e),
    };
    let chars = chars_of(tag.as_str());
    if text_is(chars.as_slice(), "HyperCLaw-V1.1") {
        read_hyper(&mut reader, parse)
    } else {
        Err(ParseError::UnknownFormat)
    }
}

/// A list of `n` items has `n` items.
proof fn lemma_repeat_len<V>(bytes: Seq<u8>, n: nat, item: spec_fn(Seq<u8>) -> Step<V>)
    ensures
        repeat_step(bytes, n, item) matches Ok((list, _)) ==> list.len() == n,
    decreases n,
{
    if n > 0 {
        lemma_repeat_len(bytes, (n - 1) as nat, item);
    }
}

/// Records come in order of level index, each with the bounds of its patches.
proof fn lemma_records_shape<S>(
    bytes: Seq<u8>,
    n: nat,
    value: Meaning<S>,
)
    ensures
        records_step(bytes, n, value) matches Ok((list, _)) ==> list.len() == n && forall|i: int|
            0 <= i < list.len() ==> (#[trigger] list[i]).level_index == i && list[i].grids.len()
                == list[i].patches,
    decreases n,
{
    if n > 0 {
        lemma_records_shape(bytes, (n - 1) as nat, value);
        if let Ok((_, rest)) = records_step(bytes, (n - 1) as nat, value) {
            if let Ok((text, rest1)) = demand_step(rest) {
                if let Ok((_, patches, _)) = record_line_of(text, value) {
                    if let Ok((_, rest2)) = value_step(rest1, |t: Seq<char>| usize_of(t)) {
                        lemma_repeat_len(
                            rest2,
                            patches as nat,
                            |b: Seq<u8>| grid_step(b, value),
                        );
                    }
                }
            }
        }
    }
}

/// A header that parses is consistent.
pub proof fn law_header_consistent<S>(
    bytes: Seq<u8>,
    value: Meaning<S>,
)
    ensures
        header_of(bytes, value) matches Ok(h) ==> consistent(h),
{
    let natural = |t: Seq<char>| usize_of(t);
    if let Ok(h) = header_of(bytes, value) {
        let b0 = demand_step(bytes)->Ok_0.1;
        let b1 = names_step(b0)->Ok_0.1;
        let b2 = value_step(b1, natural)->Ok_0.1;
        let b3 = value_step(b2, value)->Ok_0.1;
        let (finest, b4) = value_step(b3, natural)->Ok_0;
        let b5 = domain_step(b4, value)->Ok_0.1;
        let b6 = level_lists_step(b5, finest)->Ok_0.1;
        let item = |b: Seq<u8>| triple_step(b, value);
        lemma_repeat_len(b6, (finest + 1) as nat, item);
        let b7 = repeat_step(b6, (finest + 1) as nat, item)->Ok_0.1;
        let b8 = value_step(b7, natural)->Ok_0.1;
        let b9 = value_step(b8, natural)->Ok_0.1;
        lemma_records_shape(b9, (finest + 1) as nat, value);
    }
}

/// A line that holds one box and nothing more.
pub open spec fn box_step(bytes: Seq<u8>) -> Step<IndexDomain> {
    match demand_step(bytes) {
        Err(e) => Err(e),
        Ok((text, rest)) => match index_domain_of(trimmed(text)) {
            Err(e) => Err(e),
            Ok((domain, left)) => if left.len() > 0 {
                Err(ParseError::UnexpectedField)
            } else {
                Ok((domain, rest))
            },
        },
    }
}

fn read_boxes(lines: &mut Reader, count: usize) -> (r: Result<Vec<IndexDomain>, ParseError>)
    requires
        old(lines).wf(),
    ensures
        final(lines).wf(),
        r matches Ok(v) ==> v@.len() == count,
        stepped(
            repeat_step(old(lines)@, count as nat, |b: Seq<u8>| box_step(b)),
            list_view(r),
            final(lines)@,
        ),
{
    let ghost start = lines@;
    let ghost item = |b: Seq<u8>| box_step(b);
    let mut out: Vec<IndexDomain> = Vec::new();
    let mut i: usize = 0;
    while i < count
        invariant
            i <= count,
            lines.wf(),
            start == old(lines)@,
            item == (|b: Seq<u8>| box_step(b)),
            out@.len() == i,
            repeat_step(start, i as nat, item) == Ok::<(Seq<IndexDomain>, Seq<u8>), ParseError>(
                (out@, lines@),
            ),
        decreases count - i,
    {
        match read_box(lines) {
            Ok(v) => out.push(v),
            Err(e) => {
                proof {
                    lemma_repeat_fails(start, (i + 1) as nat, count as nat, item);
                }
                return Err(e);
            },
        }
        i += 1;
    }
    Ok(out)
}

fn read_box(lines: &mut Reader) -> (r: Result<IndexDomain, ParseError>)
    requires
        old(lines).wf(),
    ensures
        final(lines).wf(),
        stepped(box_step(old(lines)@), r, final(lines)@),
{
    let text = match lines.demand_next_line() {
        Ok(text) => text,
        Err(e) => return Err(e),
    };
    let chars = chars_of(text.as_str());
    let mut chomper = LineChomper::new(chars.as_slice());
    let domain = match read_index_domain(&mut chomper) {
        Ok(v) => v,
        Err(e) => return Err(e),
    };
    if chomper.has_more() {
        return Err(ParseError::UnexpectedField);
    }
    Ok(domain)
}

/// Box count and hash signature, from a line such as `(576 0`.
pub open spec fn box_array_of(text: Seq<char>) -> Result<(usize, usize), ParseError> {
    match after_prefix(text, "("@) {
        None => Err(ParseError::MissingField),
        Some(t) => {
            let w = words(t);
            if w.len() < 2 {
                Err(ParseError::MissingField)
            } else if w.len() > 2 {
                Err(ParseError::UnexpectedField)
            } else {
                match (usize_of(w[0]), usize_of(w[1])) {
                    (Some(count), Some(hash)) => Ok((count, hash)),
                    _ => Err(ParseError::InvalidValue),
                }
            }
        },
    }
}

fn parse_box_array(text: &[char]) -> (r: Result<(usize, usize), ParseError>)
    ensures
        r == box_array_of(text@),
{
    let rest = match strip_prefix(text, "(") {
        Some(rest) => rest,
        None => return Err(ParseError::MissingField),
    };
    let tokens = split_whitespace(rest);
    assert(texts(tokens@).len() == tokens@.len());
    if tokens.len() < 2 {
        return Err(ParseError::MissingField);
    }
    if tokens.len() > 2 {
        return Err(ParseError::UnexpectedField);
    }
    proof {
        assert(texts(tokens@)[0] == tokens@[0]@);
        assert(texts(tokens@)[1] == tokens@[1]@);
    }
    match (parse_usize(tokens[0]), parse_usize(tokens[1])) {
        (Some(count), Some(hash)) => Ok((count, hash)),
        _ => Err(ParseError::InvalidValue),
    }
}

/// The number in a data file name such as `Cell_D_00031`.
pub open spec fn cell_hash_place(name: Seq<char>) -> Result<usize, ParseError> {
    match after_prefix(name, "Cell_D_"@) {
        None => Err(ParseError::Unsupported),
        Some(suffix) => match usize_of(suffix) {
            Some(n) => Ok(n),
            None => Err(ParseError::InvalidValue),
        },
    }
}

/// The number in a data file name such as `Cell_D_00031`.
pub fn get_cell_hash_place(name: &[char]) -> (r: Result<usize, ParseError>)
    ensures
        r == cell_hash_place(name@),
{
    match strip_prefix(name, "Cell_D_") {
        None => Err(ParseError::Unsupported),
        Some(suffix) => match parse_usize(suffix) {
            Some(n) => Ok(n),
            None => Err(ParseError::InvalidValue),
        },
    }
}

/// File number, file name and offset of a FAB entry.
pub struct FabEntry {
    pub place: usize,
    pub name: Seq<char>,
    pub offset: u64,
}

/// A line such as `FabOnDisk: Cell_D_00031 0`.
pub open spec fn fab_entry_of(text: Seq<char>) -> Result<FabEntry, ParseError> {
    match after_prefix(text, "FabOnDisk: "@) {
        None => Err(ParseError::MissingField),
        Some(t) => {
            let w = words(trimmed(t));
            if w.len() < 2 {
                Err(ParseError::MissingField)
            } else if w.len() > 2 {
                Err(ParseError::UnexpectedField)
            } else {
                match u64_of(w[1]) {
                    None => Err(ParseError::InvalidValue),
                    Some(offset) => match cell_hash_place(w[0]) {
                        Err(e) => Err(e),
                        Ok(place) => Ok(FabEntry { place, name: w[0], offset }),
                    },
                }
            }
        },
    }
}

/// A line with a FAB entry.
pub open spec fn fab_entry_step(bytes: Seq<u8>) -> Step<FabEntry> {
    match demand_step(bytes) {
        Err(e) => Err(e),
        Ok((text, rest)) => match fab_entry_of(text) {
            Err(e) => Err(e),
            Ok(entry) => Ok((entry, rest)),
        },
    }
}

/// The first entry with a given file number.
pub open spec fn first_with(entries: Seq<FabEntry>, place: usize) -> int
    decreases entries.len(),
{
    if entries.len() == 0 || entries[0].place == place {
        0
    } else {
        1 + first_with(entries.drop_first(), place)
    }
}

/// Boxes and entries merged. Entries with the same file number share the name of the first
/// of them.
pub open spec fn merged_fabs(domains: Seq<IndexDomain>, entries: Seq<FabEntry>) -> Seq<BoxModel> {
    Seq::new(
        entries.len(),
        |i: int|
            BoxModel {
                domain: domains[i],
                file_name: entries[first_with(entries, entries[i].place)].name,
                file_offset: entries[i].offset,
            },
    )
}

/// The first entry with a number does not move when entries are appended.
proof fn lemma_first_with(entries: Seq<FabEntry>, place: usize)
    ensures
        0 <= first_with(entries, place) <= entries.len(),
        first_with(entries, place) < entries.len() ==> entries[first_with(entries, place)].place
            == place,
        forall|j: int| 0 <= j < first_with(entries, place) ==> (#[trigger] entries[j]).place != place,
    decreases entries.len(),
{
    if entries.len() > 0 && entries[0].place != place {
        lemma_first_with(entries.drop_first(), place);
        assert forall|j: int| 0 <= j < first_with(entries, place) implies (
        #[trigger] entries[j]).place != place by {
            if j > 0 {
                assert(entries.drop_first()[j - 1] == entries[j]);
            }
        }
    }
}

/// The first entry with a number is the only one without such an entry before it.
proof fn lemma_first_is(entries: Seq<FabEntry>, place: usize, k: int)
    requires
        0 <= k < entries.len(),
        entries[k].place == place,
        forall|j: int| 0 <= j < k ==> (#[trigger] entries[j]).place != place,
    ensures
        first_with(entries, place) == k,
{
    lemma_first_with(entries, place);
    let f = first_with(entries, place);
    if f < k {
        assert(entries[f].place != place);
    } else if f > k {
        assert(entries[k].place != place);
    }
}

/// Reads the FAB entry of one box. `cache` holds the place of the first entry of each file
/// number in `done`.
fn read_merge_fab_line(
    cache: &mut HashMap<usize, usize>,
    done: &Vec<BoxInfo>,
    domain: IndexDomain,
    lines: &mut Reader,
    Ghost(entries): Ghost<Seq<FabEntry>>,
) -> (r: Result<BoxInfo, ParseError>)
    requires
        old(lines).wf(),
        done@.len() == entries.len(),
        cached(old(cache)@, done@, entries),
    ensures
        final(lines).wf(),
        r matches Err(e) ==> fab_entry_step(old(lines)@) == Err::<(FabEntry, Seq<u8>), ParseError>(
            e,
        ),
        r matches Ok(fab) ==> {
            &&& fab_entry_step(old(lines)@) matches Ok((entry, rest)) && rest == final(lines)@ && {
                let all = entries.push(entry);
                &&& fab@ == (BoxModel {
                    domain,
                    file_name: all[first_with(all, entry.place)].name,
                    file_offset: entry.offset,
                })
                &&& cached(final(cache)@, done@.push(fab), all)
            }
        },
{
    broadcast use vstd::std_specs::hash::group_hash_axioms;

    let text = match lines.demand_next_line() {
        Ok(text) => text,
        Err(e) => return Err(e),
    };
    let chars = chars_of(text.as_str());
    let rest = match strip_prefix(chars.as_slice(), "FabOnDisk: ") {
        Some(rest) => trim(rest),
        None => return Err(ParseError::MissingField),
    };
    let tokens = split_whitespace(rest);
    assert(texts(tokens@).len() == tokens@.len());
    if tokens.len() < 2 {
        return Err(ParseError::MissingField);
    }
    if tokens.len() > 2 {
        return Err(ParseError::UnexpectedField);
    }
    proof {
        assert(texts(tokens@)[0] == tokens@[0]@);
        assert(texts(tokens@)[1] == tokens@[1]@);
    }
    let offset = match parse_u64(tokens[1]) {
        Some(offset) => offset,
        None => return Err(ParseError::InvalidValue),
    };
    let place = match get_cell_hash_place(tokens[0]) {
        Ok(place) => place,
        Err(e) => return Err(e),
    };
    let ghost entry = FabEntry { place, name: tokens@[0]@, offset };
    let ghost all = entries.push(entry);
    let known = match cache.get(&place) {
        Some(k) => Some(*k),
        None => None,
    };
    let file_name = match known {
        Some(k) => {
            assert(cached_at(cache@, done@, entries, place));
            done[k].file_name.clone()
        },
        None => {
            cache.insert(place, done.len());
            string_of(tokens[0])
        },
    };
    let fab = BoxInfo { box_info: domain, file_name, file_offset: offset };
    proof {
        match known {
            Some(k) => {
                assert(all[k as int] == entries[k as int]);
                assert forall|j: int| 0 <= j < k implies (#[trigger] all[j]).place != place by {
                    assert(entries[j].place != place);
                }
                lemma_first_is(all, place, k as int);
            },
            None => {
                assert forall|j: int| 0 <= j < entries.len() implies (#[trigger] all[j]).place
                    != place by {
                    assert(cached_at(old(cache)@, done@, entries, entries[j].place));
                    assert(all[j] == entries[j]);
                }
                lemma_first_is(all, place, entries.len() as int);
            },
        }
        let after = done@.push(fab);
        assert forall|p: usize| #[trigger] cached_at(cache@, after, all, p) by {
            assert(cached_at(old(cache)@, done@, entries, p));
            if cache@.contains_key(p) {
                let k = cache@[p];
                if p != place {
                    assert(all[k as int] == entries[k as int]);
                    assert(after[k as int] == done@[k as int]);
                    assert forall|j: int| 0 <= j < k implies (#[trigger] all[j]).place != p by {
                        assert(entries[j].place != p);
                    }
                }
            } else {
                assert forall|j: int| 0 <= j < all.len() implies (#[trigger] all[j]).place != p by {
                    if j < entries.len() {
                        assert(entries[j].place != p);
                    }
                }
            }
        }
    }
    Ok(fab)
}

/// `cache` knows the first entry with file number `p`, if there is one.
spec fn cached_at(
    cache: Map<usize, usize>,
    done: Seq<BoxInfo>,
    entries: Seq<FabEntry>,
    p: usize,
) -> bool {
    if cache.contains_key(p) {
        let k = cache[p];
        &&& k < entries.len()
        &&& k < done.len()
        &&& entries[k as int].place == p
        &&& done[k as int].file_name@ == entries[k as int].name
        &&& forall|j: int| 0 <= j < k ==> (#[trigger] entries[j]).place != p
    } else {
        forall|j: int| 0 <= j < entries.len() ==> (#[trigger] entries[j]).place != p
    }
}

spec fn cached(cache: Map<usize, usize>, done: Seq<BoxInfo>, entries: Seq<FabEntry>) -> bool {
    forall|p: usize| #[trigger] cached_at(cache, done, entries, p)
}

/// Reads the FAB entries of all boxes.
fn read_fabs(lines: &mut Reader, domains: &Vec<IndexDomain>) -> (r: Result<
    Vec<BoxInfo>,
    ParseError,
>)
    requires
        old(lines).wf(),
    ensures
        final(lines).wf(),
        r matches Ok(v) ==> v@.len() == domains@.len(),
        match repeat_step(old(lines)@, domains@.len(), |b: Seq<u8>| fab_entry_step(b)) {
            Err(e) => r matches Err(f) && f == e,
            Ok((entries, rest)) => {
                &&& r matches Ok(v) && box_models(v@) == merged_fabs(domains@, entries)
                &&& rest == final(lines)@
            },
        },
{
    let ghost start = lines@;
    let ghost item = |b: Seq<u8>| fab_entry_step(b);
    let ghost mut entries: Seq<FabEntry> = Seq::empty();
    let mut cache: HashMap<usize, usize> = HashMap::new();
    let mut out: Vec<BoxInfo> = Vec::new();
    let mut i: usize = 0;
    proof {
        assert forall|p: usize| #[trigger] cached_at(cache@, out@, entries, p) by {}
    }
    while i < domains.len()
        invariant
            i <= domains@.len(),
            lines.wf(),
            start == old(lines)@,
            item == (|b: Seq<u8>| fab_entry_step(b)),
            out@.len() == i,
            entries.len() == i,
            cached(cache@, out@, entries),
            repeat_step(start, i as nat, item) == Ok::<(Seq<FabEntry>, Seq<u8>), ParseError>(
                (entries, lines@),
            ),
            box_models(out@) =~= merged_fabs(domains@, entries),
        decreases domains@.len() - i,
    {
        let ghost before = out@;
        let ghost here = lines@;
        match read_merge_fab_line(&mut cache, &out, domains[i], lines, Ghost(entries)) {
            Ok(fab) => {
                let ghost model = fab@;
                out.push(fab);
                proof {
                    let entry = fab_entry_step(here)->Ok_0.0;
                    let all = entries.push(entry);
                    assert(box_models(out@) =~= box_models(before).push(model));
                    assert forall|k: int| 0 <= k < entries.len() implies merged_fabs(
                        domains@,
                        all,
                    )[k] == merged_fabs(domains@, entries)[k] by {
                        lemma_first_with(entries, entries[k].place);
                        let f = first_with(entries, entries[k].place);
                        assert(f <= k) by {
                            if f > k {
                                assert(entries[k].place != entries[k].place);
                            }
                        }
                        assert(all[f] == entries[f]);
                        assert(all[k] == entries[k]);
                        assert forall|j: int| 0 <= j < f implies (#[trigger] all[j]).place
                            != entries[k].place by {
                            assert(entries[j].place != entries[k].place);
                        }
                        lemma_first_is(all, entries[k].place, f);
                    }
                    assert(box_models(out@) =~= merged_fabs(domains@, all));
                    entries = all;
                }
            },
            Err(e) => {
                proof {
                    lemma_repeat_fails(start, (i + 1) as nat, domains@.len(), item);
                }
                return Err(e);
            },
        }
        i += 1;
    }
    Ok(out)
}

/// The next line that is not empty.
pub open spec fn filled_line_step(bytes: Seq<u8>) -> Step<Seq<char>>
    decreases bytes.len(),
{
    match demand_step(bytes) {
        Err(e) => Err(e),
        Ok((text, rest)) => if text.len() > 0 || rest.len() >= bytes.len() {
            Ok((text, rest))
        } else {
            filled_line_step(rest)
        },
    }
}

/// Box and quantity count, from a line such as `576,56`.
pub open spec fn matrix_size_of(text: Seq<char>) -> Result<(usize, usize), ParseError> {
    let p = pieces(text, ',');
    if p.len() < 2 {
        Err(ParseError::MissingField)
    } else if p.len() > 2 {
        Err(ParseError::UnexpectedField)
    } else {
        match (usize_of(p[0]), usize_of(p[1])) {
            (Some(rows), Some(columns)) => Ok((rows, columns)),
            _ => Err(ParseError::InvalidValue),
        }
    }
}

/// The size line of a matrix, after any empty lines.
pub open spec fn matrix_size_step(bytes: Seq<u8>) -> Step<(usize, usize)> {
    match filled_line_step(bytes) {
        Err(e) => Err(e),
        Ok((text, rest)) => match matrix_size_of(text) {
            Err(e) => Err(e),
            Ok(size) => Ok((size, rest)),
        },
    }
}

/// A nonempty file has a first line.
proof fn lemma_line_len(bytes: Seq<u8>)
    ensures
        line_len(bytes) <= bytes.len(),
        bytes.len() > 0 ==> line_len(bytes) > 0,
    decreases bytes.len(),
{
    if bytes.len() > 0 {
        lemma_line_len(bytes.drop_first());
    }
}

fn read_filled_line(lines: &mut Reader) -> (r: Result<String, ParseError>)
    requires
        old(lines).wf(),
    ensures
        final(lines).wf(),
        stepped(
            filled_line_step(old(lines)@),
            match r {
                Ok(text) => Ok(text@),
                Err(e) => Err(e),
            },
            final(lines)@,
        ),
    decreases old(lines)@.len(),
{
    let ghost here = lines@;
    let text = match lines.demand_next_line() {
        Ok(text) => text,
        Err(e) => return Err(e),
    };
    proof {
        lemma_line_len(here);
    }
    if text.as_str().is_empty() {
        read_filled_line(lines)
    } else {
        Ok(text)
    }
}

fn get_patch_min_line(lines: &mut Reader) -> (r: Result<(usize, usize), ParseError>)
    requires
        old(lines).wf(),
    ensures
        final(lines).wf(),
        stepped(matrix_size_step(old(lines)@), r, final(lines)@),
{
    let text = match read_filled_line(lines) {
        Ok(text) => text,
        Err(e) => return Err(e),
    };
    let chars = chars_of(text.as_str());
    let tokens = split_on(chars.as_slice(), ',');
    assert(texts(tokens@).len() == tokens@.len());
    if tokens.len() < 2 {
        return Err(ParseError::MissingField);
    }
    if tokens.len() > 2 {
        return Err(ParseError::UnexpectedField);
    }
    proof {
        assert(texts(tokens@)[0] == tokens@[0]@);
        assert(texts(tokens@)[1] == tokens@[1]@);
    }
    match (parse_usize(tokens[0]), parse_usize(tokens[1])) {
        (Some(rows), Some(columns)) => Ok((rows, columns)),
        _ => Err(ParseError::InvalidValue),
    }
}

/// The pieces of a text in which every piece ends with `c`; after the last `c` nothing need
/// follow.
pub open spec fn terminated_pieces(s: Seq<char>, c: char) -> Seq<Seq<char>> {
    let p = pieces(s, c);
    if p.len() > 0 && p.last().len() == 0 {
        p.drop_last()
    } else {
        p
    }
}

/// One row of a matrix: `columns` values, each followed by a comma.
pub open spec fn row_step<S>(
    bytes: Seq<u8>,
    columns: usize,
    value: Meaning<S>,
) -> Step<Seq<S>> {
    match demand_step(bytes) {
        Err(e) => Err(e),
        Ok((text, rest)) => match values_of(terminated_pieces(text, ','), value) {
            Err(e) => Err(e),
            Ok(row) => if row.len() != columns {
                Err(ParseError::WrongCount)
            } else {
                Ok((row, rest))
            },
        },
    }
}

/// The rows of a matrix, one after the other.
pub open spec fn joined<S>(rows: Seq<Seq<S>>) -> Seq<S>
    decreases rows.len(),
{
    if rows.len() == 0 {
        Seq::empty()
    } else {
        joined(rows.drop_last()) + rows.last()
    }
}

/// A matrix of the expected size.
pub open spec fn matrix_step<S>(
    bytes: Seq<u8>,
    rows: usize,
    columns: usize,
    value: Meaning<S>,
) -> Step<Seq<S>> {
    match matrix_size_step(bytes) {
        Err(e) => Err(e),
        Ok((size, rest)) => if size != (rows, columns) {
            Err(ParseError::Mismatch)
        } else if rows * columns > usize::MAX {
            Err(ParseError::Overflow)
        } else {
            match repeat_step(rest, rows as nat, |b: Seq<u8>| row_step(b, columns, value)) {
                Err(e) => Err(e),
                Ok((list, rest)) => Ok((joined(list), rest)),
            }
        },
    }
}

fn read_row<S: Copy, F: Fn(&[char]) -> Option<S>>(
    lines: &mut Reader,
    columns: usize,
    parse: &F,
) -> (r: Result<Vec<S>, ParseError>)
    requires
        old(lines).wf(),
        takes_all(*parse),
    ensures
        final(lines).wf(),
        r matches Ok(v) ==> v@.len() == columns,
        forall|value: Meaning<S>| #[trigger]
            parses(*parse, value) ==> stepped(row_step(old(lines)@, columns, value), list_view(r), final(lines)@),
{
    let text = match lines.demand_next_line() {
        Ok(text) => text,
        Err(e) => return Err(e),
    };
    let chars = chars_of(text.as_str());
    let mut tokens = split_on(chars.as_slice(), ',');
    assert(texts(tokens@).len() == tokens@.len());
    let ghost all = tokens@;
    if tokens.len() > 0 {
        assert(texts(all).last() == all.last()@);
        if tokens[tokens.len() - 1].len() == 0 {
            tokens.pop();
            assert(texts(tokens@) =~= texts(all).drop_last());
        }
    }
    match parse_fields(&tokens, parse) {
        Err(e) => Err(e),
        Ok(row) => if row.len() != columns {
            Err(ParseError::WrongCount)
        } else {
            Ok(row)
        },
    }
}

fn read_matrix<S: Copy, F: Fn(&[char]) -> Option<S>>(
    rows: usize,
    columns: usize,
    lines: &mut Reader,
    parse: &F,
) -> (r: Result<Vec<S>, ParseError>)
    requires
        old(lines).wf(),
        takes_all(*parse),
    ensures
        final(lines).wf(),
        r matches Ok(v) ==> v@.len() == rows * columns && rows * columns <= usize::MAX,
        forall|value: Meaning<S>| #[trigger]
            parses(*parse, value) ==> stepped(matrix_step(old(lines)@, rows, columns, value), list_view(r), final(lines)@),
{
    match get_patch_min_line(lines) {
        Err(e) => return Err(e),
        Ok((found_rows, found_columns)) => {
            if found_rows != rows || found_columns != columns {
                return Err(ParseError::Mismatch);
            }
        },
    }
    if rows.checked_mul(columns).is_none() {
        return Err(ParseError::Overflow);
    }
    read_rows(rows, columns, lines, parse)
}

fn read_rows<S: Copy, F: Fn(&[char]) -> Option<S>>(
    rows: usize,
    columns: usize,
    lines: &mut Reader,
    parse: &F,
) -> (r: Result<Vec<S>, ParseError>)
    requires
        old(lines).wf(),
        takes_all(*parse),
    ensures
        final(lines).wf(),
        r matches Ok(v) ==> v@.len() == rows * columns,
        forall|value: Meaning<S>| #[trigger]
            parses(*parse, value) ==> match repeat_step(
                old(lines)@,
                rows as nat,
                |b: Seq<u8>| row_step(b, columns, value),
            ) {
                Err(e) => r matches Err(f) && f == e,
                Ok((list, rest)) => {
                    &&& r matches Ok(v) && v@ == joined(list)
                    &&& rest == final(lines)@
                },
            },
{
    let ghost start = lines@;
    let ghost mut list: Seq<Seq<S>> = Seq::empty();
    let mut out: Vec<S> = Vec::new();
    let mut i: usize = 0;
    while i < rows
        invariant
            i <= rows,
            lines.wf(),
            start == old(lines)@,
            takes_all(*parse),
            out@ == joined(list),
            out@.len() == i * columns,
            forall|value: Meaning<S>| #[trigger]
                parses(*parse, value) ==> repeat_step(
                    start,
                    i as nat,
                    |b: Seq<u8>| row_step(b, columns, value),
                ) == Ok::<(Seq<Seq<S>>, Seq<u8>), ParseError>((list, lines@)),
        decreases rows - i,
    {
        match read_row(lines, columns, parse) {
            Ok(row) => {
                proof {
                    let next = list.push(row@);
                    assert(next.drop_last() =~= list);
                    list = next;
                }
                let mut k: usize = 0;
                let ghost before = out@;
                assert(before + row@.take(0) =~= before);
                while k < row.len()
                    invariant
                        k <= row@.len(),
                        out@ == before + row@.take(k as int),
                    decreases row@.len() - k,
                {
                    out.push(row[k]);
                    assert(before + row@.take(k + 1) =~= (before + row@.take(k as int)).push(
                        row@[k as int],
                    ));
                    k += 1;
                }
                assert(row@.take(k as int) =~= row@);
                assert((i + 1) * columns == i * columns + columns) by (nonlinear_arith);
            },
            Err(e) => {
                proof {
                    assert forall|value: Meaning<S>| #[trigger]
                        parses(*parse, value) implies repeat_step(
                        start,
                        rows as nat,
                        |b: Seq<u8>| row_step(b, columns, value),
                    ) == Err::<(Seq<Seq<S>>, Seq<u8>), ParseError>(e) by {
                        lemma_repeat_fails(
                            start,
                            (i + 1) as nat,
                            rows as nat,
                            |b: Seq<u8>| row_step(b, columns, value),
                        );
                    }
                }
                return Err(e);
            },
        }
        i += 1;
    }
    Ok(out)
}

impl<S: Copy> ComponentBounds<S> {
    /// Reads the matrix of minima, then the matrix of maxima.
    fn read<F: Fn(&[char]) -> Option<S>>(
        lines: &mut Reader,
        expected_box_count: usize,
        expected_quant_count: usize,
        parse: &F,
        ) -> (r: Result<Self, ParseError>)
        requires
            old(lines).wf(),
            takes_all(*parse),
        ensures
            final(lines).wf(),
            r matches Ok(b) ==> b.patch_count == expected_box_count && b.component_count
                == expected_quant_count && b.minima@.len() == expected_box_count
                * expected_quant_count && b.maxima@.len() == expected_box_count
                * expected_quant_count && expected_box_count * expected_quant_count <= usize::MAX,
            forall|value: Meaning<S>| #[trigger]
                parses(*parse, value) ==> match extrema_step(
                    old(lines)@,
                    expected_box_count,
                    expected_quant_count,
                    value,
                ) {
                    Err(e) => r matches Err(f) && f == e,
                    Ok(((minima, maxima), rest)) => r matches Ok(b) && b.patch_count
                        == expected_box_count && b.component_count == expected_quant_count
                        && b.minima@ == minima && b.maxima@ == maxima && rest == final(lines)@,
                },
    {
        let minima = match read_matrix(
            expected_box_count,
            expected_quant_count,
            lines,
            parse,
        ) {
            Ok(v) => v,
            Err(e) => return Err(e),
        };
        let maxima = match read_matrix(
            expected_box_count,
            expected_quant_count,
            lines,
            parse,
        ) {
            Ok(v) => v,
            Err(e) => return Err(e),
        };
        Ok(
            ComponentBounds {
                patch_count: expected_box_count,
                component_count: expected_quant_count,
                minima,
                maxima,
            },
        )
    }
}

/// The matrix of minima, then the matrix of maxima.
pub open spec fn extrema_step<S>(
    bytes: Seq<u8>,
    rows: usize,
    columns: usize,
    value: Meaning<S>,
) -> Step<(Seq<S>, Seq<S>)> {
    match matrix_step(bytes, rows, columns, value) {
        Err(e) => Err(e),
        Ok((minima, rest)) => match matrix_step(rest, rows, columns, value) {
            Err(e) => Err(e),
            Ok((maxima, rest)) => Ok(((minima, maxima), rest)),
        },
    }
}

/// The storage mode with the given number.
pub open spec fn storage_mode_of(n: i32) -> Option<V1StorageMode> {
    if n == 0 {
        Some(V1StorageMode::OneFilePerCpu)
    } else if n == 1 {
        Some(V1StorageMode::NFiles)
    } else {
        None
    }
}

/// The boxes of a cell header: the opening line, one line per box, and a closing parenthesis.
pub open spec fn box_list_step(bytes: Seq<u8>) -> Step<Seq<IndexDomain>> {
    match demand_step(bytes) {
        Err(e) => Err(e),
        Ok((text, rest)) => match box_array_of(text) {
            Err(e) => Err(e),
            Ok((count, hash)) => if hash != 0 {
                Err(ParseError::Unsupported)
            } else {
                match repeat_step(rest, count as nat, |b: Seq<u8>| box_step(b)) {
                    Err(e) => Err(e),
                    Ok((boxes, rest)) => match demand_step(rest) {
                        Err(e) => Err(e),
                        Ok((close, rest)) => if close != ")"@ {
                            Err(ParseError::UnexpectedField)
                        } else {
                            Ok((boxes, rest))
                        },
                    },
                }
            },
        },
    }
}

/// The FAB entries of a cell header: their number, then one line each.
pub open spec fn fab_list_step(bytes: Seq<u8>, boxes: nat) -> Step<Seq<FabEntry>> {
    match value_step(bytes, |t: Seq<char>| usize_of(t)) {
        Err(e) => Err(e),
        Ok((count, rest)) => if count != boxes {
            Err(ParseError::Mismatch)
        } else {
            repeat_step(rest, boxes, |b: Seq<u8>| fab_entry_step(b))
        },
    }
}

/// A version 1 cell header after its version line.
pub open spec fn cell_header_v1_of<S>(
    bytes: Seq<u8>,
    value: Meaning<S>,
) -> Result<CellHeaderModel<S>, ParseError> {
    let natural = |t: Seq<char>| usize_of(t);
    match value_step(bytes, |t: Seq<char>| i32_of(t)) {
        Err(e) => Err(e),
        Ok((number, rest)) => match storage_mode_of(number) {
            None => Err(ParseError::Unsupported),
            Some(mode) => match value_step(rest, natural) {
                Err(e) => Err(e),
                Ok((quantities, rest)) => if quantities >= 2048 {
                    Err(ParseError::TooManyQuantities)
                } else {
                    match value_step(rest, natural) {
                        Err(e) => Err(e),
                        Ok((ghost_cell_width, rest)) => match box_list_step(rest) {
                            Err(e) => Err(e),
                            Ok((boxes, rest)) => match fab_list_step(rest, boxes.len()) {
                                Err(e) => Err(e),
                                Ok((entries, rest)) => match extrema_step(
                                    rest,
                                    boxes.len() as usize,
                                    quantities,
                                    value,
                                ) {
                                    Err(e) => Err(e),
                                    Ok(((minima, maxima), _)) => Ok(
                                        CellHeaderModel {
                                            mode,
                                            ghost_cell_width,
                                            fabs: merged_fabs(boxes, entries),
                                            patch_count: boxes.len() as usize,
                                            component_count: quantities,
                                            minima,
                                            maxima,
                                        },
                                    ),
                                },
                            },
                        },
                    }
                },
            },
        },
    }
}

/// A whole `Cell_H` file.
pub open spec fn cell_header_of<S>(
    bytes: Seq<u8>,
    value: Meaning<S>,
) -> Result<CellHeaderModel<S>, ParseError> {
    match value_step(bytes, |t: Seq<char>| u32_of(t)) {
        Err(e) => Err(e),
        Ok((version, rest)) => if version == 1 {
            cell_header_v1_of(rest, value)
        } else {
            Err(ParseError::UnknownFormat)
        },
    }
}

/// A cell header by what it says.
pub open spec fn cell_header_view<S>(r: Result<CellHeader<S>, ParseError>) -> Result<
    CellHeaderModel<S>,
    ParseError,
> {
    match r {
        Ok(h) => Ok(h@),
        Err(e) => Err(e),
    }
}

fn read_box_list(lines: &mut Reader) -> (r: Result<Vec<IndexDomain>, ParseError>)
    requires
        old(lines).wf(),
    ensures
        final(lines).wf(),
        stepped(box_list_step(old(lines)@), list_view(r), final(lines)@),
{
    let text = match lines.demand_next_line() {
        Ok(text) => text,
        Err(e) => return Err(e),
    };
    let chars = chars_of(text.as_str());
    let (count, hash) = match parse_box_array(chars.as_slice()) {
        Ok(v) => v,
        Err(e) => return Err(e),
    };
    if hash != 0 {
        return Err(ParseError::Unsupported);
    }
    let boxes = match read_boxes(lines, count) {
        Ok(v) => v,
        Err(e) => return Err(e),
    };
    let close = match lines.demand_next_line() {
        Ok(text) => text,
        Err(e) => return Err(e),
    };
    let chars = chars_of(close.as_str());
    if text_is(chars.as_slice(), ")") {
        Ok(boxes)
    } else {
        Err(ParseError::UnexpectedField)
    }
}

fn read_hyper_cell_header_version1<S: Copy, F: Fn(&[char]) -> Option<S>>(
    lines: &mut Reader,
    parse: &F,
) -> (r: Result<CellHeader<S>, ParseError>)
    requires
        old(lines).wf(),
        takes_all(*parse),
    ensures
        final(lines).wf(),
        r matches Ok(h) ==> cell_consistent(h@),
        forall|value: Meaning<S>| #[trigger]
            parses(*parse, value) ==> cell_header_view(r) == cell_header_v1_of(old(lines)@, value),
{
    assert(parses(parse_usize, |t: Seq<char>| usize_of(t)));
    assert(parses(parse_i32, |t: Seq<char>| i32_of(t)));
    let mode = match read_parsed(lines, &parse_i32) {
        Ok(0) => V1StorageMode::OneFilePerCpu,
        Ok(1) => V1StorageMode::NFiles,
        Ok(_) => return Err(ParseError::Unsupported),
        Err(e) => return Err(e),
    };
    let quantities = match read_parsed(lines, &parse_usize) {
        Ok(v) => v,
        Err(e) => return Err(e),
    };
    if quantities >= 2048 {
        return Err(ParseError::TooManyQuantities);
    }
    let ghost_cell_width = match read_parsed(lines, &parse_usize) {
        Ok(v) => v,
        Err(e) => return Err(e),
    };
    let boxes = match read_box_list(lines) {
        Ok(v) => v,
        Err(e) => return Err(e),
    };
    let fab_count = match read_parsed(lines, &parse_usize) {
        Ok(v) => v,
        Err(e) => return Err(e),
    };
    if fab_count != boxes.len() {
        return Err(ParseError::Mismatch);
    }
    let fabs = match read_fabs(lines, &boxes) {
        Ok(v) => v,
        Err(e) => return Err(e),
    };
    match ComponentBounds::read(lines, boxes.len(), quantities, parse) {
        Ok(bounds) => Ok(CellHeader { mode, ghost_cell_width, fabs, bounds }),
        Err(e) => Err(e),
    }
}

/// Parses the contents of a `Cell_H` file. `parse` reads one physical scalar.
pub fn read_hyper_cell_header<S: Copy, F: Fn(&[char]) -> Option<S>>(
    contents: Vec<u8>,
    parse: &F,
) -> (r: Result<CellHeader<S>, ParseError>)
    requires
        takes_all(*parse),
    ensures
        r matches Ok(h) ==> cell_consistent(h@),
        forall|value: Meaning<S>| #[trigger]
            parses(*parse, value) ==> cell_header_view(r) == cell_header_of(contents@, value),
{
    assert(parses(parse_u32, |t: Seq<char>| u32_of(t)));
    let mut reader = Reader::new(contents);
    match read_parsed(&mut reader, &parse_u32) {
        Ok(1) => read_hyper_cell_header_version1(&mut reader, parse),
        Ok(_) => Err(ParseError::UnknownFormat),
        Err(e) => Err(e),
    }
}

/// Joined rows of equal length.
proof fn lemma_joined_len<S>(rows: Seq<Seq<S>>, columns: nat)
    requires
        forall|i: int| 0 <= i < rows.len() ==> (#[trigger] rows[i]).len() == columns,
    ensures
        joined(rows).len() == rows.len() * columns,
    decreases rows.len(),
{
    if rows.len() > 0 {
        let rest = rows.drop_last();
        assert forall|i: int| 0 <= i < rest.len() implies (#[trigger] rest[i]).len() == columns by {
            assert(rest[i] == rows[i]);
        }
        lemma_joined_len(rest, columns);
        assert(rows.last().len() == columns);
        assert((rows.len() - 1) * columns + columns == rows.len() * columns) by (nonlinear_arith);
    } else {
        assert(0 * columns == 0) by (nonlinear_arith);
    }
}

/// Every row of a list of rows has the expected length.
proof fn lemma_row_lens<S>(
    bytes: Seq<u8>,
    n: nat,
    columns: usize,
    value: Meaning<S>,
)
    ensures
        repeat_step(bytes, n, |b: Seq<u8>| row_step(b, columns, value)) matches Ok((list, _))
            ==> list.len() == n && forall|i: int|
            0 <= i < list.len() ==> (#[trigger] list[i]).len() == columns,
    decreases n,
{
    if n > 0 {
        lemma_row_lens(bytes, (n - 1) as nat, columns, value);
    }
}

proof fn lemma_matrix_len<S>(
    bytes: Seq<u8>,
    rows: usize,
    columns: usize,
    value: Meaning<S>,
)
    ensures
        matrix_step(bytes, rows, columns, value) matches Ok((m, _)) ==> m.len() == rows * columns
            && rows * columns <= usize::MAX,
{
    if let Ok((m, _)) = matrix_step(bytes, rows, columns, value) {
        let rest = matrix_size_step(bytes)->Ok_0.1;
        let item = |b: Seq<u8>| row_step(b, columns, value);
        lemma_row_lens(rest, rows as nat, columns, value);
        let list = repeat_step(rest, rows as nat, item)->Ok_0.0;
        lemma_joined_len(list, columns as nat);
    }
}

/// A cell header that parses has one FAB entry per patch, and one extremum of each kind per
/// patch and component.
pub proof fn law_cell_header_consistent<S>(
    bytes: Seq<u8>,
    value: Meaning<S>,
)
    ensures
        cell_header_of(bytes, value) matches Ok(h) ==> (h.fabs.len() <= usize::MAX
            ==> cell_consistent(h)),
{
    let natural = |t: Seq<char>| usize_of(t);
    if let Ok(h) = cell_header_of(bytes, value) {
        let b0 = value_step(bytes, |t: Seq<char>| u32_of(t))->Ok_0.1;
        let b1 = value_step(b0, |t: Seq<char>| i32_of(t))->Ok_0.1;
        let (quantities, b2) = value_step(b1, natural)->Ok_0;
        let b3 = value_step(b2, natural)->Ok_0.1;
        let (boxes, b4) = box_list_step(b3)->Ok_0;
        let (entries, b5) = fab_list_step(b4, boxes.len())->Ok_0;
        let b45 = value_step(b4, natural)->Ok_0.1;
        lemma_repeat_len(b45, boxes.len(), |b: Seq<u8>| fab_entry_step(b));
        lemma_matrix_len(b5, boxes.len() as usize, quantities, value);
        let b6 = matrix_step(b5, boxes.len() as usize, quantities, value)->Ok_0.1;
        lemma_matrix_len(b6, boxes.len() as usize, quantities, value);
    }
}

/// Checks a cell header against the header of its plotfile.
pub fn validate_cell_header<S>(header: &Header<S>, level: usize, cell_header: &CellHeader<S>) -> (r:
    Result<(), ParseError>)
    ensures
        r is Ok <==> matches_level(header@, level as int, cell_header@),
        r matches Err(e) ==> e == ParseError::Mismatch,
{
    if level >= header.level_records.len() {
        return Err(ParseError::Mismatch);
    }
    let record = &header.level_records[level];
    let expected = record.number_of_grid_patches;
    assert(header@.records[level as int] == record@);
    if record.grids.len() != expected || cell_header.fabs.len() != expected
        || cell_header.bounds.patch_count != expected {
        return Err(ParseError::Mismatch);
    }
    if cell_header.bounds.component_count != header.variables.len() {
        return Err(ParseError::Mismatch);
    }
    Ok(())
}

} // verus!
