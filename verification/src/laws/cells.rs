//! Cell headers: what is written out line by line is read back.

use vstd::prelude::*;

use crate::laws::metadata::{
    all_texts, box_text, law_box, lemma_box_text, lemma_number_is_word, lemma_number_line,
    lemma_repeat, lemma_separated, lemma_value_line, lemma_values, lemma_word_is_line, writes,
};
use crate::laws::text::{
    decimal, is_line, is_word, law_integers_read, law_naturals, law_pieces, law_trimmed,
    lemma_decimal, lemma_line, line, separated, signed_decimal,
};
use crate::native_file::{BoxModel, CellHeaderModel, IndexDomain, V1StorageMode};
use crate::native_file_parse::{
    box_list_step, box_step, cell_header_of, fab_entry_of, fab_entry_step, filled_line_step,
    first_with, joined, matrix_size_of, matrix_step, merged_fabs, row_step, storage_mode_of,
    FabEntry,
};
use crate::text_parsing::{i32_of, is_space, u32_of, usize_of, words, Meaning, ParseError};

verus! {

/// A row of scalars, a comma behind each.
pub open spec fn row_text<S>(row: Seq<S>, show: spec_fn(S) -> Seq<char>) -> Seq<char> {
    separated(row.map_values(|s: S| show(s)).push(Seq::empty()), ',')
}

proof fn lemma_commas<S>(row: Seq<S>, show: spec_fn(S) -> Seq<char>, value: Meaning<S>)
    requires
        writes(show, value),
    ensures
        is_line(row_text(row, show)),
        row.len() > 0 ==> row_text(row, show).len() > 0,
    decreases row.len(),
{
    let list = row.map_values(|s: S| show(s)).push(Seq::empty());
    let s = row_text(row, show);
    if row.len() == 0 {
        assert(list =~= seq![Seq::<char>::empty()]);
    } else {
        let more = row.drop_first();
        let w = show(row[0]);
        assert(is_word(w));
        assert(list[0] == w);
        assert(list.drop_first() =~= more.map_values(|s: S| show(s)).push(Seq::empty()));
        lemma_commas(more, show, value);
        let t = row_text(more, show);
        assert(s =~= w + seq![','] + t);
        assert forall|i: int| 0 <= i < s.len() implies #[trigger] s[i] != '\n' by {
            if i < w.len() {
                assert(s[i] == w[i]);
                assert(!is_space(w[i]));
                assert(is_space('\n'));
            } else if i > w.len() {
                assert(s[i] == t[i - w.len() - 1]);
            }
        }
        assert(s[0] == w[0]);
        assert(!is_space(','));
        if t.len() > 0 {
            assert(s[s.len() - 1] == t[t.len() - 1]);
        } else {
            assert(s[s.len() - 1] == ',');
        }
    }
}

/// A row that is written out is read back, value by value.
pub proof fn law_row<S>(
    row: Seq<S>,
    columns: usize,
    show: spec_fn(S) -> Seq<char>,
    value: Meaning<S>,
    rest: Seq<u8>,
)
    requires
        writes(show, value),
        row.len() == columns,
    ensures
        row_step(line(row_text(row, show)) + rest, columns, value) == Ok::<
            (Seq<S>, Seq<u8>),
            ParseError,
        >((row, rest)),
{
    let texts = row.map_values(|s: S| show(s));
    let list = texts.push(Seq::empty());
    lemma_commas(row, show, value);
    lemma_line(row_text(row, show), rest);
    assert forall|i: int, k: int|
        0 <= i < list.len() && 0 <= k < list[i].len() implies #[trigger] list[i][k] != ',' by {
        if i < texts.len() {
            assert(list[i] == show(row[i]));
            assert(show(row[i])[k] != ',');
        }
    }
    law_pieces(list, ',');
    assert(list.last() =~= Seq::empty());
    assert(list.drop_last() =~= texts);
    assert forall|i: int| 0 <= i < texts.len() implies value(#[trigger] texts[i]) == Some(
        row[i],
    ) by {
        assert(texts[i] == show(row[i]));
    }
    lemma_values(texts, row, value);
}

/// Row `i` of a matrix that is kept row by row.
pub open spec fn matrix_row<S>(list: Seq<S>, columns: int, i: int) -> Seq<S> {
    list.subrange(i * columns, (i + 1) * columns)
}

/// A matrix: an empty line, its size, and its rows.
pub open spec fn matrix_text<S>(
    list: Seq<S>,
    rows: nat,
    columns: nat,
    show: spec_fn(S) -> Seq<char>,
) -> Seq<u8> {
    line(Seq::empty()) + (line(separated(seq![decimal(rows), decimal(columns)], ',')) + all_texts(
        Seq::new(rows, |i: int| line(row_text(matrix_row(list, columns as int, i), show))),
        rows,
    ))
}

proof fn lemma_joined<S>(list: Seq<S>, columns: int, n: nat)
    requires
        columns >= 0,
        n * columns <= list.len(),
    ensures
        joined(Seq::new(n, |i: int| matrix_row(list, columns, i))) == list.take(n * columns),
    decreases n,
{
    let rows = Seq::new(n, |i: int| matrix_row(list, columns, i));
    if n == 0 {
        assert(rows =~= Seq::empty());
        assert(0 * columns == 0);
        assert(list.take(0) =~= Seq::empty());
    } else {
        let m = n - 1;
        assert(n * columns == m * columns + columns) by (nonlinear_arith)
            requires
                m == n - 1,
        ;
        assert(0 <= m * columns) by (nonlinear_arith)
            requires
                m >= 0,
                columns >= 0,
        ;
        lemma_joined(list, columns, m as nat);
        assert(rows.drop_last() =~= Seq::new(m as nat, |i: int| matrix_row(list, columns, i)));
        assert((m + 1) * columns == n * columns);
        assert(list.take(m * columns) + matrix_row(list, columns, m) =~= list.take(n * columns));
    }
}

/// The size of a matrix: two numbers with a comma between them.
proof fn lemma_size(rows: usize, columns: usize)
    ensures
        ({
            let t = separated(seq![decimal(rows as nat), decimal(columns as nat)], ',');
            &&& is_line(t)
            &&& t.len() > 0
            &&& matrix_size_of(t) == Ok::<(usize, usize), ParseError>((rows, columns))
        }),
{
    let (a, b) = (decimal(rows as nat), decimal(columns as nat));
    let list = seq![a, b];
    let t = separated(list, ',');
    lemma_decimal(rows as nat);
    lemma_decimal(columns as nat);
    lemma_number_is_word(rows as nat);
    lemma_number_is_word(columns as nat);
    law_naturals(rows as nat);
    law_naturals(columns as nat);
    assert forall|i: int, k: int| 0 <= i < 2 && 0 <= k < list[i].len() implies #[trigger] list[i][k]
        != ',' by {
        assert(i == 0 || i == 1);
    }
    law_pieces(list, ',');
    assert(list.drop_first() =~= seq![b]);
    reveal_with_fuel(separated, 3);
    assert(t =~= a + seq![','] + b);
    assert forall|i: int| 0 <= i < t.len() implies #[trigger] t[i] != '\n' by {
        if i < a.len() {
            assert(t[i] == a[i]);
        } else if i > a.len() {
            assert(t[i] == b[i - a.len() - 1]);
        }
    }
    assert(t[0] == a[0]);
    assert(t[t.len() - 1] == b[b.len() - 1]);
}

/// A matrix that is written out row by row is read back.
pub proof fn law_matrix<S>(
    list: Seq<S>,
    rows: usize,
    columns: usize,
    show: spec_fn(S) -> Seq<char>,
    value: Meaning<S>,
    rest: Seq<u8>,
)
    requires
        writes(show, value),
        rows * columns <= usize::MAX,
        list.len() == rows * columns,
    ensures
        matrix_step(
            matrix_text(list, rows as nat, columns as nat, show) + rest,
            rows,
            columns,
            value,
        ) == Ok::<(Seq<S>, Seq<u8>), ParseError>((list, rest)),
{
    let size = separated(seq![decimal(rows as nat), decimal(columns as nat)], ',');
    let items = Seq::new(rows as nat, |i: int| matrix_row(list, columns as int, i));
    let texts = Seq::new(
        rows as nat,
        |i: int| line(row_text(matrix_row(list, columns as int, i), show)),
    );
    let t1 = all_texts(texts, rows as nat) + rest;
    let t0 = line(size) + t1;
    let bytes = line(Seq::empty()) + t0;
    assert(matrix_text(list, rows as nat, columns as nat, show) + rest =~= bytes);
    lemma_line(Seq::empty(), t0);
    lemma_size(rows, columns);
    lemma_line(size, t1);
    assert(filled_line_step(t0) == Ok::<(Seq<char>, Seq<u8>), ParseError>((size, t1)));
    assert(filled_line_step(bytes) == filled_line_step(t0)) by {
        assert(line(Seq::<char>::empty()).len() > 0);
        assert(t0.len() < bytes.len());
    }
    let item = |b: Seq<u8>| row_step(b, columns, value);
    assert forall|i: int, tail: Seq<u8>| 0 <= i < items.len() implies #[trigger] item(
        texts[i] + tail,
    ) == Ok::<(Seq<S>, Seq<u8>), ParseError>((items[i], tail)) by {
        let c = columns as int;
        assert(0 <= i * c && (i + 1) * c == i * c + c && (i + 1) * c <= rows * c)
            by (nonlinear_arith)
            requires
                0 <= i < rows,
                c >= 0,
        ;
        law_row(items[i], columns, show, value, tail);
    }
    lemma_repeat(items, texts, rows as nat, item, rest);
    assert(items.take(rows as int) =~= items);
    lemma_joined(list, columns as int, rows as nat);
    assert(list.take(list.len() as int) =~= list);
}

/// A line such as `FabOnDisk: Cell_D_00031 0`.
pub open spec fn fab_text(name: Seq<char>, offset: u64) -> Seq<char> {
    "FabOnDisk: "@ + separated(seq![name, decimal(offset as nat)], ' ')
}

/// A file name such as `Cell_D_00031`, and its number.
pub open spec fn is_data_file(name: Seq<char>, number: usize) -> bool {
    &&& is_word(name)
    &&& "Cell_D_"@.is_prefix_of(name)
    &&& usize_of(name.skip("Cell_D_"@.len() as int)) == Some(number)
}

/// A FAB entry that is written out is read back: file name and offset.
pub proof fn law_fab_entry(name: Seq<char>, number: usize, offset: u64)
    requires
        is_data_file(name, number),
    ensures
        is_line(fab_text(name, offset)),
        fab_entry_of(fab_text(name, offset)) == Ok::<FabEntry, ParseError>(
            FabEntry { place: number, name, offset },
        ),
{
    let p = "FabOnDisk: "@;
    reveal_strlit("FabOnDisk: ");
    reveal_strlit("Cell_D_");
    let list = seq![name, decimal(offset as nat)];
    lemma_number_is_word(offset as nat);
    law_naturals(offset as nat);
    assert forall|i: int| 0 <= i < 2 implies is_word(#[trigger] list[i]) by {
        assert(i == 0 || i == 1);
    }
    lemma_separated(list);
    let t = separated(list, ' ');
    let s = fab_text(name, offset);
    assert(s =~= p + t);
    assert(s.skip(p.len() as int) =~= t);
    assert(s.take(p.len() as int) =~= p);
    law_trimmed(Seq::empty(), t, Seq::empty());
    assert(Seq::<char>::empty() + t + Seq::<char>::empty() =~= t);
    assert(words(t)[0] == name && words(t)[1] == decimal(offset as nat));
    assert forall|i: int| 0 <= i < s.len() implies #[trigger] s[i] != '\n' by {
        if i < p.len() {
            assert(s[i] == p[i]);
        } else {
            assert(s[i] == t[i - p.len()]);
        }
    }
    assert(s[0] == p[0] && p[0] == 'F');
    assert(s[s.len() - 1] == t[t.len() - 1]);
}

/// The number of a storage mode.
pub open spec fn mode_number(m: V1StorageMode) -> int {
    match m {
        V1StorageMode::OneFilePerCpu => 0,
        V1StorageMode::NFiles => 1,
    }
}

/// A `Cell_H` file: version, storage mode, numbers of components and ghost cells; the boxes,
/// one in a line; the data files and offsets; the minima and the maxima.
pub open spec fn cell_header_text<S>(h: CellHeaderModel<S>, show: spec_fn(S) -> Seq<char>) -> Seq<
    u8,
> {
    let (n, m) = (h.fabs.len(), h.component_count as nat);
    line(decimal(1)) + (line(signed_decimal(mode_number(h.mode))) + (line(decimal(m)) + (line(
        decimal(h.ghost_cell_width as nat),
    ) + (line(seq!['('] + separated(seq![decimal(n), decimal(0)], ' ')) + (all_texts(
        h.fabs.map_values(|b: BoxModel| line(box_text(b.domain))),
        n,
    ) + (line(seq![')']) + (line(decimal(n)) + (all_texts(
        h.fabs.map_values(|b: BoxModel| line(fab_text(b.file_name, b.file_offset))),
        n,
    ) + (matrix_text(h.minima, n, m, show) + matrix_text(h.maxima, n, m, show))))))))))
}

/// A cell header that can be written: fewer than 2048 components, an extremum of each kind for
/// each patch and component, and file names that are told apart by their numbers.
pub open spec fn cells_writable<S>(h: CellHeaderModel<S>, numbers: Seq<usize>) -> bool {
    &&& h.component_count < 2048
    &&& h.fabs.len() == h.patch_count
    &&& h.patch_count * h.component_count <= usize::MAX
    &&& h.minima.len() == h.patch_count * h.component_count
    &&& h.maxima.len() == h.patch_count * h.component_count
    &&& numbers.len() == h.fabs.len()
    &&& forall|i: int|
        0 <= i < numbers.len() ==> is_data_file(h.fabs[i].file_name, #[trigger] numbers[i])
    &&& forall|i: int, j: int|
        0 <= i < numbers.len() && 0 <= j < numbers.len() && #[trigger] numbers[i]
            == #[trigger] numbers[j] ==> h.fabs[i].file_name == h.fabs[j].file_name
}

proof fn lemma_box_list(boxes: Seq<IndexDomain>, texts: Seq<Seq<u8>>, count: usize, rest: Seq<u8>)
    requires
        boxes.len() == count,
        texts.len() == count,
        forall|i: int| 0 <= i < count ==> #[trigger] texts[i] == line(box_text(boxes[i])),
    ensures
        box_list_step(
            line(seq!['('] + separated(seq![decimal(count as nat), decimal(0)], ' ')) + (all_texts(
                texts,
                count as nat,
            ) + (line(seq![')']) + rest)),
        ) == Ok::<(Seq<IndexDomain>, Seq<u8>), ParseError>((boxes, rest)),
{
    let list = seq![decimal(count as nat), decimal(0)];
    lemma_number_is_word(count as nat);
    lemma_number_is_word(0);
    law_naturals(count as nat);
    law_naturals(0);
    assert forall|i: int| 0 <= i < 2 implies is_word(#[trigger] list[i]) by {
        assert(i == 0 || i == 1);
    }
    lemma_separated(list);
    let t = separated(list, ' ');
    let s = seq!['('] + t;
    reveal_strlit("(");
    reveal_strlit(")");
    assert("("@ =~= seq!['(']);
    assert(")"@ =~= seq![')']);
    assert(s.skip(1) =~= t);
    assert(s.take(1) =~= seq!['(']);
    assert(words(t)[0] == decimal(count as nat) && words(t)[1] == decimal(0));
    assert forall|i: int| 0 <= i < s.len() implies #[trigger] s[i] != '\n' by {
        if i > 0 {
            assert(s[i] == t[i - 1]);
        }
    }
    assert(s[s.len() - 1] == t[t.len() - 1]);
    assert(!is_space('(') && !is_space(')'));
    let t1 = line(seq![')']) + rest;
    let t0 = all_texts(texts, count as nat) + t1;
    lemma_line(s, t0);
    let item = |b: Seq<u8>| box_step(b);
    assert forall|i: int, tail: Seq<u8>| 0 <= i < boxes.len() implies #[trigger] item(
        texts[i] + tail,
    ) == Ok::<(IndexDomain, Seq<u8>), ParseError>((boxes[i], tail)) by {
        let b = box_text(boxes[i]);
        lemma_box_text(boxes[i]);
        lemma_line(b, tail);
        law_trimmed(Seq::empty(), b, Seq::empty());
        assert(Seq::<char>::empty() + b + Seq::<char>::empty() =~= b);
        law_box(boxes[i], Seq::empty());
        assert(b + Seq::<char>::empty() =~= b);
    }
    lemma_repeat(boxes, texts, count as nat, item, t1);
    assert(boxes.take(count as int) =~= boxes);
    lemma_line(seq![')'], rest);
}

/// A cell header that is written out line by line is read back: every box, file name, offset
/// and extremum, in its place.
pub proof fn law_cell_header_round_trip<S>(
    h: CellHeaderModel<S>,
    numbers: Seq<usize>,
    show: spec_fn(S) -> Seq<char>,
    value: Meaning<S>,
)
    requires
        writes(show, value),
        cells_writable(h, numbers),
    ensures
        cell_header_of(cell_header_text(h, show), value) matches Ok(r) && r.mode == h.mode
            && r.ghost_cell_width == h.ghost_cell_width && r.fabs == h.fabs && r.patch_count
            == h.patch_count && r.component_count == h.component_count && r.minima == h.minima
            && r.maxima == h.maxima,
{
    let (n, m) = (h.patch_count, h.component_count);
    let boxes = h.fabs.map_values(|b: BoxModel| b.domain);
    let box_texts = h.fabs.map_values(|b: BoxModel| line(box_text(b.domain)));
    let fab_texts = h.fabs.map_values(|b: BoxModel| line(fab_text(b.file_name, b.file_offset)));
    let entries = Seq::new(
        n as nat,
        |i: int|
            FabEntry {
                place: numbers[i],
                name: h.fabs[i].file_name,
                offset: h.fabs[i].file_offset,
            },
    );
    let b8 = matrix_text(h.maxima, n as nat, m as nat, show);
    let b7 = matrix_text(h.minima, n as nat, m as nat, show) + b8;
    let b6 = all_texts(fab_texts, n as nat) + b7;
    let b5 = line(decimal(n as nat)) + b6;
    let b4 = line(seq!['('] + separated(seq![decimal(n as nat), decimal(0)], ' ')) + (all_texts(
        box_texts,
        n as nat,
    ) + (line(seq![')']) + b5));
    let b3 = line(decimal(h.ghost_cell_width as nat)) + b4;
    let b2 = line(decimal(m as nat)) + b3;
    let b1 = line(signed_decimal(mode_number(h.mode))) + b2;
    lemma_number_is_word(1);
    law_naturals(1);
    lemma_value_line(decimal(1), 1u32, |t: Seq<char>| u32_of(t), b1);
    lemma_number_is_word(mode_number(h.mode) as nat);
    law_integers_read(mode_number(h.mode));
    lemma_value_line(
        signed_decimal(mode_number(h.mode)),
        mode_number(h.mode) as i32,
        |t: Seq<char>| i32_of(t),
        b2,
    );
    lemma_number_line(m, b3);
    lemma_number_line(h.ghost_cell_width, b4);
    lemma_box_list(boxes, box_texts, n, b5);
    lemma_number_line(n, b6);
    let item = |b: Seq<u8>| fab_entry_step(b);
    assert forall|i: int, tail: Seq<u8>| 0 <= i < entries.len() implies #[trigger] item(
        fab_texts[i] + tail,
    ) == Ok::<(FabEntry, Seq<u8>), ParseError>((entries[i], tail)) by {
        assert(is_data_file(h.fabs[i].file_name, numbers[i]));
        law_fab_entry(h.fabs[i].file_name, numbers[i], h.fabs[i].file_offset);
        lemma_line(fab_text(h.fabs[i].file_name, h.fabs[i].file_offset), tail);
    }
    lemma_repeat(entries, fab_texts, n as nat, item, b7);
    assert(entries.take(n as int) =~= entries);
    law_matrix(h.minima, n, m, show, value, b8);
    law_matrix(h.maxima, n, m, show, value, Seq::empty());
    assert(b8 + Seq::<u8>::empty() =~= b8);
    let merged = merged_fabs(boxes, entries);
    assert forall|i: int| 0 <= i < n implies #[trigger] merged[i] == h.fabs[i] by {
        let k = first_with(entries, entries[i].place);
        assert(entries.contains(entries[i]));
        lemma_named(entries, i);
        assert(numbers[k] == numbers[i]);
    }
    assert(merged =~= h.fabs);
}

/// The first entry with a file number has that number.
proof fn lemma_named(entries: Seq<FabEntry>, i: int)
    requires
        0 <= i < entries.len(),
    ensures
        0 <= first_with(entries, entries[i].place) <= i,
        entries[first_with(entries, entries[i].place)].place == entries[i].place,
    decreases i,
{
    let p = entries[i].place;
    if entries[0].place != p {
        let rest = entries.drop_first();
        assert(rest[i - 1] == entries[i]);
        lemma_named(rest, i - 1);
    }
}

/// Storage modes are numbered 0 and 1: one file for each process, or a fixed number of files.
/// There is no other.
pub proof fn law_storage_modes(n: i32, m: V1StorageMode)
    ensures
        storage_mode_of(n) == Some(m) <==> n == mode_number(m),
        storage_mode_of(n) is None <==> n != 0 && n != 1,
{
}

/// A cell header of another version than 1 is refused.
pub proof fn law_other_version<S>(version: u32, rest: Seq<u8>, value: Meaning<S>)
    requires
        version != 1,
    ensures
        cell_header_of(line(decimal(version as nat)) + rest, value) == Err::<
            CellHeaderModel<S>,
            ParseError,
        >(ParseError::UnknownFormat),
{
    lemma_number_is_word(version as nat);
    law_naturals(version as nat);
    lemma_word_is_line(decimal(version as nat));
    lemma_value_line(
        decimal(version as nat),
        version,
        |t: Seq<char>| u32_of(t),
        rest,
    );
}

/// Boxes and data files are matched in order. A data file that was named before by the same
/// number keeps the name that it had there.
pub proof fn law_merged_fabs(domains: Seq<IndexDomain>, entries: Seq<FabEntry>, i: int)
    requires
        0 <= i < entries.len(),
        domains.len() == entries.len(),
    ensures
        merged_fabs(domains, entries).len() == entries.len(),
        merged_fabs(domains, entries)[i].domain == domains[i],
        merged_fabs(domains, entries)[i].file_offset == entries[i].offset,
        exists|j: int|
            0 <= j <= i && (#[trigger] entries[j]).place == entries[i].place && merged_fabs(
                domains,
                entries,
            )[i].file_name == entries[j].name && forall|k: int|
                0 <= k < j ==> (#[trigger] entries[k]).place != entries[i].place,
{
    lemma_first_entry(entries, entries[i].place, i);
    let j = first_with(entries, entries[i].place);
    assert(entries[j].place == entries[i].place);
}

proof fn lemma_first_entry(entries: Seq<FabEntry>, place: usize, i: int)
    requires
        0 <= i < entries.len(),
        entries[i].place == place,
    ensures
        0 <= first_with(entries, place) <= i,
        entries[first_with(entries, place)].place == place,
        forall|k: int|
            0 <= k < first_with(entries, place) ==> (#[trigger] entries[k]).place != place,
    decreases entries.len(),
{
    if entries[0].place != place {
        let rest = entries.drop_first();
        lemma_first_entry(rest, place, i - 1);
        assert forall|k: int| 0 <= k < first_with(entries, place) implies (
        #[trigger] entries[k]).place != place by {
            if k > 0 {
                assert(rest[k - 1].place != place);
            }
        }
    }
}

} // verus!
