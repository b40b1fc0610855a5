//! The metadata files: a header or cell header that is written out line by line is read back.

use vstd::prelude::*;

use crate::laws::text::{
    decimal, is_line, is_word, law_find, law_integers_read, law_naturals, law_pieces, law_trimmed,
    lemma_decimal, lemma_line, lemma_word_at_front, line, separated, signed_decimal,
};
use crate::native_file::{BoundingBox, CoordinateSystem, HeaderModel, IndexDomain, RecordModel};
use crate::native_file_parse::{
    coordinate_system_of, grid_step, header_of, hyper_tail_of, index_domain_of, index_domains_of,
    index_of, law_header_consistent, level_lists_step, names_step, opened, record_step,
    records_step, triple_step, LevelLists,
};
use crate::text_parsing::{
    demand_step, dyn_array_step, fixed_array_step, i32_of, is_space, repeat_step, skipped, taken,
    usize_of, value_step, values_of, words, Delimiter, Meaning, ParseError, Step,
};
use crate::vec3::{IVec3, Vec3};

verus! {

/// A way to write scalars that the parser reads back: each as one word without commas.
pub open spec fn writes<S>(show: spec_fn(S) -> Seq<char>, value: Meaning<S>) -> bool {
    forall|s: S|
        #![trigger show(s)]
        value(show(s)) == Some(s) && is_word(show(s)) && forall|i: int|
            0 <= i < show(s).len() ==> #[trigger] show(s)[i] != ','
}

/// A line of words, with one blank between them.
pub open spec fn word_line(list: Seq<Seq<char>>) -> Seq<u8> {
    line(separated(list, ' '))
}

pub proof fn lemma_separated(list: Seq<Seq<char>>)
    requires
        forall|i: int| 0 <= i < list.len() ==> is_word(#[trigger] list[i]),
    ensures
        is_line(separated(list, ' ')),
        list.len() > 0 ==> separated(list, ' ').len() > 0,
        words(separated(list, ' ')) == list,
    decreases list.len(),
{
    let s = separated(list, ' ');
    if list.len() == 0 {
        assert(list =~= Seq::empty());
    } else if list.len() == 1 {
        let w = list[0];
        assert(is_word(w));
        lemma_word_at_front(w, Seq::empty());
        assert(w + Seq::<char>::empty() =~= w);
        assert(seq![w] + Seq::<Seq<char>>::empty() =~= list);
        assert forall|i: int| 0 <= i < s.len() implies #[trigger] s[i] != '\n' by {
            assert(!is_space(w[i]));
            assert(is_space('\n'));
        }
    } else {
        let w = list[0];
        let more = list.drop_first();
        assert forall|i: int| 0 <= i < more.len() implies is_word(#[trigger] more[i]) by {
            assert(more[i] == list[i + 1]);
        }
        lemma_separated(more);
        let t = separated(more, ' ');
        let rest = seq![' '] + t;
        assert(s =~= w + rest);
        assert(is_space(' '));
        assert(rest[0] == ' ');
        assert(is_word(w));
        lemma_word_at_front(w, rest);
        assert(rest.drop_first() =~= t);
        assert(words(rest) == words(t));
        assert(seq![w] + more =~= list);
        assert forall|i: int| 0 <= i < s.len() implies #[trigger] s[i] != '\n' by {
            if i < w.len() {
                assert(s[i] == w[i]);
                assert(!is_space(w[i]));
                assert(is_space('\n'));
            } else if i > w.len() {
                assert(s[i] == t[i - w.len() - 1]);
            }
        }
        assert(s[s.len() - 1] == t[t.len() - 1]);
        assert(s[0] == w[0]);
    }
}

/// The values of texts.
pub proof fn lemma_values<S>(list: Seq<Seq<char>>, items: Seq<S>, value: Meaning<S>)
    requires
        list.len() == items.len(),
        forall|i: int| 0 <= i < list.len() ==> value(#[trigger] list[i]) == Some(items[i]),
    ensures
        values_of(list, value) == Ok::<Seq<S>, ParseError>(items),
{
    assert(list.map_values(|t: Seq<char>| value(t)->0) =~= items);
}

/// A line of words is read word by word.
pub proof fn law_word_line<S>(
    list: Seq<Seq<char>>,
    items: Seq<S>,
    value: Meaning<S>,
    rest: Seq<u8>,
)
    requires
        list.len() == items.len(),
        forall|i: int| 0 <= i < list.len() ==> is_word(#[trigger] list[i]),
        forall|i: int| 0 <= i < list.len() ==> value(#[trigger] list[i]) == Some(items[i]),
    ensures
        fixed_array_step(word_line(list) + rest, Delimiter::Whitespace, list.len(), value) == Ok::<
            (Seq<S>, Seq<u8>),
            ParseError,
        >((items, rest)),
        dyn_array_step(word_line(list) + rest, Delimiter::Whitespace, value) == Ok::<
            (Seq<S>, Seq<u8>),
            ParseError,
        >((items, rest)),
{
    lemma_separated(list);
    lemma_line(separated(list, ' '), rest);
    lemma_values(list, items, value);
}

/// A line with one value.
pub proof fn lemma_value_line<S>(text: Seq<char>, item: S, value: Meaning<S>, rest: Seq<u8>)
    requires
        is_line(text),
        value(text) == Some(item),
    ensures
        value_step(line(text) + rest, value) == Ok::<(S, Seq<u8>), ParseError>((item, rest)),
{
    lemma_line(text, rest);
}

/// A word is a line.
pub proof fn lemma_word_is_line(w: Seq<char>)
    requires
        is_word(w),
    ensures
        is_line(w),
{
    assert forall|i: int| 0 <= i < w.len() implies #[trigger] w[i] != '\n' by {
        assert(!is_space(w[i]));
        assert(is_space('\n'));
    }
}

/// A number is a word.
pub proof fn lemma_number_is_word(n: nat)
    ensures
        is_word(decimal(n)),
        is_line(decimal(n)),
{
    lemma_decimal(n);
    assert forall|i: int| 0 <= i < decimal(n).len() implies !is_space(#[trigger] decimal(n)[i]) by {}
    lemma_word_is_line(decimal(n));
}

/// A line with a natural number.
pub proof fn lemma_number_line(n: usize, rest: Seq<u8>)
    ensures
        value_step(line(decimal(n as nat)) + rest, |t: Seq<char>| usize_of(t)) == Ok::<
            (usize, Seq<u8>),
            ParseError,
        >((n, rest)),
{
    lemma_number_is_word(n as nat);
    law_naturals(n as nat);
    lemma_value_line(decimal(n as nat), n, |t: Seq<char>| usize_of(t), rest);
}

/// Three scalars in a line: x, y and z.
pub open spec fn triple_text<S>(v: Vec3<S>, show: spec_fn(S) -> Seq<char>) -> Seq<u8> {
    word_line(seq![show(v.x), show(v.y), show(v.z)])
}

/// Three numbers in a line are the x, y and z of a triple, in this order.
pub proof fn law_triple<S>(
    v: Vec3<S>,
    show: spec_fn(S) -> Seq<char>,
    value: Meaning<S>,
    rest: Seq<u8>,
)
    requires
        writes(show, value),
    ensures
        triple_step(triple_text(v, show) + rest, value) == Ok::<(Vec3<S>, Seq<u8>), ParseError>(
            (v, rest),
        ),
{
    let list = seq![show(v.x), show(v.y), show(v.z)];
    let items = seq![v.x, v.y, v.z];
    assert forall|i: int| 0 <= i < 3 implies is_word(#[trigger] list[i]) && value(list[i]) == Some(
        items[i],
    ) by {
        assert(i == 0 || i == 1 || i == 2);
    }
    law_word_line(list, items, value, rest);
}

/// The fields of a line that is split by white space decide a triple, whatever the spacing:
/// first x, then y, then z.
pub proof fn law_triple_fields<S>(bytes: Seq<u8>, value: Meaning<S>)
    ensures
        ({
            let r = triple_step(bytes, value);
            match demand_step(bytes) {
                Err(e) => r == Err::<(Vec3<S>, Seq<u8>), ParseError>(e),
                Ok((text, rest)) => {
                    let w = words(text);
                    if w.len() == 3 && value(w[0]) is Some && value(w[1]) is Some && value(
                        w[2],
                    ) is Some {
                        r matches Ok((v, left)) && left == rest && v.x == value(w[0])->0 && v.y
                            == value(w[1])->0 && v.z == value(w[2])->0
                    } else {
                        r is Err
                    }
                },
            }
        }),
{
    if let Ok((text, rest)) = demand_step(bytes) {
        let w = words(text);
        if w.len() == 3 && value(w[0]) is Some && value(w[1]) is Some && value(w[2]) is Some {
            assert forall|i: int| 0 <= i < w.len() implies value(#[trigger] w[i]) is Some by {
                assert(i == 0 || i == 1 || i == 2);
            }
        }
    }
}

/// The bounds of a patch: a line for each axis, with the lower and the upper bound.
pub open spec fn grid_text<S>(b: BoundingBox<S>, show: spec_fn(S) -> Seq<char>) -> Seq<u8> {
    word_line(seq![show(b.min.x), show(b.max.x)]) + (word_line(
        seq![show(b.min.y), show(b.max.y)],
    ) + word_line(seq![show(b.min.z), show(b.max.z)]))
}

proof fn lemma_pair<S>(
    a: S,
    b: S,
    show: spec_fn(S) -> Seq<char>,
    value: Meaning<S>,
    rest: Seq<u8>,
)
    requires
        writes(show, value),
    ensures
        fixed_array_step(
            word_line(seq![show(a), show(b)]) + rest,
            Delimiter::Whitespace,
            2,
            value,
        ) == Ok::<(Seq<S>, Seq<u8>), ParseError>((seq![a, b], rest)),
{
    let list = seq![show(a), show(b)];
    let items = seq![a, b];
    assert forall|i: int| 0 <= i < 2 implies is_word(#[trigger] list[i]) && value(list[i]) == Some(
        items[i],
    ) by {
        assert(i == 0 || i == 1);
    }
    law_word_line(list, items, value, rest);
}

/// Bounds that are written out are read back.
pub proof fn law_grid<S>(
    b: BoundingBox<S>,
    show: spec_fn(S) -> Seq<char>,
    value: Meaning<S>,
    rest: Seq<u8>,
)
    requires
        writes(show, value),
    ensures
        grid_step(grid_text(b, show) + rest, value) == Ok::<(BoundingBox<S>, Seq<u8>), ParseError>(
            (b, rest),
        ),
{
    let x = word_line(seq![show(b.min.x), show(b.max.x)]);
    let y = word_line(seq![show(b.min.y), show(b.max.y)]);
    let z = word_line(seq![show(b.min.z), show(b.max.z)]);
    assert(grid_text(b, show) + rest =~= x + (y + (z + rest)));
    lemma_pair(b.min.x, b.max.x, show, value, y + (z + rest));
    lemma_pair(b.min.y, b.max.y, show, value, z + rest);
    lemma_pair(b.min.z, b.max.z, show, value, rest);
}

/// Texts one after the other.
pub open spec fn all_texts(texts: Seq<Seq<u8>>, n: nat) -> Seq<u8>
    decreases n,
{
    if n == 0 {
        Seq::empty()
    } else {
        all_texts(texts, (n - 1) as nat) + texts[n - 1]
    }
}

/// Items that are each read from their text are read one after the other.
pub proof fn lemma_repeat<V>(
    items: Seq<V>,
    texts: Seq<Seq<u8>>,
    n: nat,
    item: spec_fn(Seq<u8>) -> Step<V>,
    rest: Seq<u8>,
)
    requires
        items.len() == texts.len(),
        n <= items.len(),
        forall|i: int, tail: Seq<u8>|
            0 <= i < items.len() ==> #[trigger] item(texts[i] + tail) == Ok::<
                (V, Seq<u8>),
                ParseError,
            >((items[i], tail)),
    ensures
        repeat_step(all_texts(texts, n) + rest, n, item) == Ok::<(Seq<V>, Seq<u8>), ParseError>(
            (items.take(n as int), rest),
        ),
    decreases n,
{
    if n == 0 {
        assert(all_texts(texts, n) + rest =~= rest);
        assert(items.take(0) =~= Seq::empty());
    } else {
        let m = (n - 1) as nat;
        let after = texts[n - 1] + rest;
        assert(all_texts(texts, n) + rest =~= all_texts(texts, m) + after);
        lemma_repeat(items, texts, m, item, after);
        assert(item(texts[n - 1] + rest) == Ok::<(V, Seq<u8>), ParseError>((items[n - 1], rest)));
        assert(items.take(m as int).push(items[n - 1]) =~= items.take(n as int));
    }
}

/// Three integers with commas between them: x, y and z.
pub open spec fn index_text(v: IVec3) -> Seq<char> {
    separated(
        seq![signed_decimal(v.x as int), signed_decimal(v.y as int), signed_decimal(v.z as int)],
        ',',
    )
}

/// A digit, a minus sign or a comma.
spec fn is_index_char(c: char) -> bool {
    ('0' <= c <= '9') || c == '-' || c == ','
}

proof fn lemma_index_text(v: IVec3)
    ensures
        index_of(index_text(v)) == Ok::<IVec3, ParseError>(v),
        index_text(v).len() > 0,
        forall|i: int| 0 <= i < index_text(v).len() ==> is_index_char(#[trigger] index_text(v)[i]),
{
    let (a, b, c) = (
        signed_decimal(v.x as int),
        signed_decimal(v.y as int),
        signed_decimal(v.z as int),
    );
    let list = seq![a, b, c];
    lemma_signed(v.x as int);
    lemma_signed(v.y as int);
    lemma_signed(v.z as int);
    law_integers_read(v.x as int);
    law_integers_read(v.y as int);
    law_integers_read(v.z as int);
    assert forall|i: int, k: int| 0 <= i < 3 && 0 <= k < list[i].len() implies #[trigger] list[i][k]
        != ',' by {
        assert(i == 0 || i == 1 || i == 2);
    }
    law_pieces(list, ',');
    let items = seq![v.x, v.y, v.z];
    let value = |t: Seq<char>| i32_of(t);
    assert forall|i: int| 0 <= i < 3 implies value(#[trigger] list[i]) == Some(items[i]) by {
        assert(i == 0 || i == 1 || i == 2);
    }
    lemma_values(list, items, value);
    let rest = list.drop_first();
    assert(rest =~= seq![b, c]);
    assert(rest.drop_first() =~= seq![c]);
    reveal_with_fuel(separated, 4);
    let s = index_text(v);
    assert(s =~= a + seq![','] + (b + seq![','] + c));
    assert forall|i: int| 0 <= i < s.len() implies is_index_char(#[trigger] s[i]) by {
        if i < a.len() {
            assert(s[i] == a[i]);
        } else if i == a.len() {
        } else if i < a.len() + 1 + b.len() {
            assert(s[i] == b[i - a.len() - 1]);
        } else if i == a.len() + 1 + b.len() {
        } else {
            assert(s[i] == c[i - a.len() - b.len() - 2]);
        }
    }
}

proof fn lemma_signed(v: int)
    ensures
        signed_decimal(v).len() > 0,
        forall|i: int|
            0 <= i < signed_decimal(v).len() ==> ('0' <= #[trigger] signed_decimal(v)[i] <= '9'
                || signed_decimal(v)[i] == '-'),
{
    let n: nat = if v < 0 {
        (-v) as nat
    } else {
        v as nat
    };
    lemma_decimal(n);
    if v < 0 {
        assert forall|i: int| 0 <= i < signed_decimal(v).len() implies ('0'
            <= #[trigger] signed_decimal(v)[i] <= '9' || signed_decimal(v)[i] == '-') by {
            if i > 0 {
                assert(signed_decimal(v)[i] == decimal(n)[i - 1]);
            }
        }
    }
}

/// Three comma-separated integers are the x, y and z of an index, in this order.
pub proof fn law_index(v: IVec3)
    ensures
        index_of(index_text(v)) == Ok::<IVec3, ParseError>(v),
{
    lemma_index_text(v);
}

/// A box such as `((0,0,0) (255,95,95) (0,0,0))`: lower corner, upper corner, index type.
pub open spec fn box_text(d: IndexDomain) -> Seq<char> {
    seq!['(', '('] + index_text(d.min) + seq![')', ' ', '('] + index_text(d.max) + seq![
        ')',
        ' ',
        '(',
    ] + index_text(d.index_type) + seq![')', ')']
}

/// `k` opening parentheses, then `a` and a closing one, then a blank or nothing, then `r`.
proof fn lemma_take_index(k: nat, a: Seq<char>, blanks: Seq<char>, r: Seq<char>)
    requires
        k == 1 || k == 2,
        a.len() > 0,
        forall|i: int| 0 <= i < a.len() ==> is_index_char(#[trigger] a[i]),
        blanks =~= seq![' '] || blanks =~= Seq::empty(),
        r.len() > 0 ==> !is_space(r[0]) && !is_space(r[r.len() - 1]),
    ensures
        ({
            let open = if k == 1 {
                seq!['(']
            } else {
                seq!['(', '(']
            };
            taken(opened(open + a + seq![')'] + blanks + r), ')') == (a, r)
        }),
{
    let open = if k == 1 {
        seq!['(']
    } else {
        seq!['(', '(']
    };
    let s = open + a + seq![')'] + blanks + r;
    let t = a + seq![')'] + blanks + r;
    assert(is_index_char(a[0]));
    assert(t[0] == a[0]);
    assert(skipped(s, ' ') == s) by {
        assert(s[0] == '(');
    }
    assert(skipped(s, '(') == t) by {
        reveal_with_fuel(skipped, 4);
        if k == 1 {
            assert(s.drop_first() =~= t);
        } else {
            assert(s.drop_first() =~= seq!['('] + t);
            assert((seq!['('] + t).drop_first() =~= t);
            assert(s[0] == '(' && s.drop_first()[0] == '(');
        }
    }
    assert(skipped(t, ' ') == t);
    let rest = seq![')'] + blanks + r;
    assert(t =~= a + rest);
    assert forall|i: int| 0 <= i < a.len() implies #[trigger] a[i] != ')' by {
        assert(is_index_char(a[i]));
    }
    law_find(a, ')', rest);
    assert(t.take(a.len() as int) =~= a);
    assert(t.skip(a.len() as int + 1) =~= blanks + r);
    assert(is_index_char(a[a.len() - 1]));
    law_trimmed(Seq::empty(), a, Seq::empty());
    assert(Seq::<char>::empty() + a + Seq::<char>::empty() =~= a);
    assert(is_space(' '));
    law_trimmed(blanks, r, Seq::empty());
    assert(blanks + r + Seq::<char>::empty() =~= blanks + r);
}

/// A box at the front of a text, followed by nothing or by a blank and more.
pub proof fn law_box(d: IndexDomain, more: Seq<char>)
    requires
        more.len() > 0 ==> more[0] != ' ' && more[0] != ')' && !is_space(more[0]) && !is_space(
            more[more.len() - 1],
        ),
    ensures
        index_domain_of(
            box_text(d) + if more.len() > 0 {
                seq![' '] + more
            } else {
                Seq::empty()
            },
        ) == Ok::<(IndexDomain, Seq<char>), ParseError>((d, more)),
{
    let tail = if more.len() > 0 {
        seq![' '] + more
    } else {
        Seq::empty()
    };
    let (a, b, c) = (index_text(d.min), index_text(d.max), index_text(d.index_type));
    lemma_index_text(d.min);
    lemma_index_text(d.max);
    lemma_index_text(d.index_type);
    let r3 = seq![')'] + tail;
    let r2 = seq!['('] + c + seq![')'] + Seq::<char>::empty() + r3;
    let r1 = seq!['('] + b + seq![')'] + seq![' '] + r2;
    let s = seq!['(', '('] + a + seq![')'] + seq![' '] + r1;
    lemma_box_parts(a, b, c, tail);
    assert(box_text(d) + tail == s);
    lemma_box_tail(more);
    lemma_box_ends(a, b, c, more);
    lemma_take_index(2, a, seq![' '], r1);
    lemma_take_index(1, b, seq![' '], r2);
    lemma_take_index(1, c, Seq::empty(), r3);
}

proof fn lemma_box_parts(a: Seq<char>, b: Seq<char>, c: Seq<char>, tail: Seq<char>)
    ensures
        ({
            let r3 = seq![')'] + tail;
            let r2 = seq!['('] + c + seq![')'] + Seq::<char>::empty() + r3;
            let r1 = seq!['('] + b + seq![')'] + seq![' '] + r2;
            seq!['(', '('] + a + seq![')', ' ', '('] + b + seq![')', ' ', '('] + c + seq![')', ')']
                + tail == seq!['(', '('] + a + seq![')'] + seq![' '] + r1
        }),
{
    let r3 = seq![')'] + tail;
    let r2 = seq!['('] + c + seq![')'] + Seq::<char>::empty() + r3;
    let r1 = seq!['('] + b + seq![')'] + seq![' '] + r2;
    assert(seq!['('] + c + seq![')', ')'] + tail =~= r2);
    assert(seq!['('] + b + seq![')', ' ', '('] + c + seq![')', ')'] + tail =~= seq!['('] + b + seq![
        ')',
    ] + seq![' '] + (seq!['('] + c + seq![')', ')'] + tail));
    assert(seq!['(', '('] + a + seq![')', ' ', '('] + b + seq![')', ' ', '('] + c + seq![')', ')']
        + tail =~= seq!['(', '('] + a + seq![')'] + seq![' '] + (seq!['('] + b + seq![')', ' ', '(']
        + c + seq![')', ')'] + tail));
}

/// The blank, if any, that follows a box.
spec fn box_tail(more: Seq<char>) -> Seq<char> {
    if more.len() > 0 {
        seq![' '] + more
    } else {
        Seq::empty()
    }
}

proof fn lemma_box_tail(more: Seq<char>)
    requires
        more.len() > 0 ==> more[0] != ' ' && more[0] != ')',
    ensures
        skipped(skipped(seq![')'] + box_tail(more), ')'), ' ') == more,
{
    let tail = box_tail(more);
    let r3 = seq![')'] + tail;
    assert(skipped(r3, ')') == tail) by {
        reveal_with_fuel(skipped, 3);
        assert(r3[0] == ')');
        assert(r3.drop_first() =~= tail);
    }
    assert(skipped(tail, ' ') == more) by {
        reveal_with_fuel(skipped, 3);
        if more.len() > 0 {
            assert(tail[0] == ' ');
            assert(tail.drop_first() =~= more);
        } else {
            assert(more =~= Seq::empty());
        }
    }
}

proof fn lemma_box_ends(a: Seq<char>, b: Seq<char>, c: Seq<char>, more: Seq<char>)
    requires
        more.len() > 0 ==> !is_space(more[more.len() - 1]),
    ensures
        ({
            let r3 = seq![')'] + box_tail(more);
            let r2 = seq!['('] + c + seq![')'] + Seq::<char>::empty() + r3;
            let r1 = seq!['('] + b + seq![')'] + seq![' '] + r2;
            &&& r3.len() > 0 && !is_space(r3[0]) && !is_space(r3[r3.len() - 1])
            &&& r2.len() > 0 && !is_space(r2[0]) && !is_space(r2[r2.len() - 1])
            &&& r1.len() > 0 && !is_space(r1[0]) && !is_space(r1[r1.len() - 1])
        }),
{
    let r3 = seq![')'] + box_tail(more);
    let r2 = seq!['('] + c + seq![')'] + Seq::<char>::empty() + r3;
    let r1 = seq!['('] + b + seq![')'] + seq![' '] + r2;
    assert(!is_space(')') && !is_space('('));
    if more.len() > 0 {
        assert(r3[r3.len() - 1] == more[more.len() - 1]);
    }
    assert(r2[r2.len() - 1] == r3[r3.len() - 1] && r2[0] == '(');
    assert(r1[r1.len() - 1] == r2[r2.len() - 1] && r1[0] == '(');
}

/// Boxes with one blank between them.
pub open spec fn boxes_text(list: Seq<IndexDomain>) -> Seq<char>
    decreases list.len(),
{
    if list.len() == 0 {
        Seq::empty()
    } else if list.len() == 1 {
        box_text(list[0])
    } else {
        box_text(list[0]) + (seq![' '] + boxes_text(list.drop_first()))
    }
}

pub proof fn lemma_box_text(d: IndexDomain)
    ensures
        box_text(d).len() >= 2,
        box_text(d)[0] == '(',
        box_text(d)[box_text(d).len() - 1] == ')',
        forall|i: int| 0 <= i < box_text(d).len() ==> #[trigger] box_text(d)[i] != '\n',
{
    let (a, b, c) = (index_text(d.min), index_text(d.max), index_text(d.index_type));
    lemma_index_text(d.min);
    lemma_index_text(d.max);
    lemma_index_text(d.index_type);
    let s = box_text(d);
    let (n1, n2, n3) = (2 + a.len(), 5 + a.len() + b.len(), 8 + a.len() + b.len() + c.len());
    assert forall|i: int| 0 <= i < s.len() implies #[trigger] s[i] != '\n' by {
        if 2 <= i < n1 {
            assert(s[i] == a[i - 2]);
            assert(is_index_char(a[i - 2]));
        } else if n1 + 3 <= i < n2 {
            assert(s[i] == b[i - n1 - 3]);
            assert(is_index_char(b[i - n1 - 3]));
        } else if n2 + 3 <= i < n3 {
            assert(s[i] == c[i - n2 - 3]);
            assert(is_index_char(c[i - n2 - 3]));
        }
    }
}

/// Boxes that are written out in a line are read back, in order.
pub proof fn law_boxes(list: Seq<IndexDomain>)
    ensures
        index_domains_of(boxes_text(list)) == Ok::<Seq<IndexDomain>, ParseError>(list),
        is_line(boxes_text(list)),
        list.len() > 0 ==> boxes_text(list).len() > 0 && boxes_text(list)[0] == '(',
    decreases list.len(),
{
    let s = boxes_text(list);
    if list.len() == 0 {
        assert(list =~= Seq::empty());
    } else {
        let d = list[0];
        let rest = list.drop_first();
        let more = boxes_text(rest);
        lemma_box_text(d);
        law_boxes(rest);
        assert(!is_space('(') && !is_space(')'));
        if list.len() == 1 {
            assert(rest =~= Seq::empty());
            assert(more =~= Seq::empty());
            law_box(d, more);
            assert(box_text(d) + Seq::<char>::empty() =~= box_text(d));
        } else {
            law_box(d, more);
            assert forall|i: int| 0 <= i < s.len() implies #[trigger] s[i] != '\n' by {
                if i < box_text(d).len() {
                    assert(s[i] == box_text(d)[i]);
                } else if i > box_text(d).len() {
                    assert(s[i] == more[i - box_text(d).len() - 1]);
                }
            }
            assert(s[s.len() - 1] == more[more.len() - 1]);
        }
        assert(seq![d] + rest =~= list);
    }
}

/// The record of a level: a line with level, patch count and time, a line with the step, the
/// bounds of the patches, and a line with the path.
pub open spec fn record_text<S>(r: RecordModel<S>, show: spec_fn(S) -> Seq<char>) -> Seq<u8> {
    word_line(
        seq![decimal(r.level_index as nat), decimal(r.patches as nat), show(r.time)],
    ) + (line(decimal(r.step as nat)) + (all_texts(
        r.grids.map_values(|b: BoundingBox<S>| grid_text(b, show)),
        r.grids.len(),
    ) + line(r.path)))
}

/// The record of a level that is written out is read back.
pub proof fn law_record_text<S>(
    r: RecordModel<S>,
    show: spec_fn(S) -> Seq<char>,
    value: Meaning<S>,
    rest: Seq<u8>,
)
    requires
        writes(show, value),
        r.grids.len() == r.patches,
        is_line(r.path),
    ensures
        record_step(record_text(r, show) + rest, value) == Ok::<
            (RecordModel<S>, Seq<u8>),
            ParseError,
        >((r, rest)),
{
    let list = seq![decimal(r.level_index as nat), decimal(r.patches as nat), show(r.time)];
    let texts = r.grids.map_values(|b: BoundingBox<S>| grid_text(b, show));
    let grids = all_texts(texts, r.grids.len());
    let t2 = line(r.path) + rest;
    let t1 = grids + t2;
    let t0 = line(decimal(r.step as nat)) + t1;
    assert(record_text(r, show) + rest =~= word_line(list) + t0);
    lemma_number_is_word(r.level_index as nat);
    lemma_number_is_word(r.patches as nat);
    law_naturals(r.level_index as nat);
    law_naturals(r.patches as nat);
    assert(is_word(show(r.time)));
    assert forall|i: int| 0 <= i < 3 implies is_word(#[trigger] list[i]) by {
        assert(i == 0 || i == 1 || i == 2);
    }
    lemma_separated(list);
    lemma_line(separated(list, ' '), t0);
    let w = words(separated(list, ' '));
    assert(w[0] == decimal(r.level_index as nat) && w[1] == decimal(r.patches as nat) && w[2]
        == show(r.time));
    lemma_number_line(r.step, t1);
    let item = |b: Seq<u8>| grid_step(b, value);
    assert forall|i: int, tail: Seq<u8>| 0 <= i < r.grids.len() implies #[trigger] item(
        texts[i] + tail,
    ) == Ok::<(BoundingBox<S>, Seq<u8>), ParseError>((r.grids[i], tail)) by {
        law_grid(r.grids[i], show, value, tail);
    }
    lemma_repeat(r.grids, texts, r.grids.len(), item, t2);
    assert(r.grids.take(r.grids.len() as int) =~= r.grids);
    lemma_line(r.path, rest);
}

/// The records of the first `n` levels, one after the other.
pub open spec fn records_text<S>(
    records: Seq<RecordModel<S>>,
    n: nat,
    show: spec_fn(S) -> Seq<char>,
) -> Seq<u8>
    decreases n,
{
    if n == 0 {
        Seq::empty()
    } else {
        records_text(records, (n - 1) as nat, show) + record_text(records[n - 1], show)
    }
}

proof fn lemma_records<S>(
    records: Seq<RecordModel<S>>,
    n: nat,
    show: spec_fn(S) -> Seq<char>,
    value: Meaning<S>,
    rest: Seq<u8>,
)
    requires
        writes(show, value),
        n <= records.len(),
        forall|i: int|
            0 <= i < records.len() ==> (#[trigger] records[i]).level_index == i
                && records[i].grids.len() == records[i].patches && is_line(records[i].path),
    ensures
        records_step(records_text(records, n, show) + rest, n, value) == Ok::<
            (Seq<RecordModel<S>>, Seq<u8>),
            ParseError,
        >((records.take(n as int), rest)),
    decreases n,
{
    if n == 0 {
        assert(records_text(records, n, show) + rest =~= rest);
        assert(records.take(0) =~= Seq::empty());
    } else {
        let m = (n - 1) as nat;
        let r = records[n - 1];
        let after = record_text(r, show) + rest;
        assert(records_text(records, n, show) + rest =~= records_text(records, m, show) + after);
        lemma_records(records, m, show, value, after);
        law_record_text(r, show, value, rest);
        assert(records.take(m as int).push(r) =~= records.take(n as int));
    }
}

/// The numbers of a list, with one blank between them.
pub open spec fn numbers_line(list: Seq<usize>) -> Seq<u8> {
    word_line(list.map_values(|n: usize| decimal(n as nat)))
}

proof fn lemma_numbers_line(list: Seq<usize>, rest: Seq<u8>)
    ensures
        dyn_array_step(
            numbers_line(list) + rest,
            Delimiter::Whitespace,
            |t: Seq<char>| usize_of(t),
        ) == Ok::<(Seq<usize>, Seq<u8>), ParseError>((list, rest)),
{
    let texts = list.map_values(|n: usize| decimal(n as nat));
    let value = |t: Seq<char>| usize_of(t);
    assert forall|i: int| 0 <= i < texts.len() implies is_word(#[trigger] texts[i]) && value(
        texts[i],
    ) == Some(list[i]) by {
        lemma_number_is_word(list[i] as nat);
        law_naturals(list[i] as nat);
    }
    law_word_line(texts, list, value, rest);
}

/// The number of a coordinate system.
pub open spec fn system_number(c: CoordinateSystem) -> nat {
    match c {
        CoordinateSystem::Cartesian => 0,
        CoordinateSystem::Cylindrical => 1,
        CoordinateSystem::Spherical => 2,
    }
}

/// The number and the names of the quantities, the dimension, the time, the finest level, and
/// the lower and the upper corner of the domain.
pub open spec fn header_top<S>(h: HeaderModel<S>, show: spec_fn(S) -> Seq<char>, rest: Seq<u8>) -> Seq<
    u8,
> {
    line("HyperCLaw-V1.1"@) + (line(decimal(h.names.len())) + (all_texts(
        h.names.map_values(|n: Seq<char>| line(n)),
        h.names.len(),
    ) + (line(decimal(3)) + (line(show(h.time)) + (line(decimal(h.finest_level as nat)) + (
    triple_text(h.domain.min, show) + (triple_text(h.domain.max, show) + rest)))))))
}

/// The refinement ratios, the index domains and the steps of the levels, the cell sizes, the
/// coordinate system, the boundary width, and the records of the levels.
pub open spec fn header_bottom<S>(h: HeaderModel<S>, show: spec_fn(S) -> Seq<char>) -> Seq<u8> {
    numbers_line(h.ratios) + (line(boxes_text(h.index_domains)) + (numbers_line(h.level_steps) + (
    all_texts(
        h.cell_sizes.map_values(|v: Vec3<S>| triple_text(v, show)),
        h.cell_sizes.len(),
    ) + (line(decimal(system_number(h.coordinate_system))) + (line(
        decimal(h.boundary_width as nat),
    ) + records_text(h.records, h.records.len(), show))))))
}

/// A `Header` file.
pub open spec fn header_text<S>(h: HeaderModel<S>, show: spec_fn(S) -> Seq<char>) -> Seq<u8> {
    header_top(h, show, header_bottom(h, show))
}

/// A header that can be written: fewer than 2048 names, each a line; one ratio less than there
/// are levels; an index domain, a step, a cell size and a record for each level; and in each
/// record the number of its level, the bounds of all its patches and a path.
pub open spec fn writable<S>(h: HeaderModel<S>) -> bool {
    &&& h.names.len() < 2048
    &&& forall|i: int| 0 <= i < h.names.len() ==> is_line(#[trigger] h.names[i])
    &&& h.ratios.len() == h.finest_level
    &&& h.index_domains.len() == h.finest_level + 1
    &&& h.level_steps.len() == h.finest_level + 1
    &&& h.cell_sizes.len() == h.finest_level + 1
    &&& h.records.len() == h.finest_level + 1
    &&& forall|i: int|
        0 <= i < h.records.len() ==> (#[trigger] h.records[i]).level_index == i
            && h.records[i].grids.len() == h.records[i].patches && is_line(h.records[i].path)
}

proof fn lemma_names(names: Seq<Seq<char>>, rest: Seq<u8>)
    requires
        names.len() < 2048,
        forall|i: int| 0 <= i < names.len() ==> is_line(#[trigger] names[i]),
    ensures
        names_step(
            line(decimal(names.len())) + (all_texts(
                names.map_values(|n: Seq<char>| line(n)),
                names.len(),
            ) + rest),
        ) == Ok::<(Seq<Seq<char>>, Seq<u8>), ParseError>((names, rest)),
{
    let texts = names.map_values(|n: Seq<char>| line(n));
    let item = |b: Seq<u8>| demand_step(b);
    assert forall|i: int, tail: Seq<u8>| 0 <= i < names.len() implies #[trigger] item(
        texts[i] + tail,
    ) == Ok::<(Seq<char>, Seq<u8>), ParseError>((names[i], tail)) by {
        lemma_line(names[i], tail);
    }
    lemma_number_line(names.len() as usize, all_texts(texts, names.len()) + rest);
    lemma_repeat(names, texts, names.len(), item, rest);
    assert(names.take(names.len() as int) =~= names);
}

proof fn lemma_level_lists<S>(h: HeaderModel<S>, rest: Seq<u8>)
    requires
        writable(h),
    ensures
        level_lists_step(
            numbers_line(h.ratios) + (line(boxes_text(h.index_domains)) + (numbers_line(
                h.level_steps,
            ) + rest)),
            h.finest_level,
        ) matches Ok((lists, left)) && left == rest && lists.ratios == h.ratios
            && lists.index_domains == h.index_domains && lists.level_steps == h.level_steps,
{
    let t1 = numbers_line(h.level_steps) + rest;
    let t0 = line(boxes_text(h.index_domains)) + t1;
    lemma_numbers_line(h.ratios, t0);
    law_boxes(h.index_domains);
    lemma_line(boxes_text(h.index_domains), t1);
    lemma_numbers_line(h.level_steps, rest);
}

proof fn lemma_header_tail<S>(
    h: HeaderModel<S>,
    lists: LevelLists,
    show: spec_fn(S) -> Seq<char>,
    value: Meaning<S>,
)
    requires
        writes(show, value),
        writable(h),
        lists.ratios == h.ratios,
        lists.index_domains == h.index_domains,
        lists.level_steps == h.level_steps,
    ensures
        hyper_tail_of(
            all_texts(
                h.cell_sizes.map_values(|v: Vec3<S>| triple_text(v, show)),
                h.cell_sizes.len(),
            ) + (line(decimal(system_number(h.coordinate_system))) + (line(
                decimal(h.boundary_width as nat),
            ) + records_text(h.records, h.records.len(), show))),
            value,
            h.names,
            h.time,
            h.finest_level,
            h.domain,
            lists,
        ) == Ok::<HeaderModel<S>, ParseError>(h),
{
    let records = records_text(h.records, h.records.len(), show);
    let t1 = line(decimal(h.boundary_width as nat)) + records;
    let t0 = line(decimal(system_number(h.coordinate_system))) + t1;
    let texts = h.cell_sizes.map_values(|v: Vec3<S>| triple_text(v, show));
    let item = |b: Seq<u8>| triple_step(b, value);
    assert forall|i: int, tail: Seq<u8>| 0 <= i < h.cell_sizes.len() implies #[trigger] item(
        texts[i] + tail,
    ) == Ok::<(Vec3<S>, Seq<u8>), ParseError>((h.cell_sizes[i], tail)) by {
        law_triple(h.cell_sizes[i], show, value, tail);
    }
    lemma_repeat(h.cell_sizes, texts, h.cell_sizes.len(), item, t0);
    assert(h.cell_sizes.take(h.cell_sizes.len() as int) =~= h.cell_sizes);
    lemma_number_line(system_number(h.coordinate_system) as usize, t1);
    lemma_number_line(h.boundary_width, records);
    lemma_records(h.records, h.records.len(), show, value, Seq::empty());
    assert(records + Seq::<u8>::empty() =~= records);
    assert(h.records.take(h.records.len() as int) =~= h.records);
}

/// A header that is written out line by line is read back: every quantity, bound, ratio, index
/// domain, step, cell size and record, in its place and along its axis.
pub proof fn law_header_round_trip<S>(
    h: HeaderModel<S>,
    show: spec_fn(S) -> Seq<char>,
    value: Meaning<S>,
)
    requires
        writes(show, value),
        writable(h),
    ensures
        header_of(header_text(h, show), value) == Ok::<HeaderModel<S>, ParseError>(h),
{
    let bottom = header_bottom(h, show);
    let b6 = triple_text(h.domain.max, show) + bottom;
    let b5 = triple_text(h.domain.min, show) + b6;
    let b4 = line(decimal(h.finest_level as nat)) + b5;
    let b3 = line(show(h.time)) + b4;
    let b2 = line(decimal(3)) + b3;
    let names = all_texts(h.names.map_values(|n: Seq<char>| line(n)), h.names.len());
    let b1 = line(decimal(h.names.len())) + (names + b2);
    lemma_tag(b1);
    lemma_names(h.names, b2);
    lemma_number_line(3, b3);
    assert(is_word(show(h.time)));
    lemma_word_is_line(show(h.time));
    lemma_value_line(show(h.time), h.time, value, b4);
    lemma_number_line(h.finest_level, b5);
    law_triple(h.domain.min, show, value, b6);
    law_triple(h.domain.max, show, value, bottom);
    let sizes = all_texts(
        h.cell_sizes.map_values(|v: Vec3<S>| triple_text(v, show)),
        h.cell_sizes.len(),
    ) + (line(decimal(system_number(h.coordinate_system))) + (line(
        decimal(h.boundary_width as nat),
    ) + records_text(h.records, h.records.len(), show)));
    lemma_level_lists(h, sizes);
    let lists = level_lists_step(bottom, h.finest_level)->Ok_0.0;
    lemma_header_tail(h, lists, show, value);
}

/// The tag of a header is a line.
proof fn lemma_tag(rest: Seq<u8>)
    ensures
        demand_step(line("HyperCLaw-V1.1"@) + rest) == Ok::<(Seq<char>, Seq<u8>), ParseError>(
            ("HyperCLaw-V1.1"@, rest),
        ),
{
    reveal_strlit("HyperCLaw-V1.1");
    lemma_line("HyperCLaw-V1.1"@, rest);
}

/// A header that is read has fewer than 2048 names, one ratio less than there are levels, and
/// an index domain, a step, a cell size and a record for each level; each record has the number
/// of its level and the bounds of all its patches.
pub proof fn law_header_shape<S>(bytes: Seq<u8>, value: Meaning<S>)
    ensures
        header_of(bytes, value) matches Ok(h) ==> {
            &&& h.names.len() < 2048
            &&& h.ratios.len() == h.finest_level
            &&& h.index_domains.len() == h.finest_level + 1
            &&& h.level_steps.len() == h.finest_level + 1
            &&& h.cell_sizes.len() == h.finest_level + 1
            &&& h.records.len() == h.finest_level + 1
            &&& forall|i: int|
                0 <= i < h.records.len() ==> (#[trigger] h.records[i]).level_index == i
                    && h.records[i].grids.len() == h.records[i].patches
        },
{
    law_header_consistent(bytes, value);
    if let Ok(h) = header_of(bytes, value) {
        let b0 = demand_step(bytes)->Ok_0.1;
        let count = value_step(b0, |t: Seq<char>| usize_of(t))->Ok_0.0;
        let b1 = value_step(b0, |t: Seq<char>| usize_of(t))->Ok_0.1;
        lemma_repeat_count(b1, count as nat, |b: Seq<u8>| demand_step(b));
    }
}

proof fn lemma_repeat_count<V>(bytes: Seq<u8>, n: nat, item: spec_fn(Seq<u8>) -> Step<V>)
    ensures
        repeat_step(bytes, n, item) matches Ok((list, _)) ==> list.len() == n,
    decreases n,
{
    if n > 0 {
        lemma_repeat_count(bytes, (n - 1) as nat, item);
    }
}

/// A file whose first line is not the tag of a header is refused.
pub proof fn law_other_format<S>(text: Seq<char>, rest: Seq<u8>, value: Meaning<S>)
    requires
        is_line(text),
        text != "HyperCLaw-V1.1"@,
    ensures
        header_of(line(text) + rest, value) == Err::<HeaderModel<S>, ParseError>(
            ParseError::UnknownFormat,
        ),
{
    lemma_line(text, rest);
}

/// A header for another dimension than three is refused.
pub proof fn law_other_dimension<S>(
    names: Seq<Seq<char>>,
    dimension: usize,
    rest: Seq<u8>,
    value: Meaning<S>,
)
    requires
        names.len() < 2048,
        forall|i: int| 0 <= i < names.len() ==> is_line(#[trigger] names[i]),
        dimension != 3,
    ensures
        header_of(
            line("HyperCLaw-V1.1"@) + (line(decimal(names.len())) + (all_texts(
                names.map_values(|n: Seq<char>| line(n)),
                names.len(),
            ) + (line(decimal(dimension as nat)) + rest))),
            value,
        ) == Err::<HeaderModel<S>, ParseError>(ParseError::Unsupported),
{
    let tail = line(decimal(dimension as nat)) + rest;
    let texts = all_texts(names.map_values(|n: Seq<char>| line(n)), names.len());
    lemma_tag(line(decimal(names.len())) + (texts + tail));
    lemma_names(names, tail);
    lemma_number_line(dimension, rest);
}

/// A header with 2048 quantities or more is refused.
pub proof fn law_too_many_quantities<S>(count: usize, rest: Seq<u8>, value: Meaning<S>)
    requires
        count >= 2048,
    ensures
        header_of(
            line("HyperCLaw-V1.1"@) + (line(decimal(count as nat)) + rest),
            value,
        ) == Err::<HeaderModel<S>, ParseError>(ParseError::TooManyQuantities),
{
    lemma_tag(line(decimal(count as nat)) + rest);
    lemma_number_line(count, rest);
}

/// Coordinate systems are numbered from 0 to 2: Cartesian, cylindrical, spherical. There is no
/// other.
pub proof fn law_coordinate_systems(n: usize, c: CoordinateSystem)
    ensures
        coordinate_system_of(n) == Some(c) <==> n == system_number(c),
        coordinate_system_of(n) is None <==> n > 2,
{
}

} // verus!
