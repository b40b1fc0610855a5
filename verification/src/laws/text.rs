//! Lines, words and numbers: what is written is read.

use vstd::prelude::*;
use vstd::utf8::{
    char_is_scalar, char_u32_cast, encode_scalar, encode_utf8, encode_utf8_decode_utf8,
    encode_utf8_valid_utf8, has_width_1_encoding, last_continuation_byte, leading_byte_width_1,
    leading_byte_width_2, leading_byte_width_3, leading_byte_width_4, second_last_continuation_byte,
    third_last_continuation_byte,
};

use crate::text_parsing::{
    all_digits, demand_step, digits_value, fields, find, fixed_array_of, i32_of, is_space, line_len,
    pieces, trim_end, trim_start, trimmed, u32_of, u64_of, usize_of, values_of, word_len, words,
    Delimiter, Meaning, ParseError,
};

verus! {

/// The bytes of a line, with the newline that ends it.
pub open spec fn line(text: Seq<char>) -> Seq<u8> {
    encode_utf8(text) + seq![10u8]
}

/// A text of one line, without white space at either end.
pub open spec fn is_line(text: Seq<char>) -> bool {
    &&& forall|i: int| 0 <= i < text.len() ==> #[trigger] text[i] != '\n'
    &&& text.len() > 0 ==> !is_space(text[0]) && !is_space(text[text.len() - 1])
}

/// A text that is not empty and holds no white space.
pub open spec fn is_word(text: Seq<char>) -> bool {
    &&& text.len() > 0
    &&& forall|i: int| 0 <= i < text.len() ==> !is_space(#[trigger] text[i])
}

proof fn lemma_scalar_bytes(c: u32)
    requires
        c != 10,
        c <= 0x10ffff,
    ensures
        forall|i: int| 0 <= i < encode_scalar(c).len() ==> #[trigger] encode_scalar(c)[i] != 10,
{
    if has_width_1_encoding(c) {
        assert(leading_byte_width_1(c) != 10) by (bit_vector)
            requires
                has_width_1_encoding(c),
                c != 10,
        ;
    } else {
        assert(last_continuation_byte(c) != 10) by (bit_vector);
        assert(second_last_continuation_byte(c) != 10) by (bit_vector);
        assert(third_last_continuation_byte(c) != 10) by (bit_vector);
        assert(leading_byte_width_2(c) != 10) by (bit_vector);
        assert(leading_byte_width_3(c) != 10) by (bit_vector);
        assert(leading_byte_width_4(c) != 10) by (bit_vector);
    }
}

proof fn lemma_no_newline(text: Seq<char>)
    requires
        forall|i: int| 0 <= i < text.len() ==> #[trigger] text[i] != '\n',
    ensures
        forall|i: int| 0 <= i < encode_utf8(text).len() ==> #[trigger] encode_utf8(text)[i] != 10,
    decreases text.len(),
{
    if text.len() > 0 {
        let c = text[0];
        char_is_scalar(c);
        assert(c != '\n');
        if c as u32 == 10u32 {
            char_u32_cast(c, 10u32);
            assert(c == '\n');
        }
        lemma_scalar_bytes(c as u32);
        assert forall|i: int| 0 <= i < text.drop_first().len() implies #[trigger] text.drop_first()[i]
            != '\n' by {
            assert(text.drop_first()[i] == text[i + 1]);
        }
        lemma_no_newline(text.drop_first());
        let n = encode_scalar(c as u32).len() as int;
        assert forall|i: int| 0 <= i < encode_utf8(text).len() implies #[trigger] encode_utf8(
            text,
        )[i] != 10 by {
            if i < n {
                assert(encode_utf8(text)[i] == encode_scalar(c as u32)[i]);
            } else {
                assert(encode_utf8(text)[i] == encode_utf8(text.drop_first())[i - n]);
            }
        }
    }
}

proof fn lemma_line_bytes(text: Seq<char>)
    ensures
        line(text) == encode_utf8(text.push('\n')),
    decreases text.len(),
{
    let all = text.push('\n');
    if text.len() == 0 {
        assert(all.drop_first() =~= Seq::empty());
        assert(encode_utf8(all.drop_first()) =~= Seq::empty());
        assert(all[0] == '\n' && '\n' as u32 == 10u32);
        assert(encode_utf8(all) =~= encode_scalar(10u32));
        assert(leading_byte_width_1(10u32) == 10) by (bit_vector);
        assert(encode_utf8(text) =~= Seq::empty());
        assert(line(text) =~= encode_utf8(all));
    } else {
        assert(all.drop_first() =~= text.drop_first().push('\n'));
        lemma_line_bytes(text.drop_first());
        assert(line(text) =~= encode_utf8(all));
    }
}

proof fn lemma_line_len_of(b: Seq<u8>, rest: Seq<u8>)
    requires
        forall|i: int| 0 <= i < b.len() ==> #[trigger] b[i] != 10,
    ensures
        line_len(b + seq![10u8] + rest) == b.len() + 1,
    decreases b.len(),
{
    let s = b + seq![10u8] + rest;
    if b.len() == 0 {
        assert(s[0] == 10);
    } else {
        assert(s[0] == b[0]);
        assert(s.drop_first() =~= b.drop_first() + seq![10u8] + rest);
        assert forall|i: int| 0 <= i < b.drop_first().len() implies #[trigger] b.drop_first()[i]
            != 10 by {
            assert(b.drop_first()[i] == b[i + 1]);
        }
        lemma_line_len_of(b.drop_first(), rest);
    }
}

/// White space at either end is cut off, and nothing else.
pub proof fn law_trimmed(before: Seq<char>, text: Seq<char>, after: Seq<char>)
    requires
        forall|i: int| 0 <= i < before.len() ==> is_space(#[trigger] before[i]),
        forall|i: int| 0 <= i < after.len() ==> is_space(#[trigger] after[i]),
        text.len() > 0 ==> !is_space(text[0]) && !is_space(text[text.len() - 1]),
    ensures
        trimmed(before + text + after) == text,
{
    let s = before + text + after;
    lemma_trim_front(before, text + after);
    assert(s =~= before + (text + after));
    if text.len() > 0 {
        assert((text + after)[0] == text[0]);
        assert(trim_start(text + after) == text + after);
        lemma_trim_back(text, after);
    } else {
        assert(text + after =~= after);
        lemma_trim_front(after, Seq::empty());
        assert(after + Seq::<char>::empty() =~= after);
        assert(text =~= Seq::empty());
    }
}

proof fn lemma_trim_front(before: Seq<char>, rest: Seq<char>)
    requires
        forall|i: int| 0 <= i < before.len() ==> is_space(#[trigger] before[i]),
    ensures
        trim_start(before + rest) == trim_start(rest),
    decreases before.len(),
{
    let s = before + rest;
    if before.len() > 0 {
        assert(s[0] == before[0]);
        assert(s.drop_first() =~= before.drop_first() + rest);
        assert forall|i: int| 0 <= i < before.drop_first().len() implies is_space(
            #[trigger] before.drop_first()[i],
        ) by {
            assert(before.drop_first()[i] == before[i + 1]);
        }
        lemma_trim_front(before.drop_first(), rest);
    } else {
        assert(s =~= rest);
    }
}

proof fn lemma_trim_back(text: Seq<char>, after: Seq<char>)
    requires
        text.len() > 0,
        !is_space(text[text.len() - 1]),
        forall|i: int| 0 <= i < after.len() ==> is_space(#[trigger] after[i]),
    ensures
        trim_end(text + after) == text,
    decreases after.len(),
{
    let s = text + after;
    if after.len() > 0 {
        assert(s.last() == after.last());
        assert(s.drop_last() =~= text + after.drop_last());
        assert forall|i: int| 0 <= i < after.drop_last().len() implies is_space(
            #[trigger] after.drop_last()[i],
        ) by {
            assert(after.drop_last()[i] == after[i]);
        }
        lemma_trim_back(text, after.drop_last());
    } else {
        assert(s =~= text);
        assert(s.last() == text[text.len() - 1]);
    }
}

/// The first line of a file is the text before its first newline, without white space at either
/// end; the other lines are left.
pub proof fn law_first_line(before: Seq<char>, text: Seq<char>, after: Seq<char>, rest: Seq<u8>)
    requires
        is_line(text),
        forall|i: int| 0 <= i < before.len() ==> is_space(#[trigger] before[i]) && before[i] != '\n',
        forall|i: int| 0 <= i < after.len() ==> is_space(#[trigger] after[i]) && after[i] != '\n',
    ensures
        demand_step(line(before + text + after) + rest) == Ok::<(Seq<char>, Seq<u8>), ParseError>(
            (text, rest),
        ),
{
    let all = before + text + after;
    let b = encode_utf8(all);
    let bytes = line(all) + rest;
    assert forall|i: int| 0 <= i < all.len() implies #[trigger] all[i] != '\n' by {
        if i < before.len() {
            assert(all[i] == before[i]);
        } else if i < before.len() + text.len() {
            assert(all[i] == text[i - before.len()]);
        } else {
            assert(all[i] == after[i - before.len() - text.len()]);
        }
    }
    lemma_no_newline(all);
    lemma_line_len_of(b, rest);
    assert(bytes =~= b + seq![10u8] + rest);
    let n = b.len() + 1;
    assert(bytes.take(n as int) =~= line(all));
    assert(bytes.skip(n as int) =~= rest);
    lemma_line_bytes(all);
    encode_utf8_valid_utf8(all.push('\n'));
    encode_utf8_decode_utf8(all.push('\n'));
    let end = after.push('\n');
    assert(all.push('\n') =~= before + text + end);
    assert(is_space('\n'));
    assert forall|i: int| 0 <= i < end.len() implies is_space(#[trigger] end[i]) by {
        if i < after.len() {
            assert(end[i] == after[i]);
        }
    }
    law_trimmed(before, text, end);
}

/// A line that needs no trimming.
pub proof fn lemma_line(text: Seq<char>, rest: Seq<u8>)
    requires
        is_line(text),
    ensures
        demand_step(line(text) + rest) == Ok::<(Seq<char>, Seq<u8>), ParseError>((text, rest)),
{
    law_first_line(Seq::empty(), text, Seq::empty(), rest);
    assert(Seq::<char>::empty() + text + Seq::<char>::empty() =~= text);
}

/// Words with white space before, between and after them.
pub open spec fn spaced(list: Seq<Seq<char>>, gaps: Seq<Seq<char>>) -> Seq<char>
    decreases list.len(),
{
    if list.len() == 0 {
        gaps[0]
    } else {
        gaps[0] + list[0] + spaced(list.drop_first(), gaps.drop_first())
    }
}

/// The words of a line are the texts between its white space, in order.
pub proof fn law_words(list: Seq<Seq<char>>, gaps: Seq<Seq<char>>)
    requires
        gaps.len() == list.len() + 1,
        forall|i: int| 0 <= i < list.len() ==> is_word(#[trigger] list[i]),
        forall|i: int, k: int|
            0 <= i < gaps.len() && 0 <= k < gaps[i].len() ==> is_space(#[trigger] gaps[i][k]),
        forall|i: int| 0 < i < list.len() ==> (#[trigger] gaps[i]).len() > 0,
    ensures
        words(spaced(list, gaps)) == list,
    decreases list.len(),
{
    let s = spaced(list, gaps);
    if list.len() == 0 {
        lemma_words_front(gaps[0], Seq::empty());
        assert(gaps[0] + Seq::<char>::empty() =~= gaps[0]);
        assert(list =~= Seq::empty());
    } else {
        let more = list.drop_first();
        let after = gaps.drop_first();
        assert forall|i: int| 0 <= i < more.len() implies is_word(#[trigger] more[i]) by {
            assert(more[i] == list[i + 1]);
        }
        assert forall|i: int, k: int| 0 <= i < after.len() && 0 <= k < after[i].len() implies is_space(
            #[trigger] after[i][k],
        ) by {
            assert(after[i][k] == gaps[i + 1][k]);
        }
        assert forall|i: int| 0 < i < more.len() implies (#[trigger] after[i]).len() > 0 by {
            assert(after[i] == gaps[i + 1]);
        }
        law_words(more, after);
        let rest = spaced(more, after);
        assert(is_word(list[0]));
        assert(s =~= gaps[0] + (list[0] + rest));
        assert forall|k: int| 0 <= k < gaps[0].len() implies is_space(#[trigger] gaps[0][k]) by {}
        lemma_words_front(gaps[0], list[0] + rest);
        assert(after[0] == gaps[1]);
        if rest.len() > 0 {
            assert(after[0].len() > 0 || more.len() == 0);
            if after[0].len() > 0 {
                assert(rest[0] == after[0][0]);
            }
        }
        lemma_word_at_front(list[0], rest);
        assert(seq![list[0]] + more =~= list);
    }
}

proof fn lemma_words_front(gap: Seq<char>, rest: Seq<char>)
    requires
        forall|k: int| 0 <= k < gap.len() ==> is_space(#[trigger] gap[k]),
    ensures
        words(gap + rest) == words(rest),
    decreases gap.len(),
{
    let s = gap + rest;
    if gap.len() > 0 {
        assert(s[0] == gap[0]);
        assert(s.drop_first() =~= gap.drop_first() + rest);
        assert forall|k: int| 0 <= k < gap.drop_first().len() implies is_space(
            #[trigger] gap.drop_first()[k],
        ) by {
            assert(gap.drop_first()[k] == gap[k + 1]);
        }
        lemma_words_front(gap.drop_first(), rest);
    } else {
        assert(s =~= rest);
    }
}

proof fn lemma_word_len(w: Seq<char>, rest: Seq<char>)
    requires
        forall|i: int| 0 <= i < w.len() ==> !is_space(#[trigger] w[i]),
        rest.len() == 0 || is_space(rest[0]),
    ensures
        word_len(w + rest) == w.len(),
    decreases w.len(),
{
    let s = w + rest;
    if w.len() > 0 {
        assert(s[0] == w[0]);
        assert(s.drop_first() =~= w.drop_first() + rest);
        assert forall|i: int| 0 <= i < w.drop_first().len() implies !is_space(
            #[trigger] w.drop_first()[i],
        ) by {
            assert(w.drop_first()[i] == w[i + 1]);
        }
        lemma_word_len(w.drop_first(), rest);
    } else {
        assert(s =~= rest);
    }
}

pub proof fn lemma_word_at_front(w: Seq<char>, rest: Seq<char>)
    requires
        is_word(w),
        rest.len() == 0 || is_space(rest[0]),
    ensures
        words(w + rest) == seq![w] + words(rest),
{
    let s = w + rest;
    lemma_word_len(w, rest);
    assert(s[0] == w[0]);
    assert(s.take(w.len() as int) =~= w);
    assert(s.skip(w.len() as int) =~= rest);
}

/// Texts with one separator between them.
pub open spec fn separated(list: Seq<Seq<char>>, c: char) -> Seq<char>
    decreases list.len(),
{
    if list.len() == 0 {
        Seq::empty()
    } else if list.len() == 1 {
        list[0]
    } else {
        list[0] + seq![c] + separated(list.drop_first(), c)
    }
}

proof fn lemma_find(t: Seq<char>, c: char, rest: Seq<char>)
    requires
        forall|i: int| 0 <= i < t.len() ==> #[trigger] t[i] != c,
        rest.len() == 0 || rest[0] == c,
    ensures
        find(t + rest, c) == t.len(),
    decreases t.len(),
{
    let s = t + rest;
    if t.len() > 0 {
        assert(s[0] == t[0]);
        assert(s.drop_first() =~= t.drop_first() + rest);
        assert forall|i: int| 0 <= i < t.drop_first().len() implies #[trigger] t.drop_first()[i]
            != c by {
            assert(t.drop_first()[i] == t[i + 1]);
        }
        lemma_find(t.drop_first(), c, rest);
    } else {
        assert(s =~= rest);
    }
}

/// A character that a text does not hold is found behind the text.
pub proof fn law_find(t: Seq<char>, c: char, rest: Seq<char>)
    requires
        forall|i: int| 0 <= i < t.len() ==> #[trigger] t[i] != c,
        rest.len() == 0 || rest[0] == c,
    ensures
        find(t + rest, c) == t.len(),
{
    lemma_find(t, c, rest);
}

/// The pieces of a text are the texts between its separators, in order.
pub proof fn law_pieces(list: Seq<Seq<char>>, c: char)
    requires
        list.len() > 0,
        forall|i: int, k: int|
            0 <= i < list.len() && 0 <= k < list[i].len() ==> #[trigger] list[i][k] != c,
    ensures
        pieces(separated(list, c), c) == list,
    decreases list.len(),
{
    let s = separated(list, c);
    let t = list[0];
    assert forall|k: int| 0 <= k < t.len() implies #[trigger] t[k] != c by {
        assert(list[0][k] != c);
    }
    if list.len() == 1 {
        lemma_find(t, c, Seq::empty());
        assert(t + Seq::<char>::empty() =~= t);
        assert(list =~= seq![t]);
    } else {
        let more = list.drop_first();
        let rest = seq![c] + separated(more, c);
        assert(s =~= t + rest);
        lemma_find(t, c, rest);
        assert(s.take(t.len() as int) =~= t);
        assert(s.skip(t.len() as int + 1) =~= separated(more, c));
        assert forall|i: int, k: int|
            0 <= i < more.len() && 0 <= k < more[i].len() implies #[trigger] more[i][k] != c by {
            assert(more[i][k] == list[i + 1][k]);
        }
        law_pieces(more, c);
        assert(seq![t] + more =~= list);
    }
}

/// A natural number in decimal digits.
pub open spec fn decimal(n: nat) -> Seq<char>
    decreases n,
{
    if n < 10 {
        seq![(48 + n) as u8 as char]
    } else {
        decimal(n / 10).push((48 + n % 10) as u8 as char)
    }
}

/// An integer in decimal digits, with a minus sign where it is negative.
pub open spec fn signed_decimal(v: int) -> Seq<char> {
    if v < 0 {
        seq!['-'] + decimal((-v) as nat)
    } else {
        decimal(v as nat)
    }
}

/// Decimal digits, and the number that they denote.
pub proof fn lemma_decimal(n: nat)
    ensures
        decimal(n).len() > 0,
        forall|i: int| 0 <= i < decimal(n).len() ==> '0' <= #[trigger] decimal(n)[i] <= '9',
        digits_value(decimal(n)) == n,
    decreases n,
{
    reveal_with_fuel(digits_value, 2);
    if n < 10 {
        assert(decimal(n).drop_last() =~= Seq::empty());
    } else {
        lemma_decimal(n / 10);
        assert(decimal(n).drop_last() =~= decimal(n / 10));
    }
}

/// A number in decimal digits is read as that number, where it fits.
pub proof fn law_naturals(n: nat)
    ensures
        n <= usize::MAX ==> usize_of(decimal(n)) == Some(n as usize),
        n <= u64::MAX ==> u64_of(decimal(n)) == Some(n as u64),
        n <= u32::MAX ==> u32_of(decimal(n)) == Some(n as u32),
        n > usize::MAX ==> usize_of(decimal(n)) is None,
        n > u64::MAX ==> u64_of(decimal(n)) is None,
        n > u32::MAX ==> u32_of(decimal(n)) is None,
{
    lemma_decimal(n);
    assert('0' <= decimal(n)[0] <= '9');
}

/// An integer in decimal digits is read as that integer, where it fits.
pub proof fn law_integers_read(v: int)
    ensures
        i32::MIN <= v <= i32::MAX ==> i32_of(signed_decimal(v)) == Some(v as i32),
        !(i32::MIN <= v <= i32::MAX) ==> i32_of(signed_decimal(v)) is None,
{
    let n: nat = if v < 0 {
        (-v) as nat
    } else {
        v as nat
    };
    lemma_decimal(n);
    assert('0' <= decimal(n)[0] <= '9');
    if v < 0 {
        assert(signed_decimal(v).drop_first() =~= decimal(n));
    }
}

/// A text is no number when a character of it is neither a digit nor the sign before them.
pub proof fn law_not_a_number(s: Seq<char>, i: int)
    requires
        0 <= i < s.len(),
        !('0' <= s[i] <= '9'),
        i > 0 || (s[0] != '+' && s[0] != '-'),
    ensures
        usize_of(s) is None,
        u64_of(s) is None,
        u32_of(s) is None,
        i32_of(s) is None,
{
    if s[0] == '+' || s[0] == '-' {
        let d = s.drop_first();
        assert(d[i - 1] == s[i]);
        assert(!all_digits(d));
        assert(!all_digits(s));
    } else {
        assert(!all_digits(s));
    }
}

/// Blanks, tabs and line ends are white space; visible characters of ASCII are not.
pub proof fn law_white_space(c: char)
    ensures
        c == ' ' || c == '\t' || c == '\n' || c == '\r' ==> is_space(c),
        '!' <= c <= '~' ==> !is_space(c),
{
}

/// The fields of a line are its words, or the texts between its separators.
pub open spec fn parts(delim: Delimiter, text: Seq<char>) -> Seq<Seq<char>> {
    match delim {
        Delimiter::Whitespace => words(text),
        Delimiter::Char(c) => pieces(text, c),
    }
}

/// Every text of a list has a value.
pub open spec fn all_valued<S>(list: Seq<Seq<char>>, value: Meaning<S>) -> bool {
    forall|i: int| 0 <= i < list.len() ==> value(#[trigger] list[i]) is Some
}

/// A line of `n` values has `n` fields, each of which has a value, and the values come in the
/// order of the fields. A field without a value is reported before a wrong number of fields.
pub proof fn law_line_values<S>(delim: Delimiter, text: Seq<char>, n: nat, value: Meaning<S>)
    ensures
        fixed_array_of(delim, text, n, value) is Ok <==> all_valued(parts(delim, text), value)
            && parts(delim, text).len() == n,
        fixed_array_of(delim, text, n, value) matches Ok(v) ==> v.len() == n && forall|i: int|
            0 <= i < n ==> value(#[trigger] parts(delim, text)[i]) == Some(v[i]),
        fixed_array_of(delim, text, n, value) matches Err(e) ==> e == if all_valued(
            parts(delim, text),
            value,
        ) {
            ParseError::WrongCount
        } else {
            ParseError::InvalidValue
        },
{
    let list = parts(delim, text);
    assert(list == fields(delim, text));
    if all_valued(list, value) {
        let v = list.map_values(|t: Seq<char>| value(t)->0);
        assert(values_of(list, value) == Ok::<Seq<S>, ParseError>(v));
        assert forall|i: int| 0 <= i < list.len() implies value(#[trigger] list[i]) == Some(
            v[i],
        ) by {}
    }
}

} // verus!
