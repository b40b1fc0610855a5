//! Line-oriented text: whitespace, fields, numbers and a chomping cursor.
//!
//! Text is handled as slices of characters, so that every field is a subslice of its line.

use vstd::prelude::*;
use vstd::string::StrSliceExecFns;
use vstd::utf8::{decode_utf8, valid_utf8};

verus! {

/// Why a metadata file was refused.
#[derive(Debug, Clone, Copy, PartialEq, Eq, Structural)]
pub enum ParseError {
    /// A line was asked for after the last one.
    UnexpectedEnd,
    /// A line is not UTF-8.
    InvalidText,
    /// A field of a line is missing.
    MissingField,
    /// A line has more fields than it may have.
    UnexpectedField,
    /// A field is not a value of the expected type.
    InvalidValue,
    /// A list of values has the wrong length.
    WrongCount,
    /// The format tag or a format number is not known.
    UnknownFormat,
    /// The file lists too many quantities.
    TooManyQuantities,
    /// The file uses something that is not supported.
    Unsupported,
    /// Two parts of the metadata disagree.
    Mismatch,
    /// A count overflows.
    Overflow,
}

/// Unicode white space.
pub open spec fn is_space(c: char) -> bool {
    let u = c as u32;
    ||| 0x9 <= u <= 0xd
    ||| u == 0x20
    ||| u == 0x85
    ||| u == 0xa0
    ||| u == 0x1680
    ||| 0x2000 <= u <= 0x200a
    ||| u == 0x2028
    ||| u == 0x2029
    ||| u == 0x202f
    ||| u == 0x205f
    ||| u == 0x3000
}

/// `s` without its leading white space.
pub open spec fn trim_start(s: Seq<char>) -> Seq<char>
    decreases s.len(),
{
    if s.len() > 0 && is_space(s[0]) {
        trim_start(s.drop_first())
    } else {
        s
    }
}

/// `s` without its trailing white space.
pub open spec fn trim_end(s: Seq<char>) -> Seq<char>
    decreases s.len(),
{
    if s.len() > 0 && is_space(s.last()) {
        trim_end(s.drop_last())
    } else {
        s
    }
}

/// `s` without white space at either end.
pub open spec fn trimmed(s: Seq<char>) -> Seq<char> {
    trim_end(trim_start(s))
}

/// `s` without its leading characters `c`.
pub open spec fn skipped(s: Seq<char>, c: char) -> Seq<char>
    decreases s.len(),
{
    if s.len() > 0 && s[0] == c {
        skipped(s.drop_first(), c)
    } else {
        s
    }
}

/// Position of the first `c` in `s`, or the length of `s`.
pub open spec fn find(s: Seq<char>, c: char) -> nat
    decreases s.len(),
{
    if s.len() == 0 || s[0] == c {
        0
    } else {
        1 + find(s.drop_first(), c)
    }
}

/// The pieces of `s` between the characters `c`.
pub open spec fn pieces(s: Seq<char>, c: char) -> Seq<Seq<char>>
    decreases s.len(),
{
    let n = find(s, c) as int;
    if n >= s.len() {
        seq![s]
    } else {
        seq![s.take(n)] + pieces(s.skip(n + 1), c)
    }
}

/// Number of characters before the first white space.
pub open spec fn word_len(s: Seq<char>) -> nat
    decreases s.len(),
{
    if s.len() == 0 || is_space(s[0]) {
        0
    } else {
        1 + word_len(s.drop_first())
    }
}

/// The words of `s`, separated by white space.
pub open spec fn words(s: Seq<char>) -> Seq<Seq<char>>
    decreases s.len(),
{
    if s.len() == 0 {
        Seq::empty()
    } else if is_space(s[0]) {
        words(s.drop_first())
    } else {
        let n = word_len(s) as int;
        if n <= 0 || n > s.len() {
            Seq::empty()
        } else {
            seq![s.take(n)] + words(s.skip(n))
        }
    }
}

/// Every character is a decimal digit.
pub open spec fn all_digits(s: Seq<char>) -> bool {
    forall|i: int| 0 <= i < s.len() ==> '0' <= #[trigger] s[i] <= '9'
}

/// The number that a string of decimal digits denotes.
pub open spec fn digits_value(s: Seq<char>) -> nat
    decreases s.len(),
{
    if s.len() == 0 {
        0
    } else {
        10 * digits_value(s.drop_last()) + (s.last() as u32 - 48) as nat
    }
}

/// `s` without one leading `+`.
pub open spec fn unsigned_part(s: Seq<char>) -> Seq<char> {
    if s.len() > 0 && s[0] == '+' {
        s.drop_first()
    } else {
        s
    }
}

/// The natural number up to `max` that a text denotes.
pub open spec fn natural_of(s: Seq<char>, max: nat) -> Option<nat> {
    let d = unsigned_part(s);
    if d.len() > 0 && all_digits(d) && digits_value(d) <= max {
        Some(digits_value(d))
    } else {
        None
    }
}

/// The `usize` that a text denotes.
pub open spec fn usize_of(s: Seq<char>) -> Option<usize> {
    match natural_of(s, usize::MAX as nat) {
        Some(n) => Some(n as usize),
        None => None,
    }
}

/// The `u64` that a text denotes.
pub open spec fn u64_of(s: Seq<char>) -> Option<u64> {
    match natural_of(s, u64::MAX as nat) {
        Some(n) => Some(n as u64),
        None => None,
    }
}

/// The `u32` that a text denotes.
pub open spec fn u32_of(s: Seq<char>) -> Option<u32> {
    match natural_of(s, u32::MAX as nat) {
        Some(n) => Some(n as u32),
        None => None,
    }
}

/// The `i32` that a text denotes.
pub open spec fn i32_of(s: Seq<char>) -> Option<i32> {
    if s.len() > 0 && s[0] == '-' {
        let d = s.drop_first();
        if d.len() > 0 && all_digits(d) && digits_value(d) <= 0x8000_0000 {
            Some((-digits_value(d)) as i32)
        } else {
            None
        }
    } else {
        match natural_of(s, i32::MAX as nat) {
            Some(n) => Some(n as i32),
            None => None,
        }
    }
}

/// A longer digit string denotes no smaller number.
proof fn lemma_digits_grow(s: Seq<char>, n: int)
    requires
        0 <= n <= s.len(),
        all_digits(s),
    ensures
        digits_value(s.take(n)) <= digits_value(s),
    decreases s.len(),
{
    if n == s.len() {
        assert(s.take(n) =~= s);
    } else {
        assert(s.drop_last().take(n) =~= s.take(n));
        lemma_digits_grow(s.drop_last(), n);
    }
}

/// True for Unicode white space.
pub fn is_whitespace(c: char) -> (b: bool)
    ensures
        b == is_space(c),
{
    let u = c as u32;
    (0x9 <= u && u <= 0xd) || u == 0x20 || u == 0x85 || u == 0xa0 || u == 0x1680 || (0x2000 <= u
        && u <= 0x200a) || u == 0x2028 || u == 0x2029 || u == 0x202f || u == 0x205f || u == 0x3000
}

/// The characters of a string.
pub fn chars_of(s: &str) -> (v: Vec<char>)
    ensures
        v@ == s@,
{
    let mut out: Vec<char> = Vec::new();
    for c in it: s.chars()
        invariant
            out@ == it.seq().take(it.index() as int),
            it.seq() == s@,
    {
        let ghost n = it.index() as int;
        proof {
            assert(s@.take(n).push(s@[n]) =~= s@.take(n + 1));
        }
        out.push(c);
    }
    assert(s@.take(s@.len() as int) =~= s@);
    out
}

/// Where the text without white space at either end starts and ends.
fn trim_range(s: &[char]) -> (r: (usize, usize))
    ensures
        r.0 <= r.1 <= s@.len(),
        s@.subrange(r.0 as int, r.1 as int) == trimmed(s@),
{
    let n = s.len();
    let mut lo: usize = 0;
    assert(s@.skip(0) =~= s@);
    while lo < n && is_whitespace(s[lo])
        invariant
            lo <= n,
            n == s@.len(),
            trim_start(s@) == trim_start(s@.skip(lo as int)),
        decreases n - lo,
    {
        assert(s@.skip(lo as int).drop_first() =~= s@.skip(lo + 1));
        lo += 1;
    }
    let ghost rest = s@.skip(lo as int);
    assert(trim_start(s@) == rest);
    let mut hi: usize = n;
    assert(s@.subrange(lo as int, hi as int) =~= rest);
    while hi > lo && is_whitespace(s[hi - 1])
        invariant
            lo <= hi <= n,
            n == s@.len(),
            trim_end(rest) == trim_end(s@.subrange(lo as int, hi as int)),
        decreases hi - lo,
    {
        assert(s@.subrange(lo as int, hi as int).drop_last() =~= s@.subrange(
            lo as int,
            hi - 1,
        ));
        hi -= 1;
    }
    (lo, hi)
}

/// The text without white space at either end.
pub fn trim<'a>(s: &'a [char]) -> (r: &'a [char])
    ensures
        r@ == trimmed(s@),
        r@.len() <= s@.len(),
{
    let (lo, hi) = trim_range(s);
    &s[lo..hi]
}

/// The pieces between the characters `c`.
pub fn split_on<'a>(s: &'a [char], c: char) -> (v: Vec<&'a [char]>)
    ensures
        texts(v@) == pieces(s@, c),
{
    let n = s.len();
    let mut out: Vec<&'a [char]> = Vec::new();
    let mut start: usize = 0;
    let mut at: usize = 0;
    proof {
        assert(s@.skip(0) =~= s@);
        assert(texts(out@) + pieces(s@, c) =~= pieces(s@, c));
    }
    while at < n
        invariant
            start <= at <= n,
            n == s@.len(),
            texts(out@) + pieces(s@.skip(start as int), c) == pieces(s@, c),
            find(s@.skip(start as int), c) == (at - start) + find(s@.skip(at as int), c),
        decreases n - at,
    {
        let ghost rest = s@.skip(start as int);
        let ghost before = out@;
        assert(s@.skip(at as int).drop_first() =~= s@.skip(at + 1));
        if s[at] == c {
            out.push(&s[start..at]);
            proof {
                assert(s@.subrange(start as int, at as int) =~= rest.take(at - start));
                assert(rest.skip(at - start + 1) =~= s@.skip(at + 1));
                assert(texts(out@) =~= texts(before).push(rest.take(at - start)));
                assert(texts(out@) + pieces(s@.skip(at + 1), c) =~= texts(before) + (
                seq![rest.take(at - start)] + pieces(s@.skip(at + 1), c)));
            }
            start = at + 1;
        }
        at += 1;
    }
    let ghost before = out@;
    out.push(&s[start..n]);
    proof {
        let rest = s@.skip(start as int);
        assert(s@.subrange(start as int, n as int) =~= rest);
        assert(texts(out@) =~= texts(before) + seq![rest]);
    }
    out
}

/// The texts of a list of slices.
pub open spec fn texts(v: Seq<&[char]>) -> Seq<Seq<char>> {
    v.map_values(|t: &[char]| t@)
}

/// The words of a text.
pub fn split_whitespace<'a>(s: &'a [char]) -> (v: Vec<&'a [char]>)
    ensures
        texts(v@) == words(s@),
{
    let n = s.len();
    let mut out: Vec<&'a [char]> = Vec::new();
    let mut at: usize = 0;
    proof {
        assert(s@.skip(0) =~= s@);
        assert(texts(out@) + words(s@) =~= words(s@));
    }
    while at < n
        invariant
            at <= n,
            n == s@.len(),
            texts(out@) + words(s@.skip(at as int)) == words(s@),
        decreases n - at,
    {
        let ghost rest = s@.skip(at as int);
        assert(rest.drop_first() =~= s@.skip(at + 1));
        if is_whitespace(s[at]) {
            at += 1;
        } else {
            let start = at;
            let ghost before = out@;
            assert(s@.skip(at as int) =~= rest);
            while at < n && !is_whitespace(s[at])
                invariant
                    start <= at <= n,
                    n == s@.len(),
                    rest == s@.skip(start as int),
                    word_len(rest) == (at - start) + word_len(s@.skip(at as int)),
                decreases n - at,
            {
                assert(s@.skip(at as int).drop_first() =~= s@.skip(at + 1));
                at += 1;
            }
            out.push(&s[start..at]);
            proof {
                assert(word_len(rest) == at - start);
                assert(at > start) by {
                    assert(word_len(rest) >= 1);
                }
                assert(s@.subrange(start as int, at as int) =~= rest.take(at - start));
                assert(rest.skip(at - start) =~= s@.skip(at as int));
                assert(texts(out@) =~= texts(before).push(rest.take(at - start)));
                assert(texts(out@) + words(s@.skip(at as int)) =~= texts(before) + (
                seq![rest.take(at - start)] + words(s@.skip(at as int))));
            }
        }
    }
    proof {
        assert(s@.skip(n as int) =~= Seq::empty());
        assert(texts(out@) + words(s@.skip(at as int)) =~= texts(out@));
    }
    out
}

/// The number that the digits from `from` on denote, where it is at most `max`.
fn parse_digits(s: &[char], from: usize, max: u64) -> (r: Option<u64>)
    requires
        from <= s@.len(),
    ensures
        r == ({
            let d = s@.skip(from as int);
            if d.len() > 0 && all_digits(d) && digits_value(d) <= max {
                Some(digits_value(d) as u64)
            } else {
                None
            }
        }),
{
    let n = s.len();
    let ghost d = s@.skip(from as int);
    if from == n {
        return None;
    }
    let mut value: u64 = 0;
    let mut at: usize = from;
    assert(d.take(0) =~= Seq::empty());
    while at < n
        invariant
            from <= at <= n,
            n == s@.len(),
            d == s@.skip(from as int),
            value <= max,
            value == digits_value(d.take(at - from)),
            forall|i: int| 0 <= i < at - from ==> '0' <= #[trigger] d[i] <= '9',
        decreases n - at,
    {
        let c = s[at];
        assert(c == d[at - from]);
        if c < '0' || c > '9' {
            assert(!all_digits(d));
            return None;
        }
        let digit: u64 = (c as u32 - 48) as u64;
        proof {
            assert(d.take(at - from + 1).drop_last() =~= d.take(at - from));
            if all_digits(d) {
                lemma_digits_grow(d, at - from + 1);
            }
        }
        if value > (u64::MAX - digit) / 10 {
            return None;
        }
        let next = value * 10 + digit;
        if next > max {
            return None;
        }
        value = next;
        at += 1;
    }
    assert(d.take(n - from) =~= d);
    Some(value)
}

/// The natural number up to `max` that a text denotes: decimal digits, with one `+` allowed
/// in front.
pub fn parse_natural(s: &[char], max: u64) -> (r: Option<u64>)
    ensures
        r == match natural_of(s@, max as nat) {
            Some(n) => Some(n as u64),
            None => None,
        },
{
    assert(s@.skip(0) =~= s@);
    if s.len() > 0 && s[0] == '+' {
        assert(s@.skip(1) =~= s@.drop_first());
        parse_digits(s, 1, max)
    } else {
        parse_digits(s, 0, max)
    }
}

/// The `usize` that a text denotes.
pub fn parse_usize(s: &[char]) -> (r: Option<usize>)
    ensures
        r == usize_of(s@),
{
    match parse_natural(s, usize::MAX as u64) {
        Some(n) => Some(n as usize),
        None => None,
    }
}

/// The `u64` that a text denotes.
pub fn parse_u64(s: &[char]) -> (r: Option<u64>)
    ensures
        r == u64_of(s@),
{
    parse_natural(s, u64::MAX)
}

/// The `u32` that a text denotes.
pub fn parse_u32(s: &[char]) -> (r: Option<u32>)
    ensures
        r == u32_of(s@),
{
    match parse_natural(s, u32::MAX as u64) {
        Some(n) => Some(n as u32),
        None => None,
    }
}

/// The `i32` that a text denotes.
pub fn parse_i32(s: &[char]) -> (r: Option<i32>)
    ensures
        r == i32_of(s@),
{
    if s.len() > 0 && s[0] == '-' {
        assert(s@.skip(1) =~= s@.drop_first());
        match parse_digits(s, 1, 0x8000_0000) {
            Some(n) => Some((-(n as i64)) as i32),
            None => None,
        }
    } else {
        match parse_natural(s, i32::MAX as u64) {
            Some(n) => Some(n as i32),
            None => None,
        }
    }
}

/// Eats a line from the front.
pub struct LineChomper<'a> {
    line: &'a [char],
}

impl<'a> View for LineChomper<'a> {
    type V = Seq<char>;

    /// What is left of the line.
    closed spec fn view(&self) -> Seq<char> {
        self.line@
    }
}

impl<'a> LineChomper<'a> {
    /// A chomper for the trimmed text.
    pub fn new(s: &'a [char]) -> (r: Self)
        ensures
            r@ == trimmed(s@),
    {
        LineChomper { line: trim(s) }
    }

    /// Drops the leading characters `c`.
    pub fn skip(&mut self, c: char)
        ensures
            final(self)@ == skipped(old(self)@, c),
            final(self)@.len() <= old(self)@.len(),
    {
        let line = self.line;
        let n = line.len();
        let mut at: usize = 0;
        assert(line@.skip(0) =~= line@);
        while at < n && line[at] == c
            invariant
                at <= n,
                n == line@.len(),
                skipped(line@, c) == skipped(line@.skip(at as int), c),
            decreases n - at,
        {
            assert(line@.skip(at as int).drop_first() =~= line@.skip(at + 1));
            at += 1;
        }
        self.line = &line[at..n];
        assert(self.line@ =~= line@.skip(at as int));
    }

    /// Drops leading blanks.
    pub fn skip_whitespace(&mut self)
        ensures
            final(self)@ == skipped(old(self)@, ' '),
            final(self)@.len() <= old(self)@.len(),
    {
        self.skip(' ');
    }

    /// Drops leading blanks, then takes the trimmed text before the next `c`. Without a `c`
    /// the result is empty and nothing more is dropped.
    pub fn take_till(&mut self, c: char) -> (r: &'a [char])
        ensures
            r@ == taken(old(self)@, c).0,
            final(self)@ == taken(old(self)@, c).1,
            final(self)@.len() <= old(self)@.len(),
            r@.len() > 0 ==> final(self)@.len() < old(self)@.len(),
    {
        self.skip_whitespace();
        let line = self.line;
        let n = line.len();
        let mut at: usize = 0;
        assert(line@.skip(0) =~= line@);
        while at < n && line[at] != c
            invariant
                at <= n,
                n == line@.len(),
                find(line@, c) == at + find(line@.skip(at as int), c),
            decreases n - at,
        {
            assert(line@.skip(at as int).drop_first() =~= line@.skip(at + 1));
            at += 1;
        }
        if at < n {
            self.line = trim(&line[at + 1..n]);
            assert(line@.subrange(at + 1, n as int) =~= line@.skip(at + 1));
            assert(line@.subrange(0, at as int) =~= line@.take(at as int));
            trim(&line[0..at])
        } else {
            &line[0..0]
        }
    }

    /// True when something is left.
    pub fn has_more(&self) -> (b: bool)
        ensures
            b == (self@.len() > 0),
    {
        self.line.len() > 0
    }
}

/// What taking the text before the next `c` gives, and what it leaves.
pub open spec fn taken(s: Seq<char>, c: char) -> (Seq<char>, Seq<char>) {
    let t = skipped(s, ' ');
    let n = find(t, c) as int;
    if n < t.len() {
        (trimmed(t.take(n)), trimmed(t.skip(n + 1)))
    } else {
        (Seq::empty(), t)
    }
}

/// `std::str::from_utf8`: the bytes as text, when they are UTF-8.
///
/// Claimed of it: it succeeds exactly on valid UTF-8, and then hands out the text whose
/// encoding the bytes are.
#[verifier::external_body]
pub(crate) fn utf8_text(bytes: &[u8]) -> (r: Option<&str>)
    ensures
        r is Some <==> valid_utf8(bytes@),
        r matches Some(s) ==> s@ == decode_utf8(bytes@),
{
    std::str::from_utf8(bytes).ok()
}

/// `String::from_iter` over a slice of characters.
///
/// Claimed of it: the string holds these characters in this order.
#[verifier::external_body]
pub(crate) fn string_of(chars: &[char]) -> (s: String)
    ensures
        s@ == chars@,
{
    String::from_iter(chars.iter())
}

/// Number of bytes up to and including the first newline, or of all bytes.
pub open spec fn line_len(bytes: Seq<u8>) -> nat
    decreases bytes.len(),
{
    if bytes.len() == 0 {
        0
    } else if bytes[0] == 10 {
        1
    } else {
        1 + line_len(bytes.drop_first())
    }
}

/// The first line of `bytes` without surrounding white space, and the bytes after it.
/// `None` stands for the end.
pub open spec fn line_step(bytes: Seq<u8>) -> (Result<Option<Seq<char>>, ParseError>, Seq<u8>) {
    if bytes.len() == 0 {
        (Ok(None), bytes)
    } else {
        let n = line_len(bytes) as int;
        let raw = bytes.take(n);
        (
            if valid_utf8(raw) {
                Ok(Some(trimmed(decode_utf8(raw))))
            } else {
                Err(ParseError::InvalidText)
            },
            bytes.skip(n),
        )
    }
}

/// A value read from the front of a file, with the bytes after it; or why there is none.
pub type Step<V> = Result<(V, Seq<u8>), ParseError>;

/// The first line, where there is one.
pub open spec fn demand_step(bytes: Seq<u8>) -> Step<Seq<char>> {
    match line_step(bytes) {
        (Err(e), _) => Err(e),
        (Ok(None), _) => Err(ParseError::UnexpectedEnd),
        (Ok(Some(text)), rest) => Ok((text, rest)),
    }
}

/// Reads the lines of a file.
pub struct Reader {
    bytes: Vec<u8>,
    at: usize,
}

impl View for Reader {
    type V = Seq<u8>;

    /// The bytes not read yet.
    closed spec fn view(&self) -> Seq<u8> {
        self.bytes@.skip(self.at as int)
    }
}

impl Reader {
    /// The position lies inside the file.
    pub closed spec fn wf(self) -> bool {
        self.at <= self.bytes@.len()
    }

    /// A reader at the start of the file with the given contents.
    pub fn new(bytes: Vec<u8>) -> (r: Self)
        ensures
            r.wf(),
            r@ == bytes@,
    {
        assert(bytes@.skip(0) =~= bytes@);
        Reader { bytes, at: 0 }
    }

    /// The next line without surrounding white space; `None` at the end.
    pub fn next_line(&mut self) -> (r: Result<Option<String>, ParseError>)
        requires
            old(self).wf(),
        ensures
            final(self).wf(),
            final(self)@ == line_step(old(self)@).1,
            r matches Err(e) ==> line_step(old(self)@).0 == Err::<Option<Seq<char>>, ParseError>(e),
            r matches Ok(None) ==> line_step(old(self)@).0 == Ok::<Option<Seq<char>>, ParseError>(
                None,
            ),
            r matches Ok(Some(text)) ==> line_step(old(self)@).0 == Ok::<
                Option<Seq<char>>,
                ParseError,
            >(Some(text@)),
    {
        let n = self.bytes.len();
        let start = self.at;
        let ghost rest = self@;
        if start >= n {
            return Ok(None);
        }
        let mut end: usize = start;
        let mut open = true;
        while open && end < n
            invariant
                start <= end <= n,
                start < n,
                n == self.bytes@.len(),
                self.at == start,
                rest == self.bytes@.skip(start as int),
                !open ==> end > start && line_len(rest) == end - start,
                open ==> line_len(rest) == (end - start) + line_len(self.bytes@.skip(end as int)),
            decreases n - end,
        {
            assert(self.bytes@.skip(end as int).drop_first() =~= self.bytes@.skip(end + 1));
            if self.bytes[end] == 10 {
                open = false;
            }
            end += 1;
        }
        assert(open ==> self.bytes@.skip(end as int).len() == 0);
        self.at = end;
        let raw = &self.bytes.as_slice()[start..end];
        proof {
            assert(raw@ =~= rest.take(end - start));
            assert(rest.skip(end - start) =~= self.bytes@.skip(end as int));
        }
        match utf8_text(raw) {
            None => Err(ParseError::InvalidText),
            Some(text) => {
                let chars = chars_of(text);
                let (lo, hi) = trim_range(chars.as_slice());
                Ok(Some(text.substring_char(lo, hi).to_owned()))
            },
        }
    }

    /// The next line without surrounding white space.
    pub fn demand_next_line(&mut self) -> (r: Result<String, ParseError>)
        requires
            old(self).wf(),
        ensures
            final(self).wf(),
            r matches Ok(text) ==> demand_step(old(self)@) == Ok::<
                (Seq<char>, Seq<u8>),
                ParseError,
            >((text@, final(self)@)),
            r matches Err(e) ==> demand_step(old(self)@) == Err::<(Seq<char>, Seq<u8>), ParseError>(
                e,
            ),
    {
        match self.next_line() {
            Ok(Some(text)) => Ok(text),
            Ok(None) => Err(ParseError::UnexpectedEnd),
            Err(e) => Err(e),
        }
    }
}

/// How the fields of a line are separated.
#[derive(Debug, Clone, Copy, PartialEq, Eq, Structural)]
pub enum Delimiter {
    Whitespace,
    Char(char),
}

/// The fields of a line.
pub open spec fn fields(delim: Delimiter, line: Seq<char>) -> Seq<Seq<char>> {
    match delim {
        Delimiter::Whitespace => words(line),
        Delimiter::Char(c) => pieces(line, c),
    }
}

/// The fields of a line.
pub fn split_fields<'a>(delim: Delimiter, line: &'a [char]) -> (v: Vec<&'a [char]>)
    ensures
        texts(v@) == fields(delim, line@),
{
    match delim {
        Delimiter::Whitespace => split_whitespace(line),
        Delimiter::Char(c) => split_on(line, c),
    }
}

/// What texts stand for: a value, or nothing.
pub type Meaning<S> = spec_fn(Seq<char>) -> Option<S>;

/// `parse` takes every text.
pub open spec fn takes_all<S, F: Fn(&[char]) -> Option<S>>(parse: F) -> bool {
    forall|t: &[char]| #[trigger] call_requires(parse, (t,))
}

/// `parse` gives the value that `value` says.
pub open spec fn parses<S, F: Fn(&[char]) -> Option<S>>(parse: F, value: Meaning<S>) -> bool {
    forall|t: &[char], r: Option<S>| #[trigger] call_ensures(parse, (t,), r) ==> r == value(t@)
}

/// All values, when every text has one.
pub open spec fn values_of<S>(
    tokens: Seq<Seq<char>>,
    value: Meaning<S>,
) -> Result<Seq<S>, ParseError> {
    if forall|i: int| 0 <= i < tokens.len() ==> value(#[trigger] tokens[i]) is Some {
        Ok(tokens.map_values(|t: Seq<char>| value(t)->0))
    } else {
        Err(ParseError::InvalidValue)
    }
}

/// Exactly `n` values in one line.
pub open spec fn fixed_array_of<S>(
    delim: Delimiter,
    line: Seq<char>,
    n: nat,
    value: Meaning<S>,
) -> Result<Seq<S>, ParseError> {
    match values_of(fields(delim, line), value) {
        Err(e) => Err(e),
        Ok(v) => if v.len() == n {
            Ok(v)
        } else {
            Err(ParseError::WrongCount)
        },
    }
}

/// A list as a sequence.
pub open spec fn list_view<S>(r: Result<Vec<S>, ParseError>) -> Result<Seq<S>, ParseError> {
    match r {
        Ok(v) => Ok(v@),
        Err(e) => Err(e),
    }
}

/// Parses every field.
pub(crate) fn parse_fields<S, F: Fn(&[char]) -> Option<S>>(
    tokens: &Vec<&[char]>,
    parse: &F,
) -> (r: Result<Vec<S>, ParseError>)
    requires
        takes_all(*parse),
    ensures
        forall|value: Meaning<S>| #[trigger]
            parses(*parse, value) ==> list_view(r) == values_of(texts(tokens@), value),
{
    let mut out: Vec<S> = Vec::with_capacity(tokens.len());
    let ghost all = texts(tokens@);
    let mut i: usize = 0;
    while i < tokens.len()
        invariant
            i <= tokens@.len(),
            all == texts(tokens@),
            takes_all(*parse),
            out@.len() == i,
            forall|value: Meaning<S>| #[trigger]
                parses(*parse, value) ==> gives_first(all, value, out@),
        decreases tokens@.len() - i,
    {
        assert(all[i as int] == tokens@[i as int]@);
        match parse(tokens[i]) {
            Some(v) => out.push(v),
            None => return Err(ParseError::InvalidValue),
        }
        i += 1;
    }
    proof {
        assert forall|value: Meaning<S>| #[trigger] parses(*parse, value) implies values_of(
            all,
            value,
        ) == Ok::<Seq<S>, ParseError>(out@) by {
            assert(gives_first(all, value, out@));
            assert(out@ =~= all.map_values(|t: Seq<char>| value(t)->0));
        }
    }
    Ok(out)
}

/// `found` are the values of the first tokens.
spec fn gives_first<S>(tokens: Seq<Seq<char>>, value: Meaning<S>, found: Seq<S>) -> bool {
    forall|j: int| 0 <= j < found.len() ==> value(#[trigger] tokens[j]) == Some(found[j])
}

/// Parses a line of exactly `N` values.
pub fn read_fixed_array_from_str<S, F: Fn(&[char]) -> Option<S>, const N: usize>(
    delim: Delimiter,
    line: &[char],
    parse: &F,
) -> (r: Result<Vec<S>, ParseError>)
    requires
        takes_all(*parse),
    ensures
        forall|value: Meaning<S>| #[trigger]
            parses(*parse, value) ==> list_view(r) == fixed_array_of(
                delim,
                line@,
                N as nat,
                value,
            ),
{
    let tokens = split_fields(delim, line);
    let values = parse_fields(&tokens, parse);
    match values {
        Err(e) => Err(e),
        Ok(v) => if v.len() == N {
            Ok(v)
        } else {
            Err(ParseError::WrongCount)
        },
    }
}

/// True when `text` is the literal `literal`.
pub fn text_is(text: &[char], literal: &str) -> (b: bool)
    ensures
        b == (text@ == literal@),
{
    let want = chars_of(literal);
    if text.len() != want.len() {
        return false;
    }
    let mut i: usize = 0;
    while i < want.len()
        invariant
            i <= want@.len(),
            want@ == literal@,
            text@.len() == want@.len(),
            text@.take(i as int) == want@.take(i as int),
        decreases want@.len() - i,
    {
        if text[i] != want[i] {
            assert(text@[i as int] != want@[i as int]);
            return false;
        }
        proof {
            assert(text@.take(i + 1) =~= text@.take(i as int).push(text@[i as int]));
            assert(want@.take(i + 1) =~= want@.take(i as int).push(want@[i as int]));
        }
        i += 1;
    }
    assert(text@.take(i as int) =~= text@);
    assert(want@.take(i as int) =~= want@);
    true
}

/// The text after `prefix`, where it starts with it.
pub open spec fn after_prefix(text: Seq<char>, prefix: Seq<char>) -> Option<Seq<char>> {
    if prefix.is_prefix_of(text) {
        Some(text.skip(prefix.len() as int))
    } else {
        None
    }
}

/// The text after `prefix`, where it starts with it.
pub fn strip_prefix<'a>(text: &'a [char], prefix: &str) -> (r: Option<&'a [char]>)
    ensures
        r is Some <==> after_prefix(text@, prefix@) is Some,
        r matches Some(t) ==> after_prefix(text@, prefix@) == Some(t@),
{
    let want = chars_of(prefix);
    let n = want.len();
    if text.len() < n {
        return None;
    }
    if text_is(&text[0..n], prefix) {
        proof {
            assert(text@.subrange(0, n as int) =~= prefix@);
            assert(text@.subrange(n as int, text@.len() as int) =~= text@.skip(n as int));
        }
        Some(&text[n..text.len()])
    } else {
        None
    }
}

/// One value that takes a whole line.
pub open spec fn value_step<V>(
    bytes: Seq<u8>,
    value: Meaning<V>,
) -> Step<V> {
    match demand_step(bytes) {
        Err(e) => Err(e),
        Ok((text, rest)) => match value(text) {
            Some(v) => Ok((v, rest)),
            None => Err(ParseError::InvalidValue),
        },
    }
}

/// A line of exactly `n` values.
pub open spec fn fixed_array_step<S>(
    bytes: Seq<u8>,
    delim: Delimiter,
    n: nat,
    value: Meaning<S>,
) -> Step<Seq<S>> {
    match demand_step(bytes) {
        Err(e) => Err(e),
        Ok((text, rest)) => match fixed_array_of(delim, text, n, value) {
            Err(e) => Err(e),
            Ok(v) => Ok((v, rest)),
        },
    }
}

/// A line of any number of values.
pub open spec fn dyn_array_step<S>(
    bytes: Seq<u8>,
    delim: Delimiter,
    value: Meaning<S>,
) -> Step<Seq<S>> {
    match demand_step(bytes) {
        Err(e) => Err(e),
        Ok((text, rest)) => match values_of(fields(delim, text), value) {
            Err(e) => Err(e),
            Ok(v) => Ok((v, rest)),
        },
    }
}

/// `n` items, one after the other.
pub open spec fn repeat_step<V>(
    bytes: Seq<u8>,
    n: nat,
    item: spec_fn(Seq<u8>) -> Step<V>,
) -> Step<Seq<V>>
    decreases n,
{
    if n == 0 {
        Ok((Seq::empty(), bytes))
    } else {
        match repeat_step(bytes, (n - 1) as nat, item) {
            Err(e) => Err(e),
            Ok((list, rest)) => match item(rest) {
                Err(e) => Err(e),
                Ok((v, after)) => Ok((list.push(v), after)),
            },
        }
    }
}

/// Once an item fails, the whole list fails.
pub proof fn lemma_repeat_fails<V>(
    bytes: Seq<u8>,
    i: nat,
    n: nat,
    item: spec_fn(Seq<u8>) -> Step<V>,
)
    requires
        i <= n,
        repeat_step(bytes, i, item) is Err,
    ensures
        repeat_step(bytes, n, item) == repeat_step(bytes, i, item),
    decreases n,
{
    if i < n {
        lemma_repeat_fails(bytes, i, (n - 1) as nat, item);
    }
}

/// What a reader function returned and left is what the step says.
pub open spec fn stepped<V>(step: Step<V>, r: Result<V, ParseError>, left: Seq<u8>) -> bool {
    match r {
        Ok(v) => step == Ok::<(V, Seq<u8>), ParseError>((v, left)),
        Err(e) => step == Err::<(V, Seq<u8>), ParseError>(e),
    }
}

/// Reads a line that holds one value.
pub(crate) fn read_parsed<S, F: Fn(&[char]) -> Option<S>>(
    lines: &mut Reader,
    parse: &F,
) -> (r: Result<S, ParseError>)
    requires
        old(lines).wf(),
        takes_all(*parse),
    ensures
        final(lines).wf(),
        forall|value: Meaning<S>| #[trigger]
            parses(*parse, value) ==> stepped(value_step(old(lines)@, value), r, final(lines)@),
{
    let text = match lines.demand_next_line() {
        Ok(text) => text,
        Err(e) => return Err(e),
    };
    let chars = chars_of(text.as_str());
    match parse(chars.as_slice()) {
        Some(v) => Ok(v),
        None => Err(ParseError::InvalidValue),
    }
}

/// Reads a line of exactly `N` values.
pub(crate) fn read_fixed_array<S, F: Fn(&[char]) -> Option<S>, const N: usize>(
    delim: Delimiter,
    lines: &mut Reader,
    parse: &F,
) -> (r: Result<Vec<S>, ParseError>)
    requires
        old(lines).wf(),
        takes_all(*parse),
    ensures
        final(lines).wf(),
        r matches Ok(v) ==> v@.len() == N,
        forall|value: Meaning<S>| #[trigger]
            parses(*parse, value) ==> stepped(
                fixed_array_step(old(lines)@, delim, N as nat, value),
                list_view(r),
                final(lines)@,
            ),
{
    let text = match lines.demand_next_line() {
        Ok(text) => text,
        Err(e) => return Err(e),
    };
    let chars = chars_of(text.as_str());
    let tokens = split_fields(delim, chars.as_slice());
    match parse_fields(&tokens, parse) {
        Err(e) => Err(e),
        Ok(v) => if v.len() == N {
            Ok(v)
        } else {
            Err(ParseError::WrongCount)
        },
    }
}

/// Reads a line of any number of values.
pub(crate) fn read_dyn_array<S, F: Fn(&[char]) -> Option<S>>(
    delim: Delimiter,
    lines: &mut Reader,
    parse: &F,
) -> (r: Result<Vec<S>, ParseError>)
    requires
        old(lines).wf(),
        takes_all(*parse),
    ensures
        final(lines).wf(),
        forall|value: Meaning<S>| #[trigger]
            parses(*parse, value) ==> stepped(
                dyn_array_step(old(lines)@, delim, value),
                list_view(r),
                final(lines)@,
            ),
{
    let text = match lines.demand_next_line() {
        Ok(text) => text,
        Err(e) => return Err(e),
    };
    let chars = chars_of(text.as_str());
    let tokens = split_fields(delim, chars.as_slice());
    parse_fields(&tokens, parse)
}

} // verus!
