//! Lookup tables of the MC33 algorithm.
//!
//! The tables follow Lewiner et al.'s MC33 implementation. Their contents are data that is
//! loaded at run time and checked once.

use vstd::prelude::*;

verus! {

/// A table of small numbers with up to three indices, the last one fastest.
#[derive(Debug)]
pub struct Lut {
    pub rows: usize,
    pub columns: usize,
    pub depth: usize,
    pub data: Vec<i8>,
}

impl Lut {
    /// The table holds one number per index.
    pub open spec fn wf(self) -> bool {
        self.data@.len() == self.rows * self.columns * self.depth
    }

    /// The entry in row `i`, column `j`, layer `k`.
    pub open spec fn entry(self, i: int, j: int, k: int) -> i8 {
        self.data@[(i * self.columns + j) * self.depth + k]
    }

    /// Row `i` of a table with one index.
    pub fn get1(&self, i: usize) -> (r: i8)
        requires
            self.wf(),
            i < self.rows,
            self.columns == 1,
            self.depth == 1,
        ensures
            r == self.entry(i as int, 0, 0),
    {
        self.get3(i, 0, 0)
    }

    /// Row `i`, column `j` of a table with two indices.
    pub fn get2(&self, i: usize, j: usize) -> (r: i8)
        requires
            self.wf(),
            i < self.rows,
            j < self.columns,
            self.depth == 1,
        ensures
            r == self.entry(i as int, j as int, 0),
    {
        self.get3(i, j, 0)
    }

    /// Row `i`, column `j`, layer `k` of a table with three indices.
    pub fn get3(&self, i: usize, j: usize, k: usize) -> (r: i8)
        requires
            self.wf(),
            i < self.rows,
            j < self.columns,
            k < self.depth,
        ensures
            r == self.entry(i as int, j as int, k as int),
    {
        let n = self.data.len();
        proof {
            lemma_entry_place(
                i as int,
                j as int,
                k as int,
                self.rows as int,
                self.columns as int,
                self.depth as int,
            );
        }
        self.data[(i * self.columns + j) * self.depth + k]
    }

    /// Every number lies between `lo` and `hi`.
    pub open spec fn bounded(self, lo: i8, hi: i8) -> bool {
        forall|n: int| 0 <= n < self.data@.len() ==> lo <= #[trigger] self.data@[n] <= hi
    }

    /// True when every number lies between `lo` and `hi`.
    pub fn is_bounded(&self, lo: i8, hi: i8) -> (b: bool)
        ensures
            b == self.bounded(lo, hi),
    {
        let mut n: usize = 0;
        while n < self.data.len()
            invariant
                n <= self.data@.len(),
                forall|m: int| 0 <= m < n ==> lo <= #[trigger] self.data@[m] <= hi,
            decreases self.data@.len() - n,
        {
            if self.data[n] < lo || self.data[n] > hi {
                return false;
            }
            n += 1;
        }
        true
    }

    /// The table holds one number per index, and has these extents.
    pub open spec fn shaped(self, columns: int, depth: int) -> bool {
        self.wf() && self.columns == columns && self.depth == depth
    }

    /// True when the table holds one number per index, and has these extents.
    pub fn is_shaped(&self, columns: usize, depth: usize) -> (b: bool)
        ensures
            b == self.shaped(columns as int, depth as int),
    {
        if self.columns != columns || self.depth != depth {
            return false;
        }
        let n = self.data.len();
        proof {
            let (r, c, d) = (self.rows as int, columns as int, depth as int);
            assert(d >= 1 ==> r * c <= r * c * d) by (nonlinear_arith)
                requires
                    r >= 0,
                    c >= 0,
            ;
            assert(d == 0 ==> r * c * d == 0) by (nonlinear_arith);
        }
        match self.rows.checked_mul(self.columns) {
            Some(cells) => match cells.checked_mul(self.depth) {
                Some(size) => n == size,
                None => false,
            },
            None => self.depth == 0 && n == 0,
        }
    }
}

/// Entries lie inside the table.
pub proof fn lemma_entry_place(i: int, j: int, k: int, rows: int, columns: int, depth: int)
    requires
        0 <= i < rows,
        0 <= j < columns,
        0 <= k < depth,
    ensures
        0 <= i * columns <= i * columns + j < rows * columns,
        0 <= (i * columns + j) * depth <= (i * columns + j) * depth + k < rows * columns * depth,
        i * columns + j <= (i * columns + j) * depth,
{
    assert(0 <= i * columns && i * columns + columns <= rows * columns) by (nonlinear_arith)
        requires
            0 <= i,
            i + 1 <= rows,
            0 < columns,
    ;
    let m = i * columns + j;
    assert(0 <= m * depth && m <= m * depth && m * depth + depth <= rows * columns * depth)
        by (nonlinear_arith)
        requires
            0 <= m,
            m + 1 <= rows * columns,
            0 < depth,
    ;
}

/// The tables of triangle lists. The number is that of the cube case; the rest tells how the
/// ambiguous faces and the interior resolve.
#[derive(Debug, Clone, Copy, PartialEq, Eq, Structural)]
pub enum TilingTable {
    T1,
    T2,
    T3Split,
    T3Joined,
    T4Apart,
    T4Tunnel,
    T5,
    T6Apart,
    T6Tunnel,
    T6Joined,
    T7None,
    T7One,
    T7Two,
    T7AllOuter,
    T7AllInner,
    T8,
    T9,
    T10Apart,
    T10Both,
    T10Tunnel,
    T10First,
    T10Second,
    T11,
    T12Apart,
    T12Both,
    T12Tunnel,
    T12First,
    T12Second,
    T13None,
    T13All,
    T13One,
    T13Five,
    T13Two,
    T13Four,
    T13Three,
    T13Inner,
    T13Outer,
    T14,
}

impl TilingTable {
    /// Place of the table in a list of all tables.
    pub open spec fn place(self) -> int {
        match self {
            TilingTable::T1 => 0,
            TilingTable::T2 => 1,
            TilingTable::T3Split => 2,
            TilingTable::T3Joined => 3,
            TilingTable::T4Apart => 4,
            TilingTable::T4Tunnel => 5,
            TilingTable::T5 => 6,
            TilingTable::T6Apart => 7,
            TilingTable::T6Tunnel => 8,
            TilingTable::T6Joined => 9,
            TilingTable::T7None => 10,
            TilingTable::T7One => 11,
            TilingTable::T7Two => 12,
            TilingTable::T7AllOuter => 13,
            TilingTable::T7AllInner => 14,
            TilingTable::T8 => 15,
            TilingTable::T9 => 16,
            TilingTable::T10Apart => 17,
            TilingTable::T10Both => 18,
            TilingTable::T10Tunnel => 19,
            TilingTable::T10First => 20,
            TilingTable::T10Second => 21,
            TilingTable::T11 => 22,
            TilingTable::T12Apart => 23,
            TilingTable::T12Both => 24,
            TilingTable::T12Tunnel => 25,
            TilingTable::T12First => 26,
            TilingTable::T12Second => 27,
            TilingTable::T13None => 28,
            TilingTable::T13All => 29,
            TilingTable::T13One => 30,
            TilingTable::T13Five => 31,
            TilingTable::T13Two => 32,
            TilingTable::T13Four => 33,
            TilingTable::T13Three => 34,
            TilingTable::T13Inner => 35,
            TilingTable::T13Outer => 36,
            TilingTable::T14 => 37,
        }
    }

    /// The cube case that the table is for.
    pub open spec fn cube_case(self) -> int {
        match self {
            TilingTable::T1 => 1,
            TilingTable::T2 => 2,
            TilingTable::T3Split => 3,
            TilingTable::T3Joined => 3,
            TilingTable::T4Apart => 4,
            TilingTable::T4Tunnel => 4,
            TilingTable::T5 => 5,
            TilingTable::T6Apart => 6,
            TilingTable::T6Tunnel => 6,
            TilingTable::T6Joined => 6,
            TilingTable::T7None => 7,
            TilingTable::T7One => 7,
            TilingTable::T7Two => 7,
            TilingTable::T7AllOuter => 7,
            TilingTable::T7AllInner => 7,
            TilingTable::T8 => 8,
            TilingTable::T9 => 9,
            TilingTable::T10Apart => 10,
            TilingTable::T10Both => 10,
            TilingTable::T10Tunnel => 10,
            TilingTable::T10First => 10,
            TilingTable::T10Second => 10,
            TilingTable::T11 => 11,
            TilingTable::T12Apart => 12,
            TilingTable::T12Both => 12,
            TilingTable::T12Tunnel => 12,
            TilingTable::T12First => 12,
            TilingTable::T12Second => 12,
            TilingTable::T13None => 13,
            TilingTable::T13All => 13,
            TilingTable::T13One => 13,
            TilingTable::T13Five => 13,
            TilingTable::T13Two => 13,
            TilingTable::T13Four => 13,
            TilingTable::T13Three => 13,
            TilingTable::T13Inner => 13,
            TilingTable::T13Outer => 13,
            TilingTable::T14 => 14,
        }
    }

    /// Number of triangles in a list.
    pub open spec fn triangles(self) -> int {
        match self {
            TilingTable::T1 => 1,
            TilingTable::T2 => 2,
            TilingTable::T3Split => 2,
            TilingTable::T3Joined => 4,
            TilingTable::T4Apart => 2,
            TilingTable::T4Tunnel => 6,
            TilingTable::T5 => 3,
            TilingTable::T6Apart => 3,
            TilingTable::T6Tunnel => 9,
            TilingTable::T6Joined => 5,
            TilingTable::T7None => 3,
            TilingTable::T7One => 5,
            TilingTable::T7Two => 9,
            TilingTable::T7AllOuter => 5,
            TilingTable::T7AllInner => 9,
            TilingTable::T8 => 2,
            TilingTable::T9 => 4,
            TilingTable::T10Apart => 4,
            TilingTable::T10Both => 4,
            TilingTable::T10Tunnel => 8,
            TilingTable::T10First => 8,
            TilingTable::T10Second => 8,
            TilingTable::T11 => 4,
            TilingTable::T12Apart => 4,
            TilingTable::T12Both => 4,
            TilingTable::T12Tunnel => 8,
            TilingTable::T12First => 8,
            TilingTable::T12Second => 8,
            TilingTable::T13None => 4,
            TilingTable::T13All => 4,
            TilingTable::T13One => 6,
            TilingTable::T13Five => 6,
            TilingTable::T13Two => 10,
            TilingTable::T13Four => 10,
            TilingTable::T13Three => 12,
            TilingTable::T13Inner => 6,
            TilingTable::T13Outer => 10,
            TilingTable::T14 => 4,
        }
    }

    /// Number of variants per row, or zero when rows have no variants.
    pub open spec fn variants(self) -> int {
        match self {
            TilingTable::T1 => 0,
            TilingTable::T2 => 0,
            TilingTable::T3Split => 0,
            TilingTable::T3Joined => 0,
            TilingTable::T4Apart => 0,
            TilingTable::T4Tunnel => 0,
            TilingTable::T5 => 0,
            TilingTable::T6Apart => 0,
            TilingTable::T6Tunnel => 0,
            TilingTable::T6Joined => 0,
            TilingTable::T7None => 0,
            TilingTable::T7One => 3,
            TilingTable::T7Two => 3,
            TilingTable::T7AllOuter => 0,
            TilingTable::T7AllInner => 0,
            TilingTable::T8 => 0,
            TilingTable::T9 => 0,
            TilingTable::T10Apart => 0,
            TilingTable::T10Both => 0,
            TilingTable::T10Tunnel => 0,
            TilingTable::T10First => 0,
            TilingTable::T10Second => 0,
            TilingTable::T11 => 0,
            TilingTable::T12Apart => 0,
            TilingTable::T12Both => 0,
            TilingTable::T12Tunnel => 0,
            TilingTable::T12First => 0,
            TilingTable::T12Second => 0,
            TilingTable::T13None => 0,
            TilingTable::T13All => 0,
            TilingTable::T13One => 6,
            TilingTable::T13Five => 6,
            TilingTable::T13Two => 12,
            TilingTable::T13Four => 12,
            TilingTable::T13Three => 4,
            TilingTable::T13Inner => 4,
            TilingTable::T13Outer => 4,
            TilingTable::T14 => 0,
        }
    }

    /// Place of the table in a list of all tables.
    pub fn number(self) -> (n: usize)
        ensures
            n == self.place(),
            n < 38,
    {
        match self {
            TilingTable::T1 => 0,
            TilingTable::T2 => 1,
            TilingTable::T3Split => 2,
            TilingTable::T3Joined => 3,
            TilingTable::T4Apart => 4,
            TilingTable::T4Tunnel => 5,
            TilingTable::T5 => 6,
            TilingTable::T6Apart => 7,
            TilingTable::T6Tunnel => 8,
            TilingTable::T6Joined => 9,
            TilingTable::T7None => 10,
            TilingTable::T7One => 11,
            TilingTable::T7Two => 12,
            TilingTable::T7AllOuter => 13,
            TilingTable::T7AllInner => 14,
            TilingTable::T8 => 15,
            TilingTable::T9 => 16,
            TilingTable::T10Apart => 17,
            TilingTable::T10Both => 18,
            TilingTable::T10Tunnel => 19,
            TilingTable::T10First => 20,
            TilingTable::T10Second => 21,
            TilingTable::T11 => 22,
            TilingTable::T12Apart => 23,
            TilingTable::T12Both => 24,
            TilingTable::T12Tunnel => 25,
            TilingTable::T12First => 26,
            TilingTable::T12Second => 27,
            TilingTable::T13None => 28,
            TilingTable::T13All => 29,
            TilingTable::T13One => 30,
            TilingTable::T13Five => 31,
            TilingTable::T13Two => 32,
            TilingTable::T13Four => 33,
            TilingTable::T13Three => 34,
            TilingTable::T13Inner => 35,
            TilingTable::T13Outer => 36,
            TilingTable::T14 => 37,
        }
    }

    /// Number of triangles in a list.
    pub fn triangle_count(self) -> (n: usize)
        ensures
            n == self.triangles(),
            0 < n <= 12,
    {
        match self {
            TilingTable::T1 => 1,
            TilingTable::T2 => 2,
            TilingTable::T3Split => 2,
            TilingTable::T3Joined => 4,
            TilingTable::T4Apart => 2,
            TilingTable::T4Tunnel => 6,
            TilingTable::T5 => 3,
            TilingTable::T6Apart => 3,
            TilingTable::T6Tunnel => 9,
            TilingTable::T6Joined => 5,
            TilingTable::T7None => 3,
            TilingTable::T7One => 5,
            TilingTable::T7Two => 9,
            TilingTable::T7AllOuter => 5,
            TilingTable::T7AllInner => 9,
            TilingTable::T8 => 2,
            TilingTable::T9 => 4,
            TilingTable::T10Apart => 4,
            TilingTable::T10Both => 4,
            TilingTable::T10Tunnel => 8,
            TilingTable::T10First => 8,
            TilingTable::T10Second => 8,
            TilingTable::T11 => 4,
            TilingTable::T12Apart => 4,
            TilingTable::T12Both => 4,
            TilingTable::T12Tunnel => 8,
            TilingTable::T12First => 8,
            TilingTable::T12Second => 8,
            TilingTable::T13None => 4,
            TilingTable::T13All => 4,
            TilingTable::T13One => 6,
            TilingTable::T13Five => 6,
            TilingTable::T13Two => 10,
            TilingTable::T13Four => 10,
            TilingTable::T13Three => 12,
            TilingTable::T13Inner => 6,
            TilingTable::T13Outer => 10,
            TilingTable::T14 => 4,
        }
    }

    /// Number of variants per row, or zero when rows have no variants.
    pub fn variant_count(self) -> (n: usize)
        ensures
            n == self.variants(),
            n <= 12,
    {
        match self {
            TilingTable::T1 => 0,
            TilingTable::T2 => 0,
            TilingTable::T3Split => 0,
            TilingTable::T3Joined => 0,
            TilingTable::T4Apart => 0,
            TilingTable::T4Tunnel => 0,
            TilingTable::T5 => 0,
            TilingTable::T6Apart => 0,
            TilingTable::T6Tunnel => 0,
            TilingTable::T6Joined => 0,
            TilingTable::T7None => 0,
            TilingTable::T7One => 3,
            TilingTable::T7Two => 3,
            TilingTable::T7AllOuter => 0,
            TilingTable::T7AllInner => 0,
            TilingTable::T8 => 0,
            TilingTable::T9 => 0,
            TilingTable::T10Apart => 0,
            TilingTable::T10Both => 0,
            TilingTable::T10Tunnel => 0,
            TilingTable::T10First => 0,
            TilingTable::T10Second => 0,
            TilingTable::T11 => 0,
            TilingTable::T12Apart => 0,
            TilingTable::T12Both => 0,
            TilingTable::T12Tunnel => 0,
            TilingTable::T12First => 0,
            TilingTable::T12Second => 0,
            TilingTable::T13None => 0,
            TilingTable::T13All => 0,
            TilingTable::T13One => 6,
            TilingTable::T13Five => 6,
            TilingTable::T13Two => 12,
            TilingTable::T13Four => 12,
            TilingTable::T13Three => 4,
            TilingTable::T13Inner => 4,
            TilingTable::T13Outer => 4,
            TilingTable::T14 => 0,
        }
    }

    /// The cube case that the table is for.
    pub fn case_number(self) -> (n: usize)
        ensures
            n == self.cube_case(),
            1 <= n <= 14,
    {
        match self {
            TilingTable::T1 => 1,
            TilingTable::T2 => 2,
            TilingTable::T3Split => 3,
            TilingTable::T3Joined => 3,
            TilingTable::T4Apart => 4,
            TilingTable::T4Tunnel => 4,
            TilingTable::T5 => 5,
            TilingTable::T6Apart => 6,
            TilingTable::T6Tunnel => 6,
            TilingTable::T6Joined => 6,
            TilingTable::T7None => 7,
            TilingTable::T7One => 7,
            TilingTable::T7Two => 7,
            TilingTable::T7AllOuter => 7,
            TilingTable::T7AllInner => 7,
            TilingTable::T8 => 8,
            TilingTable::T9 => 9,
            TilingTable::T10Apart => 10,
            TilingTable::T10Both => 10,
            TilingTable::T10Tunnel => 10,
            TilingTable::T10First => 10,
            TilingTable::T10Second => 10,
            TilingTable::T11 => 11,
            TilingTable::T12Apart => 12,
            TilingTable::T12Both => 12,
            TilingTable::T12Tunnel => 12,
            TilingTable::T12First => 12,
            TilingTable::T12Second => 12,
            TilingTable::T13None => 13,
            TilingTable::T13All => 13,
            TilingTable::T13One => 13,
            TilingTable::T13Five => 13,
            TilingTable::T13Two => 13,
            TilingTable::T13Four => 13,
            TilingTable::T13Three => 13,
            TilingTable::T13Inner => 13,
            TilingTable::T13Outer => 13,
            TilingTable::T14 => 14,
        }
    }

    /// The table in place `n`.
    pub fn at(n: usize) -> (t: Self)
        requires
            n < 38,
        ensures
            t.place() == n,
    {
        match n {
            0 => TilingTable::T1,
            1 => TilingTable::T2,
            2 => TilingTable::T3Split,
            3 => TilingTable::T3Joined,
            4 => TilingTable::T4Apart,
            5 => TilingTable::T4Tunnel,
            6 => TilingTable::T5,
            7 => TilingTable::T6Apart,
            8 => TilingTable::T6Tunnel,
            9 => TilingTable::T6Joined,
            10 => TilingTable::T7None,
            11 => TilingTable::T7One,
            12 => TilingTable::T7Two,
            13 => TilingTable::T7AllOuter,
            14 => TilingTable::T7AllInner,
            15 => TilingTable::T8,
            16 => TilingTable::T9,
            17 => TilingTable::T10Apart,
            18 => TilingTable::T10Both,
            19 => TilingTable::T10Tunnel,
            20 => TilingTable::T10First,
            21 => TilingTable::T10Second,
            22 => TilingTable::T11,
            23 => TilingTable::T12Apart,
            24 => TilingTable::T12Both,
            25 => TilingTable::T12Tunnel,
            26 => TilingTable::T12First,
            27 => TilingTable::T12Second,
            28 => TilingTable::T13None,
            29 => TilingTable::T13All,
            30 => TilingTable::T13One,
            31 => TilingTable::T13Five,
            32 => TilingTable::T13Two,
            33 => TilingTable::T13Four,
            34 => TilingTable::T13Three,
            35 => TilingTable::T13Inner,
            36 => TilingTable::T13Outer,
            _ => TilingTable::T14,
        }
    }
}

/// Tables in the same place are the same.
pub proof fn lemma_same_place(s: TilingTable, t: TilingTable)
    requires
        s.place() == t.place(),
    ensures
        s == t,
{
}

/// The tables that tell which faces and interiors a case tests.
#[derive(Debug, Clone, Copy, PartialEq, Eq, Structural)]
pub enum TestTable {
    T3,
    T4,
    T6,
    T7,
    T10,
    T12,
    T13,
}

impl TestTable {
    /// Place of the table in a list of all tables.
    pub open spec fn place(self) -> int {
        match self {
            TestTable::T3 => 0,
            TestTable::T4 => 1,
            TestTable::T6 => 2,
            TestTable::T7 => 3,
            TestTable::T10 => 4,
            TestTable::T12 => 5,
            TestTable::T13 => 6,
        }
    }

    /// The cube case that the table is for.
    pub open spec fn cube_case(self) -> int {
        match self {
            TestTable::T3 => 3,
            TestTable::T4 => 4,
            TestTable::T6 => 6,
            TestTable::T7 => 7,
            TestTable::T10 => 10,
            TestTable::T12 => 12,
            TestTable::T13 => 13,
        }
    }

    /// Numbers per row.
    pub open spec fn columns(self) -> int {
        match self {
            TestTable::T3 => 1,
            TestTable::T4 => 1,
            TestTable::T6 => 3,
            TestTable::T7 => 5,
            TestTable::T10 => 3,
            TestTable::T12 => 4,
            TestTable::T13 => 7,
        }
    }

    /// Place of the table in a list of all tables.
    pub fn number(self) -> (n: usize)
        ensures
            n == self.place(),
            n < 7,
    {
        match self {
            TestTable::T3 => 0,
            TestTable::T4 => 1,
            TestTable::T6 => 2,
            TestTable::T7 => 3,
            TestTable::T10 => 4,
            TestTable::T12 => 5,
            TestTable::T13 => 6,
        }
    }
}

/// All tables.
#[derive(Debug)]
pub struct Tables {
    /// Case and configuration of each of the 256 sign patterns.
    pub cases: Lut,
    /// How the faces of case 13 resolve.
    pub subconfig13: Lut,
    /// Test tables, by place.
    pub tests: Vec<Lut>,
    /// Triangle lists, by place.
    pub tilings: Vec<Lut>,
}

/// A cube face, with the sign of its test.
pub open spec fn is_face(n: i8) -> bool {
    (1 <= n <= 6) || (-6 <= n <= -1)
}

/// A cube edge.
pub open spec fn is_edge(n: i8) -> bool {
    0 <= n <= 11
}

impl Tables {
    /// The triangle lists of a table.
    pub open spec fn tiling(self, t: TilingTable) -> Lut {
        self.tilings@[t.place()]
    }

    /// The tests of a case.
    pub open spec fn test(self, t: TestTable) -> Lut {
        self.tests@[t.place()]
    }

    /// A table of triangle lists has its shape, and names edges or the interior (12) only.
    pub open spec fn tiling_ok(self, t: TilingTable) -> bool {
        let lut = self.tiling(t);
        &&& if t.variants() == 0 {
            lut.shaped(3 * t.triangles(), 1)
        } else {
            lut.shaped(t.variants(), 3 * t.triangles())
        }
        &&& lut.bounded(0, 12)
    }

    /// The case of a sign pattern has its configuration in all tables of the case.
    pub open spec fn pattern_ok(self, pattern: int) -> bool {
        let case = self.cases.entry(pattern, 0, 0);
        let config = self.cases.entry(pattern, 1, 0);
        case > 0 ==> {
            &&& case <= 14
            &&& config >= 0
            &&& forall|t: TilingTable|
                t.cube_case() == case ==> config < (#[trigger] self.tiling(t)).rows
            &&& forall|t: TestTable| t.cube_case() == case ==> config < (#[trigger] self.test(t)).rows
            &&& self.tests_ok(case as int, config as int)
        }
    }

    /// The tests of a configuration name faces and edges.
    pub open spec fn tests_ok(self, case: int, config: int) -> bool {
        &&& case == 3 ==> is_face(self.test(TestTable::T3).entry(config, 0, 0))
        &&& case == 6 ==> is_face(self.test(TestTable::T6).entry(config, 0, 0)) && is_edge(
            self.test(TestTable::T6).entry(config, 2, 0),
        )
        &&& case == 7 ==> {
            &&& is_face(self.test(TestTable::T7).entry(config, 0, 0))
            &&& is_face(self.test(TestTable::T7).entry(config, 1, 0))
            &&& is_face(self.test(TestTable::T7).entry(config, 2, 0))
            &&& is_edge(self.test(TestTable::T7).entry(config, 4, 0))
        }
        &&& case == 10 ==> is_face(self.test(TestTable::T10).entry(config, 0, 0)) && is_face(
            self.test(TestTable::T10).entry(config, 1, 0),
        )
        &&& case == 12 ==> is_face(self.test(TestTable::T12).entry(config, 0, 0)) && is_face(
            self.test(TestTable::T12).entry(config, 1, 0),
        ) && is_edge(self.test(TestTable::T12).entry(config, 3, 0))
        &&& case == 13 ==> {
            &&& forall|c: int|
                0 <= c < 6 ==> is_face(#[trigger] self.test(TestTable::T13).entry(config, c, 0))
            &&& forall|v: int|
                0 <= v < 4 ==> is_edge(
                    #[trigger] self.tiling(TilingTable::T13Inner).entry(config, v, 0),
                )
        }
    }

    /// Every table has its shape, and every sign pattern leads to entries that exist.
    pub open spec fn wf(self) -> bool {
        &&& self.tilings@.len() == 38
        &&& self.tests@.len() == 7
        &&& forall|t: TilingTable| #[trigger] self.tiling_ok(t)
        &&& forall|t: TestTable| (#[trigger] self.test(t)).shaped(t.columns(), 1)
        &&& self.cases.shaped(2, 1)
        &&& self.cases.rows == 256
        &&& self.subconfig13.shaped(1, 1)
        &&& self.subconfig13.rows == 64
        &&& forall|pattern: int| 0 <= pattern < 256 ==> #[trigger] self.pattern_ok(pattern)
    }

    /// True when the tables are well-formed.
    pub fn validate(&self) -> (b: bool)
        ensures
            b == self.wf(),
    {
        if self.tilings.len() != 38 || self.tests.len() != 7 {
            return false;
        }
        let mut n: usize = 0;
        while n < 38
            invariant
                n <= 38,
                self.tilings@.len() == 38,
                forall|t: TilingTable| t.place() < n ==> #[trigger] self.tiling_ok(t),
            decreases 38 - n,
        {
            let t = TilingTable::at(n);
            if !self.check_tiling(t) {
                return false;
            }
            proof {
                assert forall|u: TilingTable| u.place() < n + 1 implies #[trigger] self.tiling_ok(u) by {
                    if u.place() == n {
                        lemma_same_place(t, u);
                    }
                }
            }
            n += 1;
        }
        let shapes = self.tests[0].is_shaped(1, 1) && self.tests[1].is_shaped(1, 1)
            && self.tests[2].is_shaped(3, 1) && self.tests[3].is_shaped(5, 1)
            && self.tests[4].is_shaped(3, 1) && self.tests[5].is_shaped(4, 1)
            && self.tests[6].is_shaped(7, 1);
        if !shapes {
            proof {
                assert(!(self.test(TestTable::T3).shaped(1, 1) && self.test(
                    TestTable::T4,
                ).shaped(1, 1) && self.test(TestTable::T6).shaped(3, 1) && self.test(
                    TestTable::T7,
                ).shaped(5, 1) && self.test(TestTable::T10).shaped(3, 1) && self.test(
                    TestTable::T12,
                ).shaped(4, 1) && self.test(TestTable::T13).shaped(7, 1)));
            }
            return false;
        }
        assert forall|t: TestTable| (#[trigger] self.test(t)).shaped(t.columns(), 1) by {
            match t {
                TestTable::T3 => {},
                TestTable::T4 => {},
                TestTable::T6 => {},
                TestTable::T7 => {},
                TestTable::T10 => {},
                TestTable::T12 => {},
                TestTable::T13 => {},
            }
        }
        if !self.cases.is_shaped(2, 1) || self.cases.rows != 256 || !self.subconfig13.is_shaped(
            1,
            1,
        ) || self.subconfig13.rows != 64 {
            return false;
        }
        let mut pattern: usize = 0;
        while pattern < 256
            invariant
                pattern <= 256,
                self.tilings@.len() == 38,
                self.tests@.len() == 7,
                forall|t: TilingTable| #[trigger] self.tiling_ok(t),
                forall|t: TestTable| (#[trigger] self.test(t)).shaped(t.columns(), 1),
                self.cases.shaped(2, 1),
                self.cases.rows == 256,
                forall|p: int| 0 <= p < pattern ==> #[trigger] self.pattern_ok(p),
            decreases 256 - pattern,
        {
            if !self.check_pattern(pattern) {
                return false;
            }
            pattern += 1;
        }
        true
    }

    fn check_tiling(&self, t: TilingTable) -> (b: bool)
        requires
            self.tilings@.len() == 38,
        ensures
            b == self.tiling_ok(t),
    {
        let lut = &self.tilings[t.number()];
        let count = t.triangle_count();
        let variants = t.variant_count();
        let shaped = if variants == 0 {
            lut.is_shaped(3 * count, 1)
        } else {
            lut.is_shaped(variants, 3 * count)
        };
        shaped && lut.is_bounded(0, 12)
    }

    fn check_pattern(&self, pattern: usize) -> (b: bool)
        requires
            pattern < 256,
            self.tilings@.len() == 38,
            self.tests@.len() == 7,
            forall|t: TilingTable| #[trigger] self.tiling_ok(t),
            forall|t: TestTable| (#[trigger] self.test(t)).shaped(t.columns(), 1),
            self.cases.shaped(2, 1),
            self.cases.rows == 256,
        ensures
            b == self.pattern_ok(pattern as int),
    {
        let case = self.cases.get2(pattern, 0);
        if case <= 0 {
            return true;
        }
        let found = self.cases.get2(pattern, 1);
        if case > 14 || found < 0 {
            return false;
        }
        let config = found as usize;
        let mut n: usize = 0;
        while n < 38
            invariant
                n <= 38,
                self.tilings@.len() == 38,
                case == self.cases.entry(pattern as int, 0, 0),
                found == self.cases.entry(pattern as int, 1, 0),
                case > 0,
                config == found,
                forall|t: TilingTable|
                    t.place() < n && t.cube_case() == case ==> config < (
                    #[trigger] self.tiling(t)).rows,
            decreases 38 - n,
        {
            let t = TilingTable::at(n);
            if t.case_number() == case as usize && config >= self.tilings[n].rows {
                assert(self.tiling(t).rows <= config);
                return false;
            }
            proof {
                assert forall|u: TilingTable| u.place() < n + 1 && u.cube_case() == case implies config
                    < (#[trigger] self.tiling(u)).rows by {
                    if u.place() == n {
                        lemma_same_place(t, u);
                    }
                }
            }
            n += 1;
        }
        let row_missing = (case == 3 && config >= self.tests[0].rows) || (case == 4 && config
            >= self.tests[1].rows) || (case == 6 && config >= self.tests[2].rows) || (case == 7
            && config >= self.tests[3].rows) || (case == 10 && config >= self.tests[4].rows) || (
        case == 12 && config >= self.tests[5].rows) || (case == 13 && config
            >= self.tests[6].rows);
        if row_missing {
            proof {
                if case == 3 {
                    assert(self.test(TestTable::T3).rows <= config);
                } else if case == 4 {
                    assert(self.test(TestTable::T4).rows <= config);
                } else if case == 6 {
                    assert(self.test(TestTable::T6).rows <= config);
                } else if case == 7 {
                    assert(self.test(TestTable::T7).rows <= config);
                } else if case == 10 {
                    assert(self.test(TestTable::T10).rows <= config);
                } else if case == 12 {
                    assert(self.test(TestTable::T12).rows <= config);
                } else {
                    assert(self.test(TestTable::T13).rows <= config);
                }
            }
            return false;
        }
        assert forall|t: TestTable| t.cube_case() == case implies config < (#[trigger] self.test(
            t,
        )).rows by {
            match t {
                TestTable::T3 => {},
                TestTable::T4 => {},
                TestTable::T6 => {},
                TestTable::T7 => {},
                TestTable::T10 => {},
                TestTable::T12 => {},
                TestTable::T13 => {},
            }
        }
        self.check_tests(case as usize, config)
    }

    fn check_tests(&self, case: usize, config: usize) -> (b: bool)
        requires
            1 <= case <= 14,
            self.tilings@.len() == 38,
            self.tests@.len() == 7,
            forall|t: TilingTable| #[trigger] self.tiling_ok(t),
            forall|t: TestTable| (#[trigger] self.test(t)).shaped(t.columns(), 1),
            forall|t: TilingTable|
                t.cube_case() == case ==> config < (#[trigger] self.tiling(t)).rows,
            forall|t: TestTable| t.cube_case() == case ==> config < (#[trigger] self.test(t)).rows,
        ensures
            b == self.tests_ok(case as int, config as int),
    {
        if case == 3 {
            assert(self.test(TestTable::T3).shaped(1, 1));
            assert(config < self.test(TestTable::T3).rows);
            face_number(self.tests[0].get2(config, 0))
        } else if case == 6 {
            assert(self.test(TestTable::T6).shaped(3, 1));
            assert(config < self.test(TestTable::T6).rows);
            let lut = &self.tests[2];
            face_number(lut.get2(config, 0)) && edge_number(lut.get2(config, 2))
        } else if case == 7 {
            assert(self.test(TestTable::T7).shaped(5, 1));
            assert(config < self.test(TestTable::T7).rows);
            let lut = &self.tests[3];
            face_number(lut.get2(config, 0)) && face_number(lut.get2(config, 1)) && face_number(
                lut.get2(config, 2),
            ) && edge_number(lut.get2(config, 4))
        } else if case == 10 {
            assert(self.test(TestTable::T10).shaped(3, 1));
            assert(config < self.test(TestTable::T10).rows);
            let lut = &self.tests[4];
            face_number(lut.get2(config, 0)) && face_number(lut.get2(config, 1))
        } else if case == 12 {
            assert(self.test(TestTable::T12).shaped(4, 1));
            assert(config < self.test(TestTable::T12).rows);
            let lut = &self.tests[5];
            face_number(lut.get2(config, 0)) && face_number(lut.get2(config, 1)) && edge_number(
                lut.get2(config, 3),
            )
        } else if case == 13 {
            assert(self.test(TestTable::T13).shaped(7, 1));
            assert(config < self.test(TestTable::T13).rows);
            assert(self.tiling_ok(TilingTable::T13Inner));
            assert(config < self.tiling(TilingTable::T13Inner).rows);
            let lut = &self.tests[6];
            let inner = &self.tilings[TilingTable::T13Inner.number()];
            let b = face_number(lut.get2(config, 0)) && face_number(lut.get2(config, 1))
                && face_number(lut.get2(config, 2)) && face_number(lut.get2(config, 3))
                && face_number(lut.get2(config, 4)) && face_number(lut.get2(config, 5))
                && edge_number(inner.get3(config, 0, 0)) && edge_number(inner.get3(config, 1, 0))
                && edge_number(inner.get3(config, 2, 0)) && edge_number(inner.get3(config, 3, 0));
            proof {
                let c = config as int;
                let f = self.test(TestTable::T13);
                let e = self.tiling(TilingTable::T13Inner);
                if b {
                    assert forall|k: int| 0 <= k < 6 implies is_face(
                        #[trigger] f.entry(c, k, 0),
                    ) by {
                        assert(k == 0 || k == 1 || k == 2 || k == 3 || k == 4 || k == 5);
                    }
                    assert forall|v: int| 0 <= v < 4 implies is_edge(
                        #[trigger] e.entry(c, v, 0),
                    ) by {
                        assert(v == 0 || v == 1 || v == 2 || v == 3);
                    }
                } else {
                    assert(!(is_face(f.entry(c, 0, 0)) && is_face(f.entry(c, 1, 0)) && is_face(
                        f.entry(c, 2, 0),
                    ) && is_face(f.entry(c, 3, 0)) && is_face(f.entry(c, 4, 0)) && is_face(
                        f.entry(c, 5, 0),
                    ) && is_edge(e.entry(c, 0, 0)) && is_edge(e.entry(c, 1, 0)) && is_edge(
                        e.entry(c, 2, 0),
                    ) && is_edge(e.entry(c, 3, 0))));
                }
            }
            b
        } else {
            true
        }
    }
}

/// True for cube faces.
fn face_number(n: i8) -> (b: bool)
    ensures
        b == is_face(n),
{
    (1 <= n && n <= 6) || (-6 <= n && n <= -1)
}

/// True for cube edges.
fn edge_number(n: i8) -> (b: bool)
    ensures
        b == is_edge(n),
{
    0 <= n && n <= 11
}

} // verus!
