//! How the tables of marching cubes decide: which triangle list a sign pattern has.

use vstd::prelude::*;

use crate::isosurface::mc33::{
    face_bits13, face_values, interior_outcome, interior_values, resolution, InteriorRules,
    InteriorTest, Resolution, Tiling,
};
use crate::isosurface::mc33::tables::{Tables, TestTable, TilingTable};

verus! {

/// The only list of row `config` of a table, with this many triangles.
pub open spec fn list_of(table: TilingTable, config: i8, count: usize) -> Resolution {
    Resolution::Found(
        Tiling { table, config: config as usize, subconfig: None, triangle_count: count },
    )
}

/// List `sub` of row `config` of a table, with this many triangles.
pub open spec fn sublist_of(table: TilingTable, config: i8, sub: int, count: usize) -> Resolution {
    Resolution::Found(
        Tiling {
            table,
            config: config as usize,
            subconfig: Some(sub as usize),
            triangle_count: count,
        },
    )
}

/// The number in a row and a column of a test table.
pub open spec fn test_entry(tables: Tables, place: int, config: i8, column: int) -> i8 {
    tables.tests@[place].data@[config * tables.tests@[place].columns + column]
}

/// The triangle lists are kept in this order.
pub proof fn law_list_tables(tables: Tables)
    ensures
        tables.tiling(TilingTable::T1) == tables.tilings@[0],
        tables.tiling(TilingTable::T2) == tables.tilings@[1],
        tables.tiling(TilingTable::T3Split) == tables.tilings@[2],
        tables.tiling(TilingTable::T3Joined) == tables.tilings@[3],
        tables.tiling(TilingTable::T4Apart) == tables.tilings@[4],
        tables.tiling(TilingTable::T4Tunnel) == tables.tilings@[5],
        tables.tiling(TilingTable::T5) == tables.tilings@[6],
        tables.tiling(TilingTable::T6Apart) == tables.tilings@[7],
        tables.tiling(TilingTable::T6Tunnel) == tables.tilings@[8],
        tables.tiling(TilingTable::T6Joined) == tables.tilings@[9],
        tables.tiling(TilingTable::T7None) == tables.tilings@[10],
        tables.tiling(TilingTable::T7One) == tables.tilings@[11],
        tables.tiling(TilingTable::T7Two) == tables.tilings@[12],
        tables.tiling(TilingTable::T7AllOuter) == tables.tilings@[13],
        tables.tiling(TilingTable::T7AllInner) == tables.tilings@[14],
        tables.tiling(TilingTable::T8) == tables.tilings@[15],
        tables.tiling(TilingTable::T9) == tables.tilings@[16],
        tables.tiling(TilingTable::T10Apart) == tables.tilings@[17],
        tables.tiling(TilingTable::T10Both) == tables.tilings@[18],
        tables.tiling(TilingTable::T10Tunnel) == tables.tilings@[19],
        tables.tiling(TilingTable::T10First) == tables.tilings@[20],
        tables.tiling(TilingTable::T10Second) == tables.tilings@[21],
        tables.tiling(TilingTable::T11) == tables.tilings@[22],
        tables.tiling(TilingTable::T12Apart) == tables.tilings@[23],
        tables.tiling(TilingTable::T12Both) == tables.tilings@[24],
        tables.tiling(TilingTable::T12Tunnel) == tables.tilings@[25],
        tables.tiling(TilingTable::T12First) == tables.tilings@[26],
        tables.tiling(TilingTable::T12Second) == tables.tilings@[27],
        tables.tiling(TilingTable::T13None) == tables.tilings@[28],
        tables.tiling(TilingTable::T13All) == tables.tilings@[29],
        tables.tiling(TilingTable::T13One) == tables.tilings@[30],
        tables.tiling(TilingTable::T13Five) == tables.tilings@[31],
        tables.tiling(TilingTable::T13Two) == tables.tilings@[32],
        tables.tiling(TilingTable::T13Four) == tables.tilings@[33],
        tables.tiling(TilingTable::T13Three) == tables.tilings@[34],
        tables.tiling(TilingTable::T13Inner) == tables.tilings@[35],
        tables.tiling(TilingTable::T13Outer) == tables.tilings@[36],
        tables.tiling(TilingTable::T14) == tables.tilings@[37],
{
}

/// The entries of the tables of cases and tests.
proof fn lemma_entries(tables: Tables, pattern: int)
    requires
        tables.wf(),
        0 <= pattern < 256,
        tables.cases.data@[2 * pattern] > 0,
    ensures
        ({
            let case = tables.cases.data@[2 * pattern];
            let config = tables.cases.data@[2 * pattern + 1];
            &&& tables.cases.entry(pattern, 0, 0) == case
            &&& tables.cases.entry(pattern, 1, 0) == config
            &&& 1 <= case <= 14
            &&& config >= 0
            &&& forall|t: TestTable, column: int| #[trigger]
                tables.test(t).entry(config as int, column, 0) == test_entry(
                    tables,
                    t.place(),
                    config,
                    column,
                )
        }),
{
    assert(tables.pattern_ok(pattern));
    assert(tables.cases.columns == 2 && tables.cases.depth == 1);
    assert((pattern * 2 + 0) * 1 + 0 == 2 * pattern);
    assert((pattern * 2 + 1) * 1 + 0 == 2 * pattern + 1);
    let config = tables.cases.data@[2 * pattern + 1];
    assert forall|t: TestTable, column: int| #[trigger]
        tables.test(t).entry(config as int, column, 0) == test_entry(
            tables,
            t.place(),
            config,
            column,
        ) by {
        let lut = tables.test(t);
        assert(lut.depth == 1) by {
            assert(lut.shaped(t.columns(), 1));
        }
        let n = config * lut.columns + column;
        assert(n * 1 + 0 == n);
    }
}

/// Patterns whose case is not positive have no triangles.
pub proof fn law_empty_patterns(
    tables: Tables,
    pattern: int,
    face: spec_fn(i8) -> bool,
    interior: spec_fn(InteriorTest) -> bool,
)
    requires
        tables.wf(),
        0 <= pattern < 256,
    ensures
        resolution(tables, pattern, face, interior) == Resolution::Empty
            <==> tables.cases.data@[2 * pattern] <= 0,
{
    assert(tables.cases.columns == 2 && tables.cases.depth == 1);
    assert((pattern * 2 + 0) * 1 + 0 == 2 * pattern);
}

/// The list of a pattern of cases 1, 2, 5, 8, 9, 11 and 14 depends on the pattern alone; in
/// cases 3, 4 and 6 a face or the interior decides.
pub proof fn law_simple_cases(
    tables: Tables,
    pattern: int,
    face: spec_fn(i8) -> bool,
    interior: spec_fn(InteriorTest) -> bool,
)
    requires
        tables.wf(),
        0 <= pattern < 256,
        tables.cases.data@[2 * pattern] > 0,
    ensures
        ({
            let case = tables.cases.data@[2 * pattern];
            let config = tables.cases.data@[2 * pattern + 1];
            let r = resolution(tables, pattern, face, interior);
            let at = |place: int, column: int| test_entry(tables, place, config, column);
            &&& case == 1 ==> r == list_of(TilingTable::T1, config, 1)
            &&& case == 2 ==> r == list_of(TilingTable::T2, config, 2)
            &&& case == 3 ==> r == if face(at(0, 0)) {
                list_of(TilingTable::T3Joined, config, 4)
            } else {
                list_of(TilingTable::T3Split, config, 2)
            }
            &&& case == 4 ==> r == if interior(
                (InteriorTest { reference: None, sign: at(1, 0) }),
            ) {
                list_of(TilingTable::T4Apart, config, 2)
            } else {
                list_of(TilingTable::T4Tunnel, config, 6)
            }
            &&& case == 5 ==> r == list_of(TilingTable::T5, config, 3)
            &&& case == 6 ==> r == if face(at(2, 0)) {
                list_of(TilingTable::T6Joined, config, 5)
            } else if interior((InteriorTest { reference: Some(at(2, 2)), sign: at(2, 1) })) {
                list_of(TilingTable::T6Apart, config, 3)
            } else {
                list_of(TilingTable::T6Tunnel, config, 9)
            }
            &&& case == 8 ==> r == list_of(TilingTable::T8, config, 2)
            &&& case == 9 ==> r == list_of(TilingTable::T9, config, 4)
            &&& case == 11 ==> r == list_of(TilingTable::T11, config, 4)
            &&& case == 14 ==> r == list_of(TilingTable::T14, config, 4)
        }),
{
    lemma_entries(tables, pattern);
    let config = tables.cases.data@[2 * pattern + 1];
    assert(tables.test(TestTable::T3).entry(config as int, 0, 0) == test_entry(tables, 0, config, 0));
    assert(tables.test(TestTable::T4).entry(config as int, 0, 0) == test_entry(tables, 1, config, 0));
    assert(tables.test(TestTable::T6).entry(config as int, 0, 0) == test_entry(tables, 2, config, 0));
    assert(tables.test(TestTable::T6).entry(config as int, 1, 0) == test_entry(tables, 2, config, 1));
    assert(tables.test(TestTable::T6).entry(config as int, 2, 0) == test_entry(tables, 2, config, 2));
}

/// In case 7 three faces decide which list is taken, and the interior when all of them join.
pub proof fn law_case_seven(
    tables: Tables,
    pattern: int,
    face: spec_fn(i8) -> bool,
    interior: spec_fn(InteriorTest) -> bool,
)
    requires
        tables.wf(),
        0 <= pattern < 256,
        tables.cases.data@[2 * pattern] == 7,
    ensures
        ({
            let config = tables.cases.data@[2 * pattern + 1];
            let at = |column: int| test_entry(tables, 3, config, column);
            let (a, b, c) = (face(at(0)), face(at(1)), face(at(2)));
            resolution(tables, pattern, face, interior) == if !a && !b && !c {
                list_of(TilingTable::T7None, config, 3)
            } else if a && !b && !c {
                sublist_of(TilingTable::T7One, config, 0, 5)
            } else if !a && b && !c {
                sublist_of(TilingTable::T7One, config, 1, 5)
            } else if !a && !b && c {
                sublist_of(TilingTable::T7One, config, 2, 5)
            } else if a && b && !c {
                sublist_of(TilingTable::T7Two, config, 0, 9)
            } else if a && !b && c {
                sublist_of(TilingTable::T7Two, config, 1, 9)
            } else if !a && b && c {
                sublist_of(TilingTable::T7Two, config, 2, 9)
            } else if interior((InteriorTest { reference: Some(at(4)), sign: at(3) })) {
                list_of(TilingTable::T7AllInner, config, 9)
            } else {
                list_of(TilingTable::T7AllOuter, config, 5)
            }
        }),
{
    lemma_entries(tables, pattern);
    let config = tables.cases.data@[2 * pattern + 1];
    assert(tables.test(TestTable::T7).entry(config as int, 0, 0) == test_entry(tables, 3, config, 0));
    assert(tables.test(TestTable::T7).entry(config as int, 1, 0) == test_entry(tables, 3, config, 1));
    assert(tables.test(TestTable::T7).entry(config as int, 2, 0) == test_entry(tables, 3, config, 2));
    assert(tables.test(TestTable::T7).entry(config as int, 3, 0) == test_entry(tables, 3, config, 3));
    assert(tables.test(TestTable::T7).entry(config as int, 4, 0) == test_entry(tables, 3, config, 4));
}

/// In cases 10 and 12 two faces decide, and the interior when neither joins. In case 10 the
/// interior is tested along the diagonals, in case 12 along an edge that the table names.
pub proof fn law_two_face_cases(
    tables: Tables,
    pattern: int,
    face: spec_fn(i8) -> bool,
    interior: spec_fn(InteriorTest) -> bool,
)
    requires
        tables.wf(),
        0 <= pattern < 256,
        tables.cases.data@[2 * pattern] > 0,
    ensures
        ({
            let case = tables.cases.data@[2 * pattern];
            let config = tables.cases.data@[2 * pattern + 1];
            let r = resolution(tables, pattern, face, interior);
            let ten = |column: int| test_entry(tables, 4, config, column);
            let twelve = |column: int| test_entry(tables, 5, config, column);
            &&& case == 10 ==> r == match (face(ten(0)), face(ten(1))) {
                (true, true) => list_of(TilingTable::T10Both, config, 4),
                (true, false) => list_of(TilingTable::T10First, config, 8),
                (false, true) => list_of(TilingTable::T10Second, config, 8),
                (false, false) => if interior(
                    (InteriorTest { reference: None, sign: ten(2) }),
                ) {
                    list_of(TilingTable::T10Apart, config, 4)
                } else {
                    list_of(TilingTable::T10Tunnel, config, 8)
                },
            }
            &&& case == 12 ==> r == match (face(twelve(0)), face(twelve(1))) {
                (true, true) => list_of(TilingTable::T12Both, config, 4),
                (true, false) => list_of(TilingTable::T12First, config, 8),
                (false, true) => list_of(TilingTable::T12Second, config, 8),
                (false, false) => if interior(
                    (InteriorTest { reference: Some(twelve(3)), sign: twelve(2) }),
                ) {
                    list_of(TilingTable::T12Apart, config, 4)
                } else {
                    list_of(TilingTable::T12Tunnel, config, 8)
                },
            }
        }),
{
    lemma_entries(tables, pattern);
    let config = tables.cases.data@[2 * pattern + 1];
    assert(tables.test(TestTable::T10).entry(config as int, 0, 0) == test_entry(tables, 4, config, 0));
    assert(tables.test(TestTable::T10).entry(config as int, 1, 0) == test_entry(tables, 4, config, 1));
    assert(tables.test(TestTable::T10).entry(config as int, 2, 0) == test_entry(tables, 4, config, 2));
    assert(tables.test(TestTable::T12).entry(config as int, 0, 0) == test_entry(tables, 5, config, 0));
    assert(tables.test(TestTable::T12).entry(config as int, 1, 0) == test_entry(tables, 5, config, 1));
    assert(tables.test(TestTable::T12).entry(config as int, 2, 0) == test_entry(tables, 5, config, 2));
    assert(tables.test(TestTable::T12).entry(config as int, 3, 0) == test_entry(tables, 5, config, 3));
}

/// `2^n` where face `n` joins.
pub open spec fn face_bit(joins: bool, bit: int) -> int {
    if joins {
        bit
    } else {
        0
    }
}

/// In case 13 the set of faces that join, read as a binary number, has a number in a table of
/// its own, which names the list; for four of the numbers the interior decides too.
pub proof fn law_case_thirteen(
    tables: Tables,
    pattern: int,
    face: spec_fn(i8) -> bool,
    interior: spec_fn(InteriorTest) -> bool,
)
    requires
        tables.wf(),
        0 <= pattern < 256,
        tables.cases.data@[2 * pattern] == 13,
    ensures
        ({
            let config = tables.cases.data@[2 * pattern + 1];
            let at = |column: int| test_entry(tables, 6, config, column);
            let bits = face_bit(face(at(0)), 1) + face_bit(face(at(1)), 2) + face_bit(
                face(at(2)),
                4,
            ) + face_bit(face(at(3)), 8) + face_bit(face(at(4)), 16) + face_bit(face(at(5)), 32);
            let sub = tables.subconfig13.data@[bits] as int;
            let lut = tables.tilings@[35];
            let edge = lut.data@[(config * lut.columns + (sub - 23)) * lut.depth];
            resolution(tables, pattern, face, interior) == if sub == 0 {
                list_of(TilingTable::T13None, config, 4)
            } else if 1 <= sub <= 6 {
                sublist_of(TilingTable::T13One, config, sub - 1, 6)
            } else if 7 <= sub <= 18 {
                sublist_of(TilingTable::T13Two, config, sub - 7, 10)
            } else if 19 <= sub <= 22 {
                sublist_of(TilingTable::T13Three, config, sub - 19, 12)
            } else if 23 <= sub <= 26 {
                if interior((InteriorTest { reference: Some(edge), sign: at(6) })) {
                    sublist_of(TilingTable::T13Inner, config, sub - 23, 6)
                } else {
                    sublist_of(TilingTable::T13Outer, config, sub - 23, 10)
                }
            } else if 27 <= sub <= 38 {
                sublist_of(TilingTable::T13Four, config, sub - 27, 10)
            } else if 39 <= sub <= 44 {
                sublist_of(TilingTable::T13Five, config, sub - 39, 6)
            } else if sub == 45 {
                list_of(TilingTable::T13All, config, 4)
            } else {
                Resolution::Unresolved
            }
        }),
{
    lemma_entries(tables, pattern);
    let config = tables.cases.data@[2 * pattern + 1];
    assert(tables.test(TestTable::T13).entry(config as int, 0, 0) == test_entry(tables, 6, config, 0));
    assert(tables.test(TestTable::T13).entry(config as int, 1, 0) == test_entry(tables, 6, config, 1));
    assert(tables.test(TestTable::T13).entry(config as int, 2, 0) == test_entry(tables, 6, config, 2));
    assert(tables.test(TestTable::T13).entry(config as int, 3, 0) == test_entry(tables, 6, config, 3));
    assert(tables.test(TestTable::T13).entry(config as int, 4, 0) == test_entry(tables, 6, config, 4));
    assert(tables.test(TestTable::T13).entry(config as int, 5, 0) == test_entry(tables, 6, config, 5));
    assert(tables.test(TestTable::T13).entry(config as int, 6, 0) == test_entry(tables, 6, config, 6));
    reveal_with_fuel(face_bits13, 7);
    let bits = face_bits13(tables, config as int, face, 6);
    assert(tables.subconfig13.columns == 1 && tables.subconfig13.depth == 1);
    assert((bits * 1 + 0) * 1 + 0 == bits);
}

/// A face test looks at the four corners of its side of the cube, in cyclic order: the sides
/// `y = 0`, `x = 1`, `y = 1`, `x = 0`, `z = 0` and `z = 1`.
pub proof fn law_face_corners<T>(values: [T; 8], face: i8)
    requires
        1 <= face <= 6 || -6 <= face <= -1,
    ensures
        ({
            let v = values@;
            let f = face_values(values, face)@;
            &&& face == 1 || face == -1 ==> f =~= seq![v[0], v[4], v[5], v[1]]
            &&& face == 2 || face == -2 ==> f =~= seq![v[1], v[5], v[6], v[2]]
            &&& face == 3 || face == -3 ==> f =~= seq![v[2], v[6], v[7], v[3]]
            &&& face == 4 || face == -4 ==> f =~= seq![v[3], v[7], v[4], v[0]]
            &&& face == 5 || face == -5 ==> f =~= seq![v[0], v[3], v[2], v[1]]
            &&& face == 6 || face == -6 ==> f =~= seq![v[4], v[7], v[6], v[5]]
        }),
{
}

/// An interior test compares the values on the four parallel edges of the cube: the reference
/// edge, where its own samples vanish, and then around the cube; without a reference edge, the
/// edges that lead up, where the diagonals say.
pub proof fn law_interior_values<T>(
    values: [T; 8],
    test: InteriorTest,
    zero: T,
    rules: InteriorRules<T>,
)
    requires
        test.reference matches Some(edge) ==> 0 <= edge <= 11,
    ensures
        ({
            let v = values@;
            let along = |s: int, e: int, b0: int, b1: int, c0: int, c1: int, d0: int, d1: int|
                {
                    let t = (rules.crossing)(v[s], v[e]);
                    Some(
                        [
                            zero,
                            (rules.blend)(v[b0], v[b1], t),
                            (rules.blend)(v[c0], v[c1], t),
                            (rules.blend)(v[d0], v[d1], t),
                        ],
                    )
                };
            let r = interior_values(values, test, zero, rules);
            match test.reference {
                None => match (rules.diagonal)(values) {
                    None => r is None,
                    Some(t) => r == Some(
                        [
                            (rules.blend)(v[0], v[4], t),
                            (rules.blend)(v[3], v[7], t),
                            (rules.blend)(v[2], v[6], t),
                            (rules.blend)(v[1], v[5], t),
                        ],
                    ),
                },
                Some(edge) => {
                    &&& edge == 0 ==> r == along(0, 1, 3, 2, 7, 6, 4, 5)
                    &&& edge == 1 ==> r == along(1, 2, 0, 3, 4, 7, 5, 6)
                    &&& edge == 2 ==> r == along(2, 3, 1, 0, 5, 4, 6, 7)
                    &&& edge == 3 ==> r == along(3, 0, 2, 1, 6, 5, 7, 4)
                    &&& edge == 4 ==> r == along(4, 5, 7, 6, 3, 2, 0, 1)
                    &&& edge == 5 ==> r == along(5, 6, 4, 7, 0, 3, 1, 2)
                    &&& edge == 6 ==> r == along(6, 7, 5, 4, 1, 0, 2, 3)
                    &&& edge == 7 ==> r == along(7, 4, 6, 5, 2, 1, 3, 0)
                    &&& edge == 8 ==> r == along(0, 4, 3, 7, 2, 6, 1, 5)
                    &&& edge == 9 ==> r == along(1, 5, 0, 4, 3, 7, 2, 6)
                    &&& edge == 10 ==> r == along(2, 6, 1, 5, 0, 4, 3, 7)
                    &&& edge == 11 ==> r == along(3, 7, 2, 6, 1, 5, 0, 4)
                },
            }
        }),
{
}

/// The interior joins when at least three of the four values are not negative, or when just one
/// opposite pair is not negative and the determinant favours it. A joined interior answers a
/// negative sign, any other a positive one.
pub proof fn law_interior_outcome<T>(
    values: [T; 8],
    test: InteriorTest,
    zero: T,
    rules: InteriorRules<T>,
    v: [T; 4],
)
    requires
        interior_values(values, test, zero, rules) == Some(v),
    ensures
        ({
            let flag = |i: int, n: int| face_bit((rules.nonnegative)(v@[i]), n);
            let n = flag(0, 1) + flag(1, 2) + flag(2, 4) + flag(3, 8);
            let small = (rules.small)(v);
            let joins = n == 7 || n == 11 || n == 13 || n == 14 || n == 15 || (n == 5 && !small)
                || (n == 10 && small);
            interior_outcome(values, test, zero, rules) == if joins {
                test.sign < 0
            } else {
                test.sign > 0
            }
        }),
{
}

/// Where the diagonals do not meet inside the cube, the sign decides.
pub proof fn law_interior_undecided<T>(
    values: [T; 8],
    test: InteriorTest,
    zero: T,
    rules: InteriorRules<T>,
)
    requires
        test.reference is None,
        (rules.diagonal)(values) is None,
    ensures
        interior_outcome(values, test, zero, rules) == (test.sign > 0),
{
}

} // verus!
