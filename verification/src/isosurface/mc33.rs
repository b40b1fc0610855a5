//! Topology-correct Marching Cubes 33.
//!
//! The sign pattern of a cube gives its case; tests on ambiguous faces and on the interior
//! decide between the triangle lists of the case. The arithmetic of the tests is the caller's.

pub mod tables;

use vstd::prelude::*;

use crate::isosurface::mc33::tables::{
    is_edge, is_face, lemma_entry_place, Tables, TestTable, TilingTable,
};
use crate::isosurface::mesher::{
    built, crafts, grounded, lemma_grounded_append, lemma_steps_append, lemma_steps_well_built,
    lemma_triangle_grounded, meshed, proper, triangle_steps, well_built, with_all_steps,
    BuildError, Craft, FaceVerdict, MeshState, Mesher, Step, VertexKey,
};
use crate::isosurface::walk::{
    grid_point_le, in_order, lemma_cubes_fail, list_anchors, visits, with_cubes,
};
use crate::outcome::{
    computes1, computes2, computes3, total1, total2, total3, total4,
};
use crate::utility::sparse_grid3::aabb::Aabb3u;
use crate::utility::sparse_grid3::grid::accessor::GridAccessor;
use crate::utility::sparse_grid3::grid::{inside, SparseGrid3};
use crate::utility::sparse_grid3::value::Present;
use crate::vec3::UVec3;

verus! {

/// Corner `i` of the cube anchored at `anchor`, in cyclic order on each z plane.
pub open spec fn cube_corner(anchor: UVec3, i: int) -> UVec3 {
    UVec3 {
        x: (anchor.x + if i % 4 == 1 || i % 4 == 2 {
            1int
        } else {
            0
        }) as u32,
        y: (anchor.y + if i % 4 >= 2 {
            1int
        } else {
            0
        }) as u32,
        z: (anchor.z + i / 4) as u32,
    }
}

/// The corners that edge `e` joins: four edges around the lower plane, four around the upper
/// one, and four between the planes.
pub open spec fn edge_corners(e: int) -> (int, int) {
    if e < 4 {
        (e, (e + 1) % 4)
    } else if e < 8 {
        (e, 4 + (e + 1) % 4)
    } else {
        (e - 8, e - 4)
    }
}

/// The key of the vertex on edge `e`, or inside the cube for `e == 12`.
pub open spec fn tiling_key(anchor: UVec3, e: int) -> VertexKey {
    if e == 12 {
        VertexKey::Interior(anchor)
    } else {
        let (i, j) = edge_corners(e);
        let (start, end) = in_order(cube_corner(anchor, i), cube_corner(anchor, j));
        VertexKey::Edge(start, end)
    }
}

/// A test on the interior of a cube: along the reference edge, or, without one, along the
/// diagonals; and the sign that the verdict takes.
#[derive(Debug, Clone, Copy, PartialEq, Eq, Structural)]
pub struct InteriorTest {
    pub reference: Option<i8>,
    pub sign: i8,
}

/// One triangle list of a table.
#[derive(Debug, Clone, Copy, PartialEq, Eq, Structural)]
pub struct Tiling {
    pub table: TilingTable,
    pub config: usize,
    pub subconfig: Option<usize>,
    pub triangle_count: usize,
}

/// The only list of a row.
pub open spec fn plain(table: TilingTable, config: int) -> Tiling {
    Tiling {
        table,
        config: config as usize,
        subconfig: None,
        triangle_count: table.triangles() as usize,
    }
}

/// List `sub` of a row.
pub open spec fn variant(table: TilingTable, config: int, sub: int) -> Tiling {
    Tiling {
        table,
        config: config as usize,
        subconfig: Some(sub as usize),
        triangle_count: table.triangles() as usize,
    }
}

impl Tiling {
    /// The list exists in the tables.
    pub open spec fn wf(self, tables: Tables) -> bool {
        &&& self.config < tables.tiling(self.table).rows
        &&& self.triangle_count == self.table.triangles()
        &&& match self.subconfig {
            None => self.table.variants() == 0,
            Some(sub) => sub < self.table.variants(),
        }
    }

    /// Edge number in place `index` of the list.
    pub open spec fn edge_at(self, tables: Tables, index: int) -> int {
        match self.subconfig {
            None => tables.tiling(self.table).entry(self.config as int, index, 0) as int,
            Some(sub) => tables.tiling(self.table).entry(
                self.config as int,
                sub as int,
                index,
            ) as int,
        }
    }

    /// The only list of a row.
    pub fn direct(table: TilingTable, config: usize, triangle_count: usize) -> (t: Self)
        ensures
            t == (Tiling { table, config, subconfig: None, triangle_count }),
    {
        Tiling { table, config, subconfig: None, triangle_count }
    }

    /// List `subconfig` of a row.
    pub fn nested(
        table: TilingTable,
        config: usize,
        subconfig: usize,
        triangle_count: usize,
    ) -> (t: Self)
        ensures
            t == (Tiling { table, config, subconfig: Some(subconfig), triangle_count }),
    {
        Tiling { table, config, subconfig: Some(subconfig), triangle_count }
    }

    /// Edge number in place `index` of the list: an edge, or 12 for the interior.
    pub fn edge(self, tables: &Tables, index: usize) -> (e: u8)
        requires
            tables.wf(),
            self.wf(*tables),
            index < 3 * self.triangle_count,
        ensures
            e == self.edge_at(*tables, index as int),
            e <= 12,
    {
        assert(tables.tiling_ok(self.table));
        let lut = &tables.tilings[self.table.number()];
        match self.subconfig {
            None => {
                proof {
                    lemma_entry_place(
                        self.config as int,
                        index as int,
                        0,
                        lut.rows as int,
                        lut.columns as int,
                        1,
                    );
                    assert(0 <= lut.entry(self.config as int, index as int, 0) <= 12);
                }
                lut.get2(self.config, index) as u8
            },
            Some(sub) => {
                proof {
                    lemma_entry_place(
                        self.config as int,
                        sub as int,
                        index as int,
                        lut.rows as int,
                        lut.columns as int,
                        lut.depth as int,
                    );
                    assert(0 <= lut.entry(self.config as int, sub as int, index as int) <= 12);
                }
                lut.get3(self.config, sub, index) as u8
            },
        }
    }
}

/// Number of a set of flags: flag `i` counts `2^i`.
pub open spec fn bits3(a: bool, b: bool, c: bool) -> int {
    (if a {
        1int
    } else {
        0
    }) + (if b {
        2int
    } else {
        0
    }) + (if c {
        4int
    } else {
        0
    })
}

/// Case 7: three faces are tested. Which of them join decides the list; when all do, the
/// interior decides.
pub open spec fn resolve_case7(
    t: Tables,
    config: int,
    face: spec_fn(i8) -> bool,
    interior: spec_fn(InteriorTest) -> bool,
) -> Tiling {
    let test = t.test(TestTable::T7);
    let bits = bits3(
        face(test.entry(config, 0, 0)),
        face(test.entry(config, 1, 0)),
        face(test.entry(config, 2, 0)),
    );
    if bits == 0 {
        plain(TilingTable::T7None, config)
    } else if bits == 1 {
        variant(TilingTable::T7One, config, 0)
    } else if bits == 2 {
        variant(TilingTable::T7One, config, 1)
    } else if bits == 4 {
        variant(TilingTable::T7One, config, 2)
    } else if bits == 3 {
        variant(TilingTable::T7Two, config, 0)
    } else if bits == 5 {
        variant(TilingTable::T7Two, config, 1)
    } else if bits == 6 {
        variant(TilingTable::T7Two, config, 2)
    } else if interior(
        InteriorTest {
            reference: Some(test.entry(config, 4, 0)),
            sign: test.entry(config, 3, 0),
        },
    ) {
        plain(TilingTable::T7AllInner, config)
    } else {
        plain(TilingTable::T7AllOuter, config)
    }
}

/// Number of the set of faces of case 13 that join, among the first `n`.
pub open spec fn face_bits13(
    t: Tables,
    config: int,
    face: spec_fn(i8) -> bool,
    n: nat,
) -> int
    decreases n,
{
    if n == 0 {
        0
    } else {
        face_bits13(t, config, face, (n - 1) as nat) + if face(
            t.test(TestTable::T13).entry(config, n - 1, 0),
        ) {
            power_of_two(n - 1)
        } else {
            0
        }
    }
}

/// `2^n` for the six faces.
pub open spec fn power_of_two(n: int) -> int {
    if n <= 0 {
        1
    } else if n == 1 {
        2
    } else if n == 2 {
        4
    } else if n == 3 {
        8
    } else if n == 4 {
        16
    } else {
        32
    }
}

/// Case 13: all six faces are tested, and a table says what their set means.
pub open spec fn resolve_case13_of(
    t: Tables,
    config: int,
    face: spec_fn(i8) -> bool,
    interior: spec_fn(InteriorTest) -> bool,
) -> Option<Tiling> {
    let sub = t.subconfig13.entry(face_bits13(t, config, face, 6), 0, 0) as int;
    if sub == 0 {
        Some(plain(TilingTable::T13None, config))
    } else if 1 <= sub <= 6 {
        Some(variant(TilingTable::T13One, config, sub - 1))
    } else if 7 <= sub <= 18 {
        Some(variant(TilingTable::T13Two, config, sub - 7))
    } else if 19 <= sub <= 22 {
        Some(variant(TilingTable::T13Three, config, sub - 19))
    } else if 23 <= sub <= 26 {
        let inner = interior(
            InteriorTest {
                reference: Some(t.tiling(TilingTable::T13Inner).entry(config, sub - 23, 0)),
                sign: t.test(TestTable::T13).entry(config, 6, 0),
            },
        );
        if inner {
            Some(variant(TilingTable::T13Inner, config, sub - 23))
        } else {
            Some(variant(TilingTable::T13Outer, config, sub - 23))
        }
    } else if 27 <= sub <= 38 {
        Some(variant(TilingTable::T13Four, config, sub - 27))
    } else if 39 <= sub <= 44 {
        Some(variant(TilingTable::T13Five, config, sub - 39))
    } else if sub == 45 {
        Some(plain(TilingTable::T13All, config))
    } else {
        None
    }
}

/// The list that a case resolves to; `None` when the tables do not say.
pub open spec fn resolve_case(
    t: Tables,
    case: int,
    config: int,
    face: spec_fn(i8) -> bool,
    interior: spec_fn(InteriorTest) -> bool,
) -> Option<Tiling> {
    let test6 = t.test(TestTable::T6);
    let test10 = t.test(TestTable::T10);
    let test12 = t.test(TestTable::T12);
    if case == 1 {
        Some(plain(TilingTable::T1, config))
    } else if case == 2 {
        Some(plain(TilingTable::T2, config))
    } else if case == 3 {
        if face(t.test(TestTable::T3).entry(config, 0, 0)) {
            Some(plain(TilingTable::T3Joined, config))
        } else {
            Some(plain(TilingTable::T3Split, config))
        }
    } else if case == 4 {
        if interior(
            InteriorTest {
                reference: None,
                sign: t.test(TestTable::T4).entry(config, 0, 0),
            },
        ) {
            Some(plain(TilingTable::T4Apart, config))
        } else {
            Some(plain(TilingTable::T4Tunnel, config))
        }
    } else if case == 5 {
        Some(plain(TilingTable::T5, config))
    } else if case == 6 {
        if face(test6.entry(config, 0, 0)) {
            Some(plain(TilingTable::T6Joined, config))
        } else if interior(
            InteriorTest {
                reference: Some(test6.entry(config, 2, 0)),
                sign: test6.entry(config, 1, 0),
            },
        ) {
            Some(plain(TilingTable::T6Apart, config))
        } else {
            Some(plain(TilingTable::T6Tunnel, config))
        }
    } else if case == 7 {
        Some(resolve_case7(t, config, face, interior))
    } else if case == 8 {
        Some(plain(TilingTable::T8, config))
    } else if case == 9 {
        Some(plain(TilingTable::T9, config))
    } else if case == 10 {
        let first = face(test10.entry(config, 0, 0));
        let second = face(test10.entry(config, 1, 0));
        if first && second {
            Some(plain(TilingTable::T10Both, config))
        } else if first {
            Some(plain(TilingTable::T10First, config))
        } else if second {
            Some(plain(TilingTable::T10Second, config))
        } else if interior(
            InteriorTest { reference: None, sign: test10.entry(config, 2, 0) },
        ) {
            Some(plain(TilingTable::T10Apart, config))
        } else {
            Some(plain(TilingTable::T10Tunnel, config))
        }
    } else if case == 11 {
        Some(plain(TilingTable::T11, config))
    } else if case == 12 {
        let first = face(test12.entry(config, 0, 0));
        let second = face(test12.entry(config, 1, 0));
        if first && second {
            Some(plain(TilingTable::T12Both, config))
        } else if first {
            Some(plain(TilingTable::T12First, config))
        } else if second {
            Some(plain(TilingTable::T12Second, config))
        } else if interior(
            InteriorTest {
                reference: Some(test12.entry(config, 3, 0)),
                sign: test12.entry(config, 2, 0),
            },
        ) {
            Some(plain(TilingTable::T12Apart, config))
        } else {
            Some(plain(TilingTable::T12Tunnel, config))
        }
    } else if case == 13 {
        resolve_case13_of(t, config, face, interior)
    } else {
        Some(plain(TilingTable::T14, config))
    }
}

/// What a sign pattern resolves to: no triangles, a list, or nothing that the tables know.
#[derive(Debug, Clone, Copy, PartialEq, Eq, Structural)]
pub enum Resolution {
    Empty,
    Found(Tiling),
    Unresolved,
}

/// What sign pattern `pattern` resolves to.
pub open spec fn resolution(
    t: Tables,
    pattern: int,
    face: spec_fn(i8) -> bool,
    interior: spec_fn(InteriorTest) -> bool,
) -> Resolution {
    let case = t.cases.entry(pattern, 0, 0) as int;
    let config = t.cases.entry(pattern, 1, 0) as int;
    if case <= 0 {
        Resolution::Empty
    } else {
        match resolve_case(t, case, config, face, interior) {
            Some(tiling) => Resolution::Found(tiling),
            None => Resolution::Unresolved,
        }
    }
}

/// A list belongs to row `config` of a table of the case, and is one that the table has.
pub open spec fn listed(tiling: Tiling, case: int, config: int) -> bool {
    &&& tiling.table.cube_case() == case
    &&& tiling.config == config
    &&& tiling.triangle_count == tiling.table.triangles()
    &&& match tiling.subconfig {
        None => tiling.table.variants() == 0,
        Some(sub) => sub < tiling.table.variants(),
    }
}

/// Case 7 resolves to a list of its own.
proof fn lemma_case7_listed(
    t: Tables,
    config: int,
    face: spec_fn(i8) -> bool,
    interior: spec_fn(InteriorTest) -> bool,
)
    requires
        0 <= config <= 127,
    ensures
        listed(resolve_case7(t, config, face, interior), 7, config),
{
}

/// Case 13 resolves to a list of its own, unless the tables give the set of faces no meaning.
proof fn lemma_case13_listed(
    t: Tables,
    config: int,
    face: spec_fn(i8) -> bool,
    interior: spec_fn(InteriorTest) -> bool,
)
    requires
        0 <= config <= 127,
    ensures
        match resolve_case13_of(t, config, face, interior) {
            Some(tiling) => listed(tiling, 13, config),
            None => !(0 <= t.subconfig13.entry(face_bits13(t, config, face, 6), 0, 0) <= 45),
        },
{
}

/// Every other case resolves to a list of its own.
proof fn lemma_case_listed(
    t: Tables,
    case: int,
    config: int,
    face: spec_fn(i8) -> bool,
    interior: spec_fn(InteriorTest) -> bool,
)
    requires
        1 <= case <= 14,
        case != 13,
        0 <= config <= 127,
    ensures
        resolve_case(t, case, config, face, interior) matches Some(tiling) && listed(
            tiling,
            case,
            config,
        ),
{
    if case == 7 {
        lemma_case7_listed(t, config, face, interior);
    }
}

/// The entries of a list are cube edges and the interior.
pub proof fn lemma_listed_edges(t: Tables, tiling: Tiling)
    requires
        t.wf(),
        tiling.wf(t),
    ensures
        forall|i: int|
            0 <= i < 3 * tiling.triangle_count ==> 0 <= #[trigger] tiling.edge_at(t, i) <= 12,
{
    assert(t.tiling_ok(tiling.table));
    let lut = t.tiling(tiling.table);
    assert forall|i: int| 0 <= i < 3 * tiling.triangle_count implies 0 <= #[trigger] tiling.edge_at(
        t,
        i,
    ) <= 12 by {
        match tiling.subconfig {
            None => lemma_entry_place(
                tiling.config as int,
                i,
                0,
                lut.rows as int,
                lut.columns as int,
                1,
            ),
            Some(sub) => lemma_entry_place(
                tiling.config as int,
                sub as int,
                i,
                lut.rows as int,
                lut.columns as int,
                lut.depth as int,
            ),
        }
    }
}

/// Every sign pattern has no triangles, or a list of cube edges and the interior. The one
/// exception is a set of faces of case 13 to which the tables give no meaning.
pub proof fn law_patterns_resolve(
    t: Tables,
    pattern: int,
    face: spec_fn(i8) -> bool,
    interior: spec_fn(InteriorTest) -> bool,
)
    requires
        t.wf(),
        0 <= pattern < 256,
    ensures
        match resolution(t, pattern, face, interior) {
            Resolution::Empty => t.cases.entry(pattern, 0, 0) <= 0,
            Resolution::Found(tiling) => tiling.wf(t) && forall|i: int|
                0 <= i < 3 * tiling.triangle_count ==> 0 <= #[trigger] tiling.edge_at(t, i) <= 12,
            Resolution::Unresolved => t.cases.entry(pattern, 0, 0) == 13 && !(0
                <= t.subconfig13.entry(
                face_bits13(t, t.cases.entry(pattern, 1, 0) as int, face, 6),
                0,
                0,
            ) <= 45),
        },
{
    assert(t.pattern_ok(pattern));
    let case = t.cases.entry(pattern, 0, 0) as int;
    let config = t.cases.entry(pattern, 1, 0) as int;
    if case > 0 {
        if case == 13 {
            lemma_case13_listed(t, config, face, interior);
        } else {
            lemma_case_listed(t, case, config, face, interior);
        }
        if let Some(tiling) = resolve_case(t, case, config, face, interior) {
            assert(config < t.tiling(tiling.table).rows);
            lemma_listed_edges(t, tiling);
        }
    }
}

/// Which faces join, for the samples of a cube.
pub type FaceTest<T> = spec_fn([T; 8], i8) -> bool;

/// Which interiors join, for the samples of a cube.
pub type InsideTest<T> = spec_fn([T; 8], InteriorTest) -> bool;

/// Outcomes of a face test on given samples.
pub open spec fn faces_by<T>(test: FaceTest<T>, values: [T; 8]) -> spec_fn(i8) -> bool {
    |face: i8| test(values, face)
}

/// Outcomes of an interior test on given samples.
pub open spec fn interiors_by<T>(test: InsideTest<T>, values: [T; 8]) -> spec_fn(
    InteriorTest,
) -> bool {
    |interior: InteriorTest| test(values, interior)
}

/// Resolves case 13.
fn resolve_case13<
    T: Copy,
    F: Fn([T; 8], i8) -> bool,
    G: Fn([T; 8], InteriorTest) -> bool,
>(values: [T; 8], config: usize, tables: &Tables, face_test: &F, interior_test: &G) -> (r: Option<
    Tiling,
>)
    requires
        tables.wf(),
        total2(*face_test),
        total2(*interior_test),
        config < tables.test(TestTable::T13).rows,
        forall|t: TilingTable|
            t.cube_case() == 13 ==> config < (#[trigger] tables.tiling(t)).rows,
    ensures
        forall|f: FaceTest<T>, g: InsideTest<T>|
            #![trigger computes2(*face_test, f), computes2(*interior_test, g)]
            computes2(*face_test, f) && computes2(*interior_test, g) ==> r == resolve_case13_of(
                *tables,
                config as int,
                faces_by(f, values),
                interiors_by(g, values),
            ),
        r matches Some(tiling) ==> tiling.wf(*tables) && tiling.table.cube_case() == 13,
{
    proof {
        assert(tables.test(TestTable::T13).shaped(7, 1));
        assert(tables.tiling_ok(TilingTable::T13Inner));
    }
    let lut = &tables.tests[TestTable::T13.number()];
    let mut bits: usize = 0;
    let mut weight: usize = 1;
    let mut column: usize = 0;
    while column < 6
        invariant
            column <= 6,
            tables.wf(),
            *lut == tables.test(TestTable::T13),
            lut.shaped(7, 1),
            config < lut.rows,
            total2(*face_test),
            weight == if column == 6 {
                64
            } else {
                power_of_two(column as int)
            },
            forall|f: FaceTest<T>| #[trigger]
                computes2(*face_test, f) ==> bits == face_bits13(
                    *tables,
                    config as int,
                    faces_by(f, values),
                    column as nat,
                ),
            bits < weight,
        decreases 6 - column,
    {
        if face_test(values, lut.get2(config, column)) {
            bits = bits + weight;
        }
        weight = weight * 2;
        column += 1;
    }
    let sub = tables.subconfig13.get1(bits);
    if sub == 0 {
        Some(Tiling::direct(TilingTable::T13None, config, 4))
    } else if 1 <= sub && sub <= 6 {
        Some(Tiling::nested(TilingTable::T13One, config, (sub - 1) as usize, 6))
    } else if 7 <= sub && sub <= 18 {
        Some(Tiling::nested(TilingTable::T13Two, config, (sub - 7) as usize, 10))
    } else if 19 <= sub && sub <= 22 {
        Some(Tiling::nested(TilingTable::T13Three, config, (sub - 19) as usize, 12))
    } else if 23 <= sub && sub <= 26 {
        let nested = (sub - 23) as usize;
        let inner = &tables.tilings[TilingTable::T13Inner.number()];
        assert(config < tables.tiling(TilingTable::T13Inner).rows);
        let test = InteriorTest {
            reference: Some(inner.get3(config, nested, 0)),
            sign: lut.get2(config, 6),
        };
        if interior_test(values, test) {
            Some(Tiling::nested(TilingTable::T13Inner, config, nested, 6))
        } else {
            Some(Tiling::nested(TilingTable::T13Outer, config, nested, 10))
        }
    } else if 27 <= sub && sub <= 38 {
        Some(Tiling::nested(TilingTable::T13Four, config, (sub - 27) as usize, 10))
    } else if 39 <= sub && sub <= 44 {
        Some(Tiling::nested(TilingTable::T13Five, config, (sub - 39) as usize, 6))
    } else if sub == 45 {
        Some(Tiling::direct(TilingTable::T13All, config, 4))
    } else {
        None
    }
}

/// Resolves a sign pattern to a triangle list.
pub fn resolve_tiling<
    T: Copy,
    F: Fn([T; 8], i8) -> bool,
    G: Fn([T; 8], InteriorTest) -> bool,
>(
    case_index: usize,
    values: [T; 8],
    tables: &Tables,
    face_test: &F,
    interior_test: &G,
) -> (r: Resolution)
    requires
        tables.wf(),
        case_index < 256,
        total2(*face_test),
        total2(*interior_test),
    ensures
        forall|f: FaceTest<T>, g: InsideTest<T>|
            #![trigger computes2(*face_test, f), computes2(*interior_test, g)]
            computes2(*face_test, f) && computes2(*interior_test, g) ==> r == resolution(
                *tables,
                case_index as int,
                faces_by(f, values),
                interiors_by(g, values),
            ),
        r matches Resolution::Found(tiling) ==> tiling.wf(*tables) && forall|i: int|
            0 <= i < 3 * tiling.triangle_count ==> 0 <= #[trigger] tiling.edge_at(*tables, i) <= 12,
{
    let case = tables.cases.get2(case_index, 0);
    if case <= 0 {
        return Resolution::Empty;
    }
    let found = tables.cases.get2(case_index, 1);
    assert(tables.pattern_ok(case_index as int));
    let config = found as usize;
    proof {
        assert(tables.test(TestTable::T3).shaped(1, 1));
        assert(tables.test(TestTable::T4).shaped(1, 1));
        assert(tables.test(TestTable::T6).shaped(3, 1));
        assert(tables.test(TestTable::T7).shaped(5, 1));
        assert(tables.test(TestTable::T10).shaped(3, 1));
        assert(tables.test(TestTable::T12).shaped(4, 1));
    }
    let tiling = if case == 1 {
        Tiling::direct(TilingTable::T1, config, 1)
    } else if case == 2 {
        Tiling::direct(TilingTable::T2, config, 2)
    } else if case == 3 {
        assert(config < tables.test(TestTable::T3).rows);
        if face_test(values, tables.tests[0].get1(config)) {
            Tiling::direct(TilingTable::T3Joined, config, 4)
        } else {
            Tiling::direct(TilingTable::T3Split, config, 2)
        }
    } else if case == 4 {
        assert(config < tables.test(TestTable::T4).rows);
        let test = InteriorTest { reference: None, sign: tables.tests[1].get1(config) };
        if interior_test(values, test) {
            Tiling::direct(TilingTable::T4Apart, config, 2)
        } else {
            Tiling::direct(TilingTable::T4Tunnel, config, 6)
        }
    } else if case == 5 {
        Tiling::direct(TilingTable::T5, config, 3)
    } else if case == 6 {
        assert(config < tables.test(TestTable::T6).rows);
        let lut = &tables.tests[2];
        let test = InteriorTest {
            reference: Some(lut.get2(config, 2)),
            sign: lut.get2(config, 1),
        };
        if face_test(values, lut.get2(config, 0)) {
            Tiling::direct(TilingTable::T6Joined, config, 5)
        } else if interior_test(values, test) {
            Tiling::direct(TilingTable::T6Apart, config, 3)
        } else {
            Tiling::direct(TilingTable::T6Tunnel, config, 9)
        }
    } else if case == 7 {
        assert(config < tables.test(TestTable::T7).rows);
        let lut = &tables.tests[3];
        let a = face_test(values, lut.get2(config, 0));
        let b = face_test(values, lut.get2(config, 1));
        let c = face_test(values, lut.get2(config, 2));
        let test = InteriorTest {
            reference: Some(lut.get2(config, 4)),
            sign: lut.get2(config, 3),
        };
        match (a, b, c) {
            (false, false, false) => Tiling::direct(TilingTable::T7None, config, 3),
            (true, false, false) => Tiling::nested(TilingTable::T7One, config, 0, 5),
            (false, true, false) => Tiling::nested(TilingTable::T7One, config, 1, 5),
            (false, false, true) => Tiling::nested(TilingTable::T7One, config, 2, 5),
            (true, true, false) => Tiling::nested(TilingTable::T7Two, config, 0, 9),
            (true, false, true) => Tiling::nested(TilingTable::T7Two, config, 1, 9),
            (false, true, true) => Tiling::nested(TilingTable::T7Two, config, 2, 9),
            (true, true, true) => if interior_test(values, test) {
                Tiling::direct(TilingTable::T7AllInner, config, 9)
            } else {
                Tiling::direct(TilingTable::T7AllOuter, config, 5)
            },
        }
    } else if case == 8 {
        Tiling::direct(TilingTable::T8, config, 2)
    } else if case == 9 {
        Tiling::direct(TilingTable::T9, config, 4)
    } else if case == 10 {
        assert(config < tables.test(TestTable::T10).rows);
        let lut = &tables.tests[4];
        let first = face_test(values, lut.get2(config, 0));
        let second = face_test(values, lut.get2(config, 1));
        let test = InteriorTest { reference: None, sign: lut.get2(config, 2) };
        if first && second {
            Tiling::direct(TilingTable::T10Both, config, 4)
        } else if first {
            Tiling::direct(TilingTable::T10First, config, 8)
        } else if second {
            Tiling::direct(TilingTable::T10Second, config, 8)
        } else if interior_test(values, test) {
            Tiling::direct(TilingTable::T10Apart, config, 4)
        } else {
            Tiling::direct(TilingTable::T10Tunnel, config, 8)
        }
    } else if case == 11 {
        Tiling::direct(TilingTable::T11, config, 4)
    } else if case == 12 {
        assert(config < tables.test(TestTable::T12).rows);
        let lut = &tables.tests[5];
        let first = face_test(values, lut.get2(config, 0));
        let second = face_test(values, lut.get2(config, 1));
        let test = InteriorTest {
            reference: Some(lut.get2(config, 3)),
            sign: lut.get2(config, 2),
        };
        if first && second {
            Tiling::direct(TilingTable::T12Both, config, 4)
        } else if first {
            Tiling::direct(TilingTable::T12First, config, 8)
        } else if second {
            Tiling::direct(TilingTable::T12Second, config, 8)
        } else if interior_test(values, test) {
            Tiling::direct(TilingTable::T12Apart, config, 4)
        } else {
            Tiling::direct(TilingTable::T12Tunnel, config, 8)
        }
    } else if case == 13 {
        assert(config < tables.test(TestTable::T13).rows);
        match resolve_case13(values, config, tables, face_test, interior_test) {
            Some(tiling) => tiling,
            None => return Resolution::Unresolved,
        }
    } else {
        Tiling::direct(TilingTable::T14, config, 4)
    };
    proof {
        assert(tiling.table.cube_case() == case);
        assert(config < tables.tiling(tiling.table).rows);
        assert forall|i: int| 0 <= i < 3 * tiling.triangle_count implies 0
            <= #[trigger] tiling.edge_at(*tables, i) <= 12 by {
            lemma_edge_range(*tables, tiling, i);
        }
    }
    Resolution::Found(tiling)
}

/// The entries of a list are edges or the interior.
proof fn lemma_edge_range(tables: Tables, tiling: Tiling, i: int)
    requires
        tables.wf(),
        tiling.wf(tables),
        0 <= i < 3 * tiling.triangle_count,
    ensures
        0 <= tiling.edge_at(tables, i) <= 12,
{
    assert(tables.tiling_ok(tiling.table));
    let lut = tables.tiling(tiling.table);
    match tiling.subconfig {
        None => {
            lemma_entry_place(tiling.config as int, i, 0, lut.rows as int, lut.columns as int, 1);
        },
        Some(sub) => {
            lemma_entry_place(
                tiling.config as int,
                sub as int,
                i,
                lut.rows as int,
                lut.columns as int,
                lut.depth as int,
            );
        },
    }
}

/// The corners of a face in cyclic order. The sign of the face number does not matter.
pub open spec fn face_cycle(face: i8) -> Seq<int> {
    let n = if face < 0 {
        -face
    } else {
        face as int
    };
    if n == 1 {
        seq![0, 4, 5, 1]
    } else if n == 2 {
        seq![1, 5, 6, 2]
    } else if n == 3 {
        seq![2, 6, 7, 3]
    } else if n == 4 {
        seq![3, 7, 4, 0]
    } else if n == 5 {
        seq![0, 3, 2, 1]
    } else {
        seq![4, 7, 6, 5]
    }
}

/// The corners of a face in cyclic order.
pub fn face_corners(face: i8) -> (r: [usize; 4])
    requires
        is_face(face),
    ensures
        forall|i: int| 0 <= i < 4 ==> #[trigger] r@[i] == face_cycle(face)[i] && r@[i] < 8,
{
    let n: i8 = if face < 0 {
        -face
    } else {
        face
    };
    match n {
        1 => [0, 4, 5, 1],
        2 => [1, 5, 6, 2],
        3 => [2, 6, 7, 3],
        4 => [3, 7, 4, 0],
        5 => [0, 3, 2, 1],
        _ => [4, 7, 6, 5],
    }
}

/// The samples at the corners of a face, in cyclic order.
pub open spec fn face_values<T>(values: [T; 8], face: i8) -> [T; 4] {
    let c = face_cycle(face);
    [values@[c[0]], values@[c[1]], values@[c[2]], values@[c[3]]]
}

/// Tells whether a face joins. `tied` tells that the diagonals of the face balance; then the
/// sign of the face number decides. Otherwise `agrees` compares the sign with the samples.
pub fn test_face<T: Copy, B: Fn([T; 4]) -> bool, A: Fn(i8, [T; 4]) -> bool>(
    values: [T; 8],
    face: i8,
    tied: &B,
    agrees: &A,
) -> (r: bool)
    requires
        is_face(face),
        total1(*tied),
        total2(*agrees),
    ensures
        forall|t: spec_fn([T; 4]) -> bool, a: spec_fn(i8, [T; 4]) -> bool|
            #![trigger computes1(*tied, t), computes2(*agrees, a)]
            computes1(*tied, t) && computes2(*agrees, a) ==> r == if t(face_values(values, face)) {
                face >= 0
            } else {
                a(face, face_values(values, face))
            },
{
    let c = face_corners(face);
    assert(c@[0] == face_cycle(face)[0] && c@[1] == face_cycle(face)[1] && c@[2] == face_cycle(
        face,
    )[2] && c@[3] == face_cycle(face)[3]);
    let corners = [values[c[0]], values[c[1]], values[c[2]], values[c[3]]];
    assert(corners =~= face_values(values, face));
    if tied(corners) {
        face >= 0
    } else {
        agrees(face, corners)
    }
}

/// A reference edge and the three edges parallel to it, in cyclic order, each from its lower to
/// its upper end as the reference edge runs.
pub open spec fn parallel_edges(edge: i8) -> Seq<int> {
    if edge == 0 {
        seq![0, 1, 3, 2, 7, 6, 4, 5]
    } else if edge == 1 {
        seq![1, 2, 0, 3, 4, 7, 5, 6]
    } else if edge == 2 {
        seq![2, 3, 1, 0, 5, 4, 6, 7]
    } else if edge == 3 {
        seq![3, 0, 2, 1, 6, 5, 7, 4]
    } else if edge == 4 {
        seq![4, 5, 7, 6, 3, 2, 0, 1]
    } else if edge == 5 {
        seq![5, 6, 4, 7, 0, 3, 1, 2]
    } else if edge == 6 {
        seq![6, 7, 5, 4, 1, 0, 2, 3]
    } else if edge == 7 {
        seq![7, 4, 6, 5, 2, 1, 3, 0]
    } else if edge == 8 {
        seq![0, 4, 3, 7, 2, 6, 1, 5]
    } else if edge == 9 {
        seq![1, 5, 0, 4, 3, 7, 2, 6]
    } else if edge == 10 {
        seq![2, 6, 1, 5, 0, 4, 3, 7]
    } else {
        seq![3, 7, 2, 6, 1, 5, 0, 4]
    }
}

/// A reference edge and the three edges parallel to it, in cyclic order.
pub fn reference_corners(edge: i8) -> (r: [usize; 8])
    requires
        is_edge(edge),
    ensures
        forall|i: int| 0 <= i < 8 ==> #[trigger] r@[i] == parallel_edges(edge)[i] && r@[i] < 8,
{
    match edge {
        0 => [0, 1, 3, 2, 7, 6, 4, 5],
        1 => [1, 2, 0, 3, 4, 7, 5, 6],
        2 => [2, 3, 1, 0, 5, 4, 6, 7],
        3 => [3, 0, 2, 1, 6, 5, 7, 4],
        4 => [4, 5, 7, 6, 3, 2, 0, 1],
        5 => [5, 6, 4, 7, 0, 3, 1, 2],
        6 => [6, 7, 5, 4, 1, 0, 2, 3],
        7 => [7, 4, 6, 5, 2, 1, 3, 0],
        8 => [0, 4, 3, 7, 2, 6, 1, 5],
        9 => [1, 5, 0, 4, 3, 7, 2, 6],
        10 => [2, 6, 1, 5, 0, 4, 3, 7],
        _ => [3, 7, 2, 6, 1, 5, 0, 4],
    }
}

/// The offset of a corner.
pub open spec fn corner_offset(i: int) -> (int, int, int) {
    (
        if i % 4 == 1 || i % 4 == 2 {
            1
        } else {
            0
        },
        if i % 4 >= 2 {
            1
        } else {
            0
        },
        i / 4,
    )
}

/// Corners `i` and `j` differ along one axis only.
pub open spec fn adjacent(i: int, j: int) -> bool {
    let (a, b) = (corner_offset(i), corner_offset(j));
    (if a.0 != b.0 {
        1int
    } else {
        0
    }) + (if a.1 != b.1 {
        1int
    } else {
        0
    }) + (if a.2 != b.2 {
        1int
    } else {
        0
    }) == 1
}

/// The four edges that an interior test walks along are parallel, and neighbours in the cycle
/// lie on a common face.
pub proof fn law_parallel_edges(edge: i8, k: int)
    requires
        is_edge(edge),
        0 <= k < 4,
    ensures
        ({
            let c = parallel_edges(edge);
            let n = (k + 1) % 4;
            let (s, e) = (corner_offset(c[2 * k]), corner_offset(c[2 * k + 1]));
            let (s0, e0) = (corner_offset(c[0]), corner_offset(c[1]));
            &&& (c[0], c[1]) == edge_corners(edge as int)
            &&& adjacent(c[2 * k], c[2 * k + 1])
            &&& (e.0 - s.0, e.1 - s.1, e.2 - s.2) == (e0.0 - s0.0, e0.1 - s0.1, e0.2 - s0.2)
            &&& adjacent(c[2 * k], c[2 * n])
            &&& adjacent(c[2 * k + 1], c[2 * n + 1])
        }),
{
    let c = parallel_edges(edge);
    assert(k == 0 || k == 1 || k == 2 || k == 3);
    if edge == 0 {
    } else if edge == 1 {
    } else if edge == 2 {
    } else if edge == 3 {
    } else if edge == 4 {
    } else if edge == 5 {
    } else if edge == 6 {
    } else if edge == 7 {
    } else if edge == 8 {
    } else if edge == 9 {
    } else if edge == 10 {
    } else {
    }
}

/// One when the flag is set.
pub open spec fn one_if(flag: bool) -> int {
    if flag {
        1
    } else {
        0
    }
}

/// The interior joins: at least three of the four values are not negative, or exactly one
/// opposite pair is not negative and the determinant says so.
pub open spec fn interior_joins(a: bool, b: bool, c: bool, d: bool, small: bool) -> bool {
    ||| one_if(a) + one_if(b) + one_if(c) + one_if(d) >= 3
    ||| a && c && !b && !d && !small
    ||| b && d && !a && !c && small
}

/// The verdict of an interior test. The flags tell which of the four interpolated values are
/// not negative; `small` tells whether the determinant `ac - bd` lies below the tolerance.
pub fn interior_verdict(a: bool, b: bool, c: bool, d: bool, small: bool, sign: i8) -> (r: bool)
    ensures
        r == if interior_joins(a, b, c, d, small) {
            sign < 0
        } else {
            sign > 0
        },
{
    match (a, b, c, d) {
        (true, false, true, false) => if small {
            sign > 0
        } else {
            sign < 0
        },
        (false, true, false, true) => if small {
            sign < 0
        } else {
            sign > 0
        },
        (true, true, true, _) => sign < 0,
        (true, true, false, true) => sign < 0,
        (true, false, true, true) => sign < 0,
        (false, true, true, true) => sign < 0,
        _ => sign > 0,
    }
}

/// The four values that an interior test compares; `None` when the diagonals do not meet
/// inside the cube.
pub open spec fn interior_values<T>(
    values: [T; 8],
    test: InteriorTest,
    zero: T,
    rules: InteriorRules<T>,
) -> Option<[T; 4]> {
    match test.reference {
        None => match (rules.diagonal)(values) {
            None => None,
            Some(t) => Some(
                [
                    (rules.blend)(values@[0], values@[4], t),
                    (rules.blend)(values@[3], values@[7], t),
                    (rules.blend)(values@[2], values@[6], t),
                    (rules.blend)(values@[1], values@[5], t),
                ],
            ),
        },
        Some(edge) => {
            let c = parallel_edges(edge);
            let t = (rules.crossing)(values@[c[0]], values@[c[1]]);
            Some(
                [
                    zero,
                    (rules.blend)(values@[c[2]], values@[c[3]], t),
                    (rules.blend)(values@[c[4]], values@[c[5]], t),
                    (rules.blend)(values@[c[6]], values@[c[7]], t),
                ],
            )
        },
    }
}

/// The arithmetic of interior tests.
#[verifier::reject_recursive_types(T)]
pub struct InteriorRules<T> {
    pub diagonal: spec_fn([T; 8]) -> Option<T>,
    pub crossing: spec_fn(T, T) -> T,
    pub blend: spec_fn(T, T, T) -> T,
    pub nonnegative: spec_fn(T) -> bool,
    pub small: spec_fn([T; 4]) -> bool,
}

/// The functions give what `rules` says.
pub open spec fn calculates<
    T,
    D: Fn([T; 8]) -> Option<T>,
    C: Fn(T, T) -> T,
    B: Fn(T, T, T) -> T,
    N: Fn(T) -> bool,
    L: Fn([T; 4]) -> bool,
>(
    diagonal: D,
    crossing: C,
    blend: B,
    nonnegative: N,
    small: L,
    rules: InteriorRules<T>,
) -> bool {
    &&& computes1(diagonal, rules.diagonal)
    &&& computes2(crossing, rules.crossing)
    &&& computes3(blend, rules.blend)
    &&& computes1(nonnegative, rules.nonnegative)
    &&& computes1(small, rules.small)
}

/// Whether the interior of an ambiguous cube joins.
pub open spec fn interior_outcome<T>(
    values: [T; 8],
    test: InteriorTest,
    zero: T,
    rules: InteriorRules<T>,
) -> bool {
    match interior_values(values, test, zero, rules) {
        None => test.sign > 0,
        Some(v) => if interior_joins(
            (rules.nonnegative)(v@[0]),
            (rules.nonnegative)(v@[1]),
            (rules.nonnegative)(v@[2]),
            (rules.nonnegative)(v@[3]),
            (rules.small)(v),
        ) {
            test.sign < 0
        } else {
            test.sign > 0
        },
    }
}

/// Tells whether the interior of an ambiguous cube joins.
///
/// `diagonal` finds where the vertical faces balance between the lower plane (0) and the upper
/// one (1), `crossing` where the samples along an edge vanish; `blend` interpolates, and
/// `nonnegative` and `small` are the sign tests on the result.
pub fn test_internal<
    T: Copy,
    D: Fn([T; 8]) -> Option<T>,
    C: Fn(T, T) -> T,
    B: Fn(T, T, T) -> T,
    N: Fn(T) -> bool,
    L: Fn([T; 4]) -> bool,
>(
    values: [T; 8],
    test: InteriorTest,
    zero: T,
    diagonal: &D,
    crossing: &C,
    blend: &B,
    nonnegative: &N,
    small: &L,
) -> (r: bool)
    requires
        test.reference matches Some(edge) ==> is_edge(edge),
        total1(*diagonal),
        total2(*crossing),
        total3(*blend),
        total1(*nonnegative),
        total1(*small),
    ensures
        forall|rules: InteriorRules<T>| #[trigger]
            calculates(*diagonal, *crossing, *blend, *nonnegative, *small, rules) ==> r
                == interior_outcome(values, test, zero, rules),
{
    let found = match test.reference {
        None => {
            let t = match diagonal(values) {
                Some(t) => t,
                None => return test.sign > 0,
            };
            [
                blend(values[0], values[4], t),
                blend(values[3], values[7], t),
                blend(values[2], values[6], t),
                blend(values[1], values[5], t),
            ]
        },
        Some(edge) => {
            let c = reference_corners(edge);
            proof {
                let p = parallel_edges(edge);
                assert(c@[0] == p[0] && c@[1] == p[1] && c@[2] == p[2] && c@[3] == p[3]);
                assert(c@[4] == p[4] && c@[5] == p[5] && c@[6] == p[6] && c@[7] == p[7]);
            }
            let t = crossing(values[c[0]], values[c[1]]);
            [
                zero,
                blend(values[c[2]], values[c[3]], t),
                blend(values[c[4]], values[c[5]], t),
                blend(values[c[6]], values[c[7]], t),
            ]
        },
    };
    proof {
        assert forall|rules: InteriorRules<T>| #[trigger]
            calculates(
                *diagonal,
                *crossing,
                *blend,
                *nonnegative,
                *small,
                rules,
            ) implies interior_values(values, test, zero, rules) == Some(found) by {
            assert(found =~= interior_values(values, test, zero, rules)->0);
        }
    }
    interior_verdict(
        nonnegative(found[0]),
        nonnegative(found[1]),
        nonnegative(found[2]),
        nonnegative(found[3]),
        small(found),
        test.sign,
    )
}

/// The samples at the corners of a cube.
pub open spec fn cube_values<T: Copy + PartialEq>(samples: SparseGrid3<T>, anchor: UVec3) -> [T; 8] {
    [
        samples.at(cube_corner(anchor, 0))->0,
        samples.at(cube_corner(anchor, 1))->0,
        samples.at(cube_corner(anchor, 2))->0,
        samples.at(cube_corner(anchor, 3))->0,
        samples.at(cube_corner(anchor, 4))->0,
        samples.at(cube_corner(anchor, 5))->0,
        samples.at(cube_corner(anchor, 6))->0,
        samples.at(cube_corner(anchor, 7))->0,
    ]
}

/// Number of the sign pattern: the flag of corner `i` counts `2^i`.
pub open spec fn pattern_of<T: Copy + PartialEq>(
    samples: SparseGrid3<T>,
    anchor: UVec3,
    above: spec_fn(T) -> bool,
    n: nat,
) -> int
    decreases n,
{
    if n == 0 {
        0
    } else {
        pattern_of(samples, anchor, above, (n - 1) as nat) + if above(
            samples.at(cube_corner(anchor, n - 1))->0,
        ) {
            corner_weight(n - 1)
        } else {
            0
        }
    }
}

/// `2^i` for the eight corners.
pub open spec fn corner_weight(i: int) -> int {
    if i < 6 {
        power_of_two(i)
    } else if i == 6 {
        64
    } else {
        128
    }
}

/// All eight samples of the cube are present.
pub open spec fn sampled<T: Copy + PartialEq>(samples: SparseGrid3<T>, anchor: UVec3) -> bool {
    forall|i: int| 0 <= i < 8 ==> (#[trigger] samples.at(cube_corner(anchor, i))) is Some
}

/// Corner `i` is the first without a sample.
pub open spec fn first_missing<T: Copy + PartialEq>(
    samples: SparseGrid3<T>,
    anchor: UVec3,
    i: int,
) -> bool {
    &&& 0 <= i < 8
    &&& samples.at(cube_corner(anchor, i)) is None
    &&& forall|j: int| 0 <= j < i ==> (#[trigger] samples.at(cube_corner(anchor, j))) is Some
}

/// The steps for the first `n` triangles of a list.
///
/// The lists wind their triangles to face the larger samples. They are turned over, so that a
/// surface faces the smaller ones.
pub open spec fn tiling_steps(tables: Tables, tiling: Tiling, anchor: UVec3, n: nat) -> Seq<Step>
    decreases n,
{
    if n == 0 {
        Seq::empty()
    } else {
        tiling_steps(tables, tiling, anchor, (n - 1) as nat) + triangle_steps(
            tiling_key(anchor, tiling.edge_at(tables, 3 * (n - 1))),
            tiling_key(anchor, tiling.edge_at(tables, 3 * (n - 1) + 1)),
            tiling_key(anchor, tiling.edge_at(tables, 3 * (n - 1) + 2)),
            anchor,
            true,
        )
    }
}

/// What is above the isovalue, how ambiguous cubes resolve, and what becomes of vertices and
/// faces.
#[verifier::reject_recursive_types(T)]
#[verifier::reject_recursive_types(V)]
pub struct Rules<T, V, E> {
    pub above: spec_fn(T) -> bool,
    pub face: FaceTest<T>,
    pub interior: InsideTest<T>,
    pub craft: Craft<V, E>,
}

/// The functions give what `rules` says.
pub open spec fn follows<
    T,
    V,
    E,
    A: Fn(T) -> bool,
    F: Fn([T; 8], i8) -> bool,
    G: Fn([T; 8], InteriorTest) -> bool,
    M: Fn(VertexKey) -> Result<V, E>,
    J: Fn(V, V, V, UVec3) -> FaceVerdict,
>(
    above: A,
    face_test: F,
    interior_test: G,
    make: M,
    judge: J,
    rules: Rules<T, V, E>,
) -> bool {
    &&& computes1(above, rules.above)
    &&& computes2(face_test, rules.face)
    &&& computes2(interior_test, rules.interior)
    &&& crafts(make, judge, rules.craft)
}

/// The mesh after one cube.
pub open spec fn with_cube<T: Copy + PartialEq, V, E>(
    s: MeshState,
    samples: SparseGrid3<T>,
    anchor: UVec3,
    tables: Tables,
    rules: Rules<T, V, E>,
) -> Result<MeshState, BuildError<E>> {
    if sampled(samples, anchor) {
        let values = cube_values(samples, anchor);
        match resolution(
            tables,
            pattern_of(samples, anchor, rules.above, 8),
            faces_by(rules.face, values),
            interiors_by(rules.interior, values),
        ) {
            Resolution::Empty => Ok(s),
            Resolution::Unresolved => Err(BuildError::Unresolved(anchor)),
            Resolution::Found(tiling) => with_all_steps(
                s,
                tiling_steps(tables, tiling, anchor, tiling.triangle_count as nat),
                rules.craft,
            ),
        }
    } else {
        let i = choose|i: int| #[trigger] first_missing(samples, anchor, i);
        Err(BuildError::MissingSample(cube_corner(anchor, i)))
    }
}

/// Once a triangle fails, the list fails.
proof fn lemma_tiling_fails<V, E>(
    s: MeshState,
    tables: Tables,
    tiling: Tiling,
    anchor: UVec3,
    k: nat,
    n: nat,
    craft: Craft<V, E>,
)
    requires
        k <= n,
        with_all_steps(s, tiling_steps(tables, tiling, anchor, k), craft) is Err,
    ensures
        with_all_steps(s, tiling_steps(tables, tiling, anchor, n), craft) == with_all_steps(
            s,
            tiling_steps(tables, tiling, anchor, k),
            craft,
        ),
    decreases n,
{
    if k < n {
        lemma_tiling_fails(s, tables, tiling, anchor, k, (n - 1) as nat, craft);
        let first = tiling_steps(tables, tiling, anchor, (n - 1) as nat);
        let second = triangle_steps(
            tiling_key(anchor, tiling.edge_at(tables, 3 * (n - 1))),
            tiling_key(anchor, tiling.edge_at(tables, 3 * (n - 1) + 1)),
            tiling_key(anchor, tiling.edge_at(tables, 3 * (n - 1) + 2)),
            anchor,
            true,
        );
        lemma_steps_append(s, first, second, second.len(), craft);
        assert((first + second).len() == first.len() + second.len());
    }
}

/// Corner `i` of a cube.
fn corner_at(anchor: UVec3, i: usize) -> (p: UVec3)
    requires
        i < 8,
        anchor.x < u32::MAX,
        anchor.y < u32::MAX,
        anchor.z < u32::MAX,
    ensures
        p == cube_corner(anchor, i as int),
{
    let turn = i % 4;
    let dx: u32 = if turn == 1 || turn == 2 {
        1
    } else {
        0
    };
    let dy: u32 = if turn >= 2 {
        1
    } else {
        0
    };
    UVec3::new(anchor.x + dx, anchor.y + dy, anchor.z + (i / 4) as u32)
}

/// The key of the vertex on edge `e`, or inside the cube for `e == 12`.
fn vertex_key(anchor: UVec3, e: u8) -> (key: VertexKey)
    requires
        e <= 12,
        anchor.x < u32::MAX,
        anchor.y < u32::MAX,
        anchor.z < u32::MAX,
    ensures
        key == tiling_key(anchor, e as int),
        proper(key),
{
    if e == 12 {
        return VertexKey::Interior(anchor);
    }
    let (i, j): (usize, usize) = if e < 4 {
        (e as usize, ((e + 1) % 4) as usize)
    } else if e < 8 {
        (e as usize, (4 + (e + 1) % 4) as usize)
    } else {
        ((e - 8) as usize, (e - 4) as usize)
    };
    let first = corner_at(anchor, i);
    let second = corner_at(anchor, j);
    proof {
        lemma_edge_axis(anchor, e as int);
    }
    if grid_point_le(first, second) {
        VertexKey::Edge(first, second)
    } else {
        VertexKey::Edge(second, first)
    }
}

/// An edge joins two corners of which one lies below the other.
proof fn lemma_edge_axis(anchor: UVec3, e: int)
    requires
        0 <= e < 12,
        anchor.x < u32::MAX,
        anchor.y < u32::MAX,
        anchor.z < u32::MAX,
    ensures
        proper(tiling_key(anchor, e)),
        0 <= edge_corners(e).0 < 8,
        0 <= edge_corners(e).1 < 8,
{
    assert(e == 0 || e == 1 || e == 2 || e == 3 || e == 4 || e == 5 || e == 6 || e == 7 || e == 8
        || e == 9 || e == 10 || e == 11);
}

/// Adds the triangles of one dual cube.
pub fn march_cube<
    T: Copy + PartialEq,
    V: Copy,
    E,
    A: Fn(T) -> bool,
    F: Fn([T; 8], i8) -> bool,
    G: Fn([T; 8], InteriorTest) -> bool,
    M: Fn(VertexKey) -> Result<V, E>,
    J: Fn(V, V, V, UVec3) -> FaceVerdict,
>(
    mesher: &mut Mesher<V>,
    samples: &mut GridAccessor<'_, T>,
    anchor: UVec3,
    tables: &Tables,
    above: &A,
    face_test: &F,
    interior_test: &G,
    make: &M,
    judge: &J,
) -> (r: Result<(), BuildError<E>>)
    requires
        old(mesher).wf(*make),
        old(samples).wf(),
        tables.wf(),
        total1(*above),
        total2(*face_test),
        total2(*interior_test),
        total1(*make),
        total4(*judge),
        anchor.x < u32::MAX,
        anchor.y < u32::MAX,
        anchor.z < u32::MAX,
    ensures
        final(mesher).wf(*make),
        final(samples).wf(),
        final(samples).source() == old(samples).source(),
        forall|rules: Rules<T, V, E>| #[trigger]
            follows(*above, *face_test, *interior_test, *make, *judge, rules) ==> built(
                with_cube(old(mesher).state(), old(samples).source(), anchor, *tables, rules),
                r,
                final(mesher).state(),
            ),
{
    let (values, pattern) = match read_cube(samples, anchor, above) {
        Ok(v) => v,
        Err(corner) => return Err(BuildError::MissingSample(corner)),
    };
    match resolve_tiling(pattern, values, tables, face_test, interior_test) {
        Resolution::Empty => Ok(()),
        Resolution::Unresolved => Err(BuildError::Unresolved(anchor)),
        Resolution::Found(tiling) => add_tiling(mesher, anchor, tables, tiling, make, judge),
    }
}

/// The samples at the corners of a cube, and its sign pattern; or the first corner without a
/// sample.
fn read_cube<T: Copy + PartialEq, A: Fn(T) -> bool>(
    samples: &mut GridAccessor<'_, T>,
    anchor: UVec3,
    above: &A,
) -> (r: Result<([T; 8], usize), UVec3>)
    requires
        old(samples).wf(),
        total1(*above),
        anchor.x < u32::MAX,
        anchor.y < u32::MAX,
        anchor.z < u32::MAX,
    ensures
        final(samples).wf(),
        final(samples).source() == old(samples).source(),
        match r {
            Ok((values, pattern)) => {
                &&& sampled(old(samples).source(), anchor)
                &&& values == cube_values(old(samples).source(), anchor)
                &&& forall|g: spec_fn(T) -> bool| #[trigger]
                    computes1(*above, g) ==> pattern == pattern_of(
                        old(samples).source(),
                        anchor,
                        g,
                        8,
                    )
                &&& pattern < 256
            },
            Err(corner) => {
                &&& !sampled(old(samples).source(), anchor)
                &&& corner == cube_corner(
                    anchor,
                    choose|i: int| #[trigger] first_missing(old(samples).source(), anchor, i),
                )
            },
        },
{
    let ghost grid = samples.source();
    let mut found: Vec<T> = Vec::with_capacity(8);
    let mut pattern: usize = 0;
    let mut weight: usize = 1;
    let mut i: usize = 0;
    while i < 8
        invariant
            i <= 8,
            samples.wf(),
            samples.source() == grid,
            grid == old(samples).source(),
            total1(*above),
            anchor.x < u32::MAX,
            anchor.y < u32::MAX,
            anchor.z < u32::MAX,
            found@.len() == i,
            forall|j: int|
                0 <= j < i ==> (#[trigger] grid.at(cube_corner(anchor, j))) == Some(found@[j]),
            weight == if i == 8 {
                256
            } else {
                corner_weight(i as int)
            },
            forall|g: spec_fn(T) -> bool| #[trigger]
                computes1(*above, g) ==> pattern == pattern_of(grid, anchor, g, i as nat),
            pattern < weight,
        decreases 8 - i,
    {
        let corner = corner_at(anchor, i);
        match samples.get(corner) {
            Some(value) => {
                if above(value) {
                    pattern = pattern + weight;
                }
                found.push(value);
            },
            None => {
                proof {
                    assert(first_missing(grid, anchor, i as int));
                    let c = choose|c: int| #[trigger] first_missing(grid, anchor, c);
                    assert(c == i) by {
                        if c < i {
                            assert(grid.at(cube_corner(anchor, c)) is Some);
                        } else if c > i {
                            assert(grid.at(cube_corner(anchor, i as int)) is Some);
                        }
                    }
                    assert(!sampled(grid, anchor));
                }
                return Err(corner);
            },
        }
        weight = weight * 2;
        i += 1;
    }
    let values = [
        found[0],
        found[1],
        found[2],
        found[3],
        found[4],
        found[5],
        found[6],
        found[7],
    ];
    proof {
        assert(grid.at(cube_corner(anchor, 0)) == Some(found@[0]));
        assert(grid.at(cube_corner(anchor, 1)) == Some(found@[1]));
        assert(grid.at(cube_corner(anchor, 2)) == Some(found@[2]));
        assert(grid.at(cube_corner(anchor, 3)) == Some(found@[3]));
        assert(grid.at(cube_corner(anchor, 4)) == Some(found@[4]));
        assert(grid.at(cube_corner(anchor, 5)) == Some(found@[5]));
        assert(grid.at(cube_corner(anchor, 6)) == Some(found@[6]));
        assert(grid.at(cube_corner(anchor, 7)) == Some(found@[7]));
        assert(values =~= cube_values(grid, anchor));
    }
    Ok((values, pattern))
}

/// Adds the triangles of a list.
fn add_tiling<V: Copy, E, M: Fn(VertexKey) -> Result<V, E>, J: Fn(V, V, V, UVec3) -> FaceVerdict>(
    mesher: &mut Mesher<V>,
    anchor: UVec3,
    tables: &Tables,
    tiling: Tiling,
    make: &M,
    judge: &J,
) -> (r: Result<(), BuildError<E>>)
    requires
        old(mesher).wf(*make),
        tables.wf(),
        tiling.wf(*tables),
        total1(*make),
        total4(*judge),
        anchor.x < u32::MAX,
        anchor.y < u32::MAX,
        anchor.z < u32::MAX,
    ensures
        final(mesher).wf(*make),
        forall|craft: Craft<V, E>| #[trigger]
            crafts(*make, *judge, craft) ==> built(
                with_all_steps(
                    old(mesher).state(),
                    tiling_steps(*tables, tiling, anchor, tiling.triangle_count as nat),
                    craft,
                ),
                r,
                final(mesher).state(),
            ),
{
    let ghost s = mesher.state();
    let count = tiling.table.triangle_count();
    let mut k: usize = 0;
    while k < count
        invariant
            k <= count,
            count == tiling.triangle_count,
            count <= 12,
            s == old(mesher).state(),
            mesher.wf(*make),
            tables.wf(),
            tiling.wf(*tables),
            total1(*make),
            total4(*judge),
            anchor.x < u32::MAX,
            anchor.y < u32::MAX,
            anchor.z < u32::MAX,
            forall|craft: Craft<V, E>| #[trigger]
                crafts(*make, *judge, craft) ==> with_all_steps(
                    s,
                    tiling_steps(*tables, tiling, anchor, k as nat),
                    craft,
                ) == Ok::<MeshState, BuildError<E>>(mesher.state()),
        decreases count - k,
    {
        let a = vertex_key(anchor, tiling.edge(tables, k * 3));
        let b = vertex_key(anchor, tiling.edge(tables, k * 3 + 1));
        let c = vertex_key(anchor, tiling.edge(tables, k * 3 + 2));
        let outcome = mesher.triangle(a, b, c, anchor, true, make, judge);
        proof {
            let first = tiling_steps(*tables, tiling, anchor, k as nat);
            let second = triangle_steps(a, b, c, anchor, true);
            assert(tiling_steps(*tables, tiling, anchor, (k + 1) as nat) == first + second);
            assert((first + second).len() == first.len() + second.len());
            assert forall|craft: Craft<V, E>| #[trigger]
                crafts(*make, *judge, craft) implies built(
                with_all_steps(s, first + second, craft),
                outcome,
                mesher.state(),
            ) by {
                lemma_steps_append(s, first, second, second.len(), craft);
            }
        }
        match outcome {
            Ok(()) => {},
            Err(e) => {
                proof {
                    assert forall|craft: Craft<V, E>| #[trigger]
                        crafts(*make, *judge, craft) implies with_all_steps(
                        s,
                        tiling_steps(*tables, tiling, anchor, count as nat),
                        craft,
                    ) == Err::<MeshState, BuildError<E>>(e) by {
                        lemma_tiling_fails(
                            s,
                            *tables,
                            tiling,
                            anchor,
                            (k + 1) as nat,
                            count as nat,
                            craft,
                        );
                    }
                }
                return Err(e);
            },
        }
        k += 1;
    }
    Ok(())
}

/// What one cube adds.
pub open spec fn cube_rule<T: Copy + PartialEq, V, E>(
    samples: SparseGrid3<T>,
    tables: Tables,
    rules: Rules<T, V, E>,
) -> spec_fn(MeshState, UVec3) -> Result<MeshState, BuildError<E>> {
    |s: MeshState, anchor: UVec3| with_cube(s, samples, anchor, tables, rules)
}

/// The triangles of a list are grounded.
proof fn lemma_tiling_grounded(tables: Tables, tiling: Tiling, anchor: UVec3, n: nat)
    ensures
        grounded(
            tiling_steps(tables, tiling, anchor, n),
            tiling_steps(tables, tiling, anchor, n).len() as int,
        ),
    decreases n,
{
    if n > 0 {
        lemma_tiling_grounded(tables, tiling, anchor, (n - 1) as nat);
        let a = tiling_key(anchor, tiling.edge_at(tables, 3 * (n - 1)));
        let b = tiling_key(anchor, tiling.edge_at(tables, 3 * (n - 1) + 1));
        let c = tiling_key(anchor, tiling.edge_at(tables, 3 * (n - 1) + 2));
        lemma_triangle_grounded(a, b, c, anchor, true);
        lemma_grounded_append(
            tiling_steps(tables, tiling, anchor, (n - 1) as nat),
            triangle_steps(a, b, c, anchor, true),
        );
    }
}

/// A cube keeps a mesh well built.
pub proof fn lemma_cube_well_built<T: Copy + PartialEq, V, E>(
    s: MeshState,
    samples: SparseGrid3<T>,
    anchor: UVec3,
    tables: Tables,
    rules: Rules<T, V, E>,
)
    requires
        well_built(s),
    ensures
        with_cube(s, samples, anchor, tables, rules) matches Ok(t) ==> well_built(t),
{
    let values = cube_values(samples, anchor);
    if let Resolution::Found(tiling) = resolution(
        tables,
        pattern_of(samples, anchor, rules.above, 8),
        faces_by(rules.face, values),
        interiors_by(rules.interior, values),
    ) {
        let list = tiling_steps(tables, tiling, anchor, tiling.triangle_count as nat);
        lemma_tiling_grounded(tables, tiling, anchor, tiling.triangle_count as nat);
        lemma_steps_well_built(s, list, list.len(), rules.craft);
    }
}

/// Meshes the active cubes inside `aabb`.
pub fn mesh_level_aabb<
    T: Copy + PartialEq,
    V: Copy,
    E,
    A: Fn(T) -> bool,
    F: Fn([T; 8], i8) -> bool,
    G: Fn([T; 8], InteriorTest) -> bool,
    M: Fn(VertexKey) -> Result<V, E>,
    J: Fn(V, V, V, UVec3) -> FaceVerdict,
>(
    samples: &SparseGrid3<T>,
    active: &SparseGrid3<Present>,
    aabb: Aabb3u,
    tables: &Tables,
    above: &A,
    face_test: &F,
    interior_test: &G,
    make: &M,
    judge: &J,
) -> (r: Result<Mesher<V>, BuildError<E>>)
    requires
        samples.wf(),
        active.wf(),
        tables.wf(),
        total1(*above),
        total2(*face_test),
        total2(*interior_test),
        total1(*make),
        total4(*judge),
    ensures
        r matches Ok(mesher) ==> mesher.wf(*make),
        exists|anchors: Seq<UVec3>| #[trigger]
            visits(*active, aabb, anchors) && forall|rules: Rules<T, V, E>| #[trigger]
                follows(*above, *face_test, *interior_test, *make, *judge, rules) ==> meshed(
                    with_cubes(cube_rule(*samples, *tables, rules), anchors, anchors.len()),
                    r,
                ),
{
    let anchors = list_anchors(active, aabb);
    let mut mesher: Mesher<V> = Mesher::new();
    let mut accessor = samples.accessor();
    let mut n: usize = 0;
    proof {
        assert(mesher.state() == (MeshState { keys: Seq::empty(), faces: Seq::empty() }));
    }
    while n < anchors.len()
        invariant
            n <= anchors@.len(),
            visits(*active, aabb, anchors@),
            forall|a: int|
                0 <= a < anchors@.len() ==> inside(#[trigger] anchors@[a], active.limits()),
            mesher.wf(*make),
            accessor.wf(),
            accessor.source() == *samples,
            tables.wf(),
            total1(*above),
            total2(*face_test),
            total2(*interior_test),
            total1(*make),
            total4(*judge),
            forall|rules: Rules<T, V, E>| #[trigger]
                follows(*above, *face_test, *interior_test, *make, *judge, rules) ==> with_cubes(
                    cube_rule(*samples, *tables, rules),
                    anchors@,
                    n as nat,
                ) == Ok::<MeshState, BuildError<E>>(mesher.state()),
        decreases anchors@.len() - n,
    {
        assert(inside(anchors@[n as int], active.limits()));
        match march_cube(
            &mut mesher,
            &mut accessor,
            anchors[n],
            tables,
            above,
            face_test,
            interior_test,
            make,
            judge,
        ) {
            Ok(()) => {},
            Err(e) => {
                proof {
                    assert forall|rules: Rules<T, V, E>| #[trigger]
                        follows(
                            *above,
                            *face_test,
                            *interior_test,
                            *make,
                            *judge,
                            rules,
                        ) implies with_cubes(
                        cube_rule(*samples, *tables, rules),
                        anchors@,
                        anchors@.len(),
                    ) == Err::<MeshState, BuildError<E>>(e) by {
                        lemma_cubes_fail(
                            cube_rule(*samples, *tables, rules),
                            anchors@,
                            (n + 1) as nat,
                            anchors@.len(),
                        );
                    }
                }
                return Err(e);
            },
        }
        n += 1;
    }
    Ok(mesher)
}

} // verus!
