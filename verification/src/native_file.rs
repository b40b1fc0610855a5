//! Plotfile metadata: the top-level header, per-level cell headers, and views of them.
//!
//! Physical quantities are of a scalar type `S` that the caller chooses.

use vstd::prelude::*;

use crate::native_file_parse::validate_cell_header;
use crate::text_parsing::ParseError;
use crate::vec3::{IVec3, Vec3};

verus! {

/// Physical-space bounding box.
#[derive(Debug)]
pub struct BoundingBox<S> {
    /// Lower physical coordinate.
    pub min: Vec3<S>,
    /// Upper physical coordinate.
    pub max: Vec3<S>,
}

impl<S: Copy> Clone for BoundingBox<S> {
    fn clone(&self) -> (r: Self)
        ensures
            r == *self,
    {
        *self
    }
}

impl<S: Copy> Copy for BoundingBox<S> {

}

/// Integer AMReX box with inclusive upper bounds.
#[derive(Debug, Clone, Copy, PartialEq, Eq, Structural)]
pub struct IndexDomain {
    /// Inclusive lower index.
    pub min: IVec3,
    /// Inclusive upper index.
    pub max: IVec3,
    /// AMReX index type: zero for cell-centered axes, one for nodal axes.
    pub index_type: IVec3,
}

/// AMReX coordinate-system identifier.
#[derive(Debug, Clone, Copy, PartialEq, Eq, Structural)]
pub enum CoordinateSystem {
    /// Cartesian coordinates.
    Cartesian,
    /// Cylindrical coordinates.
    Cylindrical,
    /// Spherical coordinates.
    Spherical,
}

/// Named component in the plotfile.
#[derive(Debug)]
pub struct Variable {
    /// Component name.
    pub name: String,
    /// Zero-based component index.
    pub index: usize,
}

/// Top-level metadata for one AMR level.
#[derive(Debug)]
pub struct PerLevelRecord<S> {
    /// AMR level index.
    pub level_index: usize,
    /// Number of grid patches on the level.
    pub number_of_grid_patches: usize,
    /// Simulation time for this level.
    pub simulation_time: S,
    /// Time step counter for this level.
    pub level_step: usize,
    /// Physical bounds of each grid patch.
    pub grids: Vec<BoundingBox<S>>,
    /// Relative path prefix for the level's cell data.
    pub path: String,
}

/// Parsed top-level AMReX `Header` metadata.
#[derive(Debug)]
pub struct Header<S> {
    /// Simulation time recorded in the plotfile.
    pub simulation_time: S,
    /// Finest AMR level index present in the plotfile.
    pub finest_level: usize,
    /// Physical domain bounds.
    pub domain: BoundingBox<S>,
    /// Variables stored in each FAB.
    pub variables: Vec<Variable>,
    /// Refinement ratios between adjacent levels.
    pub refinement_ratios: Vec<usize>,
    /// Per-level integer domains.
    pub index_domains: Vec<IndexDomain>,
    /// Per-level time step counters.
    pub level_steps: Vec<usize>,
    /// Per-level cell sizes.
    pub cell_sizes: Vec<Vec3<S>>,
    /// Coordinate system declared by the plotfile.
    pub coordinate_system: CoordinateSystem,
    /// Plotfile boundary width.
    pub boundary_width: usize,
    /// Per-level records from the header.
    pub level_records: Vec<PerLevelRecord<S>>,
}

/// AMReX VisMF v1 storage mode.
#[derive(Debug, Clone, Copy, PartialEq, Eq, Structural)]
pub enum V1StorageMode {
    /// One data file per CPU/rank.
    OneFilePerCpu,
    /// A configured number of data files.
    NFiles,
}

/// File and box metadata for one FAB patch.
#[derive(Debug)]
pub struct BoxInfo {
    /// Integer box covered by the patch.
    pub box_info: IndexDomain,
    /// FAB data file name.
    pub file_name: String,
    /// Byte offset of the FAB record.
    pub file_offset: u64,
}

/// Per-patch, per-component extrema from `Cell_H`.
#[derive(Debug)]
pub struct ComponentBounds<S> {
    /// Number of patches represented.
    pub patch_count: usize,
    /// Number of components represented.
    pub component_count: usize,
    /// Row-major minima by patch then component.
    pub minima: Vec<S>,
    /// Row-major maxima by patch then component.
    pub maxima: Vec<S>,
}

/// Parsed `Cell_H` metadata for a level.
#[derive(Debug)]
pub struct CellHeader<S> {
    /// Storage mode used by the level.
    pub mode: V1StorageMode,
    /// Ghost cell width present in FAB data.
    pub ghost_cell_width: usize,
    /// Per-patch FAB metadata.
    pub fabs: Vec<BoxInfo>,
    /// Per-component extrema.
    pub bounds: ComponentBounds<S>,
}

/// What a record of one level says.
pub struct RecordModel<S> {
    pub level_index: usize,
    pub patches: usize,
    pub time: S,
    pub step: usize,
    pub grids: Seq<BoundingBox<S>>,
    pub path: Seq<char>,
}

/// What a top-level header says.
pub struct HeaderModel<S> {
    pub time: S,
    pub finest_level: usize,
    pub domain: BoundingBox<S>,
    pub names: Seq<Seq<char>>,
    pub ratios: Seq<usize>,
    pub index_domains: Seq<IndexDomain>,
    pub level_steps: Seq<usize>,
    pub cell_sizes: Seq<Vec3<S>>,
    pub coordinate_system: CoordinateSystem,
    pub boundary_width: usize,
    pub records: Seq<RecordModel<S>>,
}

/// What a FAB entry says.
pub struct BoxModel {
    pub domain: IndexDomain,
    pub file_name: Seq<char>,
    pub file_offset: u64,
}

/// What a cell header says.
pub struct CellHeaderModel<S> {
    pub mode: V1StorageMode,
    pub ghost_cell_width: usize,
    pub fabs: Seq<BoxModel>,
    pub patch_count: usize,
    pub component_count: usize,
    pub minima: Seq<S>,
    pub maxima: Seq<S>,
}

impl<S> View for PerLevelRecord<S> {
    type V = RecordModel<S>;

    open spec fn view(&self) -> RecordModel<S> {
        RecordModel {
            level_index: self.level_index,
            patches: self.number_of_grid_patches,
            time: self.simulation_time,
            step: self.level_step,
            grids: self.grids@,
            path: self.path@,
        }
    }
}

/// The records of a list.
pub open spec fn record_models<S>(records: Seq<PerLevelRecord<S>>) -> Seq<RecordModel<S>> {
    records.map_values(|r: PerLevelRecord<S>| r@)
}

/// The names of a list of variables.
pub open spec fn names_of(variables: Seq<Variable>) -> Seq<Seq<char>> {
    variables.map_values(|v: Variable| v.name@)
}

/// Each variable's index is its place in the list.
pub open spec fn numbered(variables: Seq<Variable>) -> bool {
    forall|i: int| 0 <= i < variables.len() ==> (#[trigger] variables[i]).index == i
}

impl<S> View for Header<S> {
    type V = HeaderModel<S>;

    open spec fn view(&self) -> HeaderModel<S> {
        HeaderModel {
            time: self.simulation_time,
            finest_level: self.finest_level,
            domain: self.domain,
            names: names_of(self.variables@),
            ratios: self.refinement_ratios@,
            index_domains: self.index_domains@,
            level_steps: self.level_steps@,
            cell_sizes: self.cell_sizes@,
            coordinate_system: self.coordinate_system,
            boundary_width: self.boundary_width,
            records: record_models(self.level_records@),
        }
    }
}

/// Every level has its index domain, step, cell size and record, in order of level index;
/// every record has the bounds of its patches; there is one ratio between adjacent levels.
pub open spec fn consistent<S>(h: HeaderModel<S>) -> bool {
    &&& h.ratios.len() == h.finest_level
    &&& h.index_domains.len() == h.finest_level + 1
    &&& h.level_steps.len() == h.finest_level + 1
    &&& h.cell_sizes.len() == h.finest_level + 1
    &&& h.records.len() == h.finest_level + 1
    &&& forall|i: int|
        0 <= i < h.records.len() ==> (#[trigger] h.records[i]).level_index == i
            && h.records[i].grids.len() == h.records[i].patches
}

impl View for BoxInfo {
    type V = BoxModel;

    open spec fn view(&self) -> BoxModel {
        BoxModel {
            domain: self.box_info,
            file_name: self.file_name@,
            file_offset: self.file_offset,
        }
    }
}

/// The entries of a list of FABs.
pub open spec fn box_models(fabs: Seq<BoxInfo>) -> Seq<BoxModel> {
    fabs.map_values(|b: BoxInfo| b@)
}

impl<S> View for CellHeader<S> {
    type V = CellHeaderModel<S>;

    open spec fn view(&self) -> CellHeaderModel<S> {
        CellHeaderModel {
            mode: self.mode,
            ghost_cell_width: self.ghost_cell_width,
            fabs: box_models(self.fabs@),
            patch_count: self.bounds.patch_count,
            component_count: self.bounds.component_count,
            minima: self.bounds.minima@,
            maxima: self.bounds.maxima@,
        }
    }
}

/// One FAB entry per patch; one minimum and one maximum per patch and component.
pub open spec fn cell_consistent<S>(c: CellHeaderModel<S>) -> bool {
    &&& c.fabs.len() == c.patch_count
    &&& c.patch_count * c.component_count <= usize::MAX
    &&& c.minima.len() == c.patch_count * c.component_count
    &&& c.maxima.len() == c.patch_count * c.component_count
}

/// A cell header has the patches and components that the header gives its level.
pub open spec fn matches_level<S>(h: HeaderModel<S>, level: int, c: CellHeaderModel<S>) -> bool {
    &&& 0 <= level < h.records.len()
    &&& h.records[level].grids.len() == h.records[level].patches
    &&& c.fabs.len() == h.records[level].patches
    &&& c.patch_count == h.records[level].patches
    &&& c.component_count == h.names.len()
}

impl<S: Copy> ComponentBounds<S> {
    /// The entry for a patch/component pair in a row-major list.
    pub open spec fn entry(self, list: Seq<S>, patch: usize, component: usize) -> Option<S> {
        let i = patch * self.component_count + component;
        if patch < self.patch_count && component < self.component_count && i < list.len() {
            Some(list[i])
        } else {
            None
        }
    }

    /// Return the stored minimum for a patch/component pair.
    pub fn get_minima(&self, patch: usize, component_id: usize) -> (r: Option<S>)
        requires
            self.patch_count * self.component_count <= usize::MAX,
        ensures
            r == self.entry(self.minima@, patch, component_id),
    {
        if patch >= self.patch_count || component_id >= self.component_count {
            return None;
        }
        proof {
            lemma_entry_in_range(self.patch_count, self.component_count, patch, component_id);
        }
        let i = patch * self.component_count + component_id;
        if i < self.minima.len() {
            Some(self.minima[i])
        } else {
            None
        }
    }

    /// Return the stored maximum for a patch/component pair.
    pub fn get_maxima(&self, patch: usize, component_id: usize) -> (r: Option<S>)
        requires
            self.patch_count * self.component_count <= usize::MAX,
        ensures
            r == self.entry(self.maxima@, patch, component_id),
    {
        if patch >= self.patch_count || component_id >= self.component_count {
            return None;
        }
        proof {
            lemma_entry_in_range(self.patch_count, self.component_count, patch, component_id);
        }
        let i = patch * self.component_count + component_id;
        if i < self.maxima.len() {
            Some(self.maxima[i])
        } else {
            None
        }
    }
}

/// Row-major positions lie below the size of the matrix.
proof fn lemma_entry_in_range(rows: usize, columns: usize, row: usize, column: usize)
    requires
        row < rows,
        column < columns,
    ensures
        0 <= row * columns <= row * columns + column < rows * columns,
{
    assert(row * columns + columns <= rows * columns) by (nonlinear_arith)
        requires
            row < rows,
    ;
}

/// The metadata of a plotfile: its header, and the cell headers loaded so far.
pub struct PlotFile<S> {
    header: Header<S>,
    cell_headers: Vec<Option<CellHeader<S>>>,
}

impl<S: Copy> PlotFile<S> {
    /// What the header says.
    pub closed spec fn head(self) -> HeaderModel<S> {
        self.header@
    }

    /// What the cell header of a level says, once it is loaded.
    pub closed spec fn cells(self, level: int) -> Option<CellHeaderModel<S>> {
        match self.cell_headers@[level] {
            Some(c) => Some(c@),
            None => None,
        }
    }

    /// The header is consistent, and every loaded cell header fits its level.
    pub closed spec fn wf(self) -> bool {
        &&& consistent(self.header@)
        &&& numbered(self.header.variables@)
        &&& self.cell_headers@.len() == self.header.level_records@.len()
        &&& forall|i: int|
            0 <= i < self.cell_headers@.len() ==> (#[trigger] self.cell_headers@[i] matches Some(c)
                ==> cell_consistent(c@) && matches_level(self.header@, i, c@))
    }

    /// What every loaded cell header is known to satisfy.
    pub proof fn lemma_wf(self)
        requires
            self.wf(),
        ensures
            consistent(self.head()),
            forall|i: int|
                0 <= i < self.head().records.len() ==> (#[trigger] self.cells(i) matches Some(c)
                    ==> cell_consistent(c) && matches_level(self.head(), i, c)),
    {
        assert forall|i: int| 0 <= i < self.head().records.len() implies (
        #[trigger] self.cells(i) matches Some(c) ==> cell_consistent(c) && matches_level(
            self.head(),
            i,
            c,
        )) by {
            assert(self.cell_headers@[i] is Some || self.cell_headers@[i] is None);
        }
    }

    /// A plotfile with the given header and no cell header loaded.
    pub fn new(header: Header<S>) -> (r: Self)
        requires
            consistent(header@),
            numbered(header.variables@),
        ensures
            r.wf(),
            r.head() == header@,
            forall|i: int| 0 <= i < header@.records.len() ==> #[trigger] r.cells(i) is None,
    {
        let n = header.level_records.len();
        let mut cell_headers: Vec<Option<CellHeader<S>>> = Vec::new();
        let mut i: usize = 0;
        while i < n
            invariant
                i <= n,
                cell_headers@.len() == i,
                forall|j: int| 0 <= j < i ==> #[trigger] cell_headers@[j] is None,
            decreases n - i,
        {
            cell_headers.push(None);
            i += 1;
        }
        PlotFile { header, cell_headers }
    }

    /// Return the parsed top-level header.
    pub fn header(&self) -> (r: &Header<S>)
        ensures
            r@ == self.head(),
            self.wf() ==> numbered(r.variables@),
    {
        &self.header
    }

    /// Return all variables in component order.
    pub fn variables(&self) -> (r: &[Variable])
        requires
            self.wf(),
        ensures
            names_of(r@) == self.head().names,
            numbered(r@),
    {
        self.header.variables.as_slice()
    }

    /// Find a variable by exact name.
    pub fn variable(&self, name: &str) -> (r: Option<&Variable>)
        requires
            self.wf(),
        ensures
            r is None <==> forall|i: int|
                0 <= i < self.head().names.len() ==> #[trigger] self.head().names[i] != name@,
            r matches Some(v) ==> {
                &&& v.name@ == name@
                &&& v.index < self.head().names.len()
                &&& self.head().names[v.index as int] == name@
                &&& forall|i: int| 0 <= i < v.index ==> #[trigger] self.head().names[i] != name@
            },
    {
        let wanted = name.to_owned();
        let mut i: usize = 0;
        while i < self.header.variables.len()
            invariant
                i <= self.header.variables@.len(),
                self.wf(),
                wanted@ == name@,
                forall|j: int| 0 <= j < i ==> #[trigger] self.head().names[j] != name@,
            decreases self.header.variables@.len() - i,
        {
            assert(self.head().names[i as int] == self.header.variables@[i as int].name@);
            if self.header.variables[i].name == wanted {
                return Some(&self.header.variables[i]);
            }
            i += 1;
        }
        None
    }

    /// Return a level view by level index.
    pub fn level(&self, index: usize) -> (r: Option<Level<'_, S>>)
        requires
            self.wf(),
        ensures
            r is Some <==> index < self.head().records.len(),
            r matches Some(level) ==> level.wf() && level.file() == *self && level.number()
                == index,
    {
        if index < self.header.level_records.len() {
            Some(Level { plot_file: self, index })
        } else {
            None
        }
    }

    /// Iterate over all AMR levels.
    pub fn levels(&self) -> (r: Levels<'_, S>)
        requires
            self.wf(),
        ensures
            r.wf(),
            r.file() == *self,
            r.position() == 0,
    {
        Levels { plot_file: self, next: 0 }
    }

    /// Loads the cell header of a level. Refused when it does not fit the header.
    pub fn set_cell_header(&mut self, level: usize, cell_header: CellHeader<S>) -> (r: Result<
        (),
        ParseError,
    >)
        requires
            old(self).wf(),
            cell_consistent(cell_header@),
        ensures
            final(self).wf(),
            final(self).head() == old(self).head(),
            r is Ok <==> matches_level(old(self).head(), level as int, cell_header@),
            r matches Err(e) ==> e == ParseError::Mismatch && *final(self) == *old(self),
            r is Ok ==> final(self).cells(level as int) == Some(cell_header@),
            r is Ok ==> forall|i: int|
                0 <= i < old(self).head().records.len() && i != level ==> #[trigger] final(
                    self).cells(i) == old(self).cells(i),
    {
        match validate_cell_header(&self.header, level, &cell_header) {
            Ok(()) => {
                self.cell_headers[level] = Some(cell_header);
                Ok(())
            },
            Err(e) => Err(e),
        }
    }
}

/// Iterator over AMR levels in ascending level-index order.
pub struct Levels<'a, S> {
    plot_file: &'a PlotFile<S>,
    next: usize,
}

impl<'a, S: Copy> Levels<'a, S> {
    /// The plotfile that this is a view of.
    pub closed spec fn file(self) -> PlotFile<S> {
        *self.plot_file
    }

    /// Index of the level that comes next.
    pub closed spec fn position(self) -> int {
        self.next as int
    }

    /// The plotfile is well-formed, and has what this is a view of.
    pub closed spec fn wf(self) -> bool {
        self.plot_file.wf() && self.next <= self.plot_file.header.level_records@.len()
    }

    /// The next level.
    pub fn next(&mut self) -> (r: Option<Level<'a, S>>)
        requires
            old(self).wf(),
        ensures
            final(self).wf(),
            final(self).file() == old(self).file(),
            r is Some <==> old(self).position() < old(self).file().head().records.len(),
            r matches Some(level) ==> level.wf() && level.file() == old(self).file()
                && level.number() == old(self).position() && final(self).position() == old(
                self).position() + 1,
            r is None ==> final(self).position() == old(self).position(),
    {
        let index = self.next;
        if index >= self.plot_file.header.level_records.len() {
            return None;
        }
        self.next = index + 1;
        Some(Level { plot_file: self.plot_file, index })
    }

    /// Number of levels left.
    pub fn len(&self) -> (n: usize)
        requires
            self.wf(),
        ensures
            n == self.file().head().records.len() - self.position(),
    {
        self.plot_file.header.level_records.len() - self.next
    }
}

/// Read-only view of one AMR level.
pub struct Level<'a, S> {
    plot_file: &'a PlotFile<S>,
    index: usize,
}

impl<'a, S> Clone for Level<'a, S> {
    fn clone(&self) -> (r: Self)
        ensures
            r == *self,
    {
        *self
    }
}

impl<'a, S> Copy for Level<'a, S> {

}

impl<'a, S: Copy> Level<'a, S> {
    /// The plotfile that this is a view of.
    pub closed spec fn file(self) -> PlotFile<S> {
        *self.plot_file
    }

    /// The level index.
    pub closed spec fn number(self) -> int {
        self.index as int
    }

    /// The plotfile is well-formed, and has what this is a view of.
    pub closed spec fn wf(self) -> bool {
        self.plot_file.wf() && self.index < self.plot_file.header.level_records@.len()
    }

    /// Level index.
    pub fn index(self) -> (r: usize)
        ensures
            r == self.number(),
    {
        self.index
    }

    /// Simulation time for this level.
    pub fn time(self) -> (r: S)
        requires
            self.wf(),
        ensures
            r == self.file().head().records[self.number()].time,
    {
        self.plot_file.header.level_records[self.index].simulation_time
    }

    /// Time step counter for this level.
    pub fn step(self) -> (r: usize)
        requires
            self.wf(),
        ensures
            r == self.file().head().records[self.number()].step,
    {
        self.plot_file.header.level_records[self.index].level_step
    }

    /// Cell size for this level.
    pub fn cell_size(self) -> (r: Vec3<S>)
        requires
            self.wf(),
        ensures
            r == self.file().head().cell_sizes[self.number()],
    {
        self.plot_file.header.cell_sizes[self.index]
    }

    /// Integer index domain for this level.
    pub fn index_domain(self) -> (r: IndexDomain)
        requires
            self.wf(),
        ensures
            r == self.file().head().index_domains[self.number()],
    {
        self.plot_file.header.index_domains[self.index]
    }

    /// Number of patches on this level.
    pub fn patch_count(self) -> (r: usize)
        requires
            self.wf(),
        ensures
            r == self.file().head().records[self.number()].patches,
    {
        self.plot_file.header.level_records[self.index].number_of_grid_patches
    }

    /// Iterate over patches, once the level's cell header is loaded.
    pub fn patches(self) -> (r: Option<Patches<'a, S>>)
        requires
            self.wf(),
        ensures
            r is Some <==> self.file().cells(self.number()) is Some,
            r matches Some(p) ==> p.wf() && p.file() == self.file() && p.number() == self.number()
                && p.position() == 0,
    {
        match &self.plot_file.cell_headers[self.index] {
            Some(cell_header) => Some(
                Patches { plot_file: self.plot_file, level_index: self.index, cell_header, next: 0 },
            ),
            None => None,
        }
    }
}

/// Iterator over patches on one AMR level.
pub struct Patches<'a, S> {
    plot_file: &'a PlotFile<S>,
    level_index: usize,
    cell_header: &'a CellHeader<S>,
    next: usize,
}

impl<'a, S: Copy> Patches<'a, S> {
    /// The plotfile that this is a view of.
    pub closed spec fn file(self) -> PlotFile<S> {
        *self.plot_file
    }

    /// The level index.
    pub closed spec fn number(self) -> int {
        self.level_index as int
    }

    /// Index of the patch that comes next.
    pub closed spec fn position(self) -> int {
        self.next as int
    }

    /// The plotfile is well-formed, and has what this is a view of.
    pub closed spec fn wf(self) -> bool {
        &&& self.plot_file.wf()
        &&& self.level_index < self.plot_file.header.level_records@.len()
        &&& self.plot_file.cell_headers@[self.level_index as int] == Some(*self.cell_header)
        &&& self.next <= self.plot_file.header.level_records@[self.level_index as int].grids@.len()
    }

    /// The next patch.
    pub fn next(&mut self) -> (r: Option<Patch<'a, S>>)
        requires
            old(self).wf(),
        ensures
            final(self).wf(),
            final(self).file() == old(self).file(),
            final(self).number() == old(self).number(),
            r is Some <==> old(self).position() < old(self).file().head().records[old(
                self).number()].patches,
            r matches Some(p) ==> p.wf() && p.file() == old(self).file() && p.level() == old(
                self).number() && p.number() == old(self).position() && final(self).position()
                == old(self).position() + 1,
            r is None ==> final(self).position() == old(self).position(),
    {
        let grids = &self.plot_file.header.level_records[self.level_index].grids;
        assert(self.plot_file.header@.records[self.level_index as int]
            == self.plot_file.header.level_records@[self.level_index as int]@);
        if self.next >= grids.len() {
            return None;
        }
        let index = self.next;
        self.next = index + 1;
        assert(self.cell_header@.fabs.len() == self.cell_header.fabs@.len());
        Some(
            Patch {
                plot_file: self.plot_file,
                level_index: self.level_index,
                index,
                physical_bounds: &grids[index],
                fab: &self.cell_header.fabs[index],
                bounds: &self.cell_header.bounds,
                ghost_cell_width: self.cell_header.ghost_cell_width,
            },
        )
    }

    /// Number of patches left.
    pub fn len(&self) -> (n: usize)
        requires
            self.wf(),
        ensures
            n == self.file().head().records[self.number()].patches - self.position(),
    {
        assert(self.plot_file.header@.records[self.level_index as int]
            == self.plot_file.header.level_records@[self.level_index as int]@);
        self.plot_file.header.level_records[self.level_index].grids.len() - self.next
    }
}

/// Read-only view of one AMReX FAB patch.
pub struct Patch<'a, S> {
    plot_file: &'a PlotFile<S>,
    level_index: usize,
    index: usize,
    physical_bounds: &'a BoundingBox<S>,
    fab: &'a BoxInfo,
    bounds: &'a ComponentBounds<S>,
    ghost_cell_width: usize,
}

impl<'a, S> Clone for Patch<'a, S> {
    fn clone(&self) -> (r: Self)
        ensures
            r == *self,
    {
        *self
    }
}

impl<'a, S> Copy for Patch<'a, S> {

}

impl<'a, S: Copy> Patch<'a, S> {
    /// The plotfile that this is a view of.
    pub closed spec fn file(self) -> PlotFile<S> {
        *self.plot_file
    }

    /// Index of the level.
    pub closed spec fn level(self) -> int {
        self.level_index as int
    }

    /// Index of the patch within its level.
    pub closed spec fn number(self) -> int {
        self.index as int
    }

    /// The record of the patch's level.
    pub open spec fn record(self) -> RecordModel<S> {
        self.file().head().records[self.level()]
    }

    /// The cell header of the patch's level.
    pub open spec fn cell_header(self) -> CellHeaderModel<S> {
        self.file().cells(self.level())->0
    }

    /// The plotfile is well-formed, and has what this is a view of.
    pub closed spec fn wf(self) -> bool {
        &&& self.plot_file.wf()
        &&& self.level_index < self.plot_file.header.level_records@.len()
        &&& self.plot_file.cell_headers@[self.level_index as int] matches Some(c) && {
            &&& self.index < c.fabs@.len()
            &&& *self.fab == c.fabs@[self.index as int]
            &&& *self.bounds == c.bounds
            &&& self.ghost_cell_width == c.ghost_cell_width
            &&& *self.physical_bounds
                == self.plot_file.header.level_records@[self.level_index as int].grids@[self.index as int]
        }
    }

    /// Number of variables of the plotfile.
    pub fn variable_count(self) -> (r: usize)
        requires
            self.wf(),
        ensures
            r == self.file().head().names.len(),
    {
        self.plot_file.header.variables.len()
    }

    /// Level index containing this patch.
    pub fn level_index(self) -> (r: usize)
        ensures
            r == self.level(),
    {
        self.level_index
    }

    /// Patch index within its level.
    pub fn index(self) -> (r: usize)
        ensures
            r == self.number(),
    {
        self.index
    }

    /// Physical-space patch bounds from the top-level header.
    pub fn physical_bounds(self) -> (r: BoundingBox<S>)
        requires
            self.wf(),
        ensures
            r == self.record().grids[self.number()],
    {
        *self.physical_bounds
    }

    /// Integer box covered by this patch, excluding ghost cells.
    pub fn index_box(self) -> (r: IndexDomain)
        requires
            self.wf(),
        ensures
            r == self.cell_header().fabs[self.number()].domain,
    {
        self.fab.box_info
    }

    /// Minimum value for a component on this patch, if present in `Cell_H`.
    pub fn component_min(self, component: usize) -> (r: Option<S>)
        requires
            self.wf(),
        ensures
            r == if component < self.cell_header().component_count {
                Some(
                    self.cell_header().minima[self.number() * self.cell_header().component_count
                        + component],
                )
            } else {
                None
            },
    {
        proof {
            if component < self.bounds.component_count {
                lemma_entry_in_range(
                    self.bounds.patch_count,
                    self.bounds.component_count,
                    self.index,
                    component,
                );
            }
        }
        self.bounds.get_minima(self.index, component)
    }

    /// Maximum value for a component on this patch, if present in `Cell_H`.
    pub fn component_max(self, component: usize) -> (r: Option<S>)
        requires
            self.wf(),
        ensures
            r == if component < self.cell_header().component_count {
                Some(
                    self.cell_header().maxima[self.number() * self.cell_header().component_count
                        + component],
                )
            } else {
                None
            },
    {
        proof {
            if component < self.bounds.component_count {
                lemma_entry_in_range(
                    self.bounds.patch_count,
                    self.bounds.component_count,
                    self.index,
                    component,
                );
            }
        }
        self.bounds.get_maxima(self.index, component)
    }

    /// FAB data filename relative to the level directory.
    pub fn data_file(self) -> (r: &'a str)
        requires
            self.wf(),
        ensures
            r@ == self.cell_header().fabs[self.number()].file_name,
    {
        self.fab.file_name.as_str()
    }

    /// Byte offset of this patch's FAB record in [`Patch::data_file`].
    pub fn data_offset(self) -> (r: u64)
        requires
            self.wf(),
        ensures
            r == self.cell_header().fabs[self.number()].file_offset,
    {
        self.fab.file_offset
    }

    /// Number of ghost cells stored around this patch.
    pub fn ghost_cell_width(self) -> (r: usize)
        requires
            self.wf(),
        ensures
            r == self.cell_header().ghost_cell_width,
    {
        self.ghost_cell_width
    }
}

} // verus!
