//! AMReX plotfile metadata, sparse AMR grids and isosurface extraction logic.

pub mod cli;
pub mod compact;
pub mod data_reader;
pub mod isosurface;
pub mod laws;
pub mod native_file;
pub mod native_file_parse;
pub mod outcome;
pub mod slice;
pub mod sparse_amr;
pub mod text_parsing;
pub mod utility;
pub mod vec3;

pub use compact::{CompactOptions, CompactPlot};
pub use data_reader::{ByteOrder, ComponentView, ScalarType, Values};
pub use isosurface::mesh::Mesh3D;
pub use isosurface::{isosurface_compact, IsosurfaceOptions, Sample, Surface};
pub use native_file::{
    BoundingBox, BoxInfo, CellHeader, ComponentBounds, CoordinateSystem, Header, IndexDomain,
    Level, Levels, Patch, Patches, PerLevelRecord, PlotFile, V1StorageMode, Variable,
};
pub use native_file_parse::{read_header, read_hyper_cell_header};
