# amrex_rs

A Verus library for AMReX plotfiles: plotfile metadata, FAB records, chunked sparse grids,
compact AMR data, and the extraction of isosurfaces and axis-aligned slices. Every public
function of the library carries a contract, and Verus proves them. Five private functions that
call `std` or `rayon` are the exception: their contracts are believed, and their doc comments say
what is claimed of the function that they call.

Floating-point arithmetic is the caller's. Physical quantities and samples are of types that
the caller chooses, and the few operations on them are functions that the caller hands in.

## Layout

- `src/native_file.rs`, `src/native_file_parse.rs`, `src/text_parsing.rs`: `Header` and `Cell_H`
  metadata, and their text formats.
- `src/data_reader.rs`: FAB records and the values of their components.
- `src/utility/sparse_grid3/`: the sparse grid, its chunks and masks.
- `src/sparse_amr.rs`, `src/sparse_amr/load.rs`: loading the levels of a plotfile.
- `src/compact.rs`, `src/compact/archive.rs`: compact plots and their archived form.
- `src/isosurface.rs`, `src/isosurface/`: marching cubes, marching tetrahedra, meshes, vertex
  merging and parallel extraction.
- `src/slice.rs`, `src/slice/plane.rs`: slices.
- `src/cli.rs`: command lines.
- `app/`: the programs: file access, serialization and floating-point geometry.
- `tests/`: tests.

## Marching cubes tables

The MC33 lookup tables are data. `Tables::validate` checks them once; the extraction then relies
on them. The program reads them from the file that `AMREX_MC33_TABLES` names.
