use amrex_rs::compact::archive::{ArchiveChunk, CompactArchive, FORMAT_VERSION};
use amrex_rs::compact::{
    selected_component_ids, CompactError, CompactOptions, CompactPlot,
};
use amrex_rs::data_reader::{view_record, FabError, RawScalar};
use amrex_rs::native_file::{Header, IndexDomain, PlotFile};
use amrex_rs::native_file_parse::{read_header, read_hyper_cell_header};
use amrex_rs::sparse_amr::load::{LoadError, PlotLoadError};
use amrex_rs::sparse_amr::{
    check_component_ids, index_extent, load_patch_component, local_aabb, AmrError, SparseAmr,
};
use amrex_rs::utility::compress::CompressionOptions;
use amrex_rs::utility::sparse_grid3::{Aabb3u, SparseGrid3};
use amrex_rs::vec3::{IVec3, UVec3, Vec3};

fn number(text: &[char]) -> Option<f64> {
    text.iter().collect::<String>().parse().ok()
}

fn single_cube_header() -> Header<f64> {
    let text = "HyperCLaw-V1.1\n1\ndensity\n3\n0\n0\n0 0 0\n2 2 2\n\n\
         ((0,0,0) (1,1,1) (0,0,0))\n0\n1 1 1\n0\n0\n0 1 0\n0\n\
         0 2\n0 2\n0 2\nLevel_0/Cell\n";
    read_header(text.as_bytes().to_vec(), &number).unwrap()
}

fn single_cube_record() -> Vec<u8> {
    let mut record = b"FAB ((8, (64 11 52 0 1 12 0 1023)),(8, (8 7 6 5 4 3 2 1)))((0,0,0) (1,1,1) (0,0,0)) 1\n".to_vec();
    for value in [0.0_f64, 1.0, 1.0, 0.0, 1.0, 0.0, 0.0, 1.0] {
        record.extend_from_slice(&value.to_le_bytes());
    }
    record
}

fn cube(min: i32, max: i32) -> IndexDomain {
    IndexDomain {
        min: IVec3::new(min, min, min),
        max: IVec3::new(max, max, max),
        index_type: IVec3::new(0, 0, 0),
    }
}

fn convert(raw: RawScalar) -> f32 {
    match raw {
        RawScalar::F32(bits) => f32::from_bits(bits),
        RawScalar::F64(bits) => f64::from_bits(bits) as f32,
    }
}

fn single_cube_plotfile() -> PlotFile<f64> {
    let cells = "1\n1\n1\n0\n(1 0\n((0,0,0) (1,1,1) (0,0,0))\n)\n1\n\
         FabOnDisk: Cell_D_00000 0\n1,1\n0\n1,1\n1\n";
    let mut plot = PlotFile::new(single_cube_header());
    let cells = read_hyper_cell_header(cells.as_bytes().to_vec(), &number).unwrap();
    plot.set_cell_header(0, cells).unwrap();
    plot
}

fn single_cube_sparse() -> SparseAmr<Vec3<f64>, f32> {
    let record = single_cube_record();
    SparseAmr::load(
        &single_cube_plotfile(),
        &[0],
        &|_level: usize, _patch: usize| Ok::<&[u8], ()>(&record),
        &convert,
    )
    .unwrap()
}

fn single_cube_plot() -> CompactPlot<f64, f32> {
    CompactPlot::from_sparse(1, Vec::new(), single_cube_sparse()).unwrap()
}

#[test]
fn patches_load_into_the_level() {
    let sparse = single_cube_sparse();
    let level = &sparse.levels[0];
    assert_eq!(
        level.valid_regions,
        vec![Aabb3u::new(UVec3::splat(0), UVec3::splat(2))]
    );
    let grid = &level.components[0];
    assert_eq!(grid.get(UVec3::new(0, 0, 0)), Some(0.0));
    assert_eq!(grid.get(UVec3::new(1, 0, 0)), Some(1.0));
    assert_eq!(grid.get(UVec3::new(0, 1, 0)), Some(1.0));
    assert_eq!(grid.get(UVec3::new(1, 1, 1)), Some(1.0));
    assert_eq!(grid.present_voxel_count(), 8);
    let plot = single_cube_plot();
    assert!(plot.levels[0].eligible_cubes.contains(UVec3::splat(0)));
    assert_eq!(plot.levels[0].eligible_cubes.present_voxel_count(), 1);
    assert_eq!(plot.component_slot(0), Some(0));
    assert_eq!(plot.component_slot(1), None);
    assert_eq!(plot.variable_count(), 1);
}

#[test]
fn archive_gives_back_what_was_written() {
    let header = single_cube_header();
    let plot = single_cube_plot();
    let archive = CompactArchive::from_plot(&header, &plot).unwrap();
    assert_eq!(&archive.magic, b"AMRCMPCT");
    assert_eq!(archive.version, FORMAT_VERSION);
    assert_eq!(archive.header.variables[0].name, "density");
    let back = archive.into_compact_plot().unwrap();
    assert_eq!(back.variable_count, 1);
    assert_eq!(back.component_ids, vec![0]);
    assert_eq!(back.levels.len(), 1);
    let (a, b) = (&plot.levels[0], &back.levels[0]);
    assert_eq!(a.index_origin, b.index_origin);
    assert_eq!(a.components[0].bounds(), b.components[0].bounds());
    for z in 0..2 {
        for y in 0..2 {
            for x in 0..2 {
                let p = UVec3::new(x, y, z);
                assert_eq!(a.components[0].get(p), b.components[0].get(p));
                assert_eq!(a.eligible_cubes.contains(p), b.eligible_cubes.contains(p));
            }
        }
    }
}

fn archive_error(change: fn(&mut CompactArchive<f64, f32>)) -> Option<CompactError> {
    let mut archive =
        CompactArchive::from_plot(&single_cube_header(), &single_cube_plot()).unwrap();
    change(&mut archive);
    archive.into_compact_plot().err()
}

#[test]
fn broken_archives_are_refused() {
    assert_eq!(archive_error(|_| {}), None);
    assert_eq!(
        archive_error(|a| a.magic[0] = 0),
        Some(CompactError::InvalidMagic)
    );
    assert_eq!(
        archive_error(|a| a.version += 1),
        Some(CompactError::UnsupportedVersion(FORMAT_VERSION + 1))
    );
    assert_eq!(
        archive_error(|a| a.chunk_bits = 4),
        Some(CompactError::UnsupportedChunkSize)
    );
    assert_eq!(
        archive_error(|a| a.component_ids.push(0)),
        Some(CompactError::ComponentCountMismatch)
    );
    assert_eq!(
        archive_error(|a| a.component_ids[0] = 9),
        Some(CompactError::ComponentOutOfRange(9))
    );
    let short = archive_error(|a| {
        if let ArchiveChunk::Dense { values, .. } = &mut a.levels[0].components[0].chunks[0] {
            values.truncate(5);
        }
    });
    assert_eq!(short, Some(CompactError::DenseLength(5)));
}

#[test]
fn component_selection_defaults_to_all() {
    let select = |ids: Vec<u32>| {
        selected_component_ids(3, &CompactOptions { component_ids: ids })
    };
    assert_eq!(selected_component_ids(3, &CompactOptions::default()), Ok(vec![0, 1, 2]));
    assert_eq!(select(vec![2, 0]), Ok(vec![2, 0]));
    assert_eq!(select(vec![3]), Err(CompactError::ComponentOutOfRange(3)));
    assert_eq!(check_component_ids(&[0, 2], 3), Ok(()));
    assert_eq!(check_component_ids(&[0, 3], 3), Err(AmrError::ComponentOutOfRange));
}

#[test]
fn boxes_are_placed_in_their_domain() {
    let domain = cube(-4, 11);
    assert_eq!(index_extent(&domain), Ok(UVec3::splat(16)));
    assert_eq!(index_extent(&cube(0, -1)), Err(AmrError::EmptyDomain));
    assert_eq!(
        local_aabb(&cube(-4, -1), &domain),
        Ok(Aabb3u::new(UVec3::splat(0), UVec3::splat(4)))
    );
    assert_eq!(local_aabb(&cube(8, 12), &domain), Err(AmrError::OutsideDomain));
}

fn load_failure(domain: &str, area: &str, ids: &[usize]) -> Option<String> {
    let header = format!(
        "HyperCLaw-V1.1\n1\ndensity\n3\n0\n0\n0 0 0\n2 2 2\n\n\
         {domain}\n0\n1 1 1\n0\n0\n0 1 0\n0\n\
         0 2\n0 2\n0 2\nLevel_0/Cell\n"
    );
    let cells = format!(
        "1\n1\n1\n0\n(1 0\n{area}\n)\n1\n\
         FabOnDisk: Cell_D_00000 0\n1,1\n0\n1,1\n1\n"
    );
    let mut plot = PlotFile::new(read_header(header.into_bytes(), &number).unwrap());
    let cells = read_hyper_cell_header(cells.into_bytes(), &number).unwrap();
    plot.set_cell_header(0, cells).unwrap();
    let record = single_cube_record();
    SparseAmr::<Vec3<f64>, f32>::load(
        &plot,
        ids,
        &|_level: usize, _patch: usize| Ok::<&[u8], ()>(&record),
        &convert,
    )
    .err()
    .map(|e| format!("{e:?}"))
}

#[test]
fn mismatching_patches_are_refused() {
    let whole = "((0,0,0) (3,3,3) (0,0,0))";
    let cell = "((0,0,0) (1,1,1) (0,0,0))";
    assert_eq!(load_failure(whole, cell, &[0]), None);
    assert_eq!(
        load_failure(whole, cell, &[1]),
        Some(format!("{:?}", PlotLoadError::<()>::ComponentOutOfRange))
    );
    let level = |e: LoadError<()>| Some(format!("{:?}", PlotLoadError::Level(0, e)));
    assert_eq!(
        load_failure(whole, "((0,0,0) (1,1,1) (1,0,0))", &[0]),
        level(LoadError::Amr(AmrError::IndexTypeMismatch))
    );
    assert_eq!(
        load_failure(whole, "((3,0,0) (4,1,1) (0,0,0))", &[0]),
        level(LoadError::Amr(AmrError::OutsideDomain))
    );
    assert_eq!(
        load_failure("((0,0,0) (-1,1,1) (0,0,0))", cell, &[0]),
        level(LoadError::Amr(AmrError::EmptyDomain))
    );
    assert_eq!(
        load_failure(whole, "((1,0,0) (2,1,1) (0,0,0))", &[0]),
        level(LoadError::Fab(FabError::BoxMismatch))
    );
}

#[test]
fn grids_take_the_box_without_ghost_cells() {
    let mut record =
        b"FAB ((4, (32 8 23 0 1 9 0 127)),(4, (4 3 2 1)))((-1,-1,-1) (1,1,1) (0,0,0)) 1\n".to_vec();
    for n in 0..27 {
        record.extend_from_slice(&(n as f32).to_le_bytes());
    }
    let cell = cube(0, 0);
    let view = view_record(&record, 0, 1, 1, cell, 0).unwrap();
    let mut grid = SparseGrid3::<f32>::new(UVec3::splat(4));
    let local = local_aabb(&cell, &cube(-1, 2)).unwrap();
    let origin = IVec3::new(-1, -1, -1);
    assert_eq!(
        load_patch_component(&view, cell, local, origin, &mut grid, &convert),
        Ok(())
    );
    assert_eq!(grid.get(UVec3::splat(1)), Some(13.0));
    assert_eq!(grid.present_voxel_count(), 1);
    let wide = cube(0, 2);
    let local = local_aabb(&wide, &cube(-1, 2)).unwrap();
    assert_eq!(
        load_patch_component(&view, wide, local, origin, &mut grid, &convert),
        Err(AmrError::MissingIndex)
    );
    assert_eq!(grid.present_voxel_count(), 1);
}

#[test]
fn compression_selects_quantities() {
    assert!(CompressionOptions::default().quantity_ids().is_empty());
    assert_eq!(CompressionOptions::new(vec![3, 1]).quantity_ids(), &[3, 1]);
}
