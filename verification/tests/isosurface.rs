use amrex_rs::compact::archive::CompactArchive;
use amrex_rs::compact::{
    build_active_dual_cubes, selected_component_ids, CompactLevel, CompactOptions, CompactPlot,
};
use amrex_rs::data_reader::RawScalar;
use amrex_rs::isosurface::dedup::dedup_mesh_vertices;
use amrex_rs::isosurface::dual_grid::{DualGridLevel, LevelRange};
use amrex_rs::isosurface::extraction::{isosurface_compact_mc33, isosurface_mc33};
use amrex_rs::isosurface::mc33;
use amrex_rs::isosurface::mc33::tables::{Lut, Tables, TilingTable};
use amrex_rs::isosurface::mc33::{
    face_corners, interior_verdict, reference_corners, resolve_tiling, test_face, test_internal,
    InteriorTest, Resolution,
};
use amrex_rs::isosurface::mesh::{
    flip_face_winding, has_repeated_index, merge_all, merge_mesh, remove_degenerate_triangles,
    Mesh3D, MeshError,
};
use amrex_rs::isosurface::mesher::{BuildError, FaceVerdict, VertexKey};
use amrex_rs::isosurface::parallel::LevelError;
use amrex_rs::isosurface::rmt;
use amrex_rs::isosurface::rmt::EdgeSpot;
use amrex_rs::isosurface::sampling::{
    sampled_values_at, sampled_values_on_edge, sampled_values_weighted, SampleError,
};
use amrex_rs::isosurface::surface::{into_mesh, mc33_level, rmt_level};
use amrex_rs::compact::{CompactError, CompactLoadError};
use amrex_rs::isosurface::{
    isosurface, isosurface_compact, required_components, validate_isosurface_options,
    ExtractError, Extraction, IsosurfaceOptions, PlotSurfaceError, Sample, SampleSpec, Surface,
    SurfaceError,
};
use amrex_rs::sparse_amr::load::{LoadError, PlotLoadError};
use amrex_rs::native_file::PlotFile;
use amrex_rs::native_file_parse::{read_header, read_hyper_cell_header};
use amrex_rs::sparse_amr::level_translation;
use amrex_rs::utility::sparse_grid3::{Aabb3u, Present, SparseGrid3};
use amrex_rs::vec3::{I64Vec3, IVec3, UVec3, Vec3};

type Position = [f32; 3];
type Uv = [f32; 2];
type Grid = SparseGrid3<f32>;

fn zero() -> UVec3 {
    UVec3::new(0, 0, 0)
}

fn unit_x() -> UVec3 {
    UVec3::new(1, 0, 0)
}

fn d3(v: f64) -> Vec3<f64> {
    Vec3 { x: v, y: v, z: v }
}

fn encode_unorm16(value: f32, range: (f64, f64)) -> u16 {
    let normalized = ((f64::from(value) - range.0) / (range.1 - range.0)).clamp(0.0, 1.0);
    (normalized * f64::from(u16::MAX)).round() as u16
}

fn lerp_values(a: f32, b: f32, t: f32) -> f32 {
    (b - a).mul_add(t, a)
}

fn crossing(samples: &Grid, isovalue: f32, a: UVec3, b: UVec3) -> f32 {
    let start = samples.get(a).unwrap();
    let end = samples.get(b).unwrap();
    if end == start {
        0.5
    } else {
        ((isovalue - start) / (end - start)).clamp(0.0, 1.0)
    }
}

fn vertex(samples: &Grid, isovalue: f32, key: VertexKey) -> Result<(Position, Uv), SampleError> {
    let center = |p: UVec3| [p.x as f32 + 0.5, p.y as f32 + 0.5, p.z as f32 + 0.5];
    let position = match key {
        VertexKey::Grid(p) => center(p),
        VertexKey::Edge(a, b) => {
            let t = crossing(samples, isovalue, a, b);
            let (p, q) = (center(a), center(b));
            [
                lerp_values(p[0], q[0], t),
                lerp_values(p[1], q[1], t),
                lerp_values(p[2], q[2], t),
            ]
        }
        VertexKey::Interior(p) => [p.x as f32 + 1.0, p.y as f32 + 1.0, p.z as f32 + 1.0],
    };
    Ok((position, [0.0, 0.0]))
}

fn sub(a: Position, b: Position) -> Position {
    [a[0] - b[0], a[1] - b[1], a[2] - b[2]]
}

fn cross(a: Position, b: Position) -> Position {
    [
        a[1] * b[2] - a[2] * b[1],
        a[2] * b[0] - a[0] * b[2],
        a[0] * b[1] - a[1] * b[0],
    ]
}

fn dot(a: Position, b: Position) -> f32 {
    a[0] * b[0] + a[1] * b[1] + a[2] * b[2]
}

fn triangle_normal(positions: &[Position], face: [u32; 3]) -> Position {
    let a = positions[face[0] as usize];
    let b = positions[face[1] as usize];
    let c = positions[face[2] as usize];
    cross(sub(b, a), sub(c, a))
}

fn flatness(a: (Position, Uv), b: (Position, Uv), c: (Position, Uv), _p: UVec3) -> FaceVerdict {
    let normal = cross(sub(b.0, a.0), sub(c.0, a.0));
    if dot(normal, normal) == 0.0 {
        FaceVerdict::Flat
    } else {
        FaceVerdict::Keep
    }
}

fn outward(a: (Position, Uv), b: (Position, Uv), c: (Position, Uv), inside: UVec3) -> FaceVerdict {
    let normal = cross(sub(b.0, a.0), sub(c.0, a.0));
    if dot(normal, normal) == 0.0 {
        return FaceVerdict::Flat;
    }
    let center = [
        (a.0[0] + b.0[0] + c.0[0]) / 3.0,
        (a.0[1] + b.0[1] + c.0[1]) / 3.0,
        (a.0[2] + b.0[2] + c.0[2]) / 3.0,
    ];
    let point = [
        inside.x as f32 + 0.5,
        inside.y as f32 + 0.5,
        inside.z as f32 + 0.5,
    ];
    if dot(normal, sub(point, center)) > 0.0 {
        FaceVerdict::Swap
    } else {
        FaceVerdict::Keep
    }
}

fn spot_at(isovalue: f32, regularization: f32, start: f32, end: f32) -> EdgeSpot {
    let t = if end == start {
        0.5
    } else {
        ((isovalue - start) / (end - start)).clamp(0.0, 1.0)
    };
    if t <= regularization {
        EdgeSpot::Start
    } else if t >= 1.0 - regularization {
        EdgeSpot::End
    } else {
        EdgeSpot::Middle
    }
}

fn lut(rows: usize, columns: usize, depth: usize) -> Lut {
    Lut {
        rows,
        columns,
        depth,
        data: vec![0; rows * columns * depth],
    }
}

/// Tables that know the cubes cut by an axis-aligned plane between two opposite faces.
fn plane_tables() -> Tables {
    let mut cases = lut(256, 2, 1);
    for (row, pattern) in [15usize, 51, 153, 102, 204, 240].iter().enumerate() {
        cases.data[pattern * 2] = 8;
        cases.data[pattern * 2 + 1] = row as i8;
    }
    let mut tilings = Vec::new();
    for n in 0..38 {
        let table = TilingTable::at(n);
        let corners = 3 * table.triangle_count();
        tilings.push(if table == TilingTable::T8 {
            Lut {
                rows: 6,
                columns: 6,
                depth: 1,
                data: vec![
                    9, 8, 10, 10, 8, 11, 1, 5, 3, 3, 5, 7, 0, 4, 2, 4, 6, 2, 0, 2, 4, 4, 2, 6, 1,
                    3, 5, 3, 7, 5, 9, 10, 8, 10, 11, 8,
                ],
            }
        } else if table.variant_count() == 0 {
            lut(1, corners, 1)
        } else {
            lut(1, table.variant_count(), corners)
        });
    }
    let mut tests = Vec::new();
    for columns in [1, 1, 3, 5, 3, 4, 7] {
        tests.push(lut(1, columns, 1));
    }
    Tables {
        cases,
        subconfig13: lut(64, 1, 1),
        tests,
        tilings,
    }
}

fn no_face_test(_values: [f32; 8], _face: i8) -> bool {
    false
}

fn no_interior_test(_values: [f32; 8], _test: InteriorTest) -> bool {
    false
}

fn x_ramp() -> Grid {
    let mut samples = SparseGrid3::new(UVec3::splat(2));
    for z in 0..2 {
        for y in 0..2 {
            for x in 0..2 {
                samples.set(UVec3::new(x, y, z), x as f32);
            }
        }
    }
    samples
}

fn one_cube() -> SparseGrid3<Present> {
    let mut active = SparseGrid3::new(UVec3::splat(1));
    active.set(zero(), Present);
    active
}

fn plot_of(samples: Grid, cubes: SparseGrid3<Present>) -> CompactPlot<f64, f32> {
    CompactPlot {
        variable_count: 1,
        refinement_ratios: Vec::new(),
        component_ids: vec![0],
        levels: vec![CompactLevel {
            level_index: 0,
            index_origin: IVec3::new(0, 0, 0),
            physical_origin: d3(0.0),
            cell_size: d3(1.0),
            components: vec![samples],
            eligible_cubes: cubes,
        }],
    }
}

fn surface_options(value: f64, flip_winding: bool) -> IsosurfaceOptions<f64> {
    IsosurfaceOptions {
        surface: Surface { id: 0, value },
        sampled_quantities: Vec::new(),
        levels: None,
        flip_winding,
    }
}

fn finite(v: f64) -> bool {
    v.is_finite()
}

fn less(a: f64, b: f64) -> bool {
    a < b
}

fn narrow(v: f64) -> Option<f32> {
    let w = v as f32;
    if w.is_finite() {
        Some(w)
    } else {
        None
    }
}

fn mesh_by_cubes(
    level: &DualGridLevel<'_, f64, f32>,
    request: &Extraction<f64, f32>,
) -> Result<Mesh3D<Position, Uv>, LevelError<BuildError<SampleError>>> {
    let isovalue = request.isovalue;
    mc33_level(
        level.samples,
        &level.active_cubes,
        &plane_tables(),
        &|v: f32| v > isovalue,
        &no_face_test,
        &no_interior_test,
        &|key: VertexKey| vertex(level.samples, isovalue, key),
        &flatness,
    )
}

fn is_above(isovalue: f32, value: f32) -> bool {
    value > isovalue
}

fn no_level_face_test(_isovalue: f32, _values: [f32; 8], _face: i8) -> bool {
    false
}

fn no_level_interior_test(_isovalue: f32, _values: [f32; 8], _test: InteriorTest) -> bool {
    false
}

fn level_vertex(
    level: &DualGridLevel<'_, f64, f32>,
    request: &Extraction<f64, f32>,
    key: VertexKey,
) -> Result<(Position, Uv), SampleError> {
    vertex(level.samples, request.isovalue, key)
}

fn extract(
    plot: &CompactPlot<f64, f32>,
    options: &IsosurfaceOptions<f64>,
) -> Mesh3D<Position, Uv> {
    isosurface_compact_mc33(
        plot,
        options,
        &finite,
        &less,
        &narrow,
        &plane_tables(),
        &is_above,
        &no_level_face_test,
        &no_level_interior_test,
        &level_vertex,
        &flatness,
    )
    .unwrap()
}

fn adjacent_sample_regions() {
    let mut samples = SparseGrid3::new(UVec3::new(3, 2, 2));
    let left = Aabb3u::new(zero(), UVec3::new(1, 2, 2));
    let right = Aabb3u::new(UVec3::new(1, 0, 0), UVec3::new(3, 2, 2));
    samples.fill_aabb(left, 1.0);
    samples.fill_aabb(right, 2.0);

    let active = build_active_dual_cubes(&samples, &[left, right]);
    assert_eq!(active.bounds(), UVec3::new(2, 1, 1));
    assert_eq!(active.present_voxel_count(), 2);
    assert!(active.contains(UVec3::new(0, 0, 0)));
    assert!(active.contains(UVec3::new(1, 0, 0)));
}

fn incomplete_cube() {
    let mut samples = SparseGrid3::new(UVec3::new(2, 2, 2));
    let region = samples.bounds_aabb();
    samples.fill_aabb(region, 1.0);
    samples.clear(UVec3::new(1, 1, 1));

    let active = build_active_dual_cubes(&samples, &[region]);
    assert!(active.is_empty());
}

fn local_coordinates() {
    let offset = level_translation(IVec3::new(-4, 3, 10), IVec3::new(-7, 8, 20), 2).unwrap();
    assert_eq!(offset, I64Vec3::new(-1, -2, 0));
}

fn edge_samples() {
    let mut u = SparseGrid3::new(UVec3::new(2, 1, 1));
    u.set(zero(), 0.0);
    u.set(unit_x(), 10.0);
    let mut v = SparseGrid3::new(UVec3::new(2, 1, 1));
    v.set(zero(), -5.0);
    v.set(unit_x(), 15.0);
    let ranges = vec![(0.0, 10.0), (0.0, 10.0)];

    let uv = sampled_values_on_edge(
        &vec![&u, &v],
        zero(),
        unit_x(),
        &ranges,
        &|a: f32, b: f32, range: (f64, f64)| encode_unorm16(lerp_values(a, b, 0.25), range),
    )
    .unwrap();
    assert_eq!(uv, [16_384, 0]);
}

#[test]
fn tests_active_cubes_span_adjacent_sample_regions() {
    adjacent_sample_regions();
}

#[test]
fn isosurface_active_cubes_span_adjacent_sample_regions() {
    adjacent_sample_regions();
}

#[test]
fn tests_incomplete_dual_cube_is_not_active() {
    incomplete_cube();
}

#[test]
fn isosurface_incomplete_dual_cube_is_not_active() {
    incomplete_cube();
}

#[test]
fn tests_translation_relates_level_local_coordinates() {
    local_coordinates();
}

#[test]
fn isosurface_translation_relates_level_local_coordinates() {
    local_coordinates();
}

#[test]
fn tests_edge_samples_are_interpolated_normalized_and_encoded_as_uv() {
    edge_samples();
}

#[test]
fn isosurface_edge_samples_are_interpolated_normalized_and_encoded_as_uv() {
    edge_samples();
}

#[test]
fn snapped_samples_are_clamped_and_unused_axis_is_zero() {
    let mut u = SparseGrid3::new(UVec3::new(1, 1, 1));
    u.set(zero(), 12.0);
    let ranges = vec![(0.0, 10.0)];

    let uv = sampled_values_at(&vec![&u], zero(), &ranges, &|v: f32, range: (f64, f64)| {
        encode_unorm16(v, range)
    })
    .unwrap();
    assert_eq!(uv, [u16::MAX, 0]);
}

#[test]
fn weighted_samples_blend_the_corners() {
    let u = x_ramp();
    let corners = [
        UVec3::new(0, 0, 0),
        UVec3::new(1, 0, 0),
        UVec3::new(1, 1, 0),
        UVec3::new(0, 1, 0),
        UVec3::new(0, 0, 1),
        UVec3::new(1, 0, 1),
        UVec3::new(1, 1, 1),
        UVec3::new(0, 1, 1),
    ];
    let uv = sampled_values_weighted(
        &vec![&u],
        &corners,
        &vec![(0.0, 1.0)],
        &|v: [f32; 8], range: (f64, f64)| encode_unorm16(v.iter().sum::<f32>() / 8.0, range),
    )
    .unwrap();
    assert_eq!(uv, [32_768, 0]);
}

#[test]
fn sampling_errors_are_told_apart() {
    let u = x_ramp();
    let code = |_v: f32, _range: (f64, f64)| 0u16;
    let range = (0.0, 1.0);
    assert_eq!(
        sampled_values_at(&vec![&u], zero(), &vec![], &code),
        Err(SampleError::CountMismatch)
    );
    assert_eq!(
        sampled_values_at(&vec![&u, &u, &u], zero(), &vec![range, range, range], &code),
        Err(SampleError::TooManyChannels)
    );
    let far = UVec3::new(5, 0, 0);
    assert_eq!(
        sampled_values_at(&vec![&u], far, &vec![range], &code),
        Err(SampleError::Missing(far))
    );
}

#[test]
fn mc33_extracts_a_plane_without_tetrahedral_diagonals() {
    let samples = x_ramp();
    let active = one_cube();
    let mesher = mc33::mesh_level_aabb(
        &samples,
        &active,
        active.bounds_aabb(),
        &plane_tables(),
        &|v: f32| v > 0.5,
        &no_face_test,
        &no_interior_test,
        &|key: VertexKey| vertex(&samples, 0.5, key),
        &flatness,
    );
    let mesh = match mesher {
        Ok(mesher) => into_mesh(mesher),
        Err(e) => panic!("{e:?}"),
    };

    assert_eq!(mesh.positions.len(), 4);
    assert_eq!(mesh.uv.len(), 4);
    assert_eq!(mesh.indices.len(), 2);
    assert!(mesh
        .positions
        .iter()
        .all(|position| (position[0] - 1.0).abs() < 1.0e-6));
    assert!(mesh
        .indices
        .iter()
        .all(|&face| dot(triangle_normal(&mesh.positions, face), [1.0, 0.0, 0.0]) < 0.0));
}

#[test]
fn public_mesher_extracts_across_active_chunks() {
    let mut samples = SparseGrid3::new(UVec3::new(34, 2, 2));
    samples.fill_aabb(samples.bounds_aabb(), 0.0);
    for z in 0..2 {
        for y in 0..2 {
            for x in 17..34 {
                samples.set(UVec3::new(x, y, z), 1.0);
            }
        }
    }
    let mut active_cubes = SparseGrid3::new(UVec3::new(33, 1, 1));
    active_cubes.fill_aabb(active_cubes.bounds_aabb(), Present);
    let compact = plot_of(samples, active_cubes);

    let mesh = extract(&compact, &surface_options(0.5, false));

    assert!(!mesh.positions.is_empty(), "expected extracted vertices");
    assert!(!mesh.indices.is_empty(), "expected extracted faces");
}

#[test]
fn public_mesher_flip_winding_inverts_lower_quantity_front_face() {
    let compact = plot_of(x_ramp(), one_cube());
    let mesh = extract(&compact, &surface_options(0.5, false));
    assert!(!mesh.indices.is_empty(), "expected extracted faces");
    assert!(mesh
        .indices
        .iter()
        .all(|&face| dot(triangle_normal(&mesh.positions, face), [1.0, 0.0, 0.0]) < 0.0));

    let flipped = extract(&compact, &surface_options(0.5, true));
    assert_eq!(flipped.indices.len(), mesh.indices.len());
    assert!(flipped
        .indices
        .iter()
        .all(|&face| dot(triangle_normal(&flipped.positions, face), [1.0, 0.0, 0.0]) > 0.0));
}

#[test]
fn level_range_leaves_levels_out() {
    let compact = plot_of(x_ramp(), one_cube());
    let mut options = surface_options(0.5, false);
    options.levels = Some(LevelRange { start: 0, end: 0 });
    assert!(!extract(&compact, &options).positions.is_empty());
    options.levels = Some(LevelRange { start: 1, end: 1 });
    let mesh = extract(&compact, &options);
    assert!(mesh.positions.is_empty());
    assert!(mesh.indices.is_empty());
}

#[test]
fn covered_coarse_cubes_are_not_meshed() {
    let mut compact = plot_of(x_ramp(), one_cube());
    let mut fine = SparseGrid3::new(UVec3::splat(4));
    fine.set(zero(), 0.0);
    compact.refinement_ratios.push(2);
    compact.levels.push(CompactLevel {
        level_index: 1,
        index_origin: IVec3::new(0, 0, 0),
        physical_origin: d3(0.0),
        cell_size: d3(0.5),
        components: vec![fine],
        eligible_cubes: SparseGrid3::new(UVec3::splat(3)),
    });
    assert!(extract(&compact, &surface_options(0.5, false)).indices.is_empty());
    let mut coarse_only = surface_options(0.5, false);
    coarse_only.levels = Some(LevelRange { start: 0, end: 0 });
    assert_eq!(extract(&compact, &coarse_only).indices.len(), 2);
}

#[test]
fn unknown_sign_pattern_of_case_thirteen_is_an_error() {
    let mut tables = plane_tables();
    tables.cases.data[102 * 2] = 13;
    tables.cases.data[102 * 2 + 1] = 0;
    tables.tests[6].data = vec![1, 2, 3, 4, 5, 6, 1];
    for n in 0..64 {
        tables.subconfig13.data[n] = -1;
    }
    assert!(tables.validate());
    let r = resolve_tiling(102, [0.0f32; 8], &tables, &no_face_test, &no_interior_test);
    assert_eq!(r, Resolution::Unresolved);

    let samples = x_ramp();
    let active = one_cube();
    let r = mc33::mesh_level_aabb(
        &samples,
        &active,
        active.bounds_aabb(),
        &tables,
        &|v: f32| v > 0.5,
        &no_face_test,
        &no_interior_test,
        &|key: VertexKey| vertex(&samples, 0.5, key),
        &flatness,
    );
    assert!(matches!(r, Err(BuildError::Unresolved(p)) if p == zero()));
}

#[test]
fn case_thirteen_counts_the_joined_faces() {
    let mut tables = plane_tables();
    tables.cases.data[102 * 2] = 13;
    tables.cases.data[102 * 2 + 1] = 0;
    tables.tests[6].data = vec![1, -2, 3, 4, 5, 6, 1];
    tables.subconfig13.data[5] = 20;
    let r = resolve_tiling(
        102,
        [0.0f32; 8],
        &tables,
        &|_v: [f32; 8], face: i8| face == 1 || face == 3,
        &no_interior_test,
    );
    match r {
        Resolution::Found(tiling) => {
            assert_eq!(tiling.table, TilingTable::T13Three);
            assert_eq!(tiling.subconfig, Some(1));
            assert_eq!(tiling.triangle_count, 12);
        }
        other => panic!("{other:?}"),
    }
}

/// The face test of the marching cubes, on samples around zero.
fn face_test(values: [f32; 8], face: i8) -> bool {
    let determinant = |v: [f32; 4]| v[0] * v[2] - v[1] * v[3];
    test_face(
        values,
        face,
        &|v: [f32; 4]| determinant(v).abs() < f32::EPSILON,
        &|face: i8, v: [f32; 4]| f32::from(face) * v[0] * determinant(v) >= 0.0,
    )
}

/// The interior test of the marching cubes, on samples around zero.
fn interior_test(v: [f32; 8], test: InteriorTest) -> bool {
    test_internal(
        v,
        test,
        0.0,
        &|v: [f32; 8]| {
            let a = (v[4] - v[0]) * (v[6] - v[2]) - (v[7] - v[3]) * (v[5] - v[1]);
            let b = v[2] * (v[4] - v[0]) + v[0] * (v[6] - v[2])
                - v[1] * (v[7] - v[3])
                - v[3] * (v[5] - v[1]);
            let t = -b / (2.0 * a + f32::EPSILON);
            if (0.0..=1.0).contains(&t) {
                Some(t)
            } else {
                None
            }
        },
        &|start: f32, end: f32| start / (start - end + f32::EPSILON),
        &|a: f32, b: f32, t: f32| a + (b - a) * t,
        &|x: f32| x >= 0.0,
        &|v: [f32; 4]| v[0] * v[2] - v[1] * v[3] < f32::EPSILON,
    )
}

#[test]
fn ambiguous_faces_follow_the_diagonals() {
    let values = [1.0, -3.0, 1.0, -1.0, -1.0, 2.0, -1.0, 1.0];
    assert!(!face_test(values, 1));
    assert!(face_test(values, -1));
    let even = [1.0, -1.0, 1.0, -1.0, -1.0, 1.0, -1.0, 1.0];
    assert!(face_test(even, 2));
    assert!(!face_test(even, -2));
}

#[test]
fn ambiguous_interiors_follow_the_blended_values() {
    let inside = InteriorTest {
        reference: None,
        sign: 1,
    };
    let values = [1.0, -1.0, -1.0, -1.0, -1.0, -1.0, 1.0, -1.0];
    assert!(interior_test(values, inside));
    let thick = [9.0, -1.0, 8.0, -1.0, 8.0, -1.0, 9.0, -1.0];
    assert!(!interior_test(thick, inside));
    let along = InteriorTest {
        reference: Some(0),
        sign: -1,
    };
    assert!(interior_test([1.0, -1.0, 2.0, 2.0, 2.0, 2.0, 2.0, 2.0], along));
    assert!(!interior_test([1.0, -1.0, -2.0, -2.0, -2.0, -2.0, -2.0, -2.0], along));
}

/// Tables in which every sign pattern but the first and the last has triangles.
fn full_tables() -> Tables {
    let mut tables = plane_tables();
    for pattern in 1..255 {
        tables.cases.data[pattern * 2] = (pattern % 14) as i8 + 1;
        tables.cases.data[pattern * 2 + 1] = 0;
    }
    for lut in &mut tables.tilings {
        for (i, edge) in lut.data.iter_mut().enumerate() {
            *edge = (i % 12) as i8;
        }
    }
    tables.tests[0].data = vec![1];
    tables.tests[1].data = vec![7];
    tables.tests[2].data = vec![-3, 7, 4];
    tables.tests[3].data = vec![1, 2, -5, 7, 3];
    tables.tests[4].data = vec![2, 4, 7];
    tables.tests[5].data = vec![4, 3, 7, 11];
    tables.tests[6].data = vec![1, 2, 3, 4, 5, 6, 7];
    for n in 0..64 {
        tables.subconfig13.data[n] = (n % 46) as i8;
    }
    tables
}

#[test]
fn every_binary_case_resolves_to_valid_edges() {
    let tables = full_tables();
    assert!(tables.validate());
    for case_index in 0..256usize {
        let values: [f32; 8] = std::array::from_fn(|corner| {
            if case_index & (1 << corner) != 0 {
                1.0
            } else {
                -1.0
            }
        });
        match resolve_tiling(case_index, values, &tables, &face_test, &interior_test) {
            Resolution::Found(tiling) => {
                for index in 0..tiling.triangle_count * 3 {
                    assert!(tiling.edge(&tables, index) <= 12, "case {case_index}");
                }
            }
            Resolution::Empty => assert!(case_index == 0 || case_index == 255),
            Resolution::Unresolved => panic!("case {case_index}"),
        }
    }
}

#[test]
fn ill_formed_tables_are_found() {
    assert!(plane_tables().validate());
    let mut tables = plane_tables();
    tables.tilings[15].data[0] = 13;
    assert!(!tables.validate());
    let mut tables = plane_tables();
    tables.cases.data[102 * 2 + 1] = 6;
    assert!(!tables.validate());
    let mut tables = plane_tables();
    tables.tests.pop();
    assert!(!tables.validate());
}

#[test]
fn face_and_edge_tests_name_cube_corners() {
    assert_eq!(face_corners(-1), [0, 4, 5, 1]);
    assert_eq!(face_corners(6), [4, 7, 6, 5]);
    assert_eq!(reference_corners(0), [0, 1, 3, 2, 7, 6, 4, 5]);
    assert_eq!(reference_corners(11), [3, 7, 2, 6, 1, 5, 0, 4]);
}

#[test]
fn interior_verdict_follows_the_corner_signs() {
    assert!(interior_verdict(false, false, false, false, false, 1));
    assert!(!interior_verdict(true, true, true, false, false, 1));
    assert!(interior_verdict(true, true, true, false, false, -1));
    assert!(interior_verdict(true, false, true, false, true, 1));
    assert!(!interior_verdict(true, false, true, false, false, 1));
    assert!(!interior_verdict(false, true, false, true, true, 1));
    assert!(interior_verdict(false, true, false, true, false, 1));
}

#[test]
fn marching_tetrahedra_extracts_a_plane() {
    let samples = x_ramp();
    let active = one_cube();
    let mesher = rmt::mesh_level_aabb(
        &samples,
        &active,
        active.bounds_aabb(),
        &|v: f32| v >= 0.5,
        &|a: f32, b: f32| spot_at(0.5, 0.0, a, b),
        &|key: VertexKey| vertex(&samples, 0.5, key),
        &outward,
    );
    let mesh = match mesher {
        Ok(mesher) => into_mesh(mesher),
        Err(e) => panic!("{e:?}"),
    };
    let vertices = mesh.positions;
    let faces = mesh.indices;

    assert!(!vertices.is_empty());
    assert!(!faces.is_empty());
    assert!(vertices
        .iter()
        .all(|position| (position[0] - 1.0).abs() < 1.0e-6));
    assert!(faces.iter().all(|face| {
        face[0] < vertices.len() as u32
            && face[1] < vertices.len() as u32
            && face[2] < vertices.len() as u32
    }));
}

#[test]
fn regularization_snaps_vertices_to_the_lattice() {
    let samples = x_ramp();
    let active = one_cube();
    let mesh = rmt_level(
        &samples,
        &active,
        &|v: f32| v >= 0.1,
        &|a: f32, b: f32| spot_at(0.1, 0.2, a, b),
        &|key: VertexKey| vertex(&samples, 0.1, key),
        &outward,
    );
    match mesh {
        Ok(mesh) => {
            assert_eq!(mesh.positions.len(), 4);
            assert!(mesh.positions.iter().all(|p| p[0] == 0.5));
            assert_eq!(mesh.indices.len(), 2);
        }
        Err(e) => panic!("{e:?}"),
    }
}

#[test]
fn missing_samples_are_reported() {
    let mut samples = x_ramp();
    let corner = UVec3::new(1, 0, 1);
    samples.clear(corner);
    let active = one_cube();
    let r = rmt_level(
        &samples,
        &active,
        &|v: f32| v >= 0.5,
        &|a: f32, b: f32| spot_at(0.5, 0.0, a, b),
        &|key: VertexKey| vertex(&samples, 0.5, key),
        &outward,
    );
    assert!(matches!(
        r,
        Err(LevelError::Chunk(BuildError::MissingSample(p))) if p == corner
    ));
}

#[test]
fn failing_vertices_stop_the_level() {
    let compact = plot_of(x_ramp(), one_cube());
    let fail = |level: &DualGridLevel<'_, f64, f32>, request: &Extraction<f64, f32>| {
        let isovalue = request.isovalue;
        rmt_level(
            level.samples,
            &level.active_cubes,
            &|v: f32| v >= isovalue,
            &|a: f32, b: f32| spot_at(isovalue, 0.0, a, b),
            &|_key: VertexKey| Err::<(Position, Uv), u8>(7),
            &outward,
        )
    };
    let r = isosurface_compact(
        &compact,
        &surface_options(0.5, false),
        &finite,
        &less,
        &narrow,
        &fail,
    );
    assert!(matches!(
        r,
        Err(SurfaceError::Level(0, LevelError::Chunk(BuildError::Vertex(7))))
    ));
}

fn refusal(options: &IsosurfaceOptions<f64>) -> Option<ExtractError> {
    let compact = plot_of(x_ramp(), one_cube());
    match isosurface_compact(&compact, options, &finite, &less, &narrow, &mesh_by_cubes) {
        Err(SurfaceError::Refused(e)) => Some(e),
        _ => None,
    }
}

fn sample(id: u32, min: f64, max: f64) -> Sample<f64> {
    Sample { id, min, max }
}

#[test]
fn bad_requests_are_refused() {
    let mut options = surface_options(f64::NAN, false);
    assert_eq!(refusal(&options), Some(ExtractError::ValueNotFinite));
    options.surface.value = 1.0e300;
    assert_eq!(refusal(&options), Some(ExtractError::ValueTooLarge));
    options.surface.value = 0.5;
    options.surface.id = 1;
    assert_eq!(refusal(&options), Some(ExtractError::ComponentOutOfRange(1)));
    options.surface.id = 0;
    options.levels = Some(LevelRange { start: 1, end: 0 });
    assert_eq!(refusal(&options), Some(ExtractError::LevelRangeEmpty));
    options.levels = None;
    options.sampled_quantities = vec![sample(0, 0.0, 1.0), sample(0, 0.0, 1.0), sample(0, 0.0, 1.0)];
    assert_eq!(refusal(&options), Some(ExtractError::TooManySamples));
    options.sampled_quantities = vec![sample(0, f64::INFINITY, 1.0)];
    assert_eq!(refusal(&options), Some(ExtractError::RangeNotFinite));
    options.sampled_quantities = vec![sample(0, 1.0, 1.0)];
    assert_eq!(refusal(&options), Some(ExtractError::RangeEmpty));
    options.sampled_quantities = vec![sample(3, 0.0, 1.0)];
    assert_eq!(refusal(&options), Some(ExtractError::ComponentOutOfRange(3)));
    options.sampled_quantities = vec![sample(0, 0.0, 1.0)];
    assert_eq!(refusal(&options), None);
}

#[test]
fn unloaded_components_and_bad_ratios_are_refused() {
    let refused = |plot: &CompactPlot<f64, f32>| {
        let options = surface_options(0.5, false);
        match isosurface_compact(plot, &options, &finite, &less, &narrow, &mesh_by_cubes) {
            Err(SurfaceError::Refused(e)) => Some(e),
            _ => None,
        }
    };
    let mut plot = plot_of(x_ramp(), one_cube());
    plot.component_ids = vec![4];
    assert_eq!(refused(&plot), Some(ExtractError::ComponentNotLoaded(0)));

    let mut plot = plot_of(x_ramp(), one_cube());
    plot.levels[0].components.clear();
    assert_eq!(refused(&plot), Some(ExtractError::MissingSlot));

    let mut plot = plot_of(x_ramp(), one_cube());
    plot.levels.push(CompactLevel {
        level_index: 1,
        index_origin: IVec3::new(0, 0, 0),
        physical_origin: d3(0.0),
        cell_size: d3(0.5),
        components: vec![SparseGrid3::new(UVec3::splat(4))],
        eligible_cubes: SparseGrid3::new(UVec3::splat(3)),
    });
    assert_eq!(refused(&plot), Some(ExtractError::MissingRatio));
    plot.refinement_ratios = vec![0];
    assert_eq!(refused(&plot), Some(ExtractError::ZeroRatio));
    plot.refinement_ratios = vec![1 << 40];
    assert_eq!(refused(&plot), Some(ExtractError::RatioTooLarge));
    plot.refinement_ratios = vec![2];
    assert_eq!(refused(&plot), None);
}

#[test]
fn accepted_requests_name_their_components() {
    let mut options = surface_options(0.5, false);
    options.surface.id = 2;
    options.sampled_quantities = vec![sample(0, 0.0, 1.0), sample(1, -1.0, 3.0)];
    let (component, isovalue, specs) =
        validate_isosurface_options(3, &options, &finite, &less, &narrow).unwrap();
    assert_eq!(component, 2);
    assert_eq!(isovalue, 0.5f32);
    let ids: Vec<usize> = specs.iter().map(|s: &SampleSpec<f64>| s.component).collect();
    assert_eq!(ids, vec![0, 1]);
    assert_eq!((specs[1].min, specs[1].max), (-1.0, 3.0));
    assert_eq!(required_components(component, &specs), vec![2, 0, 1]);
}

#[test]
fn flip_face_winding_swaps_new_face_orientation() {
    let mut faces = [[1, 2, 3], [4, 5, 6]];
    flip_face_winding(&mut faces);
    assert_eq!(faces, [[1, 3, 2], [4, 6, 5]]);
    flip_face_winding(&mut faces);
    assert_eq!(faces, [[1, 2, 3], [4, 5, 6]]);
}

fn distance_squared(a: Position, b: Position) -> f32 {
    let d = sub(a, b);
    d[0].mul_add(d[0], d[1].mul_add(d[1], d[2] * d[2]))
}

fn uv_distance_squared(a: Uv, b: Uv) -> f32 {
    let du = a[0] - b[0];
    let dv = a[1] - b[1];
    du.mul_add(du, dv * dv)
}

fn bucket(value: f32, epsilon: f32) -> i64 {
    (value / epsilon).floor() as i64
}

fn dedup(mesh: &mut Mesh3D<Position, Uv>, epsilon: f32) -> Result<usize, MeshError> {
    let key_of = |p: Position, uv: Option<Uv>| {
        let t = uv.unwrap_or([0.0, 0.0]);
        if p.iter().chain(t.iter()).all(|c| c.is_finite()) {
            Ok([
                bucket(p[0], epsilon),
                bucket(p[1], epsilon),
                bucket(p[2], epsilon),
                bucket(t[0], epsilon),
                bucket(t[1], epsilon),
            ])
        } else {
            Err(MeshError::NotFinite)
        }
    };
    let near = |p: Position, u: Option<Uv>, q: Position, v: Option<Uv>| {
        distance_squared(p, q) <= epsilon * epsilon
            && match (u, v) {
                (Some(u), Some(v)) => uv_distance_squared(u, v) <= epsilon * epsilon,
                _ => true,
            }
    };
    dedup_mesh_vertices(mesh, &key_of, &near)
}

#[test]
fn dedup_mesh_vertices_merges_by_position_and_uv_thresholds() {
    let mut mesh = Mesh3D {
        positions: vec![
            [0.0, 0.0, 0.0],
            [0.0005, 0.0, 0.0],
            [0.0005, 0.0, 0.0],
            [1.0, 0.0, 0.0],
        ],
        uv: vec![[0.25, 0.5], [0.2504, 0.5], [0.9, 0.5], [1.0, 0.0]],
        indices: vec![[0, 1, 3], [0, 2, 3]],
    };

    let removed = dedup(&mut mesh, 0.001).unwrap();

    assert_eq!(removed, 1);
    assert_eq!(mesh.positions.len(), 3);
    assert_eq!(mesh.uv.len(), 3);
    assert_eq!(mesh.indices, vec![[0, 0, 2], [0, 1, 2]]);
}

#[test]
fn dedup_mesh_vertices_supports_position_only_meshes() {
    let mut mesh = Mesh3D {
        positions: vec![[0.0, 0.0, 0.0], [0.0005, 0.0, 0.0], [1.0, 0.0, 0.0]],
        uv: Vec::new(),
        indices: vec![[0, 1, 2]],
    };

    let removed = dedup(&mut mesh, 0.001).unwrap();

    assert_eq!(removed, 1);
    assert!(mesh.uv.is_empty());
    assert_eq!(mesh.indices, vec![[0, 0, 1]]);
}

#[test]
fn dedup_mesh_vertices_rejects_partial_uv_buffer() {
    let mut mesh = Mesh3D {
        positions: vec![[0.0, 0.0, 0.0], [1.0, 0.0, 0.0]],
        uv: vec![[0.0, 0.0]],
        indices: Vec::new(),
    };
    let key_of = |_p: Position, _u: Option<Uv>| Ok([0i64; 5]);
    let near = |_p: Position, _u: Option<Uv>, _q: Position, _v: Option<Uv>| true;
    let r = dedup_mesh_vertices(&mut mesh, &key_of, &near);
    assert!(r.is_err());
    assert_eq!(r, Err(MeshError::LengthMismatch));
}

#[test]
fn dedup_rejects_bad_values_and_indices() {
    let mut mesh = Mesh3D {
        positions: vec![[f32::NAN, 0.0, 0.0]],
        uv: Vec::new(),
        indices: vec![[0, 0, 0]],
    };
    assert_eq!(dedup(&mut mesh, 0.001), Err(MeshError::NotFinite));
    mesh.positions[0] = [0.0, 0.0, 0.0];
    mesh.indices[0] = [0, 1, 0];
    assert_eq!(dedup(&mut mesh, 0.001), Err(MeshError::IndexOutOfBounds));
    mesh.positions.clear();
    assert_eq!(dedup(&mut mesh, 0.001), Ok(0));
}

fn area_squared(a: Position, b: Position, c: Position) -> f32 {
    let n = cross(sub(b, a), sub(c, a));
    0.25 * dot(n, n)
}

fn clean(mesh: &mut Mesh3D<Position, Uv>, epsilon: f32) -> Result<usize, MeshError> {
    remove_degenerate_triangles(
        mesh,
        &|p: Position| p.iter().all(|c| c.is_finite()),
        &|a: Position, b: Position, c: Position| area_squared(a, b, c) <= epsilon * epsilon,
    )
}

#[test]
fn remove_degenerate_triangles_drops_repeated_indices_and_tiny_faces() {
    let mut mesh = Mesh3D {
        positions: vec![
            [0.0, 0.0, 0.0],
            [1.0, 0.0, 0.0],
            [0.0, 1.0, 0.0],
            [0.0001, 0.0, 0.0],
        ],
        uv: Vec::new(),
        indices: vec![[0, 1, 2], [0, 0, 2], [0, 3, 1]],
    };

    let removed = clean(&mut mesh, 0.001).unwrap();

    assert_eq!(removed, 2);
    assert_eq!(mesh.indices, vec![[0, 1, 2]]);
}

#[test]
fn remove_degenerate_triangles_keeps_exact_nonzero_area_when_threshold_is_zero() {
    let mut mesh = Mesh3D {
        positions: vec![[0.0, 0.0, 0.0], [0.0001, 0.0, 0.0], [0.0, 0.0001, 0.0]],
        uv: Vec::new(),
        indices: vec![[0, 1, 2]],
    };

    let removed = clean(&mut mesh, 0.0).unwrap();

    assert_eq!(removed, 0);
    assert_eq!(mesh.indices, vec![[0, 1, 2]]);
}

#[test]
fn remove_degenerate_triangles_rejects_out_of_bounds_indices() {
    let mut mesh = Mesh3D {
        positions: vec![[0.0, 0.0, 0.0]],
        uv: Vec::new(),
        indices: vec![[0, 1, 2]],
    };

    assert!(clean(&mut mesh, 0.0).is_err());
    assert_eq!(clean(&mut mesh, 0.0), Err(MeshError::IndexOutOfBounds));
    mesh.positions = vec![[0.0; 3], [f32::INFINITY; 3], [0.0; 3]];
    assert_eq!(clean(&mut mesh, 0.0), Err(MeshError::NotFinite));
    assert!(has_repeated_index([1, 2, 1]));
}

#[test]
fn merged_meshes_keep_their_geometry() {
    let part = || Mesh3D {
        positions: vec![0u8, 1, 2],
        uv: vec![5u8, 6, 7],
        indices: vec![[0, 1, 2]],
    };
    let mesh = merge_all(vec![part(), part()]).unwrap();
    assert_eq!(mesh.positions, vec![0, 1, 2, 0, 1, 2]);
    assert_eq!(mesh.uv, vec![5, 6, 7, 5, 6, 7]);
    assert_eq!(mesh.indices, vec![[0, 1, 2], [3, 4, 5]]);
}

#[test]
fn merging_refuses_bad_parts() {
    let mut mesh = Mesh3D {
        positions: vec![0u8],
        uv: vec![0u8],
        indices: Vec::new(),
    };
    let short = Mesh3D {
        positions: vec![0u8],
        uv: Vec::new(),
        indices: Vec::new(),
    };
    assert_eq!(merge_mesh(&mut mesh, short), Err(MeshError::LengthMismatch));
    let wide = Mesh3D {
        positions: vec![0u8],
        uv: vec![0u8],
        indices: vec![[0, 0, u32::MAX]],
    };
    assert_eq!(merge_mesh(&mut mesh, wide), Err(MeshError::IndexTooLarge));
    assert_eq!(mesh.positions.len(), 1);
}

fn number(text: &[char]) -> Option<f64> {
    text.iter().collect::<String>().parse().ok()
}

fn to_sample(raw: RawScalar) -> f32 {
    match raw {
        RawScalar::F32(bits) => f32::from_bits(bits),
        RawScalar::F64(bits) => f64::from_bits(bits) as f32,
    }
}

fn single_cube_plotfile() -> PlotFile<f64> {
    let header = "HyperCLaw-V1.1\n1\ndensity\n3\n0\n0\n0 0 0\n2 2 2\n\n\
         ((0,0,0) (1,1,1) (0,0,0))\n0\n1 1 1\n0\n0\n0 1 0\n0\n\
         0 2\n0 2\n0 2\nLevel_0/Cell\n";
    let cells = "1\n1\n1\n0\n(1 0\n((0,0,0) (1,1,1) (0,0,0))\n)\n1\n\
         FabOnDisk: Cell_D_00000 0\n1,1\n0\n1,1\n1\n";
    let mut plot = PlotFile::new(read_header(header.as_bytes().to_vec(), &number).unwrap());
    let cells = read_hyper_cell_header(cells.as_bytes().to_vec(), &number).unwrap();
    plot.set_cell_header(0, cells).unwrap();
    plot
}

fn single_cube_shard(values: [f64; 8]) -> Vec<u8> {
    let mut shard =
        b"FAB ((8, (64 11 52 0 1 12 0 1023)),(8, (8 7 6 5 4 3 2 1)))((0,0,0) (1,1,1) (0,0,0)) 1\n"
            .to_vec();
    for value in values {
        shard.extend_from_slice(&value.to_le_bytes());
    }
    shard
}

fn load_single_cube(plotfile: &PlotFile<f64>, values: [f64; 8]) -> CompactPlot<f64, f32> {
    let shard = single_cube_shard(values);
    let ids = selected_component_ids(plotfile.variables().len(), &CompactOptions::default());
    let file_of = |_level: usize, _patch: usize| Ok::<&[u8], ()>(&shard);
    CompactPlot::load(plotfile, &ids.unwrap(), &file_of, &to_sample).unwrap()
}

const RAMP: [f64; 8] = [0.0, 1.0, 0.0, 1.0, 0.0, 1.0, 0.0, 1.0];

#[test]
fn tests_public_api_extracts_from_a_plotfile() {
    let shard = single_cube_shard(RAMP);
    let mesh = isosurface_mc33(
        &single_cube_plotfile(),
        &surface_options(0.5, false),
        &|_level: usize, _patch: usize| Ok::<&[u8], ()>(&shard),
        &to_sample,
        &finite,
        &less,
        &narrow,
        &plane_tables(),
        &is_above,
        &no_level_face_test,
        &no_level_interior_test,
        &level_vertex,
        &flatness,
    )
    .unwrap();
    assert!(!mesh.positions.is_empty(), "expected extracted vertices");
    assert!(!mesh.indices.is_empty(), "expected extracted faces");

    let compact = load_single_cube(&single_cube_plotfile(), RAMP);
    let mesh = extract(&compact, &surface_options(0.5, false));
    assert!(!mesh.positions.is_empty(), "expected compact extracted vertices");
    assert!(!mesh.indices.is_empty(), "expected compact extracted faces");

    let mut options = surface_options(0.5, false);
    options.levels = Some(LevelRange { start: 0, end: 0 });
    let mesh = extract(&compact, &options);
    assert!(
        !mesh.positions.is_empty(),
        "expected selected level extracted vertices"
    );

    options.levels = Some(LevelRange { start: 1, end: 1 });
    let mesh = extract(&compact, &options);
    assert!(
        mesh.positions.is_empty(),
        "unexpected vertices from omitted level"
    );
    assert!(
        mesh.indices.is_empty(),
        "unexpected faces from omitted level"
    );
}

fn mesh_by_tetrahedra(
    level: &DualGridLevel<'_, f64, f32>,
    request: &Extraction<f64, f32>,
) -> Result<Mesh3D<Position, Uv>, LevelError<BuildError<SampleError>>> {
    let isovalue = request.isovalue;
    rmt_level(
        level.samples,
        &level.active_cubes,
        &|v: f32| v >= isovalue,
        &|a: f32, b: f32| spot_at(isovalue, 0.0, a, b),
        &|key: VertexKey| vertex(level.samples, isovalue, key),
        &outward,
    )
}

#[test]
fn isosurface_public_api_extracts_from_a_plotfile() {
    let shard = single_cube_shard(RAMP);
    let mesh = isosurface(
        &single_cube_plotfile(),
        &surface_options(0.5, false),
        &|_level: usize, _patch: usize| Ok::<&[u8], ()>(&shard),
        &to_sample,
        &finite,
        &less,
        &narrow,
        &mesh_by_tetrahedra,
    )
    .unwrap();
    assert!(!mesh.positions.is_empty(), "expected extracted vertices");
    assert!(!mesh.indices.is_empty(), "expected extracted faces");
}

#[test]
fn writes_compact_archive() {
    let plotfile = single_cube_plotfile();
    let checkers = [0.0, 1.0, 1.0, 0.0, 1.0, 0.0, 0.0, 1.0];
    let plot = load_single_cube(&plotfile, checkers);
    let archive = CompactArchive::from_plot(plotfile.header(), &plot).unwrap();
    assert!(!archive.levels.is_empty(), "compact archive is empty");

    let compact = archive.into_compact_plot().unwrap();
    let options = surface_options(0.5, false);
    let mesh = isosurface_compact(
        &compact,
        &options,
        &finite,
        &less,
        &narrow,
        &mesh_by_tetrahedra,
    )
    .unwrap();
    assert!(!mesh.positions.is_empty(), "expected extracted vertices");
    assert!(!mesh.indices.is_empty(), "expected extracted faces");
}

#[test]
fn loading_failures_are_passed_on() {
    let attempt = |plot: &PlotFile<f64>, id: u32, shard: Result<&'static [u8], u8>| {
        let mut options = surface_options(0.5, false);
        options.surface.id = id;
        isosurface(
            plot,
            &options,
            &|_level: usize, _patch: usize| shard,
            &to_sample,
            &finite,
            &less,
            &narrow,
            &mesh_by_cubes,
        )
        .err()
    };
    let plot = single_cube_plotfile();
    assert!(matches!(
        attempt(&plot, 1, Err(3)),
        Some(PlotSurfaceError::Refused(ExtractError::ComponentOutOfRange(1)))
    ));
    assert!(matches!(
        attempt(&plot, 0, Err(3)),
        Some(PlotSurfaceError::Load(CompactLoadError::Load(
            PlotLoadError::Level(0, LoadError::File(3))
        )))
    ));
    assert!(matches!(
        attempt(&plot, 0, Ok(b"FAB ((\n")),
        Some(PlotSurfaceError::Load(CompactLoadError::Load(
            PlotLoadError::Level(0, LoadError::Fab(_))
        )))
    ));
    let header = "HyperCLaw-V1.1\n1\ndensity\n3\n0\n0\n0 0 0\n2 2 2\n\n\
         ((0,0,0) (1,1,1) (1,0,0))\n0\n1 1 1\n0\n0\n0 0 0\n0\nLevel_0/Cell\n";
    let cells = "1\n1\n1\n0\n(0 0\n)\n0\n0,1\n0,1\n";
    let mut nodal = PlotFile::new(read_header(header.as_bytes().to_vec(), &number).unwrap());
    assert!(matches!(
        attempt(&nodal, 0, Err(3)),
        Some(PlotSurfaceError::Load(CompactLoadError::Load(
            PlotLoadError::Level(0, LoadError::NoCellHeader)
        )))
    ));
    let cells = read_hyper_cell_header(cells.as_bytes().to_vec(), &number).unwrap();
    nodal.set_cell_header(0, cells).unwrap();
    assert!(matches!(
        attempt(&nodal, 0, Err(3)),
        Some(PlotSurfaceError::Load(CompactLoadError::Compact(
            CompactError::NotCellCentered
        )))
    ));
}

#[test]
fn tetrahedra_of_adjacent_cubes_fit_together() {
    let mut samples = SparseGrid3::new(UVec3::splat(6));
    for z in 0..6u32 {
        for y in 0..6u32 {
            for x in 0..6u32 {
                let d = |c: u32| (c as f32 - 2.4) * (c as f32 - 2.4);
                samples.set(UVec3::new(x, y, z), 4.0 - d(x) - d(y) - d(z));
            }
        }
    }
    let active = build_active_dual_cubes(&samples, &[samples.bounds_aabb()]);
    assert_eq!(active.present_voxel_count(), 125);
    let mesh = match rmt_level(
        &samples,
        &active,
        &|v: f32| v >= 1.0,
        &|a: f32, b: f32| spot_at(1.0, 0.0, a, b),
        &|key: VertexKey| vertex(&samples, 1.0, key),
        &outward,
    ) {
        Ok(mesh) => mesh,
        Err(e) => panic!("{e:?}"),
    };
    assert!(mesh.indices.len() > 20);
    let mut edges = std::collections::HashMap::new();
    let mut corners = std::collections::HashSet::new();
    for face in &mesh.indices {
        assert!(!has_repeated_index(*face));
        let mut sorted = *face;
        sorted.sort_unstable();
        assert!(sorted[2] < mesh.positions.len() as u32);
        assert!(corners.insert(sorted));
        for k in 0..3 {
            let (a, b) = (face[k], face[(k + 1) % 3]);
            *edges.entry((a.min(b), a.max(b))).or_insert(0) += 1;
        }
    }
    assert!(edges.values().all(|&count| count == 2));
}

#[test]
fn reference_edges_are_parallel() {
    let offset = |corner: usize| {
        let turn = corner % 4;
        [
            i32::from(turn == 1 || turn == 2),
            i32::from(turn >= 2),
            (corner / 4) as i32,
        ]
    };
    for edge in 0..12 {
        let c = reference_corners(edge);
        let step = |k: usize| {
            let (s, e) = (offset(c[2 * k]), offset(c[2 * k + 1]));
            [e[0] - s[0], e[1] - s[1], e[2] - s[2]]
        };
        for k in 1..4 {
            assert_eq!(step(k), step(0));
        }
    }
}

/// A ramp across two chunks, and a second, finer level beside it.
fn two_level_plot() -> CompactPlot<f64, f32> {
    let mut samples = SparseGrid3::new(UVec3::new(2, 40, 2));
    samples.fill_aabb(samples.bounds_aabb(), 0.0);
    for z in 0..2 {
        for y in 0..40 {
            samples.set(UVec3::new(1, y, z), 1.0);
        }
    }
    let mut cubes = SparseGrid3::new(UVec3::new(1, 39, 1));
    cubes.fill_aabb(cubes.bounds_aabb(), Present);
    let mut plot = plot_of(samples, cubes);
    plot.refinement_ratios.push(2);
    plot.levels.push(CompactLevel {
        level_index: 1,
        index_origin: IVec3::new(0, 80, 0),
        physical_origin: d3(0.0),
        cell_size: d3(0.5),
        components: vec![x_ramp()],
        eligible_cubes: one_cube(),
    });
    plot
}

#[test]
fn flipped_surfaces_have_every_face_turned_over() {
    let plot = two_level_plot();
    let plain = extract(&plot, &surface_options(0.5, false));
    let turned = extract(&plot, &surface_options(0.5, true));
    assert_eq!(plain.indices.len(), 2 * (39 + 1));
    assert_eq!(turned.positions, plain.positions);
    assert_eq!(turned.uv, plain.uv);
    let expected: Vec<[u32; 3]> = plain.indices.iter().map(|&[a, b, c]| [a, c, b]).collect();
    assert_eq!(turned.indices, expected);
}

#[test]
fn surfaces_are_clean() {
    let mesh = extract(&two_level_plot(), &surface_options(0.5, false));
    assert_eq!(mesh.positions.len(), mesh.uv.len());
    let mut seen: Vec<[u32; 3]> = Vec::new();
    for &face in &mesh.indices {
        let mut corners = face;
        corners.sort();
        assert!(corners[0] < corners[1] && corners[1] < corners[2]);
        assert!((corners[2] as usize) < mesh.positions.len());
        assert!(!seen.contains(&corners));
        seen.push(corners);
    }
}

#[test]
fn level_failures_name_the_level() {
    let mut plot = two_level_plot();
    plot.levels[1].components[0].clear(unit_x());
    let r = isosurface_compact_mc33(
        &plot,
        &surface_options(0.5, false),
        &finite,
        &less,
        &narrow,
        &plane_tables(),
        &is_above,
        &no_level_face_test,
        &no_level_interior_test,
        &level_vertex,
        &flatness,
    );
    assert!(matches!(
        r,
        Err(SurfaceError::Level(1, LevelError::Chunk(BuildError::MissingSample(p)))) if p == unit_x()
    ));
}

#[test]
fn surfaces_can_be_meshed_level_by_level() {
    let plot = two_level_plot();
    let options = surface_options(0.5, false);
    let by_level = isosurface_compact(&plot, &options, &finite, &less, &narrow, &mesh_by_cubes);
    assert_eq!(by_level.unwrap().indices, extract(&plot, &options).indices);
}

#[test]
fn deduplication_with_texture_coordinates_leaves_nothing_to_merge() {
    let mut mesh = Mesh3D {
        positions: vec![[0.0, 0.0, 0.0], [0.0004, 0.0, 0.0], [0.0, 0.0, 0.0004]],
        uv: vec![[0.1, 0.1], [0.5, 0.1], [0.1, 0.1]],
        indices: vec![[0, 1, 2]],
    };
    assert_eq!(dedup(&mut mesh, 0.001), Ok(1));
    assert_eq!(mesh.indices, vec![[0, 1, 0]]);
    assert_eq!(dedup(&mut mesh, 0.001), Ok(0));
    assert_eq!(mesh.uv, vec![[0.1, 0.1], [0.5, 0.1]]);
    assert_eq!(mesh.indices, vec![[0, 1, 0]]);
}

#[test]
fn deduplication_leaves_nothing_to_merge() {
    let mut mesh = Mesh3D {
        positions: vec![
            [0.0, 0.0, 0.0],
            [0.0009, 0.0, 0.0],
            [0.0018, 0.0, 0.0],
            [0.5, 0.0, 0.0],
            [0.5, 0.0004, 0.0],
        ],
        uv: Vec::new(),
        indices: vec![[0, 1, 3], [2, 3, 4], [4, 2, 0]],
    };
    assert_eq!(dedup(&mut mesh, 0.001), Ok(2));
    let positions = mesh.positions.clone();
    let indices = mesh.indices.clone();
    assert_eq!(indices, vec![[0, 0, 2], [1, 2, 2], [2, 1, 0]]);
    assert_eq!(dedup(&mut mesh, 0.001), Ok(0));
    assert_eq!(mesh.positions, positions);
    assert_eq!(mesh.indices, indices);
}

#[test]
fn refused_deduplication_leaves_the_mesh_alone() {
    let mut mesh = Mesh3D {
        positions: vec![[0.0, 0.0, 0.0], [0.0, 0.0, 0.0], [f32::INFINITY, 0.0, 0.0]],
        uv: Vec::new(),
        indices: vec![[0, 1, 2]],
    };
    assert_eq!(dedup(&mut mesh, 0.001), Err(MeshError::NotFinite));
    assert_eq!(mesh.positions.len(), 3);
    assert_eq!(mesh.indices, vec![[0, 1, 2]]);
    mesh.positions[2] = [1.0, 0.0, 0.0];
    mesh.indices.push([0, 1, 7]);
    assert_eq!(dedup(&mut mesh, 0.001), Err(MeshError::IndexOutOfBounds));
    assert_eq!(mesh.positions.len(), 3);
    assert_eq!(mesh.indices.len(), 2);
}

fn two_patch_plotfile() -> PlotFile<f64> {
    let header = "HyperCLaw-V1.1\n1\ndensity\n3\n0\n0\n0 0 0\n4 2 2\n\n\
         ((0,0,0) (3,1,1) (0,0,0))\n0\n1 1 1\n0\n0\n0 2 0\n0\n\
         0 2\n0 2\n0 2\n2 4\n0 2\n0 2\nLevel_0/Cell\n";
    let cells = "1\n1\n1\n0\n(2 0\n((0,0,0) (1,1,1) (0,0,0))\n((2,0,0) (3,1,1) (0,0,0))\n)\n2\n\
         FabOnDisk: Cell_D_00000 0\nFabOnDisk: Cell_D_00001 0\n\n2,1\n0,\n0,\n\n2,1\n1\n1\n";
    let mut plot = PlotFile::new(read_header(header.as_bytes().to_vec(), &number).unwrap());
    let cells = read_hyper_cell_header(cells.as_bytes().to_vec(), &number).unwrap();
    plot.set_cell_header(0, cells).unwrap();
    plot
}

#[test]
fn the_first_failing_patch_is_reported() {
    let plot = two_patch_plotfile();
    let shard = single_cube_shard(RAMP);
    let attempt = |first: Result<(), usize>, second: Result<(), usize>| {
        let file_of = |_level: usize, patch: usize| match if patch == 0 { first } else { second } {
            Ok(()) => Ok::<&[u8], usize>(&shard),
            Err(e) => Err(e),
        };
        let loaded: Result<CompactPlot<f64, f32>, _> =
            CompactPlot::load(&plot, &[0], &file_of, &to_sample);
        loaded.err()
    };
    assert!(matches!(
        attempt(Err(5), Err(6)),
        Some(CompactLoadError::Load(PlotLoadError::Level(0, LoadError::File(5))))
    ));
    assert!(matches!(
        attempt(Err(5), Ok(())),
        Some(CompactLoadError::Load(PlotLoadError::Level(0, LoadError::File(5))))
    ));
    assert!(matches!(
        attempt(Ok(()), Err(6)),
        Some(CompactLoadError::Load(PlotLoadError::Level(0, LoadError::File(6))))
    ));
    // The data of the first patch has no values for the second one.
    assert!(matches!(
        attempt(Ok(()), Ok(())),
        Some(CompactLoadError::Load(PlotLoadError::Level(0, _)))
    ));
}
