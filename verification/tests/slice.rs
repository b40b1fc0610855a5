use amrex_rs::compact::{build_active_dual_cubes, CompactLevel, CompactPlot};
use amrex_rs::isosurface::dual_grid::LevelRange;
use amrex_rs::isosurface::mesh::Mesh3D;
use amrex_rs::isosurface::mesher::{BuildError, VertexKey};
use amrex_rs::isosurface::{ExtractError, Sample, SampleSpec, SurfaceError};
use amrex_rs::slice::plane::slice_plane_compact;
use amrex_rs::slice::{
    add_axis, axis_index, component, flip_winding, mesh_level, plane_anchor, quad_corners,
    sample_pairs, slice_compact, SliceAxis, SliceLevel, SliceOptions, SlicePlane,
    SliceSampleError,
};
use amrex_rs::utility::sparse_grid3::SparseGrid3;
use amrex_rs::vec3::{IVec3, UVec3, Vec3};

type SliceMesh = Mesh3D<[f32; 3], [f32; 2]>;
type SliceFailure = BuildError<SliceSampleError>;

fn compact_for_linear_field() -> CompactPlot<f64, f32> {
    let mut u = SparseGrid3::new(UVec3::splat(3));
    let mut v = SparseGrid3::new(UVec3::splat(3));
    for z in 0..3 {
        for y in 0..3 {
            for x in 0..3 {
                let p = UVec3::new(x, y, z);
                u.set(p, x as f32);
                v.set(p, (y + z) as f32);
            }
        }
    }
    let eligible_cubes = build_active_dual_cubes(&u, &[u.bounds_aabb()]);
    CompactPlot {
        variable_count: 2,
        refinement_ratios: Vec::new(),
        component_ids: vec![0, 1],
        levels: vec![CompactLevel {
            level_index: 0,
            index_origin: IVec3::new(0, 0, 0),
            physical_origin: Vec3 {
                x: 0.0,
                y: 0.0,
                z: 0.0,
            },
            cell_size: Vec3 {
                x: 1.0,
                y: 1.0,
                z: 1.0,
            },
            components: vec![u, v],
            eligible_cubes,
        }],
    }
}

fn along(v: Vec3<f64>, axis: SliceAxis) -> f64 {
    [v.x, v.y, v.z][axis_index(axis)]
}

fn mesh_plane(
    level: &SliceLevel<'_, f64, f32>,
    specs: &Vec<SampleSpec<f64>>,
    axis: SliceAxis,
    value: f64,
) -> Result<SliceMesh, SliceFailure> {
    let at = (value - along(level.physical_origin, axis)) / along(level.cell_size, axis) - 0.5;
    let lower = at.floor();
    let bound = component(level.active_cubes.bounds(), axis);
    let (layer, at_end) = match plane_anchor(lower as i64, at == lower, bound) {
        Some(found) => found,
        None => return Ok(Mesh3D::new()),
    };
    let t = if at_end { 1.0 } else { (at - lower) as f32 };
    let make = |key: VertexKey| {
        let p = match key {
            VertexKey::Grid(p) => p,
            _ => panic!("slice vertices lie on the lattice"),
        };
        let pairs = sample_pairs(&level.sampled_quantities, axis, p)?;
        let mut uv = [0.0f32; 2];
        for (channel, ((a, b), spec)) in pairs.iter().zip(specs).enumerate() {
            let v = f64::from((b - a).mul_add(t, *a));
            uv[channel] = ((v - spec.min) / (spec.max - spec.min)).clamp(0.0, 1.0) as f32;
        }
        let mut position = [
            (level.physical_origin.x + (f64::from(p.x) + 0.5) * level.cell_size.x) as f32,
            (level.physical_origin.y + (f64::from(p.y) + 0.5) * level.cell_size.y) as f32,
            (level.physical_origin.z + (f64::from(p.z) + 0.5) * level.cell_size.z) as f32,
        ];
        position[axis_index(axis)] = value as f32;
        Ok((position, uv))
    };
    mesh_level(&level.active_cubes, axis, layer, &make)
}

fn place(value: f64, origin: f64, cell_size: f64) -> Option<(i64, bool)> {
    let at = (value - origin) / cell_size - 0.5;
    if at.is_finite() {
        Some((at.floor() as i64, at == at.floor()))
    } else {
        None
    }
}

fn run(
    plot: &CompactPlot<f64, f32>,
    options: &SliceOptions<f64>,
) -> Result<SliceMesh, SurfaceError<SliceFailure>> {
    let axis = options.plane.axis;
    let value = options.plane.value;
    slice_plane_compact(
        plot,
        options,
        &|v: f64| v.is_finite(),
        &|a: f64, b: f64| a < b,
        &place,
        &|origin: Vec3<f64>,
          cell_size: Vec3<f64>,
          at_end: bool,
          p: UVec3,
          specs: &Vec<SampleSpec<f64>>,
          pairs: &Vec<(f32, f32)>| {
            let at = (value - along(origin, axis)) / along(cell_size, axis) - 0.5;
            let t = if at_end { 1.0 } else { (at - at.floor()) as f32 };
            let mut uv = [0.0f32; 2];
            for (channel, ((a, b), spec)) in pairs.iter().zip(specs).enumerate() {
                let v = f64::from((b - a).mul_add(t, *a));
                uv[channel] = ((v - spec.min) / (spec.max - spec.min)).clamp(0.0, 1.0) as f32;
            }
            let mut position = [
                (origin.x + (f64::from(p.x) + 0.5) * cell_size.x) as f32,
                (origin.y + (f64::from(p.y) + 0.5) * cell_size.y) as f32,
                (origin.z + (f64::from(p.z) + 0.5) * cell_size.z) as f32,
            ];
            position[axis_index(axis)] = value as f32;
            (position, uv)
        },
    )
}

fn run_by_level(
    plot: &CompactPlot<f64, f32>,
    options: &SliceOptions<f64>,
) -> Result<SliceMesh, SurfaceError<SliceFailure>> {
    let axis = options.plane.axis;
    let value = options.plane.value;
    slice_compact(
        plot,
        options,
        &|v: f64| v.is_finite(),
        &|a: f64, b: f64| a < b,
        &|level: &SliceLevel<'_, f64, f32>, specs: &Vec<SampleSpec<f64>>| {
            mesh_plane(level, specs, axis, value)
        },
    )
}

fn options(axis: SliceAxis, value: f64, samples: Vec<Sample<f64>>) -> SliceOptions<f64> {
    SliceOptions {
        plane: SlicePlane { axis, value },
        sampled_quantities: samples,
        levels: None,
        flip_winding: false,
    }
}

fn sample(id: u32, min: f64, max: f64) -> Sample<f64> {
    Sample { id, min, max }
}

#[test]
fn x_slice_places_geometry_at_exact_plane_and_interpolates_uvs() {
    let compact = compact_for_linear_field();
    let mesh = run(
        &compact,
        &options(
            SliceAxis::X,
            1.25,
            vec![sample(0, 0.0, 2.0), sample(1, 0.0, 4.0)],
        ),
    )
    .unwrap();

    assert_eq!(mesh.indices.len(), 8);
    assert_eq!(mesh.positions.len(), 9);
    assert!(mesh.positions.iter().all(|p| (p[0] - 1.25).abs() < 1.0e-6));
    let min_u = mesh.uv.iter().map(|uv| uv[0]).fold(f32::INFINITY, f32::min);
    assert!((min_u - 0.375).abs() < 1.0e-6);
    assert!(mesh.uv.iter().all(|uv| (0.0..=1.0).contains(&uv[1])));
}

fn normal_z(mesh: &SliceMesh, face: [u32; 3]) -> f32 {
    let a = mesh.positions[face[0] as usize];
    let b = mesh.positions[face[1] as usize];
    let c = mesh.positions[face[2] as usize];
    (b[0] - a[0]) * (c[1] - a[1]) - (b[1] - a[1]) * (c[0] - a[0])
}

#[test]
fn flip_winding_inverts_slice_orientation() {
    let compact = compact_for_linear_field();
    let mut request = options(SliceAxis::Z, 1.25, vec![sample(0, 0.0, 2.0)]);
    let mesh = run(&compact, &request).unwrap();
    request.flip_winding = true;
    let flipped = run(&compact, &request).unwrap();

    assert!(normal_z(&mesh, mesh.indices[0]) < 0.0);
    assert!(normal_z(&flipped, flipped.indices[0]) > 0.0);
}

#[test]
fn planes_outside_the_data_give_no_mesh() {
    let compact = compact_for_linear_field();
    for value in [0.25, 2.75] {
        let mesh = run(
            &compact,
            &options(SliceAxis::Y, value, vec![sample(0, 0.0, 2.0)]),
        )
        .unwrap();
        assert!(mesh.positions.is_empty());
        assert!(mesh.indices.is_empty());
    }
    let last = run(
        &compact,
        &options(SliceAxis::Y, 2.5, vec![sample(0, 0.0, 2.0)]),
    )
    .unwrap();
    assert_eq!(last.indices.len(), 8);
}

#[test]
fn layers_are_found_below_the_plane() {
    assert_eq!(plane_anchor(1, false, 4), Some((1, false)));
    assert_eq!(plane_anchor(1, true, 4), Some((0, true)));
    assert_eq!(plane_anchor(0, true, 4), Some((0, false)));
    assert_eq!(plane_anchor(4, true, 4), Some((3, true)));
    assert_eq!(plane_anchor(4, false, 4), None);
    assert_eq!(plane_anchor(-1, false, 4), None);
    assert_eq!(plane_anchor(0, false, 0), None);
}

#[test]
fn slice_requests_are_checked() {
    let compact = compact_for_linear_field();
    let refusal = |request: &SliceOptions<f64>| match run(&compact, request) {
        Err(SurfaceError::Refused(e)) => Some(e),
        _ => None,
    };
    let good = || sample(0, 0.0, 2.0);
    assert_eq!(
        refusal(&options(SliceAxis::X, f64::NAN, vec![good()])),
        Some(ExtractError::ValueNotFinite)
    );
    assert_eq!(
        refusal(&options(SliceAxis::X, 1.0, vec![])),
        Some(ExtractError::NoSamples)
    );
    assert_eq!(
        refusal(&options(SliceAxis::X, 1.0, vec![good(), good(), good()])),
        Some(ExtractError::TooManySamples)
    );
    assert_eq!(
        refusal(&options(SliceAxis::X, 1.0, vec![sample(2, 0.0, 1.0)])),
        Some(ExtractError::ComponentOutOfRange(2))
    );
    assert_eq!(
        refusal(&options(SliceAxis::X, 1.0, vec![sample(0, 2.0, 1.0)])),
        Some(ExtractError::RangeEmpty)
    );
    let mut request = options(SliceAxis::X, 1.0, vec![good()]);
    request.levels = Some(LevelRange { start: 3, end: 9 });
    assert_eq!(refusal(&request), None);
    assert!(run(&compact, &request).unwrap().positions.is_empty());
}

#[test]
fn missing_slice_samples_are_reported() {
    let mut compact = compact_for_linear_field();
    let gap = UVec3::new(2, 0, 0);
    compact.levels[0].components[1].clear(gap);
    let r = run(
        &compact,
        &options(SliceAxis::X, 1.75, vec![sample(0, 0.0, 2.0), sample(1, 0.0, 4.0)]),
    );
    assert!(matches!(
        r,
        Err(SurfaceError::Level(0, BuildError::Vertex(SliceSampleError::Missing(p)))) if p == gap
    ));
    let grid = SparseGrid3::<f32>::new(UVec3::splat(1));
    assert_eq!(
        sample_pairs(&vec![&grid], SliceAxis::X, UVec3::splat(u32::MAX)),
        Err(SliceSampleError::CoordinateOverflow)
    );
}

#[test]
fn axes_step_and_turn() {
    let p = UVec3::new(1, 2, 3);
    assert_eq!(add_axis(p, SliceAxis::Y, 5), Some(UVec3::new(1, 7, 3)));
    assert_eq!(add_axis(p, SliceAxis::Z, u32::MAX), None);
    assert_eq!(
        quad_corners(SliceAxis::Z, p),
        [
            UVec3::new(1, 2, 3),
            UVec3::new(1, 3, 3),
            UVec3::new(2, 3, 3),
            UVec3::new(2, 2, 3)
        ]
    );
    let mut faces = [[0, 1, 2]];
    flip_winding(&mut faces);
    assert_eq!(faces, [[0, 2, 1]]);
    assert_eq!(axis_index(SliceAxis::Z), 2);
}

#[test]
fn slices_have_two_faces_per_cube_of_the_layer() {
    let mut compact = compact_for_linear_field();
    compact.levels[0].eligible_cubes.clear(UVec3::new(1, 0, 1));
    let faces = |axis: SliceAxis, value: f64| {
        let request = options(axis, value, vec![sample(0, 0.0, 2.0)]);
        let mesh = run(&compact, &request).unwrap();
        let by_level = run_by_level(&compact, &request).unwrap();
        assert_eq!(mesh.positions, by_level.positions);
        assert_eq!(mesh.uv, by_level.uv);
        assert_eq!(mesh.indices, by_level.indices);
        mesh.indices.len()
    };
    assert_eq!(faces(SliceAxis::X, 1.25), 8);
    assert_eq!(faces(SliceAxis::X, 1.75), 6);
    assert_eq!(faces(SliceAxis::Y, 0.75), 6);
    assert_eq!(faces(SliceAxis::Y, 1.75), 8);
    assert_eq!(faces(SliceAxis::Z, 2.5), 6);
    assert_eq!(faces(SliceAxis::Z, 9.0), 0);
}

#[test]
fn flipped_slices_have_every_face_turned_over() {
    let compact = compact_for_linear_field();
    let mut request = options(SliceAxis::Y, 1.25, vec![sample(1, 0.0, 4.0)]);
    let plain = run(&compact, &request).unwrap();
    request.flip_winding = true;
    let turned = run(&compact, &request).unwrap();
    assert_eq!(turned.positions, plain.positions);
    assert_eq!(turned.uv, plain.uv);
    let expected: Vec<[u32; 3]> = plain.indices.iter().map(|&[a, b, c]| [a, c, b]).collect();
    assert_eq!(turned.indices, expected);
}
