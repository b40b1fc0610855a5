use amrex_rs::utility::sparse_grid3::{Aabb3u, GridError, SparseGrid3};
use amrex_rs::vec3::{I64Vec3, UVec3};

#[test]
fn fill_get_clear_single_chunk() {
    let mut grid = SparseGrid3::<u8>::new(UVec3::new(64, 64, 64));
    let aabb = Aabb3u::new(UVec3::new(2, 3, 4), UVec3::new(8, 9, 10));
    grid.fill_aabb(aabb, 7);

    assert_eq!(grid.get(UVec3::new(2, 3, 4)), Some(7));
    assert_eq!(grid.get(UVec3::new(7, 8, 9)), Some(7));
    assert_eq!(grid.get(UVec3::new(8, 8, 9)), None);
    assert!(grid.clear(UVec3::new(2, 3, 4)));
    assert_eq!(grid.get(UVec3::new(2, 3, 4)), None);
}

#[test]
fn fill_crosses_chunks() {
    let mut grid = SparseGrid3::<u16>::new(UVec3::new(80, 80, 80));
    grid.fill_aabb(
        Aabb3u::new(UVec3::new(30, 30, 30), UVec3::new(35, 35, 35)),
        123,
    );

    assert_eq!(grid.get(UVec3::new(30, 30, 30)), Some(123));
    assert_eq!(grid.get(UVec3::new(34, 34, 34)), Some(123));
    assert_eq!(grid.get(UVec3::new(35, 34, 34)), None);
    assert!(grid.chunk_count() > 1);
}

#[test]
fn write_values_x_fastest() {
    let mut grid = SparseGrid3::<u32>::new(UVec3::new(16, 16, 16));
    let aabb = Aabb3u::new(UVec3::new(1, 2, 3), UVec3::new(4, 4, 5));
    let extent = aabb.extent();
    let mut values = Vec::new();

    for z in 0..extent.z {
        for y in 0..extent.y {
            for x in 0..extent.x {
                values.push(x + y * 10 + z * 100);
            }
        }
    }

    grid.write_aabb_values(aabb, &values).unwrap();
    assert_eq!(grid.get(UVec3::new(1, 2, 3)), Some(0));
    assert_eq!(grid.get(UVec3::new(2, 2, 3)), Some(1));
    assert_eq!(grid.get(UVec3::new(1, 3, 3)), Some(10));
    assert_eq!(grid.get(UVec3::new(1, 2, 4)), Some(100));
}

#[test]
fn out_of_bounds_writes_are_ignored_but_slice_size_is_unclipped() {
    let mut grid = SparseGrid3::<u8>::new(UVec3::new(4, 4, 4));
    let aabb = Aabb3u::new(UVec3::new(2, 2, 2), UVec3::new(6, 6, 6));
    let values = vec![9u8; 4 * 4 * 4];
    grid.write_aabb_values(aabb, &values).unwrap();

    assert_eq!(grid.get(UVec3::new(3, 3, 3)), Some(9));
    assert_eq!(grid.get(UVec3::new(4, 3, 3)), None);
}

#[test]
fn union_replaces_present_only() {
    let mut dst = SparseGrid3::<u8>::new(UVec3::new(64, 64, 64));
    let mut src = SparseGrid3::<u8>::new(UVec3::new(64, 64, 64));

    dst.fill_aabb(Aabb3u::new(UVec3::new(0, 0, 0), UVec3::new(4, 4, 4)), 1);
    src.set(UVec3::new(1, 1, 1), 9);
    src.set(UVec3::new(10, 10, 10), 8);

    dst.union_replace_from(&src);

    assert_eq!(dst.get(UVec3::new(0, 0, 0)), Some(1));
    assert_eq!(dst.get(UVec3::new(1, 1, 1)), Some(9));
    assert_eq!(dst.get(UVec3::new(10, 10, 10)), Some(8));
}

#[test]
fn scaled_mask_removes_coarse_if_any_fine_present() {
    let mut coarse = SparseGrid3::<u8>::new(UVec3::new(8, 8, 8));
    let mut fine = SparseGrid3::<u8>::new(UVec3::new(32, 32, 32));

    coarse.fill_aabb(Aabb3u::new(UVec3::new(0, 0, 0), UVec3::new(8, 8, 8)), 1);
    fine.set(UVec3::new(9, 0, 0), 1); // maps to coarse x = 2 when scale = 4

    let zero = I64Vec3 { x: 0, y: 0, z: 0 };
    let removed = coarse.mask_out_by_presence_scaled(&fine, 4, zero);
    assert_eq!(removed, 1);
    assert_eq!(coarse.get(UVec3::new(2, 0, 0)), None);
    assert_eq!(coarse.get(UVec3::new(1, 0, 0)), Some(1));
}

#[test]
fn scaled_mask_applies_signed_translation_and_clips() {
    let mut coarse = SparseGrid3::<u8>::new(UVec3::new(4, 1, 1));
    let mut fine = SparseGrid3::<u8>::new(UVec3::new(8, 1, 1));

    coarse.fill_aabb(coarse.bounds_aabb(), 1);
    fine.set(UVec3::new(0, 0, 0), 1);

    // coarse x=1 maps to fine [-1, 1), whose in-bounds portion contains x=0.
    let shift = I64Vec3 { x: -3, y: 0, z: 0 };
    let removed = coarse.mask_out_by_presence_scaled(&fine, 2, shift);
    assert_eq!(removed, 1);
    assert_eq!(coarse.get(UVec3::new(1, 0, 0)), None);
    assert_eq!(coarse.get(UVec3::new(0, 0, 0)), Some(1));
    assert_eq!(coarse.get(UVec3::new(2, 0, 0)), Some(1));
}

#[test]
fn prune_removes_empty_chunks() {
    let mut grid = SparseGrid3::<u8>::new(UVec3::new(64, 64, 64));
    grid.fill_aabb(Aabb3u::new(UVec3::new(0, 0, 0), UVec3::new(32, 32, 32)), 1);
    assert_eq!(grid.chunk_count(), 1);
    grid.clear_aabb(Aabb3u::new(UVec3::new(0, 0, 0), UVec3::new(32, 32, 32)));
    grid.prune();
    assert_eq!(grid.chunk_count(), 0);
}

#[test]
fn write_rejects_wrong_value_count() {
    let mut grid = SparseGrid3::<u8>::new(UVec3::new(4, 4, 4));
    let aabb = Aabb3u::new(UVec3::new(0, 0, 0), UVec3::new(2, 2, 2));
    let r = grid.write_aabb_values(aabb, &[1, 2, 3]);
    assert!(matches!(
        r,
        Err(GridError::ValuesLengthMismatch {
            expected: 8,
            actual: 3
        })
    ));
    assert!(grid.is_empty());
}

#[test]
fn write_rejects_a_volume_that_does_not_fit() {
    let mut grid = SparseGrid3::<u8>::new(UVec3::new(4, 4, 4));
    let aabb = Aabb3u::new(UVec3::new(0, 0, 0), UVec3::splat(u32::MAX));
    let r = grid.write_aabb_values(aabb, &[]);
    assert!(matches!(r, Err(GridError::AabbVolumeDoesNotFitUsize)));
}

#[test]
fn zero_scale_masks_nothing() {
    let mut coarse = SparseGrid3::<u8>::new(UVec3::new(2, 2, 2));
    let mut fine = SparseGrid3::<u8>::new(UVec3::new(2, 2, 2));
    coarse.fill_aabb(coarse.bounds_aabb(), 1);
    fine.fill_aabb(fine.bounds_aabb(), 1);
    let zero = I64Vec3 { x: 0, y: 0, z: 0 };
    assert_eq!(coarse.mask_out_by_presence_scaled(&fine, 0, zero), 0);
    assert_eq!(coarse.present_voxel_count(), 8);
}

#[test]
fn prune_keeps_values_and_compacts_equal_ones() {
    let mut grid = SparseGrid3::<u8>::new(UVec3::new(32, 32, 32));
    grid.set(UVec3::new(0, 0, 0), 1);
    grid.set(UVec3::new(5, 6, 7), 2);
    grid.set(UVec3::new(5, 6, 7), 1);
    grid.prune();
    assert_eq!(grid.get(UVec3::new(0, 0, 0)), Some(1));
    assert_eq!(grid.get(UVec3::new(5, 6, 7)), Some(1));
    assert_eq!(grid.present_voxel_count(), 2);
}

#[test]
fn walk_visits_present_voxels_in_order() {
    let mut grid = SparseGrid3::<u8>::new(UVec3::new(70, 4, 4));
    grid.set(UVec3::new(40, 0, 0), 3);
    grid.set(UVec3::new(1, 2, 0), 2);
    grid.set(UVec3::new(3, 0, 0), 1);
    grid.set(UVec3::new(69, 3, 3), 9);
    let aabb = Aabb3u::new(UVec3::new(0, 0, 0), UVec3::new(64, 4, 4));
    let found = grid.for_each_present_in_aabb(aabb);
    assert_eq!(
        found,
        vec![
            (UVec3::new(3, 0, 0), 1),
            (UVec3::new(1, 2, 0), 2),
            (UVec3::new(40, 0, 0), 3)
        ]
    );
}

#[test]
fn presence_query_respects_the_box() {
    let mut grid = SparseGrid3::<u8>::new(UVec3::new(64, 64, 64));
    grid.set(UVec3::new(33, 1, 1), 1);
    let near = Aabb3u::new(UVec3::new(0, 0, 0), UVec3::new(33, 64, 64));
    let far = Aabb3u::new(UVec3::new(32, 0, 0), UVec3::new(34, 2, 2));
    assert!(!grid.any_present_in_aabb(near));
    assert!(grid.any_present_in_aabb(far));
}

#[test]
fn out_of_bounds_points_are_refused() {
    let mut grid = SparseGrid3::<u8>::new(UVec3::new(4, 4, 4));
    assert!(!grid.set(UVec3::new(4, 0, 0), 1));
    assert!(!grid.contains(UVec3::new(4, 0, 0)));
    assert!(!grid.clear(UVec3::new(0, 0, 0)));
    assert!(grid.is_empty());
}

#[test]
fn accessors_read_and_write_the_grid() {
    let mut grid = SparseGrid3::<u8>::new(UVec3::new(64, 4, 4));
    {
        let mut writer = grid.accessor_mut();
        assert!(writer.set(UVec3::new(40, 1, 1), 5));
        assert!(writer.set(UVec3::new(2, 1, 1), 6));
        assert!(!writer.set(UVec3::new(64, 1, 1), 7));
        assert!(writer.clear(UVec3::new(2, 1, 1)));
        assert_eq!(writer.get(UVec3::new(40, 1, 1)), Some(5));
    }
    let mut reader = grid.accessor();
    assert_eq!(reader.get(UVec3::new(40, 1, 1)), Some(5));
    assert_eq!(reader.get(UVec3::new(2, 1, 1)), None);
    assert!(reader.contains(UVec3::new(40, 1, 1)));
}

#[test]
fn chunk_boxes_are_clipped_and_sorted() {
    let mut grid = SparseGrid3::<u8>::new(UVec3::new(40, 40, 1));
    grid.set(UVec3::new(35, 35, 0), 1);
    grid.set(UVec3::new(0, 0, 0), 1);
    grid.set(UVec3::new(35, 0, 0), 1);
    assert_eq!(
        grid.chunk_aabbs(),
        vec![
            Aabb3u::new(UVec3::new(0, 0, 0), UVec3::new(32, 32, 1)),
            Aabb3u::new(UVec3::new(32, 0, 0), UVec3::new(40, 32, 1)),
            Aabb3u::new(UVec3::new(32, 32, 0), UVec3::new(40, 40, 1)),
        ]
    );
}

#[test]
fn nan_values_survive_a_fill() {
    let mut grid = SparseGrid3::<f32>::new(UVec3::new(4, 4, 4));
    grid.fill_aabb(grid.bounds_aabb(), f32::NAN);
    grid.set(UVec3::new(1, 1, 1), 2.0);
    grid.prune();
    assert!(grid.get(UVec3::new(0, 0, 0)).unwrap().is_nan());
    assert_eq!(grid.get(UVec3::new(1, 1, 1)), Some(2.0));
}

#[test]
fn boxes_intersect_and_measure() {
    let a = Aabb3u::new(UVec3::new(0, 0, 0), UVec3::new(4, 4, 4));
    let b = Aabb3u::from_min_extent(UVec3::new(2, 3, 3), UVec3::new(9, 9, 9));
    let c = a.intersect(b).unwrap();
    assert_eq!(c, Aabb3u::new(UVec3::new(2, 3, 3), UVec3::new(4, 4, 4)));
    assert_eq!(c.volume_usize(), Some(2));
    assert!(a.intersect(Aabb3u::from_min_extent(UVec3::splat(4), UVec3::splat(1))).is_none());
    assert!(Aabb3u::new(UVec3::splat(3), UVec3::splat(3)).is_empty());
    assert_eq!(
        Aabb3u::from_min_extent(UVec3::splat(u32::MAX), UVec3::splat(2)).max,
        UVec3::splat(u32::MAX)
    );
    assert!(a.contains_point(UVec3::new(3, 3, 3)));
    assert!(!a.contains_point(UVec3::new(4, 3, 3)));
    assert_eq!(
        Aabb3u::new(UVec3::splat(0), UVec3::splat(u32::MAX)).volume_usize(),
        None
    );
}
