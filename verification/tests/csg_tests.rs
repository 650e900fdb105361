use voxelcsg::{Coord, CsgError, VoxelCSG};

/// Count how many leaf voxels are `true` in the entire octree.
fn count_filled_voxels(csg: &VoxelCSG) -> usize {
    csg.filled_points().len()
}

/// Asserts that each voxel in `coords_set` is `true` and all others in the
/// inclusive bounding region are `false`.
fn assert_voxels_match(csg: &VoxelCSG, coords_set: &[Coord], bounds_min: Coord, bounds_max: Coord) {
    for z in bounds_min.z..=bounds_max.z {
        for y in bounds_min.y..=bounds_max.y {
            for x in bounds_min.x..=bounds_max.x {
                let p = Coord::new(x, y, z);
                let expected = coords_set.iter().any(|c| *c == p);
                let actual = csg.get_voxel(p);
                assert_eq!(
                    actual, expected,
                    "Mismatch at {:?}: expected {}, got {}",
                    p, expected, actual
                );
            }
        }
    }
}

fn sphere_params(radius: f32) -> (i32, i64) {
    ((radius.ceil()) as i32, (radius * radius).floor() as i64)
}

#[test]
fn test_new_voxel_csg() {
    let height: u32 = 4;
    let csg = VoxelCSG::new(height);
    assert_eq!(csg.height(), height);
    // Initially, it should have no filled nodes
    assert_eq!(count_filled_voxels(&csg), 0);
}

#[test]
fn test_create_height_too_small() {
    assert!(matches!(VoxelCSG::create(1), Err(CsgError::InvalidArgument)));
    assert!(matches!(VoxelCSG::create(0), Err(CsgError::InvalidArgument)));
    assert!(VoxelCSG::create(2).is_ok());
}

#[test]
fn test_fill_cube() {
    let mut csg = VoxelCSG::new(4);
    // Fill a cube from (0,0,0) to (2,2,2). This should fill 2x2x2 = 8 voxels.
    csg.fill_cube(Coord::new(0, 0, 0), Coord::new(2, 2, 2));

    // Check we have 8 total filled voxels
    assert_eq!(count_filled_voxels(&csg), 8);

    // Spot check a few known-filled coordinates:
    assert!(csg.get_voxel(Coord::new(0, 0, 0)));
    assert!(csg.get_voxel(Coord::new(1, 1, 1)));

    // Spot check a few known-empty coordinates:
    assert!(!csg.get_voxel(Coord::new(2, 2, 2)));
    assert!(!csg.get_voxel(Coord::new(-1, -1, -1)));
}

#[test]
fn test_fill_cube_exact_set() {
    let mut csg = VoxelCSG::new(4);
    csg.fill_cube(Coord::new(0, 0, 0), Coord::new(2, 2, 2));
    let mut expected = Vec::new();
    for z in 0..2 {
        for y in 0..2 {
            for x in 0..2 {
                expected.push(Coord::new(x, y, z));
            }
        }
    }
    assert_voxels_match(&csg, &expected, Coord::new(-2, -2, -2), Coord::new(3, 3, 3));
}

#[test]
fn test_fill_sphere() {
    let mut csg = VoxelCSG::new(5);
    // Fill a sphere of radius 2.0 at center (0,0,0).
    let (rc, r2) = sphere_params(2.0);
    csg.fill_sphere(Coord::new(0, 0, 0), rc, r2);

    // Definitely inside:
    assert!(csg.get_voxel(Coord::new(0, 0, 0)));
    assert!(csg.get_voxel(Coord::new(1, 0, 0)));
    assert!(csg.get_voxel(Coord::new(-1, -1, 0)));

    // Definitely outside:
    assert!(!csg.get_voxel(Coord::new(2, 2, 0)));
    assert!(!csg.get_voxel(Coord::new(3, 0, 0)));

    // The lattice count differs from the continuous volume (~33.51); we just
    // expect it in a plausible range.
    let filled_count = count_filled_voxels(&csg);
    assert!(
        (25..50).contains(&filled_count),
        "Unexpected count of filled voxels: {}",
        filled_count
    );
}

#[test]
fn test_fill_sphere_exact_count() {
    // Exactly the lattice points with x^2 + y^2 + z^2 <= 4: one origin, six
    // at distance 1, twelve at sqrt(2), eight at sqrt(3), six at distance 2.
    let mut csg = VoxelCSG::new(5);
    let (rc, r2) = sphere_params(2.0);
    csg.fill_sphere(Coord::new(0, 0, 0), rc, r2);
    assert_eq!(count_filled_voxels(&csg), 33);
}

#[test]
fn test_fill_cylinder() {
    let mut csg = VoxelCSG::new(5);
    // Fill a cylinder of radius=2, height=5, base at (0,0,0).
    let (rc, r2) = sphere_params(2.0);
    csg.fill_cylinder(Coord::new(0, 0, 0), 5, rc, r2);

    // The cylinder extends over z = 0..=4 (half-open at 5).
    assert!(csg.get_voxel(Coord::new(0, 0, 0)));
    assert!(csg.get_voxel(Coord::new(1, 1, 2)));
    // Check outside points:
    assert!(!csg.get_voxel(Coord::new(3, 0, 1))); // outside radius
    assert!(!csg.get_voxel(Coord::new(1, 1, 5))); // outside height
}

#[test]
fn test_fill_cylinder_exact_count() {
    // The disc x^2 + y^2 <= 4 holds 13 lattice points; five slices of it.
    let mut csg = VoxelCSG::new(5);
    let (rc, r2) = sphere_params(2.0);
    csg.fill_cylinder(Coord::new(0, 0, 0), 5, rc, r2);
    assert_eq!(count_filled_voxels(&csg), 65);
}

#[test]
fn test_fill_polyhedron_stub() {
    let mut csg = VoxelCSG::new(4);

    // A small bounding box region for the test polyhedron with a trivial set
    // of vertices/faces. The stand-in inside test keeps points whose
    // coordinate sum is even, so the kept points are predictable.
    let poly_min = Coord::new(-2, -2, -2);
    let poly_max = Coord::new(2, 2, 2);

    let vertices = vec![Coord::new(0, 0, 0), Coord::new(1, 0, 0), Coord::new(0, 1, 0)];
    let indices = vec![(0, 1, 2)];

    csg.fill_polyhedron(poly_min, poly_max, &vertices, &indices);

    assert_eq!(csg.get_voxel(Coord::new(0, 0, 0)), true);
    assert_eq!(csg.get_voxel(Coord::new(1, 0, 0)), false);
    assert_eq!(csg.get_voxel(Coord::new(-1, 1, 0)), true);
}

#[test]
fn test_fill_polyhedron_stub_exact_count() {
    // Of the 125 points of the box, those with an even number of odd
    // coordinates: 27 with none and 36 with two.
    let mut csg = VoxelCSG::new(4);
    let vertices = vec![Coord::new(0, 0, 0)];
    let indices = vec![(0, 0, 0)];
    csg.fill_polyhedron(Coord::new(-2, -2, -2), Coord::new(2, 2, 2), &vertices, &indices);
    assert_eq!(count_filled_voxels(&csg), 63);
}

#[test]
fn test_union() {
    let mut csg1 = VoxelCSG::new(4);
    csg1.fill_cube(Coord::new(0, 0, 0), Coord::new(2, 2, 2)); // small 2x2x2 block

    let mut csg2 = VoxelCSG::new(4);
    csg2.fill_cube(Coord::new(1, 1, 0), Coord::new(3, 2, 2)); // partial overlap

    let union_csg = csg1.union(&csg2);
    // 8 + 4 - 2 overlapping = 10.
    assert_eq!(count_filled_voxels(&union_csg), 10);

    // (1,1,0) is in both shapes => definitely in union.
    assert!(union_csg.get_voxel(Coord::new(1, 1, 0)));
    // (2,1,1) only in csg2 => also in union.
    assert!(union_csg.get_voxel(Coord::new(2, 1, 1)));
    // (3,1,1) is in neither (csg2 is half-open at x=3).
    assert!(!union_csg.get_voxel(Coord::new(3, 1, 1)));
    // (0,0,0) only in csg1 => in union
    assert!(union_csg.get_voxel(Coord::new(0, 0, 0)));
}

#[test]
fn test_intersection() {
    let mut csg1 = VoxelCSG::new(4);
    csg1.fill_cube(Coord::new(0, 0, 0), Coord::new(2, 2, 2));

    let mut csg2 = VoxelCSG::new(4);
    csg2.fill_cube(Coord::new(1, 1, 0), Coord::new(3, 2, 2));

    let intersect_csg = csg1.intersection(&csg2);
    // Overlap region is x=1..2, y=1..2, z=0..2: (1,1,0) and (1,1,1).
    assert_eq!(count_filled_voxels(&intersect_csg), 2);

    // (1,1,0) is in both => true
    assert!(intersect_csg.get_voxel(Coord::new(1, 1, 0)));
    // (2,1,1) is in csg2 but outside csg1 => false
    assert!(!intersect_csg.get_voxel(Coord::new(2, 1, 1)));
    // (0,0,0) is in csg1 but not csg2 => false
    assert!(!intersect_csg.get_voxel(Coord::new(0, 0, 0)));
}

#[test]
fn test_difference() {
    let mut csg1 = VoxelCSG::new(4);
    csg1.fill_cube(Coord::new(0, 0, 0), Coord::new(3, 3, 3)); // 3x3x3 = 27 voxels
    let mut csg2 = VoxelCSG::new(4);
    csg2.fill_cube(Coord::new(1, 1, 0), Coord::new(3, 3, 3)); // partial overlap

    let diff_csg = csg1.difference(&csg2);
    // Overlap region is 2*2*3 = 12 voxels; 27 - 12 = 15 remain.
    let count_diff = count_filled_voxels(&diff_csg);
    assert_eq!(count_diff, 15);

    // (0,0,0) => in csg1 but not in csg2, so difference => true
    assert!(diff_csg.get_voxel(Coord::new(0, 0, 0)));
    // (1,1,1) => in csg1 and csg2, so difference => false
    assert!(!diff_csg.get_voxel(Coord::new(1, 1, 1)));
    // (2,2,2) => in both => false
    assert!(!diff_csg.get_voxel(Coord::new(2, 2, 2)));
}

#[test]
fn test_csg_counts_scenario() {
    // Cube A holds 8 cells, cube B holds 4, their overlap 2.
    let mut a = VoxelCSG::new(4);
    a.fill_cube(Coord::new(0, 0, 0), Coord::new(2, 2, 2));
    let mut b = VoxelCSG::new(4);
    b.fill_cube(Coord::new(1, 1, 0), Coord::new(3, 2, 2));

    assert_eq!(count_filled_voxels(&a.union(&b)), 10);
    assert_eq!(count_filled_voxels(&a.intersection(&b)), 2);
    assert_eq!(count_filled_voxels(&a.difference(&b)), 6);
    assert_eq!(count_filled_voxels(&b.difference(&a)), 2);
}

#[test]
fn test_combinators_leave_inputs_unchanged() {
    let mut a = VoxelCSG::new(4);
    a.fill_cube(Coord::new(0, 0, 0), Coord::new(2, 2, 2));
    let mut b = VoxelCSG::new(5);
    b.fill_cube(Coord::new(1, 1, 1), Coord::new(3, 3, 3));

    let probes: Vec<Coord> = (-1..4)
        .flat_map(|z| (-1..4).flat_map(move |y| (-1..4).map(move |x| Coord::new(x, y, z))))
        .collect();
    let before_a: Vec<bool> = probes.iter().map(|p| a.get_voxel(*p)).collect();
    let before_b: Vec<bool> = probes.iter().map(|p| b.get_voxel(*p)).collect();

    let _ = a.union(&b);
    let _ = a.intersection(&b);
    let _ = a.difference(&b);
    let _ = a.invert();

    let after_a: Vec<bool> = probes.iter().map(|p| a.get_voxel(*p)).collect();
    let after_b: Vec<bool> = probes.iter().map(|p| b.get_voxel(*p)).collect();
    assert_eq!(before_a, after_a);
    assert_eq!(before_b, after_b);
    assert_eq!(count_filled_voxels(&a), 8);
    assert_eq!(count_filled_voxels(&b), 8);
}

#[test]
fn test_union_pointwise_mixed_heights() {
    let mut a = VoxelCSG::new(3);
    a.fill_cube(Coord::new(-2, 0, 0), Coord::new(0, 1, 1));
    let mut b = VoxelCSG::new(5);
    b.fill_cube(Coord::new(-1, 0, 0), Coord::new(2, 1, 1));

    let u = a.union(&b);
    assert_eq!(u.height(), 5);
    for x in -3..3 {
        let p = Coord::new(x, 0, 0);
        assert_eq!(u.get_voxel(p), a.get_voxel(p) || b.get_voxel(p));
    }
    let i = a.intersection(&b);
    let d = a.difference(&b);
    for x in -3..3 {
        let p = Coord::new(x, 0, 0);
        assert_eq!(i.get_voxel(p), a.get_voxel(p) && b.get_voxel(p));
        assert_eq!(d.get_voxel(p), a.get_voxel(p) && !b.get_voxel(p));
    }
}

#[test]
fn test_invert_in_place() {
    let mut csg = VoxelCSG::new(4);
    // 2*2*1 = 4 voxels: (0,0,0), (0,1,0), (1,0,0), (1,1,0)
    csg.fill_cube(Coord::new(0, 0, 0), Coord::new(2, 2, 1));
    assert_eq!(count_filled_voxels(&csg), 4);

    // Invert in place: only already-materialized nodes flip, so the four
    // previously-true leaves all become false and nothing new appears.
    csg.invert_in_place();

    let new_count = count_filled_voxels(&csg);
    assert_eq!(
        new_count, 0,
        "After inverting, we expect 0 'true' voxels if newly-false nodes are not replaced."
    );

    // Confirm each voxel we had is now false:
    for x in 0..2 {
        for y in 0..2 {
            assert!(!csg.get_voxel(Coord::new(x, y, 0)));
        }
    }
}

#[test]
fn test_invert_twice_restores() {
    let mut csg = VoxelCSG::new(4);
    csg.fill_cube(Coord::new(0, 0, 0), Coord::new(2, 2, 1));
    // Materialize a false leaf as well, by filling and inverting once first.
    let probes: Vec<Coord> =
        (0..3).flat_map(|y| (0..3).map(move |x| Coord::new(x, y, 0))).collect();
    let before: Vec<bool> = probes.iter().map(|p| csg.get_voxel(*p)).collect();

    csg.invert_in_place();
    csg.invert_in_place();

    let after: Vec<bool> = probes.iter().map(|p| csg.get_voxel(*p)).collect();
    assert_eq!(before, after);
    assert_eq!(count_filled_voxels(&csg), 4);
}

#[test]
fn test_invert() {
    // The non-in-place version returns a new shape.
    let mut csg = VoxelCSG::new(4);
    csg.fill_cube(Coord::new(-1, -1, 0), Coord::new(1, 1, 1)); // 2*2*1 = 4 voxels

    let inverted = csg.invert();
    // Original is unchanged:
    assert_eq!(count_filled_voxels(&csg), 4);
    // Inverted result has no true voxels: no new nodes appear for
    // previously non-existent coordinates.
    assert_eq!(count_filled_voxels(&inverted), 0);
}

#[test]
fn test_fill_cube_zero_sized() {
    let mut csg = VoxelCSG::new(4);
    // If min == max, we fill nothing.
    csg.fill_cube(Coord::new(1, 1, 1), Coord::new(1, 1, 1));
    assert_eq!(count_filled_voxels(&csg), 0);
}

#[test]
fn test_fill_cube_negative_coords() {
    let mut csg = VoxelCSG::new(4);
    csg.fill_cube(Coord::new(-2, -2, -2), Coord::new(-1, -1, -1));
    // [min, max) of extent one per axis: a single voxel at (-2,-2,-2).
    assert_eq!(count_filled_voxels(&csg), 1);
    assert!(csg.get_voxel(Coord::new(-2, -2, -2)));
}

#[test]
fn test_large_fill() {
    let mut csg = VoxelCSG::new(5);
    // Level-0 cell resolution is 1 voxel per integer coordinate.
    csg.fill_cube(Coord::new(100, 100, 100), Coord::new(105, 105, 105));
    // That's 5x5x5 = 125 voxels.
    assert_eq!(count_filled_voxels(&csg), 125);
}

#[test]
fn test_filled_points_exact_no_duplicates() {
    let mut csg = VoxelCSG::new(4);
    csg.fill_cube(Coord::new(-1, -1, -1), Coord::new(1, 1, 1));
    let pts = csg.filled_points();
    assert_eq!(pts.len(), 8);
    for p in &pts {
        assert!(csg.get_voxel(*p));
        assert_eq!(pts.iter().filter(|q| **q == *p).count(), 1);
    }
    for z in -1..1 {
        for y in -1..1 {
            for x in -1..1 {
                let p = Coord::new(x, y, z);
                assert!(pts.iter().any(|q| *q == p));
            }
        }
    }
}

#[test]
fn test_save_to_magicavoxel_smoke() {
    let mut csg = VoxelCSG::new(4);
    csg.fill_cube(Coord::new(0, 0, 0), Coord::new(2, 2, 2));

    let mut vox = csg.export_voxels();
    let result = vox.save_to_file("/tmp/test_output.vox".to_string());
    assert!(result.is_ok(), "Saving to MagicaVoxel file failed: {:?}", result);
}

#[test]
fn test_empty_tree_queries_and_combinators() {
    let a = VoxelCSG::new(3);
    let b = VoxelCSG::new(4);
    assert!(!a.get_voxel(Coord::new(0, 0, 0)));
    assert!(!a.get_voxel(Coord::new(-7, 3, 100)));
    assert_eq!(count_filled_voxels(&a.union(&b)), 0);
    assert_eq!(count_filled_voxels(&a.intersection(&b)), 0);
    assert_eq!(count_filled_voxels(&a.difference(&b)), 0);
    assert_eq!(a.union(&b).height(), 4);
}

#[test]
fn test_invert_empty_tree() {
    let mut a = VoxelCSG::new(3);
    a.invert_in_place();
    assert_eq!(count_filled_voxels(&a), 0);
    let inv = a.invert();
    assert_eq!(count_filled_voxels(&inv), 0);
}

#[test]
fn test_export_empty_tree() {
    let a = VoxelCSG::new(3);
    let mut vox = a.export_voxels();
    let result = vox.save_to_file("/tmp/test_output_empty.vox".to_string());
    assert!(result.is_ok(), "Saving an empty index failed: {:?}", result);
}

#[test]
fn test_refill_keeps_existing_payload() {
    // Path-fill leaves existing nodes untouched: a leaf flipped to false by
    // inversion stays false when the same coordinate is filled again.
    let mut a = VoxelCSG::new(4);
    a.fill_cube(Coord::new(0, 0, 0), Coord::new(1, 1, 1));
    a.invert_in_place();
    assert!(!a.get_voxel(Coord::new(0, 0, 0)));
    a.fill_cube(Coord::new(0, 0, 0), Coord::new(1, 1, 1));
    assert!(!a.get_voxel(Coord::new(0, 0, 0)));
}
