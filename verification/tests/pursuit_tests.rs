use pure_pursuit::dynamic_pursuer::DynamicPursuer;
use pure_pursuit::path_builder;
use pure_pursuit::ConfigurationError;
use pure_pursuit::PathTargetFinder;
use pure_pursuit::Waypoint;

#[test]
fn pathematics_builder() {
    let _path_builder = path_builder()
        .with_radius(3)
        .with_point(Waypoint { dimensions: vec![0, 0] })
        .with_point(Waypoint { dimensions: vec![2, 6] })
        .with_point(Waypoint { dimensions: vec![7, 4] });
}

#[test]
fn pathematics_struct() {
    let _path = path_builder()
        .with_radius(3)
        .with_point(Waypoint { dimensions: vec![0, 0] })
        .with_point(Waypoint { dimensions: vec![2, 6] })
        .with_point(Waypoint { dimensions: vec![7, 4] })
        .build()
        .unwrap();
}

// This test ensures that if the position of the robot is not on the path it
// will go straight to the start
#[test]
fn pathematics_test_start_out_of_range() {
    let mut path = path_builder()
        .with_radius(1)
        .with_point(Waypoint { dimensions: vec![0, 0] })
        .with_point(Waypoint { dimensions: vec![2, 6] })
        .with_point(Waypoint { dimensions: vec![7, 4] })
        .build()
        .unwrap();

    let position = Waypoint { dimensions: vec![-1, -1] };
    let target_expected = Waypoint { dimensions: vec![0, 0] };

    assert_eq!(path.step(position), target_expected);
}

// This test ensures that if the robot starts within the radius of the path it
// will target the path
#[test]
fn pathematics_test_start_in_range() {
    let mut path = path_builder()
        .with_radius(2)
        .with_point(Waypoint { dimensions: vec![0, 0] })
        .with_point(Waypoint { dimensions: vec![2, 0] })
        .with_point(Waypoint { dimensions: vec![7, 4] })
        .build()
        .unwrap();

    let position = Waypoint { dimensions: vec![-1, 0] };
    let target_expected = Waypoint { dimensions: vec![1, 0] };

    assert_eq!(path.step(position), target_expected);
    assert_eq!(path.current_segment, Some(0));
}

#[test]
fn distance_is_symmetric_and_zero_on_self() {
    let a = Waypoint { dimensions: vec![3, -4, 12] };
    let b = Waypoint { dimensions: vec![-1, 2, 0] };
    assert_eq!(a.pythag(&b), b.pythag(&a));
    assert_eq!(a.pythag(&a), 0);
    assert_eq!(b.pythag(&b), 0);
}

#[test]
fn distance_concrete_value() {
    let lhs = Waypoint { dimensions: vec![2, 1] };
    let rhs = Waypoint { dimensions: vec![5, 8] };
    // squared distance 9 + 49 = 58; the rounded distance is 7
    assert_eq!(lhs.pythag(&rhs), 7);
}

#[test]
fn waypoint_zero_is_all_zeros() {
    let z = Waypoint::zero(3);
    assert_eq!(z, Waypoint { dimensions: vec![0, 0, 0] });
}

#[test]
fn radius_last_write_wins() {
    // the radius set last (2) governs the engine: with radius 2 the first
    // tick from (-1, 0) targets (1, 0)
    let mut path = path_builder()
        .with_radius(5)
        .with_point(Waypoint { dimensions: vec![0, 0] })
        .with_point(Waypoint { dimensions: vec![2, 0] })
        .with_point(Waypoint { dimensions: vec![7, 4] })
        .with_radius(2)
        .build()
        .unwrap();

    let target = path.step(Waypoint { dimensions: vec![-1, 0] });
    assert_eq!(target, Waypoint { dimensions: vec![1, 0] });
}

#[test]
fn build_rejects_too_few_points() {
    let res = path_builder()
        .with_radius(2)
        .with_point(Waypoint { dimensions: vec![0, 0] })
        .build();
    assert_eq!(res.unwrap_err(), ConfigurationError::TooFewPoints);
}

#[test]
fn build_rejects_nonpositive_radius() {
    let res = path_builder()
        .with_radius(0)
        .with_point(Waypoint { dimensions: vec![0, 0] })
        .with_point(Waypoint { dimensions: vec![1, 1] })
        .build();
    assert_eq!(res.unwrap_err(), ConfigurationError::NonPositiveRadius);

    let res = path_builder()
        .with_radius(-3)
        .with_point(Waypoint { dimensions: vec![0, 0] })
        .with_point(Waypoint { dimensions: vec![1, 1] })
        .build();
    assert_eq!(res.unwrap_err(), ConfigurationError::NonPositiveRadius);
}

#[test]
fn build_rejects_radius_too_large() {
    let res = path_builder()
        .with_radius(1_000_001)
        .with_point(Waypoint { dimensions: vec![0, 0] })
        .with_point(Waypoint { dimensions: vec![1, 1] })
        .build();
    assert_eq!(res.unwrap_err(), ConfigurationError::RadiusTooLarge);
}

#[test]
fn build_rejects_zero_dimension() {
    let res = path_builder()
        .with_radius(2)
        .with_point(Waypoint { dimensions: vec![] })
        .with_point(Waypoint { dimensions: vec![] })
        .build();
    assert_eq!(res.unwrap_err(), ConfigurationError::ZeroDimension);
}

#[test]
fn build_rejects_dimension_mismatch() {
    let res = path_builder()
        .with_radius(2)
        .with_point(Waypoint { dimensions: vec![0, 0] })
        .with_point(Waypoint { dimensions: vec![1, 2, 3] })
        .build();
    assert_eq!(res.unwrap_err(), ConfigurationError::DimensionMismatch);
}

#[test]
fn build_rejects_coordinate_out_of_range() {
    let res = path_builder()
        .with_radius(2)
        .with_point(Waypoint { dimensions: vec![0, 0] })
        .with_point(Waypoint { dimensions: vec![1_000_001, 0] })
        .build();
    assert_eq!(res.unwrap_err(), ConfigurationError::CoordinateOutOfRange);
}

#[test]
fn build_rejects_adjacent_duplicate_waypoints() {
    let res = path_builder()
        .with_radius(2)
        .with_point(Waypoint { dimensions: vec![0, 0] })
        .with_point(Waypoint { dimensions: vec![0, 0] })
        .with_point(Waypoint { dimensions: vec![1, 1] })
        .build();
    assert_eq!(res.unwrap_err(), ConfigurationError::DegenerateSegment);
}

#[test]
fn unstarted_out_of_range_is_idempotent() {
    let mut path = path_builder()
        .with_radius(1)
        .with_point(Waypoint { dimensions: vec![0, 0] })
        .with_point(Waypoint { dimensions: vec![2, 6] })
        .with_point(Waypoint { dimensions: vec![7, 4] })
        .build()
        .unwrap();

    let start = Waypoint { dimensions: vec![0, 0] };
    for _ in 0..3 {
        let target = path.step(Waypoint { dimensions: vec![-1, -1] });
        assert_eq!(target, start);
        assert_eq!(path.current_segment, None);
    }
}

#[test]
fn terminal_state_is_idempotent() {
    let mut path = path_builder()
        .with_radius(2)
        .with_point(Waypoint { dimensions: vec![0, 0] })
        .with_point(Waypoint { dimensions: vec![2, 0] })
        .build()
        .unwrap();

    let last = Waypoint { dimensions: vec![2, 0] };
    for _ in 0..3 {
        let target = path.step(Waypoint { dimensions: vec![1, 0] });
        assert_eq!(target, last);
        assert_eq!(path.current_segment, Some(0));
    }
}

#[test]
fn segment_index_never_decreases() {
    let mut path = path_builder()
        .with_radius(2)
        .with_point(Waypoint { dimensions: vec![0, 0] })
        .with_point(Waypoint { dimensions: vec![4, 0] })
        .with_point(Waypoint { dimensions: vec![8, 0] })
        .with_point(Waypoint { dimensions: vec![12, 0] })
        .build()
        .unwrap();

    let positions = [0i64, 1, 4, 5, 8, 11, 12];
    let mut last_seg = 0usize;
    for x in positions {
        path.step(Waypoint { dimensions: vec![x, 0] });
        let seg = path.current_segment.unwrap();
        assert!(seg >= last_seg);
        last_seg = seg;
    }
}

#[test]
fn intersection_lies_on_the_lookahead_circle() {
    let mut path = path_builder()
        .with_radius(2)
        .with_point(Waypoint { dimensions: vec![0, 0] })
        .with_point(Waypoint { dimensions: vec![2, 0] })
        .with_point(Waypoint { dimensions: vec![7, 4] })
        .build()
        .unwrap();

    let position = Waypoint { dimensions: vec![-1, 0] };
    let target = path.step(Waypoint { dimensions: vec![-1, 0] });
    // the discriminant is a perfect square here, so the target sits exactly
    // one radius away from the position
    assert_eq!(target.pythag(&position), 2);
}

#[test]
fn no_intersection_falls_back_to_nearer_endpoint() {
    let mut path = path_builder()
        .with_radius(2)
        .with_point(Waypoint { dimensions: vec![0, 0] })
        .with_point(Waypoint { dimensions: vec![10, 0] })
        .build()
        .unwrap();

    // start tracking from the first waypoint
    let target = path.step(Waypoint { dimensions: vec![0, 0] });
    assert_eq!(target, Waypoint { dimensions: vec![2, 0] });
    assert_eq!(path.current_segment, Some(0));

    // from (5, 10) the lookahead circle misses the segment's line entirely;
    // both endpoints are equally far, and the far endpoint wins the tie
    let target = path.step(Waypoint { dimensions: vec![5, 10] });
    assert_eq!(target, Waypoint { dimensions: vec![10, 0] });
}

#[test]
fn intersection_beyond_segment_end_clamps_to_endpoint() {
    let mut path = path_builder()
        .with_radius(2)
        .with_point(Waypoint { dimensions: vec![0, 0] })
        .with_point(Waypoint { dimensions: vec![2, 0] })
        .with_point(Waypoint { dimensions: vec![7, 4] })
        .build()
        .unwrap();

    // from the first waypoint itself, the larger root lands exactly on the
    // far endpoint of the segment
    let target = path.step(Waypoint { dimensions: vec![0, 0] });
    assert_eq!(target, Waypoint { dimensions: vec![2, 0] });

    // from beyond the far endpoint but outside its radius, the root exceeds
    // the segment and is clamped to the far endpoint
    let target = path.step(Waypoint { dimensions: vec![5, 0] });
    assert_eq!(target, Waypoint { dimensions: vec![2, 0] });
    assert_eq!(path.current_segment, Some(0));
}

#[test]
fn dynamic_pursuer_builder_and_step() {
    let mut path = DynamicPursuer::builder()
        .with_radius(2)
        .with_point(Waypoint { dimensions: vec![0, 0] })
        .with_point(Waypoint { dimensions: vec![2, 0] })
        .with_point(Waypoint { dimensions: vec![7, 4] })
        .build()
        .unwrap();

    let target = path.step(Waypoint { dimensions: vec![-1, 0] });
    assert_eq!(target, Waypoint { dimensions: vec![1, 0] });
    assert_eq!(path.current_segment, Some(0));
}

#[test]
fn dynamic_pursuer_rejects_duplicates_too() {
    let res = DynamicPursuer::builder()
        .with_radius(2)
        .with_point(Waypoint { dimensions: vec![3, 3] })
        .with_point(Waypoint { dimensions: vec![3, 3] })
        .build();
    assert_eq!(res.unwrap_err(), ConfigurationError::DegenerateSegment);
}

#[test]
fn both_engines_agree_step_by_step() {
    let mut fixed = path_builder()
        .with_radius(2)
        .with_point(Waypoint { dimensions: vec![0, 0] })
        .with_point(Waypoint { dimensions: vec![4, 0] })
        .with_point(Waypoint { dimensions: vec![8, 3] })
        .build()
        .unwrap();
    let mut dynamic = DynamicPursuer::builder()
        .with_radius(2)
        .with_point(Waypoint { dimensions: vec![0, 0] })
        .with_point(Waypoint { dimensions: vec![4, 0] })
        .with_point(Waypoint { dimensions: vec![8, 3] })
        .build()
        .unwrap();

    let positions = [[-1i64, 0], [0, 0], [2, 1], [4, 0], [7, 2], [8, 3]];
    for pos in positions {
        let a = fixed.step(Waypoint { dimensions: vec![pos[0], pos[1]] });
        let b = dynamic.step(Waypoint { dimensions: vec![pos[0], pos[1]] });
        assert_eq!(a, b);
        assert_eq!(fixed.current_segment, dynamic.current_segment);
    }
}

#[test]
fn target_finder_trait_matches_step() {
    let mut by_trait = DynamicPursuer::builder()
        .with_radius(2)
        .with_point(Waypoint { dimensions: vec![0, 0] })
        .with_point(Waypoint { dimensions: vec![2, 0] })
        .with_point(Waypoint { dimensions: vec![7, 4] })
        .build()
        .unwrap();
    let mut by_step = DynamicPursuer::builder()
        .with_radius(2)
        .with_point(Waypoint { dimensions: vec![0, 0] })
        .with_point(Waypoint { dimensions: vec![2, 0] })
        .with_point(Waypoint { dimensions: vec![7, 4] })
        .build()
        .unwrap();

    let a = by_trait.get_target_point(Waypoint { dimensions: vec![-1, 0] });
    let b = by_step.step(Waypoint { dimensions: vec![-1, 0] });
    assert_eq!(a, b);
}

#[test]
fn read_contract_exposes_path_and_radius() {
    let path = path_builder()
        .with_radius(3)
        .with_point(Waypoint { dimensions: vec![0, 0] })
        .with_point(Waypoint { dimensions: vec![2, 6] })
        .with_point(Waypoint { dimensions: vec![7, 4] })
        .build()
        .unwrap();

    assert_eq!(path.len(), 3);
    assert_eq!(path.radius(), 3);
    assert_eq!(path.point_at(1), &Waypoint { dimensions: vec![2, 6] });

    let dynamic = DynamicPursuer::builder()
        .with_radius(3)
        .with_point(Waypoint { dimensions: vec![0, 0] })
        .with_point(Waypoint { dimensions: vec![2, 6] })
        .build()
        .unwrap();
    assert_eq!(dynamic.len(), 2);
    assert_eq!(dynamic.radius(), 3);
    assert_eq!(dynamic.point_at(0), &Waypoint { dimensions: vec![0, 0] });
}

#[test]
fn distance_triangle_inequality() {
    let a = Waypoint { dimensions: vec![0, 0] };
    let b = Waypoint { dimensions: vec![3, 4] };
    let c = Waypoint { dimensions: vec![10, -2] };
    // the rounded distance may lose at most one unit against the detour
    assert!(a.pythag(&c) <= a.pythag(&b) + b.pythag(&c) + 1);
    // collinear points: the detour through the midpoint costs nothing
    let m = Waypoint { dimensions: vec![5, 0] };
    let e = Waypoint { dimensions: vec![10, 0] };
    assert_eq!(a.pythag(&e), a.pythag(&m) + m.pythag(&e));
}

#[test]
fn start_boundary_exactly_at_radius_begins_tracking() {
    // the start rule is non-strict: distance == radius counts as in range
    let mut path = path_builder()
        .with_radius(2)
        .with_point(Waypoint { dimensions: vec![0, 0] })
        .with_point(Waypoint { dimensions: vec![6, 0] })
        .build()
        .unwrap();

    // distance((-2,0),(0,0)) == 2 == radius: tracking starts, and the larger
    // root of the intersection lands exactly on the first waypoint
    let target = path.step(Waypoint { dimensions: vec![-2, 0] });
    assert_eq!(path.current_segment, Some(0));
    assert_eq!(target, Waypoint { dimensions: vec![0, 0] });
}

#[test]
fn advance_boundary_exactly_at_radius_does_not_advance() {
    // the advance rule is strict: distance == radius does not advance
    let mut path = path_builder()
        .with_radius(2)
        .with_point(Waypoint { dimensions: vec![0, 0] })
        .with_point(Waypoint { dimensions: vec![4, 0] })
        .with_point(Waypoint { dimensions: vec![8, 0] })
        .build()
        .unwrap();

    // start tracking from the first waypoint
    path.step(Waypoint { dimensions: vec![0, 0] });
    assert_eq!(path.current_segment, Some(0));

    // distance((2,0),(4,0)) == 2 == radius: the segment is kept, and the
    // intersection on it reaches its far endpoint
    let target = path.step(Waypoint { dimensions: vec![2, 0] });
    assert_eq!(path.current_segment, Some(0));
    assert_eq!(target, Waypoint { dimensions: vec![4, 0] });
}

#[test]
fn rounded_intersection_stays_near_the_circle() {
    let mut path = path_builder()
        .with_radius(2)
        .with_point(Waypoint { dimensions: vec![0, 0] })
        .with_point(Waypoint { dimensions: vec![4, 0] })
        .build()
        .unwrap();

    // from (1, 1) the discriminant (192) is no perfect square; the root and
    // the coordinates are rounded down, giving (2, 0)
    let position = Waypoint { dimensions: vec![1, 1] };
    let target = path.step(Waypoint { dimensions: vec![1, 1] });
    assert_eq!(target, Waypoint { dimensions: vec![2, 0] });
    // the returned point stays within the dimension-bounded band around the
    // lookahead circle: its distance from the position is at most radius + 2
    assert!(target.pythag(&position) <= 2 + 2);
}
