use vrp_features::routing::CoordIndex;

#[test]
fn collect_returns_the_first_position() {
    let mut index = CoordIndex::new();
    assert_eq!(index.collect((0, 0)), 0);
    assert_eq!(index.collect((3, 4)), 1);
    assert_eq!(index.collect((0, 0)), 0);
    assert_eq!(index.collect((-2, 7)), 2);
    assert_eq!(index.locations, vec![(0, 0), (3, 4), (-2, 7)]);
}

#[test]
fn transport_uses_rounded_euclidean_distances() {
    let mut index = CoordIndex::new();
    index.collect((0, 0));
    index.collect((3, 4));
    index.collect((1, 1));
    let t = index.create_transport().unwrap();

    assert_eq!(t.size(), 3);
    assert_eq!(t.distance_approx(0, 1), 5);
    assert_eq!(t.duration_approx(1, 0), 5);
    // sqrt(2) rounds to 1, sqrt(13) to 4
    assert_eq!(t.distance_approx(0, 2), 1);
    assert_eq!(t.distance_approx(1, 2), 4);
    assert_eq!(t.distance_approx(2, 2), 0);
}

#[test]
fn far_apart_points_do_not_overflow() {
    let mut index = CoordIndex::new();
    index.collect((i32::MIN, i32::MIN));
    index.collect((i32::MAX, i32::MAX));
    let t = index.create_transport().unwrap();
    // (2^32 - 1) * sqrt(2) = 6074000999.35...
    assert_eq!(t.distance_approx(0, 1), 6074000999);
}
