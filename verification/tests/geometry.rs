use spacetraders_pathfinding_rs::geometry::dist;

#[test]
fn distance_of_a_right_triangle() {
    assert_eq!(dist((0, 0), (3, 4)), 5);
    assert_eq!(dist((30, 40), (0, 0)), 50);
    assert_eq!(dist((-3, -4), (0, 0)), 5);
}

#[test]
fn distance_is_rounded_to_the_nearest_integer() {
    assert_eq!(dist((0, 0), (1, 1)), 1);
    assert_eq!(dist((0, 0), (1, 2)), 2);
    assert_eq!(dist((0, 0), (2, 2)), 3);
    assert_eq!(dist((0, 0), (1, 0)), 1);
    assert_eq!(dist((10, 10), (11, 13)), 3);
}

#[test]
fn distance_to_the_same_point_is_zero() {
    assert_eq!(dist((0, 0), (0, 0)), 0);
    assert_eq!(dist((-7, 12), (-7, 12)), 0);
    assert_eq!(dist((i32::MAX, i32::MIN), (i32::MAX, i32::MIN)), 0);
}

#[test]
fn distance_is_the_same_both_ways() {
    assert_eq!(dist((5, -9), (120, 33)), dist((120, 33), (5, -9)));
    assert_eq!(dist((5, -9), (120, 33)), 122);
}

#[test]
fn distance_across_the_whole_plane() {
    assert_eq!(dist((i32::MIN, i32::MIN), (i32::MAX, i32::MAX)), 6074000999);
    assert_eq!(dist((i32::MIN, 0), (i32::MAX, 0)), 4294967295);
}

#[test]
fn large_distances_are_exact() {
    // The square of 100000000.5 lies between the two squared distances.
    assert_eq!(dist((0, 0), (100_000_000, 14_142)), 100_000_001);
    assert_eq!(dist((0, 0), (100_000_000, 10_000)), 100_000_000);
}
