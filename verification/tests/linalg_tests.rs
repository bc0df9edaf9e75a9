//! Vector arithmetic tests, in fixed point: a stored value is the real
//! value times 1000, so `1500` reads as 1.5 and `1414` as the rounded
//! square root of two.

use boids::linalg::{add, add2_mut, angle_between, euclid_dist, limit, mul_scalar, norm, normalise};

fn norm_tuple(v: (i64, i64)) -> i64 {
    norm(v.0, v.1)
}

#[test]
fn test_add() {
    assert_eq!(add(0, 0, 0, 0), (0, 0));
    assert_eq!(add(0, 2000, 1000, 0), (1000, 2000));
    assert_eq!(add(1000, 0, 0, 2000), (1000, 2000));
    assert_eq!(add(-1000, 2000, 1000, -2000), (0, 0));
    assert_eq!(add(1000, 123000, 9000, 877000), (10000, 1000000));
}

#[test]
fn test_add2() {
    let add2_fn = |mut a: (i64, i64), b: (i64, i64)| -> (i64, i64) {
        add2_mut(&mut a, &b);
        a
    };
    assert_eq!(add2_fn((0, 0), (0, 0)), (0, 0));
    assert_eq!(add2_fn((0, 2000), (1000, 0)), (1000, 2000));
    assert_eq!(add2_fn((1000, 0), (0, 2000)), (1000, 2000));
    assert_eq!(add2_fn((-1000, 2000), (1000, -2000)), (0, 0));
    assert_eq!(add2_fn((1000, 123000), (9000, 877000)), (10000, 1000000));
}

#[test]
fn test_mul_scalar() {
    assert_eq!(mul_scalar(&(0, 0), 3000), (0, 0));
    assert_eq!(mul_scalar(&(1000, 2000), 0), (0, 0));
    assert_eq!(mul_scalar(&(1000, 2000), 1000), (1000, 2000));
    assert_eq!(mul_scalar(&(1000, 2000), 5000), (5000, 10000));
    assert_eq!(mul_scalar(&(1000, 2000), -5000), (-5000, -10000));
}

#[test]
fn test_norm() {
    assert_eq!(norm(0, 0), 0);
    assert_eq!(norm(0, 1000), 1000);
    assert_eq!(norm(1000, 1000), 1414);
    assert_eq!(norm(1000, 2000), 2236);
    assert_eq!(norm(3000, 4000), 5000);
    assert_eq!(norm(-1000, 1000), 1414);
    assert_eq!(norm(-1000, -2000), 2236);
    assert_eq!(norm(-3000, -4000), 5000);
}

#[test]
fn test_normalise() {
    assert_eq!(normalise(0, 0), (0, 0));
    assert_eq!(normalise(0, 1000), (0, 1000));
    assert_eq!(normalise(1000, 1000), (707, 707));
    assert_eq!(normalise(1000, 2000), (447, 894));
    assert_eq!(normalise(3000, 4000), (600, 800));
    assert_eq!(normalise(-1000, 1000), (-707, 707));
    assert_eq!(normalise(-1000, -2000), (-447, -894));
    assert_eq!(normalise(-3000, -4000), (-600, -800));
}

#[test]
fn test_norm_after_normalise() {
    assert_eq!(norm_tuple(normalise(0, 0)), 0);
    assert_eq!(norm_tuple(normalise(0, 1000)), 1000);
    assert_eq!(norm_tuple(normalise(1000, 1000)), 999);
    assert_eq!(norm_tuple(normalise(1000, 2000)), 999);
    assert_eq!(norm_tuple(normalise(3000, 4000)), 1000);
    assert_eq!(norm_tuple(normalise(-1000, 1000)), 999);
    assert_eq!(norm_tuple(normalise(-1000, -2000)), 999);
    assert_eq!(norm_tuple(normalise(-3000, -4000)), 1000);
}

#[test]
fn test_euclid_dist() {
    assert_eq!(euclid_dist(0, 0, 0, 0), 0);
    assert_eq!(euclid_dist(0, 1000, 0, 1000), 0);
    assert_eq!(euclid_dist(1000, 1000, 1000, 1000), 0);
    assert_eq!(euclid_dist(-1000, 1000, -1000, 1000), 0);
    assert_eq!(euclid_dist(1234000, 5678000, 1234000, 5678000), 0);
    assert_eq!(euclid_dist(0, 1000, 1000, 0), 1414);
    assert_eq!(euclid_dist(1000, 2000, 3000, 4000), 2828);
    assert_eq!(euclid_dist(3000, 4000, 1000, 2000), 2828);
    assert_eq!(euclid_dist(-1000, 1000, 1000, -1000), 2828);
}

#[test]
fn test_angle_between() {
    assert_eq!(angle_between(0, 0, 0, 0), 0);
    assert_eq!(angle_between(0, 1000, 0, 1000), 0);
    assert_eq!(angle_between(1000, 1000, 1000, 1000), 0);
    assert_eq!(angle_between(-1000, 1000, -1000, 1000), 0);
    assert_eq!(angle_between(1234000, -5678000, 1234000, -5678000), 0);
    // pi/4 steps around the circle; 786 is the approximation's pi/4.
    assert_eq!(angle_between(0, 1000, 1000, 1000), 786);
    assert_eq!(angle_between(0, 1000, 1000, 0), 1571);
    assert_eq!(angle_between(0, 1000, 1000, -1000), 2356);
    assert_eq!(angle_between(0, 1000, 0, -1000), 3142);
    assert_eq!(angle_between(0, 1000, -1000, -1000), -2356);
    assert_eq!(angle_between(0, 1000, -1000, 0), -1571);
    assert_eq!(angle_between(0, 1000, -1000, 1000), -786);
}

#[test]
fn test_norm_limit() {
    assert_eq!(norm_tuple(limit(0, 0, 2000)), 0);
    assert_eq!(norm_tuple(limit(0, 1000, 2000)), 1000);
    assert_eq!(norm_tuple(limit(0, 2000, 2000)), 2000);
    assert_eq!(norm_tuple(limit(0, 3000, 2000)), 2000);
    assert_eq!(norm_tuple(limit(0, -1000, 2000)), 1000);
    assert_eq!(norm_tuple(limit(0, -2000, 2000)), 2000);
    assert_eq!(norm_tuple(limit(0, -3000, 2000)), 2000);
    assert_eq!(norm_tuple(limit(1000, 0, 2000)), 1000);
    assert_eq!(norm_tuple(limit(2000, 0, 2000)), 2000);
    assert_eq!(norm_tuple(limit(3000, 0, 2000)), 2000);
    assert_eq!(norm_tuple(limit(-1000, 0, 2000)), 1000);
    assert_eq!(norm_tuple(limit(-2000, 0, 2000)), 2000);
    assert_eq!(norm_tuple(limit(-3000, 0, 2000)), 2000);
    assert_eq!(norm_tuple(limit(1000, 1000, 1000)), 999);
    assert_eq!(norm_tuple(limit(1000, 1000, 2000)), 1414);
    assert_eq!(norm_tuple(limit(-1000, -1000, 1000)), 999);
    assert_eq!(norm_tuple(limit(-1000, -1000, 2000)), 1414);
    assert_eq!(norm_tuple(limit(123000, 456000, 42000)), 41999);
    assert_eq!(norm_tuple(limit(123000, 456000, 500000)), 472297);
    assert_eq!(norm_tuple(limit(-123000, -456000, 42000)), 41999);
    assert_eq!(norm_tuple(limit(-123000, -456000, 500000)), 472297);
}

#[test]
fn test_limit_within_bound_unchanged() {
    assert_eq!(limit(1500, -2000, 3000), (1500, -2000));
    assert_eq!(limit(0, 0, 0), (0, 0));
    assert_eq!(limit(300, 400, 500), (300, 400));
}

#[test]
fn test_distance_symmetry_and_zero() {
    assert_eq!(euclid_dist(17000, -3000, 250, 999), euclid_dist(250, 999, 17000, -3000));
    assert_eq!(euclid_dist(-5000, 42, -5000, 42), 0);
    assert!(euclid_dist(-5000, 42, -5000, 43) > 0);
}

#[test]
fn test_angle_range_and_antisymmetry() {
    let dirs = [
        (1000i64, 0i64),
        (1000, 1000),
        (0, 1000),
        (-1000, 1000),
        (-1000, 0),
        (-1000, -1000),
        (0, -1000),
        (1000, -1000),
        (317, -911),
    ];
    for a in dirs.iter() {
        for b in dirs.iter() {
            let t = angle_between(a.0, a.1, b.0, b.1);
            assert!(-3142 < t && t <= 3142);
            if t != 3142 {
                assert_eq!(angle_between(b.0, b.1, a.0, a.1), -t);
            }
        }
    }
}
