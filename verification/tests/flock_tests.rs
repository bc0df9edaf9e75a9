//! Simulation engine tests. Coordinates are fixed point: `50000` is
//! position 50, `1000` is velocity 1.

use boids::boids::BoidFlock;

fn dist(ax: i64, ay: i64, bx: i64, by: i64) -> i64 {
    boids::linalg::euclid_dist(ax, ay, bx, by)
}

#[test]
fn test_new_flock() {
    let f = BoidFlock::new(3);
    assert_eq!(f.count(), 3);
    assert_eq!(f.positions(), vec![0i64; 6]);
    assert_eq!(f.velocities(), vec![1000i64; 6]);
}

#[test]
fn test_single_agent_tick() {
    // One agent at (20, 20) in a 100 x 100 arena: no neighbours, so it
    // moves under attraction toward the center (50, 50) plus wall
    // avoidance only.
    let mut f = BoidFlock::new(1);
    f.set_width(100);
    f.set_height(100);
    f.set_position(0, 20000, 20000);
    f.update();
    assert_eq!(f.positions(), vec![21320, 21320]);
    assert_eq!(f.velocities(), vec![1320, 1320]);
}

#[test]
fn test_two_agent_scenario() {
    // Agent 0 at (50, 50), agent 1 at (55, 50), both with velocity
    // (1, 1), no attractor override: after one tick both stay within
    // the arena and separation has pushed them measurably further
    // apart than the starting 5 units that pure inertia would keep.
    let mut f = BoidFlock::new(2);
    f.set_width(100);
    f.set_height(100);
    f.set_position(0, 50000, 50000);
    f.set_position(1, 55000, 50000);
    f.set_velocity(0, 1000, 1000);
    f.set_velocity(1, 1000, 1000);
    f.update();
    let p = f.positions();
    assert_eq!(p, vec![50687, 51070, 56373, 51070]);
    assert_eq!(f.velocities(), vec![687, 1070, 1373, 1070]);
    for k in 0..4 {
        assert!(0 <= p[k] && p[k] <= 100000);
    }
    let d = dist(p[0], p[1], p[2], p[3]);
    assert!(d > 5000);
    assert_eq!(d, 5686);
}

#[test]
fn test_wraparound_high() {
    // An agent past the right border is wrapped to x == 1.
    let mut f = BoidFlock::new(1);
    f.set_width(10);
    f.set_height(10);
    f.set_position(0, 20000, 5000);
    f.update();
    assert_eq!(f.positions(), vec![1000, 6000]);
    assert_eq!(f.velocities(), vec![2075, 1000]);
}

#[test]
fn test_wraparound_low() {
    // An agent whose new x is negative is wrapped to width - 1 == 9.
    let mut f = BoidFlock::new(1);
    f.set_width(10);
    f.set_height(10);
    f.set_position(0, -5000, 5000);
    f.update();
    assert_eq!(f.positions(), vec![9000, 6000]);
    assert_eq!(f.velocities(), vec![-945, 1000]);
}

#[test]
fn test_speed_clamped() {
    // A huge seeded velocity is clamped to magnitude MAX_SPEED (3).
    let mut f = BoidFlock::new(1);
    f.set_width(100);
    f.set_height(100);
    f.set_position(0, 50000, 50000);
    f.set_velocity(0, 100000, 0);
    f.update();
    assert_eq!(f.velocities(), vec![3000, 0]);
    assert_eq!(f.positions(), vec![53000, 50000]);
}

#[test]
fn test_two_agents_speed_within_limit() {
    // Two agents within both the neighbourhood radius and the desired
    // separation: after one tick both velocity magnitudes stay within
    // MAX_SPEED.
    let mut f = BoidFlock::new(2);
    f.set_width(100);
    f.set_height(100);
    f.set_position(0, 50000, 50000);
    f.set_position(1, 52000, 50000);
    f.update();
    let v = f.velocities();
    assert!(boids::linalg::norm(v[0], v[1]) <= 3000);
    assert!(boids::linalg::norm(v[2], v[3]) <= 3000);
}

#[test]
fn test_determinism() {
    let mut runs: Vec<(Vec<i64>, Vec<i64>)> = Vec::new();
    for _ in 0..2 {
        let mut f = BoidFlock::new(3);
        f.set_width(200);
        f.set_height(150);
        f.set_position(0, 10000, 20000);
        f.set_position(1, 30000, 25000);
        f.set_position(2, 28000, 21000);
        f.set_velocity(1, -2000, 500);
        f.set_attractor(120000, 40000);
        f.set_repulsor(15000, 15000);
        f.update();
        f.update();
        runs.push((f.positions(), f.velocities()));
    }
    assert_eq!(runs[0], runs[1]);
}

#[test]
fn test_attractor_roundtrip() {
    // Setting and clearing the attractor and repulsor leaves the next
    // tick exactly as if they had never been set.
    let mut a = BoidFlock::new(2);
    a.set_width(100);
    a.set_height(100);
    a.set_position(0, 20000, 20000);
    a.set_position(1, 70000, 60000);
    a.set_attractor(90000, 90000);
    a.unset_attractor();
    a.set_repulsor(10000, 10000);
    a.unset_repulsor();
    let mut b = BoidFlock::new(2);
    b.set_width(100);
    b.set_height(100);
    b.set_position(0, 20000, 20000);
    b.set_position(1, 70000, 60000);
    a.update();
    b.update();
    assert_eq!(a.positions(), b.positions());
    assert_eq!(a.velocities(), b.velocities());
}

#[test]
fn test_attractor_changes_target() {
    // With the attractor on the agent itself the pull vanishes; the
    // default pull toward the center remains in the control run.
    let mut f = BoidFlock::new(1);
    f.set_width(100);
    f.set_height(100);
    f.set_position(0, 20000, 20000);
    f.set_attractor(20000, 20000);
    f.update();
    assert_eq!(f.positions(), vec![21285, 21285]);
    assert_eq!(f.velocities(), vec![1285, 1285]);
}

#[test]
fn test_repulsor_pushes_away() {
    // A repulsor just below the agent pushes it upward with
    // inverse-square strength.
    let mut f = BoidFlock::new(1);
    f.set_width(100);
    f.set_height(100);
    f.set_position(0, 20000, 20000);
    f.set_repulsor(20000, 19000);
    f.update();
    assert_eq!(f.positions(), vec![20420, 22970]);
    assert_eq!(f.velocities(), vec![420, 2970]);
}

#[test]
fn test_view_cone_exclusion() {
    // Agent 1 sits behind agent 0's heading (5, -2), so agent 0 does
    // not count it as a neighbour, while agent 1 still sees agent 0.
    // The exact post-tick buffers pin the asymmetric view-cone rule.
    let mut f = BoidFlock::new(2);
    f.set_width(100);
    f.set_height(100);
    f.set_position(0, 50000, 50000);
    f.set_position(1, 52000, 47000);
    f.set_velocity(0, 5000, -2000);
    f.set_velocity(1, 1000, 1000);
    f.update();
    assert_eq!(f.positions(), vec![52785, 48886, 53613, 47477]);
    assert_eq!(f.velocities(), vec![2785, -1114, 1613, 477]);
}
