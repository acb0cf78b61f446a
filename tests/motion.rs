use swarm::consts::{RETENTION_DEN, RETENTION_NUM};
use swarm::{Agent, Kinematics, Vec2};

fn moving(p: Vec2, v: Vec2, a: Vec2) -> Kinematics {
    Kinematics { p, v, a, theta: 0, radius: 10 }
}

fn speed_sq(v: Vec2) -> i64 {
    (v.x as i64) * (v.x as i64) + (v.y as i64) * (v.y as i64)
}

#[test]
fn integration_is_exact() {
    let mut k = moving(Vec2::new(0, 0), Vec2::new(1000, -1000), Vec2::zeros());
    assert!(k.integrate(1, RETENTION_NUM, RETENTION_DEN));
    assert_eq!(k.p, Vec2::new(1000, -1000));
    assert_eq!(k.v, Vec2::new(999, -999));
}

#[test]
fn constant_acceleration_from_rest() {
    let mut k = moving(Vec2::new(5, 5), Vec2::zeros(), Vec2::new(10, -3));
    assert!(k.integrate(10, 4, 5));
    assert_eq!(k.p, Vec2::new(505, -145));
    assert_eq!(k.v, Vec2::new(100, -30));
    assert_eq!(k.a, Vec2::new(10, -3));
}

#[test]
fn drag_per_tick_rounds_toward_zero() {
    let mut k = moving(Vec2::zeros(), Vec2::new(10, -10), Vec2::zeros());
    assert!(k.integrate(2, 1, 2));
    assert_eq!(k.v, Vec2::new(2, -2));
    assert_eq!(k.p, Vec2::new(20, -20));
}

#[test]
fn overflowing_step_changes_nothing() {
    let start = moving(Vec2::new(i32::MAX - 5, 0), Vec2::new(10, 0), Vec2::zeros());
    let mut k = start;
    assert!(!k.integrate(1, 1, 2));
    assert_eq!(k, start);
}

#[test]
fn coasting_speed_strictly_decreases_to_rest() {
    let mut k = moving(Vec2::zeros(), Vec2::new(300, -200), Vec2::zeros());
    let mut last = k.v;
    let mut steps = 0;
    while k.v != Vec2::zeros() {
        assert!(k.integrate(5, 9, 10));
        assert!(speed_sq(k.v) < speed_sq(last));
        assert!(k.v.x >= 0 && k.v.y <= 0);
        last = k.v;
        steps += 1;
        assert!(steps <= 500);
    }
    assert!(k.integrate(5, 9, 10));
    assert_eq!(k.v, Vec2::zeros());
}

#[test]
fn agent_motion_uses_standard_drag() {
    let mut a = Agent { id: 0, kinematics: moving(Vec2::zeros(), Vec2::new(100_000, 0), Vec2::zeros()), mission: None };
    assert!(a.simulate_motion(1));
    assert_eq!(a.kinematics.v, Vec2::new(99_977, 0));
    assert_eq!(a.kinematics.p, Vec2::new(100_000, 0));
}

#[test]
fn thousand_ticks_keep_four_fifths() {
    let mut a = Agent { id: 0, kinematics: moving(Vec2::zeros(), Vec2::new(1_000_000, 0), Vec2::zeros()), mission: None };
    assert!(a.simulate_motion(1000));
    assert!(a.kinematics.v.x > 795_000 && a.kinematics.v.x < 805_000);
}

#[test]
fn steering_is_proportional_and_damped() {
    let k = moving(Vec2::zeros(), Vec2::new(50, 0), Vec2::zeros());
    let a = k.steering_acceleration(Vec2::new(1000, -1000), 10, 100);
    assert_eq!(a, Vec2::new(10, -20));
}

#[test]
fn steering_is_clipped_componentwise() {
    let k = moving(Vec2::zeros(), Vec2::new(0, -5000), Vec2::zeros());
    let a = k.steering_acceleration(Vec2::new(1_000_000, 0), 1, 100);
    assert_eq!(a, Vec2::new(100, 100));
    let b = k.steering_acceleration(Vec2::new(-1_000_000, -1_000_000), 1, 100);
    assert_eq!(b, Vec2::new(-100, -100));
}

#[test]
fn steering_at_target_and_rest_is_zero() {
    let k = moving(Vec2::new(7, 7), Vec2::zeros(), Vec2::zeros());
    assert_eq!(k.steering_acceleration(Vec2::new(7, 7), 3, 100), Vec2::zeros());
}

#[test]
fn small_velocity_is_still_damped() {
    let k = moving(Vec2::new(3, 3), Vec2::new(1, -1), Vec2::zeros());
    assert_eq!(k.steering_acceleration(Vec2::new(3, 3), 10, 100), Vec2::new(-1, 1));
}

#[test]
fn proportional_term_rounds_away_from_zero() {
    let k = moving(Vec2::zeros(), Vec2::zeros(), Vec2::zeros());
    assert_eq!(k.steering_acceleration(Vec2::new(1010, -1010), 10, 100), Vec2::new(21, -21));
}
