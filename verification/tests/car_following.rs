//! How drivers follow, brake and stop.

use traffic_control::simulation::idm::idm_acceleration;
use traffic_control::simulation::obstacle::{
    comfort_braking_distance, compute_idm_accel_with_obstacle, emergency_decel,
    free_leader_obstacle, idm_focus_caption, idm_ttc, idm_ui_decision, min_obstacle,
    obstacle_kind_label, stopping_distance, ClosestObstacle, ObstacleKind,
};
use traffic_control::vehicles::driver::{DriverParams, DriverProfile};
use traffic_control::vehicles::types::VehicleType;
use traffic_control::vehicles::vehicle::Vehicle;

const M: i64 = 1_000_000;

#[test]
fn free_road_accelerates() {
    let params = DriverProfile::Normal.params();
    let vtype = VehicleType::Car.params();
    let a = idm_acceleration(5 * M, 14 * M, 1000 * M, 0, &params, &vtype);
    assert!(a > 0, "expected positive accel, got {}", a);
}

#[test]
fn too_close_brakes() {
    let params = DriverProfile::Normal.params();
    let vtype = VehicleType::Car.params();
    let a = idm_acceleration(10 * M, 14 * M, M, 5 * M, &params, &vtype);
    assert!(a < 0, "expected negative accel, got {}", a);
}

#[test]
fn acceleration_follows_the_formula() {
    let params = DriverProfile::Normal.params();
    let vtype = VehicleType::Car.params();
    let (v, v0, s, dv) = (8.0f64, 14.0f64, 40.0f64, 1.5f64);
    let s_star = 10.0 + v * 1.5 + v * dv / (2.0 * (1.5f64 * 2.0).sqrt());
    let want = 1.5 * (1.0 - (v / v0).powi(4) - (s_star / s).powi(2));
    let got = idm_acceleration(8 * M, 14 * M, 40 * M, 1_500_000, &params, &vtype);
    assert!((got as f64 / 1e6 - want).abs() < 1e-4, "{} and {}", got, want);
}

#[test]
fn standing_on_a_free_road_gives_comfortable_acceleration() {
    let params = DriverProfile::Normal.params();
    let vtype = VehicleType::Car.params();
    let a = idm_acceleration(0, 14 * M, 1000 * M, 0, &params, &vtype);
    assert_eq!(a, 1_499_850);
    assert_eq!(idm_acceleration(30 * M, 14 * M, 10, 30 * M, &params, &vtype), -vtype.max_decel);
    assert!(idm_acceleration(14 * M, 14 * M, 1000 * M, 0, &params, &vtype) <= 0);
    assert!(idm_acceleration(5 * M, 0, 1000 * M, 0, &params, &vtype) > 0);
}

fn car(speed: i64) -> Vehicle {
    let mut v = Vehicle::new(
        1,
        0,
        0,
        VehicleType::Car,
        DriverProfile::Normal,
        vec![0],
        M,
        500_000,
        0,
    );
    v.speed = speed;
    v
}

fn at(kind: ObstacleKind, gap: i64) -> ClosestObstacle {
    let mut o = free_leader_obstacle();
    o.kind = kind;
    o.gap = gap;
    o
}

#[test]
fn emergencies_brake_harder() {
    let v = car(14 * M);
    let calm = compute_idm_accel_with_obstacle(&v, 14 * M, &at(ObstacleKind::Vehicle, 20 * M));
    let hard = compute_idm_accel_with_obstacle(&v, 14 * M, &at(ObstacleKind::ConflictPoint, 20 * M));
    assert_eq!(hard, calm.min(-emergency_decel(&v)));
    let far = at(ObstacleKind::ConflictPoint, 200 * M);
    assert_eq!(
        compute_idm_accel_with_obstacle(&v, 14 * M, &far),
        compute_idm_accel_with_obstacle(&v, 14 * M, &at(ObstacleKind::Vehicle, 200 * M))
    );
}

#[test]
fn the_nearer_obstacle_counts() {
    let a = at(ObstacleKind::Vehicle, 30 * M);
    let b = at(ObstacleKind::PriorityStopLine, 20 * M);
    assert_eq!(min_obstacle(a, b).kind, ObstacleKind::PriorityStopLine);
    assert_eq!(min_obstacle(b, a).kind, ObstacleKind::PriorityStopLine);
    let c = at(ObstacleKind::ConflictPoint, 30 * M);
    assert_eq!(min_obstacle(a, c).kind, ObstacleKind::Vehicle);
}

#[test]
fn stopping_takes_the_square_of_the_speed() {
    assert_eq!(stopping_distance(10 * M, 2 * M), 25 * M);
    assert!(stopping_distance(20 * M, 2 * M) >= 4 * stopping_distance(10 * M, 2 * M));
    assert_eq!(comfort_braking_distance(7 * M), 7 * M);
}

#[test]
fn what_is_shown_of_a_vehicle() {
    let o = at(ObstacleKind::Vehicle, 30 * M);
    assert_eq!(obstacle_kind_label(ObstacleKind::Vehicle), "vehicle");
    assert_eq!(idm_ui_decision(0, 0, &o, true), "STOP");
    assert_eq!(idm_ui_decision(5 * M, M, &o, false), "GO");
    let mut closing = o;
    closing.delta_v = 3 * M;
    assert_eq!(idm_ttc(&closing, 5 * M), Some(10 * M));
    closing.delta_v = -3 * M;
    assert_eq!(idm_ttc(&closing, 5 * M), None);
    assert!(!idm_focus_caption(&o).is_empty());
}

#[test]
fn gaps_below_the_least_count_alike() {
    let params = DriverProfile::Normal.params();
    let mut vtype = VehicleType::Car.params();
    vtype.max_decel = i64::MAX;
    let least = idm_acceleration(20 * M, 14 * M, 100_000, 20 * M, &params, &vtype);
    for s in [i64::MIN, -M, 0, 1, 99_999] {
        assert_eq!(idm_acceleration(20 * M, 14 * M, s, 20 * M, &params, &vtype), least);
    }
    let s_star = 10.0 + 20.0 * 1.5 + 400.0 / (2.0 * (1.5f64 * 2.0).sqrt());
    let want = 1.5 * (1.0 - (20.0f64 / 14.0).powi(4) - (s_star / 0.1).powi(2));
    assert!((least as f64 / 1e6 / want - 1.0).abs() < 1e-6, "{} and {}", least, want);
    let most = idm_acceleration(i64::MAX, 1, 0, i64::MAX, &params, &vtype);
    assert_eq!(most, -i64::MAX);
}

#[test]
fn comfort_without_a_mean_brakes_hard() {
    let vtype = VehicleType::Car.params();
    let mut params = DriverProfile::Normal.params();
    let at = |p: &DriverParams, v: i64, dv: i64| {
        idm_acceleration(v, 14 * M, 50 * M, dv, p, &vtype)
    };
    params.comfort_decel = 0;
    assert_eq!(at(&params, 5 * M, M), -vtype.max_decel);
    params.comfort_accel = -M;
    assert_eq!(at(&params, 5 * M, M), vtype.max_accel);
    assert_eq!(at(&params, 5 * M, 0), -vtype.max_decel);
    params.comfort_decel = M;
    assert_eq!(at(&params, 5 * M, M), -vtype.max_decel);
    params.comfort_decel = -M;
    assert_eq!(at(&params, 0, 0), (-M + M / 25).max(-vtype.max_decel));
}
