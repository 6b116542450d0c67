//! Drivers, vehicles and what can be set.

use traffic_control::simulation::speed_config::SpeedConfig;
use traffic_control::vehicles::driver::DriverProfile;
use traffic_control::vehicles::types::VehicleType;
use traffic_control::vehicles::vehicle::Vehicle;

#[test]
fn compliance_for_matches_profile() {
    let cfg = SpeedConfig::default();
    assert_eq!(cfg.compliance_for(DriverProfile::Pirat).base, 1_350_000);
    assert_eq!(cfg.compliance_for(DriverProfile::Sunday).base, 950_000);
}

#[test]
fn route_alpha_range_ordering() {
    let cfg = SpeedConfig::default();
    let (n_lo, n_hi) = cfg.route_alpha_range(DriverProfile::Normal);
    assert!(n_lo <= n_hi);
    let (p_lo, p_hi) = cfg.route_alpha_range(DriverProfile::Pirat);
    assert!(p_lo >= n_lo, "pirat should prefer faster routing on average");
    assert!(p_hi > n_hi);
}

#[test]
fn profile_idx_is_stable() {
    assert_eq!(SpeedConfig::profile_idx(DriverProfile::Normal), 0);
    assert_eq!(SpeedConfig::profile_idx(DriverProfile::Sunday), 1);
    assert_eq!(SpeedConfig::profile_idx(DriverProfile::Pirat), 2);
    assert_eq!(SpeedConfig::profile_idx(DriverProfile::Cautious), 3);
}

#[test]
fn profiles_and_types_keep_their_numbers() {
    for k in 0..4u8 {
        assert_eq!(DriverProfile::from_u8(k).to_u8(), k);
    }
    for k in 0..5u8 {
        assert_eq!(VehicleType::from_u8(k).to_u8(), k);
    }
    assert_eq!(DriverProfile::from_u8(9), DriverProfile::Normal);
    assert_eq!(VehicleType::from_u8(9), VehicleType::Car);
}

#[test]
fn drivers_differ_in_what_they_keep_to() {
    let normal = DriverProfile::Normal.params();
    assert_eq!(normal.time_headway, 1_500_000);
    assert_eq!(normal.min_gap, 10_000_000);
    assert_eq!(normal.comfort_accel, 1_500_000);
    let pirat = DriverProfile::Pirat.params();
    assert!(pirat.time_headway < normal.time_headway);
    assert!(pirat.desired_speed_factor > normal.desired_speed_factor);
}

#[test]
fn radius_is_half_the_diagonal() {
    let p = VehicleType::Car.params();
    let r = VehicleType::Car.path_radius();
    let d2 = p.length as i128 * p.length as i128 + p.width as i128 * p.width as i128;
    let twice = 2 * r as i128;
    assert!(twice * twice <= d2 && (twice + 4) * (twice + 4) > d2);
}

#[test]
fn new_vehicle_is_at_the_start_of_its_route() {
    let v = Vehicle::new(
        3,
        1,
        2,
        VehicleType::Van,
        DriverProfile::Sunday,
        vec![5, 6],
        900_000,
        500_000,
        0,
    );
    assert_eq!(v.current_edge(), Some(5));
    assert_eq!(v.next_movement(), Some((5, 6)));
    assert_eq!(v.edge_progress, 0);
    assert!(!v.despawned);
    let mut w = v;
    w.route_pos = 1;
    assert_eq!(w.next_movement(), None);
    w.route_pos = 2;
    assert_eq!(w.current_edge(), None);
    w.speed = 499_999;
    assert!(w.is_stopped());
    w.speed = 500_001;
    assert!(!w.is_stopped());
}
