//! Trips, drivers and vehicles that start.

use rand::rngs::StdRng;
use rand::SeedableRng;

use traffic_control::map::builders::build_single_intersection_network;
use traffic_control::map::building::{BuildingType, OdBuilding};
use traffic_control::map::map_data::MapData;
use traffic_control::simulation::od_model::{
    trip_type_for, OdAssignment, OdModel, TripKind, TripType, WALK_THRESHOLD,
};
use traffic_control::simulation::pathfinding::{find_path, random_destination, REF_SPEED};
use traffic_control::simulation::spawn::{
    find_nth_access, profile_for_roll, route_alpha_from, sample_compliance, sample_route_alpha,
    trip_across,
    trip_between, vehicle_type_for_roll, SpawnSystem, TripChoice, TripDraw,
};
use traffic_control::simulation::speed_config::SpeedConfig;
use traffic_control::util::random::ROLLS;
use traffic_control::vehicles::driver::DriverProfile;
use traffic_control::vehicles::types::VehicleType;

const D: i64 = 1_000_000_000;

fn crossing() -> MapData {
    let mut map = build_single_intersection_network(50 * D, 20 * D, 900_000, 1_400_000);
    for e in 0..map.edges.len() {
        map.set_edge_length(e, 100_000_000);
    }
    map
}

fn building(id: u64, building_type: BuildingType, access_node: Option<usize>) -> OdBuilding {
    OdBuilding {
        id,
        polygon: vec![(0, 0), (1, 0), (1, 1)],
        centroid: (0, 0),
        building_type,
        access_node,
    }
}

fn town() -> Vec<OdBuilding> {
    vec![
        building(1, BuildingType::Residential, Some(1)),
        building(2, BuildingType::Office, Some(2)),
        building(3, BuildingType::Commercial, Some(3)),
        building(4, BuildingType::Residential, Some(4)),
        building(5, BuildingType::Other, None),
    ]
}

#[test]
fn hours_decide_on_trips() {
    assert_eq!(trip_type_for(8_000_000, true), TripType::HomeToWork);
    assert_eq!(trip_type_for(17_000_000, true), TripType::WorkToHome);
    assert_eq!(trip_type_for(12_500_000, true), TripType::LunchTrip);
}

#[test]
fn residents_have_a_work_and_a_shop() {
    let buildings = town();
    let a = OdAssignment::from_draws(&buildings, &vec![0, 0], &vec![0, 0]);
    assert_eq!(a.work.get(&1), Some(&1));
    assert_eq!(a.shop.get(&4), Some(&2));
    assert_eq!(a.work.get(&2), None);
    let mut rng = StdRng::seed_from_u64(3);
    let model = OdModel::new(town(), &mut rng);
    assert!(!model.is_empty());
    assert_eq!(model.residential, vec![0, 3]);
    assert_eq!(model.offices, vec![1]);
    assert_eq!(model.assignments.work.get(&1), Some(&1));
    for _ in 0..100 {
        if let Some((o, d)) = model.draw_od_buildings(8_000_000, &mut rng) {
            assert!(o < 5 && d < 5);
        }
    }
    let empty = OdModel::new(vec![], &mut rng);
    assert!(empty.is_empty());
    assert_eq!(empty.draw_od_buildings(8_000_000, &mut rng), None);
}

#[test]
fn short_trips_are_walked() {
    let mut rng = StdRng::seed_from_u64(3);
    let model = OdModel::new(town(), &mut rng);
    assert_eq!(model.generate_od_pair(0, 1, WALK_THRESHOLD - 1), None);
    assert_eq!(model.generate_od_pair(0, 1, WALK_THRESHOLD), Some((1, 2, TripKind::LocalOD)));
    assert_eq!(model.generate_od_pair(0, 0, WALK_THRESHOLD), None);
    assert_eq!(model.generate_od_pair(0, 4, WALK_THRESHOLD), None);
    assert_eq!(TripKind::LocalOD.to_u8(), 0);
}

#[test]
fn rolls_decide_on_drivers_and_vehicles() {
    assert_eq!(profile_for_roll(0), DriverProfile::Normal);
    assert_eq!(profile_for_roll(ROLLS - 1), DriverProfile::Cautious);
    assert_eq!(vehicle_type_for_roll(0), VehicleType::Car);
    assert_eq!(vehicle_type_for_roll(ROLLS - 1), VehicleType::Truck);
    let cfg = SpeedConfig::default();
    let r = cfg.compliance_for(DriverProfile::Normal);
    assert_eq!(sample_compliance(DriverProfile::Normal, &cfg, 0), r.base);
    assert_eq!(sample_compliance(DriverProfile::Normal, &cfg, 9_000_000), r.max);
    assert_eq!(sample_compliance(DriverProfile::Normal, &cfg, -9_000_000), r.min);
    assert_eq!(route_alpha_from(500_000, 9_000_000), 1_000_000);
    assert_eq!(route_alpha_from(500_000, -9_000_000), 0);
    assert_eq!(route_alpha_from(500_000, 1), 500_001);
    let mut rng = StdRng::seed_from_u64(3);
    let (lo, hi) = cfg.route_alpha_range(DriverProfile::Pirat);
    let drawn: Vec<i64> =
        (0..50).map(|_| sample_route_alpha(DriverProfile::Pirat, &cfg, 0, &mut rng)).collect();
    assert!(drawn.iter().all(|a| lo <= *a && *a <= hi));
    assert!(drawn.iter().any(|a| *a != drawn[0]));
}

#[test]
fn draws_differ() {
    let map = crossing();
    let mut rng = StdRng::seed_from_u64(11);
    let mut seen = vec![false; map.nodes.len()];
    for _ in 0..300 {
        seen[random_destination(&map.graph, 0, &mut rng)] = true;
    }
    assert!(seen[1..].iter().all(|x| *x));
    let mut s = SpawnSystem::new(vec![1, 2], vec![3, 4], SpeedConfig::default(), false);
    let kinds: Vec<u8> = (0..400).map(|_| s.random_vehicle_type().to_u8()).collect();
    let drivers: Vec<u8> = (0..400).map(|_| s.random_driver_profile().to_u8()).collect();
    for k in 0..4u8 {
        assert!(kinds.contains(&k));
        assert!(drivers.contains(&k));
    }
    assert!(!kinds.contains(&4));
    s.sandbox_mode = true;
    assert!((0..100).all(|_| s.random_vehicle_type() == VehicleType::Car));
    let trips: Vec<TripType> =
        (0..200).map(|_| OdModel::select_trip_type(15_000_000, &mut rng)).collect();
    assert!(trips.iter().any(|t| *t != trips[0]));
    let buildings: Vec<OdBuilding> = (0..6)
        .map(|k| {
            let kind = if k == 0 { BuildingType::Residential } else { BuildingType::Office };
            building(k, kind, Some(k as usize))
        })
        .collect();
    let mut works = vec![];
    for _ in 0..60 {
        let a = OdAssignment::new(&buildings, &mut rng);
        works.push(*a.work.get(&0).expect("there is work"));
    }
    assert!(works.iter().all(|w| *w >= 1 && *w < 6));
    assert!(works.iter().any(|w| *w != works[0]));
}

#[test]
fn trips_lead_between_two_places() {
    assert_eq!(trip_between(&vec![4, 5, 6], 0, 2, TripKind::Transit), (4, 6, TripKind::Transit));
    assert_eq!(trip_between(&vec![4, 5, 6], 1, 1, TripKind::Transit), (5, 6, TripKind::Transit));
    assert_eq!(find_nth_access(&town(), 1), Some(2));
    assert_eq!(find_nth_access(&town(), 4), None);
    assert_eq!(trip_across(9, &town(), true, 0), Some((9, 1, TripKind::ExternalInbound)));
    assert_eq!(trip_across(9, &town(), false, 2), Some((3, 9, TripKind::ExternalOutbound)));
}

#[test]
fn vehicles_come_at_the_rate() {
    let map = crossing();
    let mut s = SpawnSystem::new(
        map.spawn_points.clone(),
        map.boundary_nodes.clone(),
        SpeedConfig::default(),
        true,
    );
    assert_eq!(s.max_vehicles, 30);
    assert_eq!(s.tick(500_000, 1_000_000, 0), 0);
    assert_eq!(s.tick(500_000, 1_000_000, 0), 1);
    assert_eq!(s.tick(3_000_000, 1_000_000, 0), 3);
    assert_eq!(s.tick(3_000_000, 1_000_000, 30), 0);
}

#[test]
fn a_vehicle_starts_on_its_route() {
    let map = crossing();
    let mut rng = StdRng::seed_from_u64(5);
    let od = OdModel::new(vec![], &mut rng);
    let mut s = SpawnSystem::new(
        map.spawn_points.clone(),
        map.boundary_nodes.clone(),
        SpeedConfig::default(),
        true,
    );
    let mut found = 0;
    for _ in 0..50 {
        if let TripChoice::Nodes { from, to, kind } = s.choose_trip(&map, &od, 8_000_000) {
            let none = vec![0; map.nodes.len()];
            if let Some(route) = find_path(&map, from, to, 500_000, REF_SPEED, &none) {
                if route.is_empty() {
                    assert_eq!(from, to);
                    continue;
                }
                let first = route[0];
                let id = s.next_id;
                let v = s
                    .spawn_vehicle(
                        &map,
                        (from, to, kind),
                        route,
                        VehicleType::Car,
                        DriverProfile::Normal,
                        1_000_000,
                        500_000,
                    )
                    .expect("a route makes a vehicle");
                assert_eq!(v.id, id);
                assert_eq!(v.current_edge(), Some(first));
                assert_eq!(v.trip_kind, kind.to_u8());
                found += 1;
            }
        }
    }
    assert!(found > 0);
    let place = |id: u64| map.nodes.iter().position(|n| n.osm_id == id).unwrap();
    let none = vec![0; map.nodes.len()];
    let trip = (place(103), place(104), TripKind::Transit);
    let (car, calm) = (VehicleType::Car, DriverProfile::Normal);
    let id = s.next_id;
    let v = s.spawn_one(&map, trip, car, calm, 1_000_000, 500_000, &none).expect("there is a way");
    assert_eq!((v.id, v.route.len(), s.next_id), (id, 2, id + 1));
    assert_eq!(v.speed, 2_000_000);
    let nowhere = (place(103), place(103), TripKind::Transit);
    assert!(s.spawn_one(&map, nowhere, car, calm, 1_000_000, 500_000, &none).is_none());
    assert_eq!(s.next_id, id + 1);
    let draw = |trip| TripDraw {
        trip,
        vehicle_type: car,
        profile: calm,
        compliance: 1_000_000,
        alpha: 500_000,
        estimates: none.clone(),
    };
    let back = (place(104), place(103), TripKind::LocalOD);
    let made = s.spawn_drawn(&map, &vec![draw(trip), draw(nowhere), draw(back)]);
    assert_eq!(made.iter().map(|v| v.id).collect::<Vec<_>>(), vec![id + 1, id + 2]);
    assert_eq!(made[0].route, v.route);
    assert_eq!(s.next_id, id + 3);
    assert!(s
        .spawn_vehicle(
            &map,
            (0, 1, TripKind::Transit),
            vec![],
            VehicleType::Car,
            DriverProfile::Normal,
            1,
            1,
        )
        .is_none());
}
