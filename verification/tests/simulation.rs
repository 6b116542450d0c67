//! Vehicles on the road, step by step.

use traffic_control::map::builders::{build_single_intersection_network, build_single_road_network};
use traffic_control::map::lane_graph::NO_EDGE;
use traffic_control::map::map_data::MapData;
use traffic_control::map::road_network::LaneDirection;
use traffic_control::simulation::approach::{stop_line_debug, Scene};
use traffic_control::simulation::conflict::{ConflictSystem, LaneMovementKey, VehicleBody};
use traffic_control::simulation::conflict_build::{
    build_conflict_system, does_bend, movement_keys, Crossing,
};
use traffic_control::simulation::congestion::compute_congestion;
use traffic_control::simulation::frame::{encode_frame, serialize_vehicles, Packet};
use traffic_control::simulation::lane_change::{
    compute_vehicle_target_lane, decide_lane_change, turn_direction_between,
};
use traffic_control::simulation::lane_shapes::lane_shapes;
use traffic_control::simulation::leader::LaneBuckets;
use traffic_control::simulation::obstacle::{ObstacleKind, PlannedTurnConnector};
use traffic_control::simulation::physics::Placement;
use traffic_control::simulation::right_of_way::{
    classify_turn_at_node, edges_are_conflicting_approaches, movement_turn_intent, TurnIntent,
};
use traffic_control::simulation::route::{
    build_lane_route_from_edge_route, find_connector_lane_id, sync_vehicle_lane_route_state,
};
use traffic_control::simulation::sim_loop::{
    admit_vehicle, admit_vehicles, apply_lane_changes, compute_idm_steps, current_map_signature, debug_target,
    handle_command, leader_debug, reason_label, refreshed_spawn, remove_despawned,
    waiting_vehicles, Cadence, GameOverReason, GameWatch, MoveContext, StepClock,
    VehicleGeometry, PHYSICS_DT,
};
use traffic_control::simulation::spatial_grid::SpatialGrid;
use traffic_control::simulation::spawn::SpawnSystem;
use traffic_control::simulation::speed_config::{RageConfig, SpeedConfig};
use traffic_control::simulation::tram_sim::TramSim;
use traffic_control::simulation::turn_plan::{
    is_drawable, next_turn_intent_label_for_vehicle, planned_turn_connector, road_lane_points,
    turn_connector_lut, turn_entry, turn_exit, vehicle_lookahead_point,
};
use traffic_control::state::{LightControlMode, SimCommand};
use traffic_control::time::game_clock::GameClock;
use traffic_control::traffic::intersection::IntersectionManager;
use traffic_control::traffic::traffic_light::LightPhase;
use traffic_control::units::{to_plane, FULL};
use traffic_control::vehicles::driver::DriverProfile;
use traffic_control::vehicles::types::VehicleType;
use traffic_control::vehicles::vehicle::{copy_vehicles, Vehicle};

const D: i64 = 1_000_000_000;
const M: i64 = 1_000_000;

fn crossing() -> MapData {
    let mut map = build_single_intersection_network(50 * D, 20 * D, 900_000, 1_400_000);
    for e in 0..map.edges.len() {
        map.set_edge_length(e, 100 * M);
    }
    for id in 1..=map.lanes.lanes.len() as u64 {
        map.lanes.set_length(id, 100 * M);
    }
    map
}

fn road() -> MapData {
    let mut map = build_single_road_network(50 * D, 20 * D, 1_400_000);
    for e in 0..map.edges.len() {
        map.set_edge_length(e, 100 * M);
    }
    for id in 1..=map.lanes.lanes.len() as u64 {
        map.lanes.set_length(id, 100 * M);
    }
    map
}

fn edge(map: &MapData, from: u64, to: u64) -> usize {
    let a = map.nodes.iter().position(|n| n.osm_id == from).unwrap();
    let b = map.nodes.iter().position(|n| n.osm_id == to).unwrap();
    map.graph.edge_connecting(a, b).unwrap()
}

fn car(id: u32, route: Vec<usize>, progress: i64, speed: i64) -> Vehicle {
    let mut v = Vehicle::new(
        id,
        50 * D,
        20 * D,
        VehicleType::Car,
        DriverProfile::Normal,
        route,
        M,
        500_000,
        0,
    );
    v.edge_progress = progress;
    v.speed = speed;
    v
}

fn body(v: &Vehicle) -> VehicleBody {
    let (x, y) = to_plane(v.lat, v.lng);
    let r = v.vehicle_type.path_radius() as u32;
    VehicleBody {
        id: v.id,
        despawned: v.despawned,
        on_turn_connector: v.on_turn_connector,
        x,
        y,
        hood_x: x,
        hood_y: y,
        path_radius: r,
        nose_radius: r,
    }
}

fn no_conflicts(map: &MapData) -> ConflictSystem {
    let crossings: Vec<Vec<Crossing>> = map.nodes.iter().map(|_| vec![]).collect();
    build_conflict_system(map, &crossings)
}

fn step(
    map: &MapData,
    lights: &IntersectionManager,
    sys: &mut ConflictSystem,
    vehicles: &mut Vec<Vehicle>,
    now: i64,
) {
    let bodies: Vec<VehicleBody> = vehicles.iter().map(body).collect();
    let plans: Vec<Option<PlannedTurnConnector>> = vehicles.iter().map(|_| None).collect();
    let buckets = LaneBuckets::build(vehicles);
    let trams = vec![];
    let steps = {
        let scene = Scene {
            vehicles,
            bodies: &bodies,
            plans: &plans,
            buckets: &buckets,
            trams: &trams,
            map,
            intersections: lights,
            conflicts: sys,
        };
        compute_idm_steps(&scene)
    };
    let accels: Vec<i64> = steps.iter().map(|s| s.accel).collect();
    let geometry: Vec<VehicleGeometry> = vehicles
        .iter()
        .map(|_| VehicleGeometry { plan: None, turn_total: 0, projections: vec![] })
        .collect();
    let snapshot = copy_vehicles(vehicles);
    let rage = RageConfig::default();
    let ctx = MoveContext {
        dt: PHYSICS_DT,
        now,
        map,
        intersections: lights,
        rage: &rage,
        snapshot: &snapshot,
        bodies: &bodies,
        accels: &accels,
        geometry: &geometry,
    };
    let places = ctx.move_vehicles(vehicles, sys);
    assert_eq!(places.len(), vehicles.len());
}

#[test]
fn a_car_stops_at_a_red_light_and_goes_on_green() {
    let map = road();
    let mut lights = IntersectionManager::from_graph(&map);
    lights.set_mode(100, LightControlMode::Manual);
    lights.set_phase(100, LightPhase::Red.to_u8());
    let mut sys = no_conflicts(&map);
    let route = vec![edge(&map, 0, 100), edge(&map, 100, 1)];
    let mut vehicles = vec![car(1, route, 0, 5 * M)];
    for k in 0..3000 {
        step(&map, &lights, &mut sys, &mut vehicles, k * PHYSICS_DT);
        assert_eq!(vehicles[0].route_pos, 0, "no car crosses on red");
    }
    assert!(vehicles[0].is_stopped());
    let (_, red) = stop_line_debug(&vehicles[0], &map, &lights).unwrap();
    assert!(red);
    lights.set_phase(100, LightPhase::Green.to_u8());
    let mut crossed = false;
    for k in 3000..5000 {
        step(&map, &lights, &mut sys, &mut vehicles, k * PHYSICS_DT);
        crossed = crossed || vehicles[0].route_pos == 1 || vehicles[0].despawned;
    }
    assert!(crossed);
}

#[test]
fn a_car_keeps_behind_the_one_ahead() {
    let map = road();
    let mut lights = IntersectionManager::from_graph(&map);
    lights.set_mode(100, LightControlMode::Manual);
    lights.set_phase(100, LightPhase::Red.to_u8());
    let mut sys = no_conflicts(&map);
    let e = edge(&map, 0, 100);
    let f = edge(&map, 100, 1);
    let mut vehicles = vec![
        car(1, vec![e, f], 300_000_000, 8 * M),
        car(2, vec![e, f], 0, 10 * M),
    ];
    for k in 0..3000 {
        step(&map, &lights, &mut sys, &mut vehicles, k * PHYSICS_DT);
        assert!(vehicles[1].edge_progress < vehicles[0].edge_progress);
    }
    assert!(vehicles[0].is_stopped() && vehicles[1].is_stopped());
}

#[test]
fn scenes_tell_leaders_and_lights() {
    let map = road();
    let mut lights = IntersectionManager::from_graph(&map);
    lights.set_mode(100, LightControlMode::Manual);
    lights.set_phase(100, LightPhase::Red.to_u8());
    let sys = no_conflicts(&map);
    let e = edge(&map, 0, 100);
    let f = edge(&map, 100, 1);
    let vehicles = vec![
        car(1, vec![e, f], 700_000_000, 2 * M),
        car(2, vec![e, f], 500_000_000, 3 * M),
    ];
    let bodies: Vec<VehicleBody> = vehicles.iter().map(body).collect();
    let plans = vec![None, None];
    let buckets = LaneBuckets::build(&vehicles);
    assert_eq!(buckets.list.len(), 1);
    assert_eq!(buckets.list[0].order, vec![1, 0]);
    let trams = vec![];
    let scene = Scene {
        vehicles: &vehicles,
        bodies: &bodies,
        plans: &plans,
        buckets: &buckets,
        trams: &trams,
        map: &map,
        intersections: &lights,
        conflicts: &sys,
    };
    let steps = compute_idm_steps(&scene);
    assert_eq!(steps[0].obstacle.kind, ObstacleKind::TrafficSignalStopLine);
    assert_eq!(steps[1].obstacle.kind, ObstacleKind::Vehicle);
    assert_eq!(steps[1].obstacle.leader_vehicle_id, Some(1));
    let entries = leader_debug(&scene, &steps);
    assert_eq!(entries.len(), 2);
    assert_eq!(entries[1].lane_leader_vehicle_id, Some(1));
    assert!(!entries[1].sensor_mismatch);
    assert_eq!(entries[0].idm_leader_vehicle_id, None);
}

#[test]
fn new_vehicles_need_room() {
    let map = road();
    let e = edge(&map, 0, 100);
    let mut vehicles = vec![];
    assert!(admit_vehicle(&mut vehicles, car(1, vec![e], 0, 0), &map));
    assert!(!admit_vehicle(&mut vehicles, car(2, vec![e], 0, 0), &map));
    vehicles[0].edge_progress = 900_000_000;
    assert!(admit_vehicle(&mut vehicles, car(3, vec![e], 0, 0), &map));
    assert!(admit_vehicle(&mut vehicles, car(4, vec![], 0, 0), &map));
    assert_eq!(vehicles.iter().map(|v| v.id).collect::<Vec<_>>(), vec![1, 3, 4]);
    let mut at_once = vec![];
    let new = vec![car(1, vec![e], 0, 0), car(2, vec![e], 0, 0), car(4, vec![], 0, 0)];
    admit_vehicles(&mut at_once, new, &map);
    assert_eq!(at_once.iter().map(|v| v.id).collect::<Vec<_>>(), vec![1, 4]);
}

#[test]
fn commands_change_what_they_name() {
    let map = road();
    let mut clock = GameClock::new();
    let mut lights = IntersectionManager::from_graph(&map);
    let mut spawn = SpawnSystem::new(vec![0], vec![2], SpeedConfig::default(), true);
    let mut selected = None;
    let mut send = |cmd: SimCommand,
                    clock: &mut GameClock,
                    lights: &mut IntersectionManager,
                    spawn: &mut SpawnSystem| {
        handle_command(cmd, clock, lights, spawn, &mut selected);
        selected
    };
    send(SimCommand::Pause, &mut clock, &mut lights, &mut spawn);
    assert!(clock.paused);
    send(SimCommand::Resume, &mut clock, &mut lights, &mut spawn);
    assert!(!clock.paused);
    send(SimCommand::SetTimeScale(5 * M), &mut clock, &mut lights, &mut spawn);
    assert_eq!(clock.time_scale, 5 * M);
    send(SimCommand::SetMaxVehicles(7), &mut clock, &mut lights, &mut spawn);
    assert_eq!(spawn.max_vehicles, 7);
    let mode = LightControlMode::Manual;
    send(
        SimCommand::SetLightMode { intersection_id: 100, mode },
        &mut clock,
        &mut lights,
        &mut spawn,
    );
    assert_eq!(lights.traffic_lights[0].mode, mode);
    send(
        SimCommand::SetLightPhase { intersection_id: 100, phase: 2 },
        &mut clock,
        &mut lights,
        &mut spawn,
    );
    assert_eq!(lights.traffic_lights[0].current_phase, LightPhase::from_u8(2));
    send(
        SimCommand::SetLightDurations { intersection_id: 100, green: 9 * M, red: 8 * M },
        &mut clock,
        &mut lights,
        &mut spawn,
    );
    assert_eq!(lights.traffic_lights[0].green_duration, 9 * M);
    let mut cfg = SpeedConfig::default();
    cfg.noise_sigma = 1;
    send(SimCommand::SetSpeedConfig(cfg), &mut clock, &mut lights, &mut spawn);
    assert_eq!(spawn.speed_config.noise_sigma, 1);
    assert_eq!(
        send(SimCommand::SetDebugVehicle(Some(4)), &mut clock, &mut lights, &mut spawn),
        Some(4)
    );
    assert_eq!(send(SimCommand::Stop, &mut clock, &mut lights, &mut spawn), Some(4));
    let again = refreshed_spawn(&map, &spawn);
    assert_eq!(again.max_vehicles, 7);
    assert_eq!(again.speed_config.noise_sigma, 1);
    assert_eq!(again.spawn_points, map.spawn_points);
    assert_eq!(current_map_signature(&map), (3, 2, 0, 0));
}

#[test]
fn time_is_made_up_for_in_steps() {
    let mut c = StepClock { pending: 0 };
    assert_eq!(c.steps_due(PHYSICS_DT - 1), 0);
    assert_eq!(c.steps_due(1), 1);
    assert_eq!(c.pending, 0);
    assert_eq!(c.steps_due(60 * M), 14);
    assert_eq!(c.pending, 250_000 - 14 * PHYSICS_DT);
    let mut k = Cadence { timer: 0 };
    assert!(!k.is_due(300_000, 500_000));
    assert!(k.is_due(200_000, 500_000));
    assert!(!k.is_due(499_999, 500_000));
}

#[test]
fn the_game_is_lost_by_frustration() {
    let rage = RageConfig::default();
    let mut watch = GameWatch { timer: 0 };
    let mut vehicles = vec![car(1, vec![0], 0, 0), car(2, vec![0], 0, 0)];
    assert!(watch.watch(&vec![], &rage, M).is_none());
    assert!(watch.watch(&vehicles, &rage, M).is_none());
    for v in vehicles.iter_mut() {
        v.frustration = rage.global_loss_threshold + 1;
    }
    let mut over = None;
    let mut time = 0;
    while over.is_none() {
        over = watch.watch(&vehicles, &rage, M);
        time += M;
    }
    assert!(time >= rage.global_loss_duration);
    let over = over.unwrap();
    assert_eq!(over.reason, GameOverReason::AverageFrustration);
    assert_eq!(over.value, rage.global_loss_threshold + 1);
    assert_eq!(watch.timer, 0);
    let mut calm = vec![];
    for k in 0..10 {
        calm.push(car(k, vec![0], 0, 0));
    }
    let mut mild = rage;
    mild.mass_rage_fraction = 200_000;
    calm[0].frustration = 100 * M;
    assert!(watch.watch(&calm, &mild, M).is_none());
    calm[1].frustration = 100 * M;
    let mass = watch.watch(&calm, &mild, M).unwrap();
    assert_eq!(mass.reason, GameOverReason::MassRage);
    assert_eq!(mass.value, 20 * M);
    assert_eq!(reason_label(mass.reason), "mass_rage");
}

#[test]
fn vehicles_that_left_give_back_what_they_held() {
    let map = crossing();
    let west = edge(&map, 103, 100);
    let south = edge(&map, 100, 102);
    let north = edge(&map, 101, 100);
    let east = edge(&map, 100, 104);
    let centre = map.nodes.iter().position(|n| n.osm_id == 100).unwrap();
    let keys = movement_keys(&map, centre);
    let find = |i: usize, o: usize| {
        keys.iter().position(|k| k.in_edge == i && k.out_edge == o).expect("a turn")
    };
    let a = find(west, south);
    let b = find(north, east);
    let mut crossings: Vec<Vec<Crossing>> = map.nodes.iter().map(|_| vec![]).collect();
    crossings[centre].push(Crossing { a, b, x: 0, y: 0, along_a: 5 * M, along_b: 6 * M });
    let mut sys = build_conflict_system(&map, &crossings);
    let free = |sys: &ConflictSystem| {
        sys.nodes
            .iter()
            .flat_map(|n| n.by_movement.iter())
            .flat_map(|p| p.points.iter())
            .filter(|p| p.reserved_by.is_some())
            .count()
    };
    assert_eq!(free(&sys), 0);
    let key: LaneMovementKey = keys[a];
    assert!(sys.try_reserve_all_for_vehicle(1, key, centre, 0, &vec![]).is_ok());
    assert!(free(&sys) > 0);
    let other = sys.try_reserve_all_for_vehicle(2, key, centre, 0, &vec![]);
    assert_eq!(other.map_err(|e| e.by), Err(1));
    assert!(sys.movements_conflict((west, south), (north, east), centre));
    let mut vehicles = vec![car(1, vec![west, south], 0, 0), car(2, vec![north, east], 0, 0)];
    vehicles[0].despawned = true;
    remove_despawned(&mut vehicles, &mut sys);
    assert_eq!(vehicles.len(), 1);
    assert_eq!(vehicles[0].id, 2);
    assert_eq!(free(&sys), 0);
    assert!(sys.try_reserve_all_for_vehicle(2, keys[b], centre, 0, &vec![]).is_ok());
    let lights = IntersectionManager::from_graph(&map);
    assert!(waiting_vehicles(&vehicles, &map, &lights, &sys).is_empty());
    sys.update_deadlock_state(&vec![(centre, 9), (centre, 4)], 3 * M);
    assert_eq!(sys.first_mover(centre), Some(4));
    sys.update_deadlock_state(&vec![], M);
    assert_eq!(sys.first_mover(centre), None);
}

#[test]
fn turns_at_the_crossing() {
    let map = crossing();
    let west = edge(&map, 103, 100);
    let centre = map.nodes.iter().position(|n| n.osm_id == 100).unwrap();
    let to = |id: u64| edge(&map, 100, id);
    assert_eq!(movement_turn_intent(&map, (west, to(104)), centre), TurnIntent::Straight);
    assert_eq!(movement_turn_intent(&map, (west, to(101)), centre), TurnIntent::Left);
    assert_eq!(movement_turn_intent(&map, (west, to(102)), centre), TurnIntent::Right);
    assert_eq!(movement_turn_intent(&map, (west, to(103)), centre), TurnIntent::UTurn);
    assert_eq!(
        format!("{:?}", classify_turn_at_node(&map, west, to(101), centre)),
        "Left"
    );
    assert!(does_bend(&map, west, to(101), centre));
    assert!(!does_bend(&map, west, to(104), centre));
    assert_eq!(turn_direction_between(&map, west, to(101)), LaneDirection::Left);
    for id in [101, 102, 103, 104] {
        let (there, back) = (edge(&map, 100, id), edge(&map, id, 100));
        assert_eq!(turn_direction_between(&map, there, back), LaneDirection::Right);
        assert_eq!(turn_direction_between(&map, back, there), LaneDirection::Right);
    }
    let north = edge(&map, 101, 100);
    assert!(edges_are_conflicting_approaches(&map, west, north, centre));
    assert!(edges_are_conflicting_approaches(&map, west, edge(&map, 104, 100), centre));
    assert!(!edges_are_conflicting_approaches(&map, west, west, centre));
    let v = car(1, vec![west, to(101)], 0, 0);
    assert_eq!(compute_vehicle_target_lane(&v, &map), 0);
}

#[test]
fn lanes_have_shapes_and_turns_are_planned() {
    let map = crossing();
    assert!(is_drawable(&map));
    let shapes = lane_shapes(&map);
    assert_eq!(shapes.len(), map.lanes.lanes.len());
    for (l, s) in map.lanes.lanes.iter().zip(&shapes) {
        assert_eq!(s.points.len(), if l.edge_id == NO_EDGE { 41 } else { 13 });
        assert!(s.length >= 500_000);
    }
    let west = edge(&map, 103, 100);
    let north = edge(&map, 100, 101);
    assert_eq!(road_lane_points(&map, west, 0), shapes[0.max(first_lane(&map, west))].points);
    let c = find_connector_lane_id(&map, west, 0, north, 0).expect("a connector");
    let v = car(1, vec![west, north], 0, 0);
    let plan = planned_turn_connector(&v, &map, &shapes).expect("a turn");
    assert!(plan.entry_progress > 0 && plan.entry_progress <= FULL);
    assert!(plan.exit_progress > 0 && plan.exit_progress < FULL);
    assert_eq!(plan.length, shapes[c as usize - 1].length);
    assert_eq!(next_turn_intent_label_for_vehicle(&v, &map, &Some(plan)), "left");
    assert_eq!(next_turn_intent_label_for_vehicle(&v, &map, &None), "end_of_route");
    let bare = planned_turn_connector(&v, &map, &vec![]).expect("the way bends");
    assert_eq!(bare.entry_progress, turn_entry(100 * M));
    assert_eq!(bare.exit_progress, turn_exit(100 * M));
    assert_eq!(turn_entry(100 * M), 880 * M);
    assert_eq!(turn_exit(100 * M), 300 * M);
    let straight = car(1, vec![west, edge(&map, 100, 104)], 0, 0);
    assert!(planned_turn_connector(&straight, &map, &vec![]).is_none());
    let mut w = v.copied();
    w.current_lane_id = Some(first_lane(&map, west) as u64 + 1);
    let ahead = vehicle_lookahead_point(&w, &shapes).unwrap();
    let lane = &shapes[first_lane(&map, west)].points;
    assert_eq!(ahead.1, lane[0].1);
    assert!((ahead.0 - lane[0].0 - 7 * M).abs() < 10);
    let lut = turn_connector_lut((-100 * M, 0), (0, 0), (0, 100 * M), 100 * M, 100 * M);
    assert_eq!(lut.len(), 25);
}

fn first_lane(map: &MapData, e: usize) -> usize {
    map.lanes.by_edge[e][0] as usize - 1
}

fn drive(
    map: &MapData,
    vehicles: &mut Vec<Vehicle>,
    lights: &IntersectionManager,
    steps: i64,
) -> Vec<String> {
    let shapes = lane_shapes(map);
    let mut sys = no_conflicts(map);
    let mut seen: Vec<String> = vec![];
    for k in 0..steps {
        let bodies: Vec<VehicleBody> = vehicles.iter().map(body).collect();
        let plans: Vec<Option<PlannedTurnConnector>> =
            vehicles.iter().map(|v| planned_turn_connector(v, map, &shapes)).collect();
        let buckets = LaneBuckets::build(vehicles);
        let trams = vec![];
        let steps = compute_idm_steps(&Scene {
            vehicles,
            bodies: &bodies,
            plans: &plans,
            buckets: &buckets,
            trams: &trams,
            map,
            intersections: lights,
            conflicts: &sys,
        });
        let accels: Vec<i64> = steps.iter().map(|s| s.accel).collect();
        let geometry: Vec<VehicleGeometry> = vehicles
            .iter()
            .zip(&plans)
            .map(|(v, plan)| VehicleGeometry {
                plan: *plan,
                turn_total: v
                    .connector_lane_id
                    .map(|id| shapes[id as usize - 1].length)
                    .unwrap_or(v.turn_length),
                projections: vec![],
            })
            .collect();
        let snapshot = copy_vehicles(vehicles);
        let rage = RageConfig::default();
        let places = MoveContext {
            dt: PHYSICS_DT,
            now: k * PHYSICS_DT,
            map,
            intersections: lights,
            rage: &rage,
            snapshot: &snapshot,
            bodies: &bodies,
            accels: &accels,
            geometry: &geometry,
        }
        .move_vehicles(vehicles, &mut sys);
        for p in places {
            let name = match p {
                Placement::Keep => "keep",
                Placement::Turn { .. } => "turn",
                Placement::Lane { .. } => "lane",
                Placement::Edge { .. } => "edge",
            };
            if seen.last().map(|s| s.as_str()) != Some(name) {
                seen.push(name.to_string());
            }
        }
        remove_despawned(vehicles, &mut sys);
    }
    seen
}

#[test]
fn a_car_turns_left_and_comes_to_its_end() {
    let mut map = crossing();
    let shapes = lane_shapes(&map);
    for (i, s) in shapes.iter().enumerate() {
        map.lanes.set_length(i as u64 + 1, s.length);
    }
    let mut lights = IntersectionManager::from_graph(&map);
    for l in lights.traffic_lights.iter_mut() {
        l.set_mode(LightControlMode::Manual);
        l.force_phase(LightPhase::Green);
    }
    let route = vec![edge(&map, 103, 100), edge(&map, 100, 101)];
    let lanes = build_lane_route_from_edge_route(&map, &route, 0);
    let mut v = car(1, route, 0, 5 * M);
    v.lane_route = lanes;
    v.current_lane_id = Some(v.lane_route[0]);
    let mut vehicles = vec![v];
    let seen = drive(&map, &mut vehicles, &lights, 4000);
    assert!(vehicles.is_empty(), "the car has left at the end of its route");
    assert!(seen.iter().any(|s| s == "turn"), "it has turned along its connector: {:?}", seen);
    assert!(seen.iter().any(|s| s == "lane"));
}

#[test]
fn lane_routes_follow_the_route() {
    let map = crossing();
    let route = vec![edge(&map, 103, 100), edge(&map, 100, 101)];
    let lanes = build_lane_route_from_edge_route(&map, &route, 0);
    assert!(lanes.len() >= 2);
    for id in &lanes {
        assert!(*id >= 1 && *id <= map.lanes.lanes.len() as u64);
    }
    assert_eq!(lanes[0] as usize, first_lane(&map, route[0]) + 1);
    let mut v = car(1, route, 250 * M, 0);
    v.lane_route = lanes;
    sync_vehicle_lane_route_state(&mut v, &map);
    assert_eq!(v.current_lane_id, Some(v.lane_route[0]));
}

#[test]
fn vehicles_change_to_their_lane() {
    let mut map = road();
    let e = edge(&map, 0, 100);
    map.edges[e].lanes = 2;
    let mut v = car(1, vec![e], 800 * M, 5 * M);
    v.current_lane = 0;
    v.target_lane = 1;
    assert_eq!(decide_lane_change(&v, &map.edges[e], e, &vec![v.copied()]), Some(1));
    let mut vehicles = vec![v];
    apply_lane_changes(&mut vehicles, &map);
    assert_eq!(vehicles[0].current_lane, 1);
    assert_eq!(vehicles[0].lane_change_cooldown, 3 * M);
    apply_lane_changes(&mut vehicles, &map);
    assert_eq!(vehicles[0].current_lane, 1);
    assert_eq!(debug_target(&vehicles, None), Some(0));
    assert_eq!(debug_target(&vehicles, Some(9)), None);
    vehicles[0].vehicle_type = VehicleType::Tram;
    assert_eq!(debug_target(&vehicles, None), None);
}

#[test]
fn full_edges_are_congested() {
    let map = road();
    let e = edge(&map, 0, 100);
    let none = compute_congestion(&map, &vec![]);
    let few = compute_congestion(&map, &vec![car(1, vec![e], 0, 0)]);
    let level = |list: &Vec<traffic_control::simulation::congestion::CongestionData>| {
        list.iter().map(|c| c.level).max().unwrap_or(0)
    };
    assert_eq!(level(&none), 0);
    assert!(level(&few) > 0);
    let many: Vec<Vehicle> = (0..30).map(|k| car(k, vec![e], 0, 0)).collect();
    assert_eq!(level(&compute_congestion(&map, &many)), M);
}

#[test]
fn neighbours_are_found() {
    let mut g = SpatialGrid::new(1_000_000);
    g.insert(1, 50 * D, 20 * D);
    g.insert(2, 50 * D + 900_000, 20 * D);
    g.insert(3, 51 * D, 20 * D);
    let near = g.query_nearby(50 * D, 20 * D, 1);
    assert!(near.contains(&1) && near.contains(&2) && !near.contains(&3));
    g.clear();
    assert!(g.query_nearby(50 * D, 20 * D, 1).is_empty());
    assert!(!g.cells.is_empty());
    assert!(g.cells.values().all(|ids| ids.is_empty()));
    let mut flipped = SpatialGrid::new(-450_000);
    flipped.insert(5, 50 * D, 20 * D);
    assert_eq!(flipped.query_nearby(50 * D, 20 * D, 0), vec![5]);
    assert!(flipped.query_nearby(-50 * D, -20 * D, 0).is_empty());
    let mut flat = SpatialGrid::new(0);
    flat.insert(6, 1, 0);
    assert_eq!(flat.query_nearby(9, 0, 0), vec![6]);
    assert!(flat.query_nearby(-9, 0, 0).is_empty());
}

fn packet() -> Packet {
    Packet {
        id: 7,
        lat_bits: 50.5f64.to_bits(),
        lng_bits: 20.25f64.to_bits(),
        angle_bits: 1.5f32.to_bits(),
        speed_bits: 10.0f32.to_bits(),
        vehicle_type: 2,
        profile: 1,
        trip_kind: 3,
        current_lane: 1,
        on_turn_connector: true,
        frustration_bits: 33.0f32.to_bits(),
        lateral_bits: 0.5f32.to_bits(),
        current_lane_id: Some(12),
    }
}

#[test]
fn frames_hold_packets() {
    let bytes = serialize_vehicles(&vec![packet(), packet()]);
    assert_eq!(bytes.len() % 48, 0);
    assert_eq!(bytes.len(), 96);
    assert_eq!(&bytes[0..4], &7u32.to_le_bytes());
    assert_eq!(&bytes[4..12], &50.5f64.to_le_bytes());
    let text = encode_frame(&vec![packet()]);
    assert_eq!(text.len(), 64);
    assert_eq!(&text[0..6], "BwAAAA");
    let mut p = packet();
    p.id = u32::MAX;
    assert_eq!(&encode_frame(&vec![p])[0..5], "/////");
    p.id = 0xfb;
    assert_eq!(&encode_frame(&vec![p])[0..4], "+wAA");
    assert_eq!(encode_frame(&vec![]), "");
}

#[test]
fn a_network_without_trams_has_none() {
    let map = road();
    let mut sim = TramSim::new(&map.tram_data, &vec![], 100_000);
    assert!(sim.is_empty());
    sim.tick(PHYSICS_DT, PHYSICS_DT, &map.tram_data);
    assert!(sim.is_empty());
}
