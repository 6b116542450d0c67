//! What holds throughout, on chosen values.

use traffic_control::map::builders::build_single_intersection_network;
use traffic_control::map::id_index::IdIndex;
use traffic_control::map::lane_graph::NO_EDGE;
use traffic_control::map::map_data::{road_graph_node_degree, MapData};
use traffic_control::map::road_network::{IntersectionType, LaneDirection};
use traffic_control::map::topology::Topology;
use traffic_control::map::tram_network::{TramData, TramEdge, TramLine, TramNode, TramTrackType};
use traffic_control::simulation::approach::{
    apply_tram_leader_effect, can_pass_lights, compute_desired_speed, TramGhost,
};
use traffic_control::simulation::conflict::{ConflictSystem, LaneMovementKey, VehicleBody};
use traffic_control::simulation::conflict_build::{build_conflict_system, movement_keys, Crossing};
use traffic_control::simulation::frame::{frame_packets, serialize_vehicles, PacketNumbers};
use traffic_control::simulation::lane_change::{pick_target_lane_for_direction, tram_lane_index};
use traffic_control::simulation::pathfinding::{find_path, REF_SPEED};
use traffic_control::simulation::physics::StepContext;
use traffic_control::simulation::right_of_way::valid_lane_pairs_for_movement;
use traffic_control::simulation::speed_config::RageConfig;
use traffic_control::simulation::tram_sim::{TramSim, TRAM_SPEED};
use traffic_control::traffic::intersection::IntersectionManager;
use traffic_control::traffic::phased_traffic_light::{
    build_steps_for_layout, mask_allows, JunctionLayout, PhasedVehicleLight, ProgramStepKind,
};
use traffic_control::traffic::traffic_light::LightPhase;
use traffic_control::units::{square_root, FULL};
use traffic_control::vehicles::driver::DriverProfile;
use traffic_control::vehicles::types::VehicleType;
use traffic_control::vehicles::vehicle::Vehicle;

const D: i64 = 1_000_000_000;
const M: i64 = 1_000_000;

fn crossing() -> MapData {
    let mut map = build_single_intersection_network(50 * D, 20 * D, 900_000, 1_400_000);
    for e in 0..map.edges.len() {
        map.set_edge_length(e, 100 * M);
    }
    for id in 1..=map.lanes.lanes.len() as u64 {
        map.lanes.set_length(id, 100 * M);
    }
    map
}

fn place(map: &MapData, id: u64) -> usize {
    map.nodes.iter().position(|n| n.osm_id == id).unwrap()
}

fn edge(map: &MapData, from: u64, to: u64) -> usize {
    map.graph.edge_connecting(place(map, from), place(map, to)).unwrap()
}

fn car(id: u32, route: Vec<usize>, progress: i64, speed: i64) -> Vehicle {
    let mut v = Vehicle::new(
        id,
        50 * D,
        20 * D,
        VehicleType::Car,
        DriverProfile::Normal,
        route,
        M,
        500_000,
        0,
    );
    v.edge_progress = progress;
    v.speed = speed;
    v
}

fn body(id: u32, x: i64, y: i64) -> VehicleBody {
    VehicleBody {
        id,
        despawned: false,
        on_turn_connector: true,
        x,
        y,
        hood_x: x,
        hood_y: y,
        path_radius: 2_500_000,
        nose_radius: 900_000,
    }
}

#[test]
fn every_exit_is_reachable_from_every_lane() {
    let map = crossing();
    let centre = place(&map, 100);
    let mut seen = vec![];
    for e in map.graph.incoming(centre) {
        let from = map.graph.edge_endpoints(e).unwrap().0;
        for lane in &map.lanes.by_edge[e] {
            for c in &map.lanes.lanes[*lane as usize - 1].connections {
                assert!(!seen.contains(c), "no connector serves two lanes");
                seen.push(*c);
            }
        }
        for o in map.graph.outgoing(centre) {
            if map.graph.edge_endpoints(o).unwrap().1 == from {
                continue;
            }
            let lane = map.lanes.by_edge[e][0] as usize - 1;
            let reached = map.lanes.lanes[lane].connections.iter().any(|c| {
                let l = &map.lanes.lanes[*c as usize - 1];
                assert_eq!(l.edge_id, NO_EDGE);
                l.connections.iter().any(|t| map.lanes.by_edge[o].contains(t))
            });
            assert!(reached);
        }
    }
    assert_eq!(road_graph_node_degree(&map.graph, centre), 8);
}

#[test]
fn lanes_can_be_joined_once() {
    let mut map = crossing();
    let a = map.lanes.by_edge[edge(&map, 103, 100)][0];
    let b = map.lanes.by_edge[edge(&map, 100, 103)][0];
    let before = map.lanes.lanes.len();
    let c = map.lanes.ensure_lane_connector_between(a, b).unwrap();
    assert_eq!(c as usize, before + 1);
    assert_eq!(map.lanes.ensure_lane_connector_between(a, b), Some(c));
    assert_eq!(map.lanes.lanes.len(), before + 1);
    assert_eq!(map.lanes.ensure_lane_connector_between(a, 9999), None);
}

#[test]
fn fast_routes_are_preferred_by_those_who_hurry() {
    let mut map = crossing();
    let (w, c) = (place(&map, 103), place(&map, 100));
    let direct = edge(&map, 103, 100);
    map.edges[direct].max_speed = 40 * M;
    let none = vec![0; map.nodes.len()];
    for alpha in [0, 500_000, 1_000_000] {
        assert_eq!(find_path(&map, w, c, alpha, REF_SPEED, &none), Some(vec![direct]));
    }
    assert_eq!(find_path(&map, w, w, 0, REF_SPEED, &none), Some(vec![]));
}

fn tram_line() -> TramData {
    let node = |id: u64, lng: i64| TramNode {
        id,
        lat: 50 * D,
        lng,
        is_stop: true,
        stop_dwell: 30 * M,
    };
    let track = TramEdge {
        osm_id: 1,
        length: 300 * M,
        max_speed: 11 * M,
        track_type: TramTrackType::Dedicated,
    };
    let mut index = IdIndex::new();
    index.push(7);
    index.push(8);
    TramData {
        graph: Topology::from_edges(2, &vec![(0, 1)]),
        nodes: vec![node(7, 20 * D), node(8, 20 * D + 4 * M)],
        edges: vec![track],
        node_index_map: index,
        stops: vec![0, 1],
        lines: vec![TramLine { line_ref: "9".to_string(), stop_sequence: vec![0, 1] }],
    }
}

#[test]
fn trams_keep_to_their_line_and_speed() {
    let data = tram_line();
    let mut sim = TramSim::new(&data, &vec![vec![300 * M, 300 * M]], 100_000);
    assert_eq!(sim.trams.len(), 1);
    assert_eq!(sim.trams[0].id, 100_000);
    assert!(sim.trams[0].is_dwelling);
    let mut stops = vec![];
    let mut top = 0;
    for _ in 0..20_000 {
        sim.tick(16_667, 16_667, &data);
        let t = &sim.trams[0];
        assert!(t.speed >= 0 && t.speed <= TRAM_SPEED);
        assert!(!t.is_dwelling || t.speed == 0);
        assert!(t.lng >= 20 * D && t.lng <= 20 * D + 4 * M);
        top = top.max(t.speed);
        if stops.last() != Some(&t.current_stop_idx) {
            stops.push(t.current_stop_idx);
        }
    }
    assert!(top > TRAM_SPEED - 1000);
    assert!(stops.len() >= 3, "the tram goes back and forth");
}

#[test]
fn a_tram_ahead_is_a_leader() {
    let v = car(1, vec![0], 0, 10 * M);
    let mut b = body(1, 0, 0);
    b.hood_y = 2_250_000;
    let ahead = vec![TramGhost { x: 0, y: 40 * M, speed: 5 * M }];
    let (gap, dv) = apply_tram_leader_effect(&v, &b, 1000 * M, 0, &ahead);
    assert!(gap < 40 * M);
    assert_eq!(dv, 5 * M);
    let behind = vec![TramGhost { x: 0, y: -40 * M, speed: 5 * M }];
    assert_eq!(apply_tram_leader_effect(&v, &b, 1000 * M, 0, &behind), (1000 * M, 0));
}

fn with_crossing(map: &MapData) -> (ConflictSystem, LaneMovementKey, LaneMovementKey, usize) {
    let centre = place(map, 100);
    let keys = movement_keys(map, centre);
    let find = |i: usize, o: usize| {
        keys.iter().position(|k| k.in_edge == i && k.out_edge == o).expect("a turn")
    };
    let a = find(edge(map, 103, 100), edge(map, 100, 101));
    let b = find(edge(map, 104, 100), edge(map, 100, 102));
    let mut crossings: Vec<Vec<Crossing>> = map.nodes.iter().map(|_| vec![]).collect();
    crossings[centre].push(Crossing { a, b, x: 0, y: 0, along_a: 9 * M, along_b: 3 * M });
    crossings[centre].push(Crossing { a, b, x: 9 * M, y: 0, along_a: 4 * M, along_b: 30 * M });
    (build_conflict_system(map, &crossings), keys[a], keys[b], centre)
}

#[test]
fn conflict_points_lie_in_the_order_of_the_way() {
    let map = crossing();
    let (sys, a, _, centre) = with_crossing(&map);
    let node = sys.nodes.iter().find(|n| n.node == centre).unwrap();
    for p in &node.by_movement {
        for w in p.points.windows(2) {
            assert!(w[0].distance_on_path <= w[1].distance_on_path);
        }
        assert!(p.points.iter().all(|x| x.reserved_by.is_none()));
    }
    let path = node.by_movement.iter().find(|p| p.key == a).unwrap();
    assert_eq!(path.points.len(), 2);
    assert_eq!(path.points[0].distance_on_path, 4 * M);
}

fn held(sys: &ConflictSystem, id: u32) -> usize {
    sys.nodes
        .iter()
        .flat_map(|n| n.by_movement.iter())
        .flat_map(|p| p.points.iter())
        .filter(|p| p.reserved_by == Some(id))
        .count()
}

#[test]
fn reservations_come_and_go() {
    let map = crossing();
    let (mut sys, a, b, centre) = with_crossing(&map);
    assert!(sys.try_reserve_all_for_vehicle(1, a, centre, 0, &vec![]).is_ok());
    assert_eq!(held(&sys, 1), 2);
    assert!(sys.try_reserve_all_for_vehicle(2, b, centre, 0, &vec![]).is_ok());
    assert_eq!(held(&sys, 2), 1, "the far point is claimed on the way");
    let ok = sys.expand_connector_conflict_reservations_along_arc(
        2,
        b,
        centre,
        10 * M,
        2 * M,
        0,
        &vec![],
    );
    assert!(ok.is_ok());
    assert_eq!(held(&sys, 2), 2);
    sys.clean_passed_points_for_vehicle(2, b.in_edge, b.out_edge, 20 * M, 2 * M);
    assert_eq!(held(&sys, 2), 1);
    sys.release_all_for_vehicle(2);
    assert_eq!(held(&sys, 2), 0);
    assert_eq!(held(&sys, 1), 2);
    sys.expire_stale_reservations(&vec![], 5 * M);
    assert_eq!(held(&sys, 1), 0, "a vehicle that is gone holds nothing");
    let blocked = sys.try_reserve_all_for_vehicle(1, a, centre, 0, &vec![body(5, 0, 0)]);
    assert_eq!(blocked.map_err(|e| e.by), Err(5));
}

#[test]
fn a_reserved_point_blocks_the_way() {
    let map = crossing();
    let (mut sys, a, _, centre) = with_crossing(&map);
    assert!(sys.try_reserve_all_for_vehicle(7, a, centre, 0, &vec![]).is_ok());
    let me = body(1, -60 * M, 0);
    let block = sys.first_blocking_conflict_distance(&me, a, 20 * M, 100 * M, centre).unwrap();
    assert_eq!(block.owner, 7);
    assert!(block.gap <= 24 * M);
    let own = body(7, -60 * M, 0);
    assert!(sys.first_blocking_conflict_distance(&own, a, 20 * M, 100 * M, centre).is_none());
}

#[test]
fn vehicles_give_way_to_the_right() {
    let mut map = crossing();
    let centre = place(&map, 100);
    map.nodes[centre].intersection_type = IntersectionType::Plain;
    let lights = IntersectionManager::from_graph(&map);
    let (west, south) = (edge(&map, 103, 100), edge(&map, 102, 100));
    let (east, north) = (edge(&map, 100, 104), edge(&map, 100, 101));
    let keys = movement_keys(&map, centre);
    let mut crossings: Vec<Vec<Crossing>> = map.nodes.iter().map(|_| vec![]).collect();
    for a in 0..keys.len() {
        for b in (a + 1)..keys.len() {
            crossings[centre].push(Crossing { a, b, x: 0, y: 0, along_a: M, along_b: M });
        }
    }
    let sys = build_conflict_system(&map, &crossings);
    let mine = car(1, vec![west, north], 800 * M, 5 * M);
    let other = car(2, vec![south, edge(&map, 100, 103)], 800 * M, 5 * M);
    let all = vec![mine, other];
    let m = (west, north);
    let target =
        sys.cross_traffic_yield_target(&all[0], &map, &all, &lights, centre, m, 60 * M, None);
    assert_eq!(target.map(|t| t.0), Some(2));
    let first =
        sys.cross_traffic_yield_target(&all[0], &map, &all, &lights, centre, m, 60 * M, Some(1));
    assert!(first.is_none(), "the vehicle that is sent first goes");
    let pairs = valid_lane_pairs_for_movement(&map, west, east, centre);
    assert!(!pairs.is_empty());
}

#[test]
fn drivers_who_give_up_leave() {
    let map = crossing();
    let lights = IntersectionManager::from_graph(&map);
    let mut sys = build_conflict_system(&map, &map.nodes.iter().map(|_| vec![]).collect());
    let rage = RageConfig::default();
    let (vehicles, bodies, projections) = (vec![], vec![], vec![]);
    let ctx = StepContext {
        dt: 16_667,
        now: 0,
        map: &map,
        intersections: &lights,
        rage: &rage,
        vehicles: &vehicles,
        bodies: &bodies,
        plan: None,
        turn_total: 0,
        projections: &projections,
    };
    let e = edge(&map, 103, 100);
    let mut v = car(1, vec![e], 0, 0);
    v.frustration = 100 * M;
    ctx.apply_vehicle_physics(&mut v, 0, &mut sys);
    assert!(v.despawned);
    let mut w = car(2, vec![e], 0, 5 * M);
    let before = w.edge_progress;
    ctx.apply_vehicle_physics(&mut w, M, &mut sys);
    assert!(!w.despawned);
    assert_eq!(w.speed, 5 * M + 16_667);
    assert!(w.edge_progress > before && w.edge_progress < FULL);
    assert_eq!(w.id, 2);
    let mut gone = car(3, vec![], 0, 0);
    ctx.apply_vehicle_physics(&mut gone, 0, &mut sys);
    assert!(gone.despawned);
}

#[test]
fn speeds_follow_the_limit() {
    let mut map = crossing();
    let e = edge(&map, 103, 100);
    map.edges[e].max_speed = 10 * M;
    let v = car(1, vec![e], 0, 0);
    assert_eq!(compute_desired_speed(&v, &map), 10 * M);
    let lights = IntersectionManager::from_graph(&map);
    let red = lights.traffic_lights.iter().any(|l| l.current_phase == LightPhase::Red);
    assert_eq!(can_pass_lights(&v, &map, e, &lights), !red);
    assert!(!lights.is_yield_node(100));
}

#[test]
fn lanes_are_picked_by_direction() {
    let mut map = crossing();
    let e = edge(&map, 103, 100);
    map.edges[e].lanes = 3;
    map.edges[e].lane_directions =
        vec![LaneDirection::Left, LaneDirection::Straight, LaneDirection::Right];
    assert_eq!(pick_target_lane_for_direction(&map.edges[e], &LaneDirection::Left), 0);
    assert_eq!(pick_target_lane_for_direction(&map.edges[e], &LaneDirection::Right), 2);
    assert!(tram_lane_index(&map.edges[e]) < 3);
}

#[test]
fn signatures_tell_states_apart() {
    let map = crossing();
    let centre = place(&map, 100);
    let layout = JunctionLayout::build(&map, centre).unwrap();
    let mut ph = PhasedVehicleLight::new(100, layout);
    let a = ph.broadcast_signature();
    ph.force_advance_step();
    assert_ne!(ph.broadcast_signature(), a);
}

#[test]
fn roots_are_rounded_down() {
    assert_eq!(square_root(0), 0);
    assert_eq!(square_root(15), 3);
    assert_eq!(square_root(16), 4);
    assert_eq!(square_root(u128::MAX), u64::MAX);
}

#[test]
fn frames_hold_vehicles_and_then_trams() {
    let data = tram_line();
    let sim = TramSim::new(&data, &vec![vec![300 * M, 300 * M]], 100_000);
    let numbers = PacketNumbers {
        lat_bits: 1,
        lng_bits: 2,
        angle_bits: 3,
        speed_bits: 4,
        frustration_bits: 5,
        lateral_bits: 6,
    };
    let mut car = Vehicle::new(
        9,
        0,
        0,
        VehicleType::Bus,
        DriverProfile::Sunday,
        vec![0],
        M,
        500_000,
        2,
    );
    car.current_lane = 1;
    car.on_turn_connector = true;
    car.current_lane_id = Some(77);
    let trams = sim.trams.len();
    assert!(trams > 0);
    let packets = frame_packets(&vec![car], &vec![numbers], &sim.trams, &vec![numbers; trams]);
    let bytes = serialize_vehicles(&packets);
    assert_eq!(bytes.len(), 48 * (1 + trams));
    assert_eq!(&bytes[0..4], &9u32.to_le_bytes());
    assert_eq!(&bytes[28..32], &[2, 1, 2, 129]);
    assert_eq!(&bytes[36..40], &6u32.to_le_bytes());
    assert_eq!(&bytes[40..48], &77u64.to_le_bytes());
    assert_eq!(&bytes[48..52], &sim.trams[0].id.to_le_bytes());
    assert_eq!(&bytes[76..80], &[4, 0, sim.trams[0].trip_kind, 0]);
    assert_eq!(&bytes[84..88], &[0; 4]);
    assert_eq!(&bytes[88..96], &[255; 8]);
}

#[test]
fn stages_of_a_crossing_share_no_movement() {
    let steps = build_steps_for_layout(4, M, M, M, M);
    let masks: Vec<u128> = steps
        .iter()
        .filter_map(|s| match s.kind {
            ProgramStepKind::Go { allowed } => Some(allowed),
            _ => None,
        })
        .collect();
    assert_eq!(masks.len(), 4);
    for (i, a) in masks.iter().enumerate() {
        for b in &masks[..i] {
            assert_eq!(a & b, 0);
        }
    }
    assert!(mask_allows(masks[0], 2, LaneDirection::Right));
    assert!(!mask_allows(masks[0], 1, LaneDirection::Right));
}

#[test]
fn standing_frustrates_faster_and_faster() {
    let map = crossing();
    let lights = IntersectionManager::from_graph(&map);
    let (vehicles, bodies, projections) = (vec![], vec![], vec![]);
    let after = |threshold: i64, stood: i64| {
        let mut sys = build_conflict_system(&map, &map.nodes.iter().map(|_| vec![]).collect());
        let mut rage = RageConfig::default();
        rage.standstill_threshold.normal = threshold;
        rage.decay_rate_linear.normal = M;
        let ctx = StepContext {
            dt: M,
            now: 0,
            map: &map,
            intersections: &lights,
            rage: &rage,
            vehicles: &vehicles,
            bodies: &bodies,
            plan: None,
            turn_total: 0,
            projections: &projections,
        };
        let mut v = car(1, vec![edge(&map, 103, 100)], 0, 0);
        v.standstill_time = stood;
        ctx.apply_vehicle_physics(&mut v, 0, &mut sys);
        v.frustration
    };
    assert_eq!(after(4 * M, 2 * M), M);
    assert_eq!(after(M, 2 * M), 5 * M);
    assert_eq!(after(-M, 0), 5 * M);
    assert_eq!(after(-2 * M, 0), M + 2_250_000);
}
