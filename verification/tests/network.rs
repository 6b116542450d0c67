//! The bare network, routes through it and the editor.

use traffic_control::commands::{
    apply_tag_override, build_map_response, build_overrides, decode_edge_key, encode_edge_key,
    infra_label, intersection_label, lane_direction_label, parse_lane_direction, parse_light_mode,
    restriction_label,
};
use traffic_control::map::builders::build_single_intersection_network;
use traffic_control::map::map_data::MapData;
use traffic_control::map::road_network::{
    InfraType, IntersectionType, LaneDirection, RestrictionKind,
};
use traffic_control::map::topology::Topology;
use traffic_control::map::world_editor::{EditGeometry, EditorHistory, GraphChange};
use traffic_control::simulation::pathfinding::{
    destination_from, find_path, path_edges, random_destination, REF_SPEED,
};
use traffic_control::state::LightControlMode;

use rand::rngs::StdRng;
use rand::SeedableRng;

const D: i64 = 1_000_000_000;

fn diamond() -> Topology {
    Topology::from_edges(4, &vec![(0, 1), (1, 3), (0, 2), (2, 3), (3, 0)])
}

#[test]
fn network_lists_newest_edges_first() {
    let g = diamond();
    assert_eq!((g.node_count(), g.edge_count()), (4, 5));
    assert_eq!(g.outgoing(0), vec![2, 0]);
    assert_eq!(g.incoming(3), vec![3, 1]);
    assert_eq!(g.edge_endpoints(4), Some((3, 0)));
    assert_eq!(g.edge_endpoints(5), None);
    assert_eq!(g.edge_connecting(0, 2), Some(2));
    assert_eq!(g.edge_connecting(1, 2), None);
}

#[test]
fn removing_an_edge_moves_the_last_one() {
    let mut g = diamond();
    g.remove_edge(1);
    assert_eq!(g.edge_count(), 4);
    assert_eq!(g.edge_endpoints(1), Some((3, 0)));
    assert_eq!(g.edge_connecting(1, 3), None);
    assert_eq!(g.incoming(3), vec![3]);
    let mut h = Topology::new();
    assert_eq!(h.add_node(), 0);
    assert_eq!(h.add_node(), 1);
    assert_eq!(h.add_edge(0, 1), 0);
    h.remove_edge(0);
    assert_eq!((h.node_count(), h.edge_count()), (2, 0));
    assert_eq!(h.outgoing(0), vec![]);
}

#[test]
fn the_cheaper_way_is_found() {
    let g = diamond();
    let none = vec![0; 4];
    assert_eq!(
        g.find_path_nodes(0, 3, &vec![5, 5, 1, 2, 9], &none),
        Some(vec![0, 2, 3])
    );
    assert_eq!(
        g.find_path_nodes(0, 3, &vec![1, 1, 5, 2, 9], &none),
        Some(vec![0, 1, 3])
    );
    let line = Topology::from_edges(3, &vec![(0, 1)]);
    assert_eq!(line.find_path_nodes(0, 2, &vec![1], &vec![0; 3]), None);
    assert_eq!(path_edges(&g, &vec![1; 5], &vec![0, 2, 3]), vec![2, 3]);
}

#[test]
fn the_cheapest_of_parallel_edges_is_taken() {
    let g = Topology::from_edges(2, &vec![(0, 1), (0, 1), (1, 0), (0, 1)]);
    assert_eq!(path_edges(&g, &vec![100, 200, 5, 150], &vec![0, 1]), vec![0]);
    assert_eq!(path_edges(&g, &vec![300, 200, 5, 250], &vec![0, 1, 0]), vec![1, 2]);
    let same = path_edges(&g, &vec![7, 7, 7, 7], &vec![0, 1]);
    assert_eq!(same, vec![g.edge_connecting(0, 1).unwrap()]);
}

fn crossing() -> MapData {
    let mut map = build_single_intersection_network(50 * D, 20 * D, 900_000, 1_400_000);
    for e in 0..map.edges.len() {
        map.set_edge_length(e, 100_000_000);
    }
    map
}

#[test]
fn routes_lead_over_the_crossing() {
    let map = crossing();
    let place = |id: u64| map.nodes.iter().position(|n| n.osm_id == id).unwrap();
    let route = find_path(
        &map,
        place(103),
        place(104),
        500_000,
        REF_SPEED,
        &vec![0; map.nodes.len()],
    )
    .expect("there is a way");
    assert_eq!(route.len(), 2);
    assert_eq!(map.graph.edge_endpoints(route[0]), Some((place(103), place(100))));
    assert_eq!(map.graph.edge_endpoints(route[1]), Some((place(100), place(104))));
}

#[test]
fn destinations_are_elsewhere() {
    assert_eq!(destination_from(3, &vec![3, 3, 5]), 5);
    let map = crossing();
    let mut rng = StdRng::seed_from_u64(7);
    for _ in 0..50 {
        let d = random_destination(&map.graph, 1, &mut rng);
        assert!(d < map.nodes.len());
        assert!(random_destination(&map.graph, 99, &mut rng) < map.nodes.len());
    }
    let alone = Topology::from_edges(1, &vec![]);
    assert_eq!(random_destination(&alone, 0, &mut rng), 0);
    assert_eq!(random_destination(&alone, 7, &mut rng), 7);
}

fn flat(map: &MapData, node_id: u64) -> EditGeometry {
    let n = map.node_place(node_id).unwrap();
    EditGeometry {
        out_lengths: vec![42_000_000; map.graph.outgoing(n).len()],
        edge_length: 77_000_000,
    }
}

#[test]
fn moving_a_node_can_be_taken_back() {
    let mut map = crossing();
    let n = map.node_place(101).unwrap();
    let before = (map.nodes[n].lat, map.nodes[n].lng);
    let geo = flat(&map, 101);
    assert!(map.update_node_position(101, 51 * D, 21 * D, &geo).is_ok());
    assert_eq!((map.nodes[n].lat, map.nodes[n].lng), (51 * D, 21 * D));
    let mut history = EditorHistory::new();
    history.record(GraphChange::NodePosition {
        node_id: 101,
        before_lat: before.0,
        before_lng: before.1,
        after_lat: 51 * D,
        after_lng: 21 * D,
    });
    assert!(history.undo_last(&mut map, &geo).is_ok());
    assert_eq!((map.nodes[n].lat, map.nodes[n].lng), before);
    assert!(history.redo_last(&mut map, &geo).is_ok());
    assert_eq!((map.nodes[n].lat, map.nodes[n].lng), (51 * D, 21 * D));
    assert!(history.redo_last(&mut map, &geo).is_ok());
    assert_eq!((map.nodes[n].lat, map.nodes[n].lng), (51 * D, 21 * D));
    assert!(map.update_node_position(999, 0, 0, &geo).is_err());
}

#[test]
fn roads_are_added_and_deleted() {
    let mut map = crossing();
    let geo = flat(&map, 101);
    let edges = map.edges.len();
    assert!(map.add_edge_default(101, 102, &geo).is_ok());
    assert_eq!(map.edges.len(), edges + 1);
    assert_eq!(map.edges[edges].length, 77_000_000);
    assert!(map.add_edge_default(101, 777, &geo).is_err());
    assert!(map.delete_edge(101, 102).is_ok());
    assert_eq!(map.edges.len(), edges);
    assert!(map.delete_edge(101, 102).is_err());
    assert!(map.extrude(101, 100, 0, 0, &geo).is_err());
    assert!(map.extrude(101, 500, 50 * D, 20 * D, &geo).is_ok());
    assert_eq!(map.node_place(500), Some(5));
    let dirs = vec![LaneDirection::Left, LaneDirection::Right];
    assert!(map.update_edge_tags(101, 100, 2, true, &dirs).is_ok());
    let e = map
        .graph
        .edge_connecting(map.node_place(101).unwrap(), map.node_place(100).unwrap())
        .unwrap();
    assert_eq!(map.edges[e].lanes, 2);
    assert!(map.edges[e].oneway);
    assert_eq!(map.edges[e].lane_directions, dirs);
}

#[test]
fn bending_turns_are_drawn_after_an_edit() {
    let mut map = crossing();
    map.rebuild_all_geometry();
    assert_eq!(map.turn_connectors.len(), 8);
    let straight = |map: &MapData, a: u64, m: u64, b: u64| {
        !map.turn_connectors
            .iter()
            .any(|t| (t.from_node_id, t.via_node_id, t.to_node_id) == (a, m, b))
    };
    assert!(straight(&map, 103, 100, 104));
    assert!(!straight(&map, 103, 100, 101));
    let geo = flat(&map, 101);
    assert!(map.add_edge_default(101, 104, &geo).is_ok());
    assert!(!straight(&map, 100, 101, 104));
    assert!(!straight(&map, 101, 104, 100));
    assert!(map.delete_edge(101, 104).is_ok());
    assert!(straight(&map, 100, 101, 104));
    assert_eq!(map.turn_connectors.len(), 8);
    let (lat, lng) = (50 * D + 900_000, 20 * D + 1_400_000);
    assert!(map.update_node_position(104, lat, lng, &flat(&map, 104)).is_ok());
    assert!(!straight(&map, 103, 100, 104));
}

#[test]
fn saved_tags_are_restored() {
    let mut map = crossing();
    let dirs = vec![LaneDirection::Straight, LaneDirection::UTurn];
    assert!(map.update_edge_tags(101, 100, 2, false, &dirs).is_ok());
    let saved = build_overrides(&map);
    assert_eq!(saved.node_positions.len(), map.nodes.len());
    let mut fresh = crossing();
    for (key, tags) in &saved.edge_tag_overrides {
        apply_tag_override(&mut fresh, key, tags);
    }
    for e in 0..map.edges.len() {
        assert_eq!(fresh.edges[e].lanes, map.edges[e].lanes);
        assert_eq!(fresh.edges[e].lane_directions, map.edges[e].lane_directions);
    }
}

#[test]
fn names_are_read_back() {
    assert_eq!(encode_edge_key(12, 7), "12->7");
    assert_eq!(decode_edge_key("12->7"), Some((12, 7)));
    assert_eq!(decode_edge_key("12:7"), None);
    assert_eq!(decode_edge_key("12->x"), None);
    for d in
        [LaneDirection::Left, LaneDirection::Straight, LaneDirection::Right, LaneDirection::UTurn]
    {
        assert_eq!(parse_lane_direction(lane_direction_label(d)), d);
    }
    assert_eq!(parse_lane_direction("sideways"), LaneDirection::Straight);
    assert_eq!(parse_light_mode("adaptive"), Ok(LightControlMode::Adaptive));
    assert_eq!(parse_light_mode("magic"), Err("Unknown light mode: magic".to_string()));
    assert!(!intersection_label(IntersectionType::Roundabout).is_empty());
    assert_eq!(infra_label(InfraType::Bridge), "bridge");
    assert!(!restriction_label(RestrictionKind::NoEntry).is_empty());
}

#[test]
fn the_front_end_sees_the_map() {
    let map = crossing();
    let r = build_map_response(&map);
    assert_eq!(r.nodes.len(), 5);
    assert_eq!(r.edges.len(), 8);
    assert_eq!(r.edges[0].id, 0);
    let (a, b) = map.graph.edge_endpoints(0).unwrap();
    assert_eq!((r.edges[0].from, r.edges[0].to), (map.nodes[a].osm_id, map.nodes[b].osm_id));
    assert_eq!(r.lanes.len(), map.lanes.lanes.len());
    assert!(r.lanes.iter().any(|l| l.is_connector));
    assert_eq!(r.spawn_points.len(), map.spawn_points.len());
}
