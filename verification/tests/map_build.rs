//! Maps made from loaded elements, street networks and grids.

use traffic_control::map::builders::{
    build_demo_road_network, build_road_network, build_single_intersection_network,
    build_single_road_network,
};
use traffic_control::map::building::{
    classify_building, compute_centroid, extract_od_buildings, BuildingType,
};
use traffic_control::map::building_network::link_to_road_nodes;
use traffic_control::map::city_map::{
    build_city_intersection, build_city_map, build_map_data_from_network, city_map_data,
    simplify_polyline, LaneLine, StreetIntersection, StreetLane, StreetNetwork, StreetRoad,
};
use traffic_control::map::lane_graph::{
    populate_lane_graph, proportional_lane_pairs, valid_connector_pairs, TurnClass, NO_EDGE,
};
use traffic_control::map::map_data::{
    compute_bbox, find_boundary_nodes, find_spawn_points, MapData,
};
use traffic_control::map::osm::{
    is_oneway, is_reverse_oneway, OsmData, OsmElement, OsmMember, OsmNode, OsmRelation, OsmWay,
    Tags,
};
use traffic_control::map::road_network::{
    build_lane_directions, build_lane_directions_reversed, build_turn_restrictions,
    decision_points, default_speed_kmh, determine_intersection_type, is_backbone_road,
    parse_infra_type, parse_lanes, parse_layer, parse_max_speed, parse_oneway,
    parse_restriction_kind, parse_turn_lanes, speed_number, InfraType, IntersectionType,
    LaneDirection, RestrictionKind,
};
use traffic_control::map::tram_network::TramTrackType;
use traffic_control::simulation::crossings::drawn_connectors;

const D: i64 = 1_000_000_000;

fn tags(list: &[(&str, &str)]) -> Tags {
    let mut t = Tags::new();
    for (k, v) in list {
        t.insert(k.to_string(), v.to_string());
    }
    t
}

fn node(id: u64, lat: i64, lng: i64, list: &[(&str, &str)]) -> OsmElement {
    OsmElement::Node(OsmNode { id, lat, lng, tags: tags(list) })
}

fn way(id: u64, refs: &[u64], list: &[(&str, &str)]) -> OsmElement {
    OsmElement::Way(OsmWay { id, node_refs: refs.to_vec(), tags: tags(list) })
}

fn small_town() -> OsmData {
    let mut osm = OsmData::new();
    osm.add(node(1, 50 * D, 20 * D, &[]));
    osm.add(node(2, 50 * D, 20 * D + 2_000_000, &[("highway", "traffic_signals")]));
    osm.add(node(3, 50 * D, 20 * D + 4_000_000, &[]));
    osm.add(node(4, 50 * D + 2_000_000, 20 * D + 2_000_000, &[]));
    osm.add(node(5, 50 * D + 3_000_000, 20 * D + 2_000_000, &[("railway", "tram_stop")]));
    osm.add(way(10, &[1, 2, 3], &[("highway", "primary"), ("lanes", "4")]));
    osm.add(way(11, &[2, 4], &[("highway", "tertiary"), ("oneway", "yes")]));
    osm.add(way(12, &[4, 5], &[("railway", "tram")]));
    osm.add(way(13, &[1, 2, 4, 1], &[("building", "apartments")]));
    osm
}

#[test]
fn ways_become_directed_segments() {
    let osm = small_town();
    assert_eq!(osm.ways.len(), 3);
    assert_eq!(osm.tram_ways.len(), 1);
    assert_eq!(osm.tram_stops, vec![5]);
    let speeds = vec![19_444_444, 8_333_333, 13_888_888];
    let map = build_road_network(&osm, &speeds, 3_500_000);
    assert_eq!(map.nodes.len(), 4);
    assert_eq!(map.edges.len(), 5);
    let light = map.nodes.iter().find(|n| n.osm_id == 2).unwrap();
    assert_eq!(light.intersection_type, IntersectionType::TrafficLight);
    let oneway: Vec<_> = map.edges.iter().filter(|e| e.osm_id == 11).collect();
    assert_eq!(oneway.len(), 1);
    assert!(oneway[0].oneway);
    assert_eq!(oneway[0].max_speed, 8_333_333);
    assert_eq!(map.edges[0].lanes, 4);
    assert_eq!(map.edges[0].road_type, "primary");
    assert_eq!(map.tram_data.nodes.len(), 2);
    assert_eq!(map.tram_data.stops.len(), 1);
    assert_eq!(map.tram_data.edges[0].track_type, TramTrackType::Dedicated);
    assert_eq!(map.od_buildings.len(), 1);
    assert_eq!(map.od_buildings[0].building_type, BuildingType::Residential);
    assert!(map.od_buildings[0].access_node.is_some());
}

#[test]
fn buildings_are_linked_to_the_nearest_node() {
    let osm = small_town();
    let map = build_road_network(&osm, &vec![1, 1, 1], 3_500_000);
    let mut buildings = extract_od_buildings(&osm);
    assert_eq!(buildings.len(), 1);
    assert!(buildings[0].access_node.is_none());
    link_to_road_nodes(&mut buildings, &map.nodes);
    let c = buildings[0].centroid;
    let at = buildings[0].access_node.unwrap();
    let d = |i: usize| {
        let n = &map.nodes[i];
        let dx = (n.lng - c.0) as i128;
        let dy = (n.lat - c.1) as i128;
        dx * dx + dy * dy
    };
    for i in 0..map.nodes.len() {
        assert!(d(at) <= d(i));
    }
    let mut again = extract_od_buildings(&osm);
    link_to_road_nodes(&mut again, &vec![]);
    assert!(again[0].access_node.is_none());
}

#[test]
fn buildings_are_classified() {
    assert_eq!(classify_building(&tags(&[("building", "house")])), BuildingType::Residential);
    assert_eq!(classify_building(&tags(&[("building", "office")])), BuildingType::Office);
    assert_eq!(classify_building(&tags(&[("building", "retail")])), BuildingType::Commercial);
    assert_eq!(classify_building(&tags(&[("building", "shed")])), BuildingType::Other);
    assert_eq!(BuildingType::Residential.as_str(), "residential");
    assert_eq!(compute_centroid(&vec![(0, 0), (10, 0), (10, 10), (0, 10)]), (5, 5));
}

#[test]
fn tags_of_ways_are_read() {
    assert_eq!(parse_lanes(Some("3"), "primary"), 3);
    assert_eq!(parse_lanes(Some("many"), "residential"), parse_lanes(None, "residential"));
    assert_eq!(parse_layer(Some("-2")), -2);
    assert_eq!(parse_layer(None), 0);
    assert_eq!(parse_layer(Some("x")), 0);
    assert_eq!(parse_oneway(&tags(&[("oneway", "yes")])), 1);
    assert_eq!(parse_oneway(&tags(&[("oneway", "-1")])), -1);
    assert_eq!(parse_oneway(&tags(&[("junction", "roundabout")])), 1);
    assert_eq!(parse_oneway(&tags(&[])), 0);
    assert_eq!(parse_infra_type(&tags(&[("bridge", "yes")])), InfraType::Bridge);
    assert_eq!(parse_infra_type(&tags(&[("tunnel", "yes")])), InfraType::Tunnel);
    assert_eq!(parse_infra_type(&tags(&[])), InfraType::Normal);
    assert_eq!(
        parse_turn_lanes("left|through;right| right |"),
        vec![
            LaneDirection::Left,
            LaneDirection::Straight,
            LaneDirection::Right,
            LaneDirection::Straight
        ]
    );
    assert!(is_backbone_road(Some("primary")));
    assert!(!is_backbone_road(None));
    assert_eq!(
        determine_intersection_type(&tags(&[("highway", "stop")])),
        IntersectionType::Stop
    );
    assert_eq!(
        determine_intersection_type(&tags(&[("highway", "give_way")])),
        IntersectionType::Yield
    );
    assert_eq!(determine_intersection_type(&tags(&[])), IntersectionType::Plain);
    let w = OsmWay { id: 1, node_refs: vec![1, 2], tags: tags(&[("oneway", "yes")]) };
    assert!(is_oneway(&w));
    assert!(!is_reverse_oneway(&w));
    let r = OsmWay { id: 1, node_refs: vec![1, 2], tags: tags(&[("oneway", "-1")]) };
    assert!(is_reverse_oneway(&r));
}

#[test]
fn speed_limits_are_read() {
    assert_eq!(speed_number(" 50 "), ("50".to_string(), false));
    assert_eq!(speed_number("30 mph"), ("30".to_string(), true));
    assert_eq!(speed_number("30mph"), ("30".to_string(), true));
    assert_eq!(speed_number("70 km/h"), ("70".to_string(), false));
    assert_eq!(speed_number(""), ("".to_string(), false));
    assert_eq!(parse_max_speed(Some(36_000_000), false, None), 10_000_000);
    assert_eq!(parse_max_speed(Some(30_000_000), true, None), 48_280_200 * 5 / 18);
    assert_eq!(parse_max_speed(Some(1), false, None), 1_000_000);
    assert_eq!(parse_max_speed(None, false, Some("motorway")), 33_333_333);
    assert_eq!(parse_max_speed(None, false, Some("living_street")), 2_777_777);
    assert_eq!(default_speed_kmh(Some("trunk_link")), 90);
    assert_eq!(default_speed_kmh(None), 50);
}

#[test]
fn lane_directions_are_laid_out() {
    assert_eq!(build_lane_directions(1), vec![LaneDirection::Straight]);
    assert_eq!(build_lane_directions(2), vec![LaneDirection::Left, LaneDirection::Straight]);
    assert_eq!(
        build_lane_directions(4),
        vec![
            LaneDirection::Left,
            LaneDirection::Straight,
            LaneDirection::Straight,
            LaneDirection::Right
        ]
    );
    let mut back = build_lane_directions_reversed(3);
    back.reverse();
    assert_eq!(back.len(), build_lane_directions(3).len());
    assert_eq!(decision_points(100), (25, 50, 75));
}

#[test]
fn restrictions_are_read_from_relations() {
    assert_eq!(parse_restriction_kind("no_left_turn"), Some(RestrictionKind::NoLeftTurn));
    assert_eq!(parse_restriction_kind("no_left"), None);
    let member = |role: &str, kind: &str, id: u64| OsmMember {
        member_type: kind.to_string(),
        ref_id: id,
        role: role.to_string(),
    };
    let rel = OsmRelation {
        id: 1,
        tags: tags(&[("type", "restriction"), ("restriction", "only_straight_on")]),
        members: vec![member("from", "way", 10), member("via", "node", 2), member("to", "way", 11)],
    };
    let other = OsmRelation { id: 2, tags: tags(&[("type", "route")]), members: vec![] };
    let list = build_turn_restrictions(&vec![rel, other]);
    assert_eq!(list.len(), 1);
    assert_eq!((list[0].from_way_id, list[0].via_node_id, list[0].to_way_id), (10, 2, 11));
    assert_eq!(list[0].kind, RestrictionKind::OnlyStraightOn);
}

#[test]
fn lanes_are_paired() {
    assert_eq!(valid_connector_pairs(3, 2, TurnClass::Right), vec![(2, 1)]);
    assert_eq!(valid_connector_pairs(3, 2, TurnClass::Left), vec![(0, 0)]);
    assert_eq!(
        valid_connector_pairs(3, 2, TurnClass::Straight),
        vec![(0, 0), (1, 1), (2, 1)]
    );
    assert_eq!(valid_connector_pairs(3, 2, TurnClass::UTurn), vec![]);
    let pairs = proportional_lane_pairs(2, 4);
    for out in 0..4u8 {
        assert!(pairs.iter().any(|p| p.1 == out));
    }
    for inn in 0..2u8 {
        assert!(pairs.iter().any(|p| p.0 == inn));
    }
}

fn check_lanes(map: &MapData) {
    let lanes: usize = map.edges.iter().map(|e| e.lanes.max(1) as usize).sum();
    let road: Vec<_> = map.lanes.lanes.iter().filter(|l| l.edge_id != NO_EDGE).collect();
    assert_eq!(road.len(), lanes);
    for (i, l) in map.lanes.lanes.iter().enumerate() {
        assert_eq!(l.id, i as u64 + 1);
        for c in &l.connections {
            assert!(*c >= 1 && *c <= map.lanes.lanes.len() as u64);
        }
    }
}

#[test]
fn sandbox_road_has_a_crossing_in_the_middle() {
    let map = build_single_road_network(50 * D, 20 * D, 1_000_000);
    assert_eq!(map.nodes.len(), 3);
    assert_eq!(map.edges.len(), 2);
    assert!(map.edges.iter().all(|e| e.oneway && e.lanes == 1));
    assert_eq!(map.graph.edge_endpoints(0), Some((0, 1)));
    assert_eq!(map.graph.edge_endpoints(1), Some((1, 2)));
    assert_eq!(map.spawn_points, vec![0]);
    assert_eq!(map.boundary_nodes, vec![2]);
    assert!(map.is_sandbox);
    check_lanes(&map);
}

#[test]
fn sandbox_crossing_has_four_arms() {
    let map = build_single_intersection_network(50 * D, 20 * D, 900_000, 1_400_000);
    assert_eq!(map.nodes.len(), 5);
    assert_eq!(map.edges.len(), 8);
    check_lanes(&map);
    let connectors = map.lanes.lanes.iter().filter(|l| l.edge_id == NO_EDGE).count();
    assert_eq!(connectors, 12);
    let again = populate_lane_graph(&map.graph, &map.nodes, &map.edges, map.lane_width);
    assert_eq!(again.lanes.len(), map.lanes.lanes.len());
}

#[test]
fn grids_follow_their_type() {
    for (kind, lanes) in [("one_lane", 1), ("two_lane", 2), ("three_lane", 3)] {
        let map = build_demo_road_network(kind, 50 * D, 20 * D, 1_000_000, 1_500_000);
        assert!(map.edges.iter().all(|e| e.lanes == lanes));
        assert!(map
            .nodes
            .iter()
            .all(|n| n.intersection_type == IntersectionType::TrafficLight));
        check_lanes(&map);
    }
    let mixed = build_demo_road_network("mixed", 50 * D, 20 * D, 1_000_000, 1_500_000);
    assert!(mixed.edges.iter().any(|e| e.lanes != mixed.edges[0].lanes));
}

#[test]
fn trips_start_in_an_outer_band() {
    let map = build_demo_road_network("mixed", 50 * D, 20 * D, 1_000_000, 1_500_000);
    let b = compute_bbox(&map.nodes);
    let spawn = find_spawn_points(&map.graph, &map.nodes, &b);
    assert!(spawn.len() >= 4);
    for i in &spawn {
        let n = &map.nodes[*i];
        assert!(
            n.lat == b.min_lat || n.lat == b.max_lat || n.lng == b.min_lng || n.lng == b.max_lng
        );
    }
    assert!(find_boundary_nodes(&map.graph, &map.nodes, &b).len() >= 2);
    let none = compute_bbox(&vec![]);
    assert_eq!((none.min_lat, none.min_lng, none.max_lat, none.max_lng), (0, 0, 0, 0));
}

fn street(id: u64, src: u64, dst: u64, oneway: bool, driving: usize) -> StreetRoad {
    let mut lanes = vec![StreetLane::Driving; driving];
    lanes.push(StreetLane::Other);
    StreetRoad {
        id,
        osm_id: Some(100 + id as i64),
        src,
        dst,
        lanes,
        speed_limit: None,
        length: 80_000_000,
        oneway,
        layer: 0,
        highway_type: "primary".to_string(),
    }
}

fn junction(id: u64, osm_id: Option<i64>, signalled: bool, roads: &[u64]) -> StreetIntersection {
    StreetIntersection {
        id,
        osm_id,
        lat: 50 * D + id as i64 * 1_000_000,
        lng: 20 * D,
        signalled,
        roads: roads.to_vec(),
    }
}

fn network() -> StreetNetwork {
    StreetNetwork {
        intersections: vec![
            junction(0, Some(900), false, &[1]),
            junction(1, None, true, &[1, 2]),
            junction(2, Some(902), false, &[2]),
        ],
        roads: vec![
            street(1, 0, 1, false, 2),
            street(2, 1, 2, true, 0),
            street(3, 1, 7, true, 1),
        ],
    }
}

#[test]
fn street_networks_become_maps() {
    let c = build_map_data_from_network(&network());
    assert_eq!(c.nodes.len(), 3);
    assert_eq!(c.nodes[0].osm_id, 900);
    assert_eq!(c.nodes[1].osm_id, 1);
    assert_eq!(c.nodes[1].intersection_type, IntersectionType::TrafficLight);
    assert_eq!(c.node_index_map.find(2), Some(2));
    assert_eq!(c.ends, vec![(0, 1), (1, 0), (1, 2)]);
    assert_eq!(c.edges[0].lanes, 2);
    assert_eq!(c.edges[2].lanes, 1);
    assert_eq!(c.edges[0].max_speed, 13_900_000);
    assert_eq!(c.edges[0].decision_points, (20_000_000, 40_000_000, 60_000_000));
    assert_eq!(c.edges[2].osm_id, 102);
    let map = city_map_data(c).expect("a map can be made");
    assert!(!map.is_sandbox);
    assert_eq!(map.node_index_map.find(900), Some(0));
    check_lanes(&map);
    let mut twice = network();
    twice.intersections[2].osm_id = Some(900);
    assert!(city_map_data(build_map_data_from_network(&twice)).is_none());
}

#[test]
fn lanes_of_a_junction_are_paired_in_the_order_of_their_names() {
    let x = junction(4, None, false, &[2, 10]);
    let r = build_city_intersection(&x, &vec![(2, 1), (10, 0), (2, 0), (3, 0), (2, 1)]);
    assert_eq!(r.intersection_id, "i4");
    assert_eq!(r.lane_ids, vec!["r10_l0", "r2_l0", "r2_l1"]);
    let pair = |a: &str, b: &str| (a.to_string(), b.to_string());
    assert_eq!(
        r.conflict_pairs,
        vec![pair("r10_l0", "r2_l0"), pair("r10_l0", "r2_l1"), pair("r2_l0", "r2_l1")]
    );
}

#[test]
fn cities_have_simplified_lanes() {
    let m = 1_000_000;
    let bent = vec![(0, 0), (10 * m, 0), (20 * m, 0), (20 * m, 10 * m)];
    assert_eq!(
        simplify_polyline(&bent, 1_250_000),
        vec![(0, 0), (20 * m, 0), (20 * m, 10 * m)]
    );
    assert_eq!(simplify_polyline(&vec![(0, 0), (5, 5)], 1), vec![(0, 0), (5, 5)]);
    let lines = vec![
        LaneLine { road: 1, lane: 0, points: bent },
        LaneLine { road: 1, lane: 1, points: vec![(0, 0)] },
        LaneLine { road: 2, lane: 0, points: vec![(0, 0), (7 * m, 0)] },
    ];
    let city = build_city_map(&network(), &lines);
    assert_eq!(city.lanes.len(), 2);
    assert_eq!(city.lanes[0].lane_id, "r1_l0");
    assert_eq!(city.lanes[0].bezier_path.ctrl, (20 * m, 0));
    assert_eq!(city.lanes[1].bezier_path.p2, (7 * m, 0));
    assert_eq!(city.intersections.len(), 3);
    assert_eq!(city.intersections[1].lane_ids, vec!["r1_l0", "r2_l0"]);
    assert_eq!(city.intersections[1].conflict_pairs.len(), 1);
}

#[test]
fn crossing_connectors_make_conflict_areas() {
    let mut map = build_single_intersection_network(50 * D, 20 * D, 900_000, 1_400_000);
    let ids: Vec<u64> =
        map.lanes.lanes.iter().filter(|l| l.edge_id == NO_EDGE).map(|l| l.id).collect();
    let areas = map.lanes.set_conflict_areas(&vec![(ids[0], ids[1]), (ids[0], ids[2])]);
    assert_eq!(areas.len(), 2);
    assert_eq!(areas[1].lane_ids, (ids[0], ids[2]));
    assert_eq!(map.lanes.lanes[ids[0] as usize - 1].conflict_areas, vec![1, 2]);
    assert_eq!(map.lanes.lanes[ids[2] as usize - 1].conflict_areas, vec![2]);
    map.lanes.set_length(ids[0], 12_345_678);
    assert_eq!(map.lanes.lanes[ids[0] as usize - 1].length, 12_345_678);
}

#[test]
fn files_give_nodes_and_roads() {
    let mut osm = OsmData::new();
    osm.add_from_file(node(1, 50 * D, 20 * D, &[("railway", "tram_stop")]));
    osm.add_from_file(node(2, 50 * D, 21 * D, &[]));
    osm.add_from_file(node(2, 50 * D, 22 * D, &[]));
    osm.add_from_file(way(10, &[1, 2], &[("highway", "primary"), ("railway", "tram")]));
    osm.add_from_file(way(11, &[1, 2], &[("building", "yes")]));
    osm.add_from_file(way(12, &[], &[("highway", "primary")]));
    osm.add_from_file(OsmElement::Relation(OsmRelation {
        id: 1,
        tags: tags(&[("type", "restriction")]),
        members: vec![],
    }));
    assert_eq!(osm.nodes.len(), 2);
    assert_eq!(osm.nodes.at(1).lng, 22 * D);
    assert_eq!(osm.ways.iter().map(|w| w.id).collect::<Vec<u64>>(), vec![10]);
    assert!(osm.tram_ways.is_empty());
    assert!(osm.tram_stops.is_empty());
    assert!(osm.relations.is_empty());
}

#[test]
fn connectors_are_numbered_node_by_node() {
    let map = build_single_intersection_network(50 * D, 20 * D, 900_000, 1_400_000);
    let connections = |edge: usize| map.lanes.lanes[edge].connections.clone();
    assert_eq!(connections(6), vec![9, 10, 11]);
    assert_eq!(connections(4), vec![12, 13, 14]);
    assert_eq!(connections(2), vec![15, 16, 17]);
    assert_eq!(connections(0), vec![18, 19, 20]);
    let drawn = drawn_connectors(&map.lanes);
    assert_eq!(drawn.len(), 12);
    assert_eq!((drawn[0].from, drawn[0].id), (1, 18));
    assert_eq!(drawn[11].from, 7);
    assert!(drawn.iter().all(|c| map.lanes.lanes[c.id as usize - 1].connections == vec![c.to]));
}
