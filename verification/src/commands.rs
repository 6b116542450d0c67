//! The data exchanged with the front end: names, keys, the map response and saved edits.

use vstd::prelude::*;
use vstd::string::*;

use crate::map::building::OdBuilding;
use crate::map::lane_graph::{ConflictArea, Lane, NO_EDGE};
use crate::map::map_data::{Bbox, MapData, TurnConnector};
use crate::map::road_network::{
    InfraType, IntersectionType, LaneDirection, RestrictionKind, RoadEdge, RoadNode,
    TurnRestriction,
};
use crate::map::tram_network::TramNode;
use crate::map::world_editor::{joins, node_ids, retagged};
use crate::state::LightControlMode;
use crate::util::text::{
    decimal_text, is_digit_char, lemma_decimal_round_trip, parse_unsigned, push_decimal, text_eq,
    unsigned_value,
};

verus! {

/// The name of a kind of crossing.
pub open spec fn intersection_label_text(t: IntersectionType) -> Seq<char> {
    match t {
        IntersectionType::Plain => "plain"@,
        IntersectionType::TrafficLight => "traffic_light"@,
        IntersectionType::PedestrianCrossing => "pedestrian_crossing"@,
        IntersectionType::Stop => "stop"@,
        IntersectionType::Yield => "yield"@,
        IntersectionType::Roundabout => "roundabout"@,
    }
}

/// The name of a kind of crossing.
pub fn intersection_label(t: IntersectionType) -> (r: &'static str)
    ensures
        r@ == intersection_label_text(t),
{
    match t {
        IntersectionType::Plain => "plain",
        IntersectionType::TrafficLight => "traffic_light",
        IntersectionType::PedestrianCrossing => "pedestrian_crossing",
        IntersectionType::Stop => "stop",
        IntersectionType::Yield => "yield",
        IntersectionType::Roundabout => "roundabout",
    }
}

/// The name of a lane direction.
pub open spec fn lane_direction_label_text(d: LaneDirection) -> Seq<char> {
    match d {
        LaneDirection::Left => "left"@,
        LaneDirection::Straight => "straight"@,
        LaneDirection::Right => "right"@,
        LaneDirection::UTurn => "uturn"@,
    }
}

/// The name of a lane direction.
pub fn lane_direction_label(d: LaneDirection) -> (r: &'static str)
    ensures
        r@ == lane_direction_label_text(d),
{
    match d {
        LaneDirection::Left => "left",
        LaneDirection::Straight => "straight",
        LaneDirection::Right => "right",
        LaneDirection::UTurn => "uturn",
    }
}

/// The name of a kind of structure.
pub open spec fn infra_label_text(t: InfraType) -> Seq<char> {
    match t {
        InfraType::Normal => "normal"@,
        InfraType::Bridge => "bridge"@,
        InfraType::Tunnel => "tunnel"@,
    }
}

/// The name of a kind of structure.
pub fn infra_label(t: InfraType) -> (r: &'static str)
    ensures
        r@ == infra_label_text(t),
{
    match t {
        InfraType::Normal => "normal",
        InfraType::Bridge => "bridge",
        InfraType::Tunnel => "tunnel",
    }
}

/// The name of a turn restriction.
pub open spec fn restriction_label_text(k: RestrictionKind) -> Seq<char> {
    match k {
        RestrictionKind::NoLeftTurn => "no_left_turn"@,
        RestrictionKind::NoRightTurn => "no_right_turn"@,
        RestrictionKind::NoStraightOn => "no_straight_on"@,
        RestrictionKind::NoUTurn => "no_u_turn"@,
        RestrictionKind::OnlyLeftTurn => "only_left_turn"@,
        RestrictionKind::OnlyRightTurn => "only_right_turn"@,
        RestrictionKind::OnlyStraightOn => "only_straight_on"@,
        RestrictionKind::NoEntry => "no_entry"@,
    }
}

/// The name of a turn restriction.
pub fn restriction_label(k: RestrictionKind) -> (r: &'static str)
    ensures
        r@ == restriction_label_text(k),
{
    match k {
        RestrictionKind::NoLeftTurn => "no_left_turn",
        RestrictionKind::NoRightTurn => "no_right_turn",
        RestrictionKind::NoStraightOn => "no_straight_on",
        RestrictionKind::NoUTurn => "no_u_turn",
        RestrictionKind::OnlyLeftTurn => "only_left_turn",
        RestrictionKind::OnlyRightTurn => "only_right_turn",
        RestrictionKind::OnlyStraightOn => "only_straight_on",
        RestrictionKind::NoEntry => "no_entry",
    }
}

/// The lane direction that a name stands for; unknown names mean straight on.
pub open spec fn lane_direction_named(value: Seq<char>) -> LaneDirection {
    if value == "left"@ {
        LaneDirection::Left
    } else if value == "right"@ {
        LaneDirection::Right
    } else if value == "uturn"@ {
        LaneDirection::UTurn
    } else {
        LaneDirection::Straight
    }
}

/// The lane direction that a name stands for; unknown names mean straight on.
pub fn parse_lane_direction(value: &str) -> (r: LaneDirection)
    ensures
        r == lane_direction_named(value@),
{
    if text_eq(value, "left") {
        LaneDirection::Left
    } else if text_eq(value, "right") {
        LaneDirection::Right
    } else if text_eq(value, "uturn") {
        LaneDirection::UTurn
    } else {
        LaneDirection::Straight
    }
}

/// Reading the name of a lane direction gives the direction back.
pub proof fn law_lane_direction_round_trip(d: LaneDirection)
    ensures
        lane_direction_named(lane_direction_label_text(d)) == d,
{
    reveal_strlit("left");
    reveal_strlit("right");
    reveal_strlit("uturn");
    reveal_strlit("straight");
    let l = "left"@;
    let r = "right"@;
    let u = "uturn"@;
    let s = "straight"@;
    assert(l.len() == 4 && r.len() == 5 && u.len() == 5 && s.len() == 8);
    assert(r[0] == 'r' && u[0] == 'u');
}

/// Reading the name of a restriction as a map tag gives the restriction back.
pub proof fn law_restriction_round_trip(k: RestrictionKind)
    ensures
        crate::map::road_network::restriction_kind_of(restriction_label_text(k)) == Some(k),
{
    reveal_strlit("no_left_turn");
    reveal_strlit("no_right_turn");
    reveal_strlit("no_straight_on");
    reveal_strlit("no_u_turn");
    reveal_strlit("only_left_turn");
    reveal_strlit("only_right_turn");
    reveal_strlit("only_straight_on");
    reveal_strlit("no_entry");
    assert("no_left_turn"@.len() == 12);
    assert("no_right_turn"@.len() == 13);
    assert("no_straight_on"@.len() == 14 && "no_straight_on"@[0] == 'n');
    assert("no_u_turn"@.len() == 9);
    assert("only_left_turn"@.len() == 14 && "only_left_turn"@[0] == 'o');
    assert("only_right_turn"@.len() == 15);
    assert("only_straight_on"@.len() == 16);
    assert("no_entry"@.len() == 8);
}

/// The signal mode that a name stands for.
pub open spec fn light_mode_named(mode: Seq<char>) -> Option<LightControlMode> {
    if mode == "manual"@ {
        Some(LightControlMode::Manual)
    } else if mode == "semi_auto"@ {
        Some(LightControlMode::SemiAuto)
    } else if mode == "auto"@ {
        Some(LightControlMode::Auto)
    } else if mode == "adaptive"@ {
        Some(LightControlMode::Adaptive)
    } else {
        None
    }
}

/// The signal mode that a name stands for, or a message that names the unknown mode.
pub fn parse_light_mode(mode: &str) -> (r: Result<LightControlMode, String>)
    ensures
        match r {
            Ok(m) => light_mode_named(mode@) == Some(m),
            Err(e) => light_mode_named(mode@) is None && e@ == "Unknown light mode: "@ + mode@,
        },
{
    if text_eq(mode, "manual") {
        Ok(LightControlMode::Manual)
    } else if text_eq(mode, "semi_auto") {
        Ok(LightControlMode::SemiAuto)
    } else if text_eq(mode, "auto") {
        Ok(LightControlMode::Auto)
    } else if text_eq(mode, "adaptive") {
        Ok(LightControlMode::Adaptive)
    } else {
        let mut out: String = String::from_str("Unknown light mode: ");
        out.append(mode);
        Err(out)
    }
}

/// The key under which the tags of the segments between two nodes are saved.
pub open spec fn edge_key(from: u64, to: u64) -> Seq<char> {
    decimal_text(from as nat) + seq!['-', '>'] + decimal_text(to as nat)
}

/// The key under which the tags of the segments between two nodes are saved: the two ids with
/// an arrow between them.
pub fn encode_edge_key(from: u64, to: u64) -> (r: String)
    ensures
        r@ == edge_key(from, to),
{
    let mut out: String = String::new();
    push_decimal(&mut out, from);
    proof {
        reveal_strlit("->");
        assert("->"@ =~= seq!['-', '>']);
    }
    out.append("->");
    push_decimal(&mut out, to);
    assert(out@ =~= edge_key(from, to));
    out
}

/// Where the first arrow of a text stands.
pub open spec fn arrow_place(s: Seq<char>) -> Option<int>
    decreases s.len(),
{
    if s.len() < 2 {
        None
    } else if s[0] == '-' && s[1] == '>' {
        Some(0)
    } else {
        match arrow_place(s.skip(1)) {
            Some(i) => Some(i + 1),
            None => None,
        }
    }
}

/// The two ids of a key: what stands before and after its first arrow, where both are numbers
/// of at most 64 bits.
pub open spec fn edge_key_ids(s: Seq<char>) -> Option<(u64, u64)> {
    match arrow_place(s) {
        None => None,
        Some(i) => {
            let a = unsigned_value(s.subrange(0, i));
            let b = unsigned_value(s.subrange(i + 2, s.len() as int));
            if a is Some && b is Some && a.unwrap() <= u64::MAX && b.unwrap() <= u64::MAX {
                Some((a.unwrap() as u64, b.unwrap() as u64))
            } else {
                None
            }
        },
    }
}

fn find_arrow(s: &str) -> (r: Option<usize>)
    ensures
        match r {
            Some(i) => arrow_place(s@) == Some(i as int) && i + 2 <= s@.len(),
            None => arrow_place(s@) is None,
        },
{
    let n: usize = s.unicode_len();
    let mut i: usize = 0;
    assert(s@.skip(0) =~= s@);
    while i < n && n - i >= 2
        invariant
            n == s@.len(),
            i <= n,
            arrow_place(s@) == (match arrow_place(s@.skip(i as int)) {
                Some(k) => Some(k + i),
                None => None,
            }),
        decreases n - i,
    {
        assert(s@.skip(i as int)[0] == s@[i as int]);
        assert(s@.skip(i as int)[1] == s@[i + 1]);
        assert(s@.skip(i as int).skip(1) =~= s@.skip(i + 1));
        if s.get_char(i) == '-' && s.get_char(i + 1) == '>' {
            return Some(i);
        }
        i = i + 1;
    }
    None
}

/// The two ids of a key, where it is one.
pub fn decode_edge_key(key: &str) -> (r: Option<(u64, u64)>)
    ensures
        r == edge_key_ids(key@),
{
    let n: usize = key.unicode_len();
    match find_arrow(key) {
        None => None,
        Some(i) => {
            let left: &str = key.substring_char(0, i);
            let right: &str = key.substring_char(i + 2, n);
            match (parse_unsigned(left, 0xffff_ffff_ffff_ffff), parse_unsigned(
                right,
                0xffff_ffff_ffff_ffff,
            )) {
                (Some(a), Some(b)) => Some((a, b)),
                _ => None,
            }
        },
    }
}

/// The first arrow of a key follows the digits of the first id.
proof fn lemma_arrow_after_digits(digits: Seq<char>, rest: Seq<char>)
    requires
        forall|i: int| 0 <= i < digits.len() ==> is_digit_char(#[trigger] digits[i]),
    ensures
        arrow_place(digits + seq!['-', '>'] + rest) == Some(digits.len() as int),
    decreases digits.len(),
{
    let s = digits + seq!['-', '>'] + rest;
    if digits.len() == 0 {
        assert(s[0] == '-' && s[1] == '>');
    } else {
        assert(s[0] == digits[0]);
        assert(is_digit_char(digits[0]));
        let tail = digits.skip(1);
        assert forall|i: int| 0 <= i < tail.len() implies is_digit_char(#[trigger] tail[i]) by {
            assert(tail[i] == digits[i + 1]);
        }
        lemma_arrow_after_digits(tail, rest);
        assert(s.skip(1) =~= tail + seq!['-', '>'] + rest);
    }
}

/// Decoding the key of two ids gives the ids back.
pub proof fn law_edge_key_round_trip(from: u64, to: u64)
    ensures
        edge_key_ids(edge_key(from, to)) == Some((from, to)),
{
    let a = decimal_text(from as nat);
    let b = decimal_text(to as nat);
    let s = edge_key(from, to);
    lemma_decimal_round_trip(from as nat);
    lemma_decimal_round_trip(to as nat);
    lemma_arrow_after_digits(a, b);
    assert(s.subrange(0, a.len() as int) =~= a);
    assert(s.subrange(a.len() as int + 2, s.len() as int) =~= b);
}

/// A node as the front end sees it.
pub struct NodeData {
    pub id: u64,
    pub lat: i64,
    pub lng: i64,
    pub intersection_type: String,
}

/// A road segment as the front end sees it.
pub struct EdgeData {
    pub id: u64,
    pub from: u64,
    pub to: u64,
    pub lanes: u8,
    pub max_speed: i64,
    pub oneway: bool,
    pub infra_type: String,
    pub layer: i8,
    pub length: i64,
    pub road_type: String,
    pub lane_directions: Vec<String>,
}

/// A building as the front end sees it: outline as longitude and latitude, and use.
pub struct BuildingData {
    pub id: u64,
    pub polygon: Vec<(i64, i64)>,
    pub building_type: String,
}

/// A turn restriction as the front end sees it.
pub struct TurnRestrictionData {
    pub from_way_id: u64,
    pub via_node_id: u64,
    pub to_way_id: u64,
    pub kind: String,
}

/// A tram stop as the front end sees it.
pub struct TramStopData {
    pub id: u64,
    pub lat: i64,
    pub lng: i64,
    pub dwell: i64,
}

/// A lane as the front end sees it.
pub struct LaneData {
    pub id: u64,
    pub width: i64,
    pub connections: Vec<u64>,
    pub conflict_areas: Vec<u64>,
    pub length: i64,
    pub from_node_osm_id: u64,
    pub to_node_osm_id: u64,
    pub lane_index: u8,
    pub is_connector: bool,
}

/// The map as the front end sees it; drawn curves are added beside it.
pub struct MapDataResponse {
    pub nodes: Vec<NodeData>,
    pub edges: Vec<EdgeData>,
    pub spawn_points: Vec<(i64, i64)>,
    pub bbox: Bbox,
    pub buildings: Vec<BuildingData>,
    pub restrictions: Vec<TurnRestrictionData>,
    pub tram_stops: Vec<TramStopData>,
    pub turn_connectors: Vec<TurnConnector>,
    pub lanes: Vec<LaneData>,
    pub conflict_areas: Vec<ConflictArea>,
}

/// A request to join two nodes or to delete what joins them.
pub struct ConnectPayload {
    pub from_node_id: u64,
    pub to_node_id: u64,
}

/// A request to change the lane tags of the segments between two nodes.
pub struct UpdateEdgeTagsPayload {
    pub from_node_id: u64,
    pub to_node_id: u64,
    pub lanes: u8,
    pub oneway: bool,
    pub lane_directions: Vec<String>,
}

/// Saved lane tags of a segment.
pub struct EdgeTagOverride {
    pub lanes: u8,
    pub oneway: bool,
    pub lane_directions: Vec<String>,
}

/// Saved edits: where the nodes are, which segments were added, and the lane tags by key.
pub struct MapOverrides {
    pub node_positions: Vec<(u64, (i64, i64))>,
    pub added_edges: Vec<(u64, u64)>,
    pub deleted_edges: Vec<(u64, u64)>,
    pub edge_tag_overrides: Vec<(String, EdgeTagOverride)>,
}

/// The names of lane directions.
pub open spec fn direction_labels(dirs: Seq<LaneDirection>) -> Seq<Seq<char>> {
    dirs.map_values(|d: LaneDirection| lane_direction_label_text(d))
}

/// The texts of a list of strings.
pub open spec fn texts(list: Seq<String>) -> Seq<Seq<char>> {
    list.map_values(|s: String| s@)
}

/// The directions that a list of names stands for.
pub open spec fn directions_named(list: Seq<String>) -> Seq<LaneDirection> {
    list.map_values(|s: String| lane_direction_named(s@))
}

fn label_directions(dirs: &Vec<LaneDirection>) -> (r: Vec<String>)
    ensures
        texts(r@) == direction_labels(dirs@),
{
    let mut out: Vec<String> = Vec::new();
    let mut i: usize = 0;
    assert(texts(out@) =~= direction_labels(dirs@).take(0));
    while i < dirs.len()
        invariant
            i <= dirs.len(),
            texts(out@) == direction_labels(dirs@).take(i as int),
        decreases dirs.len() - i,
    {
        let ghost before = out@;
        out.push(lane_direction_label(dirs[i]).to_owned());
        i = i + 1;
        assert(texts(out@) =~= texts(before).push(out@.last()@));
        assert(texts(out@) =~= direction_labels(dirs@).take(i as int));
    }
    assert(direction_labels(dirs@).take(i as int) =~= direction_labels(dirs@));
    out
}

/// The directions that a list of names stands for.
pub fn parse_lane_directions(names: &Vec<String>) -> (r: Vec<LaneDirection>)
    ensures
        r@ == directions_named(names@),
{
    let mut out: Vec<LaneDirection> = Vec::new();
    let mut i: usize = 0;
    assert(out@ =~= directions_named(names@).take(0));
    while i < names.len()
        invariant
            i <= names.len(),
            out@ == directions_named(names@).take(i as int),
        decreases names.len() - i,
    {
        out.push(parse_lane_direction(names[i].as_str()));
        i = i + 1;
        assert(out@ =~= directions_named(names@).take(i as int));
    }
    assert(directions_named(names@).take(i as int) =~= directions_named(names@));
    out
}

fn copy_ids(ids: &Vec<u64>) -> (r: Vec<u64>)
    ensures
        r@ == ids@,
{
    let mut out: Vec<u64> = Vec::new();
    let mut i: usize = 0;
    while i < ids.len()
        invariant
            i <= ids.len(),
            out@ == ids@.take(i as int),
        decreases ids.len() - i,
    {
        out.push(ids[i]);
        i = i + 1;
        assert(out@ =~= ids@.take(i as int));
    }
    assert(ids@.take(i as int) =~= ids@);
    out
}

fn copy_points(points: &Vec<(i64, i64)>) -> (r: Vec<(i64, i64)>)
    ensures
        r@ == points@,
{
    let mut out: Vec<(i64, i64)> = Vec::new();
    let mut i: usize = 0;
    while i < points.len()
        invariant
            i <= points.len(),
            out@ == points@.take(i as int),
        decreases points.len() - i,
    {
        out.push(points[i]);
        i = i + 1;
        assert(out@ =~= points@.take(i as int));
    }
    assert(points@.take(i as int) =~= points@);
    out
}

/// Whether `d` shows the node.
pub open spec fn shows_node(d: NodeData, n: RoadNode) -> bool {
    d.id == n.osm_id && d.lat == n.lat && d.lng == n.lng && d.intersection_type@
        == intersection_label_text(n.intersection_type)
}

/// Whether `d` shows segment `e` of the map.
pub open spec fn shows_edge(d: EdgeData, map: MapData, e: int) -> bool {
    let edge = map.edges@[e];
    &&& d.id == e
    &&& d.from == map.nodes@[map.graph.ends()[e].0].osm_id
    &&& d.to == map.nodes@[map.graph.ends()[e].1].osm_id
    &&& d.lanes == edge.lanes
    &&& d.max_speed == edge.max_speed
    &&& d.oneway == edge.oneway
    &&& d.infra_type@ == infra_label_text(edge.infra_type)
    &&& d.layer == edge.layer
    &&& d.length == edge.length
    &&& d.road_type@ == edge.road_type@
    &&& texts(d.lane_directions@) == direction_labels(edge.lane_directions@)
}

/// Whether `d` shows the building.
pub open spec fn shows_building(d: BuildingData, b: OdBuilding) -> bool {
    d.id == b.id && d.polygon@ == b.polygon@ && d.building_type@ == b.building_type.label()
}

/// Whether `d` shows the restriction.
pub open spec fn shows_restriction(d: TurnRestrictionData, r: TurnRestriction) -> bool {
    d.from_way_id == r.from_way_id && d.via_node_id == r.via_node_id && d.to_way_id == r.to_way_id
        && d.kind@ == restriction_label_text(r.kind)
}

/// Whether `d` shows the lane.
pub open spec fn shows_lane(d: LaneData, l: Lane) -> bool {
    &&& d.id == l.id
    &&& d.width == l.width
    &&& d.connections@ == l.connections@
    &&& d.conflict_areas@ == l.conflict_areas@
    &&& d.length == l.length
    &&& d.from_node_osm_id == l.from_node_osm_id
    &&& d.to_node_osm_id == l.to_node_osm_id
    &&& d.lane_index == l.lane_index
    &&& d.is_connector == (l.edge_id == NO_EDGE)
}

/// The stops among the tram nodes, as the front end sees them.
pub open spec fn stops_shown(nodes: Seq<TramNode>) -> Seq<TramStopData>
    decreases nodes.len(),
{
    if nodes.len() == 0 {
        Seq::empty()
    } else {
        let before = stops_shown(nodes.drop_last());
        let n = nodes.last();
        if n.is_stop {
            before.push(TramStopData { id: n.id, lat: n.lat, lng: n.lng, dwell: n.stop_dwell })
        } else {
            before
        }
    }
}

/// The whole map is shown.
pub open spec fn shows_map(r: MapDataResponse, map: MapData) -> bool {
    &&& r.nodes@.len() == map.nodes@.len()
    &&& forall|i: int|
        0 <= i < map.nodes@.len() ==> shows_node(#[trigger] r.nodes@[i], map.nodes@[i])
    &&& r.edges@.len() == map.edges@.len()
    &&& forall|i: int| 0 <= i < map.edges@.len() ==> shows_edge(#[trigger] r.edges@[i], map, i)
    &&& r.spawn_points@ == map.spawn_points@.map_values(
        |p: usize| (map.nodes@[p as int].lat, map.nodes@[p as int].lng),
    )
    &&& r.bbox == map.bbox
    &&& r.buildings@.len() == map.od_buildings@.len()
    &&& forall|i: int|
        0 <= i < map.od_buildings@.len() ==> shows_building(
            #[trigger] r.buildings@[i],
            map.od_buildings@[i],
        )
    &&& r.restrictions@.len() == map.restrictions@.len()
    &&& forall|i: int|
        0 <= i < map.restrictions@.len() ==> shows_restriction(
            #[trigger] r.restrictions@[i],
            map.restrictions@[i],
        )
    &&& r.tram_stops@ == stops_shown(map.tram_data.nodes@)
    &&& r.turn_connectors@ == map.turn_connectors@
    &&& r.lanes@.len() == map.lanes.lanes@.len()
    &&& forall|i: int|
        0 <= i < map.lanes.lanes@.len() ==> shows_lane(
            #[trigger] r.lanes@[i],
            map.lanes.lanes@[i],
        )
    &&& r.conflict_areas@ == map.conflict_areas@
}

fn show_nodes(map: &MapData) -> (r: Vec<NodeData>)
    ensures
        r@.len() == map.nodes@.len(),
        forall|i: int|
            0 <= i < map.nodes@.len() ==> shows_node(#[trigger] r@[i], map.nodes@[i]),
{
    let mut out: Vec<NodeData> = Vec::new();
    let mut i: usize = 0;
    while i < map.nodes.len()
        invariant
            i <= map.nodes.len(),
            out@.len() == i,
            forall|k: int| 0 <= k < i ==> shows_node(#[trigger] out@[k], map.nodes@[k]),
        decreases map.nodes.len() - i,
    {
        let n: RoadNode = map.nodes[i];
        out.push(
            NodeData {
                id: n.osm_id,
                lat: n.lat,
                lng: n.lng,
                intersection_type: intersection_label(n.intersection_type).to_owned(),
            },
        );
        i = i + 1;
    }
    out
}

fn show_edges(map: &MapData) -> (r: Vec<EdgeData>)
    requires
        map.wf(),
    ensures
        r@.len() == map.edges@.len(),
        forall|i: int| 0 <= i < map.edges@.len() ==> shows_edge(#[trigger] r@[i], *map, i),
{
    let mut out: Vec<EdgeData> = Vec::new();
    let mut e: usize = 0;
    while e < map.edges.len()
        invariant
            map.wf(),
            e <= map.edges.len(),
            out@.len() == e,
            forall|k: int| 0 <= k < e ==> shows_edge(#[trigger] out@[k], *map, k),
        decreases map.edges.len() - e,
    {
        let ends: (usize, usize) = match map.graph.edge_endpoints(e) {
            Some(p) => p,
            None => (0, 0),
        };
        let edge: &RoadEdge = &map.edges[e];
        let data: EdgeData = EdgeData {
            id: e as u64,
            from: map.nodes[ends.0].osm_id,
            to: map.nodes[ends.1].osm_id,
            lanes: edge.lanes,
            max_speed: edge.max_speed,
            oneway: edge.oneway,
            infra_type: infra_label(edge.infra_type).to_owned(),
            layer: edge.layer,
            length: edge.length,
            road_type: edge.road_type.clone(),
            lane_directions: label_directions(&edge.lane_directions),
        };
        assert(shows_edge(data, *map, e as int));
        out.push(data);
        e = e + 1;
    }
    out
}

fn show_spawn_points(map: &MapData) -> (r: Vec<(i64, i64)>)
    requires
        map.wf(),
    ensures
        r@ == map.spawn_points@.map_values(
            |p: usize| (map.nodes@[p as int].lat, map.nodes@[p as int].lng),
        ),
{
    let ghost goal = map.spawn_points@.map_values(
        |p: usize| (map.nodes@[p as int].lat, map.nodes@[p as int].lng),
    );
    let mut out: Vec<(i64, i64)> = Vec::new();
    let mut i: usize = 0;
    while i < map.spawn_points.len()
        invariant
            map.wf(),
            goal == map.spawn_points@.map_values(
                |p: usize| (map.nodes@[p as int].lat, map.nodes@[p as int].lng),
            ),
            i <= map.spawn_points.len(),
            out@ == goal.take(i as int),
        decreases map.spawn_points.len() - i,
    {
        let p: usize = map.spawn_points[i];
        out.push((map.nodes[p].lat, map.nodes[p].lng));
        i = i + 1;
        assert(out@ =~= goal.take(i as int));
    }
    assert(goal.take(i as int) =~= goal);
    out
}

fn show_buildings(map: &MapData) -> (r: Vec<BuildingData>)
    ensures
        r@.len() == map.od_buildings@.len(),
        forall|i: int|
            0 <= i < map.od_buildings@.len() ==> shows_building(
                #[trigger] r@[i],
                map.od_buildings@[i],
            ),
{
    let mut out: Vec<BuildingData> = Vec::new();
    let mut i: usize = 0;
    while i < map.od_buildings.len()
        invariant
            i <= map.od_buildings.len(),
            out@.len() == i,
            forall|k: int|
                0 <= k < i ==> shows_building(#[trigger] out@[k], map.od_buildings@[k]),
        decreases map.od_buildings.len() - i,
    {
        let b: &OdBuilding = &map.od_buildings[i];
        out.push(
            BuildingData {
                id: b.id,
                polygon: copy_points(&b.polygon),
                building_type: b.building_type.as_str().to_owned(),
            },
        );
        i = i + 1;
    }
    out
}

fn show_restrictions(map: &MapData) -> (r: Vec<TurnRestrictionData>)
    ensures
        r@.len() == map.restrictions@.len(),
        forall|i: int|
            0 <= i < map.restrictions@.len() ==> shows_restriction(
                #[trigger] r@[i],
                map.restrictions@[i],
            ),
{
    let mut out: Vec<TurnRestrictionData> = Vec::new();
    let mut i: usize = 0;
    while i < map.restrictions.len()
        invariant
            i <= map.restrictions.len(),
            out@.len() == i,
            forall|k: int|
                0 <= k < i ==> shows_restriction(#[trigger] out@[k], map.restrictions@[k]),
        decreases map.restrictions.len() - i,
    {
        let r: TurnRestriction = map.restrictions[i];
        out.push(
            TurnRestrictionData {
                from_way_id: r.from_way_id,
                via_node_id: r.via_node_id,
                to_way_id: r.to_way_id,
                kind: restriction_label(r.kind).to_owned(),
            },
        );
        i = i + 1;
    }
    out
}

fn show_stops(nodes: &Vec<TramNode>) -> (r: Vec<TramStopData>)
    ensures
        r@ == stops_shown(nodes@),
{
    let mut out: Vec<TramStopData> = Vec::new();
    let mut i: usize = 0;
    assert(nodes@.take(0) =~= Seq::<TramNode>::empty());
    while i < nodes.len()
        invariant
            i <= nodes.len(),
            out@ == stops_shown(nodes@.take(i as int)),
        decreases nodes.len() - i,
    {
        assert(nodes@.take(i + 1).drop_last() =~= nodes@.take(i as int));
        assert(nodes@.take(i + 1).last() == nodes@[i as int]);
        let n: TramNode = nodes[i];
        if n.is_stop {
            out.push(TramStopData { id: n.id, lat: n.lat, lng: n.lng, dwell: n.stop_dwell });
        }
        i = i + 1;
    }
    assert(nodes@.take(i as int) =~= nodes@);
    out
}

fn show_lanes(lanes: &Vec<Lane>) -> (r: Vec<LaneData>)
    ensures
        r@.len() == lanes@.len(),
        forall|i: int| 0 <= i < lanes@.len() ==> shows_lane(#[trigger] r@[i], lanes@[i]),
{
    let mut out: Vec<LaneData> = Vec::new();
    let mut i: usize = 0;
    while i < lanes.len()
        invariant
            i <= lanes.len(),
            out@.len() == i,
            forall|k: int| 0 <= k < i ==> shows_lane(#[trigger] out@[k], lanes@[k]),
        decreases lanes.len() - i,
    {
        let l: &Lane = &lanes[i];
        out.push(
            LaneData {
                id: l.id,
                width: l.width,
                connections: copy_ids(&l.connections),
                conflict_areas: copy_ids(&l.conflict_areas),
                length: l.length,
                from_node_osm_id: l.from_node_osm_id,
                to_node_osm_id: l.to_node_osm_id,
                lane_index: l.lane_index,
                is_connector: l.edge_id == NO_EDGE,
            },
        );
        i = i + 1;
    }
    out
}

/// The map as the front end sees it.
pub fn build_map_response(map: &MapData) -> (r: MapDataResponse)
    requires
        map.wf(),
    ensures
        shows_map(r, *map),
{
    let mut turn_connectors: Vec<TurnConnector> = Vec::new();
    let mut i: usize = 0;
    while i < map.turn_connectors.len()
        invariant
            i <= map.turn_connectors.len(),
            turn_connectors@ == map.turn_connectors@.take(i as int),
        decreases map.turn_connectors.len() - i,
    {
        turn_connectors.push(map.turn_connectors[i]);
        i = i + 1;
        assert(turn_connectors@ =~= map.turn_connectors@.take(i as int));
    }
    assert(map.turn_connectors@.take(i as int) =~= map.turn_connectors@);
    let mut conflict_areas: Vec<ConflictArea> = Vec::new();
    let mut k: usize = 0;
    while k < map.conflict_areas.len()
        invariant
            k <= map.conflict_areas.len(),
            conflict_areas@ == map.conflict_areas@.take(k as int),
        decreases map.conflict_areas.len() - k,
    {
        let c: &ConflictArea = &map.conflict_areas[k];
        conflict_areas.push(ConflictArea { id: c.id, lane_ids: c.lane_ids });
        k = k + 1;
        assert(conflict_areas@ =~= map.conflict_areas@.take(k as int));
    }
    assert(map.conflict_areas@.take(k as int) =~= map.conflict_areas@);
    MapDataResponse {
        nodes: show_nodes(map),
        edges: show_edges(map),
        spawn_points: show_spawn_points(map),
        bbox: map.bbox,
        buildings: show_buildings(map),
        restrictions: show_restrictions(map),
        tram_stops: show_stops(&map.tram_data.nodes),
        turn_connectors,
        lanes: show_lanes(&map.lanes.lanes),
        conflict_areas,
    }
}

/// The ends of the segments among the first `n` that the editor added.
pub open spec fn added_segments(map: MapData, n: int) -> Seq<(u64, u64)>
    decreases n,
{
    if n <= 0 {
        Seq::empty()
    } else {
        let before = added_segments(map, n - 1);
        if map.edges@[n - 1].osm_id == 0 {
            before.push(segment_ids(map, n - 1))
        } else {
            before
        }
    }
}

/// The ids of the nodes that a segment joins.
pub open spec fn segment_ids(map: MapData, e: int) -> (u64, u64) {
    (map.nodes@[map.graph.ends()[e].0].osm_id, map.nodes@[map.graph.ends()[e].1].osm_id)
}

/// Whether an entry holds the lane tags of segment `e`.
pub open spec fn tags_saved(entry: (String, EdgeTagOverride), map: MapData, e: int) -> bool {
    let ids = segment_ids(map, e);
    &&& entry.0@ == edge_key(ids.0, ids.1)
    &&& entry.1.lanes == map.edges@[e].lanes
    &&& entry.1.oneway == map.edges@[e].oneway
    &&& texts(entry.1.lane_directions@) == direction_labels(map.edges@[e].lane_directions@)
}

/// The edits to save: every node position, the segments that the editor added, and the lane
/// tags of every segment in segment order.
pub fn build_overrides(map: &MapData) -> (r: MapOverrides)
    requires
        map.wf(),
    ensures
        r.node_positions@ == map.nodes@.map_values(|n: RoadNode| (n.osm_id, (n.lat, n.lng))),
        r.added_edges@ == added_segments(*map, map.edges@.len() as int),
        r.deleted_edges@.len() == 0,
        r.edge_tag_overrides@.len() == map.edges@.len(),
        forall|e: int|
            0 <= e < map.edges@.len() ==> tags_saved(
                #[trigger] r.edge_tag_overrides@[e],
                *map,
                e,
            ),
{
    let ghost goal = map.nodes@.map_values(|n: RoadNode| (n.osm_id, (n.lat, n.lng)));
    let mut node_positions: Vec<(u64, (i64, i64))> = Vec::new();
    let mut i: usize = 0;
    while i < map.nodes.len()
        invariant
            i <= map.nodes.len(),
            goal == map.nodes@.map_values(|n: RoadNode| (n.osm_id, (n.lat, n.lng))),
            node_positions@ == goal.take(i as int),
        decreases map.nodes.len() - i,
    {
        let n: RoadNode = map.nodes[i];
        node_positions.push((n.osm_id, (n.lat, n.lng)));
        i = i + 1;
        assert(node_positions@ =~= goal.take(i as int));
    }
    assert(goal.take(i as int) =~= goal);
    let mut added_edges: Vec<(u64, u64)> = Vec::new();
    let mut edge_tag_overrides: Vec<(String, EdgeTagOverride)> = Vec::new();
    let mut e: usize = 0;
    while e < map.edges.len()
        invariant
            map.wf(),
            e <= map.edges.len(),
            added_edges@ == added_segments(*map, e as int),
            edge_tag_overrides@.len() == e,
            forall|k: int| 0 <= k < e ==> tags_saved(#[trigger] edge_tag_overrides@[k], *map, k),
        decreases map.edges.len() - e,
    {
        let ends: (usize, usize) = match map.graph.edge_endpoints(e) {
            Some(p) => p,
            None => (0, 0),
        };
        let from: u64 = map.nodes[ends.0].osm_id;
        let to: u64 = map.nodes[ends.1].osm_id;
        if map.edges[e].osm_id == 0 {
            added_edges.push((from, to));
        }
        let tags: EdgeTagOverride = EdgeTagOverride {
            lanes: map.edges[e].lanes,
            oneway: map.edges[e].oneway,
            lane_directions: label_directions(&map.edges[e].lane_directions),
        };
        let entry: (String, EdgeTagOverride) = (encode_edge_key(from, to), tags);
        assert(tags_saved(entry, *map, e as int));
        edge_tag_overrides.push(entry);
        e = e + 1;
    }
    MapOverrides { node_positions, added_edges, deleted_edges: Vec::new(), edge_tag_overrides }
}

/// Applies saved lane tags to the segments that their key names; a text that is no key
/// changes nothing.
pub fn apply_tag_override(map: &mut MapData, key: &str, tags: &EdgeTagOverride)
    requires
        old(map).wf(),
    ensures
        final(map).wf(),
        match edge_key_ids(key@) {
            Some(ids) => retagged(
                *old(map),
                *final(map),
                ids.0,
                ids.1,
                tags.lanes,
                tags.oneway,
                directions_named(tags.lane_directions@),
            ) && final(map).turn_connectors == old(map).turn_connectors,
            None => *final(map) == *old(map),
        },
{
    match decode_edge_key(key) {
        Some(ids) => {
            let directions: Vec<LaneDirection> = parse_lane_directions(&tags.lane_directions);
            map.set_lane_tags(ids.0, ids.1, tags.lanes, tags.oneway, &directions);
        },
        None => {},
    }
}

/// Saving the lane tags of a segment and applying them again leaves the tags of that segment
/// as they were.
pub proof fn law_saved_tags_restore(
    map: MapData,
    after: MapData,
    entry: (String, EdgeTagOverride),
    e: int,
)
    requires
        map.wf(),
        0 <= e < map.edges@.len(),
        map.edges@[e].lanes >= 1,
        tags_saved(entry, map, e),
        edge_key_ids(entry.0@) matches Some(ids) && retagged(
            map,
            after,
            ids.0,
            ids.1,
            entry.1.lanes,
            entry.1.oneway,
            directions_named(entry.1.lane_directions@),
        ),
    ensures
        after.edges@[e]@ == map.edges@[e]@,
{
    let ids = segment_ids(map, e);
    law_edge_key_round_trip(ids.0, ids.1);
    let dirs = map.edges@[e].lane_directions@;
    let names = entry.1.lane_directions@;
    assert(directions_named(names) =~= dirs) by {
        assert(texts(names).len() == direction_labels(dirs).len());
        assert forall|i: int| 0 <= i < dirs.len() implies directions_named(names)[i] == dirs[i] by {
            assert(texts(names)[i] == direction_labels(dirs)[i]);
            law_lane_direction_round_trip(dirs[i]);
        }
    }
    map.graph.lemma_wf();
    let nid = node_ids(map.nodes@);
    assert(0 <= map.graph.ends()[e].0 < map.graph.nodes());
    assert(nid[map.graph.ends()[e].0] == ids.0);
    assert(nid[map.graph.ends()[e].1] == ids.1);
    assert(joins(map.graph.ends()[e], nid, ids.0, ids.1));
    assert(after.edges@[e]@ == map.edges@[e]@);
}

/// Every segment that the editor added is saved as added.
pub proof fn law_added_segments_are_saved(map: MapData, n: int, e: int)
    requires
        0 <= e < n,
        map.edges@[e].osm_id == 0,
    ensures
        added_segments(map, n).contains(segment_ids(map, e)),
    decreases n,
{
    let before = added_segments(map, n - 1);
    let now = added_segments(map, n);
    if e < n - 1 {
        law_added_segments_are_saved(map, n - 1, e);
        let k = choose|k: int| 0 <= k < before.len() && before[k] == segment_ids(map, e);
        assert(now[k] == segment_ids(map, e));
    } else {
        assert(now[before.len() as int] == segment_ids(map, e));
    }
}

} // verus!
