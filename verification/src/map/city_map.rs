//! A map made from a street network: its junctions, its roads and the lanes that meet.

use vstd::prelude::*;
use vstd::string::*;

use crate::map::builders::{road_plans, RoadPlan};
use crate::map::id_index::{find_place, place_of, IdIndex};
use crate::map::lane_graph::{lanes_before, MAX_ROAD_LANES};
use crate::map::map_data::{
    assemble, boundary_places, bounds, find_boundary_nodes, find_spawn_points, spawn_places,
    MapData,
};
use crate::map::polyline::{
    all_in_plane, find_between, find_nearest_part, in_plane, nearest_part, place_between,
    square_between, step_square, MAX_PLACE,
};
use crate::map::road_network::{
    build_lane_directions, decision_points, decision_points_at, lane_directions_of, InfraType,
    IntersectionType, RoadEdge, RoadEdgeView, RoadNode,
};
use crate::simulation::bezier_smooth::BezierPath;
use crate::simulation::direction::{
    cosine_at_least, heading_of, is_cosine_at_least, reduced, Heading,
};
use crate::units::square_distance;
use crate::util::text::{decimal_text, push_decimal};

verus! {

/// The speed of a road without a limit, 50 km/h.
pub const DEFAULT_CITY_SPEED: i64 = 13_900_000;

/// How far a simplified line may be from the line that it stands for.
pub const MAX_DEVIATION: i64 = 1_250_000;

/// The square of the cosine of 0.12 radians, in millionths.
pub const SMALL_BEND_COSINE_SQUARE: u32 = 985_669;

/// The width of a lane of a city map.
pub const CITY_LANE_WIDTH: i64 = 3_500_000;

/// A junction of a street network.
pub struct StreetIntersection {
    pub id: u64,
    /// The first of the map nodes that it was made from.
    pub osm_id: Option<i64>,
    pub lat: i64,
    pub lng: i64,
    pub signalled: bool,
    /// The roads that meet here.
    pub roads: Vec<u64>,
}

/// What a lane of a road is for.
#[derive(Clone, Copy, Debug, PartialEq, Eq, Structural)]
pub enum StreetLane {
    Driving,
    Other,
}

/// A road of a street network, from one junction to another.
pub struct StreetRoad {
    pub id: u64,
    /// The first of the map ways that it was made from.
    pub osm_id: Option<i64>,
    pub src: u64,
    pub dst: u64,
    pub lanes: Vec<StreetLane>,
    pub speed_limit: Option<i64>,
    pub length: i64,
    pub oneway: bool,
    pub layer: i8,
    pub highway_type: String,
}

/// A street network: its junctions and roads, each in the order of their ids.
pub struct StreetNetwork {
    pub intersections: Vec<StreetIntersection>,
    pub roads: Vec<StreetRoad>,
}

/// The ids of the junctions.
pub open spec fn intersection_ids(list: Seq<StreetIntersection>) -> Seq<u64> {
    list.map_values(|x: StreetIntersection| x.id)
}

/// How many lanes are for driving.
pub open spec fn driving_count(lanes: Seq<StreetLane>) -> nat
    decreases lanes.len(),
{
    if lanes.len() == 0 {
        0
    } else if lanes.last() == StreetLane::Driving {
        driving_count(lanes.drop_last()) + 1
    } else {
        driving_count(lanes.drop_last())
    }
}

/// The lanes of a road: those for driving, at least one, as far as a byte counts.
pub open spec fn city_lanes(road: StreetRoad) -> u8 {
    let n = driving_count(road.lanes@);
    if n == 0 {
        1
    } else {
        (n % 256) as u8
    }
}

/// The node of a junction.
pub open spec fn city_node(x: StreetIntersection) -> RoadNode {
    RoadNode {
        osm_id: match x.osm_id {
            Some(n) => n as u64,
            None => x.id,
        },
        lat: x.lat,
        lng: x.lng,
        intersection_type: if x.signalled {
            IntersectionType::TrafficLight
        } else {
            IntersectionType::Plain
        },
    }
}

/// The segment of a road, in either direction.
pub open spec fn city_edge(road: StreetRoad) -> RoadEdgeView {
    let p = decision_points_at(road.length as int);
    RoadEdgeView {
        osm_id: match road.osm_id {
            Some(n) => n as u64,
            None => road.id,
        },
        lanes: city_lanes(road),
        max_speed: match road.speed_limit {
            Some(s) => s,
            None => DEFAULT_CITY_SPEED,
        },
        oneway: road.oneway,
        infra_type: InfraType::Normal,
        layer: road.layer,
        length: road.length,
        lane_directions: lane_directions_of(city_lanes(road) as int),
        decision_points: (p.0 as i64, p.1 as i64, p.2 as i64),
        road_type: road.highway_type@,
        has_tram_track: false,
    }
}

/// The segments of some roads between junctions with the given ids: one along each road whose
/// junctions are known, and one back where it is not one-way.
pub open spec fn city_roads(ids: Seq<u64>, roads: Seq<StreetRoad>) -> Seq<RoadPlan>
    decreases roads.len(),
{
    if roads.len() == 0 {
        Seq::empty()
    } else {
        let before = city_roads(ids, roads.drop_last());
        let road = roads.last();
        if ids.contains(road.src) && ids.contains(road.dst) {
            let a = place_of(ids, road.src);
            let b = place_of(ids, road.dst);
            let on = before.push(RoadPlan { from: a, to: b, edge: city_edge(road) });
            if road.oneway {
                on
            } else {
                on.push(RoadPlan { from: b, to: a, edge: city_edge(road) })
            }
        } else {
            before
        }
    }
}

fn count_driving(lanes: &Vec<StreetLane>) -> (r: usize)
    ensures
        r == driving_count(lanes@),
{
    let mut n: usize = 0;
    let mut i: usize = 0;
    assert(lanes@.take(0) =~= Seq::<StreetLane>::empty());
    while i < lanes.len()
        invariant
            i <= lanes@.len(),
            n <= i,
            n == driving_count(lanes@.take(i as int)),
        decreases lanes.len() - i,
    {
        assert(lanes@.take(i + 1).drop_last() =~= lanes@.take(i as int));
        assert(lanes@.take(i + 1).last() == lanes@[i as int]);
        if lanes[i] == StreetLane::Driving {
            n = n + 1;
        }
        i = i + 1;
    }
    assert(lanes@.take(i as int) =~= lanes@);
    n
}

fn make_city_edge(road: &StreetRoad) -> (r: RoadEdge)
    ensures
        r@ == city_edge(*road),
        r.lanes == city_lanes(*road),
{
    let n: usize = count_driving(&road.lanes);
    let lanes: u8 = if n == 0 {
        1
    } else {
        (n % 256) as u8
    };
    let osm_id: u64 = match road.osm_id {
        Some(n) =>
        #[verifier::truncate]
        (n as u64),
        None => road.id,
    };
    RoadEdge {
        osm_id,
        lanes,
        max_speed: match road.speed_limit {
            Some(s) => s,
            None => DEFAULT_CITY_SPEED,
        },
        oneway: road.oneway,
        infra_type: InfraType::Normal,
        layer: road.layer,
        length: road.length,
        lane_directions: build_lane_directions(lanes),
        decision_points: decision_points(road.length),
        road_type: road.highway_type.as_str().to_owned(),
        has_tram_track: false,
    }
}

/// What a street network makes of a map. Nodes are found by the ids of their junctions.
pub struct CityNetwork {
    pub nodes: Vec<RoadNode>,
    pub node_index_map: IdIndex,
    pub ends: Vec<(usize, usize)>,
    pub edges: Vec<RoadEdge>,
}

impl CityNetwork {
    /// The segments lead between nodes, and each node has an id.
    pub open spec fn wf(&self) -> bool {
        &&& self.node_index_map.wf()
        &&& self.node_index_map@.len() == self.nodes@.len()
        &&& self.ends@.len() == self.edges@.len()
        &&& forall|k: int|
            0 <= k < self.ends@.len() ==> (#[trigger] self.ends@[k]).0 < self.nodes@.len()
                && self.ends@[k].1 < self.nodes@.len()
    }
}

/// Reads nodes and segments off a street network.
pub fn build_map_data_from_network(network: &StreetNetwork) -> (r: CityNetwork)
    requires
        intersection_ids(network.intersections@).no_duplicates(),
    ensures
        r.wf(),
        r.nodes@ == network.intersections@.map_values(|x: StreetIntersection| city_node(x)),
        r.node_index_map@ == intersection_ids(network.intersections@),
        road_plans(r.ends@, r.edges@) == city_roads(
            intersection_ids(network.intersections@),
            network.roads@,
        ),
{
    let ghost list = network.intersections@;
    let ghost ids = intersection_ids(list);
    let ghost goal = list.map_values(|x: StreetIntersection| city_node(x));
    let mut nodes: Vec<RoadNode> = Vec::new();
    let mut index: IdIndex = IdIndex::new();
    let mut i: usize = 0;
    while i < network.intersections.len()
        invariant
            i <= network.intersections@.len(),
            list == network.intersections@,
            ids == intersection_ids(list),
            ids.no_duplicates(),
            goal == list.map_values(|x: StreetIntersection| city_node(x)),
            index.wf(),
            nodes@ == goal.take(i as int),
            index@ == ids.take(i as int),
        decreases network.intersections.len() - i,
    {
        let x: &StreetIntersection = &network.intersections[i];
        let osm_id: u64 = match x.osm_id {
            Some(n) =>
            #[verifier::truncate]
            (n as u64),
            None => x.id,
        };
        let intersection_type: IntersectionType = if x.signalled {
            IntersectionType::TrafficLight
        } else {
            IntersectionType::Plain
        };
        nodes.push(RoadNode { osm_id, lat: x.lat, lng: x.lng, intersection_type });
        proof {
            assert(ids[i as int] == x.id);
            if index@.contains(x.id) {
                let k = choose|k: int| 0 <= k < index@.len() && index@[k] == x.id;
                assert(ids[k] == ids[i as int]);
            }
        }
        index.push(x.id);
        i = i + 1;
        proof {
            assert(goal[i - 1] == city_node(list[i - 1]));
            assert(nodes@ =~= goal.take(i as int));
            assert(index@ =~= ids.take(i as int));
        }
    }
    assert(goal.take(i as int) =~= goal);
    assert(ids.take(i as int) =~= ids);
    let mut ends: Vec<(usize, usize)> = Vec::new();
    let mut edges: Vec<RoadEdge> = Vec::new();
    let mut j: usize = 0;
    proof {
        assert(network.roads@.take(0) =~= Seq::<StreetRoad>::empty());
        assert(road_plans(ends@, edges@) =~= Seq::<RoadPlan>::empty());
    }
    while j < network.roads.len()
        invariant
            j <= network.roads@.len(),
            index.wf(),
            index@ == ids,
            ids.len() == nodes@.len(),
            ends@.len() == edges@.len(),
            forall|k: int|
                0 <= k < ends@.len() ==> (#[trigger] ends@[k]).0 < nodes@.len() && ends@[k].1
                    < nodes@.len(),
            road_plans(ends@, edges@) == city_roads(ids, network.roads@.take(j as int)),
        decreases network.roads.len() - j,
    {
        let road: &StreetRoad = &network.roads[j];
        proof {
            assert(network.roads@.take(j + 1).drop_last() =~= network.roads@.take(j as int));
            assert(network.roads@.take(j + 1).last() == *road);
        }
        match (find_place(&index, road.src), find_place(&index, road.dst)) {
            (Some(a), Some(b)) => {
                push_city_road(&mut ends, &mut edges, a, b, road);
                if !road.oneway {
                    push_city_road(&mut ends, &mut edges, b, a, road);
                }
            },
            _ => {},
        }
        j = j + 1;
    }
    assert(network.roads@.take(j as int) =~= network.roads@);
    CityNetwork { nodes, node_index_map: index, ends, edges }
}

fn push_city_road(
    ends: &mut Vec<(usize, usize)>,
    edges: &mut Vec<RoadEdge>,
    a: usize,
    b: usize,
    road: &StreetRoad,
)
    requires
        old(ends)@.len() == old(edges)@.len(),
    ensures
        final(ends)@ == old(ends)@.push((a, b)),
        final(edges)@.len() == final(ends)@.len(),
        road_plans(final(ends)@, final(edges)@) == road_plans(old(ends)@, old(edges)@).push(
            RoadPlan { from: a as int, to: b as int, edge: city_edge(*road) },
        ),
{
    let edge: RoadEdge = make_city_edge(road);
    ends.push((a, b));
    edges.push(edge);
    assert(road_plans(ends@, edges@) =~= road_plans(old(ends)@, old(edges)@).push(
        RoadPlan { from: a as int, to: b as int, edge: city_edge(*road) },
    ));
}

/// Whether a map can be made of a network: no two nodes stand for one map node, and nodes, segments
/// and lanes can be counted.
pub open spec fn can_assemble(c: CityNetwork) -> bool {
    &&& c.nodes@.map_values(|n: RoadNode| n.osm_id).no_duplicates()
    &&& c.nodes@.len() <= u32::MAX
    &&& c.edges@.len() <= u32::MAX
    &&& lanes_before(c.edges@, c.edges@.len() as int) <= MAX_ROAD_LANES
}

fn ids_differ(nodes: &Vec<RoadNode>) -> (r: bool)
    ensures
        r == nodes@.map_values(|n: RoadNode| n.osm_id).no_duplicates(),
{
    let ghost ids = nodes@.map_values(|n: RoadNode| n.osm_id);
    let mut index: IdIndex = IdIndex::new();
    let mut i: usize = 0;
    while i < nodes.len()
        invariant
            i <= nodes@.len(),
            ids == nodes@.map_values(|n: RoadNode| n.osm_id),
            index.wf(),
            index@ == ids.take(i as int),
        decreases nodes.len() - i,
    {
        let id: u64 = nodes[i].osm_id;
        assert(ids[i as int] == id);
        match index.find(id) {
            Some(k) => {
                proof {
                    assert(ids[k as int] == ids[i as int]);
                }
                return false;
            },
            None => {},
        }
        index.push(id);
        i = i + 1;
        assert(index@ =~= ids.take(i as int));
    }
    proof {
        assert(ids.take(i as int) =~= ids);
        index.lemma_distinct();
    }
    true
}

fn count_lanes(edges: &Vec<RoadEdge>) -> (r: Option<u64>)
    ensures
        match r {
            Some(n) => n == lanes_before(edges@, edges@.len() as int) && n <= MAX_ROAD_LANES,
            None => lanes_before(edges@, edges@.len() as int) > MAX_ROAD_LANES,
        },
{
    let mut n: u64 = 0;
    let mut i: usize = 0;
    while i < edges.len()
        invariant
            i <= edges@.len(),
            n == lanes_before(edges@, i as int),
            n <= MAX_ROAD_LANES,
        decreases edges.len() - i,
    {
        let lanes: u64 = if edges[i].lanes == 0 {
            1
        } else {
            edges[i].lanes as u64
        };
        if n + lanes > MAX_ROAD_LANES {
            proof {
                lemma_lanes_grow(edges@, i + 1, edges@.len() as int);
            }
            return None;
        }
        n = n + lanes;
        i = i + 1;
    }
    Some(n)
}

proof fn lemma_lanes_grow(edges: Seq<RoadEdge>, i: int, n: int)
    requires
        0 <= i <= n <= edges.len(),
    ensures
        lanes_before(edges, i) <= lanes_before(edges, n),
    decreases n - i,
{
    if i < n {
        lemma_lanes_grow(edges, i, n - 1);
    }
}

/// Makes the map of a network, with its lanes laid out; nothing where that cannot be done. Its nodes
/// are found by the ids of their map nodes.
pub fn city_map_data(c: CityNetwork) -> (r: Option<MapData>)
    requires
        c.wf(),
    ensures
        r is Some == can_assemble(c),
        r matches Some(m) ==> {
            &&& m.wf()
            &&& m.nodes == c.nodes
            &&& m.edges == c.edges
            &&& m.graph.ends() == c.ends@.map_values(
                |p: (usize, usize)| (p.0 as int, p.1 as int),
            )
            &&& m.graph.built_in_order()
            &&& bounds(c.nodes@, m.bbox)
            &&& m.spawn_points@ == spawn_places(m.graph, c.nodes@, m.bbox)
            &&& m.boundary_nodes@ == boundary_places(m.graph, c.nodes@, m.bbox)
            &&& m.od_buildings@.len() == 0
            &&& m.restrictions@.len() == 0
            &&& m.tram_data.graph.nodes() == 0
            &&& !m.is_sandbox
            &&& !m.sandbox_simple_cross_tl
            &&& m.lane_width == CITY_LANE_WIDTH
            &&& m.turn_connectors@.len() == 0
            &&& m.lanes.connected_up_to(
                m.graph,
                c.nodes@,
                c.edges@,
                CITY_LANE_WIDTH,
                c.edges@.len() as int,
                0,
            )
            &&& m.conflict_areas@.len() == 0
        },
{
    if !ids_differ(&c.nodes) || c.nodes.len() > u32::MAX as usize || c.edges.len()
        > u32::MAX as usize || count_lanes(&c.edges).is_none() {
        return None;
    }
    let mut m = assemble(
        c.nodes,
        &c.ends,
        c.edges,
        Vec::new(),
        Vec::new(),
        false,
        CITY_LANE_WIDTH,
    );
    let spawn: Vec<usize> = find_spawn_points(&m.graph, &m.nodes, &m.bbox);
    let boundary: Vec<usize> = find_boundary_nodes(&m.graph, &m.nodes, &m.bbox);
    m.spawn_points = spawn;
    m.boundary_nodes = boundary;
    Some(m)
}

/// The name of lane `l` of road `r`.
pub open spec fn lane_name(r: u64, l: u64) -> Seq<char> {
    "r"@ + decimal_text(r as nat) + "_l"@ + decimal_text(l as nat)
}

/// Whether one text comes before another in the order of their characters.
pub open spec fn text_before(a: Seq<char>, b: Seq<char>) -> bool
    decreases a.len(),
{
    if b.len() == 0 {
        false
    } else if a.len() == 0 {
        true
    } else if a[0] != b[0] {
        (a[0] as int) < (b[0] as int)
    } else {
        text_before(a.skip(1), b.skip(1))
    }
}

/// Whether a lane with that name is one of a road that is listed.
pub open spec fn is_named_lane(lanes: Seq<(u64, u64)>, roads: Seq<u64>, name: Seq<char>) -> bool {
    exists|k: int|
        0 <= k < lanes.len() && roads.contains((#[trigger] lanes[k]).0) && name == lane_name(
            lanes[k].0,
            lanes[k].1,
        )
}

/// A list of texts as values.
pub open spec fn texts(v: Seq<String>) -> Seq<Seq<char>> {
    v.map_values(|s: String| s@)
}

/// Whether the texts come one after the other, each once.
pub open spec fn in_order(s: Seq<Seq<char>>) -> bool {
    forall|i: int, j: int| 0 <= i < j < s.len() ==> #[trigger] text_before(s[i], s[j])
}

/// The pairs of a list whose first is one of the first `i` texts, or text `i` with one of the first
/// `j`; the first always comes before the second.
pub open spec fn pairs_up_to(s: Seq<Seq<char>>, i: int, j: int) -> Seq<(Seq<char>, Seq<char>)>
    decreases i + 1, j,
{
    if i < 0 {
        Seq::empty()
    } else if j <= i + 1 {
        pairs_up_to(s, i - 1, s.len() as int)
    } else {
        pairs_up_to(s, i, j - 1).push((s[i], s[j - 1]))
    }
}

/// A junction of the city: the lanes that meet there and all pairs of them that may conflict.
pub struct CityIntersection {
    pub intersection_id: String,
    pub lane_ids: Vec<String>,
    pub conflict_pairs: Vec<(String, String)>,
}

/// `r` describes a junction where the lanes of its roads meet.
pub open spec fn describes(
    r: CityIntersection,
    x: StreetIntersection,
    lanes: Seq<(u64, u64)>,
) -> bool {
    let names = texts(r.lane_ids@);
    &&& r.intersection_id@ == "i"@ + decimal_text(x.id as nat)
    &&& in_order(names)
    &&& forall|t: Seq<char>| #[trigger] names.contains(t) <==> is_named_lane(lanes, x.roads@, t)
    &&& r.conflict_pairs@.map_values(|p: (String, String)| (p.0@, p.1@)) == pairs_up_to(
        names,
        names.len() as int,
        names.len() as int,
    )
}

fn is_before(a: &str, b: &str) -> (r: bool)
    ensures
        r == text_before(a@, b@),
{
    let n: usize = a.unicode_len();
    let m: usize = b.unicode_len();
    let mut i: usize = 0;
    assert(a@.skip(0) =~= a@);
    assert(b@.skip(0) =~= b@);
    while i < n && i < m
        invariant
            n == a@.len(),
            m == b@.len(),
            i <= n,
            i <= m,
            text_before(a@, b@) == text_before(a@.skip(i as int), b@.skip(i as int)),
        decreases n - i,
    {
        let p: char = a.get_char(i);
        let q: char = b.get_char(i);
        assert(a@.skip(i as int)[0] == p);
        assert(b@.skip(i as int)[0] == q);
        assert(a@.skip(i as int).skip(1) =~= a@.skip(i + 1));
        assert(b@.skip(i as int).skip(1) =~= b@.skip(i + 1));
        if p != q {
            return (p as u32) < (q as u32);
        }
        i = i + 1;
    }
    n == i && m > i
}

proof fn lemma_before_irreflexive(a: Seq<char>)
    ensures
        !text_before(a, a),
    decreases a.len(),
{
    if a.len() > 0 {
        lemma_before_irreflexive(a.skip(1));
    }
}

proof fn lemma_before_total(a: Seq<char>, b: Seq<char>)
    ensures
        a == b || text_before(a, b) || text_before(b, a),
    decreases a.len(),
{
    if a.len() == 0 || b.len() == 0 {
        if a.len() == 0 && b.len() == 0 {
            assert(a =~= b);
        }
    } else if a[0] == b[0] {
        lemma_before_total(a.skip(1), b.skip(1));
        if a.skip(1) == b.skip(1) {
            assert(a =~= seq![a[0]] + a.skip(1));
            assert(b =~= seq![b[0]] + b.skip(1));
        }
    } else {
        assert(a[0] as int != b[0] as int);
    }
}

proof fn lemma_before_transitive(a: Seq<char>, b: Seq<char>, c: Seq<char>)
    requires
        text_before(a, b),
        text_before(b, c),
    ensures
        text_before(a, c),
    decreases a.len(),
{
    if a.len() > 0 && a[0] == b[0] && b[0] == c[0] {
        lemma_before_transitive(a.skip(1), b.skip(1), c.skip(1));
    }
}

/// Adds a text to a list in order, unless it is there.
fn add_text(list: &mut Vec<String>, t: String)
    requires
        in_order(texts(old(list)@)),
    ensures
        in_order(texts(final(list)@)),
        forall|x: Seq<char>|
            #[trigger] texts(final(list)@).contains(x) <==> texts(old(list)@).contains(x) || x
                == t@,
{
    let ghost before = texts(list@);
    let mut i: usize = 0;
    while i < list.len() && is_before(list[i].as_str(), t.as_str())
        invariant
            i <= list@.len(),
            list@ == old(list)@,
            before == texts(list@),
            forall|k: int| 0 <= k < i ==> text_before(#[trigger] before[k], t@),
        decreases list.len() - i,
    {
        assert(before[i as int] == list@[i as int]@);
        i = i + 1;
    }
    if i < list.len() && !is_before(t.as_str(), list[i].as_str()) {
        proof {
            lemma_before_total(list@[i as int]@, t@);
            assert(before[i as int] == t@);
            assert(before.contains(t@));
        }
        return ;
    }
    let ghost text = t@;
    list.insert(i, t);
    proof {
        let after = texts(list@);
        assert(after =~= before.insert(i as int, text));
        assert forall|a: int, b: int| 0 <= a < b < after.len() implies #[trigger] text_before(
            after[a],
            after[b],
        ) by {
            if a < i && b < i {
                assert(text_before(before[a], before[b]));
            } else if a < i && b == i {
                assert(text_before(before[a], text));
            } else if a < i {
                assert(text_before(before[a], before[b - 1]));
            } else if a == i {
                assert(text_before(text, before[i as int]));
                if b - 1 > i {
                    assert(text_before(before[i as int], before[b - 1]));
                    lemma_before_transitive(text, before[i as int], before[b - 1]);
                }
            } else {
                assert(text_before(before[a - 1], before[b - 1]));
            }
        }
        assert forall|x: Seq<char>| #[trigger] after.contains(x) <==> before.contains(x) || x
            == text by {
            if after.contains(x) {
                let k = choose|k: int| 0 <= k < after.len() && after[k] == x;
                if k < i {
                    assert(before[k] == x);
                } else if k > i {
                    assert(before[k - 1] == x);
                }
            }
            if before.contains(x) {
                let k = choose|k: int| 0 <= k < before.len() && before[k] == x;
                if k < i {
                    assert(after[k] == x);
                } else {
                    assert(after[k + 1] == x);
                }
            }
            if x == text {
                assert(after[i as int] == x);
            }
        }
    }
}

fn is_listed(roads: &Vec<u64>, road: u64) -> (r: bool)
    ensures
        r == roads@.contains(road),
{
    let mut i: usize = 0;
    while i < roads.len()
        invariant
            i <= roads@.len(),
            forall|k: int| 0 <= k < i ==> roads@[k] != road,
        decreases roads.len() - i,
    {
        if roads[i] == road {
            assert(roads@[i as int] == road);
            return true;
        }
        i = i + 1;
    }
    false
}

fn write_lane_name(r: u64, l: u64) -> (t: String)
    ensures
        t@ == lane_name(r, l),
{
    let mut t: String = "r".to_owned();
    push_decimal(&mut t, r);
    t.append("_l");
    push_decimal(&mut t, l);
    assert(t@ =~= lane_name(r, l));
    t
}

/// What is known of a junction, from the lanes of the city as pairs of a road and a place in it.
pub fn build_city_intersection(x: &StreetIntersection, lanes: &Vec<(u64, u64)>) -> (r:
    CityIntersection)
    ensures
        describes(r, *x, lanes@),
{
    let mut lane_ids: Vec<String> = Vec::new();
    let mut i: usize = 0;
    assert(texts(lane_ids@) =~= Seq::<Seq<char>>::empty());
    while i < lanes.len()
        invariant
            i <= lanes@.len(),
            in_order(texts(lane_ids@)),
            forall|t: Seq<char>|
                #[trigger] texts(lane_ids@).contains(t) <==> is_named_lane(
                    lanes@.take(i as int),
                    x.roads@,
                    t,
                ),
        decreases lanes.len() - i,
    {
        let ghost before = texts(lane_ids@);
        let ghost some = lanes@.take(i as int);
        let ghost more = lanes@.take(i + 1);
        let (road, lane) = lanes[i];
        let listed: bool = is_listed(&x.roads, road);
        if listed {
            let t: String = write_lane_name(road, lane);
            add_text(&mut lane_ids, t);
        }
        i = i + 1;
        proof {
            let after = texts(lane_ids@);
            assert forall|t: Seq<char>| #[trigger] after.contains(t) <==> is_named_lane(
                more,
                x.roads@,
                t,
            ) by {
                assert(before.contains(t) <==> is_named_lane(some, x.roads@, t));
                if is_named_lane(some, x.roads@, t) {
                    let k = choose|k: int|
                        0 <= k < some.len() && x.roads@.contains((#[trigger] some[k]).0) && t
                            == lane_name(some[k].0, some[k].1);
                    assert(more[k] == some[k]);
                }
                if is_named_lane(more, x.roads@, t) {
                    let k = choose|k: int|
                        0 <= k < more.len() && x.roads@.contains((#[trigger] more[k]).0) && t
                            == lane_name(more[k].0, more[k].1);
                    if k < i - 1 {
                        assert(some[k] == more[k]);
                    }
                }
                if listed && t == lane_name(road, lane) {
                    assert(more[i - 1] == (road, lane));
                }
            }
        }
    }
    assert(lanes@.take(i as int) =~= lanes@);
    let conflict_pairs = pair_up(&lane_ids);
    let mut intersection_id: String = "i".to_owned();
    push_decimal(&mut intersection_id, x.id);
    CityIntersection { intersection_id, lane_ids, conflict_pairs }
}

fn pair_up(list: &Vec<String>) -> (r: Vec<(String, String)>)
    ensures
        r@.map_values(|p: (String, String)| (p.0@, p.1@)) == pairs_up_to(
            texts(list@),
            list@.len() as int,
            list@.len() as int,
        ),
{
    let ghost names = texts(list@);
    let n: usize = list.len();
    let mut out: Vec<(String, String)> = Vec::new();
    let mut i: usize = 0;
    assert(out@.map_values(|p: (String, String)| (p.0@, p.1@)) =~= Seq::<
        (Seq<char>, Seq<char>),
    >::empty());
    while i < n
        invariant
            i <= n,
            n == list@.len(),
            names == texts(list@),
            out@.map_values(|p: (String, String)| (p.0@, p.1@)) == pairs_up_to(
                names,
                i - 1,
                n as int,
            ),
        decreases n - i,
    {
        let mut j: usize = i + 1;
        while j < n
            invariant
                i < j <= n,
                n == list@.len(),
                names == texts(list@),
                out@.map_values(|p: (String, String)| (p.0@, p.1@)) == pairs_up_to(
                    names,
                    i as int,
                    j as int,
                ),
            decreases n - j,
        {
            let ghost before = out@.map_values(|p: (String, String)| (p.0@, p.1@));
            out.push((list[i].as_str().to_owned(), list[j].as_str().to_owned()));
            proof {
                assert(names[i as int] == list@[i as int]@);
                assert(names[j as int] == list@[j as int]@);
                assert(out@.map_values(|p: (String, String)| (p.0@, p.1@)) =~= before.push(
                    (names[i as int], names[j as int]),
                ));
            }
            j = j + 1;
        }
        i = i + 1;
    }
    proof {
        assert(pairs_up_to(names, n as int, n as int) == pairs_up_to(names, n - 1, n as int));
    }
    out
}

/// The middle of a lane of a road, as a line of places in the plane.
pub struct LaneLine {
    pub road: u64,
    pub lane: u64,
    pub points: Vec<(i64, i64)>,
}

/// The path of a lane of the city.
pub struct CityLanePath {
    pub lane_id: String,
    pub bezier_path: BezierPath,
}

/// The lanes and junctions of a city.
pub struct CityMap {
    pub lanes: Vec<CityLanePath>,
    pub intersections: Vec<CityIntersection>,
}

/// Whether `b` is further than a deviation from the step from `a` to `c`.
pub open spec fn stands_off(b: (i64, i64), a: (i64, i64), c: (i64, i64), deviation: int) -> bool {
    let q = if step_square(a, c) < 1000 {
        (a.0 as int, a.1 as int)
    } else {
        place_between(a, c, nearest_part(a, c, b))
    };
    square_distance(b.0 as int, b.1 as int, q.0, q.1) > deviation * deviation
}

/// Whether the place `b` between `a` and `c` shapes a line: the line bends there by more than 0.12
/// radians, or it stands off. Steps of less than a millimetre shape nothing.
pub open spec fn shapes_line(a: (i64, i64), b: (i64, i64), c: (i64, i64), deviation: int) -> bool {
    step_square(a, b) >= 1_000_000 && step_square(b, c) >= 1_000_000 && (!cosine_at_least(
        reduced((b.0 - a.0, b.1 - a.1)),
        reduced((c.0 - b.0, c.1 - b.1)),
        SMALL_BEND_COSINE_SQUARE as int,
    ) || stands_off(b, a, c, deviation))
}

/// The places among the first `n` inner ones that shape a line.
pub open spec fn shaping_places(points: Seq<(i64, i64)>, deviation: int, n: int) -> Seq<(i64, i64)>
    decreases n,
{
    if n <= 0 {
        Seq::empty()
    } else {
        let before = shaping_places(points, deviation, n - 1);
        if shapes_line(points[n - 1], points[n], points[n + 1], deviation) {
            before.push(points[n])
        } else {
            before
        }
    }
}

/// A line with its ends and the inner places that shape it.
pub open spec fn simplified(points: Seq<(i64, i64)>, deviation: int) -> Seq<(i64, i64)> {
    if points.len() <= 2 {
        points
    } else {
        (seq![points[0]] + shaping_places(points, deviation, points.len() - 2)).push(points.last())
    }
}

fn is_shaping(a: (i64, i64), b: (i64, i64), c: (i64, i64), deviation: i64) -> (r: bool)
    requires
        in_plane(a),
        in_plane(b),
        in_plane(c),
        0 <= deviation <= MAX_PLACE,
    ensures
        r == shapes_line(a, b, c, deviation as int),
{
    if square_between(a, b) < 1_000_000 || square_between(b, c) < 1_000_000 {
        return false;
    }
    let on: Heading = heading_of(b.0 as i128 - a.0 as i128, b.1 as i128 - a.1 as i128);
    let after: Heading = heading_of(c.0 as i128 - b.0 as i128, c.1 as i128 - b.1 as i128);
    if !is_cosine_at_least(on, after, SMALL_BEND_COSINE_SQUARE) {
        return true;
    }
    let q: (i64, i64) = if square_between(a, c) < 1000 {
        a
    } else {
        find_between(a, c, find_nearest_part(a, c, b))
    };
    proof {
        let d = deviation as int;
        assert(0 <= d * d <= 0x400_0000_0000_0000_0000_0000) by (nonlinear_arith)
            requires
                0 <= d <= 0x2000_0000_0000,
        ;
    }
    square_between(q, b) > deviation as i128 * deviation as i128
}

/// A line with its ends and the inner places that shape it.
pub fn simplify_polyline(points: &Vec<(i64, i64)>, max_deviation: i64) -> (r: Vec<(i64, i64)>)
    requires
        all_in_plane(points@),
        0 <= max_deviation <= MAX_PLACE,
    ensures
        r@ == simplified(points@, max_deviation as int),
{
    let n: usize = points.len();
    let mut out: Vec<(i64, i64)> = Vec::new();
    if n <= 2 {
        let mut i: usize = 0;
        while i < n
            invariant
                i <= n,
                n == points@.len(),
                out@ == points@.take(i as int),
            decreases n - i,
        {
            out.push(points[i]);
            i = i + 1;
            assert(out@ =~= points@.take(i as int));
        }
        assert(points@.take(n as int) =~= points@);
        return out;
    }
    out.push(points[0]);
    let mut i: usize = 1;
    assert(out@ =~= seq![points@[0]] + shaping_places(points@, max_deviation as int, 0));
    while i + 1 < n
        invariant
            1 <= i < n,
            n == points@.len(),
            all_in_plane(points@),
            0 <= max_deviation <= MAX_PLACE,
            out@ == seq![points@[0]] + shaping_places(points@, max_deviation as int, i - 1),
        decreases n - i,
    {
        if is_shaping(points[i - 1], points[i], points[i + 1], max_deviation) {
            out.push(points[i]);
        }
        i = i + 1;
        assert(out@ =~= seq![points@[0]] + shaping_places(points@, max_deviation as int, i - 1));
    }
    out.push(points[n - 1]);
    out
}

/// The lanes that have a path, as pairs of a road and a place in it.
pub open spec fn drawn_lanes(lines: Seq<LaneLine>) -> Seq<(u64, u64)>
    decreases lines.len(),
{
    if lines.len() == 0 {
        Seq::empty()
    } else if lines.last().points@.len() < 2 {
        drawn_lanes(lines.drop_last())
    } else {
        drawn_lanes(lines.drop_last()).push((lines.last().road, lines.last().lane))
    }
}

/// The paths of the lanes: each by the ends and the middle place of its simplified line.
pub open spec fn drawn_paths(lines: Seq<LaneLine>) -> Seq<((i64, i64), (i64, i64), (i64, i64))>
    decreases lines.len(),
{
    if lines.len() == 0 {
        Seq::empty()
    } else if lines.last().points@.len() < 2 {
        drawn_paths(lines.drop_last())
    } else {
        let p = simplified(lines.last().points@, MAX_DEVIATION as int);
        drawn_paths(lines.drop_last()).push((p[0], p[p.len() as int / 2], p.last()))
    }
}

/// The path of a line of at least two places: from its first to its last, bent towards the middle
/// one.
pub fn polyline_to_bezier(points: &Vec<(i64, i64)>) -> (r: BezierPath)
    requires
        points@.len() >= 2,
    ensures
        r.wf(),
        r.p0 == points@[0],
        r.ctrl == points@[points@.len() as int / 2],
        r.p2 == points@.last(),
{
    let n: usize = points.len();
    BezierPath::new(points[0], points[n / 2], points[n - 1])
}

/// `c` holds the lanes of some lines and the junctions of a network.
pub open spec fn shows_city(c: CityMap, network: StreetNetwork, lines: Seq<LaneLine>) -> bool {
    let lanes = drawn_lanes(lines);
    let paths = drawn_paths(lines);
    &&& c.lanes@.len() == lanes.len()
    &&& forall|i: int|
        0 <= i < c.lanes@.len() ==> {
            &&& (#[trigger] c.lanes@[i]).lane_id@ == lane_name(lanes[i].0, lanes[i].1)
            &&& c.lanes@[i].bezier_path.wf()
            &&& (c.lanes@[i].bezier_path.p0, c.lanes@[i].bezier_path.ctrl, c.lanes@[i].bezier_path.p2)
                == paths[i]
        }
    &&& c.intersections@.len() == network.intersections@.len()
    &&& forall|i: int|
        0 <= i < c.intersections@.len() ==> describes(
            #[trigger] c.intersections@[i],
            network.intersections@[i],
            lanes,
        )
}

/// Describes a city from its network and the middles of its lanes.
pub fn build_city_map(network: &StreetNetwork, lines: &Vec<LaneLine>) -> (r: CityMap)
    requires
        forall|i: int| 0 <= i < lines@.len() ==> all_in_plane((#[trigger] lines@[i]).points@),
    ensures
        shows_city(r, *network, lines@),
{
    let mut lanes: Vec<CityLanePath> = Vec::new();
    let mut names: Vec<(u64, u64)> = Vec::new();
    let mut i: usize = 0;
    assert(lines@.take(0) =~= Seq::<LaneLine>::empty());
    while i < lines.len()
        invariant
            i <= lines@.len(),
            forall|k: int| 0 <= k < lines@.len() ==> all_in_plane((#[trigger] lines@[k]).points@),
            names@ == drawn_lanes(lines@.take(i as int)),
            lanes@.len() == names@.len(),
            drawn_paths(lines@.take(i as int)).len() == names@.len(),
            forall|k: int|
                0 <= k < lanes@.len() ==> {
                    &&& (#[trigger] lanes@[k]).lane_id@ == lane_name(names@[k].0, names@[k].1)
                    &&& lanes@[k].bezier_path.wf()
                    &&& (
                        lanes@[k].bezier_path.p0,
                        lanes@[k].bezier_path.ctrl,
                        lanes@[k].bezier_path.p2,
                    ) == drawn_paths(lines@.take(i as int))[k]
                },
        decreases lines.len() - i,
    {
        proof {
            assert(lines@.take(i + 1).drop_last() =~= lines@.take(i as int));
            assert(lines@.take(i + 1).last() == lines@[i as int]);
        }
        let line: &LaneLine = &lines[i];
        if line.points.len() >= 2 {
            let points: Vec<(i64, i64)> = simplify_polyline(&line.points, MAX_DEVIATION);
            let bezier_path: BezierPath = polyline_to_bezier(&points);
            let lane_id: String = write_lane_name(line.road, line.lane);
            names.push((line.road, line.lane));
            lanes.push(CityLanePath { lane_id, bezier_path });
        }
        i = i + 1;
    }
    assert(lines@.take(i as int) =~= lines@);
    let mut intersections: Vec<CityIntersection> = Vec::new();
    let mut j: usize = 0;
    while j < network.intersections.len()
        invariant
            j <= network.intersections@.len(),
            intersections@.len() == j,
            forall|k: int|
                0 <= k < j ==> describes(
                    #[trigger] intersections@[k],
                    network.intersections@[k],
                    names@,
                ),
        decreases network.intersections.len() - j,
    {
        intersections.push(build_city_intersection(&network.intersections[j], &names));
        j = j + 1;
    }
    CityMap { lanes, intersections }
}

/// A simplified line keeps its ends and gains no places.
pub proof fn law_simplified_keeps_ends(points: Seq<(i64, i64)>, deviation: int)
    requires
        points.len() > 0,
    ensures
        simplified(points, deviation)[0] == points[0],
        simplified(points, deviation).last() == points.last(),
        simplified(points, deviation).len() <= points.len(),
{
    if points.len() > 2 {
        lemma_shaping_len(points, deviation, points.len() - 2);
    }
}

proof fn lemma_shaping_len(points: Seq<(i64, i64)>, deviation: int, n: int)
    requires
        0 <= n,
    ensures
        shaping_places(points, deviation, n).len() <= n,
    decreases n,
{
    if n > 0 {
        lemma_shaping_len(points, deviation, n - 1);
    }
}

/// Any two lanes that meet at a junction make exactly one conflict pair: there are as many pairs as
/// two can be chosen.
pub proof fn law_pairs_counted(s: Seq<Seq<char>>)
    ensures
        2 * pairs_up_to(s, s.len() as int, s.len() as int).len() == s.len() * (s.len() - 1),
{
    let n = s.len() as int;
    lemma_pairs_counted(s, n - 1);
    assert(pairs_up_to(s, n, n) == pairs_up_to(s, n - 1, n));
    assert(2 * (n * n) - n * (n + 1) == n * (n - 1)) by (nonlinear_arith);
}

proof fn lemma_row_counted(s: Seq<Seq<char>>, i: int, j: int)
    requires
        0 <= i < j <= s.len(),
    ensures
        pairs_up_to(s, i, j).len() == pairs_up_to(s, i - 1, s.len() as int).len() + j - i - 1,
    decreases j,
{
    if j > i + 1 {
        lemma_row_counted(s, i, j - 1);
    }
}

proof fn lemma_pairs_counted(s: Seq<Seq<char>>, i: int)
    requires
        -1 <= i < s.len(),
    ensures
        2 * pairs_up_to(s, i, s.len() as int).len() == 2 * ((i + 1) * s.len()) - (i + 1) * (i + 2),
    decreases i + 1,
{
    let n = s.len() as int;
    if i >= 0 {
        lemma_pairs_counted(s, i - 1);
        lemma_row_counted(s, i, n);
        let m = i - 1;
        assert((i + 1) * n == (m + 1) * n + n) by (nonlinear_arith)
            requires
                m == i - 1,
        ;
        assert((i + 1) * (i + 2) == (m + 1) * (m + 2) + 2 * i + 2) by (nonlinear_arith)
            requires
                m == i - 1,
        ;
    }
}

/// The lanes of a road are those for driving, and there is always one.
pub proof fn law_driving_lanes(road: StreetRoad)
    requires
        road.lanes@.len() <= 255,
    ensures
        city_lanes(road) == crate::units::larger(
            road.lanes@.filter(|l: StreetLane| l == StreetLane::Driving).len() as int,
            1,
        ),
{
    lemma_driving_counted(road.lanes@);
}

proof fn lemma_driving_counted(lanes: Seq<StreetLane>)
    ensures
        driving_count(lanes) == lanes.filter(|l: StreetLane| l == StreetLane::Driving).len(),
        driving_count(lanes) <= lanes.len(),
    decreases lanes.len(),
{
    reveal(Seq::filter);
    if lanes.len() > 0 {
        lemma_driving_counted(lanes.drop_last());
    }
}

/// Every road between known junctions leads from its first to its second, and back unless it is driven
/// one way only.
pub proof fn law_roads_lead_between_junctions(ids: Seq<u64>, roads: Seq<StreetRoad>, i: int)
    requires
        0 <= i < roads.len(),
        ids.contains(roads[i].src),
        ids.contains(roads[i].dst),
    ensures
        city_roads(ids, roads).contains(
            RoadPlan {
                from: place_of(ids, roads[i].src),
                to: place_of(ids, roads[i].dst),
                edge: city_edge(roads[i]),
            },
        ),
        !roads[i].oneway ==> city_roads(ids, roads).contains(
            RoadPlan {
                from: place_of(ids, roads[i].dst),
                to: place_of(ids, roads[i].src),
                edge: city_edge(roads[i]),
            },
        ),
    decreases roads.len(),
{
    let front = roads.drop_last();
    let before = city_roads(ids, front);
    let now = city_roads(ids, roads);
    let (a, b) = (place_of(ids, roads[i].src), place_of(ids, roads[i].dst));
    let on = RoadPlan { from: a, to: b, edge: city_edge(roads[i]) };
    let back = RoadPlan { from: b, to: a, edge: city_edge(roads[i]) };
    if i < front.len() {
        assert(front[i] == roads[i]);
        law_roads_lead_between_junctions(ids, front, i);
        let k = choose|k: int| 0 <= k < before.len() && before[k] == on;
        assert(now[k] == on);
        if !roads[i].oneway {
            let k = choose|k: int| 0 <= k < before.len() && before[k] == back;
            assert(now[k] == back);
        }
    } else {
        assert(now[before.len() as int] == on);
        if !roads[i].oneway {
            assert(now[before.len() as int + 1] == back);
        }
    }
}

/// Every two lanes of a junction are a pair, the first in order first.
pub proof fn law_all_lanes_are_paired(s: Seq<Seq<char>>, i: int, j: int)
    requires
        0 <= i < j < s.len(),
    ensures
        pairs_up_to(s, s.len() as int, s.len() as int).contains((s[i], s[j])),
{
    lemma_paired(s, s.len() as int, s.len() as int, i, j);
}

proof fn lemma_paired(s: Seq<Seq<char>>, m: int, n: int, i: int, j: int)
    requires
        0 <= i < j < s.len(),
        0 <= m <= s.len(),
        0 <= n <= s.len(),
        i < m || (i == m && j < n),
    ensures
        pairs_up_to(s, m, n).contains((s[i], s[j])),
    decreases m + 1, n,
{
    let now = pairs_up_to(s, m, n);
    if n <= m + 1 {
        lemma_paired(s, m - 1, s.len() as int, i, j);
    } else {
        let before = pairs_up_to(s, m, n - 1);
        if i == m && j == n - 1 {
            assert(now[before.len() as int] == (s[i], s[j]));
        } else {
            lemma_paired(s, m, n - 1, i, j);
            let k = choose|k: int| 0 <= k < before.len() && before[k] == (s[i], s[j]);
            assert(now[k] == (s[i], s[j]));
        }
    }
}

/// Every inner place that shapes a line stays in the simplified line.
pub proof fn law_shape_is_kept(points: Seq<(i64, i64)>, deviation: int, i: int)
    requires
        0 < i < points.len() - 1,
        shapes_line(points[i - 1], points[i], points[i + 1], deviation),
    ensures
        simplified(points, deviation).contains(points[i]),
{
    lemma_shaping_kept(points, deviation, points.len() - 2, i);
    let inner = shaping_places(points, deviation, points.len() - 2);
    let k = choose|k: int| 0 <= k < inner.len() && inner[k] == points[i];
    assert(simplified(points, deviation)[k + 1] == points[i]);
}

proof fn lemma_shaping_kept(points: Seq<(i64, i64)>, deviation: int, n: int, i: int)
    requires
        0 < i <= n,
        shapes_line(points[i - 1], points[i], points[i + 1], deviation),
    ensures
        shaping_places(points, deviation, n).contains(points[i]),
    decreases n,
{
    let before = shaping_places(points, deviation, n - 1);
    let now = shaping_places(points, deviation, n);
    if i < n {
        lemma_shaping_kept(points, deviation, n - 1, i);
        let k = choose|k: int| 0 <= k < before.len() && before[k] == points[i];
        assert(now[k] == points[i]);
    } else {
        assert(now[before.len() as int] == points[i]);
    }
}

/// A line that turns by a right angle or more at a place is shaped by it, as long as the steps to and
/// from it are a millimetre or more.
pub proof fn law_corners_shape_lines(
    a: (i64, i64),
    b: (i64, i64),
    c: (i64, i64),
    deviation: int,
)
    requires
        step_square(a, b) >= 1_000_000,
        step_square(b, c) >= 1_000_000,
        -0x400_0000 < b.0 - a.0 < 0x400_0000,
        -0x400_0000 < b.1 - a.1 < 0x400_0000,
        -0x400_0000 < c.0 - b.0 < 0x400_0000,
        -0x400_0000 < c.1 - b.1 < 0x400_0000,
        (b.0 - a.0) * (c.0 - b.0) + (b.1 - a.1) * (c.1 - b.1) <= 0,
    ensures
        shapes_line(a, b, c, deviation),
{
    crate::simulation::direction::law_small_directions_kept((b.0 - a.0, b.1 - a.1));
    crate::simulation::direction::law_small_directions_kept((c.0 - b.0, c.1 - b.1));
}

/// The names of different lanes of a road differ.
pub proof fn law_names_differ(r: u64, a: u64, b: u64)
    requires
        lane_name(r, a) == lane_name(r, b),
    ensures
        a == b,
{
    let start = "r"@ + decimal_text(r as nat) + "_l"@;
    let n = start.len() as int;
    assert(lane_name(r, a).skip(n) =~= decimal_text(a as nat));
    assert(lane_name(r, b).skip(n) =~= decimal_text(b as nat));
    crate::util::text::lemma_decimal_round_trip(a as nat);
    crate::util::text::lemma_decimal_round_trip(b as nat);
}

} // verus!
