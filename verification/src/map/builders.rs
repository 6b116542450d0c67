//! Building maps: the sandbox networks and the network of a loaded area.

use vstd::prelude::*;
use vstd::string::*;

use crate::map::building::{
    buildings_of, extract_od_buildings, find_node, node_with_id, outline, sum_first, sum_second,
    OdBuilding,
};
use crate::map::building_network::{in_range, link_to_road_nodes, linked, MAX_COORDINATE};
use crate::map::id_index::{add_known, add_known_ids, find_place, place_of, IdIndex};
use crate::map::lane_graph::lanes_before;
use crate::map::map_data::{
    assemble, boundary_places, bounds, find_boundary_nodes, find_spawn_points, spawn_places,
    MapData,
};
use crate::map::osm::{tag_is, tag_is_value, tag_of, tag_value, OsmData, OsmNode, OsmWay};
use crate::map::road_network::{
    backbone, build_lane_directions, build_lane_directions_reversed, build_turn_restrictions,
    determine_intersection_type, infra_type_of, intersection_type_of, is_backbone_road,
    lane_directions_of, lanes_of, layer_of, oneway_of, parse_infra_type, parse_lanes, parse_layer,
    parse_oneway, parse_turn_lanes, pieces, restrictions_of, turn_of, InfraType, IntersectionType,
    LaneDirection, RoadEdge, RoadEdgeView, RoadNode,
};
use crate::map::topology::Topology;
use crate::map::tram_network::{build_tram_network, is_tram_network, tracks_of, tram_node_ids};
use crate::util::text::text_eq;

verus! {

/// Width of a lane on the sandbox maps.
pub const SANDBOX_LANE_WIDTH: i64 = 3_500_000;

/// 50 km/h.
pub const SPEED_50: i64 = 13_888_889;

/// 70 km/h.
pub const SPEED_70: i64 = 19_444_444;

/// Speed limit on the single sandbox road.
pub const SINGLE_ROAD_SPEED: i64 = 13_890_000;

/// Speed limit on the approaches of the single sandbox crossing.
pub const SINGLE_CROSSING_SPEED: i64 = 11_110_000;

/// The number of lanes along row or column `axis` of the sandbox grid.
pub open spec fn grid_lanes(grid_type: Seq<char>, axis: int) -> int {
    if grid_type == "one_lane"@ {
        1
    } else if grid_type == "two_lane"@ {
        2
    } else if grid_type == "three_lane"@ {
        3
    } else {
        axis % 3 + 1
    }
}

fn resolve_lanes(grid_type: &str, axis: usize) -> (r: u8)
    ensures
        r == grid_lanes(grid_type@, axis as int),
        1 <= r <= 3,
{
    if text_eq(grid_type, "one_lane") {
        1
    } else if text_eq(grid_type, "two_lane") {
        2
    } else if text_eq(grid_type, "three_lane") {
        3
    } else {
        (axis % 3) as u8 + 1
    }
}

/// Speed limit and kind of a sandbox road with the given number of lanes.
pub open spec fn grid_road(lanes: int) -> (i64, Seq<char>) {
    if lanes == 1 {
        (SPEED_50, "tertiary"@)
    } else if lanes == 2 {
        (SPEED_70, "secondary"@)
    } else {
        (SPEED_70, "primary"@)
    }
}

/// A plain two-way segment that is not measured yet.
pub open spec fn plain_edge(
    lanes: int,
    max_speed: i64,
    road_type: Seq<char>,
    lane_directions: Seq<LaneDirection>,
) -> RoadEdgeView {
    RoadEdgeView {
        osm_id: 0,
        lanes: lanes as u8,
        max_speed,
        oneway: false,
        infra_type: InfraType::Normal,
        layer: 0,
        length: 0,
        lane_directions,
        decision_points: (0, 0, 0),
        road_type,
        has_tram_track: false,
    }
}

fn make_plain_edge(
    lanes: u8,
    max_speed: i64,
    road_type: &str,
    lane_directions: Vec<LaneDirection>,
) -> (r: RoadEdge)
    ensures
        r@ == plain_edge(lanes as int, max_speed, road_type@, lane_directions@),
        r.lanes == lanes,
{
    RoadEdge {
        osm_id: 0,
        lanes,
        max_speed,
        oneway: false,
        infra_type: InfraType::Normal,
        layer: 0,
        length: 0,
        lane_directions,
        decision_points: (0, 0, 0),
        road_type: road_type.to_owned(),
        has_tram_track: false,
    }
}

/// The node of the sandbox grid in row `k / 3` and column `k % 3`, placed around the centre.
pub open spec fn grid_node(cy: int, cx: int, step_lat: int, step_lng: int, k: int) -> RoadNode {
    RoadNode {
        osm_id: k as u64,
        lat: (cy + (k / 3 - 1) * step_lat) as i64,
        lng: (cx + (k % 3 - 1) * step_lng) as i64,
        intersection_type: IntersectionType::TrafficLight,
    }
}

/// The row or column along which road `s` of the grid runs: rows first, then columns, two
/// roads on each.
pub open spec fn grid_axis(s: int) -> int {
    (s % 6) / 2
}

/// The ends of road `s` of the grid.
pub open spec fn grid_road_ends(s: int) -> (int, int) {
    if s < 6 {
        let a = (s / 2) * 3 + s % 2;
        (a, a + 1)
    } else {
        let a = (s % 2) * 3 + (s - 6) / 2;
        (a, a + 3)
    }
}

/// The ends of segment `k` of the grid: each road is a pair of opposite segments.
pub open spec fn grid_ends(k: int) -> (int, int) {
    let ends = grid_road_ends(k / 2);
    if k % 2 == 0 {
        ends
    } else {
        (ends.1, ends.0)
    }
}

/// Segment `k` of the grid.
pub open spec fn grid_edge(grid_type: Seq<char>, k: int) -> RoadEdgeView {
    let lanes = grid_lanes(grid_type, grid_axis(k / 2));
    let road = grid_road(lanes);
    plain_edge(
        lanes,
        road.0,
        road.1,
        if k % 2 == 0 {
            lane_directions_of(lanes)
        } else {
            lane_directions_of(lanes).reverse()
        },
    )
}

fn grid_nodes(cy: i64, cx: i64, step_lat: i64, step_lng: i64) -> (r: Vec<RoadNode>)
    requires
        -MAX_COORDINATE <= cy <= MAX_COORDINATE,
        -MAX_COORDINATE <= cx <= MAX_COORDINATE,
        -MAX_COORDINATE <= step_lat <= MAX_COORDINATE,
        -MAX_COORDINATE <= step_lng <= MAX_COORDINATE,
    ensures
        r@.len() == 9,
        forall|k: int|
            0 <= k < 9 ==> #[trigger] r@[k] == grid_node(
                cy as int,
                cx as int,
                step_lat as int,
                step_lng as int,
                k,
            ),
{
    let mut nodes: Vec<RoadNode> = Vec::new();
    let mut k: u64 = 0;
    while k < 9
        invariant
            k <= 9,
            -MAX_COORDINATE <= cy <= MAX_COORDINATE,
            -MAX_COORDINATE <= cx <= MAX_COORDINATE,
            -MAX_COORDINATE <= step_lat <= MAX_COORDINATE,
            -MAX_COORDINATE <= step_lng <= MAX_COORDINATE,
            nodes@.len() == k,
            forall|m: int|
                0 <= m < k ==> #[trigger] nodes@[m] == grid_node(
                    cy as int,
                    cx as int,
                    step_lat as int,
                    step_lng as int,
                    m,
                ),
        decreases 9 - k,
    {
        let lat: i64 = if k / 3 == 0 {
            cy - step_lat
        } else if k / 3 == 1 {
            cy
        } else {
            cy + step_lat
        };
        let lng: i64 = if k % 3 == 0 {
            cx - step_lng
        } else if k % 3 == 1 {
            cx
        } else {
            cx + step_lng
        };
        proof {
            let row = k as int / 3 - 1;
            let col = k as int % 3 - 1;
            assert(row * step_lat == (if k / 3 == 0 {
                -step_lat as int
            } else if k / 3 == 1 {
                0int
            } else {
                step_lat as int
            })) by (nonlinear_arith)
                requires
                    row == k as int / 3 - 1,
                    0 <= k < 9,
            ;
            assert(col * step_lng == (if k % 3 == 0 {
                -step_lng as int
            } else if k % 3 == 1 {
                0int
            } else {
                step_lng as int
            })) by (nonlinear_arith)
                requires
                    col == k as int % 3 - 1,
                    0 <= k < 9,
            ;
        }
        nodes.push(
            RoadNode { osm_id: k, lat, lng, intersection_type: IntersectionType::TrafficLight },
        );
        k = k + 1;
    }
    nodes
}

/// Builds the sandbox grid: three rows and three columns of two-way roads with signals at
/// every crossing, centred at `cy`, `cx` with the given spacing. `grid_type` sets the number
/// of lanes (`one_lane`, `two_lane`, `three_lane`); any other value mixes one to three. Trips
/// start at all nine nodes and through traffic runs between all but the centre. The segments
/// are measured afterwards.
pub fn build_demo_road_network(
    grid_type: &str,
    cy: i64,
    cx: i64,
    step_lat: i64,
    step_lng: i64,
) -> (r: MapData)
    requires
        -MAX_COORDINATE <= cy <= MAX_COORDINATE,
        -MAX_COORDINATE <= cx <= MAX_COORDINATE,
        -MAX_COORDINATE <= step_lat <= MAX_COORDINATE,
        -MAX_COORDINATE <= step_lng <= MAX_COORDINATE,
    ensures
        r.wf(),
        r.nodes@.len() == 9,
        forall|k: int|
            0 <= k < 9 ==> #[trigger] r.nodes@[k] == grid_node(
                cy as int,
                cx as int,
                step_lat as int,
                step_lng as int,
                k,
            ),
        r.graph.ends() == Seq::new(24, |k: int| grid_ends(k)),
        r.graph.built_in_order(),
        r.edge_views() == Seq::new(24, |k: int| grid_edge(grid_type@, k)),
        bounds(r.nodes@, r.bbox),
        r.spawn_points@ == seq![0usize, 1, 2, 3, 4, 5, 6, 7, 8],
        r.boundary_nodes@ == seq![0usize, 1, 2, 3, 5, 6, 7, 8],
        r.od_buildings@.len() == 0,
        r.restrictions@.len() == 0,
        r.tram_data.graph.nodes() == 0,
        r.is_sandbox,
        !r.sandbox_simple_cross_tl,
        r.lane_width == SANDBOX_LANE_WIDTH,
        r.turn_connectors@.len() == 0,
        r.lanes.connected_up_to(r.graph, r.nodes@, r.edges@, r.lane_width, 24, 0),
        r.conflict_areas@.len() == 0,
{
    let nodes: Vec<RoadNode> = grid_nodes(cy, cx, step_lat, step_lng);
    let mut ends: Vec<(usize, usize)> = Vec::new();
    let mut edges: Vec<RoadEdge> = Vec::new();
    let ghost goal = Seq::new(24, |k: int| grid_ends(k));
    let ghost views = Seq::new(24, |k: int| grid_edge(grid_type@, k));
    let mut s: usize = 0;
    while s < 12
        invariant
            s <= 12,
            goal == Seq::new(24, |k: int| grid_ends(k)),
            views == Seq::new(24, |k: int| grid_edge(grid_type@, k)),
            ends@.len() == 2 * s,
            edges@.len() == 2 * s,
            forall|k: int|
                0 <= k < ends@.len() ==> (#[trigger] ends@[k]).0 == goal[k].0 && ends@[k].1
                    == goal[k].1 && ends@[k].0 < 9 && ends@[k].1 < 9,
            forall|k: int| 0 <= k < edges@.len() ==> (#[trigger] edges@[k])@ == views[k],
            forall|k: int| 0 <= k < edges@.len() ==> (#[trigger] edges@[k]).lanes <= 3,
        decreases 12 - s,
    {
        let (a, b, axis): (usize, usize, usize) = if s < 6 {
            let a: usize = (s / 2) * 3 + s % 2;
            (a, a + 1, s / 2)
        } else {
            let a: usize = (s % 2) * 3 + (s - 6) / 2;
            (a, a + 3, (s - 6) / 2)
        };
        let lanes: u8 = resolve_lanes(grid_type, axis);
        let (speed, road_type): (i64, &str) = if lanes == 1 {
            (SPEED_50, "tertiary")
        } else if lanes == 2 {
            (SPEED_70, "secondary")
        } else {
            (SPEED_70, "primary")
        };
        proof {
            assert((2 * s) / 2 == s && (2 * s) % 2 == 0);
            assert((2 * s + 1) / 2 == s && (2 * s + 1) % 2 == 1);
            assert(axis == grid_axis(s as int));
            assert(goal[2 * s] == (a as int, b as int));
            assert(goal[2 * s + 1] == (b as int, a as int));
        }
        let forward: RoadEdge = make_plain_edge(
            lanes,
            speed,
            road_type,
            build_lane_directions(lanes),
        );
        let back: RoadEdge = make_plain_edge(
            lanes,
            speed,
            road_type,
            build_lane_directions_reversed(lanes),
        );
        assert(forward@ == views[2 * s]);
        assert(back@ == views[2 * s + 1]);
        ends.push((a, b));
        edges.push(forward);
        ends.push((b, a));
        edges.push(back);
        s = s + 1;
    }
    let mut spawn: Vec<usize> = Vec::new();
    let mut boundary: Vec<usize> = Vec::new();
    let mut k: usize = 0;
    while k < 9
        invariant
            k <= 9,
            spawn@.len() == k,
            forall|i: int| 0 <= i < k ==> #[trigger] spawn@[i] == i,
            boundary@.len() == (if k <= 4 {
                k as int
            } else {
                k - 1
            }),
            forall|i: int|
                0 <= i < boundary@.len() ==> #[trigger] boundary@[i] == (if i < 4 {
                    i
                } else {
                    i + 1
                }),
        decreases 9 - k,
    {
        spawn.push(k);
        if k != 4 {
            boundary.push(k);
        }
        k = k + 1;
    }
    proof {
        assert(spawn@ =~= seq![0usize, 1, 2, 3, 4, 5, 6, 7, 8]);
        assert(boundary@ =~= seq![0usize, 1, 2, 3, 5, 6, 7, 8]);
        let ids = nodes@.map_values(|n: RoadNode| n.osm_id);
        assert forall|i: int, j: int|
            0 <= i < ids.len() && 0 <= j < ids.len() && i != j implies ids[i] != ids[j] by {
            assert(nodes@[i].osm_id == i);
            assert(nodes@[j].osm_id == j);
        }
        lemma_few_lanes(edges@, 24, 3);
        assert(ends@.map_values(|p: (usize, usize)| (p.0 as int, p.1 as int)) =~= goal);
        assert(edges@.map_values(|e: RoadEdge| e@) =~= views);
    }
    assemble(nodes, &ends, edges, spawn, boundary, true, SANDBOX_LANE_WIDTH)
}

/// Segments with few lanes have few lanes in all.
proof fn lemma_few_lanes(edges: Seq<RoadEdge>, n: int, most: int)
    requires
        0 <= n <= edges.len(),
        most >= 1,
        forall|k: int| 0 <= k < edges.len() ==> (#[trigger] edges[k]).lanes <= most,
    ensures
        lanes_before(edges, n) <= n * most,
    decreases n,
{
    if n > 0 {
        lemma_few_lanes(edges, n - 1, most);
        assert(edges[n - 1].lanes <= most);
        assert(n * most == (n - 1) * most + most) by (nonlinear_arith);
    }
}

/// A node of a sandbox map.
fn sandbox_node(osm_id: u64, lat: i64, lng: i64, intersection_type: IntersectionType) -> (r:
    RoadNode)
    ensures
        r == (RoadNode { osm_id, lat, lng, intersection_type }),
{
    RoadNode { osm_id, lat, lng, intersection_type }
}

/// Adds a pair of opposite single-lane segments.
fn add_two_way(
    ends: &mut Vec<(usize, usize)>,
    edges: &mut Vec<RoadEdge>,
    a: usize,
    b: usize,
    speed: i64,
)
    ensures
        final(ends)@ == old(ends)@.push((a, b)).push((b, a)),
        final(edges)@.len() == old(edges)@.len() + 2,
        forall|k: int|
            0 <= k < old(edges)@.len() ==> #[trigger] final(edges)@[k] == old(edges)@[k],
        forall|k: int|
            old(edges)@.len() <= k < final(edges)@.len() ==> (#[trigger] final(edges)@[k])@
                == plain_edge(1, speed, "secondary"@, seq![LaneDirection::Straight]),
{
    let mut i: u8 = 0;
    while i < 2
        invariant
            i <= 2,
            edges@.len() == old(edges)@.len() + i,
            forall|k: int| 0 <= k < old(edges)@.len() ==> #[trigger] edges@[k] == old(edges)@[k],
            forall|k: int|
                old(edges)@.len() <= k < edges@.len() ==> (#[trigger] edges@[k])@ == plain_edge(
                    1,
                    speed,
                    "secondary"@,
                    seq![LaneDirection::Straight],
                ),
        decreases 2 - i,
    {
        let mut dirs: Vec<LaneDirection> = Vec::new();
        dirs.push(LaneDirection::Straight);
        assert(dirs@ =~= seq![LaneDirection::Straight]);
        edges.push(make_plain_edge(1, speed, "secondary", dirs));
        i = i + 1;
    }
    ends.push((a, b));
    ends.push((b, a));
}

/// Adds a single-lane segment that is driven in one direction only.
fn add_one_way(
    ends: &mut Vec<(usize, usize)>,
    edges: &mut Vec<RoadEdge>,
    a: usize,
    b: usize,
    speed: i64,
)
    ensures
        final(ends)@ == old(ends)@.push((a, b)),
        final(edges)@.len() == old(edges)@.len() + 1,
        forall|k: int|
            0 <= k < old(edges)@.len() ==> #[trigger] final(edges)@[k] == old(edges)@[k],
        final(edges)@.last()@ == one_way_edge(speed),
{
    let mut dirs: Vec<LaneDirection> = Vec::new();
    dirs.push(LaneDirection::Straight);
    assert(dirs@ =~= seq![LaneDirection::Straight]);
    let mut edge: RoadEdge = make_plain_edge(1, speed, "secondary", dirs);
    edge.oneway = true;
    edges.push(edge);
    ends.push((a, b));
}

/// A single-lane segment of a sandbox map that is driven in one direction only.
pub open spec fn one_way_edge(speed: i64) -> RoadEdgeView {
    RoadEdgeView {
        oneway: true,
        ..plain_edge(1, speed, "secondary"@, seq![LaneDirection::Straight])
    }
}

/// Builds the single sandbox road: a one-way road from west to east with a signalled pedestrian
/// crossing in the middle. Trips start at the western end and leave at the eastern end.
pub fn build_single_road_network(cy: i64, cx: i64, half_lng: i64) -> (r: MapData)
    requires
        -MAX_COORDINATE <= cx <= MAX_COORDINATE,
        -MAX_COORDINATE <= half_lng <= MAX_COORDINATE,
    ensures
        r.wf(),
        r.nodes@ == seq![
            RoadNode {
                osm_id: 0,
                lat: cy,
                lng: (cx - half_lng) as i64,
                intersection_type: IntersectionType::Plain,
            },
            RoadNode {
                osm_id: 100,
                lat: cy,
                lng: cx,
                intersection_type: IntersectionType::PedestrianCrossing,
            },
            RoadNode {
                osm_id: 1,
                lat: cy,
                lng: (cx + half_lng) as i64,
                intersection_type: IntersectionType::Plain,
            },
        ],
        r.graph.ends() == seq![(0int, 1int), (1, 2)],
        r.graph.built_in_order(),
        r.edges@.len() == 2,
        r.edges@[0]@ == one_way_edge(SINGLE_ROAD_SPEED),
        r.edges@[1]@ == one_way_edge(SINGLE_ROAD_SPEED),
        bounds(r.nodes@, r.bbox),
        r.spawn_points@ == seq![0usize],
        r.boundary_nodes@ == seq![2usize],
        r.od_buildings@.len() == 0,
        r.restrictions@.len() == 0,
        r.tram_data.graph.nodes() == 0,
        r.is_sandbox,
        !r.sandbox_simple_cross_tl,
        r.lane_width == SANDBOX_LANE_WIDTH,
        r.turn_connectors@.len() == 0,
        r.lanes.connected_up_to(r.graph, r.nodes@, r.edges@, r.lane_width, 2, 0),
        r.conflict_areas@.len() == 0,
{
    let mut nodes: Vec<RoadNode> = Vec::new();
    nodes.push(sandbox_node(0, cy, cx - half_lng, IntersectionType::Plain));
    nodes.push(sandbox_node(100, cy, cx, IntersectionType::PedestrianCrossing));
    nodes.push(sandbox_node(1, cy, cx + half_lng, IntersectionType::Plain));
    let mut ends: Vec<(usize, usize)> = Vec::new();
    let mut edges: Vec<RoadEdge> = Vec::new();
    add_one_way(&mut ends, &mut edges, 0, 1, SINGLE_ROAD_SPEED);
    add_one_way(&mut ends, &mut edges, 1, 2, SINGLE_ROAD_SPEED);
    let mut spawn: Vec<usize> = Vec::new();
    spawn.push(0);
    let mut boundary: Vec<usize> = Vec::new();
    boundary.push(2);
    proof {
        let plain = one_way_edge(SINGLE_ROAD_SPEED);
        assert(edges@[0]@ == plain && edges@[1]@ == plain);
        assert forall|k: int| 0 <= k < 2 implies (#[trigger] edges@[k]).lanes <= 1 by {
            assert(edges@[k]@.lanes == 1);
        }
        lemma_few_lanes(edges@, 2, 1);
        let ids = nodes@.map_values(|n: RoadNode| n.osm_id);
        assert(ids =~= seq![0u64, 100, 1]);
        assert(ends@.map_values(|p: (usize, usize)| (p.0 as int, p.1 as int)) =~= seq![
            (0int, 1int),
            (1, 2),
        ]);
        assert(nodes@.len() == 3);
    }
    assemble(nodes, &ends, edges, spawn, boundary, true, SANDBOX_LANE_WIDTH)
}

/// Builds the single sandbox crossing: an unsignalled node with one two-way approach from
/// each side. Trips start and end at the outer ends.
pub fn build_single_intersection_network(cy: i64, cx: i64, arm_lat: i64, arm_lng: i64) -> (r:
    MapData)
    requires
        -MAX_COORDINATE <= cy <= MAX_COORDINATE,
        -MAX_COORDINATE <= cx <= MAX_COORDINATE,
        -MAX_COORDINATE <= arm_lat <= MAX_COORDINATE,
        -MAX_COORDINATE <= arm_lng <= MAX_COORDINATE,
    ensures
        r.wf(),
        r.nodes@ == seq![
            RoadNode { osm_id: 100, lat: cy, lng: cx, intersection_type: IntersectionType::Plain },
            RoadNode {
                osm_id: 101,
                lat: (cy + arm_lat) as i64,
                lng: cx,
                intersection_type: IntersectionType::Plain,
            },
            RoadNode {
                osm_id: 102,
                lat: (cy - arm_lat) as i64,
                lng: cx,
                intersection_type: IntersectionType::Plain,
            },
            RoadNode {
                osm_id: 103,
                lat: cy,
                lng: (cx - arm_lng) as i64,
                intersection_type: IntersectionType::Plain,
            },
            RoadNode {
                osm_id: 104,
                lat: cy,
                lng: (cx + arm_lng) as i64,
                intersection_type: IntersectionType::Plain,
            },
        ],
        r.graph.ends() == seq![
            (1int, 0int),
            (0, 1),
            (2, 0),
            (0, 2),
            (3, 0),
            (0, 3),
            (4, 0),
            (0, 4),
        ],
        r.graph.built_in_order(),
        r.edges@.len() == 8,
        forall|k: int|
            0 <= k < 8 ==> (#[trigger] r.edges@[k])@ == plain_edge(
                1,
                SINGLE_CROSSING_SPEED,
                "secondary"@,
                seq![LaneDirection::Straight],
            ),
        bounds(r.nodes@, r.bbox),
        r.spawn_points@ == seq![1usize, 2, 3, 4],
        r.boundary_nodes@ == seq![1usize, 2, 3, 4],
        r.od_buildings@.len() == 0,
        r.restrictions@.len() == 0,
        r.tram_data.graph.nodes() == 0,
        r.is_sandbox,
        !r.sandbox_simple_cross_tl,
        r.lane_width == SANDBOX_LANE_WIDTH,
        r.turn_connectors@.len() == 0,
        r.lanes.connected_up_to(r.graph, r.nodes@, r.edges@, r.lane_width, 8, 0),
        r.conflict_areas@.len() == 0,
{
    let mut nodes: Vec<RoadNode> = Vec::new();
    nodes.push(sandbox_node(100, cy, cx, IntersectionType::Plain));
    nodes.push(sandbox_node(101, cy + arm_lat, cx, IntersectionType::Plain));
    nodes.push(sandbox_node(102, cy - arm_lat, cx, IntersectionType::Plain));
    nodes.push(sandbox_node(103, cy, cx - arm_lng, IntersectionType::Plain));
    nodes.push(sandbox_node(104, cy, cx + arm_lng, IntersectionType::Plain));
    let mut ends: Vec<(usize, usize)> = Vec::new();
    let mut edges: Vec<RoadEdge> = Vec::new();
    add_two_way(&mut ends, &mut edges, 1, 0, SINGLE_CROSSING_SPEED);
    add_two_way(&mut ends, &mut edges, 2, 0, SINGLE_CROSSING_SPEED);
    add_two_way(&mut ends, &mut edges, 3, 0, SINGLE_CROSSING_SPEED);
    add_two_way(&mut ends, &mut edges, 4, 0, SINGLE_CROSSING_SPEED);
    let mut spawn: Vec<usize> = Vec::new();
    let mut boundary: Vec<usize> = Vec::new();
    let mut k: usize = 1;
    while k < 5
        invariant
            1 <= k <= 5,
            spawn@.len() == k - 1,
            boundary@.len() == k - 1,
            forall|i: int| 0 <= i < k - 1 ==> #[trigger] spawn@[i] == i + 1,
            forall|i: int| 0 <= i < k - 1 ==> #[trigger] boundary@[i] == i + 1,
        decreases 5 - k,
    {
        spawn.push(k);
        boundary.push(k);
        k = k + 1;
    }
    proof {
        assert(spawn@ =~= seq![1usize, 2, 3, 4]);
        assert(boundary@ =~= seq![1usize, 2, 3, 4]);
        let plain = plain_edge(
            1,
            SINGLE_CROSSING_SPEED,
            "secondary"@,
            seq![LaneDirection::Straight],
        );
        assert forall|k: int| 0 <= k < 8 implies (#[trigger] edges@[k])@ == plain by {}
        assert forall|k: int| 0 <= k < 8 implies (#[trigger] edges@[k]).lanes <= 1 by {
            assert(edges@[k]@.lanes == 1);
        }
        lemma_few_lanes(edges@, 8, 1);
        let ids = nodes@.map_values(|n: RoadNode| n.osm_id);
        assert(ids =~= seq![100u64, 101, 102, 103, 104]);
        assert(ends@.map_values(|p: (usize, usize)| (p.0 as int, p.1 as int)) =~= seq![
            (1int, 0int),
            (0, 1),
            (2, 0),
            (0, 2),
            (3, 0),
            (0, 3),
            (4, 0),
            (0, 4),
        ]);
        assert(nodes@.len() == 5);
    }
    assemble(nodes, &ends, edges, spawn, boundary, true, SANDBOX_LANE_WIDTH)
}

/// Most road segments that a loaded area can have.
pub const MAX_ROAD_SEGMENTS: u64 = 0x1fff_ffff;

/// Whether a way belongs to the road network.
pub open spec fn is_road(way: OsmWay) -> bool {
    backbone(tag_value(way.tags@, "highway"@))
}

fn way_is_road(way: &OsmWay) -> (r: bool)
    ensures
        r == is_road(*way),
{
    is_backbone_road(tag_of(&way.tags, "highway"))
}

/// The loaded nodes on roads, in the order of their first mention.
pub open spec fn road_node_ids(nodes: Seq<OsmNode>, ways: Seq<OsmWay>) -> Seq<u64>
    decreases ways.len(),
{
    if ways.len() == 0 {
        Seq::empty()
    } else {
        let before = road_node_ids(nodes, ways.drop_last());
        if is_road(ways.last()) {
            add_known(nodes, before, ways.last().node_refs@)
        } else {
            before
        }
    }
}

/// Where the lanes of a way lead: as tagged, else as usual for their number.
pub open spec fn way_directions(way: OsmWay) -> Seq<LaneDirection> {
    match tag_value(way.tags@, "turn:lanes"@) {
        Some(t) => pieces(t, '|').map_values(|p: Seq<char>| turn_of(p)),
        None => lane_directions_of(way_lanes(way)),
    }
}

/// The `highway` tag of a way, with a stand-in for ways without one.
pub open spec fn way_highway(way: OsmWay) -> Seq<char> {
    match tag_value(way.tags@, "highway"@) {
        Some(h) => h,
        None => "unclassified"@,
    }
}

/// The number of lanes of a way.
pub open spec fn way_lanes(way: OsmWay) -> int {
    lanes_of(tag_value(way.tags@, "lanes"@), way_highway(way))
}

/// The segments that a way is made of, along its direction, before they are measured.
pub open spec fn way_edge(way: OsmWay, max_speed: i64) -> RoadEdgeView {
    RoadEdgeView {
        osm_id: way.id,
        lanes: way_lanes(way) as u8,
        max_speed,
        oneway: oneway_of(way.tags@) != 0,
        infra_type: infra_type_of(way.tags@),
        layer: layer_of(tag_value(way.tags@, "layer"@)) as i8,
        length: 0,
        lane_directions: way_directions(way),
        decision_points: (0, 0, 0),
        road_type: way_highway(way),
        has_tram_track: tag_is_value(way.tags@, "railway"@, "tram"@),
    }
}

/// The opposite segments of a two-way road.
pub open spec fn way_edge_back(way: OsmWay, max_speed: i64) -> RoadEdgeView {
    RoadEdgeView {
        lane_directions: lane_directions_of(way_lanes(way)).reverse(),
        ..way_edge(way, max_speed)
    }
}

fn make_way_edge(way: &OsmWay, max_speed: i64, back: bool) -> (r: RoadEdge)
    ensures
        r@ == (if back {
            way_edge_back(*way, max_speed)
        } else {
            way_edge(*way, max_speed)
        }),
        1 <= r.lanes <= 8,
{
    let highway: &str = match tag_of(&way.tags, "highway") {
        Some(h) => h,
        None => "unclassified",
    };
    let lanes: u8 = parse_lanes(tag_of(&way.tags, "lanes"), highway);
    let lane_directions: Vec<LaneDirection> = if back {
        build_lane_directions_reversed(lanes)
    } else {
        match tag_of(&way.tags, "turn:lanes") {
            Some(t) => parse_turn_lanes(t),
            None => build_lane_directions(lanes),
        }
    };
    let oneway: i8 = parse_oneway(&way.tags);
    RoadEdge {
        osm_id: way.id,
        lanes,
        max_speed,
        oneway: oneway != 0,
        infra_type: parse_infra_type(&way.tags),
        layer: parse_layer(tag_of(&way.tags, "layer")),
        length: 0,
        lane_directions,
        decision_points: (0, 0, 0),
        road_type: highway.to_owned(),
        has_tram_track: tag_is(&way.tags, "railway", "tram"),
    }
}

/// A directed road segment between two places.
pub struct RoadPlan {
    pub from: int,
    pub to: int,
    pub edge: RoadEdgeView,
}

/// `acc` with the segments between consecutive known nodes of a way added: one in the
/// direction of travel of a one-way road, else one each way.
pub open spec fn add_roads(
    acc: Seq<RoadPlan>,
    ids: Seq<u64>,
    refs: Seq<u64>,
    way: OsmWay,
    max_speed: i64,
) -> Seq<RoadPlan>
    decreases refs.len(),
{
    if refs.len() < 2 {
        acc
    } else {
        let before = add_roads(acc, ids, refs.drop_last(), way, max_speed);
        let a = refs[refs.len() - 2];
        let b = refs[refs.len() - 1];
        if ids.contains(a) && ids.contains(b) {
            let from = place_of(ids, a);
            let to = place_of(ids, b);
            let edge = way_edge(way, max_speed);
            if oneway_of(way.tags@) == 1 {
                before.push(RoadPlan { from, to, edge })
            } else if oneway_of(way.tags@) == -1 {
                before.push(RoadPlan { from: to, to: from, edge })
            } else {
                before.push(RoadPlan { from, to, edge }).push(
                    RoadPlan { from: to, to: from, edge: way_edge_back(way, max_speed) },
                )
            }
        } else {
            before
        }
    }
}

/// The segments of all roads among the ways, in way order.
pub open spec fn roads_of(ids: Seq<u64>, ways: Seq<OsmWay>, speeds: Seq<i64>) -> Seq<RoadPlan>
    decreases ways.len(),
{
    if ways.len() == 0 {
        Seq::empty()
    } else {
        let before = roads_of(ids, ways.drop_last(), speeds);
        let way = ways.last();
        if is_road(way) {
            add_roads(before, ids, way.node_refs@, way, speeds[ways.len() - 1])
        } else {
            before
        }
    }
}

/// Whether segments of two different ways meet at a place.
pub open spec fn two_ways_meet(roads: Seq<RoadPlan>, n: int) -> bool {
    exists|i: int, j: int|
        #![trigger roads[i], roads[j]]
        {
            &&& 0 <= i < roads.len() && (roads[i].from == n || roads[i].to == n)
            &&& 0 <= j < roads.len() && (roads[j].from == n || roads[j].to == n)
            &&& roads[i].edge.osm_id != roads[j].edge.osm_id
        }
}

/// The road node for a map node. Signals that stand on a single way, away from any crossing,
/// are left out.
pub open spec fn road_node_of(n: OsmNode, roads: Seq<RoadPlan>, place: int) -> RoadNode {
    let tagged = intersection_type_of(n.tags@);
    RoadNode {
        osm_id: n.id,
        lat: n.lat,
        lng: n.lng,
        intersection_type: if tagged == IntersectionType::TrafficLight && !two_ways_meet(
            roads,
            place,
        ) {
            IntersectionType::Plain
        } else {
            tagged
        },
    }
}

/// Whether a road node stands for the loaded node with its id.
pub open spec fn stands_for_node(
    table: Seq<OsmNode>,
    roads: Seq<RoadPlan>,
    place: int,
    r: RoadNode,
) -> bool {
    match node_with_id(table, r.osm_id) {
        Some(n) => r == road_node_of(n, roads, place),
        None => false,
    }
}

/// Segment ends and records as one list of plans.
pub open spec fn road_plans(ends: Seq<(usize, usize)>, edges: Seq<RoadEdge>) -> Seq<RoadPlan> {
    Seq::new(
        ends.len(),
        |i: int| RoadPlan { from: ends[i].0 as int, to: ends[i].1 as int, edge: edges[i]@ },
    )
}

/// Ends and records of the segments collected so far.
spec fn plans_ok(ends: Seq<(usize, usize)>, edges: Seq<RoadEdge>, n: int) -> bool {
    &&& ends.len() == edges.len()
    &&& forall|k: int| 0 <= k < ends.len() ==> (#[trigger] ends[k]).0 < n && ends[k].1 < n
    &&& forall|k: int| 0 <= k < edges.len() ==> (#[trigger] edges[k]).lanes <= 8
}

fn push_road(
    ends: &mut Vec<(usize, usize)>,
    edges: &mut Vec<RoadEdge>,
    a: usize,
    b: usize,
    edge: RoadEdge,
    Ghost(n): Ghost<int>,
)
    requires
        plans_ok(old(ends)@, old(edges)@, n),
        a < n,
        b < n,
        edge.lanes <= 8,
    ensures
        plans_ok(final(ends)@, final(edges)@, n),
        road_plans(final(ends)@, final(edges)@) == road_plans(old(ends)@, old(edges)@).push(
            RoadPlan { from: a as int, to: b as int, edge: edge@ },
        ),
{
    ends.push((a, b));
    edges.push(edge);
    assert(road_plans(ends@, edges@) =~= road_plans(old(ends)@, old(edges)@).push(
        RoadPlan { from: a as int, to: b as int, edge: edge@ },
    ));
}

fn add_way_roads(
    index: &IdIndex,
    way: &OsmWay,
    max_speed: i64,
    ends: &mut Vec<(usize, usize)>,
    edges: &mut Vec<RoadEdge>,
)
    requires
        index.wf(),
        plans_ok(old(ends)@, old(edges)@, index@.len() as int),
    ensures
        plans_ok(final(ends)@, final(edges)@, index@.len() as int),
        road_plans(final(ends)@, final(edges)@) == add_roads(
            road_plans(old(ends)@, old(edges)@),
            index@,
            way.node_refs@,
            *way,
            max_speed,
        ),
{
    let refs: &Vec<u64> = &way.node_refs;
    let ghost start = road_plans(ends@, edges@);
    if refs.len() < 2 {
        return ;
    }
    let oneway: i8 = parse_oneway(&way.tags);
    let mut i: usize = 1;
    assert(refs@.take(1).len() == 1);
    while i < refs.len()
        invariant
            index.wf(),
            refs == &way.node_refs,
            oneway == oneway_of(way.tags@),
            1 <= i <= refs.len(),
            plans_ok(ends@, edges@, index@.len() as int),
            road_plans(ends@, edges@) == add_roads(
                start,
                index@,
                refs@.take(i as int),
                *way,
                max_speed,
            ),
        decreases refs.len() - i,
    {
        proof {
            assert(refs@.take(i + 1).drop_last() =~= refs@.take(i as int));
            assert(refs@.take(i + 1)[i - 1] == refs@[i - 1]);
            assert(refs@.take(i + 1)[i as int] == refs@[i as int]);
        }
        match (find_place(index, refs[i - 1]), find_place(index, refs[i])) {
            (Some(a), Some(b)) => {
                let edge: RoadEdge = make_way_edge(way, max_speed, false);
                if oneway == 1 {
                    push_road(ends, edges, a, b, edge, Ghost(index@.len() as int));
                } else if oneway == -1 {
                    push_road(ends, edges, b, a, edge, Ghost(index@.len() as int));
                } else {
                    push_road(ends, edges, a, b, edge, Ghost(index@.len() as int));
                    let back: RoadEdge = make_way_edge(way, max_speed, true);
                    push_road(ends, edges, b, a, back, Ghost(index@.len() as int));
                }
            },
            _ => {},
        }
        i = i + 1;
    }
    assert(refs@.take(i as int) =~= refs@);
}

/// Lists the loaded nodes on roads.
fn collect_road_nodes(osm: &OsmData) -> (index: IdIndex)
    requires
        osm.wf(),
    ensures
        index.wf(),
        index@ == road_node_ids(osm.nodes.nodes(), osm.ways@),
        forall|i: int|
            0 <= i < index@.len() ==> node_with_id(osm.nodes.nodes(), #[trigger] index@[i]) is Some,
{
    let mut index: IdIndex = IdIndex::new();
    let ways: &Vec<OsmWay> = &osm.ways;
    let mut i: usize = 0;
    assert(ways@.take(0) =~= Seq::<OsmWay>::empty());
    while i < ways.len()
        invariant
            osm.wf(),
            ways == &osm.ways,
            i <= ways.len(),
            index.wf(),
            index@ == road_node_ids(osm.nodes.nodes(), ways@.take(i as int)),
            forall|k: int|
                0 <= k < index@.len() ==> node_with_id(
                    osm.nodes.nodes(),
                    #[trigger] index@[k],
                ) is Some,
        decreases ways.len() - i,
    {
        assert(ways@.take(i + 1).drop_last() =~= ways@.take(i as int));
        assert(ways@.take(i + 1).last() == ways@[i as int]);
        if way_is_road(&ways[i]) {
            add_known_ids(&mut index, &osm.nodes, &ways[i].node_refs);
        }
        i = i + 1;
    }
    assert(ways@.take(i as int) =~= ways@);
    index
}

/// Collects the segments of all roads.
fn collect_roads(osm: &OsmData, index: &IdIndex, speeds: &Vec<i64>) -> (r: (
    Vec<(usize, usize)>,
    Vec<RoadEdge>,
))
    requires
        index.wf(),
        speeds@.len() == osm.ways@.len(),
    ensures
        plans_ok(r.0@, r.1@, index@.len() as int),
        road_plans(r.0@, r.1@) == roads_of(index@, osm.ways@, speeds@),
{
    let mut ends: Vec<(usize, usize)> = Vec::new();
    let mut edges: Vec<RoadEdge> = Vec::new();
    let ways: &Vec<OsmWay> = &osm.ways;
    let mut w: usize = 0;
    proof {
        assert(ways@.take(0) =~= Seq::<OsmWay>::empty());
        assert(road_plans(ends@, edges@) =~= Seq::<RoadPlan>::empty());
    }
    while w < ways.len()
        invariant
            index.wf(),
            ways == &osm.ways,
            speeds@.len() == ways@.len(),
            w <= ways.len(),
            plans_ok(ends@, edges@, index@.len() as int),
            road_plans(ends@, edges@) == roads_of(index@, ways@.take(w as int), speeds@),
        decreases ways.len() - w,
    {
        proof {
            assert(ways@.take(w + 1).drop_last() =~= ways@.take(w as int));
            assert(ways@.take(w + 1).last() == ways@[w as int]);
        }
        if way_is_road(&ways[w]) {
            add_way_roads(index, &ways[w], speeds[w], &mut ends, &mut edges);
        }
        w = w + 1;
    }
    assert(ways@.take(w as int) =~= ways@);
    (ends, edges)
}

/// Whether segments of two different ways meet at node `n`.
fn ways_meet_at(graph: &Topology, edges: &Vec<RoadEdge>, n: usize, Ghost(roads): Ghost<Seq<RoadPlan>>) -> (r:
    bool)
    requires
        graph.wf(),
        n < graph.nodes(),
        edges@.len() == graph.ends().len(),
        roads.len() == edges@.len(),
        forall|k: int|
            0 <= k < roads.len() ==> graph.ends()[k] == ((#[trigger] roads[k]).from, roads[k].to)
                && roads[k].edge == edges@[k]@,
    ensures
        r == two_ways_meet(roads, n as int),
{
    proof {
        graph.lemma_wf();
    }
    let outs: Vec<usize> = graph.outgoing(n);
    let ins: Vec<usize> = graph.incoming(n);
    let ghost ow = graph.out_edges(n as int);
    let ghost iw = graph.in_edges(n as int);
    let mut first: Option<u64> = None;
    let ghost mut first_at: int = 0;
    let total: usize = outs.len();
    let mut k: usize = 0;
    proof {
        assert(ow.len() == outs@.len());
        assert(iw.len() == ins@.len());
    }
    while k < outs.len()
        invariant
            graph.wf(),
            n < graph.nodes(),
            edges@.len() == graph.ends().len(),
            roads.len() == edges@.len(),
            forall|k: int|
                0 <= k < roads.len() ==> graph.ends()[k] == (
                    (#[trigger] roads[k]).from,
                    roads[k].to,
                ) && roads[k].edge == edges@[k]@,
            outs@.map_values(|e: usize| e as int) == ow,
            ow == graph.out_edges(n as int),
            ow.len() == outs@.len(),
            forall|n: int, i: int|
                0 <= n < graph.nodes() && 0 <= i < graph.out_edges(n).len() ==> 0
                    <= #[trigger] graph.out_edges(n)[i] < graph.ends().len()
                    && graph.ends()[graph.out_edges(n)[i]].0 == n,
            k <= outs.len(),
            match first {
                Some(id) => 0 <= first_at < roads.len() && (roads[first_at].from == n
                    || roads[first_at].to == n) && roads[first_at].edge.osm_id == id,
                None => k == 0,
            },
            forall|m: int| 0 <= m < k ==> Some(roads[#[trigger] ow[m]].edge.osm_id) == first,
        decreases outs.len() - k,
    {
        let e: usize = outs[k];
        proof {
            assert(ow[k as int] == e);
            assert(graph.out_edges(n as int)[k as int] == e);
            assert(roads[e as int].from == n);
        }
        let id: u64 = edges[e].osm_id;
        match first {
            Some(f) => {
                if f != id {
                    assert(roads[first_at].edge.osm_id != roads[e as int].edge.osm_id);
                    return true;
                }
            },
            None => {
                first = Some(id);
                proof {
                    first_at = e as int;
                }
            },
        }
        k = k + 1;
    }
    let mut j: usize = 0;
    while j < ins.len()
        invariant
            graph.wf(),
            n < graph.nodes(),
            edges@.len() == graph.ends().len(),
            roads.len() == edges@.len(),
            forall|k: int|
                0 <= k < roads.len() ==> graph.ends()[k] == (
                    (#[trigger] roads[k]).from,
                    roads[k].to,
                ) && roads[k].edge == edges@[k]@,
            ins@.map_values(|e: usize| e as int) == iw,
            iw == graph.in_edges(n as int),
            iw.len() == ins@.len(),
            ow == graph.out_edges(n as int),
            forall|n: int, i: int|
                0 <= n < graph.nodes() && 0 <= i < graph.in_edges(n).len() ==> 0
                    <= #[trigger] graph.in_edges(n)[i] < graph.ends().len()
                    && graph.ends()[graph.in_edges(n)[i]].1 == n,
            j <= ins.len(),
            match first {
                Some(id) => 0 <= first_at < roads.len() && (roads[first_at].from == n
                    || roads[first_at].to == n) && roads[first_at].edge.osm_id == id,
                None => j == 0 && ow.len() == 0,
            },
            forall|m: int|
                0 <= m < ow.len() ==> Some(roads[#[trigger] ow[m]].edge.osm_id) == first,
            forall|m: int| 0 <= m < j ==> Some(roads[#[trigger] iw[m]].edge.osm_id) == first,
        decreases ins.len() - j,
    {
        let e: usize = ins[j];
        proof {
            assert(iw[j as int] == e);
            assert(graph.in_edges(n as int)[j as int] == e);
            assert(roads[e as int].to == n);
        }
        let id: u64 = edges[e].osm_id;
        match first {
            Some(f) => {
                if f != id {
                    assert(roads[first_at].edge.osm_id != roads[e as int].edge.osm_id);
                    return true;
                }
            },
            None => {
                first = Some(id);
                proof {
                    first_at = e as int;
                }
            },
        }
        j = j + 1;
    }
    proof {
        assert forall|x: int|
            0 <= x < roads.len() && ((#[trigger] roads[x]).from == n || roads[x].to == n) implies Some(
            roads[x].edge.osm_id,
        ) == first by {
            graph.lemma_out_edge_listed(x);
            assert(graph.ends()[x] == (roads[x].from, roads[x].to));
            if roads[x].from == n {
                let m = choose|m: int| 0 <= m < ow.len() && ow[m] == x;
                assert(Some(roads[ow[m]].edge.osm_id) == first);
            } else {
                let m = choose|m: int| 0 <= m < iw.len() && iw[m] == x;
                assert(Some(roads[iw[m]].edge.osm_id) == first);
            }
        }
    }
    false
}

/// Makes the road nodes, leaving out signals away from crossings.
fn make_road_nodes(
    osm: &OsmData,
    index: &IdIndex,
    graph: &Topology,
    edges: &Vec<RoadEdge>,
    Ghost(roads): Ghost<Seq<RoadPlan>>,
) -> (nodes: Vec<RoadNode>)
    requires
        osm.wf(),
        index.wf(),
        forall|i: int|
            0 <= i < index@.len() ==> node_with_id(osm.nodes.nodes(), #[trigger] index@[i]) is Some,
        graph.wf(),
        graph.nodes() == index@.len(),
        edges@.len() == graph.ends().len(),
        roads.len() == edges@.len(),
        forall|k: int|
            0 <= k < roads.len() ==> graph.ends()[k] == ((#[trigger] roads[k]).from, roads[k].to)
                && roads[k].edge == edges@[k]@,
    ensures
        nodes@.map_values(|n: RoadNode| n.osm_id) == index@,
        forall|i: int|
            0 <= i < nodes@.len() ==> stands_for_node(
                osm.nodes.nodes(),
                roads,
                i,
                #[trigger] nodes@[i],
            ),
{
    let ghost table = osm.nodes.nodes();
    let mut nodes: Vec<RoadNode> = Vec::new();
    let mut i: usize = 0;
    assert(nodes@.map_values(|n: RoadNode| n.osm_id) =~= index@.take(0));
    while i < index.len()
        invariant
            osm.wf(),
            table == osm.nodes.nodes(),
            index.wf(),
            forall|k: int|
                0 <= k < index@.len() ==> node_with_id(table, #[trigger] index@[k]) is Some,
            graph.wf(),
            graph.nodes() == index@.len(),
            edges@.len() == graph.ends().len(),
            roads.len() == edges@.len(),
            forall|k: int|
                0 <= k < roads.len() ==> graph.ends()[k] == (
                    (#[trigger] roads[k]).from,
                    roads[k].to,
                ) && roads[k].edge == edges@[k]@,
            i <= index@.len(),
            nodes@.len() == i,
            nodes@.map_values(|n: RoadNode| n.osm_id) == index@.take(i as int),
            forall|k: int| 0 <= k < i ==> stands_for_node(table, roads, k, #[trigger] nodes@[k]),
        decreases index@.len() - i,
    {
        let id: u64 = index.at(i);
        let ghost before = nodes@;
        match find_node(&osm.nodes, id) {
            Some(n) => {
                let tagged: IntersectionType = determine_intersection_type(&n.tags);
                let intersection_type: IntersectionType = if tagged
                    == IntersectionType::TrafficLight && !ways_meet_at(
                    graph,
                    edges,
                    i,
                    Ghost(roads),
                ) {
                    IntersectionType::Plain
                } else {
                    tagged
                };
                proof {
                    lemma_found(table, id);
                }
                nodes.push(RoadNode { osm_id: id, lat: n.lat, lng: n.lng, intersection_type });
                proof {
                    assert(nodes@.map_values(|n: RoadNode| n.osm_id) =~= index@.take(i + 1));
                    assert forall|k: int| 0 <= k < i + 1 implies stands_for_node(
                        table,
                        roads,
                        k,
                        #[trigger] nodes@[k],
                    ) by {
                        if k < i {
                            assert(nodes@[k] == before[k]);
                        }
                    }
                }
            },
            None => {
                assert(node_with_id(table, index@[i as int]) is Some);
            },
        }
        i = i + 1;
    }
    assert(index@.take(i as int) =~= index@);
    nodes
}

/// A node found by its id has that id and is one of the nodes.
proof fn lemma_found(nodes: Seq<OsmNode>, id: u64)
    ensures
        node_with_id(nodes, id) matches Some(n) ==> n.id == id && nodes.contains(n),
    decreases nodes.len(),
{
    if nodes.len() > 0 {
        if nodes[0].id == id {
            assert(nodes.contains(nodes[0]));
        } else {
            let rest = nodes.skip(1);
            lemma_found(rest, id);
            if node_with_id(rest, id) is Some {
                let n = node_with_id(rest, id).unwrap();
                let i = choose|i: int| 0 <= i < rest.len() && rest[i] == n;
                assert(nodes[i + 1] == n);
            }
        }
    }
}

/// Whether all loaded nodes lie within the searchable range.
pub open spec fn nodes_in_range(nodes: Seq<OsmNode>) -> bool {
    forall|i: int| 0 <= i < nodes.len() ==> in_range(((#[trigger] nodes[i]).lng, nodes[i].lat))
}

/// An outline of nodes in range is in range, and so are the means of its coordinates.
proof fn lemma_outline_in_range(nodes: Seq<OsmNode>, refs: Seq<u64>)
    requires
        nodes_in_range(nodes),
    ensures
        -MAX_COORDINATE * outline(nodes, refs).len() <= sum_first(outline(nodes, refs))
            <= MAX_COORDINATE * outline(nodes, refs).len(),
        -MAX_COORDINATE * outline(nodes, refs).len() <= sum_second(outline(nodes, refs))
            <= MAX_COORDINATE * outline(nodes, refs).len(),
    decreases refs.len(),
{
    if refs.len() > 0 {
        let rest = refs.drop_last();
        lemma_outline_in_range(nodes, rest);
        lemma_found(nodes, refs.last());
        if node_with_id(nodes, refs.last()) is Some {
            let n = node_with_id(nodes, refs.last()).unwrap();
            let i = choose|i: int| 0 <= i < nodes.len() && nodes[i] == n;
            assert(in_range((nodes[i].lng, nodes[i].lat)));
            let before = outline(nodes, rest);
            let after = outline(nodes, refs);
            assert(after.drop_last() =~= before);
            let c = MAX_COORDINATE as int;
            let k = before.len() as int;
            assert(c * (k + 1) == c * k + c) by (nonlinear_arith);
            assert(-c * (k + 1) == -c * k - c) by (nonlinear_arith);
        }
    }
}

/// The centres of buildings between nodes in range are in range.
proof fn lemma_centres_in_range(nodes: Seq<OsmNode>, ways: Seq<OsmWay>)
    requires
        nodes_in_range(nodes),
    ensures
        forall|k: int|
            0 <= k < buildings_of(nodes, ways).len() ==> -MAX_COORDINATE <= (
            #[trigger] buildings_of(nodes, ways)[k]).centroid.0 <= MAX_COORDINATE
                && -MAX_COORDINATE <= buildings_of(nodes, ways)[k].centroid.1 <= MAX_COORDINATE,
    decreases ways.len(),
{
    if ways.len() > 0 {
        lemma_centres_in_range(nodes, ways.drop_last());
        let before = buildings_of(nodes, ways.drop_last());
        let all = buildings_of(nodes, ways);
        assert forall|k: int| 0 <= k < all.len() implies -MAX_COORDINATE <= (
        #[trigger] all[k]).centroid.0 <= MAX_COORDINATE && -MAX_COORDINATE <= all[k].centroid.1
            <= MAX_COORDINATE by {
            if k < before.len() {
                assert(all[k] == before[k]);
            } else {
                let refs = ways.last().node_refs@;
                let polygon = outline(nodes, refs);
                lemma_outline_in_range(nodes, refs);
                lemma_mean_in_range(sum_first(polygon), polygon.len() as int);
                lemma_mean_in_range(sum_second(polygon), polygon.len() as int);
            }
        }
    }
}

proof fn lemma_mean_in_range(sum: int, n: int)
    requires
        n > 0,
        -MAX_COORDINATE * n <= sum <= MAX_COORDINATE * n,
    ensures
        -MAX_COORDINATE <= sum / n <= MAX_COORDINATE,
{
    let c = MAX_COORDINATE as int;
    assert(-c <= sum / n <= c) by (nonlinear_arith)
        requires
            n > 0,
            -c * n <= sum <= c * n,
    ;
}

/// The road network of the loaded elements.
pub open spec fn area_roads(osm: OsmData, speeds: Seq<i64>) -> Seq<RoadPlan> {
    roads_of(road_node_ids(osm.nodes.nodes(), osm.ways@), osm.ways@, speeds)
}

/// Builds the map of a loaded area. `speeds` holds the speed limit of each way. The segments
/// are measured afterwards.
pub fn build_road_network(osm: &OsmData, speeds: &Vec<i64>, lane_width: i64) -> (r: MapData)
    requires
        osm.wf(),
        speeds@.len() == osm.ways@.len(),
        nodes_in_range(osm.nodes.nodes()),
        road_node_ids(osm.nodes.nodes(), osm.ways@).len() <= u32::MAX,
        area_roads(*osm, speeds@).len() <= MAX_ROAD_SEGMENTS,
        tram_node_ids(osm.nodes.nodes(), osm.tram_ways@).len() <= u32::MAX,
        tracks_of(
            tram_node_ids(osm.nodes.nodes(), osm.tram_ways@),
            osm.tram_ways@,
            road_node_ids(osm.nodes.nodes(), osm.ways@),
        ).len() <= u32::MAX,
    ensures
        r.wf(),
        r.node_index_map@ == road_node_ids(osm.nodes.nodes(), osm.ways@),
        ({
            let roads = area_roads(*osm, speeds@);
            &&& forall|i: int|
                0 <= i < r.nodes@.len() ==> stands_for_node(
                    osm.nodes.nodes(),
                    roads,
                    i,
                    #[trigger] r.nodes@[i],
                )
            &&& r.graph.ends() == roads.map_values(|p: RoadPlan| (p.from, p.to))
            &&& r.edge_views() == roads.map_values(|p: RoadPlan| p.edge)
        }),
        r.graph.built_in_order(),
        bounds(r.nodes@, r.bbox),
        r.spawn_points@ == spawn_places(r.graph, r.nodes@, r.bbox),
        r.boundary_nodes@ == boundary_places(r.graph, r.nodes@, r.bbox),
        r.od_buildings@.len() == buildings_of(osm.nodes.nodes(), osm.ways@).len(),
        forall|k: int|
            0 <= k < r.od_buildings@.len() ==> linked(
                buildings_of(osm.nodes.nodes(), osm.ways@)[k],
                (#[trigger] r.od_buildings@[k])@,
                r.nodes@,
            ),
        r.restrictions@ == restrictions_of(osm.relations@),
        is_tram_network(*osm, r.node_index_map@, r.tram_data),
        !r.is_sandbox,
        !r.sandbox_simple_cross_tl,
        r.lane_width == lane_width,
        r.turn_connectors@.len() == 0,
        r.lanes.connected_up_to(
            r.graph,
            r.nodes@,
            r.edges@,
            lane_width,
            r.edges@.len() as int,
            0,
        ),
        r.conflict_areas@.len() == 0,
{
    let ghost table = osm.nodes.nodes();
    let ghost roads = area_roads(*osm, speeds@);
    let index: IdIndex = collect_road_nodes(osm);
    let (ends, edges): (Vec<(usize, usize)>, Vec<RoadEdge>) = collect_roads(osm, &index, speeds);
    assert(roads.len() == ends@.len());
    let draft: Topology = Topology::from_edges(index.len(), &ends);
    proof {
        assert forall|k: int| 0 <= k < roads.len() implies draft.ends()[k] == (
            (#[trigger] roads[k]).from,
            roads[k].to,
        ) && roads[k].edge == edges@[k]@ by {
            assert(roads[k] == road_plans(ends@, edges@)[k]);
        }
    }
    let nodes: Vec<RoadNode> = make_road_nodes(osm, &index, &draft, &edges, Ghost(roads));
    proof {
        index.lemma_distinct();
        assert(nodes@.map_values(|n: RoadNode| n.osm_id).len() == nodes@.len());
        lemma_few_lanes(edges@, edges@.len() as int, 8);
    }
    let mut map: MapData = assemble(
        nodes,
        &ends,
        edges,
        Vec::new(),
        Vec::new(),
        false,
        lane_width,
    );
    map.spawn_points = find_spawn_points(&map.graph, &map.nodes, &map.bbox);
    map.boundary_nodes = find_boundary_nodes(&map.graph, &map.nodes, &map.bbox);
    let mut buildings: Vec<OdBuilding> = extract_od_buildings(osm);
    let ghost views = buildings_of(table, osm.ways@);
    proof {
        lemma_centres_in_range(table, osm.ways@);
        assert forall|i: int| 0 <= i < buildings@.len() implies in_range(
            (#[trigger] buildings@[i]).centroid,
        ) by {
            assert(buildings@.map_values(|b: OdBuilding| b@)[i] == buildings@[i]@);
            assert(views[i] == buildings@[i]@);
        }
        assert forall|i: int| 0 <= i < map.nodes@.len() implies in_range(
            ((#[trigger] map.nodes@[i]).lng, map.nodes@[i].lat),
        ) by {
            assert(stands_for_node(table, roads, i, nodes@[i]));
            lemma_found(table, nodes@[i].osm_id);
            let n = node_with_id(table, nodes@[i].osm_id).unwrap();
            let k = choose|k: int| 0 <= k < table.len() && table[k] == n;
            assert(in_range((table[k].lng, table[k].lat)));
        }
    }
    let ghost plain = buildings@;
    link_to_road_nodes(&mut buildings, &map.nodes);
    map.od_buildings = buildings;
    map.restrictions = build_turn_restrictions(&osm.relations);
    map.tram_data = build_tram_network(osm, &map.node_index_map);
    proof {
        assert(map.graph.ends() =~= roads.map_values(|p: RoadPlan| (p.from, p.to))) by {
            assert forall|k: int| 0 <= k < roads.len() implies map.graph.ends()[k] == (
                (#[trigger] roads[k]).from,
                roads[k].to,
            ) by {
                assert(roads[k] == road_plans(ends@, edges@)[k]);
            }
        }
        assert(map.edge_views() =~= roads.map_values(|p: RoadPlan| p.edge)) by {
            assert forall|k: int| 0 <= k < roads.len() implies map.edge_views()[k] == (
            #[trigger] roads[k]).edge by {
                assert(roads[k] == road_plans(ends@, edges@)[k]);
            }
        }
        assert forall|k: int| 0 <= k < map.od_buildings@.len() implies linked(
            views[k],
            (#[trigger] map.od_buildings@[k])@,
            map.nodes@,
        ) by {
            assert(plain.map_values(|b: OdBuilding| b@)[k] == plain[k]@);
            assert(linked(plain[k]@, map.od_buildings@[k]@, map.nodes@));
        }
    }
    map
}

/// On the grid every node is joined to each of its neighbours, in both directions.
pub proof fn law_grid_joins_neighbours(a: int)
    requires
        0 <= a < 9,
    ensures
        a % 3 < 2 ==> exists|k: int|
            0 <= k < 24 && #[trigger] grid_ends(k) == (a, a + 1) && grid_ends(k + 1) == (a + 1, a),
        a < 6 ==> exists|k: int|
            0 <= k < 24 && #[trigger] grid_ends(k) == (a, a + 3) && grid_ends(k + 1) == (a + 3, a),
{
    if a % 3 < 2 {
        let s = 2 * (a / 3) + a % 3;
        assert(grid_ends(2 * s) == (a, a + 1) && grid_ends(2 * s + 1) == (a + 1, a));
    }
    if a < 6 {
        let s = 6 + 2 * (a % 3) + a / 3;
        assert(grid_ends(2 * s) == (a, a + 3) && grid_ends(2 * s + 1) == (a + 3, a));
    }
}

/// Every two known nodes that follow each other on a road are joined: along the way unless it is driven
/// against its nodes only, and back unless it is driven along them only. The segments are those of the
/// way and have its limit.
pub proof fn law_roads_join_nodes(
    acc: Seq<RoadPlan>,
    ids: Seq<u64>,
    refs: Seq<u64>,
    way: OsmWay,
    max_speed: i64,
    i: int,
)
    requires
        0 <= i < refs.len() - 1,
        ids.contains(refs[i]),
        ids.contains(refs[i + 1]),
    ensures
        oneway_of(way.tags@) != -1 ==> exists|k: int|
            0 <= k < add_roads(acc, ids, refs, way, max_speed).len() && joins_as(
                #[trigger] add_roads(acc, ids, refs, way, max_speed)[k],
                place_of(ids, refs[i]),
                place_of(ids, refs[i + 1]),
                way,
                max_speed,
            ),
        oneway_of(way.tags@) != 1 ==> exists|k: int|
            0 <= k < add_roads(acc, ids, refs, way, max_speed).len() && joins_as(
                #[trigger] add_roads(acc, ids, refs, way, max_speed)[k],
                place_of(ids, refs[i + 1]),
                place_of(ids, refs[i]),
                way,
                max_speed,
            ),
    decreases refs.len(),
{
    let front = refs.drop_last();
    let before = add_roads(acc, ids, front, way, max_speed);
    let now = add_roads(acc, ids, refs, way, max_speed);
    let (a, b) = (place_of(ids, refs[i]), place_of(ids, refs[i + 1]));
    let o = oneway_of(way.tags@);
    if i < front.len() - 1 {
        assert(front[i] == refs[i] && front[i + 1] == refs[i + 1]);
        law_roads_join_nodes(acc, ids, front, way, max_speed, i);
        if o != -1 {
            let k = choose|k: int|
                0 <= k < before.len() && joins_as(#[trigger] before[k], a, b, way, max_speed);
            assert(now[k] == before[k]);
        }
        if o != 1 {
            let k = choose|k: int|
                0 <= k < before.len() && joins_as(#[trigger] before[k], b, a, way, max_speed);
            assert(now[k] == before[k]);
        }
    } else {
        let n = before.len() as int;
        assert(joins_as(now[n], a, b, way, max_speed) || o == -1);
        if o == -1 {
            assert(joins_as(now[n], b, a, way, max_speed));
        } else if o != 1 {
            assert(joins_as(now[n + 1], b, a, way, max_speed));
        }
    }
}

/// Whether a segment leads from one place to another and belongs to a way.
pub open spec fn joins_as(r: RoadPlan, from: int, to: int, way: OsmWay, max_speed: i64) -> bool {
    r.from == from && r.to == to && r.edge.osm_id == way.id && r.edge.max_speed == max_speed
        && r.edge.lanes == way_lanes(way) as u8
}

/// A road that is driven in one direction has one segment between two nodes, any other has two.
pub proof fn law_segments_counted(
    acc: Seq<RoadPlan>,
    ids: Seq<u64>,
    refs: Seq<u64>,
    way: OsmWay,
    max_speed: i64,
)
    requires
        forall|i: int| 0 <= i < refs.len() ==> ids.contains(#[trigger] refs[i]),
        refs.len() > 0,
    ensures
        add_roads(acc, ids, refs, way, max_speed).len() == acc.len() + (refs.len() - 1) * if oneway_of(
            way.tags@,
        ) == 1 || oneway_of(way.tags@) == -1 {
            1int
        } else {
            2
        },
    decreases refs.len(),
{
    let front = refs.drop_last();
    if refs.len() > 1 {
        assert forall|i: int| 0 <= i < front.len() implies ids.contains(#[trigger] front[i]) by {
            assert(front[i] == refs[i]);
        }
        law_segments_counted(acc, ids, front, way, max_speed);
        assert(ids.contains(refs[refs.len() - 2]) && ids.contains(refs[refs.len() - 1]));
    }
}

/// A signal is kept only where segments of two different ways meet.
pub proof fn law_signals_stand_at_crossings(n: OsmNode, roads: Seq<RoadPlan>, place: int)
    ensures
        road_node_of(n, roads, place).intersection_type == IntersectionType::TrafficLight ==> exists|
            i: int,
            j: int,
        |
            #![trigger roads[i], roads[j]]
            0 <= i < roads.len() && (roads[i].from == place || roads[i].to == place) && 0 <= j
                < roads.len() && (roads[j].from == place || roads[j].to == place)
                && roads[i].edge.osm_id != roads[j].edge.osm_id,
        intersection_type_of(n.tags@) != IntersectionType::TrafficLight ==> road_node_of(
            n,
            roads,
            place,
        ).intersection_type == intersection_type_of(n.tags@),
{
}

/// The nodes of the grid lie in rows of three, a step apart, round the middle one.
pub proof fn law_grid_places(cy: int, cx: int, step_lat: int, step_lng: int, k: int)
    requires
        0 <= k < 9,
        -1_000_000_000_000 <= cy <= 1_000_000_000_000,
        -1_000_000_000_000 <= cx <= 1_000_000_000_000,
        0 <= step_lat <= 1_000_000_000_000,
        0 <= step_lng <= 1_000_000_000_000,
    ensures
        ({
            let n = grid_node(cy, cx, step_lat, step_lng, k);
            let east = grid_node(cy, cx, step_lat, step_lng, k + 1);
            let north = grid_node(cy, cx, step_lat, step_lng, k + 3);
            &&& k == 4 ==> n.lat == cy && n.lng == cx
            &&& k % 3 < 2 ==> east.lat == n.lat && east.lng == n.lng + step_lng
            &&& k < 6 ==> north.lng == n.lng && north.lat == n.lat + step_lat
            &&& n.osm_id == k
        }),
{
    let (r, c) = (k / 3 - 1, k % 3 - 1);
    assert(-1 <= r <= 1 && -1 <= c <= 1);
    assert((r == -1 || r == 0 || r == 1) && (c == -1 || c == 0 || c == 1));
    assert(-1 * step_lat == -step_lat && 0 * step_lat == 0 && 1 * step_lat == step_lat && 2
        * step_lat == step_lat + step_lat);
    assert(-1 * step_lng == -step_lng && 0 * step_lng == 0 && 1 * step_lng == step_lng && 2
        * step_lng == step_lng + step_lng);
}

/// The nodes of the road network are exactly the known nodes on roads.
pub proof fn law_road_nodes(nodes: Seq<OsmNode>, ways: Seq<OsmWay>, id: u64)
    ensures
        road_node_ids(nodes, ways).contains(id) <==> node_with_id(nodes, id) is Some && exists|i: int|
            0 <= i < ways.len() && is_road(#[trigger] ways[i]) && ways[i].node_refs@.contains(id),
        road_node_ids(nodes, ways).no_duplicates(),
    decreases ways.len(),
{
    if ways.len() > 0 {
        let front = ways.drop_last();
        law_road_nodes(nodes, front, id);
        let before = road_node_ids(nodes, front);
        let n = front.len() as int;
        crate::map::id_index::law_known_ids_are_added(nodes, before, ways[n].node_refs@, id);
        if exists|i: int|
            0 <= i < front.len() && is_road(#[trigger] front[i]) && front[i].node_refs@.contains(id) {
            let i = choose|i: int|
                0 <= i < front.len() && is_road(#[trigger] front[i]) && front[i].node_refs@.contains(
                    id,
                );
            assert(ways[i] == front[i]);
        }
        if exists|i: int|
            0 <= i < ways.len() && is_road(#[trigger] ways[i]) && ways[i].node_refs@.contains(id) {
            let i = choose|i: int|
                0 <= i < ways.len() && is_road(#[trigger] ways[i]) && ways[i].node_refs@.contains(id);
            if i < n {
                assert(front[i] == ways[i]);
            }
        }
    }
}

/// On the mixed grid the three roads of each direction have one, two and three lanes; on the others all
/// have the same.
pub proof fn law_lanes_of_grid(grid_type: Seq<char>, a: int, b: int)
    requires
        0 <= a < b < 3,
    ensures
        1 <= grid_lanes(grid_type, a) <= grid_lanes(grid_type, b) <= 3,
        grid_type == "one_lane"@ ==> grid_lanes(grid_type, a) == 1 && grid_lanes(grid_type, b) == 1,
        grid_type != "one_lane"@ && grid_type == "two_lane"@ ==> grid_lanes(grid_type, a) == 2
            && grid_lanes(grid_type, b) == 2,
        grid_type != "one_lane"@ && grid_type != "two_lane"@ && grid_type != "three_lane"@
            ==> grid_lanes(grid_type, b) - grid_lanes(grid_type, a) == b - a && grid_lanes(
            grid_type,
            0,
        ) == 1,
{
}

} // verus!
