//! The planned way of a vehicle through the junction ahead.

use vstd::prelude::*;

use crate::map::curves::{
    in_half_plane, lane_center_offset, lane_line, lane_line_place, lane_offset, line_intersection,
    lines_meet, move_by, moved_by, unit, unit_of, HALF_PLACE,
};
use crate::map::lane_graph::{lane_count, layout_width, MIN_LANE_WIDTH};
use crate::map::map_data::MapData;
use crate::map::polyline::{
    all_in_plane, closest_arclength_on_path, find_between, in_plane, place_between, sample_on,
    sample_path_at, way_along,
};
use crate::map::road_network::{RoadEdge, RoadNode};
use crate::simulation::bezier_smooth::curve_at;
use crate::simulation::conflict_build::{bends, does_bend};
use crate::simulation::direction::ends_of;
use crate::simulation::leader::{lane_at, lane_by_edge_lane};
use crate::simulation::obstacle::PlannedTurnConnector;
use crate::simulation::right_of_way::{
    movement_turn_intent, turn_intent, turn_intent_label, turn_intent_text,
};
use crate::simulation::route::{connector_between, find_connector_lane_id};
use crate::units::{
    between, clamp_to, distance, floor_div, from_plane, globe, larger, max_of, plane, saturate,
    saturated, share, share_of, span, to_plane, FULL, METRE,
};
use crate::vehicles::vehicle::Vehicle;

verus! {

/// How far before a junction a planned turn leaves its edge.
pub const TURN_CONNECTOR_ENTRY: i64 = 12_000_000;

/// How far behind a junction a planned turn meets its edge.
pub const TURN_CONNECTOR_EXIT: i64 = 30_000_000;

/// The largest lane width that is laid out.
pub const MAX_LANE_WIDTH: i64 = 0x1_0000_0000;

/// Where a turn leaves an edge of the given length, in billionths of it.
pub open spec fn entry_of(length: int) -> int {
    between(FULL - share(TURN_CONNECTOR_ENTRY as int, larger(length, METRE as int)), 0, FULL as int)
}

/// Where a turn meets an edge of the given length.
pub open spec fn exit_of(length: int) -> int {
    between(share(TURN_CONNECTOR_EXIT as int, larger(length, METRE as int)), 0, FULL as int)
}

/// Where a turn leaves an edge of the given length.
pub fn turn_entry(length: i64) -> (r: i64)
    ensures
        r == entry_of(length as int),
        0 <= r <= FULL,
{
    let l: i64 = max_of(length, METRE);
    proof {
        lemma_share_bound(TURN_CONNECTOR_ENTRY as int, l as int);
    }
    clamp_to(FULL - share_of(TURN_CONNECTOR_ENTRY, l), 0, FULL)
}

/// Where a turn meets an edge of the given length.
pub fn turn_exit(length: i64) -> (r: i64)
    ensures
        r == exit_of(length as int),
        0 <= r <= FULL,
{
    let l: i64 = max_of(length, METRE);
    proof {
        lemma_share_bound(TURN_CONNECTOR_EXIT as int, l as int);
    }
    clamp_to(share_of(TURN_CONNECTOR_EXIT, l), 0, FULL)
}

proof fn lemma_share_bound(x: int, l: int)
    requires
        0 <= x <= 30_000_000,
        l >= 1_000_000,
    ensures
        0 <= share(x, l) <= 30_000_000_000,
{
    assert(0 <= x * FULL / l <= 30_000_000_000) by (nonlinear_arith)
        requires
            0 <= x <= 30_000_000,
            l >= 1_000_000,
            FULL == 1_000_000_000,
    ;
}

/// The place of a node in the plane.
pub open spec fn node_place(n: RoadNode) -> (i64, i64) {
    (plane(n.lat as int, n.lng as int).0 as i64, plane(n.lat as int, n.lng as int).1 as i64)
}

/// Whether the nodes of a map can be measured and its lanes laid out.
pub open spec fn can_be_drawn(map: MapData) -> bool {
    &&& forall|i: int| 0 <= i < map.nodes@.len() ==> in_half_plane(
        node_place(#[trigger] map.nodes@[i]),
    )
    &&& layout_width(map.lane_width) <= MAX_LANE_WIDTH
}

fn find_width(map: &MapData) -> (r: i64)
    ensures
        r == layout_width(map.lane_width),
        r >= 0,
{
    max_of(map.lane_width, MIN_LANE_WIDTH)
}

/// Whether the nodes of a map can be measured and its lanes laid out.
pub fn is_drawable(map: &MapData) -> (r: bool)
    ensures
        r == can_be_drawn(*map),
{
    if find_width(map) > MAX_LANE_WIDTH {
        return false;
    }
    let mut i: usize = 0;
    while i < map.nodes.len()
        invariant
            i <= map.nodes@.len(),
            forall|k: int| 0 <= k < i ==> in_half_plane(node_place(#[trigger] map.nodes@[k])),
        decreases map.nodes.len() - i,
    {
        let p: (i64, i64) = to_plane(map.nodes[i].lat, map.nodes[i].lng);
        let b: i64 = HALF_PLACE;
        if p.0 < -b || p.0 > b || p.1 < -b || p.1 > b {
            assert(!in_half_plane(node_place(map.nodes@[i as int])));
            return false;
        }
        i = i + 1;
    }
    true
}

/// The length of a quadratic curve as a sum of 24 chords, up to chord `i`.
pub open spec fn curve_length(p: (int, int), c: (int, int), q: (int, int), i: int) -> int
    decreases i,
{
    if i <= 0 {
        0
    } else {
        saturated(
            curve_length(p, c, q, i - 1) + span(
                chord_end(p, c, q, i).0,
                chord_end(p, c, q, i).1,
                chord_end(p, c, q, i - 1).0,
                chord_end(p, c, q, i - 1).1,
            ),
        )
    }
}

/// The end of chord `i`.
pub open spec fn chord_end(p: (int, int), c: (int, int), q: (int, int), i: int) -> (int, int) {
    let t = i * FULL / 24;
    (
        saturated(curve_at(p.0, c.0, q.0, t)),
        saturated(curve_at(p.1, c.1, q.1, t)),
    )
}

fn find_chord_end(p: (i64, i64), c: (i64, i64), q: (i64, i64), i: usize) -> (r: (i64, i64))
    requires
        i <= 24,
    ensures
        (r.0 as int, r.1 as int) == chord_end(
            (p.0 as int, p.1 as int),
            (c.0 as int, c.1 as int),
            (q.0 as int, q.1 as int),
            i as int,
        ),
{
    let t: i64 = i as i64 * 1_000_000_000 / 24;
    (
        crate::simulation::bezier_smooth::eval_coordinate(p.0, c.0, q.0, t),
        crate::simulation::bezier_smooth::eval_coordinate(p.1, c.1, q.1, t),
    )
}

/// The length of a quadratic curve as a sum of 24 chords.
pub fn bezier_length(p: (i64, i64), c: (i64, i64), q: (i64, i64)) -> (r: i64)
    ensures
        r == curve_length(
            (p.0 as int, p.1 as int),
            (c.0 as int, c.1 as int),
            (q.0 as int, q.1 as int),
            24,
        ),
{
    let mut total: i64 = 0;
    let mut prev: (i64, i64) = find_chord_end(p, c, q, 0);
    let mut i: usize = 1;
    while i <= 24
        invariant
            1 <= i <= 25,
            (prev.0 as int, prev.1 as int) == chord_end(
                (p.0 as int, p.1 as int),
                (c.0 as int, c.1 as int),
                (q.0 as int, q.1 as int),
                i - 1,
            ),
            total == curve_length(
                (p.0 as int, p.1 as int),
                (c.0 as int, c.1 as int),
                (q.0 as int, q.1 as int),
                i - 1,
            ),
        decreases 25 - i,
    {
        let curr: (i64, i64) = find_chord_end(p, c, q, i);
        total = saturate(total as i128 + distance(curr.0, curr.1, prev.0, prev.1) as i128);
        prev = curr;
        i = i + 1;
    }
    total
}

/// Where a turn between two lanes leaves the one and meets the other, in the plane, with the
/// directions there.
pub open spec fn turn_ends(
    map: MapData,
    in_edge: usize,
    out_edge: usize,
    in_lane: u8,
    out_lane: u8,
) -> ((int, int), (int, int), (int, int), (int, int)) {
    let i = map.graph.ends()[in_edge as int];
    let o = map.graph.ends()[out_edge as int];
    let a = node_place(map.nodes@[i.0]);
    let j = node_place(map.nodes@[i.1]);
    let b = node_place(map.nodes@[o.1]);
    let e = map.edges@[in_edge as int];
    let f = map.edges@[out_edge as int];
    let w = layout_width(map.lane_width) as int;
    let u = unit(j.0 - a.0, j.1 - a.1);
    let v = unit(b.0 - j.0, b.1 - j.1);
    let p = moved_by(
        place_between(a, j, entry_of(e.length as int)),
        (u.1, -u.0),
        lane_offset(in_lane as int, lane_count(e.lanes as int), e.oneway, w),
    );
    let q = moved_by(
        place_between(j, b, exit_of(f.length as int)),
        (v.1, -v.0),
        lane_offset(out_lane as int, lane_count(f.lanes as int), f.oneway, w),
    );
    (p, u, q, v)
}

/// The point that a turn bends towards: where the lines of its ends meet, else half-way between
/// them.
pub open spec fn turn_control(ends: ((int, int), (int, int), (int, int), (int, int))) -> (int, int) {
    let (p, u, q, v) = ends;
    match lines_meet(p, u, q, (-v.0, -v.1)) {
        Some(c) => (saturated(c.0), saturated(c.1)),
        None => ((p.0 + q.0) / 2, (p.1 + q.1) / 2),
    }
}

/// A turn from its ends and its control point, placed on the globe.
pub open spec fn plan_from(
    entry: int,
    exit: int,
    length: int,
    p: (int, int),
    c: (int, int),
    q: (int, int),
) -> PlannedTurnConnector {
    PlannedTurnConnector {
        entry_progress: entry as i64,
        exit_progress: exit as i64,
        length: length as i64,
        p1: (globe(p.0, p.1).0 as i64, globe(p.0, p.1).1 as i64),
        ctrl: (globe(c.0, c.1).0 as i64, globe(c.0, c.1).1 as i64),
        p2: (globe(q.0, q.1).0 as i64, globe(q.0, q.1).1 as i64),
    }
}

/// The turn between two lanes without a connector: there is one where the way bends.
pub open spec fn movement_plan(
    map: MapData,
    in_edge: usize,
    out_edge: usize,
    in_lane: u8,
    out_lane: u8,
) -> Option<PlannedTurnConnector> {
    match ends_of(map, in_edge) {
        Some(i) => if bends(map, in_edge, out_edge, i.1) {
            let ends = turn_ends(map, in_edge, out_edge, in_lane, out_lane);
            let c = turn_control(ends);
            Some(
                plan_from(
                    entry_of(map.edges@[in_edge as int].length as int),
                    exit_of(map.edges@[out_edge as int].length as int),
                    curve_length(ends.0, c, ends.2, 24),
                    ends.0,
                    c,
                    ends.2,
                ),
            )
        } else {
            None
        },
        None => None,
    }
}

fn lanes_laid_out(lanes: u8) -> (r: u8)
    ensures
        r == lane_count(lanes as int),
{
    if lanes == 0 {
        1
    } else {
        lanes
    }
}

fn find_control(p: (i64, i64), u: (i64, i64), q: (i64, i64), v: (i64, i64)) -> (r: (i64, i64))
    requires
        -0x4000_0000_0000 <= p.0 <= 0x4000_0000_0000,
        -0x4000_0000_0000 <= p.1 <= 0x4000_0000_0000,
        -0x4000_0000_0000 <= q.0 <= 0x4000_0000_0000,
        -0x4000_0000_0000 <= q.1 <= 0x4000_0000_0000,
        -FULL <= u.0 <= FULL,
        -FULL <= u.1 <= FULL,
        -FULL <= v.0 <= FULL,
        -FULL <= v.1 <= FULL,
    ensures
        (r.0 as int, r.1 as int) == turn_control(
            (
                (p.0 as int, p.1 as int),
                (u.0 as int, u.1 as int),
                (q.0 as int, q.1 as int),
                (v.0 as int, v.1 as int),
            ),
        ),
{
    match line_intersection(p, u, q, (-v.0, -v.1)) {
        Some(c) => (saturate(c.0), saturate(c.1)),
        None => (
            floor_div(p.0 as i128 + q.0 as i128, 2) as i64,
            floor_div(p.1 as i128 + q.1 as i128, 2) as i64,
        ),
    }
}

fn make_plan(
    entry: i64,
    exit: i64,
    length: i64,
    p: (i64, i64),
    c: (i64, i64),
    q: (i64, i64),
) -> (r: PlannedTurnConnector)
    ensures
        r == plan_from(
            entry as int,
            exit as int,
            length as int,
            (p.0 as int, p.1 as int),
            (c.0 as int, c.1 as int),
            (q.0 as int, q.1 as int),
        ),
{
    PlannedTurnConnector {
        entry_progress: entry,
        exit_progress: exit,
        length,
        p1: from_plane(p.0 as i128, p.1 as i128),
        ctrl: from_plane(c.0 as i128, c.1 as i128),
        p2: from_plane(q.0 as i128, q.1 as i128),
    }
}

/// The place beside the way from `a` to `b` where a lane of an edge lies.
fn place_beside(
    a: (i64, i64),
    b: (i64, i64),
    part: i64,
    u: (i64, i64),
    lane: u8,
    edge: &RoadEdge,
    width: i64,
) -> (r: (i64, i64))
    requires
        in_half_plane(a),
        in_half_plane(b),
        0 <= part <= FULL,
        -FULL <= u.0 <= FULL,
        -FULL <= u.1 <= FULL,
        0 <= width <= MAX_LANE_WIDTH,
    ensures
        (r.0 as int, r.1 as int) == moved_by(
            place_between(a, b, part as int),
            (u.1 as int, -u.0),
            lane_offset(
                lane as int,
                lane_count(edge.lanes as int),
                edge.oneway,
                width as int,
            ),
        ),
        -0x4000_0000_0000 <= r.0 <= 0x4000_0000_0000,
        -0x4000_0000_0000 <= r.1 <= 0x4000_0000_0000,
{
    move_by(
        find_between(a, b, part),
        (u.1, -u.0),
        lane_center_offset(lane, lanes_laid_out(edge.lanes), edge.oneway, width),
    )
}

/// The turn between two lanes without a connector.
pub fn connector_for_movement_lane(
    map: &MapData,
    in_edge: usize,
    out_edge: usize,
    in_lane: u8,
    out_lane: u8,
) -> (r: Option<PlannedTurnConnector>)
    requires
        map.wf(),
        can_be_drawn(*map),
    ensures
        r == movement_plan(*map, in_edge, out_edge, in_lane, out_lane),
{
    proof {
        map.graph.lemma_wf();
    }
    let (a_node, j_node): (usize, usize) = match map.graph.edge_endpoints(in_edge) {
        Some(x) => x,
        None => {
            return None;
        },
    };
    if !does_bend(map, in_edge, out_edge, j_node) {
        return None;
    }
    let b_node: usize = match map.graph.edge_endpoints(out_edge) {
        Some((_, b)) => b,
        None => {
            return None;
        },
    };
    let a: (i64, i64) = to_plane(map.nodes[a_node].lat, map.nodes[a_node].lng);
    let j: (i64, i64) = to_plane(map.nodes[j_node].lat, map.nodes[j_node].lng);
    let b: (i64, i64) = to_plane(map.nodes[b_node].lat, map.nodes[b_node].lng);
    assert(a == node_place(map.nodes@[a_node as int]));
    assert(j == node_place(map.nodes@[j_node as int]));
    assert(b == node_place(map.nodes@[b_node as int]));
    let width: i64 = find_width(map);
    let entry: i64 = turn_entry(map.edges[in_edge].length);
    let exit: i64 = turn_exit(map.edges[out_edge].length);
    let u: (i64, i64) = unit_of(j.0 - a.0, j.1 - a.1);
    let v: (i64, i64) = unit_of(b.0 - j.0, b.1 - j.1);
    let p: (i64, i64) = place_beside(a, j, entry, u, in_lane, &map.edges[in_edge], width);
    let q: (i64, i64) = place_beside(j, b, exit, v, out_lane, &map.edges[out_edge], width);
    let ghost ends = turn_ends(*map, in_edge, out_edge, in_lane, out_lane);
    assert(ends.0 == (p.0 as int, p.1 as int));
    assert(ends.2 == (q.0 as int, q.1 as int));
    let c: (i64, i64) = find_control(p, u, q, v);
    let length: i64 = bezier_length(p, c, q);
    Some(make_plan(entry, exit, length, p, c, q))
}

/// The shape of a lane: its places, its length, and for a connector the length of its curve.
pub struct LaneShape {
    pub points: Vec<(i64, i64)>,
    pub length: i64,
    pub curve_length: Option<i64>,
}

/// Whether the shapes of lanes can be measured.
pub open spec fn shapes_ok(shapes: Seq<LaneShape>) -> bool {
    forall|i: int|
        0 <= i < shapes.len() ==> all_in_plane((#[trigger] shapes[i]).points@) && shapes[i].length
            >= 0
}

/// The shape of the lane with an id, where it has one of at least two places.
pub open spec fn shape_of(shapes: Seq<LaneShape>, id: u64) -> Option<LaneShape> {
    if 1 <= id <= shapes.len() && shapes[id - 1].points@.len() >= 2 {
        Some(shapes[id - 1])
    } else {
        None
    }
}

fn find_shape<'a>(shapes: &'a Vec<LaneShape>, id: u64) -> (r: Option<&'a LaneShape>)
    ensures
        match r {
            Some(s) => shape_of(shapes@, id) == Some(*s),
            None => shape_of(shapes@, id) is None,
        },
{
    assert(shapes.len() == shapes@.len());
    if id >= 1 && id <= shapes.len() as u64 && shapes[(id - 1) as usize].points.len() >= 2 {
        Some(&shapes[(id - 1) as usize])
    } else {
        None
    }
}

/// Where on a lane of an edge a place lies, in billionths of the lane; nothing where the lane has no
/// shape.
pub open spec fn place_on_lane(
    map: MapData,
    shapes: Seq<LaneShape>,
    edge: usize,
    lane: u8,
    p: (i64, i64),
) -> Option<int> {
    match lane_at(map, edge, lane) {
        Some(id) => match shape_of(shapes, id) {
            Some(s) => match way_along(s.points@, s.length as int, p) {
                Some(w) => Some(between(share(w, larger(s.length as int, 1000)), 0, FULL as int)),
                None => None,
            },
            None => None,
        },
        None => None,
    }
}

fn find_place_on_lane(
    map: &MapData,
    shapes: &Vec<LaneShape>,
    edge: usize,
    lane: u8,
    p: (i64, i64),
) -> (r: Option<i64>)
    requires
        shapes_ok(shapes@),
        in_plane(p),
    ensures
        place_on_lane(*map, shapes@, edge, lane, p) == (match r {
            Some(x) => Some(x as int),
            None => None,
        }),
{
    match lane_by_edge_lane(map, edge, lane) {
        Some(id) => match find_shape(shapes, id) {
            Some(s) => match closest_arclength_on_path(&s.points, s.length, p) {
                Some(w) => Some(clamp_to(share_of(w, max_of(s.length, 1000)), 0, FULL)),
                None => None,
            },
            None => None,
        },
        None => None,
    }
}

/// The turn along a connector lane: it starts and ends where the connector does.
pub open spec fn lane_plan(
    map: MapData,
    shapes: Seq<LaneShape>,
    s: LaneShape,
    in_edge: usize,
    out_edge: usize,
    in_lane: u8,
    out_lane: u8,
) -> PlannedTurnConnector {
    let p = s.points@[0];
    let c = s.points@[s.points@.len() as int / 2];
    let q = s.points@.last();
    let entry = match place_on_lane(map, shapes, in_edge, in_lane, p) {
        Some(x) => x,
        None => entry_of(edge_length(map, in_edge)),
    };
    let exit = match place_on_lane(map, shapes, out_edge, out_lane, q) {
        Some(x) => x,
        None => exit_of(edge_length(map, out_edge)),
    };
    let length = match s.curve_length {
        Some(l) => l,
        None => s.length,
    };
    plan_from(
        entry,
        exit,
        length as int,
        (p.0 as int, p.1 as int),
        (c.0 as int, c.1 as int),
        (q.0 as int, q.1 as int),
    )
}

/// The length of an edge; none for an unknown one.
pub open spec fn edge_length(map: MapData, e: usize) -> int {
    if e < map.edges@.len() {
        map.edges@[e as int].length as int
    } else {
        0
    }
}

/// The turn that a vehicle plans at the next junction: along the connector between its lanes, where
/// there is one with a shape, else by the bend of the way.
pub open spec fn planned_turn(v: Vehicle, map: MapData, shapes: Seq<LaneShape>) -> Option<
    PlannedTurnConnector,
> {
    match v.movement() {
        Some(m) => {
            let lane = match connector_between(map, m.0, v.current_lane, m.1, v.target_lane) {
                Some(c) => shape_of(shapes, c),
                None => None,
            };
            match lane {
                Some(s) => Some(
                    lane_plan(map, shapes, s, m.0, m.1, v.current_lane, v.target_lane),
                ),
                None => movement_plan(map, m.0, m.1, v.current_lane, v.target_lane),
            }
        },
        None => None,
    }
}

fn find_edge_length(map: &MapData, e: usize) -> (r: i64)
    ensures
        r == edge_length(*map, e),
{
    if e < map.edges.len() {
        map.edges[e].length
    } else {
        0
    }
}

/// The turn that a vehicle plans at the next junction.
pub fn planned_turn_connector(v: &Vehicle, map: &MapData, shapes: &Vec<LaneShape>) -> (r: Option<
    PlannedTurnConnector,
>)
    requires
        map.wf(),
        can_be_drawn(*map),
        shapes_ok(shapes@),
    ensures
        r == planned_turn(*v, *map, shapes@),
{
    let m: (usize, usize) = match v.next_movement() {
        Some(m) => m,
        None => {
            return None;
        },
    };
    let lane: Option<&LaneShape> = match find_connector_lane_id(
        map,
        m.0,
        v.current_lane,
        m.1,
        v.target_lane,
    ) {
        Some(c) => find_shape(shapes, c),
        None => None,
    };
    match lane {
        Some(s) => {
            let n: usize = s.points.len();
            let p: (i64, i64) = s.points[0];
            let c: (i64, i64) = s.points[n / 2];
            let q: (i64, i64) = s.points[n - 1];
            let entry: i64 = match find_place_on_lane(map, shapes, m.0, v.current_lane, p) {
                Some(x) => x,
                None => turn_entry(find_edge_length(map, m.0)),
            };
            let exit: i64 = match find_place_on_lane(map, shapes, m.1, v.target_lane, q) {
                Some(x) => x,
                None => turn_exit(find_edge_length(map, m.1)),
            };
            let length: i64 = match s.curve_length {
                Some(l) => l,
                None => s.length,
            };
            Some(make_plan(entry, exit, length, p, c, q))
        },
        None => connector_for_movement_lane(map, m.0, m.1, v.current_lane, v.target_lane),
    }
}

/// The name of the turn that a vehicle plans.
pub open spec fn turn_name(v: Vehicle, map: MapData, plan: Option<PlannedTurnConnector>) -> Seq<char> {
    match v.movement() {
        Some(m) => if plan is None {
            "end_of_route"@
        } else {
            match ends_of(map, m.0) {
                Some(e) => turn_intent_text(turn_intent(map, m, e.1)),
                None => "unknown"@,
            }
        },
        None => "end_of_route"@,
    }
}

/// The name of the turn that a vehicle plans.
pub fn next_turn_intent_label_for_vehicle(
    v: &Vehicle,
    map: &MapData,
    plan: &Option<PlannedTurnConnector>,
) -> (r: &'static str)
    requires
        map.wf(),
    ensures
        r@ == turn_name(*v, *map, *plan),
{
    proof {
        map.graph.lemma_wf();
    }
    match v.next_movement() {
        Some(m) => {
            if plan.is_none() {
                return "end_of_route";
            }
            match map.graph.edge_endpoints(m.0) {
                Some((_, node)) => turn_intent_label(movement_turn_intent(map, m, node)),
                None => "unknown",
            }
        },
        None => "end_of_route",
    }
}

/// How far ahead a vehicle is steered.
pub const STEERING_LOOKAHEAD: i64 = 7_000_000;

/// The place on a lane at a way along it.
pub open spec fn lane_place(shapes: Seq<LaneShape>, id: Option<u64>, way: int) -> Option<(int, int)> {
    match id {
        Some(id) => match shape_of(shapes, id) {
            Some(s) => Some(sample_on(s.points@, s.length as int, way).0),
            None => None,
        },
        None => None,
    }
}

/// The place that a vehicle is steered to: on the connector that it is on, else on its lane.
pub open spec fn steered_to(v: Vehicle, shapes: Seq<LaneShape>) -> Option<(int, int)> {
    let turn = lane_place(
        shapes,
        v.connector_lane_id,
        saturated(v.turn_dist + STEERING_LOOKAHEAD),
    );
    if v.on_turn_connector && turn is Some {
        turn
    } else {
        lane_place(shapes, v.current_lane_id, saturated(v.lane_progress + STEERING_LOOKAHEAD))
    }
}

fn find_lane_place(shapes: &Vec<LaneShape>, id: Option<u64>, way: i64) -> (r: Option<(i64, i64)>)
    requires
        shapes_ok(shapes@),
    ensures
        lane_place(shapes@, id, way as int) == (match r {
            Some(p) => Some((p.0 as int, p.1 as int)),
            None => None,
        }),
{
    match id {
        Some(id) => match find_shape(shapes, id) {
            Some(s) => match sample_path_at(&s.points, s.length, way) {
                Some(x) => Some(x.place),
                None => None,
            },
            None => None,
        },
        None => None,
    }
}

/// The place that a vehicle is steered to.
pub fn vehicle_lookahead_point(v: &Vehicle, shapes: &Vec<LaneShape>) -> (r: Option<(i64, i64)>)
    requires
        shapes_ok(shapes@),
    ensures
        steered_to(*v, shapes@) == (match r {
            Some(p) => Some((p.0 as int, p.1 as int)),
            None => None,
        }),
{
    if v.on_turn_connector {
        let way: i64 = saturate(v.turn_dist as i128 + STEERING_LOOKAHEAD as i128);
        match find_lane_place(shapes, v.connector_lane_id, way) {
            Some(p) => {
                return Some(p);
            },
            None => {},
        }
    }
    find_lane_place(
        shapes,
        v.current_lane_id,
        saturate(v.lane_progress as i128 + STEERING_LOOKAHEAD as i128),
    )
}

/// How far a turn connector of the editor leaves and meets its edges from the junction.
pub const EDITOR_CONNECTOR_REACH: i64 = 30_000_000;

/// Where a turn connector of the editor leaves an edge of the given length.
pub open spec fn editor_entry(length: int) -> int {
    between(
        FULL - share(EDITOR_CONNECTOR_REACH as int, larger(length, METRE as int)),
        0,
        FULL as int,
    )
}

/// The ends and the control point of a turn connector of the editor: where the lines of its ends are
/// as good as parallel it bends towards the junction.
pub open spec fn editor_curve(
    from: (i64, i64),
    junction: (i64, i64),
    to: (i64, i64),
    in_length: int,
    out_length: int,
) -> ((int, int), (int, int), (int, int)) {
    let p = place_between(from, junction, editor_entry(in_length));
    let q = place_between(junction, to, exit_of(out_length));
    let u = unit(junction.0 - from.0, junction.1 - from.1);
    let v = unit(to.0 - junction.0, to.1 - junction.1);
    let c = match lines_meet(p, u, q, (-v.0, -v.1)) {
        Some(c) => (saturated(c.0), saturated(c.1)),
        None => (junction.0 as int, junction.1 as int),
    };
    (p, c, q)
}

/// The places of a turn connector of the editor, as latitude and longitude.
pub fn turn_connector_lut(
    from: (i64, i64),
    junction: (i64, i64),
    to: (i64, i64),
    in_length: i64,
    out_length: i64,
) -> (r: Vec<(i64, i64)>)
    requires
        in_plane(from),
        in_plane(junction),
        in_plane(to),
    ensures
        r@.len() == 25,
        forall|i: int|
            0 <= i < 25 ==> ({
                let (p, c, q) = editor_curve(
                    from,
                    junction,
                    to,
                    in_length as int,
                    out_length as int,
                );
                let x = chord_end(p, c, q, i);
                ((#[trigger] r@[i]).0 as int, r@[i].1 as int) == globe(x.0, x.1)
            }),
{
    let l: i64 = max_of(in_length, METRE);
    proof {
        lemma_share_bound(EDITOR_CONNECTOR_REACH as int, l as int);
    }
    let entry: i64 = clamp_to(FULL - share_of(EDITOR_CONNECTOR_REACH, l), 0, FULL);
    let p: (i64, i64) = find_between(from, junction, entry);
    let q: (i64, i64) = find_between(junction, to, turn_exit(out_length));
    let u: (i64, i64) = unit_of(junction.0 - from.0, junction.1 - from.1);
    let v: (i64, i64) = unit_of(to.0 - junction.0, to.1 - junction.1);
    let c: (i64, i64) = match line_intersection(p, u, q, (-v.0, -v.1)) {
        Some(c) => (saturate(c.0), saturate(c.1)),
        None => junction,
    };
    let ghost curve = editor_curve(from, junction, to, in_length as int, out_length as int);
    assert(curve == (
        (p.0 as int, p.1 as int),
        (c.0 as int, c.1 as int),
        (q.0 as int, q.1 as int),
    ));
    let mut out: Vec<(i64, i64)> = Vec::new();
    let mut i: usize = 0;
    while i <= 24
        invariant
            i <= 25,
            out@.len() == i,
            curve == (
                (p.0 as int, p.1 as int),
                (c.0 as int, c.1 as int),
                (q.0 as int, q.1 as int),
            ),
            forall|k: int|
                0 <= k < i ==> ({
                    let x = chord_end(curve.0, curve.1, curve.2, k);
                    ((#[trigger] out@[k]).0 as int, out@[k].1 as int) == globe(x.0, x.1)
                }),
        decreases 25 - i,
    {
        let x: (i64, i64) = find_chord_end(p, c, q, i);
        out.push(from_plane(x.0 as i128, x.1 as i128));
        i = i + 1;
    }
    out
}

/// Whether `points` is the middle of a lane of an edge.
pub open spec fn is_lane_line(points: Seq<(i64, i64)>, map: MapData, e: int, lane: int) -> bool {
    let ends = map.graph.ends()[e];
    let edge = map.edges@[e];
    let offset = lane_offset(
        lane,
        lane_count(edge.lanes as int),
        edge.oneway,
        layout_width(map.lane_width) as int,
    );
    &&& points.len() == 13
    &&& forall|i: int|
        0 <= i < 13 ==> ((#[trigger] points[i]).0 as int, points[i].1 as int) == lane_line_place(
            node_place(map.nodes@[ends.0]),
            node_place(map.nodes@[ends.1]),
            offset,
            i,
        )
}

/// The middle of a lane of an edge.
pub fn road_lane_points(map: &MapData, e: usize, lane: u8) -> (r: Vec<(i64, i64)>)
    requires
        map.wf(),
        can_be_drawn(*map),
        e < map.edges@.len(),
    ensures
        is_lane_line(r@, *map, e as int, lane as int),
        all_in_plane(r@),
{
    proof {
        map.graph.lemma_wf();
    }
    match map.graph.edge_endpoints(e) {
        Some((a, b)) => {
            let p: (i64, i64) = to_plane(map.nodes[a].lat, map.nodes[a].lng);
            let q: (i64, i64) = to_plane(map.nodes[b].lat, map.nodes[b].lng);
            assert(p == node_place(map.nodes@[a as int]));
            assert(q == node_place(map.nodes@[b as int]));
            let offset: i64 = lane_center_offset(
                lane,
                lanes_laid_out(map.edges[e].lanes),
                map.edges[e].oneway,
                find_width(map),
            );
            lane_line(p, q, offset)
        },
        None => Vec::new(),
    }
}

/// Every planned turn leaves its edge and meets the next one somewhere on them.
pub proof fn law_turns_stay_on_edges(v: Vehicle, map: MapData, shapes: Seq<LaneShape>)
    ensures
        planned_turn(v, map, shapes) matches Some(p) ==> 0 <= p.entry_progress <= FULL && 0
            <= p.exit_progress <= FULL,
{
}

/// On edges of sixty metres and more a turn without a connector leaves the last fifth of the edge and
/// meets the first half of the next.
pub proof fn law_turns_near_junction(length: int)
    requires
        length >= 60_000_000,
    ensures
        entry_of(length) * 5 >= 4 * FULL,
        exit_of(length) * 2 <= FULL,
{
    assert(12_000_000 * FULL / length <= 200_000_000) by (nonlinear_arith)
        requires
            length >= 60_000_000,
            FULL == 1_000_000_000,
    ;
    assert(30_000_000 * FULL / length <= 500_000_000) by (nonlinear_arith)
        requires
            length >= 60_000_000,
            FULL == 1_000_000_000,
    ;
}

/// A turn leaves its edge 12 m before the end and meets the next one 30 m behind its start, to within a
/// billionth of the edge; edges that are shorter are turned off at their start and met at their end.
pub proof fn law_where_turns_lie(length: int)
    requires
        1_000_000 <= length,
    ensures
        length >= 12_000_000 ==> 12_000_000 * 1_000_000_000 - length < (1_000_000_000 - entry_of(
            length,
        )) * length <= 12_000_000 * 1_000_000_000,
        length < 12_000_000 ==> entry_of(length) == 0,
        length >= 30_000_000 ==> 30_000_000 * 1_000_000_000 - length < exit_of(length) * length
            <= 30_000_000 * 1_000_000_000,
        length < 30_000_000 ==> exit_of(length) == 1_000_000_000,
        length >= 30_000_000 ==> 1_000_000_000 - editor_entry(length) == exit_of(length),
{
    lemma_share_of_way(12_000_000, length);
    lemma_share_of_way(30_000_000, length);
}

proof fn lemma_share_of_way(x: int, length: int)
    requires
        0 < x,
        0 < length,
    ensures
        x * 1_000_000_000 - length < share(x, length) * length <= x * 1_000_000_000,
        length >= x ==> 0 <= share(x, length) <= 1_000_000_000,
        length < x ==> share(x, length) >= 1_000_000_000,
{
    let n = x * 1_000_000_000;
    let s = n / length;
    assert(n - length < s * length <= n) by (nonlinear_arith)
        requires
            s == n / length,
            0 < length,
    ;
    if length >= x {
        assert(0 <= s <= 1_000_000_000) by (nonlinear_arith)
            requires
                s * length <= x * 1_000_000_000,
                x * 1_000_000_000 - length < s * length,
                0 < x <= length,
        ;
    } else {
        assert(s >= 1_000_000_000) by (nonlinear_arith)
            requires
                x * 1_000_000_000 - length < s * length,
                0 < length < x,
        ;
    }
}

/// A vehicle plans no turn on the last edge of its route, and one wherever a connector with a shape
/// joins its lanes; that turn runs from the start of the connector to its end.
pub proof fn law_turn_follows_connector(v: Vehicle, map: MapData, shapes: Seq<LaneShape>, c: u64)
    ensures
        v.route_pos + 1 >= v.route@.len() ==> planned_turn(v, map, shapes) is None,
        v.movement() is Some && connector_between(
            map,
            v.movement()->Some_0.0,
            v.current_lane,
            v.movement()->Some_0.1,
            v.target_lane,
        ) == Some(c) && shape_of(shapes, c) is Some ==> {
            let s = shapes[c - 1];
            let p = planned_turn(v, map, shapes);
            &&& p is Some
            &&& p->Some_0.p1 == (
                globe(s.points@[0].0 as int, s.points@[0].1 as int).0 as i64,
                globe(s.points@[0].0 as int, s.points@[0].1 as int).1 as i64,
            )
            &&& p->Some_0.p2 == (
                globe(s.points@.last().0 as int, s.points@.last().1 as int).0 as i64,
                globe(s.points@.last().0 as int, s.points@.last().1 as int).1 as i64,
            )
            &&& s.curve_length is None ==> p->Some_0.length == s.length
        },
{
}

} // verus!
