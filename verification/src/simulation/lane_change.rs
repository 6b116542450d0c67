//! Which lane a vehicle wants and when it changes lanes.

use vstd::prelude::*;

use crate::map::map_data::MapData;
use crate::map::road_network::{LaneDirection, RoadEdge, RoadNode};
use crate::simulation::direction::{
    cosine_at_least, cross_product, ends_of, heading_of, is_cosine_at_least, reduced, turns_left,
    Heading,
};
use crate::units::{closer_than, plane, saturate, saturated, square_distance, to_plane, FULL};
use crate::vehicles::vehicle::Vehicle;

verus! {

/// The square of the cosine of 25 degrees, in millionths.
pub const TURN_COSINE_SQUARE: u32 = 821_394;

/// The direction of an edge, north and east, scaled to distances; an edge without length points
/// north.
pub open spec fn edge_heading(map: MapData, ends: (int, int)) -> (int, int) {
    let a = map.nodes@[ends.0];
    let b = map.nodes@[ends.1];
    let v = reduced(((b.lat - a.lat) * 11132, (b.lng - a.lng) * 7170));
    if v == (0int, 0int) {
        (1, 0)
    } else {
        v
    }
}

/// The direction of a turn from one direction to another, north and east: within 25 degrees it is
/// straight on, and turning right back is a turn to the right.
pub open spec fn turn_of(a: (int, int), b: (int, int)) -> LaneDirection {
    let side = cross_product(a, b);
    if cosine_at_least(a, b, TURN_COSINE_SQUARE as int) {
        LaneDirection::Straight
    } else if side >= 0 {
        LaneDirection::Right
    } else {
        LaneDirection::Left
    }
}

/// The direction of the turn from one edge into another; unknown edges count as straight on.
pub open spec fn turn_between(map: MapData, a: usize, b: usize) -> LaneDirection {
    match (ends_of(map, a), ends_of(map, b)) {
        (Some(p), Some(q)) => turn_of(edge_heading(map, p), edge_heading(map, q)),
        _ => LaneDirection::Straight,
    }
}

fn heading_of_edge(a: &RoadNode, b: &RoadNode) -> (r: Heading)
    ensures
        r.wf(),
        ({
            let v = reduced(((b.lat - a.lat) * 11132, (b.lng - a.lng) * 7170));
            r.pair() == if v == (0int, 0int) {
                (1int, 0int)
            } else {
                v
            }
        }),
{
    let h: Heading = heading_of(
        (b.lat as i128 - a.lat as i128) * 11132,
        (b.lng as i128 - a.lng as i128) * 7170,
    );
    if h.x == 0 && h.y == 0 {
        Heading { x: 1, y: 0 }
    } else {
        h
    }
}

/// The direction of the turn from one edge into another.
pub fn turn_direction_between(map: &MapData, current_edge: usize, next_edge: usize) -> (r:
    LaneDirection)
    requires
        map.wf(),
    ensures
        r == turn_between(*map, current_edge, next_edge),
{
    proof {
        map.graph.lemma_wf();
    }
    match (map.graph.edge_endpoints(current_edge), map.graph.edge_endpoints(next_edge)) {
        (Some((a, b)), Some((c, d))) => {
            let p: Heading = heading_of_edge(&map.nodes[a], &map.nodes[b]);
            let q: Heading = heading_of_edge(&map.nodes[c], &map.nodes[d]);
            if is_cosine_at_least(p, q, TURN_COSINE_SQUARE) {
                return LaneDirection::Straight;
            }
            proof {
                assert(q.x * p.y == p.y * q.x && q.y * p.x == p.x * q.y) by (nonlinear_arith);
            }
            if turns_left(q, p) {
                LaneDirection::Left
            } else {
                LaneDirection::Right
            }
        },
        _ => LaneDirection::Straight,
    }
}

/// The first lane with a direction, leaving one lane out.
pub open spec fn first_lane(
    dirs: Seq<LaneDirection>,
    want: LaneDirection,
    tram: Option<u8>,
    from: int,
) -> Option<u8>
    decreases dirs.len() - from,
{
    if from < 0 || from >= dirs.len() {
        None
    } else if dirs[from] == want && tram != Some(from as u8) {
        Some(from as u8)
    } else {
        first_lane(dirs, want, tram, from + 1)
    }
}

fn find_first_lane(dirs: &Vec<LaneDirection>, want: LaneDirection, tram: Option<u8>) -> (r: Option<
    u8,
>)
    ensures
        r == first_lane(dirs@, want, tram, 0),
{
    let mut i: usize = 0;
    while i < dirs.len()
        invariant
            i <= dirs@.len(),
            first_lane(dirs@, want, tram, 0) == first_lane(dirs@, want, tram, i as int),
        decreases dirs.len() - i,
    {
        let kept: bool = match tram {
            Some(t) => t != i as u8,
            None => true,
        };
        if dirs[i] == want && kept {
            return Some(i as u8);
        }
        i = i + 1;
    }
    None
}

/// The first lane at all, leaving one lane out.
pub open spec fn any_lane(n: nat, tram: Option<u8>, from: int) -> Option<u8>
    decreases n - from,
{
    if from < 0 || from >= n {
        None
    } else if tram != Some(from as u8) {
        Some(from as u8)
    } else {
        any_lane(n, tram, from + 1)
    }
}

fn find_any_lane(n: usize, tram: Option<u8>) -> (r: Option<u8>)
    ensures
        r == any_lane(n as nat, tram, 0),
{
    let mut i: usize = 0;
    while i < n
        invariant
            i <= n,
            any_lane(n as nat, tram, 0) == any_lane(n as nat, tram, i as int),
        decreases n - i,
    {
        let kept: bool = match tram {
            Some(t) => t != i as u8,
            None => true,
        };
        if kept {
            return Some(i as u8);
        }
        i = i + 1;
    }
    None
}

/// The middle lane.
pub open spec fn middle_lane(n: nat) -> u8 {
    ((n - 1) / 2) as u8
}

/// The lane for a direction: one with that direction, else one straight on, else the middle one.
pub open spec fn target_lane_of(dirs: Seq<LaneDirection>, want: LaneDirection) -> u8 {
    if dirs.len() == 0 {
        0
    } else {
        match first_lane(dirs, want, None, 0) {
            Some(l) => l,
            None => match first_lane(dirs, LaneDirection::Straight, None, 0) {
                Some(l) => l,
                None => middle_lane(dirs.len()),
            },
        }
    }
}

/// The lane for a direction at the end of an edge.
pub fn pick_target_lane_for_direction(edge: &RoadEdge, dir: &LaneDirection) -> (r: u8)
    ensures
        r == target_lane_of(edge.lane_directions@, *dir),
{
    let dirs: &Vec<LaneDirection> = &edge.lane_directions;
    if dirs.len() == 0 {
        return 0;
    }
    match find_first_lane(dirs, *dir, None) {
        Some(l) => l,
        None => match find_first_lane(dirs, LaneDirection::Straight, None) {
            Some(l) => l,
            None => ((dirs.len() - 1) / 2) as u8,
        },
    }
}

/// The lane that trams use on a shared edge: the leftmost.
pub fn tram_lane_index(edge: &RoadEdge) -> (r: u8)
    ensures
        r == 0,
{
    0
}

/// The lane that other vehicles leave to trams.
pub open spec fn tram_lane(edge: RoadEdge) -> Option<u8> {
    if edge.has_tram_track && edge.lanes > 1 {
        Some(0)
    } else {
        None
    }
}

fn tram_lane_of(edge: &RoadEdge) -> (r: Option<u8>)
    ensures
        r == tram_lane(*edge),
{
    if edge.has_tram_track && edge.lanes > 1 {
        Some(tram_lane_index(edge))
    } else {
        None
    }
}

/// The lane for a direction that is not left to trams: one with that direction, else one straight
/// on, else any, else the middle one.
pub open spec fn target_lane_beside_trams(edge: RoadEdge, want: LaneDirection) -> u8 {
    let dirs = edge.lane_directions@;
    let tram = tram_lane(edge);
    if dirs.len() == 0 {
        0
    } else {
        match first_lane(dirs, want, tram, 0) {
            Some(l) => l,
            None => match first_lane(dirs, LaneDirection::Straight, tram, 0) {
                Some(l) => l,
                None => match any_lane(dirs.len(), tram, 0) {
                    Some(l) => l,
                    None => middle_lane(dirs.len()),
                },
            },
        }
    }
}

fn pick_target_lane_for_direction_no_tram(edge: &RoadEdge, dir: &LaneDirection) -> (r: u8)
    ensures
        r == target_lane_beside_trams(*edge, *dir),
{
    let dirs: &Vec<LaneDirection> = &edge.lane_directions;
    if dirs.len() == 0 {
        return 0;
    }
    let tram: Option<u8> = tram_lane_of(edge);
    match find_first_lane(dirs, *dir, tram) {
        Some(l) => l,
        None => match find_first_lane(dirs, LaneDirection::Straight, tram) {
            Some(l) => l,
            None => match find_any_lane(dirs.len(), tram) {
                Some(l) => l,
                None => ((dirs.len() - 1) / 2) as u8,
            },
        },
    }
}

/// The lane that a vehicle wants on its edge, for the turn at its end; on the last edge for going
/// straight on.
pub open spec fn wanted_lane(v: Vehicle, map: MapData) -> u8 {
    match v.edge() {
        Some(e) => if e < map.edges@.len() {
            target_lane_beside_trams(
                map.edges@[e as int],
                match v.movement() {
                    Some(m) => turn_between(map, m.0, m.1),
                    None => LaneDirection::Straight,
                },
            )
        } else {
            v.current_lane
        },
        None => v.current_lane,
    }
}

/// The lane that a vehicle wants on its edge.
pub fn compute_vehicle_target_lane(v: &Vehicle, map: &MapData) -> (r: u8)
    requires
        map.wf(),
    ensures
        r == wanted_lane(*v, *map),
{
    let e: usize = match v.current_edge() {
        Some(e) => e,
        None => {
            return v.current_lane;
        },
    };
    if e >= map.edges.len() {
        return v.current_lane;
    }
    let dir: LaneDirection = match v.next_movement() {
        Some(m) => turn_direction_between(map, m.0, m.1),
        None => LaneDirection::Straight,
    };
    pick_target_lane_for_direction_no_tram(&map.edges[e], &dir)
}

proof fn lemma_first_lane(dirs: Seq<LaneDirection>, want: LaneDirection, tram: Option<u8>, from: int)
    requires
        dirs.len() <= 256,
        from >= 0,
    ensures
        first_lane(dirs, want, tram, from) is Some ==> {
            let l = first_lane(dirs, want, tram, from)->Some_0;
            from <= l < dirs.len() && dirs[l as int] == want && tram != Some(l)
        },
    decreases dirs.len() - from,
{
    if from < dirs.len() {
        lemma_first_lane(dirs, want, tram, from + 1);
    }
}

/// Where an edge has a lane for the wanted direction that is not left to trams, a vehicle is sent
/// to such a lane; a lane left to trams is wanted only where there is no other.
pub proof fn law_target_lane(edge: RoadEdge, want: LaneDirection)
    requires
        1 < edge.lane_directions@.len() <= 256,
    ensures
        target_lane_beside_trams(edge, want) < edge.lane_directions@.len(),
        tram_lane(edge) != Some(target_lane_beside_trams(edge, want)),
        first_lane(edge.lane_directions@, want, tram_lane(edge), 0) is Some
            ==> edge.lane_directions@[target_lane_beside_trams(edge, want) as int] == want,
{
    let dirs = edge.lane_directions@;
    let tram = tram_lane(edge);
    lemma_first_lane(dirs, want, tram, 0);
    lemma_first_lane(dirs, LaneDirection::Straight, tram, 0);
    reveal_with_fuel(any_lane, 3);
}

/// Whether a vehicle is at one of the points where it thinks about changing lanes: within 2 % of
/// the length of the edge.
pub open spec fn at_decision_point(progress: int, points: (i64, i64, i64), length: int) -> bool {
    length > 0 && (near_point(progress, points.0 as int, length) || near_point(
        progress,
        points.1 as int,
        length,
    ) || near_point(progress, points.2 as int, length))
}

/// Whether a position on an edge is within 2 % of its length of a point.
pub open spec fn near_point(progress: int, point: int, length: int) -> bool {
    let d = progress * length - point * FULL;
    -20_000_000 * length < d < 20_000_000 * length
}

fn is_near_point(progress: i64, point: i64, length: i64) -> (r: bool)
    requires
        length > 0,
    ensures
        r == near_point(progress as int, point as int, length as int),
{
    proof {
        let p = progress as int;
        let l = length as int;
        assert(-0x4000_0000_0000_0000_0000_0000_0000_0000 <= p * l
            <= 0x4000_0000_0000_0000_0000_0000_0000_0000) by (nonlinear_arith)
            requires
                -0x8000_0000_0000_0000 <= p <= 0x8000_0000_0000_0000,
                0 <= l <= 0x8000_0000_0000_0000,
        ;
    }
    let d: i128 = progress as i128 * length as i128 - point as i128 * 1_000_000_000;
    let w: i128 = 20_000_000 * length as i128;
    -w < d && d < w
}

fn is_at_decision_point(progress: i64, points: (i64, i64, i64), length: i64) -> (r: bool)
    ensures
        r == at_decision_point(progress as int, points, length as int),
{
    length > 0 && (is_near_point(progress, points.0, length) || is_near_point(
        progress,
        points.1,
        length,
    ) || is_near_point(progress, points.2, length))
}

/// Whether another vehicle on the edge is in the way of a change to a lane: it is on that lane and
/// closer than the way driven in two seconds.
pub open spec fn in_the_way(v: Vehicle, lane: u8, e: usize, o: Vehicle) -> bool {
    let need = saturated(2 * v.speed);
    let a = plane(v.lat as int, v.lng as int);
    let b = plane(o.lat as int, o.lng as int);
    o.edge() == Some(e) && o.id != v.id && o.current_lane == lane && need > 0 && square_distance(
        a.0,
        a.1,
        b.0,
        b.1,
    ) < need * need
}

/// Whether no other vehicle on the edge is in the way of a change to a lane.
pub open spec fn gap_is_safe(v: Vehicle, lane: u8, e: usize, vehicles: Seq<Vehicle>) -> bool {
    forall|i: int| 0 <= i < vehicles.len() ==> !in_the_way(v, lane, e, #[trigger] vehicles[i])
}

fn is_safe_gap(v: &Vehicle, lane: u8, e: usize, vehicles: &Vec<Vehicle>) -> (r: bool)
    ensures
        r == gap_is_safe(*v, lane, e, vehicles@),
{
    let need: i64 = saturate(2 * v.speed as i128);
    let (ax, ay) = to_plane(v.lat, v.lng);
    let mut i: usize = 0;
    while i < vehicles.len()
        invariant
            i <= vehicles@.len(),
            need == saturated(2 * v.speed),
            (ax as int, ay as int) == plane(v.lat as int, v.lng as int),
            forall|j: int| 0 <= j < i ==> !in_the_way(*v, lane, e, #[trigger] vehicles@[j]),
        decreases vehicles.len() - i,
    {
        let o: &Vehicle = &vehicles[i];
        let here: bool = match o.current_edge() {
            Some(oe) => oe == e,
            None => false,
        };
        if here && o.id != v.id && o.current_lane == lane && need > 0 {
            let (bx, by) = to_plane(o.lat, o.lng);
            if closer_than(ax, ay, bx, by, need) {
                assert(in_the_way(*v, lane, e, vehicles@[i as int]));
                return false;
            }
        }
        i = i + 1;
    }
    true
}

/// How many vehicles on an edge use a lane; lanes beyond the last count as the last.
pub open spec fn lane_users(lanes: int, lane: int, e: usize, vehicles: Seq<Vehicle>) -> nat
    decreases vehicles.len(),
{
    if vehicles.len() == 0 {
        0
    } else {
        let v = vehicles.last();
        let before = lane_users(lanes, lane, e, vehicles.drop_last());
        if v.edge() == Some(e) && crate::units::smaller(v.current_lane as int, lanes - 1) == lane {
            before + 1
        } else {
            before
        }
    }
}

proof fn lemma_users_bounded(lanes: int, lane: int, e: usize, vehicles: Seq<Vehicle>)
    ensures
        lane_users(lanes, lane, e, vehicles) <= vehicles.len(),
    decreases vehicles.len(),
{
    if vehicles.len() > 0 {
        lemma_users_bounded(lanes, lane, e, vehicles.drop_last());
    }
}

fn lane_occupancy(lanes: usize, lane: usize, e: usize, vehicles: &Vec<Vehicle>) -> (r: usize)
    requires
        lanes > 0,
    ensures
        r == lane_users(lanes as int, lane as int, e, vehicles@),
{
    let mut count: usize = 0;
    let mut i: usize = 0;
    assert(vehicles@.take(0) =~= Seq::<Vehicle>::empty());
    while i < vehicles.len()
        invariant
            i <= vehicles@.len(),
            lanes > 0,
            count == lane_users(lanes as int, lane as int, e, vehicles@.take(i as int)),
            count <= i,
        decreases vehicles.len() - i,
    {
        assert(vehicles@.take(i + 1).drop_last() =~= vehicles@.take(i as int));
        assert(vehicles@.take(i + 1).last() == vehicles@[i as int]);
        let v: &Vehicle = &vehicles[i];
        let here: bool = match v.current_edge() {
            Some(oe) => oe == e,
            None => false,
        };
        let used: usize = if (v.current_lane as usize) <= lanes - 1 {
            v.current_lane as usize
        } else {
            lanes - 1
        };
        if here && used == lane {
            count = count + 1;
        }
        i = i + 1;
    }
    assert(vehicles@.take(i as int) =~= vehicles@);
    count
}

/// The lane with the fewest vehicles among a lane and its neighbours; of equals the lane itself,
/// and of the neighbours the left one.
pub open spec fn least_used(current: int, lanes: int, e: usize, vehicles: Seq<Vehicle>) -> int {
    let here = lane_users(lanes, current, e, vehicles);
    let left = if current > 0 && lane_users(lanes, current - 1, e, vehicles) < here {
        (current - 1, lane_users(lanes, current - 1, e, vehicles))
    } else {
        (current, here)
    };
    if current + 1 < lanes && lane_users(lanes, current + 1, e, vehicles) < left.1 {
        current + 1
    } else {
        left.0
    }
}

fn least_occupied_lane(current: usize, lanes: usize, e: usize, vehicles: &Vec<Vehicle>) -> (r: usize)
    requires
        current < lanes <= 255,
    ensures
        r == least_used(current as int, lanes as int, e, vehicles@),
        r < lanes,
{
    let mut best: usize = current;
    let mut best_count: usize = lane_occupancy(lanes, current, e, vehicles);
    if current > 0 {
        let c: usize = lane_occupancy(lanes, current - 1, e, vehicles);
        if c < best_count {
            best = current - 1;
            best_count = c;
        }
    }
    if current + 1 < lanes {
        let c: usize = lane_occupancy(lanes, current + 1, e, vehicles);
        if c < best_count {
            best = current + 1;
        }
    }
    best
}

/// Where a vehicle stands in its thoughts about changing lanes.
pub enum LaneThought {
    /// Not to change.
    Stay,
    /// To change to a lane.
    Change(u8),
    /// To look for a lane with fewer vehicles.
    Balance,
}

/// What a vehicle thinks of changing lanes. From three quarters of the edge it goes to the lane it
/// wants, when that is safe or at the last tenth in any case; at a decision point it goes one lane
/// towards it when that is safe, else it may look for a lane with fewer vehicles. It never goes to
/// a lane left to trams.
pub open spec fn lane_thought(
    v: Vehicle,
    edge: RoadEdge,
    e: usize,
    vehicles: Seq<Vehicle>,
) -> LaneThought {
    let at = at_decision_point(
        v.edge_progress as int,
        edge.decision_points,
        edge.length as int,
    );
    let late = v.edge_progress >= 750_000_000;
    let tram = tram_lane(edge);
    let step = if v.target_lane > v.current_lane {
        (v.current_lane + 1) as u8
    } else {
        (v.current_lane - 1) as u8
    };
    if v.lane_change_cooldown > 0 || edge.lanes <= 1 || !at && !late {
        LaneThought::Stay
    } else if late && v.current_lane != v.target_lane {
        if tram != Some(v.target_lane) && (gap_is_safe(v, v.target_lane, e, vehicles)
            || v.edge_progress >= 900_000_000) {
            LaneThought::Change(v.target_lane)
        } else {
            LaneThought::Stay
        }
    } else if !at {
        LaneThought::Stay
    } else if v.current_lane != v.target_lane && tram != Some(step) && gap_is_safe(
        v,
        step,
        e,
        vehicles,
    ) {
        LaneThought::Change(step)
    } else {
        LaneThought::Balance
    }
}

/// The lane that a vehicle changes to, if it does.
pub open spec fn lane_change(
    v: Vehicle,
    edge: RoadEdge,
    e: usize,
    vehicles: Seq<Vehicle>,
) -> Option<u8> {
    match lane_thought(v, edge, e, vehicles) {
        LaneThought::Stay => None,
        LaneThought::Change(l) => Some(l),
        LaneThought::Balance => {
            let least = least_used(v.current_lane as int, edge.lanes as int, e, vehicles);
            if least != v.current_lane && tram_lane(edge) != Some(least as u8) && gap_is_safe(
                v,
                least as u8,
                e,
                vehicles,
            ) {
                Some(least as u8)
            } else {
                None
            }
        },
    }
}

fn is_free_of_trams(edge: &RoadEdge, lane: u8) -> (r: bool)
    ensures
        r == (tram_lane(*edge) != Some(lane)),
{
    match tram_lane_of(edge) {
        Some(t) => t != lane,
        None => true,
    }
}

/// What a vehicle on edge `e` thinks of changing lanes.
pub fn think_of_lanes(v: &Vehicle, edge: &RoadEdge, e: usize, vehicles: &Vec<Vehicle>) -> (r:
    LaneThought)
    ensures
        r == lane_thought(*v, *edge, e, vehicles@),
{
    if v.lane_change_cooldown > 0 || edge.lanes <= 1 {
        return LaneThought::Stay;
    }
    let at: bool = is_at_decision_point(v.edge_progress, edge.decision_points, edge.length);
    let late: bool = v.edge_progress >= 750_000_000;
    if !at && !late {
        return LaneThought::Stay;
    }
    if late && v.current_lane != v.target_lane {
        if is_free_of_trams(edge, v.target_lane) && (is_safe_gap(v, v.target_lane, e, vehicles)
            || v.edge_progress >= 900_000_000) {
            return LaneThought::Change(v.target_lane);
        }
        return LaneThought::Stay;
    }
    if !at {
        return LaneThought::Stay;
    }
    if v.current_lane != v.target_lane {
        let step: u8 = if v.target_lane > v.current_lane {
            v.current_lane + 1
        } else {
            v.current_lane - 1
        };
        if is_free_of_trams(edge, step) && is_safe_gap(v, step, e, vehicles) {
            return LaneThought::Change(step);
        }
    }
    LaneThought::Balance
}

/// The lane that a vehicle on edge `e` changes to, if it does.
pub fn decide_lane_change(v: &Vehicle, edge: &RoadEdge, e: usize, vehicles: &Vec<Vehicle>) -> (r:
    Option<u8>)
    requires
        lane_thought(*v, *edge, e, vehicles@) is Balance ==> v.current_lane < edge.lanes,
    ensures
        r == lane_change(*v, *edge, e, vehicles@),
{
    match think_of_lanes(v, edge, e, vehicles) {
        LaneThought::Stay => None,
        LaneThought::Change(l) => Some(l),
        LaneThought::Balance => {
            let least: usize = least_occupied_lane(
                v.current_lane as usize,
                edge.lanes as usize,
                e,
                vehicles,
            );
            if least != v.current_lane as usize && is_free_of_trams(edge, least as u8)
                && is_safe_gap(v, least as u8, e, vehicles) {
                Some(least as u8)
            } else {
                None
            }
        },
    }
}

/// A vehicle never changes to a lane left to trams, nor to its own lane, and before the last tenth
/// of the edge only where no other vehicle is in the way.
pub proof fn law_lane_changes_are_safe(v: Vehicle, edge: RoadEdge, e: usize, vehicles: Seq<Vehicle>)
    requires
        lane_change(v, edge, e, vehicles) is Some,
        lane_thought(v, edge, e, vehicles) is Balance ==> v.current_lane < edge.lanes,
    ensures
        tram_lane(edge) != Some(lane_change(v, edge, e, vehicles)->Some_0),
        lane_change(v, edge, e, vehicles)->Some_0 != v.current_lane,
        v.edge_progress < 900_000_000 ==> gap_is_safe(
            v,
            lane_change(v, edge, e, vehicles)->Some_0,
            e,
            vehicles,
        ),
        v.lane_change_cooldown <= 0,
{
}

/// Before the last tenth of an edge a vehicle changes only to a lane of which every other vehicle on
/// the edge is at least as far away as it drives in two seconds.
pub proof fn law_changes_keep_distance(
    v: Vehicle,
    edge: RoadEdge,
    e: usize,
    vehicles: Seq<Vehicle>,
    i: int,
)
    requires
        lane_change(v, edge, e, vehicles) is Some,
        v.edge_progress < 900_000_000,
        0 <= 2 * v.speed <= i64::MAX,
        0 <= i < vehicles.len(),
        vehicles[i].id != v.id,
        vehicles[i].edge() == Some(e),
        vehicles[i].current_lane == lane_change(v, edge, e, vehicles)->Some_0,
    ensures
        ({
            let a = plane(v.lat as int, v.lng as int);
            let b = plane(vehicles[i].lat as int, vehicles[i].lng as int);
            (a.0 - b.0) * (a.0 - b.0) + (a.1 - b.1) * (a.1 - b.1) >= (2 * v.speed) * (2 * v.speed)
        }),
{
    let o = vehicles[i];
    let l = lane_change(v, edge, e, vehicles)->Some_0;
    assert(!in_the_way(v, l, e, o));
    let a = plane(v.lat as int, v.lng as int);
    let b = plane(o.lat as int, o.lng as int);
    let (x, y) = (a.0 - b.0, a.1 - b.1);
    assert(x * x >= 0 && y * y >= 0) by (nonlinear_arith);
    let need: int = 2 * v.speed;
    assert(saturated(need) == need);
    if need == 0 {
        assert(need * need == 0) by (nonlinear_arith)
            requires
                need == 0,
        ;
    }
    assert(square_distance(a.0, a.1, b.0, b.1) == x * x + y * y);
    assert(x * x + y * y >= need * need);
}

/// In the last quarter of an edge a vehicle that is not on the lane it wants, may change lanes and
/// finds no vehicle on that lane nearer than it drives in two seconds changes to it, unless it is left
/// to trams; in the last tenth it does so whoever is there.
pub proof fn law_wanted_lane_is_taken(v: Vehicle, edge: RoadEdge, e: usize, vehicles: Seq<Vehicle>)
    requires
        v.lane_change_cooldown <= 0,
        edge.lanes > 1,
        v.edge_progress >= 750_000_000,
        v.current_lane != v.target_lane,
        !edge.has_tram_track || v.target_lane != 0,
        0 <= 2 * v.speed <= i64::MAX,
        v.edge_progress >= 900_000_000 || forall|i: int|
            0 <= i < vehicles.len() && (#[trigger] vehicles[i]).id != v.id && vehicles[i].edge()
                == Some(e) && vehicles[i].current_lane == v.target_lane ==> {
                let a = plane(v.lat as int, v.lng as int);
                let b = plane(vehicles[i].lat as int, vehicles[i].lng as int);
                (a.0 - b.0) * (a.0 - b.0) + (a.1 - b.1) * (a.1 - b.1) >= (2 * v.speed) * (2
                    * v.speed)
            },
    ensures
        lane_change(v, edge, e, vehicles) == Some(v.target_lane),
{
    if v.edge_progress < 900_000_000 {
        assert forall|i: int| 0 <= i < vehicles.len() implies !in_the_way(
            v,
            v.target_lane,
            e,
            #[trigger] vehicles[i],
        ) by {
            let a = plane(v.lat as int, v.lng as int);
            let b = plane(vehicles[i].lat as int, vehicles[i].lng as int);
        }
        assert(gap_is_safe(v, v.target_lane, e, vehicles));
    }
}

/// A vehicle does not change lanes while it waits after a change, on an edge with one lane, nor before
/// the last quarter of an edge away from its points of decision; and before that it goes one lane
/// aside at most.
pub proof fn law_when_lanes_are_changed(
    v: Vehicle,
    edge: RoadEdge,
    e: usize,
    vehicles: Seq<Vehicle>,
)
    requires
        lane_change(v, edge, e, vehicles) is Some,
        v.current_lane < edge.lanes,
    ensures
        v.lane_change_cooldown <= 0,
        edge.lanes > 1,
        v.edge_progress >= 750_000_000 || at_decision_point(
            v.edge_progress as int,
            edge.decision_points,
            edge.length as int,
        ),
        v.edge_progress < 750_000_000 ==> {
            let l = lane_change(v, edge, e, vehicles)->Some_0;
            l == v.current_lane + 1 || l == v.current_lane - 1
        },
        edge.has_tram_track ==> lane_change(v, edge, e, vehicles)->Some_0 != 0,
{
}

/// How many vehicles use a lane of an edge is how many of the list drive on it there; those beyond the
/// last lane count for the last.
pub proof fn law_lane_users_counted(lanes: int, lane: int, e: usize, vehicles: Seq<Vehicle>)
    requires
        lanes >= 1,
    ensures
        lane_users(lanes, lane, e, vehicles) == vehicles.filter(
            |v: Vehicle|
                v.edge() == Some(e) && (v.current_lane == lane && lane < lanes - 1 || v.current_lane
                    >= lanes - 1 && lane == lanes - 1),
        ).len(),
    decreases vehicles.len(),
{
    reveal(Seq::filter);
    if vehicles.len() > 0 {
        law_lane_users_counted(lanes, lane, e, vehicles.drop_last());
    }
}

/// The lane with the fewest vehicles is the own lane or one beside it, and none of these has fewer; the
/// own lane is only left for one with fewer.
pub proof fn law_least_used_lane(current: int, lanes: int, e: usize, vehicles: Seq<Vehicle>)
    requires
        0 <= current < lanes,
    ensures
        ({
            let l = least_used(current, lanes, e, vehicles);
            let users = lane_users(lanes, l, e, vehicles);
            &&& current - 1 <= l <= current + 1 && 0 <= l < lanes
            &&& users <= lane_users(lanes, current, e, vehicles)
            &&& current > 0 ==> users <= lane_users(lanes, current - 1, e, vehicles)
            &&& current + 1 < lanes ==> users <= lane_users(lanes, current + 1, e, vehicles)
            &&& l != current ==> users < lane_users(lanes, current, e, vehicles)
        }),
{
}

/// The lane that is found for a direction is the first that leads there and is not left out.
pub proof fn law_first_lane_found(dirs: Seq<LaneDirection>, want: LaneDirection, tram: Option<u8>, i: int)
    requires
        dirs.len() <= 256,
        0 <= i < dirs.len(),
        dirs[i] == want,
        tram != Some(i as u8),
    ensures
        first_lane(dirs, want, tram, 0) matches Some(l) && l <= i && dirs[l as int] == want && tram
            != Some(l),
{
    lemma_first_lane(dirs, want, tram, 0);
    lemma_first_lane_found(dirs, want, tram, 0, i);
}

proof fn lemma_first_lane_found(
    dirs: Seq<LaneDirection>,
    want: LaneDirection,
    tram: Option<u8>,
    from: int,
    i: int,
)
    requires
        dirs.len() <= 256,
        0 <= from <= i < dirs.len(),
        dirs[i] == want,
        tram != Some(i as u8),
    ensures
        first_lane(dirs, want, tram, from) matches Some(l) && l <= i,
    decreases dirs.len() - from,
{
    if from < i {
        lemma_first_lane_found(dirs, want, tram, from + 1, i);
    }
}

/// A turn to the right is one to a direction on the right hand, and turning the other way round makes a
/// left turn of it; who keeps the direction goes straight on, and who turns right back turns right.
pub proof fn law_turn_sides(a: (int, int), b: (int, int))
    requires
        !cosine_at_least(a, b, 821_394),
    ensures
        a.0 * b.1 - a.1 * b.0 > 0 ==> turn_of(a, b) == LaneDirection::Right,
        a.0 * b.1 - a.1 * b.0 < 0 ==> turn_of(a, b) == LaneDirection::Left,
        a.0 * b.1 - a.1 * b.0 == 0 ==> turn_of(a, b) == LaneDirection::Right,
        a.0 * b.1 - a.1 * b.0 > 0 && !cosine_at_least(b, a, 821_394) ==> turn_of(b, a)
            == LaneDirection::Left,
        a != (0int, 0int) ==> turn_of(a, a) == LaneDirection::Straight,
{
    let (p, q, r, s) = (a.0, a.1, b.0, b.1);
    assert(r * q == q * r && s * p == p * s) by (nonlinear_arith);
    let n = p * p + q * q;
    assert(a != (0int, 0int) ==> n > 0) by (nonlinear_arith)
        requires
            n == p * p + q * q,
            a == (p, q),
    ;
    assert(n > 0 ==> n * n * 1_000_000 >= n * n * 821_394) by (nonlinear_arith);
}

} // verus!
