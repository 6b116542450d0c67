//! What a vehicle has to slow down for on its way to a junction and through it.

use vstd::prelude::*;

use crate::map::map_data::MapData;
use crate::map::road_network::{IntersectionType, RoadNode};
use crate::simulation::conflict::{
    first_mover_of, BlockingConflict, ConflictSystem, LaneMovementKey, Outlook, VehicleBody,
    MIN_IDM_GAP,
};
use crate::simulation::leader::{find_leader_obstacle_arc, route_obstacle, LaneBuckets};
use crate::simulation::obstacle::{
    acceleration_towards, braking_distance, comfort_braking_distance,
    compute_idm_accel_with_obstacle, conflict_scan_distance,
    distance_to_stop_line_from_front_bumper, free_leader_obstacle, min_obstacle, nearer,
    no_obstacle, scan_distance, stop_line_distance, stop_line_of, stop_line_place, ClosestObstacle,
    ObstacleKind, PlannedTurnConnector,
};
use crate::simulation::right_of_way::{
    conflicting_approaches, edges_are_conflicting_approaches, told_target, yield_target,
    CONFLICT_LOOKAHEAD,
};
use crate::traffic::intersection::{is_signalled, IntersectionManager};
use crate::units::{
    between, clamp_to, distance, larger, max_of, min_of, part_of, plane, remaining,
    remaining_length, saturate, saturated, scale, scaled, share, share_of, smaller, span, take_part,
    to_plane, FULL, MAX_SPAN,
};
use crate::vehicles::vehicle::Vehicle;

verus! {

/// Cross traffic matters within this distance to the junction.
pub const CROSS_TRAFFIC_MAX_DISTANCE: i64 = 70_000_000;

/// Cross traffic goes first where it is nearer to the junction by more than this.
pub const PRIORITY_HEADWAY: i64 = 500_000;

/// Past the entry of a planned turn by this much, cross traffic no longer matters.
pub const CROSS_TRAFFIC_ENTRY_COMMIT: i64 = 800_000;

/// How far past the distance at which conflicts are looked for a junction may lie.
pub const CONFLICT_APPROACH_TAIL: i64 = 60_000_000;

/// The speed on a turn, 25 km/h.
pub const TURN_SPEED: i64 = 6_944_444;

/// The speed at a give-way sign.
pub const YIELD_SPEED: i64 = 1_390_000;

/// Length of a tram.
pub const TRAM_LENGTH: i64 = 20_000_000;

/// A tram matters where it is at least this far ahead.
pub const TRAM_FORWARD_MIN: i64 = 2_000_000;

/// Past the entry of a planned turn by this much, a vehicle counts as turning.
pub const ENTRY_COMMIT: i64 = 1_000_000;

/// Planned entries before this position on the edge are not believed.
pub const ENTRY_MIN: i64 = 40_000_000;

/// Distance to the junction within which a vehicle may count as turning.
pub const ENTRY_GATE: i64 = 130_000_000;

/// A tram as it is seen from the road: where it is and how fast it drives.
#[derive(Clone, Copy, Debug)]
pub struct TramGhost {
    pub x: i64,
    pub y: i64,
    pub speed: i64,
}

/// How far ahead in the direction of a vehicle a point lies, times the half length of the vehicle.
pub open spec fn forward_reach(b: VehicleBody, x: int, y: int) -> int {
    let m = MAX_SPAN as int;
    between(b.hood_x - b.x, -m, m) * between(x - b.x, -m, m) + between(b.hood_y - b.y, -m, m)
        * between(y - b.y, -m, m)
}

/// The gap to a tram.
pub open spec fn tram_gap(b: VehicleBody, t: TramGhost) -> int {
    larger(
        span(b.x as int, b.y as int, t.x as int, t.y as int) - TRAM_LENGTH,
        MIN_IDM_GAP as int,
    )
}

/// The gap and the speed difference to the nearest of a gap and some trams. A tram counts where it
/// is ahead, less than 150 m away and slower, or less than 20 m away.
pub open spec fn tram_effect(
    v: Vehicle,
    b: VehicleBody,
    gap: int,
    delta_v: int,
    trams: Seq<TramGhost>,
) -> (int, int)
    decreases trams.len(),
{
    if trams.len() == 0 {
        (gap, delta_v)
    } else {
        let before = tram_effect(v, b, gap, delta_v, trams.drop_last());
        let t = trams.last();
        let d = tram_gap(b, t);
        let dv = saturated(v.speed - t.speed);
        if forward_reach(b, t.x as int, t.y as int) >= TRAM_FORWARD_MIN
            * v.vehicle_type.params_of().length / 2 && d < before.0 && d < 150_000_000 && (dv > 0
            || d < 20_000_000) {
            (d, dv)
        } else {
            before
        }
    }
}

proof fn lemma_reach_fits(a: int, b: int)
    requires
        -0x4000_0000_0000_0000 <= a <= 0x4000_0000_0000_0000,
        -0x4000_0000_0000_0000 <= b <= 0x4000_0000_0000_0000,
    ensures
        -0x1000_0000_0000_0000_0000_0000_0000_0000 <= a * b
            <= 0x1000_0000_0000_0000_0000_0000_0000_0000,
{
    assert(-0x1000_0000_0000_0000_0000_0000_0000_0000 <= a * b
        <= 0x1000_0000_0000_0000_0000_0000_0000_0000) by (nonlinear_arith)
        requires
            -0x4000_0000_0000_0000 <= a <= 0x4000_0000_0000_0000,
            -0x4000_0000_0000_0000 <= b <= 0x4000_0000_0000_0000,
    ;
}

fn bounded_difference(a: i64, b: i64) -> (r: i128)
    ensures
        r == between(a - b, -(MAX_SPAN as int), MAX_SPAN as int),
{
    let d: i128 = a as i128 - b as i128;
    let m: i128 = MAX_SPAN as i128;
    if d < -m {
        -m
    } else if d > m {
        m
    } else {
        d
    }
}

fn forward_of(b: &VehicleBody, x: i64, y: i64) -> (r: i128)
    ensures
        r == forward_reach(*b, x as int, y as int),
{
    let hx: i128 = bounded_difference(b.hood_x, b.x);
    let hy: i128 = bounded_difference(b.hood_y, b.y);
    let dx: i128 = bounded_difference(x, b.x);
    let dy: i128 = bounded_difference(y, b.y);
    proof {
        lemma_reach_fits(hx as int, dx as int);
        lemma_reach_fits(hy as int, dy as int);
    }
    hx * dx + hy * dy
}

/// The gap and the speed difference to the nearest of a leader and the trams ahead.
pub fn apply_tram_leader_effect(
    v: &Vehicle,
    body: &VehicleBody,
    gap: i64,
    delta_v: i64,
    trams: &Vec<TramGhost>,
) -> (r: (i64, i64))
    ensures
        (r.0 as int, r.1 as int) == tram_effect(*v, *body, gap as int, delta_v as int, trams@),
{
    let mut best_gap: i64 = gap;
    let mut best_dv: i64 = delta_v;
    let half: i128 = TRAM_FORWARD_MIN as i128 * v.vehicle_type.params().length as i128 / 2;
    let mut i: usize = 0;
    assert(trams@.take(0) =~= Seq::<TramGhost>::empty());
    while i < trams.len()
        invariant
            i <= trams@.len(),
            half == TRAM_FORWARD_MIN * v.vehicle_type.params_of().length / 2,
            (best_gap as int, best_dv as int) == tram_effect(
                *v,
                *body,
                gap as int,
                delta_v as int,
                trams@.take(i as int),
            ),
        decreases trams.len() - i,
    {
        assert(trams@.take(i + 1).drop_last() =~= trams@.take(i as int));
        assert(trams@.take(i + 1).last() == trams@[i as int]);
        let t: TramGhost = trams[i];
        let d: i64 = max_of(distance(body.x, body.y, t.x, t.y) - TRAM_LENGTH, MIN_IDM_GAP);
        let dv: i64 = saturate(v.speed as i128 - t.speed as i128);
        if forward_of(body, t.x, t.y) >= half && d < best_gap && d < 150_000_000 && (dv > 0 || d
            < 20_000_000) {
            best_gap = d;
            best_dv = dv;
        }
        i = i + 1;
    }
    assert(trams@.take(i as int) =~= trams@);
    (best_gap, best_dv)
}

/// The distance left to the end of a vehicle's edge.
pub open spec fn to_end(v: Vehicle, map: MapData, e: usize) -> int {
    saturated(remaining_length(map.edges@[e as int].length as int, v.edge_progress as int))
}

/// Whether a vehicle has passed the entry of its planned turn.
pub open spec fn past_entry(v: Vehicle, plan: Option<PlannedTurnConnector>, margin: int) -> bool {
    v.movement() is Some && plan is Some && v.edge_progress + margin
        >= plan->Some_0.entry_progress
}

fn is_past_entry(v: &Vehicle, plan: &Option<PlannedTurnConnector>, margin: i64) -> (r: bool)
    ensures
        r == past_entry(*v, *plan, margin as int),
{
    match plan {
        Some(p) => v.next_movement().is_some() && v.edge_progress as i128 + margin as i128
            >= p.entry_progress as i128,
        None => false,
    }
}

/// How far a vehicle on another approach is from the junction, where it goes first: it comes from
/// another direction, may pass and is clearly nearer.
pub open spec fn cross_distance(
    ego: Vehicle,
    e: usize,
    tgt: int,
    o: Vehicle,
    map: MapData,
    lights: IntersectionManager,
) -> Option<int> {
    match o.edge() {
        Some(oe) => {
            let d = to_end(o, map, oe);
            if oe != e && oe < map.edges@.len() && map.graph.ends()[oe as int].1 == tgt
                && conflicting_approaches(map, e, oe, tgt) && lights.lets_pass(
                map.nodes@[tgt].osm_id,
                o.has_stopped_at_stop_sign,
            ) && d + PRIORITY_HEADWAY < to_end(ego, map, e) {
                Some(d)
            } else {
                None
            }
        },
        None => None,
    }
}

/// The nearest vehicle to the junction among the first `n` that goes first: its distance and speed.
pub open spec fn nearest_cross(
    ego_idx: int,
    ego: Vehicle,
    e: usize,
    tgt: int,
    vehicles: Seq<Vehicle>,
    map: MapData,
    lights: IntersectionManager,
    n: int,
) -> Option<(int, i64)>
    decreases n,
{
    if n <= 0 {
        None
    } else {
        let before = nearest_cross(ego_idx, ego, e, tgt, vehicles, map, lights, n - 1);
        let d = if n - 1 != ego_idx {
            cross_distance(ego, e, tgt, vehicles[n - 1], map, lights)
        } else {
            None
        };
        match d {
            Some(x) => if before is None || x < before->Some_0.0 {
                Some((x, vehicles[n - 1].speed))
            } else {
                before
            },
            None => before,
        }
    }
}

/// Whether cross traffic matters to a vehicle: it is on an edge that it has not begun to turn from,
/// may pass the junction and is close to it. At roundabouts it never does.
pub open spec fn minds_cross_traffic(
    ego: Vehicle,
    plan: Option<PlannedTurnConnector>,
    map: MapData,
    lights: IntersectionManager,
) -> bool {
    match ego.edge() {
        Some(e) => {
            let tgt = map.nodes@[map.graph.ends()[e as int].1];
            &&& !ego.on_turn_connector
            &&& !past_entry(ego, plan, CROSS_TRAFFIC_ENTRY_COMMIT as int)
            &&& e < map.edges@.len()
            &&& tgt.intersection_type != IntersectionType::Roundabout
            &&& lights.lets_pass(tgt.osm_id, ego.has_stopped_at_stop_sign)
            &&& to_end(ego, map, e) <= CROSS_TRAFFIC_MAX_DISTANCE
        },
        None => false,
    }
}

/// The gap and the speed difference to the nearest of a leader and the cross traffic: the gap to
/// cross traffic is the distance to the junction.
pub open spec fn cross_effect(
    ego_idx: int,
    ego: Vehicle,
    vehicles: Seq<Vehicle>,
    plan: Option<PlannedTurnConnector>,
    map: MapData,
    lights: IntersectionManager,
    gap: int,
    delta_v: int,
) -> (int, int) {
    if minds_cross_traffic(ego, plan, map, lights) {
        let e = ego.edge()->Some_0;
        let d = larger(to_end(ego, map, e), MIN_IDM_GAP as int);
        match nearest_cross(
            ego_idx,
            ego,
            e,
            map.graph.ends()[e as int].1,
            vehicles,
            map,
            lights,
            vehicles.len() as int,
        ) {
            Some(b) => if d < gap {
                (d, saturated(ego.speed - b.1))
            } else {
                (gap, delta_v)
            },
            None => (gap, delta_v),
        }
    } else {
        (gap, delta_v)
    }
}

fn distance_of_cross(
    ego: &Vehicle,
    e: usize,
    d_ego: i64,
    tgt: usize,
    o: &Vehicle,
    map: &MapData,
    lights: &IntersectionManager,
) -> (r: Option<i64>)
    requires
        map.wf(),
        lights.wf(),
        tgt < map.nodes@.len(),
        e < map.edges@.len(),
        d_ego == to_end(*ego, *map, e),
    ensures
        match r {
            Some(d) => cross_distance(*ego, e, tgt as int, *o, *map, *lights) == Some(d as int),
            None => cross_distance(*ego, e, tgt as int, *o, *map, *lights) is None,
        },
{
    let oe: usize = match o.current_edge() {
        Some(oe) => oe,
        None => {
            return None;
        },
    };
    if oe == e || oe >= map.edges.len() {
        return None;
    }
    proof {
        map.graph.lemma_wf();
    }
    let leads_there: bool = match map.graph.edge_endpoints(oe) {
        Some((_, t)) => t == tgt,
        None => false,
    };
    if !leads_there || !edges_are_conflicting_approaches(map, e, oe, tgt) {
        return None;
    }
    if !lights.can_vehicle_proceed(map.nodes[tgt].osm_id, o.has_stopped_at_stop_sign) {
        return None;
    }
    let d: i64 = remaining(map.edges[oe].length, o.edge_progress);
    if d as i128 + (PRIORITY_HEADWAY as i128) < d_ego as i128 {
        Some(d)
    } else {
        None
    }
}

/// The gap and the speed difference to the nearest of a leader and the cross traffic.
pub fn apply_cross_traffic_leader_effect(
    ego_idx: usize,
    ego: &Vehicle,
    vehicles: &Vec<Vehicle>,
    plan: &Option<PlannedTurnConnector>,
    map: &MapData,
    intersections: &IntersectionManager,
    gap: i64,
    delta_v: i64,
) -> (r: (i64, i64))
    requires
        map.wf(),
        intersections.wf(),
    ensures
        (r.0 as int, r.1 as int) == cross_effect(
            ego_idx as int,
            *ego,
            vehicles@,
            *plan,
            *map,
            *intersections,
            gap as int,
            delta_v as int,
        ),
{
    let e: usize = match ego.current_edge() {
        Some(e) => e,
        None => {
            return (gap, delta_v);
        },
    };
    if ego.on_turn_connector || is_past_entry(ego, plan, CROSS_TRAFFIC_ENTRY_COMMIT) || e
        >= map.edges.len() {
        return (gap, delta_v);
    }
    proof {
        map.graph.lemma_wf();
    }
    let tgt: usize = match map.graph.edge_endpoints(e) {
        Some((_, t)) => t,
        None => {
            return (gap, delta_v);
        },
    };
    if map.nodes[tgt].intersection_type == IntersectionType::Roundabout {
        return (gap, delta_v);
    }
    if !intersections.can_vehicle_proceed(map.nodes[tgt].osm_id, ego.has_stopped_at_stop_sign) {
        return (gap, delta_v);
    }
    let d_ego: i64 = remaining(map.edges[e].length, ego.edge_progress);
    if d_ego > CROSS_TRAFFIC_MAX_DISTANCE {
        return (gap, delta_v);
    }
    let mut best: Option<(i64, i64)> = None;
    let mut i: usize = 0;
    while i < vehicles.len()
        invariant
            i <= vehicles@.len(),
            map.wf(),
            intersections.wf(),
            tgt < map.nodes@.len(),
            e < map.edges@.len(),
            d_ego == to_end(*ego, *map, e),
            match best {
                Some(b) => nearest_cross(
                    ego_idx as int,
                    *ego,
                    e,
                    tgt as int,
                    vehicles@,
                    *map,
                    *intersections,
                    i as int,
                ) == Some((b.0 as int, b.1)),
                None => nearest_cross(
                    ego_idx as int,
                    *ego,
                    e,
                    tgt as int,
                    vehicles@,
                    *map,
                    *intersections,
                    i as int,
                ) is None,
            },
        decreases vehicles.len() - i,
    {
        if i != ego_idx {
            match distance_of_cross(ego, e, d_ego, tgt, &vehicles[i], map, intersections) {
                Some(d) => {
                    let closer: bool = match best {
                        Some(b) => d < b.0,
                        None => true,
                    };
                    if closer {
                        best = Some((d, vehicles[i].speed));
                    }
                },
                None => {},
            }
        }
        i = i + 1;
    }
    match best {
        Some(b) => {
            let cross_gap: i64 = max_of(d_ego, MIN_IDM_GAP);
            if cross_gap < gap {
                (cross_gap, saturate(ego.speed as i128 - b.1 as i128))
            } else {
                (gap, delta_v)
            }
        },
        None => (gap, delta_v),
    }
}

/// The way through a junction that a vehicle takes with its lanes.
pub open spec fn movement_key(v: Vehicle, m: (usize, usize)) -> LaneMovementKey {
    LaneMovementKey {
        in_edge: m.0,
        out_edge: m.1,
        in_lane: v.current_lane,
        out_lane: v.target_lane,
    }
}

/// The way through a junction that a vehicle takes with its lanes.
pub fn lane_movement_key_for_vehicle(v: &Vehicle, m: (usize, usize)) -> (r: LaneMovementKey)
    ensures
        r == movement_key(*v, m),
{
    LaneMovementKey {
        in_edge: m.0,
        out_edge: m.1,
        in_lane: v.current_lane,
        out_lane: v.target_lane,
    }
}

/// The distance from the front of a vehicle to the entry of its planned turn.
pub open spec fn entry_distance(v: Vehicle, length: int, entry: int) -> int {
    let center = larger(saturated(part_of(length, larger(saturated(entry - v.edge_progress), 0))), 0);
    larger(center - v.vehicle_type.params_of().length / 2, MIN_IDM_GAP as int)
}

/// The distance from the front of a vehicle to the entry of its planned turn.
pub fn distance_to_entry(v: &Vehicle, length: i64, entry: i64) -> (r: i64)
    ensures
        r == entry_distance(*v, length as int, entry as int),
{
    let left: i64 = max_of(saturate(entry as i128 - v.edge_progress as i128), 0);
    let center: i64 = max_of(take_part(length, left), 0);
    max_of(center - v.vehicle_type.params().length / 2, MIN_IDM_GAP)
}

/// Whether a vehicle on its way to a junction looks at who else passes it: it has a planned turn,
/// is close to its entry and to the junction.
pub open spec fn looks_at_conflicts(
    v: Vehicle,
    map: MapData,
    plan: Option<PlannedTurnConnector>,
) -> bool {
    match (v.movement(), plan) {
        (Some(m), Some(p)) => m.0 < map.edges@.len() && entry_distance(
            v,
            map.edges@[m.0 as int].length as int,
            p.entry_progress as int,
        ) <= scan_distance(v) && to_end(v, map, m.0) <= scan_distance(v) + CONFLICT_APPROACH_TAIL,
        _ => false,
    }
}

/// `block` is the nearest reservation of another vehicle on the planned way of a vehicle that looks
/// at conflicts.
pub open spec fn approach_block(
    v: Vehicle,
    body: VehicleBody,
    sys: ConflictSystem,
    map: MapData,
    plan: Option<PlannedTurnConnector>,
    block: Option<BlockingConflict>,
) -> bool {
    if looks_at_conflicts(v, map, plan) {
        let m = v.movement()->Some_0;
        sys.blocks_as_reported(
            body,
            movement_key(v, m),
            Outlook::Approaching {
                to_entry: entry_distance(
                    v,
                    map.edges@[m.0 as int].length as int,
                    plan->Some_0.entry_progress as int,
                ) as i64,
            },
            larger(scan_distance(v), CONFLICT_LOOKAHEAD as int) as i64,
            map.graph.ends()[m.0 as int].1 as usize,
            block,
        )
    } else {
        block is None
    }
}

/// The stop line as an obstacle, at which the vehicle gives way to another one.
pub open spec fn priority_obstacle(v: Vehicle, stop: int, t: (u32, (int, int))) -> ClosestObstacle {
    ClosestObstacle {
        kind: ObstacleKind::PriorityStopLine,
        gap: larger(stop, MIN_IDM_GAP as int) as i64,
        delta_v: v.speed,
        point: Some((t.1.0 as i64, t.1.1 as i64)),
        leader_vehicle_id: Some(t.0),
        conflict_reserver_id: None,
        conflict_point_id: None,
    }
}

/// A reservation of another vehicle as an obstacle.
pub open spec fn conflict_obstacle(v: Vehicle, gap: int, b: BlockingConflict) -> ClosestObstacle {
    ClosestObstacle {
        kind: ObstacleKind::ConflictPoint,
        gap: gap as i64,
        delta_v: v.speed,
        point: Some((b.x, b.y)),
        leader_vehicle_id: None,
        conflict_reserver_id: Some(b.owner),
        conflict_point_id: Some(b.point_id),
    }
}

/// A stop line as an obstacle.
pub open spec fn stop_line_obstacle(
    kind: ObstacleKind,
    v: Vehicle,
    stop: int,
    place: (int, int),
) -> ClosestObstacle {
    let p = plane(place.0, place.1);
    ClosestObstacle {
        kind,
        gap: larger(stop, MIN_IDM_GAP as int) as i64,
        delta_v: v.speed,
        point: Some((p.0 as i64, p.1 as i64)),
        leader_vehicle_id: None,
        conflict_reserver_id: None,
        conflict_point_id: None,
    }
}

/// A give-way sign as an obstacle that moves slowly.
pub open spec fn yield_sign_obstacle(v: Vehicle, stop: int, node: RoadNode) -> ClosestObstacle {
    let p = plane(node.lat as int, node.lng as int);
    ClosestObstacle {
        kind: ObstacleKind::YieldTarget,
        gap: larger(stop, 500_000) as i64,
        delta_v: saturated(v.speed - YIELD_SPEED) as i64,
        point: Some((p.0 as i64, p.1 as i64)),
        leader_vehicle_id: None,
        conflict_reserver_id: None,
        conflict_point_id: None,
    }
}

/// The nearest of an obstacle and what the other vehicles at the junction are to a vehicle that
/// looks at conflicts.
pub open spec fn with_conflicts(
    v: Vehicle,
    base: ClosestObstacle,
    target: Option<(u32, (int, int))>,
    block: Option<BlockingConflict>,
    stop: int,
) -> ClosestObstacle {
    let first = match target {
        Some(t) => nearer(base, priority_obstacle(v, stop, t)),
        None => base,
    };
    match block {
        Some(b) => nearer(
            first,
            conflict_obstacle(
                v,
                larger(smaller(b.gap as int, first.gap as int), MIN_IDM_GAP as int),
                b,
            ),
        ),
        None => first,
    }
}

/// The nearest of an obstacle and what the lights and signs of the junction are: lights that hold
/// the vehicle matter within its braking distance, a stop sign within 15 m until the vehicle has
/// stopped, a give-way sign within 20 m for vehicles that are too fast.
pub open spec fn with_controls(
    v: Vehicle,
    base: ClosestObstacle,
    map: MapData,
    e: usize,
    lights: IntersectionManager,
) -> ClosestObstacle {
    let node = map.nodes@[map.graph.ends()[e as int].1];
    let end = to_end(v, map, e);
    let stop = stop_line_distance(v, end);
    let place = stop_line_place(map, e as int);
    let look = larger(
        saturated(saturated(braking_distance(v.speed as int, 3_500_000)) + 15_000_000),
        25_000_000,
    );
    match node.intersection_type {
        IntersectionType::TrafficLight | IntersectionType::PedestrianCrossing => if stop <= look
            && !lights.lets_pass(node.osm_id, v.has_stopped_at_stop_sign) {
            nearer(base, stop_line_obstacle(ObstacleKind::TrafficSignalStopLine, v, stop, place))
        } else {
            base
        },
        IntersectionType::Stop => if end <= 15_000_000 && !v.has_stopped_at_stop_sign {
            nearer(base, stop_line_obstacle(ObstacleKind::StopSignStopLine, v, stop, place))
        } else {
            base
        },
        IntersectionType::Yield => if end <= 20_000_000 && v.speed > YIELD_SPEED {
            nearer(base, yield_sign_obstacle(v, stop, node))
        } else {
            base
        },
        _ => base,
    }
}

/// The nearest of an obstacle and what the junction ahead is; a vehicle that turns or has no edge
/// has no junction ahead.
pub open spec fn junction_effect(
    v: Vehicle,
    base: ClosestObstacle,
    lights: IntersectionManager,
    sys: ConflictSystem,
    vehicles: Seq<Vehicle>,
    map: MapData,
    plan: Option<PlannedTurnConnector>,
    block: Option<BlockingConflict>,
) -> ClosestObstacle {
    match v.edge() {
        Some(e) => if v.on_turn_connector || e >= map.edges@.len() {
            base
        } else {
            let tgt = map.graph.ends()[e as int].1 as usize;
            let stop = stop_line_distance(v, to_end(v, map, e));
            let mid = if looks_at_conflicts(v, map, plan) {
                with_conflicts(
                    v,
                    base,
                    yield_target(
                        sys,
                        v,
                        map,
                        vehicles,
                        lights,
                        tgt,
                        v.movement()->Some_0,
                        scan_distance(v),
                        first_mover_of(sys.nodes@, tgt),
                    ),
                    block,
                    stop,
                )
            } else {
                base
            };
            with_controls(v, mid, map, e, lights)
        },
        None => base,
    }
}

fn apply_conflicts(
    v: &Vehicle,
    base: ClosestObstacle,
    target: Option<(u32, (i64, i64))>,
    block: Option<BlockingConflict>,
    stop: i64,
    Ghost(t): Ghost<Option<(u32, (int, int))>>,
) -> (r: ClosestObstacle)
    requires
        told_target(target, t),
    ensures
        r == with_conflicts(*v, base, t, block, stop as int),
{
    let first: ClosestObstacle = match target {
        Some(t) => min_obstacle(
            base,
            ClosestObstacle {
                kind: ObstacleKind::PriorityStopLine,
                gap: max_of(stop, MIN_IDM_GAP),
                delta_v: v.speed,
                point: Some(t.1),
                leader_vehicle_id: Some(t.0),
                conflict_reserver_id: None,
                conflict_point_id: None,
            },
        ),
        None => base,
    };
    match block {
        Some(b) => min_obstacle(
            first,
            ClosestObstacle {
                kind: ObstacleKind::ConflictPoint,
                gap: max_of(min_of(b.gap, first.gap), MIN_IDM_GAP),
                delta_v: v.speed,
                point: Some((b.x, b.y)),
                leader_vehicle_id: None,
                conflict_reserver_id: Some(b.owner),
                conflict_point_id: Some(b.point_id),
            },
        ),
        None => first,
    }
}

fn line_obstacle(kind: ObstacleKind, v: &Vehicle, stop: i64, place: (i64, i64)) -> (r:
    ClosestObstacle)
    ensures
        r == stop_line_obstacle(kind, *v, stop as int, (place.0 as int, place.1 as int)),
{
    ClosestObstacle {
        kind,
        gap: max_of(stop, MIN_IDM_GAP),
        delta_v: v.speed,
        point: Some(to_plane(place.0, place.1)),
        leader_vehicle_id: None,
        conflict_reserver_id: None,
        conflict_point_id: None,
    }
}

fn apply_controls(
    v: &Vehicle,
    base: ClosestObstacle,
    map: &MapData,
    e: usize,
    tgt: usize,
    lights: &IntersectionManager,
) -> (r: ClosestObstacle)
    requires
        map.wf(),
        lights.wf(),
        e < map.edges@.len(),
        tgt == map.graph.ends()[e as int].1,
        tgt < map.nodes@.len(),
    ensures
        r == with_controls(*v, base, *map, e, *lights),
{
    let end: i64 = remaining(map.edges[e].length, v.edge_progress);
    let stop: i64 = distance_to_stop_line_from_front_bumper(v, end);
    let node: RoadNode = map.nodes[tgt];
    match node.intersection_type {
        IntersectionType::TrafficLight | IntersectionType::PedestrianCrossing => {
            let look: i64 = max_of(
                saturate(comfort_braking_distance(v.speed) as i128 + 15_000_000),
                25_000_000,
            );
            if stop <= look && !lights.can_vehicle_proceed(node.osm_id, v.has_stopped_at_stop_sign)
            {
                let place: (i64, i64) = stop_line_of(map, e);
                min_obstacle(
                    base,
                    line_obstacle(ObstacleKind::TrafficSignalStopLine, v, stop, place),
                )
            } else {
                base
            }
        },
        IntersectionType::Stop => {
            if end <= 15_000_000 && !v.has_stopped_at_stop_sign {
                let place: (i64, i64) = stop_line_of(map, e);
                min_obstacle(base, line_obstacle(ObstacleKind::StopSignStopLine, v, stop, place))
            } else {
                base
            }
        },
        IntersectionType::Yield => {
            if end <= 20_000_000 && v.speed > YIELD_SPEED {
                min_obstacle(
                    base,
                    ClosestObstacle {
                        kind: ObstacleKind::YieldTarget,
                        gap: max_of(stop, 500_000),
                        delta_v: saturate(v.speed as i128 - YIELD_SPEED as i128),
                        point: Some(to_plane(node.lat, node.lng)),
                        leader_vehicle_id: None,
                        conflict_reserver_id: None,
                        conflict_point_id: None,
                    },
                )
            } else {
                base
            }
        },
        IntersectionType::Plain | IntersectionType::Roundabout => base,
    }
}

/// The nearest of an obstacle and what the junction ahead of a vehicle is.
pub fn apply_intersection_effect(
    v: &Vehicle,
    body: &VehicleBody,
    base: ClosestObstacle,
    intersections: &IntersectionManager,
    conflict_system: &ConflictSystem,
    vehicles: &Vec<Vehicle>,
    map: &MapData,
    plan: &Option<PlannedTurnConnector>,
) -> (r: ClosestObstacle)
    requires
        map.wf(),
        intersections.wf(),
        conflict_system.wf(),
    ensures
        exists|block: Option<BlockingConflict>|
            {
                &&& #[trigger] approach_block(*v, *body, *conflict_system, *map, *plan, block)
                &&& r == junction_effect(
                    *v,
                    base,
                    *intersections,
                    *conflict_system,
                    vehicles@,
                    *map,
                    *plan,
                    block,
                )
            },
{
    let e: usize = match v.current_edge() {
        Some(e) => e,
        None => {
            assert(approach_block(*v, *body, *conflict_system, *map, *plan, None));
            return base;
        },
    };
    if e >= map.edges.len() {
        assert(approach_block(*v, *body, *conflict_system, *map, *plan, None));
        return base;
    }
    proof {
        map.graph.lemma_wf();
    }
    let tgt: usize = match map.graph.edge_endpoints(e) {
        Some((_, t)) => t,
        None => {
            return base;
        },
    };
    let length: i64 = map.edges[e].length;
    let scan: i64 = conflict_scan_distance(v);
    let end: i64 = remaining(length, v.edge_progress);
    let near: Option<((usize, usize), i64)> = match (v.next_movement(), plan) {
        (Some(m), Some(p)) => {
            let entry: i64 = distance_to_entry(v, length, p.entry_progress);
            if entry <= scan && end as i128 <= scan as i128 + CONFLICT_APPROACH_TAIL as i128 {
                Some((m, entry))
            } else {
                None
            }
        },
        _ => None,
    };
    assert(near is Some <==> looks_at_conflicts(*v, *map, *plan));
    let block: Option<BlockingConflict> = match near {
        Some(n) => {
            let key: LaneMovementKey = lane_movement_key_for_vehicle(v, n.0);
            conflict_system.first_blocking_conflict_distance(
                body,
                key,
                n.1,
                max_of(scan, CONFLICT_LOOKAHEAD),
                tgt,
            )
        },
        None => None,
    };
    assert(approach_block(*v, *body, *conflict_system, *map, *plan, block));
    if v.on_turn_connector {
        return base;
    }
    let mid: ClosestObstacle = match near {
        Some(n) => {
            let first: Option<u32> = conflict_system.first_mover(tgt);
            let target = conflict_system.cross_traffic_yield_target(
                v,
                map,
                vehicles,
                intersections,
                tgt,
                n.0,
                scan,
                first,
            );
            let stop: i64 = distance_to_stop_line_from_front_bumper(v, end);
            let ghost t = yield_target(
                *conflict_system,
                *v,
                *map,
                vehicles@,
                *intersections,
                tgt,
                n.0,
                scan as int,
                first,
            );
            apply_conflicts(v, base, target, block, stop, Ghost(t))
        },
        None => base,
    };
    apply_controls(v, mid, map, e, tgt, intersections)
}

/// Whether the lights at the end of an edge let a vehicle pass; without lights they always do.
pub open spec fn lights_let_pass(
    v: Vehicle,
    map: MapData,
    e: usize,
    lights: IntersectionManager,
) -> bool {
    let node = map.nodes@[map.graph.ends()[e as int].1];
    is_signalled(node.intersection_type) ==> lights.lets_pass(
        node.osm_id,
        v.has_stopped_at_stop_sign,
    )
}

/// Whether the lights at the end of an edge let a vehicle pass.
pub fn can_pass_lights(v: &Vehicle, map: &MapData, e: usize, lights: &IntersectionManager) -> (r:
    bool)
    requires
        map.wf(),
        lights.wf(),
        e < map.edges@.len(),
    ensures
        r == lights_let_pass(*v, *map, e, *lights),
{
    proof {
        map.graph.lemma_wf();
    }
    match map.graph.edge_endpoints(e) {
        Some((_, tgt)) => match map.nodes[tgt].intersection_type {
            IntersectionType::TrafficLight
            | IntersectionType::PedestrianCrossing => lights.can_vehicle_proceed(
                map.nodes[tgt].osm_id,
                v.has_stopped_at_stop_sign,
            ),
            _ => true,
        },
        None => true,
    }
}

/// The distance to the stop line and whether lights hold the vehicle there, for display; only at
/// lights.
pub fn stop_line_debug(v: &Vehicle, map: &MapData, lights: &IntersectionManager) -> (r: Option<
    (i64, bool),
>)
    requires
        map.wf(),
        lights.wf(),
    ensures
        match v.edge() {
            Some(e) => if e < map.edges@.len() && is_signalled(
                map.nodes@[map.graph.ends()[e as int].1].intersection_type,
            ) {
                r is Some && r->Some_0.0 == stop_line_distance(*v, to_end(*v, *map, e))
                    && r->Some_0.1 == !lights_let_pass(*v, *map, e, *lights)
            } else {
                r is None
            },
            None => r is None,
        },
{
    match v.current_edge() {
        Some(e) => {
            if e >= map.edges.len() {
                return None;
            }
            proof {
                map.graph.lemma_wf();
            }
            match map.graph.edge_endpoints(e) {
                Some((_, tgt)) => match map.nodes[tgt].intersection_type {
                    IntersectionType::TrafficLight | IntersectionType::PedestrianCrossing => {
                        let end: i64 = remaining(map.edges[e].length, v.edge_progress);
                        let held: bool = !can_pass_lights(v, map, e, lights);
                        Some((distance_to_stop_line_from_front_bumper(v, end), held))
                    },
                    _ => None,
                },
                None => None,
            }
        },
        None => None,
    }
}

/// Whether a vehicle that is not turning yet already counts as turning: it has passed the entry of
/// its planned turn, which is not close to the beginning of the edge, near the junction, and lights
/// let it pass.
pub open spec fn counts_as_turning(
    v: Vehicle,
    map: MapData,
    lights: IntersectionManager,
    plan: Option<PlannedTurnConnector>,
) -> bool {
    match v.movement() {
        Some(m) => {
            &&& m.0 < map.edges@.len()
            &&& saturated(
                remaining_length(
                    map.edges@[m.0 as int].length as int,
                    between(v.edge_progress as int, 0, FULL as int),
                ),
            ) <= ENTRY_GATE
            &&& plan is Some
            &&& plan->Some_0.entry_progress >= ENTRY_MIN
            &&& past_entry(v, plan, ENTRY_COMMIT as int)
            &&& lights_let_pass(v, map, m.0, lights)
        },
        None => false,
    }
}

/// Whether a vehicle that is not turning yet already counts as turning.
pub fn ego_idm_past_connector_entry_for_idm(
    v: &Vehicle,
    map: &MapData,
    intersections: &IntersectionManager,
    plan: &Option<PlannedTurnConnector>,
) -> (r: bool)
    requires
        map.wf(),
        intersections.wf(),
    ensures
        r == counts_as_turning(*v, *map, *intersections, *plan),
{
    match (v.next_movement(), plan) {
        (Some(m), Some(p)) => {
            if m.0 >= map.edges.len() {
                return false;
            }
            let left: i64 = remaining(map.edges[m.0].length, clamp_to(v.edge_progress, 0, FULL));
            if left > ENTRY_GATE || p.entry_progress < ENTRY_MIN || !is_past_entry(
                v,
                plan,
                ENTRY_COMMIT,
            ) {
                return false;
            }
            can_pass_lights(v, map, m.0, intersections)
        },
        _ => false,
    }
}

/// How far along its planned turn a vehicle is that has passed the entry on its edge.
pub open spec fn synthetic_turn_position(progress: int, p: PlannedTurnConnector) -> int {
    if p.entry_progress >= FULL - 1_000 {
        0
    } else {
        saturated(
            part_of(
                p.length as int,
                between(
                    saturated(
                        share(saturated(progress - p.entry_progress), FULL - p.entry_progress),
                    ),
                    0,
                    FULL as int,
                ),
            ),
        )
    }
}

/// How far along its planned turn a vehicle is that has passed the entry on its edge.
pub fn synthetic_turn_centre_dist(progress: i64, p: &PlannedTurnConnector) -> (r: i64)
    requires
        p.entry_progress >= 0,
    ensures
        r == synthetic_turn_position(progress as int, *p),
{
    if p.entry_progress >= FULL - 1_000 {
        return 0;
    }
    let past: i64 = saturate(progress as i128 - p.entry_progress as i128);
    take_part(p.length, clamp_to(share_of(past, FULL - p.entry_progress), 0, FULL))
}

/// The edges between which a turning vehicle turns.
pub open spec fn turning_movement(v: Vehicle) -> (usize, usize) {
    if v.on_turn_connector {
        (v.turn_from_edge, v.turn_to_edge)
    } else {
        v.movement()->Some_0
    }
}

/// How far along its turn the front of a turning vehicle is.
pub open spec fn turning_front(v: Vehicle, plan: Option<PlannedTurnConnector>) -> int {
    let center = if v.on_turn_connector {
        v.turn_dist as int
    } else {
        synthetic_turn_position(v.edge_progress as int, plan->Some_0)
    };
    larger(saturated(center + v.vehicle_type.params_of().length / 2), 0)
}

/// Whether a vehicle is turning, or counts as turning.
pub open spec fn is_turning(
    v: Vehicle,
    map: MapData,
    lights: IntersectionManager,
    plan: Option<PlannedTurnConnector>,
) -> bool {
    v.on_turn_connector || counts_as_turning(v, map, lights, plan)
}

/// `block` is the nearest reservation of another vehicle on the way of a turning vehicle.
pub open spec fn turning_block(
    v: Vehicle,
    body: VehicleBody,
    sys: ConflictSystem,
    map: MapData,
    plan: Option<PlannedTurnConnector>,
    block: Option<BlockingConflict>,
) -> bool {
    let m = turning_movement(v);
    if m.0 < map.edges@.len() {
        sys.blocks_as_reported(
            body,
            movement_key(v, m),
            Outlook::OnArc { front: turning_front(v, plan) as i64 },
            larger(scan_distance(v), CONFLICT_LOOKAHEAD as int) as i64,
            map.graph.ends()[m.0 as int].1 as usize,
            block,
        )
    } else {
        block is None
    }
}

/// The nearest of an obstacle and a reservation on the way of a turning vehicle.
pub open spec fn turning_effect(
    v: Vehicle,
    base: ClosestObstacle,
    block: Option<BlockingConflict>,
) -> ClosestObstacle {
    match block {
        Some(b) => nearer(base, conflict_obstacle(v, b.gap as int, b)),
        None => base,
    }
}

/// The nearest of an obstacle and what is reserved by others on the way of a turning vehicle; for
/// other vehicles the obstacle itself.
pub fn apply_connector_conflict_obstacle(
    v: &Vehicle,
    body: &VehicleBody,
    base: ClosestObstacle,
    conflict_system: &ConflictSystem,
    map: &MapData,
    intersections: &IntersectionManager,
    plan: &Option<PlannedTurnConnector>,
) -> (r: ClosestObstacle)
    requires
        map.wf(),
        intersections.wf(),
        conflict_system.wf(),
    ensures
        !is_turning(*v, *map, *intersections, *plan) ==> r == base,
        is_turning(*v, *map, *intersections, *plan) ==> exists|block: Option<BlockingConflict>|
            #[trigger] turning_block(*v, *body, *conflict_system, *map, *plan, block) && r
                == turning_effect(*v, base, block),
{
    if !v.on_turn_connector && !ego_idm_past_connector_entry_for_idm(v, map, intersections, plan) {
        return base;
    }
    let m: (usize, usize) = if v.on_turn_connector {
        (v.turn_from_edge, v.turn_to_edge)
    } else {
        match v.next_movement() {
            Some(m) => m,
            None => {
                return base;
            },
        }
    };
    proof {
        map.graph.lemma_wf();
    }
    let node: usize = match map.graph.edge_endpoints(m.0) {
        Some((_, n)) => n,
        None => {
            assert(turning_block(*v, *body, *conflict_system, *map, *plan, None));
            return base;
        },
    };
    let key: LaneMovementKey = lane_movement_key_for_vehicle(v, m);
    let center: i64 = if v.on_turn_connector {
        v.turn_dist
    } else {
        match plan {
            Some(p) => synthetic_turn_centre_dist(v.edge_progress, p),
            None => 0,
        }
    };
    let front: i64 = max_of(
        saturate(center as i128 + (v.vehicle_type.params().length / 2) as i128),
        0,
    );
    let look: i64 = max_of(conflict_scan_distance(v), CONFLICT_LOOKAHEAD);
    let block = conflict_system.first_blocking_conflict_on_arc(body, key, front, look, node);
    assert(turning_block(*v, *body, *conflict_system, *map, *plan, block));
    match block {
        Some(b) => min_obstacle(
            base,
            ClosestObstacle {
                kind: ObstacleKind::ConflictPoint,
                gap: b.gap,
                delta_v: v.speed,
                point: Some((b.x, b.y)),
                leader_vehicle_id: None,
                conflict_reserver_id: Some(b.owner),
                conflict_point_id: Some(b.point_id),
            },
        ),
        None => base,
    }
}

/// The speed that a vehicle aims for: the limit of its edge by its own standard, not more than its
/// kind allows, and the speed of a turn while it turns.
pub open spec fn desired_speed(v: Vehicle, map: MapData) -> int {
    match v.edge() {
        Some(e) => {
            let limit = if e < map.edges@.len() {
                map.edges@[e as int].max_speed as int
            } else {
                14_000_000
            };
            let own = smaller(
                saturated(scaled(limit, v.personal_compliance as int)),
                v.vehicle_type.params_of().max_speed as int,
            );
            if v.on_turn_connector {
                smaller(own, TURN_SPEED as int)
            } else {
                own
            }
        },
        None => 0,
    }
}

/// The speed that a vehicle aims for.
pub fn compute_desired_speed(v: &Vehicle, map: &MapData) -> (r: i64)
    ensures
        r == desired_speed(*v, *map),
{
    match v.current_edge() {
        Some(e) => {
            let limit: i64 = if e < map.edges.len() {
                map.edges[e].max_speed
            } else {
                14_000_000
            };
            let own: i64 = min_of(
                scale(limit, v.personal_compliance),
                v.vehicle_type.params().max_speed,
            );
            if v.on_turn_connector {
                min_of(own, TURN_SPEED)
            } else {
                own
            }
        },
        None => 0,
    }
}

/// An obstacle with another gap and speed difference.
pub open spec fn moved(o: ClosestObstacle, g: (int, int)) -> ClosestObstacle {
    ClosestObstacle { gap: g.0 as i64, delta_v: g.1 as i64, ..o }
}

/// What a vehicle does next: its acceleration, the speed it aims for and the obstacle it has to
/// mind.
#[derive(Clone, Copy, Debug)]
pub struct IdmStepResult {
    pub accel: i64,
    pub desired_speed: i64,
    pub obstacle: ClosestObstacle,
}

/// Everything that the vehicles can see: the vehicles, their bodies, lanes and planned turns, the
/// trams, and the map with its lights and reservations.
pub struct Scene<'a> {
    pub vehicles: &'a Vec<Vehicle>,
    pub bodies: &'a Vec<VehicleBody>,
    pub plans: &'a Vec<Option<PlannedTurnConnector>>,
    pub buckets: &'a LaneBuckets,
    pub trams: &'a Vec<TramGhost>,
    pub map: &'a MapData,
    pub intersections: &'a IntersectionManager,
    pub conflicts: &'a ConflictSystem,
}

impl<'a> Scene<'a> {
    /// The parts are well-formed and each vehicle has a body and a plan.
    pub open spec fn wf(&self) -> bool {
        &&& self.map.wf()
        &&& self.intersections.wf()
        &&& self.conflicts.wf()
        &&& self.buckets.wf()
        &&& self.bodies@.len() == self.vehicles@.len()
        &&& self.plans@.len() == self.vehicles@.len()
    }

    /// The leader of vehicle `i`, or what the trams and the cross traffic ahead are.
    pub open spec fn road_obstacle(&self, i: int) -> ClosestObstacle {
        let v = self.vehicles@[i];
        let b = self.bodies@[i];
        let leader = route_obstacle(
            i,
            v,
            self.vehicles@,
            self.bodies@,
            *self.buckets,
            *self.map,
        );
        let past_trams = moved(
            leader,
            tram_effect(v, b, leader.gap as int, leader.delta_v as int, self.trams@),
        );
        moved(
            past_trams,
            cross_effect(
                i,
                v,
                self.vehicles@,
                self.plans@[i],
                *self.map,
                *self.intersections,
                past_trams.gap as int,
                past_trams.delta_v as int,
            ),
        )
    }

    /// What the trams ahead are to a turning vehicle.
    pub open spec fn turning_obstacle(&self, i: int) -> ClosestObstacle {
        let free = no_obstacle();
        moved(
            free,
            tram_effect(
                self.vehicles@[i],
                self.bodies@[i],
                free.gap as int,
                free.delta_v as int,
                self.trams@,
            ),
        )
    }

    /// `r` is what vehicle `i` does next. A turning vehicle minds trams and reservations on its way
    /// and keeps to the speed of a turn; any other minds its leader, trams, cross traffic and the
    /// junction ahead.
    pub open spec fn next_step(&self, i: int, r: IdmStepResult) -> bool {
        let v = self.vehicles@[i];
        let b = self.bodies@[i];
        let plan = self.plans@[i];
        r.accel == acceleration_towards(v, r.desired_speed as int, r.obstacle) && if is_turning(v, *self.map, *self.intersections, plan) {
            &&& r.desired_speed == if v.on_turn_connector {
                desired_speed(v, *self.map)
            } else {
                smaller(desired_speed(v, *self.map), TURN_SPEED as int)
            }
            &&& exists|block: Option<BlockingConflict>| #[trigger]
                turning_block(v, b, *self.conflicts, *self.map, plan, block) && r.obstacle
                    == turning_effect(v, self.turning_obstacle(i), block)
        } else {
            &&& r.desired_speed == desired_speed(v, *self.map)
            &&& exists|block: Option<BlockingConflict>|
                {
                    &&& #[trigger] approach_block(v, b, *self.conflicts, *self.map, plan, block)
                    &&& r.obstacle == junction_effect(
                        v,
                        self.road_obstacle(i),
                        *self.intersections,
                        *self.conflicts,
                        self.vehicles@,
                        *self.map,
                        plan,
                        block,
                    )
                }
        }
    }

    /// What a vehicle does next.
    pub fn compute_vehicle_idm_step(&self, i: usize) -> (r: IdmStepResult)
        requires
            self.wf(),
            i < self.vehicles@.len(),
        ensures
            self.next_step(i as int, r),
    {
        let v: &Vehicle = &self.vehicles[i];
        let body: &VehicleBody = &self.bodies[i];
        let plan: &Option<PlannedTurnConnector> = &self.plans[i];
        let base_speed: i64 = compute_desired_speed(v, self.map);
        if v.on_turn_connector || ego_idm_past_connector_entry_for_idm(
            v,
            self.map,
            self.intersections,
            plan,
        ) {
            let desired_speed: i64 = if v.on_turn_connector {
                base_speed
            } else {
                min_of(base_speed, TURN_SPEED)
            };
            let mut base = free_leader_obstacle();
            let (gap, dv) = apply_tram_leader_effect(v, body, base.gap, base.delta_v, self.trams);
            base.gap = gap;
            base.delta_v = dv;
            assert(base == self.turning_obstacle(i as int));
            let obstacle = apply_connector_conflict_obstacle(
                v,
                body,
                base,
                self.conflicts,
                self.map,
                self.intersections,
                plan,
            );
            let accel: i64 = compute_idm_accel_with_obstacle(v, desired_speed, &obstacle);
            return IdmStepResult { accel, desired_speed, obstacle };
        }
        let mut base = find_leader_obstacle_arc(
            i,
            v,
            self.vehicles,
            self.bodies,
            self.buckets,
            self.map,
        );
        let (gap, dv) = apply_tram_leader_effect(v, body, base.gap, base.delta_v, self.trams);
        base.gap = gap;
        base.delta_v = dv;
        let (gap2, dv2) = apply_cross_traffic_leader_effect(
            i,
            v,
            self.vehicles,
            plan,
            self.map,
            self.intersections,
            base.gap,
            base.delta_v,
        );
        base.gap = gap2;
        base.delta_v = dv2;
        assert(base == self.road_obstacle(i as int));
        let obstacle = apply_intersection_effect(
            v,
            body,
            base,
            self.intersections,
            self.conflicts,
            self.vehicles,
            self.map,
            plan,
        );
        let accel: i64 = compute_idm_accel_with_obstacle(v, base_speed, &obstacle);
        IdmStepResult { accel, desired_speed: base_speed, obstacle }
    }
}

/// A junction only ever brings an obstacle nearer.
pub proof fn law_junction_only_slows(
    v: Vehicle,
    base: ClosestObstacle,
    lights: IntersectionManager,
    sys: ConflictSystem,
    vehicles: Seq<Vehicle>,
    map: MapData,
    plan: Option<PlannedTurnConnector>,
    block: Option<BlockingConflict>,
)
    ensures
        junction_effect(v, base, lights, sys, vehicles, map, plan, block).gap <= base.gap,
{
}

/// Before a signal that does not let it pass, a vehicle within the distance that it looks ahead minds
/// something no further away than the stop line, or nearer than the least gap.
pub proof fn law_red_light_is_minded(
    v: Vehicle,
    base: ClosestObstacle,
    lights: IntersectionManager,
    sys: ConflictSystem,
    vehicles: Seq<Vehicle>,
    map: MapData,
    plan: Option<PlannedTurnConnector>,
    block: Option<BlockingConflict>,
    e: usize,
)
    requires
        v.edge() == Some(e),
        e < map.edges@.len(),
        !v.on_turn_connector,
        is_signalled(map.nodes@[map.graph.ends()[e as int].1].intersection_type),
        !lights.lets_pass(
            map.nodes@[map.graph.ends()[e as int].1].osm_id,
            v.has_stopped_at_stop_sign,
        ),
        stop_line_distance(v, to_end(v, map, e)) <= 25_000_000,
    ensures
        junction_effect(v, base, lights, sys, vehicles, map, plan, block).gap <= larger(
            stop_line_distance(v, to_end(v, map, e)),
            MIN_IDM_GAP as int,
        ),
{
}

/// A vehicle aims for the smallest of the limit of its edge by its own standard, what its kind allows
/// and, while it turns, 25 km/h: it is not above any of them, and it is one of them.
pub proof fn law_desired_speed_is_least(v: Vehicle, map: MapData, e: usize)
    requires
        v.edge() == Some(e),
        e < map.edges@.len(),
        0 <= map.edges@[e as int].max_speed <= 1_000_000_000,
        0 <= v.personal_compliance <= 10_000_000,
    ensures
        ({
            let own = map.edges@[e as int].max_speed * v.personal_compliance / 1_000_000;
            let kind = v.vehicle_type.params_of().max_speed as int;
            let s = desired_speed(v, map);
            &&& s <= own && s <= kind
            &&& v.on_turn_connector ==> s <= 6_944_444
            &&& s == own || s == kind || v.on_turn_connector && s == 6_944_444
        }),
{
    let (m, c) = (map.edges@[e as int].max_speed as int, v.personal_compliance as int);
    assert(0 <= m * c <= 10_000_000_000_000_000) by (nonlinear_arith)
        requires
            0 <= m <= 1_000_000_000,
            0 <= c <= 10_000_000,
    ;
}

/// Without a planned turn a junction holds a vehicle only by its lights and signs: red or yellow lights
/// within sight, a stop sign until the vehicle has stopped, a give-way sign while it is faster than
/// 1.39 m/s. Else what was ahead before is still what is ahead.
pub proof fn law_what_holds_at_junctions(
    v: Vehicle,
    base: ClosestObstacle,
    lights: IntersectionManager,
    sys: ConflictSystem,
    vehicles: Seq<Vehicle>,
    map: MapData,
    e: usize,
)
    requires
        v.edge() == Some(e),
        e < map.edges@.len(),
        !v.on_turn_connector,
    ensures
        ({
            let node = map.nodes@[map.graph.ends()[e as int].1];
            let end = to_end(v, map, e);
            let stop = stop_line_distance(v, end);
            let r = junction_effect(v, base, lights, sys, vehicles, map, None, None);
            &&& node.intersection_type == IntersectionType::Plain ==> r == base
            &&& node.intersection_type == IntersectionType::Roundabout ==> r == base
            &&& (node.intersection_type == IntersectionType::TrafficLight || node.intersection_type
                == IntersectionType::PedestrianCrossing) && lights.lets_pass(
                node.osm_id,
                v.has_stopped_at_stop_sign,
            ) ==> r == base
            &&& (node.intersection_type == IntersectionType::TrafficLight || node.intersection_type
                == IntersectionType::PedestrianCrossing) && !lights.lets_pass(
                node.osm_id,
                v.has_stopped_at_stop_sign,
            ) && stop <= 25_000_000 && stop < base.gap ==> r.gap == stop && r.delta_v == v.speed
                && r.kind == ObstacleKind::TrafficSignalStopLine
            &&& node.intersection_type == IntersectionType::Stop && v.has_stopped_at_stop_sign ==> r
                == base
            &&& node.intersection_type == IntersectionType::Stop && !v.has_stopped_at_stop_sign
                && end <= 15_000_000 && stop < base.gap ==> r.gap == stop && r.delta_v == v.speed
                && r.kind == ObstacleKind::StopSignStopLine
            &&& node.intersection_type == IntersectionType::Yield && v.speed <= 1_390_000 ==> r
                == base
            &&& node.intersection_type == IntersectionType::Yield && v.speed > 1_390_000 && end
                <= 20_000_000 && stop < base.gap && 500_000 < base.gap ==> r.gap <= larger(
                stop,
                500_000,
            ) && r.delta_v == v.speed - 1_390_000 && r.kind == ObstacleKind::YieldTarget
        }),
{
}

/// A vehicle that looks at conflicts stops at the line for whom it gives way to, and before what another
/// one has reserved.
pub proof fn law_gives_way_at_the_line(
    v: Vehicle,
    base: ClosestObstacle,
    target: Option<(u32, (int, int))>,
    block: Option<BlockingConflict>,
    stop: int,
)
    requires
        100_000 <= stop <= i64::MAX,
        base.gap >= 100_000,
    ensures
        ({
            let r = with_conflicts(v, base, target, block, stop);
            &&& r.gap <= base.gap
            &&& target is Some ==> r.gap <= stop
            &&& block matches Some(b) ==> r.gap <= larger(b.gap as int, 100_000)
            &&& target is None && block is None ==> r == base
            &&& target is Some && block is None && stop < base.gap ==> r.gap == stop
                && r.leader_vehicle_id == Some(target->Some_0.0) && r.delta_v == v.speed
            &&& target is None && block is Some && 100_000 <= block->Some_0.gap < base.gap ==> r.gap
                == block->Some_0.gap && r.conflict_reserver_id == Some(block->Some_0.owner)
                && r.delta_v == v.speed
        }),
{
}

/// Trams only bring the obstacle nearer: what is ahead is what was ahead before or a tram, seen at its
/// distance less its length of 20 m, and no tram ahead within 150 m that is slower, or within 20 m, is
/// nearer.
pub proof fn law_trams_ahead_are_minded(
    v: Vehicle,
    b: VehicleBody,
    gap: int,
    delta_v: int,
    trams: Seq<TramGhost>,
)
    ensures
        ({
            let r = tram_effect(v, b, gap, delta_v, trams);
            &&& r.0 <= gap
            &&& r == (gap, delta_v) || exists|k: int|
                0 <= k < trams.len() && r == (
                    tram_gap(b, #[trigger] trams[k]),
                    saturated(v.speed - trams[k].speed),
                )
            &&& forall|k: int|
                0 <= k < trams.len() && forward_reach(
                    b,
                    (#[trigger] trams[k]).x as int,
                    trams[k].y as int,
                ) >= 2_000_000 * v.vehicle_type.params_of().length / 2 && tram_gap(b, trams[k])
                    < 150_000_000 && (saturated(v.speed - trams[k].speed) > 0 || tram_gap(
                    b,
                    trams[k],
                ) < 20_000_000) ==> r.0 <= tram_gap(b, trams[k])
        }),
        forall|t: TramGhost| #[trigger]
            tram_gap(b, t) >= 100_000 && (tram_gap(b, t) > 100_000 ==> tram_gap(b, t) + 20_000_000
                == span(b.x as int, b.y as int, t.x as int, t.y as int)),
    decreases trams.len(),
{
    if trams.len() > 0 {
        let front = trams.drop_last();
        law_trams_ahead_are_minded(v, b, gap, delta_v, front);
        let before = tram_effect(v, b, gap, delta_v, front);
        if before != (gap, delta_v) {
            let k = choose|k: int|
                0 <= k < front.len() && before == (
                    tram_gap(b, #[trigger] front[k]),
                    saturated(v.speed - front[k].speed),
                );
            assert(trams[k] == front[k]);
        }
        assert(trams[trams.len() - 1] == trams.last());
        assert forall|k: int|
            0 <= k < trams.len() && forward_reach(
                b,
                (#[trigger] trams[k]).x as int,
                trams[k].y as int,
            ) >= 2_000_000 * v.vehicle_type.params_of().length / 2 && tram_gap(b, trams[k])
                < 150_000_000 && (saturated(v.speed - trams[k].speed) > 0 || tram_gap(b, trams[k])
                < 20_000_000) implies tram_effect(v, b, gap, delta_v, trams).0 <= tram_gap(
            b,
            trams[k],
        ) by {
            if k < front.len() {
                assert(front[k] == trams[k]);
            }
        }
    }
}

proof fn lemma_nearest_cross(
    ego_idx: int,
    ego: Vehicle,
    e: usize,
    tgt: int,
    vehicles: Seq<Vehicle>,
    map: MapData,
    lights: IntersectionManager,
    n: int,
)
    requires
        0 <= n,
    ensures
        ({
            let found = nearest_cross(ego_idx, ego, e, tgt, vehicles, map, lights, n);
            &&& found matches Some(b) ==> exists|k: int|
                0 <= k < n && k != ego_idx && b.1 == (#[trigger] vehicles[k]).speed
                    && cross_distance(ego, e, tgt, vehicles[k], map, lights) == Some(b.0)
            &&& forall|k: int|
                0 <= k < n && k != ego_idx && cross_distance(
                    ego,
                    e,
                    tgt,
                    #[trigger] vehicles[k],
                    map,
                    lights,
                ) is Some ==> found is Some && found->Some_0.0 <= cross_distance(
                    ego,
                    e,
                    tgt,
                    vehicles[k],
                    map,
                    lights,
                )->Some_0
        }),
    decreases n,
{
    if n > 0 {
        lemma_nearest_cross(ego_idx, ego, e, tgt, vehicles, map, lights, n - 1);
        let before = nearest_cross(ego_idx, ego, e, tgt, vehicles, map, lights, n - 1);
        if before is Some {
            let k = choose|k: int|
                0 <= k < n - 1 && k != ego_idx && before->Some_0.1 == (#[trigger] vehicles[k]).speed
                    && cross_distance(ego, e, tgt, vehicles[k], map, lights) == Some(
                    before->Some_0.0,
                );
            assert(0 <= k < n);
        }
    }
}

/// A vehicle that minds cross traffic stops before the junction for another one that may pass it, comes
/// from another direction and is more than half a metre nearer to it; it goes by the speed of the one
/// that is nearest to the junction.
pub proof fn law_cross_traffic_goes_first(
    ego_idx: int,
    ego: Vehicle,
    vehicles: Seq<Vehicle>,
    plan: Option<PlannedTurnConnector>,
    map: MapData,
    lights: IntersectionManager,
    gap: int,
    delta_v: int,
    e: usize,
    k: int,
)
    requires
        ego.edge() == Some(e),
        minds_cross_traffic(ego, plan, map, lights),
        0 <= k < vehicles.len(),
        k != ego_idx,
        vehicles[k].edge() is Some,
        vehicles[k].edge() != Some(e),
        vehicles[k].edge()->Some_0 < map.edges@.len(),
        map.graph.ends()[vehicles[k].edge()->Some_0 as int].1 == map.graph.ends()[e as int].1,
        conflicting_approaches(
            map,
            e,
            vehicles[k].edge()->Some_0,
            map.graph.ends()[e as int].1,
        ),
        lights.lets_pass(
            map.nodes@[map.graph.ends()[e as int].1].osm_id,
            vehicles[k].has_stopped_at_stop_sign,
        ),
        0 <= to_end(vehicles[k], map, vehicles[k].edge()->Some_0),
        to_end(vehicles[k], map, vehicles[k].edge()->Some_0) + 500_000 < to_end(ego, map, e),
    ensures
        ({
            let r = cross_effect(ego_idx, ego, vehicles, plan, map, lights, gap, delta_v);
            &&& r.0 <= gap
            &&& r.0 <= to_end(ego, map, e)
            &&& to_end(ego, map, e) < gap ==> r.0 == to_end(ego, map, e)
        }),
{
    let tgt = map.graph.ends()[e as int].1;
    lemma_nearest_cross(ego_idx, ego, e, tgt, vehicles, map, lights, vehicles.len() as int);
    assert(cross_distance(ego, e, tgt, vehicles[k], map, lights) is Some);
    let found = nearest_cross(ego_idx, ego, e, tgt, vehicles, map, lights, vehicles.len() as int);
    assert(found is Some);
}

/// A vehicle with a green light, or without lights, is let pass; with any other light it is not.
pub proof fn law_lights_let_pass(
    v: Vehicle,
    map: MapData,
    e: usize,
    lights: IntersectionManager,
    l: crate::traffic::traffic_light::TrafficLight,
)
    requires
        e < map.edges@.len(),
    ensures
        ({
            let node = map.nodes@[map.graph.ends()[e as int].1];
            let lit = node.intersection_type == IntersectionType::TrafficLight
                || node.intersection_type == IntersectionType::PedestrianCrossing;
            &&& !lit ==> lights_let_pass(v, map, e, lights)
            &&& lit && lights.light_at(node.osm_id) == Some(l) ==> (lights_let_pass(
                v,
                map,
                e,
                lights,
            ) <==> l.current_phase == crate::traffic::traffic_light::LightPhase::Green)
        }),
{
}

/// A driver on the road minds what is nearest: neither the vehicle ahead on the route nor a place of
/// conflict that is told is ever nearer than what the driver brakes for.
pub proof fn law_nearest_is_minded(
    scene: Scene<'_>,
    i: int,
    r: IdmStepResult,
    block: Option<BlockingConflict>,
)
    requires
        0 <= i < scene.vehicles@.len(),
        scene.next_step(i, r),
    ensures
        ({
            let v = scene.vehicles@[i];
            let turning = is_turning(v, *scene.map, *scene.intersections, scene.plans@[i]);
            &&& !turning ==> r.obstacle.gap <= route_obstacle(
                i,
                v,
                scene.vehicles@,
                scene.bodies@,
                *scene.buckets,
                *scene.map,
            ).gap
            &&& !turning ==> r.desired_speed == desired_speed(v, *scene.map)
            &&& turning ==> r.desired_speed <= desired_speed(v, *scene.map)
            &&& turning && !v.on_turn_connector ==> r.desired_speed <= 6_944_444
        }),
        turning_effect(scene.vehicles@[i], scene.turning_obstacle(i), block).gap
            <= scene.turning_obstacle(i).gap,
        block matches Some(b) ==> turning_effect(
            scene.vehicles@[i],
            scene.turning_obstacle(i),
            block,
        ).gap <= b.gap,
{
    let v = scene.vehicles@[i];
    let b = scene.bodies@[i];
    let leader = route_obstacle(i, v, scene.vehicles@, scene.bodies@, *scene.buckets, *scene.map);
    law_trams_ahead_are_minded(v, b, leader.gap as int, leader.delta_v as int, scene.trams@);
    let t = tram_effect(v, b, leader.gap as int, leader.delta_v as int, scene.trams@);
    let past = moved(leader, t);
    assert(past.gap == t.0) by {
        if t != (leader.gap as int, leader.delta_v as int) {
            let k = choose|k: int|
                0 <= k < scene.trams@.len() && t == (
                    tram_gap(b, #[trigger] scene.trams@[k]),
                    saturated(v.speed - scene.trams@[k].speed),
                );
            assert(tram_gap(b, scene.trams@[k]) >= 100_000);
        }
    }
    assert(scene.road_obstacle(i).gap <= past.gap);
}

/// A vehicle that turns without a connector is at the start of the turn where it leaves its edge and at
/// its end where the edge ends, and never beyond; who is further along the edge is further on the turn.
pub proof fn law_place_on_turn(a: int, b: int, p: PlannedTurnConnector)
    requires
        0 <= p.entry_progress < 999_999_000,
        p.length >= 0,
        p.entry_progress <= a <= b <= 1_000_000_000,
    ensures
        0 <= synthetic_turn_position(a, p) <= synthetic_turn_position(b, p) <= p.length,
        synthetic_turn_position(p.entry_progress as int, p) == 0,
        synthetic_turn_position(1_000_000_000, p) == p.length,
{
    let f: int = 1_000_000_000;
    let n = f - p.entry_progress;
    let (x, y) = (a - p.entry_progress, b - p.entry_progress);
    crate::units::law_share_of_length(x, n);
    crate::units::law_share_of_length(y, n);
    let (s, t) = (share(x, n), share(y, n));
    assert(s <= t) by (nonlinear_arith)
        requires
            x <= y,
            n > 0,
            s == x * 1_000_000_000 / n,
            t == y * 1_000_000_000 / n,
    ;
    let l = p.length as int;
    crate::units::law_way_along_edge(l, s);
    crate::units::law_way_along_edge(l, t);
    assert(l * s <= l * t) by (nonlinear_arith)
        requires
            s <= t,
            l >= 0,
    ;
}

/// The front of a turning vehicle lies half its length before its middle.
pub proof fn law_front_of_turning_vehicle(v: Vehicle, plan: Option<PlannedTurnConnector>)
    requires
        0 <= v.turn_dist <= 1_000_000_000_000,
        v.on_turn_connector,
    ensures
        0 <= 2 * (v.turn_dist - turning_front(v, plan)) + v.vehicle_type.params_of().length <= 1,
{
}

/// Beyond the known edges 14 m/s count as the limit, and without an edge a vehicle stands.
pub proof fn law_speed_without_limit(v: Vehicle, map: MapData)
    requires
        0 <= v.personal_compliance <= 10_000_000,
    ensures
        v.edge() is None ==> desired_speed(v, map) == 0,
        v.edge() matches Some(e) && e >= map.edges@.len() && !v.on_turn_connector ==> desired_speed(
            v,
            map,
        ) == smaller(
            14 * v.personal_compliance,
            v.vehicle_type.params_of().max_speed as int,
        ),
{
}

} // verus!
