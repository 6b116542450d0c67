//! How a vehicle moves in one step.

use vstd::prelude::*;

use crate::map::lane_graph::{Lane, NO_EDGE};
use crate::map::map_data::{degree, MapData};
use crate::map::road_network::IntersectionType;
use crate::simulation::approach::{
    can_pass_lights, lane_movement_key_for_vehicle, lights_let_pass, movement_key, to_end,
};
use crate::simulation::conflict::{
    first_mover_of, lemma_swept_wf, system_swept, Blocked, ConflictSystem, Sweep, VehicleBody,
};
use crate::simulation::lane_change::{compute_vehicle_target_lane, wanted_lane};
use crate::simulation::leader::{along, distance_along, find_lane, place_in};
use crate::simulation::obstacle::{
    conflict_scan_distance, scan_distance, stop_line_position, stop_line_progress,
    PlannedTurnConnector,
};
use crate::simulation::right_of_way::yield_target;
use crate::simulation::route::{
    apply_lane_route_handover_teleport_from_queue, belongs_to, best_lane, connector_between,
    find_best_lane, find_connector_lane_id, find_projection, handed_over, handover_place,
    lane_of, lane_route_handover_scan_start, limit_of, projection, scan_start, set_down,
    set_down_length, set_down_limit, snap_vehicle_to_lane_route_physical_start,
    sync_vehicle_lane_route_state, synced,
};
use crate::simulation::speed_config::RageConfig;
use crate::traffic::intersection::IntersectionManager;
use crate::units::{
    between, clamp_to, floor_div, larger, max_of, min_of, part_of, remaining, saturate, saturated,
    scale, scaled, share, share_of, smaller, take_part, FULL,
};
use crate::vehicles::vehicle::{Vehicle, STOPPED_SPEED};

verus! {

/// Frustration at which a driver gives up.
pub const RAGE: i64 = 100_000_000;

/// Sideways speed of a lane change, in millionths of a lane per second.
pub const LANE_CHANGE_SPEED: i64 = 350_000;

/// Speed below which a vehicle has stopped at a stop sign.
pub const STOP_SIGN_SPEED: i64 = 300_000;

/// Speed of a vehicle that is held at a stop line.
pub const HELD_SPEED: i64 = 200_000;

/// Speed of a vehicle that turns towards a place that another one has reserved.
pub const BLOCKED_TURN_SPEED: i64 = 2_000_000;

/// Where a vehicle is after a step.
#[allow(inconsistent_fields)]
#[derive(Clone, Copy, Debug)]
pub enum Placement {
    /// Where it was.
    Keep,
    /// On its turn, along a connector where it has one.
    Turn { lane: Option<u64>, distance: i64 },
    /// Along a lane.
    Lane { lane: u64, distance: i64 },
    /// On the straight line of an edge.
    Edge { edge: usize, progress: i64 },
}

/// The way driven at a speed in some time.
pub open spec fn way(speed: int, dt: int) -> int {
    saturated(scaled(speed, dt))
}

/// A vehicle after accelerating; it never drives backwards.
pub open spec fn accelerated(v: Vehicle, accel: i64, dt: i64) -> Vehicle {
    Vehicle {
        accel,
        speed: larger(saturated(v.speed + way(accel as int, dt as int)), 0) as i64,
        ..v
    }
}

fn accelerate(v: &mut Vehicle, accel: i64, dt: i64)
    ensures
        *final(v) == accelerated(*old(v), accel, dt),
{
    v.accel = accel;
    v.speed = max_of(saturate(v.speed as i128 + scale(accel, dt) as i128), 0);
}

/// How much longer than a threshold a time is, in millionths of the threshold.
pub open spec fn excess(t: int, threshold: int) -> int {
    if threshold == 0 {
        i64::MAX as int
    } else if threshold < 0 {
        saturated((threshold - t) * 1_000_000 / (-threshold))
    } else {
        saturated((t - threshold) * 1_000_000 / threshold)
    }
}

/// How fast frustration grows while standing: evenly at first, faster and faster behind the
/// threshold.
pub open spec fn standing_rate(rate: int, t: int, threshold: int) -> int {
    if t < threshold {
        rate
    } else {
        let e = excess(t, threshold);
        saturated(rate + saturated(scaled(rate, saturated(scaled(e, e)))))
    }
}

fn rate_while_standing(rate: i64, t: i64, threshold: i64) -> (r: i64)
    ensures
        r == standing_rate(rate as int, t as int, threshold as int),
{
    if t < threshold {
        return rate;
    }
    let e: i64 = if threshold == 0 {
        i64::MAX
    } else if threshold < 0 {
        saturate(
            floor_div((threshold as i128 - t as i128) * 1_000_000, -(threshold as i128)),
        )
    } else {
        saturate((t as i128 - threshold as i128) * 1_000_000 / threshold as i128)
    };
    saturate(rate as i128 + scale(rate, scale(e, e)) as i128)
}

/// The speed below which a vehicle crawls.
pub open spec fn crawl_speed(v: Vehicle, map: MapData, rage: RageConfig) -> int {
    let part = match v.edge() {
        Some(e) => saturated(
            scaled(
                if e < map.edges@.len() {
                    map.edges@[e as int].max_speed as int
                } else {
                    14_000_000
                },
                rage.crawl_fraction as int,
            ),
        ),
        None => 500_000,
    };
    larger(part, 500_000)
}

/// Frustration that has grown by a rate for some time.
pub open spec fn grown(frustration: int, rate: int, dt: int) -> int {
    smaller(saturated(frustration + way(rate, dt)), RAGE as int)
}

/// A vehicle with the frustration of its driver after some time: it grows while standing, grows
/// while crawling for long, and is lost while driving.
pub open spec fn frustrated(v: Vehicle, map: MapData, rage: RageConfig, dt: i64) -> Vehicle {
    let p = v.driver_profile;
    if v.speed < STOPPED_SPEED {
        let t = saturated(v.standstill_time + dt);
        let rate = standing_rate(
            rage.decay_rate_linear.of(p) as int,
            t,
            rage.standstill_threshold.of(p) as int,
        );
        Vehicle {
            standstill_time: t as i64,
            crawl_time: 0,
            frustration: grown(v.frustration as int, rate, dt as int) as i64,
            ..v
        }
    } else if v.speed < crawl_speed(v, map, rage) {
        let t = saturated(v.crawl_time + dt);
        Vehicle {
            standstill_time: 0,
            crawl_time: t as i64,
            frustration: if t > rage.crawl_threshold {
                grown(v.frustration as int, rage.crawl_rate.of(p) as int, dt as int) as i64
            } else {
                v.frustration
            },
            ..v
        }
    } else {
        Vehicle {
            standstill_time: 0,
            crawl_time: 0,
            frustration: larger(
                saturated(v.frustration - way(rage.recovery_rate.of(p) as int, dt as int)),
                0,
            ) as i64,
            ..v
        }
    }
}

fn grow(frustration: i64, rate: i64, dt: i64) -> (r: i64)
    ensures
        r == grown(frustration as int, rate as int, dt as int),
{
    min_of(saturate(frustration as i128 + scale(rate, dt) as i128), RAGE)
}

fn frustrate(v: &mut Vehicle, map: &MapData, rage: &RageConfig, dt: i64)
    ensures
        *final(v) == frustrated(*old(v), *map, *rage, dt),
{
    if v.is_stopped() {
        v.standstill_time = saturate(v.standstill_time as i128 + dt as i128);
        v.crawl_time = 0;
        let rate: i64 = rate_while_standing(
            rage.decay_rate_linear.get(v.driver_profile),
            v.standstill_time,
            rage.standstill_threshold.get(v.driver_profile),
        );
        v.frustration = grow(v.frustration, rate, dt);
    } else {
        v.standstill_time = 0;
        let part: i64 = match v.current_edge() {
            Some(e) => {
                let limit: i64 = if e < map.edges.len() {
                    map.edges[e].max_speed
                } else {
                    14_000_000
                };
                scale(limit, rage.crawl_fraction)
            },
            None => 500_000,
        };
        if v.speed < max_of(part, 500_000) {
            v.crawl_time = saturate(v.crawl_time as i128 + dt as i128);
            if v.crawl_time > rage.crawl_threshold {
                v.frustration = grow(v.frustration, rage.crawl_rate.get(v.driver_profile), dt);
            }
        } else {
            v.crawl_time = 0;
            let lost: i64 = scale(rage.recovery_rate.get(v.driver_profile), dt);
            v.frustration = max_of(saturate(v.frustration as i128 - lost as i128), 0);
        }
    }
}

/// Whether a vehicle has stopped at a stop sign: it stands within 15 m of one.
pub open spec fn stops_at_sign(v: Vehicle, map: MapData) -> bool {
    match v.edge() {
        Some(e) => v.speed < STOP_SIGN_SPEED && e < map.edges@.len()
            && map.nodes@[map.graph.ends()[e as int].1].intersection_type == IntersectionType::Stop
            && to_end(v, map, e) <= 15_000_000,
        None => false,
    }
}

fn is_stopped_at_sign(v: &Vehicle, map: &MapData) -> (r: bool)
    requires
        map.wf(),
    ensures
        r == stops_at_sign(*v, *map),
{
    match v.current_edge() {
        Some(e) => {
            if v.speed >= STOP_SIGN_SPEED || e >= map.edges.len() {
                return false;
            }
            proof {
                map.graph.lemma_wf();
            }
            match map.graph.edge_endpoints(e) {
                Some((_, tgt)) => map.nodes[tgt].intersection_type == IntersectionType::Stop
                    && remaining(map.edges[e].length, v.edge_progress) <= 15_000_000,
                None => false,
            }
        },
        None => false,
    }
}

/// The sideways position after gliding towards a target.
pub open spec fn glided(current: int, target: int, dt: int) -> int {
    let diff = target - current;
    let step = way(LANE_CHANGE_SPEED as int, dt);
    if (if diff >= 0 {
        diff
    } else {
        -diff
    }) <= step {
        target
    } else if diff > 0 {
        saturated(current + step)
    } else {
        saturated(current - step)
    }
}

fn glide(current: i64, target: i64, dt: i64) -> (r: i64)
    ensures
        r == glided(current as int, target as int, dt as int),
{
    let diff: i128 = target as i128 - current as i128;
    let step: i64 = scale(LANE_CHANGE_SPEED, dt);
    let size: i128 = if diff >= 0 {
        diff
    } else {
        -diff
    };
    if size <= step as i128 {
        target
    } else if diff > 0 {
        saturate(current as i128 + step as i128)
    } else {
        saturate(current as i128 - step as i128)
    }
}

/// A vehicle with its stop sign noted, its wait between lane changes run down, and its sideways
/// position glided towards its lane; while it turns it keeps its sideways position.
pub open spec fn settled(v: Vehicle, map: MapData, dt: i64) -> Vehicle {
    let target = v.target_lane * 1_000_000;
    Vehicle {
        has_stopped_at_stop_sign: v.has_stopped_at_stop_sign || stops_at_sign(v, map),
        lane_change_cooldown: if v.lane_change_cooldown > 0 {
            larger(saturated(v.lane_change_cooldown - dt), 0) as i64
        } else {
            v.lane_change_cooldown
        },
        target_lateral_offset: target as i64,
        current_lateral_offset: if v.on_turn_connector {
            v.current_lateral_offset
        } else {
            glided(v.current_lateral_offset as int, target, dt as int) as i64
        },
        ..v
    }
}

fn settle(v: &mut Vehicle, map: &MapData, dt: i64)
    requires
        map.wf(),
    ensures
        *final(v) == settled(*old(v), *map, dt),
{
    if !v.has_stopped_at_stop_sign && is_stopped_at_sign(v, map) {
        v.has_stopped_at_stop_sign = true;
    }
    if v.lane_change_cooldown > 0 {
        v.lane_change_cooldown = max_of(
            saturate(v.lane_change_cooldown as i128 - dt as i128),
            0,
        );
    }
    v.target_lateral_offset = v.target_lane as i64 * 1_000_000;
    if !v.on_turn_connector {
        v.current_lateral_offset = glide(v.current_lateral_offset, v.target_lateral_offset, dt);
    }
}

/// A vehicle that is taken off the road.
pub open spec fn gone(v: Vehicle) -> Vehicle {
    Vehicle { despawned: true, ..v }
}

fn vehicle_mark_despawned(v: &mut Vehicle)
    ensures
        *final(v) == gone(*old(v)),
{
    v.despawned = true;
}

/// Whether a vehicle goes on after the first part of a step: its driver has not given up and it is
/// on an edge of the map.
pub open spec fn goes_on(v: Vehicle, map: MapData) -> bool {
    v.frustration < RAGE && v.edge() is Some && v.edge()->Some_0 < map.edges@.len()
}

/// A vehicle after the first part of a step: speed, frustration, stop sign, wait and sideways
/// position. A driver who gives up leaves, and so does a vehicle whose route is at its end.
pub open spec fn started(
    v: Vehicle,
    accel: i64,
    dt: i64,
    map: MapData,
    rage: RageConfig,
) -> Vehicle {
    let a = frustrated(accelerated(v, accel, dt), map, rage, dt);
    if a.frustration >= RAGE {
        gone(a)
    } else {
        let b = settled(a, map, dt);
        if goes_on(b, map) {
            b
        } else {
            gone(b)
        }
    }
}

fn start_step(v: &mut Vehicle, accel: i64, dt: i64, map: &MapData, rage: &RageConfig) -> (r: Option<
    usize,
>)
    requires
        map.wf(),
    ensures
        *final(v) == started(*old(v), accel, dt, *map, *rage),
        r is Some <==> goes_on(*final(v), *map),
        r is Some ==> r == final(v).edge(),
{
    accelerate(v, accel, dt);
    frustrate(v, map, rage, dt);
    if v.frustration >= RAGE {
        vehicle_mark_despawned(v);
        return None;
    }
    settle(v, map, dt);
    match v.current_edge() {
        Some(e) => {
            if e < map.edges.len() {
                Some(e)
            } else {
                vehicle_mark_despawned(v);
                None
            }
        },
        None => {
            vehicle_mark_despawned(v);
            None
        },
    }
}

/// A turning vehicle farther along its turn of length `total`. A connector that is not on the map
/// any more is forgotten; the position on the edge follows the turn.
pub open spec fn turned(v: Vehicle, map: MapData, total: i64, dt: i64) -> Vehicle {
    let distance = smaller(saturated(v.turn_dist + way(v.speed as int, dt as int)), total as int);
    let part = between(saturated(share(distance, larger(total as int, 1))), 0, FULL as int);
    Vehicle {
        connector_lane_id: match v.connector_lane_id {
            Some(c) => if map.lanes.has(c) {
                Some(c)
            } else {
                None
            },
            None => None,
        },
        turn_dist: distance as i64,
        edge_progress: saturated(
            v.turn_entry_progress + saturated(
                part_of(saturated(FULL - v.turn_entry_progress), part),
            ),
        ) as i64,
        ..v
    }
}

fn turn(v: &mut Vehicle, map: &MapData, total: i64, dt: i64)
    ensures
        *final(v) == turned(*old(v), *map, total, dt),
{
    match v.connector_lane_id {
        Some(c) => {
            if lane_of(map, c).is_none() {
                v.connector_lane_id = None;
            }
        },
        None => {},
    }
    let distance: i64 = min_of(
        saturate(v.turn_dist as i128 + scale(v.speed, dt) as i128),
        total,
    );
    v.turn_dist = distance;
    let part: i64 = clamp_to(share_of(distance, max_of(total, 1)), 0, FULL);
    let left: i64 = saturate(FULL as i128 - v.turn_entry_progress as i128);
    v.edge_progress = saturate(v.turn_entry_progress as i128 + take_part(left, part) as i128);
}

/// `after` are the reservations after a turning vehicle has moved: its motion is noted, passed
/// points are given back, and its claim is extended along its planned way, with the outcome `r`.
#[verifier::opaque]
pub open spec fn turn_noted(
    v: Vehicle,
    map: MapData,
    has_plan: bool,
    bodies: Seq<VehicleBody>,
    now: i64,
    before: ConflictSystem,
    after: ConflictSystem,
    r: Result<(), Blocked>,
) -> bool {
    let half = (v.vehicle_type.params_of().length / 2) as i64;
    exists|s1: ConflictSystem, s2: ConflictSystem|
        {
            &&& #[trigger] system_swept(
                Sweep::NoteMotion {
                    vehicle: v.id,
                    in_edge: v.turn_from_edge,
                    out_edge: v.turn_to_edge,
                    progress: v.turn_dist,
                    now,
                },
                before,
                s1,
            )
            &&& #[trigger] system_swept(
                Sweep::CleanPassed {
                    vehicle: v.id,
                    in_edge: v.turn_from_edge,
                    out_edge: v.turn_to_edge,
                    center: v.turn_dist,
                    half_length: half,
                },
                s1,
                s2,
            )
            &&& if has_plan && v.movement() is Some && v.turn_from_edge < map.edges@.len() {
                s2.arc_claimed(
                    &after,
                    v.id,
                    movement_key(v, v.movement()->Some_0),
                    map.graph.ends()[v.turn_from_edge as int].1 as usize,
                    v.turn_dist,
                    half,
                    now,
                    bodies,
                    r,
                )
            } else {
                after == s2 && r == Ok::<(), Blocked>(())
            }
        }
}

fn note_turn(
    v: &Vehicle,
    map: &MapData,
    has_plan: bool,
    bodies: &Vec<VehicleBody>,
    now: i64,
    sys: &mut ConflictSystem,
) -> (r: Result<(), Blocked>)
    requires
        map.wf(),
        old(sys).wf(),
    ensures
        final(sys).wf(),
        turn_noted(*v, *map, has_plan, bodies@, now, *old(sys), *final(sys), r),
{
    reveal(turn_noted);
    let half: i64 = v.vehicle_type.params().length / 2;
    let ghost s0 = *sys;
    sys.update_reservation_motion_for_vehicle(
        v.id,
        v.turn_from_edge,
        v.turn_to_edge,
        v.turn_dist,
        now,
    );
    let ghost s1 = *sys;
    proof {
        lemma_swept_wf(
            Sweep::NoteMotion {
                vehicle: v.id,
                in_edge: v.turn_from_edge,
                out_edge: v.turn_to_edge,
                progress: v.turn_dist,
                now,
            },
            s0,
            s1,
        );
    }
    sys.clean_passed_points_for_vehicle(
        v.id,
        v.turn_from_edge,
        v.turn_to_edge,
        v.turn_dist,
        half,
    );
    let ghost s2 = *sys;
    proof {
        lemma_swept_wf(
            Sweep::CleanPassed {
                vehicle: v.id,
                in_edge: v.turn_from_edge,
                out_edge: v.turn_to_edge,
                center: v.turn_dist,
                half_length: half,
            },
            s1,
            s2,
        );
        map.graph.lemma_wf();
    }
    let movement: Option<(usize, usize)> = if has_plan {
        v.next_movement()
    } else {
        None
    };
    match (movement, map.graph.edge_endpoints(v.turn_from_edge)) {
        (Some(m), Some((_, node))) => sys.expand_connector_conflict_reservations_along_arc(
            v.id,
            lane_movement_key_for_vehicle(v, m),
            node,
            v.turn_dist,
            half,
            now,
            bodies,
        ),
        _ => Ok(()),
    }
}

/// A vehicle that has left its turn: it is on the next edge of its route, where the turn was
/// planned to end.
pub open spec fn turn_left_behind(v: Vehicle) -> Vehicle {
    Vehicle {
        on_turn_connector: false,
        turn_dist: 0,
        turn_from_edge: 0,
        turn_to_edge: 0,
        route_pos: (v.route_pos + 1) as usize,
        edge_progress: v.turn_exit_progress,
        has_stopped_at_stop_sign: false,
        ..v
    }
}

/// The first lane of a list on an edge, with an index where one is asked for.
pub open spec fn first_on_edge(
    map: MapData,
    list: Seq<u64>,
    e: u64,
    index: Option<u8>,
) -> Option<u64>
    decreases list.len(),
{
    if list.len() == 0 {
        None
    } else if e != NO_EDGE && belongs_to(map, list[0], e) && (index is None || map.lanes.lane(
        list[0],
    ).lane_index == index->Some_0) {
        Some(list[0])
    } else {
        first_on_edge(map, list.skip(1), e, index)
    }
}

fn find_first_on_edge(map: &MapData, list: &Vec<u64>, e: u64, index: Option<u8>) -> (r: Option<u64>)
    ensures
        r == first_on_edge(*map, list@, e, index),
{
    let mut i: usize = 0;
    assert(list@.skip(0) =~= list@);
    while i < list.len()
        invariant
            i <= list@.len(),
            first_on_edge(*map, list@, e, index) == first_on_edge(
                *map,
                list@.skip(i as int),
                e,
                index,
            ),
        decreases list.len() - i,
    {
        assert(list@.skip(i as int)[0] == list@[i as int]);
        assert(list@.skip(i as int).skip(1) =~= list@.skip(i + 1));
        let fits: bool = match lane_of(map, list[i]) {
            Some(l) => e != NO_EDGE && l.edge_id == e && match index {
                Some(k) => l.lane_index == k,
                None => true,
            },
            None => false,
        };
        if fits {
            return Some(list[i]);
        }
        i = i + 1;
    }
    None
}

/// The lane that a connector leads to on the next edge: the wanted one, else one of the edge, else
/// the first at all.
pub open spec fn exit_lane(map: MapData, c: u64, e: u64, lane: u8) -> Option<u64> {
    let list = map.lanes.lane(c).connections@;
    match first_on_edge(map, list, e, Some(lane)) {
        Some(n) => Some(n),
        None => match first_on_edge(map, list, e, None) {
            Some(n) => Some(n),
            None => if list.len() > 0 {
                Some(list[0])
            } else {
                None
            },
        },
    }
}

/// A vehicle taken from the end of a connector to the lane that it leads to, and whether it was set
/// down on that lane: that is done where the lane lies on its lane route and on its edge.
pub open spec fn taken_by_connector(
    v: Vehicle,
    map: MapData,
    c: u64,
    e: u64,
    projections: Seq<(u64, i64)>,
    exit: i64,
) -> (Vehicle, bool) {
    match exit_lane(map, c, e, v.target_lane) {
        Some(n) => {
            let place = place_in(v.lane_route@, n);
            if place is Some && e != NO_EDGE && belongs_to(map, n, e) {
                (
                    set_down(v, map, place->Some_0, projection(projections, n), Some(exit)),
                    true,
                )
            } else {
                (
                    Vehicle {
                        current_lane_id: Some(n),
                        current_lane: if map.lanes.has(n) && map.lanes.lane(n).edge_id != NO_EDGE {
                            map.lanes.lane(n).lane_index
                        } else {
                            v.current_lane
                        },
                        ..v
                    },
                    false,
                )
            }
        },
        None => (v, false),
    }
}

fn take_by_connector(
    v: &mut Vehicle,
    map: &MapData,
    c: u64,
    e: u64,
    projections: &Vec<(u64, i64)>,
    exit: i64,
) -> (r: bool)
    requires
        map.lanes.has(c),
    ensures
        (*final(v), r) == taken_by_connector(*old(v), *map, c, e, projections@, exit),
{
    let next: Option<u64> = match lane_of(map, c) {
        Some(l) => match find_first_on_edge(map, &l.connections, e, Some(v.target_lane)) {
            Some(n) => Some(n),
            None => match find_first_on_edge(map, &l.connections, e, None) {
                Some(n) => Some(n),
                None => if l.connections.len() > 0 {
                    Some(l.connections[0])
                } else {
                    None
                },
            },
        },
        None => None,
    };
    match next {
        Some(n) => {
            let fits: bool = match lane_of(map, n) {
                Some(l) => e != NO_EDGE && l.edge_id == e,
                None => false,
            };
            match find_lane(&v.lane_route, n) {
                Some(k) => {
                    if fits {
                        let projected: Option<i64> = find_projection(projections, n);
                        snap_vehicle_to_lane_route_physical_start(
                            v,
                            map,
                            k,
                            projected,
                            Some(exit),
                        );
                        return true;
                    }
                },
                None => {},
            }
            v.current_lane_id = Some(n);
            match lane_of(map, n) {
                Some(l) => {
                    if l.edge_id != NO_EDGE {
                        v.current_lane = l.lane_index;
                    }
                },
                None => {},
            }
            false
        },
        None => false,
    }
}

/// A vehicle that is not set down on a lane of its route, put on the lane it has by where it
/// projects to, or else by where its turn was planned to end.
pub open spec fn put_on_lane(
    v: Vehicle,
    map: MapData,
    projections: Seq<(u64, i64)>,
    exit: i64,
) -> Vehicle {
    match v.current_lane_id {
        Some(id) => if map.lanes.has(id) && map.lanes.lane(id).edge_id != NO_EDGE {
            let len = set_down_length(map.lanes.lane(id).length as int);
            let limit = set_down_limit(len);
            match projection(projections, id) {
                Some(s) => {
                    let at = between(s as int, 0, limit);
                    Vehicle {
                        lane_progress: at as i64,
                        edge_progress: between(saturated(share(at, len)), 0, FULL as int) as i64,
                        ..v
                    }
                },
                None => {
                    let top = between(saturated(share(limit, len)), 0, FULL as int);
                    let progress = between(exit as int, 0, top);
                    Vehicle {
                        edge_progress: progress as i64,
                        lane_progress: between(
                            saturated(part_of(len, progress)),
                            0,
                            limit,
                        ) as i64,
                        ..v
                    }
                },
            }
        } else {
            v
        },
        None => v,
    }
}

fn put_vehicle_on_lane(v: &mut Vehicle, map: &MapData, projections: &Vec<(u64, i64)>, exit: i64)
    ensures
        *final(v) == put_on_lane(*old(v), *map, projections@, exit),
{
    match v.current_lane_id {
        Some(id) => match lane_of(map, id) {
            Some(l) => {
                if l.edge_id != NO_EDGE {
                    let len: i64 = max_of(l.length, 1_000);
                    let limit: i64 = limit_of(len);
                    match find_projection(projections, id) {
                        Some(s) => {
                            v.lane_progress = clamp_to(s, 0, limit);
                            v.edge_progress = clamp_to(share_of(v.lane_progress, len), 0, FULL);
                        },
                        None => {
                            let top: i64 = clamp_to(share_of(limit, len), 0, FULL);
                            v.edge_progress = clamp_to(exit, 0, top);
                            v.lane_progress = clamp_to(take_part(len, v.edge_progress), 0, limit);
                        },
                    }
                }
            },
            None => {},
        },
        None => {},
    }
}

/// A vehicle handed over from its finished turn to the next edge, and whether it was set down on a
/// lane of its lane route: on the next lane behind the connector, else on the one that the connector
/// leads to, else on the next from its place.
pub open spec fn passed_on(
    v: Vehicle,
    map: MapData,
    finished: Option<u64>,
    e: u64,
    projections: Seq<(u64, i64)>,
    exit: i64,
) -> (Vehicle, bool) {
    let from = scan_start(v, finished);
    if handover_place(v, map, from, e, v.target_lane) is Some {
        (handed_over(v, map, from, e, v.target_lane, projections, Some(exit)), true)
    } else {
        let taken = match finished {
            Some(c) => if map.lanes.has(c) {
                taken_by_connector(v, map, c, e, projections, exit)
            } else {
                (v, false)
            },
            None => (v, false),
        };
        if taken.1 {
            taken
        } else {
            let t = taken.0;
            let again = smaller(t.lane_route_pos as int, t.lane_route@.len() as int);
            (
                handed_over(t, map, again, e, t.target_lane, projections, Some(exit)),
                handover_place(t, map, again, e, t.target_lane) is Some,
            )
        }
    }
}

fn pass_on(
    v: &mut Vehicle,
    map: &MapData,
    finished: Option<u64>,
    e: u64,
    projections: &Vec<(u64, i64)>,
    exit: i64,
) -> (r: bool)
    ensures
        (*final(v), r) == passed_on(*old(v), *map, finished, e, projections@, exit),
{
    let from: usize = lane_route_handover_scan_start(v, finished);
    let lane: u8 = v.target_lane;
    if apply_lane_route_handover_teleport_from_queue(
        v,
        map,
        from,
        e,
        lane,
        projections,
        Some(exit),
    ) {
        return true;
    }
    match finished {
        Some(c) => {
            if lane_of(map, c).is_some() {
                if take_by_connector(v, map, c, e, projections, exit) {
                    return true;
                }
            }
        },
        None => {},
    }
    let again: usize = if v.lane_route_pos <= v.lane_route.len() {
        v.lane_route_pos
    } else {
        v.lane_route.len()
    };
    let wanted: u8 = v.target_lane;
    apply_lane_route_handover_teleport_from_queue(v, map, again, e, wanted, projections, Some(exit))
}

/// A vehicle after its turn, and where it is.
#[verifier::opaque]
pub open spec fn turn_finished(
    v: Vehicle,
    map: MapData,
    projections: Seq<(u64, i64)>,
) -> (Vehicle, Placement) {
    let a = turn_left_behind(v);
    let stays = Placement::Turn { lane: v.connector_lane_id, distance: v.turn_dist };
    match a.edge() {
        Some(e) => {
            let b = Vehicle { target_lane: wanted_lane(a, map), ..a };
            let c = passed_on(
                b,
                map,
                v.connector_lane_id,
                e as u64,
                projections,
                v.turn_exit_progress,
            );
            let d = Vehicle { connector_lane_id: None, ..synced(c.0, map) };
            if c.1 {
                (
                    d,
                    match d.current_lane_id {
                        Some(lane) => Placement::Lane { lane, distance: d.lane_progress },
                        None => stays,
                    },
                )
            } else {
                (put_on_lane(d, map, projections, v.turn_exit_progress), stays)
            }
        },
        None => (gone(a), stays),
    }
}

fn finish_turn(v: &mut Vehicle, map: &MapData, projections: &Vec<(u64, i64)>) -> (p: Placement)
    requires
        map.wf(),
        old(v).route_pos < old(v).route@.len(),
    ensures
        (*final(v), p) == turn_finished(*old(v), *map, projections@),
{
    reveal(turn_finished);
    let finished: Option<u64> = v.connector_lane_id;
    let stays = Placement::Turn { lane: v.connector_lane_id, distance: v.turn_dist };
    let exit: i64 = v.turn_exit_progress;
    assert(v.route.len() == v.route@.len());
    v.on_turn_connector = false;
    v.turn_dist = 0;
    v.turn_from_edge = 0;
    v.turn_to_edge = 0;
    v.route_pos = v.route_pos + 1;
    v.edge_progress = exit;
    v.has_stopped_at_stop_sign = false;
    let e: usize = match v.current_edge() {
        Some(e) => e,
        None => {
            vehicle_mark_despawned(v);
            return stays;
        },
    };
    let wanted: u8 = compute_vehicle_target_lane(v, map);
    v.target_lane = wanted;
    let set: bool = pass_on(v, map, finished, e as u64, projections, exit);
    let _on_route: bool = sync_vehicle_lane_route_state(v, map);
    v.connector_lane_id = None;
    if set {
        match v.current_lane_id {
            Some(lane) => Placement::Lane { lane, distance: v.lane_progress },
            None => stays,
        }
    } else {
        put_vehicle_on_lane(v, map, projections, exit);
        stays
    }
}

/// A vehicle farther along its edge.
pub open spec fn driven(v: Vehicle, length: int, dt: i64) -> Vehicle {
    Vehicle {
        edge_progress: if length > 0 {
            saturated(
                v.edge_progress + saturated(share(way(v.speed as int, dt as int), length)),
            ) as i64
        } else {
            v.edge_progress
        },
        ..v
    }
}

/// Whether a node is a junction: it has a signal or a sign, or at least four edges meet there.
pub open spec fn is_junction(map: MapData, n: int) -> bool {
    map.nodes@[n].intersection_type != IntersectionType::Plain || degree(map.graph, n) >= 4
}

/// Whether a node is a junction.
pub fn node_is_intersection_like(map: &MapData, n: usize) -> (r: bool)
    requires
        map.wf(),
        n < map.nodes@.len(),
    ensures
        r == is_junction(*map, n as int),
{
    if map.nodes[n].intersection_type != IntersectionType::Plain {
        return true;
    }
    map.graph.outgoing(n).len() as u128 + map.graph.incoming(n).len() as u128 >= 4
}

/// Where on its last edge a vehicle leaves, where that ends at a junction.
pub open spec fn destination(v: Vehicle, map: MapData, e: usize) -> Option<int> {
    if v.movement() is None && is_junction(map, map.graph.ends()[e as int].1) {
        Some(between(v.final_edge_exit_progress as int, 0, FULL as int))
    } else {
        None
    }
}

/// A vehicle held at the stop line of its edge where it has reached it.
pub open spec fn held(v: Vehicle, length: int) -> Vehicle {
    if v.edge_progress >= stop_line_position(length) {
        Vehicle {
            edge_progress: stop_line_position(length) as i64,
            speed: smaller(v.speed as int, HELD_SPEED as int) as i64,
            ..v
        }
    } else {
        v
    }
}

fn hold(v: &mut Vehicle, length: i64) -> (r: bool)
    ensures
        *final(v) == held(*old(v), length as int),
        r == (old(v).edge_progress >= stop_line_position(length as int)),
{
    let line: i64 = stop_line_progress(length);
    if v.edge_progress >= line {
        v.edge_progress = line;
        v.speed = min_of(v.speed, HELD_SPEED);
        true
    } else {
        false
    }
}

/// A vehicle after driving along its edge: lights that hold it stop it at the line.
pub open spec fn driven_to_lights(
    v: Vehicle,
    map: MapData,
    e: usize,
    lights: IntersectionManager,
    dt: i64,
) -> Vehicle {
    let length = map.edges@[e as int].length as int;
    let a = driven(v, length, dt);
    if lights_let_pass(a, map, e, lights) {
        a
    } else {
        held(a, length)
    }
}

/// A vehicle that enters its planned turn from edge `e`, as far along it as it has come past the
/// entry.
pub open spec fn entered(v: Vehicle, map: MapData, e: usize, p: PlannedTurnConnector) -> Vehicle {
    let past = if p.entry_progress < FULL {
        between(
            saturated(
                share(
                    saturated(v.edge_progress - p.entry_progress),
                    saturated(FULL - p.entry_progress),
                ),
            ),
            0,
            FULL as int,
        )
    } else {
        0
    };
    Vehicle {
        on_turn_connector: true,
        turn_dist: between(saturated(part_of(p.length as int, past)), 0, p.length as int) as i64,
        turn_from_edge: e,
        turn_to_edge: v.movement()->Some_0.1,
        turn_entry_progress: p.entry_progress,
        turn_exit_progress: p.exit_progress,
        turn_length: larger(p.length as int, 500_000) as i64,
        turn_p1: p.p1,
        turn_ctrl: p.ctrl,
        turn_p2: p.p2,
        edge_progress: p.entry_progress,
        connector_lane_id: connector_between(
            map,
            e,
            v.current_lane,
            v.movement()->Some_0.1,
            v.target_lane,
        ),
        current_lateral_offset: v.target_lateral_offset,
        ..v
    }
}

fn enter(v: &mut Vehicle, map: &MapData, e: usize, next: usize, p: &PlannedTurnConnector)
    requires
        old(v).movement() is Some,
        old(v).movement()->Some_0.1 == next,
    ensures
        *final(v) == entered(*old(v), *map, e, *p),
{
    let past: i64 = if p.entry_progress < FULL {
        let over: i64 = saturate(v.edge_progress as i128 - p.entry_progress as i128);
        let room: i64 = saturate(FULL as i128 - p.entry_progress as i128);
        clamp_to(share_of(over, room), 0, FULL)
    } else {
        0
    };
    v.on_turn_connector = true;
    v.turn_dist = clamp_to(take_part(p.length, past), 0, p.length);
    v.turn_from_edge = e;
    v.turn_to_edge = next;
    v.turn_entry_progress = p.entry_progress;
    v.turn_exit_progress = p.exit_progress;
    v.turn_length = max_of(p.length, 500_000);
    v.turn_p1 = p.p1;
    v.turn_ctrl = p.ctrl;
    v.turn_p2 = p.p2;
    v.edge_progress = p.entry_progress;
    v.connector_lane_id = find_connector_lane_id(map, e, v.current_lane, next, v.target_lane);
    v.current_lateral_offset = v.target_lateral_offset;
}

/// A vehicle that has rolled past the end of its edge onto the next one; at the end of its route it
/// leaves.
pub open spec fn rolled_over(v: Vehicle, map: MapData, projections: Seq<(u64, i64)>) -> Vehicle {
    let a = Vehicle {
        route_pos: (v.route_pos + 1) as usize,
        edge_progress: 0,
        has_stopped_at_stop_sign: false,
        ..v
    };
    match a.edge() {
        Some(e) => {
            let b = Vehicle { target_lane: wanted_lane(a, map), ..a };
            let from = smaller(b.lane_route_pos as int, b.lane_route@.len() as int);
            if handover_place(b, map, from, e as u64, b.target_lane) is Some {
                synced(
                    handed_over(b, map, from, e as u64, b.target_lane, projections, None),
                    map,
                )
            } else {
                Vehicle { lane_progress: 0, ..synced(b, map) }
            }
        },
        None => gone(a),
    }
}

fn roll_over(v: &mut Vehicle, map: &MapData, projections: &Vec<(u64, i64)>)
    requires
        map.wf(),
        old(v).route_pos < old(v).route@.len(),
    ensures
        *final(v) == rolled_over(*old(v), *map, projections@),
{
    assert(v.route.len() == v.route@.len());
    v.route_pos = v.route_pos + 1;
    v.edge_progress = 0;
    v.has_stopped_at_stop_sign = false;
    let e: usize = match v.current_edge() {
        Some(e) => e,
        None => {
            vehicle_mark_despawned(v);
            return ;
        },
    };
    let wanted: u8 = compute_vehicle_target_lane(v, map);
    v.target_lane = wanted;
    let from: usize = if v.lane_route_pos <= v.lane_route.len() {
        v.lane_route_pos
    } else {
        v.lane_route.len()
    };
    let set: bool = apply_lane_route_handover_teleport_from_queue(
        v,
        map,
        from,
        e as u64,
        wanted,
        projections,
        None,
    );
    let _on_route: bool = sync_vehicle_lane_route_state(v, map);
    if !set {
        v.lane_progress = 0;
    }
}

/// The lane that a vehicle follows: its own, else the one of its edge with its number.
pub open spec fn followed_lane(v: Vehicle, map: MapData) -> Option<u64> {
    match v.current_lane_id {
        Some(id) => Some(id),
        None => match v.edge() {
            Some(e) => match best_lane(
                map,
                None,
                e as u64,
                Some(v.current_lane),
                map.lanes.lanes@.len() as int,
            ) {
                Some(k) => Some(map.lanes.lanes@[k].id),
                None => None,
            },
            None => None,
        },
    }
}

/// A vehicle that follows its lane, and where it is; without a lane it is on the straight line of
/// edge `e`.
pub open spec fn followed(v: Vehicle, map: MapData, e: usize) -> (Vehicle, Placement) {
    match followed_lane(v, map) {
        Some(id) => if map.lanes.has(id) {
            let at = along(map.lanes.lane(id).length as int, v.edge_progress as int);
            (
                Vehicle { current_lane_id: Some(id), lane_progress: at as i64, ..v },
                Placement::Lane { lane: id, distance: at as i64 },
            )
        } else {
            (v, Placement::Edge { edge: e, progress: v.edge_progress })
        },
        None => (v, Placement::Edge { edge: e, progress: v.edge_progress }),
    }
}

fn follow(v: &mut Vehicle, map: &MapData, e: usize) -> (p: Placement)
    ensures
        (*final(v), p) == followed(*old(v), *map, e),
{
    let lane: Option<u64> = match v.current_lane_id {
        Some(id) => Some(id),
        None => match v.current_edge() {
            Some(active) => match find_best_lane(map, None, active as u64, Some(v.current_lane)) {
                Some(k) => Some(map.lanes.lanes[k].id),
                None => None,
            },
            None => None,
        },
    };
    match lane {
        Some(id) => match lane_of(map, id) {
            Some(l) => {
                let at: i64 = distance_along(l.length, v.edge_progress);
                v.current_lane_id = Some(id);
                v.lane_progress = at;
                Placement::Lane { lane: id, distance: at }
            },
            None => Placement::Edge { edge: e, progress: v.edge_progress },
        },
        None => Placement::Edge { edge: e, progress: v.edge_progress },
    }
}

/// A vehicle at the end of a step on the road: rolled over where it is past the end of its edge,
/// and on its lane unless it has left.
pub open spec fn rolled_on(
    v: Vehicle,
    map: MapData,
    e: usize,
    projections: Seq<(u64, i64)>,
) -> (Vehicle, Placement) {
    if v.edge_progress >= FULL {
        let a = rolled_over(v, map, projections);
        if a.edge() is None {
            (a, Placement::Keep)
        } else {
            followed(a, map, e)
        }
    } else {
        followed(v, map, e)
    }
}

fn roll_on(v: &mut Vehicle, map: &MapData, e: usize, projections: &Vec<(u64, i64)>) -> (p: Placement)
    requires
        map.wf(),
        old(v).route_pos < old(v).route@.len(),
    ensures
        (*final(v), p) == rolled_on(*old(v), *map, e, projections@),
{
    if v.edge_progress >= FULL {
        roll_over(v, map, projections);
        if v.current_edge().is_none() {
            return Placement::Keep;
        }
    }
    follow(v, map, e)
}

/// What one step of a vehicle goes by: the map, its lights, the other vehicles as they were at the
/// beginning of the step, and what the shape of the lanes tells of this vehicle: its planned turn,
/// the length of the turn it is on, and where it projects to on lanes when it is handed over.
pub struct StepContext<'a> {
    pub dt: i64,
    pub now: i64,
    pub map: &'a MapData,
    pub intersections: &'a IntersectionManager,
    pub rage: &'a RageConfig,
    pub vehicles: &'a Vec<Vehicle>,
    pub bodies: &'a Vec<VehicleBody>,
    pub plan: Option<PlannedTurnConnector>,
    pub turn_total: i64,
    pub projections: &'a Vec<(u64, i64)>,
}

impl<'a> StepContext<'a> {
    /// Map and lights are well-formed.
    pub open spec fn wf(&self) -> bool {
        self.map.wf() && self.intersections.wf()
    }

    /// `v` and `s` are a turning vehicle and the reservations after the step, where `s1` are the
    /// reservations once its motion is noted, with the outcome `r`.
    pub open spec fn turns_by(
        &self,
        a: Vehicle,
        s0: ConflictSystem,
        v: Vehicle,
        s: ConflictSystem,
        p: Placement,
        s1: ConflictSystem,
        r: Result<(), Blocked>,
    ) -> bool {
        let t = turned(a, *self.map, self.turn_total, self.dt);
        let b = if r is Err {
            Vehicle { speed: smaller(t.speed as int, BLOCKED_TURN_SPEED as int) as i64, ..t }
        } else {
            t
        };
        &&& turn_noted(t, *self.map, self.plan is Some, self.bodies@, self.now, s0, s1, r)
        &&& if t.turn_dist >= self.turn_total {
            &&& system_swept(Sweep::ReleaseVehicle { vehicle: a.id }, s1, s)
            &&& (v, p) == turn_finished(b, *self.map, self.projections@)
        } else {
            &&& s == s1
            &&& v == b
            &&& p == (Placement::Turn { lane: b.connector_lane_id, distance: b.turn_dist })
        }
    }

    /// `v` and `s` are a turning vehicle and the reservations after the step, `p` is where the
    /// vehicle is. The vehicle slows down where its claim meets that of another; at the end of the
    /// turn it gives back all it holds and is handed over to the next edge.
    pub open spec fn turns(
        &self,
        a: Vehicle,
        s0: ConflictSystem,
        v: Vehicle,
        s: ConflictSystem,
        p: Placement,
    ) -> bool {
        exists|s1: ConflictSystem, r: Result<(), Blocked>| #[trigger]
            self.turns_by(a, s0, v, s, p, s1, r)
    }

    /// Whether a vehicle gives way before its turn from edge `e`.
    pub open spec fn gives_way(&self, b: Vehicle, s: ConflictSystem, e: usize) -> bool {
        let node = self.map.graph.ends()[e as int].1 as usize;
        yield_target(
            s,
            b,
            *self.map,
            self.vehicles@,
            *self.intersections,
            node,
            b.movement()->Some_0,
            scan_distance(b),
            first_mover_of(s.nodes@, node),
        ) is Some
    }

    /// `v` and `s` are a vehicle with a planned turn and the reservations after the step on edge
    /// `e`, where `r` is the outcome of its claim.
    pub open spec fn comes_to_turn_by(
        &self,
        b: Vehicle,
        e: usize,
        plan: PlannedTurnConnector,
        s0: ConflictSystem,
        v: Vehicle,
        s: ConflictSystem,
        p: Placement,
        r: Result<(), Blocked>,
    ) -> bool {
        let node = self.map.graph.ends()[e as int].1 as usize;
        let length = self.map.edges@[e as int].length as int;
        let may_enter = lights_let_pass(b, *self.map, e, *self.intersections) && !self.gives_way(
            b,
            s0,
            e,
        ) && r is Ok;
        &&& if self.gives_way(b, s0, e) {
            s == s0
        } else {
            s0.entry_claimed(
                &s,
                b.id,
                movement_key(b, b.movement()->Some_0),
                node,
                self.now,
                self.bodies@,
                r,
            )
        }
        &&& (v, p) == if !may_enter && b.edge_progress >= stop_line_position(length) {
            (held(b, length), Placement::Keep)
        } else if may_enter && b.edge_progress >= plan.entry_progress {
            let t = entered(b, *self.map, e, plan);
            (t, Placement::Turn { lane: t.connector_lane_id, distance: t.turn_dist })
        } else {
            rolled_on(b, *self.map, e, self.projections@)
        }
    }

    /// `v` and `s` are a vehicle with a planned turn and the reservations after the step on edge
    /// `e`. It may enter where lights let it, it does not give way and its claim succeeds; a vehicle
    /// that may not enter is held at the stop line.
    pub open spec fn comes_to_turn(
        &self,
        b: Vehicle,
        e: usize,
        plan: PlannedTurnConnector,
        s0: ConflictSystem,
        v: Vehicle,
        s: ConflictSystem,
        p: Placement,
    ) -> bool {
        exists|r: Result<(), Blocked>| #[trigger]
            self.comes_to_turn_by(b, e, plan, s0, v, s, p, r)
    }

    /// `v` and `s` are a vehicle on edge `e` and the reservations after the step.
    pub open spec fn drives(
        &self,
        a: Vehicle,
        e: usize,
        s0: ConflictSystem,
        v: Vehicle,
        s: ConflictSystem,
        p: Placement,
    ) -> bool {
        let d = driven(a, self.map.edges@[e as int].length as int, self.dt);
        let b = driven_to_lights(a, *self.map, e, *self.intersections, self.dt);
        let stop = destination(d, *self.map, e);
        if stop is Some && d.edge_progress >= stop->Some_0 {
            &&& s == s0
            &&& v == gone(Vehicle { edge_progress: stop->Some_0 as i64, ..d })
            &&& p is Keep
        } else if self.plan is Some && b.movement() is Some {
            self.comes_to_turn(b, e, self.plan->Some_0, s0, v, s, p)
        } else {
            &&& s == s0
            &&& (v, p) == rolled_on(b, *self.map, e, self.projections@)
        }
    }

    /// `v` and `s` are a vehicle and the reservations after one step, `p` is where the vehicle is.
    pub open spec fn steps(
        &self,
        v0: Vehicle,
        accel: i64,
        s0: ConflictSystem,
        v: Vehicle,
        s: ConflictSystem,
        p: Placement,
    ) -> bool {
        let a = started(v0, accel, self.dt, *self.map, *self.rage);
        if !goes_on(a, *self.map) {
            v == a && s == s0 && p is Keep
        } else if a.on_turn_connector {
            self.turns(a, s0, v, s, p)
        } else {
            self.drives(a, a.edge()->Some_0, s0, v, s, p)
        }
    }

    fn step_on_turn(&self, v: &mut Vehicle, sys: &mut ConflictSystem) -> (p: Placement)
        requires
            self.wf(),
            old(sys).wf(),
            old(v).route_pos < old(v).route@.len(),
        ensures
            final(sys).wf(),
            self.turns(*old(v), *old(sys), *final(v), *final(sys), p),
    {
        let ghost s0 = *sys;
        turn(v, self.map, self.turn_total, self.dt);
        let ghost t = *v;
        let r = note_turn(v, self.map, self.plan.is_some(), self.bodies, self.now, sys);
        let ghost s1 = *sys;
        match r {
            Ok(_) => {},
            Err(_) => {
                v.speed = min_of(v.speed, BLOCKED_TURN_SPEED);
            },
        }
        if v.turn_dist >= self.turn_total {
            let id: u32 = v.id;
            sys.release_all_for_vehicle(id);
            proof {
                lemma_swept_wf(Sweep::ReleaseVehicle { vehicle: id }, s1, *sys);
            }
            let p = finish_turn(v, self.map, self.projections);
            assert(self.turns_by(*old(v), s0, *v, *sys, p, s1, r));
            p
        } else {
            let p = Placement::Turn { lane: v.connector_lane_id, distance: v.turn_dist };
            assert(self.turns_by(*old(v), s0, *v, *sys, p, s1, r));
            p
        }
    }

    fn come_to_turn(
        &self,
        v: &mut Vehicle,
        e: usize,
        m: (usize, usize),
        plan: &PlannedTurnConnector,
        sys: &mut ConflictSystem,
    ) -> (p: Placement)
        requires
            self.wf(),
            old(sys).wf(),
            e < self.map.edges@.len(),
            old(v).movement() == Some(m),
            m.0 == e,
        ensures
            final(sys).wf(),
            self.comes_to_turn(*old(v), e, *plan, *old(sys), *final(v), *final(sys), p),
    {
        let ghost b = *v;
        let ghost s0 = *sys;
        proof {
            self.map.graph.lemma_wf();
        }
        let length: i64 = self.map.edges[e].length;
        let node: usize = match self.map.graph.edge_endpoints(e) {
            Some((_, n)) => n,
            None => {
                return Placement::Keep;
            },
        };
        let lights: bool = can_pass_lights(v, self.map, e, self.intersections);
        let first: Option<u32> = sys.first_mover(node);
        let scan: i64 = conflict_scan_distance(v);
        let yields: bool = sys.cross_traffic_yield_target(
            v,
            self.map,
            self.vehicles,
            self.intersections,
            node,
            m,
            scan,
            first,
        ).is_some();
        assert(yields == self.gives_way(b, s0, e));
        let key = lane_movement_key_for_vehicle(v, m);
        let r: Result<(), Blocked> = if yields {
            Ok(())
        } else {
            sys.try_reserve_all_for_vehicle(v.id, key, node, self.now, self.bodies)
        };
        let may_enter: bool = lights && !yields && r.is_ok();
        if !may_enter {
            if hold(v, length) {
                assert(self.comes_to_turn_by(b, e, *plan, s0, *v, *sys, Placement::Keep, r));
                return Placement::Keep;
            }
        } else if v.edge_progress >= plan.entry_progress {
            enter(v, self.map, e, m.1, plan);
            let p = Placement::Turn { lane: v.connector_lane_id, distance: v.turn_dist };
            assert(self.comes_to_turn_by(b, e, *plan, s0, *v, *sys, p, r));
            return p;
        }
        let p = roll_on(v, self.map, e, self.projections);
        assert(self.comes_to_turn_by(b, e, *plan, s0, *v, *sys, p, r));
        p
    }

    fn step_on_edge(&self, v: &mut Vehicle, e: usize, sys: &mut ConflictSystem) -> (p: Placement)
        requires
            self.wf(),
            old(sys).wf(),
            old(v).edge() == Some(e),
            e < self.map.edges@.len(),
        ensures
            final(sys).wf(),
            self.drives(*old(v), e, *old(sys), *final(v), *final(sys), p),
    {
        proof {
            self.map.graph.lemma_wf();
        }
        let length: i64 = self.map.edges[e].length;
        if length > 0 {
            let part: i64 = share_of(scale(v.speed, self.dt), length);
            v.edge_progress = saturate(v.edge_progress as i128 + part as i128);
        }
        let tgt: usize = match self.map.graph.edge_endpoints(e) {
            Some((_, t)) => t,
            None => {
                return Placement::Keep;
            },
        };
        if v.next_movement().is_none() && node_is_intersection_like(self.map, tgt) {
            let exit: i64 = clamp_to(v.final_edge_exit_progress, 0, FULL);
            if v.edge_progress >= exit {
                v.edge_progress = exit;
                vehicle_mark_despawned(v);
                return Placement::Keep;
            }
        }
        if !can_pass_lights(v, self.map, e, self.intersections) {
            let _at_line: bool = hold(v, length);
        }
        match (&self.plan, v.next_movement()) {
            (Some(plan), Some(m)) => self.come_to_turn(v, e, m, plan, sys),
            _ => roll_on(v, self.map, e, self.projections),
        }
    }

    /// One step of a vehicle. The result is where the vehicle is afterwards.
    pub fn apply_vehicle_physics(&self, v: &mut Vehicle, accel: i64, sys: &mut ConflictSystem) -> (p:
        Placement)
        requires
            self.wf(),
            old(sys).wf(),
        ensures
            final(sys).wf(),
            self.steps(*old(v), accel, *old(sys), *final(v), *final(sys), p),
    {
        match start_step(v, accel, self.dt, self.map, self.rage) {
            Some(e) => if v.on_turn_connector {
                self.step_on_turn(v, sys)
            } else {
                self.step_on_edge(v, e, sys)
            },
            None => Placement::Keep,
        }
    }
}

/// Two vehicles are the same but for how and where they drive: they have the same id, kind, driver,
/// route and lane route.
pub open spec fn same_vehicle(a: Vehicle, b: Vehicle) -> bool {
    &&& a.id == b.id
    &&& a.vehicle_type == b.vehicle_type
    &&& a.driver_profile == b.driver_profile
    &&& a.personal_compliance == b.personal_compliance
    &&& a.trip_kind == b.trip_kind
    &&& a.route@ == b.route@
    &&& a.lane_route@ == b.lane_route@
}

proof fn lemma_passed_on_same(
    v: Vehicle,
    map: MapData,
    finished: Option<u64>,
    e: u64,
    projections: Seq<(u64, i64)>,
    exit: i64,
)
    ensures
        same_vehicle(v, passed_on(v, map, finished, e, projections, exit).0),
        passed_on(v, map, finished, e, projections, exit).0.speed == v.speed,
        passed_on(v, map, finished, e, projections, exit).0.route_pos == v.route_pos,
        passed_on(v, map, finished, e, projections, exit).0.despawned == v.despawned,
        passed_on(v, map, finished, e, projections, exit).0.has_stopped_at_stop_sign
            == v.has_stopped_at_stop_sign,
{
}

proof fn lemma_turn_finished_same(v: Vehicle, map: MapData, projections: Seq<(u64, i64)>)
    ensures
        same_vehicle(v, turn_finished(v, map, projections).0),
        turn_finished(v, map, projections).0.speed == v.speed,
        turn_finished(v, map, projections).0.route_pos == (v.route_pos + 1) as usize,
        !turn_finished(v, map, projections).0.on_turn_connector,
{
    reveal(turn_finished);
    let a = turn_left_behind(v);
    match a.edge() {
        Some(e) => {
            let b = Vehicle { target_lane: wanted_lane(a, map), ..a };
            lemma_passed_on_same(
                b,
                map,
                v.connector_lane_id,
                e as u64,
                projections,
                v.turn_exit_progress,
            );
        },
        None => {},
    }
}

proof fn lemma_rolled_on_same(v: Vehicle, map: MapData, e: usize, projections: Seq<(u64, i64)>)
    ensures
        same_vehicle(v, rolled_on(v, map, e, projections).0),
        rolled_on(v, map, e, projections).0.speed == v.speed,
        v.edge_progress < FULL ==> rolled_on(v, map, e, projections).0.edge_progress
            == v.edge_progress && rolled_on(v, map, e, projections).0.route_pos == v.route_pos,
        rolled_on(v, map, e, projections).0.on_turn_connector == v.on_turn_connector,
{
}

/// A step never changes what a vehicle is and where it is going, and never makes it drive
/// backwards.
pub proof fn law_step_keeps_vehicle(
    ctx: StepContext<'_>,
    v0: Vehicle,
    accel: i64,
    s0: ConflictSystem,
    v: Vehicle,
    s: ConflictSystem,
    p: Placement,
)
    requires
        ctx.steps(v0, accel, s0, v, s, p),
    ensures
        same_vehicle(v0, v),
        v.speed >= 0,
{
    let a = started(v0, accel, ctx.dt, *ctx.map, *ctx.rage);
    assert(same_vehicle(v0, a) && a.speed >= 0);
    if goes_on(a, *ctx.map) {
        if a.on_turn_connector {
            let (s1, r) = choose|s1: ConflictSystem, r: Result<(), Blocked>| #[trigger]
                ctx.turns_by(a, s0, v, s, p, s1, r);
            let t = turned(a, *ctx.map, ctx.turn_total, ctx.dt);
            let b = if r is Err {
                Vehicle { speed: smaller(t.speed as int, BLOCKED_TURN_SPEED as int) as i64, ..t }
            } else {
                t
            };
            assert(same_vehicle(a, b) && b.speed >= 0);
            lemma_turn_finished_same(b, *ctx.map, ctx.projections@);
        } else {
            let e = a.edge()->Some_0;
            let b = driven_to_lights(a, *ctx.map, e, *ctx.intersections, ctx.dt);
            assert(same_vehicle(a, b) && b.speed >= 0);
            lemma_rolled_on_same(b, *ctx.map, e, ctx.projections@);
            if ctx.plan is Some && b.movement() is Some {
                let plan = ctx.plan->Some_0;
                let d = driven(a, ctx.map.edges@[e as int].length as int, ctx.dt);
                let stop = destination(d, *ctx.map, e);
                if !(stop is Some && d.edge_progress >= stop->Some_0) {
                    let r = choose|r: Result<(), Blocked>| #[trigger]
                        ctx.comes_to_turn_by(b, e, plan, s0, v, s, p, r);
                    assert(ctx.comes_to_turn_by(b, e, plan, s0, v, s, p, r));
                }
            }
        }
    }
}

/// A vehicle that lights hold and that has more edges ahead is not past the stop line after a step,
/// and does not begin to turn.
pub proof fn law_no_crossing_on_red(
    ctx: StepContext<'_>,
    a: Vehicle,
    e: usize,
    s0: ConflictSystem,
    v: Vehicle,
    s: ConflictSystem,
    p: Placement,
)
    requires
        ctx.drives(a, e, s0, v, s, p),
        a.edge() == Some(e),
        !a.on_turn_connector,
        a.movement() is Some,
        !lights_let_pass(a, *ctx.map, e, *ctx.intersections),
        ctx.map.edges@[e as int].length <= 1_000_000_000_000_000,
    ensures
        v.edge_progress <= stop_line_position(ctx.map.edges@[e as int].length as int),
        !v.on_turn_connector,
        v.route_pos == a.route_pos,
{
    let length = ctx.map.edges@[e as int].length as int;
    let b = driven_to_lights(a, *ctx.map, e, *ctx.intersections, ctx.dt);
    let line = stop_line_position(length);
    assert(line < FULL) by {
        let l = larger(length, 1_000_000);
        assert(16_000_000int * 1_000_000_000 / l >= 1) by (nonlinear_arith)
            requires
                0 < l <= 1_000_000_000_000_000,
        ;
    }
    assert(b.edge_progress <= line);
    lemma_rolled_on_same(b, *ctx.map, e, ctx.projections@);
    if ctx.plan is Some {
        let plan = ctx.plan->Some_0;
        let r = choose|r: Result<(), Blocked>| #[trigger]
            ctx.comes_to_turn_by(b, e, plan, s0, v, s, p, r);
        assert(ctx.comes_to_turn_by(b, e, plan, s0, v, s, p, r));
    }
}

/// A driver who has reached the limit of frustration leaves, and only vehicles that have left, have
/// given up or have come to the end of their route are taken off the road at the start of a step.
pub proof fn law_who_leaves_at_start(
    v: Vehicle,
    accel: i64,
    dt: i64,
    map: MapData,
    rage: RageConfig,
)
    ensures
        started(v, accel, dt, map, rage).frustration >= RAGE ==> started(
            v,
            accel,
            dt,
            map,
            rage,
        ).despawned,
        goes_on(started(v, accel, dt, map, rage), map) ==> started(
            v,
            accel,
            dt,
            map,
            rage,
        ).despawned == v.despawned,
{
}

/// A vehicle gets faster by its acceleration times the time, slower when it brakes, and never drives
/// backwards.
pub proof fn law_speed_follows_acceleration(v: Vehicle, accel: i64, dt: i64)
    requires
        0 <= v.speed <= 1_000_000_000_000,
        -1_000_000_000_000 <= accel <= 1_000_000_000_000,
        0 <= dt <= 1_000_000_000,
    ensures
        ({
            let s = accelerated(v, accel, dt).speed;
            let gain = accel * dt / 1_000_000;
            &&& s >= 0
            &&& v.speed + gain >= 0 ==> s == v.speed + gain
            &&& v.speed + gain < 0 ==> s == 0
            &&& accelerated(v, accel, dt).accel == accel
            &&& accelerated(v, accel, dt).edge_progress == v.edge_progress
        }),
{
    let (a, d) = (accel as int, dt as int);
    assert(-1_000_000_000_000_000_000_000 <= a * d <= 1_000_000_000_000_000_000_000)
        by (nonlinear_arith)
        requires
            -1_000_000_000_000 <= a <= 1_000_000_000_000,
            0 <= d <= 1_000_000_000,
    ;
}

/// Along its edge a vehicle comes on by its speed times the time: the part of the edge that it has come
/// on, times the length of the edge, is that way, but for rounding.
pub proof fn law_way_follows_speed(v: Vehicle, length: int, dt: i64)
    requires
        0 <= v.speed <= 1_000_000_000,
        0 <= dt <= 1_000_000_000,
        1_000 <= length <= 1_000_000_000_000,
        0 <= v.edge_progress <= 1_000_000_000,
    ensures
        ({
            let way = v.speed * dt / 1_000_000;
            let on = driven(v, length, dt).edge_progress - v.edge_progress;
            &&& 0 <= on
            &&& on * length <= way * 1_000_000_000 < (on + 1) * length
            &&& driven(v, length, dt).speed == v.speed
        }),
{
    let (s, d) = (v.speed as int, dt as int);
    assert(0 <= s * d <= 1_000_000_000_000_000_000) by (nonlinear_arith)
        requires
            0 <= s <= 1_000_000_000,
            0 <= d <= 1_000_000_000,
    ;
    let w = s * d / 1_000_000;
    let n = w * 1_000_000_000;
    let q = n / length;
    assert(q * length <= n < (q + 1) * length && 0 <= q <= n / 1_000) by (nonlinear_arith)
        requires
            0 <= n,
            1_000 <= length,
            q == n / length,
    ;
}

/// A driver who stands gets more frustrated, by the set rate as long as it is not for longer than the
/// threshold; one who drives freely calms down by the set rate, and nobody goes above a hundred or below
/// nothing.
pub proof fn law_frustration(v: Vehicle, map: MapData, rage: RageConfig, dt: i64)
    requires
        0 <= v.frustration <= 100_000_000,
        0 <= dt <= 1_000_000_000,
        0 <= v.standstill_time <= 1_000_000_000_000,
        0 <= rage.decay_rate_linear.of(v.driver_profile) <= 1_000_000_000,
        0 <= rage.recovery_rate.of(v.driver_profile) <= 1_000_000_000,
        0 < rage.standstill_threshold.of(v.driver_profile) <= 1_000_000_000_000,
    ensures
        ({
            let p = v.driver_profile;
            let f = frustrated(v, map, rage, dt);
            let gain = rage.decay_rate_linear.of(p) * dt / 1_000_000;
            let loss = rage.recovery_rate.of(p) * dt / 1_000_000;
            &&& v.speed < STOPPED_SPEED ==> f.frustration >= v.frustration && f.standstill_time
                == v.standstill_time + dt
            &&& v.speed < STOPPED_SPEED && v.standstill_time + dt < rage.standstill_threshold.of(p)
                ==> f.frustration == if v.frustration + gain <= 100_000_000 {
                v.frustration + gain
            } else {
                100_000_000
            }
            &&& v.speed >= STOPPED_SPEED && v.speed >= crawl_speed(v, map, rage) ==> f.frustration
                == if v.frustration >= loss {
                v.frustration - loss
            } else {
                0
            }
            &&& v.speed >= STOPPED_SPEED ==> f.standstill_time == 0
        }),
{
    let p = v.driver_profile;
    let d = dt as int;
    let (r, c) = (rage.decay_rate_linear.of(p) as int, rage.recovery_rate.of(p) as int);
    assert(0 <= r * d <= 1_000_000_000_000_000_000 && 0 <= c * d <= 1_000_000_000_000_000_000)
        by (nonlinear_arith)
        requires
            0 <= r <= 1_000_000_000,
            0 <= c <= 1_000_000_000,
            0 <= d <= 1_000_000_000,
    ;
    let t = saturated(v.standstill_time + dt);
    let th = rage.standstill_threshold.of(p) as int;
    let e = excess(t, th);
    if t >= th {
        assert(0 <= (t - th) * 1_000_000 / th) by (nonlinear_arith)
            requires
                t >= th,
                th > 0,
        ;
        assert(0 <= e);
        assert(0 <= e * e) by (nonlinear_arith);
        let q = saturated(scaled(e, e));
        assert(0 <= q);
        assert(0 <= r * q) by (nonlinear_arith)
            requires
                0 <= r,
                0 <= q,
        ;
    }
    let rate = standing_rate(r, t, th);
    assert(rate >= 0);
    assert(0 <= rate * d) by (nonlinear_arith)
        requires
            0 <= rate,
            0 <= d,
    ;
}

/// A driver whose frustration has come to a hundred leaves, and so does a vehicle at the end of its
/// route; all others go on.
pub proof fn law_who_leaves(
    v: Vehicle,
    accel: i64,
    dt: i64,
    map: MapData,
    rage: RageConfig,
)
    requires
        !v.despawned,
    ensures
        ({
            let a = started(v, accel, dt, map, rage);
            &&& a.frustration >= 100_000_000 ==> a.despawned
            &&& a.route_pos >= a.route@.len() ==> a.despawned
            &&& a.frustration < 100_000_000 && a.route_pos < a.route@.len()
                && a.route@[a.route_pos as int] < map.edges@.len() ==> !a.despawned
        }),
{
}

/// Sideways a vehicle glides towards its lane by at most 0.35 m in a second, never past it, and once it
/// is there it stays.
pub proof fn law_gliding(current: int, target: int, dt: int)
    requires
        0 <= dt <= 1_000_000_000,
        -1_000_000_000_000 <= current <= 1_000_000_000_000,
        -1_000_000_000_000 <= target <= 1_000_000_000_000,
    ensures
        ({
            let g = glided(current, target, dt);
            let step = 350_000 * dt / 1_000_000;
            &&& current <= target ==> current <= g <= target && g == if target - current <= step {
                target
            } else {
                current + step
            }
            &&& target <= current ==> target <= g <= current && g == if current - target <= step {
                target
            } else {
                current - step
            }
        }),
{
}

/// A vehicle is noted as having stopped at a stop sign when it is slower than 0.3 m/s within 15 m of
/// the end of an edge that leads to one, and stays noted; the time between lane changes runs down.
pub proof fn law_stop_sign_is_noted(v: Vehicle, map: MapData, dt: i64, e: usize)
    requires
        v.edge() == Some(e),
        e < map.edges@.len(),
        0 <= dt,
    ensures
        ({
            let s = settled(v, map, dt);
            let sign = map.nodes@[map.graph.ends()[e as int].1].intersection_type
                == IntersectionType::Stop;
            &&& s.has_stopped_at_stop_sign <==> v.has_stopped_at_stop_sign || sign && v.speed
                < 300_000 && to_end(v, map, e) <= 15_000_000
            &&& v.lane_change_cooldown > dt ==> s.lane_change_cooldown == v.lane_change_cooldown - dt
            &&& 0 <= v.lane_change_cooldown <= dt ==> s.lane_change_cooldown == 0
        }),
{
}

/// Along a turn a vehicle comes on by its speed times the time, up to its end.
pub proof fn law_way_along_turn(v: Vehicle, map: MapData, total: i64, dt: i64)
    requires
        0 <= v.speed <= 1_000_000_000,
        0 <= dt <= 1_000_000_000,
        0 <= v.turn_dist <= 1_000_000_000_000,
    ensures
        ({
            let t = turned(v, map, total, dt);
            let to = v.turn_dist + v.speed * dt / 1_000_000;
            &&& to <= total ==> t.turn_dist == to
            &&& to > total ==> t.turn_dist == total
            &&& t.speed == v.speed && t.on_turn_connector == v.on_turn_connector
        }),
{
    let (s, d) = (v.speed as int, dt as int);
    assert(0 <= s * d <= 1_000_000_000_000_000_000) by (nonlinear_arith)
        requires
            0 <= s <= 1_000_000_000,
            0 <= d <= 1_000_000_000,
    ;
}

/// A vehicle enters its turn only where lights let it pass, it gives way to nobody and its way is
/// claimed; one that may not enter and has come to the stop line is held there at 0.2 m/s at most.
pub proof fn law_who_enters_a_turn(
    ctx: StepContext<'_>,
    b: Vehicle,
    e: usize,
    plan: PlannedTurnConnector,
    s0: ConflictSystem,
    v: Vehicle,
    s: ConflictSystem,
    p: Placement,
    r: Result<(), Blocked>,
)
    requires
        ctx.comes_to_turn_by(b, e, plan, s0, v, s, p, r),
        !b.on_turn_connector,
    ensures
        ({
            let line = stop_line_position(ctx.map.edges@[e as int].length as int);
            let may = lights_let_pass(b, *ctx.map, e, *ctx.intersections) && !ctx.gives_way(
                b,
                s0,
                e,
            ) && r is Ok;
            &&& v.on_turn_connector ==> may && b.edge_progress >= plan.entry_progress
            &&& may && b.edge_progress >= plan.entry_progress ==> v.on_turn_connector
                && v.turn_from_edge == e && v.turn_to_edge == b.movement()->Some_0.1
            &&& !may && b.edge_progress >= line ==> v.edge_progress == line && v.speed <= 200_000
            &&& ctx.gives_way(b, s0, e) ==> s == s0
        }),
{
    if !b.on_turn_connector {
        lemma_rolled_on_off_connector(b, *ctx.map, e, ctx.projections@);
    }
}

proof fn lemma_rolled_on_off_connector(
    v: Vehicle,
    map: MapData,
    e: usize,
    projections: Seq<(u64, i64)>,
)
    requires
        !v.on_turn_connector,
    ensures
        !rolled_on(v, map, e, projections).0.on_turn_connector,
{
}

/// After a turn a vehicle is on the next edge of its route and not turning any more.
pub proof fn law_turn_leads_on(v: Vehicle, map: MapData, projections: Seq<(u64, i64)>)
    requires
        v.route_pos + 1 < v.route@.len(),
        !v.despawned,
    ensures
        ({
            let t = turn_finished(v, map, projections).0;
            &&& t.route_pos == v.route_pos + 1
            &&& !t.on_turn_connector
            &&& !t.despawned
            &&& t.connector_lane_id is None
            &&& !t.has_stopped_at_stop_sign
        }),
{
    assert(v.route.len() == v.route@.len());
    lemma_turn_finished_same(v, map, projections);
    reveal(turn_finished);
    let a = turn_left_behind(v);
    let e = a.edge()->Some_0;
    let b = Vehicle { target_lane: wanted_lane(a, map), ..a };
    lemma_passed_on_same(
        b,
        map,
        v.connector_lane_id,
        e as u64,
        projections,
        v.turn_exit_progress,
    );
}

/// What a vehicle has gone past the start of a turn it has gone along the turn, in proportion: nothing
/// where it is at the start, all of it where it is at the end of its edge, and never more than the turn.
pub proof fn law_entering_carries_on(v: Vehicle, map: MapData, e: usize, p: PlannedTurnConnector)
    requires
        0 <= p.entry_progress < FULL,
        p.length >= 0,
        p.entry_progress <= v.edge_progress <= FULL,
    ensures
        ({
            let a = entered(v, map, e, p);
            &&& a.on_turn_connector
            &&& 0 <= a.turn_dist <= p.length
            &&& v.edge_progress == p.entry_progress ==> a.turn_dist == 0
            &&& v.edge_progress == FULL ==> a.turn_dist == p.length
            &&& a.edge_progress == p.entry_progress && a.speed == v.speed && a.id == v.id
            &&& a.turn_exit_progress == p.exit_progress && a.turn_length >= 500_000
            &&& a.turn_from_edge == e && a.turn_to_edge == v.movement()->Some_0.1
        }),
{
    let n = FULL - p.entry_progress;
    let x = v.edge_progress - p.entry_progress;
    crate::units::law_share_of_length(x, n);
    let s = share(x, n);
    crate::units::law_way_along_edge(p.length as int, s);
}

} // verus!
