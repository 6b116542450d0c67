//! What a vehicle has to slow down for.

use vstd::prelude::*;
use vstd::string::*;

use crate::map::map_data::MapData;
use crate::map::road_network::RoadNode;
use crate::simulation::conflict::MIN_IDM_GAP;
use crate::simulation::idm::{idm_acceleration, model_acceleration};
use crate::units::{
    between, clamp_to, floor_div, larger, max_of, min_of, remaining, remaining_length, saturate,
    saturated, share, share_of, smaller, FULL, METRE,
};
use crate::util::text::{decimal_text, push_decimal};
use crate::vehicles::vehicle::Vehicle;

verus! {

/// How far before a junction the stop line lies.
pub const STOP_LINE_OFFSET: i64 = 16_000_000;

/// The gap to a leader where there is none.
pub const FREE_GAP: i64 = 1_000_000_000;

/// Margin added to the braking distance when conflicts are looked for.
pub const CONFLICT_SCAN_SAFETY_MARGIN: i64 = 12_000_000;

/// Distance from which conflicts are looked for at the latest.
pub const CONFLICT_PRIORITY_ACTIVATION: i64 = 35_000_000;

/// What kind of obstacle it is.
#[derive(Clone, Copy, Debug, PartialEq, Eq, Structural)]
pub enum ObstacleKind {
    Vehicle,
    ConflictPoint,
    PriorityStopLine,
    TrafficSignalStopLine,
    StopSignStopLine,
    YieldTarget,
}

/// The obstacle that matters most to a vehicle.
#[derive(Clone, Copy, Debug)]
pub struct ClosestObstacle {
    pub kind: ObstacleKind,
    pub gap: i64,
    /// How much faster the vehicle is than the obstacle.
    pub delta_v: i64,
    /// Where the obstacle is in the plane.
    pub point: Option<(i64, i64)>,
    pub leader_vehicle_id: Option<u32>,
    pub conflict_reserver_id: Option<u32>,
    pub conflict_point_id: Option<u64>,
}

/// The planned way through a junction: where it leaves the one edge and meets the other, its length
/// and its shape.
#[derive(Clone, Copy, Debug)]
pub struct PlannedTurnConnector {
    pub entry_progress: i64,
    pub exit_progress: i64,
    pub length: i64,
    pub p1: (i64, i64),
    pub ctrl: (i64, i64),
    pub p2: (i64, i64),
}

/// No obstacle ahead.
pub open spec fn no_obstacle() -> ClosestObstacle {
    ClosestObstacle {
        kind: ObstacleKind::Vehicle,
        gap: FREE_GAP,
        delta_v: 0,
        point: None,
        leader_vehicle_id: None,
        conflict_reserver_id: None,
        conflict_point_id: None,
    }
}

/// No obstacle ahead.
pub fn free_leader_obstacle() -> (r: ClosestObstacle)
    ensures
        r == no_obstacle(),
{
    ClosestObstacle {
        kind: ObstacleKind::Vehicle,
        gap: FREE_GAP,
        delta_v: 0,
        point: None,
        leader_vehicle_id: None,
        conflict_reserver_id: None,
        conflict_point_id: None,
    }
}

/// The nearer of two obstacles; at the same distance the first.
pub open spec fn nearer(a: ClosestObstacle, b: ClosestObstacle) -> ClosestObstacle {
    if b.gap < a.gap {
        b
    } else {
        a
    }
}

/// The nearer of two obstacles; at the same distance the first.
pub fn min_obstacle(a: ClosestObstacle, b: ClosestObstacle) -> (r: ClosestObstacle)
    ensures
        r == nearer(a, b),
{
    if b.gap < a.gap {
        b
    } else {
        a
    }
}

/// The name of a kind of obstacle.
pub open spec fn kind_text(kind: ObstacleKind) -> Seq<char> {
    match kind {
        ObstacleKind::Vehicle => "vehicle"@,
        ObstacleKind::ConflictPoint => "conflict_point"@,
        ObstacleKind::PriorityStopLine => "priority_stop_line"@,
        ObstacleKind::TrafficSignalStopLine => "traffic_signal_stop_line"@,
        ObstacleKind::StopSignStopLine => "stop_sign_stop_line"@,
        ObstacleKind::YieldTarget => "yield_target"@,
    }
}

/// The name of a kind of obstacle.
pub fn obstacle_kind_label(kind: ObstacleKind) -> (r: &'static str)
    ensures
        r@ == kind_text(kind),
{
    match kind {
        ObstacleKind::Vehicle => "vehicle",
        ObstacleKind::ConflictPoint => "conflict_point",
        ObstacleKind::PriorityStopLine => "priority_stop_line",
        ObstacleKind::TrafficSignalStopLine => "traffic_signal_stop_line",
        ObstacleKind::StopSignStopLine => "stop_sign_stop_line",
        ObstacleKind::YieldTarget => "yield_target",
    }
}

/// How the line to an obstacle is drawn.
pub open spec fn line_style_text(kind: ObstacleKind) -> Seq<char> {
    match kind {
        ObstacleKind::Vehicle => "solid"@,
        ObstacleKind::ConflictPoint => "dashed"@,
        _ => "thick"@,
    }
}

/// How the line to an obstacle is drawn.
pub fn threat_line_style_label(kind: ObstacleKind) -> (r: &'static str)
    ensures
        r@ == line_style_text(kind),
{
    match kind {
        ObstacleKind::Vehicle => "solid",
        ObstacleKind::ConflictPoint => "dashed",
        ObstacleKind::PriorityStopLine
        | ObstacleKind::TrafficSignalStopLine
        | ObstacleKind::StopSignStopLine
        | ObstacleKind::YieldTarget => "thick",
    }
}

/// The distance in which a speed is lost at a deceleration, rounded down.
pub open spec fn braking_distance(speed: int, decel: int) -> int {
    speed * speed / (2 * decel)
}

proof fn lemma_speed_square(v: int)
    requires
        i64::MIN <= v <= i64::MAX,
    ensures
        0 <= v * v <= 0x4000_0000_0000_0000_0000_0000_0000_0000,
{
    assert(0 <= v * v <= 0x4000_0000_0000_0000_0000_0000_0000_0000) by (nonlinear_arith)
        requires
            -0x8000_0000_0000_0000 <= v <= 0x7fff_ffff_ffff_ffff,
    ;
}

fn braking(speed: i64, decel: i64) -> (r: i64)
    requires
        decel > 0,
    ensures
        r == saturated(braking_distance(speed as int, decel as int)),
{
    proof {
        lemma_speed_square(speed as int);
    }
    saturate(floor_div(speed as i128 * speed as i128, 2 * decel as i128))
}

/// The distance in which a vehicle stops; decelerations below 0.2 m/s² count as that.
pub open spec fn stopping_length(speed: int, decel: int) -> int {
    if speed <= 0 {
        0
    } else {
        saturated(braking_distance(speed, larger(decel, 200_000)))
    }
}

/// The distance in which a vehicle stops.
pub fn stopping_distance(speed: i64, decel: i64) -> (r: i64)
    ensures
        r == stopping_length(speed as int, decel as int),
{
    if speed <= 0 {
        0
    } else {
        braking(speed, max_of(decel, 200_000))
    }
}

/// How far ahead a vehicle looks for conflicts.
pub open spec fn scan_distance(v: Vehicle) -> int {
    let b = larger(v.driver_profile.params_of().comfort_decel as int, 600_000);
    larger(
        saturated(
            saturated(braking_distance(v.speed as int, b)) + CONFLICT_SCAN_SAFETY_MARGIN,
        ),
        CONFLICT_PRIORITY_ACTIVATION as int,
    )
}

/// How far ahead a vehicle looks for conflicts.
pub fn conflict_scan_distance(v: &Vehicle) -> (r: i64)
    ensures
        r == scan_distance(*v),
{
    let b: i64 = max_of(v.driver_profile.params().comfort_decel, 600_000);
    let stopping: i64 = braking(v.speed, b);
    max_of(
        saturate(stopping as i128 + CONFLICT_SCAN_SAFETY_MARGIN as i128),
        CONFLICT_PRIORITY_ACTIVATION,
    )
}

/// The deceleration in an emergency.
pub open spec fn emergency_decel_of(v: Vehicle) -> int {
    larger(
        larger(
            v.driver_profile.params_of().comfort_decel * 9 / 5,
            v.vehicle_type.params_of().max_decel * 5 / 4,
        ),
        3_000_000,
    )
}

/// The deceleration in an emergency.
pub fn emergency_decel(v: &Vehicle) -> (r: i64)
    ensures
        r == emergency_decel_of(*v),
{
    let comfort: i64 = v.driver_profile.params().comfort_decel * 9 / 5;
    let limit: i64 = v.vehicle_type.params().max_decel * 5 / 4;
    max_of(max_of(comfort, limit), 3_000_000)
}

/// Whether a vehicle has to brake harder than is comfortable: where it gives way at a conflict or a
/// stop line that it would not comfortably stop a metre before.
pub open spec fn needs_emergency(v: Vehicle, obs: ClosestObstacle) -> bool {
    (obs.kind == ObstacleKind::ConflictPoint || obs.kind == ObstacleKind::PriorityStopLine)
        && obs.gap < stopping_length(
        v.speed as int,
        v.driver_profile.params_of().comfort_decel as int,
    ) + METRE
}

/// Whether a vehicle has to brake harder than is comfortable.
pub fn emergency_braking_needed(v: &Vehicle, obs: &ClosestObstacle) -> (r: bool)
    ensures
        r == needs_emergency(*v, *obs),
{
    match obs.kind {
        ObstacleKind::ConflictPoint | ObstacleKind::PriorityStopLine => {
            let stop: i64 = stopping_distance(v.speed, v.driver_profile.params().comfort_decel);
            (obs.gap as i128) < stop as i128 + METRE as i128
        },
        _ => false,
    }
}

/// The acceleration of a vehicle that wants to go at `desired` towards an obstacle: what the
/// car-following model asks for, in an emergency at least the emergency deceleration.
pub open spec fn acceleration_towards(v: Vehicle, desired: int, obs: ClosestObstacle) -> int {
    let model = model_acceleration(
        v.speed as int,
        desired,
        obs.gap as int,
        obs.delta_v as int,
        v.driver_profile.params_of(),
        v.vehicle_type.params_of(),
    );
    if needs_emergency(v, obs) {
        smaller(model, -emergency_decel_of(v))
    } else {
        model
    }
}

/// The acceleration of a vehicle that wants to go at `desired` towards an obstacle.
pub fn compute_idm_accel_with_obstacle(v: &Vehicle, desired: i64, obs: &ClosestObstacle) -> (r: i64)
    ensures
        r == acceleration_towards(*v, desired as int, *obs),
{
    let params = v.driver_profile.params();
    let vtype = v.vehicle_type.params();
    let model: i64 = idm_acceleration(v.speed, desired, obs.gap, obs.delta_v, &params, &vtype);
    if emergency_braking_needed(v, obs) {
        min_of(model, -emergency_decel(v))
    } else {
        model
    }
}

/// The distance in which a vehicle stops comfortably, for display: at 3.5 m/s².
pub fn comfort_braking_distance(speed: i64) -> (r: i64)
    ensures
        r == saturated(braking_distance(speed as int, 3_500_000)),
{
    braking(speed, 3_500_000)
}

/// The distance from the front of a vehicle to the stop line.
pub open spec fn stop_line_distance(v: Vehicle, dist_to_end: int) -> int {
    let center = larger(saturated(dist_to_end - STOP_LINE_OFFSET), 0);
    larger(center - v.vehicle_type.params_of().length / 2, MIN_IDM_GAP as int)
}

/// The distance from the front of a vehicle to the stop line.
pub fn distance_to_stop_line_from_front_bumper(v: &Vehicle, dist_to_end: i64) -> (r: i64)
    ensures
        r == stop_line_distance(*v, dist_to_end as int),
{
    let center: i64 = max_of(saturate(dist_to_end as i128 - STOP_LINE_OFFSET as i128), 0);
    max_of(center - v.vehicle_type.params().length / 2, MIN_IDM_GAP)
}

/// The position of the stop line along an edge.
pub open spec fn stop_line_position(length: int) -> int {
    between(
        FULL - saturated(share(STOP_LINE_OFFSET as int, larger(length, METRE as int))),
        0,
        FULL as int,
    )
}

/// The position of the stop line along an edge.
pub fn stop_line_progress(length: i64) -> (r: i64)
    ensures
        r == stop_line_position(length as int),
        0 <= r <= FULL,
{
    let part: i64 = share_of(STOP_LINE_OFFSET, max_of(length, METRE));
    assert(0 <= part) by {
        let l = larger(length as int, METRE as int);
        assert(STOP_LINE_OFFSET * FULL / l >= 0) by (nonlinear_arith)
            requires
                l > 0,
        ;
    }
    clamp_to(FULL - part, 0, FULL)
}

/// A coordinate on the way from one value to another.
pub open spec fn interpolated(a: int, b: int, t: int) -> int {
    saturated(a + (b - a) * t / (FULL as int))
}

/// A coordinate on the way from one value to another.
pub fn interpolate(a: i64, b: i64, t: i64) -> (r: i64)
    ensures
        r == interpolated(a as int, b as int, t as int),
{
    let d: i128 = b as i128 - a as i128;
    proof {
        let x = d as int;
        let y = t as int;
        assert(-0x8000_0000_0000_0000_0000_0000_0000_0000 <= x * y
            <= 0x7fff_ffff_ffff_ffff_ffff_ffff_ffff_ffff) by (nonlinear_arith)
            requires
                -0xffff_ffff_ffff_ffff <= x <= 0xffff_ffff_ffff_ffff,
                -0x8000_0000_0000_0000 <= y <= 0x7fff_ffff_ffff_ffff,
        ;
        let z = x * y;
        let f = FULL as int;
        assert(-0x2000_0000_0000_0000_0000_0000_0000_0000 <= z / f
            <= 0x2000_0000_0000_0000_0000_0000_0000_0000) by (nonlinear_arith)
            requires
                f == 1_000_000_000,
                -0x8000_0000_0000_0000_0000_0000_0000_0000 <= z
                    <= 0x7fff_ffff_ffff_ffff_ffff_ffff_ffff_ffff,
        ;
    }
    saturate(a as i128 + floor_div(d * t as i128, FULL as i128))
}

/// A point on the straight line between two nodes: latitude and longitude.
pub open spec fn point_between(a: RoadNode, b: RoadNode, t: int) -> (int, int) {
    (interpolated(a.lat as int, b.lat as int, t), interpolated(a.lng as int, b.lng as int, t))
}

/// Where the stop line of an edge lies: latitude and longitude.
pub open spec fn stop_line_place(map: MapData, e: int) -> (int, int) {
    let ends = map.graph.ends()[e];
    point_between(
        map.nodes@[ends.0],
        map.nodes@[ends.1],
        stop_line_position(map.edges@[e].length as int),
    )
}

/// Where the stop line of an edge lies.
pub fn stop_line_of(map: &MapData, e: usize) -> (r: (i64, i64))
    requires
        map.wf(),
        e < map.edges@.len(),
    ensures
        (r.0 as int, r.1 as int) == stop_line_place(*map, e as int),
{
    proof {
        map.graph.lemma_wf();
    }
    match map.graph.edge_endpoints(e) {
        Some((src, tgt)) => {
            let t: i64 = stop_line_progress(map.edges[e].length);
            (
                interpolate(map.nodes[src].lat, map.nodes[tgt].lat, t),
                interpolate(map.nodes[src].lng, map.nodes[tgt].lng, t),
            )
        },
        None => (0, 0),
    }
}

/// Where the stop line ahead of a vehicle lies; unknown where its edge is.
pub fn stop_line_point(v: &Vehicle, map: &MapData) -> (r: Option<(i64, i64)>)
    requires
        map.wf(),
    ensures
        match v.edge() {
            Some(e) => if e < map.edges@.len() {
                r is Some && (r->Some_0.0 as int, r->Some_0.1 as int) == stop_line_place(
                    *map,
                    e as int,
                )
            } else {
                r is None
            },
            None => r is None,
        },
{
    match v.current_edge() {
        Some(e) => if e < map.edges.len() {
            Some(stop_line_of(map, e))
        } else {
            None
        },
        None => None,
    }
}

/// Whether an obstacle makes the vehicle give way.
pub open spec fn is_yield(kind: ObstacleKind, red_blocking: bool) -> bool {
    match kind {
        ObstacleKind::Vehicle => false,
        ObstacleKind::TrafficSignalStopLine => red_blocking,
        _ => true,
    }
}

/// Whether an obstacle makes the vehicle give way.
pub fn idm_yield_context(kind: ObstacleKind, red_blocking: bool) -> (r: bool)
    ensures
        r == is_yield(kind, red_blocking),
{
    match kind {
        ObstacleKind::Vehicle => false,
        ObstacleKind::TrafficSignalStopLine => red_blocking,
        ObstacleKind::ConflictPoint
        | ObstacleKind::PriorityStopLine
        | ObstacleKind::YieldTarget
        | ObstacleKind::StopSignStopLine => true,
    }
}

/// How fast the gap to an obstacle closes: a leader moves, everything else stands.
pub open spec fn closing_speed(obs: ClosestObstacle, speed: int) -> int {
    if obs.kind == ObstacleKind::Vehicle {
        larger(obs.delta_v as int, 0)
    } else {
        larger(speed, 0)
    }
}

/// The time until an obstacle is reached, where the gap closes noticeably and in less than ten
/// minutes.
pub fn idm_ttc(obs: &ClosestObstacle, speed: i64) -> (r: Option<i64>)
    ensures
        ({
            let c = closing_speed(*obs, speed as int);
            &&& r is Some <==> c > 80_000 && 0 < obs.gap < 600 * c
            &&& r is Some ==> r->Some_0 == obs.gap * 1_000_000 / c
        }),
{
    let closing: i64 = match obs.kind {
        ObstacleKind::Vehicle => max_of(obs.delta_v, 0),
        _ => max_of(speed, 0),
    };
    if closing <= 80_000 {
        return None;
    }
    if obs.gap > 0 && (obs.gap as i128) < 600 * closing as i128 {
        let t: i128 = obs.gap as i128 * 1_000_000 / closing as i128;
        proof {
            let g = obs.gap as int;
            let c = closing as int;
            assert(0 <= g * 1_000_000 / c <= 600_000_000) by (nonlinear_arith)
                requires
                    0 < g < 600 * c,
                    c > 0,
            ;
        }
        Some(t as i64)
    } else {
        None
    }
}

/// What the display calls the vehicle's behaviour.
pub open spec fn decision_text(
    speed: int,
    accel: int,
    kind: ObstacleKind,
    red_blocking: bool,
) -> Seq<char> {
    if speed < 200_000 {
        "STOP"@
    } else if accel < -450_000 {
        "BRAKE"@
    } else if is_yield(kind, red_blocking) {
        "YIELD"@
    } else if accel < -120_000 {
        "COAST"@
    } else {
        "GO"@
    }
}

/// What the display calls the vehicle's behaviour.
pub fn idm_ui_decision(speed: i64, accel: i64, obs: &ClosestObstacle, red_blocking: bool) -> (r:
    &'static str)
    ensures
        r@ == decision_text(speed as int, accel as int, obs.kind, red_blocking),
{
    if speed < 200_000 {
        "STOP"
    } else if accel < -450_000 {
        "BRAKE"
    } else if idm_yield_context(obs.kind, red_blocking) {
        "YIELD"
    } else if accel < -120_000 {
        "COAST"
    } else {
        "GO"
    }
}

/// A text and, where there is one, the number of a vehicle.
pub open spec fn with_number(text: Seq<char>, id: Option<u32>) -> Seq<char> {
    match id {
        Some(n) => text + "#"@ + decimal_text(n as nat),
        None => text,
    }
}

fn numbered(text: &str, id: Option<u32>) -> (r: String)
    ensures
        r@ == with_number(text@, id),
{
    let mut out: String = text.to_owned();
    match id {
        Some(n) => {
            out.append("#");
            push_decimal(&mut out, n as u64);
        },
        None => {},
    }
    out
}

/// What the display calls the vehicle's focus.
pub open spec fn focus_text(obs: ClosestObstacle) -> Seq<char> {
    match obs.kind {
        ObstacleKind::Vehicle => with_number("follow_vehicle"@, obs.leader_vehicle_id),
        ObstacleKind::ConflictPoint => with_number("yield_conflict"@, obs.conflict_reserver_id),
        ObstacleKind::PriorityStopLine => with_number("yield_priority"@, obs.leader_vehicle_id),
        ObstacleKind::TrafficSignalStopLine => "obey_signal"@,
        ObstacleKind::StopSignStopLine => "obey_stop_sign"@,
        ObstacleKind::YieldTarget => "obey_yield_sign"@,
    }
}

/// What the display calls the vehicle's focus.
pub fn idm_focus_caption(obs: &ClosestObstacle) -> (r: String)
    ensures
        r@ == focus_text(*obs),
{
    match obs.kind {
        ObstacleKind::Vehicle => numbered("follow_vehicle", obs.leader_vehicle_id),
        ObstacleKind::ConflictPoint => numbered("yield_conflict", obs.conflict_reserver_id),
        ObstacleKind::PriorityStopLine => numbered("yield_priority", obs.leader_vehicle_id),
        ObstacleKind::TrafficSignalStopLine => "obey_signal".to_owned(),
        ObstacleKind::StopSignStopLine => "obey_stop_sign".to_owned(),
        ObstacleKind::YieldTarget => "obey_yield_sign".to_owned(),
    }
}

/// Whether a vehicle with a planned way through the next junction is close to it.
pub open spec fn near_junction(v: Vehicle, map: MapData, has_plan: bool, dist: int) -> bool {
    match v.edge() {
        Some(e) => !v.on_turn_connector && has_plan && v.movement() is Some && e
            < map.edges@.len() && map.edges@[e as int].length > 0 && saturated(
            remaining_length(map.edges@[e as int].length as int, v.edge_progress as int),
        ) <= dist,
        None => false,
    }
}

/// Whether a vehicle with a planned way through the next junction is close to it.
pub fn ego_near_downstream_route_junction(
    v: &Vehicle,
    map: &MapData,
    has_plan: bool,
    dist: i64,
) -> (r: bool)
    ensures
        r == near_junction(*v, *map, has_plan, dist as int),
{
    if v.on_turn_connector || !has_plan || v.next_movement().is_none() {
        return false;
    }
    match v.current_edge() {
        Some(e) => e < map.edges.len() && map.edges[e].length > 0 && remaining(
            map.edges[e].length,
            v.edge_progress,
        ) <= dist,
        None => false,
    }
}

/// Distance to a junction from which braking for a leader is put down to the junction.
pub const INTERSECTION_CAPTION_DISTANCE: i64 = 72_000_000;

/// Why a vehicle brakes, for display; nothing where it does not brake noticeably.
pub open spec fn brake_text(
    accel: int,
    obs: ClosestObstacle,
    v: Vehicle,
    map: MapData,
    has_plan: bool,
) -> Option<Seq<char>> {
    let near = near_junction(v, map, has_plan, INTERSECTION_CAPTION_DISTANCE as int);
    if accel > -450_000 {
        None
    } else if v.route_pos + 1 >= v.route@.len() && obs.kind == ObstacleKind::Vehicle && obs.gap
        > 300_000_000 {
        Some("End of path (no next edge)"@)
    } else {
        Some(
            match obs.kind {
                ObstacleKind::Vehicle => match obs.leader_vehicle_id {
                    Some(id) => if near {
                        with_number("Intersection approach — queued leader "@, Some(id))
                    } else {
                        with_number("Leader "@, Some(id))
                    },
                    None => if near {
                        "Intersection approach — vehicle in path"@
                    } else {
                        "Vehicle ahead"@
                    },
                },
                ObstacleKind::ConflictPoint => match obs.conflict_reserver_id {
                    Some(id) => with_number("Conflict patch — reserver "@, Some(id)),
                    None => "Conflict geometry"@,
                },
                ObstacleKind::PriorityStopLine => match obs.leader_vehicle_id {
                    Some(id) => with_number("Yield / priority (vehicle "@, Some(id)) + ")"@,
                    None => "Yield / priority"@,
                },
                ObstacleKind::TrafficSignalStopLine => "Traffic signal"@,
                ObstacleKind::StopSignStopLine => "Stop sign"@,
                ObstacleKind::YieldTarget => "Yield sign"@,
            },
        )
    }
}

/// Why a vehicle brakes, for display.
pub fn idm_brake_caption(
    accel: i64,
    obs: &ClosestObstacle,
    v: &Vehicle,
    map: &MapData,
    has_plan: bool,
) -> (r: Option<String>)
    ensures
        match r {
            Some(t) => brake_text(accel as int, *obs, *v, *map, has_plan) == Some(t@),
            None => brake_text(accel as int, *obs, *v, *map, has_plan) is None,
        },
{
    if accel > -450_000 {
        return None;
    }
    let at_end: bool = v.next_movement().is_none();
    let near: bool = ego_near_downstream_route_junction(
        v,
        map,
        has_plan,
        INTERSECTION_CAPTION_DISTANCE,
    );
    match obs.kind {
        ObstacleKind::Vehicle => {
            if at_end && obs.gap > 300_000_000 {
                return Some("End of path (no next edge)".to_owned());
            }
            match obs.leader_vehicle_id {
                Some(id) => if near {
                    Some(numbered("Intersection approach — queued leader ", Some(id)))
                } else {
                    Some(numbered("Leader ", Some(id)))
                },
                None => if near {
                    Some("Intersection approach — vehicle in path".to_owned())
                } else {
                    Some("Vehicle ahead".to_owned())
                },
            }
        },
        ObstacleKind::ConflictPoint => match obs.conflict_reserver_id {
            Some(id) => Some(numbered("Conflict patch — reserver ", Some(id))),
            None => Some("Conflict geometry".to_owned()),
        },
        ObstacleKind::PriorityStopLine => match obs.leader_vehicle_id {
            Some(id) => {
                let mut t: String = numbered("Yield / priority (vehicle ", Some(id));
                t.append(")");
                Some(t)
            },
            None => Some("Yield / priority".to_owned()),
        },
        ObstacleKind::TrafficSignalStopLine => Some("Traffic signal".to_owned()),
        ObstacleKind::StopSignStopLine => Some("Stop sign".to_owned()),
        ObstacleKind::YieldTarget => Some("Yield sign".to_owned()),
    }
}

/// The nearer of two obstacles is as near as both.
pub proof fn law_nearer_is_least(a: ClosestObstacle, b: ClosestObstacle)
    ensures
        nearer(a, b).gap <= a.gap,
        nearer(a, b).gap <= b.gap,
        nearer(a, b) == a || nearer(a, b) == b,
{
}

/// Faster vehicles need at least as much room to stop.
pub proof fn law_stopping_grows(slow: int, fast: int, decel: int)
    requires
        0 <= slow <= fast,
    ensures
        0 <= stopping_length(slow, decel) <= stopping_length(fast, decel),
{
    let b = larger(decel, 200_000);
    assert(0 <= slow * slow <= fast * fast) by (nonlinear_arith)
        requires
            0 <= slow <= fast,
    ;
    assert(0 <= slow * slow / (2 * b) <= fast * fast / (2 * b)) by (nonlinear_arith)
        requires
            0 <= slow * slow <= fast * fast,
            b > 0,
    ;
}

/// A vehicle stops within the way in which its speed is lost: twice that way times the deceleration is
/// the square of the speed, but for rounding.
pub proof fn law_way_to_stop(speed: int, decel: int)
    requires
        0 < speed <= 1_000_000_000,
        200_000 <= decel,
    ensures
        ({
            let d = stopping_length(speed, decel);
            2 * decel * d <= speed * speed < 2 * decel * (d + 1)
        }),
        stopping_length(0, decel) == 0,
{
    let n = speed * speed;
    let k = 2 * decel;
    let d = n / k;
    assert(0 <= n <= 1_000_000_000_000_000_000) by (nonlinear_arith)
        requires
            0 < speed <= 1_000_000_000,
            n == speed * speed,
    ;
    assert(k * d <= n < k * (d + 1) && 0 <= d <= n) by (nonlinear_arith)
        requires
            0 <= n,
            k >= 400_000,
            d == n / k,
    ;
}

/// The stop line lies 16 m before the end of an edge: from the front of a vehicle it is as far as the
/// end is, less these and half the length of the vehicle, where that is not below the smallest gap.
pub proof fn law_stop_line(v: Vehicle, dist_to_end: int, length: int)
    requires
        dist_to_end <= i64::MAX,
    ensures
        dist_to_end - 16_000_000 - v.vehicle_type.params_of().length / 2 >= 100_000
            ==> stop_line_distance(v, dist_to_end) == dist_to_end - 16_000_000
            - v.vehicle_type.params_of().length / 2,
        dist_to_end - 16_000_000 - v.vehicle_type.params_of().length / 2 < 100_000
            ==> stop_line_distance(v, dist_to_end) == 100_000,
        16_000_000 <= length <= 1_000_000_000_000 ==> {
            let left = remaining_length(length, stop_line_position(length));
            15_999_000 <= left <= 16_000_000
        },
{
    if 16_000_000 <= length <= 1_000_000_000_000 {
        let s = share(16_000_000, length);
        crate::units::law_share_of_length(16_000_000, length);
        assert(stop_line_position(length) == FULL - s);
        assert(FULL - (FULL - s) == s);
        let n: int = 16_000_000int * 1_000_000_000;
        let m = length * s;
        assert(m <= n && n < m + length) by (nonlinear_arith)
            requires
                m == length * s,
                s == n / length,
                length > 0,
        ;
    }
}

/// Before a conflict or a stop line at which it gives way, and which it would not comfortably stop a
/// metre before, a vehicle brakes harder than is comfortable: by 3 m/s² at least. Behind another
/// vehicle it does what the car-following model asks for.
pub proof fn law_emergency_brakes_hard(v: Vehicle, desired: int, obs: ClosestObstacle)
    ensures
        ({
            let model = model_acceleration(
                v.speed as int,
                desired,
                obs.gap as int,
                obs.delta_v as int,
                v.driver_profile.params_of(),
                v.vehicle_type.params_of(),
            );
            let a = acceleration_towards(v, desired, obs);
            let b = v.driver_profile.params_of().comfort_decel as int;
            let gives_way = obs.kind == ObstacleKind::ConflictPoint || obs.kind
                == ObstacleKind::PriorityStopLine;
            &&& a <= model
            &&& !gives_way ==> a == model
            &&& gives_way && obs.gap < stopping_length(v.speed as int, b) + 1_000_000 ==> a
                <= -3_000_000 && 5 * a <= -9 * b + 5 && 4 * a <= -5
                * v.vehicle_type.params_of().max_decel + 4
            &&& gives_way && obs.gap >= stopping_length(v.speed as int, b) + 1_000_000 ==> a == model
        }),
{
}

/// A vehicle looks for conflicts at least 35 m ahead, and 12 m beyond the way in which it stops.
pub proof fn law_scan_distance(v: Vehicle)
    requires
        0 <= v.speed <= 1_000_000_000,
        v.driver_profile.params_of().comfort_decel >= 600_000,
    ensures
        scan_distance(v) >= 35_000_000,
        scan_distance(v) >= stopping_length(
            v.speed as int,
            v.driver_profile.params_of().comfort_decel as int,
        ) + 12_000_000,
{
    let s = v.speed as int;
    let b = v.driver_profile.params_of().comfort_decel as int;
    if s > 0 {
        law_way_to_stop(s, b);
        assert(s * s <= 1_000_000_000_000_000_000) by (nonlinear_arith)
            requires
                0 <= s <= 1_000_000_000,
        ;
        assert(s * s / (2 * b) <= s * s) by (nonlinear_arith)
            requires
                0 <= s,
                b >= 600_000,
        ;
    } else {
        assert(0int * 0 / (2 * b) == 0) by (nonlinear_arith)
            requires
                b >= 600_000,
        ;
    }
}

/// A place part of the way along a straight edge lies between its ends: at the one to begin with, at the
/// other at the end, and nearer to it the further the part.
pub proof fn law_place_along_edge(a: i64, b: i64, s: int, t: int)
    requires
        0 <= s <= t <= FULL,
    ensures
        interpolated(a as int, b as int, 0) == a,
        interpolated(a as int, b as int, FULL as int) == b,
        a <= b ==> a <= interpolated(a as int, b as int, s) <= interpolated(a as int, b as int, t)
            <= b,
        b <= a ==> b <= interpolated(a as int, b as int, t) <= interpolated(a as int, b as int, s)
            <= a,
{
    let f: int = FULL as int;
    let d = b - a;
    crate::map::polyline::lemma_within_step(a as int, b as int, s);
    crate::map::polyline::lemma_within_step(a as int, b as int, t);
    let (m, n) = (d * s, d * t);
    if d >= 0 {
        assert(m <= n) by (nonlinear_arith)
            requires
                d >= 0,
                s <= t,
                m == d * s,
                n == d * t,
        ;
    } else {
        assert(n <= m) by (nonlinear_arith)
            requires
                d < 0,
                s <= t,
                m == d * s,
                n == d * t,
        ;
    }
    assert(d * f / f == d && d * 0 / f == 0) by (nonlinear_arith)
        requires
            f > 0,
    ;
}

} // verus!
