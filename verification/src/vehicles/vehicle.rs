//! A vehicle on its way.

use vstd::prelude::*;

use crate::vehicles::driver::DriverProfile;
use crate::vehicles::types::VehicleType;

verus! {

/// Speed below which a vehicle counts as standing.
pub const STOPPED_SPEED: i64 = 500_000;

/// A vehicle: places in billionths of a degree, lengths in micrometres, speeds in micrometres per
/// second, times in microseconds, positions along an edge in billionths of it.
pub struct Vehicle {
    pub id: u32,
    pub lat: i64,
    pub lng: i64,
    /// Heading in millionths of a radian.
    pub angle: i64,
    pub speed: i64,
    pub accel: i64,
    pub vehicle_type: VehicleType,
    pub driver_profile: DriverProfile,
    /// Factor on speed limits, in millionths.
    pub personal_compliance: i64,
    /// From 0 for the shortest to a million for the fastest route.
    pub route_alpha: i64,
    pub trip_kind: u8,
    /// Millionths of points, from calm to a hundred points.
    pub frustration: i64,
    pub standstill_time: i64,
    pub crawl_time: i64,
    pub last_intersection_id: Option<u64>,
    pub same_intersection_stops: u8,
    /// The edges to drive along.
    pub route: Vec<usize>,
    /// The place of the current edge in the route.
    pub route_pos: usize,
    pub edge_progress: i64,
    /// Where on the last edge the way ends.
    pub final_edge_exit_progress: i64,
    pub current_lane: u8,
    pub target_lane: u8,
    pub lane_change_cooldown: i64,
    /// Sideways position in millionths of a lane.
    pub current_lateral_offset: i64,
    pub target_lateral_offset: i64,
    /// The lanes and connectors to drive along.
    pub lane_route: Vec<u64>,
    pub lane_route_pos: usize,
    pub current_lane_id: Option<u64>,
    pub lane_progress: i64,
    pub has_stopped_at_stop_sign: bool,
    pub despawned: bool,
    /// Whether the vehicle is turning through a junction.
    pub on_turn_connector: bool,
    pub connector_lane_id: Option<u64>,
    pub turn_dist: i64,
    pub turn_entry_progress: i64,
    pub turn_exit_progress: i64,
    pub turn_length: i64,
    /// Start, control point and end of the turn.
    pub turn_p1: (i64, i64),
    pub turn_ctrl: (i64, i64),
    pub turn_p2: (i64, i64),
    pub turn_from_edge: usize,
    pub turn_to_edge: usize,
}

impl Vehicle {
    /// A standing vehicle at the start of its route.
    pub open spec fn starts(
        &self,
        id: u32,
        lat: i64,
        lng: i64,
        vehicle_type: VehicleType,
        driver_profile: DriverProfile,
        route: Seq<usize>,
        personal_compliance: i64,
        route_alpha: i64,
        trip_kind: u8,
    ) -> bool {
        &&& self.id == id
        &&& self.lat == lat
        &&& self.lng == lng
        &&& self.angle == 0
        &&& self.speed == 0
        &&& self.accel == 0
        &&& self.vehicle_type == vehicle_type
        &&& self.driver_profile == driver_profile
        &&& self.personal_compliance == personal_compliance
        &&& self.route_alpha == route_alpha
        &&& self.trip_kind == trip_kind
        &&& self.frustration == 0
        &&& self.standstill_time == 0
        &&& self.crawl_time == 0
        &&& self.last_intersection_id is None
        &&& self.same_intersection_stops == 0
        &&& self.route@ == route
        &&& self.route_pos == 0
        &&& self.edge_progress == 0
        &&& self.final_edge_exit_progress == 1_000_000_000
        &&& self.current_lane == 0
        &&& self.target_lane == 0
        &&& self.lane_change_cooldown == 0
        &&& self.current_lateral_offset == 0
        &&& self.target_lateral_offset == 0
        &&& self.lane_route@ == Seq::<u64>::empty()
        &&& self.lane_route_pos == 0
        &&& self.current_lane_id is None
        &&& self.lane_progress == 0
        &&& !self.has_stopped_at_stop_sign
        &&& !self.despawned
        &&& !self.on_turn_connector
        &&& self.connector_lane_id is None
        &&& self.turn_dist == 0
        &&& self.turn_entry_progress == 0
        &&& self.turn_exit_progress == 0
        &&& self.turn_length == 1_000_000
        &&& self.turn_p1 == (lat, lng)
        &&& self.turn_ctrl == (lat, lng)
        &&& self.turn_p2 == (lat, lng)
        &&& self.turn_from_edge == 0
        &&& self.turn_to_edge == 0
    }

    /// A standing vehicle at the start of its route.
    pub fn new(
        id: u32,
        lat: i64,
        lng: i64,
        vehicle_type: VehicleType,
        driver_profile: DriverProfile,
        route: Vec<usize>,
        personal_compliance: i64,
        route_alpha: i64,
        trip_kind: u8,
    ) -> (r: Vehicle)
        ensures
            r.starts(
                id,
                lat,
                lng,
                vehicle_type,
                driver_profile,
                route@,
                personal_compliance,
                route_alpha,
                trip_kind,
            ),
    {
        Vehicle {
            id,
            lat,
            lng,
            angle: 0,
            speed: 0,
            accel: 0,
            vehicle_type,
            driver_profile,
            personal_compliance,
            route_alpha,
            trip_kind,
            frustration: 0,
            standstill_time: 0,
            crawl_time: 0,
            last_intersection_id: None,
            same_intersection_stops: 0,
            route,
            route_pos: 0,
            edge_progress: 0,
            final_edge_exit_progress: 1_000_000_000,
            current_lane: 0,
            target_lane: 0,
            lane_change_cooldown: 0,
            current_lateral_offset: 0,
            target_lateral_offset: 0,
            lane_route: Vec::new(),
            lane_route_pos: 0,
            current_lane_id: None,
            lane_progress: 0,
            has_stopped_at_stop_sign: false,
            despawned: false,
            on_turn_connector: false,
            connector_lane_id: None,
            turn_dist: 0,
            turn_entry_progress: 0,
            turn_exit_progress: 0,
            turn_length: 1_000_000,
            turn_p1: (lat, lng),
            turn_ctrl: (lat, lng),
            turn_p2: (lat, lng),
            turn_from_edge: 0,
            turn_to_edge: 0,
        }
    }

    /// Whether the vehicle stands.
    pub fn is_stopped(&self) -> (r: bool)
        ensures
            r == (self.speed < STOPPED_SPEED),
    {
        self.speed < STOPPED_SPEED
    }

    /// The edge that the vehicle drives along.
    pub open spec fn edge(&self) -> Option<usize> {
        if self.route_pos < self.route@.len() {
            Some(self.route@[self.route_pos as int])
        } else {
            None
        }
    }

    /// The edge that the vehicle drives along.
    pub fn current_edge(&self) -> (r: Option<usize>)
        ensures
            r == self.edge(),
    {
        if self.route_pos < self.route.len() {
            Some(self.route[self.route_pos])
        } else {
            None
        }
    }

    /// The edge that the vehicle drives along and the next one.
    pub open spec fn movement(&self) -> Option<(usize, usize)> {
        if self.route_pos + 1 < self.route@.len() {
            Some((self.route@[self.route_pos as int], self.route@[self.route_pos + 1]))
        } else {
            None
        }
    }

    /// The edge that the vehicle drives along and the next one.
    pub fn next_movement(&self) -> (r: Option<(usize, usize)>)
        ensures
            r == self.movement(),
    {
        assert(self.route.len() == self.route@.len());
        if self.route_pos < self.route.len() && self.route_pos + 1 < self.route.len() {
            Some((self.route[self.route_pos], self.route[self.route_pos + 1]))
        } else {
            None
        }
    }
}

/// Whether two vehicles agree in everything.
pub open spec fn same_vehicle(a: Vehicle, b: Vehicle) -> bool {
    &&& a.route@ == b.route@
    &&& a.lane_route@ == b.lane_route@
    &&& a == (Vehicle { route: a.route, lane_route: a.lane_route, ..b })
}

fn copy_edges(v: &Vec<usize>) -> (r: Vec<usize>)
    ensures
        r@ == v@,
{
    let mut out: Vec<usize> = Vec::new();
    let mut i: usize = 0;
    while i < v.len()
        invariant
            i <= v@.len(),
            out@ == v@.take(i as int),
        decreases v.len() - i,
    {
        out.push(v[i]);
        i = i + 1;
        assert(out@ =~= v@.take(i as int));
    }
    assert(v@.take(i as int) =~= v@);
    out
}

fn copy_lanes(v: &Vec<u64>) -> (r: Vec<u64>)
    ensures
        r@ == v@,
{
    let mut out: Vec<u64> = Vec::new();
    let mut i: usize = 0;
    while i < v.len()
        invariant
            i <= v@.len(),
            out@ == v@.take(i as int),
        decreases v.len() - i,
    {
        out.push(v[i]);
        i = i + 1;
        assert(out@ =~= v@.take(i as int));
    }
    assert(v@.take(i as int) =~= v@);
    out
}

impl Vehicle {
    /// A copy of the vehicle.
    pub fn copied(&self) -> (r: Vehicle)
        ensures
            same_vehicle(r, *self),
    {
        Vehicle {
            id: self.id,
            lat: self.lat,
            lng: self.lng,
            angle: self.angle,
            speed: self.speed,
            accel: self.accel,
            vehicle_type: self.vehicle_type,
            driver_profile: self.driver_profile,
            personal_compliance: self.personal_compliance,
            route_alpha: self.route_alpha,
            trip_kind: self.trip_kind,
            frustration: self.frustration,
            standstill_time: self.standstill_time,
            crawl_time: self.crawl_time,
            last_intersection_id: self.last_intersection_id,
            same_intersection_stops: self.same_intersection_stops,
            route: copy_edges(&self.route),
            route_pos: self.route_pos,
            edge_progress: self.edge_progress,
            final_edge_exit_progress: self.final_edge_exit_progress,
            current_lane: self.current_lane,
            target_lane: self.target_lane,
            lane_change_cooldown: self.lane_change_cooldown,
            current_lateral_offset: self.current_lateral_offset,
            target_lateral_offset: self.target_lateral_offset,
            lane_route: copy_lanes(&self.lane_route),
            lane_route_pos: self.lane_route_pos,
            current_lane_id: self.current_lane_id,
            lane_progress: self.lane_progress,
            has_stopped_at_stop_sign: self.has_stopped_at_stop_sign,
            despawned: self.despawned,
            on_turn_connector: self.on_turn_connector,
            connector_lane_id: self.connector_lane_id,
            turn_dist: self.turn_dist,
            turn_entry_progress: self.turn_entry_progress,
            turn_exit_progress: self.turn_exit_progress,
            turn_length: self.turn_length,
            turn_p1: self.turn_p1,
            turn_ctrl: self.turn_ctrl,
            turn_p2: self.turn_p2,
            turn_from_edge: self.turn_from_edge,
            turn_to_edge: self.turn_to_edge,
        }
    }
}

/// Copies of some vehicles.
pub fn copy_vehicles(vehicles: &Vec<Vehicle>) -> (r: Vec<Vehicle>)
    ensures
        r@.len() == vehicles@.len(),
        forall|i: int| 0 <= i < r@.len() ==> same_vehicle(#[trigger] r@[i], vehicles@[i]),
{
    let mut out: Vec<Vehicle> = Vec::new();
    let mut i: usize = 0;
    while i < vehicles.len()
        invariant
            i <= vehicles@.len(),
            out@.len() == i,
            forall|k: int| 0 <= k < i ==> same_vehicle(#[trigger] out@[k], vehicles@[k]),
        decreases vehicles.len() - i,
    {
        out.push(vehicles[i].copied());
        i = i + 1;
    }
    out
}

} // verus!
