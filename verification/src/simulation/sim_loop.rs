//! The parts of a step of the whole simulation.

use vstd::prelude::*;

use crate::map::map_data::MapData;
use crate::simulation::approach::{to_end, IdmStepResult, Scene};
use crate::simulation::conflict::{
    first_mover_of, law_release_frees_all, lemma_swept_wf, node_swept, path_swept, swept,
    system_swept, ConflictSystem, Sweep, VehicleBody,
};
use crate::simulation::lane_change::{
    decide_lane_change, lane_change, lane_thought, think_of_lanes, LaneThought,
};
use crate::simulation::leader::{immediate_same_lane_leader_id, same_lane_leader};
use crate::simulation::obstacle::{
    conflict_scan_distance, distance_to_stop_line_from_front_bumper, scan_distance,
    stop_line_distance, ObstacleKind, PlannedTurnConnector,
};
use crate::simulation::physics::{Placement, StepContext, RAGE};
use crate::simulation::right_of_way::yield_target;
use crate::simulation::spawn::SpawnSystem;
use crate::simulation::speed_config::RageConfig;
use crate::state::SimCommand;
use crate::time::game_clock::GameClock;
use crate::traffic::intersection::IntersectionManager;
use crate::traffic::traffic_light::{LightPhase, TrafficLight, MIN_PHASE};
use crate::units::{
    between, larger, max_of, min_of, part_of, remaining, saturate, saturated, smaller, take_part,
};
use crate::vehicles::types::VehicleType;
use crate::vehicles::vehicle::Vehicle;

verus! {

/// The time of a physics step: a sixtieth of a second.
pub const PHYSICS_DT: i64 = 16_667;

/// The time between two messages on congestion.
pub const CONGESTION_INTERVAL: i64 = 500_000;

/// The time between two messages on what a vehicle minds.
pub const OVERLAY_INTERVAL: i64 = 200_000;

/// The longest time that is made up for at once.
pub const MAX_ELAPSED: i64 = 250_000;

/// Room that a new vehicle needs besides a vehicle length.
pub const SPAWN_BUFFER: i64 = 2_000_000;

/// How long a vehicle waits between lane changes.
pub const LANE_CHANGE_WAIT: i64 = 3_000_000;

/// What a command does to the clock.
pub open spec fn clock_after(cmd: SimCommand, c: GameClock) -> GameClock {
    match cmd {
        SimCommand::Pause => GameClock { paused: true, ..c },
        SimCommand::Resume => GameClock { paused: false, ..c },
        SimCommand::SetTimeScale(s) => GameClock {
            time_scale: between(s as int, 100_000, 3_600_000_000) as i64,
            ..c
        },
        _ => c,
    }
}

/// What a command does to the signal that it names.
pub open spec fn light_after(cmd: SimCommand, l: TrafficLight) -> TrafficLight {
    match cmd {
        SimCommand::SetLightMode { mode, .. } => TrafficLight { mode, ..l },
        SimCommand::SetLightPhase { phase, .. } => TrafficLight {
            current_phase: LightPhase::of_code(phase),
            phase_timer: 0,
            ..l
        },
        SimCommand::SetLightDurations { green, red, .. } => TrafficLight {
            green_duration: larger(green as int, MIN_PHASE as int) as i64,
            red_duration: larger(red as int, MIN_PHASE as int) as i64,
            ..l
        },
        _ => l,
    }
}

/// The signal that a command names.
pub open spec fn named_light(cmd: SimCommand) -> Option<u64> {
    match cmd {
        SimCommand::SetLightMode { intersection_id, .. } => Some(intersection_id),
        SimCommand::SetLightPhase { intersection_id, .. } => Some(intersection_id),
        SimCommand::SetLightDurations { intersection_id, .. } => Some(intersection_id),
        _ => None,
    }
}

/// Does what a command asks for; `Stop` asks for nothing here.
pub fn handle_command(
    cmd: SimCommand,
    clock: &mut GameClock,
    intersections: &mut IntersectionManager,
    spawn_system: &mut SpawnSystem,
    selected_debug_vehicle: &mut Option<u32>,
)
    requires
        old(intersections).wf(),
    ensures
        *final(clock) == clock_after(cmd, *old(clock)),
        final(intersections).wf(),
        named_light(cmd) is None ==> *final(intersections) == *old(intersections),
        named_light(cmd) matches Some(id) ==> old(intersections).light_set(
            final(intersections),
            id,
            light_after(cmd, old(intersections).light_at(id)->Some_0),
        ),
        *final(spawn_system) == (match cmd {
            SimCommand::SetSpeedConfig(cfg) => SpawnSystem {
                speed_config: cfg,
                ..*old(spawn_system)
            },
            SimCommand::SetMaxVehicles(n) => SpawnSystem { max_vehicles: n, ..*old(spawn_system) },
            _ => *old(spawn_system),
        }),
        *final(selected_debug_vehicle) == (match cmd {
            SimCommand::SetDebugVehicle(id) => id,
            _ => *old(selected_debug_vehicle),
        }),
{
    match cmd {
        SimCommand::Pause => {
            clock.pause();
        },
        SimCommand::Resume => {
            clock.resume();
        },
        SimCommand::SetTimeScale(s) => {
            clock.set_time_scale(s);
        },
        SimCommand::SetSpeedConfig(cfg) => {
            spawn_system.set_speed_config(cfg);
        },
        SimCommand::SetMaxVehicles(n) => {
            spawn_system.max_vehicles = n;
        },
        SimCommand::SetLightMode { intersection_id, mode } => {
            intersections.set_mode(intersection_id, mode);
        },
        SimCommand::SetLightPhase { intersection_id, phase } => {
            intersections.set_phase(intersection_id, phase);
        },
        SimCommand::SetLightDurations { intersection_id, green, red } => {
            intersections.set_durations(intersection_id, green, red);
        },
        SimCommand::SetDebugVehicle(id) => {
            *selected_debug_vehicle = id;
        },
        SimCommand::Stop => {},
    }
}

/// Numbers by which another map is told: its nodes, edges, buildings and tram nodes.
pub fn current_map_signature(map: &MapData) -> (r: (usize, usize, usize, usize))
    requires
        map.wf(),
    ensures
        r.0 == map.nodes@.len(),
        r.1 == map.edges@.len(),
        r.2 == map.od_buildings@.len(),
        r.3 == map.tram_data.nodes@.len(),
{
    (
        map.nodes.len(),
        map.edges.len(),
        map.od_buildings.len(),
        map.tram_data.nodes.len(),
    )
}

fn copy_places(v: &Vec<usize>) -> (r: Vec<usize>)
    ensures
        r@ == v@,
{
    let mut out: Vec<usize> = Vec::new();
    let mut i: usize = 0;
    while i < v.len()
        invariant
            i <= v@.len(),
            out@ == v@.take(i as int),
        decreases v.len() - i,
    {
        out.push(v[i]);
        i = i + 1;
        assert(v@.take(i as int) =~= v@.take(i - 1).push(v@[i - 1]));
    }
    assert(v@.take(i as int) =~= v@);
    out
}

/// The spawn system for another map; what was set while the simulation ran is kept.
pub fn refreshed_spawn(map: &MapData, before: &SpawnSystem) -> (r: SpawnSystem)
    requires
        map.wf(),
    ensures
        r.wf(map),
        r.spawn_points@ == map.spawn_points@,
        r.boundary_nodes@ == map.boundary_nodes@,
        r.base_rate == 1_000_000,
        r.accumulator == 0,
        r.next_id == 1,
        r.speed_config == before.speed_config,
        r.max_vehicles == before.max_vehicles,
        r.sandbox_mode == map.is_sandbox,
{
    let mut s = SpawnSystem::new(
        copy_places(&map.spawn_points),
        copy_places(&map.boundary_nodes),
        before.speed_config,
        map.is_sandbox,
    );
    s.max_vehicles = before.max_vehicles;
    s
}

/// Time that is made up for in physics steps.
#[derive(Clone, Copy, Debug)]
pub struct StepClock {
    /// Time that no step was made for yet.
    pub pending: i64,
}

impl StepClock {
    /// How many steps are due after some time, and what remains: at most a quarter of a second is
    /// made up for at once.
    pub fn steps_due(&mut self, elapsed: i64) -> (r: u32)
        requires
            0 <= old(self).pending < PHYSICS_DT,
            elapsed >= 0,
        ensures
            ({
                let all = old(self).pending + smaller(elapsed as int, MAX_ELAPSED as int);
                &&& r == all / (PHYSICS_DT as int)
                &&& final(self).pending == all % (PHYSICS_DT as int)
            }),
            0 <= final(self).pending < PHYSICS_DT,
            r <= 15,
    {
        let all: i64 = self.pending + min_of(elapsed, MAX_ELAPSED);
        self.pending = all % PHYSICS_DT;
        (all / PHYSICS_DT) as u32
    }
}

/// A timer that tells when an interval is over.
#[derive(Clone, Copy, Debug)]
pub struct Cadence {
    pub timer: i64,
}

impl Cadence {
    /// Whether the interval is over after some time; then the timer starts over.
    pub fn is_due(&mut self, elapsed: i64, interval: i64) -> (r: bool)
        ensures
            r == (saturated(old(self).timer + elapsed) >= interval),
            final(self).timer == if r {
                0
            } else {
                saturated(old(self).timer + elapsed)
            },
    {
        self.timer = saturate(self.timer as i128 + elapsed as i128);
        if self.timer >= interval {
            self.timer = 0;
            true
        } else {
            false
        }
    }
}

/// Whether a vehicle is in the way of a new one: it is on the same lane of its first edge, closer
/// than the longer of the two and a buffer.
pub open spec fn blocks_entry(nv: Vehicle, v: Vehicle, map: MapData) -> bool {
    let e = nv.route@[0];
    let length = if e < map.edges@.len() {
        map.edges@[e as int].length as int
    } else {
        100_000_000
    };
    let a = nv.vehicle_type.params_of().length as int;
    let b = v.vehicle_type.params_of().length as int;
    let gap = saturated(part_of(length, v.edge_progress as int)) - (a + b) / 2;
    nv.route@.len() > 0 && v.edge() == Some(e) && v.current_lane == nv.current_lane && gap < larger(
        a,
        b,
    ) + SPAWN_BUFFER
}

/// Whether there is room for a new vehicle.
pub open spec fn has_room(nv: Vehicle, vehicles: Seq<Vehicle>, map: MapData) -> bool {
    forall|i: int| 0 <= i < vehicles.len() ==> !blocks_entry(nv, #[trigger] vehicles[i], map)
}

fn does_block(nv: &Vehicle, v: &Vehicle, map: &MapData) -> (r: bool)
    ensures
        r == blocks_entry(*nv, *v, *map),
{
    if nv.route.len() == 0 {
        return false;
    }
    let e: usize = nv.route[0];
    let here: bool = match v.current_edge() {
        Some(x) => x == e,
        None => false,
    };
    if !here || v.current_lane != nv.current_lane {
        return false;
    }
    let length: i64 = if e < map.edges.len() {
        map.edges[e].length
    } else {
        100_000_000
    };
    let a: i64 = nv.vehicle_type.params().length;
    let b: i64 = v.vehicle_type.params().length;
    let gap: i128 = take_part(length, v.edge_progress) as i128 - ((a + b) / 2) as i128;
    gap < max_of(a, b) as i128 + SPAWN_BUFFER as i128
}

/// Puts a new vehicle on the road where there is room for it.
pub fn admit_vehicle(vehicles: &mut Vec<Vehicle>, nv: Vehicle, map: &MapData) -> (r: bool)
    ensures
        r == has_room(nv, old(vehicles)@, *map),
        final(vehicles)@ == if r {
            old(vehicles)@.push(nv)
        } else {
            old(vehicles)@
        },
{
    let mut i: usize = 0;
    while i < vehicles.len()
        invariant
            i <= vehicles@.len(),
            vehicles@ == old(vehicles)@,
            forall|j: int| 0 <= j < i ==> !blocks_entry(nv, #[trigger] vehicles@[j], *map),
        decreases vehicles.len() - i,
    {
        if does_block(&nv, &vehicles[i], map) {
            assert(blocks_entry(nv, vehicles@[i as int], *map));
            return false;
        }
        i = i + 1;
    }
    vehicles.push(nv);
    true
}

/// The vehicles on the road when new ones are put there one after the other, each where there is room
/// for it.
pub open spec fn admitted(vehicles: Seq<Vehicle>, new: Seq<Vehicle>, map: MapData) -> Seq<Vehicle>
    decreases new.len(),
{
    if new.len() == 0 {
        vehicles
    } else {
        let before = admitted(vehicles, new.drop_last(), map);
        if has_room(new.last(), before, map) {
            before.push(new.last())
        } else {
            before
        }
    }
}

/// Puts new vehicles on the road one after the other, each where there is room for it.
pub fn admit_vehicles(vehicles: &mut Vec<Vehicle>, new: Vec<Vehicle>, map: &MapData)
    ensures
        final(vehicles)@ == admitted(old(vehicles)@, new@, *map),
{
    let mut rest: Vec<Vehicle> = new;
    let ghost all = rest@;
    let ghost mut done = Seq::<Vehicle>::empty();
    assert(all =~= done + rest@);
    while rest.len() > 0
        invariant
            all == done + rest@,
            vehicles@ == admitted(old(vehicles)@, done, *map),
        decreases rest.len(),
    {
        let v: Vehicle = rest.remove(0);
        proof {
            let now = done.push(v);
            assert(now.drop_last() =~= done);
            assert(all =~= now + rest@);
            done = now;
        }
        admit_vehicle(vehicles, v, map);
    }
    assert(done =~= all);
}

/// The junction at which a vehicle stands giving way: it is slow, within two metres of the stop line
/// and gives way to another one.
pub open spec fn waits_at(
    v: Vehicle,
    map: MapData,
    vehicles: Seq<Vehicle>,
    lights: IntersectionManager,
    sys: ConflictSystem,
) -> Option<usize> {
    match v.movement() {
        Some(m) => {
            let node = map.graph.ends()[m.0 as int].1 as usize;
            if m.0 < map.edges@.len() && !v.on_turn_connector && v.speed < 350_000
                && stop_line_distance(v, to_end(v, map, m.0)) <= 2_000_000 && yield_target(
                sys,
                v,
                map,
                vehicles,
                lights,
                node,
                m,
                scan_distance(v),
                first_mover_of(sys.nodes@, node),
            ) is Some {
                Some(node)
            } else {
                None
            }
        },
        None => None,
    }
}

/// The junctions and ids of the vehicles among the first `n` that stand giving way.
pub open spec fn waiting(
    vehicles: Seq<Vehicle>,
    map: MapData,
    lights: IntersectionManager,
    sys: ConflictSystem,
    n: int,
) -> Seq<(usize, u32)>
    decreases n,
{
    if n <= 0 {
        Seq::empty()
    } else {
        let before = waiting(vehicles, map, lights, sys, n - 1);
        match waits_at(vehicles[n - 1], map, vehicles, lights, sys) {
            Some(node) => before.push((node, vehicles[n - 1].id)),
            None => before,
        }
    }
}

fn waiting_junction(
    v: &Vehicle,
    map: &MapData,
    vehicles: &Vec<Vehicle>,
    lights: &IntersectionManager,
    sys: &ConflictSystem,
) -> (r: Option<usize>)
    requires
        map.wf(),
        lights.wf(),
        sys.wf(),
    ensures
        r == waits_at(*v, *map, vehicles@, *lights, *sys),
{
    let m: (usize, usize) = match v.next_movement() {
        Some(m) => m,
        None => {
            return None;
        },
    };
    if m.0 >= map.edges.len() || v.on_turn_connector || v.speed >= 350_000 {
        return None;
    }
    let end: i64 = remaining(map.edges[m.0].length, v.edge_progress);
    if distance_to_stop_line_from_front_bumper(v, end) > 2_000_000 {
        return None;
    }
    proof {
        map.graph.lemma_wf();
    }
    match map.graph.edge_endpoints(m.0) {
        Some((_, node)) => {
            let first: Option<u32> = sys.first_mover(node);
            let scan: i64 = conflict_scan_distance(v);
            if sys.cross_traffic_yield_target(
                v,
                map,
                vehicles,
                lights,
                node,
                m,
                scan,
                first,
            ).is_some() {
                Some(node)
            } else {
                None
            }
        },
        None => None,
    }
}

/// The junctions and ids of the vehicles that stand giving way.
pub fn waiting_vehicles(
    vehicles: &Vec<Vehicle>,
    map: &MapData,
    lights: &IntersectionManager,
    sys: &ConflictSystem,
) -> (r: Vec<(usize, u32)>)
    requires
        map.wf(),
        lights.wf(),
        sys.wf(),
    ensures
        r@ == waiting(vehicles@, *map, *lights, *sys, vehicles@.len() as int),
{
    let mut out: Vec<(usize, u32)> = Vec::new();
    let mut i: usize = 0;
    while i < vehicles.len()
        invariant
            i <= vehicles@.len(),
            map.wf(),
            lights.wf(),
            sys.wf(),
            out@ == waiting(vehicles@, *map, *lights, *sys, i as int),
        decreases vehicles.len() - i,
    {
        match waiting_junction(&vehicles[i], map, vehicles, lights, sys) {
            Some(node) => {
                out.push((node, vehicles[i].id));
            },
            None => {},
        }
        i = i + 1;
    }
    out
}

/// What every vehicle does next.
pub fn compute_idm_steps(scene: &Scene<'_>) -> (r: Vec<IdmStepResult>)
    requires
        scene.wf(),
    ensures
        r@.len() == scene.vehicles@.len(),
        forall|i: int| 0 <= i < r@.len() ==> scene.next_step(i, #[trigger] r@[i]),
{
    let mut out: Vec<IdmStepResult> = Vec::new();
    let mut i: usize = 0;
    while i < scene.vehicles.len()
        invariant
            i <= scene.vehicles@.len(),
            scene.wf(),
            out@.len() == i,
            forall|j: int| 0 <= j < i ==> scene.next_step(j, #[trigger] out@[j]),
        decreases scene.vehicles.len() - i,
    {
        let step = scene.compute_vehicle_idm_step(i);
        out.push(step);
        i = i + 1;
    }
    out
}

/// What the shape of the lanes tells of a vehicle in one step.
pub struct VehicleGeometry {
    pub plan: Option<PlannedTurnConnector>,
    pub turn_total: i64,
    pub projections: Vec<(u64, i64)>,
}

/// What a step of all vehicles goes by.
pub struct MoveContext<'a> {
    pub dt: i64,
    pub now: i64,
    pub map: &'a MapData,
    pub intersections: &'a IntersectionManager,
    pub rage: &'a RageConfig,
    pub snapshot: &'a Vec<Vehicle>,
    pub bodies: &'a Vec<VehicleBody>,
    pub accels: &'a Vec<i64>,
    pub geometry: &'a Vec<VehicleGeometry>,
}

impl<'a> MoveContext<'a> {
    /// What the step of vehicle `i` goes by.
    pub open spec fn of_vehicle(&self, i: int) -> StepContext<'a> {
        StepContext {
            dt: self.dt,
            now: self.now,
            map: self.map,
            intersections: self.intersections,
            rage: self.rage,
            vehicles: self.snapshot,
            bodies: self.bodies,
            plan: self.geometry@[i].plan,
            turn_total: self.geometry@[i].turn_total,
            projections: &self.geometry@[i].projections,
        }
    }

    /// The first `n` vehicles have moved one after the other, with the reservations `h` between
    /// them.
    pub open spec fn moved(
        &self,
        before: Seq<Vehicle>,
        after: Seq<Vehicle>,
        places: Seq<Placement>,
        h: Seq<ConflictSystem>,
        n: int,
    ) -> bool {
        &&& h.len() == n + 1
        &&& after.len() == before.len()
        &&& places.len() == n
        &&& forall|i: int|
            0 <= i < n ==> #[trigger] self.vehicle_moved(before, after, places, h, i)
        &&& forall|i: int| n <= i < before.len() ==> #[trigger] after[i] == before[i]
    }

    /// Vehicle `i` has moved by its own step.
    pub open spec fn vehicle_moved(
        &self,
        before: Seq<Vehicle>,
        after: Seq<Vehicle>,
        places: Seq<Placement>,
        h: Seq<ConflictSystem>,
        i: int,
    ) -> bool {
        self.of_vehicle(i).steps(
            before[i],
            self.accels@[i],
            h[i],
            after[i],
            h[i + 1],
            places[i],
        )
    }

    /// Moves every vehicle by one step, one after the other, and tells where each is.
    pub fn move_vehicles(&self, vehicles: &mut Vec<Vehicle>, sys: &mut ConflictSystem) -> (r: Vec<
        Placement,
    >)
        requires
            self.map.wf(),
            self.intersections.wf(),
            old(sys).wf(),
            self.accels@.len() == old(vehicles)@.len(),
            self.geometry@.len() == old(vehicles)@.len(),
        ensures
            final(sys).wf(),
            exists|h: Seq<ConflictSystem>|
                #[trigger] self.moved(
                    old(vehicles)@,
                    final(vehicles)@,
                    r@,
                    h,
                    old(vehicles)@.len() as int,
                ) && h[0] == *old(sys) && h.last() == *final(sys),
    {
        let ghost before = vehicles@;
        let ghost mut h = seq![*sys];
        let mut out: Vec<Placement> = Vec::new();
        let mut i: usize = 0;
        while i < vehicles.len()
            invariant
                i <= vehicles@.len(),
                self.map.wf(),
                self.intersections.wf(),
                sys.wf(),
                before == old(vehicles)@,
                vehicles@.len() == before.len(),
                self.accels@.len() == before.len(),
                self.geometry@.len() == before.len(),
                self.moved(before, vehicles@, out@, h, i as int),
                h[0] == *old(sys),
                h.last() == *sys,
            decreases vehicles.len() - i,
        {
            let ctx = StepContext {
                dt: self.dt,
                now: self.now,
                map: self.map,
                intersections: self.intersections,
                rage: self.rage,
                vehicles: self.snapshot,
                bodies: self.bodies,
                plan: self.geometry[i].plan,
                turn_total: self.geometry[i].turn_total,
                projections: &self.geometry[i].projections,
            };
            let accel: i64 = self.accels[i];
            let ghost was = vehicles@;
            let ghost told = out@;
            let ghost h0 = h;
            assert(was[i as int] == before[i as int]);
            let place = ctx.apply_vehicle_physics(&mut vehicles[i], accel, sys);
            out.push(place);
            proof {
                h = h.push(*sys);
                assert(ctx == self.of_vehicle(i as int));
                assert forall|j: int| 0 <= j < i + 1 implies #[trigger] self.vehicle_moved(
                    before,
                    vehicles@,
                    out@,
                    h,
                    j,
                ) by {
                    if j < i {
                        assert(self.vehicle_moved(before, was, told, h0, j));
                        assert(vehicles@[j] == was[j]);
                        assert(out@[j] == told[j]);
                        assert(h[j] == h0[j] && h[j + 1] == h0[j + 1]);
                    } else {
                        assert(h[i as int] == h0.last());
                    }
                }
                assert forall|j: int| i + 1 <= j < before.len() implies #[trigger] vehicles@[j]
                    == before[j] by {
                    assert(vehicles@[j] == was[j]);
                }
            }
            i = i + 1;
        }
        assert(self.moved(before, vehicles@, out@, h, before.len() as int));
        out
    }
}

/// The lane changes of the first `n` vehicles: the id of each that changes and its new lane. A
/// vehicle beyond the lanes of its edge does not look for a lane with fewer vehicles.
pub open spec fn lane_changes(vehicles: Seq<Vehicle>, map: MapData, n: int) -> Seq<(u32, u8)>
    decreases n,
{
    if n <= 0 {
        Seq::empty()
    } else {
        let before = lane_changes(vehicles, map, n - 1);
        match change_of(vehicles[n - 1], vehicles, map) {
            Some(l) => before.push((vehicles[n - 1].id, l)),
            None => before,
        }
    }
}

/// The lane that a vehicle changes to on its edge, if it does.
pub open spec fn change_of(v: Vehicle, vehicles: Seq<Vehicle>, map: MapData) -> Option<u8> {
    match v.edge() {
        Some(e) => if e < map.edges@.len() {
            let edge = map.edges@[e as int];
            if lane_thought(v, edge, e, vehicles) is Balance && v.current_lane >= edge.lanes {
                None
            } else {
                lane_change(v, edge, e, vehicles)
            }
        } else {
            None
        },
        None => None,
    }
}

fn find_change(v: &Vehicle, vehicles: &Vec<Vehicle>, map: &MapData) -> (r: Option<u8>)
    ensures
        r == change_of(*v, vehicles@, *map),
{
    match v.current_edge() {
        Some(e) => {
            if e >= map.edges.len() {
                return None;
            }
            if v.current_lane >= map.edges[e].lanes {
                return match think_of_lanes(v, &map.edges[e], e, vehicles) {
                    LaneThought::Change(l) => Some(l),
                    _ => None,
                };
            }
            decide_lane_change(v, &map.edges[e], e, vehicles)
        },
        None => None,
    }
}

/// Vehicles with the first one of an id on another lane and waiting between lane changes.
pub open spec fn with_lane(vehicles: Seq<Vehicle>, id: u32, lane: u8) -> Seq<Vehicle>
    decreases vehicles.len(),
{
    if vehicles.len() == 0 {
        vehicles
    } else if vehicles[0].id == id {
        vehicles.update(
            0,
            Vehicle { current_lane: lane, lane_change_cooldown: LANE_CHANGE_WAIT, ..vehicles[0] },
        )
    } else {
        seq![vehicles[0]] + with_lane(vehicles.skip(1), id, lane)
    }
}

/// Vehicles after some lane changes.
pub open spec fn with_changes(vehicles: Seq<Vehicle>, changes: Seq<(u32, u8)>) -> Seq<Vehicle>
    decreases changes.len(),
{
    if changes.len() == 0 {
        vehicles
    } else {
        with_lane(
            with_changes(vehicles, changes.drop_last()),
            changes.last().0,
            changes.last().1,
        )
    }
}

fn change_lane(vehicles: &mut Vec<Vehicle>, id: u32, lane: u8)
    ensures
        final(vehicles)@ == with_lane(old(vehicles)@, id, lane),
{
    let ghost all = vehicles@;
    let mut i: usize = 0;
    assert(all.take(0) + with_lane(all.skip(0), id, lane) =~= with_lane(all, id, lane)) by {
        assert(all.skip(0) =~= all);
    }
    while i < vehicles.len()
        invariant
            i <= vehicles@.len(),
            vehicles@ == all,
            all == old(vehicles)@,
            with_lane(all, id, lane) == all.take(i as int) + with_lane(
                all.skip(i as int),
                id,
                lane,
            ),
        decreases vehicles.len() - i,
    {
        let ghost rest = all.skip(i as int);
        assert(rest[0] == all[i as int]);
        assert(rest.skip(1) =~= all.skip(i + 1));
        if vehicles[i].id == id {
            vehicles[i].current_lane = lane;
            vehicles[i].lane_change_cooldown = LANE_CHANGE_WAIT;
            proof {
                let v = Vehicle {
                    current_lane: lane,
                    lane_change_cooldown: LANE_CHANGE_WAIT,
                    ..all[i as int]
                };
                assert(vehicles@ =~= all.update(i as int, v));
                assert(all.update(i as int, v) =~= all.take(i as int) + rest.update(0, v));
            }
            return ;
        }
        proof {
            let tail = with_lane(all.skip(i + 1), id, lane);
            assert(all.take(i as int) + (seq![all[i as int]] + tail) =~= all.take(i + 1) + tail);
        }
        i = i + 1;
    }
    assert(all.skip(i as int) =~= Seq::<Vehicle>::empty());
    assert(all.take(i as int) + Seq::<Vehicle>::empty() =~= all);
}

/// Lets every vehicle change lanes that does so, all by how they were before.
pub fn apply_lane_changes(vehicles: &mut Vec<Vehicle>, map: &MapData)
    ensures
        final(vehicles)@ == with_changes(
            old(vehicles)@,
            lane_changes(old(vehicles)@, *map, old(vehicles)@.len() as int),
        ),
{
    let mut changes: Vec<(u32, u8)> = Vec::new();
    let mut i: usize = 0;
    while i < vehicles.len()
        invariant
            i <= vehicles@.len(),
            vehicles@ == old(vehicles)@,
            changes@ == lane_changes(vehicles@, *map, i as int),
        decreases vehicles.len() - i,
    {
        match find_change(&vehicles[i], vehicles, map) {
            Some(l) => {
                changes.push((vehicles[i].id, l));
            },
            None => {},
        }
        i = i + 1;
    }
    let ghost before = vehicles@;
    let mut k: usize = 0;
    assert(changes@.take(0) =~= Seq::<(u32, u8)>::empty());
    while k < changes.len()
        invariant
            k <= changes@.len(),
            vehicles@ == with_changes(before, changes@.take(k as int)),
        decreases changes.len() - k,
    {
        assert(changes@.take(k + 1).drop_last() =~= changes@.take(k as int));
        assert(changes@.take(k + 1).last() == changes@[k as int]);
        change_lane(vehicles, changes[k].0, changes[k].1);
        k = k + 1;
    }
    assert(changes@.take(k as int) =~= changes@);
}

/// The vehicles that are still on the road.
pub open spec fn remaining_vehicles(vehicles: Seq<Vehicle>) -> Seq<Vehicle>
    decreases vehicles.len(),
{
    if vehicles.len() == 0 {
        Seq::empty()
    } else if vehicles[0].despawned {
        remaining_vehicles(vehicles.skip(1))
    } else {
        seq![vehicles[0]] + remaining_vehicles(vehicles.skip(1))
    }
}

/// The ids of the vehicles that have left.
pub open spec fn left_ids(vehicles: Seq<Vehicle>, n: int) -> Seq<u32>
    decreases n,
{
    if n <= 0 {
        Seq::empty()
    } else if vehicles[n - 1].despawned {
        left_ids(vehicles, n - 1).push(vehicles[n - 1].id)
    } else {
        left_ids(vehicles, n - 1)
    }
}

/// The reservations `h` come one after the other by giving back what each of some vehicles holds.
pub open spec fn released_by(ids: Seq<u32>, h: Seq<ConflictSystem>) -> bool {
    &&& h.len() == ids.len() + 1
    &&& forall|i: int|
        0 <= i < ids.len() ==> system_swept(
            Sweep::ReleaseVehicle { vehicle: #[trigger] ids[i] },
            h[i],
            h[i + 1],
        )
}

/// Takes vehicles that have left off the road; what they hold is given back.
pub fn remove_despawned(vehicles: &mut Vec<Vehicle>, sys: &mut ConflictSystem)
    requires
        old(sys).wf(),
    ensures
        final(sys).wf(),
        final(vehicles)@ == remaining_vehicles(old(vehicles)@),
        exists|h: Seq<ConflictSystem>|
            #[trigger] released_by(left_ids(old(vehicles)@, old(vehicles)@.len() as int), h)
                && h[0] == *old(sys) && h.last() == *final(sys),
{
    let ghost all = vehicles@;
    let ghost mut h = seq![*sys];
    let mut i: usize = 0;
    while i < vehicles.len()
        invariant
            i <= vehicles@.len(),
            vehicles@ == all,
            all == old(vehicles)@,
            sys.wf(),
            released_by(left_ids(all, i as int), h),
            h[0] == *old(sys),
            h.last() == *sys,
        decreases vehicles.len() - i,
    {
        if vehicles[i].despawned {
            let id: u32 = vehicles[i].id;
            let ghost s0 = *sys;
            let ghost h0 = h;
            sys.release_all_for_vehicle(id);
            proof {
                lemma_swept_wf(Sweep::ReleaseVehicle { vehicle: id }, s0, *sys);
                h = h.push(*sys);
                let ids = left_ids(all, i + 1);
                let before = left_ids(all, i as int);
                assert forall|k: int| 0 <= k < ids.len() implies system_swept(
                    Sweep::ReleaseVehicle { vehicle: #[trigger] ids[k] },
                    h[k],
                    h[k + 1],
                ) by {
                    if k < before.len() {
                        assert(ids[k] == before[k]);
                        assert(h[k] == h0[k] && h[k + 1] == h0[k + 1]);
                    } else {
                        assert(ids[k] == id);
                        assert(h[k] == h0.last());
                    }
                }
            }
        }
        i = i + 1;
    }
    let mut k: usize = 0;
    assert(all.skip(0) =~= all);
    assert(Seq::<Vehicle>::empty() + remaining_vehicles(all) =~= remaining_vehicles(all));
    let ghost mut kept = Seq::<Vehicle>::empty();
    let ghost mut at: int = 0;
    while k < vehicles.len()
        invariant
            0 <= at <= all.len(),
            k == kept.len(),
            k <= vehicles@.len(),
            vehicles@ == kept + all.skip(at),
            remaining_vehicles(all) == kept + remaining_vehicles(all.skip(at)),
        decreases vehicles.len() - k,
    {
        let ghost rest = all.skip(at);
        assert(vehicles@[k as int] == rest[0]);
        assert(rest.skip(1) =~= all.skip(at + 1));
        if vehicles[k].despawned {
            let _gone = vehicles.remove(k);
            proof {
                at = at + 1;
                assert(vehicles@ =~= kept + all.skip(at));
            }
        } else {
            proof {
                let tail = remaining_vehicles(all.skip(at + 1));
                assert(kept + (seq![rest[0]] + tail) =~= kept.push(rest[0]) + tail);
                kept = kept.push(rest[0]);
                at = at + 1;
                assert(vehicles@ =~= kept + all.skip(at));
            }
            k = k + 1;
        }
    }
    proof {
        assert(all.skip(at) =~= Seq::<Vehicle>::empty()) by {
            assert(vehicles@.len() == kept.len());
        }
        assert(kept + Seq::<Vehicle>::empty() =~= kept);
        assert(vehicles@ =~= kept);
    }
}

/// Why the game is lost.
#[derive(Clone, Copy, Debug, PartialEq, Eq, Structural)]
pub enum GameOverReason {
    AverageFrustration,
    MassRage,
}

/// The end of the game: why, and by what value, in millionths.
#[derive(Clone, Copy, Debug, PartialEq, Eq, Structural)]
pub struct GameOver {
    pub reason: GameOverReason,
    pub value: i64,
}

/// The name of a reason.
pub fn reason_label(r: GameOverReason) -> (t: &'static str)
    ensures
        t@ == (match r {
            GameOverReason::AverageFrustration => "avg_frustration"@,
            GameOverReason::MassRage => "mass_rage"@,
        }),
{
    match r {
        GameOverReason::AverageFrustration => "avg_frustration",
        GameOverReason::MassRage => "mass_rage",
    }
}

/// The frustration of all drivers together.
pub open spec fn total_frustration(vehicles: Seq<Vehicle>) -> int
    decreases vehicles.len(),
{
    if vehicles.len() == 0 {
        0
    } else {
        total_frustration(vehicles.drop_last()) + vehicles.last().frustration
    }
}

/// How many drivers are at the limit.
pub open spec fn raging(vehicles: Seq<Vehicle>) -> nat
    decreases vehicles.len(),
{
    if vehicles.len() == 0 {
        0
    } else if vehicles.last().frustration >= RAGE {
        raging(vehicles.drop_last()) + 1
    } else {
        raging(vehicles.drop_last())
    }
}

/// Watches whether the game is lost.
#[derive(Clone, Copy, Debug)]
pub struct GameWatch {
    /// For how long the average has been too high.
    pub timer: i64,
}

impl GameWatch {
    /// The watch after a step, and the end of the game if it has come: when the average has been
    /// above the threshold for long enough, or when enough drivers are at the limit at once.
    pub open spec fn watched(
        self,
        vehicles: Seq<Vehicle>,
        rage: RageConfig,
        dt: i64,
    ) -> (GameWatch, Option<GameOver>) {
        let n = vehicles.len() as int;
        let sum = total_frustration(vehicles);
        let mad = raging(vehicles) as int;
        if n == 0 {
            (self, None)
        } else if sum > rage.global_loss_threshold * n {
            let t = saturated(self.timer + dt);
            if t >= rage.global_loss_duration {
                (
                    GameWatch { timer: 0 },
                    Some(
                        GameOver {
                            reason: GameOverReason::AverageFrustration,
                            value: saturated(sum / n) as i64,
                        },
                    ),
                )
            } else {
                (GameWatch { timer: t as i64 }, None)
            }
        } else if mad * 1_000_000 >= rage.mass_rage_fraction * n {
            (
                self,
                Some(
                    GameOver {
                        reason: GameOverReason::MassRage,
                        value: (mad * 100_000_000 / n) as i64,
                    },
                ),
            )
        } else {
            (GameWatch { timer: 0 }, None)
        }
    }

    /// Watches one step.
    pub fn watch(&mut self, vehicles: &Vec<Vehicle>, rage: &RageConfig, dt: i64) -> (r: Option<
        GameOver,
    >)
        ensures
            (*final(self), r) == old(self).watched(vehicles@, *rage, dt),
    {
        let n: usize = vehicles.len();
        if n == 0 {
            return None;
        }
        let mut sum: i128 = 0;
        let mut mad: usize = 0;
        let mut i: usize = 0;
        assert(vehicles@.take(0) =~= Seq::<Vehicle>::empty());
        while i < n
            invariant
                i <= n,
                n == vehicles@.len(),
                mad <= i,
                sum == total_frustration(vehicles@.take(i as int)),
                mad == raging(vehicles@.take(i as int)),
                -0x8000_0000_0000_0000 * i <= sum <= 0x8000_0000_0000_0000 * i,
            decreases n - i,
        {
            assert(vehicles@.take(i + 1).drop_last() =~= vehicles@.take(i as int));
            assert(vehicles@.take(i + 1).last() == vehicles@[i as int]);
            sum = sum + vehicles[i].frustration as i128;
            if vehicles[i].frustration >= RAGE {
                mad = mad + 1;
            }
            i = i + 1;
        }
        assert(vehicles@.take(i as int) =~= vehicles@);
        proof {
            let k = n as int;
            let a = rage.global_loss_threshold as int;
            let b = rage.mass_rage_fraction as int;
            assert(-0x8000_0000_0000_0000_0000_0000_0000_0000 <= a * k
                <= 0x7fff_ffff_ffff_ffff_ffff_ffff_ffff_ffff) by (nonlinear_arith)
                requires
                    0 <= k <= 0xffff_ffff_ffff_ffff,
                    -0x8000_0000_0000_0000 <= a <= 0x7fff_ffff_ffff_ffff,
            ;
            assert(-0x8000_0000_0000_0000_0000_0000_0000_0000 <= b * k
                <= 0x7fff_ffff_ffff_ffff_ffff_ffff_ffff_ffff) by (nonlinear_arith)
                requires
                    0 <= k <= 0xffff_ffff_ffff_ffff,
                    -0x8000_0000_0000_0000 <= b <= 0x7fff_ffff_ffff_ffff,
            ;
        }
        if sum > rage.global_loss_threshold as i128 * n as i128 {
            self.timer = saturate(self.timer as i128 + dt as i128);
            if self.timer >= rage.global_loss_duration {
                self.timer = 0;
                let value: i64 = saturate(crate::units::floor_div(sum, n as i128));
                return Some(GameOver { reason: GameOverReason::AverageFrustration, value });
            }
            None
        } else if mad as i128 * 1_000_000 >= rage.mass_rage_fraction as i128 * n as i128 {
            let part: i128 = mad as i128 * 100_000_000 / n as i128;
            proof {
                let m = mad as int;
                let k = n as int;
                assert(0 <= m * 100_000_000 / k <= 100_000_000) by (nonlinear_arith)
                    requires
                        0 <= m <= k,
                        k > 0,
                ;
            }
            Some(GameOver { reason: GameOverReason::MassRage, value: part as i64 })
        } else {
            self.timer = 0;
            None
        }
    }
}

/// Whether a vehicle is the one to show: the selected one, or without a selection any but a tram,
/// as long as it is on its route.
pub open spec fn is_shown(v: Vehicle, selected: Option<u32>) -> bool {
    v.edge() is Some && match selected {
        Some(id) => v.id == id,
        None => v.vehicle_type != VehicleType::Tram,
    }
}

/// The first vehicle to show.
pub fn debug_target(vehicles: &Vec<Vehicle>, selected: Option<u32>) -> (r: Option<usize>)
    ensures
        match r {
            Some(k) => k < vehicles@.len() && is_shown(vehicles@[k as int], selected) && forall|i: int|
                0 <= i < k ==> !is_shown(#[trigger] vehicles@[i], selected),
            None => forall|i: int|
                0 <= i < vehicles@.len() ==> !is_shown(#[trigger] vehicles@[i], selected),
        },
{
    let mut i: usize = 0;
    while i < vehicles.len()
        invariant
            i <= vehicles@.len(),
            forall|j: int| 0 <= j < i ==> !is_shown(#[trigger] vehicles@[j], selected),
        decreases vehicles.len() - i,
    {
        let fits: bool = vehicles[i].current_edge().is_some() && match selected {
            Some(id) => vehicles[i].id == id,
            None => vehicles[i].vehicle_type != VehicleType::Tram,
        };
        if fits {
            return Some(i);
        }
        i = i + 1;
    }
    None
}

/// What is shown of the leader of a slow vehicle.
#[derive(Clone, Copy, Debug)]
pub struct LeaderDebugEntry {
    pub vehicle_id: u32,
    /// The vehicle that it minds.
    pub idm_leader_vehicle_id: Option<u32>,
    /// The vehicle ahead on its lane.
    pub lane_leader_vehicle_id: Option<u32>,
    /// Whether the two differ where they should not.
    pub sensor_mismatch: bool,
}

/// What is shown of the leader of vehicle `i`: nothing of trams, of vehicles without an edge and of
/// those faster than 3.5 m/s.
pub open spec fn leader_entry(scene: Scene<'_>, step: IdmStepResult, i: int) -> Option<
    LeaderDebugEntry,
> {
    let v = scene.vehicles@[i];
    let follows = step.obstacle.kind == ObstacleKind::Vehicle;
    let minded = if follows {
        step.obstacle.leader_vehicle_id
    } else {
        None
    };
    let ahead = match same_lane_leader(i, v, scene.vehicles@, *scene.buckets, *scene.map) {
        Some(b) => if v.on_turn_connector {
            None
        } else {
            Some(scene.vehicles@[b.1].id)
        },
        None => None,
    };
    if v.edge() is None || v.vehicle_type == VehicleType::Tram || v.speed > 3_500_000 {
        None
    } else {
        Some(
            LeaderDebugEntry {
                vehicle_id: v.id,
                idm_leader_vehicle_id: minded,
                lane_leader_vehicle_id: ahead,
                sensor_mismatch: !v.on_turn_connector && follows && minded != ahead,
            },
        )
    }
}

/// What is shown of the leaders of the first `n` vehicles.
pub open spec fn leader_entries(scene: Scene<'_>, steps: Seq<IdmStepResult>, n: int) -> Seq<
    LeaderDebugEntry,
>
    decreases n,
{
    if n <= 0 {
        Seq::empty()
    } else {
        let before = leader_entries(scene, steps, n - 1);
        match leader_entry(scene, steps[n - 1], n - 1) {
            Some(e) => before.push(e),
            None => before,
        }
    }
}

fn same_id(a: Option<u32>, b: Option<u32>) -> (r: bool)
    ensures
        r == (a == b),
{
    match (a, b) {
        (Some(x), Some(y)) => x == y,
        (None, None) => true,
        _ => false,
    }
}

/// What is shown of the leaders of all slow vehicles.
pub fn leader_debug(scene: &Scene<'_>, steps: &Vec<IdmStepResult>) -> (r: Vec<LeaderDebugEntry>)
    requires
        scene.wf(),
        steps@.len() == scene.vehicles@.len(),
    ensures
        r@ == leader_entries(*scene, steps@, steps@.len() as int),
{
    let mut out: Vec<LeaderDebugEntry> = Vec::new();
    let mut i: usize = 0;
    while i < steps.len()
        invariant
            i <= steps@.len(),
            scene.wf(),
            steps@.len() == scene.vehicles@.len(),
            out@ == leader_entries(*scene, steps@, i as int),
        decreases steps.len() - i,
    {
        let v: &Vehicle = &scene.vehicles[i];
        if v.current_edge().is_some() && v.vehicle_type != VehicleType::Tram && v.speed
            <= 3_500_000 {
            let follows: bool = steps[i].obstacle.kind == ObstacleKind::Vehicle;
            let minded: Option<u32> = if follows {
                steps[i].obstacle.leader_vehicle_id
            } else {
                None
            };
            let ahead: Option<u32> = immediate_same_lane_leader_id(
                i,
                v,
                scene.vehicles,
                scene.buckets,
                scene.map,
            );
            out.push(
                LeaderDebugEntry {
                    vehicle_id: v.id,
                    idm_leader_vehicle_id: minded,
                    lane_leader_vehicle_id: ahead,
                    sensor_mismatch: !v.on_turn_connector && follows && !same_id(minded, ahead),
                },
            );
        }
        i = i + 1;
    }
    out
}

/// Only vehicles that have not left stay on the road, and none of those is lost.
pub proof fn law_who_stays(vehicles: Seq<Vehicle>, v: Vehicle)
    ensures
        remaining_vehicles(vehicles).contains(v) <==> vehicles.contains(v) && !v.despawned,
    decreases vehicles.len(),
{
    if vehicles.len() > 0 {
        let rest = vehicles.skip(1);
        let kept = remaining_vehicles(rest);
        law_who_stays(rest, v);
        if vehicles.contains(v) && v != vehicles[0] {
            let k = choose|k: int| 0 <= k < vehicles.len() && vehicles[k] == v;
            assert(rest[k - 1] == v);
        }
        if rest.contains(v) {
            let k = choose|k: int| 0 <= k < rest.len() && rest[k] == v;
            assert(vehicles[k + 1] == v);
        }
        assert(vehicles[0] == vehicles[0]);
        let all = seq![vehicles[0]] + kept;
        if all.contains(v) && v != vehicles[0] {
            let k = choose|k: int| 0 <= k < all.len() && all[k] == v;
            assert(kept[k - 1] == v);
        }
        if kept.contains(v) {
            let k = choose|k: int| 0 <= k < kept.len() && kept[k] == v;
            assert(all[k + 1] == v);
        }
        assert(all[0] == vehicles[0]);
    }
}

/// After the vehicles that left have given back what they held, none of them holds a point.
pub proof fn law_left_hold_nothing(
    ids: Seq<u32>,
    h: Seq<ConflictSystem>,
    n: int,
    i: int,
    j: int,
    k: int,
)
    requires
        released_by(ids, h),
        0 <= n < ids.len(),
        0 <= i < h[0].nodes@.len(),
        0 <= j < h[0].nodes@[i].by_movement@.len(),
        0 <= k < h[0].points_at(i, j).len(),
    ensures
        h.last().points_at(i, j)[k].reserved_by != Some(ids[n]),
{
    lemma_released_after(ids, h, n, ids.len() as int, i, j, k);
}

proof fn lemma_same_places(ids: Seq<u32>, h: Seq<ConflictSystem>, m: int, i: int, j: int)
    requires
        released_by(ids, h),
        0 <= m <= ids.len(),
        0 <= i < h[0].nodes@.len(),
        0 <= j < h[0].nodes@[i].by_movement@.len(),
    ensures
        h[m].nodes@.len() == h[0].nodes@.len(),
        h[m].nodes@[i].by_movement@.len() == h[0].nodes@[i].by_movement@.len(),
        h[m].points_at(i, j).len() == h[0].points_at(i, j).len(),
    decreases m,
{
    if m > 0 {
        lemma_same_places(ids, h, m - 1, i, j);
        let op = Sweep::ReleaseVehicle { vehicle: ids[m - 1] };
        assert(system_swept(op, h[m - 1], h[m]));
        assert(node_swept(op, h[m - 1].nodes@[i], h[m].nodes@[i]));
        assert(path_swept(
            op,
            h[m - 1].nodes@[i].by_movement@[j],
            h[m].nodes@[i].by_movement@[j],
        ));
    }
}

proof fn lemma_released_after(
    ids: Seq<u32>,
    h: Seq<ConflictSystem>,
    n: int,
    m: int,
    i: int,
    j: int,
    k: int,
)
    requires
        released_by(ids, h),
        0 <= n < m <= ids.len(),
        0 <= i < h[0].nodes@.len(),
        0 <= j < h[0].nodes@[i].by_movement@.len(),
        0 <= k < h[0].points_at(i, j).len(),
    ensures
        h[m].points_at(i, j)[k].reserved_by != Some(ids[n]),
    decreases m,
{
    lemma_same_places(ids, h, m - 1, i, j);
    let vehicle = ids[m - 1];
    assert(system_swept((Sweep::ReleaseVehicle { vehicle }), h[m - 1], h[m]));
    law_release_frees_all(h[m - 1], h[m], vehicle, i, j, k);
    if n < m - 1 {
        lemma_released_after(ids, h, n, m - 1, i, j, k);
        if h[m - 1].points_at(i, j)[k].reserved_by == Some(vehicle) {
            let op = Sweep::ReleaseVehicle { vehicle };
            assert(node_swept(op, h[m - 1].nodes@[i], h[m].nodes@[i]));
            assert(path_swept(
                op,
                h[m - 1].nodes@[i].by_movement@[j],
                h[m].nodes@[i].by_movement@[j],
            ));
            assert(h[m].points_at(i, j)[k] == swept(
                op,
                h[m - 1].nodes@[i].by_movement@[j].key,
                h[m - 1].points_at(i, j)[k],
            ));
        }
    }
}

/// Lane changes alter nothing of a vehicle but its lane and the wait until the next change.
pub proof fn law_changes_touch_lanes_only(
    vehicles: Seq<Vehicle>,
    changes: Seq<(u32, u8)>,
    i: int,
)
    requires
        0 <= i < vehicles.len(),
    ensures
        with_changes(vehicles, changes).len() == vehicles.len(),
        with_changes(vehicles, changes)[i] == (Vehicle {
            current_lane: with_changes(vehicles, changes)[i].current_lane,
            lane_change_cooldown: with_changes(vehicles, changes)[i].lane_change_cooldown,
            ..vehicles[i]
        }),
    decreases changes.len(),
{
    if changes.len() > 0 {
        law_changes_touch_lanes_only(vehicles, changes.drop_last(), i);
        lemma_with_lane(
            with_changes(vehicles, changes.drop_last()),
            changes.last().0,
            changes.last().1,
            i,
        );
    }
}

proof fn lemma_with_lane(vehicles: Seq<Vehicle>, id: u32, lane: u8, i: int)
    requires
        0 <= i < vehicles.len(),
    ensures
        with_lane(vehicles, id, lane).len() == vehicles.len(),
        with_lane(vehicles, id, lane)[i] == (Vehicle {
            current_lane: with_lane(vehicles, id, lane)[i].current_lane,
            lane_change_cooldown: with_lane(vehicles, id, lane)[i].lane_change_cooldown,
            ..vehicles[i]
        }),
    decreases vehicles.len(),
{
    if vehicles[0].id != id {
        let rest = vehicles.skip(1);
        if i > 0 {
            lemma_with_lane(rest, id, lane, i - 1);
        } else if rest.len() > 0 {
            lemma_with_lane(rest, id, lane, 0);
        } else {
            assert(with_lane(rest, id, lane) == rest);
        }
    }
}

/// While the average is not too high and no driver is at the limit, the game goes on and the watch
/// starts over.
pub proof fn law_calm_traffic_goes_on(
    w: GameWatch,
    vehicles: Seq<Vehicle>,
    rage: RageConfig,
    dt: i64,
)
    requires
        vehicles.len() > 0,
        total_frustration(vehicles) <= rage.global_loss_threshold * vehicles.len(),
        raging(vehicles) == 0,
        rage.mass_rage_fraction > 0,
    ensures
        w.watched(vehicles, rage, dt) == (GameWatch { timer: 0 }, None::<GameOver>),
{
    let n = vehicles.len() as int;
    let f = rage.mass_rage_fraction as int;
    assert(f * n > 0) by (nonlinear_arith)
        requires
            f > 0,
            n > 0,
    ;
}

/// Time is neither lost nor made: the steps due and the time left over are the time that was to be
/// made up for.
pub proof fn law_time_is_kept(pending: int, elapsed: int)
    requires
        0 <= pending < PHYSICS_DT,
        0 <= elapsed,
    ensures
        ({
            let all = pending + smaller(elapsed, MAX_ELAPSED as int);
            (all / (PHYSICS_DT as int)) * PHYSICS_DT + all % (PHYSICS_DT as int) == all
        }),
{
    let all = pending + smaller(elapsed, MAX_ELAPSED as int);
    let d = PHYSICS_DT as int;
    assert((all / d) * d + all % d == all) by (nonlinear_arith)
        requires
            d == 16_667,
    ;
}

/// A new vehicle is put on the road only where every vehicle on the same lane of its first edge is
/// farther along than half the lengths of both, the longer of them and two metres together.
pub proof fn law_new_vehicles_have_room(
    nv: Vehicle,
    vehicles: Seq<Vehicle>,
    map: MapData,
    i: int,
)
    requires
        nv.route@.len() > 0,
        nv.route@[0] < map.edges@.len(),
        0 <= map.edges@[nv.route@[0] as int].length <= 1_000_000_000_000,
        0 <= i < vehicles.len(),
        vehicles[i].edge() == Some(nv.route@[0]),
        vehicles[i].current_lane == nv.current_lane,
        0 <= vehicles[i].edge_progress <= 1_000_000_000,
    ensures
        ({
            let at = map.edges@[nv.route@[0] as int].length * vehicles[i].edge_progress
                / 1_000_000_000;
            let a = nv.vehicle_type.params_of().length;
            let b = vehicles[i].vehicle_type.params_of().length;
            &&& has_room(nv, vehicles, map) ==> at >= (a + b) / 2 + a + 2_000_000 && at >= (a + b)
                / 2 + b + 2_000_000
            &&& vehicles.len() == 1 && at >= (a + b) / 2 + a + 2_000_000 && at >= (a + b) / 2 + b
                + 2_000_000 ==> has_room(nv, vehicles, map)
        }),
{
    let (l, p) = (
        map.edges@[nv.route@[0] as int].length as int,
        vehicles[i].edge_progress as int,
    );
    assert(0 <= l * p <= 1_000_000_000_000_000_000_000) by (nonlinear_arith)
        requires
            0 <= l <= 1_000_000_000_000,
            0 <= p <= 1_000_000_000,
    ;
    assert(0 <= l * p / 1_000_000_000 <= 1_000_000_000_000);
    if has_room(nv, vehicles, map) {
        assert(!blocks_entry(nv, vehicles[i], map));
    }
}

/// Vehicles on other edges or lanes are never in the way of a new one.
pub proof fn law_others_are_not_in_the_way(nv: Vehicle, v: Vehicle, map: MapData)
    requires
        nv.route@.len() == 0 || v.edge() != Some(nv.route@[0]) || v.current_lane != nv.current_lane,
    ensures
        !blocks_entry(nv, v, map),
{
}

/// Admitting vehicles keeps all that are on the road, in order, and adds only new ones.
pub proof fn law_admitting_only_adds(vehicles: Seq<Vehicle>, new: Seq<Vehicle>, map: MapData)
    ensures
        ({
            let after = admitted(vehicles, new, map);
            &&& vehicles.len() <= after.len() <= vehicles.len() + new.len()
            &&& after.take(vehicles.len() as int) == vehicles
            &&& forall|i: int|
                vehicles.len() <= i < after.len() ==> new.contains(#[trigger] after[i])
        }),
    decreases new.len(),
{
    if new.len() == 0 {
        assert(vehicles.take(vehicles.len() as int) =~= vehicles);
    } else {
        let front = new.drop_last();
        law_admitting_only_adds(vehicles, front, map);
        let before = admitted(vehicles, front, map);
        let after = admitted(vehicles, new, map);
        assert(after.take(vehicles.len() as int) =~= before.take(vehicles.len() as int));
        assert forall|i: int| vehicles.len() <= i < after.len() implies new.contains(
            #[trigger] after[i],
        ) by {
            if i < before.len() {
                assert(front.contains(before[i]));
                let k = choose|k: int| 0 <= k < front.len() && front[k] == before[i];
                assert(new[k] == after[i]);
            } else {
                assert(new[new.len() - 1] == after[i]);
            }
        }
    }
}

/// A paused clock stands still and a resumed one runs again at its scale.
pub proof fn law_pause_and_resume(c: GameClock, dt: i64)
    ensures
        clock_after(SimCommand::Pause, c).advanced(dt).game_time == c.game_time,
        clock_after(SimCommand::Pause, c).game_span(dt) == 0,
        clock_after(SimCommand::Resume, clock_after(SimCommand::Pause, c)) == (GameClock {
            paused: false,
            ..c
        }),
{
}

/// A vehicle that changes lanes is on its new lane and waits three seconds before it changes again; all
/// others stay as they are.
pub proof fn law_change_is_made(vehicles: Seq<Vehicle>, id: u32, lane: u8, i: int)
    requires
        0 <= i < vehicles.len(),
        forall|k: int| 0 <= k < i ==> (#[trigger] vehicles[k]).id != vehicles[i].id,
    ensures
        with_lane(vehicles, id, lane).len() == vehicles.len(),
        vehicles[i].id == id ==> with_lane(vehicles, id, lane)[i] == (Vehicle {
            current_lane: lane,
            lane_change_cooldown: 3_000_000,
            ..vehicles[i]
        }),
        vehicles[i].id != id ==> with_lane(vehicles, id, lane)[i] == vehicles[i],
    decreases vehicles.len(),
{
    if vehicles[0].id != id {
        let rest = vehicles.skip(1);
        if i > 0 {
            assert forall|k: int| 0 <= k < i - 1 implies (#[trigger] rest[k]).id
                != rest[i - 1].id by {
                assert(rest[k] == vehicles[k + 1]);
            }
            law_change_is_made(rest, id, lane, i - 1);
        } else if rest.len() > 0 {
            law_change_is_made(rest, id, lane, 0);
        }
    } else if i > 0 {
        assert(vehicles[0].id != vehicles[i].id);
    }
}

/// The drivers at the limit are those whose frustration has come to a hundred.
pub proof fn law_raging_drivers_counted(vehicles: Seq<Vehicle>)
    ensures
        raging(vehicles) == vehicles.filter(|v: Vehicle| v.frustration >= 100_000_000).len(),
    decreases vehicles.len(),
{
    reveal(Seq::filter);
    if vehicles.len() > 0 {
        law_raging_drivers_counted(vehicles.drop_last());
    }
}

/// The game is lost once the average frustration has been above its threshold for the set time, or as
/// soon as the set share of the drivers is at the limit; as long as neither holds it goes on.
pub proof fn law_how_the_game_is_lost(
    w: GameWatch,
    vehicles: Seq<Vehicle>,
    rage: RageConfig,
    dt: i64,
)
    requires
        vehicles.len() > 0,
        0 <= w.timer + dt <= i64::MAX,
    ensures
        ({
            let n = vehicles.len() as int;
            let (after, over) = w.watched(vehicles, rage, dt);
            let high = total_frustration(vehicles) > rage.global_loss_threshold * n;
            let mad = raging(vehicles) * 1_000_000 >= rage.mass_rage_fraction * n;
            &&& high && w.timer + dt >= rage.global_loss_duration ==> over is Some
                && over->Some_0.reason == GameOverReason::AverageFrustration
            &&& high && w.timer + dt < rage.global_loss_duration ==> over is None && after.timer
                == w.timer + dt
            &&& !high && mad ==> over is Some && over->Some_0.reason
                == GameOverReason::MassRage
            &&& !high && !mad ==> over is None && after.timer == 0
        }),
{
}

/// Without vehicles the game goes on.
pub proof fn law_empty_roads_go_on(w: GameWatch, rage: RageConfig, dt: i64)
    ensures
        w.watched(Seq::empty(), rage, dt) == (w, None::<GameOver>),
{
}

/// The lane changes of all vehicles that make one are carried out, and no others.
pub proof fn law_changes_complete(vehicles: Seq<Vehicle>, map: MapData, n: int, i: int)
    requires
        0 <= i < n <= vehicles.len(),
    ensures
        change_of(vehicles[i], vehicles, map) matches Some(l) ==> lane_changes(
            vehicles,
            map,
            n,
        ).contains((vehicles[i].id, l)),
        forall|k: int|
            0 <= k < lane_changes(vehicles, map, n).len() ==> exists|j: int|
                0 <= j < n && (#[trigger] lane_changes(vehicles, map, n)[k]).0 == (
                #[trigger] vehicles[j]).id && change_of(vehicles[j], vehicles, map) == Some(
                    lane_changes(vehicles, map, n)[k].1,
                ),
    decreases n,
{
    let before = lane_changes(vehicles, map, n - 1);
    let now = lane_changes(vehicles, map, n);
    let made = change_of(vehicles[i], vehicles, map);
    if i < n - 1 {
        law_changes_complete(vehicles, map, n - 1, i);
        if made is Some {
            let p = (vehicles[i].id, made->Some_0);
            let k = choose|k: int| 0 <= k < before.len() && before[k] == p;
            assert(now[k] == p);
        }
    } else {
        if n > 1 {
            law_changes_complete(vehicles, map, n - 1, 0);
        }
        if made is Some {
            assert(now[before.len() as int] == (vehicles[i].id, made->Some_0));
        }
    }
    assert forall|k: int| 0 <= k < now.len() implies exists|j: int|
        0 <= j < n && (#[trigger] now[k]).0 == (#[trigger] vehicles[j]).id && change_of(
            vehicles[j],
            vehicles,
            map,
        ) == Some(now[k].1) by {
        if k < before.len() {
            assert(now[k] == before[k]);
            let j = choose|j: int|
                0 <= j < n - 1 && before[k].0 == (#[trigger] vehicles[j]).id && change_of(
                    vehicles[j],
                    vehicles,
                    map,
                ) == Some(before[k].1);
            assert(now[k].0 == vehicles[j].id);
        } else {
            assert(now[k].0 == vehicles[n - 1].id);
        }
    }
}

/// Whoever has left is told of, and nobody else.
pub proof fn law_who_has_left(vehicles: Seq<Vehicle>, n: int, id: u32)
    requires
        0 <= n <= vehicles.len(),
    ensures
        left_ids(vehicles, n).contains(id) <==> exists|i: int|
            0 <= i < n && (#[trigger] vehicles[i]).despawned && vehicles[i].id == id,
    decreases n,
{
    if n > 0 {
        law_who_has_left(vehicles, n - 1, id);
        let before = left_ids(vehicles, n - 1);
        let now = left_ids(vehicles, n);
        if before.contains(id) {
            let k = choose|k: int| 0 <= k < before.len() && before[k] == id;
            assert(now[k] == id);
        }
        if vehicles[n - 1].despawned {
            assert(now[before.len() as int] == vehicles[n - 1].id);
        }
        if now.contains(id) {
            let k = choose|k: int| 0 <= k < now.len() && now[k] == id;
            if k < before.len() {
                assert(before[k] == id);
            } else {
                assert(vehicles[n - 1].despawned && vehicles[n - 1].id == id);
            }
        }
    }
}

/// A signal command changes what it names and nothing else, and no phase is set shorter than the
/// shortest.
pub proof fn law_signal_commands(
    l: TrafficLight,
    intersection_id: u64,
    green: i64,
    red: i64,
    phase: u8,
    mode: crate::state::LightControlMode,
)
    ensures
        ({
            let a = light_after(SimCommand::SetLightDurations { intersection_id, green, red }, l);
            &&& a.green_duration >= MIN_PHASE && a.red_duration >= MIN_PHASE
            &&& green >= MIN_PHASE ==> a.green_duration == green
            &&& red >= MIN_PHASE ==> a.red_duration == red
            &&& a.current_phase == l.current_phase && a.mode == l.mode && a.phase_timer
                == l.phase_timer
        }),
        ({
            let a = light_after(SimCommand::SetLightPhase { intersection_id, phase }, l);
            &&& a.phase_timer == 0
            &&& a.current_phase == LightPhase::of_code(phase)
            &&& a.green_duration == l.green_duration && a.red_duration == l.red_duration && a.mode
                == l.mode
        }),
        ({
            let a = light_after(SimCommand::SetLightMode { intersection_id, mode }, l);
            &&& a.mode == mode
            &&& a.current_phase == l.current_phase && a.phase_timer == l.phase_timer
                && a.green_duration == l.green_duration && a.red_duration == l.red_duration
        }),
{
}

/// A vehicle waits at the junction that its edge leads to: slowly, within two metres of the stop line and
/// for another vehicle; who drives or turns does not wait.
pub proof fn law_who_waits(
    v: Vehicle,
    map: MapData,
    vehicles: Seq<Vehicle>,
    lights: IntersectionManager,
    sys: ConflictSystem,
)
    ensures
        waits_at(v, map, vehicles, lights, sys) matches Some(node) ==> v.edge() is Some && node
            == map.graph.ends()[v.edge()->Some_0 as int].1 as usize && v.speed < 350_000
            && stop_line_distance(v, to_end(v, map, v.edge()->Some_0)) <= 2_000_000,
        v.on_turn_connector ==> waits_at(v, map, vehicles, lights, sys) is None,
        v.speed >= 350_000 ==> waits_at(v, map, vehicles, lights, sys) is None,
        v.route_pos + 1 >= v.route@.len() ==> waits_at(v, map, vehicles, lights, sys) is None,
{
}

/// Leaders are compared for slow vehicles that are no trams, and they mismatch where a vehicle brakes for
/// another one than the one ahead on its lane.
pub proof fn law_leaders_are_compared(scene: Scene<'_>, step: IdmStepResult, i: int)
    ensures
        ({
            let v = scene.vehicles@[i];
            let e = leader_entry(scene, step, i);
            &&& e is Some <==> v.edge() is Some && v.vehicle_type != VehicleType::Tram && v.speed
                <= 3_500_000
            &&& e is Some ==> e->Some_0.vehicle_id == v.id
            &&& e is Some && step.obstacle.kind == ObstacleKind::Vehicle
                ==> e->Some_0.idm_leader_vehicle_id == step.obstacle.leader_vehicle_id
            &&& e is Some && e->Some_0.sensor_mismatch ==> e->Some_0.idm_leader_vehicle_id
                != e->Some_0.lane_leader_vehicle_id && step.obstacle.kind == ObstacleKind::Vehicle
            &&& e is Some && step.obstacle.kind == ObstacleKind::Vehicle && !v.on_turn_connector
                && e->Some_0.idm_leader_vehicle_id != e->Some_0.lane_leader_vehicle_id
                ==> e->Some_0.sensor_mismatch
        }),
{
}

/// Whatever change is made is the one that the driver decided on, and on a lane of the edge every such
/// change is made.
pub proof fn law_decided_changes(v: Vehicle, vehicles: Seq<Vehicle>, map: MapData, e: usize)
    requires
        v.edge() == Some(e),
        e < map.edges@.len(),
    ensures
        change_of(v, vehicles, map) is Some ==> change_of(v, vehicles, map) == lane_change(
            v,
            map.edges@[e as int],
            e,
            vehicles,
        ),
        v.current_lane < map.edges@[e as int].lanes ==> change_of(v, vehicles, map) == lane_change(
            v,
            map.edges@[e as int],
            e,
            vehicles,
        ),
{
}

} // verus!
