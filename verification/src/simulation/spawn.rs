//! New vehicles.

use rand::rngs::StdRng;
use vstd::prelude::*;

use crate::map::building::OdBuilding;
use crate::map::map_data::MapData;
use crate::map::topology::is_walk;
use crate::simulation::lane_change::{compute_vehicle_target_lane, wanted_lane};
use crate::simulation::od_model::{OdModel, TripKind};
use crate::simulation::pathfinding::{edge_costs, edges_along, find_path, REF_SPEED};
use crate::simulation::route::{build_lane_route_from_edge_route, lanes_along};
use crate::simulation::speed_config::SpeedConfig;
use crate::units::{between, clamp_to, saturate, saturated, scale, scaled, smaller};
use crate::util::random::{draw_below, draw_chance, draw_roll, fresh_generator, ROLLS};
use crate::vehicles::driver::DriverProfile;
use crate::vehicles::types::VehicleType;
use crate::vehicles::vehicle::Vehicle;

verus! {

/// How many vehicles there are at most if nothing else is set.
pub const DEFAULT_MAX_VEHICLES: usize = 30;

/// Rolls below this make transit trips: a quarter.
pub const TRANSIT_ROLLS: u32 = 4_194_304;

/// Rolls below this make transit or external trips: two fifths.
pub const EXTERNAL_ROLLS: u32 = 6_710_887;

/// Rolls below this mean the most usual kind: seven tenths.
pub const USUAL_ROLLS: u32 = 11_744_051;

/// Rolls below this mean at most the second kind: 85 in a hundred.
pub const SECOND_ROLLS: u32 = 14_260_634;

/// Rolls below this mean at most the third kind: 95 in a hundred.
pub const THIRD_ROLLS: u32 = 15_938_355;

/// Speed of a new vehicle.
pub const START_SPEED: i64 = 2_000_000;

/// The kind of driver for a roll.
pub open spec fn profile_of(roll: u32) -> DriverProfile {
    if roll < USUAL_ROLLS {
        DriverProfile::Normal
    } else if roll < SECOND_ROLLS {
        DriverProfile::Sunday
    } else if roll < THIRD_ROLLS {
        DriverProfile::Pirat
    } else {
        DriverProfile::Cautious
    }
}

/// The kind of driver for a roll.
pub fn profile_for_roll(roll: u32) -> (r: DriverProfile)
    ensures
        r == profile_of(roll),
{
    if roll < USUAL_ROLLS {
        DriverProfile::Normal
    } else if roll < SECOND_ROLLS {
        DriverProfile::Sunday
    } else if roll < THIRD_ROLLS {
        DriverProfile::Pirat
    } else {
        DriverProfile::Cautious
    }
}

/// The kind of vehicle for a roll.
pub open spec fn vehicle_type_of(roll: u32) -> VehicleType {
    if roll < USUAL_ROLLS {
        VehicleType::Car
    } else if roll < SECOND_ROLLS {
        VehicleType::Van
    } else if roll < THIRD_ROLLS {
        VehicleType::Bus
    } else {
        VehicleType::Truck
    }
}

/// The kind of vehicle for a roll.
pub fn vehicle_type_for_roll(roll: u32) -> (r: VehicleType)
    ensures
        r == vehicle_type_of(roll),
{
    if roll < USUAL_ROLLS {
        VehicleType::Car
    } else if roll < SECOND_ROLLS {
        VehicleType::Van
    } else if roll < THIRD_ROLLS {
        VehicleType::Bus
    } else {
        VehicleType::Truck
    }
}

/// A factor with noise, kept in its range.
pub fn sample_compliance(profile: DriverProfile, config: &SpeedConfig, noise: i64) -> (r: i64)
    ensures
        ({
            let range = config.compliance(profile);
            r == between(saturated(range.base + noise), range.min as int, range.max as int)
        }),
{
    let range = config.compliance_for(profile);
    clamp_to(saturate(range.base as i128 + noise as i128), range.min, range.max)
}

/// A preference with noise, kept between shortest and fastest.
pub open spec fn noisy_alpha(base: int, noise: int) -> int {
    between(saturated(base + noise), 0, 1_000_000)
}

/// A preference with noise, kept between shortest and fastest.
pub fn route_alpha_from(base: i64, noise: i64) -> (r: i64)
    ensures
        r == noisy_alpha(base as int, noise as int),
        0 <= r <= 1_000_000,
{
    clamp_to(saturate(base as i128 + noise as i128), 0, 1_000_000)
}

/// A preference drawn from the range of a kind of driver, with noise, kept between shortest and
/// fastest.
pub fn sample_route_alpha(
    profile: DriverProfile,
    config: &SpeedConfig,
    noise: i64,
    rng: &mut StdRng,
) -> (r: i64)
    requires
        config.alpha_range(profile).0 <= config.alpha_range(profile).1,
    ensures
        exists|base: int|
            config.alpha_range(profile).0 <= base <= config.alpha_range(profile).1 && r
                == #[trigger] noisy_alpha(base, noise as int),
        0 <= r <= 1_000_000,
{
    let (lo, hi): (i64, i64) = config.route_alpha_range(profile);
    let span: i128 = hi as i128 - lo as i128 + 1;
    let places: usize = if span <= usize::MAX as i128 {
        span as usize
    } else {
        usize::MAX
    };
    let base: i64 = (lo as i128 + draw_below(rng, places) as i128) as i64;
    route_alpha_from(base, noise)
}

/// Where new vehicles come from and go to, and how many there are.
pub struct SpawnSystem {
    pub spawn_points: Vec<usize>,
    pub boundary_nodes: Vec<usize>,
    /// Vehicles per second, in millionths.
    pub base_rate: i64,
    /// Parts of vehicles that are due, in millionths.
    pub accumulator: i64,
    pub rng: StdRng,
    pub next_id: u32,
    pub speed_config: SpeedConfig,
    pub max_vehicles: usize,
    /// Whether all vehicles are cars.
    pub sandbox_mode: bool,
}

/// A trip that has been drawn, with the vehicle and driver for it and, for each node, at what the rest
/// of the way is estimated.
pub struct TripDraw {
    pub trip: (usize, usize, TripKind),
    pub vehicle_type: VehicleType,
    pub profile: DriverProfile,
    pub compliance: i64,
    pub alpha: i64,
    pub estimates: Vec<u64>,
}

impl TripDraw {
    /// Whether the trip leads to another node and there is a way to it.
    pub open spec fn has_way(self, map: MapData) -> bool {
        self.trip.0 != self.trip.1 && exists|w: Seq<int>| #[trigger]
            is_walk(map.graph.ends(), w, self.trip.0 as int, self.trip.1 as int)
    }
}

/// The drawn trips that have a way, in their order.
pub open spec fn with_way(map: MapData, drawn: Seq<TripDraw>) -> Seq<TripDraw>
    decreases drawn.len(),
{
    if drawn.len() == 0 {
        Seq::empty()
    } else {
        let before = with_way(map, drawn.drop_last());
        if drawn.last().has_way(map) {
            before.push(drawn.last())
        } else {
            before
        }
    }
}

/// Two places among `n`, the second moved on by one where it is the first.
pub open spec fn two_places(n: int, fi: int, ti: int) -> (int, int) {
    (
        fi,
        if ti == fi {
            (ti + 1) % n
        } else {
            ti
        },
    )
}

/// The trip between two boundary nodes.
pub open spec fn boundary_pair(
    boundary: Seq<usize>,
    fi: int,
    ti: int,
    kind: TripKind,
) -> (usize, usize, TripKind) {
    let p = two_places(boundary.len() as int, fi, ti);
    (boundary[p.0], boundary[p.1], kind)
}

/// The trip between two boundary nodes; the second is moved on by one where both are the same.
pub fn trip_between(boundary: &Vec<usize>, fi: usize, ti: usize, kind: TripKind) -> (r: (
    usize,
    usize,
    TripKind,
))
    requires
        boundary@.len() >= 2,
        fi < boundary@.len(),
        ti < boundary@.len(),
    ensures
        r == boundary_pair(boundary@, fi as int, ti as int, kind),
{
    let n: usize = boundary.len();
    let to: usize = if ti == fi {
        if ti + 1 == n {
            0
        } else {
            ti + 1
        }
    } else {
        ti
    };
    proof {
        if ti == fi {
            let m = n as int;
            let t = ti as int;
            assert(t + 1 == m ==> (t + 1) % m == 0) by (nonlinear_arith)
                requires
                    m > 0,
            ;
            assert(t + 1 < m ==> (t + 1) % m == t + 1) by (nonlinear_arith)
                requires
                    m > 0,
                    t >= 0,
            ;
        }
    }
    (boundary[fi], boundary[to], kind)
}

/// The node by which the `k`-th building that can be reached is reached.
pub open spec fn nth_access(buildings: Seq<OdBuilding>, k: int) -> Option<usize>
    decreases buildings.len(),
{
    if buildings.len() == 0 {
        None
    } else if buildings[0].access_node is Some {
        if k == 0 {
            buildings[0].access_node
        } else {
            nth_access(buildings.skip(1), k - 1)
        }
    } else {
        nth_access(buildings.skip(1), k)
    }
}

/// The node by which the `k`-th building that can be reached is reached.
pub fn find_nth_access(buildings: &Vec<OdBuilding>, k: usize) -> (r: Option<usize>)
    ensures
        r == nth_access(buildings@, k as int),
{
    let mut left: usize = k;
    let mut i: usize = 0;
    assert(buildings@.skip(0) =~= buildings@);
    while i < buildings.len()
        invariant
            i <= buildings@.len(),
            nth_access(buildings@, k as int) == nth_access(
                buildings@.skip(i as int),
                left as int,
            ),
        decreases buildings.len() - i,
    {
        assert(buildings@.skip(i as int)[0] == buildings@[i as int]);
        assert(buildings@.skip(i as int).skip(1) =~= buildings@.skip(i + 1));
        match buildings[i].access_node {
            Some(n) => {
                if left == 0 {
                    return Some(n);
                }
                left = left - 1;
            },
            None => {},
        }
        i = i + 1;
    }
    None
}

/// The trip between the boundary and a building: inwards it leads to the `k`-th building that can
/// be reached, and there is none without it; outwards it starts there, or at the boundary without
/// it.
pub open spec fn external_pair(
    boundary: usize,
    buildings: Seq<OdBuilding>,
    inbound: bool,
    k: int,
) -> Option<(usize, usize, TripKind)> {
    match (inbound, nth_access(buildings, k)) {
        (true, Some(n)) => Some((boundary, n, TripKind::ExternalInbound)),
        (true, None) => None,
        (false, Some(n)) => Some((n, boundary, TripKind::ExternalOutbound)),
        (false, None) => Some((boundary, boundary, TripKind::ExternalOutbound)),
    }
}

/// The trip between the boundary and a building.
pub fn trip_across(boundary: usize, buildings: &Vec<OdBuilding>, inbound: bool, k: usize) -> (r:
    Option<(usize, usize, TripKind)>)
    ensures
        r == external_pair(boundary, buildings@, inbound, k as int),
{
    match find_nth_access(buildings, k) {
        Some(n) => if inbound {
            Some((boundary, n, TripKind::ExternalInbound))
        } else {
            Some((n, boundary, TripKind::ExternalOutbound))
        },
        None => if inbound {
            None
        } else {
            Some((boundary, boundary, TripKind::ExternalOutbound))
        },
    }
}

/// What is known of a trip after the draws.
#[derive(Clone, Copy, Debug)]
pub enum TripChoice {
    /// No trip.
    Nothing,
    /// A trip between two nodes.
    Nodes { from: usize, to: usize, kind: TripKind },
    /// A trip between two buildings, if they are far enough apart.
    Buildings { origin: usize, destination: usize },
}

/// How many vehicles are due for some parts, in millionths.
pub open spec fn due(parts: int) -> int {
    between(parts / 1_000_000, 0, u32::MAX as int)
}

impl SpawnSystem {
    /// The listed nodes are on the map.
    pub open spec fn wf(&self, map: &MapData) -> bool {
        forall|i: int|
            0 <= i < self.boundary_nodes@.len() ==> #[trigger] self.boundary_nodes@[i]
                < map.nodes@.len()
    }

    /// A system for some nodes: one vehicle per second, none due yet.
    pub fn new(
        spawn_points: Vec<usize>,
        boundary_nodes: Vec<usize>,
        speed_config: SpeedConfig,
        sandbox_mode: bool,
    ) -> (r: SpawnSystem)
        ensures
            r.spawn_points@ == spawn_points@,
            r.boundary_nodes@ == boundary_nodes@,
            r.base_rate == 1_000_000,
            r.accumulator == 0,
            r.next_id == 1,
            r.speed_config == speed_config,
            r.max_vehicles == DEFAULT_MAX_VEHICLES,
            r.sandbox_mode == sandbox_mode,
    {
        SpawnSystem {
            spawn_points,
            boundary_nodes,
            base_rate: 1_000_000,
            accumulator: 0,
            rng: fresh_generator(),
            next_id: 1,
            speed_config,
            max_vehicles: DEFAULT_MAX_VEHICLES,
            sandbox_mode,
        }
    }

    /// Everything but the generator is as in `other`.
    pub open spec fn same_but_rng(&self, other: &SpawnSystem) -> bool {
        &&& self.spawn_points@ == other.spawn_points@
        &&& self.boundary_nodes@ == other.boundary_nodes@
        &&& self.base_rate == other.base_rate
        &&& self.accumulator == other.accumulator
        &&& self.next_id == other.next_id
        &&& self.speed_config == other.speed_config
        &&& self.max_vehicles == other.max_vehicles
        &&& self.sandbox_mode == other.sandbox_mode
    }

    /// Sets how fast drivers go.
    pub fn set_speed_config(&mut self, cfg: SpeedConfig)
        ensures
            *final(self) == (SpawnSystem { speed_config: cfg, ..*old(self) }),
    {
        self.speed_config = cfg;
    }

    /// The parts of vehicles that are due after some time.
    pub open spec fn parts_after(&self, dt: i64, multiplier: i64) -> int {
        saturated(
            self.accumulator + saturated(
                scaled(saturated(scaled(self.base_rate as int, multiplier as int)), dt as int),
            ),
        )
    }

    /// How many vehicles are to be made after some time: as many as are due, but not more than
    /// there is room for. What is due is used up even where there is no room for it; while there
    /// are as many vehicles as there may be, nothing becomes due.
    pub fn tick(&mut self, dt: i64, multiplier: i64, current_vehicle_count: usize) -> (r: u32)
        ensures
            current_vehicle_count >= old(self).max_vehicles ==> r == 0 && *final(self) == *old(self),
            current_vehicle_count < old(self).max_vehicles ==> {
                let parts = old(self).parts_after(dt, multiplier);
                let room = ((old(self).max_vehicles - current_vehicle_count) as usize) as u32;
                &&& r == smaller(due(parts), room as int)
                &&& *final(self) == (SpawnSystem {
                    accumulator: saturated(parts - due(parts) * 1_000_000) as i64,
                    ..*old(self)
                })
            },
    {
        if current_vehicle_count >= self.max_vehicles {
            return 0;
        }
        let grown: i64 = scale(scale(self.base_rate, multiplier), dt);
        let parts: i64 = saturate(self.accumulator as i128 + grown as i128);
        let whole: i64 = clamp_to(
            crate::units::floor_div(parts as i128, 1_000_000) as i64,
            0,
            u32::MAX as i64,
        );
        self.accumulator = saturate(parts as i128 - whole as i128 * 1_000_000);
        let room: u32 = (self.max_vehicles - current_vehicle_count) as u32;
        if whole as u32 <= room {
            whole as u32
        } else {
            room
        }
    }

    /// A kind of vehicle by chance; in the sandbox always a car.
    pub fn random_vehicle_type(&mut self) -> (r: VehicleType)
        ensures
            final(self).same_but_rng(old(self)),
            if old(self).sandbox_mode {
                r == VehicleType::Car
            } else {
                exists|roll: u32| roll < ROLLS && r == #[trigger] vehicle_type_of(roll)
            },
    {
        if self.sandbox_mode {
            return VehicleType::Car;
        }
        let roll: u32 = draw_roll(&mut self.rng);
        vehicle_type_for_roll(roll)
    }

    /// A kind of driver by chance.
    pub fn random_driver_profile(&mut self) -> (r: DriverProfile)
        ensures
            final(self).same_but_rng(old(self)),
            exists|roll: u32| roll < ROLLS && r == #[trigger] profile_of(roll),
    {
        let roll: u32 = draw_roll(&mut self.rng);
        profile_for_roll(roll)
    }

    /// Whether a trip leads between two of the boundary nodes, drawn at different places.
    pub open spec fn is_boundary_trip(&self, t: (usize, usize, TripKind), kind: TripKind) -> bool {
        exists|fi: int, ti: int|
            0 <= fi < self.boundary_nodes@.len() && 0 <= ti < self.boundary_nodes@.len() && t
                == #[trigger] boundary_pair(self.boundary_nodes@, fi, ti, kind)
    }

    /// A trip between two boundary nodes by chance, where there are two.
    pub fn random_od(&mut self, map: &MapData) -> (r: Option<(usize, usize, TripKind)>)
        requires
            old(self).wf(map),
        ensures
            final(self).same_but_rng(old(self)),
            r is None <==> old(self).boundary_nodes@.len() < 2,
            r matches Some(t) ==> old(self).is_boundary_trip(t, TripKind::LocalOD),
    {
        let n: usize = self.boundary_nodes.len();
        if n < 2 {
            return None;
        }
        let fi: usize = draw_below(&mut self.rng, n);
        let ti: usize = draw_below(&mut self.rng, n);
        Some(trip_between(&self.boundary_nodes, fi, ti, TripKind::LocalOD))
    }

    /// A transit trip by chance, where there are two boundary nodes.
    pub fn transit_od(&mut self, map: &MapData) -> (r: Option<(usize, usize, TripKind)>)
        requires
            old(self).wf(map),
        ensures
            final(self).same_but_rng(old(self)),
            r is None <==> old(self).boundary_nodes@.len() < 2,
            r matches Some(t) ==> old(self).is_boundary_trip(t, TripKind::Transit),
    {
        let n: usize = self.boundary_nodes.len();
        if n < 2 {
            return None;
        }
        let fi: usize = draw_below(&mut self.rng, n);
        let ti: usize = draw_below(&mut self.rng, n);
        Some(trip_between(&self.boundary_nodes, fi, ti, TripKind::Transit))
    }

    /// Whether `r` is a trip between the boundary and a building, or, without buildings, between
    /// boundary nodes.
    pub open spec fn is_external(
        &self,
        od: &OdModel,
        r: Option<(usize, usize, TripKind)>,
    ) -> bool {
        let n = self.boundary_nodes@.len();
        if n == 0 {
            r is None
        } else if od.any_accessible@.len() > 0 {
            exists|bi: int, inbound: bool, k: int|
                0 <= bi < n && 0 <= k && (od.buildings@.len() > 0 ==> k < od.buildings@.len()) && r
                    == #[trigger] external_pair(
                    self.boundary_nodes@[bi],
                    od.buildings@,
                    inbound,
                    k,
                )
        } else {
            r is Some && r->Some_0.2 == TripKind::ExternalOutbound && self.boundary_nodes@.contains(
                r->Some_0.0,
            ) && self.boundary_nodes@.contains(r->Some_0.1)
        }
    }

    /// A trip into or out of the map by chance, where there is a boundary node.
    pub fn external_od(&mut self, od: &OdModel) -> (r: Option<(usize, usize, TripKind)>)
        ensures
            final(self).same_but_rng(old(self)),
            old(self).is_external(od, r),
    {
        let n: usize = self.boundary_nodes.len();
        if n == 0 {
            return None;
        }
        let bi: usize = draw_below(&mut self.rng, n);
        let boundary: usize = self.boundary_nodes[bi];
        if !od.is_empty() {
            let inbound: bool = draw_chance(&mut self.rng, 1, 2);
            let k: usize = if od.buildings.len() > 0 {
                draw_below(&mut self.rng, od.buildings.len())
            } else {
                0
            };
            let r = trip_across(boundary, &od.buildings, inbound, k);
            assert(r == external_pair(
                self.boundary_nodes@[bi as int],
                od.buildings@,
                inbound,
                k as int,
            ));
            r
        } else {
            let oi: usize = draw_below(&mut self.rng, n);
            let origin: usize = self.boundary_nodes[oi];
            assert(self.boundary_nodes@.contains(self.boundary_nodes@[oi as int]));
            assert(self.boundary_nodes@.contains(self.boundary_nodes@[bi as int]));
            Some((origin, boundary, TripKind::ExternalOutbound))
        }
    }

    /// Whether `r` is what may come of the draws for a trip: a transit trip, one into or out of the
    /// map, one between buildings, or, without buildings, one between boundary nodes.
    pub open spec fn may_choose(&self, od: &OdModel, hour: i64, r: TripChoice) -> bool {
        match r {
            TripChoice::Nothing => self.boundary_nodes@.len() < 2 || self.is_external(od, None),
            TripChoice::Nodes { from, to, kind } => {
                ||| self.is_boundary_trip((from, to, kind), TripKind::Transit)
                ||| self.is_external(od, Some((from, to, kind)))
                ||| od.any_accessible@.len() == 0 && self.is_boundary_trip(
                    (from, to, kind),
                    TripKind::LocalOD,
                )
            },
            TripChoice::Buildings { origin, destination } => od.any_accessible@.len() > 0
                && od.may_draw(hour, origin, destination),
        }
    }

    /// Draws a trip: a quarter are transit, fifteen in a hundred lead into or out of the map, the
    /// others are between buildings.
    pub fn choose_trip(&mut self, map: &MapData, od: &OdModel, hour: i64) -> (r: TripChoice)
        requires
            old(self).wf(map),
            od.wf(),
        ensures
            final(self).same_but_rng(old(self)),
            old(self).may_choose(od, hour, r),
    {
        let roll: u32 = draw_roll(&mut self.rng);
        self.choose_trip_for_roll(map, od, hour, roll)
    }

    /// Draws a trip of the kind that a roll decides.
    pub fn choose_trip_for_roll(
        &mut self,
        map: &MapData,
        od: &OdModel,
        hour: i64,
        roll: u32,
    ) -> (r: TripChoice)
        requires
            old(self).wf(map),
            od.wf(),
        ensures
            final(self).same_but_rng(old(self)),
            old(self).may_choose(od, hour, r),
            roll < TRANSIT_ROLLS ==> match r {
                TripChoice::Nothing => old(self).boundary_nodes@.len() < 2,
                TripChoice::Nodes { from, to, kind } => old(self).is_boundary_trip(
                    (from, to, kind),
                    TripKind::Transit,
                ),
                TripChoice::Buildings { .. } => false,
            },
            TRANSIT_ROLLS <= roll < EXTERNAL_ROLLS ==> match r {
                TripChoice::Nothing => old(self).is_external(od, None),
                TripChoice::Nodes { from, to, kind } => old(self).is_external(
                    od,
                    Some((from, to, kind)),
                ),
                TripChoice::Buildings { .. } => false,
            },
            roll >= EXTERNAL_ROLLS ==> match r {
                TripChoice::Nothing => od.any_accessible@.len() == 0
                    && old(self).boundary_nodes@.len() < 2,
                TripChoice::Nodes { from, to, kind } => od.any_accessible@.len() == 0
                    && old(self).is_boundary_trip((from, to, kind), TripKind::LocalOD),
                TripChoice::Buildings { origin, destination } => od.any_accessible@.len() > 0
                    && od.may_draw(hour, origin, destination),
            },
    {
        if roll < TRANSIT_ROLLS {
            return match self.transit_od(map) {
                Some((from, to, kind)) => TripChoice::Nodes { from, to, kind },
                None => TripChoice::Nothing,
            };
        }
        if roll < EXTERNAL_ROLLS {
            return match self.external_od(od) {
                Some((from, to, kind)) => TripChoice::Nodes { from, to, kind },
                None => TripChoice::Nothing,
            };
        }
        match od.draw_od_buildings(hour, &mut self.rng) {
            Some((origin, destination)) => TripChoice::Buildings { origin, destination },
            None => match self.random_od(map) {
                Some((from, to, kind)) => TripChoice::Nodes { from, to, kind },
                None => TripChoice::Nothing,
            },
        }
    }

    /// The trip between two buildings that are `distance` apart, or else one between boundary
    /// nodes.
    pub fn settle_trip(
        &mut self,
        map: &MapData,
        od: &OdModel,
        origin: usize,
        destination: usize,
        distance: i64,
    ) -> (r: Option<(usize, usize, TripKind)>)
        requires
            old(self).wf(map),
            origin < od.buildings@.len(),
            destination < od.buildings@.len(),
        ensures
            final(self).same_but_rng(old(self)),
            od.pair_of(origin, destination, distance as int) is Some ==> r == od.pair_of(
                origin,
                destination,
                distance as int,
            ),
            od.pair_of(origin, destination, distance as int) is None ==> {
                &&& r is None <==> old(self).boundary_nodes@.len() < 2
                &&& r matches Some(t) ==> old(self).is_boundary_trip(t, TripKind::LocalOD)
            },
    {
        match od.generate_od_pair(origin, destination, distance) {
            Some(t) => Some(t),
            None => self.random_od(map),
        }
    }

    /// `v` is a vehicle on a new route: in the lane it wants, with its lane route, slowly moving.
    pub open spec fn made(
        &self,
        map: MapData,
        from: usize,
        kind: TripKind,
        route: Seq<usize>,
        vehicle_type: VehicleType,
        profile: DriverProfile,
        compliance: i64,
        alpha: i64,
        v: Vehicle,
    ) -> bool {
        let node = map.nodes@[from as int];
        exists|a: Vehicle|
            {
                let lane = wanted_lane(a, map);
                let lanes = lanes_along(map, route, lane);
                &&& #[trigger] a.starts(
                    self.next_id,
                    node.lat,
                    node.lng,
                    vehicle_type,
                    profile,
                    route,
                    compliance,
                    alpha,
                    kind.code(),
                )
                &&& v.lane_route@ == lanes
                &&& v == (Vehicle {
                    target_lane: lane,
                    current_lane: lane,
                    current_lateral_offset: (lane * 1_000_000) as i64,
                    target_lateral_offset: (lane * 1_000_000) as i64,
                    current_lane_id: if lanes.len() > 0 {
                        Some(lanes[0])
                    } else {
                        None
                    },
                    lane_route: v.lane_route,
                    lane_route_pos: 0,
                    lane_progress: 0,
                    speed: START_SPEED,
                    ..a
                })
            }
    }

    /// `v` is a vehicle of this system for a trip along the route that is found for it.
    pub open spec fn made_on_way(
        self,
        map: MapData,
        trip: (usize, usize, TripKind),
        route: Seq<usize>,
        estimates: Seq<u64>,
        vehicle_type: VehicleType,
        profile: DriverProfile,
        compliance: i64,
        alpha: i64,
        v: Vehicle,
    ) -> bool {
        let costs = edge_costs(map.edges@, alpha, REF_SPEED);
        &&& map.graph.path_nodes(trip.0 as int, trip.1 as int, costs, estimates) is Some
        &&& route.map_values(|e: usize| e as int) == edges_along(
            map.graph,
            costs,
            map.graph.path_nodes(trip.0 as int, trip.1 as int, costs, estimates)->Some_0,
        )
        &&& self.made(
            map,
            trip.0,
            trip.2,
            route,
            vehicle_type,
            profile,
            compliance,
            alpha,
            v,
        )
    }

    /// A vehicle for a trip, where its ends differ and there is a way between them; it takes the
    /// route that is found for its preference.
    pub fn spawn_one(
        &mut self,
        map: &MapData,
        trip: (usize, usize, TripKind),
        vehicle_type: VehicleType,
        profile: DriverProfile,
        compliance: i64,
        alpha: i64,
        estimates: &Vec<u64>,
    ) -> (r: Option<Vehicle>)
        requires
            map.wf(),
            trip.0 < map.nodes@.len(),
            trip.1 < map.nodes@.len(),
            estimates@.len() == map.nodes@.len(),
        ensures
            r is None <==> trip.0 == trip.1 || forall|w: Seq<int>|
                !#[trigger] is_walk(map.graph.ends(), w, trip.0 as int, trip.1 as int),
            r is None ==> *final(self) == *old(self),
            r is Some ==> *final(self) == (SpawnSystem {
                next_id: old(self).next_id.wrapping_add(1),
                ..*old(self)
            }),
            r is Some ==> exists|route: Seq<usize>| #[trigger]
                old(self).made_on_way(
                    *map,
                    trip,
                    route,
                    estimates@,
                    vehicle_type,
                    profile,
                    compliance,
                    alpha,
                    r->Some_0,
                ),
    {
        if trip.0 == trip.1 {
            return None;
        }
        match find_path(map, trip.0, trip.1, alpha, REF_SPEED, estimates) {
            Some(route) => {
                let ghost edges = route@;
                proof {
                    if edges.len() == 0 {
                        assert(is_walk(
                            map.graph.ends(),
                            edges.map_values(|e: usize| e as int),
                            trip.0 as int,
                            trip.1 as int,
                        ));
                    }
                }
                let r = self.spawn_vehicle(
                    map,
                    trip,
                    route,
                    vehicle_type,
                    profile,
                    compliance,
                    alpha,
                );
                proof {
                    assert(old(self).made_on_way(
                        *map,
                        trip,
                        edges,
                        estimates@,
                        vehicle_type,
                        profile,
                        compliance,
                        alpha,
                        r->Some_0,
                    ));
                    assert(is_walk(
                        map.graph.ends(),
                        edges.map_values(|e: usize| e as int),
                        trip.0 as int,
                        trip.1 as int,
                    ));
                }
                r
            },
            None => None,
        }
    }

    /// `v` is the vehicle for a drawn trip, along the route that is found for it.
    pub open spec fn made_for(self, map: MapData, d: TripDraw, v: Vehicle) -> bool {
        exists|route: Seq<usize>| #[trigger]
            self.made_on_way(
                map,
                d.trip,
                route,
                d.estimates@,
                d.vehicle_type,
                d.profile,
                d.compliance,
                d.alpha,
                v,
            )
    }

    /// The system after it has made `n` vehicles: ids start over after the last.
    pub open spec fn after_making(self, n: int) -> SpawnSystem {
        SpawnSystem { next_id: ((self.next_id + n) % 0x1_0000_0000) as u32, ..self }
    }

    /// The vehicles for some drawn trips, in their order; trips without a way between two different
    /// ends get none.
    pub fn spawn_drawn(&mut self, map: &MapData, drawn: &Vec<TripDraw>) -> (r: Vec<Vehicle>)
        requires
            map.wf(),
            forall|i: int|
                0 <= i < drawn@.len() ==> (#[trigger] drawn@[i]).trip.0 < map.nodes@.len()
                    && drawn@[i].trip.1 < map.nodes@.len() && drawn@[i].estimates@.len()
                    == map.nodes@.len(),
        ensures
            r@.len() == with_way(*map, drawn@).len(),
            forall|i: int|
                0 <= i < r@.len() ==> old(self).after_making(i).made_for(
                    *map,
                    with_way(*map, drawn@)[i],
                    #[trigger] r@[i],
                ),
            *final(self) == old(self).after_making(r@.len() as int),
    {
        let mut out: Vec<Vehicle> = Vec::new();
        let mut k: usize = 0;
        assert(drawn@.take(0) =~= Seq::<TripDraw>::empty());
        assert(*self == old(self).after_making(0));
        while k < drawn.len()
            invariant
                k <= drawn@.len(),
                map.wf(),
                forall|i: int|
                    0 <= i < drawn@.len() ==> (#[trigger] drawn@[i]).trip.0 < map.nodes@.len()
                        && drawn@[i].trip.1 < map.nodes@.len() && drawn@[i].estimates@.len()
                        == map.nodes@.len(),
                out@.len() == with_way(*map, drawn@.take(k as int)).len(),
                forall|i: int|
                    0 <= i < out@.len() ==> old(self).after_making(i).made_for(
                        *map,
                        with_way(*map, drawn@.take(k as int))[i],
                        #[trigger] out@[i],
                    ),
                *self == old(self).after_making(out@.len() as int),
            decreases drawn.len() - k,
        {
            let d: &TripDraw = &drawn[k];
            let ghost before = *self;
            let ghost done = with_way(*map, drawn@.take(k as int));
            proof {
                assert(drawn@.take(k + 1).drop_last() =~= drawn@.take(k as int));
                assert(drawn@.take(k + 1).last() == *d);
            }
            let made: Option<Vehicle> = self.spawn_one(
                map,
                d.trip,
                d.vehicle_type,
                d.profile,
                d.compliance,
                d.alpha,
                &d.estimates,
            );
            assert(made is Some <==> d.has_way(*map));
            match made {
                Some(v) => {
                    assert(before.made_for(*map, *d, v));
                    assert(with_way(*map, drawn@.take(k + 1)) == done.push(*d));
                    out.push(v);
                },
                None => {},
            }
            k = k + 1;
        }
        assert(drawn@.take(k as int) =~= drawn@);
        out
    }

    /// A vehicle for a trip, where its ends differ and it has a route. It takes the next id; ids
    /// start over after the last.
    pub fn spawn_vehicle(
        &mut self,
        map: &MapData,
        trip: (usize, usize, TripKind),
        route: Vec<usize>,
        vehicle_type: VehicleType,
        profile: DriverProfile,
        compliance: i64,
        alpha: i64,
    ) -> (r: Option<Vehicle>)
        requires
            map.wf(),
            trip.0 < map.nodes@.len(),
        ensures
            r is None <==> trip.0 == trip.1 || route@.len() == 0,
            r is None ==> *final(self) == *old(self),
            r is Some ==> *final(self) == (SpawnSystem {
                next_id: old(self).next_id.wrapping_add(1),
                ..*old(self)
            }),
            r is Some ==> old(self).made(
                *map,
                trip.0,
                trip.2,
                route@,
                vehicle_type,
                profile,
                compliance,
                alpha,
                r->Some_0,
            ),
    {
        if trip.0 == trip.1 || route.len() == 0 {
            return None;
        }
        let id: u32 = self.next_id;
        self.next_id = self.next_id.wrapping_add(1);
        let mut v = Vehicle::new(
            id,
            map.nodes[trip.0].lat,
            map.nodes[trip.0].lng,
            vehicle_type,
            profile,
            route,
            compliance,
            alpha,
            trip.2.to_u8(),
        );
        let ghost a = v;
        let lane: u8 = compute_vehicle_target_lane(&v, map);
        v.target_lane = lane;
        v.current_lane = lane;
        v.current_lateral_offset = lane as i64 * 1_000_000;
        v.target_lateral_offset = lane as i64 * 1_000_000;
        let lanes: Vec<u64> = build_lane_route_from_edge_route(map, &v.route, lane);
        v.current_lane_id =
        if lanes.len() > 0 {
            Some(lanes[0])
        } else {
            None
        };
        v.lane_route = lanes;
        v.lane_route_pos = 0;
        v.lane_progress = 0;
        v.speed = START_SPEED;
        assert(a.starts(
            id,
            map.nodes@[trip.0 as int].lat,
            map.nodes@[trip.0 as int].lng,
            vehicle_type,
            profile,
            route@,
            compliance,
            alpha,
            trip.2.code(),
        ));
        Some(v)
    }
}

/// Drawing two boundary nodes never gives the same place twice.
pub proof fn law_two_places_differ(n: int, fi: int, ti: int)
    requires
        n >= 2,
        0 <= fi < n,
        0 <= ti < n,
    ensures
        two_places(n, fi, ti).0 != two_places(n, fi, ti).1,
        0 <= two_places(n, fi, ti).1 < n,
{
    if ti == fi {
        assert((ti + 1) % n == if ti + 1 == n {
            0
        } else {
            ti + 1
        }) by (nonlinear_arith)
            requires
                0 <= ti < n,
                n >= 2,
        ;
    }
}

/// Of the rolls a quarter make transit trips and fifteen in a hundred trips into or out of the map.
pub proof fn law_shares_of_trips()
    ensures
        4 * TRANSIT_ROLLS == ROLLS,
        40 * ROLLS <= 100 * EXTERNAL_ROLLS < 40 * ROLLS + 100,
{
}

/// Of the rolls seven in ten give a normal driver and a car, fifteen in a hundred a Sunday driver and a
/// van, one in ten a daredevil and a bus, and the rest a cautious driver and a truck.
pub proof fn law_shares_of_kinds(roll: u32)
    requires
        roll < ROLLS,
    ensures
        ({
            let share = 100 * roll;
            let (d, v) = (profile_of(roll), vehicle_type_of(roll));
            &&& share + 100 <= 70 * ROLLS ==> d == DriverProfile::Normal && v == VehicleType::Car
            &&& 70 * ROLLS <= share && share + 100 <= 85 * ROLLS ==> d == DriverProfile::Sunday && v
                == VehicleType::Van
            &&& 85 * ROLLS <= share && share + 100 <= 95 * ROLLS ==> d == DriverProfile::Pirat && v
                == VehicleType::Bus
            &&& 95 * ROLLS <= share ==> d == DriverProfile::Cautious && v == VehicleType::Truck
        }),
{
}

/// Vehicles become due at the base rate times the traffic of the hour: a whole vehicle each for which
/// enough time has passed, and what is left over is kept.
pub proof fn law_spawn_rate(s: SpawnSystem, dt: i64, multiplier: i64)
    requires
        0 <= s.accumulator < 1_000_000,
        0 <= s.base_rate <= 1_000_000_000,
        0 <= multiplier <= 1_000_000_000,
        0 <= dt <= 1_000_000_000,
    ensures
        ({
            let rate = s.base_rate * multiplier / 1_000_000;
            let parts = s.parts_after(dt, multiplier);
            &&& parts == s.accumulator + rate * dt / 1_000_000
            &&& due(parts) <= u32::MAX
            &&& due(parts) * 1_000_000 <= parts
            &&& due(parts) < u32::MAX ==> parts < (due(parts) + 1) * 1_000_000
        }),
{
    let (b, m, d) = (s.base_rate as int, multiplier as int, dt as int);
    assert(0 <= b * m <= 1_000_000_000_000_000_000) by (nonlinear_arith)
        requires
            0 <= b <= 1_000_000_000,
            0 <= m <= 1_000_000_000,
    ;
    let rate = b * m / 1_000_000;
    assert(0 <= rate * d <= 1_000_000_000_000_000_000_000) by (nonlinear_arith)
        requires
            0 <= rate <= 1_000_000_000_000,
            0 <= d <= 1_000_000_000,
    ;
}

/// A trip into the map leads from its boundary to a building, one out of it from a building to its
/// boundary; without the building there is no trip in, and one out starts at the boundary.
pub proof fn law_trips_across_the_boundary(boundary: usize, buildings: Seq<OdBuilding>, k: int)
    ensures
        ({
            let inward = external_pair(boundary, buildings, true, k);
            let outward = external_pair(boundary, buildings, false, k);
            match nth_access(buildings, k) {
                Some(n) => inward == Some((boundary, n, TripKind::ExternalInbound)) && outward
                    == Some((n, boundary, TripKind::ExternalOutbound)),
                None => inward is None && outward == Some(
                    (boundary, boundary, TripKind::ExternalOutbound),
                ),
            }
        }),
{
}

/// The `k`-th access is that of a building that can be reached, before which `k` others can be.
pub proof fn law_nth_access(buildings: Seq<OdBuilding>, k: int)
    requires
        0 <= k,
    ensures
        match nth_access(buildings, k) {
            Some(n) => exists|i: int|
                0 <= i < buildings.len() && (#[trigger] buildings[i]).access_node == Some(n)
                    && reachable_before(buildings, i) == k,
            None => reachable_before(buildings, buildings.len() as int) <= k,
        },
    decreases buildings.len(),
{
    if buildings.len() > 0 {
        let rest = buildings.skip(1);
        let first: int = if buildings[0].access_node is Some {
            1
        } else {
            0
        };
        assert forall|i: int| 0 <= i <= rest.len() implies #[trigger] reachable_before(
            buildings,
            i + 1,
        ) == reachable_before(rest, i) + first by {
            lemma_reachable_shift(buildings, i);
        }
        if first == 1 && k == 0 {
            assert(buildings[0].access_node is Some);
            assert(reachable_before(buildings, 0) == 0);
        } else {
            law_nth_access(rest, k - first);
            match nth_access(rest, k - first) {
                Some(n) => {
                    let i = choose|i: int|
                        0 <= i < rest.len() && (#[trigger] rest[i]).access_node == Some(n)
                            && reachable_before(rest, i) == k - first;
                    assert(buildings[i + 1] == rest[i]);
                    assert(reachable_before(buildings, i + 1) == k);
                },
                None => {
                    assert(reachable_before(buildings, rest.len() as int + 1) == reachable_before(
                        rest,
                        rest.len() as int,
                    ) + first);
                },
            }
        }
    }
}

/// How many of the first `n` buildings can be reached.
pub open spec fn reachable_before(buildings: Seq<OdBuilding>, n: int) -> int
    decreases n,
{
    if n <= 0 {
        0
    } else if buildings[n - 1].access_node is Some {
        reachable_before(buildings, n - 1) + 1
    } else {
        reachable_before(buildings, n - 1)
    }
}

proof fn lemma_reachable_shift(buildings: Seq<OdBuilding>, i: int)
    requires
        0 <= i < buildings.len(),
    ensures
        reachable_before(buildings, i + 1) == reachable_before(buildings.skip(1), i) + if buildings[0].access_node is Some {
            1int
        } else {
            0
        },
    decreases i,
{
    reveal_with_fuel(reachable_before, 2);
    if i > 0 {
        lemma_reachable_shift(buildings, i - 1);
        assert(buildings.skip(1)[i - 1] == buildings[i]);
    }
}

/// Every drawn trip with a way is made, and none that ends where it starts.
pub proof fn law_trips_with_a_way(map: MapData, drawn: Seq<TripDraw>, i: int)
    requires
        0 <= i < drawn.len(),
    ensures
        drawn[i].has_way(map) ==> with_way(map, drawn).contains(drawn[i]),
        drawn[i].trip.0 == drawn[i].trip.1 ==> !with_way(map, drawn).contains(drawn[i]),
        with_way(map, drawn).len() <= drawn.len(),
    decreases drawn.len(),
{
    let front = drawn.drop_last();
    let before = with_way(map, front);
    let now = with_way(map, drawn);
    lemma_made_have_way(map, drawn);
    if drawn[i].has_way(map) {
        if i < front.len() {
            assert(front[i] == drawn[i]);
            law_trips_with_a_way(map, front, i);
            let k = choose|k: int| 0 <= k < before.len() && before[k] == drawn[i];
            assert(now[k] == drawn[i]);
        } else {
            assert(now[before.len() as int] == drawn[i]);
        }
    }
}

proof fn lemma_made_have_way(map: MapData, drawn: Seq<TripDraw>)
    ensures
        forall|k: int|
            0 <= k < with_way(map, drawn).len() ==> (#[trigger] with_way(map, drawn)[k]).has_way(map),
        with_way(map, drawn).len() <= drawn.len(),
    decreases drawn.len(),
{
    if drawn.len() > 0 {
        lemma_made_have_way(map, drawn.drop_last());
        let before = with_way(map, drawn.drop_last());
        let now = with_way(map, drawn);
        assert forall|k: int| 0 <= k < now.len() implies (#[trigger] now[k]).has_way(map) by {
            if k < before.len() {
                assert(now[k] == before[k]);
            }
        }
    }
}

/// Trips between boundary nodes lead from one of them to another one.
pub proof fn law_boundary_trips_lead_elsewhere(
    boundary: Seq<usize>,
    fi: int,
    ti: int,
    kind: TripKind,
)
    requires
        boundary.len() >= 2,
        boundary.no_duplicates(),
        0 <= fi < boundary.len(),
        0 <= ti < boundary.len(),
    ensures
        ({
            let t = boundary_pair(boundary, fi, ti, kind);
            t.0 != t.1 && boundary.contains(t.0) && boundary.contains(t.1) && t.2 == kind
        }),
{
    let n = boundary.len() as int;
    let p = two_places(n, fi, ti);
    if ti == fi {
        assert(0 <= (ti + 1) % n < n && (ti + 1) % n != ti) by (nonlinear_arith)
            requires
                n >= 2,
                0 <= ti < n,
        ;
    }
    assert(boundary[p.0] != boundary[p.1]);
}

/// A new vehicle starts where its trip does, at a slow speed, on the lane that its route asks for and
/// with the first of its lanes under it.
pub proof fn law_new_vehicles(
    s: SpawnSystem,
    map: MapData,
    from: usize,
    kind: TripKind,
    route: Seq<usize>,
    vehicle_type: VehicleType,
    profile: DriverProfile,
    compliance: i64,
    alpha: i64,
    v: Vehicle,
)
    requires
        s.made(map, from, kind, route, vehicle_type, profile, compliance, alpha, v),
    ensures
        v.id == s.next_id,
        (v.lat, v.lng) == (map.nodes@[from as int].lat, map.nodes@[from as int].lng),
        v.route@ == route && v.route_pos == 0 && v.edge_progress == 0,
        v.vehicle_type == vehicle_type && v.driver_profile == profile,
        v.personal_compliance == compliance && v.route_alpha == alpha && v.trip_kind == kind.code(),
        v.speed == START_SPEED && v.frustration == 0 && v.standstill_time == 0,
        v.current_lane == v.target_lane,
        !v.despawned && !v.on_turn_connector && !v.has_stopped_at_stop_sign,
        v.lane_route_pos == 0 && v.lane_progress == 0,
        v.lane_route@.len() > 0 ==> v.current_lane_id == Some(v.lane_route@[0]),
        v.lane_route@.len() == 0 ==> v.current_lane_id is None,
{
}

/// A noisy preference lies between nothing and one, and is the sum where that does.
pub proof fn law_preferences_are_held(base: i64, noise: i64)
    ensures
        0 <= noisy_alpha(base as int, noise as int) <= 1_000_000,
        0 <= base + noise <= 1_000_000 ==> noisy_alpha(base as int, noise as int) == base + noise,
        base + noise > 1_000_000 ==> noisy_alpha(base as int, noise as int) == 1_000_000,
        base + noise < 0 ==> noisy_alpha(base as int, noise as int) == 0,
{
}

} // verus!
