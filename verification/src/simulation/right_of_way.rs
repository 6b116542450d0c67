//! Who gives way to whom at a junction.

use vstd::prelude::*;

use crate::map::lane_graph::TurnClass;
use crate::map::map_data::MapData;
use crate::map::road_network::{IntersectionType, RoadNode};
use crate::simulation::conflict::ConflictSystem;
use crate::simulation::direction::{
    cosine_above, cosine_at_least, cosine_below_minus, cross_product, ends_of, heading_between,
    is_cosine_above, is_cosine_at_least, is_cosine_below_minus, node_heading, turns_left, Heading,
};
use crate::traffic::intersection::IntersectionManager;
use crate::units::{larger, max_of, plane, remaining, remaining_length, saturated, to_plane};
use crate::vehicles::vehicle::Vehicle;

verus! {

/// What a vehicle does at a junction.
#[derive(Clone, Copy, Debug, PartialEq, Eq, Structural)]
pub enum TurnIntent {
    Straight,
    Left,
    Right,
    UTurn,
}

/// How a junction is controlled.
#[derive(Clone, Copy, Debug, PartialEq, Eq, Structural)]
pub enum IntersectionControl {
    Lights,
    Signs,
    Uncontrolled,
}

/// Below this angle a turn counts as straight on: the square of the cosine of a quarter of a
/// radian, in millionths.
pub const STRAIGHT_COSINE_SQUARE: u32 = 938_791;

/// Approaches whose directions differ by less than this are one corridor: the square of 0.94, in
/// millionths.
pub const CORRIDOR_COSINE_SQUARE: u32 = 883_600;

/// Approaches are opposite below minus this: the square of 0.8, in millionths.
pub const OPPOSITE_COSINE_SQUARE: u32 = 640_000;

/// How far ahead conflicts are looked for at least.
pub const CONFLICT_LOOKAHEAD: i64 = 45_000_000;

/// The name of what a vehicle does at a junction.
pub open spec fn turn_intent_text(intent: TurnIntent) -> Seq<char> {
    match intent {
        TurnIntent::Straight => "straight"@,
        TurnIntent::Left => "left"@,
        TurnIntent::Right => "right"@,
        TurnIntent::UTurn => "uturn"@,
    }
}

/// The name of what a vehicle does at a junction.
pub fn turn_intent_label(intent: TurnIntent) -> (r: &'static str)
    ensures
        r@ == turn_intent_text(intent),
{
    match intent {
        TurnIntent::Straight => "straight",
        TurnIntent::Left => "left",
        TurnIntent::Right => "right",
        TurnIntent::UTurn => "uturn",
    }
}

/// How a kind of junction is controlled.
pub open spec fn control_of(t: IntersectionType) -> IntersectionControl {
    match t {
        IntersectionType::TrafficLight
        | IntersectionType::PedestrianCrossing => IntersectionControl::Lights,
        IntersectionType::Stop | IntersectionType::Yield => IntersectionControl::Signs,
        _ => IntersectionControl::Uncontrolled,
    }
}

/// How a kind of junction is controlled.
pub fn intersection_control_from_type(t: &IntersectionType) -> (r: IntersectionControl)
    ensures
        r == control_of(*t),
{
    match t {
        IntersectionType::TrafficLight
        | IntersectionType::PedestrianCrossing => IntersectionControl::Lights,
        IntersectionType::Stop | IntersectionType::Yield => IntersectionControl::Signs,
        IntersectionType::Plain
        | IntersectionType::Roundabout => IntersectionControl::Uncontrolled,
    }
}

/// What a vehicle does at `node` when it goes from one edge to another: edges that do not meet
/// there count as straight on.
pub open spec fn turn_intent(map: MapData, movement: (usize, usize), node: int) -> TurnIntent {
    match (ends_of(map, movement.0), ends_of(map, movement.1)) {
        (Some(i), Some(o)) => {
            let a = node_heading(map.nodes@[i.0], map.nodes@[node]);
            let b = node_heading(map.nodes@[node], map.nodes@[o.1]);
            if i.1 != node || o.0 != node {
                TurnIntent::Straight
            } else if o.1 == i.0 {
                TurnIntent::UTurn
            } else if cosine_above(a, b, STRAIGHT_COSINE_SQUARE as int) {
                TurnIntent::Straight
            } else if cross_product(a, b) > 0 {
                TurnIntent::Left
            } else {
                TurnIntent::Right
            }
        },
        _ => TurnIntent::Straight,
    }
}

/// What a vehicle does at `node` when it goes from one edge to another.
pub fn movement_turn_intent(map: &MapData, movement: (usize, usize), node: usize) -> (r: TurnIntent)
    requires
        map.wf(),
        node < map.nodes@.len(),
    ensures
        r == turn_intent(*map, movement, node as int),
{
    proof {
        map.graph.lemma_wf();
    }
    match (map.graph.edge_endpoints(movement.0), map.graph.edge_endpoints(movement.1)) {
        (Some((in_src, in_tgt)), Some((out_src, out_tgt))) => {
            if in_tgt != node || out_src != node {
                return TurnIntent::Straight;
            }
            if out_tgt == in_src {
                return TurnIntent::UTurn;
            }
            let a: Heading = heading_between(&map.nodes[in_src], &map.nodes[node]);
            let b: Heading = heading_between(&map.nodes[node], &map.nodes[out_tgt]);
            if is_cosine_above(a, b, STRAIGHT_COSINE_SQUARE) {
                return TurnIntent::Straight;
            }
            if turns_left(a, b) {
                TurnIntent::Left
            } else {
                TurnIntent::Right
            }
        },
        _ => TurnIntent::Straight,
    }
}

/// How the way from one edge to another leads through `node`.
pub fn classify_turn_at_node(map: &MapData, in_edge: usize, out_edge: usize, node: usize) -> (r:
    TurnClass)
    requires
        map.wf(),
        node < map.nodes@.len(),
    ensures
        r == (match turn_intent(*map, (in_edge, out_edge), node as int) {
            TurnIntent::Straight => TurnClass::Straight,
            TurnIntent::Left => TurnClass::Left,
            TurnIntent::Right => TurnClass::Right,
            TurnIntent::UTurn => TurnClass::UTurn,
        }),
{
    match movement_turn_intent(map, (in_edge, out_edge), node) {
        TurnIntent::Straight => TurnClass::Straight,
        TurnIntent::Left => TurnClass::Left,
        TurnIntent::Right => TurnClass::Right,
        TurnIntent::UTurn => TurnClass::UTurn,
    }
}

/// The lanes of an edge, at least one.
pub open spec fn lanes_of(map: MapData, e: usize) -> int {
    if e < map.edges@.len() {
        larger(map.edges@[e as int].lanes as int, 1)
    } else {
        1
    }
}

/// The lanes of an edge, at least one.
pub fn edge_lanes(map: &MapData, e: usize) -> (r: u8)
    ensures
        r == lanes_of(*map, e),
        r >= 1,
{
    if e < map.edges.len() && map.edges[e].lanes >= 1 {
        map.edges[e].lanes
    } else {
        1
    }
}

/// The lanes by which a junction may be passed: the right lanes for turning right, the left lanes
/// for turning left, each lane into that of the same number for going straight on, and none for
/// turning back.
pub open spec fn lane_pairs(in_lanes: int, out_lanes: int, intent: TurnIntent) -> Seq<(u8, u8)> {
    match intent {
        TurnIntent::Right => seq![((in_lanes - 1) as u8, (out_lanes - 1) as u8)],
        TurnIntent::Straight => Seq::new(
            in_lanes as nat,
            |i: int| (i as u8, crate::units::smaller(i, out_lanes - 1) as u8),
        ),
        TurnIntent::Left => seq![(0u8, 0u8)],
        TurnIntent::UTurn => Seq::empty(),
    }
}

/// The lanes by which a junction may be passed from one edge to another.
pub fn valid_lane_pairs_for_movement(
    map: &MapData,
    in_edge: usize,
    out_edge: usize,
    node: usize,
) -> (r: Vec<(u8, u8)>)
    requires
        map.wf(),
        node < map.nodes@.len(),
    ensures
        r@ == lane_pairs(
            lanes_of(*map, in_edge),
            lanes_of(*map, out_edge),
            turn_intent(*map, (in_edge, out_edge), node as int),
        ),
{
    let n: u8 = edge_lanes(map, in_edge);
    let m: u8 = edge_lanes(map, out_edge);
    let mut out: Vec<(u8, u8)> = Vec::new();
    match movement_turn_intent(map, (in_edge, out_edge), node) {
        TurnIntent::Right => {
            out.push((n - 1, m - 1));
        },
        TurnIntent::Straight => {
            let mut i: u8 = 0;
            while i < n
                invariant
                    i <= n,
                    m >= 1,
                    out@.len() == i,
                    forall|j: int|
                        0 <= j < i ==> #[trigger] out@[j] == (
                            j as u8,
                            crate::units::smaller(j, m - 1) as u8,
                        ),
                decreases n - i,
            {
                let o: u8 = if i <= m - 1 {
                    i
                } else {
                    m - 1
                };
                out.push((i, o));
                i = i + 1;
            }
        },
        TurnIntent::Left => {
            out.push((0, 0));
        },
        TurnIntent::UTurn => {},
    }
    proof {
        let goal = lane_pairs(
            lanes_of(*map, in_edge),
            lanes_of(*map, out_edge),
            turn_intent(*map, (in_edge, out_edge), node as int),
        );
        assert(out@ =~= goal);
    }
    out
}

/// Every pair names lanes that both edges have.
pub proof fn law_lane_pairs_exist(in_lanes: int, out_lanes: int, intent: TurnIntent, k: int)
    requires
        1 <= in_lanes <= 255,
        1 <= out_lanes <= 255,
        0 <= k < lane_pairs(in_lanes, out_lanes, intent).len(),
    ensures
        lane_pairs(in_lanes, out_lanes, intent)[k].0 < in_lanes,
        lane_pairs(in_lanes, out_lanes, intent)[k].1 < out_lanes,
{
}

/// A rule by which a vehicle gives way.
#[derive(Clone, Copy, Debug, PartialEq, Eq, Structural)]
pub enum YieldRule {
    /// To vehicles from the right, except those that turn left across a vehicle going straight.
    Right,
    /// To opposite vehicles going straight.
    OppositeStraight,
}

/// How far a vehicle is from the junction, where a vehicle at `node` that goes by `movement` and
/// comes from node `src` has to give way to it.
pub open spec fn yield_distance(
    sys: ConflictSystem,
    map: MapData,
    ego: u32,
    movement: (usize, usize),
    src: int,
    node: usize,
    reach: int,
    rule: YieldRule,
    o: Vehicle,
) -> Option<int> {
    if o.id == ego || o.despawned || o.on_turn_connector || o.movement() is None {
        None
    } else {
        let m = o.movement()->Some_0;
        let here = map.nodes@[node as int];
        match ends_of(map, m.0) {
            Some(e) => {
                let d = saturated(
                    remaining_length(map.edges@[m.0 as int].length as int, o.edge_progress as int),
                );
                let mine = node_heading(map.nodes@[src], here);
                let theirs = node_heading(map.nodes@[e.0], here);
                let opposite = cosine_below_minus(mine, theirs, OPPOSITE_COSINE_SQUARE as int);
                let intent = turn_intent(map, m, node as int);
                let from_right = cross_product(mine, node_heading(here, map.nodes@[e.0])) < 0;
                if e.1 != node || !sys.movements_meet(movement, m, node) || d > reach {
                    None
                } else {
                    match rule {
                        YieldRule::Right => if from_right && !(turn_intent(
                            map,
                            movement,
                            node as int,
                        ) == TurnIntent::Straight && opposite && intent == TurnIntent::Left) {
                            Some(d)
                        } else {
                            None
                        },
                        YieldRule::OppositeStraight => if intent == TurnIntent::Straight
                            && opposite {
                            Some(d)
                        } else {
                            None
                        },
                    }
                }
            },
            None => None,
        }
    }
}

/// The nearest vehicle to give way to: its distance, its id and its place. Of several at the same
/// distance it is the first.
pub open spec fn nearest_yield(
    sys: ConflictSystem,
    map: MapData,
    ego: u32,
    movement: (usize, usize),
    src: int,
    node: usize,
    reach: int,
    rule: YieldRule,
    others: Seq<Vehicle>,
) -> Option<(int, u32, (int, int))>
    decreases others.len(),
{
    if others.len() == 0 {
        None
    } else {
        let before = nearest_yield(
            sys,
            map,
            ego,
            movement,
            src,
            node,
            reach,
            rule,
            others.drop_last(),
        );
        let o = others.last();
        match yield_distance(sys, map, ego, movement, src, node, reach, rule, o) {
            Some(d) => if before is None || d < before->Some_0.0 {
                Some((d, o.id, plane(o.lat as int, o.lng as int)))
            } else {
                before
            },
            None => before,
        }
    }
}

/// The vehicle that a vehicle gives way to by a rule, and its place.
pub open spec fn yields_by(
    sys: ConflictSystem,
    map: MapData,
    ego: u32,
    movement: (usize, usize),
    node: usize,
    reach: int,
    rule: YieldRule,
    others: Seq<Vehicle>,
) -> Option<(u32, (int, int))> {
    match ends_of(map, movement.0) {
        Some(e) => if e.1 == node {
            match nearest_yield(sys, map, ego, movement, e.0, node, reach, rule, others) {
                Some(b) => Some((b.1, b.2)),
                None => None,
            }
        } else {
            None
        },
        None => None,
    }
}

/// The vehicle that `v` gives way to at `node`. At lights it is for a left turn on green the
/// opposite traffic; without control it is the traffic from the right; at signs there is none, nor
/// for a vehicle that may go first to end a standoff.
pub open spec fn yield_target(
    sys: ConflictSystem,
    v: Vehicle,
    map: MapData,
    others: Seq<Vehicle>,
    lights: IntersectionManager,
    node: usize,
    movement: (usize, usize),
    scan: int,
    first: Option<u32>,
) -> Option<(u32, (int, int))> {
    let here = map.nodes@[node as int];
    let reach = larger(scan, CONFLICT_LOOKAHEAD as int);
    if first == Some(v.id) {
        None
    } else {
        match control_of(here.intersection_type) {
            IntersectionControl::Uncontrolled => yields_by(
                sys,
                map,
                v.id,
                movement,
                node,
                reach,
                YieldRule::Right,
                others,
            ),
            IntersectionControl::Lights => if turn_intent(map, movement, node as int)
                == TurnIntent::Left && lights.lets_pass(here.osm_id, v.has_stopped_at_stop_sign) {
                yields_by(
                    sys,
                    map,
                    v.id,
                    movement,
                    node,
                    reach,
                    YieldRule::OppositeStraight,
                    others,
                )
            } else {
                None
            },
            IntersectionControl::Signs => None,
        }
    }
}

impl ConflictSystem {
    fn distance_to_yield(
        &self,
        map: &MapData,
        ego: u32,
        movement: (usize, usize),
        src: usize,
        node: usize,
        reach: i64,
        rule: YieldRule,
        o: &Vehicle,
    ) -> (r: Option<i64>)
        requires
            self.wf(),
            map.wf(),
            src < map.nodes@.len(),
            node < map.nodes@.len(),
        ensures
            match r {
                Some(d) => yield_distance(
                    *self,
                    *map,
                    ego,
                    movement,
                    src as int,
                    node,
                    reach as int,
                    rule,
                    *o,
                ) == Some(d as int),
                None => yield_distance(
                    *self,
                    *map,
                    ego,
                    movement,
                    src as int,
                    node,
                    reach as int,
                    rule,
                    *o,
                ) is None,
            },
    {
        if o.id == ego || o.despawned || o.on_turn_connector {
            return None;
        }
        let m: (usize, usize) = match o.next_movement() {
            Some(m) => m,
            None => {
                return None;
            },
        };
        proof {
            map.graph.lemma_wf();
        }
        let (o_src, o_tgt) = match map.graph.edge_endpoints(m.0) {
            Some(e) => e,
            None => {
                return None;
            },
        };
        if o_tgt != node {
            return None;
        }
        if !self.movements_conflict(movement, m, node) {
            return None;
        }
        let d: i64 = remaining(map.edges[m.0].length, o.edge_progress);
        if d > reach {
            return None;
        }
        let here: &RoadNode = &map.nodes[node];
        let mine: Heading = heading_between(&map.nodes[src], here);
        let theirs: Heading = heading_between(&map.nodes[o_src], here);
        let opposite: bool = is_cosine_below_minus(mine, theirs, OPPOSITE_COSINE_SQUARE);
        let intent = movement_turn_intent(map, m, node);
        let counts: bool = match rule {
            YieldRule::Right => {
                let back: Heading = heading_between(here, &map.nodes[o_src]);
                let from_right: bool = turns_left(back, mine);
                proof {
                    assert(back.x * mine.y == mine.y * back.x && back.y * mine.x == mine.x * back.y)
                        by (nonlinear_arith);
                }
                let excepted: bool = movement_turn_intent(map, movement, node)
                    == TurnIntent::Straight && opposite && intent == TurnIntent::Left;
                from_right && !excepted
            },
            YieldRule::OppositeStraight => intent == TurnIntent::Straight && opposite,
        };
        if counts {
            Some(d)
        } else {
            None
        }
    }

    fn yielding_by(
        &self,
        map: &MapData,
        ego: u32,
        movement: (usize, usize),
        node: usize,
        reach: i64,
        rule: YieldRule,
        others: &Vec<Vehicle>,
    ) -> (r: Option<(u32, (i64, i64))>)
        requires
            self.wf(),
            map.wf(),
            node < map.nodes@.len(),
        ensures
            told_target(
                r,
                yields_by(*self, *map, ego, movement, node, reach as int, rule, others@),
            ),
    {
        proof {
            map.graph.lemma_wf();
        }
        let (src, tgt) = match map.graph.edge_endpoints(movement.0) {
            Some(e) => e,
            None => {
                return None;
            },
        };
        if tgt != node {
            return None;
        }
        let mut best: Option<(i64, u32, (i64, i64))> = None;
        let mut i: usize = 0;
        assert(others@.take(0) =~= Seq::<Vehicle>::empty());
        while i < others.len()
            invariant
                i <= others@.len(),
                self.wf(),
                map.wf(),
                src < map.nodes@.len(),
                node < map.nodes@.len(),
                match best {
                    Some(b) => nearest_yield(
                        *self,
                        *map,
                        ego,
                        movement,
                        src as int,
                        node,
                        reach as int,
                        rule,
                        others@.take(i as int),
                    ) == Some((b.0 as int, b.1, (b.2.0 as int, b.2.1 as int))),
                    None => nearest_yield(
                        *self,
                        *map,
                        ego,
                        movement,
                        src as int,
                        node,
                        reach as int,
                        rule,
                        others@.take(i as int),
                    ) is None,
                },
            decreases others.len() - i,
        {
            assert(others@.take(i + 1).drop_last() =~= others@.take(i as int));
            assert(others@.take(i + 1).last() == others@[i as int]);
            let o: &Vehicle = &others[i];
            match self.distance_to_yield(map, ego, movement, src, node, reach, rule, o) {
                Some(d) => {
                    let nearer: bool = match best {
                        Some(b) => d < b.0,
                        None => true,
                    };
                    if nearer {
                        best = Some((d, o.id, to_plane(o.lat, o.lng)));
                    }
                },
                None => {},
            }
            i = i + 1;
        }
        assert(others@.take(i as int) =~= others@);
        match best {
            Some(b) => Some((b.1, b.2)),
            None => None,
        }
    }

    /// The vehicle from the right that a vehicle has to give way to, and its place.
    pub fn is_yielding_to_right(
        &self,
        ego: &Vehicle,
        vehicles: &Vec<Vehicle>,
        map: &MapData,
        node: usize,
        movement: (usize, usize),
        scan_dist: i64,
    ) -> (r: Option<(u32, (i64, i64))>)
        requires
            self.wf(),
            map.wf(),
            node < map.nodes@.len(),
        ensures
            told_target(
                r,
                yields_by(
                    *self,
                    *map,
                    ego.id,
                    movement,
                    node,
                    scan_dist as int,
                    YieldRule::Right,
                    vehicles@,
                ),
            ),
    {
        self.yielding_by(map, ego.id, movement, node, scan_dist, YieldRule::Right, vehicles)
    }

    /// The opposite vehicle going straight that a vehicle has to give way to, and its place.
    pub fn is_yielding_to_opposite_straight(
        &self,
        ego: &Vehicle,
        vehicles: &Vec<Vehicle>,
        map: &MapData,
        node: usize,
        movement: (usize, usize),
        scan_dist: i64,
    ) -> (r: Option<(u32, (i64, i64))>)
        requires
            self.wf(),
            map.wf(),
            node < map.nodes@.len(),
        ensures
            told_target(
                r,
                yields_by(
                    *self,
                    *map,
                    ego.id,
                    movement,
                    node,
                    scan_dist as int,
                    YieldRule::OppositeStraight,
                    vehicles@,
                ),
            ),
    {
        self.yielding_by(
            map,
            ego.id,
            movement,
            node,
            scan_dist,
            YieldRule::OppositeStraight,
            vehicles,
        )
    }

    /// The vehicle that a vehicle gives way to at a junction, and its place.
    pub fn cross_traffic_yield_target(
        &self,
        vehicle: &Vehicle,
        map: &MapData,
        vehicles: &Vec<Vehicle>,
        intersections: &IntersectionManager,
        node: usize,
        movement: (usize, usize),
        scan_dist: i64,
        deadlock_first_mover: Option<u32>,
    ) -> (r: Option<(u32, (i64, i64))>)
        requires
            self.wf(),
            map.wf(),
            intersections.wf(),
            node < map.nodes@.len(),
        ensures
            told_target(
                r,
                yield_target(
                    *self,
                    *vehicle,
                    *map,
                    vehicles@,
                    *intersections,
                    node,
                    movement,
                    scan_dist as int,
                    deadlock_first_mover,
                ),
            ),
    {
        let goes_first: bool = match deadlock_first_mover {
            Some(id) => id == vehicle.id,
            None => false,
        };
        if goes_first {
            return None;
        }
        let look: i64 = max_of(scan_dist, CONFLICT_LOOKAHEAD);
        match intersection_control_from_type(&map.nodes[node].intersection_type) {
            IntersectionControl::Uncontrolled => self.is_yielding_to_right(
                vehicle,
                vehicles,
                map,
                node,
                movement,
                look,
            ),
            IntersectionControl::Lights => {
                if movement_turn_intent(map, movement, node) != TurnIntent::Left {
                    return None;
                }
                if !intersections.can_vehicle_proceed(
                    map.nodes[node].osm_id,
                    vehicle.has_stopped_at_stop_sign,
                ) {
                    return None;
                }
                self.is_yielding_to_opposite_straight(vehicle, vehicles, map, node, movement, look)
            },
            IntersectionControl::Signs => None,
        }
    }
}

/// `r` holds the same target as `t`.
pub open spec fn told_target(r: Option<(u32, (i64, i64))>, t: Option<(u32, (int, int))>) -> bool {
    match r {
        Some(a) => t == Some((a.0, (a.1.0 as int, a.1.1 as int))),
        None => t is None,
    }
}

/// Whether two edges come into `tgt` from clearly different directions.
pub open spec fn conflicting_approaches(map: MapData, a: usize, b: usize, tgt: int) -> bool {
    match (ends_of(map, a), ends_of(map, b)) {
        (Some(p), Some(q)) => p.1 == tgt && q.1 == tgt && !cosine_at_least(
            node_heading(map.nodes@[p.0], map.nodes@[tgt]),
            node_heading(map.nodes@[q.0], map.nodes@[tgt]),
            CORRIDOR_COSINE_SQUARE as int,
        ),
        _ => false,
    }
}

/// Whether two edges come into `tgt` from clearly different directions.
pub fn edges_are_conflicting_approaches(map: &MapData, a: usize, b: usize, tgt: usize) -> (r: bool)
    requires
        map.wf(),
        tgt < map.nodes@.len(),
    ensures
        r == conflicting_approaches(*map, a, b, tgt as int),
{
    proof {
        map.graph.lemma_wf();
    }
    match (map.graph.edge_endpoints(a), map.graph.edge_endpoints(b)) {
        (Some((sa, ta)), Some((sb, tb))) => {
            if ta != tgt || tb != tgt {
                return false;
            }
            let p: Heading = heading_between(&map.nodes[sa], &map.nodes[tgt]);
            let q: Heading = heading_between(&map.nodes[sb], &map.nodes[tgt]);
            !is_cosine_at_least(p, q, CORRIDOR_COSINE_SQUARE)
        },
        _ => false,
    }
}

/// At a junction without control no vehicle gives way at both ends of a standoff: the vehicle that
/// may go first gives way to nobody.
pub proof fn law_first_mover_goes(
    sys: ConflictSystem,
    v: Vehicle,
    map: MapData,
    others: Seq<Vehicle>,
    lights: IntersectionManager,
    node: usize,
    movement: (usize, usize),
    scan: int,
)
    ensures
        yield_target(sys, v, map, others, lights, node, movement, scan, Some(v.id)) is None,
{
}

/// At lights only left turns on green give way, and at signs nobody does by these rules.
pub proof fn law_who_gives_way(
    sys: ConflictSystem,
    v: Vehicle,
    map: MapData,
    others: Seq<Vehicle>,
    lights: IntersectionManager,
    node: usize,
    movement: (usize, usize),
    scan: int,
    first: Option<u32>,
)
    requires
        yield_target(sys, v, map, others, lights, node, movement, scan, first) is Some,
    ensures
        ({
            let here = map.nodes@[node as int];
            let c = control_of(here.intersection_type);
            &&& c != IntersectionControl::Signs
            &&& c == IntersectionControl::Lights ==> turn_intent(map, movement, node as int)
                == TurnIntent::Left && lights.lets_pass(here.osm_id, v.has_stopped_at_stop_sign)
        }),
{
}

proof fn lemma_yield_found(
    sys: ConflictSystem,
    map: MapData,
    ego: u32,
    movement: (usize, usize),
    src: int,
    node: usize,
    reach: int,
    rule: YieldRule,
    others: Seq<Vehicle>,
)
    ensures
        match nearest_yield(sys, map, ego, movement, src, node, reach, rule, others) {
            Some(b) => exists|i: int|
                0 <= i < others.len() && (#[trigger] others[i]).id == b.1 && yield_distance(
                    sys,
                    map,
                    ego,
                    movement,
                    src,
                    node,
                    reach,
                    rule,
                    others[i],
                ) == Some(b.0),
            None => true,
        },
    decreases others.len(),
{
    if others.len() > 0 {
        let rest = others.drop_last();
        lemma_yield_found(sys, map, ego, movement, src, node, reach, rule, rest);
        let b = nearest_yield(sys, map, ego, movement, src, node, reach, rule, rest);
        if b is Some {
            let i = choose|i: int|
                0 <= i < rest.len() && (#[trigger] rest[i]).id == b->Some_0.1 && yield_distance(
                    sys,
                    map,
                    ego,
                    movement,
                    src,
                    node,
                    reach,
                    rule,
                    rest[i],
                ) == Some(b->Some_0.0);
            assert(others[i] == rest[i]);
        }
        assert(others[others.len() - 1] == others.last());
    }
}

/// A vehicle gives way to another vehicle that is on its way to the same junction and whose path
/// meets its own, never to itself.
pub proof fn law_yields_to_another(
    sys: ConflictSystem,
    map: MapData,
    ego: u32,
    movement: (usize, usize),
    node: usize,
    reach: int,
    rule: YieldRule,
    others: Seq<Vehicle>,
)
    requires
        yields_by(sys, map, ego, movement, node, reach, rule, others) is Some,
    ensures
        ({
            let id = yields_by(
                sys,
                map,
                ego,
                movement,
                node,
                reach,
                rule,
                others,
            )->Some_0.0;
            &&& id != ego
            &&& exists|i: int|
                {
                    &&& 0 <= i < others.len()
                    &&& (#[trigger] others[i]).id == id
                    &&& !others[i].despawned
                    &&& others[i].movement() is Some
                    &&& sys.movements_meet(movement, others[i].movement()->Some_0, node)
                }
        }),
{
    let src = ends_of(map, movement.0)->Some_0.0;
    lemma_yield_found(sys, map, ego, movement, src, node, reach, rule, others);
}

/// What the nearest vehicle to give way to is: none of the others is nearer.
proof fn lemma_nearest_yield(
    sys: ConflictSystem,
    map: MapData,
    ego: u32,
    movement: (usize, usize),
    src: int,
    node: usize,
    reach: int,
    rule: YieldRule,
    others: Seq<Vehicle>,
    i: int,
)
    requires
        0 <= i < others.len(),
        yield_distance(sys, map, ego, movement, src, node, reach, rule, others[i]) is Some,
    ensures
        ({
            let found = nearest_yield(sys, map, ego, movement, src, node, reach, rule, others);
            found is Some && found->Some_0.0 <= yield_distance(
                sys,
                map,
                ego,
                movement,
                src,
                node,
                reach,
                rule,
                others[i],
            )->Some_0
        }),
    decreases others.len(),
{
    if i < others.len() - 1 {
        assert(others.drop_last()[i] == others[i]);
        lemma_nearest_yield(
            sys,
            map,
            ego,
            movement,
            src,
            node,
            reach,
            rule,
            others.drop_last(),
            i,
        );
    }
}

/// Whether a vehicle is on its way to a junction that another one is at: still driving, on an edge
/// into it and not turning, no farther from it than `reach`, and its movement there meets that of
/// the other one.
pub open spec fn comes_to(
    sys: ConflictSystem,
    map: MapData,
    movement: (usize, usize),
    node: usize,
    reach: int,
    o: Vehicle,
) -> bool {
    !o.despawned && !o.on_turn_connector && match o.movement() {
        Some(m) => {
            &&& m.0 < map.edges@.len()
            &&& map.graph.ends()[m.0 as int].1 == node
            &&& way_left(map, o) <= reach
            &&& sys.movements_meet(movement, m, node)
        },
        None => false,
    }
}

/// How far a vehicle is from the end of its edge.
pub open spec fn way_left(map: MapData, o: Vehicle) -> int {
    let edge = map.edges@[o.movement()->Some_0.0 as int];
    saturated(edge.length * (1_000_000_000 - o.edge_progress) / 1_000_000_000)
}

/// The node that a vehicle comes from.
pub open spec fn comes_from(map: MapData, o: Vehicle) -> RoadNode {
    map.nodes@[map.graph.ends()[o.movement()->Some_0.0 as int].0]
}

/// Whether another vehicle on its way to a junction comes from the opposite direction and goes straight
/// on there.
pub open spec fn comes_straight_on(
    sys: ConflictSystem,
    map: MapData,
    ego: u32,
    movement: (usize, usize),
    node: usize,
    reach: int,
    o: Vehicle,
) -> bool {
    let here = map.nodes@[node as int];
    let mine = node_heading(map.nodes@[map.graph.ends()[movement.0 as int].0], here);
    &&& o.id != ego
    &&& comes_to(sys, map, movement, node, reach, o)
    &&& turn_intent(map, o.movement()->Some_0, node as int) == TurnIntent::Straight
    &&& cosine_below_minus(mine, node_heading(comes_from(map, o), here), 640_000)
}

/// Whether another vehicle on its way to a junction comes from the right; one that turns left from the
/// opposite direction does not count for a vehicle that goes straight on.
pub open spec fn comes_from_right(
    sys: ConflictSystem,
    map: MapData,
    ego: u32,
    movement: (usize, usize),
    node: usize,
    reach: int,
    o: Vehicle,
) -> bool {
    let here = map.nodes@[node as int];
    let mine = node_heading(map.nodes@[map.graph.ends()[movement.0 as int].0], here);
    let side = node_heading(here, comes_from(map, o));
    &&& o.id != ego
    &&& comes_to(sys, map, movement, node, reach, o)
    &&& mine.0 * side.1 - mine.1 * side.0 < 0
    &&& !(turn_intent(map, movement, node as int) == TurnIntent::Straight && turn_intent(
        map,
        o.movement()->Some_0,
        node as int,
    ) == TurnIntent::Left && cosine_below_minus(
        mine,
        node_heading(comes_from(map, o), here),
        640_000,
    ))
}

/// At a signal that lets it pass, a vehicle that turns left and is not sent first gives way whenever
/// another vehicle on its way to the junction comes from the opposite direction and goes straight on;
/// and whom it gives way to is such a vehicle, and none of them is nearer to the junction.
pub proof fn law_left_turn_waits(
    sys: ConflictSystem,
    v: Vehicle,
    map: MapData,
    others: Seq<Vehicle>,
    lights: IntersectionManager,
    node: usize,
    movement: (usize, usize),
    scan: int,
    first: Option<u32>,
    i: int,
)
    requires
        map.nodes@[node as int].intersection_type == IntersectionType::TrafficLight
            || map.nodes@[node as int].intersection_type == IntersectionType::PedestrianCrossing,
        first != Some(v.id),
        movement.0 < map.edges@.len(),
        map.graph.ends()[movement.0 as int].1 == node,
        lights.lets_pass(map.nodes@[node as int].osm_id, v.has_stopped_at_stop_sign),
        turn_intent(map, movement, node as int) == TurnIntent::Left,
    ensures
        ({
            let reach = larger(scan, 45_000_000);
            let target = yield_target(sys, v, map, others, lights, node, movement, scan, first);
            &&& 0 <= i < others.len() && comes_straight_on(
                sys,
                map,
                v.id,
                movement,
                node,
                reach,
                others[i],
            ) ==> target is Some
            &&& target is Some ==> exists|k: int|
                0 <= k < others.len() && #[trigger] comes_straight_on(
                    sys,
                    map,
                    v.id,
                    movement,
                    node,
                    reach,
                    others[k],
                ) && target->Some_0 == (
                    others[k].id,
                    plane(others[k].lat as int, others[k].lng as int),
                ) && (0 <= i < others.len() && comes_straight_on(
                    sys,
                    map,
                    v.id,
                    movement,
                    node,
                    reach,
                    others[i],
                ) ==> way_left(map, others[k]) <= way_left(map, others[i]))
        }),
{
    let src = map.graph.ends()[movement.0 as int].0;
    let reach = larger(scan, CONFLICT_LOOKAHEAD as int);
    let rule = YieldRule::OppositeStraight;
    assert forall|o: Vehicle| #[trigger]
        comes_straight_on(sys, map, v.id, movement, node, reach, o) == (yield_distance(
            sys,
            map,
            v.id,
            movement,
            src,
            node,
            reach,
            rule,
            o,
        ) is Some) && (comes_straight_on(sys, map, v.id, movement, node, reach, o) ==> yield_distance(
            sys,
            map,
            v.id,
            movement,
            src,
            node,
            reach,
            rule,
            o,
        ) == Some(way_left(map, o))) by {}
    if 0 <= i < others.len() && comes_straight_on(sys, map, v.id, movement, node, reach, others[i]) {
        lemma_nearest_yield(sys, map, v.id, movement, src, node, reach, rule, others, i);
    }
    lemma_yield_place(sys, map, v.id, movement, src, node, reach, rule, others);
    let found = nearest_yield(sys, map, v.id, movement, src, node, reach, rule, others);
    if found is Some {
        let k = choose|k: int|
            0 <= k < others.len() && found->Some_0 == (
                found->Some_0.0,
                (#[trigger] others[k]).id,
                plane(others[k].lat as int, others[k].lng as int),
            ) && yield_distance(
                sys,
                map,
                v.id,
                movement,
                src,
                node,
                reach,
                rule,
                others[k],
            ) == Some(found->Some_0.0);
        assert(comes_straight_on(sys, map, v.id, movement, node, reach, others[k]));
    }
}

/// The nearest vehicle to give way to is one of the others, seen at its place.
proof fn lemma_yield_place(
    sys: ConflictSystem,
    map: MapData,
    ego: u32,
    movement: (usize, usize),
    src: int,
    node: usize,
    reach: int,
    rule: YieldRule,
    others: Seq<Vehicle>,
)
    ensures
        match nearest_yield(sys, map, ego, movement, src, node, reach, rule, others) {
            Some(b) => exists|k: int|
                0 <= k < others.len() && b == (
                    b.0,
                    (#[trigger] others[k]).id,
                    plane(others[k].lat as int, others[k].lng as int),
                ) && yield_distance(
                    sys,
                    map,
                    ego,
                    movement,
                    src,
                    node,
                    reach,
                    rule,
                    others[k],
                ) == Some(b.0),
            None => true,
        },
    decreases others.len(),
{
    if others.len() > 0 {
        let rest = others.drop_last();
        lemma_yield_place(sys, map, ego, movement, src, node, reach, rule, rest);
        let b = nearest_yield(sys, map, ego, movement, src, node, reach, rule, rest);
        if b is Some {
            let k = choose|k: int|
                0 <= k < rest.len() && b->Some_0 == (
                    b->Some_0.0,
                    (#[trigger] rest[k]).id,
                    plane(rest[k].lat as int, rest[k].lng as int),
                ) && yield_distance(
                    sys,
                    map,
                    ego,
                    movement,
                    src,
                    node,
                    reach,
                    rule,
                    rest[k],
                ) == Some(b->Some_0.0);
            assert(others[k] == rest[k]);
        }
        assert(others[others.len() - 1] == others.last());
    }
}

/// At a junction without control a vehicle that is not sent first gives way whenever another vehicle
/// on its way to the junction comes from the right, unless it goes straight on itself and the other
/// one comes from the opposite direction and turns left; and whom it gives way to is such a vehicle,
/// and none of them is nearer to the junction.
pub proof fn law_right_goes_first(
    sys: ConflictSystem,
    v: Vehicle,
    map: MapData,
    others: Seq<Vehicle>,
    lights: IntersectionManager,
    node: usize,
    movement: (usize, usize),
    scan: int,
    first: Option<u32>,
    i: int,
)
    requires
        map.nodes@[node as int].intersection_type == IntersectionType::Plain
            || map.nodes@[node as int].intersection_type == IntersectionType::Roundabout,
        first != Some(v.id),
        movement.0 < map.edges@.len(),
        map.graph.ends()[movement.0 as int].1 == node,
    ensures
        ({
            let reach = larger(scan, 45_000_000);
            let target = yield_target(sys, v, map, others, lights, node, movement, scan, first);
            &&& 0 <= i < others.len() && comes_from_right(
                sys,
                map,
                v.id,
                movement,
                node,
                reach,
                others[i],
            ) ==> target is Some
            &&& target is Some ==> exists|k: int|
                0 <= k < others.len() && #[trigger] comes_from_right(
                    sys,
                    map,
                    v.id,
                    movement,
                    node,
                    reach,
                    others[k],
                ) && target->Some_0 == (
                    others[k].id,
                    plane(others[k].lat as int, others[k].lng as int),
                ) && (0 <= i < others.len() && comes_from_right(
                    sys,
                    map,
                    v.id,
                    movement,
                    node,
                    reach,
                    others[i],
                ) ==> way_left(map, others[k]) <= way_left(map, others[i]))
        }),
{
    let src = map.graph.ends()[movement.0 as int].0;
    let reach = larger(scan, CONFLICT_LOOKAHEAD as int);
    let rule = YieldRule::Right;
    assert forall|o: Vehicle| #[trigger]
        comes_from_right(sys, map, v.id, movement, node, reach, o) == (yield_distance(
            sys,
            map,
            v.id,
            movement,
            src,
            node,
            reach,
            rule,
            o,
        ) is Some) && (comes_from_right(sys, map, v.id, movement, node, reach, o) ==> yield_distance(
            sys,
            map,
            v.id,
            movement,
            src,
            node,
            reach,
            rule,
            o,
        ) == Some(way_left(map, o))) by {}
    if 0 <= i < others.len() && comes_from_right(sys, map, v.id, movement, node, reach, others[i]) {
        lemma_nearest_yield(sys, map, v.id, movement, src, node, reach, rule, others, i);
    }
    lemma_yield_place(sys, map, v.id, movement, src, node, reach, rule, others);
    let found = nearest_yield(sys, map, v.id, movement, src, node, reach, rule, others);
    if found is Some {
        let k = choose|k: int|
            0 <= k < others.len() && found->Some_0 == (
                found->Some_0.0,
                (#[trigger] others[k]).id,
                plane(others[k].lat as int, others[k].lng as int),
            ) && yield_distance(
                sys,
                map,
                v.id,
                movement,
                src,
                node,
                reach,
                rule,
                others[k],
            ) == Some(found->Some_0.0);
        assert(comes_from_right(sys, map, v.id, movement, node, reach, others[k]));
    }
}

/// Turns are told by the way that they lead: on in the same direction is straight on, and a way that
/// bends by a right angle or more leads left where its direction lies to the left; back to where one
/// comes from is a U-turn.
pub proof fn law_which_way_turns_lead(map: MapData, a: usize, b: usize)
    requires
        a < map.edges@.len(),
        b < map.edges@.len(),
        map.graph.ends()[a as int].1 == map.graph.ends()[b as int].0,
    ensures
        ({
            let node = map.graph.ends()[a as int].1;
            let from = map.nodes@[map.graph.ends()[a as int].0];
            let at = map.nodes@[node];
            let to = map.nodes@[map.graph.ends()[b as int].1];
            let (x, y) = (at.lng - from.lng, at.lat - from.lat);
            let (u, v) = (to.lng - at.lng, to.lat - at.lat);
            let back = map.graph.ends()[b as int].1 == map.graph.ends()[a as int].0;
            let small = -0x400_0000 < x < 0x400_0000 && -0x400_0000 < y < 0x400_0000 && -0x400_0000
                < u < 0x400_0000 && -0x400_0000 < v < 0x400_0000;
            let turn = turn_intent(map, (a, b), node);
            &&& back ==> turn == TurnIntent::UTurn
            &&& !back ==> turn != TurnIntent::UTurn
            &&& small && !back && x == u && y == v && (x != 0 || y != 0) ==> turn
                == TurnIntent::Straight
            &&& small && !back && x * u + y * v <= 0 && x * v - y * u > 0 ==> turn
                == TurnIntent::Left
            &&& small && !back && x * u + y * v <= 0 && x * v - y * u < 0 ==> turn
                == TurnIntent::Right
        }),
{
    let node = map.graph.ends()[a as int].1;
    let from = map.nodes@[map.graph.ends()[a as int].0];
    let at = map.nodes@[node];
    let to = map.nodes@[map.graph.ends()[b as int].1];
    let (x, y) = (at.lng - from.lng, at.lat - from.lat);
    let (u, v) = (to.lng - at.lng, to.lat - at.lat);
    if -0x400_0000 < x < 0x400_0000 && -0x400_0000 < y < 0x400_0000 && -0x400_0000 < u < 0x400_0000
        && -0x400_0000 < v < 0x400_0000 {
        crate::simulation::direction::law_small_directions_kept((x, y));
        crate::simulation::direction::law_small_directions_kept((u, v));
        if x != 0 || y != 0 {
            assert(x * x + y * y > 0) by (nonlinear_arith)
                requires
                    x != 0 || y != 0,
            ;
            crate::simulation::direction::law_angles((x, y), (u, v), STRAIGHT_COSINE_SQUARE as int);
        }
    }
}

} // verus!
