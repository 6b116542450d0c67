//! The lanes along a route and how a vehicle is handed from one to the next.

use vstd::prelude::*;

use crate::map::lane_graph::{Lane, NO_EDGE};
use crate::map::map_data::MapData;
use crate::simulation::leader::{find_lane, lane_at, lane_by_edge_lane, place_in};
use crate::simulation::right_of_way::{edge_lanes, lanes_of};
use crate::units::{
    between, clamp_to, larger, max_of, min_of, part_of, saturated, share, share_of, smaller,
    take_part, FULL,
};
use crate::vehicles::vehicle::Vehicle;

verus! {

/// How far before the end of a lane a vehicle is set down at the latest.
pub const LANE_END_MARGIN: i64 = 2_800_000;

/// Whether a lane leads through a junction.
pub open spec fn is_connector(map: MapData, c: u64) -> bool {
    map.lanes.has(c) && map.lanes.lane(c).edge_id == NO_EDGE
}

/// Whether a lane through a junction leads into a lane.
pub open spec fn leads_into(map: MapData, c: u64, lane: u64) -> bool {
    is_connector(map, c) && map.lanes.lane(c).connections@.contains(lane)
}

/// Whether a lane belongs to an edge.
pub open spec fn belongs_to(map: MapData, id: u64, e: u64) -> bool {
    map.lanes.has(id) && map.lanes.lane(id).edge_id == e
}

/// Whether a lane through a junction leads into some lane of an edge.
pub open spec fn leads_to_edge(map: MapData, c: u64, e: u64) -> bool {
    is_connector(map, c) && exists|i: int|
        0 <= i < map.lanes.lane(c).connections@.len() && belongs_to(
            map,
            #[trigger] map.lanes.lane(c).connections@[i],
            e,
        )
}

/// The first lane of a list that leads into a lane.
pub open spec fn first_into(map: MapData, list: Seq<u64>, lane: u64) -> Option<u64>
    decreases list.len(),
{
    if list.len() == 0 {
        None
    } else if leads_into(map, list[0], lane) {
        Some(list[0])
    } else {
        first_into(map, list.skip(1), lane)
    }
}

/// The last lane of a list that leads into some lane of an edge.
pub open spec fn last_to_edge(map: MapData, list: Seq<u64>, e: u64) -> Option<u64>
    decreases list.len(),
{
    if list.len() == 0 {
        None
    } else if leads_to_edge(map, list.last(), e) {
        Some(list.last())
    } else {
        last_to_edge(map, list.drop_last(), e)
    }
}

/// The lane through a junction from a lane of one edge to a lane of another: the one that leads
/// into that lane, else the last that leads into another lane of the edge.
pub open spec fn connector_between(
    map: MapData,
    in_edge: usize,
    in_lane: u8,
    out_edge: usize,
    out_lane: u8,
) -> Option<u64> {
    match (lane_at(map, in_edge, in_lane), lane_at(map, out_edge, out_lane)) {
        (Some(a), Some(b)) => if map.lanes.has(a) {
            let list = map.lanes.lane(a).connections@;
            match first_into(map, list, b) {
                Some(c) => Some(c),
                None => last_to_edge(map, list, out_edge as u64),
            }
        } else {
            None
        },
        _ => None,
    }
}

/// Whether a list holds an id.
pub fn holds(list: &Vec<u64>, id: u64) -> (r: bool)
    ensures
        r == list@.contains(id),
{
    let mut i: usize = 0;
    while i < list.len()
        invariant
            i <= list@.len(),
            forall|j: int| 0 <= j < i ==> list@[j] != id,
        decreases list.len() - i,
    {
        if list[i] == id {
            return true;
        }
        i = i + 1;
    }
    false
}

/// The lane with an id.
pub fn lane_of(map: &MapData, id: u64) -> (r: Option<&Lane>)
    ensures
        match r {
            Some(l) => map.lanes.has(id) && *l == map.lanes.lane(id),
            None => !map.lanes.has(id),
        },
{
    assert(map.lanes.lanes.len() == map.lanes.lanes@.len());
    if id >= 1 && id <= map.lanes.lanes.len() as u64 {
        Some(&map.lanes.lanes[(id - 1) as usize])
    } else {
        None
    }
}

fn does_lead_into(map: &MapData, c: u64, lane: u64) -> (r: bool)
    ensures
        r == leads_into(*map, c, lane),
{
    match lane_of(map, c) {
        Some(l) => l.edge_id == NO_EDGE && holds(&l.connections, lane),
        None => false,
    }
}

fn does_lead_to_edge(map: &MapData, c: u64, e: u64) -> (r: bool)
    ensures
        r == leads_to_edge(*map, c, e),
{
    match lane_of(map, c) {
        Some(l) => {
            if l.edge_id != NO_EDGE {
                return false;
            }
            let mut i: usize = 0;
            while i < l.connections.len()
                invariant
                    i <= l.connections@.len(),
                    is_connector(*map, c),
                    *l == map.lanes.lane(c),
                    forall|j: int|
                        0 <= j < i ==> !belongs_to(*map, #[trigger] l.connections@[j], e),
                decreases l.connections.len() - i,
            {
                let there: bool = match lane_of(map, l.connections[i]) {
                    Some(n) => n.edge_id == e,
                    None => false,
                };
                if there {
                    assert(belongs_to(*map, l.connections@[i as int], e));
                    return true;
                }
                i = i + 1;
            }
            false
        },
        None => false,
    }
}

fn find_first_into(map: &MapData, list: &Vec<u64>, lane: u64) -> (r: Option<u64>)
    ensures
        r == first_into(*map, list@, lane),
{
    let mut i: usize = 0;
    assert(list@.skip(0) =~= list@);
    while i < list.len()
        invariant
            i <= list@.len(),
            first_into(*map, list@, lane) == first_into(*map, list@.skip(i as int), lane),
        decreases list.len() - i,
    {
        assert(list@.skip(i as int)[0] == list@[i as int]);
        assert(list@.skip(i as int).skip(1) =~= list@.skip(i + 1));
        if does_lead_into(map, list[i], lane) {
            return Some(list[i]);
        }
        i = i + 1;
    }
    None
}

fn find_last_to_edge(map: &MapData, list: &Vec<u64>, e: u64) -> (r: Option<u64>)
    ensures
        r == last_to_edge(*map, list@, e),
{
    let mut i: usize = list.len();
    assert(list@.take(i as int) =~= list@);
    while i > 0
        invariant
            i <= list@.len(),
            last_to_edge(*map, list@, e) == last_to_edge(*map, list@.take(i as int), e),
        decreases i,
    {
        assert(list@.take(i as int).last() == list@[i - 1]);
        assert(list@.take(i as int).drop_last() =~= list@.take(i - 1));
        if does_lead_to_edge(map, list[i - 1], e) {
            return Some(list[i - 1]);
        }
        i = i - 1;
    }
    None
}

/// The lane through a junction from a lane of one edge to a lane of another.
pub fn find_connector_lane_id(
    map: &MapData,
    in_edge: usize,
    in_lane: u8,
    out_edge: usize,
    out_lane: u8,
) -> (r: Option<u64>)
    ensures
        r == connector_between(*map, in_edge, in_lane, out_edge, out_lane),
{
    match (
        lane_by_edge_lane(map, in_edge, in_lane),
        lane_by_edge_lane(map, out_edge, out_lane),
    ) {
        (Some(a), Some(b)) => match lane_of(map, a) {
            Some(l) => match find_first_into(map, &l.connections, b) {
                Some(c) => Some(c),
                None => find_last_to_edge(map, &l.connections, out_edge as u64),
            },
            None => None,
        },
        _ => None,
    }
}

proof fn lemma_first_into(map: MapData, list: Seq<u64>, lane: u64)
    ensures
        match first_into(map, list, lane) {
            Some(c) => list.contains(c) && leads_into(map, c, lane),
            None => forall|i: int| 0 <= i < list.len() ==> !leads_into(map, #[trigger] list[i], lane),
        },
    decreases list.len(),
{
    if list.len() > 0 {
        let rest = list.skip(1);
        lemma_first_into(map, rest, lane);
        match first_into(map, rest, lane) {
            Some(c) => {
                if !leads_into(map, list[0], lane) {
                    let i = choose|i: int| 0 <= i < rest.len() && rest[i] == c;
                    assert(list[i + 1] == c);
                }
            },
            None => {
                assert forall|i: int| 0 <= i < list.len() && !leads_into(
                    map,
                    list[0],
                    lane,
                ) implies !leads_into(map, #[trigger] list[i], lane) by {
                    if i > 0 {
                        assert(rest[i - 1] == list[i]);
                    }
                }
            },
        }
    }
}

proof fn lemma_last_to_edge(map: MapData, list: Seq<u64>, e: u64)
    ensures
        match last_to_edge(map, list, e) {
            Some(c) => list.contains(c) && leads_to_edge(map, c, e),
            None => forall|i: int| 0 <= i < list.len() ==> !leads_to_edge(map, #[trigger] list[i], e),
        },
    decreases list.len(),
{
    if list.len() > 0 {
        let rest = list.drop_last();
        lemma_last_to_edge(map, rest, e);
        match last_to_edge(map, rest, e) {
            Some(c) => {
                let i = choose|i: int| 0 <= i < rest.len() && rest[i] == c;
                assert(list[i] == c);
            },
            None => {
                assert forall|i: int| 0 <= i < list.len() && !leads_to_edge(
                    map,
                    list.last(),
                    e,
                ) implies !leads_to_edge(map, #[trigger] list[i], e) by {
                    if i < rest.len() {
                        assert(rest[i] == list[i]);
                    }
                }
            },
        }
    }
}

/// The lane found through a junction starts at the given lane and leads to the wanted edge; where a
/// lane leads into the wanted lane, one that does is found.
pub proof fn law_connector_leads_on(
    map: MapData,
    in_edge: usize,
    in_lane: u8,
    out_edge: usize,
    out_lane: u8,
)
    requires
        lane_at(map, out_edge, out_lane) is Some ==> belongs_to(
            map,
            lane_at(map, out_edge, out_lane)->Some_0,
            out_edge as u64,
        ),
        connector_between(map, in_edge, in_lane, out_edge, out_lane) is Some,
    ensures
        ({
            let c = connector_between(map, in_edge, in_lane, out_edge, out_lane)->Some_0;
            let a = lane_at(map, in_edge, in_lane)->Some_0;
            let b = lane_at(map, out_edge, out_lane)->Some_0;
            &&& map.lanes.lane(a).connections@.contains(c)
            &&& leads_to_edge(map, c, out_edge as u64)
            &&& (exists|i: int|
                0 <= i < map.lanes.lane(a).connections@.len() && leads_into(
                    map,
                    #[trigger] map.lanes.lane(a).connections@[i],
                    b,
                )) ==> leads_into(map, c, b)
        }),
{
    let a = lane_at(map, in_edge, in_lane)->Some_0;
    let b = lane_at(map, out_edge, out_lane)->Some_0;
    let list = map.lanes.lane(a).connections@;
    lemma_first_into(map, list, b);
    lemma_last_to_edge(map, list, out_edge as u64);
    let c = connector_between(map, in_edge, in_lane, out_edge, out_lane)->Some_0;
    if leads_into(map, c, b) {
        let k = map.lanes.lane(c).connections@;
        let i = choose|i: int| 0 <= i < k.len() && k[i] == b;
        assert(belongs_to(map, k[i], out_edge as u64));
    }
}

/// The first place from `from` on of a lane of an edge in a list; where an index is asked for, of
/// the lane with that index.
pub open spec fn place_on_edge(
    map: MapData,
    list: Seq<u64>,
    from: int,
    e: u64,
    index: Option<u8>,
) -> Option<int>
    decreases list.len() - from,
{
    if from < 0 || from >= list.len() {
        None
    } else if e != NO_EDGE && belongs_to(map, list[from], e) && (index is None || map.lanes.lane(
        list[from],
    ).lane_index == index->Some_0) {
        Some(from)
    } else {
        place_on_edge(map, list, from + 1, e, index)
    }
}

fn find_place_on_edge(map: &MapData, list: &Vec<u64>, from: usize, e: u64, index: Option<u8>) -> (r:
    Option<usize>)
    ensures
        match r {
            Some(k) => k < list@.len() && belongs_to(*map, list@[k as int], e) && e != NO_EDGE
                && place_on_edge(*map, list@, from as int, e, index) == Some(k as int),
            None => place_on_edge(*map, list@, from as int, e, index) is None,
        },
{
    let mut k: usize = from;
    while k < list.len()
        invariant
            k <= list@.len() || k == from,
            place_on_edge(*map, list@, from as int, e, index) == place_on_edge(
                *map,
                list@,
                k as int,
                e,
                index,
            ),
        decreases list.len() - k,
    {
        let fits: bool = match lane_of(map, list[k]) {
            Some(l) => e != NO_EDGE && l.edge_id == e && match index {
                Some(i) => l.lane_index == i,
                None => true,
            },
            None => false,
        };
        if fits {
            return Some(k);
        }
        k = k + 1;
    }
    None
}

/// The edge of a vehicle as it is written in lanes.
pub open spec fn edge_id(v: Vehicle) -> Option<u64> {
    match v.edge() {
        Some(e) => Some(e as u64),
        None => None,
    }
}

/// The place in its lane route where a vehicle is: that of its lane, else the first of its edge.
pub open spec fn lane_place(v: Vehicle, map: MapData) -> Option<int> {
    let own = match v.current_lane_id {
        Some(id) => place_in(v.lane_route@, id),
        None => None,
    };
    match own {
        Some(k) => Some(k),
        None => match edge_id(v) {
            Some(e) => place_on_edge(map, v.lane_route@, 0, e, None),
            None => None,
        },
    }
}

/// A vehicle brought in line with the place in its lane route where it is.
pub open spec fn synced(v: Vehicle, map: MapData) -> Vehicle {
    match lane_place(v, map) {
        Some(k) => {
            let id = v.lane_route@[k];
            Vehicle {
                lane_route_pos: k as usize,
                current_lane_id: Some(id),
                current_lane: if map.lanes.has(id) && map.lanes.lane(id).edge_id != NO_EDGE {
                    map.lanes.lane(id).lane_index
                } else {
                    v.current_lane
                },
                ..v
            }
        },
        None => v,
    }
}

fn find_lane_place(v: &Vehicle, map: &MapData) -> (r: Option<usize>)
    ensures
        match r {
            Some(k) => k < v.lane_route@.len() && lane_place(*v, *map) == Some(k as int),
            None => lane_place(*v, *map) is None,
        },
{
    let own: Option<usize> = match v.current_lane_id {
        Some(id) => find_lane(&v.lane_route, id),
        None => None,
    };
    match own {
        Some(k) => Some(k),
        None => match v.current_edge() {
            Some(e) => find_place_on_edge(map, &v.lane_route, 0, e as u64, None),
            None => None,
        },
    }
}

/// Brings a vehicle in line with the place in its lane route where it is, if it is on it.
pub fn sync_vehicle_lane_route_state(v: &mut Vehicle, map: &MapData) -> (r: bool)
    ensures
        *final(v) == synced(*old(v), *map),
        r == (lane_place(*old(v), *map) is Some),
{
    match find_lane_place(v, map) {
        Some(k) => {
            let id: u64 = v.lane_route[k];
            v.lane_route_pos = k;
            v.current_lane_id = Some(id);
            match lane_of(map, id) {
                Some(l) => {
                    if l.edge_id != NO_EDGE {
                        v.current_lane = l.lane_index;
                    }
                },
                None => {},
            }
            true
        },
        None => false,
    }
}

/// Where in its lane route a vehicle looks for the next lane after a turn: behind the connector it
/// has finished.
pub open spec fn scan_start(v: Vehicle, finished: Option<u64>) -> int {
    let len = v.lane_route@.len() as int;
    let after = match finished {
        Some(c) => match place_in(v.lane_route@, c) {
            Some(k) => Some(smaller(k + 1, len)),
            None => None,
        },
        None => None,
    };
    match after {
        Some(k) => k,
        None => smaller(v.lane_route_pos as int, len),
    }
}

/// Where in its lane route a vehicle looks for the next lane after a turn.
pub fn lane_route_handover_scan_start(v: &Vehicle, finished: Option<u64>) -> (r: usize)
    ensures
        r == scan_start(*v, finished),
        r <= v.lane_route@.len(),
{
    assert(v.lane_route.len() == v.lane_route@.len());
    let len: usize = v.lane_route.len();
    match finished {
        Some(c) => match find_lane(&v.lane_route, c) {
            Some(k) => {
                return k + 1;
            },
            None => {},
        },
        None => {},
    }
    if v.lane_route_pos <= len {
        v.lane_route_pos
    } else {
        len
    }
}

/// The lane length that is worked with.
pub open spec fn set_down_length(length: int) -> int {
    larger(length, 1_000)
}

/// How far along a lane a vehicle may be set down: not on the last metres.
pub open spec fn set_down_limit(len: int) -> int {
    let margin = smaller(
        larger(LANE_END_MARGIN as int, between(scaled_length(len, 18), 450_000, 3_500_000)),
        scaled_length(len, 220),
    );
    larger(len - margin, 0)
}

/// Thousandths of a length, rounded down.
pub open spec fn scaled_length(len: int, thousandths: int) -> int {
    len * thousandths / 1_000
}

fn thousandths_of(len: i64, n: i64) -> (r: i64)
    requires
        len >= 0,
        0 <= n <= 1_000,
    ensures
        r == scaled_length(len as int, n as int),
        0 <= r <= len,
{
    proof {
        let l = len as int;
        let k = n as int;
        assert(0 <= l * k <= l * 1_000) by (nonlinear_arith)
            requires
                0 <= l,
                0 <= k <= 1_000,
        ;
        assert(0 <= (l * k) / 1_000 <= l) by (nonlinear_arith)
            requires
                0 <= l * k <= l * 1_000,
        ;
    }
    (len as i128 * n as i128 / 1_000) as i64
}

pub fn limit_of(len: i64) -> (r: i64)
    requires
        len >= 0,
    ensures
        r == set_down_limit(len as int),
        0 <= r <= len,
{
    let by_length: i64 = clamp_to(thousandths_of(len, 18), 450_000, 3_500_000);
    let margin: i64 = min_of(max_of(LANE_END_MARGIN, by_length), thousandths_of(len, 220));
    max_of(len - margin, 0)
}

/// How far along a lane a vehicle is set down: where it projects to, or where its turn was planned
/// to end, whichever is farther, but not on the last metres.
pub open spec fn set_down_at(length: int, projected: Option<i64>, hint: Option<i64>) -> int {
    let len = set_down_length(length);
    let proj = match projected {
        Some(s) => between(s as int, 0, len),
        None => 0,
    };
    let planned = match hint {
        Some(t) => if 100_000 < t < FULL {
            between(saturated(part_of(len, t as int)), 0, scaled_length(len, 490))
        } else {
            0
        },
        None => 0,
    };
    smaller(between(larger(proj, planned), 0, len), set_down_limit(len))
}

fn set_down_distance(length: i64, projected: Option<i64>, hint: Option<i64>) -> (r: i64)
    ensures
        r == set_down_at(length as int, projected, hint),
        0 <= r <= set_down_length(length as int),
{
    let len: i64 = max_of(length, 1_000);
    let proj: i64 = match projected {
        Some(s) => clamp_to(s, 0, len),
        None => 0,
    };
    let planned: i64 = match hint {
        Some(t) => if t > 100_000 && t < FULL {
            clamp_to(take_part(len, t), 0, thousandths_of(len, 490))
        } else {
            0
        },
        None => 0,
    };
    min_of(clamp_to(max_of(proj, planned), 0, len), limit_of(len))
}

/// A vehicle set down on the lane at place `k` of its lane route.
pub open spec fn set_down(
    v: Vehicle,
    map: MapData,
    k: int,
    projected: Option<i64>,
    hint: Option<i64>,
) -> Vehicle {
    let lane = map.lanes.lane(v.lane_route@[k]);
    let s = set_down_at(lane.length as int, projected, hint);
    let len = set_down_length(lane.length as int);
    Vehicle {
        lane_route_pos: k as usize,
        current_lane_id: Some(lane.id),
        current_lane: lane.lane_index,
        lane_progress: s as i64,
        edge_progress: between(saturated(share(s, len)), 0, FULL as int) as i64,
        ..v
    }
}

/// Sets a vehicle down on the lane at place `k` of its lane route.
pub fn snap_vehicle_to_lane_route_physical_start(
    v: &mut Vehicle,
    map: &MapData,
    k: usize,
    projected: Option<i64>,
    hint: Option<i64>,
)
    requires
        k < old(v).lane_route@.len(),
        map.lanes.has(old(v).lane_route@[k as int]),
    ensures
        *final(v) == set_down(*old(v), *map, k as int, projected, hint),
{
    match lane_of(map, v.lane_route[k]) {
        Some(lane) => {
            let s: i64 = set_down_distance(lane.length, projected, hint);
            let len: i64 = max_of(lane.length, 1_000);
            v.lane_route_pos = k;
            v.current_lane_id = Some(lane.id);
            v.current_lane = lane.lane_index;
            v.lane_progress = s;
            v.edge_progress = clamp_to(share_of(s, len), 0, FULL);
        },
        None => {},
    }
}

/// Where a point projects to on some lanes: how far along each.
pub open spec fn projection(list: Seq<(u64, i64)>, id: u64) -> Option<i64>
    decreases list.len(),
{
    if list.len() == 0 {
        None
    } else if list[0].0 == id {
        Some(list[0].1)
    } else {
        projection(list.skip(1), id)
    }
}

/// Where a point projects to on a lane.
pub fn find_projection(list: &Vec<(u64, i64)>, id: u64) -> (r: Option<i64>)
    ensures
        r == projection(list@, id),
{
    let mut i: usize = 0;
    assert(list@.skip(0) =~= list@);
    while i < list.len()
        invariant
            i <= list@.len(),
            projection(list@, id) == projection(list@.skip(i as int), id),
        decreases list.len() - i,
    {
        assert(list@.skip(i as int)[0] == list@[i as int]);
        assert(list@.skip(i as int).skip(1) =~= list@.skip(i + 1));
        if list[i].0 == id {
            return Some(list[i].1);
        }
        i = i + 1;
    }
    None
}

/// The place of the next lane of an edge in a lane route: the one with the wanted index, else the
/// first.
pub open spec fn handover_place(
    v: Vehicle,
    map: MapData,
    from: int,
    e: u64,
    lane: u8,
) -> Option<int> {
    match place_on_edge(map, v.lane_route@, from, e, Some(lane)) {
        Some(k) => Some(k),
        None => place_on_edge(map, v.lane_route@, from, e, None),
    }
}

/// A vehicle handed over to the next lane of an edge in its lane route, if there is one.
pub open spec fn handed_over(
    v: Vehicle,
    map: MapData,
    from: int,
    e: u64,
    lane: u8,
    projections: Seq<(u64, i64)>,
    hint: Option<i64>,
) -> Vehicle {
    match handover_place(v, map, from, e, lane) {
        Some(k) => set_down(v, map, k, projection(projections, v.lane_route@[k]), hint),
        None => v,
    }
}

/// Hands a vehicle over to the next lane of an edge in its lane route, if there is one.
pub fn apply_lane_route_handover_teleport_from_queue(
    v: &mut Vehicle,
    map: &MapData,
    from: usize,
    e: u64,
    lane: u8,
    projections: &Vec<(u64, i64)>,
    hint: Option<i64>,
) -> (r: bool)
    ensures
        r == (handover_place(*old(v), *map, from as int, e, lane) is Some),
        *final(v) == handed_over(*old(v), *map, from as int, e, lane, projections@, hint),
{
    let at: Option<usize> = match find_place_on_edge(map, &v.lane_route, from, e, Some(lane)) {
        Some(k) => Some(k),
        None => find_place_on_edge(map, &v.lane_route, from, e, None),
    };
    match at {
        Some(k) => {
            let projected: Option<i64> = find_projection(projections, v.lane_route[k]);
            snap_vehicle_to_lane_route_physical_start(v, map, k, projected, hint);
            true
        },
        None => false,
    }
}

/// A vehicle set down on a lane is on it, and not at its end.
pub proof fn law_set_down_before_end(length: int, projected: Option<i64>, hint: Option<i64>)
    ensures
        0 <= set_down_at(length, projected, hint) <= set_down_length(length),
        set_down_at(length, projected, hint) <= set_down_limit(set_down_length(length)),
        length >= 20_000_000 ==> set_down_at(length, projected, hint) <= length - LANE_END_MARGIN,
{
    let len = set_down_length(length);
    assert(len * 220 / 1_000 >= 0);
}

/// How well a lane follows another: best directly, else through a connector.
pub open spec fn reach_rank(map: MapData, prev: u64, lane: u64) -> int {
    if !map.lanes.has(prev) {
        3
    } else if map.lanes.lane(prev).connections@.contains(lane) {
        0
    } else if first_through(map, map.lanes.lane(prev).connections@, lane) is Some {
        1
    } else {
        3
    }
}

/// The first lane of a list that has a connection to a lane.
pub open spec fn first_through(map: MapData, list: Seq<u64>, lane: u64) -> Option<u64>
    decreases list.len(),
{
    if list.len() == 0 {
        None
    } else if map.lanes.has(list[0]) && map.lanes.lane(list[0]).connections@.contains(lane) {
        Some(list[0])
    } else {
        first_through(map, list.skip(1), lane)
    }
}

fn find_first_through(map: &MapData, list: &Vec<u64>, lane: u64) -> (r: Option<u64>)
    ensures
        r == first_through(*map, list@, lane),
{
    let mut i: usize = 0;
    assert(list@.skip(0) =~= list@);
    while i < list.len()
        invariant
            i <= list@.len(),
            first_through(*map, list@, lane) == first_through(*map, list@.skip(i as int), lane),
        decreases list.len() - i,
    {
        assert(list@.skip(i as int)[0] == list@[i as int]);
        assert(list@.skip(i as int).skip(1) =~= list@.skip(i + 1));
        let fits: bool = match lane_of(map, list[i]) {
            Some(l) => holds(&l.connections, lane),
            None => false,
        };
        if fits {
            return Some(list[i]);
        }
        i = i + 1;
    }
    None
}

fn rank_of(map: &MapData, prev: u64, lane: u64) -> (r: u8)
    ensures
        r == reach_rank(*map, prev, lane),
{
    match lane_of(map, prev) {
        Some(l) => if holds(&l.connections, lane) {
            0
        } else if find_first_through(map, &l.connections, lane).is_some() {
            1
        } else {
            3
        },
        None => 3,
    }
}

/// How well a lane suits as the next of a route: how well it follows the previous one, and how far
/// to the left it lies.
pub open spec fn lane_rank(map: MapData, prev: Option<u64>, lane: Lane) -> (int, int) {
    (
        match prev {
            Some(p) => reach_rank(map, p, lane.id),
            None => 0,
        },
        lane.lane_index as int,
    )
}

/// Whether one rank is better than another.
pub open spec fn better(a: (int, int), b: (int, int)) -> bool {
    a.0 < b.0 || a.0 == b.0 && a.1 < b.1
}

/// The best of the first `n` lanes that belong to an edge, and have an index where one is asked
/// for; of equals the first. It is told by its place.
pub open spec fn best_lane(
    map: MapData,
    prev: Option<u64>,
    e: u64,
    index: Option<u8>,
    n: int,
) -> Option<int>
    decreases n,
{
    if n <= 0 {
        None
    } else {
        let before = best_lane(map, prev, e, index, n - 1);
        let lane = map.lanes.lanes@[n - 1];
        if lane.edge_id == e && (index is None || lane.lane_index == index->Some_0) && (before
            is None || better(
            lane_rank(map, prev, lane),
            lane_rank(map, prev, map.lanes.lanes@[before->Some_0]),
        )) {
            Some(n - 1)
        } else {
            before
        }
    }
}

/// The next lane of a route on an edge: among the lanes with the wanted index, or all where there
/// is none, the best.
pub open spec fn chosen_lane(map: MapData, prev: Option<u64>, e: u64, index: u8) -> Option<int> {
    let n = map.lanes.lanes@.len() as int;
    match best_lane(map, prev, e, Some(index), n) {
        Some(k) => Some(k),
        None => best_lane(map, prev, e, None, n),
    }
}

pub fn find_best_lane(map: &MapData, prev: Option<u64>, e: u64, index: Option<u8>) -> (r: Option<usize>)
    ensures
        match r {
            Some(k) => k < map.lanes.lanes@.len() && best_lane(
                *map,
                prev,
                e,
                index,
                map.lanes.lanes@.len() as int,
            ) == Some(k as int),
            None => best_lane(*map, prev, e, index, map.lanes.lanes@.len() as int) is None,
        },
{
    let mut best: Option<(usize, u8, u8)> = None;
    let mut k: usize = 0;
    while k < map.lanes.lanes.len()
        invariant
            k <= map.lanes.lanes@.len(),
            match best {
                Some(b) => b.0 < k && best_lane(*map, prev, e, index, k as int) == Some(b.0 as int)
                    && (b.1 as int, b.2 as int) == lane_rank(
                    *map,
                    prev,
                    map.lanes.lanes@[b.0 as int],
                ),
                None => best_lane(*map, prev, e, index, k as int) is None,
            },
        decreases map.lanes.lanes.len() - k,
    {
        let lane: &Lane = &map.lanes.lanes[k];
        let fits: bool = lane.edge_id == e && match index {
            Some(i) => lane.lane_index == i,
            None => true,
        };
        if fits {
            let rank: u8 = match prev {
                Some(p) => rank_of(map, p, lane.id),
                None => 0,
            };
            let wins: bool = match best {
                Some(b) => rank < b.1 || rank == b.1 && lane.lane_index < b.2,
                None => true,
            };
            if wins {
                best = Some((k, rank, lane.lane_index));
            }
        }
        k = k + 1;
    }
    match best {
        Some(b) => Some(b.0),
        None => None,
    }
}

/// The lanes and connectors along a route: on each edge the chosen lane, reached directly or, where
/// there is one, through a connector. Edges without lanes are left out.
pub open spec fn lanes_along(map: MapData, route: Seq<usize>, index: u8) -> Seq<u64>
    decreases route.len(),
{
    if route.len() == 0 {
        Seq::empty()
    } else {
        let before = lanes_along(map, route.drop_last(), index);
        let prev = if before.len() > 0 {
            Some(before.last())
        } else {
            None
        };
        match chosen_lane(map, prev, route.last() as u64, index) {
            Some(k) => {
                let id = map.lanes.lanes@[k].id;
                match prev {
                    Some(p) => if map.lanes.has(p) && !map.lanes.lane(p).connections@.contains(id) {
                        match first_through(map, map.lanes.lane(p).connections@, id) {
                            Some(c) => before.push(c).push(id),
                            None => before.push(id),
                        }
                    } else {
                        before.push(id)
                    },
                    None => before.push(id),
                }
            },
            None => before,
        }
    }
}

/// The lanes and connectors along a route.
pub fn build_lane_route_from_edge_route(map: &MapData, route: &Vec<usize>, lane_idx: u8) -> (r: Vec<
    u64,
>)
    ensures
        r@ == lanes_along(*map, route@, lane_idx),
{
    let mut out: Vec<u64> = Vec::new();
    let mut i: usize = 0;
    assert(route@.take(0) =~= Seq::<usize>::empty());
    while i < route.len()
        invariant
            i <= route@.len(),
            out@ == lanes_along(*map, route@.take(i as int), lane_idx),
        decreases route.len() - i,
    {
        assert(route@.take(i + 1).drop_last() =~= route@.take(i as int));
        assert(route@.take(i + 1).last() == route@[i as int]);
        let prev: Option<u64> = if out.len() > 0 {
            Some(out[out.len() - 1])
        } else {
            None
        };
        let e: u64 = route[i] as u64;
        let chosen: Option<usize> = match find_best_lane(map, prev, e, Some(lane_idx)) {
            Some(k) => Some(k),
            None => find_best_lane(map, prev, e, None),
        };
        match chosen {
            Some(k) => {
                let id: u64 = map.lanes.lanes[k].id;
                match prev {
                    Some(p) => match lane_of(map, p) {
                        Some(l) => {
                            if !holds(&l.connections, id) {
                                match find_first_through(map, &l.connections, id) {
                                    Some(c) => {
                                        out.push(c);
                                    },
                                    None => {},
                                }
                            }
                        },
                        None => {},
                    },
                    None => {},
                }
                out.push(id);
            },
            None => {},
        }
        i = i + 1;
    }
    assert(route@.take(i as int) =~= route@);
    out
}

/// A piece of a path that is drawn.
#[derive(Clone, Copy, Debug, PartialEq, Eq, Structural)]
pub enum PathPiece {
    /// Along the middle of a lane.
    Lane(u64),
    /// Along a connector.
    Connector(u64),
    /// The turn between lanes of two edges, by its own shape.
    Turn { in_edge: usize, out_edge: usize, in_lane: u8, out_lane: u8 },
}

/// The connector from a lane of an edge to some lane of another, the wanted one first and then the
/// others from left to right from `from` on, with the lane it leads to.
pub open spec fn connector_to_any(
    map: MapData,
    in_edge: usize,
    in_lane: u8,
    out_edge: usize,
    wanted: u8,
    lanes: int,
    from: int,
) -> Option<(u64, u8)>
    decreases lanes - from,
{
    if from >= lanes {
        None
    } else if from != wanted && connector_between(
        map,
        in_edge,
        in_lane,
        out_edge,
        from as u8,
    ) is Some {
        Some((connector_between(map, in_edge, in_lane, out_edge, from as u8)->Some_0, from as u8))
    } else {
        connector_to_any(map, in_edge, in_lane, out_edge, wanted, lanes, from + 1)
    }
}

/// The connector from a lane of an edge to another edge, with the lane it leads to.
pub open spec fn resolved_connector(
    map: MapData,
    in_edge: usize,
    in_lane: u8,
    out_edge: usize,
    wanted: u8,
    lanes: int,
) -> Option<(u64, u8)> {
    match connector_between(map, in_edge, in_lane, out_edge, wanted) {
        Some(c) => Some((c, wanted)),
        None => connector_to_any(map, in_edge, in_lane, out_edge, wanted, lanes, 0),
    }
}

fn resolve_connector(
    map: &MapData,
    in_edge: usize,
    in_lane: u8,
    out_edge: usize,
    wanted: u8,
    lanes: u8,
) -> (r: Option<(u64, u8)>)
    ensures
        r == resolved_connector(*map, in_edge, in_lane, out_edge, wanted, lanes as int),
{
    match find_connector_lane_id(map, in_edge, in_lane, out_edge, wanted) {
        Some(c) => {
            return Some((c, wanted));
        },
        None => {},
    }
    let mut lane: u8 = 0;
    while lane < lanes
        invariant
            lane <= lanes,
            connector_between(*map, in_edge, in_lane, out_edge, wanted) is None,
            connector_to_any(*map, in_edge, in_lane, out_edge, wanted, lanes as int, 0)
                == connector_to_any(
                *map,
                in_edge,
                in_lane,
                out_edge,
                wanted,
                lanes as int,
                lane as int,
            ),
        decreases lanes - lane,
    {
        if lane != wanted {
            match find_connector_lane_id(map, in_edge, in_lane, out_edge, lane) {
                Some(c) => {
                    return Some((c, lane));
                },
                None => {},
            }
        }
        lane = lane + 1;
    }
    None
}

/// One turn of a route: its piece of path and the lane it leads to. `out` is the lane by which the
/// turn before led on.
pub open spec fn turn_piece(v: Vehicle, map: MapData, i: int, out: u8) -> (PathPiece, u8) {
    let in_edge = v.route@[i];
    let out_edge = v.route@[i + 1];
    let first = i == v.route_pos;
    let from = smaller(
        if first {
            v.current_lane as int
        } else {
            out as int
        },
        lanes_of(map, in_edge) - 1,
    ) as u8;
    let to = smaller(
        if first {
            v.target_lane as int
        } else {
            from as int
        },
        lanes_of(map, out_edge) - 1,
    ) as u8;
    match resolved_connector(map, in_edge, from, out_edge, to, lanes_of(map, out_edge)) {
        Some(c) => (PathPiece::Connector(c.0), c.1),
        None => (
            PathPiece::Turn { in_edge, out_edge, in_lane: from, out_lane: to },
            to,
        ),
    }
}

/// The turns of a route from place `start` up to place `n`, and the lane by which the last led on.
pub open spec fn turn_pieces(v: Vehicle, map: MapData, start: int, n: int) -> (Seq<PathPiece>, u8)
    decreases n - start,
{
    if n <= start {
        (Seq::empty(), v.current_lane)
    } else {
        let before = turn_pieces(v, map, start, n - 1);
        let p = turn_piece(v, map, n - 1, before.1);
        (before.0.push(p.0), p.1)
    }
}

/// Where the turns of a route begin that are still ahead.
pub open spec fn first_turn(v: Vehicle, skip_first: bool) -> int {
    if skip_first {
        v.route_pos + 1
    } else {
        v.route_pos as int
    }
}

/// The turns that are still ahead on a route: connectors where there are any.
pub fn append_remaining_route_via_lane_connectors(
    v: &Vehicle,
    map: &MapData,
    skip_first_movement_connector: bool,
) -> (r: Vec<PathPiece>)
    ensures
        r@ == turn_pieces(
            *v,
            *map,
            first_turn(*v, skip_first_movement_connector),
            v.route@.len() - 1,
        ).0,
{
    let mut out: Vec<PathPiece> = Vec::new();
    assert(v.route.len() == v.route@.len());
    if v.route_pos >= v.route.len() {
        return out;
    }
    let start: usize = if skip_first_movement_connector {
        v.route_pos + 1
    } else {
        v.route_pos
    };
    let end: usize = v.route.len() - 1;
    if start >= end {
        return out;
    }
    let mut lane_out: u8 = v.current_lane;
    let mut i: usize = start;
    while i < end
        invariant
            start <= i <= end,
            end + 1 == v.route@.len(),
            start == first_turn(*v, skip_first_movement_connector),
            (out@, lane_out) == turn_pieces(*v, *map, start as int, i as int),
        decreases end - i,
    {
        let in_edge: usize = v.route[i];
        let out_edge: usize = v.route[i + 1];
        let in_lanes: u8 = edge_lanes(map, in_edge);
        let out_lanes: u8 = edge_lanes(map, out_edge);
        let first: bool = i == v.route_pos;
        let from_raw: u8 = if first {
            v.current_lane
        } else {
            lane_out
        };
        let from: u8 = if from_raw <= in_lanes - 1 {
            from_raw
        } else {
            in_lanes - 1
        };
        let to_raw: u8 = if first {
            v.target_lane
        } else {
            from
        };
        let to: u8 = if to_raw <= out_lanes - 1 {
            to_raw
        } else {
            out_lanes - 1
        };
        match resolve_connector(map, in_edge, from, out_edge, to, out_lanes) {
            Some(c) => {
                out.push(PathPiece::Connector(c.0));
                lane_out = c.1;
            },
            None => {
                out.push(PathPiece::Turn { in_edge, out_edge, in_lane: from, out_lane: to });
                lane_out = to;
            },
        }
        i = i + 1;
    }
    out
}

/// The place in its lane route from which the way of a vehicle is drawn: for a turning vehicle that
/// of its connector.
pub open spec fn drawing_start(v: Vehicle, map: MapData) -> int {
    let len = v.lane_route@.len() as int;
    let own = match v.current_lane_id {
        Some(id) => place_in(v.lane_route@, id),
        None => None,
    };
    let turning = match v.connector_lane_id {
        Some(id) => place_in(v.lane_route@, id),
        None => None,
    };
    let edge = match edge_id(v) {
        Some(e) => place_with_edge(map, v.lane_route@, 0, e),
        None => None,
    };
    let fallback = smaller(v.lane_route_pos as int, len - 1);
    if len == 0 {
        0
    } else if v.on_turn_connector {
        match (turning, own) {
            (Some(k), _) => k,
            (None, Some(k)) => k,
            (None, None) => fallback,
        }
    } else {
        match (own, edge) {
            (Some(k), _) => k,
            (None, Some(k)) => k,
            (None, None) => fallback,
        }
    }
}

/// The first place from `from` on of a lane of an edge in a list.
pub open spec fn place_with_edge(map: MapData, list: Seq<u64>, from: int, e: u64) -> Option<int>
    decreases list.len() - from,
{
    if from < 0 || from >= list.len() {
        None
    } else if belongs_to(map, list[from], e) {
        Some(from)
    } else {
        place_with_edge(map, list, from + 1, e)
    }
}

fn find_place_with_edge(map: &MapData, list: &Vec<u64>, e: u64) -> (r: Option<usize>)
    ensures
        match r {
            Some(k) => k < list@.len() && place_with_edge(*map, list@, 0, e) == Some(k as int),
            None => place_with_edge(*map, list@, 0, e) is None,
        },
{
    let mut k: usize = 0;
    while k < list.len()
        invariant
            k <= list@.len(),
            place_with_edge(*map, list@, 0, e) == place_with_edge(*map, list@, k as int, e),
        decreases list.len() - k,
    {
        let fits: bool = match lane_of(map, list[k]) {
            Some(l) => l.edge_id == e,
            None => false,
        };
        if fits {
            return Some(k);
        }
        k = k + 1;
    }
    None
}

/// The place in its lane route from which the way of a vehicle is drawn.
pub fn lane_route_polyline_start_index(v: &Vehicle, map: &MapData) -> (r: usize)
    ensures
        r == drawing_start(*v, *map),
{
    let len: usize = v.lane_route.len();
    if len == 0 {
        return 0;
    }
    let own: Option<usize> = match v.current_lane_id {
        Some(id) => find_lane(&v.lane_route, id),
        None => None,
    };
    let fallback: usize = if v.lane_route_pos <= len - 1 {
        v.lane_route_pos
    } else {
        len - 1
    };
    let first: Option<usize> = if v.on_turn_connector {
        match v.connector_lane_id {
            Some(id) => find_lane(&v.lane_route, id),
            None => None,
        }
    } else {
        own
    };
    let second: Option<usize> = if v.on_turn_connector {
        own
    } else {
        match v.current_edge() {
            Some(e) => find_place_with_edge(map, &v.lane_route, e as u64),
            None => None,
        }
    };
    match first {
        Some(k) => k,
        None => match second {
            Some(k) => k,
            None => fallback,
        },
    }
}

/// The pieces of a list of lanes; unknown lanes are left out.
pub open spec fn lane_pieces(map: MapData, list: Seq<u64>) -> Seq<PathPiece>
    decreases list.len(),
{
    if list.len() == 0 {
        Seq::empty()
    } else {
        let before = lane_pieces(map, list.drop_last());
        let id = list.last();
        if is_connector(map, id) {
            before.push(PathPiece::Connector(id))
        } else if map.lanes.has(id) {
            before.push(PathPiece::Lane(id))
        } else {
            before
        }
    }
}

/// The pieces of the way of a vehicle by its lane route, and those that are drawn where these show no
/// step: the turns that are still ahead.
pub fn build_debug_target_path_points(v: &Vehicle, map: &MapData) -> (r: (Vec<PathPiece>, Vec<
    PathPiece,
>))
    ensures
        r.0@ == lane_pieces(*map, v.lane_route@.skip(drawing_start(*v, *map))),
        r.1@ == turn_pieces(
            *v,
            *map,
            first_turn(*v, v.on_turn_connector),
            v.route@.len() - 1,
        ).0,
{
    let start: usize = lane_route_polyline_start_index(v, map);
    let ghost rest = v.lane_route@.skip(drawing_start(*v, *map));
    proof {
        lemma_drawing_start(*v, *map);
    }
    let mut out: Vec<PathPiece> = Vec::new();
    let mut i: usize = start;
    assert(rest.take(0) =~= Seq::<u64>::empty());
    while i < v.lane_route.len()
        invariant
            start <= i <= v.lane_route@.len(),
            rest == v.lane_route@.skip(start as int),
            out@ == lane_pieces(*map, rest.take(i - start)),
        decreases v.lane_route.len() - i,
    {
        let ghost k = i - start;
        assert(rest.take(k + 1).drop_last() =~= rest.take(k));
        assert(rest.take(k + 1).last() == v.lane_route@[i as int]);
        let id: u64 = v.lane_route[i];
        match lane_of(map, id) {
            Some(l) => {
                if l.edge_id == NO_EDGE {
                    out.push(PathPiece::Connector(id));
                } else {
                    out.push(PathPiece::Lane(id));
                }
            },
            None => {},
        }
        i = i + 1;
    }
    assert(rest.take(i - start) =~= rest);
    (out, append_remaining_route_via_lane_connectors(v, map, v.on_turn_connector))
}

proof fn lemma_drawing_start(v: Vehicle, map: MapData)
    ensures
        0 <= drawing_start(v, map) <= v.lane_route@.len(),
{
    match v.current_lane_id {
        Some(id) => {
            lemma_place_in_range(v.lane_route@, id);
        },
        None => {},
    }
    match v.connector_lane_id {
        Some(id) => {
            lemma_place_in_range(v.lane_route@, id);
        },
        None => {},
    }
    match edge_id(v) {
        Some(e) => {
            lemma_place_with_edge_range(map, v.lane_route@, 0, e);
        },
        None => {},
    }
}

proof fn lemma_place_in_range(list: Seq<u64>, id: u64)
    ensures
        place_in(list, id) is Some ==> 0 <= place_in(list, id)->Some_0 < list.len(),
    decreases list.len(),
{
    if list.len() > 0 {
        lemma_place_in_range(list.drop_last(), id);
    }
}

proof fn lemma_place_with_edge_range(map: MapData, list: Seq<u64>, from: int, e: u64)
    ensures
        place_with_edge(map, list, from, e) is Some ==> 0 <= place_with_edge(
            map,
            list,
            from,
            e,
        )->Some_0 < list.len(),
    decreases list.len() - from,
{
    if 0 <= from < list.len() {
        lemma_place_with_edge_range(map, list, from + 1, e);
    }
}

proof fn lemma_first_through(map: MapData, list: Seq<u64>, lane: u64)
    ensures
        match first_through(map, list, lane) {
            Some(c) => list.contains(c) && map.lanes.has(c) && map.lanes.lane(
                c,
            ).connections@.contains(lane),
            None => true,
        },
    decreases list.len(),
{
    if list.len() > 0 {
        let rest = list.skip(1);
        lemma_first_through(map, rest, lane);
        match first_through(map, rest, lane) {
            Some(c) => {
                let i = choose|i: int| 0 <= i < rest.len() && rest[i] == c;
                assert(list[i + 1] == c);
            },
            None => {},
        }
    }
}

proof fn lemma_best_lane(map: MapData, prev: Option<u64>, e: u64, index: Option<u8>, n: int)
    ensures
        best_lane(map, prev, e, index, n) is Some ==> {
            let k = best_lane(map, prev, e, index, n)->Some_0;
            0 <= k < n && map.lanes.lanes@[k].edge_id == e
        },
    decreases n,
{
    if n > 0 {
        lemma_best_lane(map, prev, e, index, n - 1);
    }
}

/// A lane route holds only lanes of the map, and of each two that follow each other the second is
/// connected to the first or lies on another edge of the route.
pub proof fn law_lane_route_known(map: MapData, route: Seq<usize>, index: u8, i: int)
    requires
        map.lanes.numbered(),
        0 <= i < lanes_along(map, route, index).len(),
    ensures
        map.lanes.has(lanes_along(map, route, index)[i]),
        i > 0 ==> map.lanes.lane(lanes_along(map, route, index)[i - 1]).connections@.contains(
            lanes_along(map, route, index)[i],
        ) || exists|k: int|
            0 <= k < route.len() && map.lanes.lane(lanes_along(map, route, index)[i]).edge_id
                == #[trigger] route[k],
    decreases route.len(),
{
    let before = lanes_along(map, route.drop_last(), index);
    let all = lanes_along(map, route, index);
    let prev = if before.len() > 0 {
        Some(before.last())
    } else {
        None
    };
    let e = route.last() as u64;
    let n = map.lanes.lanes@.len() as int;
    lemma_best_lane(map, prev, e, Some(index), n);
    lemma_best_lane(map, prev, e, None, n);
    if i < before.len() {
        law_lane_route_known(map, route.drop_last(), index, i);
        assert(all[i] == before[i]);
        if i > 0 {
            assert(all[i - 1] == before[i - 1]);
            if !map.lanes.lane(all[i - 1]).connections@.contains(all[i]) {
                let rest = route.drop_last();
                let k = choose|k: int|
                    0 <= k < rest.len() && map.lanes.lane(before[i]).edge_id == #[trigger] rest[k];
                assert(route[k] == rest[k]);
            }
        }
    } else {
        let k = chosen_lane(map, prev, e, index)->Some_0;
        let id = map.lanes.lanes@[k].id;
        assert(map.lanes.lanes@[k].id == k + 1);
        assert(map.lanes.lane(id) == map.lanes.lanes@[k]);
        if prev is Some {
            lemma_first_through(map, map.lanes.lane(prev->Some_0).connections@, id);
            assert(all[before.len() - 1] == before.last());
        }
        assert(route[route.len() - 1] == route.last());
    }
}

/// A lane is looked for in a list from the start: the place that is found is the first at which it
/// stands.
pub proof fn law_first_place(list: Seq<u64>, id: u64)
    ensures
        match place_in(list, id) {
            Some(k) => 0 <= k < list.len() && list[k] == id && forall|j: int|
                0 <= j < k ==> #[trigger] list[j] != id,
            None => !list.contains(id),
        },
    decreases list.len(),
{
    if list.len() > 0 {
        let front = list.drop_last();
        law_first_place(front, id);
        match place_in(front, id) {
            Some(k) => {
                assert forall|j: int| 0 <= j < k implies #[trigger] list[j] != id by {
                    assert(front[j] == list[j]);
                }
            },
            None => {
                assert forall|j: int| 0 <= j < front.len() implies #[trigger] list[j] != id by {
                    assert(front[j] == list[j]);
                }
            },
        }
    }
}

/// The lane that is chosen on an edge is one of its lanes with the index that is asked for, and none of
/// these suits better.
pub proof fn law_best_lane(
    map: MapData,
    prev: Option<u64>,
    e: u64,
    index: Option<u8>,
    n: int,
)
    requires
        0 <= n <= map.lanes.lanes@.len(),
    ensures
        ({
            let lanes = map.lanes.lanes@;
            match best_lane(map, prev, e, index, n) {
                Some(k) => 0 <= k < n && lanes[k].edge_id == e && (index is None
                    || lanes[k].lane_index == index->Some_0) && forall|j: int|
                    0 <= j < n && (#[trigger] lanes[j]).edge_id == e && (index is None
                        || lanes[j].lane_index == index->Some_0) ==> !better(
                        lane_rank(map, prev, lanes[j]),
                        lane_rank(map, prev, lanes[k]),
                    ),
                None => forall|j: int|
                    0 <= j < n && (#[trigger] lanes[j]).edge_id == e ==> index is Some
                        && lanes[j].lane_index != index->Some_0,
            }
        }),
    decreases n,
{
    if n > 0 {
        law_best_lane(map, prev, e, index, n - 1);
    }
}

/// On every edge of a route that has lanes the lane route has one.
pub proof fn law_lane_route_covers(map: MapData, route: Seq<usize>, index: u8, i: int, j: int)
    requires
        map.lanes.numbered(),
        0 <= i < route.len(),
        0 <= j < map.lanes.lanes@.len(),
        map.lanes.lanes@[j].edge_id == route[i],
    ensures
        exists|k: int|
            0 <= k < lanes_along(map, route, index).len() && map.lanes.lane(
                #[trigger] lanes_along(map, route, index)[k],
            ).edge_id == route[i],
    decreases route.len(),
{
    let front = route.drop_last();
    let before = lanes_along(map, front, index);
    let now = lanes_along(map, route, index);
    if i < front.len() {
        assert(front[i] == route[i]);
        law_lane_route_covers(map, front, index, i, j);
        let k = choose|k: int|
            0 <= k < before.len() && map.lanes.lane(#[trigger] before[k]).edge_id == front[i];
        assert(now[k] == before[k]);
    } else {
        let prev = if before.len() > 0 {
            Some(before.last())
        } else {
            None
        };
        let n = map.lanes.lanes@.len() as int;
        law_best_lane(map, prev, route.last() as u64, Some(index), n);
        law_best_lane(map, prev, route.last() as u64, None, n);
        let c = chosen_lane(map, prev, route.last() as u64, index);
        assert(c is Some);
        let id = map.lanes.lanes@[c->Some_0].id;
        assert(id == c->Some_0 + 1);
        assert(now.last() == id);
        assert(map.lanes.lane(now[now.len() - 1]).edge_id == route[i]);
    }
}

/// A connector that is found joins the lanes that it is said to join; only where no lane of the next
/// edge can be reached, none is found. The wanted lane comes first.
pub proof fn law_connector_is_resolved(
    map: MapData,
    in_edge: usize,
    in_lane: u8,
    out_edge: usize,
    wanted: u8,
    lanes: int,
    l: u8,
)
    requires
        0 <= lanes <= 255,
    ensures
        ({
            let r = resolved_connector(map, in_edge, in_lane, out_edge, wanted, lanes);
            &&& r is Some ==> connector_between(map, in_edge, in_lane, out_edge, r->Some_0.1)
                == Some(r->Some_0.0)
            &&& connector_between(map, in_edge, in_lane, out_edge, wanted) is Some ==> r is Some
                && r->Some_0.1 == wanted
            &&& l < lanes && connector_between(map, in_edge, in_lane, out_edge, l) is Some ==> r
                is Some
        }),
{
    lemma_connector_to_any(map, in_edge, in_lane, out_edge, wanted, lanes, 0, l);
}

proof fn lemma_connector_to_any(
    map: MapData,
    in_edge: usize,
    in_lane: u8,
    out_edge: usize,
    wanted: u8,
    lanes: int,
    from: int,
    l: u8,
)
    requires
        0 <= from,
        lanes <= 255,
    ensures
        ({
            let r = connector_to_any(map, in_edge, in_lane, out_edge, wanted, lanes, from);
            &&& r is Some ==> connector_between(map, in_edge, in_lane, out_edge, r->Some_0.1)
                == Some(r->Some_0.0)
            &&& from <= l < lanes && l != wanted && connector_between(
                map,
                in_edge,
                in_lane,
                out_edge,
                l,
            ) is Some ==> r is Some
        }),
    decreases lanes - from,
{
    if from < lanes {
        lemma_connector_to_any(map, in_edge, in_lane, out_edge, wanted, lanes, from + 1, l);
    }
}

/// The first lane of a list that lies on an edge is found.
pub proof fn law_first_on_edge(map: MapData, list: Seq<u64>, from: int, e: u64)
    requires
        0 <= from,
    ensures
        match place_with_edge(map, list, from, e) {
            Some(k) => from <= k < list.len() && belongs_to(map, list[k], e) && forall|j: int|
                from <= j < k ==> !belongs_to(map, #[trigger] list[j], e),
            None => forall|j: int|
                from <= j < list.len() ==> !belongs_to(map, #[trigger] list[j], e),
        },
    decreases list.len() - from,
{
    if from < list.len() && !belongs_to(map, list[from], e) {
        law_first_on_edge(map, list, from + 1, e);
    }
}

/// After a connector the search goes on behind its first place in the lane route; without one, or where
/// the route does not hold it, at the place that the vehicle has reached.
pub proof fn law_search_goes_on(v: Vehicle, c: u64)
    ensures
        0 <= scan_start(v, Some(c)) <= v.lane_route@.len(),
        scan_start(v, None) <= v.lane_route_pos,
        v.lane_route_pos <= v.lane_route@.len() ==> scan_start(v, None) == v.lane_route_pos,
        v.lane_route@.contains(c) ==> {
            let k = scan_start(v, Some(c)) - 1;
            0 <= k < v.lane_route@.len() && v.lane_route@[k] == c && forall|j: int|
                0 <= j < k ==> #[trigger] v.lane_route@[j] != c
        },
        !v.lane_route@.contains(c) ==> scan_start(v, Some(c)) == scan_start(v, None),
{
    law_first_place(v.lane_route@, c);
}

/// A lane that is connected directly is preferred to one over a connector, and that to any other.
pub proof fn law_ranks(map: MapData, prev: u64, lane: u64)
    ensures
        map.lanes.has(prev) && map.lanes.lane(prev).connections@.contains(lane) ==> reach_rank(
            map,
            prev,
            lane,
        ) < 1,
        map.lanes.has(prev) && !map.lanes.lane(prev).connections@.contains(lane) && (exists|i: int|
            0 <= i < map.lanes.lane(prev).connections@.len() && map.lanes.has(
                #[trigger] map.lanes.lane(prev).connections@[i],
            ) && map.lanes.lane(map.lanes.lane(prev).connections@[i]).connections@.contains(lane))
            ==> reach_rank(map, prev, lane) == 1,
        !map.lanes.has(prev) ==> reach_rank(map, prev, lane) > 1,
        map.lanes.has(prev) && !map.lanes.lane(prev).connections@.contains(lane) && !(exists|i: int|
            0 <= i < map.lanes.lane(prev).connections@.len() && map.lanes.has(
                #[trigger] map.lanes.lane(prev).connections@[i],
            ) && map.lanes.lane(map.lanes.lane(prev).connections@[i]).connections@.contains(lane))
            ==> reach_rank(map, prev, lane) > 1,
{
    if map.lanes.has(prev) {
        lemma_through(map, map.lanes.lane(prev).connections@, lane);
    }
}

proof fn lemma_through(map: MapData, list: Seq<u64>, lane: u64)
    ensures
        first_through(map, list, lane) is Some <==> exists|i: int|
            0 <= i < list.len() && map.lanes.has(#[trigger] list[i]) && map.lanes.lane(
                list[i],
            ).connections@.contains(lane),
    decreases list.len(),
{
    if list.len() > 0 {
        let rest = list.skip(1);
        lemma_through(map, rest, lane);
        if first_through(map, rest, lane) is Some {
            let i = choose|i: int|
                0 <= i < rest.len() && map.lanes.has(#[trigger] rest[i]) && map.lanes.lane(
                    rest[i],
                ).connections@.contains(lane);
            assert(list[i + 1] == rest[i]);
        }
        if exists|i: int|
            0 <= i < list.len() && map.lanes.has(#[trigger] list[i]) && map.lanes.lane(
                list[i],
            ).connections@.contains(lane) {
            let i = choose|i: int|
                0 <= i < list.len() && map.lanes.has(#[trigger] list[i]) && map.lanes.lane(
                    list[i],
                ).connections@.contains(lane);
            if i > 0 {
                assert(rest[i - 1] == list[i]);
            }
        }
    }
}

} // verus!
