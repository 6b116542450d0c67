//! How full the roads are.

use vstd::prelude::*;

use crate::map::map_data::MapData;
use crate::map::road_network::RoadEdge;
use crate::units::{larger, smaller};
use crate::vehicles::vehicle::Vehicle;

verus! {

/// The congestion of an edge, at its middle: full is a million.
#[derive(Clone, Copy, Debug)]
pub struct CongestionData {
    pub edge_id: u64,
    pub level: i64,
    pub lat: i64,
    pub lng: i64,
}

/// How many vehicles drive on an edge.
pub open spec fn vehicles_on(vehicles: Seq<Vehicle>, e: usize) -> nat
    decreases vehicles.len(),
{
    if vehicles.len() == 0 {
        0
    } else {
        let before = vehicles_on(vehicles.drop_last(), e);
        if vehicles.last().edge() == Some(e) {
            before + 1
        } else {
            before
        }
    }
}

/// How many vehicles of five metres fit on the lanes of an edge, in millionths, at least one.
pub open spec fn capacity(lanes: int, length: int) -> int {
    larger(lanes * length / 5, 1_000_000)
}

/// How full an edge is with some vehicles, in millionths, at most full.
pub open spec fn fullness(count: int, lanes: int, length: int) -> int {
    smaller(count * 1_000_000_000_000 / capacity(lanes, length), 1_000_000)
}

/// What is told of an edge.
pub open spec fn congestion_of(
    map: MapData,
    e: int,
    count: int,
) -> CongestionData {
    let edge = map.edges@[e];
    let a = map.nodes@[map.graph.ends()[e].0];
    let b = map.nodes@[map.graph.ends()[e].1];
    CongestionData {
        edge_id: edge.osm_id,
        level: fullness(count, edge.lanes as int, edge.length as int) as i64,
        lat: ((a.lat + b.lat) / 2) as i64,
        lng: ((a.lng + b.lng) / 2) as i64,
    }
}

/// What is told of the first `n` edges: those on which vehicles drive, in order.
pub open spec fn congestion(map: MapData, vehicles: Seq<Vehicle>, n: int) -> Seq<CongestionData>
    decreases n,
{
    if n <= 0 {
        Seq::empty()
    } else {
        let before = congestion(map, vehicles, n - 1);
        let count = vehicles_on(vehicles, (n - 1) as usize);
        if count > 0 {
            before.push(congestion_of(map, n - 1, count as int))
        } else {
            before
        }
    }
}

fn count_on(vehicles: &Vec<Vehicle>, e: usize) -> (r: usize)
    ensures
        r == vehicles_on(vehicles@, e),
{
    let mut count: usize = 0;
    let mut i: usize = 0;
    assert(vehicles@.take(0) =~= Seq::<Vehicle>::empty());
    while i < vehicles.len()
        invariant
            i <= vehicles@.len(),
            count <= i,
            count == vehicles_on(vehicles@.take(i as int), e),
        decreases vehicles.len() - i,
    {
        assert(vehicles@.take(i + 1).drop_last() =~= vehicles@.take(i as int));
        assert(vehicles@.take(i + 1).last() == vehicles@[i as int]);
        let here: bool = match vehicles[i].current_edge() {
            Some(x) => x == e,
            None => false,
        };
        if here {
            count = count + 1;
        }
        i = i + 1;
    }
    assert(vehicles@.take(i as int) =~= vehicles@);
    count
}

fn fullness_of(count: usize, edge: &RoadEdge) -> (r: i64)
    ensures
        r == fullness(count as int, edge.lanes as int, edge.length as int),
{
    proof {
        let n = edge.lanes as int;
        let l = edge.length as int;
        assert(-0x100_0000_0000_0000_0000 <= n * l <= 0x100_0000_0000_0000_0000)
            by (nonlinear_arith)
            requires
                0 <= n <= 255,
                -0x8000_0000_0000_0000 <= l <= 0x7fff_ffff_ffff_ffff,
        ;
    }
    let product: i128 = edge.lanes as i128 * edge.length as i128;
    let room: i128 = crate::units::floor_div(product, 5);
    let cap: i128 = if room >= 1_000_000 {
        room
    } else {
        1_000_000
    };
    proof {
        let c = count as int;
        let k = cap as int;
        assert(c * 1_000_000_000_000 / k >= 0) by (nonlinear_arith)
            requires
                c >= 0,
                k > 0,
        ;
    }
    let level: i128 = count as i128 * 1_000_000_000_000 / cap;
    if level <= 1_000_000 {
        level as i64
    } else {
        1_000_000
    }
}

/// How full the edges are on which vehicles drive.
pub fn compute_congestion(map: &MapData, vehicles: &Vec<Vehicle>) -> (r: Vec<CongestionData>)
    requires
        map.wf(),
    ensures
        r@ == congestion(*map, vehicles@, map.edges@.len() as int),
{
    let mut out: Vec<CongestionData> = Vec::new();
    let mut e: usize = 0;
    proof {
        map.graph.lemma_wf();
    }
    while e < map.edges.len()
        invariant
            e <= map.edges@.len(),
            map.wf(),
            out@ == congestion(*map, vehicles@, e as int),
        decreases map.edges.len() - e,
    {
        proof {
            map.graph.lemma_wf();
        }
        let count: usize = count_on(vehicles, e);
        if count > 0 {
            match map.graph.edge_endpoints(e) {
                Some((a, b)) => {
                    let lat: i128 = map.nodes[a].lat as i128 + map.nodes[b].lat as i128;
                    let lng: i128 = map.nodes[a].lng as i128 + map.nodes[b].lng as i128;
                    out.push(
                        CongestionData {
                            edge_id: map.edges[e].osm_id,
                            level: fullness_of(count, &map.edges[e]),
                            lat: crate::units::floor_div(lat, 2) as i64,
                            lng: crate::units::floor_div(lng, 2) as i64,
                        },
                    );
                },
                None => {},
            }
        }
        e = e + 1;
    }
    out
}

/// More vehicles never make an edge less full, and no edge is more than full.
pub proof fn law_fullness_grows(few: int, many: int, lanes: int, length: int)
    requires
        0 <= few <= many,
    ensures
        0 <= fullness(few, lanes, length) <= fullness(many, lanes, length) <= 1_000_000,
{
    let k = capacity(lanes, length);
    assert(0 <= few * 1_000_000_000_000 / k <= many * 1_000_000_000_000 / k) by (nonlinear_arith)
        requires
            0 <= few <= many,
            k > 0,
    ;
}

/// The number of vehicles on an edge is how many of the list drive on it.
pub proof fn law_vehicles_counted(vehicles: Seq<Vehicle>, e: usize)
    ensures
        vehicles_on(vehicles, e) == vehicles.filter(|v: Vehicle| v.edge() == Some(e)).len(),
    decreases vehicles.len(),
{
    reveal(Seq::filter);
    if vehicles.len() > 0 {
        law_vehicles_counted(vehicles.drop_last(), e);
    }
}

/// An edge is as full as its vehicles, at five metres each, take of the length of its lanes together:
/// where they fill it, it is full, and else the share is told, rounded down. An edge shorter than one
/// vehicle is full with one.
pub proof fn law_fullness_is_share(count: int, lanes: int, length: int)
    requires
        0 <= count,
        5_000_000 <= lanes * length,
        lanes * length % 5 == 0,
    ensures
        count * 5_000_000 >= lanes * length ==> fullness(count, lanes, length) == 1_000_000,
        count * 5_000_000 < lanes * length ==> {
            let f = fullness(count, lanes, length);
            f * (lanes * length) <= count * 5_000_000 * 1_000_000 < (f + 1) * (lanes * length)
        },
        fullness(0, lanes, length) == 0,
{
    let l = lanes * length;
    let c = l / 5;
    let n = count * 1_000_000_000_000;
    let f = n / c;
    assert(c >= 1_000_000 && l == 5 * c);
    assert(f * c <= n < (f + 1) * c) by (nonlinear_arith)
        requires
            c > 0,
            f == n / c,
    ;
    assert(f * l == 5 * (f * c) && (f + 1) * l == 5 * ((f + 1) * c)) by (nonlinear_arith)
        requires
            l == 5 * c,
    ;
    assert(count * 5_000_000 < l ==> f < 1_000_000) by (nonlinear_arith)
        requires
            l == 5 * c,
            c > 0,
            f * c <= count * 1_000_000_000_000,
    ;
    assert(count * 5_000_000 >= l ==> f >= 1_000_000) by (nonlinear_arith)
        requires
            l == 5 * c,
            c > 0,
            count * 1_000_000_000_000 < (f + 1) * c,
    ;
    assert(0int * 1_000_000_000_000 / c == 0) by (nonlinear_arith)
        requires
            c > 0,
    ;
}

/// Every edge on which vehicles drive is told of, and no other.
pub proof fn law_busy_edges_are_told(map: MapData, vehicles: Seq<Vehicle>, n: int, i: int)
    requires
        0 <= i < n <= usize::MAX,
        vehicles_on(vehicles, i as usize) > 0,
    ensures
        congestion(map, vehicles, n).contains(
            congestion_of(map, i, vehicles_on(vehicles, i as usize) as int),
        ),
    decreases n,
{
    let now = congestion(map, vehicles, n);
    let before = congestion(map, vehicles, n - 1);
    if i < n - 1 {
        law_busy_edges_are_told(map, vehicles, n - 1, i);
        let k = choose|k: int|
            0 <= k < before.len() && before[k] == congestion_of(
                map,
                i,
                vehicles_on(vehicles, i as usize) as int,
            );
        assert(now[k] == before[k]);
    } else {
        assert(now[before.len() as int] == now.last());
    }
}

/// Congestion is shown in the middle between the ends of its edge.
pub proof fn law_shown_in_the_middle(map: MapData, e: int, count: int)
    ensures
        ({
            let a = map.nodes@[map.graph.ends()[e].0];
            let b = map.nodes@[map.graph.ends()[e].1];
            let c = congestion_of(map, e, count);
            &&& 0 <= a.lat + b.lat - 2 * c.lat <= 1
            &&& 0 <= a.lng + b.lng - 2 * c.lng <= 1
            &&& c.edge_id == map.edges@[e].osm_id
        }),
{
}

} // verus!
