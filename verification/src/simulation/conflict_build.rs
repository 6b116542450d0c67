//! Finding the ways through the junctions of a map and the places where they cross.

use vstd::prelude::*;

use crate::map::map_data::MapData;
use crate::simulation::conflict::{
    near_each_other, ConflictPath, ConflictPoint, ConflictSystem, IntersectionConflictData,
    LaneMovementKey,
};
use crate::simulation::direction::{
    cosine_above, ends_of, heading_between, is_cosine_above, node_heading,
};
use crate::simulation::right_of_way::{
    lane_pairs, lanes_of, turn_intent, valid_lane_pairs_for_movement,
};
use crate::units::{closer_than, METRE};

verus! {

/// Below this angle a way through a junction needs no turn: the square of the cosine of 0.35
/// radians, in millionths.
pub const TURN_MIN_COSINE_SQUARE: u32 = 882_421;

/// Radius of a conflict point.
pub const POINT_RADIUS: i64 = 2_000_000;

/// Conflict points closer along the path than this may be one.
pub const SAME_POINT_DISTANCE: i64 = 500_000;

/// A place where two ways through a junction cross: the ways by their places in the list, the point,
/// and how far along each of them it lies.
#[derive(Clone, Copy, Debug)]
pub struct Crossing {
    pub a: usize,
    pub b: usize,
    pub x: i64,
    pub y: i64,
    pub along_a: i64,
    pub along_b: i64,
}

/// Whether the way from one edge to another through `node` bends.
pub open spec fn bends(map: MapData, in_edge: usize, out_edge: usize, node: int) -> bool {
    match (ends_of(map, in_edge), ends_of(map, out_edge)) {
        (Some(i), Some(o)) => i.1 == node && o.0 == node && !cosine_above(
            node_heading(map.nodes@[i.0], map.nodes@[node]),
            node_heading(map.nodes@[node], map.nodes@[o.1]),
            TURN_MIN_COSINE_SQUARE as int,
        ),
        _ => false,
    }
}

/// Whether the way from one edge to another through `node` bends.
pub fn does_bend(map: &MapData, in_edge: usize, out_edge: usize, node: usize) -> (r: bool)
    requires
        map.wf(),
        node < map.nodes@.len(),
    ensures
        r == bends(*map, in_edge, out_edge, node as int),
{
    proof {
        map.graph.lemma_wf();
    }
    match (map.graph.edge_endpoints(in_edge), map.graph.edge_endpoints(out_edge)) {
        (Some((a, t)), Some((s, b))) => t == node && s == node && !is_cosine_above(
            heading_between(&map.nodes[a], &map.nodes[node]),
            heading_between(&map.nodes[node], &map.nodes[b]),
            TURN_MIN_COSINE_SQUARE,
        ),
        _ => false,
    }
}

/// A list of ways with one more, unless it is there already.
pub open spec fn with_key(keys: Seq<LaneMovementKey>, k: LaneMovementKey) -> Seq<LaneMovementKey> {
    if keys.contains(k) {
        keys
    } else {
        keys.push(k)
    }
}

/// A list of ways with those from one edge to another by some pairs of lanes.
pub open spec fn with_pairs(
    keys: Seq<LaneMovementKey>,
    in_edge: usize,
    out_edge: usize,
    pairs: Seq<(u8, u8)>,
) -> Seq<LaneMovementKey>
    decreases pairs.len(),
{
    if pairs.len() == 0 {
        keys
    } else {
        with_key(
            with_pairs(keys, in_edge, out_edge, pairs.drop_last()),
            LaneMovementKey {
                in_edge,
                out_edge,
                in_lane: pairs.last().0,
                out_lane: pairs.last().1,
            },
        )
    }
}

/// A list of ways with those from one edge to another through `node`, where the way bends.
pub open spec fn with_movement(
    map: MapData,
    keys: Seq<LaneMovementKey>,
    in_edge: usize,
    out_edge: usize,
    node: int,
) -> Seq<LaneMovementKey> {
    if bends(map, in_edge, out_edge, node) {
        with_pairs(
            keys,
            in_edge,
            out_edge,
            lane_pairs(
                lanes_of(map, in_edge),
                lanes_of(map, out_edge),
                turn_intent(map, (in_edge, out_edge), node),
            ),
        )
    } else {
        keys
    }
}

/// A list of ways with those from one edge to the first `n` edges out of `node`.
pub open spec fn with_exits(
    map: MapData,
    keys: Seq<LaneMovementKey>,
    in_edge: usize,
    node: int,
    n: int,
) -> Seq<LaneMovementKey>
    decreases n,
{
    if n <= 0 {
        keys
    } else {
        with_movement(
            map,
            with_exits(map, keys, in_edge, node, n - 1),
            in_edge,
            map.graph.out_edges(node)[n - 1] as usize,
            node,
        )
    }
}

/// The ways through `node` from the first `n` edges into it.
pub open spec fn ways_from(map: MapData, node: int, n: int) -> Seq<LaneMovementKey>
    decreases n,
{
    if n <= 0 {
        Seq::empty()
    } else {
        with_exits(
            map,
            ways_from(map, node, n - 1),
            map.graph.in_edges(node)[n - 1] as usize,
            node,
            map.graph.out_edges(node).len() as int,
        )
    }
}

/// The ways through `node` that bend.
pub open spec fn ways_through(map: MapData, node: int) -> Seq<LaneMovementKey> {
    ways_from(map, node, map.graph.in_edges(node).len() as int)
}

/// Whether ways may cross at a node: at least two edges lead into it and one out of it.
pub open spec fn may_cross(map: MapData, node: int) -> bool {
    map.graph.in_edges(node).len() >= 2 && map.graph.out_edges(node).len() > 0
}

fn has_key(keys: &Vec<LaneMovementKey>, k: LaneMovementKey) -> (r: bool)
    ensures
        r == keys@.contains(k),
{
    let mut i: usize = 0;
    while i < keys.len()
        invariant
            i <= keys@.len(),
            forall|j: int| 0 <= j < i ==> keys@[j] != k,
        decreases keys.len() - i,
    {
        if keys[i] == k {
            return true;
        }
        i = i + 1;
    }
    false
}

fn add_movement(
    map: &MapData,
    keys: &mut Vec<LaneMovementKey>,
    in_edge: usize,
    out_edge: usize,
    node: usize,
)
    requires
        map.wf(),
        node < map.nodes@.len(),
        old(keys)@.no_duplicates(),
    ensures
        final(keys)@ == with_movement(*map, old(keys)@, in_edge, out_edge, node as int),
        final(keys)@.no_duplicates(),
{
    if !does_bend(map, in_edge, out_edge, node) {
        return ;
    }
    let pairs: Vec<(u8, u8)> = valid_lane_pairs_for_movement(map, in_edge, out_edge, node);
    let ghost before = keys@;
    let mut i: usize = 0;
    assert(pairs@.take(0) =~= Seq::<(u8, u8)>::empty());
    while i < pairs.len()
        invariant
            i <= pairs@.len(),
            keys@ == with_pairs(before, in_edge, out_edge, pairs@.take(i as int)),
            keys@.no_duplicates(),
        decreases pairs.len() - i,
    {
        assert(pairs@.take(i + 1).drop_last() =~= pairs@.take(i as int));
        assert(pairs@.take(i + 1).last() == pairs@[i as int]);
        let k = LaneMovementKey { in_edge, out_edge, in_lane: pairs[i].0, out_lane: pairs[i].1 };
        if !has_key(keys, k) {
            proof {
                assert forall|a: int, b: int|
                    0 <= a < keys@.push(k).len() && 0 <= b < keys@.push(k).len() && a
                        != b implies keys@.push(k)[a] != keys@.push(k)[b] by {
                    if a < keys@.len() {
                        assert(keys@.contains(keys@[a]));
                    }
                    if b < keys@.len() {
                        assert(keys@.contains(keys@[b]));
                    }
                }
            }
            keys.push(k);
        }
        i = i + 1;
    }
    assert(pairs@.take(i as int) =~= pairs@);
}

/// The ways through a node that bend, each once.
pub fn movement_keys(map: &MapData, node: usize) -> (r: Vec<LaneMovementKey>)
    requires
        map.wf(),
        node < map.nodes@.len(),
    ensures
        r@ == ways_through(*map, node as int),
        r@.no_duplicates(),
{
    let incoming: Vec<usize> = map.graph.incoming(node);
    let outgoing: Vec<usize> = map.graph.outgoing(node);
    let mut keys: Vec<LaneMovementKey> = Vec::new();
    let mut i: usize = 0;
    while i < incoming.len()
        invariant
            i <= incoming@.len(),
            map.wf(),
            node < map.nodes@.len(),
            incoming@.len() == map.graph.in_edges(node as int).len(),
            outgoing@.len() == map.graph.out_edges(node as int).len(),
            forall|k: int|
                0 <= k < incoming@.len() ==> #[trigger] incoming@[k] == map.graph.in_edges(
                    node as int,
                )[k],
            forall|k: int|
                0 <= k < outgoing@.len() ==> #[trigger] outgoing@[k] == map.graph.out_edges(
                    node as int,
                )[k],
            keys@ == ways_from(*map, node as int, i as int),
            keys@.no_duplicates(),
        decreases incoming.len() - i,
    {
        let ghost before = keys@;
        let mut j: usize = 0;
        while j < outgoing.len()
            invariant
                i < incoming@.len(),
                j <= outgoing@.len(),
                map.wf(),
                node < map.nodes@.len(),
                forall|k: int|
                    0 <= k < outgoing@.len() ==> #[trigger] outgoing@[k] == map.graph.out_edges(
                        node as int,
                    )[k],
                keys@ == with_exits(*map, before, incoming@[i as int], node as int, j as int),
                keys@.no_duplicates(),
            decreases outgoing.len() - j,
        {
            add_movement(map, &mut keys, incoming[i], outgoing[j], node);
            j = j + 1;
        }
        i = i + 1;
    }
    keys
}

/// A free conflict point.
pub open spec fn fresh_point(id: int, c: Crossing, distance: i64) -> ConflictPoint {
    ConflictPoint {
        id: id as u64,
        x: c.x,
        y: c.y,
        distance_on_path: distance,
        radius: POINT_RADIUS,
        reserved_by: None,
        reserved_at: None,
        last_progress: None,
        last_motion: None,
    }
}

fn new_point(id: u64, c: &Crossing, distance: i64) -> (r: ConflictPoint)
    ensures
        r == fresh_point(id as int, *c, distance),
{
    ConflictPoint {
        id,
        x: c.x,
        y: c.y,
        distance_on_path: distance,
        radius: POINT_RADIUS,
        reserved_by: None,
        reserved_at: None,
        last_progress: None,
        last_motion: None,
    }
}

/// The points of way `k` at the crossings, which are numbered in order: two numbers for each.
pub open spec fn raw_points(k: int, crossings: Seq<Crossing>) -> Seq<ConflictPoint>
    decreases crossings.len(),
{
    if crossings.len() == 0 {
        Seq::empty()
    } else {
        let before = raw_points(k, crossings.drop_last());
        let c = crossings.last();
        let n = 2 * (crossings.len() - 1);
        let with_a = if c.a == k {
            before.push(fresh_point(n + 1, c, c.along_a))
        } else {
            before
        };
        if c.b == k {
            with_a.push(fresh_point(n + 2, c, c.along_b))
        } else {
            with_a
        }
    }
}

/// A sorted list of points with one more, behind all that lie as far along the path.
pub open spec fn point_inserted(points: Seq<ConflictPoint>, p: ConflictPoint) -> Seq<ConflictPoint>
    decreases points.len(),
{
    if points.len() > 0 && p.distance_on_path < points.last().distance_on_path {
        point_inserted(points.drop_last(), p).push(points.last())
    } else {
        points.push(p)
    }
}

/// Points in the order in which they lie on the path.
pub open spec fn in_path_order(points: Seq<ConflictPoint>) -> Seq<ConflictPoint>
    decreases points.len(),
{
    if points.len() == 0 {
        Seq::empty()
    } else {
        point_inserted(in_path_order(points.drop_last()), points.last())
    }
}

/// Whether two points are close enough to be one.
pub open spec fn is_same_point(a: ConflictPoint, b: ConflictPoint) -> bool {
    -SAME_POINT_DISTANCE < a.distance_on_path - b.distance_on_path < SAME_POINT_DISTANCE
        && near_each_other(a, b)
}

/// Points without those that are one with the point kept before them.
pub open spec fn without_repeats(points: Seq<ConflictPoint>) -> Seq<ConflictPoint>
    decreases points.len(),
{
    if points.len() == 0 {
        Seq::empty()
    } else {
        let kept = without_repeats(points.drop_last());
        if kept.len() > 0 && is_same_point(points.last(), kept.last()) {
            kept
        } else {
            kept.push(points.last())
        }
    }
}

/// The conflict points of way `k`.
pub open spec fn way_points(k: int, crossings: Seq<Crossing>) -> Seq<ConflictPoint> {
    without_repeats(in_path_order(raw_points(k, crossings)))
}

fn sort_points(points: &Vec<ConflictPoint>) -> (r: Vec<ConflictPoint>)
    ensures
        r@ == in_path_order(points@),
{
    let mut out: Vec<ConflictPoint> = Vec::new();
    let mut i: usize = 0;
    assert(points@.take(0) =~= Seq::<ConflictPoint>::empty());
    while i < points.len()
        invariant
            i <= points@.len(),
            out@ == in_path_order(points@.take(i as int)),
        decreases points.len() - i,
    {
        assert(points@.take(i + 1).drop_last() =~= points@.take(i as int));
        assert(points@.take(i + 1).last() == points@[i as int]);
        let q: ConflictPoint = points[i];
        let ghost before = out@;
        let ghost goal = point_inserted(before, q);
        let mut p: usize = out.len();
        assert(before.take(p as int) =~= before);
        assert(goal + before.skip(p as int) =~= goal);
        while p > 0 && q.distance_on_path < out[p - 1].distance_on_path
            invariant
                p <= out@.len(),
                out@ == before,
                goal == point_inserted(before.take(p as int), q) + before.skip(p as int),
            decreases p,
        {
            proof {
                let front = before.take(p as int);
                assert(front.last() == before[p - 1]);
                assert(front.drop_last() =~= before.take(p - 1));
                let inner = point_inserted(before.take(p - 1), q);
                assert(inner.push(before[p - 1]) + before.skip(p as int) =~= inner + before.skip(
                    p - 1,
                ));
            }
            p = p - 1;
        }
        proof {
            let front = before.take(p as int);
            if p > 0 {
                assert(front.last() == before[p - 1]);
            }
            assert(goal =~= front.push(q) + before.skip(p as int));
            assert(before.insert(p as int, q) =~= front.push(q) + before.skip(p as int));
        }
        out.insert(p, q);
        i = i + 1;
    }
    assert(points@.take(i as int) =~= points@);
    out
}

fn same_point(a: &ConflictPoint, b: &ConflictPoint) -> (r: bool)
    ensures
        r == is_same_point(*a, *b),
{
    let d: i128 = a.distance_on_path as i128 - b.distance_on_path as i128;
    let w: i128 = SAME_POINT_DISTANCE as i128;
    -w < d && d < w && closer_than(a.x, a.y, b.x, b.y, METRE)
}

fn drop_repeats(points: &Vec<ConflictPoint>) -> (r: Vec<ConflictPoint>)
    ensures
        r@ == without_repeats(points@),
{
    let mut out: Vec<ConflictPoint> = Vec::new();
    let mut i: usize = 0;
    assert(points@.take(0) =~= Seq::<ConflictPoint>::empty());
    while i < points.len()
        invariant
            i <= points@.len(),
            out@ == without_repeats(points@.take(i as int)),
        decreases points.len() - i,
    {
        assert(points@.take(i + 1).drop_last() =~= points@.take(i as int));
        assert(points@.take(i + 1).last() == points@[i as int]);
        if out.len() == 0 || !same_point(&points[i], &out[out.len() - 1]) {
            out.push(points[i]);
        }
        i = i + 1;
    }
    assert(points@.take(i as int) =~= points@);
    out
}

fn points_of_way(k: usize, crossings: &Vec<Crossing>) -> (r: Vec<ConflictPoint>)
    requires
        crossings@.len() <= u32::MAX,
    ensures
        r@ == way_points(k as int, crossings@),
{
    let mut out: Vec<ConflictPoint> = Vec::new();
    let mut i: usize = 0;
    assert(crossings@.take(0) =~= Seq::<Crossing>::empty());
    while i < crossings.len()
        invariant
            i <= crossings@.len() <= u32::MAX,
            out@ == raw_points(k as int, crossings@.take(i as int)),
        decreases crossings.len() - i,
    {
        assert(crossings@.take(i + 1).drop_last() =~= crossings@.take(i as int));
        assert(crossings@.take(i + 1).last() == crossings@[i as int]);
        let c: Crossing = crossings[i];
        let n: u64 = 2 * i as u64;
        if c.a == k {
            out.push(new_point(n + 1, &c, c.along_a));
        }
        if c.b == k {
            out.push(new_point(n + 2, &c, c.along_b));
        }
        i = i + 1;
    }
    assert(crossings@.take(i as int) =~= crossings@);
    let sorted: Vec<ConflictPoint> = sort_points(&out);
    drop_repeats(&sorted)
}

/// `paths` are the ways with the conflict points that lie on them.
pub open spec fn paths_with_points(
    keys: Seq<LaneMovementKey>,
    crossings: Seq<Crossing>,
    paths: Seq<ConflictPath>,
) -> bool {
    &&& paths.len() == keys.len()
    &&& forall|k: int|
        0 <= k < keys.len() ==> (#[trigger] paths[k]).key == keys[k] && paths[k].points@
            == way_points(k, crossings)
}

/// The ways through a junction with the conflict points that lie on them, in path order and each
/// once.
pub fn build_conflicts_for_node(keys: &Vec<LaneMovementKey>, crossings: &Vec<Crossing>) -> (r: Vec<
    ConflictPath,
>)
    requires
        crossings@.len() <= u32::MAX,
    ensures
        paths_with_points(keys@, crossings@, r@),
{
    let mut out: Vec<ConflictPath> = Vec::new();
    let mut k: usize = 0;
    while k < keys.len()
        invariant
            k <= keys@.len(),
            crossings@.len() <= u32::MAX,
            out@.len() == k,
            forall|j: int|
                0 <= j < k ==> (#[trigger] out@[j]).key == keys@[j] && out@[j].points@
                    == way_points(j, crossings@),
        decreases keys.len() - k,
    {
        out.push(ConflictPath { key: keys[k], points: points_of_way(k, crossings) });
        k = k + 1;
    }
    out
}

/// The nodes among the first `n` at which ways may cross, in order.
pub open spec fn crossing_nodes(map: MapData, n: int) -> Seq<usize>
    decreases n,
{
    if n <= 0 {
        Seq::empty()
    } else if may_cross(map, n - 1) {
        crossing_nodes(map, n - 1).push((n - 1) as usize)
    } else {
        crossing_nodes(map, n - 1)
    }
}

/// `d` is a junction without reservations, with the ways through it.
pub open spec fn fresh_junction(
    map: MapData,
    node: usize,
    crossings: Seq<Crossing>,
    d: IntersectionConflictData,
) -> bool {
    &&& d.node == node
    &&& paths_with_points(ways_through(map, node as int), crossings, d.by_movement@)
    &&& d.deadlock_timer == 0
    &&& d.deadlock_first_move is None
}

proof fn lemma_crossing_nodes(map: MapData, n: int)
    requires
        n <= usize::MAX,
    ensures
        forall|i: int|
            0 <= i < crossing_nodes(map, n).len() ==> 0 <= #[trigger] crossing_nodes(map, n)[i] < n,
    decreases n,
{
    if n > 0 {
        lemma_crossing_nodes(map, n - 1);
        let before = crossing_nodes(map, n - 1);
        let all = crossing_nodes(map, n);
        assert forall|i: int| 0 <= i < all.len() implies 0 <= #[trigger] all[i] < n by {
            if i < before.len() {
                assert(all[i] == before[i]);
            } else {
                assert(all[i] == (n - 1) as usize);
            }
        }
    }
}

/// The junctions of a map at which ways may cross, with the places where they do; `crossings` lists
/// for each node the places where the ways through it cross.
pub fn build_conflict_system(map: &MapData, crossings: &Vec<Vec<Crossing>>) -> (r: ConflictSystem)
    requires
        map.wf(),
        crossings@.len() == map.nodes@.len(),
        forall|n: int| 0 <= n < crossings@.len() ==> (#[trigger] crossings@[n])@.len() <= u32::MAX,
    ensures
        r.wf(),
        r.nodes@.len() == crossing_nodes(*map, map.nodes@.len() as int).len(),
        forall|i: int|
            0 <= i < r.nodes@.len() ==> {
                let node = crossing_nodes(*map, map.nodes@.len() as int)[i];
                fresh_junction(*map, node, crossings@[node as int]@, #[trigger] r.nodes@[i])
            },
{
    let mut nodes: Vec<IntersectionConflictData> = Vec::new();
    let mut n: usize = 0;
    while n < map.nodes.len()
        invariant
            n <= map.nodes@.len(),
            map.wf(),
            crossings@.len() == map.nodes@.len(),
            forall|n: int|
                0 <= n < crossings@.len() ==> (#[trigger] crossings@[n])@.len() <= u32::MAX,
            nodes@.len() == crossing_nodes(*map, n as int).len(),
            forall|i: int|
                0 <= i < nodes@.len() ==> {
                    let node = crossing_nodes(*map, n as int)[i];
                    fresh_junction(*map, node, crossings@[node as int]@, #[trigger] nodes@[i])
                },
            forall|i: int| 0 <= i < nodes@.len() ==> (#[trigger] nodes@[i]).wf(),
            forall|i: int, j: int|
                0 <= i < nodes@.len() && 0 <= j < nodes@.len() && i != j ==> (
                #[trigger] nodes@[i]).node != (#[trigger] nodes@[j]).node,
        decreases map.nodes.len() - n,
    {
        if map.graph.incoming(n).len() >= 2 && map.graph.outgoing(n).len() > 0 {
            let keys: Vec<LaneMovementKey> = movement_keys(map, n);
            let by_movement: Vec<ConflictPath> = build_conflicts_for_node(&keys, &crossings[n]);
            let data = IntersectionConflictData {
                node: n,
                by_movement,
                deadlock_timer: 0,
                deadlock_first_move: None,
            };
            proof {
                lemma_crossing_nodes(*map, n as int);
                assert(data.wf()) by {
                    assert forall|a: int, b: int|
                        0 <= a < data.by_movement@.len() && 0 <= b < data.by_movement@.len() && a
                            != b implies (#[trigger] data.by_movement@[a]).key != (
                    #[trigger] data.by_movement@[b]).key by {
                        assert(keys@[a] != keys@[b]);
                    }
                }
                assert forall|i: int| 0 <= i < nodes@.len() implies (#[trigger] nodes@[i]).node
                    < n by {
                    let node = crossing_nodes(*map, n as int)[i];
                    assert(fresh_junction(*map, node, crossings@[node as int]@, nodes@[i]));
                }
            }
            nodes.push(data);
        }
        n = n + 1;
    }
    ConflictSystem { nodes }
}

proof fn lemma_point_inserted(points: Seq<ConflictPoint>, p: ConflictPoint)
    requires
        forall|i: int, j: int|
            0 <= i < j < points.len() ==> (#[trigger] points[i]).distance_on_path <= (
            #[trigger] points[j]).distance_on_path,
    ensures
        forall|i: int, j: int|
            0 <= i < j < point_inserted(points, p).len() ==> (#[trigger] point_inserted(
                points,
                p,
            )[i]).distance_on_path <= (#[trigger] point_inserted(points, p)[j]).distance_on_path,
        forall|i: int|
            0 <= i < point_inserted(points, p).len() ==> {
                let q = #[trigger] point_inserted(points, p)[i];
                q.distance_on_path <= p.distance_on_path || points.len() > 0 && q.distance_on_path
                    <= points.last().distance_on_path
            },
        point_inserted(points, p).len() == points.len() + 1,
    decreases points.len(),
{
    if points.len() > 0 && p.distance_on_path < points.last().distance_on_path {
        let rest = points.drop_last();
        lemma_point_inserted(rest, p);
        let inner = point_inserted(rest, p);
        let last = points.last();
        assert(points[points.len() - 1] == last);
        if rest.len() > 0 {
            assert(rest.last() == points[points.len() - 2]);
        }
        assert(point_inserted(points, p) == inner.push(last));
        assert forall|i: int, j: int| 0 <= i < j < inner.push(last).len() implies (
        #[trigger] inner.push(last)[i]).distance_on_path <= (#[trigger] inner.push(
            last,
        )[j]).distance_on_path by {
            assert(inner.push(last)[i] == inner[i]);
        }
    } else if points.len() > 0 {
        assert(points[points.len() - 1] == points.last());
    }
}

/// The conflict points of a way lie in path order.
pub proof fn law_points_in_path_order(points: Seq<ConflictPoint>, i: int, j: int)
    requires
        0 <= i < j < in_path_order(points).len(),
    ensures
        in_path_order(points)[i].distance_on_path <= in_path_order(points)[j].distance_on_path,
        in_path_order(points).len() == points.len(),
{
    lemma_in_path_order(points);
}

proof fn lemma_in_path_order(points: Seq<ConflictPoint>)
    ensures
        in_path_order(points).len() == points.len(),
        forall|i: int, j: int|
            0 <= i < j < in_path_order(points).len() ==> (#[trigger] in_path_order(
                points,
            )[i]).distance_on_path <= (#[trigger] in_path_order(points)[j]).distance_on_path,
    decreases points.len(),
{
    if points.len() > 0 {
        lemma_in_path_order(points.drop_last());
        lemma_point_inserted(in_path_order(points.drop_last()), points.last());
    }
}

proof fn lemma_repeats(points: Seq<ConflictPoint>)
    ensures
        without_repeats(points).len() <= points.len(),
        forall|i: int|
            0 <= i < without_repeats(points).len() ==> points.contains(
                #[trigger] without_repeats(points)[i],
            ),
    decreases points.len(),
{
    if points.len() > 0 {
        let rest = points.drop_last();
        lemma_repeats(rest);
        let kept = without_repeats(rest);
        assert forall|i: int| 0 <= i < without_repeats(points).len() implies points.contains(
            #[trigger] without_repeats(points)[i],
        ) by {
            if i < kept.len() {
                assert(without_repeats(points)[i] == kept[i]);
                let j = choose|j: int| 0 <= j < rest.len() && rest[j] == kept[i];
                assert(points[j] == kept[i]);
            } else {
                assert(points[points.len() - 1] == points.last());
            }
        }
    }
}

/// Every conflict point of a new map is free.
pub proof fn law_new_points_are_free(k: int, crossings: Seq<Crossing>, i: int)
    requires
        0 <= i < way_points(k, crossings).len(),
    ensures
        way_points(k, crossings)[i].reserved_by is None,
{
    lemma_raw_free(k, crossings);
    let raw = raw_points(k, crossings);
    lemma_order_keeps_free(raw);
    lemma_repeats(in_path_order(raw));
    let p = way_points(k, crossings)[i];
    let j = choose|j: int| 0 <= j < in_path_order(raw).len() && in_path_order(raw)[j] == p;
    assert(in_path_order(raw)[j].reserved_by is None);
}

proof fn lemma_raw_free(k: int, crossings: Seq<Crossing>)
    ensures
        forall|i: int|
            0 <= i < raw_points(k, crossings).len() ==> (#[trigger] raw_points(
                k,
                crossings,
            )[i]).reserved_by is None,
    decreases crossings.len(),
{
    if crossings.len() > 0 {
        lemma_raw_free(k, crossings.drop_last());
    }
}

proof fn lemma_insert_keeps_free(points: Seq<ConflictPoint>, p: ConflictPoint)
    requires
        p.reserved_by is None,
        forall|i: int| 0 <= i < points.len() ==> (#[trigger] points[i]).reserved_by is None,
    ensures
        forall|i: int|
            0 <= i < point_inserted(points, p).len() ==> (#[trigger] point_inserted(
                points,
                p,
            )[i]).reserved_by is None,
    decreases points.len(),
{
    if points.len() > 0 && p.distance_on_path < points.last().distance_on_path {
        lemma_insert_keeps_free(points.drop_last(), p);
        assert(points[points.len() - 1] == points.last());
    }
}

proof fn lemma_order_keeps_free(points: Seq<ConflictPoint>)
    requires
        forall|i: int| 0 <= i < points.len() ==> (#[trigger] points[i]).reserved_by is None,
    ensures
        forall|i: int|
            0 <= i < in_path_order(points).len() ==> (#[trigger] in_path_order(
                points,
            )[i]).reserved_by is None,
    decreases points.len(),
{
    if points.len() > 0 {
        lemma_order_keeps_free(points.drop_last());
        assert(points[points.len() - 1] == points.last());
        lemma_insert_keeps_free(in_path_order(points.drop_last()), points.last());
    }
}

/// Each crossing makes a free point on each of the two ways, at its place and as far along the way as
/// it lies.
pub proof fn law_crossings_make_points(k: int, crossings: Seq<Crossing>, i: int)
    requires
        0 <= i < crossings.len(),
    ensures
        crossings[i].a == k ==> exists|m: int|
            0 <= m < raw_points(k, crossings).len() && (#[trigger] raw_points(k, crossings)[m]).x
                == crossings[i].x && raw_points(k, crossings)[m].y == crossings[i].y && raw_points(
                k,
                crossings,
            )[m].distance_on_path == crossings[i].along_a,
        crossings[i].b == k ==> exists|m: int|
            0 <= m < raw_points(k, crossings).len() && (#[trigger] raw_points(k, crossings)[m]).x
                == crossings[i].x && raw_points(k, crossings)[m].y == crossings[i].y && raw_points(
                k,
                crossings,
            )[m].distance_on_path == crossings[i].along_b,
    decreases crossings.len(),
{
    let front = crossings.drop_last();
    let before = raw_points(k, front);
    let now = raw_points(k, crossings);
    if i < front.len() {
        assert(front[i] == crossings[i]);
        law_crossings_make_points(k, front, i);
        if crossings[i].a == k {
            let m = choose|m: int|
                0 <= m < before.len() && (#[trigger] before[m]).x == crossings[i].x && before[m].y
                    == crossings[i].y && before[m].distance_on_path == crossings[i].along_a;
            assert(now[m] == before[m]);
        }
        if crossings[i].b == k {
            let m = choose|m: int|
                0 <= m < before.len() && (#[trigger] before[m]).x == crossings[i].x && before[m].y
                    == crossings[i].y && before[m].distance_on_path == crossings[i].along_b;
            assert(now[m] == before[m]);
        }
    } else {
        let c = crossings.last();
        let with_a = if c.a == k {
            before.push(fresh_point(2 * (crossings.len() - 1) + 1, c, c.along_a))
        } else {
            before
        };
        if c.a == k {
            assert(now[before.len() as int] == with_a[before.len() as int]);
        }
        if c.b == k {
            assert(now[with_a.len() as int] == now.last());
        }
    }
}

/// Of the points of a way only those are left out that lie less than half a metre farther along than a
/// point that is kept, and less than a metre from it.
pub proof fn law_repeats_are_left_out(points: Seq<ConflictPoint>, i: int)
    requires
        0 <= i < points.len(),
    ensures
        exists|m: int|
            0 <= m < without_repeats(points).len() && (#[trigger] without_repeats(points)[m]
                == points[i] || is_same_point(points[i], without_repeats(points)[m])),
    decreases points.len(),
{
    let front = points.drop_last();
    let before = without_repeats(front);
    let now = without_repeats(points);
    if i < front.len() {
        assert(front[i] == points[i]);
        law_repeats_are_left_out(front, i);
        let m = choose|m: int|
            0 <= m < before.len() && (#[trigger] before[m] == front[i] || is_same_point(
                front[i],
                before[m],
            ));
        assert(now[m] == before[m]);
    } else {
        assert(now[now.len() - 1] == now.last());
    }
}

/// Every bending way through a node is known by each of its pairs of lanes.
pub proof fn law_ways_complete(map: MapData, node: int, i: int, j: int, k: int)
    requires
        map.wf(),
        0 <= node < map.nodes@.len(),
        0 <= i < map.graph.in_edges(node).len(),
        0 <= j < map.graph.out_edges(node).len(),
        bends(
            map,
            map.graph.in_edges(node)[i] as usize,
            map.graph.out_edges(node)[j] as usize,
            node,
        ),
        ({
            let a = map.graph.in_edges(node)[i] as usize;
            let b = map.graph.out_edges(node)[j] as usize;
            0 <= k < lane_pairs(lanes_of(map, a), lanes_of(map, b), turn_intent(map, (a, b), node)).len()
        }),
    ensures
        ({
            let a = map.graph.in_edges(node)[i] as usize;
            let b = map.graph.out_edges(node)[j] as usize;
            let p = lane_pairs(lanes_of(map, a), lanes_of(map, b), turn_intent(map, (a, b), node))[k];
            ways_through(map, node).contains(
                LaneMovementKey { in_edge: a, out_edge: b, in_lane: p.0, out_lane: p.1 },
            )
        }),
{
    lemma_way_listed(map, node, map.graph.in_edges(node).len() as int, i, j, k);
}

proof fn lemma_way_listed(map: MapData, node: int, n: int, i: int, j: int, k: int)
    requires
        0 <= i < n,
        0 <= j < map.graph.out_edges(node).len(),
        bends(
            map,
            map.graph.in_edges(node)[i] as usize,
            map.graph.out_edges(node)[j] as usize,
            node,
        ),
        ({
            let a = map.graph.in_edges(node)[i] as usize;
            let b = map.graph.out_edges(node)[j] as usize;
            0 <= k < lane_pairs(lanes_of(map, a), lanes_of(map, b), turn_intent(map, (a, b), node)).len()
        }),
    ensures
        ({
            let a = map.graph.in_edges(node)[i] as usize;
            let b = map.graph.out_edges(node)[j] as usize;
            let p = lane_pairs(lanes_of(map, a), lanes_of(map, b), turn_intent(map, (a, b), node))[k];
            ways_from(map, node, n).contains(
                LaneMovementKey { in_edge: a, out_edge: b, in_lane: p.0, out_lane: p.1 },
            )
        }),
    decreases n,
{
    let a = map.graph.in_edges(node)[i] as usize;
    let b = map.graph.out_edges(node)[j] as usize;
    let pairs = lane_pairs(lanes_of(map, a), lanes_of(map, b), turn_intent(map, (a, b), node));
    let key = LaneMovementKey {
        in_edge: a,
        out_edge: b,
        in_lane: pairs[k].0,
        out_lane: pairs[k].1,
    };
    let m = map.graph.out_edges(node).len() as int;
    if i < n - 1 {
        lemma_way_listed(map, node, n - 1, i, j, k);
        lemma_exits_keep(
            map,
            ways_from(map, node, n - 1),
            map.graph.in_edges(node)[n - 1] as usize,
            node,
            m,
            key,
        );
    } else {
        lemma_exit_listed(map, ways_from(map, node, n - 1), a, node, m, j, k);
    }
}

proof fn lemma_pairs_keep(
    keys: Seq<LaneMovementKey>,
    in_edge: usize,
    out_edge: usize,
    pairs: Seq<(u8, u8)>,
    key: LaneMovementKey,
)
    requires
        keys.contains(key),
    ensures
        with_pairs(keys, in_edge, out_edge, pairs).contains(key),
    decreases pairs.len(),
{
    if pairs.len() > 0 {
        lemma_pairs_keep(keys, in_edge, out_edge, pairs.drop_last(), key);
        let before = with_pairs(keys, in_edge, out_edge, pairs.drop_last());
        let now = with_pairs(keys, in_edge, out_edge, pairs);
        let x = choose|x: int| 0 <= x < before.len() && before[x] == key;
        assert(now[x] == key);
    }
}

proof fn lemma_pair_listed(
    keys: Seq<LaneMovementKey>,
    in_edge: usize,
    out_edge: usize,
    pairs: Seq<(u8, u8)>,
    k: int,
)
    requires
        0 <= k < pairs.len(),
    ensures
        with_pairs(keys, in_edge, out_edge, pairs).contains(
            LaneMovementKey { in_edge, out_edge, in_lane: pairs[k].0, out_lane: pairs[k].1 },
        ),
    decreases pairs.len(),
{
    let key = LaneMovementKey { in_edge, out_edge, in_lane: pairs[k].0, out_lane: pairs[k].1 };
    let front = pairs.drop_last();
    let before = with_pairs(keys, in_edge, out_edge, front);
    let now = with_pairs(keys, in_edge, out_edge, pairs);
    if k < front.len() {
        assert(front[k] == pairs[k]);
        lemma_pair_listed(keys, in_edge, out_edge, front, k);
        let x = choose|x: int| 0 <= x < before.len() && before[x] == key;
        assert(now[x] == key);
    } else if !before.contains(key) {
        assert(now[before.len() as int] == key);
    }
}

proof fn lemma_exits_keep(
    map: MapData,
    keys: Seq<LaneMovementKey>,
    in_edge: usize,
    node: int,
    n: int,
    key: LaneMovementKey,
)
    requires
        keys.contains(key),
    ensures
        with_exits(map, keys, in_edge, node, n).contains(key),
    decreases n,
{
    if n > 0 {
        lemma_exits_keep(map, keys, in_edge, node, n - 1, key);
        let out_edge = map.graph.out_edges(node)[n - 1] as usize;
        lemma_pairs_keep(
            with_exits(map, keys, in_edge, node, n - 1),
            in_edge,
            out_edge,
            lane_pairs(
                lanes_of(map, in_edge),
                lanes_of(map, out_edge),
                turn_intent(map, (in_edge, out_edge), node),
            ),
            key,
        );
    }
}

proof fn lemma_exit_listed(
    map: MapData,
    keys: Seq<LaneMovementKey>,
    a: usize,
    node: int,
    n: int,
    j: int,
    k: int,
)
    requires
        0 <= j < n <= map.graph.out_edges(node).len(),
        bends(map, a, map.graph.out_edges(node)[j] as usize, node),
        ({
            let b = map.graph.out_edges(node)[j] as usize;
            0 <= k < lane_pairs(lanes_of(map, a), lanes_of(map, b), turn_intent(map, (a, b), node)).len()
        }),
    ensures
        ({
            let b = map.graph.out_edges(node)[j] as usize;
            let p = lane_pairs(lanes_of(map, a), lanes_of(map, b), turn_intent(map, (a, b), node))[k];
            with_exits(map, keys, a, node, n).contains(
                LaneMovementKey { in_edge: a, out_edge: b, in_lane: p.0, out_lane: p.1 },
            )
        }),
    decreases n,
{
    let b = map.graph.out_edges(node)[j] as usize;
    let pairs = lane_pairs(lanes_of(map, a), lanes_of(map, b), turn_intent(map, (a, b), node));
    let before = with_exits(map, keys, a, node, n - 1);
    if j < n - 1 {
        lemma_exit_listed(map, keys, a, node, n - 1, j, k);
        let key = LaneMovementKey {
            in_edge: a,
            out_edge: b,
            in_lane: pairs[k].0,
            out_lane: pairs[k].1,
        };
        let c = map.graph.out_edges(node)[n - 1] as usize;
        lemma_pairs_keep(
            before,
            a,
            c,
            lane_pairs(lanes_of(map, a), lanes_of(map, c), turn_intent(map, (a, c), node)),
            key,
        );
    } else {
        lemma_pair_listed(before, a, b, pairs, k);
    }
}

/// A way that goes straight on does not bend, and one that turns by a right angle or more does.
pub proof fn law_what_bends(map: MapData, a: usize, b: usize)
    requires
        a < map.edges@.len(),
        b < map.edges@.len(),
        map.graph.ends()[a as int].1 == map.graph.ends()[b as int].0,
    ensures
        ({
            let node = map.graph.ends()[a as int].1;
            let u = node_heading(map.nodes@[map.graph.ends()[a as int].0], map.nodes@[node]);
            let v = node_heading(map.nodes@[node], map.nodes@[map.graph.ends()[b as int].1]);
            &&& u == v && crate::simulation::direction::square(u) > 0 ==> !bends(map, a, b, node)
            &&& crate::simulation::direction::dot(u, v) <= 0 ==> bends(map, a, b, node)
        }),
{
    let node = map.graph.ends()[a as int].1;
    let u = node_heading(map.nodes@[map.graph.ends()[a as int].0], map.nodes@[node]);
    if crate::simulation::direction::square(u) > 0 {
        crate::simulation::direction::law_angles(u, u, TURN_MIN_COSINE_SQUARE as int);
    }
}

/// Ways are looked after at exactly the nodes that two segments or more enter and one or more leave.
pub proof fn law_where_ways_cross(map: MapData, n: int, x: usize)
    requires
        0 <= n <= usize::MAX,
    ensures
        crossing_nodes(map, n).contains(x) <==> x < n && map.graph.in_edges(x as int).len() > 1
            && map.graph.out_edges(x as int).len() != 0,
    decreases n,
{
    if n > 0 {
        law_where_ways_cross(map, n - 1, x);
        let before = crossing_nodes(map, n - 1);
        let now = crossing_nodes(map, n);
        if before.contains(x) {
            let i = choose|i: int| 0 <= i < before.len() && before[i] == x;
            assert(now[i] == x);
        }
        if now.len() > before.len() {
            assert(now[before.len() as int] == (n - 1) as usize);
        }
        if now.contains(x) {
            let i = choose|i: int| 0 <= i < now.len() && now[i] == x;
            if i < before.len() {
                assert(before[i] == x);
            }
        }
    }
}

} // verus!
