//! The vehicle ahead.

use vstd::prelude::*;

use crate::map::lane_graph::{Lane, NO_EDGE};
use crate::map::map_data::MapData;
use crate::simulation::conflict::{VehicleBody, MIN_IDM_GAP};
use crate::simulation::obstacle::{
    free_leader_obstacle, no_obstacle, ClosestObstacle, ObstacleKind,
};
use crate::units::{
    between, clamp_to, larger, max_of, part_of, saturate, saturated, square_distance, take_part,
    within,
};
use crate::vehicles::vehicle::Vehicle;

verus! {

/// Lanes shorter than this are not searched.
pub const MIN_LANE_LENGTH: i64 = 10_000;

/// How far along its lanes a vehicle looks for a leader.
pub const LEADER_SEARCH_LENGTH: i64 = 220_000_000;

/// Below this gap a leader has to lie close to where the gap says.
pub const NEAR_GAP: i64 = 18_000_000;

/// How much farther than the gap a near leader may be.
pub const NEAR_SLACK: i64 = 6_500_000;

/// How much farther than the gap a leader may be.
pub const FAR_SLACK: i64 = 36_000_000;

/// The vehicles of one lane of an edge, in the order in which they drive, the last first.
pub struct LaneBucket {
    pub edge: usize,
    pub lane: u8,
    pub order: Vec<usize>,
}

/// The vehicles of all lanes.
pub struct LaneBuckets {
    pub list: Vec<LaneBucket>,
}

/// Whether vehicle `a` drives behind vehicle `b`: at the same place the one with the smaller id
/// does.
pub open spec fn drives_behind(a: Vehicle, b: Vehicle) -> bool {
    a.edge_progress < b.edge_progress || a.edge_progress == b.edge_progress && a.id < b.id
}

/// A sorted list of vehicles with vehicle `i` added.
pub open spec fn placed(vehicles: Seq<Vehicle>, order: Seq<usize>, i: usize) -> Seq<usize>
    decreases order.len(),
{
    if order.len() > 0 && drives_behind(vehicles[i as int], vehicles[order.last() as int]) {
        placed(vehicles, order.drop_last(), i).push(order.last())
    } else {
        order.push(i)
    }
}

/// The vehicles among the first `n` that drive on a lane of an edge, in order.
pub open spec fn bucket_of(vehicles: Seq<Vehicle>, n: int, edge: usize, lane: u8) -> Seq<usize>
    decreases n,
{
    if n <= 0 {
        Seq::empty()
    } else {
        let before = bucket_of(vehicles, n - 1, edge, lane);
        if vehicles[n - 1].edge() == Some(edge) && vehicles[n - 1].current_lane == lane {
            placed(vehicles, before, (n - 1) as usize)
        } else {
            before
        }
    }
}

/// The order of the first bucket for a lane of an edge.
pub open spec fn order_in(list: Seq<LaneBucket>, edge: usize, lane: u8) -> Seq<usize>
    decreases list.len(),
{
    if list.len() == 0 {
        Seq::empty()
    } else if list[0].edge == edge && list[0].lane == lane {
        list[0].order@
    } else {
        order_in(list.skip(1), edge, lane)
    }
}

/// No lane has two buckets.
pub open spec fn buckets_distinct(list: Seq<LaneBucket>) -> bool {
    forall|i: int, j: int|
        0 <= i < list.len() && 0 <= j < list.len() && i != j ==> (#[trigger] list[i]).edge != (
        #[trigger] list[j]).edge || list[i].lane != list[j].lane
}

proof fn lemma_order_at(list: Seq<LaneBucket>, k: int)
    requires
        0 <= k < list.len(),
        buckets_distinct(list),
    ensures
        order_in(list, list[k].edge, list[k].lane) == list[k].order@,
    decreases list.len(),
{
    if k > 0 {
        let rest = list.skip(1);
        assert(list[0].edge != list[k].edge || list[0].lane != list[k].lane);
        assert forall|i: int, j: int|
            0 <= i < rest.len() && 0 <= j < rest.len() && i != j implies (#[trigger] rest[i]).edge
            != (#[trigger] rest[j]).edge || rest[i].lane != rest[j].lane by {
            assert(rest[i] == list[i + 1]);
            assert(rest[j] == list[j + 1]);
        }
        assert(rest[k - 1] == list[k]);
        lemma_order_at(rest, k - 1);
    }
}

proof fn lemma_order_missing(list: Seq<LaneBucket>, edge: usize, lane: u8)
    requires
        forall|i: int|
            0 <= i < list.len() ==> (#[trigger] list[i]).edge != edge || list[i].lane != lane,
    ensures
        order_in(list, edge, lane) == Seq::<usize>::empty(),
    decreases list.len(),
{
    if list.len() > 0 {
        let rest = list.skip(1);
        assert(list[0].edge != edge || list[0].lane != lane);
        assert forall|i: int| 0 <= i < rest.len() implies (#[trigger] rest[i]).edge != edge
            || rest[i].lane != lane by {
            assert(rest[i] == list[i + 1]);
        }
        lemma_order_missing(rest, edge, lane);
    }
}

impl LaneBuckets {
    /// No lane has two buckets.
    pub open spec fn wf(&self) -> bool {
        buckets_distinct(self.list@)
    }

    /// The vehicles of a lane of an edge, in order.
    pub open spec fn at(&self, edge: usize, lane: u8) -> Seq<usize> {
        order_in(self.list@, edge, lane)
    }

    fn find(&self, edge: usize, lane: u8) -> (r: Option<usize>)
        requires
            self.wf(),
        ensures
            match r {
                Some(k) => k < self.list@.len() && self.list@[k as int].edge == edge
                    && self.list@[k as int].lane == lane && self.list@[k as int].order@ == self.at(
                    edge,
                    lane,
                ),
                None => self.at(edge, lane) == Seq::<usize>::empty() && forall|i: int|
                    0 <= i < self.list@.len() ==> (#[trigger] self.list@[i]).edge != edge
                        || self.list@[i].lane != lane,
            },
    {
        let mut k: usize = 0;
        while k < self.list.len()
            invariant
                k <= self.list@.len(),
                self.wf(),
                forall|i: int|
                    0 <= i < k ==> (#[trigger] self.list@[i]).edge != edge || self.list@[i].lane
                        != lane,
            decreases self.list.len() - k,
        {
            if self.list[k].edge == edge && self.list[k].lane == lane {
                proof {
                    lemma_order_at(self.list@, k as int);
                }
                return Some(k);
            }
            k = k + 1;
        }
        proof {
            lemma_order_missing(self.list@, edge, lane);
        }
        None
    }

    /// The vehicles of every lane, in order.
    pub fn build(vehicles: &Vec<Vehicle>) -> (r: LaneBuckets)
        ensures
            r.wf(),
            forall|edge: usize, lane: u8| #[trigger]
                r.at(edge, lane) == bucket_of(
                    vehicles@,
                    vehicles@.len() as int,
                    edge,
                    lane,
                ),
    {
        let mut b = LaneBuckets { list: Vec::new() };
        let mut i: usize = 0;
        while i < vehicles.len()
            invariant
                i <= vehicles@.len(),
                b.wf(),
                forall|edge: usize, lane: u8| #[trigger]
                    b.at(edge, lane) == bucket_of(vehicles@, i as int, edge, lane),
                forall|k: int, p: int|
                    0 <= k < b.list@.len() && 0 <= p < b.list@[k].order@.len()
                        ==> #[trigger] b.list@[k].order@[p] < vehicles@.len(),
            decreases vehicles.len() - i,
        {
            match vehicles[i].current_edge() {
                Some(e) => {
                    let lane: u8 = vehicles[i].current_lane;
                    b.place_vehicle(vehicles, e, lane, i);
                },
                None => {},
            }
            i = i + 1;
        }
        b
    }

    fn place_vehicle(&mut self, vehicles: &Vec<Vehicle>, e: usize, lane: u8, i: usize)
        requires
            old(self).wf(),
            i < vehicles@.len(),
            forall|k: int, p: int|
                0 <= k < old(self).list@.len() && 0 <= p < old(self).list@[k].order@.len()
                    ==> #[trigger] old(self).list@[k].order@[p] < vehicles@.len(),
        ensures
            final(self).wf(),
            forall|edge: usize, l: u8| #[trigger]
                final(self).at(edge, l) == if edge == e && l == lane {
                    placed(vehicles@, old(self).at(edge, l), i)
                } else {
                    old(self).at(edge, l)
                },
            forall|k: int, p: int|
                0 <= k < final(self).list@.len() && 0 <= p < final(self).list@[k].order@.len()
                    ==> #[trigger] final(self).list@[k].order@[p] < vehicles@.len(),
    {
        let at: usize = match self.find(e, lane) {
            Some(k) => k,
            None => {
                let k: usize = self.list.len();
                let ghost before = *self;
                self.list.push(LaneBucket { edge: e, lane, order: Vec::new() });
                proof {
                    assert(self.wf()) by {
                        assert forall|a: int, b: int|
                            0 <= a < self.list@.len() && 0 <= b < self.list@.len() && a
                                != b implies (#[trigger] self.list@[a]).edge != (
                        #[trigger] self.list@[b]).edge || self.list@[a].lane
                            != self.list@[b].lane by {
                            if a < k {
                                assert(self.list@[a] == before.list@[a]);
                            }
                            if b < k {
                                assert(self.list@[b] == before.list@[b]);
                            }
                        }
                    }
                    assert forall|edge: usize, l: u8| #[trigger]
                        self.at(edge, l) == before.at(edge, l) by {
                        lemma_order_push_empty(before.list@, self.list@, edge, l);
                    }
                    assert forall|a: int, p: int|
                        0 <= a < self.list@.len() && 0 <= p
                            < self.list@[a].order@.len() implies #[trigger] self.list@[a].order@[p]
                        < vehicles@.len() by {
                        if a < k {
                            assert(self.list@[a] == before.list@[a]);
                        }
                    }
                }
                k
            },
        };
        let ghost mid = *self;
        proof {
            lemma_order_at(mid.list@, at as int);
        }
        insert_in_order(vehicles, &mut self.list[at].order, i);
        proof {
            assert(self.list@.len() == mid.list@.len());
            assert forall|a: int| 0 <= a < self.list@.len() implies (#[trigger] self.list@[a]).edge
                == mid.list@[a].edge && self.list@[a].lane == mid.list@[a].lane && (a != at
                ==> self.list@[a].order@ == mid.list@[a].order@) by {}
            assert(self.wf());
            assert forall|edge: usize, l: u8| #[trigger]
                self.at(edge, l) == (if edge == e && l == lane {
                    placed(vehicles@, mid.at(edge, l), i)
                } else {
                    mid.at(edge, l)
                }) by {
                if edge == e && l == lane {
                    lemma_order_at(self.list@, at as int);
                } else {
                    lemma_order_same(mid.list@, self.list@, edge, l, at as int);
                }
            }
            assert forall|k: int, p: int|
                0 <= k < self.list@.len() && 0 <= p
                    < self.list@[k].order@.len() implies #[trigger] self.list@[k].order@[p]
                < vehicles@.len() by {
                if k == at {
                } else {
                    assert(self.list@[k].order@ == mid.list@[k].order@);
                    assert(mid.list@[k].order@[p] < vehicles@.len());
                }
            }
        }
    }
}

proof fn lemma_order_push_empty(
    before: Seq<LaneBucket>,
    after: Seq<LaneBucket>,
    edge: usize,
    lane: u8,
)
    requires
        after.len() == before.len() + 1,
        forall|i: int| 0 <= i < before.len() ==> #[trigger] after[i] == before[i],
        after.last().order@ == Seq::<usize>::empty(),
    ensures
        order_in(after, edge, lane) == order_in(before, edge, lane),
    decreases before.len(),
{
    if before.len() > 0 {
        assert(after[0] == before[0]);
        let a = after.skip(1);
        let b = before.skip(1);
        assert forall|i: int| 0 <= i < b.len() implies #[trigger] a[i] == b[i] by {
            assert(a[i] == after[i + 1]);
            assert(b[i] == before[i + 1]);
        }
        assert(a.last() == after.last());
        lemma_order_push_empty(b, a, edge, lane);
    } else {
        assert(after[0] == after.last());
        assert(order_in(after.skip(1), edge, lane) =~= Seq::<usize>::empty());
        assert(order_in(before, edge, lane) =~= Seq::<usize>::empty());
    }
}

proof fn lemma_order_same(
    before: Seq<LaneBucket>,
    after: Seq<LaneBucket>,
    edge: usize,
    lane: u8,
    at: int,
)
    requires
        after.len() == before.len(),
        forall|i: int|
            0 <= i < before.len() ==> (#[trigger] after[i]).edge == before[i].edge && after[i].lane
                == before[i].lane && (i != at ==> after[i].order@ == before[i].order@),
        0 <= at < before.len() ==> before[at].edge != edge || before[at].lane != lane,
    ensures
        order_in(after, edge, lane) == order_in(before, edge, lane),
    decreases before.len(),
{
    if before.len() > 0 {
        assert(after[0].edge == before[0].edge);
        let a = after.skip(1);
        let b = before.skip(1);
        assert forall|i: int| 0 <= i < b.len() implies (#[trigger] a[i]).edge == b[i].edge
            && a[i].lane == b[i].lane && (i != at - 1 ==> a[i].order@ == b[i].order@) by {
            assert(a[i] == after[i + 1]);
            assert(b[i] == before[i + 1]);
        }
        if 0 <= at - 1 < b.len() {
            assert(b[at - 1] == before[at]);
        }
        lemma_order_same(b, a, edge, lane, at - 1);
    }
}

fn insert_in_order(vehicles: &Vec<Vehicle>, order: &mut Vec<usize>, i: usize)
    requires
        i < vehicles@.len(),
        forall|p: int| 0 <= p < old(order)@.len() ==> #[trigger] old(order)@[p] < vehicles@.len(),
    ensures
        final(order)@ == placed(vehicles@, old(order)@, i),
        forall|p: int|
            0 <= p < final(order)@.len() ==> #[trigger] final(order)@[p] < vehicles@.len(),
{
    let ghost before = order@;
    let ghost goal = placed(vehicles@, before, i);
    let mut p: usize = order.len();
    assert(before.take(p as int) =~= before);
    assert(goal + before.skip(p as int) =~= goal);
    while p > 0 && is_behind(&vehicles[i], &vehicles[order[p - 1]])
        invariant
            i < vehicles@.len(),
            p <= order@.len(),
            order@ == before,
            forall|p: int| 0 <= p < before.len() ==> #[trigger] before[p] < vehicles@.len(),
            goal == placed(vehicles@, before.take(p as int), i) + before.skip(p as int),
        decreases p,
    {
        let ghost front = before.take(p as int);
        proof {
            assert(front.last() == before[p - 1]);
            assert(front.drop_last() =~= before.take(p - 1));
            let inner = placed(vehicles@, before.take(p - 1), i);
            assert(inner.push(before[p - 1]) + before.skip(p as int) =~= inner + before.skip(
                p - 1,
            ));
        }
        p = p - 1;
    }
    proof {
        let front = before.take(p as int);
        if p > 0 {
            assert(front.last() == before[p - 1]);
        }
        assert(goal =~= front.push(i) + before.skip(p as int));
        assert(before.insert(p as int, i) =~= front.push(i) + before.skip(p as int));
    }
    order.insert(p, i);
}

fn is_behind(a: &Vehicle, b: &Vehicle) -> (r: bool)
    ensures
        r == drives_behind(*a, *b),
{
    a.edge_progress < b.edge_progress || a.edge_progress == b.edge_progress && a.id < b.id
}

/// The lane of an edge with a number.
pub open spec fn lane_at(map: MapData, edge: usize, lane: u8) -> Option<u64> {
    if edge < map.lanes.by_edge@.len() && lane < map.lanes.by_edge@[edge as int]@.len() {
        Some(map.lanes.by_edge@[edge as int]@[lane as int])
    } else {
        None
    }
}

/// The lane of an edge with a number.
pub fn lane_by_edge_lane(map: &MapData, edge: usize, lane: u8) -> (r: Option<u64>)
    ensures
        r == lane_at(*map, edge, lane),
{
    if edge < map.lanes.by_edge.len() && (lane as usize) < map.lanes.by_edge[edge].len() {
        Some(map.lanes.by_edge[edge][lane as usize])
    } else {
        None
    }
}

/// The length of a lane; unknown lanes have none.
pub open spec fn length_of(map: MapData, id: u64) -> int {
    if map.lanes.has(id) {
        map.lanes.lane(id).length as int
    } else {
        0
    }
}

/// The length of a lane; unknown lanes have none.
pub fn lane_length(map: &MapData, id: u64) -> (r: i64)
    ensures
        r == length_of(*map, id),
{
    assert(map.lanes.lanes.len() == map.lanes.lanes@.len());
    if id >= 1 && id <= map.lanes.lanes.len() as u64 {
        map.lanes.lanes[(id - 1) as usize].length
    } else {
        0
    }
}

/// The length of the lane of an edge with a number.
pub open spec fn edge_lane_length(map: MapData, edge: usize, lane: u8) -> int {
    match lane_at(map, edge, lane) {
        Some(id) => length_of(map, id),
        None => 0,
    }
}

/// How far along a lane a position on its edge is.
pub open spec fn along(length: int, progress: int) -> int {
    between(saturated(part_of(length, progress)), 0, length)
}

/// How far along a lane a position on its edge is.
pub fn distance_along(length: i64, progress: i64) -> (r: i64)
    ensures
        r == along(length as int, progress as int),
{
    clamp_to(take_part(length, progress), 0, length)
}

/// The gap between the bumpers of two vehicles whose centres are `center` apart, at least the
/// smallest gap.
pub open spec fn bumper_gap_of(center: int, ego: Vehicle, leader: Vehicle) -> int {
    larger(
        saturated(
            center - (ego.vehicle_type.params_of().length + leader.vehicle_type.params_of().length)
                / 2,
        ),
        MIN_IDM_GAP as int,
    )
}

/// The gap between the bumpers of two vehicles, at least the smallest gap.
pub fn bumper_gap(center: i128, ego: &Vehicle, leader: &Vehicle) -> (r: i64)
    requires
        -0x4_0000_0000_0000_0000 <= center <= 0x4_0000_0000_0000_0000,
    ensures
        r == bumper_gap_of(center as int, *ego, *leader),
{
    let bodies: i64 = (ego.vehicle_type.params().length + leader.vehicle_type.params().length) / 2;
    max_of(saturate(center - bodies as i128), MIN_IDM_GAP)
}

/// The gap from a vehicle to another one ahead of it on the same lane of length `length`.
pub open spec fn lane_gap(ego: Vehicle, edge: usize, length: int, leader: Vehicle) -> Option<int> {
    let center = along(length, leader.edge_progress as int) - along(
        length,
        ego.edge_progress as int,
    );
    if leader.despawned || leader.edge() != Some(edge) || center <= 0 {
        None
    } else {
        Some(bumper_gap_of(center, ego, leader))
    }
}

/// The nearest vehicle of a list ahead on the same lane: its gap and its place in the list of
/// vehicles. Of several at the same distance it is the first.
pub open spec fn nearest_on_lane(
    ego_idx: int,
    ego: Vehicle,
    edge: usize,
    length: int,
    vehicles: Seq<Vehicle>,
    order: Seq<usize>,
) -> Option<(int, int)>
    decreases order.len(),
{
    if order.len() == 0 {
        None
    } else {
        let before = nearest_on_lane(ego_idx, ego, edge, length, vehicles, order.drop_last());
        let i = order.last() as int;
        let gap = if i != ego_idx && i < vehicles.len() {
            lane_gap(ego, edge, length, vehicles[i])
        } else {
            None
        };
        match gap {
            Some(g) => if before is None || g < before->Some_0.0 {
                Some((g, i))
            } else {
                before
            },
            None => before,
        }
    }
}

/// The nearest vehicle ahead on the same lane of the same edge.
pub open spec fn same_lane_leader(
    ego_idx: int,
    ego: Vehicle,
    vehicles: Seq<Vehicle>,
    buckets: LaneBuckets,
    map: MapData,
) -> Option<(int, int)> {
    match ego.edge() {
        Some(e) => {
            let length = edge_lane_length(map, e, ego.current_lane);
            if length <= MIN_LANE_LENGTH {
                None
            } else {
                nearest_on_lane(
                    ego_idx,
                    ego,
                    e,
                    length,
                    vehicles,
                    buckets.at(e, ego.current_lane),
                )
            }
        },
        None => None,
    }
}

/// A leader as an obstacle, seen at its rear bumper.
pub open spec fn leader_obstacle(
    ego: Vehicle,
    gap: int,
    leader: Vehicle,
    body: VehicleBody,
) -> ClosestObstacle {
    ClosestObstacle {
        kind: ObstacleKind::Vehicle,
        gap: gap as i64,
        delta_v: saturated(ego.speed - leader.speed) as i64,
        point: Some((rear_of(body).0 as i64, rear_of(body).1 as i64)),
        leader_vehicle_id: Some(leader.id),
        conflict_reserver_id: None,
        conflict_point_id: None,
    }
}

/// The rear bumper of a vehicle: as far behind its centre as the hood is ahead.
pub open spec fn rear_of(b: VehicleBody) -> (int, int) {
    (saturated(2 * b.x - b.hood_x), saturated(2 * b.y - b.hood_y))
}

fn rear_bumper(b: &VehicleBody) -> (r: (i64, i64))
    ensures
        (r.0 as int, r.1 as int) == rear_of(*b),
{
    (
        saturate(2 * b.x as i128 - b.hood_x as i128),
        saturate(2 * b.y as i128 - b.hood_y as i128),
    )
}

fn as_obstacle(ego: &Vehicle, gap: i64, leader: &Vehicle, body: &VehicleBody) -> (r: ClosestObstacle)
    ensures
        r == leader_obstacle(*ego, gap as int, *leader, *body),
{
    ClosestObstacle {
        kind: ObstacleKind::Vehicle,
        gap,
        delta_v: saturate(ego.speed as i128 - leader.speed as i128),
        point: Some(rear_bumper(body)),
        leader_vehicle_id: Some(leader.id),
        conflict_reserver_id: None,
        conflict_point_id: None,
    }
}

fn find_same_lane_leader(
    ego_idx: usize,
    ego: &Vehicle,
    vehicles: &Vec<Vehicle>,
    buckets: &LaneBuckets,
    map: &MapData,
) -> (r: Option<(i64, usize)>)
    requires
        buckets.wf(),
    ensures
        match r {
            Some(b) => b.1 < vehicles@.len() && same_lane_leader(
                ego_idx as int,
                *ego,
                vehicles@,
                *buckets,
                *map,
            ) == Some((b.0 as int, b.1 as int)),
            None => same_lane_leader(ego_idx as int, *ego, vehicles@, *buckets, *map) is None,
        },
{
    let e: usize = match ego.current_edge() {
        Some(e) => e,
        None => {
            return None;
        },
    };
    let length: i64 = match lane_by_edge_lane(map, e, ego.current_lane) {
        Some(id) => lane_length(map, id),
        None => 0,
    };
    if length <= MIN_LANE_LENGTH {
        return None;
    }
    let at: usize = match buckets.find(e, ego.current_lane) {
        Some(k) => k,
        None => {
            return None;
        },
    };
    let order: &Vec<usize> = &buckets.list[at].order;
    let ego_at: i64 = distance_along(length, ego.edge_progress);
    let mut best: Option<(i64, usize)> = None;
    let mut k: usize = 0;
    assert(order@.take(0) =~= Seq::<usize>::empty());
    while k < order.len()
        invariant
            k <= order@.len(),
            length > 0,
            ego_at == along(length as int, ego.edge_progress as int),
            0 <= ego_at <= length,
            match best {
                Some(b) => b.1 < vehicles@.len() && nearest_on_lane(
                    ego_idx as int,
                    *ego,
                    e,
                    length as int,
                    vehicles@,
                    order@.take(k as int),
                ) == Some((b.0 as int, b.1 as int)),
                None => nearest_on_lane(
                    ego_idx as int,
                    *ego,
                    e,
                    length as int,
                    vehicles@,
                    order@.take(k as int),
                ) is None,
            },
        decreases order.len() - k,
    {
        assert(order@.take(k + 1).drop_last() =~= order@.take(k as int));
        assert(order@.take(k + 1).last() == order@[k as int]);
        let i: usize = order[k];
        if i != ego_idx && i < vehicles.len() {
            let leader: &Vehicle = &vehicles[i];
            let on_edge: bool = match leader.current_edge() {
                Some(le) => le == e,
                None => false,
            };
            if on_edge && !leader.despawned {
                let center: i128 = distance_along(length, leader.edge_progress) as i128
                    - ego_at as i128;
                if center > 0 {
                    let gap: i64 = bumper_gap(center, ego, leader);
                    let closer: bool = match best {
                        Some(b) => gap < b.0,
                        None => true,
                    };
                    if closer {
                        best = Some((gap, i));
                    }
                }
            }
        }
        k = k + 1;
    }
    assert(order@.take(k as int) =~= order@);
    best
}

/// The obstacle that the nearest vehicle on the same lane is.
pub open spec fn same_lane_obstacle(
    ego_idx: int,
    ego: Vehicle,
    vehicles: Seq<Vehicle>,
    bodies: Seq<VehicleBody>,
    buckets: LaneBuckets,
    map: MapData,
) -> ClosestObstacle {
    match same_lane_leader(ego_idx, ego, vehicles, buckets, map) {
        Some(b) => leader_obstacle(ego, b.0, vehicles[b.1], bodies[b.1]),
        None => no_obstacle(),
    }
}

/// The nearest vehicle ahead on the same lane of the same edge, as an obstacle.
pub fn find_leader_obstacle_same_edge_lane(
    ego_idx: usize,
    ego: &Vehicle,
    vehicles: &Vec<Vehicle>,
    bodies: &Vec<VehicleBody>,
    buckets: &LaneBuckets,
    map: &MapData,
) -> (r: ClosestObstacle)
    requires
        buckets.wf(),
        bodies@.len() == vehicles@.len(),
    ensures
        r == same_lane_obstacle(ego_idx as int, *ego, vehicles@, bodies@, *buckets, *map),
{
    match find_same_lane_leader(ego_idx, ego, vehicles, buckets, map) {
        Some(b) => as_obstacle(ego, b.0, &vehicles[b.1], &bodies[b.1]),
        None => free_leader_obstacle(),
    }
}

/// The id of the nearest vehicle ahead on the same lane of the same edge; a turning vehicle has
/// none.
pub fn immediate_same_lane_leader_id(
    ego_idx: usize,
    ego: &Vehicle,
    vehicles: &Vec<Vehicle>,
    buckets: &LaneBuckets,
    map: &MapData,
) -> (r: Option<u32>)
    requires
        buckets.wf(),
    ensures
        r == match same_lane_leader(ego_idx as int, *ego, vehicles@, *buckets, *map) {
            Some(b) => if ego.on_turn_connector {
                None
            } else {
                Some(vehicles@[b.1].id)
            },
            None => None,
        },
{
    if ego.on_turn_connector {
        return None;
    }
    match find_same_lane_leader(ego_idx, ego, vehicles, buckets, map) {
        Some(b) => Some(vehicles[b.1].id),
        None => None,
    }
}

/// The lane on which a vehicle is looked for: the connector while it turns, else its current lane
/// where that belongs to its edge, else the lane of its edge with its number.
pub open spec fn search_lane(v: Vehicle, map: MapData) -> Option<u64> {
    if v.on_turn_connector {
        v.connector_lane_id
    } else {
        match v.edge() {
            Some(e) => match v.current_lane_id {
                Some(id) => if map.lanes.has(id) && map.lanes.lane(id).edge_id != NO_EDGE
                    && map.lanes.lane(id).edge_id == e {
                    Some(id)
                } else {
                    lane_at(map, e, v.current_lane)
                },
                None => lane_at(map, e, v.current_lane),
            },
            None => None,
        }
    }
}

/// The lane on which a vehicle is looked for.
pub fn vehicle_arc_scan_lane_id(v: &Vehicle, map: &MapData) -> (r: Option<u64>)
    ensures
        r == search_lane(*v, *map),
{
    if v.on_turn_connector {
        return v.connector_lane_id;
    }
    let e: usize = match v.current_edge() {
        Some(e) => e,
        None => {
            return None;
        },
    };
    match v.current_lane_id {
        Some(id) => {
            assert(map.lanes.lanes.len() == map.lanes.lanes@.len());
            if id >= 1 && id <= map.lanes.lanes.len() as u64 {
                let lane: &Lane = &map.lanes.lanes[(id - 1) as usize];
                if lane.edge_id != NO_EDGE && lane.edge_id == e as u64 {
                    return Some(id);
                }
            }
        },
        None => {},
    }
    lane_by_edge_lane(map, e, v.current_lane)
}

/// Whether a vehicle is on a lane by its route: on the connector that it turns along, or on a lane
/// of its edge.
pub open spec fn on_lane(v: Vehicle, lane: Lane) -> bool {
    match v.edge() {
        Some(e) => if v.on_turn_connector {
            lane.edge_id == NO_EDGE && v.connector_lane_id == Some(lane.id)
        } else {
            lane.edge_id != NO_EDGE && lane.edge_id == e
        },
        None => false,
    }
}

/// Whether a vehicle is on a lane by its route.
pub fn leader_arc_lane_matches_route(v: &Vehicle, lane: &Lane) -> (r: bool)
    ensures
        r == on_lane(*v, *lane),
{
    match v.current_edge() {
        Some(e) => if v.on_turn_connector {
            lane.edge_id == NO_EDGE && match v.connector_lane_id {
                Some(id) => id == lane.id,
                None => false,
            }
        } else {
            lane.edge_id != NO_EDGE && lane.edge_id == e as u64
        },
        None => false,
    }
}

/// The first place of a lane in a list of lanes.
pub open spec fn place_in(list: Seq<u64>, id: u64) -> Option<int>
    decreases list.len(),
{
    if list.len() == 0 {
        None
    } else {
        match place_in(list.drop_last(), id) {
            Some(k) => Some(k),
            None => if list.last() == id {
                Some(list.len() - 1)
            } else {
                None
            },
        }
    }
}

proof fn lemma_place_in_prefix(list: Seq<u64>, id: u64, n: int, k: int)
    requires
        0 <= n <= list.len(),
        place_in(list.take(n), id) == Some(k),
    ensures
        place_in(list, id) == Some(k),
    decreases list.len(),
{
    if n < list.len() {
        assert(list.drop_last().take(n) =~= list.take(n));
        lemma_place_in_prefix(list.drop_last(), id, n, k);
    } else {
        assert(list.take(n) =~= list);
    }
}

/// The first place of a lane in a list of lanes.
pub fn find_lane(list: &Vec<u64>, id: u64) -> (r: Option<usize>)
    ensures
        match r {
            Some(k) => k < list@.len() && list@[k as int] == id && place_in(list@, id) == Some(
                k as int,
            ),
            None => place_in(list@, id) is None,
        },
{
    let mut k: usize = 0;
    assert(list@.take(0) =~= Seq::<u64>::empty());
    while k < list.len()
        invariant
            k <= list@.len(),
            place_in(list@.take(k as int), id) is None,
        decreases list.len() - k,
    {
        assert(list@.take(k + 1).drop_last() =~= list@.take(k as int));
        assert(list@.take(k + 1).last() == list@[k as int]);
        if list[k] == id {
            proof {
                lemma_place_in_prefix(list@, id, k + 1, k as int);
            }
            return Some(k);
        }
        k = k + 1;
    }
    assert(list@.take(k as int) =~= list@);
    None
}

/// How far the lane at place `k` begins behind the beginning of the list.
pub open spec fn lane_offset(map: MapData, lanes: Seq<u64>, k: int) -> int
    decreases k,
{
    if k <= 0 {
        0
    } else {
        lane_offset(map, lanes, k - 1) + larger(length_of(map, lanes[k - 1]), 0)
    }
}

/// Whether the lane at place `k` is searched: the lanes before it are shorter than the search
/// length.
pub open spec fn is_searched(map: MapData, lanes: Seq<u64>, k: int) -> bool {
    0 <= k < lanes.len() && (k == 0 || lane_offset(map, lanes, k) < LEADER_SEARCH_LENGTH)
}

/// How far along its lane a vehicle is.
pub open spec fn lane_position(v: Vehicle, length: int) -> int {
    larger(
        between(v.lane_progress as int, 0, larger(length, 0)),
        between(
            saturated(part_of(length, v.edge_progress as int)),
            0,
            larger(length, 0),
        ),
    )
}

/// The gap to a vehicle on the lanes ahead, where it lies about where the gap says.
pub open spec fn route_gap(
    ego: Vehicle,
    ego_body: VehicleBody,
    ego_at: int,
    lanes: Seq<u64>,
    leader: Vehicle,
    body: VehicleBody,
    map: MapData,
) -> Option<int> {
    match search_lane(leader, map) {
        Some(id) => match place_in(lanes, id) {
            Some(k) => {
                let length = if map.lanes.has(id) && on_lane(leader, map.lanes.lane(id)) {
                    length_of(map, id)
                } else {
                    0
                };
                let at = if leader.on_turn_connector {
                    between(leader.turn_dist as int, 0, larger(length, 0))
                } else {
                    lane_position(leader, length)
                };
                let center = lane_offset(map, lanes, k) + at - ego_at;
                let gap = bumper_gap_of(center, ego, leader);
                let reach = saturated(
                    gap + if gap < NEAR_GAP {
                        NEAR_SLACK
                    } else {
                        FAR_SLACK
                    },
                );
                if leader.despawned || !is_searched(map, lanes, k) || length <= MIN_LANE_LENGTH
                    || center <= 0 || square_distance(
                    ego_body.hood_x as int,
                    ego_body.hood_y as int,
                    rear_of(body).0,
                    rear_of(body).1,
                ) > reach * reach {
                    None
                } else {
                    Some(gap)
                }
            },
            None => None,
        },
        None => None,
    }
}

/// The nearest vehicle on the lanes ahead among the first `n`: its gap and its place. Of several
/// at the same distance it is the first.
pub open spec fn nearest_on_route(
    ego_idx: int,
    ego: Vehicle,
    ego_at: int,
    lanes: Seq<u64>,
    vehicles: Seq<Vehicle>,
    bodies: Seq<VehicleBody>,
    map: MapData,
    n: int,
) -> Option<(int, int)>
    decreases n,
{
    if n <= 0 {
        None
    } else {
        let before = nearest_on_route(
            ego_idx,
            ego,
            ego_at,
            lanes,
            vehicles,
            bodies,
            map,
            n - 1,
        );
        let gap = if n - 1 != ego_idx {
            route_gap(
                ego,
                bodies[ego_idx],
                ego_at,
                lanes,
                vehicles[n - 1],
                bodies[n - 1],
                map,
            )
        } else {
            None
        };
        match gap {
            Some(g) => if before is None || g < before->Some_0.0 {
                Some((g, n - 1))
            } else {
                before
            },
            None => before,
        }
    }
}

/// The lanes ahead of a vehicle, from the one it is on.
pub open spec fn lanes_ahead(ego: Vehicle, map: MapData) -> Option<Seq<u64>> {
    match search_lane(ego, map) {
        Some(id) => match place_in(ego.lane_route@, id) {
            Some(k) => Some(ego.lane_route@.skip(k)),
            None => None,
        },
        None => None,
    }
}

/// The obstacle that the vehicle ahead is: the nearest on the lanes of the route, else the nearest
/// on the same lane of the edge.
pub open spec fn route_obstacle(
    ego_idx: int,
    ego: Vehicle,
    vehicles: Seq<Vehicle>,
    bodies: Seq<VehicleBody>,
    buckets: LaneBuckets,
    map: MapData,
) -> ClosestObstacle {
    let fallback = same_lane_obstacle(ego_idx, ego, vehicles, bodies, buckets, map);
    match (ego.edge(), lanes_ahead(ego, map)) {
        (Some(_), Some(lanes)) => {
            let length = length_of(map, lanes[0]);
            match nearest_on_route(
                ego_idx,
                ego,
                lane_position(ego, length),
                lanes,
                vehicles,
                bodies,
                map,
                vehicles.len() as int,
            ) {
                Some(b) => leader_obstacle(ego, b.0, vehicles[b.1], bodies[b.1]),
                None => fallback,
            }
        },
        (Some(_), None) => fallback,
        (None, _) => no_obstacle(),
    }
}

fn position_on_lane(v: &Vehicle, length: i64) -> (r: i64)
    ensures
        r == lane_position(*v, length as int),
        0 <= r,
        r <= larger(length as int, 0),
{
    let cap: i64 = max_of(length, 0);
    max_of(clamp_to(v.lane_progress, 0, cap), clamp_to(take_part(length, v.edge_progress), 0, cap))
}

/// The gap to a vehicle on the lanes ahead.
fn gap_on_route(
    ego: &Vehicle,
    ego_body: &VehicleBody,
    ego_at: i64,
    lanes: &Vec<u64>,
    offsets: &Vec<i128>,
    leader: &Vehicle,
    body: &VehicleBody,
    map: &MapData,
) -> (r: Option<i64>)
    requires
        0 <= ego_at,
        offsets@.len() <= lanes@.len(),
        map.lanes.numbered(),
        forall|k: int|
            0 <= k < offsets@.len() ==> #[trigger] offsets@[k] == lane_offset(*map, lanes@, k)
                && offsets@[k] <= 0x1_0000_0000_0000_0000,
        forall|k: int| 0 <= k < lanes@.len() ==> (k < offsets@.len() <==> #[trigger] is_searched(*map, lanes@, k)),
    ensures
        match r {
            Some(g) => route_gap(
                *ego,
                *ego_body,
                ego_at as int,
                lanes@,
                *leader,
                *body,
                *map,
            ) == Some(g as int),
            None => route_gap(
                *ego,
                *ego_body,
                ego_at as int,
                lanes@,
                *leader,
                *body,
                *map,
            ) is None,
        },
{
    if leader.despawned {
        return None;
    }
    let id: u64 = match vehicle_arc_scan_lane_id(leader, map) {
        Some(id) => id,
        None => {
            return None;
        },
    };
    let k: usize = match find_lane(lanes, id) {
        Some(k) => k,
        None => {
            return None;
        },
    };
    assert(k < offsets@.len() <==> is_searched(*map, lanes@, k as int));
    if k >= offsets.len() {
        return None;
    }
    assert(map.lanes.lanes.len() == map.lanes.lanes@.len());
    let length: i64 = if id >= 1 && id <= map.lanes.lanes.len() as u64
        && leader_arc_lane_matches_route(leader, &map.lanes.lanes[(id - 1) as usize]) {
        lane_length(map, id)
    } else {
        0
    };
    if length <= MIN_LANE_LENGTH {
        return None;
    }
    let at: i64 = if leader.on_turn_connector {
        clamp_to(leader.turn_dist, 0, max_of(length, 0))
    } else {
        position_on_lane(leader, length)
    };
    proof {
        lemma_offset_not_negative(*map, lanes@, k as int);
        assert(offsets@[k as int] == lane_offset(*map, lanes@, k as int));
    }
    let center: i128 = offsets[k] + at as i128 - ego_at as i128;
    if center <= 0 {
        return None;
    }
    let gap: i64 = bumper_gap(center, ego, leader);
    let slack: i64 = if gap < NEAR_GAP {
        NEAR_SLACK
    } else {
        FAR_SLACK
    };
    let reach: i64 = saturate(gap as i128 + slack as i128);
    let rear: (i64, i64) = rear_bumper(body);
    if within(ego_body.hood_x, ego_body.hood_y, rear.0, rear.1, reach) {
        Some(gap)
    } else {
        None
    }
}

proof fn lemma_offset_not_negative(map: MapData, lanes: Seq<u64>, k: int)
    ensures
        lane_offset(map, lanes, k) >= 0,
    decreases k,
{
    if k > 0 {
        lemma_offset_not_negative(map, lanes, k - 1);
    }
}

proof fn lemma_offset_grows(map: MapData, lanes: Seq<u64>, a: int, b: int)
    requires
        0 <= a <= b,
    ensures
        lane_offset(map, lanes, a) <= lane_offset(map, lanes, b),
    decreases b,
{
    if a < b {
        lemma_offset_grows(map, lanes, a, b - 1);
    }
}

/// Where the searched lanes begin.
fn offsets_ahead(map: &MapData, lanes: &Vec<u64>) -> (r: Vec<i128>)
    ensures
        r@.len() <= lanes@.len(),
        forall|k: int|
            0 <= k < r@.len() ==> #[trigger] r@[k] == lane_offset(*map, lanes@, k) && r@[k]
                <= 0x1_0000_0000_0000_0000,
        forall|k: int| 0 <= k < lanes@.len() ==> (k < r@.len() <==> #[trigger] is_searched(*map, lanes@, k)),
{
    let mut out: Vec<i128> = Vec::new();
    let mut acc: i128 = 0;
    let mut k: usize = 0;
    while k < lanes.len() && (k == 0 || acc < LEADER_SEARCH_LENGTH as i128)
        invariant
            k <= lanes@.len(),
            out@.len() == k,
            acc == lane_offset(*map, lanes@, k as int),
            0 <= acc <= LEADER_SEARCH_LENGTH + i64::MAX,
            k > 0 ==> lane_offset(*map, lanes@, k - 1) < LEADER_SEARCH_LENGTH,
            forall|j: int|
                0 <= j < k ==> #[trigger] out@[j] == lane_offset(*map, lanes@, j) && out@[j]
                    <= 0x1_0000_0000_0000_0000,
        decreases lanes.len() - k,
    {
        out.push(acc);
        acc = acc + max_of(lane_length(map, lanes[k]), 0) as i128;
        k = k + 1;
    }
    proof {
        assert forall|j: int| 0 <= j < lanes@.len() implies (j < out@.len()
            <==> #[trigger] is_searched(*map, lanes@, j)) by {
            if j < k {
                if j > 0 {
                    lemma_offset_grows(*map, lanes@, j, k - 1);
                }
            } else {
                lemma_offset_grows(*map, lanes@, k as int, j);
            }
        }
    }
    out
}

/// The vehicle ahead, as an obstacle: the nearest on the lanes of the route, else the nearest on
/// the same lane of the edge.
pub fn find_leader_obstacle_arc(
    ego_idx: usize,
    ego: &Vehicle,
    vehicles: &Vec<Vehicle>,
    bodies: &Vec<VehicleBody>,
    buckets: &LaneBuckets,
    map: &MapData,
) -> (r: ClosestObstacle)
    requires
        map.wf(),
        buckets.wf(),
        bodies@.len() == vehicles@.len(),
        ego_idx < vehicles@.len(),
    ensures
        r == route_obstacle(ego_idx as int, *ego, vehicles@, bodies@, *buckets, *map),
        ego.edge() is Some ==> forall|i: int|
            0 <= i < vehicles@.len() && i != ego_idx && (#[trigger] gap_ahead(
                ego_idx as int,
                *ego,
                vehicles@,
                bodies@,
                *map,
                i,
            )) is Some ==> r.gap <= gap_ahead(
                ego_idx as int,
                *ego,
                vehicles@,
                bodies@,
                *map,
                i,
            )->Some_0,
{
    proof {
        if ego.edge() is Some {
            assert forall|i: int|
                0 <= i < vehicles@.len() && i != ego_idx && (#[trigger] gap_ahead(
                    ego_idx as int,
                    *ego,
                    vehicles@,
                    bodies@,
                    *map,
                    i,
                )) is Some implies route_obstacle(
                ego_idx as int,
                *ego,
                vehicles@,
                bodies@,
                *buckets,
                *map,
            ).gap <= gap_ahead(ego_idx as int, *ego, vehicles@, bodies@, *map, i)->Some_0 by {
                law_leader_is_nearest(
                    ego_idx as int,
                    *ego,
                    vehicles@,
                    bodies@,
                    *buckets,
                    *map,
                    i,
                );
            }
        }
    }
    if ego.current_edge().is_none() {
        return free_leader_obstacle();
    }
    let start: Option<usize> = match vehicle_arc_scan_lane_id(ego, map) {
        Some(id) => find_lane(&ego.lane_route, id),
        None => None,
    };
    match start {
        Some(k) => {
            let mut lanes: Vec<u64> = Vec::new();
            let mut j: usize = k;
            while j < ego.lane_route.len()
                invariant
                    k <= j <= ego.lane_route@.len(),
                    lanes@ == ego.lane_route@.subrange(k as int, j as int),
                decreases ego.lane_route.len() - j,
            {
                lanes.push(ego.lane_route[j]);
                j = j + 1;
                assert(lanes@ =~= ego.lane_route@.subrange(k as int, j as int));
            }
            assert(lanes@ =~= ego.lane_route@.skip(k as int));
            assert(lanes@[0] == ego.lane_route@[k as int]);
            let ghost ahead = lanes@;
            let offsets: Vec<i128> = offsets_ahead(map, &lanes);
            let ego_at: i64 = position_on_lane(ego, lane_length(map, lanes[0]));
            let mut best: Option<(i64, usize)> = None;
            let mut i: usize = 0;
            while i < vehicles.len()
                invariant
                    i <= vehicles@.len(),
                    ego_idx < vehicles@.len(),
                    bodies@.len() == vehicles@.len(),
                    0 <= ego_at,
                    map.wf(),
                    lanes@ == ahead,
                    offsets@.len() <= lanes@.len(),
                    forall|k: int|
                        0 <= k < offsets@.len() ==> #[trigger] offsets@[k] == lane_offset(
                            *map,
                            lanes@,
                            k,
                        ) && offsets@[k] <= 0x1_0000_0000_0000_0000,
                    forall|k: int|
                        0 <= k < lanes@.len() ==> (k < offsets@.len()
                            <==> #[trigger] is_searched(*map, lanes@, k)),
                    match best {
                        Some(b) => b.1 < vehicles@.len() && nearest_on_route(
                            ego_idx as int,
                            *ego,
                            ego_at as int,
                            ahead,
                            vehicles@,
                            bodies@,
                            *map,
                            i as int,
                        ) == Some((b.0 as int, b.1 as int)),
                        None => nearest_on_route(
                            ego_idx as int,
                            *ego,
                            ego_at as int,
                            ahead,
                            vehicles@,
                            bodies@,
                            *map,
                            i as int,
                        ) is None,
                    },
                decreases vehicles.len() - i,
            {
                if i != ego_idx {
                    match gap_on_route(
                        ego,
                        &bodies[ego_idx],
                        ego_at,
                        &lanes,
                        &offsets,
                        &vehicles[i],
                        &bodies[i],
                        map,
                    ) {
                        Some(g) => {
                            let closer: bool = match best {
                                Some(b) => g < b.0,
                                None => true,
                            };
                            if closer {
                                best = Some((g, i));
                            }
                        },
                        None => {},
                    }
                }
                i = i + 1;
            }
            match best {
                Some(b) => as_obstacle(ego, b.0, &vehicles[b.1], &bodies[b.1]),
                None => find_leader_obstacle_same_edge_lane(
                    ego_idx,
                    ego,
                    vehicles,
                    bodies,
                    buckets,
                    map,
                ),
            }
        },
        None => find_leader_obstacle_same_edge_lane(
            ego_idx,
            ego,
            vehicles,
            bodies,
            buckets,
            map,
        ),
    }
}

/// The list of a lane holds exactly the vehicles that drive on it.
pub proof fn law_buckets_complete(vehicles: Seq<Vehicle>, n: int, edge: usize, lane: u8, i: int)
    requires
        0 <= n <= vehicles.len(),
        0 <= i < n,
        vehicles.len() <= usize::MAX,
    ensures
        bucket_of(vehicles, n, edge, lane).contains(i as usize) <==> vehicles[i].edge() == Some(
            edge,
        ) && vehicles[i].current_lane == lane,
    decreases n,
{
    let before = bucket_of(vehicles, n - 1, edge, lane);
    let fits = vehicles[n - 1].edge() == Some(edge) && vehicles[n - 1].current_lane == lane;
    lemma_bucket_below(vehicles, n - 1, edge, lane);
    if fits {
        lemma_placed_holds(vehicles, before, (n - 1) as usize, i as usize);
    }
    if i < n - 1 {
        law_buckets_complete(vehicles, n - 1, edge, lane, i);
    } else if before.contains(i as usize) {
        let k = choose|k: int| 0 <= k < before.len() && before[k] == i as usize;
        assert(before[k] < n - 1);
    }
}

/// The vehicles of a lane are listed from the rear to the front: none drives behind the one before
/// it.
pub proof fn law_buckets_sorted(vehicles: Seq<Vehicle>, n: int, edge: usize, lane: u8, k: int)
    requires
        0 <= n <= vehicles.len(),
        0 <= k,
        k + 1 < bucket_of(vehicles, n, edge, lane).len(),
    ensures
        ({
            let b = bucket_of(vehicles, n, edge, lane);
            !drives_behind(vehicles[b[k + 1] as int], vehicles[b[k] as int])
        }),
    decreases n,
{
    if n > 0 {
        let before = bucket_of(vehicles, n - 1, edge, lane);
        assert forall|j: int| 0 <= j && j + 1 < before.len() implies !drives_behind(
            vehicles[before[j + 1] as int],
            vehicles[#[trigger] before[j] as int],
        ) by {
            law_buckets_sorted(vehicles, n - 1, edge, lane, j);
        }
        if vehicles[n - 1].edge() == Some(edge) && vehicles[n - 1].current_lane == lane {
            lemma_placed_sorted(vehicles, before, (n - 1) as usize, k);
        }
    }
}

proof fn lemma_bucket_below(vehicles: Seq<Vehicle>, n: int, edge: usize, lane: u8)
    requires
        0 <= n <= usize::MAX,
    ensures
        forall|k: int|
            0 <= k < bucket_of(vehicles, n, edge, lane).len() ==> #[trigger] bucket_of(
                vehicles,
                n,
                edge,
                lane,
            )[k] < n,
    decreases n,
{
    if n > 0 {
        let before = bucket_of(vehicles, n - 1, edge, lane);
        let after = bucket_of(vehicles, n, edge, lane);
        lemma_bucket_below(vehicles, n - 1, edge, lane);
        if vehicles[n - 1].edge() == Some(edge) && vehicles[n - 1].current_lane == lane {
            assert forall|k: int| 0 <= k < after.len() implies #[trigger] after[k] < n by {
                lemma_placed_holds(vehicles, before, (n - 1) as usize, after[k]);
                assert(after.contains(after[k]));
                if after[k] != n - 1 {
                    let j = choose|j: int| 0 <= j < before.len() && before[j] == after[k];
                    assert(before[j] < n - 1);
                }
            }
        }
    }
}

proof fn lemma_placed_holds(vehicles: Seq<Vehicle>, order: Seq<usize>, i: usize, x: usize)
    ensures
        placed(vehicles, order, i).contains(x) <==> order.contains(x) || x == i,
    decreases order.len(),
{
    if order.len() > 0 && drives_behind(vehicles[i as int], vehicles[order.last() as int]) {
        let rest = order.drop_last();
        let p = placed(vehicles, rest, i);
        lemma_placed_holds(vehicles, rest, i, x);
        lemma_push_holds(p, order.last(), x);
        lemma_push_holds(rest, order.last(), x);
        assert(rest.push(order.last()) =~= order);
    } else {
        lemma_push_holds(order, i, x);
    }
}

proof fn lemma_push_holds(s: Seq<usize>, y: usize, x: usize)
    ensures
        s.push(y).contains(x) <==> s.contains(x) || x == y,
{
    if s.contains(x) {
        let k = choose|k: int| 0 <= k < s.len() && s[k] == x;
        assert(s.push(y)[k] == x);
    }
    assert(s.push(y)[s.len() as int] == y);
    if s.push(y).contains(x) && x != y {
        let k = choose|k: int| 0 <= k < s.push(y).len() && s.push(y)[k] == x;
        assert(s[k] == x);
    }
}

proof fn lemma_placed_sorted(vehicles: Seq<Vehicle>, order: Seq<usize>, i: usize, k: int)
    requires
        forall|j: int|
            0 <= j && j + 1 < order.len() ==> !drives_behind(
                vehicles[order[j + 1] as int],
                vehicles[#[trigger] order[j] as int],
            ),
        0 <= k,
        k + 1 < placed(vehicles, order, i).len(),
    ensures
        ({
            let p = placed(vehicles, order, i);
            !drives_behind(vehicles[p[k + 1] as int], vehicles[p[k] as int])
        }),
        placed(vehicles, order, i).len() == order.len() + 1,
    decreases order.len(),
{
    if order.len() > 0 && drives_behind(vehicles[i as int], vehicles[order.last() as int]) {
        let rest = order.drop_last();
        let p = placed(vehicles, rest, i);
        assert forall|j: int| 0 <= j && j + 1 < rest.len() implies !drives_behind(
            vehicles[rest[j + 1] as int],
            vehicles[#[trigger] rest[j] as int],
        ) by {
            assert(rest[j] == order[j] && rest[j + 1] == order[j + 1]);
        }
        lemma_placed_last(vehicles, rest, i);
        if k + 1 < p.len() {
            lemma_placed_sorted(vehicles, rest, i, k);
        } else if p.last() != i {
            assert(rest.last() == order[order.len() - 2]);
            assert(order[order.len() - 2 + 1] == order.last());
        }
    } else if k + 1 < order.len() {
        assert(order[k] == order[k]);
    }
}

proof fn lemma_placed_last(vehicles: Seq<Vehicle>, order: Seq<usize>, i: usize)
    ensures
        placed(vehicles, order, i).len() == order.len() + 1,
        placed(vehicles, order, i).last() == i || order.len() > 0 && placed(
            vehicles,
            order,
            i,
        ).last() == order.last(),
    decreases order.len(),
{
    if order.len() > 0 && drives_behind(vehicles[i as int], vehicles[order.last() as int]) {
        lemma_placed_last(vehicles, order.drop_last(), i);
    }
}

/// What the nearest vehicle on the lanes ahead is: none of the others is nearer.
proof fn lemma_nearest_on_route(
    ego_idx: int,
    ego: Vehicle,
    ego_at: int,
    lanes: Seq<u64>,
    vehicles: Seq<Vehicle>,
    bodies: Seq<VehicleBody>,
    map: MapData,
    n: int,
)
    requires
        0 <= n,
    ensures
        ({
            let found = nearest_on_route(ego_idx, ego, ego_at, lanes, vehicles, bodies, map, n);
            &&& found matches Some(b) ==> 0 <= b.1 < n && b.1 != ego_idx && route_gap(
                ego,
                bodies[ego_idx],
                ego_at,
                lanes,
                vehicles[b.1],
                bodies[b.1],
                map,
            ) == Some(b.0)
            &&& forall|i: int|
                0 <= i < n && i != ego_idx && route_gap(
                    ego,
                    bodies[ego_idx],
                    ego_at,
                    lanes,
                    #[trigger] vehicles[i],
                    bodies[i],
                    map,
                ) is Some ==> found is Some && found->Some_0.0 <= route_gap(
                    ego,
                    bodies[ego_idx],
                    ego_at,
                    lanes,
                    vehicles[i],
                    bodies[i],
                    map,
                )->Some_0
        }),
    decreases n,
{
    if n > 0 {
        lemma_nearest_on_route(ego_idx, ego, ego_at, lanes, vehicles, bodies, map, n - 1);
    }
}

/// Where some other vehicle is found on the lanes ahead, the obstacle is the nearest of these: it is one
/// of them, and the gap to it is at most the gap to any other.
pub proof fn law_leader_is_nearest(
    ego_idx: int,
    ego: Vehicle,
    vehicles: Seq<Vehicle>,
    bodies: Seq<VehicleBody>,
    buckets: LaneBuckets,
    map: MapData,
    i: int,
)
    requires
        ego.edge() is Some,
        lanes_ahead(ego, map) is Some,
        0 <= i < vehicles.len(),
        i != ego_idx,
        gap_ahead(ego_idx, ego, vehicles, bodies, map, i) is Some,
    ensures
        ({
            let o = route_obstacle(ego_idx, ego, vehicles, bodies, buckets, map);
            &&& o.kind == ObstacleKind::Vehicle
            &&& o.gap <= gap_ahead(ego_idx, ego, vehicles, bodies, map, i)->Some_0
            &&& exists|k: int|
                0 <= k < vehicles.len() && k != ego_idx && o.leader_vehicle_id == Some(
                    vehicles[k].id,
                ) && #[trigger] gap_ahead(ego_idx, ego, vehicles, bodies, map, k) == Some(
                    o.gap as int,
                )
        }),
{
    let lanes = lanes_ahead(ego, map)->Some_0;
    let at = lane_position(ego, length_of(map, lanes[0]));
    let n = vehicles.len() as int;
    lemma_nearest_on_route(ego_idx, ego, at, lanes, vehicles, bodies, map, n);
    let b = nearest_on_route(ego_idx, ego, at, lanes, vehicles, bodies, map, n)->Some_0;
    assert(route_gap(ego, bodies[ego_idx], at, lanes, vehicles[i], bodies[i], map) is Some);
    assert(gap_ahead(ego_idx, ego, vehicles, bodies, map, b.1) == Some(b.0));
}

/// The gap to a vehicle on the lanes ahead of another one.
pub open spec fn gap_ahead(
    ego_idx: int,
    ego: Vehicle,
    vehicles: Seq<Vehicle>,
    bodies: Seq<VehicleBody>,
    map: MapData,
    i: int,
) -> Option<int> {
    match lanes_ahead(ego, map) {
        Some(lanes) => route_gap(
            ego,
            bodies[ego_idx],
            lane_position(ego, length_of(map, lanes[0])),
            lanes,
            vehicles[i],
            bodies[i],
            map,
        ),
        None => None,
    }
}

/// Two vehicles whose bumpers are at least the smallest gap apart have exactly that gap: their centres
/// are further apart by half the length of each.
pub proof fn law_gap_between_bumpers(gap: int, ego: Vehicle, leader: Vehicle)
    requires
        MIN_IDM_GAP <= gap <= i64::MAX,
    ensures
        bumper_gap_of(
            gap + (ego.vehicle_type.params_of().length + leader.vehicle_type.params_of().length)
                / 2,
            ego,
            leader,
        ) == gap,
        forall|center: int| #[trigger] bumper_gap_of(center, ego, leader) >= MIN_IDM_GAP,
        forall|a: int, b: int|
            a <= b ==> #[trigger] bumper_gap_of(a, ego, leader) <= #[trigger] bumper_gap_of(
                b,
                ego,
                leader,
            ),
{
}

/// Only a vehicle that is still driving, on a lane of the list and farther along than the other one is
/// ahead of it, by the lengths of the lanes between and the places of both on their lanes.
pub proof fn law_who_is_ahead(
    ego: Vehicle,
    ego_body: VehicleBody,
    ego_at: int,
    lanes: Seq<u64>,
    leader: Vehicle,
    body: VehicleBody,
    map: MapData,
    k: int,
)
    requires
        !leader.on_turn_connector,
        place_in(lanes, search_lane(leader, map)->Some_0) == Some(k),
        search_lane(leader, map) is Some,
        route_gap(ego, ego_body, ego_at, lanes, leader, body, map) is Some,
    ensures
        ({
            let id = search_lane(leader, map)->Some_0;
            let at = lane_offset(map, lanes, k) + lane_position(leader, length_of(map, id));
            let gap = route_gap(ego, ego_body, ego_at, lanes, leader, body, map)->Some_0;
            let bodies = (ego.vehicle_type.params_of().length
                + leader.vehicle_type.params_of().length) / 2;
            &&& !leader.despawned
            &&& at > ego_at
            &&& gap >= MIN_IDM_GAP
            &&& at - ego_at - bodies <= i64::MAX ==> gap == MIN_IDM_GAP || gap == at - ego_at
                - bodies
        }),
{
}

/// What the nearest vehicle of a list on the same lane is: none of the others is nearer.
proof fn lemma_nearest_on_lane(
    ego_idx: int,
    ego: Vehicle,
    edge: usize,
    length: int,
    vehicles: Seq<Vehicle>,
    order: Seq<usize>,
)
    ensures
        ({
            let found = nearest_on_lane(ego_idx, ego, edge, length, vehicles, order);
            &&& found matches Some(b) ==> 0 <= b.1 < vehicles.len() && b.1 != ego_idx && lane_gap(
                ego,
                edge,
                length,
                vehicles[b.1],
            ) == Some(b.0) && order.contains(b.1 as usize)
            &&& forall|i: int|
                0 <= i < order.len() && order[i] != ego_idx && order[i] < vehicles.len()
                    && lane_gap(ego, edge, length, vehicles[#[trigger] order[i] as int]) is Some
                    ==> found is Some && found->Some_0.0 <= lane_gap(
                    ego,
                    edge,
                    length,
                    vehicles[order[i] as int],
                )->Some_0
        }),
    decreases order.len(),
{
    if order.len() > 0 {
        let front = order.drop_last();
        lemma_nearest_on_lane(ego_idx, ego, edge, length, vehicles, front);
        let before = nearest_on_lane(ego_idx, ego, edge, length, vehicles, front);
        if before is Some {
            let j = choose|j: int|
                0 <= j < front.len() && front[j] == before->Some_0.1 as usize;
            assert(order[j] == front[j]);
        }
        assert(order[order.len() - 1] == order.last());
        assert forall|i: int|
            0 <= i < order.len() && order[i] != ego_idx && order[i] < vehicles.len() && lane_gap(
                ego,
                edge,
                length,
                vehicles[#[trigger] order[i] as int],
            ) is Some implies nearest_on_lane(ego_idx, ego, edge, length, vehicles, order) is Some
            && nearest_on_lane(ego_idx, ego, edge, length, vehicles, order)->Some_0.0 <= lane_gap(
            ego,
            edge,
            length,
            vehicles[order[i] as int],
        )->Some_0 by {
            if i < front.len() {
                assert(front[i] == order[i]);
            }
        }
    }
}

/// The leader on the same lane is the nearest vehicle ahead on it: it is at most as far as any other
/// vehicle that drives on the lane farther along.
pub proof fn law_same_lane_leader_is_nearest(
    ego_idx: int,
    ego: Vehicle,
    vehicles: Seq<Vehicle>,
    map: MapData,
    buckets: LaneBuckets,
    e: usize,
    i: int,
)
    requires
        vehicles.len() <= usize::MAX,
        ego.edge() == Some(e),
        edge_lane_length(map, e, ego.current_lane) > MIN_LANE_LENGTH,
        buckets.at(e, ego.current_lane) == bucket_of(
            vehicles,
            vehicles.len() as int,
            e,
            ego.current_lane,
        ),
        0 <= i < vehicles.len(),
        i != ego_idx,
        !vehicles[i].despawned,
        vehicles[i].edge() == Some(e),
        vehicles[i].current_lane == ego.current_lane,
        along(edge_lane_length(map, e, ego.current_lane), vehicles[i].edge_progress as int) > along(
            edge_lane_length(map, e, ego.current_lane),
            ego.edge_progress as int,
        ),
    ensures
        ({
            let length = edge_lane_length(map, e, ego.current_lane);
            let found = same_lane_leader(ego_idx, ego, vehicles, buckets, map);
            &&& found is Some
            &&& found->Some_0.0 <= bumper_gap_of(
                along(length, vehicles[i].edge_progress as int) - along(
                    length,
                    ego.edge_progress as int,
                ),
                ego,
                vehicles[i],
            )
            &&& 0 <= found->Some_0.1 < vehicles.len()
            &&& found->Some_0.1 != ego_idx
            &&& along(length, vehicles[found->Some_0.1].edge_progress as int) > along(
                length,
                ego.edge_progress as int,
            )
        }),
{
    let order = bucket_of(vehicles, vehicles.len() as int, e, ego.current_lane);
    let length = edge_lane_length(map, e, ego.current_lane);
    law_buckets_complete(vehicles, vehicles.len() as int, e, ego.current_lane, i);
    lemma_nearest_on_lane(ego_idx, ego, e, length, vehicles, order);
    let j = choose|j: int| 0 <= j < order.len() && order[j] == i as usize;
    assert(lane_gap(ego, e, length, vehicles[order[j] as int]) is Some);
}

/// A vehicle closes in on its leader exactly when it is the faster one, by the difference of the speeds.
pub proof fn law_closing_in(ego: Vehicle, gap: int, leader: Vehicle, body: VehicleBody)
    requires
        -1_000_000_000 <= ego.speed <= 1_000_000_000,
        -1_000_000_000 <= leader.speed <= 1_000_000_000,
        i64::MIN <= gap <= i64::MAX,
    ensures
        ({
            let o = leader_obstacle(ego, gap, leader, body);
            &&& o.delta_v + leader.speed == ego.speed
            &&& o.delta_v > 0 <==> ego.speed > leader.speed
            &&& o.gap == gap
            &&& o.kind == ObstacleKind::Vehicle && o.leader_vehicle_id == Some(leader.id)
        }),
{
}

} // verus!
