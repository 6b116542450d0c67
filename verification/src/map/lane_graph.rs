//! The lanes of every road segment and the connectors that join them across junctions.

use vstd::prelude::*;

use crate::map::id_index::push_new;
use crate::map::road_network::{RoadEdge, RoadNode};
use crate::map::topology::Topology;
use crate::units::{larger, max_of, smaller};

verus! {

/// The edge of a connector lane: it belongs to no road segment.
pub const NO_EDGE: u64 = 0xffff_ffff_ffff_ffff;

/// Narrowest lane width used for the lane layout.
pub const MIN_LANE_WIDTH: i64 = 2_500_000;

/// Most road lanes that a lane graph can hold.
pub const MAX_ROAD_LANES: u64 = 0xffff_ffff;

/// A lane of a road segment, or a connector between two such lanes.
pub struct Lane {
    pub id: u64,
    pub length: i64,
    pub width: i64,
    pub connections: Vec<u64>,
    pub conflict_areas: Vec<u64>,
    pub from_node_osm_id: u64,
    pub to_node_osm_id: u64,
    pub edge_id: u64,
    pub lane_index: u8,
}

/// What a lane holds, as a value.
pub struct LaneView {
    pub id: u64,
    pub length: i64,
    pub width: i64,
    pub connections: Seq<u64>,
    pub conflict_areas: Seq<u64>,
    pub from_node_osm_id: u64,
    pub to_node_osm_id: u64,
    pub edge_id: u64,
    pub lane_index: u8,
}

impl View for Lane {
    type V = LaneView;

    open spec fn view(&self) -> LaneView {
        LaneView {
            id: self.id,
            length: self.length,
            width: self.width,
            connections: self.connections@,
            conflict_areas: self.conflict_areas@,
            from_node_osm_id: self.from_node_osm_id,
            to_node_osm_id: self.to_node_osm_id,
            edge_id: self.edge_id,
            lane_index: self.lane_index,
        }
    }
}

/// The number of lanes laid out on a segment.
pub open spec fn lane_count(lanes: int) -> int {
    larger(lanes, 1)
}

/// How a turn leads through a node.
#[derive(Clone, Copy, Debug, PartialEq, Eq, Structural)]
pub enum TurnClass {
    Right,
    Straight,
    Left,
    UTurn,
}

/// The lane pairs of a turn: right turns join the rightmost lanes, left turns the leftmost,
/// straight movements keep the lane as far as it goes on, and U-turns have none.
pub open spec fn connector_pairs(in_lanes: int, out_lanes: int, turn: TurnClass) -> Seq<(u8, u8)> {
    match turn {
        TurnClass::Right => seq![((in_lanes - 1) as u8, (out_lanes - 1) as u8)],
        TurnClass::Straight => Seq::new(
            in_lanes as nat,
            |i: int| (i as u8, smaller(i, out_lanes - 1) as u8),
        ),
        TurnClass::Left => seq![(0u8, 0u8)],
        TurnClass::UTurn => Seq::empty(),
    }
}

/// The lane pairs of a turn between segments with the given numbers of lanes.
pub fn valid_connector_pairs(in_lanes: u8, out_lanes: u8, turn: TurnClass) -> (r: Vec<(u8, u8)>)
    requires
        turn == TurnClass::Right ==> in_lanes > 0 && out_lanes > 0,
        turn == TurnClass::Straight && in_lanes > 0 ==> out_lanes > 0,
    ensures
        r@ == connector_pairs(in_lanes as int, out_lanes as int, turn),
{
    let mut pairs: Vec<(u8, u8)> = Vec::new();
    match turn {
        TurnClass::Right => {
            pairs.push((in_lanes - 1, out_lanes - 1));
        },
        TurnClass::Straight => {
            let mut i: u8 = 0;
            while i < in_lanes
                invariant
                    i <= in_lanes,
                    in_lanes > 0 ==> out_lanes > 0,
                    pairs@ == connector_pairs(in_lanes as int, out_lanes as int, turn).take(
                        i as int,
                    ),
                    turn == TurnClass::Straight,
                decreases in_lanes - i,
            {
                let o: u8 = if i <= out_lanes - 1 {
                    i
                } else {
                    out_lanes - 1
                };
                pairs.push((i, o));
                i = i + 1;
                assert(pairs@ =~= connector_pairs(
                    in_lanes as int,
                    out_lanes as int,
                    turn,
                ).take(i as int));
            }
        },
        TurnClass::Left => {
            pairs.push((0, 0));
        },
        TurnClass::UTurn => {},
    }
    assert(pairs@ =~= connector_pairs(in_lanes as int, out_lanes as int, turn));
    pairs
}

/// The lane pairs that join `n` incoming with `m` outgoing lanes: lane by lane from the left,
/// and the lanes left over on one side to the rightmost lane of the other.
pub open spec fn proportional_pairs(n: int, m: int) -> Seq<(u8, u8)> {
    if n <= 0 || m <= 0 {
        Seq::empty()
    } else {
        Seq::new(
            larger(n, m) as nat,
            |i: int| (smaller(i, n - 1) as u8, smaller(i, m - 1) as u8),
        )
    }
}

/// The lane pairs that join `n` incoming with `m` outgoing lanes.
pub fn proportional_lane_pairs(n: u8, m: u8) -> (r: Vec<(u8, u8)>)
    ensures
        r@ == proportional_pairs(n as int, m as int),
{
    let mut pairs: Vec<(u8, u8)> = Vec::new();
    if n == 0 || m == 0 {
        assert(pairs@ =~= proportional_pairs(n as int, m as int));
        return pairs;
    }
    let total: u8 = if n >= m {
        n
    } else {
        m
    };
    let mut i: u8 = 0;
    while i < total
        invariant
            n > 0,
            m > 0,
            total == larger(n as int, m as int),
            i <= total,
            pairs@ == proportional_pairs(n as int, m as int).take(i as int),
        decreases total - i,
    {
        let a: u8 = if i <= n - 1 {
            i
        } else {
            n - 1
        };
        let b: u8 = if i <= m - 1 {
            i
        } else {
            m - 1
        };
        pairs.push((a, b));
        i = i + 1;
        assert(pairs@ =~= proportional_pairs(n as int, m as int).take(i as int));
    }
    assert(pairs@ =~= proportional_pairs(n as int, m as int));
    pairs
}

/// Every incoming and every outgoing lane takes part in the proportional mapping, and only
/// existing lanes do.
pub proof fn law_proportional_pairs_cover(n: u8, m: u8, i: u8, j: u8)
    requires
        i < n,
        j < m,
    ensures
        exists|k: int|
            0 <= k < proportional_pairs(n as int, m as int).len() && (#[trigger] proportional_pairs(
                n as int,
                m as int,
            )[k]).0 == i,
        exists|k: int|
            0 <= k < proportional_pairs(n as int, m as int).len() && (#[trigger] proportional_pairs(
                n as int,
                m as int,
            )[k]).1 == j,
        forall|k: int|
            0 <= k < proportional_pairs(n as int, m as int).len() ==> (
            #[trigger] proportional_pairs(n as int, m as int)[k]).0 < n && proportional_pairs(
                n as int,
                m as int,
            )[k].1 < m,
{
    let p = proportional_pairs(n as int, m as int);
    assert(p[i as int].0 == i);
    assert(p[j as int].1 == j);
}

/// Lanes of a road network. A lane's id is its place in the list plus one.
pub struct LaneGraph {
    pub lanes: Vec<Lane>,
    /// The ids of the lanes of each segment, from left to right.
    pub by_edge: Vec<Vec<u64>>,
}

impl LaneGraph {
    /// The lane with the given id.
    pub open spec fn lane(&self, id: u64) -> Lane {
        self.lanes@[id - 1]
    }

    /// Whether a lane has the given id.
    pub open spec fn has(&self, id: u64) -> bool {
        1 <= id <= self.lanes@.len()
    }

    /// Lanes are numbered in order.
    pub open spec fn numbered(&self) -> bool {
        forall|i: int| 0 <= i < self.lanes@.len() ==> (#[trigger] self.lanes@[i]).id == i + 1
    }

    /// Whether some listed connection is `to` itself or a connector that leads to it.
    pub open spec fn reaches(&self, connections: Seq<u64>, to: u64) -> bool {
        exists|k: int|
            0 <= k < connections.len() && #[trigger] self.leads_to(connections[k], to)
    }

    /// Whether a connection is `to` itself or a connector that leads to it.
    pub open spec fn leads_to(&self, c: u64, to: u64) -> bool {
        c == to || (self.has(c) && self.lane(c).edge_id == NO_EDGE && self.lane(
            c,
        ).connections@.contains(to))
    }

    /// The place of a lane in the list.
    fn place(&self, id: u64) -> (r: Option<usize>)
        ensures
            match r {
                Some(i) => self.has(id) && i == id - 1,
                None => !self.has(id),
            },
    {
        if id >= 1 && id <= self.lanes.len() as u64 {
            Some((id - 1) as usize)
        } else {
            None
        }
    }

    /// Whether a connection is `to` itself or a connector that leads to it.
    fn connection_leads_to(&self, c: u64, to: u64) -> (r: bool)
        ensures
            r == self.leads_to(c, to),
    {
        if c == to {
            return true;
        }
        match self.place(c) {
            Some(i) => self.lanes[i].edge_id == NO_EDGE && contains_id(
                &self.lanes[i].connections,
                to,
            ),
            None => false,
        }
    }

    /// Whether some listed connection is `to` itself or a connector that leads to it.
    pub fn lane_already_reaches_to(&self, connections: &Vec<u64>, to: u64) -> (r: bool)
        ensures
            r == self.reaches(connections@, to),
    {
        let mut k: usize = 0;
        while k < connections.len()
            invariant
                k <= connections.len(),
                forall|m: int| 0 <= m < k ==> !#[trigger] self.leads_to(connections@[m], to),
            decreases connections.len() - k,
        {
            if self.connection_leads_to(connections[k], to) {
                return true;
            }
            k = k + 1;
        }
        false
    }

    /// The connector from one lane to another, as lane `id`.
    pub open spec fn connector(&self, from: u64, to: u64, id: u64) -> LaneView {
        LaneView {
            id,
            length: 0,
            width: smaller(self.lane(from).width as int, self.lane(to).width as int) as i64,
            connections: seq![to],
            conflict_areas: Seq::empty(),
            from_node_osm_id: self.lane(from).from_node_osm_id,
            to_node_osm_id: self.lane(to).to_node_osm_id,
            edge_id: NO_EDGE,
            lane_index: 0,
        }
    }

    /// Builds the connector from one lane to another; its length is set once it is drawn.
    fn build_lane_connector_with_fallback(&self, from: u64, to: u64) -> (r: Option<Lane>)
        requires
            self.lanes@.len() < u64::MAX,
        ensures
            match r {
                Some(l) => self.has(from) && self.has(to) && l@ == self.connector(
                    from,
                    to,
                    (self.lanes@.len() + 1) as u64,
                ),
                None => !self.has(from) || !self.has(to),
            },
    {
        match (self.place(from), self.place(to)) {
            (Some(f), Some(t)) => {
                let mut connections: Vec<u64> = Vec::new();
                connections.push(to);
                assert(connections@ =~= seq![to]);
                let areas: Vec<u64> = Vec::new();
                assert(areas@ =~= Seq::<u64>::empty());
                let wf: i64 = self.lanes[f].width;
                let wt: i64 = self.lanes[t].width;
                Some(
                    Lane {
                        id: self.lanes.len() as u64 + 1,
                        length: 0,
                        width: if wf <= wt {
                            wf
                        } else {
                            wt
                        },
                        connections,
                        conflict_areas: areas,
                        from_node_osm_id: self.lanes[f].from_node_osm_id,
                        to_node_osm_id: self.lanes[t].to_node_osm_id,
                        edge_id: NO_EDGE,
                        lane_index: 0,
                    },
                )
            },
            _ => None,
        }
    }

    /// Adds a connector from one lane to another and lists it, unless a listed connection
    /// leads there already or a lane is missing.
    pub fn append_lane_turn_connection(&mut self, from: u64, to: u64, connections: &mut Vec<u64>)
        requires
            old(self).numbered(),
            old(self).lanes@.len() < u64::MAX,
            forall|k: int|
                0 <= k < old(connections)@.len() ==> #[trigger] old(connections)@[k]
                    <= old(self).lanes@.len(),
        ensures
            final(self).numbered(),
            final(self).by_edge == old(self).by_edge,
            old(self).reaches(old(connections)@, to) || !old(self).has(from) || !old(self).has(to)
                ==> final(self).lanes == old(self).lanes && final(connections)@
                == old(connections)@,
            !old(self).reaches(old(connections)@, to) && old(self).has(from) && old(self).has(to)
                ==> {
                let id = (old(self).lanes@.len() + 1) as u64;
                &&& final(self).lanes@.len() == old(self).lanes@.len() + 1
                &&& final(self).lanes@.drop_last() == old(self).lanes@
                &&& final(self).lanes@.last()@ == old(self).connector(from, to, id)
                &&& final(connections)@ == old(connections)@.push(id)
            },
            old(self).has(from) && old(self).has(to) ==> final(self).reaches(
                final(connections)@,
                to,
            ),
    {
        if self.lane_already_reaches_to(connections, to) {
            return ;
        }
        match self.build_lane_connector_with_fallback(from, to) {
            Some(lane) => {
                let id: u64 = lane.id;
                let ghost before = self.lanes@;
                self.lanes.push(lane);
                connections.push(id);
                proof {
                    assert(self.lanes@.drop_last() =~= before);
                    let k = connections@.len() - 1;
                    assert(self.lane(id).connections@[0] == to);
                    assert(self.leads_to(connections@[k], to));
                }
            },
            None => {},
        }
    }

    /// The connector that joins two lanes, made where there is none.
    ///
    /// `None` when the lanes are the same, when `from` leads to `to` directly, or when a lane
    /// is missing.
    pub fn ensure_lane_connector_between(&mut self, from: u64, to: u64) -> (r: Option<u64>)
        requires
            old(self).numbered(),
            old(self).lanes@.len() < u64::MAX,
        ensures
            final(self).numbered(),
            final(self).by_edge == old(self).by_edge,
            from == to || !old(self).has(from) || old(self).lane(from).connections@.contains(to)
                ==> r is None && *final(self) == *old(self),
            from != to && old(self).has(from) && !old(self).lane(from).connections@.contains(to)
                ==> {
                let conns = old(self).lane(from).connections@;
                if old(self).reaches(conns, to) {
                    &&& *final(self) == *old(self)
                    &&& r matches Some(c) && old(self).leads_to(c, to) && exists|k: int|
                        0 <= k < conns.len() && #[trigger] conns[k] == c && forall|m: int|
                            0 <= m < k ==> !#[trigger] old(self).leads_to(conns[m], to)
                } else if old(self).has(to) {
                    let id = (old(self).lanes@.len() + 1) as u64;
                    &&& r == Some(id)
                    &&& final(self).lanes@.len() == old(self).lanes@.len() + 1
                    &&& final(self).lanes@.last()@ == old(self).connector(from, to, id)
                    &&& forall|i: int|
                        0 <= i < old(self).lanes@.len() && i != from - 1
                            ==> #[trigger] final(self).lanes@[i] == old(self).lanes@[i]
                    &&& final(self).lanes@[from - 1]@ == (LaneView {
                        connections: push_new(conns, id),
                        ..old(self).lanes@[from - 1]@
                    })
                } else {
                    r is None && *final(self) == *old(self)
                }
            },
    {
        if from == to {
            return None;
        }
        let at: usize = match self.place(from) {
            Some(i) => i,
            None => {
                return None;
            },
        };
        if contains_id(&self.lanes[at].connections, to) {
            return None;
        }
        let ghost conns = self.lane(from).connections@;
        let mut k: usize = 0;
        while k < self.lanes[at].connections.len()
            invariant
                *self == *old(self),
                self.numbered(),
                self.has(from),
                at == from - 1,
                from != to,
                conns == self.lane(from).connections@,
                !conns.contains(to),
                k <= conns.len(),
                forall|m: int| 0 <= m < k ==> !#[trigger] self.leads_to(conns[m], to),
            decreases conns.len() - k,
        {
            let c: u64 = self.lanes[at].connections[k];
            if self.connection_leads_to(c, to) {
                assert(conns[k as int] == c);
                assert(self.leads_to(conns[k as int], to));
                return Some(c);
            }
            k = k + 1;
        }
        assert(!self.reaches(conns, to));
        match self.build_lane_connector_with_fallback(from, to) {
            Some(lane) => {
                let id: u64 = lane.id;
                self.lanes.push(lane);
                if !contains_id(&self.lanes[at].connections, id) {
                    self.lanes[at].connections.push(id);
                }
                Some(id)
            },
            None => None,
        }
    }
}

fn contains_id(ids: &Vec<u64>, id: u64) -> (r: bool)
    ensures
        r == ids@.contains(id),
{
    let mut k: usize = 0;
    while k < ids.len()
        invariant
            k <= ids.len(),
            forall|m: int| 0 <= m < k ==> ids@[m] != id,
        decreases ids.len() - k,
    {
        if ids[k] == id {
            assert(ids@[k as int] == id);
            return true;
        }
        k = k + 1;
    }
    false
}

/// The number of lanes on the segments before `e`.
pub open spec fn lanes_before(edges: Seq<RoadEdge>, e: int) -> int
    decreases e,
{
    if e <= 0 {
        0
    } else {
        lanes_before(edges, e - 1) + lane_count(edges[e - 1].lanes as int)
    }
}

/// The ids of the lanes of segment `e`, from left to right.
pub open spec fn lane_ids(edges: Seq<RoadEdge>, e: int) -> Seq<u64> {
    Seq::new(
        lane_count(edges[e].lanes as int) as nat,
        |l: int| (lanes_before(edges, e) + l + 1) as u64,
    )
}

/// The targets `acc` with the lanes that the pairs give to the incoming lane `li` added.
pub open spec fn edge_targets(
    acc: Seq<u64>,
    ids: Seq<u64>,
    pairs: Seq<(u8, u8)>,
    li: u8,
) -> Seq<u64>
    decreases pairs.len(),
{
    if pairs.len() == 0 {
        acc
    } else {
        let before = edge_targets(acc, ids, pairs.drop_last(), li);
        if pairs.last().0 == li {
            push_new(before, ids[pairs.last().1 as int])
        } else {
            before
        }
    }
}

/// The lanes that lane `li` of segment `e` leads to over the listed outgoing segments. Going
/// back to where the segment comes from is a U-turn and has no connectors.
pub open spec fn targets_over(
    topo: Topology,
    edges: Seq<RoadEdge>,
    e: int,
    li: u8,
    outs: Seq<int>,
) -> Seq<u64>
    decreases outs.len(),
{
    if outs.len() == 0 {
        Seq::empty()
    } else {
        let before = targets_over(topo, edges, e, li, outs.drop_last());
        let oe = outs.last();
        if topo.ends()[oe].1 == topo.ends()[e].0 {
            before
        } else {
            edge_targets(
                before,
                lane_ids(edges, oe),
                proportional_pairs(
                    lane_count(edges[e].lanes as int),
                    lane_count(edges[oe].lanes as int),
                ),
                li,
            )
        }
    }
}

/// The lanes that lane `l` of segment `e` leads to.
pub open spec fn lane_targets(topo: Topology, edges: Seq<RoadEdge>, e: int, l: int) -> Seq<u64> {
    targets_over(topo, edges, e, l as u8, topo.out_edges(topo.ends()[e].1))
}

/// The segments that end at the first `n` nodes, node by node.
pub open spec fn entering(topo: Topology, n: int) -> Seq<int>
    decreases n,
{
    if n <= 0 {
        Seq::empty()
    } else {
        entering(topo, n - 1) + topo.in_edges(n - 1)
    }
}

/// The order in which the segments get their connectors: node by node, at each node as the segments
/// that end there are walked.
pub open spec fn turn_order(topo: Topology) -> Seq<int> {
    entering(topo, topo.nodes() as int)
}

/// The place of a segment in that order.
pub open spec fn turn_place(topo: Topology, e: int) -> int {
    turn_order(topo).index_of(e)
}

/// The number of lanes and connectors that come before the connectors of lane `l` of the segment at
/// place `k`.
pub open spec fn connectors_before(topo: Topology, edges: Seq<RoadEdge>, k: int, l: int) -> int
    decreases k, l,
{
    if l > 0 {
        connectors_before(topo, edges, k, l - 1) + lane_targets(
            topo,
            edges,
            turn_order(topo)[k],
            l - 1,
        ).len()
    } else if k > 0 {
        connectors_before(
            topo,
            edges,
            k - 1,
            lane_count(edges[turn_order(topo)[k - 1]].lanes as int),
        )
    } else {
        lanes_before(edges, edges.len() as int)
    }
}

/// The number of lanes and connectors that come before the connectors of lane `l` of segment
/// `e`.
pub open spec fn connectors_from(topo: Topology, edges: Seq<RoadEdge>, e: int, l: int) -> int {
    connectors_before(topo, edges, turn_place(topo, e), l)
}

/// Whether lane `b` of segment `a` comes before lane `l` of the segment at place `k`.
pub open spec fn is_earlier(topo: Topology, a: int, b: int, k: int, l: int) -> bool {
    turn_place(topo, a) < k || (turn_place(topo, a) == k && b < l)
}

proof fn lemma_entering(topo: Topology, n: int)
    requires
        topo.wf(),
        0 <= n <= topo.nodes(),
    ensures
        entering(topo, n).no_duplicates(),
        forall|i: int|
            0 <= i < entering(topo, n).len() ==> 0 <= #[trigger] entering(topo, n)[i]
                < topo.ends().len() && topo.ends()[entering(topo, n)[i]].1 < n,
        forall|e: int|
            0 <= e < topo.ends().len() && (#[trigger] topo.ends()[e]).1 < n ==> entering(
                topo,
                n,
            ).contains(e),
    decreases n,
{
    topo.lemma_wf();
    if n > 0 {
        lemma_entering(topo, n - 1);
        topo.lemma_walks_distinct(n - 1);
        let before = entering(topo, n - 1);
        let here = topo.in_edges(n - 1);
        let all = entering(topo, n);
        assert forall|i: int| 0 <= i < all.len() implies 0 <= #[trigger] all[i] < topo.ends().len()
            && topo.ends()[all[i]].1 < n && (i < before.len() ==> topo.ends()[all[i]].1 < n - 1)
            && (i >= before.len() ==> topo.ends()[all[i]].1 == n - 1) by {
            if i < before.len() {
                assert(all[i] == before[i]);
            } else {
                assert(all[i] == topo.in_edges(n - 1)[i - before.len()]);
            }
        }
        assert forall|i: int, j: int| 0 <= i < all.len() && 0 <= j < all.len() && i != j implies
            all[i] != all[j] by {
            if i < before.len() && j < before.len() {
                assert(all[i] == before[i] && all[j] == before[j]);
            } else if i >= before.len() && j >= before.len() {
                assert(all[i] == here[i - before.len()] && all[j] == here[j - before.len()]);
            }
        }
        assert forall|e: int|
            0 <= e < topo.ends().len() && (#[trigger] topo.ends()[e]).1 < n implies all.contains(
            e,
        ) by {
            if topo.ends()[e].1 < n - 1 {
                let i = choose|i: int| 0 <= i < before.len() && before[i] == e;
                assert(all[i] == e);
            } else {
                topo.lemma_out_edge_listed(e);
                let i = choose|i: int| 0 <= i < here.len() && here[i] == e;
                assert(all[before.len() + i] == e);
            }
        }
    } else {
        assert forall|e: int| 0 <= e < topo.ends().len() implies (#[trigger] topo.ends()[e]).1
            >= 0 by {}
    }
}

/// Every segment gets its connectors exactly once.
pub proof fn law_turn_order(topo: Topology)
    requires
        topo.wf(),
    ensures
        turn_order(topo).len() == topo.ends().len(),
        turn_order(topo).no_duplicates(),
        forall|k: int|
            0 <= k < turn_order(topo).len() ==> 0 <= #[trigger] turn_order(topo)[k]
                < topo.ends().len() && turn_place(topo, turn_order(topo)[k]) == k,
        forall|e: int|
            0 <= e < topo.ends().len() ==> 0 <= #[trigger] turn_place(topo, e) < topo.ends().len()
                && turn_order(topo)[turn_place(topo, e)] == e,
{
    topo.lemma_wf();
    lemma_entering(topo, topo.nodes() as int);
    let order = turn_order(topo);
    let n = topo.ends().len() as int;
    assert forall|e: int| 0 <= e < n implies order.contains(e) by {
        assert(topo.ends()[e].1 < topo.nodes());
    }
    vstd::set_lib::lemma_int_range(0, n);
    order.unique_seq_to_set();
    assert(order.to_set() =~= vstd::set_lib::set_int_range(0, n));
    assert forall|e: int| 0 <= e < n implies 0 <= #[trigger] turn_place(topo, e) < n
        && order[turn_place(topo, e)] == e by {
        assert(order.contains(e));
        let i = choose|i: int| 0 <= i < order.len() && order[i] == e;
        assert(order[order.index_of(e)] == e);
    }
    assert forall|k: int| 0 <= k < order.len() implies 0 <= #[trigger] order[k] < n && turn_place(
        topo,
        order[k],
    ) == k by {
        let p = turn_place(topo, order[k]);
        assert(order[p] == order[k]);
    }
}

/// The number of lanes on some segments.
spec fn lanes_on(edges: Seq<RoadEdge>, list: Seq<int>) -> int
    decreases list.len(),
{
    if list.len() == 0 {
        0
    } else {
        lanes_on(edges, list.drop_last()) + lane_count(edges[list.last()].lanes as int)
    }
}

proof fn lemma_lanes_on_without(edges: Seq<RoadEdge>, list: Seq<int>, i: int)
    requires
        0 <= i < list.len(),
    ensures
        lanes_on(edges, list) == lanes_on(edges, list.remove(i)) + lane_count(
            edges[list[i]].lanes as int,
        ),
    decreases list.len(),
{
    let rest = list.remove(i);
    if i == list.len() - 1 {
        assert(rest =~= list.drop_last());
    } else {
        lemma_lanes_on_without(edges, list.drop_last(), i);
        assert(rest.drop_last() =~= list.drop_last().remove(i));
        assert(rest.last() == list.last());
    }
}

/// Different segments have no more lanes than all segments together.
proof fn lemma_lanes_on_few(edges: Seq<RoadEdge>, list: Seq<int>, n: int)
    requires
        0 <= n <= edges.len(),
        list.no_duplicates(),
        forall|i: int| 0 <= i < list.len() ==> 0 <= #[trigger] list[i] < n,
    ensures
        0 <= lanes_on(edges, list) <= lanes_before(edges, n),
    decreases n,
{
    if n == 0 {
        if list.len() > 0 {
            assert(0 <= list[0] < n);
        }
    } else if list.contains(n - 1) {
        let i = choose|i: int| 0 <= i < list.len() && list[i] == n - 1;
        let rest = list.remove(i);
        assert forall|j: int| 0 <= j < rest.len() implies 0 <= #[trigger] rest[j] < n - 1 by {
            if j < i {
                assert(rest[j] == list[j]);
            } else {
                assert(rest[j] == list[j + 1]);
            }
        }
        assert forall|j: int, k: int| 0 <= j < rest.len() && 0 <= k < rest.len() && j != k implies
            rest[j] != rest[k] by {
            let x = if j < i {
                j
            } else {
                j + 1
            };
            let y = if k < i {
                k
            } else {
                k + 1
            };
            assert(rest[j] == list[x] && rest[k] == list[y]);
        }
        lemma_lanes_on_few(edges, rest, n - 1);
        lemma_lanes_on_without(edges, list, i);
    } else {
        assert forall|j: int| 0 <= j < list.len() implies 0 <= #[trigger] list[j] < n - 1 by {
            assert(list.contains(list[j]));
        }
        lemma_lanes_on_few(edges, list, n - 1);
    }
}

/// The lanes of the segments up to a place are no more than all lanes.
proof fn lemma_lanes_met(topo: Topology, edges: Seq<RoadEdge>, k: int)
    requires
        topo.wf(),
        topo.ends().len() == edges.len(),
        0 <= k <= edges.len(),
    ensures
        0 <= lanes_on(edges, turn_order(topo).take(k)) <= lanes_before(edges, edges.len() as int),
        k < edges.len() ==> lanes_on(edges, turn_order(topo).take(k + 1)) == lanes_on(
            edges,
            turn_order(topo).take(k),
        ) + lane_count(edges[turn_order(topo)[k]].lanes as int),
{
    law_turn_order(topo);
    let order = turn_order(topo);
    let part = order.take(k);
    assert forall|i: int| 0 <= i < part.len() implies 0 <= #[trigger] part[i] < edges.len() by {
        assert(part[i] == order[i]);
    }
    lemma_lanes_on_few(edges, part, edges.len() as int);
    if k < edges.len() {
        assert(order.take(k + 1).drop_last() =~= part);
        assert(order.take(k + 1).last() == order[k]);
    }
}

/// The width of the laid-out lanes.
pub open spec fn layout_width(lane_width: i64) -> i64 {
    larger(lane_width as int, MIN_LANE_WIDTH as int) as i64
}

/// Lane `l` of segment `e` with the given connections.
pub open spec fn road_lane(
    topo: Topology,
    nodes: Seq<RoadNode>,
    edges: Seq<RoadEdge>,
    lane_width: i64,
    e: int,
    l: int,
    connections: Seq<u64>,
) -> LaneView {
    LaneView {
        id: (lanes_before(edges, e) + l + 1) as u64,
        length: 0,
        width: layout_width(lane_width),
        connections,
        conflict_areas: Seq::empty(),
        from_node_osm_id: nodes[topo.ends()[e].0].osm_id,
        to_node_osm_id: nodes[topo.ends()[e].1].osm_id,
        edge_id: e as u64,
        lane_index: l as u8,
    }
}

/// The connector from a lane to `to`, as lane `id`.
pub open spec fn connector_lane(graph: Seq<Lane>, from: u64, to: u64, id: u64) -> LaneView {
    LaneView {
        id,
        length: 0,
        width: smaller(graph[from - 1].width as int, graph[to - 1].width as int) as i64,
        connections: seq![to],
        conflict_areas: Seq::empty(),
        from_node_osm_id: graph[from - 1].from_node_osm_id,
        to_node_osm_id: graph[to - 1].to_node_osm_id,
        edge_id: NO_EDGE,
        lane_index: 0,
    }
}

/// Consecutive ids, the first being `start + 1`.
pub open spec fn ids_from(start: int, n: nat) -> Seq<u64> {
    Seq::new(n, |j: int| (start + j + 1) as u64)
}

/// Every segment has at least one lane.
proof fn lemma_lanes_before(edges: Seq<RoadEdge>, a: int, b: int)
    requires
        0 <= a <= b <= edges.len(),
    ensures
        lanes_before(edges, a) + (b - a) <= lanes_before(edges, b),
        0 <= lanes_before(edges, a),
    decreases b,
{
    if a < b {
        lemma_lanes_before(edges, a, b - 1);
    } else if a > 0 {
        lemma_lanes_before(edges, a - 1, a - 1);
    }
}

/// A lane's id lies within the range of road lane ids.
proof fn lemma_lane_id_range(edges: Seq<RoadEdge>, e: int, l: int)
    requires
        0 <= e < edges.len(),
        0 <= l < lane_count(edges[e].lanes as int),
    ensures
        0 <= lanes_before(edges, e),
        lanes_before(edges, e) + l < lanes_before(edges, edges.len() as int),
{
    lemma_lanes_before(edges, e + 1, edges.len() as int);
    lemma_lanes_before(edges, e, e);
}

impl LaneGraph {
    /// The lanes of the segments before `e`, and the first `l` of segment `e`, are laid out.
    spec fn laid_out(
        &self,
        topo: Topology,
        nodes: Seq<RoadNode>,
        edges: Seq<RoadEdge>,
        lane_width: i64,
        e: int,
        l: int,
    ) -> bool {
        forall|a: int, b: int|
            0 <= a < edges.len() && 0 <= b < lane_count(edges[a].lanes as int) && (a < e || (a == e
                && b < l)) ==> (#[trigger] self.lanes@[lanes_before(edges, a) + b])@ == road_lane(
                topo,
                nodes,
                edges,
                lane_width,
                a,
                b,
                Seq::empty(),
            )
    }

    /// The id lists of the segments before `e` are in place.
    spec fn listed(&self, edges: Seq<RoadEdge>, e: int) -> bool {
        &&& self.by_edge@.len() == e
        &&& forall|a: int| 0 <= a < e ==> (#[trigger] self.by_edge@[a])@ == lane_ids(edges, a)
    }

    fn build_road_lanes(
        topo: &Topology,
        nodes: &Vec<RoadNode>,
        edges: &Vec<RoadEdge>,
        lane_width: i64,
    ) -> (r: LaneGraph)
        requires
            topo.wf(),
            nodes@.len() == topo.nodes(),
            edges@.len() == topo.ends().len(),
            lanes_before(edges@, edges@.len() as int) <= MAX_ROAD_LANES,
        ensures
            r.numbered(),
            r.lanes@.len() == lanes_before(edges@, edges@.len() as int),
            r.listed(edges@, edges@.len() as int),
            r.laid_out(*topo, nodes@, edges@, lane_width, edges@.len() as int, 0),
    {
        let width: i64 = max_of(lane_width, MIN_LANE_WIDTH);
        let mut g: LaneGraph = LaneGraph { lanes: Vec::new(), by_edge: Vec::new() };
        let mut e: usize = 0;
        while e < edges.len()
            invariant
                topo.wf(),
                nodes@.len() == topo.nodes(),
                edges@.len() == topo.ends().len(),
                lanes_before(edges@, edges@.len() as int) <= MAX_ROAD_LANES,
                width == layout_width(lane_width),
                e <= edges.len(),
                g.numbered(),
                g.lanes@.len() == lanes_before(edges@, e as int),
                g.listed(edges@, e as int),
                g.laid_out(*topo, nodes@, edges@, lane_width, e as int, 0),
            decreases edges.len() - e,
        {
            let ends: (usize, usize) = match topo.edge_endpoints(e) {
                Some(p) => p,
                None => (0, 0),
            };
            let count: u8 = if edges[e].lanes >= 1 {
                edges[e].lanes
            } else {
                1
            };
            let from_id: u64 = nodes[ends.0].osm_id;
            let to_id: u64 = nodes[ends.1].osm_id;
            let mut ids: Vec<u64> = Vec::new();
            let mut l: u8 = 0;
            while l < count
                invariant
                    topo.wf(),
                    nodes@.len() == topo.nodes(),
                    edges@.len() == topo.ends().len(),
                    lanes_before(edges@, edges@.len() as int) <= MAX_ROAD_LANES,
                    width == layout_width(lane_width),
                    e < edges.len(),
                    count == lane_count(edges@[e as int].lanes as int),
                    l <= count,
                    from_id == nodes@[topo.ends()[e as int].0].osm_id,
                    to_id == nodes@[topo.ends()[e as int].1].osm_id,
                    g.numbered(),
                    g.lanes@.len() == lanes_before(edges@, e as int) + l,
                    g.listed(edges@, e as int),
                    g.laid_out(*topo, nodes@, edges@, lane_width, e as int, l as int),
                    ids@ == lane_ids(edges@, e as int).take(l as int),
                decreases count - l,
            {
                proof {
                    lemma_lane_id_range(edges@, e as int, l as int);
                }
                let id: u64 = g.lanes.len() as u64 + 1;
                let none: Vec<u64> = Vec::new();
                let areas: Vec<u64> = Vec::new();
                let ghost before = g;
                g.lanes.push(
                    Lane {
                        id,
                        length: 0,
                        width,
                        connections: none,
                        conflict_areas: areas,
                        from_node_osm_id: from_id,
                        to_node_osm_id: to_id,
                        edge_id: e as u64,
                        lane_index: l,
                    },
                );
                ids.push(id);
                proof {
                    assert(ids@ =~= lane_ids(edges@, e as int).take(l + 1));
                    assert(none@ =~= Seq::<u64>::empty());
                    assert(areas@ =~= Seq::<u64>::empty());
                    assert forall|a: int, b: int|
                        0 <= a < edges@.len() && 0 <= b < lane_count(edges@[a].lanes as int) && (a
                            < e || (a == e && b < l + 1)) implies (
                    #[trigger] g.lanes@[lanes_before(edges@, a) + b])@ == road_lane(
                        *topo,
                        nodes@,
                        edges@,
                        lane_width,
                        a,
                        b,
                        Seq::empty(),
                    ) by {
                        if a < e {
                            lemma_lanes_before(edges@, a + 1, e as int);
                            lemma_lanes_before(edges@, a, a);
                        }
                        if a < e || b < l {
                            assert(before.lanes@[lanes_before(edges@, a) + b]
                                == g.lanes@[lanes_before(edges@, a) + b]);
                        }
                    }
                }
                l = l + 1;
            }
            assert(ids@ =~= lane_ids(edges@, e as int));
            g.by_edge.push(ids);
            e = e + 1;
            assert forall|a: int, b: int|
                0 <= a < edges@.len() && 0 <= b < lane_count(edges@[a].lanes as int) && (a < e || (a
                    == e && b < 0)) implies (#[trigger] g.lanes@[lanes_before(edges@, a) + b])@
                == road_lane(*topo, nodes@, edges@, lane_width, a, b, Seq::empty()) by {}
        }
        g
    }

    /// The lane graph is complete up to lane `l` of the segment at place `k` in the order of turns:
    /// earlier lanes have their connections and connectors, later lanes have none yet.
    pub open spec fn connected_up_to(
        &self,
        topo: Topology,
        nodes: Seq<RoadNode>,
        edges: Seq<RoadEdge>,
        lane_width: i64,
        k: int,
        l: int,
    ) -> bool {
        &&& self.numbered()
        &&& self.lanes@.len() == connectors_before(topo, edges, k, l)
        &&& self.by_edge@.len() == edges.len()
        &&& forall|a: int|
            0 <= a < edges.len() ==> (#[trigger] self.by_edge@[a])@ == lane_ids(edges, a)
        &&& forall|a: int, b: int|
            0 <= a < edges.len() && 0 <= b < lane_count(edges[a].lanes as int) ==> (
            #[trigger] self.lanes@[lanes_before(edges, a) + b])@ == road_lane(
                topo,
                nodes,
                edges,
                lane_width,
                a,
                b,
                if is_earlier(topo, a, b, k, l) {
                    ids_from(
                        connectors_from(topo, edges, a, b),
                        lane_targets(topo, edges, a, b).len(),
                    )
                } else {
                    Seq::empty()
                },
            )
        &&& forall|a: int, b: int, j: int|
            0 <= a < edges.len() && 0 <= b < lane_count(edges[a].lanes as int) && is_earlier(
                topo,
                a,
                b,
                k,
                l,
            ) && 0 <= j < lane_targets(topo, edges, a, b).len() ==> (
            #[trigger] self.lanes@[self.connector_place(topo, edges, a, b, j)])@ == connector_lane(
                self.lanes@,
                (lanes_before(edges, a) + b + 1) as u64,
                lane_targets(topo, edges, a, b)[j],
                (connectors_from(topo, edges, a, b) + j + 1) as u64,
            )
    }

    /// The place in the list of the `j`-th connector of lane `b` of segment `a`.
    pub open spec fn connector_place(
        &self,
        topo: Topology,
        edges: Seq<RoadEdge>,
        a: int,
        b: int,
        j: int,
    ) -> int {
        connectors_from(topo, edges, a, b) + j
    }

    /// The connectors made for lane `from` so far: one per target, numbered from `base`.
    spec fn connectors_made(
        &self,
        before: Seq<Lane>,
        from: u64,
        targets: Seq<u64>,
        connections: Seq<u64>,
    ) -> bool {
        &&& self.numbered()
        &&& self.lanes@.len() == before.len() + targets.len()
        &&& forall|i: int| 0 <= i < before.len() ==> #[trigger] self.lanes@[i] == before[i]
        &&& connections == ids_from(before.len() as int, targets.len())
        &&& forall|j: int|
            0 <= j < targets.len() ==> (#[trigger] self.lanes@[before.len() + j])@
                == connector_lane(before, from, targets[j], (before.len() + j + 1) as u64)
    }

    /// With one connector per target, a lane is reached exactly when it is a target.
    proof fn lemma_reaches_targets(
        &self,
        before: Seq<Lane>,
        from: u64,
        targets: Seq<u64>,
        connections: Seq<u64>,
        to: u64,
    )
        requires
            self.connectors_made(before, from, targets, connections),
            self.lanes@.len() <= u64::MAX,
            1 <= to <= before.len(),
        ensures
            self.reaches(connections, to) == targets.contains(to),
    {
        if self.reaches(connections, to) {
            let k = choose|k: int|
                0 <= k < connections.len() && #[trigger] self.leads_to(connections[k], to);
            assert(self.lanes@[before.len() + k]@.connections == seq![targets[k]]);
            assert(targets[k] == to);
        }
        if targets.contains(to) {
            let k = choose|k: int| 0 <= k < targets.len() && targets[k] == to;
            assert(self.lanes@[before.len() + k]@.connections == seq![targets[k]]);
            assert(self.lane(connections[k]).connections@[0] == to);
            assert(self.leads_to(connections[k], to));
        }
    }

    /// Adds the connectors from one incoming lane to one outgoing segment.
    fn connect_to_edge(
        &mut self,
        from: u64,
        in_count: u8,
        li: u8,
        out_count: u8,
        oe: usize,
        connections: &mut Vec<u64>,
        Ghost(before): Ghost<Seq<Lane>>,
        Ghost(targets): Ghost<Seq<u64>>,
    )
        requires
            old(self).connectors_made(before, from, targets, old(connections)@),
            1 <= from <= before.len(),
            before.len() + targets.len() + 255 < u64::MAX,
            forall|j: int| 0 <= j < targets.len() ==> 1 <= #[trigger] targets[j] <= before.len(),
            oe < old(self).by_edge@.len(),
            old(self).by_edge@[oe as int]@.len() == out_count,
            forall|l: int|
                0 <= l < out_count ==> 1 <= #[trigger] old(self).by_edge@[oe as int]@[l]
                    <= before.len(),
        ensures
            ({
                let after = edge_targets(
                    targets,
                    old(self).by_edge@[oe as int]@,
                    proportional_pairs(in_count as int, out_count as int),
                    li,
                );
                &&& final(self).connectors_made(before, from, after, final(connections)@)
                &&& after.len() <= targets.len() + 255
                &&& forall|j: int| 0 <= j < after.len() ==> 1 <= #[trigger] after[j] <= before.len()
            }),
            final(self).by_edge == old(self).by_edge,
    {
        let pairs: Vec<(u8, u8)> = proportional_lane_pairs(in_count, out_count);
        let ghost ids = self.by_edge@[oe as int]@;
        let ghost mut now = targets;
        let mut p: usize = 0;
        assert(pairs@.take(0) =~= Seq::<(u8, u8)>::empty());
        while p < pairs.len()
            invariant
                p <= pairs.len(),
                pairs@ == proportional_pairs(in_count as int, out_count as int),
                pairs@.len() <= 255,
                self.by_edge == old(self).by_edge,
                oe < self.by_edge@.len(),
                ids == self.by_edge@[oe as int]@,
                ids.len() == out_count,
                forall|l: int| 0 <= l < out_count ==> 1 <= #[trigger] ids[l] <= before.len(),
                1 <= from <= before.len(),
                before.len() + targets.len() + 255 < u64::MAX,
                now == edge_targets(targets, ids, pairs@.take(p as int), li),
                now.len() <= targets.len() + p,
                forall|j: int| 0 <= j < now.len() ==> 1 <= #[trigger] now[j] <= before.len(),
                self.connectors_made(before, from, now, connections@),
            decreases pairs.len() - p,
        {
            proof {
                assert(pairs@.take(p + 1).drop_last() =~= pairs@.take(p as int));
                assert(pairs@.take(p + 1).last() == pairs@[p as int]);
            }
            let pair: (u8, u8) = pairs[p];
            if pair.0 == li {
                let to: u64 = self.by_edge[oe][pair.1 as usize];
                proof {
                    assert(to == ids[pair.1 as int]);
                    self.lemma_reaches_targets(before, from, now, connections@, to);
                }
                let ghost held = self.lanes@;
                self.append_lane_turn_connection(from, to, connections);
                proof {
                    if !now.contains(to) {
                        assert(self.lanes@.drop_last() =~= held);
                        assert(connections@ =~= ids_from(
                            before.len() as int,
                            now.push(to).len(),
                        ));
                        assert forall|i: int| 0 <= i < before.len() implies #[trigger] self.lanes@[i]
                            == before[i] by {
                            assert(self.lanes@.drop_last()[i] == held[i]);
                        }
                        assert forall|j: int| 0 <= j < now.push(to).len() implies (
                        #[trigger] self.lanes@[before.len() + j])@ == connector_lane(
                            before,
                            from,
                            now.push(to)[j],
                            (before.len() + j + 1) as u64,
                        ) by {
                            if j < now.len() {
                                assert(self.lanes@.drop_last()[before.len() + j]
                                    == held[before.len() + j]);
                            } else {
                                assert(held[from - 1] == before[from - 1]);
                                assert(held[to - 1] == before[to - 1]);
                            }
                        }
                    }
                    now = push_new(now, to);
                }
            }
            p = p + 1;
        }
        assert(pairs@.take(p as int) =~= pairs@);
    }

    /// Makes the connectors of one lane over all segments that leave its end.
    fn connect_lane(
        &mut self,
        topo: &Topology,
        edges: &Vec<RoadEdge>,
        e: usize,
        li: u8,
        from: u64,
        outs: &Vec<usize>,
    ) -> (connections: Vec<u64>)
        requires
            topo.wf(),
            edges@.len() == topo.ends().len(),
            e < edges@.len(),
            li < lane_count(edges@[e as int].lanes as int),
            from == lanes_before(edges@, e as int) + li + 1,
            outs@.map_values(|x: usize| x as int) == topo.out_edges(topo.ends()[e as int].1),
            lanes_before(edges@, edges@.len() as int) <= MAX_ROAD_LANES,
            lanes_before(edges@, edges@.len() as int) <= old(self).lanes@.len(),
            old(self).lanes@.len() + lanes_before(edges@, edges@.len() as int) + 255 < u64::MAX,
            old(self).numbered(),
            old(self).by_edge@.len() == edges@.len(),
            forall|a: int|
                0 <= a < edges@.len() ==> (#[trigger] old(self).by_edge@[a])@ == lane_ids(
                    edges@,
                    a,
                ),
        ensures
            final(self).connectors_made(
                old(self).lanes@,
                from,
                lane_targets(*topo, edges@, e as int, li as int),
                connections@,
            ),
            lane_targets(*topo, edges@, e as int, li as int).len() <= lanes_before(
                edges@,
                edges@.len() as int,
            ),
            forall|j: int|
                0 <= j < lane_targets(*topo, edges@, e as int, li as int).len() ==> 1
                    <= #[trigger] lane_targets(*topo, edges@, e as int, li as int)[j]
                    <= lanes_before(edges@, edges@.len() as int),
            final(self).by_edge == old(self).by_edge,
    {
        let ghost before = self.lanes@;
        let ghost total = lanes_before(edges@, edges@.len() as int);
        let ghost walk = topo.out_edges(topo.ends()[e as int].1);
        let ghost mut targets: Seq<u64> = Seq::empty();
        let mut connections: Vec<u64> = Vec::new();
        let in_count: u8 = if edges[e].lanes >= 1 {
            edges[e].lanes
        } else {
            1
        };
        let src: usize = match topo.edge_endpoints(e) {
            Some(p) => p.0,
            None => 0,
        };
        let mut i: usize = 0;
        proof {
            topo.lemma_wf();
            lemma_lane_id_range(edges@, e as int, li as int);
            assert(walk.take(0) =~= Seq::<int>::empty());
            assert(connections@ =~= ids_from(before.len() as int, 0));
        }
        while i < outs.len()
            invariant
                topo.wf(),
                edges@.len() == topo.ends().len(),
                e < edges@.len(),
                src == topo.ends()[e as int].0,
                in_count == lane_count(edges@[e as int].lanes as int),
                1 <= from <= total,
                total == lanes_before(edges@, edges@.len() as int),
                total <= MAX_ROAD_LANES,
                total <= before.len(),
                before.len() + total + 255 < u64::MAX,
                outs@.map_values(|x: usize| x as int) == walk,
                walk == topo.out_edges(topo.ends()[e as int].1),
                self.by_edge == old(self).by_edge,
                self.by_edge@.len() == edges@.len(),
                forall|a: int|
                    0 <= a < edges@.len() ==> (#[trigger] self.by_edge@[a])@ == lane_ids(edges@, a),
                i <= outs.len(),
                targets == targets_over(*topo, edges@, e as int, li, walk.take(i as int)),
                targets.len() <= total,
                forall|j: int| 0 <= j < targets.len() ==> 1 <= #[trigger] targets[j] <= total,
                self.connectors_made(before, from, targets, connections@),
            decreases outs.len() - i,
        {
            let oe: usize = outs[i];
            proof {
                topo.lemma_wf();
                assert(walk[i as int] == oe);
                assert(walk.take(i + 1).drop_last() =~= walk.take(i as int));
                assert(walk.take(i + 1).last() == oe);
                assert(0 <= topo.ends()[e as int].1 < topo.nodes());
                assert(0 <= topo.out_edges(topo.ends()[e as int].1)[i as int] < topo.ends().len());
            }
            let tgt: usize = match topo.edge_endpoints(oe) {
                Some(p) => p.1,
                None => 0,
            };
            if tgt != src {
                let out_count: u8 = if edges[oe].lanes >= 1 {
                    edges[oe].lanes
                } else {
                    1
                };
                proof {
                    assert(self.by_edge@[oe as int]@ == lane_ids(edges@, oe as int));
                    assert forall|l: int| 0 <= l < out_count implies 1
                        <= #[trigger] self.by_edge@[oe as int]@[l] <= total by {
                        lemma_lane_id_range(edges@, oe as int, l);
                    }
                    assert forall|j: int| 0 <= j < targets.len() implies 1 <= #[trigger] targets[j]
                        <= before.len() by {}
                }
                let ghost ids = self.by_edge@[oe as int]@;
                let ghost pairs = proportional_pairs(in_count as int, out_count as int);
                self.connect_to_edge(
                    from,
                    in_count,
                    li,
                    out_count,
                    oe,
                    &mut connections,
                    Ghost(before),
                    Ghost(targets),
                );
                proof {
                    lemma_edge_targets_range(targets, ids, pairs, li, total);
                    targets = edge_targets(targets, ids, pairs, li);
                    lemma_targets_distinct(*topo, edges@, e as int, li, walk.take(i + 1));
                    lemma_few_ids(targets, total);
                }
            }
            i = i + 1;
        }
        assert(walk.take(i as int) =~= walk);
        connections
    }
}

/// Targets stay within the ids that the lane list offers.
proof fn lemma_edge_targets_range(
    acc: Seq<u64>,
    ids: Seq<u64>,
    pairs: Seq<(u8, u8)>,
    li: u8,
    total: int,
)
    requires
        forall|j: int| 0 <= j < acc.len() ==> 1 <= #[trigger] acc[j] <= total,
        forall|l: int| 0 <= l < ids.len() ==> 1 <= #[trigger] ids[l] <= total,
        forall|k: int| 0 <= k < pairs.len() ==> (#[trigger] pairs[k]).1 < ids.len(),
    ensures
        forall|j: int|
            0 <= j < edge_targets(acc, ids, pairs, li).len() ==> 1 <= #[trigger] edge_targets(
                acc,
                ids,
                pairs,
                li,
            )[j] <= total,
    decreases pairs.len(),
{
    if pairs.len() > 0 {
        let rest = pairs.drop_last();
        assert forall|k: int| 0 <= k < rest.len() implies (#[trigger] rest[k]).1 < ids.len() by {
            assert(rest[k] == pairs[k]);
        }
        lemma_edge_targets_range(acc, ids, rest, li, total);
        let before = edge_targets(acc, ids, rest, li);
        let last = pairs[pairs.len() - 1];
        assert(last.1 < ids.len());
        assert(1 <= ids[last.1 as int] <= total);
        assert forall|j: int| 0 <= j < edge_targets(acc, ids, pairs, li).len() implies 1
            <= #[trigger] edge_targets(acc, ids, pairs, li)[j] <= total by {
            if j < before.len() {
                assert(1 <= before[j] <= total);
            }
        }
    }
}

/// A lane is a target once at most.
proof fn lemma_targets_distinct(
    topo: Topology,
    edges: Seq<RoadEdge>,
    e: int,
    li: u8,
    outs: Seq<int>,
)
    ensures
        targets_over(topo, edges, e, li, outs).no_duplicates(),
    decreases outs.len(),
{
    if outs.len() > 0 {
        lemma_targets_distinct(topo, edges, e, li, outs.drop_last());
        lemma_edge_targets_distinct(
            targets_over(topo, edges, e, li, outs.drop_last()),
            lane_ids(edges, outs.last()),
            proportional_pairs(
                lane_count(edges[e].lanes as int),
                lane_count(edges[outs.last()].lanes as int),
            ),
            li,
        );
    }
}

proof fn lemma_edge_targets_distinct(
    acc: Seq<u64>,
    ids: Seq<u64>,
    pairs: Seq<(u8, u8)>,
    li: u8,
)
    requires
        acc.no_duplicates(),
    ensures
        edge_targets(acc, ids, pairs, li).no_duplicates(),
    decreases pairs.len(),
{
    if pairs.len() > 0 {
        lemma_edge_targets_distinct(acc, ids, pairs.drop_last(), li);
        let before = edge_targets(acc, ids, pairs.drop_last(), li);
        let x = ids[pairs.last().1 as int];
        if !before.contains(x) {
            let after = before.push(x);
            assert forall|i: int, j: int|
                0 <= i < after.len() && 0 <= j < after.len() && i != j implies after[i]
                != after[j] by {
                if i < before.len() {
                    assert(before.contains(before[i]));
                }
                if j < before.len() {
                    assert(before.contains(before[j]));
                }
            }
        }
    }
}

/// There are no more different ids than ids.
proof fn lemma_few_ids(ids: Seq<u64>, total: int)
    requires
        ids.no_duplicates(),
        0 <= total,
        forall|j: int| 0 <= j < ids.len() ==> 1 <= #[trigger] ids[j] <= total,
    ensures
        ids.len() <= total,
{
    let list = ids.map_values(|x: u64| x as int);
    let all = vstd::set_lib::set_int_range(1, total + 1);
    vstd::set_lib::lemma_int_range(1, total + 1);
    assert forall|i: int, j: int| 0 <= i < list.len() && 0 <= j < list.len() && i != j implies
        list[i] != list[j] by {
        assert(ids[i] != ids[j]);
    }
    list.unique_seq_to_set();
    assert(list.to_set().subset_of(all)) by {
        assert forall|x: int| list.to_set().contains(x) implies all.contains(x) by {
            let i = choose|i: int| 0 <= i < list.len() && list[i] == x;
            assert(1 <= ids[i] <= total);
        }
    }
    vstd::set_lib::lemma_len_subset(list.to_set(), all);
}

/// Lays out the lanes of a road network and joins them across its nodes.
///
/// Every segment gets its lanes, numbered from left to right in segment order. At the end of
/// a segment each lane is joined by connectors to the lanes that the proportional mapping
/// gives it on every segment that leaves there, except back to where the segment comes from.
/// Connectors are numbered node by node.
pub fn populate_lane_graph(
    topo: &Topology,
    nodes: &Vec<RoadNode>,
    edges: &Vec<RoadEdge>,
    lane_width: i64,
) -> (r: LaneGraph)
    requires
        topo.wf(),
        nodes@.len() == topo.nodes(),
        edges@.len() == topo.ends().len(),
        lanes_before(edges@, edges@.len() as int) <= MAX_ROAD_LANES,
    ensures
        r.connected_up_to(*topo, nodes@, edges@, lane_width, edges@.len() as int, 0),
{
    let mut g: LaneGraph = LaneGraph::build_road_lanes(topo, nodes, edges, lane_width);
    let order: Vec<usize> = find_turn_order(topo);
    let ghost total = lanes_before(edges@, edges@.len() as int);
    let ghost turns = turn_order(*topo);
    let mut k: usize = 0;
    proof {
        law_turn_order(*topo);
        lemma_lanes_before(edges@, 0, edges@.len() as int);
        lemma_lanes_met(*topo, edges@, 0);
        assert(g.connected_up_to(*topo, nodes@, edges@, lane_width, 0, 0)) by {
            assert forall|a: int, b: int| 0 <= a < edges@.len() && 0 <= b implies !is_earlier(
                *topo,
                a,
                b,
                0,
                0,
            ) by {
                assert(0 <= turn_place(*topo, a));
            }
        }
    }
    while k < order.len()
        invariant
            topo.wf(),
            nodes@.len() == topo.nodes(),
            edges@.len() == topo.ends().len(),
            total == lanes_before(edges@, edges@.len() as int),
            total <= MAX_ROAD_LANES,
            edges@.len() <= total,
            turns == turn_order(*topo),
            order@.map_values(|x: usize| x as int) == turns,
            turns.len() == edges@.len(),
            k <= order@.len(),
            g.connected_up_to(*topo, nodes@, edges@, lane_width, k as int, 0),
            total <= g.lanes@.len() <= total + lanes_on(edges@, turns.take(k as int)) * total,
        decreases order.len() - k,
    {
        let e: usize = order[k];
        proof {
            assert(e == order@.map_values(|x: usize| x as int)[k as int]);
            law_turn_order(*topo);
            topo.lemma_wf();
            lemma_lanes_met(*topo, edges@, k as int);
            lemma_lanes_met(*topo, edges@, k + 1);
        }
        let node: usize = match topo.edge_endpoints(e) {
            Some(p) => p.1,
            None => 0,
        };
        let outs: Vec<usize> = topo.outgoing(node);
        let count: u8 = if edges[e].lanes >= 1 {
            edges[e].lanes
        } else {
            1
        };
        let ghost met = lanes_on(edges@, turns.take(k as int));
        let mut l: u8 = 0;
        while l < count
            invariant
                topo.wf(),
                nodes@.len() == topo.nodes(),
                edges@.len() == topo.ends().len(),
                total == lanes_before(edges@, edges@.len() as int),
                total <= MAX_ROAD_LANES,
                e < edges.len(),
                k < turns.len(),
                turns == turn_order(*topo),
                turns.len() == edges@.len(),
                e == turns[k as int],
                0 <= met,
                met + count <= total,
                node == topo.ends()[e as int].1,
                outs@.map_values(|x: usize| x as int) == topo.out_edges(node as int),
                count == lane_count(edges@[e as int].lanes as int),
                l <= count,
                g.connected_up_to(*topo, nodes@, edges@, lane_width, k as int, l as int),
                total <= g.lanes@.len() <= total + (met + l) * total,
            decreases count - l,
        {
            proof {
                lemma_lane_id_range(edges@, e as int, l as int);
                let m = met + l;
                assert(m * total + total <= total * total <= 0xffff_ffff * 0xffff_ffff)
                    by (nonlinear_arith)
                    requires
                        0 <= m < total <= 0xffff_ffff,
                ;
                assert((met + l + 1) * total == m * total + total) by (nonlinear_arith)
                    requires
                        m == met + l,
                ;
            }
            let ghost before = g;
            let from: u64 = g.by_edge[e][l as usize];
            let connections: Vec<u64> = g.connect_lane(topo, edges, e, l, from, &outs);
            let ghost made = g;
            let place: usize = (from - 1) as usize;
            g.lanes[place].connections = connections;
            proof {
                lemma_lane_connected(
                    before,
                    made,
                    g,
                    *topo,
                    nodes@,
                    edges@,
                    lane_width,
                    k as int,
                    l as int,
                    connections@,
                );
            }
            l = l + 1;
        }
        k = k + 1;
        proof {
            lemma_segment_done(g, *topo, nodes@, edges@, lane_width, k as int);
        }
    }
    g
}

/// The order in which the segments get their connectors.
fn find_turn_order(topo: &Topology) -> (r: Vec<usize>)
    requires
        topo.wf(),
    ensures
        r@.map_values(|x: usize| x as int) == turn_order(*topo),
{
    let count: usize = topo.node_count();
    let mut out: Vec<usize> = Vec::new();
    let mut n: usize = 0;
    assert(out@.map_values(|x: usize| x as int) =~= entering(*topo, 0));
    while n < count
        invariant
            topo.wf(),
            n <= count,
            count == topo.nodes(),
            out@.map_values(|x: usize| x as int) == entering(*topo, n as int),
        decreases count - n,
    {
        let here: Vec<usize> = topo.incoming(n);
        let ghost before = out@;
        let ghost walk = topo.in_edges(n as int);
        let mut i: usize = 0;
        assert(out@ =~= before + here@.take(0));
        while i < here.len()
            invariant
                i <= here@.len(),
                out@ == before + here@.take(i as int),
            decreases here.len() - i,
        {
            out.push(here[i]);
            assert(out@ =~= before + here@.take(i + 1));
            i = i + 1;
        }
        proof {
            assert(here@.take(i as int) =~= here@);
            assert(out@.map_values(|x: usize| x as int) =~= before.map_values(
                |x: usize| x as int,
            ) + here@.map_values(|x: usize| x as int));
        }
        n = n + 1;
    }
    out
}

/// One lane more is connected once its connectors are made and listed.
proof fn lemma_lane_connected(
    before: LaneGraph,
    made: LaneGraph,
    after: LaneGraph,
    topo: Topology,
    nodes: Seq<RoadNode>,
    edges: Seq<RoadEdge>,
    lane_width: i64,
    k: int,
    l: int,
    connections: Seq<u64>,
)
    requires
        topo.wf(),
        topo.ends().len() == edges.len(),
        0 <= k < edges.len(),
        ({
            let e = turn_order(topo)[k];
            let at = lanes_before(edges, e) + l;
            let total = lanes_before(edges, edges.len() as int);
            let targets = lane_targets(topo, edges, e, l);
            &&& 0 <= l < lane_count(edges[e].lanes as int) <= 255
            &&& total <= MAX_ROAD_LANES
            &&& total <= before.lanes@.len()
            &&& before.lanes@.len() + total < u64::MAX
            &&& made.connectors_made(before.lanes@, (at + 1) as u64, targets, connections)
            &&& targets.len() <= total
            &&& forall|j: int| 0 <= j < targets.len() ==> 1 <= #[trigger] targets[j] <= total
            &&& forall|i: int|
                0 <= i < made.lanes@.len() && i != at ==> #[trigger] after.lanes@[i]
                    == made.lanes@[i]
            &&& after.lanes@[at]@ == (LaneView { connections, ..made.lanes@[at]@ })
        }),
        before.connected_up_to(topo, nodes, edges, lane_width, k, l),
        made.by_edge == before.by_edge,
        after.by_edge == made.by_edge,
        after.lanes@.len() == made.lanes@.len(),
    ensures
        after.connected_up_to(topo, nodes, edges, lane_width, k, l + 1),
{
    law_turn_order(topo);
    let e = turn_order(topo)[k];
    assert(turn_place(topo, e) == k);
    let at = lanes_before(edges, e) + l;
    let total = lanes_before(edges, edges.len() as int);
    let targets = lane_targets(topo, edges, e, l);
    lemma_lane_id_range(edges, e, l);
    assert(connectors_before(topo, edges, k, l + 1) == connectors_before(topo, edges, k, l)
        + targets.len());
    assert(connectors_from(topo, edges, e, l) == before.lanes@.len());
    assert(after.numbered()) by {
        assert forall|i: int| 0 <= i < after.lanes@.len() implies (#[trigger] after.lanes@[i]).id
            == i + 1 by {
            assert(made.lanes@[i].id == i + 1);
            if i == at {
                assert(after.lanes@[at]@.id == made.lanes@[at]@.id);
            }
        }
    }
    assert forall|a: int, b: int|
        0 <= a < edges.len() && 0 <= b < lane_count(edges[a].lanes as int) implies (
    #[trigger] after.lanes@[lanes_before(edges, a) + b])@ == road_lane(
        topo,
        nodes,
        edges,
        lane_width,
        a,
        b,
        if is_earlier(topo, a, b, k, l + 1) {
            ids_from(connectors_from(topo, edges, a, b), lane_targets(topo, edges, a, b).len())
        } else {
            Seq::empty()
        },
    ) by {
        lemma_lane_id_range(edges, a, b);
        lemma_places_differ(edges, a, b, e, l);
        let i = lanes_before(edges, a) + b;
        assert(turn_order(topo)[turn_place(topo, a)] == a);
        assert(before.lanes@[i]@ == before.lanes@[lanes_before(edges, a) + b]@);
        assert(made.lanes@[i] == before.lanes@[i]);
        if i != at {
            assert(after.lanes@[i] == made.lanes@[i]);
        }
    }
    assert forall|a: int, b: int, j: int|
        0 <= a < edges.len() && 0 <= b < lane_count(edges[a].lanes as int) && is_earlier(
            topo,
            a,
            b,
            k,
            l + 1,
        ) && 0 <= j < lane_targets(topo, edges, a, b).len() implies (
    #[trigger] after.lanes@[after.connector_place(topo, edges, a, b, j)])@ == connector_lane(
        after.lanes@,
        (lanes_before(edges, a) + b + 1) as u64,
        lane_targets(topo, edges, a, b)[j],
        (connectors_from(topo, edges, a, b) + j + 1) as u64,
    ) by {
        lemma_lane_id_range(edges, a, b);
        topo.lemma_wf();
        let outs = topo.out_edges(topo.ends()[a].1);
        assert forall|i: int| 0 <= i < outs.len() implies 0 <= #[trigger] outs[i] < edges.len() by {
            assert(0 <= topo.out_edges(topo.ends()[a].1)[i] < topo.ends().len());
        }
        lemma_targets_in_range(topo, edges, a, b as u8, outs);
        assert(1 <= lane_targets(topo, edges, a, b)[j] <= total);
        let from = lanes_before(edges, a) + b;
        let to = lane_targets(topo, edges, a, b)[j] - 1;
        let place = connectors_from(topo, edges, a, b) + j;
        assert(same_ends(after.lanes@[from], before.lanes@[from])) by {
            assert(made.lanes@[from] == before.lanes@[from]);
            if from != at {
                assert(after.lanes@[from] == made.lanes@[from]);
            }
        }
        assert(same_ends(after.lanes@[to], before.lanes@[to])) by {
            assert(made.lanes@[to] == before.lanes@[to]);
            if to != at {
                assert(after.lanes@[to] == made.lanes@[to]);
            }
        }
        let p = turn_place(topo, a);
        assert(turn_order(topo)[p] == a);
        lemma_connectors_after_roads(topo, edges, p, b);
        if a == e && b == l {
            assert(made.lanes@[before.lanes@.len() + j]@ == connector_lane(
                before.lanes@,
                (at + 1) as u64,
                targets[j],
                (before.lanes@.len() + j + 1) as u64,
            ));
            assert(after.lanes@[place] == made.lanes@[place]);
        } else {
            lemma_connectors_ordered(topo, edges, p, b, k, l);
            assert(before.lanes@[before.connector_place(topo, edges, a, b, j)]@ == connector_lane(
                before.lanes@,
                (lanes_before(edges, a) + b + 1) as u64,
                lane_targets(topo, edges, a, b)[j],
                (connectors_from(topo, edges, a, b) + j + 1) as u64,
            ));
            assert(made.lanes@[place] == before.lanes@[place]);
            assert(after.lanes@[place] == made.lanes@[place]);
        }
    }
}

/// Two lanes agree in what a connector takes over from them.
spec fn same_ends(a: Lane, b: Lane) -> bool {
    a.width == b.width && a.from_node_osm_id == b.from_node_osm_id && a.to_node_osm_id
        == b.to_node_osm_id
}

/// Different lanes have different places.
proof fn lemma_places_differ(edges: Seq<RoadEdge>, a: int, b: int, e: int, l: int)
    requires
        0 <= a < edges.len(),
        0 <= b < lane_count(edges[a].lanes as int),
        0 <= e < edges.len(),
        0 <= l < lane_count(edges[e].lanes as int),
    ensures
        lanes_before(edges, a) + b == lanes_before(edges, e) + l <==> a == e && b == l,
        a < e ==> lanes_before(edges, a) + b < lanes_before(edges, e) + l,
{
    if a < e {
        lemma_lanes_before(edges, a + 1, e);
    }
    if e < a {
        lemma_lanes_before(edges, e + 1, a);
    }
}

/// Targets of a lane are road lanes.
proof fn lemma_targets_in_range(
    topo: Topology,
    edges: Seq<RoadEdge>,
    e: int,
    li: u8,
    outs: Seq<int>,
)
    requires
        0 <= e < edges.len(),
        forall|i: int| 0 <= i < outs.len() ==> 0 <= #[trigger] outs[i] < edges.len(),
        lanes_before(edges, edges.len() as int) <= MAX_ROAD_LANES,
    ensures
        forall|j: int|
            0 <= j < targets_over(topo, edges, e, li, outs).len() ==> 1 <= #[trigger] targets_over(
                topo,
                edges,
                e,
                li,
                outs,
            )[j] <= lanes_before(edges, edges.len() as int),
    decreases outs.len(),
{
    if outs.len() > 0 {
        let rest = outs.drop_last();
        assert forall|i: int| 0 <= i < rest.len() implies 0 <= #[trigger] rest[i] < edges.len() by {
            assert(rest[i] == outs[i]);
        }
        lemma_targets_in_range(topo, edges, e, li, rest);
        let oe = outs[outs.len() - 1];
        let ids = lane_ids(edges, oe);
        let total = lanes_before(edges, edges.len() as int);
        assert forall|l: int| 0 <= l < ids.len() implies 1 <= #[trigger] ids[l] <= total by {
            lemma_lane_id_range(edges, oe, l);
        }
        lemma_edge_targets_range(
            targets_over(topo, edges, e, li, rest),
            ids,
            proportional_pairs(
                lane_count(edges[e].lanes as int),
                lane_count(edges[oe].lanes as int),
            ),
            li,
            total,
        );
    }
}

/// Connectors come after all road lanes.
proof fn lemma_connectors_after_roads(topo: Topology, edges: Seq<RoadEdge>, k: int, l: int)
    requires
        0 <= k <= edges.len(),
        0 <= l,
    ensures
        connectors_before(topo, edges, k, l) >= lanes_before(edges, edges.len() as int),
    decreases k, l,
{
    if l > 0 {
        lemma_connectors_after_roads(topo, edges, k, l - 1);
    } else if k > 0 {
        lemma_connectors_after_roads(
            topo,
            edges,
            k - 1,
            lane_count(edges[turn_order(topo)[k - 1]].lanes as int),
        );
    }
}

/// The connectors of an earlier lane end before those of a later lane begin.
proof fn lemma_connectors_ordered(
    topo: Topology,
    edges: Seq<RoadEdge>,
    p: int,
    b: int,
    k: int,
    l: int,
)
    requires
        0 <= p < edges.len(),
        0 <= b < lane_count(edges[turn_order(topo)[p]].lanes as int),
        0 <= k <= edges.len(),
        0 <= l,
        p < k || (p == k && b < l),
    ensures
        connectors_before(topo, edges, p, b) + lane_targets(
            topo,
            edges,
            turn_order(topo)[p],
            b,
        ).len() <= connectors_before(topo, edges, k, l),
    decreases k, l,
{
    if l > 0 {
        if p != k || b != l - 1 {
            lemma_connectors_ordered(topo, edges, p, b, k, l - 1);
        }
    } else {
        let n = lane_count(edges[turn_order(topo)[k - 1]].lanes as int);
        lemma_connectors_ordered(topo, edges, p, b, k - 1, n);
    }
}

/// A segment all of whose lanes are connected is done.
proof fn lemma_segment_done(
    g: LaneGraph,
    topo: Topology,
    nodes: Seq<RoadNode>,
    edges: Seq<RoadEdge>,
    lane_width: i64,
    k: int,
)
    requires
        topo.wf(),
        topo.ends().len() == edges.len(),
        0 < k <= edges.len(),
        g.connected_up_to(
            topo,
            nodes,
            edges,
            lane_width,
            k - 1,
            lane_count(edges[turn_order(topo)[k - 1]].lanes as int),
        ),
    ensures
        g.connected_up_to(topo, nodes, edges, lane_width, k, 0),
{
    law_turn_order(topo);
    let n = lane_count(edges[turn_order(topo)[k - 1]].lanes as int);
    assert(connectors_before(topo, edges, k, 0) == connectors_before(topo, edges, k - 1, n));
    assert forall|a: int, b: int|
        0 <= a < edges.len() && 0 <= b < lane_count(edges[a].lanes as int) implies is_earlier(
        topo,
        a,
        b,
        k,
        0,
    ) == is_earlier(topo, a, b, k - 1, n) by {
        assert(turn_order(topo)[turn_place(topo, a)] == a);
    }
}

/// Adding targets keeps those already there and adds each lane that a pair gives.
proof fn lemma_edge_targets_hold(
    acc: Seq<u64>,
    ids: Seq<u64>,
    pairs: Seq<(u8, u8)>,
    li: u8,
    x: u64,
)
    requires
        acc.contains(x) || exists|k: int|
            0 <= k < pairs.len() && (#[trigger] pairs[k]).0 == li && ids[pairs[k].1 as int] == x,
    ensures
        edge_targets(acc, ids, pairs, li).contains(x),
    decreases pairs.len(),
{
    if pairs.len() > 0 {
        let rest = pairs.drop_last();
        let before = edge_targets(acc, ids, rest, li);
        let after = edge_targets(acc, ids, pairs, li);
        let last = pairs.last();
        if last.0 == li && ids[last.1 as int] == x {
            if !before.contains(x) {
                assert(after[before.len() as int] == x);
            }
        } else {
            if !acc.contains(x) {
                let k = choose|k: int|
                    0 <= k < pairs.len() && (#[trigger] pairs[k]).0 == li && ids[pairs[k].1 as int]
                        == x;
                assert(rest[k] == pairs[k]);
            }
            lemma_edge_targets_hold(acc, ids, rest, li, x);
            let i = choose|i: int| 0 <= i < before.len() && before[i] == x;
            assert(after[i] == x);
        }
    }
}

proof fn lemma_targets_reach(
    topo: Topology,
    edges: Seq<RoadEdge>,
    e: int,
    l: int,
    outs: Seq<int>,
    i: int,
)
    requires
        0 <= e < edges.len(),
        0 <= l < lane_count(edges[e].lanes as int),
        lane_count(edges[e].lanes as int) <= 255,
        0 <= i < outs.len(),
        topo.ends()[outs[i]].1 != topo.ends()[e].0,
        lane_count(edges[outs[i]].lanes as int) <= 255,
    ensures
        exists|m: int|
            0 <= m < lane_ids(edges, outs[i]).len() && targets_over(
                topo,
                edges,
                e,
                l as u8,
                outs,
            ).contains(#[trigger] lane_ids(edges, outs[i])[m]),
    decreases outs.len(),
{
    let rest = outs.drop_last();
    let before = targets_over(topo, edges, e, l as u8, rest);
    let oe = outs.last();
    let n = lane_count(edges[e].lanes as int);
    let m = lane_count(edges[oe].lanes as int);
    let pairs = proportional_pairs(n, m);
    if i == outs.len() - 1 {
        let ids = lane_ids(edges, oe);
        assert(pairs[l].0 == l as u8);
        let to = ids[pairs[l].1 as int];
        lemma_edge_targets_hold(before, ids, pairs, l as u8, to);
        assert(ids[pairs[l].1 as int] == to);
    } else {
        assert(rest[i] == outs[i]);
        lemma_targets_reach(topo, edges, e, l, rest, i);
        let k = choose|k: int|
            0 <= k < lane_ids(edges, outs[i]).len() && before.contains(
                #[trigger] lane_ids(edges, outs[i])[k],
            );
        let x = lane_ids(edges, outs[i])[k];
        if topo.ends()[oe].1 != topo.ends()[e].0 {
            lemma_edge_targets_hold(before, lane_ids(edges, oe), pairs, l as u8, x);
        }
        assert(targets_over(topo, edges, e, l as u8, outs).contains(lane_ids(edges, outs[i])[k]));
    }
}

/// From every lane a vehicle can reach some lane of every segment that leaves the segment's
/// end, except back to where the segment comes from.
pub proof fn law_every_exit_reachable(
    topo: Topology,
    edges: Seq<RoadEdge>,
    e: int,
    l: int,
    oe: int,
)
    requires
        topo.wf(),
        topo.ends().len() == edges.len(),
        0 <= e < edges.len(),
        0 <= l < lane_count(edges[e].lanes as int),
        0 <= oe < edges.len(),
        topo.ends()[oe].0 == topo.ends()[e].1,
        topo.ends()[oe].1 != topo.ends()[e].0,
    ensures
        exists|m: int|
            0 <= m < lane_ids(edges, oe).len() && lane_targets(topo, edges, e, l).contains(
                #[trigger] lane_ids(edges, oe)[m],
            ),
{
    let node = topo.ends()[e].1;
    topo.lemma_wf();
    assert(0 <= node < topo.nodes());
    topo.lemma_out_edge_listed(oe);
    let outs = topo.out_edges(node);
    let i = choose|i: int| 0 <= i < outs.len() && outs[i] == oe;
    lemma_targets_reach(topo, edges, e, l, outs, i);
}

/// No connector serves two lanes: connectors of different lanes have different ids.
pub proof fn law_connectors_not_shared(
    topo: Topology,
    edges: Seq<RoadEdge>,
    a: int,
    b: int,
    i: int,
    e: int,
    l: int,
    j: int,
)
    requires
        topo.wf(),
        topo.ends().len() == edges.len(),
        0 <= a < edges.len(),
        0 <= b < lane_count(edges[a].lanes as int),
        0 <= i < lane_targets(topo, edges, a, b).len(),
        0 <= e < edges.len(),
        0 <= l < lane_count(edges[e].lanes as int),
        0 <= j < lane_targets(topo, edges, e, l).len(),
        a != e || b != l,
    ensures
        connectors_from(topo, edges, a, b) + i != connectors_from(topo, edges, e, l) + j,
{
    law_turn_order(topo);
    let p = turn_place(topo, a);
    let q = turn_place(topo, e);
    assert(turn_order(topo)[p] == a && turn_order(topo)[q] == e);
    if p < q || (p == q && b < l) {
        lemma_connectors_ordered(topo, edges, p, b, q, l);
    } else {
        lemma_connectors_ordered(topo, edges, q, l, p, b);
    }
}

/// A place where two connectors cross.
pub struct ConflictArea {
    pub id: u64,
    pub lane_ids: (u64, u64),
}

impl LaneGraph {
    /// Whether an id names a connector: a lane of the graph that lies on no segment.
    pub open spec fn is_connector(&self, id: u64) -> bool {
        self.has(id) && self.lane(id).edge_id == NO_EDGE
    }

    /// Pairs of ids that name two connectors each.
    pub open spec fn knows_all(&self, crossings: Seq<(u64, u64)>) -> bool {
        forall|k: int|
            0 <= k < crossings.len() ==> self.is_connector((#[trigger] crossings[k]).0)
                && self.is_connector(crossings[k].1) && crossings[k].0 != crossings[k].1
    }

    /// Whether a conflict area names two different connectors that both list it.
    pub open spec fn listed_by_two(&self, area: ConflictArea) -> bool {
        let (a, b) = area.lane_ids;
        &&& a != b
        &&& self.is_connector(a)
        &&& self.is_connector(b)
        &&& self.lane(a)@.conflict_areas.contains(area.id)
        &&& self.lane(b)@.conflict_areas.contains(area.id)
    }

    proof fn lemma_area_listed(crossings: Seq<(u64, u64)>, m: int, lane: u64)
        requires
            0 <= m < crossings.len(),
            crossings[m].0 == lane || crossings[m].1 == lane,
        ensures
            Self::areas_of(crossings, lane).contains((m + 1) as u64),
        decreases crossings.len(),
    {
        let before = Self::areas_of(crossings.drop_last(), lane);
        let now = Self::areas_of(crossings, lane);
        if m == crossings.len() - 1 {
            assert(now.last() == (m + 1) as u64);
            assert(now[now.len() - 1] == (m + 1) as u64);
        } else {
            assert(crossings.drop_last()[m] == crossings[m]);
            Self::lemma_area_listed(crossings.drop_last(), m, lane);
            let i = choose|i: int| 0 <= i < before.len() && before[i] == (m + 1) as u64;
            assert(now[i] == before[i]);
        }
    }

    /// The ids, counted from one, of the crossings that a lane takes part in.
    pub open spec fn areas_of(crossings: Seq<(u64, u64)>, lane: u64) -> Seq<u64>
        decreases crossings.len(),
    {
        if crossings.len() == 0 {
            Seq::empty()
        } else {
            let before = Self::areas_of(crossings.drop_last(), lane);
            if crossings.last().0 == lane || crossings.last().1 == lane {
                before.push(crossings.len() as u64)
            } else {
                before
            }
        }
    }

    /// Records the places where pairs of connectors cross, numbered in their order: each lane
    /// lists the areas it takes part in.
    pub fn set_conflict_areas(&mut self, crossings: &Vec<(u64, u64)>) -> (r: Vec<ConflictArea>)
        requires
            old(self).knows_all(crossings@),
            crossings@.len() < u64::MAX,
        ensures
            r@.len() == crossings@.len(),
            forall|k: int|
                0 <= k < r@.len() ==> (#[trigger] r@[k]).id == k + 1 && r@[k].lane_ids
                    == crossings@[k] && final(self).listed_by_two(r@[k]),
            final(self).by_edge == old(self).by_edge,
            final(self).lanes@.len() == old(self).lanes@.len(),
            forall|i: int|
                0 <= i < old(self).lanes@.len() ==> (#[trigger] final(self).lanes@[i])@ == (
                LaneView {
                    conflict_areas: Self::areas_of(crossings@, (i + 1) as u64),
                    ..old(self).lanes@[i]@
                }),
    {
        let mut i: usize = 0;
        while i < self.lanes.len()
            invariant
                i <= self.lanes.len(),
                self.by_edge == old(self).by_edge,
                self.lanes@.len() == old(self).lanes@.len(),
                forall|m: int|
                    0 <= m < i ==> (#[trigger] self.lanes@[m])@ == (LaneView {
                        conflict_areas: Seq::empty(),
                        ..old(self).lanes@[m]@
                    }),
                forall|m: int|
                    i <= m < self.lanes@.len() ==> #[trigger] self.lanes@[m] == old(self).lanes@[m],
            decreases self.lanes.len() - i,
        {
            let none: Vec<u64> = Vec::new();
            assert(none@ =~= Seq::<u64>::empty());
            self.lanes[i].conflict_areas = none;
            i = i + 1;
        }
        let mut areas: Vec<ConflictArea> = Vec::new();
        let mut k: usize = 0;
        proof {
            assert(crossings@.take(0) =~= Seq::<(u64, u64)>::empty());
        }
        while k < crossings.len()
            invariant
                k <= crossings.len(),
                crossings@.len() < u64::MAX,
                old(self).knows_all(crossings@),
                areas@.len() == k,
                forall|m: int|
                    0 <= m < k ==> (#[trigger] areas@[m]).id == m + 1 && areas@[m].lane_ids
                        == crossings@[m],
                self.by_edge == old(self).by_edge,
                self.lanes@.len() == old(self).lanes@.len(),
                forall|m: int|
                    0 <= m < self.lanes@.len() ==> (#[trigger] self.lanes@[m])@ == (LaneView {
                        conflict_areas: Self::areas_of(crossings@.take(k as int), (m + 1) as u64),
                        ..old(self).lanes@[m]@
                    }),
            decreases crossings.len() - k,
        {
            let pair: (u64, u64) = crossings[k];
            let id: u64 = k as u64 + 1;
            let ghost held = self.lanes@;
            proof {
                assert(old(self).has(crossings@[k as int].0));
                assert(crossings@.take(k + 1).drop_last() =~= crossings@.take(k as int));
                assert(crossings@.take(k + 1).last() == pair);
            }
            assert(self.lanes.len() == self.lanes@.len());
            let a: usize = (pair.0 - 1) as usize;
            let b: usize = (pair.1 - 1) as usize;
            self.lanes[a].conflict_areas.push(id);
            self.lanes[b].conflict_areas.push(id);
            areas.push(ConflictArea { id, lane_ids: pair });
            proof {
                assert forall|m: int| 0 <= m < self.lanes@.len() implies (
                #[trigger] self.lanes@[m])@ == (LaneView {
                    conflict_areas: Self::areas_of(crossings@.take(k + 1), (m + 1) as u64),
                    ..old(self).lanes@[m]@
                }) by {
                    assert(held[m]@ == (LaneView {
                        conflict_areas: Self::areas_of(crossings@.take(k as int), (m + 1) as u64),
                        ..old(self).lanes@[m]@
                    }));
                    if m != a && m != b {
                        assert(self.lanes@[m] == held[m]);
                    }
                }
            }
            k = k + 1;
        }
        assert(crossings@.take(k as int) =~= crossings@);
        proof {
            assert forall|m: int| 0 <= m < areas@.len() implies self.listed_by_two(
                #[trigger] areas@[m],
            ) by {
                let pair = crossings@[m];
                assert(old(self).is_connector(pair.0) && old(self).is_connector(pair.1));
                assert(areas@[m].lane_ids == pair);
                Self::lemma_area_listed(crossings@, m, pair.0);
                Self::lemma_area_listed(crossings@, m, pair.1);
                assert(self.lanes@[pair.0 - 1]@.edge_id == old(self).lanes@[pair.0 - 1]@.edge_id);
                assert(self.lanes@[pair.1 - 1]@.edge_id == old(self).lanes@[pair.1 - 1]@.edge_id);
            }
        }
        areas
    }

    /// Sets the measured length of a lane's drawn path.
    pub fn set_length(&mut self, id: u64, length: i64)
        requires
            old(self).has(id),
        ensures
            final(self).by_edge == old(self).by_edge,
            final(self).lanes@.len() == old(self).lanes@.len(),
            final(self).lane(id)@ == (LaneView { length, ..old(self).lane(id)@ }),
            forall|i: int|
                0 <= i < old(self).lanes@.len() && i != id - 1 ==> #[trigger] final(self).lanes@[i]
                    == old(self).lanes@[i],
    {
        assert(self.lanes.len() == self.lanes@.len());
        let i: usize = (id - 1) as usize;
        self.lanes[i].length = length;
    }
}

/// A lane leads only to lanes of segments that go on from where its segment ends, and never back to
/// where it comes from.
pub proof fn law_lanes_lead_onwards(
    topo: Topology,
    edges: Seq<RoadEdge>,
    e: int,
    l: int,
    t: u64,
)
    requires
        topo.wf(),
        topo.ends().len() == edges.len(),
        0 <= e < edges.len(),
        0 <= l < lane_count(edges[e].lanes as int),
        lane_targets(topo, edges, e, l).contains(t),
    ensures
        exists|oe: int|
            0 <= oe < edges.len() && topo.ends()[oe].0 == topo.ends()[e].1 && topo.ends()[oe].1
                != topo.ends()[e].0 && (#[trigger] lane_ids(edges, oe)).contains(t),
{
    let node = topo.ends()[e].1;
    topo.lemma_wf();
    let outs = topo.out_edges(node);
    lemma_targets_from(topo, edges, e, l as u8, outs, t);
    let i = choose|i: int|
        0 <= i < outs.len() && topo.ends()[#[trigger] outs[i]].1 != topo.ends()[e].0 && lane_ids(
            edges,
            outs[i],
        ).contains(t);
    assert(lane_ids(edges, outs[i]).contains(t));
}

proof fn lemma_targets_from(
    topo: Topology,
    edges: Seq<RoadEdge>,
    e: int,
    li: u8,
    outs: Seq<int>,
    t: u64,
)
    requires
        targets_over(topo, edges, e, li, outs).contains(t),
        0 <= e < edges.len(),
        forall|i: int| 0 <= i < outs.len() ==> 0 <= #[trigger] outs[i] < edges.len(),
    ensures
        exists|i: int|
            0 <= i < outs.len() && topo.ends()[#[trigger] outs[i]].1 != topo.ends()[e].0
                && lane_ids(edges, outs[i]).contains(t),
    decreases outs.len(),
{
    if outs.len() > 0 {
        let front = outs.drop_last();
        let before = targets_over(topo, edges, e, li, front);
        let n = outs.len() - 1;
        if before.contains(t) {
            assert forall|i: int| 0 <= i < front.len() implies 0 <= #[trigger] front[i]
                < edges.len() by {
                assert(front[i] == outs[i]);
            }
            lemma_targets_from(topo, edges, e, li, front, t);
            let i = choose|i: int|
                0 <= i < front.len() && topo.ends()[#[trigger] front[i]].1 != topo.ends()[e].0
                    && lane_ids(edges, front[i]).contains(t);
            assert(outs[i] == front[i]);
        } else {
            let oe = outs[n];
            assert(0 <= oe < edges.len());
            let (c, d) = (
                lane_count(edges[e].lanes as int),
                lane_count(edges[oe].lanes as int),
            );
            let pairs = proportional_pairs(c, d);
            assert forall|k: int| 0 <= k < pairs.len() implies (#[trigger] pairs[k]).1 < lane_ids(
                edges,
                oe,
            ).len() by {
                assert(smaller(k, d - 1) <= 255);
            }
            lemma_edge_targets_from(before, lane_ids(edges, oe), pairs, li, t);
            assert(topo.ends()[outs[n]].1 != topo.ends()[e].0);
        }
    }
}

proof fn lemma_edge_targets_from(
    acc: Seq<u64>,
    ids: Seq<u64>,
    pairs: Seq<(u8, u8)>,
    li: u8,
    t: u64,
)
    requires
        edge_targets(acc, ids, pairs, li).contains(t),
        forall|k: int| 0 <= k < pairs.len() ==> (#[trigger] pairs[k]).1 < ids.len(),
    ensures
        acc.contains(t) || ids.contains(t),
    decreases pairs.len(),
{
    if pairs.len() > 0 {
        let front = pairs.drop_last();
        let before = edge_targets(acc, ids, front, li);
        assert forall|k: int| 0 <= k < front.len() implies (#[trigger] front[k]).1 < ids.len() by {
            assert(front[k] == pairs[k]);
        }
        let n = pairs.len() - 1;
        assert(pairs[n].1 < ids.len());
        if before.contains(t) {
            lemma_edge_targets_from(acc, ids, front, li, t);
        } else {
            let now = edge_targets(acc, ids, pairs, li);
            let k = choose|k: int| 0 <= k < now.len() && now[k] == t;
            if k < before.len() {
                assert(before[k] == t);
            }
            assert(ids[pairs[n].1 as int] == t);
        }
    }
}

/// The ways of vehicles that go on in different lanes do not cross: who is further left stays at least
/// as far left. The leftmost lanes are joined, and so are the rightmost.
pub proof fn law_lanes_do_not_cross(n: u8, m: u8, i: int, j: int)
    requires
        n > 0,
        m > 0,
        0 <= i < j < proportional_pairs(n as int, m as int).len(),
    ensures
        proportional_pairs(n as int, m as int)[i].0 <= proportional_pairs(n as int, m as int)[j].0,
        proportional_pairs(n as int, m as int)[i].1 <= proportional_pairs(n as int, m as int)[j].1,
        proportional_pairs(n as int, m as int)[0] == (0u8, 0u8),
        proportional_pairs(n as int, m as int).last() == ((n - 1) as u8, (m - 1) as u8),
{
}

/// Lanes on the map have ids of their own.
pub proof fn law_lane_ids_differ(edges: Seq<RoadEdge>, a: int, b: int, e: int, l: int)
    requires
        0 <= a < edges.len(),
        0 <= b < lane_ids(edges, a).len(),
        0 <= e < edges.len(),
        0 <= l < lane_ids(edges, e).len(),
        a != e || b != l,
        lanes_before(edges, edges.len() as int) <= MAX_ROAD_LANES,
    ensures
        lane_ids(edges, a)[b] != lane_ids(edges, e)[l],
{
    lemma_lanes_before(edges, a + 1, edges.len() as int);
    lemma_lanes_before(edges, e + 1, edges.len() as int);
    lemma_lanes_before(edges, a, a);
    lemma_lanes_before(edges, e, e);
    if a < e {
        lemma_lanes_before(edges, a + 1, e);
    } else if e < a {
        lemma_lanes_before(edges, e + 1, a);
    }
}

/// A connector lists exactly the conflict areas of the crossings that it takes part in.
pub proof fn law_areas_complete(crossings: Seq<(u64, u64)>, lane: u64, k: int)
    requires
        0 <= k < crossings.len() < u64::MAX,
    ensures
        LaneGraph::areas_of(crossings, lane).contains((k + 1) as u64) <==> crossings[k].0 == lane
            || crossings[k].1 == lane,
{
    lemma_areas_complete(crossings, lane, k);
}

proof fn lemma_areas_complete(crossings: Seq<(u64, u64)>, lane: u64, k: int)
    requires
        0 <= k < u64::MAX,
        crossings.len() < u64::MAX,
    ensures
        LaneGraph::areas_of(crossings, lane).contains((k + 1) as u64) <==> k < crossings.len() && (
        crossings[k].0 == lane || crossings[k].1 == lane),
    decreases crossings.len(),
{
    if crossings.len() > 0 {
        let front = crossings.drop_last();
        let before = LaneGraph::areas_of(front, lane);
        let now = LaneGraph::areas_of(crossings, lane);
        let x = (k + 1) as u64;
        lemma_areas_complete(front, lane, k);
        if k < front.len() {
            assert(front[k] == crossings[k]);
        }
        if before.contains(x) {
            let i = choose|i: int| 0 <= i < before.len() && before[i] == x;
            assert(now[i] == x);
        }
        if now.len() > before.len() {
            assert(now[before.len() as int] == crossings.len() as u64);
        }
        if now.contains(x) {
            let i = choose|i: int| 0 <= i < now.len() && now[i] == x;
            if i < before.len() {
                assert(before[i] == x);
            }
        }
    }
}

} // verus!
