//! Editing a loaded map: moving nodes, adding, deleting and re-tagging segments, and undoing.
//!
//! What only measuring on the globe can tell is handed in with each edit: the lengths of the segments
//! it touches.

use vstd::prelude::*;
use vstd::string::*;

use crate::map::builders::SPEED_50;
use crate::map::id_index::push_new;
use crate::map::map_data::{measured, MapData, TurnConnector};
use crate::map::road_network::{
    copy_directions, decision_points, InfraType, IntersectionType, LaneDirection, RoadEdge,
    RoadEdgeView, RoadNode,
};
use crate::map::topology::Topology;
use crate::simulation::conflict_build::TURN_MIN_COSINE_SQUARE;
use crate::simulation::direction::{cosine_above, heading_between, is_cosine_above, node_heading};
use crate::util::text::{decimal_text, push_decimal};

verus! {

/// The tool that is active in the editor.
#[derive(Clone, Copy, Debug, PartialEq, Eq, Structural)]
pub enum EditorTool {
    /// No tool is active.
    Idle,
    MoveNode,
    AddRoad,
    Delete,
    Select,
}

/// A change that can be undone.
#[derive(Clone, Copy, Debug, PartialEq, Eq, Structural)]
pub enum GraphChange {
    NodePosition { node_id: u64, before_lat: i64, before_lng: i64, after_lat: i64, after_lng: i64 },
    EdgeAdded { from_node_id: u64, to_node_id: u64 },
    EdgeDeleted { from_node_id: u64, to_node_id: u64 },
}

impl GraphChange {
    /// The change that takes this one back.
    pub open spec fn inverse(self) -> GraphChange {
        match self {
            GraphChange::NodePosition { node_id, before_lat, before_lng, after_lat, after_lng } => {
                GraphChange::NodePosition {
                    node_id,
                    before_lat: after_lat,
                    before_lng: after_lng,
                    after_lat: before_lat,
                    after_lng: before_lng,
                }
            },
            GraphChange::EdgeAdded { from_node_id, to_node_id } => GraphChange::EdgeDeleted {
                from_node_id,
                to_node_id,
            },
            GraphChange::EdgeDeleted { from_node_id, to_node_id } => GraphChange::EdgeAdded {
                from_node_id,
                to_node_id,
            },
        }
    }

    /// The change that takes this one back.
    pub fn inverted(self) -> (r: GraphChange)
        ensures
            r == self.inverse(),
    {
        match self {
            GraphChange::NodePosition { node_id, before_lat, before_lng, after_lat, after_lng } => {
                GraphChange::NodePosition {
                    node_id,
                    before_lat: after_lat,
                    before_lng: after_lng,
                    after_lat: before_lat,
                    after_lng: before_lng,
                }
            },
            GraphChange::EdgeAdded { from_node_id, to_node_id } => GraphChange::EdgeDeleted {
                from_node_id,
                to_node_id,
            },
            GraphChange::EdgeDeleted { from_node_id, to_node_id } => GraphChange::EdgeAdded {
                from_node_id,
                to_node_id,
            },
        }
    }
}

/// Taking back twice is the change itself.
pub proof fn law_inverse_twice(c: GraphChange)
    ensures
        c.inverse().inverse() == c,
{
}

/// Geometry of the network as it is after an edit.
pub struct EditGeometry {
    /// Lengths of the segments that leave a moved node, in walk order.
    pub out_lengths: Vec<i64>,
    /// Length of an added segment.
    pub edge_length: i64,
}

/// Whether a turn from one node over another to a third bends enough to be drawn as a curve: by at
/// least 0.35 radians.
pub open spec fn turn_bends(from: RoadNode, at: RoadNode, to: RoadNode) -> bool {
    !cosine_above(
        node_heading(from, at),
        node_heading(at, to),
        TURN_MIN_COSINE_SQUARE as int,
    )
}

/// Whether a turn bends enough to be drawn as a curve.
pub fn is_turn_drawn(from: &RoadNode, at: &RoadNode, to: &RoadNode) -> (r: bool)
    ensures
        r == turn_bends(*from, *at, *to),
{
    !is_cosine_above(heading_between(from, at), heading_between(at, to), TURN_MIN_COSINE_SQUARE)
}

/// The node ids of a map, by place.
pub open spec fn node_ids(nodes: Seq<RoadNode>) -> Seq<u64> {
    nodes.map_values(|n: RoadNode| n.osm_id)
}

/// `acc` with the turns from `from_id` over `via_id` onto the listed segments added; turning
/// back to where one came from is none.
pub open spec fn turns_onto(
    acc: Seq<TurnConnector>,
    topo: Topology,
    ids: Seq<u64>,
    from_id: u64,
    via_id: u64,
    outs: Seq<int>,
) -> Seq<TurnConnector>
    decreases outs.len(),
{
    if outs.len() == 0 {
        acc
    } else {
        let before = turns_onto(acc, topo, ids, from_id, via_id, outs.drop_last());
        let to_id = ids[topo.ends()[outs.last()].1];
        if to_id != from_id {
            before.push(
                TurnConnector { from_node_id: from_id, via_node_id: via_id, to_node_id: to_id },
            )
        } else {
            before
        }
    }
}

/// The turns over a node that arrive on the listed segments.
pub open spec fn turns_from(
    topo: Topology,
    ids: Seq<u64>,
    mid: int,
    ins: Seq<int>,
) -> Seq<TurnConnector>
    decreases ins.len(),
{
    if ins.len() == 0 {
        Seq::empty()
    } else {
        turns_onto(
            turns_from(topo, ids, mid, ins.drop_last()),
            topo,
            ids,
            ids[topo.ends()[ins.last()].0],
            ids[mid],
            topo.out_edges(mid),
        )
    }
}

/// All turns over the node with the given id; none where there is no such node.
pub open spec fn turns_over(topo: Topology, ids: Seq<u64>, via_id: u64) -> Seq<TurnConnector> {
    if ids.contains(via_id) {
        turns_from(topo, ids, ids.index_of(via_id), topo.in_edges(ids.index_of(via_id)))
    } else {
        Seq::empty()
    }
}

/// `acc` with the sources of the listed segments added, each once.
pub open spec fn add_sources(
    acc: Seq<u64>,
    topo: Topology,
    ids: Seq<u64>,
    edges: Seq<int>,
) -> Seq<u64>
    decreases edges.len(),
{
    if edges.len() == 0 {
        acc
    } else {
        push_new(
            add_sources(acc, topo, ids, edges.drop_last()),
            ids[topo.ends()[edges.last()].0],
        )
    }
}

/// `acc` with the targets of the listed segments added, each once.
pub open spec fn add_targets(
    acc: Seq<u64>,
    topo: Topology,
    ids: Seq<u64>,
    edges: Seq<int>,
) -> Seq<u64>
    decreases edges.len(),
{
    if edges.len() == 0 {
        acc
    } else {
        push_new(
            add_targets(acc, topo, ids, edges.drop_last()),
            ids[topo.ends()[edges.last()].1],
        )
    }
}

/// The nodes whose turns an edit at a node affects: the node and its neighbours.
pub open spec fn affected_by(topo: Topology, ids: Seq<u64>, node_id: u64) -> Seq<u64> {
    if ids.contains(node_id) {
        let n = ids.index_of(node_id);
        add_targets(
            add_sources(seq![node_id], topo, ids, topo.in_edges(n)),
            topo,
            ids,
            topo.out_edges(n),
        )
    } else {
        seq![node_id]
    }
}

/// The turns that do not lead over one of the given nodes.
pub open spec fn turns_elsewhere(turns: Seq<TurnConnector>, nodes: Seq<u64>) -> Seq<TurnConnector>
    decreases turns.len(),
{
    if turns.len() == 0 {
        Seq::empty()
    } else {
        let before = turns_elsewhere(turns.drop_last(), nodes);
        if nodes.contains(turns.last().via_node_id) {
            before
        } else {
            before.push(turns.last())
        }
    }
}

/// Whether a turn between nodes of a map bends enough to be drawn as a curve.
pub open spec fn is_drawn(nodes: Seq<RoadNode>, t: TurnConnector) -> bool {
    let ids = node_ids(nodes);
    &&& ids.contains(t.from_node_id)
    &&& ids.contains(t.via_node_id)
    &&& ids.contains(t.to_node_id)
    &&& turn_bends(
        nodes[ids.index_of(t.from_node_id)],
        nodes[ids.index_of(t.via_node_id)],
        nodes[ids.index_of(t.to_node_id)],
    )
}

/// `acc` with those of the turns added that bend.
pub open spec fn add_bending(
    acc: Seq<TurnConnector>,
    turns: Seq<TurnConnector>,
    nodes: Seq<RoadNode>,
) -> Seq<TurnConnector>
    decreases turns.len(),
{
    if turns.len() == 0 {
        acc
    } else {
        let before = add_bending(acc, turns.drop_last(), nodes);
        if is_drawn(nodes, turns.last()) {
            before.push(turns.last())
        } else {
            before
        }
    }
}

/// `acc` with the bending turns over each of the listed nodes added.
pub open spec fn add_bending_over(
    acc: Seq<TurnConnector>,
    topo: Topology,
    nodes: Seq<RoadNode>,
    over: Seq<u64>,
) -> Seq<TurnConnector>
    decreases over.len(),
{
    if over.len() == 0 {
        acc
    } else {
        add_bending(
            add_bending_over(acc, topo, nodes, over.drop_last()),
            turns_over(topo, node_ids(nodes), over.last()),
            nodes,
        )
    }
}

/// The drawn turns after the surroundings of a node have been redone, in a network as it is then.
pub open spec fn rebuilt(
    turns: Seq<TurnConnector>,
    topo: Topology,
    nodes: Seq<RoadNode>,
    node_id: u64,
) -> Seq<TurnConnector> {
    let over = affected_by(topo, node_ids(nodes), node_id);
    add_bending_over(turns_elsewhere(turns, over), topo, nodes, over)
}

fn push_new_id(ids: &mut Vec<u64>, id: u64)
    ensures
        final(ids)@ == push_new(old(ids)@, id),
{
    let mut k: usize = 0;
    while k < ids.len()
        invariant
            k <= ids.len(),
            ids@ == old(ids)@,
            forall|m: int| 0 <= m < k ==> ids@[m] != id,
        decreases ids.len() - k,
    {
        if ids[k] == id {
            assert(ids@[k as int] == id);
            return ;
        }
        k = k + 1;
    }
    ids.push(id);
}

impl MapData {
    /// The place of the node with the given id.
    pub fn node_place(&self, node_id: u64) -> (r: Option<usize>)
        requires
            self.wf(),
        ensures
            match r {
                Some(i) => node_ids(self.nodes@).contains(node_id) && i == node_ids(
                    self.nodes@,
                ).index_of(node_id) && i < self.nodes@.len() && self.nodes@[i as int].osm_id
                    == node_id,
                None => !node_ids(self.nodes@).contains(node_id),
            },
    {
        crate::map::id_index::find_place(&self.node_index_map, node_id)
    }

    /// Whether a turn bends enough to be drawn as a curve.
    pub fn draws_turn(&self, t: &TurnConnector) -> (r: bool)
        requires
            self.wf(),
        ensures
            r == is_drawn(self.nodes@, *t),
    {
        match (
            self.node_place(t.from_node_id),
            self.node_place(t.via_node_id),
            self.node_place(t.to_node_id),
        ) {
            (Some(a), Some(m), Some(b)) => is_turn_drawn(
                &self.nodes[a],
                &self.nodes[m],
                &self.nodes[b],
            ),
            _ => false,
        }
    }

    /// All turns over the node with the given id.
    pub fn turn_candidates(&self, via_id: u64) -> (r: Vec<TurnConnector>)
        requires
            self.wf(),
        ensures
            r@ == turns_over(self.graph, node_ids(self.nodes@), via_id),
    {
        let mut out: Vec<TurnConnector> = Vec::new();
        let mid: usize = match self.node_place(via_id) {
            Some(v) => v,
            None => {
                return out;
            },
        };
        let ghost topo = self.graph;
        let ghost ids = node_ids(self.nodes@);
        let ins: Vec<usize> = self.graph.incoming(mid);
        let outs: Vec<usize> = self.graph.outgoing(mid);
        let ghost iw = topo.in_edges(mid as int);
        let ghost ow = topo.out_edges(mid as int);
        let mut i: usize = 0;
        proof {
            topo.lemma_wf();
            assert(iw.len() == ins@.len());
            assert(ow.len() == outs@.len());
            assert(iw.take(0) =~= Seq::<int>::empty());
        }
        while i < ins.len()
            invariant
                self.wf(),
                topo == self.graph,
                ids == node_ids(self.nodes@),
                mid < self.nodes@.len(),
                self.nodes@[mid as int].osm_id == via_id,
                ids[mid as int] == via_id,
                iw == topo.in_edges(mid as int),
                ow == topo.out_edges(mid as int),
                ins@.map_values(|e: usize| e as int) == iw,
                outs@.map_values(|e: usize| e as int) == ow,
                iw.len() == ins@.len(),
                ow.len() == outs@.len(),
                i <= ins.len(),
                out@ == turns_from(topo, ids, mid as int, iw.take(i as int)),
            decreases ins.len() - i,
        {
            let e: usize = ins[i];
            proof {
                topo.lemma_wf();
                assert(iw[i as int] == e);
                assert(0 <= topo.in_edges(mid as int)[i as int] < topo.ends().len());
                assert(iw.take(i + 1).drop_last() =~= iw.take(i as int));
                assert(iw.take(i + 1).last() == e);
            }
            let src: usize = match self.graph.edge_endpoints(e) {
                Some(p) => p.0,
                None => 0,
            };
            let from_id: u64 = self.nodes[src].osm_id;
            let ghost start = out@;
            let mut k: usize = 0;
            assert(ow.take(0) =~= Seq::<int>::empty());
            while k < outs.len()
                invariant
                    self.wf(),
                    topo == self.graph,
                    ids == node_ids(self.nodes@),
                    mid < self.nodes@.len(),
                    ow == topo.out_edges(mid as int),
                    outs@.map_values(|e: usize| e as int) == ow,
                    ow.len() == outs@.len(),
                    k <= outs.len(),
                    out@ == turns_onto(start, topo, ids, from_id, via_id, ow.take(k as int)),
                decreases outs.len() - k,
            {
                let o: usize = outs[k];
                proof {
                    topo.lemma_wf();
                    assert(ow[k as int] == o);
                    assert(0 <= topo.out_edges(mid as int)[k as int] < topo.ends().len());
                    assert(ow.take(k + 1).drop_last() =~= ow.take(k as int));
                    assert(ow.take(k + 1).last() == o);
                }
                let tgt: usize = match self.graph.edge_endpoints(o) {
                    Some(p) => p.1,
                    None => 0,
                };
                let to_id: u64 = self.nodes[tgt].osm_id;
                if to_id != from_id {
                    out.push(
                        TurnConnector {
                            from_node_id: from_id,
                            via_node_id: via_id,
                            to_node_id: to_id,
                        },
                    );
                }
                k = k + 1;
            }
            assert(ow.take(k as int) =~= ow);
            i = i + 1;
        }
        assert(iw.take(i as int) =~= iw);
        out
    }

    /// The nodes whose turns an edit at a node affects: the node and its neighbours.
    pub fn affected_nodes(&self, node_id: u64) -> (r: Vec<u64>)
        requires
            self.wf(),
        ensures
            r@ == affected_by(self.graph, node_ids(self.nodes@), node_id),
    {
        let mut out: Vec<u64> = Vec::new();
        out.push(node_id);
        assert(out@ =~= seq![node_id]);
        let n: usize = match self.node_place(node_id) {
            Some(v) => v,
            None => {
                return out;
            },
        };
        let ghost topo = self.graph;
        let ghost ids = node_ids(self.nodes@);
        let ins: Vec<usize> = self.graph.incoming(n);
        let outs: Vec<usize> = self.graph.outgoing(n);
        let ghost iw = topo.in_edges(n as int);
        let ghost ow = topo.out_edges(n as int);
        let mut i: usize = 0;
        proof {
            assert(iw.len() == ins@.len());
            assert(ow.len() == outs@.len());
            assert(iw.take(0) =~= Seq::<int>::empty());
            assert(ow.take(0) =~= Seq::<int>::empty());
        }
        while i < ins.len()
            invariant
                self.wf(),
                topo == self.graph,
                ids == node_ids(self.nodes@),
                n < self.nodes@.len(),
                iw == topo.in_edges(n as int),
                ins@.map_values(|e: usize| e as int) == iw,
                iw.len() == ins@.len(),
                i <= ins.len(),
                out@ == add_sources(seq![node_id], topo, ids, iw.take(i as int)),
            decreases ins.len() - i,
        {
            let e: usize = ins[i];
            proof {
                topo.lemma_wf();
                assert(iw[i as int] == e);
                assert(0 <= topo.in_edges(n as int)[i as int] < topo.ends().len());
                assert(iw.take(i + 1).drop_last() =~= iw.take(i as int));
                assert(iw.take(i + 1).last() == e);
            }
            let src: usize = match self.graph.edge_endpoints(e) {
                Some(p) => p.0,
                None => 0,
            };
            push_new_id(&mut out, self.nodes[src].osm_id);
            i = i + 1;
        }
        assert(iw.take(i as int) =~= iw);
        let ghost start = out@;
        let mut k: usize = 0;
        while k < outs.len()
            invariant
                self.wf(),
                topo == self.graph,
                ids == node_ids(self.nodes@),
                n < self.nodes@.len(),
                ow == topo.out_edges(n as int),
                outs@.map_values(|e: usize| e as int) == ow,
                ow.len() == outs@.len(),
                k <= outs.len(),
                out@ == add_targets(start, topo, ids, ow.take(k as int)),
            decreases outs.len() - k,
        {
            let o: usize = outs[k];
            proof {
                topo.lemma_wf();
                assert(ow[k as int] == o);
                assert(0 <= topo.out_edges(n as int)[k as int] < topo.ends().len());
                assert(ow.take(k + 1).drop_last() =~= ow.take(k as int));
                assert(ow.take(k + 1).last() == o);
            }
            let tgt: usize = match self.graph.edge_endpoints(o) {
                Some(p) => p.1,
                None => 0,
            };
            push_new_id(&mut out, self.nodes[tgt].osm_id);
            k = k + 1;
        }
        assert(ow.take(k as int) =~= ow);
        out
    }

    /// Both maps agree in everything but the drawn turns.
    pub open spec fn same_but_turns(&self, other: &MapData) -> bool {
        &&& self.graph == other.graph
        &&& self.nodes == other.nodes
        &&& self.edges == other.edges
        &&& self.node_index_map == other.node_index_map
        &&& self.same_beside_network(other)
    }

    /// Both maps agree in everything but the network and the drawn turns.
    pub open spec fn same_beside_network(&self, other: &MapData) -> bool {
        &&& self.bbox == other.bbox
        &&& self.spawn_points == other.spawn_points
        &&& self.boundary_nodes == other.boundary_nodes
        &&& self.od_buildings == other.od_buildings
        &&& self.restrictions == other.restrictions
        &&& self.tram_data == other.tram_data
        &&& self.is_sandbox == other.is_sandbox
        &&& self.sandbox_simple_cross_tl == other.sandbox_simple_cross_tl
        &&& self.lane_width == other.lane_width
        &&& self.lanes == other.lanes
        &&& self.conflict_areas == other.conflict_areas
    }

    /// Redoes the drawn turns around a node: those over the node and its neighbours are
    /// dropped and the turns over them that bend are added again.
    pub fn rebuild_geometry(&mut self, node_id: u64)
        requires
            old(self).wf(),
        ensures
            final(self).wf(),
            final(self).same_but_turns(old(self)),
            final(self).turn_connectors@ == rebuilt(
                old(self).turn_connectors@,
                old(self).graph,
                old(self).nodes@,
                node_id,
            ),
    {
        let affected: Vec<u64> = self.affected_nodes(node_id);
        let ghost topo = self.graph;
        let ghost ids = node_ids(self.nodes@);
        let ghost before = self.turn_connectors@;
        let mut turns: Vec<TurnConnector> = Vec::new();
        let mut i: usize = 0;
        assert(before.take(0) =~= Seq::<TurnConnector>::empty());
        while i < self.turn_connectors.len()
            invariant
                *self == *old(self),
                before == self.turn_connectors@,
                i <= before.len(),
                turns@ == turns_elsewhere(before.take(i as int), affected@),
            decreases before.len() - i,
        {
            let t: TurnConnector = self.turn_connectors[i];
            proof {
                assert(before.take(i + 1).drop_last() =~= before.take(i as int));
                assert(before.take(i + 1).last() == t);
            }
            let mut hit: bool = false;
            let mut k: usize = 0;
            while k < affected.len()
                invariant
                    k <= affected.len(),
                    hit == exists|m: int| 0 <= m < k && affected@[m] == t.via_node_id,
                decreases affected.len() - k,
            {
                if affected[k] == t.via_node_id {
                    hit = true;
                }
                k = k + 1;
            }
            assert(hit == affected@.contains(t.via_node_id));
            if !hit {
                turns.push(t);
            }
            i = i + 1;
        }
        assert(before.take(i as int) =~= before);
        let ghost kept = turns@;
        let mut a: usize = 0;
        assert(affected@.take(0) =~= Seq::<u64>::empty());
        while a < affected.len()
            invariant
                self.wf(),
                *self == *old(self),
                topo == self.graph,
                ids == node_ids(self.nodes@),
                a <= affected.len(),
                turns@ == add_bending_over(kept, topo, self.nodes@, affected@.take(a as int)),
            decreases affected.len() - a,
        {
            proof {
                assert(affected@.take(a + 1).drop_last() =~= affected@.take(a as int));
                assert(affected@.take(a + 1).last() == affected@[a as int]);
            }
            let found: Vec<TurnConnector> = self.turn_candidates(affected[a]);
            let ghost start = turns@;
            let mut k: usize = 0;
            assert(found@.take(0) =~= Seq::<TurnConnector>::empty());
            while k < found.len()
                invariant
                    self.wf(),
                    *self == *old(self),
                    k <= found.len(),
                    turns@ == add_bending(start, found@.take(k as int), self.nodes@),
                decreases found.len() - k,
            {
                proof {
                    assert(found@.take(k + 1).drop_last() =~= found@.take(k as int));
                    assert(found@.take(k + 1).last() == found@[k as int]);
                }
                if self.draws_turn(&found[k]) {
                    turns.push(found[k]);
                }
                k = k + 1;
            }
            assert(found@.take(k as int) =~= found@);
            a = a + 1;
        }
        assert(affected@.take(a as int) =~= affected@);
        self.turn_connectors = turns;
    }

    /// Redoes all drawn turns.
    pub fn rebuild_all_geometry(&mut self)
        requires
            old(self).wf(),
        ensures
            final(self).wf(),
            final(self).same_but_turns(old(self)),
            final(self).turn_connectors@ == add_bending_over(
                Seq::empty(),
                old(self).graph,
                old(self).nodes@,
                node_ids(old(self).nodes@),
            ),
    {
        let ghost topo = self.graph;
        let ghost ids = node_ids(self.nodes@);
        let mut turns: Vec<TurnConnector> = Vec::new();
        let mut a: usize = 0;
        assert(ids.take(0) =~= Seq::<u64>::empty());
        while a < self.nodes.len()
            invariant
                self.wf(),
                *self == *old(self),
                topo == self.graph,
                ids == node_ids(self.nodes@),
                a <= self.nodes.len(),
                turns@ == add_bending_over(
                    Seq::empty(),
                    topo,
                    self.nodes@,
                    ids.take(a as int),
                ),
            decreases self.nodes.len() - a,
        {
            proof {
                assert(ids.take(a + 1).drop_last() =~= ids.take(a as int));
                assert(ids.take(a + 1).last() == ids[a as int]);
            }
            let found: Vec<TurnConnector> = self.turn_candidates(self.nodes[a].osm_id);
            let ghost start = turns@;
            let mut k: usize = 0;
            assert(found@.take(0) =~= Seq::<TurnConnector>::empty());
            while k < found.len()
                invariant
                    self.wf(),
                    *self == *old(self),
                    k <= found.len(),
                    turns@ == add_bending(start, found@.take(k as int), self.nodes@),
                decreases found.len() - k,
            {
                proof {
                    assert(found@.take(k + 1).drop_last() =~= found@.take(k as int));
                    assert(found@.take(k + 1).last() == found@[k as int]);
                }
                if self.draws_turn(&found[k]) {
                    turns.push(found[k]);
                }
                k = k + 1;
            }
            assert(found@.take(k as int) =~= found@);
            a = a + 1;
        }
        assert(ids.take(a as int) =~= ids);
        self.turn_connectors = turns;
    }
}

/// The segment that the editor adds between two nodes.
pub open spec fn default_edge(length: i64) -> RoadEdgeView {
    measured(
        RoadEdgeView {
            osm_id: 0,
            lanes: 2,
            max_speed: SPEED_50,
            oneway: false,
            infra_type: InfraType::Normal,
            layer: 0,
            length: 0,
            lane_directions: seq![LaneDirection::Left, LaneDirection::Straight],
            decision_points: (0, 0, 0),
            road_type: "secondary"@,
            has_tram_track: false,
        },
        length,
    )
}

/// The text `what` followed by a number.
pub open spec fn numbered_text(what: Seq<char>, n: u64) -> Seq<char> {
    what + decimal_text(n as nat)
}

fn numbered_message(what: &str, n: u64) -> (r: String)
    ensures
        r@ == numbered_text(what@, n),
{
    let mut out: String = String::from_str(what);
    push_decimal(&mut out, n);
    out
}

/// The map after a node has been moved to a new place.
pub open spec fn node_moved(
    before: MapData,
    after: MapData,
    node_id: u64,
    lat: i64,
    lng: i64,
    geo: EditGeometry,
) -> bool {
    let ids = node_ids(before.nodes@);
    let place = ids.index_of(node_id);
    let walk = before.graph.out_edges(place);
    &&& after.wf()
    &&& after.graph == before.graph
    &&& after.node_index_map == before.node_index_map
    &&& after.same_beside_network(&before)
    &&& after.nodes@ == before.nodes@.update(
        place,
        RoadNode { lat, lng, ..before.nodes@[place] },
    )
    &&& after.edges@.len() == before.edges@.len()
    &&& forall|m: int|
        0 <= m < walk.len() ==> after.edges@[#[trigger] walk[m]]@ == measured(
            before.edges@[walk[m]]@,
            geo.out_lengths@[m],
        )
    &&& forall|e: int|
        0 <= e < before.edges@.len() && before.graph.ends()[e].0 != place
            ==> #[trigger] after.edges@[e] == before.edges@[e]
    &&& after.turn_connectors@ == rebuilt(
        before.turn_connectors@,
        after.graph,
        after.nodes@,
        node_id,
    )
}

/// The map after a default segment has been added between two nodes.
pub open spec fn edge_joined(
    before: MapData,
    after: MapData,
    from_id: u64,
    to_id: u64,
    geo: EditGeometry,
) -> bool {
    let ids = node_ids(before.nodes@);
    &&& after.wf()
    &&& before.graph.edge_added(&after.graph, ids.index_of(from_id), ids.index_of(to_id))
    &&& after.nodes == before.nodes
    &&& after.node_index_map == before.node_index_map
    &&& after.same_beside_network(&before)
    &&& after.edges@.len() == before.edges@.len() + 1
    &&& after.edges@.drop_last() == before.edges@
    &&& after.edges@.last()@ == default_edge(geo.edge_length)
    &&& after.turn_connectors@ == rebuilt(
        rebuilt(before.turn_connectors@, after.graph, after.nodes@, from_id),
        after.graph,
        after.nodes@,
        to_id,
    )
}

/// The segments among the first `n` that lead from one node to another.
pub open spec fn segments_between(
    ends: Seq<(int, int)>,
    ids: Seq<u64>,
    from_id: u64,
    to_id: u64,
    n: int,
) -> Seq<int>
    decreases n,
{
    if n <= 0 {
        Seq::empty()
    } else {
        let before = segments_between(ends, ids, from_id, to_id, n - 1);
        if ids[ends[n - 1].0] == from_id && ids[ends[n - 1].1] == to_id {
            before.push(n - 1)
        } else {
            before
        }
    }
}

/// A list after the listed places have been removed one after the other, each time with the
/// last entry taking the freed place. Places beyond the shrunken list are skipped.
pub open spec fn removed_in_turn<T>(s: Seq<T>, places: Seq<int>) -> Seq<T>
    decreases places.len(),
{
    if places.len() == 0 {
        s
    } else {
        let before = removed_in_turn(s, places.drop_last());
        let p = places.last();
        if 0 <= p < before.len() {
            before.update(p, before.last()).drop_last()
        } else {
            before
        }
    }
}

/// The map after the segments between two nodes have been removed.
pub open spec fn segments_removed(
    before: MapData,
    after: MapData,
    from_id: u64,
    to_id: u64,
) -> bool {
    let gone = segments_between(
        before.graph.ends(),
        node_ids(before.nodes@),
        from_id,
        to_id,
        before.graph.ends().len() as int,
    );
    &&& after.wf()
    &&& after.graph.nodes() == before.graph.nodes()
    &&& after.graph.ends() == removed_in_turn(before.graph.ends(), gone)
    &&& after.edges@ == removed_in_turn(before.edges@, gone)
    &&& after.nodes == before.nodes
    &&& after.node_index_map == before.node_index_map
    &&& after.same_beside_network(&before)
}

/// The map after the segments between two nodes have been removed and the turns around both
/// nodes redone.
pub open spec fn edges_removed(
    before: MapData,
    after: MapData,
    from_id: u64,
    to_id: u64,
) -> bool {
    &&& segments_removed(before, after, from_id, to_id)
    &&& after.turn_connectors@ == rebuilt(
        rebuilt(before.turn_connectors@, after.graph, after.nodes@, from_id),
        after.graph,
        after.nodes@,
        to_id,
    )
}

/// Whether the map has a node with the given id.
pub open spec fn has_node(map: MapData, id: u64) -> bool {
    node_ids(map.nodes@).contains(id)
}

impl MapData {
    /// Moves a node, sets the new lengths of the segments that leave it and redoes the turns
    /// around it.
    pub fn update_node_position(
        &mut self,
        node_id: u64,
        lat: i64,
        lng: i64,
        geo: &EditGeometry,
    ) -> (r: Result<(), String>)
        requires
            old(self).wf(),
            has_node(*old(self), node_id) ==> geo.out_lengths@.len() == old(self).graph.out_edges(
                node_ids(old(self).nodes@).index_of(node_id),
            ).len(),
        ensures
            r is Ok <==> has_node(*old(self), node_id),
            match r {
                Ok(_) => node_moved(*old(self), *final(self), node_id, lat, lng, *geo),
                Err(m) => *final(self) == *old(self) && m@ == numbered_text(
                    "Unknown node id "@,
                    node_id,
                ),
            },
    {
        let place: usize = match self.node_place(node_id) {
            Some(p) => p,
            None => {
                return Err(numbered_message("Unknown node id ", node_id));
            },
        };
        let ghost before = *self;
        let ghost ids = node_ids(self.nodes@);
        let n: RoadNode = self.nodes[place];
        self.nodes.set(
            place,
            RoadNode { osm_id: n.osm_id, lat, lng, intersection_type: n.intersection_type },
        );
        assert(node_ids(self.nodes@) =~= ids);
        let outs: Vec<usize> = self.graph.outgoing(place);
        let ghost walk = self.graph.out_edges(place as int);
        proof {
            self.graph.lemma_wf();
            self.graph.lemma_walks_distinct(place as int);
            assert(walk.len() == outs@.len());
        }
        let mut k: usize = 0;
        while k < outs.len()
            invariant
                self.wf(),
                before.wf(),
                self.graph == before.graph,
                self.node_index_map == before.node_index_map,
                self.same_beside_network(&before),
                self.turn_connectors == before.turn_connectors,
                self.nodes@ == before.nodes@.update(
                    place as int,
                    RoadNode { lat, lng, ..before.nodes@[place as int] },
                ),
                place < before.nodes@.len(),
                walk == before.graph.out_edges(place as int),
                walk.no_duplicates(),
                outs@.map_values(|e: usize| e as int) == walk,
                walk.len() == outs@.len(),
                geo.out_lengths@.len() == walk.len(),
                k <= outs.len(),
                self.edges@.len() == before.edges@.len(),
                forall|m: int|
                    0 <= m < k ==> self.edges@[#[trigger] walk[m]]@ == measured(
                        before.edges@[walk[m]]@,
                        geo.out_lengths@[m],
                    ),
                forall|e: int|
                    0 <= e < before.edges@.len() && !walk.take(k as int).contains(e)
                        ==> #[trigger] self.edges@[e] == before.edges@[e],
            decreases outs.len() - k,
        {
            let e: usize = outs[k];
            let ghost held = self.edges@;
            proof {
                self.graph.lemma_wf();
                assert(walk[k as int] == e);
                assert(0 <= self.graph.out_edges(place as int)[k as int] < self.graph.ends().len());
                if walk.take(k as int).contains(e as int) {
                    let m = choose|m: int|
                        0 <= m < walk.take(k as int).len() && walk.take(k as int)[m] == e;
                    assert(walk[m] == walk[k as int]);
                }
                assert(held[e as int] == before.edges@[e as int]);
            }
            self.set_edge_length(e, geo.out_lengths[k]);
            proof {
                assert forall|m: int| 0 <= m < k + 1 implies self.edges@[#[trigger] walk[m]]@
                    == measured(before.edges@[walk[m]]@, geo.out_lengths@[m]) by {
                    if m < k {
                        assert(walk[m] != walk[k as int]);
                        assert(0 <= self.graph.out_edges(place as int)[m] < self.graph.ends().len());
                        assert(self.edges@[walk[m]] == held[walk[m]]);
                    }
                }
                assert forall|x: int|
                    0 <= x < before.edges@.len() && !walk.take(k + 1).contains(x) implies
                    #[trigger] self.edges@[x] == before.edges@[x] by {
                    assert(walk.take(k + 1)[k as int] == e);
                    assert(x != e);
                    if walk.take(k as int).contains(x) {
                        let m = choose|m: int|
                            0 <= m < walk.take(k as int).len() && walk.take(k as int)[m] == x;
                        assert(walk.take(k + 1)[m] == x);
                    }
                    assert(held[x] == before.edges@[x]);
                }
            }
            k = k + 1;
        }
        proof {
            assert(node_ids(self.nodes@) =~= ids);
            assert(walk.take(k as int) =~= walk);
            assert forall|e: int|
                0 <= e < before.edges@.len() && before.graph.ends()[e].0 != place implies
                #[trigger] self.edges@[e] == before.edges@[e] by {
                if walk.contains(e) {
                    let m = choose|m: int| 0 <= m < walk.len() && walk[m] == e;
                    self.graph.lemma_wf();
                    assert(self.graph.ends()[self.graph.out_edges(place as int)[m]].0 == place);
                }
            }
        }
        self.rebuild_geometry(node_id);
        Ok(())
    }

    /// Adds a default segment between two nodes and redoes the turns around both.
    pub fn add_edge_default(&mut self, from_node_id: u64, to_node_id: u64, geo: &EditGeometry) -> (r:
        Result<(), String>)
        requires
            old(self).wf(),
            old(self).graph.ends().len() < u32::MAX,
        ensures
            r is Ok <==> has_node(*old(self), from_node_id) && has_node(*old(self), to_node_id),
            match r {
                Ok(_) => edge_joined(*old(self), *final(self), from_node_id, to_node_id, *geo),
                Err(m) => *final(self) == *old(self) && m@ == (if !has_node(
                    *old(self),
                    from_node_id,
                ) {
                    numbered_text("Unknown from node "@, from_node_id)
                } else {
                    numbered_text("Unknown to node "@, to_node_id)
                }),
            },
    {
        let from: usize = match self.node_place(from_node_id) {
            Some(p) => p,
            None => {
                return Err(numbered_message("Unknown from node ", from_node_id));
            },
        };
        let to: usize = match self.node_place(to_node_id) {
            Some(p) => p,
            None => {
                return Err(numbered_message("Unknown to node ", to_node_id));
            },
        };
        let mut lane_directions: Vec<LaneDirection> = Vec::new();
        lane_directions.push(LaneDirection::Left);
        lane_directions.push(LaneDirection::Straight);
        assert(lane_directions@ =~= seq![LaneDirection::Left, LaneDirection::Straight]);
        let edge: RoadEdge = RoadEdge {
            osm_id: 0,
            lanes: 2,
            max_speed: SPEED_50,
            oneway: false,
            infra_type: InfraType::Normal,
            layer: 0,
            length: geo.edge_length,
            lane_directions,
            decision_points: decision_points(geo.edge_length),
            road_type: "secondary".to_owned(),
            has_tram_track: false,
        };
        assert(edge@ == default_edge(geo.edge_length));
        self.graph.add_edge(from, to);
        self.edges.push(edge);
        assert(self.edges@.drop_last() =~= old(self).edges@);
        self.rebuild_geometry(from_node_id);
        self.rebuild_geometry(to_node_id);
        Ok(())
    }

    /// The segments that lead from one node to another, in order.
    fn find_segments(&self, from_node_id: u64, to_node_id: u64) -> (r: Vec<usize>)
        requires
            self.wf(),
        ensures
            r@.map_values(|e: usize| e as int) == segments_between(
                self.graph.ends(),
                node_ids(self.nodes@),
                from_node_id,
                to_node_id,
                self.graph.ends().len() as int,
            ),
    {
        let mut out: Vec<usize> = Vec::new();
        let ghost ids = node_ids(self.nodes@);
        let mut e: usize = 0;
        assert(out@.map_values(|e: usize| e as int) =~= Seq::<int>::empty());
        while e < self.graph.edge_count()
            invariant
                self.wf(),
                ids == node_ids(self.nodes@),
                e <= self.graph.ends().len(),
                out@.map_values(|e: usize| e as int) == segments_between(
                    self.graph.ends(),
                    ids,
                    from_node_id,
                    to_node_id,
                    e as int,
                ),
            decreases self.graph.ends().len() - e,
        {
            let ghost before = out@;
            match self.graph.edge_endpoints(e) {
                Some(p) => {
                    if self.nodes[p.0].osm_id == from_node_id && self.nodes[p.1].osm_id
                        == to_node_id {
                        out.push(e);
                        assert(out@.map_values(|e: usize| e as int) =~= before.map_values(
                            |e: usize| e as int,
                        ).push(e as int));
                    }
                },
                None => {},
            }
            e = e + 1;
        }
        out
    }

    /// Removes the segments between two nodes, one after the other. Tells whether there was a
    /// segment.
    pub fn remove_segments(&mut self, from_node_id: u64, to_node_id: u64) -> (r: bool)
        requires
            old(self).wf(),
        ensures
            segments_removed(*old(self), *final(self), from_node_id, to_node_id),
            final(self).turn_connectors == old(self).turn_connectors,
            r == (segments_between(
                old(self).graph.ends(),
                node_ids(old(self).nodes@),
                from_node_id,
                to_node_id,
                old(self).graph.ends().len() as int,
            ).len() > 0),
    {
        let found: Vec<usize> = self.find_segments(from_node_id, to_node_id);
        let ghost gone = found@.map_values(|e: usize| e as int);
        let ghost before = *self;
        let mut k: usize = 0;
        assert(gone.take(0) =~= Seq::<int>::empty());
        while k < found.len()
            invariant
                self.wf(),
                gone == found@.map_values(|e: usize| e as int),
                k <= found.len(),
                self.graph.nodes() == before.graph.nodes(),
                self.nodes == before.nodes,
                self.node_index_map == before.node_index_map,
                self.turn_connectors == before.turn_connectors,
                self.same_beside_network(&before),
                self.graph.ends() == removed_in_turn(before.graph.ends(), gone.take(k as int)),
                self.edges@ == removed_in_turn(before.edges@, gone.take(k as int)),
            decreases found.len() - k,
        {
            let e: usize = found[k];
            proof {
                assert(gone.take(k + 1).drop_last() =~= gone.take(k as int));
                assert(gone.take(k + 1).last() == e);
            }
            if e < self.graph.edge_count() {
                self.graph.remove_edge(e);
                self.edges.swap_remove(e);
            }
            k = k + 1;
        }
        assert(gone.take(k as int) =~= gone);
        found.len() > 0
    }

    /// Removes the segments between two nodes and redoes the turns around both nodes. Tells
    /// whether there was a segment.
    pub fn remove_edges_between(&mut self, from_node_id: u64, to_node_id: u64) -> (r: bool)
        requires
            old(self).wf(),
        ensures
            edges_removed(*old(self), *final(self), from_node_id, to_node_id),
            r == (segments_between(
                old(self).graph.ends(),
                node_ids(old(self).nodes@),
                from_node_id,
                to_node_id,
                old(self).graph.ends().len() as int,
            ).len() > 0),
    {
        let found: bool = self.remove_segments(from_node_id, to_node_id);
        self.rebuild_geometry(from_node_id);
        self.rebuild_geometry(to_node_id);
        found
    }

    /// Applies a change.
    pub fn apply_change(&mut self, change: &GraphChange, geo: &EditGeometry) -> (r: Result<
        (),
        String,
    >)
        requires
            old(self).wf(),
            geometry_fits(*old(self), *change, *geo),
        ensures
            r is Ok <==> change_applies(*old(self), *change),
            r is Ok ==> change_applied(*old(self), *final(self), *change, *geo),
            r is Err ==> *final(self) == *old(self),
    {
        match *change {
            GraphChange::NodePosition { node_id, before_lat, before_lng, after_lat, after_lng } => {
                self.update_node_position(node_id, after_lat, after_lng, geo)
            },
            GraphChange::EdgeAdded { from_node_id, to_node_id } => {
                self.add_edge_default(from_node_id, to_node_id, geo)
            },
            GraphChange::EdgeDeleted { from_node_id, to_node_id } => {
                self.remove_edges_between(from_node_id, to_node_id);
                Ok(())
            },
        }
    }

    /// Takes a change back.
    pub fn apply_inverse_change(&mut self, change: &GraphChange, geo: &EditGeometry) -> (r: Result<
        (),
        String,
    >)
        requires
            old(self).wf(),
            geometry_fits(*old(self), change.inverse(), *geo),
        ensures
            r is Ok <==> change_applies(*old(self), change.inverse()),
            r is Ok ==> change_applied(*old(self), *final(self), change.inverse(), *geo),
            r is Err ==> *final(self) == *old(self),
    {
        self.apply_change(&change.inverted(), geo)
    }
}

/// Whether the nodes that a change speaks of exist.
pub open spec fn change_applies(map: MapData, change: GraphChange) -> bool {
    match change {
        GraphChange::NodePosition { node_id, .. } => has_node(map, node_id),
        GraphChange::EdgeAdded { from_node_id, to_node_id } => has_node(map, from_node_id)
            && has_node(map, to_node_id),
        GraphChange::EdgeDeleted { .. } => true,
    }
}

/// The map after a change.
pub open spec fn change_applied(
    before: MapData,
    after: MapData,
    change: GraphChange,
    geo: EditGeometry,
) -> bool {
    match change {
        GraphChange::NodePosition { node_id, after_lat, after_lng, .. } => node_moved(
            before,
            after,
            node_id,
            after_lat,
            after_lng,
            geo,
        ),
        GraphChange::EdgeAdded { from_node_id, to_node_id } => edge_joined(
            before,
            after,
            from_node_id,
            to_node_id,
            geo,
        ),
        GraphChange::EdgeDeleted { from_node_id, to_node_id } => edges_removed(
            before,
            after,
            from_node_id,
            to_node_id,
        ),
    }
}

/// Whether the measured lengths belong to the change, and there is room for an added segment.
pub open spec fn geometry_fits(map: MapData, change: GraphChange, geo: EditGeometry) -> bool {
    match change {
        GraphChange::NodePosition { node_id, .. } => has_node(map, node_id)
            ==> geo.out_lengths@.len() == map.graph.out_edges(
            node_ids(map.nodes@).index_of(node_id),
        ).len(),
        GraphChange::EdgeAdded { .. } => map.graph.ends().len() < u32::MAX,
        GraphChange::EdgeDeleted { .. } => true,
    }
}

/// Changes that can be undone and undone changes that can be redone, latest last.
pub struct EditorHistory {
    pub undo: Vec<GraphChange>,
    pub redo: Vec<GraphChange>,
}

impl EditorHistory {
    /// `after` is this history with its latest change undone.
    pub open spec fn undone_to(&self, after: &EditorHistory) -> bool {
        &&& self.undo@.len() > 0
        &&& after.undo@ == self.undo@.drop_last()
        &&& after.redo@ == self.redo@.push(self.undo@.last())
    }

    /// `after` is this history with its latest undone change redone.
    pub open spec fn redone_to(&self, after: &EditorHistory) -> bool {
        &&& self.redo@.len() > 0
        &&& after.redo@ == self.redo@.drop_last()
        &&& after.undo@ == self.undo@.push(self.redo@.last())
    }

    /// A history without changes.
    pub fn new() -> (r: EditorHistory)
        ensures
            r.undo@.len() == 0,
            r.redo@.len() == 0,
    {
        EditorHistory { undo: Vec::new(), redo: Vec::new() }
    }

    /// Records a new change; what had been undone can no longer be redone.
    pub fn record(&mut self, change: GraphChange)
        ensures
            final(self).undo@ == old(self).undo@.push(change),
            final(self).redo@.len() == 0,
    {
        self.undo.push(change);
        self.redo = Vec::new();
    }

    /// Takes back the latest change. Without one nothing happens; a change that cannot be
    /// taken back is forgotten and its error given.
    pub fn undo_last(&mut self, map: &mut MapData, geo: &EditGeometry) -> (r: Result<(), String>)
        requires
            old(map).wf(),
            old(self).undo@.len() > 0 ==> geometry_fits(
                *old(map),
                old(self).undo@.last().inverse(),
                *geo,
            ),
        ensures
            final(map).wf(),
            old(self).undo@.len() == 0 ==> r is Ok && final(self).undo@ == old(self).undo@
                && final(self).redo@ == old(self).redo@ && *final(map) == *old(map),
            old(self).undo@.len() > 0 ==> {
                let change = old(self).undo@.last();
                &&& final(self).undo@ == old(self).undo@.drop_last()
                &&& r is Ok <==> change_applies(*old(map), change.inverse())
                &&& r is Ok ==> old(self).undone_to(final(self)) && change_applied(
                    *old(map),
                    *final(map),
                    change.inverse(),
                    *geo,
                )
                &&& r is Err ==> final(self).redo@ == old(self).redo@ && *final(map) == *old(map)
            },
    {
        match self.undo.pop() {
            Some(change) => match map.apply_inverse_change(&change, geo) {
                Ok(_) => {
                    self.redo.push(change);
                    Ok(())
                },
                Err(e) => Err(e),
            },
            None => Ok(()),
        }
    }

    /// Applies the latest undone change again. Without one nothing happens; a change that
    /// cannot be applied is forgotten and its error given.
    pub fn redo_last(&mut self, map: &mut MapData, geo: &EditGeometry) -> (r: Result<(), String>)
        requires
            old(map).wf(),
            old(self).redo@.len() > 0 ==> geometry_fits(
                *old(map),
                old(self).redo@.last(),
                *geo,
            ),
        ensures
            final(map).wf(),
            old(self).redo@.len() == 0 ==> r is Ok && final(self).undo@ == old(self).undo@
                && final(self).redo@ == old(self).redo@ && *final(map) == *old(map),
            old(self).redo@.len() > 0 ==> {
                let change = old(self).redo@.last();
                &&& final(self).redo@ == old(self).redo@.drop_last()
                &&& r is Ok <==> change_applies(*old(map), change)
                &&& r is Ok ==> old(self).redone_to(final(self)) && change_applied(
                    *old(map),
                    *final(map),
                    change,
                    *geo,
                )
                &&& r is Err ==> final(self).undo@ == old(self).undo@ && *final(map) == *old(map)
            },
    {
        match self.redo.pop() {
            Some(change) => match map.apply_change(&change, geo) {
                Ok(_) => {
                    self.undo.push(change);
                    Ok(())
                },
                Err(e) => Err(e),
            },
            None => Ok(()),
        }
    }
}

/// The segments between two nodes get new lane tags; all others stay.
pub open spec fn retagged(
    before: MapData,
    after: MapData,
    from_id: u64,
    to_id: u64,
    lanes: u8,
    oneway: bool,
    directions: Seq<LaneDirection>,
) -> bool {
    let ids = node_ids(before.nodes@);
    &&& after.wf()
    &&& after.graph == before.graph
    &&& after.nodes == before.nodes
    &&& after.node_index_map == before.node_index_map
    &&& after.same_beside_network(&before)
    &&& after.edges@.len() == before.edges@.len()
    &&& forall|e: int|
        0 <= e < before.edges@.len() ==> (#[trigger] after.edges@[e])@ == (if joins(
            before.graph.ends()[e],
            ids,
            from_id,
            to_id,
        ) {
            RoadEdgeView {
                lanes: crate::units::larger(lanes as int, 1) as u8,
                oneway,
                lane_directions: directions,
                ..before.edges@[e]@
            }
        } else {
            before.edges@[e]@
        })
}

/// Whether a segment leads from one node to another.
pub open spec fn joins(ends: (int, int), ids: Seq<u64>, from_id: u64, to_id: u64) -> bool {
    ids[ends.0] == from_id && ids[ends.1] == to_id
}

impl MapData {
    /// Gives the segments between two nodes new lane tags. Tells whether there was a segment.
    pub fn set_lane_tags(
        &mut self,
        from_node_id: u64,
        to_node_id: u64,
        lanes: u8,
        oneway: bool,
        directions: &Vec<LaneDirection>,
    ) -> (r: bool)
        requires
            old(self).wf(),
        ensures
            retagged(
                *old(self),
                *final(self),
                from_node_id,
                to_node_id,
                lanes,
                oneway,
                directions@,
            ),
            final(self).turn_connectors == old(self).turn_connectors,
            r == exists|e: int|
                0 <= e < old(self).edges@.len() && joins(
                    #[trigger] old(self).graph.ends()[e],
                    node_ids(old(self).nodes@),
                    from_node_id,
                    to_node_id,
                ),
    {
        let ghost before = *self;
        let ghost ids = node_ids(self.nodes@);
        let count: u8 = if lanes >= 1 {
            lanes
        } else {
            1
        };
        let mut found: bool = false;
        let mut e: usize = 0;
        while e < self.edges.len()
            invariant
                self.wf(),
                self.graph == before.graph,
                self.nodes == before.nodes,
                self.node_index_map == before.node_index_map,
                self.turn_connectors == before.turn_connectors,
                self.same_beside_network(&before),
                self.edges@.len() == before.edges@.len(),
                ids == node_ids(before.nodes@),
                count == crate::units::larger(lanes as int, 1),
                e <= self.edges.len(),
                found == exists|x: int|
                    0 <= x < e && joins(
                        #[trigger] before.graph.ends()[x],
                        ids,
                        from_node_id,
                        to_node_id,
                    ),
                forall|x: int|
                    0 <= x < e ==> (#[trigger] self.edges@[x])@ == (if joins(
                        before.graph.ends()[x],
                        ids,
                        from_node_id,
                        to_node_id,
                    ) {
                        RoadEdgeView {
                            lanes: count,
                            oneway,
                            lane_directions: directions@,
                            ..before.edges@[x]@
                        }
                    } else {
                        before.edges@[x]@
                    }),
                forall|x: int|
                    e <= x < self.edges@.len() ==> #[trigger] self.edges@[x] == before.edges@[x],
            decreases self.edges.len() - e,
        {
            let ghost held = self.edges@;
            match self.graph.edge_endpoints(e) {
                Some(p) => {
                    if self.nodes[p.0].osm_id == from_node_id && self.nodes[p.1].osm_id
                        == to_node_id {
                        assert(joins(
                            before.graph.ends()[e as int],
                            ids,
                            from_node_id,
                            to_node_id,
                        ));
                        self.edges[e].lanes = count;
                        self.edges[e].oneway = oneway;
                        self.edges[e].lane_directions = copy_directions(directions);
                        found = true;
                    } else {
                        assert(!joins(
                            before.graph.ends()[e as int],
                            ids,
                            from_node_id,
                            to_node_id,
                        ));
                    }
                },
                None => {},
            }
            proof {
                assert forall|x: int| 0 <= x < self.edges@.len() && x != e implies
                    #[trigger] self.edges@[x] == held[x] by {}
            }
            e = e + 1;
        }
        found
    }

    /// Gives the segments between two nodes new lane tags and redoes the turns around both
    /// nodes.
    pub fn update_edge_tags(
        &mut self,
        from_node_id: u64,
        to_node_id: u64,
        lanes: u8,
        oneway: bool,
        directions: &Vec<LaneDirection>,
    ) -> (r: Result<(), String>)
        requires
            old(self).wf(),
        ensures
            retagged(
                *old(self),
                *final(self),
                from_node_id,
                to_node_id,
                lanes,
                oneway,
                directions@,
            ),
            r is Ok <==> exists|e: int|
                0 <= e < old(self).edges@.len() && joins(
                    #[trigger] old(self).graph.ends()[e],
                    node_ids(old(self).nodes@),
                    from_node_id,
                    to_node_id,
                ),
            match r {
                Ok(_) => final(self).turn_connectors@ == rebuilt(
                    rebuilt(
                        old(self).turn_connectors@,
                        old(self).graph,
                        old(self).nodes@,
                        from_node_id,
                    ),
                    old(self).graph,
                    old(self).nodes@,
                    to_node_id,
                ),
                Err(m) => final(self).turn_connectors == old(self).turn_connectors && m@
                    == "Edge not found"@,
            },
    {
        if !self.set_lane_tags(from_node_id, to_node_id, lanes, oneway, directions) {
            return Err(String::from_str("Edge not found"));
        }
        self.rebuild_geometry(from_node_id);
        self.rebuild_geometry(to_node_id);
        Ok(())
    }

    /// Deletes the segments between two nodes.
    pub fn delete_edge(&mut self, from_node_id: u64, to_node_id: u64) -> (r: Result<(), String>)
        requires
            old(self).wf(),
        ensures
            r is Ok <==> segments_between(
                old(self).graph.ends(),
                node_ids(old(self).nodes@),
                from_node_id,
                to_node_id,
                old(self).graph.ends().len() as int,
            ).len() > 0,
            match r {
                Ok(_) => edges_removed(*old(self), *final(self), from_node_id, to_node_id),
                Err(m) => *final(self) == *old(self) && m@ == "Edge not found"@,
            },
    {
        if self.find_segments(from_node_id, to_node_id).len() == 0 {
            return Err(String::from_str("Edge not found"));
        }
        self.remove_edges_between(from_node_id, to_node_id);
        Ok(())
    }

    /// Adds a plain node with a new id and joins it to an existing node. An unknown start
    /// node is an error, and the new node stays without segments.
    pub fn extrude(
        &mut self,
        from_node_id: u64,
        new_node_id: u64,
        lat: i64,
        lng: i64,
        geo: &EditGeometry,
    ) -> (r: Result<(), String>)
        requires
            old(self).wf(),
            old(self).graph.nodes() < u32::MAX,
            old(self).graph.ends().len() < u32::MAX,
        ensures
            final(self).wf(),
            r is Ok <==> !has_node(*old(self), new_node_id) && (has_node(
                *old(self),
                from_node_id,
            ) || from_node_id == new_node_id),
            has_node(*old(self), new_node_id) ==> *final(self) == *old(self) && (
            r matches Err(m) && m@ == "new_node_id already exists"@),
            !has_node(*old(self), new_node_id) ==> exists|grown: MapData|
                {
                    &&& #[trigger] node_appended(*old(self), grown, new_node_id, lat, lng)
                    &&& match r {
                        Ok(_) => edge_joined(grown, *final(self), from_node_id, new_node_id, *geo),
                        Err(m) => *final(self) == grown && m@ == numbered_text(
                            "Unknown from node "@,
                            from_node_id,
                        ),
                    }
                },
    {
        match self.node_place(new_node_id) {
            Some(_) => {
                return Err(String::from_str("new_node_id already exists"));
            },
            None => {},
        }
        let ghost ids = node_ids(self.nodes@);
        self.graph.add_node();
        self.nodes.push(
            RoadNode {
                osm_id: new_node_id,
                lat,
                lng,
                intersection_type: IntersectionType::Plain,
            },
        );
        self.node_index_map.push(new_node_id);
        let ghost grown = *self;
        proof {
            assert(node_ids(self.nodes@) =~= ids.push(new_node_id));
            assert(self.node_index_map@ =~= node_ids(self.nodes@));
            assert(node_appended(*old(self), grown, new_node_id, lat, lng));
            assert(node_ids(grown.nodes@)[ids.len() as int] == new_node_id);
            assert forall|x: u64| node_ids(grown.nodes@).contains(x) <==> ids.contains(x) || x
                == new_node_id by {
                if ids.contains(x) {
                    let i = choose|i: int| 0 <= i < ids.len() && ids[i] == x;
                    assert(node_ids(grown.nodes@)[i] == x);
                }
                if node_ids(grown.nodes@).contains(x) && x != new_node_id {
                    let i = choose|i: int|
                        0 <= i < node_ids(grown.nodes@).len() && node_ids(grown.nodes@)[i] == x;
                    assert(ids[i] == x);
                }
            }
        }
        self.add_edge_default(from_node_id, new_node_id, geo)
    }
}

/// The map with one more plain node.
pub open spec fn node_appended(
    before: MapData,
    after: MapData,
    id: u64,
    lat: i64,
    lng: i64,
) -> bool {
    &&& after.wf()
    &&& after.graph.nodes() == before.graph.nodes() + 1
    &&& after.graph.ends() == before.graph.ends()
    &&& after.nodes@ == before.nodes@.push(
        RoadNode { osm_id: id, lat, lng, intersection_type: IntersectionType::Plain },
    )
    &&& after.edges == before.edges
    &&& after.turn_connectors == before.turn_connectors
    &&& after.same_beside_network(&before)
}

/// The turns drawn over some nodes are exactly those over them that bend.
pub proof fn law_drawn_turns_bend(
    topo: Topology,
    nodes: Seq<RoadNode>,
    over: Seq<u64>,
    t: TurnConnector,
)
    ensures
        add_bending_over(Seq::empty(), topo, nodes, over).contains(t) <==> is_drawn(nodes, t)
            && exists|k: int|
            0 <= k < over.len() && turns_over(
                topo,
                node_ids(nodes),
                #[trigger] over[k],
            ).contains(t),
    decreases over.len(),
{
    let ids = node_ids(nodes);
    if over.len() > 0 {
        let front = over.drop_last();
        law_drawn_turns_bend(topo, nodes, front, t);
        let before = add_bending_over(Seq::empty(), topo, nodes, front);
        let turns = turns_over(topo, ids, over.last());
        lemma_bending_added(before, turns, nodes, t);
        if turns.contains(t) {
            assert(turns_over(topo, ids, over[over.len() - 1]).contains(t));
        }
        if exists|k: int|
            0 <= k < front.len() && turns_over(topo, ids, #[trigger] front[k]).contains(t) {
            let k = choose|k: int|
                0 <= k < front.len() && turns_over(topo, ids, #[trigger] front[k]).contains(t);
            assert(over[k] == front[k]);
        }
        if exists|k: int|
            0 <= k < over.len() && turns_over(topo, ids, #[trigger] over[k]).contains(t) {
            let k = choose|k: int|
                0 <= k < over.len() && turns_over(topo, ids, #[trigger] over[k]).contains(t);
            if k < front.len() {
                assert(front[k] == over[k]);
            }
        }
    }
}

proof fn lemma_bending_added(
    acc: Seq<TurnConnector>,
    turns: Seq<TurnConnector>,
    nodes: Seq<RoadNode>,
    t: TurnConnector,
)
    ensures
        add_bending(acc, turns, nodes).contains(t) <==> acc.contains(t) || is_drawn(nodes, t)
            && turns.contains(t),
    decreases turns.len(),
{
    if turns.len() > 0 {
        let front = turns.drop_last();
        lemma_bending_added(acc, front, nodes, t);
        let before = add_bending(acc, front, nodes);
        let after = add_bending(acc, turns, nodes);
        if before.contains(t) {
            let i = choose|i: int| 0 <= i < before.len() && before[i] == t;
            assert(after[i] == t);
        }
        if is_drawn(nodes, turns.last()) {
            assert(after[before.len() as int] == turns.last());
        }
        if after.contains(t) {
            let i = choose|i: int| 0 <= i < after.len() && after[i] == t;
            if i < before.len() {
                assert(before[i] == t);
            }
        }
        if front.contains(t) {
            let i = choose|i: int| 0 <= i < front.len() && front[i] == t;
            assert(turns[i] == t);
        }
        if turns.contains(t) {
            let i = choose|i: int| 0 <= i < turns.len() && turns[i] == t;
            if i < front.len() {
                assert(front[i] == t);
            }
        }
        assert(turns[turns.len() - 1] == turns.last());
    }
}

/// Moving a node and moving it back restores all node records.
pub proof fn law_move_back(
    before: MapData,
    moved: MapData,
    back: MapData,
    change: GraphChange,
    geo1: EditGeometry,
    geo2: EditGeometry,
)
    requires
        before.wf(),
        change is NodePosition,
        change_applies(before, change),
        before.nodes@[node_ids(before.nodes@).index_of(change->node_id)].lat == change->before_lat,
        before.nodes@[node_ids(before.nodes@).index_of(change->node_id)].lng == change->before_lng,
        change_applied(before, moved, change, geo1),
        change_applied(moved, back, change.inverse(), geo2),
    ensures
        back.nodes@ == before.nodes@,
        back.graph == before.graph,
{
    let ids = node_ids(before.nodes@);
    let place = ids.index_of(change->node_id);
    let i = choose|i: int| 0 <= i < ids.len() && ids[i] == change->node_id;
    assert(0 <= place < ids.len() && ids[place] == change->node_id);
    assert(node_ids(moved.nodes@) =~= ids);
    assert(back.nodes@ =~= before.nodes@);
}

/// Joining two nodes that had no segment between them, and deleting the segments between them
/// again, restores all segments.
pub proof fn law_join_then_delete(
    before: MapData,
    joined: MapData,
    after: MapData,
    from_id: u64,
    to_id: u64,
    geo: EditGeometry,
)
    requires
        before.wf(),
        has_node(before, from_id),
        has_node(before, to_id),
        segments_between(
            before.graph.ends(),
            node_ids(before.nodes@),
            from_id,
            to_id,
            before.graph.ends().len() as int,
        ).len() == 0,
        edge_joined(before, joined, from_id, to_id, geo),
        edges_removed(joined, after, from_id, to_id),
    ensures
        after.graph.ends() == before.graph.ends(),
        after.edges@ == before.edges@,
        after.nodes == before.nodes,
{
    let ids = node_ids(before.nodes@);
    let n = before.graph.ends().len() as int;
    let old_ends = before.graph.ends();
    let new_ends = joined.graph.ends();
    assert(ids[ids.index_of(from_id)] == from_id);
    assert(ids[ids.index_of(to_id)] == to_id);
    lemma_segments_prefix(old_ends, new_ends, ids, from_id, to_id, n);
    let gone = segments_between(new_ends, ids, from_id, to_id, n + 1);
    assert(gone =~= seq![n]);
    assert(gone.drop_last() =~= Seq::<int>::empty());
    assert(removed_in_turn(new_ends, gone.drop_last()) == new_ends);
    assert(removed_in_turn(joined.edges@, gone.drop_last()) == joined.edges@);
    assert(new_ends.update(n, new_ends.last()).drop_last() =~= old_ends);
    assert(joined.edges@.update(n, joined.edges@.last()).drop_last() =~= before.edges@);
}

/// Segments found among a common prefix are the same.
proof fn lemma_segments_prefix(
    a: Seq<(int, int)>,
    b: Seq<(int, int)>,
    ids: Seq<u64>,
    from_id: u64,
    to_id: u64,
    n: int,
)
    requires
        0 <= n <= a.len() <= b.len(),
        forall|i: int| 0 <= i < a.len() ==> a[i] == b[i],
    ensures
        segments_between(a, ids, from_id, to_id, n) == segments_between(b, ids, from_id, to_id, n),
    decreases n,
{
    if n > 0 {
        lemma_segments_prefix(a, b, ids, from_id, to_id, n - 1);
    }
}

/// Undoing the latest change and redoing it gives back both lists of changes, and so does
/// redoing and undoing.
pub proof fn law_undo_redo(h0: EditorHistory, h1: EditorHistory, h2: EditorHistory)
    requires
        (h0.undone_to(&h1) && h1.redone_to(&h2)) || (h0.redone_to(&h1) && h1.undone_to(&h2)),
    ensures
        h2.undo@ == h0.undo@,
        h2.redo@ == h0.redo@,
{
    assert(h2.undo@ =~= h0.undo@);
    assert(h2.redo@ =~= h0.redo@);
}

/// The turns over a node lead from each segment that arrives to each that leaves, except back to where
/// the first comes from.
pub proof fn law_turns_over_nodes(
    topo: Topology,
    ids: Seq<u64>,
    via_id: u64,
    i: int,
    j: int,
)
    requires
        ids.contains(via_id),
        0 <= i < topo.in_edges(ids.index_of(via_id)).len(),
        0 <= j < topo.out_edges(ids.index_of(via_id)).len(),
    ensures
        ({
            let n = ids.index_of(via_id);
            let from_id = ids[topo.ends()[topo.in_edges(n)[i]].0];
            let to_id = ids[topo.ends()[topo.out_edges(n)[j]].1];
            from_id != to_id ==> turns_over(topo, ids, via_id).contains(
                TurnConnector { from_node_id: from_id, via_node_id: via_id, to_node_id: to_id },
            )
        }),
{
    let n = ids.index_of(via_id);
    let k = choose|k: int| 0 <= k < ids.len() && ids[k] == via_id;
    assert(ids[n] == via_id);
    let from_id = ids[topo.ends()[topo.in_edges(n)[i]].0];
    let to_id = ids[topo.ends()[topo.out_edges(n)[j]].1];
    if from_id != to_id {
        lemma_turn_listed(topo, ids, n, topo.in_edges(n), i, j);
    }
}

proof fn lemma_turn_listed(topo: Topology, ids: Seq<u64>, mid: int, ins: Seq<int>, i: int, j: int)
    requires
        0 <= i < ins.len(),
        0 <= j < topo.out_edges(mid).len(),
        ids[topo.ends()[ins[i]].0] != ids[topo.ends()[topo.out_edges(mid)[j]].1],
    ensures
        turns_from(topo, ids, mid, ins).contains(
            TurnConnector {
                from_node_id: ids[topo.ends()[ins[i]].0],
                via_node_id: ids[mid],
                to_node_id: ids[topo.ends()[topo.out_edges(mid)[j]].1],
            },
        ),
    decreases ins.len(),
{
    let front = ins.drop_last();
    let before = turns_from(topo, ids, mid, front);
    let outs = topo.out_edges(mid);
    let last_id = ids[topo.ends()[ins.last()].0];
    if i < front.len() {
        assert(front[i] == ins[i]);
        lemma_turn_listed(topo, ids, mid, front, i, j);
        lemma_turns_keep(
            before,
            topo,
            ids,
            last_id,
            ids[mid],
            outs,
            TurnConnector {
                from_node_id: ids[topo.ends()[ins[i]].0],
                via_node_id: ids[mid],
                to_node_id: ids[topo.ends()[outs[j]].1],
            },
        );
    } else {
        lemma_turn_onto(before, topo, ids, last_id, ids[mid], outs, j);
    }
}

proof fn lemma_turns_keep(
    acc: Seq<TurnConnector>,
    topo: Topology,
    ids: Seq<u64>,
    from_id: u64,
    via_id: u64,
    outs: Seq<int>,
    t: TurnConnector,
)
    requires
        acc.contains(t),
    ensures
        turns_onto(acc, topo, ids, from_id, via_id, outs).contains(t),
    decreases outs.len(),
{
    if outs.len() > 0 {
        lemma_turns_keep(acc, topo, ids, from_id, via_id, outs.drop_last(), t);
        let before = turns_onto(acc, topo, ids, from_id, via_id, outs.drop_last());
        let now = turns_onto(acc, topo, ids, from_id, via_id, outs);
        let k = choose|k: int| 0 <= k < before.len() && before[k] == t;
        assert(now[k] == t);
    }
}

proof fn lemma_turn_onto(
    acc: Seq<TurnConnector>,
    topo: Topology,
    ids: Seq<u64>,
    from_id: u64,
    via_id: u64,
    outs: Seq<int>,
    j: int,
)
    requires
        0 <= j < outs.len(),
        ids[topo.ends()[outs[j]].1] != from_id,
    ensures
        turns_onto(acc, topo, ids, from_id, via_id, outs).contains(
            TurnConnector {
                from_node_id: from_id,
                via_node_id: via_id,
                to_node_id: ids[topo.ends()[outs[j]].1],
            },
        ),
    decreases outs.len(),
{
    let t = TurnConnector {
        from_node_id: from_id,
        via_node_id: via_id,
        to_node_id: ids[topo.ends()[outs[j]].1],
    };
    let front = outs.drop_last();
    let before = turns_onto(acc, topo, ids, from_id, via_id, front);
    let now = turns_onto(acc, topo, ids, from_id, via_id, outs);
    if j < front.len() {
        assert(front[j] == outs[j]);
        lemma_turn_onto(acc, topo, ids, from_id, via_id, front, j);
        let k = choose|k: int| 0 <= k < before.len() && before[k] == t;
        assert(now[k] == t);
    } else {
        assert(now[before.len() as int] == t);
    }
}

/// An edit at a node affects the turns over it and over each of its neighbours.
pub proof fn law_neighbours_are_affected(topo: Topology, ids: Seq<u64>, node_id: u64, i: int)
    requires
        ids.contains(node_id),
    ensures
        affected_by(topo, ids, node_id).contains(node_id),
        0 <= i < topo.in_edges(ids.index_of(node_id)).len() ==> affected_by(
            topo,
            ids,
            node_id,
        ).contains(ids[topo.ends()[topo.in_edges(ids.index_of(node_id))[i]].0]),
        0 <= i < topo.out_edges(ids.index_of(node_id)).len() ==> affected_by(
            topo,
            ids,
            node_id,
        ).contains(ids[topo.ends()[topo.out_edges(ids.index_of(node_id))[i]].1]),
{
    let n = ids.index_of(node_id);
    let (ins, outs) = (topo.in_edges(n), topo.out_edges(n));
    let first = seq![node_id];
    assert(first[0] == node_id);
    let mid = add_sources(first, topo, ids, ins);
    lemma_sources_hold(first, topo, ids, ins, node_id);
    lemma_targets_hold(mid, topo, ids, outs, node_id);
    if 0 <= i < ins.len() {
        let x = ids[topo.ends()[ins[i]].0];
        lemma_sources_hold(first, topo, ids, ins, x);
        lemma_targets_hold(mid, topo, ids, outs, x);
    }
    if 0 <= i < outs.len() {
        lemma_targets_hold(mid, topo, ids, outs, ids[topo.ends()[outs[i]].1]);
    }
}

proof fn lemma_sources_hold(acc: Seq<u64>, topo: Topology, ids: Seq<u64>, edges: Seq<int>, x: u64)
    requires
        acc.contains(x) || exists|k: int|
            0 <= k < edges.len() && ids[topo.ends()[#[trigger] edges[k]].0] == x,
    ensures
        add_sources(acc, topo, ids, edges).contains(x),
    decreases edges.len(),
{
    if edges.len() > 0 {
        let front = edges.drop_last();
        let before = add_sources(acc, topo, ids, front);
        let y = ids[topo.ends()[edges.last()].0];
        if acc.contains(x) {
            lemma_sources_hold(acc, topo, ids, front, x);
        } else {
            let k = choose|k: int|
                0 <= k < edges.len() && ids[topo.ends()[#[trigger] edges[k]].0] == x;
            if k < front.len() {
                assert(front[k] == edges[k]);
                lemma_sources_hold(acc, topo, ids, front, x);
            }
        }
        lemma_new_held(before, y, x);
    }
}

proof fn lemma_targets_hold(acc: Seq<u64>, topo: Topology, ids: Seq<u64>, edges: Seq<int>, x: u64)
    requires
        acc.contains(x) || exists|k: int|
            0 <= k < edges.len() && ids[topo.ends()[#[trigger] edges[k]].1] == x,
    ensures
        add_targets(acc, topo, ids, edges).contains(x),
    decreases edges.len(),
{
    if edges.len() > 0 {
        let front = edges.drop_last();
        let before = add_targets(acc, topo, ids, front);
        let y = ids[topo.ends()[edges.last()].1];
        if acc.contains(x) {
            lemma_targets_hold(acc, topo, ids, front, x);
        } else {
            let k = choose|k: int|
                0 <= k < edges.len() && ids[topo.ends()[#[trigger] edges[k]].1] == x;
            if k < front.len() {
                assert(front[k] == edges[k]);
                lemma_targets_hold(acc, topo, ids, front, x);
            }
        }
        lemma_new_held(before, y, x);
    }
}

proof fn lemma_new_held(s: Seq<u64>, y: u64, x: u64)
    ensures
        s.contains(x) || x == y ==> push_new(s, y).contains(x),
{
    let with = push_new(s, y);
    if s.contains(x) {
        let k = choose|k: int| 0 <= k < s.len() && s[k] == x;
        assert(with[k] == x);
    } else if x == y {
        assert(with[s.len() as int] == y);
    }
}

/// Redoing the surroundings of a node leaves the turns elsewhere as they are.
pub proof fn law_other_turns_stay(
    turns: Seq<TurnConnector>,
    topo: Topology,
    nodes: Seq<RoadNode>,
    node_id: u64,
    t: TurnConnector,
)
    requires
        turns.contains(t),
        !affected_by(topo, node_ids(nodes), node_id).contains(t.via_node_id),
    ensures
        rebuilt(turns, topo, nodes, node_id).contains(t),
{
    let over = affected_by(topo, node_ids(nodes), node_id);
    lemma_elsewhere_kept(turns, over, t);
    lemma_bending_over_keeps(turns_elsewhere(turns, over), topo, nodes, over, t);
}

proof fn lemma_elsewhere_kept(turns: Seq<TurnConnector>, nodes: Seq<u64>, t: TurnConnector)
    requires
        turns.contains(t),
        !nodes.contains(t.via_node_id),
    ensures
        turns_elsewhere(turns, nodes).contains(t),
    decreases turns.len(),
{
    let front = turns.drop_last();
    let before = turns_elsewhere(front, nodes);
    let now = turns_elsewhere(turns, nodes);
    let k = choose|k: int| 0 <= k < turns.len() && turns[k] == t;
    if k < front.len() {
        assert(front[k] == t);
        lemma_elsewhere_kept(front, nodes, t);
        let x = choose|x: int| 0 <= x < before.len() && before[x] == t;
        assert(now[x] == t);
    } else {
        assert(now[before.len() as int] == t);
    }
}

proof fn lemma_bending_over_keeps(
    acc: Seq<TurnConnector>,
    topo: Topology,
    nodes: Seq<RoadNode>,
    over: Seq<u64>,
    t: TurnConnector,
)
    requires
        acc.contains(t),
    ensures
        add_bending_over(acc, topo, nodes, over).contains(t),
    decreases over.len(),
{
    if over.len() > 0 {
        lemma_bending_over_keeps(acc, topo, nodes, over.drop_last(), t);
        lemma_bending_keeps(
            add_bending_over(acc, topo, nodes, over.drop_last()),
            turns_over(topo, node_ids(nodes), over.last()),
            nodes,
            t,
        );
    }
}

proof fn lemma_bending_keeps(
    acc: Seq<TurnConnector>,
    turns: Seq<TurnConnector>,
    nodes: Seq<RoadNode>,
    t: TurnConnector,
)
    requires
        acc.contains(t),
    ensures
        add_bending(acc, turns, nodes).contains(t),
    decreases turns.len(),
{
    if turns.len() > 0 {
        lemma_bending_keeps(acc, turns.drop_last(), nodes, t);
        let before = add_bending(acc, turns.drop_last(), nodes);
        let now = add_bending(acc, turns, nodes);
        let k = choose|k: int| 0 <= k < before.len() && before[k] == t;
        assert(now[k] == t);
    }
}

} // verus!
