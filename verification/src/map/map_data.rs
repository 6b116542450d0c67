//! The loaded map: road graph, lanes, buildings, restrictions and trams.

use vstd::prelude::*;

use crate::map::building::OdBuilding;
use crate::map::id_index::IdIndex;
use crate::map::lane_graph::{
    lanes_before, populate_lane_graph, ConflictArea, LaneGraph, MAX_ROAD_LANES,
};
use crate::map::road_network::{
    decision_points, decision_points_at, RoadEdge, RoadEdgeView, RoadNode, TurnRestriction,
};
use crate::map::topology::Topology;
use crate::map::tram_network::TramData;
use crate::units::larger;

verus! {

/// A turn at a node for which a curve is drawn.
#[derive(Clone, Copy, Debug, PartialEq, Eq, Structural)]
pub struct TurnConnector {
    pub from_node_id: u64,
    pub via_node_id: u64,
    pub to_node_id: u64,
}

/// South, west, north and east edge of an area.
#[derive(Clone, Copy, Debug)]
pub struct Bbox {
    pub min_lat: i64,
    pub min_lng: i64,
    pub max_lat: i64,
    pub max_lng: i64,
}

/// The loaded map.
pub struct MapData {
    pub graph: Topology,
    pub nodes: Vec<RoadNode>,
    pub edges: Vec<RoadEdge>,
    pub node_index_map: IdIndex,
    pub bbox: Bbox,
    /// Nodes in an outer band of the map.
    pub spawn_points: Vec<usize>,
    /// Nodes in a narrower outer band, between which through traffic runs.
    pub boundary_nodes: Vec<usize>,
    pub od_buildings: Vec<OdBuilding>,
    pub restrictions: Vec<TurnRestriction>,
    pub tram_data: TramData,
    /// Whether this is one of the built-in maps.
    pub is_sandbox: bool,
    /// Whether the single crossing runs the simple two-phase signal program.
    pub sandbox_simple_cross_tl: bool,
    pub lane_width: i64,
    pub turn_connectors: Vec<TurnConnector>,
    pub lanes: LaneGraph,
    pub conflict_areas: Vec<ConflictArea>,
}

impl MapData {
    /// Graph and records agree, the index lists the node ids, and the listed places exist.
    pub open spec fn wf(&self) -> bool {
        &&& self.graph.wf()
        &&& self.node_index_map.wf()
        &&& self.nodes@.len() == self.graph.nodes()
        &&& self.edges@.len() == self.graph.ends().len()
        &&& self.node_index_map@ == self.nodes@.map_values(|n: RoadNode| n.osm_id)
        &&& forall|i: int|
            0 <= i < self.spawn_points@.len() ==> #[trigger] self.spawn_points@[i]
                < self.nodes@.len()
        &&& forall|i: int|
            0 <= i < self.boundary_nodes@.len() ==> #[trigger] self.boundary_nodes@[i]
                < self.nodes@.len()
        &&& self.tram_data.wf()
        &&& self.lanes.numbered()
    }

    /// The values of the road segments.
    pub open spec fn edge_views(&self) -> Seq<RoadEdgeView> {
        self.edges@.map_values(|e: RoadEdge| e@)
    }
}

/// `b` is the smallest box that holds all nodes; without nodes it is all zero.
pub open spec fn bounds(nodes: Seq<RoadNode>, b: Bbox) -> bool {
    if nodes.len() == 0 {
        b.min_lat == 0 && b.min_lng == 0 && b.max_lat == 0 && b.max_lng == 0
    } else {
        &&& forall|i: int|
            0 <= i < nodes.len() ==> b.min_lat <= (#[trigger] nodes[i]).lat <= b.max_lat
                && b.min_lng <= nodes[i].lng <= b.max_lng
        &&& exists|i: int| 0 <= i < nodes.len() && (#[trigger] nodes[i]).lat == b.min_lat
        &&& exists|i: int| 0 <= i < nodes.len() && (#[trigger] nodes[i]).lat == b.max_lat
        &&& exists|i: int| 0 <= i < nodes.len() && (#[trigger] nodes[i]).lng == b.min_lng
        &&& exists|i: int| 0 <= i < nodes.len() && (#[trigger] nodes[i]).lng == b.max_lng
    }
}

/// The smallest box that holds all nodes.
pub fn compute_bbox(nodes: &Vec<RoadNode>) -> (b: Bbox)
    ensures
        bounds(nodes@, b),
{
    if nodes.len() == 0 {
        return Bbox { min_lat: 0, min_lng: 0, max_lat: 0, max_lng: 0 };
    }
    let first: RoadNode = nodes[0];
    let mut b: Bbox = Bbox {
        min_lat: first.lat,
        min_lng: first.lng,
        max_lat: first.lat,
        max_lng: first.lng,
    };
    let mut i: usize = 1;
    assert(nodes@.take(1)[0] == first);
    while i < nodes.len()
        invariant
            1 <= i <= nodes.len(),
            bounds(nodes@.take(i as int), b),
        decreases nodes.len() - i,
    {
        let ghost before = nodes@.take(i as int);
        let ghost after = nodes@.take(i + 1);
        let ghost old_b = b;
        let n: RoadNode = nodes[i];
        if n.lat < b.min_lat {
            b.min_lat = n.lat;
        }
        if n.lat > b.max_lat {
            b.max_lat = n.lat;
        }
        if n.lng < b.min_lng {
            b.min_lng = n.lng;
        }
        if n.lng > b.max_lng {
            b.max_lng = n.lng;
        }
        proof {
            assert forall|k: int| 0 <= k < before.len() implies after[k] == before[k] by {}
            assert(after[i as int] == n);
            let k1 = choose|k: int| 0 <= k < before.len() && (#[trigger] before[k]).lat
                == old_b.min_lat;
            let k2 = choose|k: int| 0 <= k < before.len() && (#[trigger] before[k]).lat
                == old_b.max_lat;
            let k3 = choose|k: int| 0 <= k < before.len() && (#[trigger] before[k]).lng
                == old_b.min_lng;
            let k4 = choose|k: int| 0 <= k < before.len() && (#[trigger] before[k]).lng
                == old_b.max_lng;
            assert(after[k1].lat == old_b.min_lat);
            assert(after[k2].lat == old_b.max_lat);
            assert(after[k3].lng == old_b.min_lng);
            assert(after[k4].lng == old_b.max_lng);
            assert forall|k: int| 0 <= k < after.len() implies b.min_lat <= (
            #[trigger] after[k]).lat <= b.max_lat && b.min_lng <= after[k].lng <= b.max_lng by {
                if k < before.len() {
                    assert(after[k] == before[k]);
                }
            }
        }
        i = i + 1;
    }
    assert(nodes@.take(i as int) =~= nodes@);
    b
}

/// Whether a node lies in the outer band that takes the given percentage of the area on each
/// side. In an area without extent every node does.
pub open spec fn in_band(n: RoadNode, b: Bbox, percent: int) -> bool {
    let lat_band = larger((b.max_lat - b.min_lat) * percent, 1);
    let lng_band = larger((b.max_lng - b.min_lng) * percent, 1);
    ||| (n.lat - b.min_lat) * 100 < lat_band
    ||| (b.max_lat - n.lat) * 100 < lat_band
    ||| (n.lng - b.min_lng) * 100 < lng_band
    ||| (b.max_lng - n.lng) * 100 < lng_band
}

/// The places of the nodes in the outer band, in order.
pub open spec fn band_places(nodes: Seq<RoadNode>, b: Bbox, percent: int) -> Seq<usize>
    decreases nodes.len(),
{
    if nodes.len() == 0 {
        Seq::empty()
    } else {
        let before = band_places(nodes.drop_last(), b, percent);
        if in_band(nodes.last(), b, percent) {
            before.push((nodes.len() - 1) as usize)
        } else {
            before
        }
    }
}

/// Listed places exist.
proof fn lemma_band_places(nodes: Seq<RoadNode>, b: Bbox, percent: int)
    requires
        nodes.len() <= usize::MAX,
    ensures
        forall|k: int|
            0 <= k < band_places(nodes, b, percent).len() ==> #[trigger] band_places(
                nodes,
                b,
                percent,
            )[k] < nodes.len(),
    decreases nodes.len(),
{
    if nodes.len() > 0 {
        lemma_band_places(nodes.drop_last(), b, percent);
        let before = band_places(nodes.drop_last(), b, percent);
        assert forall|k: int| 0 <= k < band_places(nodes, b, percent).len() implies
            #[trigger] band_places(nodes, b, percent)[k] < nodes.len() by {
            if k < before.len() {
                assert(band_places(nodes, b, percent)[k] == before[k]);
            }
        }
    }
}

/// An extent times a percentage fits into 128 bits.
proof fn lemma_extent_fits(extent: int, percent: int)
    requires
        -0x1_0000_0000_0000_0000 <= extent <= 0x1_0000_0000_0000_0000,
        0 <= percent <= 0xffff_ffff,
    ensures
        i128::MIN <= extent * percent <= i128::MAX,
{
    assert(-0x1_0000_0000_0000_0000 * 0xffff_ffff <= extent * percent <= 0x1_0000_0000_0000_0000
        * 0xffff_ffff) by (nonlinear_arith)
        requires
            -0x1_0000_0000_0000_0000 <= extent <= 0x1_0000_0000_0000_0000,
            0 <= percent <= 0xffff_ffff,
    ;
}

/// The places of the nodes in the outer band, in order.
pub fn node_indices_in_bbox_margin(nodes: &Vec<RoadNode>, bbox: &Bbox, percent: u32) -> (r: Vec<
    usize,
>)
    ensures
        r@ == band_places(nodes@, *bbox, percent as int),
{
    let p: i128 = percent as i128;
    proof {
        lemma_extent_fits(bbox.max_lat - bbox.min_lat, percent as int);
        lemma_extent_fits(bbox.max_lng - bbox.min_lng, percent as int);
    }
    let lat_raw: i128 = (bbox.max_lat as i128 - bbox.min_lat as i128) * p;
    let lng_raw: i128 = (bbox.max_lng as i128 - bbox.min_lng as i128) * p;
    let lat_band: i128 = if lat_raw >= 1 {
        lat_raw
    } else {
        1
    };
    let lng_band: i128 = if lng_raw >= 1 {
        lng_raw
    } else {
        1
    };
    let mut out: Vec<usize> = Vec::new();
    let mut i: usize = 0;
    assert(nodes@.take(0) =~= Seq::<RoadNode>::empty());
    while i < nodes.len()
        invariant
            i <= nodes.len(),
            lat_band == larger((bbox.max_lat - bbox.min_lat) * percent, 1),
            lng_band == larger((bbox.max_lng - bbox.min_lng) * percent, 1),
            out@ == band_places(nodes@.take(i as int), *bbox, percent as int),
        decreases nodes.len() - i,
    {
        assert(nodes@.take(i + 1).drop_last() =~= nodes@.take(i as int));
        assert(nodes@.take(i + 1).last() == nodes@[i as int]);
        let n: RoadNode = nodes[i];
        if (n.lat as i128 - bbox.min_lat as i128) * 100 < lat_band || (bbox.max_lat as i128
            - n.lat as i128) * 100 < lat_band || (n.lng as i128 - bbox.min_lng as i128) * 100
            < lng_band || (bbox.max_lng as i128 - n.lng as i128) * 100 < lng_band {
            out.push(i);
        }
        i = i + 1;
    }
    assert(nodes@.take(i as int) =~= nodes@);
    out
}

/// How many edges leave or enter a node.
pub open spec fn degree(graph: Topology, n: int) -> nat {
    graph.out_edges(n).len() + graph.in_edges(n).len()
}

/// How many edges leave or enter a node.
pub fn road_graph_node_degree(graph: &Topology, n: usize) -> (r: usize)
    requires
        graph.wf(),
        n < graph.nodes(),
        degree(*graph, n as int) <= usize::MAX,
    ensures
        r == degree(*graph, n as int),
{
    let outs: Vec<usize> = graph.outgoing(n);
    let ins: Vec<usize> = graph.incoming(n);
    assert(outs@.map_values(|e: usize| e as int).len() == outs@.len());
    assert(ins@.map_values(|e: usize| e as int).len() == ins@.len());
    outs.len() + ins.len()
}

/// The first `n` nodes that have a single edge.
pub open spec fn leaf_places(graph: Topology, n: int) -> Seq<usize>
    decreases n,
{
    if n <= 0 {
        Seq::empty()
    } else {
        let before = leaf_places(graph, n - 1);
        if degree(graph, n - 1) == 1 {
            before.push((n - 1) as usize)
        } else {
            before
        }
    }
}

proof fn lemma_leaf_places(graph: Topology, n: int)
    requires
        n <= usize::MAX,
    ensures
        forall|k: int|
            0 <= k < leaf_places(graph, n).len() ==> #[trigger] leaf_places(graph, n)[k] < n,
    decreases n,
{
    if n > 0 {
        lemma_leaf_places(graph, n - 1);
        let before = leaf_places(graph, n - 1);
        assert forall|k: int| 0 <= k < leaf_places(graph, n).len() implies #[trigger] leaf_places(
            graph,
            n,
        )[k] < n by {
            if k < before.len() {
                assert(leaf_places(graph, n)[k] == before[k]);
            }
        }
    }
}

fn find_leaves(graph: &Topology) -> (r: Vec<usize>)
    requires
        graph.wf(),
    ensures
        r@ == leaf_places(*graph, graph.nodes() as int),
{
    let mut out: Vec<usize> = Vec::new();
    let mut i: usize = 0;
    while i < graph.node_count()
        invariant
            graph.wf(),
            i <= graph.nodes(),
            out@ == leaf_places(*graph, i as int),
        decreases graph.nodes() - i,
    {
        let outs: Vec<usize> = graph.outgoing(i);
        let ins: Vec<usize> = graph.incoming(i);
        assert(outs@.map_values(|e: usize| e as int).len() == outs@.len());
        assert(ins@.map_values(|e: usize| e as int).len() == ins@.len());
        if (outs.len() == 1 && ins.len() == 0) || (outs.len() == 0 && ins.len() == 1) {
            out.push(i);
        }
        i = i + 1;
    }
    out
}

/// The first `n` places.
pub open spec fn all_places(n: nat) -> Seq<usize> {
    Seq::new(n, |i: int| i as usize)
}

fn list_places(n: usize) -> (r: Vec<usize>)
    ensures
        r@ == all_places(n as nat),
{
    let mut out: Vec<usize> = Vec::new();
    let mut i: usize = 0;
    while i < n
        invariant
            i <= n,
            out@ == all_places(i as nat),
        decreases n - i,
    {
        out.push(i);
        i = i + 1;
        assert(out@ =~= all_places(i as nat));
    }
    out
}

/// The nodes at which trips may start: an outer band of the map, widened step by step until
/// it holds four nodes; failing that the ends of dead-end streets, and failing that all nodes.
pub open spec fn spawn_places(graph: Topology, nodes: Seq<RoadNode>, b: Bbox) -> Seq<usize> {
    let leaves = leaf_places(graph, graph.nodes() as int);
    if band_places(nodes, b, 5).len() >= 4 {
        band_places(nodes, b, 5)
    } else if band_places(nodes, b, 8).len() >= 4 {
        band_places(nodes, b, 8)
    } else if band_places(nodes, b, 12).len() >= 4 {
        band_places(nodes, b, 12)
    } else if band_places(nodes, b, 18).len() >= 4 {
        band_places(nodes, b, 18)
    } else if band_places(nodes, b, 26).len() >= 4 {
        band_places(nodes, b, 26)
    } else if band_places(nodes, b, 35).len() >= 4 {
        band_places(nodes, b, 35)
    } else if leaves.len() >= 4 {
        leaves
    } else {
        all_places(graph.nodes())
    }
}

/// The nodes at which trips may start.
pub fn find_spawn_points(graph: &Topology, nodes: &Vec<RoadNode>, bbox: &Bbox) -> (r: Vec<usize>)
    requires
        graph.wf(),
        nodes@.len() == graph.nodes(),
    ensures
        r@ == spawn_places(*graph, nodes@, *bbox),
        forall|k: int| 0 <= k < r@.len() ==> #[trigger] r@[k] < nodes@.len(),
{
    proof {
        assert(nodes.len() == nodes@.len());
        lemma_band_places(nodes@, *bbox, 5);
        lemma_band_places(nodes@, *bbox, 8);
        lemma_band_places(nodes@, *bbox, 12);
        lemma_band_places(nodes@, *bbox, 18);
        lemma_band_places(nodes@, *bbox, 26);
        lemma_band_places(nodes@, *bbox, 35);
        lemma_leaf_places(*graph, graph.nodes() as int);
    }
    let p5: Vec<usize> = node_indices_in_bbox_margin(nodes, bbox, 5);
    if p5.len() >= 4 {
        return p5;
    }
    let p8: Vec<usize> = node_indices_in_bbox_margin(nodes, bbox, 8);
    if p8.len() >= 4 {
        return p8;
    }
    let p12: Vec<usize> = node_indices_in_bbox_margin(nodes, bbox, 12);
    if p12.len() >= 4 {
        return p12;
    }
    let p18: Vec<usize> = node_indices_in_bbox_margin(nodes, bbox, 18);
    if p18.len() >= 4 {
        return p18;
    }
    let p26: Vec<usize> = node_indices_in_bbox_margin(nodes, bbox, 26);
    if p26.len() >= 4 {
        return p26;
    }
    let p35: Vec<usize> = node_indices_in_bbox_margin(nodes, bbox, 35);
    if p35.len() >= 4 {
        return p35;
    }
    let leaves: Vec<usize> = find_leaves(graph);
    if leaves.len() >= 4 {
        return leaves;
    }
    list_places(graph.node_count())
}

/// The nodes between which through traffic runs: a narrow outer band, widened step by step
/// until it holds two nodes; failing that the ends of dead-end streets, and failing that the
/// first four nodes.
pub open spec fn boundary_places(graph: Topology, nodes: Seq<RoadNode>, b: Bbox) -> Seq<usize> {
    let leaves = leaf_places(graph, graph.nodes() as int);
    if band_places(nodes, b, 3).len() >= 2 {
        band_places(nodes, b, 3)
    } else if band_places(nodes, b, 6).len() >= 2 {
        band_places(nodes, b, 6)
    } else if band_places(nodes, b, 10).len() >= 2 {
        band_places(nodes, b, 10)
    } else if band_places(nodes, b, 15).len() >= 2 {
        band_places(nodes, b, 15)
    } else if band_places(nodes, b, 22).len() >= 2 {
        band_places(nodes, b, 22)
    } else if leaves.len() >= 2 {
        leaves
    } else {
        all_places(crate::units::smaller(graph.nodes() as int, 4) as nat)
    }
}

/// The nodes between which through traffic runs.
pub fn find_boundary_nodes(graph: &Topology, nodes: &Vec<RoadNode>, bbox: &Bbox) -> (r: Vec<usize>)
    requires
        graph.wf(),
        nodes@.len() == graph.nodes(),
    ensures
        r@ == boundary_places(*graph, nodes@, *bbox),
        forall|k: int| 0 <= k < r@.len() ==> #[trigger] r@[k] < nodes@.len(),
{
    proof {
        assert(nodes.len() == nodes@.len());
        lemma_band_places(nodes@, *bbox, 3);
        lemma_band_places(nodes@, *bbox, 6);
        lemma_band_places(nodes@, *bbox, 10);
        lemma_band_places(nodes@, *bbox, 15);
        lemma_band_places(nodes@, *bbox, 22);
        lemma_leaf_places(*graph, graph.nodes() as int);
    }
    let p3: Vec<usize> = node_indices_in_bbox_margin(nodes, bbox, 3);
    if p3.len() >= 2 {
        return p3;
    }
    let p6: Vec<usize> = node_indices_in_bbox_margin(nodes, bbox, 6);
    if p6.len() >= 2 {
        return p6;
    }
    let p10: Vec<usize> = node_indices_in_bbox_margin(nodes, bbox, 10);
    if p10.len() >= 2 {
        return p10;
    }
    let p15: Vec<usize> = node_indices_in_bbox_margin(nodes, bbox, 15);
    if p15.len() >= 2 {
        return p15;
    }
    let p22: Vec<usize> = node_indices_in_bbox_margin(nodes, bbox, 22);
    if p22.len() >= 2 {
        return p22;
    }
    let leaves: Vec<usize> = find_leaves(graph);
    if leaves.len() >= 2 {
        return leaves;
    }
    let n: usize = graph.node_count();
    list_places(
        if n <= 4 {
            n
        } else {
            4
        },
    )
}

/// The index of the node ids.
pub fn index_nodes(nodes: &Vec<RoadNode>) -> (r: IdIndex)
    requires
        nodes@.map_values(|n: RoadNode| n.osm_id).no_duplicates(),
    ensures
        r.wf(),
        r@ == nodes@.map_values(|n: RoadNode| n.osm_id),
{
    let ghost ids = nodes@.map_values(|n: RoadNode| n.osm_id);
    let mut index: IdIndex = IdIndex::new();
    let mut i: usize = 0;
    assert(ids.take(0) =~= Seq::<u64>::empty());
    while i < nodes.len()
        invariant
            i <= nodes.len(),
            ids == nodes@.map_values(|n: RoadNode| n.osm_id),
            ids.no_duplicates(),
            index.wf(),
            index@ == ids.take(i as int),
        decreases nodes.len() - i,
    {
        let id: u64 = nodes[i].osm_id;
        proof {
            assert(ids[i as int] == id);
            if index@.contains(id) {
                let k = choose|k: int| 0 <= k < index@.len() && index@[k] == id;
                assert(ids[k] == ids[i as int]);
            }
        }
        index.push(id);
        i = i + 1;
        assert(index@ =~= ids.take(i as int));
    }
    assert(ids.take(i as int) =~= ids);
    index
}

/// Puts a map together from its records and lays out its lanes.
pub fn assemble(
    nodes: Vec<RoadNode>,
    ends: &Vec<(usize, usize)>,
    edges: Vec<RoadEdge>,
    spawn_points: Vec<usize>,
    boundary_nodes: Vec<usize>,
    is_sandbox: bool,
    lane_width: i64,
) -> (r: MapData)
    requires
        nodes@.len() <= u32::MAX,
        ends@.len() <= u32::MAX,
        ends@.len() == edges@.len(),
        nodes@.map_values(|n: RoadNode| n.osm_id).no_duplicates(),
        forall|i: int|
            0 <= i < ends@.len() ==> (#[trigger] ends@[i]).0 < nodes@.len() && ends@[i].1
                < nodes@.len(),
        forall|i: int|
            0 <= i < spawn_points@.len() ==> #[trigger] spawn_points@[i] < nodes@.len(),
        forall|i: int|
            0 <= i < boundary_nodes@.len() ==> #[trigger] boundary_nodes@[i] < nodes@.len(),
        lanes_before(edges@, edges@.len() as int) <= MAX_ROAD_LANES,
    ensures
        r.wf(),
        r.nodes == nodes,
        r.edges == edges,
        r.graph.ends() == ends@.map_values(|p: (usize, usize)| (p.0 as int, p.1 as int)),
        r.graph.built_in_order(),
        bounds(nodes@, r.bbox),
        r.spawn_points == spawn_points,
        r.boundary_nodes == boundary_nodes,
        r.od_buildings@.len() == 0,
        r.restrictions@.len() == 0,
        r.tram_data.graph.nodes() == 0,
        r.is_sandbox == is_sandbox,
        !r.sandbox_simple_cross_tl,
        r.lane_width == lane_width,
        r.turn_connectors@.len() == 0,
        r.lanes.connected_up_to(r.graph, nodes@, edges@, lane_width, edges@.len() as int, 0),
        r.conflict_areas@.len() == 0,
{
    let graph: Topology = Topology::from_edges(nodes.len(), ends);
    let node_index_map: IdIndex = index_nodes(&nodes);
    let bbox: Bbox = compute_bbox(&nodes);
    let lanes: LaneGraph = populate_lane_graph(&graph, &nodes, &edges, lane_width);
    MapData {
        graph,
        nodes,
        edges,
        node_index_map,
        bbox,
        spawn_points,
        boundary_nodes,
        od_buildings: Vec::new(),
        restrictions: Vec::new(),
        tram_data: TramData::empty(),
        is_sandbox,
        sandbox_simple_cross_tl: false,
        lane_width,
        turn_connectors: Vec::new(),
        lanes,
        conflict_areas: Vec::new(),
    }
}

impl MapData {
    /// Sets the measured length of a segment and the decision points along it.
    pub fn set_edge_length(&mut self, e: usize, length: i64)
        requires
            old(self).wf(),
            e < old(self).edges@.len(),
        ensures
            final(self).wf(),
            final(self).same_but_edges(old(self)),
            final(self).edges@.len() == old(self).edges@.len(),
            forall|i: int|
                0 <= i < old(self).edges@.len() && i != e ==> #[trigger] final(self).edges@[i]
                    == old(self).edges@[i],
            final(self).edges@[e as int]@ == measured(old(self).edges@[e as int]@, length),
    {
        let points: (i64, i64, i64) = decision_points(length);
        self.edges[e].length = length;
        self.edges[e].decision_points = points;
    }

    /// Both maps agree in everything but the road segments.
    pub open spec fn same_but_edges(&self, other: &MapData) -> bool {
        &&& self.graph == other.graph
        &&& self.nodes == other.nodes
        &&& self.node_index_map == other.node_index_map
        &&& self.bbox == other.bbox
        &&& self.spawn_points == other.spawn_points
        &&& self.boundary_nodes == other.boundary_nodes
        &&& self.od_buildings == other.od_buildings
        &&& self.restrictions == other.restrictions
        &&& self.tram_data == other.tram_data
        &&& self.is_sandbox == other.is_sandbox
        &&& self.sandbox_simple_cross_tl == other.sandbox_simple_cross_tl
        &&& self.lane_width == other.lane_width
        &&& self.turn_connectors == other.turn_connectors
        &&& self.lanes == other.lanes
        &&& self.conflict_areas == other.conflict_areas
    }
}

/// A segment with its length and decision points set.
pub open spec fn measured(e: RoadEdgeView, length: i64) -> RoadEdgeView {
    let p = decision_points_at(length as int);
    RoadEdgeView { length, decision_points: (p.0 as i64, p.1 as i64, p.2 as i64), ..e }
}

/// The outer band holds exactly the nodes that lie in it.
pub proof fn law_band_complete(nodes: Seq<RoadNode>, b: Bbox, percent: int, x: usize)
    requires
        nodes.len() <= usize::MAX,
    ensures
        band_places(nodes, b, percent).contains(x) <==> x < nodes.len() && in_band(
            nodes[x as int],
            b,
            percent,
        ),
    decreases nodes.len(),
{
    if nodes.len() > 0 {
        let front = nodes.drop_last();
        law_band_complete(front, b, percent, x);
        let before = band_places(front, b, percent);
        let now = band_places(nodes, b, percent);
        if x < front.len() {
            assert(front[x as int] == nodes[x as int]);
        }
        if before.contains(x) {
            let i = choose|i: int| 0 <= i < before.len() && before[i] == x;
            assert(now[i] == x);
        }
        if in_band(nodes.last(), b, percent) {
            assert(now[before.len() as int] == (nodes.len() - 1) as usize);
        }
        if now.contains(x) {
            let i = choose|i: int| 0 <= i < now.len() && now[i] == x;
            if i < before.len() {
                assert(before[i] == x);
            }
        }
    }
}

/// A node on the edge of an area lies in its outer band, and one in its middle does not as long as the
/// band takes less than half on each side; a wider band holds all that a narrower one does.
pub proof fn law_outer_band(n: RoadNode, b: Bbox, percent: int, wider: int)
    requires
        b.min_lat < b.max_lat,
        b.min_lng < b.max_lng,
        0 < percent <= wider < 50,
    ensures
        n.lat == b.min_lat || n.lat == b.max_lat || n.lng == b.min_lng || n.lng == b.max_lng
            ==> in_band(n, b, percent),
        2 * n.lat == b.min_lat + b.max_lat && 2 * n.lng == b.min_lng + b.max_lng ==> !in_band(
            n,
            b,
            percent,
        ),
        in_band(n, b, percent) ==> in_band(n, b, wider),
{
    let (h, w) = (b.max_lat - b.min_lat, b.max_lng - b.min_lng);
    assert(0 < h * percent <= h * wider < h * 50 && 0 < w * percent <= w * wider < w * 50)
        by (nonlinear_arith)
        requires
            0 < h,
            0 < w,
            0 < percent <= wider < 50,
    ;
}

/// Dead ends are exactly the nodes with a single edge.
pub proof fn law_leaves_complete(graph: Topology, n: int, x: usize)
    requires
        0 <= n <= usize::MAX,
    ensures
        leaf_places(graph, n).contains(x) <==> x < n && degree(graph, x as int) == 1,
    decreases n,
{
    if n > 0 {
        law_leaves_complete(graph, n - 1, x);
        let before = leaf_places(graph, n - 1);
        let now = leaf_places(graph, n);
        if before.contains(x) {
            let i = choose|i: int| 0 <= i < before.len() && before[i] == x;
            assert(now[i] == x);
        }
        if degree(graph, n - 1) == 1 {
            assert(now[before.len() as int] == (n - 1) as usize);
        }
        if now.contains(x) {
            let i = choose|i: int| 0 <= i < now.len() && now[i] == x;
            if i < before.len() {
                assert(before[i] == x);
            }
        }
    }
}

/// Trips start in the narrowest of the outer bands that holds four nodes, and through traffic runs
/// between those of the narrowest that holds two; where no band does, there are still as many nodes as
/// the map can give.
pub proof fn law_enough_places(graph: Topology, nodes: Seq<RoadNode>, b: Bbox)
    requires
        nodes.len() == graph.nodes(),
    ensures
        spawn_places(graph, nodes, b).len() >= 4 || spawn_places(graph, nodes, b).len()
            == graph.nodes(),
        boundary_places(graph, nodes, b).len() >= 2 || boundary_places(graph, nodes, b).len()
            == graph.nodes(),
        band_places(nodes, b, 5).len() >= 4 ==> spawn_places(graph, nodes, b) == band_places(
            nodes,
            b,
            5,
        ),
        band_places(nodes, b, 3).len() >= 2 ==> boundary_places(graph, nodes, b) == band_places(
            nodes,
            b,
            3,
        ),
{
}

/// Of the outer bands for trips the narrowest one with four nodes counts.
pub proof fn law_narrowest_band_counts(graph: Topology, nodes: Seq<RoadNode>, b: Bbox, p: int)
    requires
        p == 5 || p == 8 || p == 12 || p == 18 || p == 26 || p == 35,
        p > 5 ==> band_places(nodes, b, 5).len() < 4,
        p > 8 ==> band_places(nodes, b, 8).len() < 4,
        p > 12 ==> band_places(nodes, b, 12).len() < 4,
        p > 18 ==> band_places(nodes, b, 18).len() < 4,
        p > 26 ==> band_places(nodes, b, 26).len() < 4,
        band_places(nodes, b, p).len() >= 4,
    ensures
        spawn_places(graph, nodes, b) == band_places(nodes, b, p),
{
}

/// Of the outer bands for through traffic the narrowest one with two nodes counts.
pub proof fn law_narrowest_boundary_counts(graph: Topology, nodes: Seq<RoadNode>, b: Bbox, p: int)
    requires
        p == 3 || p == 6 || p == 10 || p == 15 || p == 22,
        p > 3 ==> band_places(nodes, b, 3).len() < 2,
        p > 6 ==> band_places(nodes, b, 6).len() < 2,
        p > 10 ==> band_places(nodes, b, 10).len() < 2,
        p > 15 ==> band_places(nodes, b, 15).len() < 2,
        band_places(nodes, b, p).len() >= 2,
    ensures
        boundary_places(graph, nodes, b) == band_places(nodes, b, p),
{
}

} // verus!
