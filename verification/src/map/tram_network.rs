//! Tram tracks, stops and lines.

use vstd::prelude::*;
use vstd::string::*;

use crate::map::building::{find_node, node_with_id};
use crate::map::id_index::{add_known, add_known_ids, find_place, place_of, IdIndex};
use crate::map::osm::{
    tag_is, tag_is_value, tag_of, tag_value, OsmData, OsmMember, OsmNode, OsmRelation, OsmWay,
};
use crate::map::topology::Topology;
use crate::util::text::{decimal_text, push_decimal, text_eq};

verus! {

/// Whether a track has its own right of way.
#[derive(Clone, Copy, Debug, PartialEq, Eq, Structural)]
pub enum TramTrackType {
    Dedicated,
    SharedWithRoad,
}

/// Usual time that a tram spends at a stop.
pub const STOP_DWELL: i64 = 30_000_000;

/// Usual track speed: 40 km/h.
pub const TRACK_SPEED: i64 = 11_111_111;

/// A point of the tram network.
#[derive(Clone, Copy, Debug)]
pub struct TramNode {
    pub id: u64,
    pub lat: i64,
    pub lng: i64,
    pub is_stop: bool,
    pub stop_dwell: i64,
}

/// A track segment; its length is measured once the network stands.
#[derive(Clone, Copy, Debug)]
pub struct TramEdge {
    pub osm_id: u64,
    pub length: i64,
    pub max_speed: i64,
    pub track_type: TramTrackType,
}

/// A tram line: its name and the stops it serves, in order.
pub struct TramLine {
    pub line_ref: String,
    pub stop_sequence: Vec<usize>,
}

/// The tram network of the loaded area.
pub struct TramData {
    pub graph: Topology,
    pub nodes: Vec<TramNode>,
    pub edges: Vec<TramEdge>,
    pub node_index_map: IdIndex,
    pub stops: Vec<usize>,
    pub lines: Vec<TramLine>,
}

/// Whether a map node is a tram stop.
pub open spec fn is_stop_node(n: OsmNode) -> bool {
    tag_is_value(n.tags@, "railway"@, "tram_stop"@)
}

/// The loaded nodes on the given ways, in the order of their first mention.
pub open spec fn way_node_ids(nodes: Seq<OsmNode>, ways: Seq<OsmWay>) -> Seq<u64>
    decreases ways.len(),
{
    if ways.len() == 0 {
        Seq::empty()
    } else {
        add_known(
            nodes,
            way_node_ids(nodes, ways.drop_last()),
            ways.last().node_refs@,
        )
    }
}

/// The ids of the stops among the nodes, in node order.
pub open spec fn stop_ids(nodes: Seq<OsmNode>) -> Seq<u64>
    decreases nodes.len(),
{
    if nodes.len() == 0 {
        Seq::empty()
    } else {
        let before = stop_ids(nodes.drop_last());
        if is_stop_node(nodes.last()) {
            before.push(nodes.last().id)
        } else {
            before
        }
    }
}

/// The nodes of the tram network: those on tracks, and every stop.
pub open spec fn tram_node_ids(nodes: Seq<OsmNode>, tram_ways: Seq<OsmWay>) -> Seq<u64> {
    add_known(nodes, way_node_ids(nodes, tram_ways), stop_ids(nodes))
}

/// The tram node for a map node.
pub open spec fn tram_node_of(n: OsmNode) -> TramNode {
    TramNode {
        id: n.id,
        lat: n.lat,
        lng: n.lng,
        is_stop: is_stop_node(n),
        stop_dwell: STOP_DWELL,
    }
}

/// Whether a tram node stands for the loaded node with its id.
pub open spec fn stands_for(nodes: Seq<OsmNode>, t: TramNode) -> bool {
    match node_with_id(nodes, t.id) {
        Some(n) => t == tram_node_of(n),
        None => false,
    }
}

/// The places of the stops among the first `n` tram nodes.
pub open spec fn stop_places(nodes: Seq<TramNode>) -> Seq<usize>
    decreases nodes.len(),
{
    if nodes.len() == 0 {
        Seq::empty()
    } else {
        let before = stop_places(nodes.drop_last());
        if nodes.last().is_stop {
            before.push((nodes.len() - 1) as usize)
        } else {
            before
        }
    }
}

/// How many of the ids belong to road nodes.
pub open spec fn road_hits(ids: Seq<u64>, road_ids: Seq<u64>) -> nat
    decreases ids.len(),
{
    if ids.len() == 0 {
        0
    } else {
        road_hits(ids.drop_last(), road_ids) + (if road_ids.contains(ids.last()) {
            1nat
        } else {
            0nat
        })
    }
}

/// A track shares the road where at least two of its nodes are road nodes.
pub open spec fn track_type_of(way: OsmWay, road_ids: Seq<u64>) -> TramTrackType {
    if road_hits(way.node_refs@, road_ids) >= 2 {
        TramTrackType::SharedWithRoad
    } else {
        TramTrackType::Dedicated
    }
}

/// A track segment between two places.
pub struct TrackPlan {
    pub from: int,
    pub to: int,
    pub edge: TramEdge,
}

/// `acc` with the segments between consecutive known nodes of a way added.
pub open spec fn add_tracks(
    acc: Seq<TrackPlan>,
    ids: Seq<u64>,
    refs: Seq<u64>,
    edge: TramEdge,
) -> Seq<TrackPlan>
    decreases refs.len(),
{
    if refs.len() < 2 {
        acc
    } else {
        let before = add_tracks(acc, ids, refs.drop_last(), edge);
        let a = refs[refs.len() - 2];
        let b = refs[refs.len() - 1];
        if ids.contains(a) && ids.contains(b) {
            before.push(TrackPlan { from: place_of(ids, a), to: place_of(ids, b), edge })
        } else {
            before
        }
    }
}

/// The segment record for a way.
pub open spec fn track_of(way: OsmWay, road_ids: Seq<u64>) -> TramEdge {
    TramEdge {
        osm_id: way.id,
        length: 0,
        max_speed: TRACK_SPEED,
        track_type: track_type_of(way, road_ids),
    }
}

/// The segments of all ways.
pub open spec fn tracks_of(ids: Seq<u64>, ways: Seq<OsmWay>, road_ids: Seq<u64>) -> Seq<TrackPlan>
    decreases ways.len(),
{
    if ways.len() == 0 {
        Seq::empty()
    } else {
        add_tracks(
            tracks_of(ids, ways.drop_last(), road_ids),
            ids,
            ways.last().node_refs@,
            track_of(ways.last(), road_ids),
        )
    }
}

/// Whether a relation member is a stop of a tram route.
pub open spec fn is_stop_member(m: OsmMember) -> bool {
    m.member_type@ == "node"@ && (m.role@ == "stop"@ || m.role@ == "stop_entry_only"@ || m.role@
        == "stop_exit_only"@)
}

/// The places of the known stops among the members, in member order.
pub open spec fn stops_of(ids: Seq<u64>, members: Seq<OsmMember>) -> Seq<usize>
    decreases members.len(),
{
    if members.len() == 0 {
        Seq::empty()
    } else {
        let before = stops_of(ids, members.drop_last());
        if is_stop_member(members.last()) && ids.contains(members.last().ref_id) {
            before.push(place_of(ids, members.last().ref_id) as usize)
        } else {
            before
        }
    }
}

/// The name of a line: its `ref` tag, else its `name` tag, else its id.
pub open spec fn line_name(rel: OsmRelation) -> Seq<char> {
    match tag_value(rel.tags@, "ref"@) {
        Some(s) => s,
        None => match tag_value(rel.tags@, "name"@) {
            Some(s) => s,
            None => decimal_text(rel.id as nat),
        },
    }
}

/// The line that a relation describes: a tram route with at least two known stops.
pub open spec fn line_of(ids: Seq<u64>, rel: OsmRelation) -> Option<(Seq<char>, Seq<usize>)> {
    let stops = stops_of(ids, rel.members@);
    if tag_is_value(rel.tags@, "route"@, "tram"@) && stops.len() >= 2 {
        Some((line_name(rel), stops))
    } else {
        None
    }
}

/// The lines among the relations, in their order.
pub open spec fn lines_of(ids: Seq<u64>, relations: Seq<OsmRelation>) -> Seq<
    (Seq<char>, Seq<usize>),
>
    decreases relations.len(),
{
    if relations.len() == 0 {
        Seq::empty()
    } else {
        let before = lines_of(ids, relations.drop_last());
        match line_of(ids, relations.last()) {
            Some(l) => before.push(l),
            None => before,
        }
    }
}

impl TramData {
    /// Records and graph agree, and the index lists the node ids.
    pub open spec fn wf(&self) -> bool {
        &&& self.graph.wf()
        &&& self.node_index_map.wf()
        &&& self.nodes@.len() == self.graph.nodes()
        &&& self.edges@.len() == self.graph.ends().len()
        &&& self.node_index_map@ == self.nodes@.map_values(|n: TramNode| n.id)
    }

    /// A network without tracks.
    pub fn empty() -> (r: TramData)
        ensures
            r.wf(),
            r.graph.nodes() == 0,
            r.stops@.len() == 0,
            r.lines@.len() == 0,
    {
        let r: TramData = TramData {
            graph: Topology::new(),
            nodes: Vec::new(),
            edges: Vec::new(),
            node_index_map: IdIndex::new(),
            stops: Vec::new(),
            lines: Vec::new(),
        };
        assert(r.node_index_map@ =~= r.nodes@.map_values(|n: TramNode| n.id));
        r
    }

    /// Whether the area has no tram network.
    pub fn is_empty(&self) -> (r: bool)
        ensures
            r == (self.graph.nodes() == 0),
    {
        self.graph.node_count() == 0
    }

    /// Sets the measured lengths of the track segments.
    pub fn set_lengths(&mut self, lengths: &Vec<i64>)
        requires
            old(self).wf(),
            lengths@.len() == old(self).edges@.len(),
        ensures
            final(self).wf(),
            final(self).graph == old(self).graph,
            final(self).nodes == old(self).nodes,
            final(self).node_index_map == old(self).node_index_map,
            final(self).stops == old(self).stops,
            final(self).lines == old(self).lines,
            final(self).edges@ == old(self).edges@.map(
                |i: int, e: TramEdge| TramEdge { length: lengths@[i], ..e },
            ),
    {
        let ghost goal = old(self).edges@.map(
            |i: int, e: TramEdge| TramEdge { length: lengths@[i], ..e },
        );
        let mut i: usize = 0;
        while i < self.edges.len()
            invariant
                i <= self.edges.len(),
                lengths@.len() == self.edges@.len(),
                self.edges@.len() == goal.len(),
                goal == old(self).edges@.map(
                    |i: int, e: TramEdge| TramEdge { length: lengths@[i], ..e },
                ),
                self.graph == old(self).graph,
                self.nodes == old(self).nodes,
                self.node_index_map == old(self).node_index_map,
                self.stops == old(self).stops,
                self.lines == old(self).lines,
                forall|k: int| 0 <= k < i ==> #[trigger] self.edges@[k] == goal[k],
                forall|k: int|
                    i <= k < self.edges@.len() ==> #[trigger] self.edges@[k]
                        == old(self).edges@[k],
            decreases self.edges.len() - i,
        {
            let e: TramEdge = self.edges[i];
            self.edges.set(
                i,
                TramEdge {
                    osm_id: e.osm_id,
                    length: lengths[i],
                    max_speed: e.max_speed,
                    track_type: e.track_type,
                },
            );
            i = i + 1;
        }
        assert(self.edges@ =~= goal);
    }
}

/// The ids of the stops among the loaded nodes.
fn collect_stop_ids(osm: &OsmData) -> (r: Vec<u64>)
    ensures
        r@ == stop_ids(osm.nodes.nodes()),
{
    let mut out: Vec<u64> = Vec::new();
    let ghost nodes = osm.nodes.nodes();
    let mut i: usize = 0;
    assert(nodes.take(0) =~= Seq::<OsmNode>::empty());
    while i < osm.nodes.len()
        invariant
            i <= nodes.len(),
            nodes == osm.nodes.nodes(),
            out@ == stop_ids(nodes.take(i as int)),
        decreases nodes.len() - i,
    {
        assert(nodes.take(i + 1).drop_last() =~= nodes.take(i as int));
        assert(nodes.take(i + 1).last() == nodes[i as int]);
        let n: &OsmNode = osm.nodes.at(i);
        if tag_is(&n.tags, "railway", "tram_stop") {
            out.push(n.id);
        }
        i = i + 1;
    }
    assert(nodes.take(i as int) =~= nodes);
    out
}

/// Lists the loaded nodes on the tracks and every stop.
fn collect_tram_nodes(osm: &OsmData) -> (index: IdIndex)
    requires
        osm.wf(),
    ensures
        index.wf(),
        index@ == tram_node_ids(osm.nodes.nodes(), osm.tram_ways@),
        forall|i: int|
            0 <= i < index@.len() ==> node_with_id(osm.nodes.nodes(), #[trigger] index@[i]) is Some,
{
    let mut index: IdIndex = IdIndex::new();
    let ways: &Vec<OsmWay> = &osm.tram_ways;
    let mut i: usize = 0;
    assert(ways@.take(0) =~= Seq::<OsmWay>::empty());
    while i < ways.len()
        invariant
            osm.wf(),
            ways == &osm.tram_ways,
            i <= ways.len(),
            index.wf(),
            index@ == way_node_ids(osm.nodes.nodes(), ways@.take(i as int)),
            forall|k: int|
                0 <= k < index@.len() ==> node_with_id(
                    osm.nodes.nodes(),
                    #[trigger] index@[k],
                ) is Some,
        decreases ways.len() - i,
    {
        assert(ways@.take(i + 1).drop_last() =~= ways@.take(i as int));
        assert(ways@.take(i + 1).last() == ways@[i as int]);
        add_known_ids(&mut index, &osm.nodes, &ways[i].node_refs);
        i = i + 1;
    }
    assert(ways@.take(i as int) =~= ways@);
    let stops: Vec<u64> = collect_stop_ids(osm);
    add_known_ids(&mut index, &osm.nodes, &stops);
    index
}

fn is_stop_role(m: &OsmMember) -> (r: bool)
    ensures
        r == is_stop_member(*m),
{
    text_eq(m.member_type.as_str(), "node") && (text_eq(m.role.as_str(), "stop") || text_eq(
        m.role.as_str(),
        "stop_entry_only",
    ) || text_eq(m.role.as_str(), "stop_exit_only"))
}

fn read_stops(index: &IdIndex, members: &Vec<OsmMember>) -> (r: Vec<usize>)
    requires
        index.wf(),
    ensures
        r@ == stops_of(index@, members@),
{
    let mut out: Vec<usize> = Vec::new();
    let mut i: usize = 0;
    assert(members@.take(0) =~= Seq::<OsmMember>::empty());
    while i < members.len()
        invariant
            index.wf(),
            i <= members.len(),
            out@ == stops_of(index@, members@.take(i as int)),
        decreases members.len() - i,
    {
        assert(members@.take(i + 1).drop_last() =~= members@.take(i as int));
        assert(members@.take(i + 1).last() == members@[i as int]);
        if is_stop_role(&members[i]) {
            match find_place(index, members[i].ref_id) {
                Some(p) => {
                    out.push(p);
                },
                None => {},
            }
        }
        i = i + 1;
    }
    assert(members@.take(i as int) =~= members@);
    out
}

fn read_line_name(rel: &OsmRelation) -> (r: String)
    ensures
        r@ == line_name(*rel),
{
    match tag_of(&rel.tags, "ref") {
        Some(s) => s.to_owned(),
        None => match tag_of(&rel.tags, "name") {
            Some(s) => s.to_owned(),
            None => {
                let mut out: String = String::new();
                push_decimal(&mut out, rel.id);
                assert(out@ =~= decimal_text(rel.id as nat));
                out
            },
        },
    }
}

/// What a line holds, as a value.
pub open spec fn line_value(l: TramLine) -> (Seq<char>, Seq<usize>) {
    (l.line_ref@, l.stop_sequence@)
}

fn read_lines(index: &IdIndex, relations: &Vec<OsmRelation>) -> (r: Vec<TramLine>)
    requires
        index.wf(),
    ensures
        r@.map_values(|l: TramLine| line_value(l)) == lines_of(index@, relations@),
{
    let mut out: Vec<TramLine> = Vec::new();
    let mut i: usize = 0;
    proof {
        assert(relations@.take(0) =~= Seq::<OsmRelation>::empty());
        assert(out@.map_values(|l: TramLine| line_value(l)) =~= lines_of(
            index@,
            relations@.take(0),
        ));
    }
    while i < relations.len()
        invariant
            index.wf(),
            i <= relations.len(),
            out@.map_values(|l: TramLine| line_value(l)) == lines_of(
                index@,
                relations@.take(i as int),
            ),
        decreases relations.len() - i,
    {
        let ghost before = out@;
        proof {
            assert(relations@.take(i + 1).drop_last() =~= relations@.take(i as int));
            assert(relations@.take(i + 1).last() == relations@[i as int]);
        }
        let rel: &OsmRelation = &relations[i];
        if tag_is(&rel.tags, "route", "tram") {
            let stop_sequence: Vec<usize> = read_stops(index, &rel.members);
            if stop_sequence.len() >= 2 {
                let line_ref: String = read_line_name(rel);
                out.push(TramLine { line_ref, stop_sequence });
                proof {
                    assert(out@.map_values(|l: TramLine| line_value(l)) =~= before.map_values(
                        |l: TramLine| line_value(l),
                    ).push(line_value(out@.last())));
                }
            }
        }
        i = i + 1;
    }
    assert(relations@.take(i as int) =~= relations@);
    out
}

fn count_road_hits(ids: &Vec<u64>, road_index: &IdIndex) -> (r: usize)
    requires
        road_index.wf(),
    ensures
        r == road_hits(ids@, road_index@),
{
    let mut n: usize = 0;
    let mut i: usize = 0;
    assert(ids@.take(0) =~= Seq::<u64>::empty());
    while i < ids.len()
        invariant
            road_index.wf(),
            i <= ids.len(),
            n <= i,
            n == road_hits(ids@.take(i as int), road_index@),
        decreases ids.len() - i,
    {
        assert(ids@.take(i + 1).drop_last() =~= ids@.take(i as int));
        assert(ids@.take(i + 1).last() == ids@[i as int]);
        match road_index.find(ids[i]) {
            Some(_) => {
                n = n + 1;
            },
            None => {},
        }
        i = i + 1;
    }
    assert(ids@.take(i as int) =~= ids@);
    n
}

/// A list of segment ends and records as one list of plans.
pub open spec fn as_plans(ends: Seq<(usize, usize)>, edges: Seq<TramEdge>) -> Seq<TrackPlan> {
    Seq::new(
        ends.len(),
        |i: int| TrackPlan { from: ends[i].0 as int, to: ends[i].1 as int, edge: edges[i] },
    )
}

fn add_way_tracks(
    index: &IdIndex,
    way: &OsmWay,
    edge: TramEdge,
    ends: &mut Vec<(usize, usize)>,
    edges: &mut Vec<TramEdge>,
)
    requires
        index.wf(),
        old(ends)@.len() == old(edges)@.len(),
        forall|i: int|
            0 <= i < old(ends)@.len() ==> (#[trigger] old(ends)@[i]).0 < index@.len()
                && old(ends)@[i].1 < index@.len(),
    ensures
        final(ends)@.len() == final(edges)@.len(),
        as_plans(final(ends)@, final(edges)@) == add_tracks(
            as_plans(old(ends)@, old(edges)@),
            index@,
            way.node_refs@,
            edge,
        ),
        forall|i: int|
            0 <= i < final(ends)@.len() ==> (#[trigger] final(ends)@[i]).0 < index@.len()
                && final(ends)@[i].1 < index@.len(),
{
    let refs: &Vec<u64> = &way.node_refs;
    let ghost start = as_plans(ends@, edges@);
    if refs.len() < 2 {
        return ;
    }
    let mut i: usize = 1;
    assert(refs@.take(1).len() == 1);
    while i < refs.len()
        invariant
            index.wf(),
            refs == &way.node_refs,
            1 <= i <= refs.len(),
            ends@.len() == edges@.len(),
            as_plans(ends@, edges@) == add_tracks(start, index@, refs@.take(i as int), edge),
            forall|k: int|
                0 <= k < ends@.len() ==> (#[trigger] ends@[k]).0 < index@.len() && ends@[k].1
                    < index@.len(),
        decreases refs.len() - i,
    {
        let ghost before = as_plans(ends@, edges@);
        proof {
            assert(refs@.take(i + 1).drop_last() =~= refs@.take(i as int));
            assert(refs@.take(i + 1)[i - 1] == refs@[i - 1]);
            assert(refs@.take(i + 1)[i as int] == refs@[i as int]);
        }
        match (find_place(index, refs[i - 1]), find_place(index, refs[i])) {
            (Some(a), Some(b)) => {
                ends.push((a, b));
                edges.push(edge);
                proof {
                    assert(as_plans(ends@, edges@) =~= before.push(
                        TrackPlan { from: a as int, to: b as int, edge },
                    ));
                }
            },
            _ => {},
        }
        i = i + 1;
    }
    assert(refs@.take(i as int) =~= refs@);
}

/// `r` is the tram network of the loaded elements beside a road network with the given nodes.
pub open spec fn is_tram_network(osm: OsmData, road_ids: Seq<u64>, r: TramData) -> bool {
    let plans = tracks_of(r.node_index_map@, osm.tram_ways@, road_ids);
    &&& r.wf()
    &&& r.node_index_map@ == tram_node_ids(osm.nodes.nodes(), osm.tram_ways@)
    &&& forall|i: int|
        0 <= i < r.nodes@.len() ==> stands_for(osm.nodes.nodes(), #[trigger] r.nodes@[i])
    &&& r.graph.ends() == plans.map_values(|p: TrackPlan| (p.from, p.to))
    &&& r.edges@ == plans.map_values(|p: TrackPlan| p.edge)
    &&& r.graph.built_in_order()
    &&& r.stops@ == stop_places(r.nodes@)
    &&& r.lines@.map_values(|l: TramLine| line_value(l)) == lines_of(
        r.node_index_map@,
        osm.relations@,
    )
}

/// Builds the tram network from the loaded elements. `road_index` lists the nodes of the road
/// network. Segment lengths are set once they are measured.
pub fn build_tram_network(osm: &OsmData, road_index: &IdIndex) -> (r: TramData)
    requires
        osm.wf(),
        road_index.wf(),
        tram_node_ids(osm.nodes.nodes(), osm.tram_ways@).len() <= u32::MAX,
        tracks_of(
            tram_node_ids(osm.nodes.nodes(), osm.tram_ways@),
            osm.tram_ways@,
            road_index@,
        ).len() <= u32::MAX,
    ensures
        is_tram_network(*osm, road_index@, r),
{
    let index: IdIndex = collect_tram_nodes(osm);
    let ghost table = osm.nodes.nodes();
    let mut nodes: Vec<TramNode> = Vec::new();
    let mut stops: Vec<usize> = Vec::new();
    let mut i: usize = 0;
    assert(nodes@.map_values(|n: TramNode| n.id) =~= index@.take(0));
    while i < index.len()
        invariant
            osm.wf(),
            table == osm.nodes.nodes(),
            index.wf(),
            forall|k: int|
                0 <= k < index@.len() ==> node_with_id(table, #[trigger] index@[k]) is Some,
            i <= index@.len(),
            nodes@.len() == i,
            nodes@.map_values(|n: TramNode| n.id) == index@.take(i as int),
            forall|k: int|
                0 <= k < i ==> stands_for(table, #[trigger] nodes@[k]),
            stops@ == stop_places(nodes@),
        decreases index@.len() - i,
    {
        let id: u64 = index.at(i);
        let ghost before = nodes@;
        match find_node(&osm.nodes, id) {
            Some(n) => {
                let is_stop: bool = tag_is(&n.tags, "railway", "tram_stop");
                proof {
                    lemma_found_id(table, id);
                }
                nodes.push(
                    TramNode { id, lat: n.lat, lng: n.lng, is_stop, stop_dwell: STOP_DWELL },
                );
                if is_stop {
                    stops.push(i);
                }
                proof {
                    assert(nodes@.drop_last() =~= before);
                    assert(nodes@.map_values(|n: TramNode| n.id) =~= index@.take(i + 1));
                    assert forall|k: int| 0 <= k < i + 1 implies stands_for(
                        table,
                        #[trigger] nodes@[k],
                    ) by {
                        if k < i {
                            assert(nodes@[k] == before[k]);
                        }
                    }
                }
            },
            None => {
                assert(node_with_id(table, index@[i as int]) is Some);
            },
        }
        i = i + 1;
    }
    assert(index@.take(i as int) =~= index@);
    let mut ends: Vec<(usize, usize)> = Vec::new();
    let mut edges: Vec<TramEdge> = Vec::new();
    let ways: &Vec<OsmWay> = &osm.tram_ways;
    let mut w: usize = 0;
    proof {
        assert(ways@.take(0) =~= Seq::<OsmWay>::empty());
        assert(as_plans(ends@, edges@) =~= Seq::<TrackPlan>::empty());
    }
    while w < ways.len()
        invariant
            index.wf(),
            road_index.wf(),
            ways == &osm.tram_ways,
            w <= ways.len(),
            ends@.len() == edges@.len(),
            as_plans(ends@, edges@) == tracks_of(index@, ways@.take(w as int), road_index@),
            forall|k: int|
                0 <= k < ends@.len() ==> (#[trigger] ends@[k]).0 < index@.len() && ends@[k].1
                    < index@.len(),
        decreases ways.len() - w,
    {
        proof {
            assert(ways@.take(w + 1).drop_last() =~= ways@.take(w as int));
            assert(ways@.take(w + 1).last() == ways@[w as int]);
        }
        let way: &OsmWay = &ways[w];
        let track_type: TramTrackType = if count_road_hits(&way.node_refs, road_index) >= 2 {
            TramTrackType::SharedWithRoad
        } else {
            TramTrackType::Dedicated
        };
        let edge: TramEdge = TramEdge {
            osm_id: way.id,
            length: 0,
            max_speed: TRACK_SPEED,
            track_type,
        };
        add_way_tracks(&index, way, edge, &mut ends, &mut edges);
        w = w + 1;
    }
    assert(ways@.take(w as int) =~= ways@);
    let ghost plans = tracks_of(index@, osm.tram_ways@, road_index@);
    assert(plans.len() == ends@.len());
    let graph: Topology = Topology::from_edges(nodes.len(), &ends);
    let lines: Vec<TramLine> = read_lines(&index, &osm.relations);
    proof {
        assert(graph.ends() =~= plans.map_values(|p: TrackPlan| (p.from, p.to))) by {
            assert forall|k: int| 0 <= k < plans.len() implies graph.ends()[k] == (
                (#[trigger] plans[k]).from,
                plans[k].to,
            ) by {
                assert(plans[k] == as_plans(ends@, edges@)[k]);
            }
        }
        assert(edges@ =~= plans.map_values(|p: TrackPlan| p.edge)) by {
            assert forall|k: int| 0 <= k < plans.len() implies edges@[k] == (
            #[trigger] plans[k]).edge by {
                assert(plans[k] == as_plans(ends@, edges@)[k]);
            }
        }
    }
    TramData { graph, nodes, edges, node_index_map: index, stops, lines }
}

/// A node found by its id has that id.
proof fn lemma_found_id(nodes: Seq<OsmNode>, id: u64)
    ensures
        node_with_id(nodes, id) matches Some(n) ==> n.id == id,
    decreases nodes.len(),
{
    if nodes.len() > 0 && nodes[0].id != id {
        lemma_found_id(nodes.skip(1), id);
    }
}

/// Every stop of every line is a node of the network, and every line has at least two stops.
pub proof fn law_line_stops_exist(ids: Seq<u64>, relations: Seq<OsmRelation>, k: int, s: int)
    requires
        ids.len() <= usize::MAX,
        0 <= k < lines_of(ids, relations).len(),
        0 <= s < lines_of(ids, relations)[k].1.len(),
    ensures
        lines_of(ids, relations)[k].1.len() >= 2,
        lines_of(ids, relations)[k].1[s] < ids.len(),
    decreases relations.len(),
{
    let before = lines_of(ids, relations.drop_last());
    if k < before.len() {
        law_line_stops_exist(ids, relations.drop_last(), k, s);
    } else {
        lemma_stops_exist(ids, relations.last().members@, s);
    }
}

proof fn lemma_stops_exist(ids: Seq<u64>, members: Seq<OsmMember>, s: int)
    requires
        ids.len() <= usize::MAX,
        0 <= s < stops_of(ids, members).len(),
    ensures
        stops_of(ids, members)[s] < ids.len(),
    decreases members.len(),
{
    let before = stops_of(ids, members.drop_last());
    if s < before.len() {
        lemma_stops_exist(ids, members.drop_last(), s);
    } else {
        let id = members.last().ref_id;
        let i = choose|i: int| 0 <= i < ids.len() && ids[i] == id;
        assert(0 <= ids.index_of(id) < ids.len());
    }
}

/// The list of stops holds exactly the tram nodes that are stops.
pub proof fn law_stops_complete(nodes: Seq<TramNode>, x: usize)
    requires
        nodes.len() <= usize::MAX,
    ensures
        stop_places(nodes).contains(x) <==> x < nodes.len() && nodes[x as int].is_stop,
    decreases nodes.len(),
{
    if nodes.len() > 0 {
        let front = nodes.drop_last();
        law_stops_complete(front, x);
        let before = stop_places(front);
        let now = stop_places(nodes);
        if x < front.len() {
            assert(front[x as int] == nodes[x as int]);
        }
        if before.contains(x) {
            let i = choose|i: int| 0 <= i < before.len() && before[i] == x;
            assert(now[i] == x);
        }
        if nodes.last().is_stop {
            assert(now[before.len() as int] == (nodes.len() - 1) as usize);
        }
        if now.contains(x) {
            let i = choose|i: int| 0 <= i < now.len() && now[i] == x;
            if i < before.len() {
                assert(before[i] == x);
            }
        }
    }
}

/// Every two known nodes that follow each other on a track are joined, in that direction.
pub proof fn law_tracks_join_nodes(
    acc: Seq<TrackPlan>,
    ids: Seq<u64>,
    refs: Seq<u64>,
    edge: TramEdge,
    i: int,
)
    requires
        0 <= i < refs.len() - 1,
        ids.contains(refs[i]),
        ids.contains(refs[i + 1]),
    ensures
        add_tracks(acc, ids, refs, edge).contains(
            TrackPlan { from: place_of(ids, refs[i]), to: place_of(ids, refs[i + 1]), edge },
        ),
    decreases refs.len(),
{
    let front = refs.drop_last();
    let before = add_tracks(acc, ids, front, edge);
    let now = add_tracks(acc, ids, refs, edge);
    let p = TrackPlan { from: place_of(ids, refs[i]), to: place_of(ids, refs[i + 1]), edge };
    if i < front.len() - 1 {
        assert(front[i] == refs[i] && front[i + 1] == refs[i + 1]);
        law_tracks_join_nodes(acc, ids, front, edge, i);
        let k = choose|k: int| 0 <= k < before.len() && before[k] == p;
        assert(now[k] == p);
    } else {
        assert(now[before.len() as int] == p);
    }
}

/// A track with two nodes on roads shares the road, and one without any has its own way.
pub proof fn law_shared_tracks(way: OsmWay, road_ids: Seq<u64>, i: int, j: int)
    requires
        0 <= i < j < way.node_refs@.len(),
    ensures
        road_ids.contains(way.node_refs@[i]) && road_ids.contains(way.node_refs@[j])
            ==> track_type_of(way, road_ids) == TramTrackType::SharedWithRoad,
        (forall|k: int|
            0 <= k < way.node_refs@.len() && k != i ==> !road_ids.contains(
                #[trigger] way.node_refs@[k],
            )) ==> track_type_of(way, road_ids) == TramTrackType::Dedicated,
{
    let ids = way.node_refs@;
    if road_ids.contains(ids[i]) && road_ids.contains(ids[j]) {
        lemma_hits_at_least(ids, road_ids, i, j);
    }
    if forall|k: int| 0 <= k < ids.len() && k != i ==> !road_ids.contains(#[trigger] ids[k]) {
        lemma_hits_at_most(ids, road_ids, i);
    }
}

proof fn lemma_hits_at_least(ids: Seq<u64>, road_ids: Seq<u64>, i: int, j: int)
    requires
        0 <= i < ids.len(),
        0 <= i <= j,
        road_ids.contains(ids[i]),
        j < ids.len() ==> road_ids.contains(ids[j]),
    ensures
        road_hits(ids, road_ids) >= if i < j < ids.len() {
            2nat
        } else {
            1nat
        },
    decreases ids.len(),
{
    let front = ids.drop_last();
    if i < front.len() {
        assert(front[i] == ids[i]);
        if j < front.len() {
            assert(front[j] == ids[j]);
        }
        lemma_hits_at_least(front, road_ids, i, j);
    }
}

proof fn lemma_hits_at_most(ids: Seq<u64>, road_ids: Seq<u64>, i: int)
    requires
        forall|k: int| 0 <= k < ids.len() && k != i ==> !road_ids.contains(#[trigger] ids[k]),
    ensures
        road_hits(ids, road_ids) <= if i < ids.len() {
            1nat
        } else {
            0nat
        },
    decreases ids.len(),
{
    if ids.len() > 0 {
        let front = ids.drop_last();
        assert forall|k: int| 0 <= k < front.len() && k != i implies !road_ids.contains(
            #[trigger] front[k],
        ) by {
            assert(front[k] == ids[k]);
        }
        lemma_hits_at_most(front, road_ids, i);
        let n = ids.len() - 1;
        assert(n != i ==> !road_ids.contains(ids[n]));
    }
}

/// A line stops at every known node that its relation names as a stop, at the last of them last.
pub proof fn law_lines_serve_their_stops(ids: Seq<u64>, members: Seq<OsmMember>, i: int)
    requires
        0 <= i < members.len(),
        is_stop_member(members[i]),
        ids.contains(members[i].ref_id),
    ensures
        stops_of(ids, members).contains(place_of(ids, members[i].ref_id) as usize),
        i == members.len() - 1 ==> stops_of(ids, members).last() == place_of(
            ids,
            members[i].ref_id,
        ) as usize,
        stops_of(ids, members).len() <= members.len(),
    decreases members.len(),
{
    let front = members.drop_last();
    let before = stops_of(ids, front);
    let now = stops_of(ids, members);
    let p = place_of(ids, members[i].ref_id) as usize;
    lemma_stops_counted(ids, members);
    if i < front.len() {
        assert(front[i] == members[i]);
        law_lines_serve_their_stops(ids, front, i);
        let k = choose|k: int| 0 <= k < before.len() && before[k] == p;
        assert(now[k] == p);
    } else {
        assert(now[before.len() as int] == p);
    }
}

proof fn lemma_stops_counted(ids: Seq<u64>, members: Seq<OsmMember>)
    ensures
        stops_of(ids, members).len() <= members.len(),
    decreases members.len(),
{
    if members.len() > 0 {
        lemma_stops_counted(ids, members.drop_last());
    }
}

/// Every tram route with two known stops or more becomes a line.
pub proof fn law_routes_become_lines(ids: Seq<u64>, relations: Seq<OsmRelation>, i: int)
    requires
        0 <= i < relations.len(),
        tag_is_value(relations[i].tags@, "route"@, "tram"@),
        stops_of(ids, relations[i].members@).len() >= 2,
    ensures
        lines_of(ids, relations).contains(
            (line_name(relations[i]), stops_of(ids, relations[i].members@)),
        ),
    decreases relations.len(),
{
    let front = relations.drop_last();
    let before = lines_of(ids, front);
    let now = lines_of(ids, relations);
    let l = (line_name(relations[i]), stops_of(ids, relations[i].members@));
    if i < front.len() {
        assert(front[i] == relations[i]);
        law_routes_become_lines(ids, front, i);
        let k = choose|k: int| 0 <= k < before.len() && before[k] == l;
        assert(now[k] == l);
    } else {
        assert(now[before.len() as int] == l);
    }
}

} // verus!
