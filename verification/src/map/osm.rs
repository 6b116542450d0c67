//! OpenStreetMap elements as the network builders read them.

use std::collections::HashMap;
use vstd::hash_map::StringHashMap;
use vstd::prelude::*;

use crate::util::text::text_eq;

verus! {

/// The tags of an element.
pub type Tags = StringHashMap<String>;

/// The value of a tag.
pub open spec fn tag_value(tags: Map<Seq<char>, String>, key: Seq<char>) -> Option<Seq<char>> {
    if tags.contains_key(key) {
        Some(tags[key]@)
    } else {
        None
    }
}

/// Whether a tag is present with the given value.
pub open spec fn tag_is_value(tags: Map<Seq<char>, String>, key: Seq<char>, value: Seq<char>) -> bool {
    tag_value(tags, key) == Some(value)
}

/// Whether a tag is present with the given value.
pub fn tag_is(tags: &Tags, key: &str, value: &str) -> (r: bool)
    ensures
        r == tag_is_value(tags@, key@, value@),
{
    match tags.get(key) {
        Some(v) => text_eq(v.as_str(), value),
        None => false,
    }
}

/// The value of a tag.
pub fn tag_of<'a>(tags: &'a Tags, key: &str) -> (r: Option<&'a str>)
    ensures
        match r {
            Some(v) => tag_value(tags@, key@) == Some(v@),
            None => tag_value(tags@, key@) is None,
        },
{
    match tags.get(key) {
        Some(v) => Some(v.as_str()),
        None => None,
    }
}

/// A node: a place, in billionths of a degree, with its tags.
pub struct OsmNode {
    pub id: u64,
    pub lat: i64,
    pub lng: i64,
    pub tags: Tags,
}

/// A way: a line through nodes, with its tags.
pub struct OsmWay {
    pub id: u64,
    pub node_refs: Vec<u64>,
    pub tags: Tags,
}

/// A member of a relation: what it is and the role it plays.
pub struct OsmMember {
    pub member_type: String,
    pub ref_id: u64,
    pub role: String,
}

/// A relation between elements, such as a turn restriction or a tram route.
pub struct OsmRelation {
    pub id: u64,
    pub tags: Tags,
    pub members: Vec<OsmMember>,
}

/// Nodes by id, in the order in which their ids first came.
pub struct NodeTable {
    items: Vec<OsmNode>,
    index: HashMap<u64, usize>,
}

impl NodeTable {
    /// The nodes in order.
    pub closed spec fn nodes(&self) -> Seq<OsmNode> {
        self.items@
    }

    /// The index finds exactly the listed nodes.
    pub closed spec fn wf(&self) -> bool {
        &&& forall|i: int|
            0 <= i < self.items@.len() ==> self.index@.contains_key((#[trigger] self.items@[i]).id)
                && self.index@[self.items@[i].id] == i
        &&& forall|k: u64| #[trigger]
            self.index@.contains_key(k) ==> self.index@[k] < self.items@.len()
                && self.items@[self.index@[k] as int].id == k
    }

    /// No two nodes share an id.
    pub proof fn lemma_ids_differ(&self, i: int, j: int)
        requires
            self.wf(),
            0 <= i < self.nodes().len(),
            0 <= j < self.nodes().len(),
            self.nodes()[i].id == self.nodes()[j].id,
        ensures
            i == j,
    {
        assert(self.index@[self.items@[i].id] == i);
        assert(self.index@[self.items@[j].id] == j);
    }

    /// A table without nodes.
    pub fn new() -> (r: NodeTable)
        ensures
            r.wf(),
            r.nodes() == Seq::<OsmNode>::empty(),
    {
        broadcast use vstd::std_specs::hash::group_hash_axioms;

        NodeTable { items: Vec::new(), index: HashMap::new() }
    }

    /// Number of nodes.
    pub fn len(&self) -> (r: usize)
        ensures
            r == self.nodes().len(),
    {
        self.items.len()
    }

    /// The node at a place in the order.
    pub fn at(&self, i: usize) -> (r: &OsmNode)
        requires
            i < self.nodes().len(),
        ensures
            *r == self.nodes()[i as int],
    {
        &self.items[i]
    }

    /// The place of the node with the given id.
    pub fn find(&self, id: u64) -> (r: Option<usize>)
        requires
            self.wf(),
        ensures
            match r {
                Some(i) => i < self.nodes().len() && self.nodes()[i as int].id == id,
                None => forall|i: int| 0 <= i < self.nodes().len() ==> (#[trigger] self.nodes()[i]).id
                    != id,
            },
    {
        broadcast use vstd::std_specs::hash::group_hash_axioms;

        match self.index.get(&id) {
            Some(i) => Some(*i),
            None => {
                proof {
                    assert forall|i: int| 0 <= i < self.nodes().len() implies (
                    #[trigger] self.nodes()[i]).id != id by {
                        assert(self.index@.contains_key(self.items@[i].id));
                    }
                }
                None
            },
        }
    }

    /// Adds a node; one that has the same id is replaced in its place.
    pub fn insert(&mut self, node: OsmNode)
        requires
            old(self).wf(),
        ensures
            final(self).wf(),
            forall|i: int|
                0 <= i < old(self).nodes().len() && (#[trigger] old(self).nodes()[i]).id == node.id
                    ==> final(self).nodes() == old(self).nodes().update(i, node),
            (forall|i: int|
                0 <= i < old(self).nodes().len() ==> (#[trigger] old(self).nodes()[i]).id != node.id)
                ==> final(self).nodes() == old(self).nodes().push(node),
    {
        broadcast use vstd::std_specs::hash::group_hash_axioms;

        let id: u64 = node.id;
        match self.find(id) {
            Some(i) => {
                proof {
                    assert forall|k: int|
                        0 <= k < old(self).nodes().len() && (#[trigger] old(self).nodes()[k]).id
                            == id implies k == i by {
                        old(self).lemma_ids_differ(k, i as int);
                    }
                }
                self.items.set(i, node);
                proof {
                    assert forall|k: int| 0 <= k < self.items@.len() implies self.index@.contains_key(
                        (#[trigger] self.items@[k]).id,
                    ) && self.index@[self.items@[k].id] == k by {
                        assert(old(self).index@.contains_key(old(self).items@[k].id));
                    }
                }
            },
            None => {
                let at: usize = self.items.len();
                self.items.push(node);
                self.index.insert(id, at);
                proof {
                    assert forall|k: int| 0 <= k < self.items@.len() implies self.index@.contains_key(
                        (#[trigger] self.items@[k]).id,
                    ) && self.index@[self.items@[k].id] == k by {
                        if k < at {
                            assert(self.items@[k] == old(self).nodes()[k]);
                            assert(old(self).index@.contains_key(old(self).items@[k].id));
                        }
                    }
                }
            },
        }
    }
}

/// The loaded elements, sorted by what the builders use them for.
pub struct OsmData {
    pub nodes: NodeTable,
    pub ways: Vec<OsmWay>,
    pub relations: Vec<OsmRelation>,
    /// Ways that are tram tracks.
    pub tram_ways: Vec<OsmWay>,
    /// Ids of nodes that are tram stops, in the order in which they came.
    pub tram_stops: Vec<u64>,
}

/// Whether the `oneway` tag marks forward-only travel.
pub open spec fn oneway_forward(tags: Map<Seq<char>, String>) -> bool {
    ||| tag_is_value(tags, "oneway"@, "yes"@)
    ||| tag_is_value(tags, "oneway"@, "true"@)
    ||| tag_is_value(tags, "oneway"@, "1"@)
}

/// Whether the `oneway` tag marks travel against the node order only.
pub open spec fn oneway_backward(tags: Map<Seq<char>, String>) -> bool {
    ||| tag_is_value(tags, "oneway"@, "-1"@)
    ||| tag_is_value(tags, "oneway"@, "reverse"@)
}

/// Whether the `oneway` tag marks forward-only travel.
pub fn is_oneway(way: &OsmWay) -> (r: bool)
    ensures
        r == oneway_forward(way.tags@),
{
    tag_is(&way.tags, "oneway", "yes") || tag_is(&way.tags, "oneway", "true") || tag_is(
        &way.tags,
        "oneway",
        "1",
    )
}

/// Whether the `oneway` tag marks travel against the node order only.
pub fn is_reverse_oneway(way: &OsmWay) -> (r: bool)
    ensures
        r == oneway_backward(way.tags@),
{
    tag_is(&way.tags, "oneway", "-1") || tag_is(&way.tags, "oneway", "reverse")
}

/// An element as it comes from a map extract.
pub enum OsmElement {
    Node(OsmNode),
    Way(OsmWay),
    Relation(OsmRelation),
}

/// Whether a node is put among nodes: in the place of the one with its id, or at the end.
pub open spec fn is_stored(before: Seq<OsmNode>, n: OsmNode, after: Seq<OsmNode>) -> bool {
    &&& exists|i: int| 0 <= i < after.len() && #[trigger] after[i] == n
    &&& forall|i: int|
        0 <= i < before.len() && (#[trigger] before[i]).id == n.id ==> after == before.update(i, n)
    &&& (forall|i: int| 0 <= i < before.len() ==> (#[trigger] before[i]).id != n.id) ==> after
        == before.push(n)
}

proof fn lemma_stored(before: Seq<OsmNode>, n: OsmNode, after: Seq<OsmNode>)
    requires
        forall|i: int|
            0 <= i < before.len() && (#[trigger] before[i]).id == n.id ==> after == before.update(
                i,
                n,
            ),
        (forall|i: int| 0 <= i < before.len() ==> (#[trigger] before[i]).id != n.id) ==> after
            == before.push(n),
    ensures
        is_stored(before, n, after),
{
    if exists|i: int| 0 <= i < before.len() && (#[trigger] before[i]).id == n.id {
        let i = choose|i: int| 0 <= i < before.len() && (#[trigger] before[i]).id == n.id;
        assert(after[i] == n);
    } else {
        assert(after[before.len() as int] == n);
    }
}

impl OsmData {
    /// No elements.
    pub fn new() -> (r: OsmData)
        ensures
            r.wf(),
            r.nodes.nodes().len() == 0,
            r.ways@.len() == 0,
            r.relations@.len() == 0,
            r.tram_ways@.len() == 0,
            r.tram_stops@.len() == 0,
    {
        OsmData {
            nodes: NodeTable::new(),
            ways: Vec::new(),
            relations: Vec::new(),
            tram_ways: Vec::new(),
            tram_stops: Vec::new(),
        }
    }

    /// The node table is consistent.
    pub open spec fn wf(&self) -> bool {
        self.nodes.wf()
    }

    /// Files an element: tram stops are noted beside the nodes, tram tracks are kept apart from
    /// the other ways, and ways without nodes are dropped.
    pub fn add(&mut self, element: OsmElement)
        requires
            old(self).wf(),
        ensures
            final(self).wf(),
            element matches OsmElement::Node(n) ==> {
                &&& is_stored(old(self).nodes.nodes(), n, final(self).nodes.nodes())
                &&& final(self).tram_stops@ == (if tag_is_value(
                    n.tags@,
                    "railway"@,
                    "tram_stop"@,
                ) {
                    old(self).tram_stops@.push(n.id)
                } else {
                    old(self).tram_stops@
                })
                &&& final(self).ways == old(self).ways
                &&& final(self).tram_ways == old(self).tram_ways
                &&& final(self).relations == old(self).relations
            },
            element matches OsmElement::Way(w) ==> {
                let tram = tag_is_value(w.tags@, "railway"@, "tram"@);
                &&& final(self).tram_ways@ == (if w.node_refs@.len() > 0 && tram {
                    old(self).tram_ways@.push(w)
                } else {
                    old(self).tram_ways@
                })
                &&& final(self).ways@ == (if w.node_refs@.len() > 0 && !tram {
                    old(self).ways@.push(w)
                } else {
                    old(self).ways@
                })
                &&& final(self).nodes == old(self).nodes
                &&& final(self).tram_stops == old(self).tram_stops
                &&& final(self).relations == old(self).relations
            },
            element matches OsmElement::Relation(rel) ==> {
                &&& final(self).relations@ == old(self).relations@.push(rel)
                &&& final(self).nodes == old(self).nodes
                &&& final(self).tram_stops == old(self).tram_stops
                &&& final(self).ways == old(self).ways
                &&& final(self).tram_ways == old(self).tram_ways
            },
    {
        match element {
            OsmElement::Node(n) => {
                if tag_is(&n.tags, "railway", "tram_stop") {
                    self.tram_stops.push(n.id);
                }
                self.nodes.insert(n);
                proof {
                    lemma_stored(old(self).nodes.nodes(), n, self.nodes.nodes());
                }
            },
            OsmElement::Way(w) => {
                if w.node_refs.len() > 0 {
                    if tag_is(&w.tags, "railway", "tram") {
                        self.tram_ways.push(w);
                    } else {
                        self.ways.push(w);
                    }
                }
            },
            OsmElement::Relation(rel) => {
                self.relations.push(rel);
            },
        }
    }

    /// Files an element of a map file: nodes are kept, and ways with a `highway` tag and with nodes;
    /// relations are dropped.
    pub fn add_from_file(&mut self, element: OsmElement)
        requires
            old(self).wf(),
        ensures
            final(self).wf(),
            final(self).tram_stops == old(self).tram_stops,
            final(self).tram_ways == old(self).tram_ways,
            final(self).relations == old(self).relations,
            element matches OsmElement::Node(n) ==> is_stored(
                old(self).nodes.nodes(),
                n,
                final(self).nodes.nodes(),
            ) && final(self).ways == old(self).ways,
            element matches OsmElement::Way(w) ==> {
                &&& final(self).ways@ == (if w.node_refs@.len() > 0 && tag_value(
                    w.tags@,
                    "highway"@,
                ) is Some {
                    old(self).ways@.push(w)
                } else {
                    old(self).ways@
                })
                &&& final(self).nodes == old(self).nodes
            },
            element is Relation ==> final(self).ways == old(self).ways && final(self).nodes == old(
                self,
            ).nodes,
    {
        match element {
            OsmElement::Node(n) => {
                self.nodes.insert(n);
                proof {
                    lemma_stored(old(self).nodes.nodes(), n, self.nodes.nodes());
                }
            },
            OsmElement::Way(w) => {
                let is_road: bool = tag_of(&w.tags, "highway").is_some();
                if w.node_refs.len() > 0 && is_road {
                    self.ways.push(w);
                }
            },
            OsmElement::Relation(_) => {},
        }
    }
}

} // verus!
