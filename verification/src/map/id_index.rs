//! Finding a record by the id of the map element that it stands for.

use std::collections::HashMap;
use vstd::prelude::*;

use crate::map::building::{find_node, node_with_id};
use crate::map::osm::{NodeTable, OsmNode};

verus! {

/// Ids in order, each once, and the place of each.
pub struct IdIndex {
    order: Vec<u64>,
    places: HashMap<u64, usize>,
}

impl View for IdIndex {
    type V = Seq<u64>;

    /// The ids in order.
    closed spec fn view(&self) -> Seq<u64> {
        self.order@
    }
}

impl IdIndex {
    /// The places match the order.
    pub closed spec fn wf(&self) -> bool {
        &&& forall|i: int|
            0 <= i < self.order@.len() ==> self.places@.contains_key(#[trigger] self.order@[i])
                && self.places@[self.order@[i]] == i
        &&& forall|k: u64| #[trigger]
            self.places@.contains_key(k) ==> self.places@[k] < self.order@.len()
                && self.order@[self.places@[k] as int] == k
    }

    /// No id occurs twice.
    pub proof fn lemma_distinct(&self)
        requires
            self.wf(),
        ensures
            self@.no_duplicates(),
    {
        assert forall|i: int, j: int|
            0 <= i < self@.len() && 0 <= j < self@.len() && i != j implies self@[i] != self@[j] by {
            assert(self.places@[self.order@[i]] == i);
            assert(self.places@[self.order@[j]] == j);
        }
    }

    /// An index without ids.
    pub fn new() -> (r: IdIndex)
        ensures
            r.wf(),
            r@ == Seq::<u64>::empty(),
    {
        broadcast use vstd::std_specs::hash::group_hash_axioms;

        IdIndex { order: Vec::new(), places: HashMap::new() }
    }

    /// Number of ids.
    pub fn len(&self) -> (r: usize)
        ensures
            r == self@.len(),
    {
        self.order.len()
    }

    /// The id at a place.
    pub fn at(&self, i: usize) -> (r: u64)
        requires
            i < self@.len(),
        ensures
            r == self@[i as int],
    {
        self.order[i]
    }

    /// The place of an id.
    pub fn find(&self, id: u64) -> (r: Option<usize>)
        requires
            self.wf(),
        ensures
            match r {
                Some(i) => i < self@.len() && self@[i as int] == id,
                None => !self@.contains(id),
            },
    {
        broadcast use vstd::std_specs::hash::group_hash_axioms;

        match self.places.get(&id) {
            Some(i) => Some(*i),
            None => {
                proof {
                    if self@.contains(id) {
                        let i = choose|i: int| 0 <= i < self@.len() && self@[i] == id;
                        assert(self.places@.contains_key(self.order@[i]));
                    }
                }
                None
            },
        }
    }

    /// Adds an id that is not there yet.
    pub fn push(&mut self, id: u64)
        requires
            old(self).wf(),
            !old(self)@.contains(id),
        ensures
            final(self).wf(),
            final(self)@ == old(self)@.push(id),
    {
        broadcast use vstd::std_specs::hash::group_hash_axioms;

        let at: usize = self.order.len();
        self.order.push(id);
        self.places.insert(id, at);
        proof {
            assert forall|i: int| 0 <= i < self.order@.len() implies self.places@.contains_key(
                #[trigger] self.order@[i],
            ) && self.places@[self.order@[i]] == i by {
                if i < at {
                    assert(self.order@[i] == old(self)@[i]);
                    assert(old(self).places@.contains_key(old(self).order@[i]));
                    assert(old(self)@.contains(old(self)@[i]));
                }
            }
        }
    }
}

/// A sequence with `x` at its end, unless it holds `x` already.
pub open spec fn push_new(s: Seq<u64>, x: u64) -> Seq<u64> {
    if s.contains(x) {
        s
    } else {
        s.push(x)
    }
}

/// `acc` with the ids that name a loaded node added in order, each once.
pub open spec fn add_known(nodes: Seq<OsmNode>, acc: Seq<u64>, ids: Seq<u64>) -> Seq<u64>
    decreases ids.len(),
{
    if ids.len() == 0 {
        acc
    } else {
        let before = add_known(nodes, acc, ids.drop_last());
        if node_with_id(nodes, ids.last()) is Some {
            push_new(before, ids.last())
        } else {
            before
        }
    }
}

/// The place of an id in a list without repetitions.
pub open spec fn place_of(ids: Seq<u64>, id: u64) -> int {
    ids.index_of(id)
}

/// The place of an id, where it is listed.
pub fn find_place(index: &IdIndex, id: u64) -> (r: Option<usize>)
    requires
        index.wf(),
    ensures
        match r {
            Some(i) => index@.contains(id) && i == place_of(index@, id) && i < index@.len(),
            None => !index@.contains(id),
        },
{
    match index.find(id) {
        Some(i) => {
            proof {
                index.lemma_distinct();
                assert(index@.contains(index@[i as int]));
            }
            Some(i)
        },
        None => None,
    }
}

/// Adds the ids that name a loaded node, in order, each once.
pub fn add_known_ids(index: &mut IdIndex, table: &NodeTable, ids: &Vec<u64>)
    requires
        old(index).wf(),
        table.wf(),
        forall|i: int|
            0 <= i < old(index)@.len() ==> node_with_id(
                table.nodes(),
                #[trigger] old(index)@[i],
            ) is Some,
    ensures
        final(index).wf(),
        final(index)@ == add_known(table.nodes(), old(index)@, ids@),
        forall|i: int|
            0 <= i < final(index)@.len() ==> node_with_id(
                table.nodes(),
                #[trigger] final(index)@[i],
            ) is Some,
{
    let mut k: usize = 0;
    assert(ids@.take(0) =~= Seq::<u64>::empty());
    while k < ids.len()
        invariant
            table.wf(),
            index.wf(),
            k <= ids.len(),
            index@ == add_known(table.nodes(), old(index)@, ids@.take(k as int)),
            forall|i: int|
                0 <= i < index@.len() ==> node_with_id(table.nodes(), #[trigger] index@[i]) is Some,
        decreases ids.len() - k,
    {
        assert(ids@.take(k + 1).drop_last() =~= ids@.take(k as int));
        assert(ids@.take(k + 1).last() == ids@[k as int]);
        let id: u64 = ids[k];
        match find_node(table, id) {
            Some(_) => match index.find(id) {
                Some(i) => {
                    assert(index@[i as int] == id);
                },
                None => {
                    index.push(id);
                },
            },
            None => {},
        }
        k = k + 1;
    }
    assert(ids@.take(k as int) =~= ids@);
}

/// Of some ids exactly those of loaded nodes are added to a list, and none is added twice.
pub proof fn law_known_ids_are_added(nodes: Seq<OsmNode>, acc: Seq<u64>, ids: Seq<u64>, x: u64)
    ensures
        add_known(nodes, acc, ids).contains(x) <==> acc.contains(x) || (ids.contains(x)
            && node_with_id(nodes, x) is Some),
        acc.no_duplicates() ==> add_known(nodes, acc, ids).no_duplicates(),
    decreases ids.len(),
{
    if ids.len() > 0 {
        let front = ids.drop_last();
        law_known_ids_are_added(nodes, acc, front, x);
        let before = add_known(nodes, acc, front);
        let now = add_known(nodes, acc, ids);
        let y = ids.last();
        assert(ids.contains(x) <==> front.contains(x) || x == y) by {
            if ids.contains(x) {
                let k = choose|k: int| 0 <= k < ids.len() && ids[k] == x;
                if k < front.len() {
                    assert(front[k] == x);
                }
            }
            if front.contains(x) {
                let k = choose|k: int| 0 <= k < front.len() && front[k] == x;
                assert(ids[k] == x);
            }
            assert(ids[ids.len() - 1] == y);
        }
        assert(push_new(before, y).contains(x) <==> before.contains(x) || x == y) by {
            let with = push_new(before, y);
            if before.contains(x) {
                let k = choose|k: int| 0 <= k < before.len() && before[k] == x;
                assert(with[k] == x);
            }
            if with.contains(x) {
                let k = choose|k: int| 0 <= k < with.len() && with[k] == x;
                if k < before.len() {
                    assert(before[k] == x);
                }
            }
            if !before.contains(y) {
                assert(with[before.len() as int] == y);
            }
        }
    }
}

} // verus!
