//! The signals and signs of a map.

use vstd::prelude::*;

use crate::map::id_index::{find_place, place_of, IdIndex};
use crate::map::map_data::MapData;
use crate::map::road_network::{IntersectionType, RoadNode};
use crate::state::LightControlMode;
use crate::traffic::traffic_light::{LightPhase, LightStateUpdate, TrafficLight, MIN_PHASE};
use crate::units::larger;

verus! {

/// Whether a junction has a signal.
pub open spec fn is_signalled(t: IntersectionType) -> bool {
    t == IntersectionType::TrafficLight || t == IntersectionType::PedestrianCrossing
}

/// A fresh signal for each signalled node, in order.
pub open spec fn signals_of(nodes: Seq<RoadNode>) -> Seq<TrafficLight>
    decreases nodes.len(),
{
    if nodes.len() == 0 {
        Seq::empty()
    } else if is_signalled(nodes.last().intersection_type) {
        signals_of(nodes.drop_last()).push(TrafficLight::fresh(nodes.last().osm_id))
    } else {
        signals_of(nodes.drop_last())
    }
}

/// The ids of the nodes of one kind, in order.
pub open spec fn ids_of_kind(nodes: Seq<RoadNode>, t: IntersectionType) -> Seq<u64>
    decreases nodes.len(),
{
    if nodes.len() == 0 {
        Seq::empty()
    } else if nodes.last().intersection_type == t {
        ids_of_kind(nodes.drop_last(), t).push(nodes.last().osm_id)
    } else {
        ids_of_kind(nodes.drop_last(), t)
    }
}

/// The junction ids of the signals.
pub open spec fn signal_ids(lights: Seq<TrafficLight>) -> Seq<u64> {
    lights.map_values(|l: TrafficLight| l.intersection_id)
}

/// Each signal after `dt`.
pub open spec fn all_stepped(lights: Seq<TrafficLight>, dt: i64) -> Seq<TrafficLight> {
    lights.map_values(|l: TrafficLight| l.stepped(dt))
}

/// The signals after `dt` that show another phase than before.
pub open spec fn changed(lights: Seq<TrafficLight>, dt: i64) -> Seq<TrafficLight>
    decreases lights.len(),
{
    if lights.len() == 0 {
        Seq::empty()
    } else {
        let rest = changed(lights.drop_last(), dt);
        let l = lights.last();
        if l.stepped(dt).current_phase != l.current_phase {
            rest.push(l.stepped(dt))
        } else {
            rest
        }
    }
}

/// Each update tells of the signal at the same place.
pub open spec fn tell_of(updates: Seq<LightStateUpdate>, lights: Seq<TrafficLight>) -> bool {
    &&& updates.len() == lights.len()
    &&& forall|i: int| 0 <= i < lights.len() ==> lights[i].told_by(#[trigger] updates[i])
}

proof fn lemma_ids_known(nodes: Seq<RoadNode>, t: IntersectionType, id: u64)
    ensures
        ids_of_kind(nodes, t).contains(id) ==> exists|i: int|
            0 <= i < nodes.len() && #[trigger] nodes[i].osm_id == id,
        signal_ids(signals_of(nodes)).contains(id) ==> exists|i: int|
            0 <= i < nodes.len() && #[trigger] nodes[i].osm_id == id,
    decreases nodes.len(),
{
    if nodes.len() > 0 {
        let before = nodes.drop_last();
        lemma_ids_known(before, t, id);
        let k = nodes.len() - 1;
        let ids = ids_of_kind(nodes, t);
        let was = ids_of_kind(before, t);
        if ids.contains(id) && nodes[k].osm_id != id {
            let i = choose|i: int| 0 <= i < ids.len() && ids[i] == id;
            assert(was[i] == id);
            assert(was.contains(id));
            let j = choose|j: int| 0 <= j < before.len() && #[trigger] before[j].osm_id == id;
            assert(nodes[j].osm_id == id);
        }
        let ls = signal_ids(signals_of(nodes));
        let lw = signal_ids(signals_of(before));
        if ls.contains(id) && nodes[k].osm_id != id {
            let i = choose|i: int| 0 <= i < ls.len() && ls[i] == id;
            assert(lw[i] == id);
            assert(lw.contains(id));
            let j = choose|j: int| 0 <= j < before.len() && #[trigger] before[j].osm_id == id;
            assert(nodes[j].osm_id == id);
        }
    }
}

/// The signals and signs of a map, found by the id of their node.
pub struct IntersectionManager {
    pub traffic_lights: Vec<TrafficLight>,
    pub light_ids: IdIndex,
    /// Nodes with a stop sign.
    pub stop_nodes: IdIndex,
    /// Nodes with a give-way sign.
    pub yield_nodes: IdIndex,
}

impl IntersectionManager {
    /// The index lists the signals.
    pub open spec fn wf(&self) -> bool {
        &&& self.light_ids.wf()
        &&& self.stop_nodes.wf()
        &&& self.yield_nodes.wf()
        &&& self.light_ids@ == signal_ids(self.traffic_lights@)
    }

    /// The signal at a junction.
    pub open spec fn light_at(&self, id: u64) -> Option<TrafficLight> {
        if self.light_ids@.contains(id) {
            Some(self.traffic_lights@[place_of(self.light_ids@, id)])
        } else {
            None
        }
    }

    /// `after` is this with the signal at `id`, if there is one, replaced by `l`.
    pub open spec fn light_set(&self, after: &IntersectionManager, id: u64, l: TrafficLight) -> bool {
        &&& after.wf()
        &&& after.light_ids@ == self.light_ids@
        &&& after.stop_nodes@ == self.stop_nodes@
        &&& after.yield_nodes@ == self.yield_nodes@
        &&& after.traffic_lights@ == if self.light_ids@.contains(id) {
            self.traffic_lights@.update(place_of(self.light_ids@, id), l)
        } else {
            self.traffic_lights@
        }
    }

    /// The signals and signs of the nodes of a map.
    pub fn from_graph(map: &MapData) -> (r: IntersectionManager)
        requires
            map.wf(),
        ensures
            r.wf(),
            r.traffic_lights@ == signals_of(map.nodes@),
            r.stop_nodes@ == ids_of_kind(map.nodes@, IntersectionType::Stop),
            r.yield_nodes@ == ids_of_kind(map.nodes@, IntersectionType::Yield),
    {
        let nodes: &Vec<RoadNode> = &map.nodes;
        let mut traffic_lights: Vec<TrafficLight> = Vec::new();
        let mut light_ids = IdIndex::new();
        let mut stop_nodes = IdIndex::new();
        let mut yield_nodes = IdIndex::new();
        let mut i: usize = 0;
        proof {
            map.node_index_map.lemma_distinct();
            assert(nodes@.take(0) =~= Seq::<RoadNode>::empty());
            assert forall|a: int, b: int|
                0 <= a < b < nodes@.len() implies #[trigger] nodes@[a].osm_id
                != #[trigger] nodes@[b].osm_id by {
                assert(map.node_index_map@[a] == nodes@[a].osm_id);
                assert(map.node_index_map@[b] == nodes@[b].osm_id);
            }
        }
        while i < nodes.len()
            invariant
                i <= nodes@.len(),
                light_ids.wf(),
                stop_nodes.wf(),
                yield_nodes.wf(),
                light_ids@ == signal_ids(traffic_lights@),
                traffic_lights@ == signals_of(nodes@.take(i as int)),
                stop_nodes@ == ids_of_kind(nodes@.take(i as int), IntersectionType::Stop),
                yield_nodes@ == ids_of_kind(nodes@.take(i as int), IntersectionType::Yield),
                forall|a: int, b: int|
                    0 <= a < b < nodes@.len() ==> #[trigger] nodes@[a].osm_id
                        != #[trigger] nodes@[b].osm_id,
            decreases nodes.len() - i,
        {
            let ghost before = nodes@.take(i as int);
            assert(nodes@.take(i + 1).drop_last() =~= before);
            assert(nodes@.take(i + 1).last() == nodes@[i as int]);
            let id: u64 = nodes[i].osm_id;
            proof {
                lemma_ids_known(before, IntersectionType::Stop, id);
                lemma_ids_known(before, IntersectionType::Yield, id);
                assert forall|j: int| 0 <= j < before.len() implies #[trigger] before[j].osm_id
                    != id by {
                    assert(before[j] == nodes@[j]);
                    assert(nodes@[i as int].osm_id == id);
                }
            }
            match nodes[i].intersection_type {
                IntersectionType::TrafficLight => {
                    traffic_lights.push(TrafficLight::new(id));
                    light_ids.push(id);
                },
                IntersectionType::PedestrianCrossing => {
                    traffic_lights.push(TrafficLight::new_pedestrian(id));
                    light_ids.push(id);
                },
                IntersectionType::Stop => {
                    stop_nodes.push(id);
                },
                IntersectionType::Yield => {
                    yield_nodes.push(id);
                },
                IntersectionType::Plain | IntersectionType::Roundabout => {},
            }
            assert(light_ids@ =~= signal_ids(traffic_lights@));
            i = i + 1;
        }
        assert(nodes@.take(i as int) =~= nodes@);
        IntersectionManager { traffic_lights, light_ids, stop_nodes, yield_nodes }
    }

    /// Advances all signals by `dt` and tells of those that changed.
    pub fn update(&mut self, dt: i64) -> (r: Vec<LightStateUpdate>)
        requires
            old(self).wf(),
        ensures
            final(self).wf(),
            final(self).traffic_lights@ == all_stepped(old(self).traffic_lights@, dt),
            final(self).light_ids@ == old(self).light_ids@,
            final(self).stop_nodes@ == old(self).stop_nodes@,
            final(self).yield_nodes@ == old(self).yield_nodes@,
            tell_of(r@, changed(old(self).traffic_lights@, dt)),
    {
        let ghost lights = self.traffic_lights@;
        let ghost ids = self.light_ids@;
        let ghost stops = self.stop_nodes@;
        let ghost gives = self.yield_nodes@;
        let mut out: Vec<LightStateUpdate> = Vec::new();
        let mut i: usize = 0;
        assert(lights.take(0) =~= Seq::<TrafficLight>::empty());
        while i < self.traffic_lights.len()
            invariant
                i <= lights.len(),
                self.traffic_lights@.len() == lights.len(),
                self.light_ids.wf(),
                self.stop_nodes.wf(),
                self.yield_nodes.wf(),
                self.light_ids@ == ids,
                self.stop_nodes@ == stops,
                self.yield_nodes@ == gives,
                forall|j: int|
                    0 <= j < i ==> #[trigger] self.traffic_lights@[j] == lights[j].stepped(dt),
                forall|j: int|
                    i <= j < lights.len() ==> #[trigger] self.traffic_lights@[j] == lights[j],
                tell_of(out@, changed(lights.take(i as int), dt)),
            decreases lights.len() - i,
        {
            assert(lights.take(i + 1).drop_last() =~= lights.take(i as int));
            assert(lights.take(i + 1).last() == lights[i as int]);
            let before: LightPhase = self.traffic_lights[i].current_phase;
            self.traffic_lights[i].update(dt);
            if self.traffic_lights[i].current_phase != before {
                let u = self.traffic_lights[i].to_state_update();
                out.push(u);
            }
            i = i + 1;
        }
        assert(lights.take(i as int) =~= lights);
        assert(self.traffic_lights@ =~= all_stepped(lights, dt));
        assert(signal_ids(self.traffic_lights@) =~= ids);
        out
    }

    /// Whether no signal stands at the junction or the signal shows green.
    pub fn can_proceed(&self, intersection_id: u64) -> (r: bool)
        requires
            self.wf(),
        ensures
            r == match self.light_at(intersection_id) {
                Some(l) => l.current_phase == LightPhase::Green,
                None => true,
            },
    {
        match find_place(&self.light_ids, intersection_id) {
            Some(i) => self.traffic_lights[i].is_green(),
            None => true,
        }
    }

    /// Whether a vehicle may pass a node: a signal must show green, at a stop sign the vehicle
    /// must have stopped, and nothing else holds it.
    pub open spec fn lets_pass(&self, osm_id: u64, has_stopped: bool) -> bool {
        match self.light_at(osm_id) {
            Some(l) => l.current_phase == LightPhase::Green,
            None => self.stop_nodes@.contains(osm_id) ==> has_stopped,
        }
    }

    /// Whether a vehicle may pass a node.
    pub fn can_vehicle_proceed(&self, osm_id: u64, vehicle_has_stopped_at_sign: bool) -> (r: bool)
        requires
            self.wf(),
        ensures
            r == self.lets_pass(osm_id, vehicle_has_stopped_at_sign),
    {
        match find_place(&self.light_ids, osm_id) {
            Some(i) => self.traffic_lights[i].is_green(),
            None => if self.is_stop_node(osm_id) {
                vehicle_has_stopped_at_sign
            } else {
                true
            },
        }
    }

    /// Whether the node has a stop sign.
    pub fn is_stop_node(&self, osm_id: u64) -> (r: bool)
        requires
            self.wf(),
        ensures
            r == self.stop_nodes@.contains(osm_id),
    {
        find_place(&self.stop_nodes, osm_id).is_some()
    }

    /// Whether the node has a give-way sign.
    pub fn is_yield_node(&self, osm_id: u64) -> (r: bool)
        requires
            self.wf(),
        ensures
            r == self.yield_nodes@.contains(osm_id),
    {
        find_place(&self.yield_nodes, osm_id).is_some()
    }

    /// Sets the control mode of a signal.
    pub fn set_mode(&mut self, intersection_id: u64, mode: LightControlMode)
        requires
            old(self).wf(),
        ensures
            old(self).light_set(
                final(self),
                intersection_id,
                (TrafficLight { mode, ..old(self).light_at(intersection_id)->Some_0 }),
            ),
    {
        match find_place(&self.light_ids, intersection_id) {
            Some(i) => {
                self.traffic_lights[i].set_mode(mode);
                assert(signal_ids(self.traffic_lights@) =~= self.light_ids@);
            },
            None => {},
        }
    }

    /// Sets the phase of a signal.
    pub fn set_phase(&mut self, intersection_id: u64, phase_byte: u8)
        requires
            old(self).wf(),
        ensures
            old(self).light_set(
                final(self),
                intersection_id,
                (TrafficLight {
                    current_phase: LightPhase::of_code(phase_byte),
                    phase_timer: 0,
                    ..old(self).light_at(intersection_id)->Some_0
                }),
            ),
    {
        match find_place(&self.light_ids, intersection_id) {
            Some(i) => {
                self.traffic_lights[i].force_phase(LightPhase::from_u8(phase_byte));
                assert(signal_ids(self.traffic_lights@) =~= self.light_ids@);
            },
            None => {},
        }
    }

    /// Sets the lengths of green and red of a signal.
    pub fn set_durations(&mut self, intersection_id: u64, green: i64, red: i64)
        requires
            old(self).wf(),
        ensures
            old(self).light_set(
                final(self),
                intersection_id,
                (TrafficLight {
                    green_duration: larger(green as int, MIN_PHASE as int) as i64,
                    red_duration: larger(red as int, MIN_PHASE as int) as i64,
                    ..old(self).light_at(intersection_id)->Some_0
                }),
            ),
    {
        match find_place(&self.light_ids, intersection_id) {
            Some(i) => {
                self.traffic_lights[i].set_durations(green, red);
                assert(signal_ids(self.traffic_lights@) =~= self.light_ids@);
            },
            None => {},
        }
    }

    /// Sets the number of vehicles that wait at a signal.
    pub fn update_queue(&mut self, intersection_id: u64, count: u32)
        requires
            old(self).wf(),
        ensures
            old(self).light_set(
                final(self),
                intersection_id,
                (TrafficLight { queue_count: count, ..old(self).light_at(intersection_id)->Some_0 }),
            ),
    {
        match find_place(&self.light_ids, intersection_id) {
            Some(i) => {
                self.traffic_lights[i].queue_count = count;
                assert(signal_ids(self.traffic_lights@) =~= self.light_ids@);
            },
            None => {},
        }
    }

    /// Tells of every signal.
    pub fn all_state_updates(&self) -> (r: Vec<LightStateUpdate>)
        ensures
            tell_of(r@, self.traffic_lights@),
    {
        let mut out: Vec<LightStateUpdate> = Vec::new();
        let mut i: usize = 0;
        while i < self.traffic_lights.len()
            invariant
                i <= self.traffic_lights@.len(),
                out@.len() == i,
                forall|j: int|
                    0 <= j < i ==> self.traffic_lights@[j].told_by(#[trigger] out@[j]),
            decreases self.traffic_lights.len() - i,
        {
            out.push(self.traffic_lights[i].to_state_update());
            i = i + 1;
        }
        out
    }
}

/// Where the node has neither a signal nor a stop sign, a vehicle may always pass; a vehicle
/// that has stopped is held by nothing but a signal.
pub proof fn law_unsigned_nodes_pass(m: IntersectionManager, id: u64, stopped: bool)
    ensures
        m.light_at(id) is None && !m.stop_nodes@.contains(id) ==> m.lets_pass(id, stopped),
        m.light_at(id) is None ==> m.lets_pass(id, true),
        m.light_at(id) is None && m.stop_nodes@.contains(id) ==> !m.lets_pass(id, false),
{
}

/// Every node with a signal, and no other, gets one: on a fixed program and red at first.
pub proof fn law_signalled_nodes_get_signals(nodes: Seq<RoadNode>, l: TrafficLight)
    ensures
        signals_of(nodes).contains(l) <==> exists|k: int|
            0 <= k < nodes.len() && ((#[trigger] nodes[k]).intersection_type
                == IntersectionType::TrafficLight || nodes[k].intersection_type
                == IntersectionType::PedestrianCrossing) && l == TrafficLight::fresh(
                nodes[k].osm_id,
            ),
        l == TrafficLight::fresh(l.intersection_id) ==> l.current_phase == LightPhase::Red
            && l.phase_timer == 0 && l.red_duration == 30_000_000 && l.green_duration == 30_000_000
            && l.yellow_duration == 3_000_000,
    decreases nodes.len(),
{
    if nodes.len() > 0 {
        let front = nodes.drop_last();
        law_signalled_nodes_get_signals(front, l);
        let before = signals_of(front);
        let now = signals_of(nodes);
        let last = nodes[nodes.len() - 1];
        assert(last == nodes.last());
        if before.contains(l) {
            let i = choose|i: int| 0 <= i < before.len() && before[i] == l;
            assert(now[i] == l);
            let k = choose|k: int|
                0 <= k < front.len() && ((#[trigger] front[k]).intersection_type
                    == IntersectionType::TrafficLight || front[k].intersection_type
                    == IntersectionType::PedestrianCrossing) && l == TrafficLight::fresh(
                    front[k].osm_id,
                );
            assert(nodes[k] == front[k]);
        }
        if is_signalled(last.intersection_type) {
            assert(now[before.len() as int] == TrafficLight::fresh(last.osm_id));
        }
        if now.contains(l) {
            let i = choose|i: int| 0 <= i < now.len() && now[i] == l;
            if i < before.len() {
                assert(before[i] == l);
            }
        }
        if exists|k: int|
            0 <= k < nodes.len() && ((#[trigger] nodes[k]).intersection_type
                == IntersectionType::TrafficLight || nodes[k].intersection_type
                == IntersectionType::PedestrianCrossing) && l == TrafficLight::fresh(
                nodes[k].osm_id,
            ) {
            let k = choose|k: int|
                0 <= k < nodes.len() && ((#[trigger] nodes[k]).intersection_type
                    == IntersectionType::TrafficLight || nodes[k].intersection_type
                    == IntersectionType::PedestrianCrossing) && l == TrafficLight::fresh(
                    nodes[k].osm_id,
                );
            if k < front.len() {
                assert(front[k] == nodes[k]);
            }
        }
    }
}

/// What is told of are exactly the signals that show another phase than before.
pub proof fn law_changes_are_told(lights: Seq<TrafficLight>, dt: i64, k: int)
    requires
        0 <= k < lights.len(),
    ensures
        lights[k].stepped(dt).current_phase != lights[k].current_phase ==> changed(
            lights,
            dt,
        ).contains(lights[k].stepped(dt)),
        forall|i: int|
            0 <= i < changed(lights, dt).len() ==> exists|j: int|
                0 <= j < lights.len() && #[trigger] changed(lights, dt)[i] == (
                #[trigger] lights[j]).stepped(dt) && lights[j].stepped(dt).current_phase
                    != lights[j].current_phase,
    decreases lights.len(),
{
    let front = lights.drop_last();
    let before = changed(front, dt);
    let now = changed(lights, dt);
    if front.len() > 0 {
        law_changes_are_told(
            front,
            dt,
            if k < front.len() {
                k
            } else {
                0
            },
        );
    }
    assert(lights[lights.len() - 1] == lights.last());
    if k < front.len() {
        assert(front[k] == lights[k]);
        if before.contains(lights[k].stepped(dt)) {
            let i = choose|i: int| 0 <= i < before.len() && before[i] == lights[k].stepped(dt);
            assert(now[i] == before[i]);
        }
    } else if lights[k].stepped(dt).current_phase != lights[k].current_phase {
        assert(now[before.len() as int] == lights[k].stepped(dt));
    }
    assert forall|i: int| 0 <= i < now.len() implies exists|j: int|
        0 <= j < lights.len() && #[trigger] now[i] == (#[trigger] lights[j]).stepped(dt)
            && lights[j].stepped(dt).current_phase != lights[j].current_phase by {
        if i < before.len() {
            assert(now[i] == before[i]);
            let j = choose|j: int|
                0 <= j < front.len() && before[i] == (#[trigger] front[j]).stepped(dt)
                    && front[j].stepped(dt).current_phase != front[j].current_phase;
            assert(lights[j] == front[j]);
        } else {
            assert(now[i] == lights[lights.len() - 1].stepped(dt));
        }
    }
}

/// Where there is a signal, a vehicle passes exactly while it shows green; at a stop sign it passes
/// exactly after it has stopped.
pub proof fn law_who_passes(m: IntersectionManager, id: u64, stopped: bool)
    ensures
        m.light_at(id) matches Some(l) ==> (m.lets_pass(id, stopped) <==> l.current_phase
            == LightPhase::Green),
        m.light_at(id) is None && m.stop_nodes@.contains(id) ==> (m.lets_pass(id, stopped)
            <==> stopped),
        m.light_at(id) is None && !m.stop_nodes@.contains(id) ==> m.lets_pass(id, stopped),
{
}

/// Exactly the nodes of a kind are listed.
pub proof fn law_nodes_of_kind(nodes: Seq<RoadNode>, t: IntersectionType, id: u64)
    ensures
        ids_of_kind(nodes, t).contains(id) <==> exists|i: int|
            0 <= i < nodes.len() && (#[trigger] nodes[i]).intersection_type == t && nodes[i].osm_id
                == id,
    decreases nodes.len(),
{
    if nodes.len() > 0 {
        let front = nodes.drop_last();
        law_nodes_of_kind(front, t, id);
        let before = ids_of_kind(front, t);
        let now = ids_of_kind(nodes, t);
        let n = front.len() as int;
        if before.contains(id) {
            let k = choose|k: int| 0 <= k < before.len() && before[k] == id;
            assert(now[k] == id);
            let i = choose|i: int|
                0 <= i < front.len() && (#[trigger] front[i]).intersection_type == t
                    && front[i].osm_id == id;
            assert(nodes[i] == front[i]);
        }
        if nodes[n].intersection_type == t {
            assert(now[before.len() as int] == nodes[n].osm_id);
        }
        if now.contains(id) && !before.contains(id) {
            let k = choose|k: int| 0 <= k < now.len() && now[k] == id;
            if k < before.len() {
                assert(before[k] == id);
            }
            assert(nodes[n].intersection_type == t && nodes[n].osm_id == id);
        }
        if exists|i: int|
            0 <= i < nodes.len() && (#[trigger] nodes[i]).intersection_type == t && nodes[i].osm_id
                == id {
            let i = choose|i: int|
                0 <= i < nodes.len() && (#[trigger] nodes[i]).intersection_type == t
                    && nodes[i].osm_id == id;
            if i < n {
                assert(front[i] == nodes[i]);
            }
        }
    }
}

/// Setting a signal leaves all other signals as they are.
pub proof fn law_other_signals_stay(
    m: IntersectionManager,
    after: IntersectionManager,
    id: u64,
    l: TrafficLight,
    i: int,
)
    requires
        m.light_set(&after, id, l),
        0 <= i < m.traffic_lights@.len(),
        m.traffic_lights@.len() == m.light_ids@.len(),
    ensures
        after.traffic_lights@.len() == m.traffic_lights@.len(),
        m.light_ids@[i] != id ==> after.traffic_lights@[i] == m.traffic_lights@[i],
        m.light_ids@[i] == id && m.light_ids@.no_duplicates() ==> after.traffic_lights@[i] == l,
{
    if m.light_ids@.contains(id) {
        let p = place_of(m.light_ids@, id);
        assert(m.light_ids@[p] == id);
    }
    if m.light_ids@[i] == id {
        assert(m.light_ids@.contains(id));
    }
}

} // verus!
