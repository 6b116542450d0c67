//! Where drawn lines cross: the curves of the connectors of a map, and the ways through a junction.

use vstd::prelude::*;

use crate::map::curves::{merge_close_points, merged, segment_intersection_xy, segments_cross};
use crate::map::lane_graph::{LaneGraph, NO_EDGE};
use crate::map::polyline::in_plane;
use crate::simulation::conflict_build::Crossing;
use crate::simulation::route_line::{polyline_segment_intersection, steps_cross, LineStep};

verus! {

/// Places of crossing connectors that are closer than this are one.
pub const MERGE_DISTANCE: i64 = 2_500_000;

/// A straight part of a drawn curve.
pub type Segment = ((i64, i64), (i64, i64));

/// Both ends of each part can be measured.
pub open spec fn can_measure(line: Seq<Segment>) -> bool {
    forall|i: int| 0 <= i < line.len() ==> in_plane((#[trigger] line[i]).0) && in_plane(line[i].1)
}

/// Where a part crosses the first `n` parts of a line.
pub open spec fn hits_of_part(a: Segment, line: Seq<Segment>, n: int) -> Seq<(i64, i64)>
    decreases n,
{
    if n <= 0 {
        Seq::empty()
    } else {
        let before = hits_of_part(a, line, n - 1);
        match segments_cross(a, line[n - 1]) {
            Some(p) => before.push((p.0 as i64, p.1 as i64)),
            None => before,
        }
    }
}

/// Where the first `n` parts of a line cross another line.
pub open spec fn hits_of_line(a: Seq<Segment>, b: Seq<Segment>, n: int) -> Seq<(i64, i64)>
    decreases n,
{
    if n <= 0 {
        Seq::empty()
    } else {
        hits_of_line(a, b, n - 1) + hits_of_part(a[n - 1], b, b.len() as int)
    }
}

/// Where two lines cross; places close to each other are merged.
pub open spec fn places_of(a: Seq<Segment>, b: Seq<Segment>) -> Seq<(i64, i64)> {
    merged(hits_of_line(a, b, a.len() as int), MERGE_DISTANCE as int)
}

/// A place where two connectors cross, with their ids.
#[derive(Clone, Copy, Debug)]
pub struct ConnectorCrossing {
    pub ids: (u64, u64),
    pub place: (i64, i64),
}

/// The crossings of two connectors, one for each place.
pub open spec fn crossings_of_pair(
    a: u64,
    b: u64,
    places: Seq<(i64, i64)>,
) -> Seq<ConnectorCrossing> {
    places.map_values(|p: (i64, i64)| ConnectorCrossing { ids: (a, b), place: p })
}

/// The crossings of connector `i` with the connectors behind it, up to connector `j`.
pub open spec fn crossings_behind(
    ids: Seq<u64>,
    lines: Seq<Seq<Segment>>,
    i: int,
    j: int,
) -> Seq<ConnectorCrossing>
    decreases j - i,
{
    if j <= i + 1 {
        Seq::empty()
    } else {
        crossings_behind(ids, lines, i, j - 1) + crossings_of_pair(
            ids[i],
            ids[j - 1],
            places_of(lines[i], lines[j - 1]),
        )
    }
}

/// The crossings of the first `i` connectors with those behind them.
pub open spec fn crossings_up_to(
    ids: Seq<u64>,
    lines: Seq<Seq<Segment>>,
    i: int,
) -> Seq<ConnectorCrossing>
    decreases i,
{
    if i <= 0 {
        Seq::empty()
    } else {
        crossings_up_to(ids, lines, i - 1) + crossings_behind(
            ids,
            lines,
            i - 1,
            ids.len() as int,
        )
    }
}

/// The parts of drawn curves, as values.
pub open spec fn lines_of(lines: Seq<Vec<Segment>>) -> Seq<Seq<Segment>> {
    lines.map_values(|l: Vec<Segment>| l@)
}

fn find_places(a: &Vec<Segment>, b: &Vec<Segment>) -> (r: Vec<(i64, i64)>)
    requires
        can_measure(a@),
        can_measure(b@),
    ensures
        r@ == places_of(a@, b@),
{
    let mut hits: Vec<(i64, i64)> = Vec::new();
    let mut i: usize = 0;
    assert(hits@ =~= hits_of_line(a@, b@, 0));
    while i < a.len()
        invariant
            i <= a@.len(),
            can_measure(a@),
            can_measure(b@),
            hits@ == hits_of_line(a@, b@, i as int),
        decreases a.len() - i,
    {
        let part: Segment = a[i];
        let ghost before = hits@;
        let mut j: usize = 0;
        assert(hits@ =~= before + hits_of_part(part, b@, 0));
        while j < b.len()
            invariant
                i < a@.len(),
                part == a@[i as int],
                j <= b@.len(),
                can_measure(a@),
                can_measure(b@),
                hits@ == before + hits_of_part(part, b@, j as int),
            decreases b.len() - j,
        {
            match segment_intersection_xy(part, b[j]) {
                Some(p) => {
                    hits.push(p);
                    assert(hits@ =~= before + hits_of_part(part, b@, j as int).push(p));
                },
                None => {},
            }
            j = j + 1;
        }
        i = i + 1;
    }
    merge_close_points(&hits, MERGE_DISTANCE)
}

/// Where the curves of connectors cross, each drawn as a line: every pair in the order of the list,
/// and the places of a pair in the order in which they lie on its first line.
pub fn connector_crossings(ids: &Vec<u64>, lines: &Vec<Vec<Segment>>) -> (r: Vec<
    ConnectorCrossing,
>)
    requires
        ids@.len() == lines@.len(),
        forall|i: int| 0 <= i < lines@.len() ==> can_measure((#[trigger] lines@[i])@),
    ensures
        r@ == crossings_up_to(ids@, lines_of(lines@), ids@.len() as int),
{
    let ghost drawn = lines_of(lines@);
    let mut out: Vec<ConnectorCrossing> = Vec::new();
    let mut i: usize = 0;
    assert(out@ =~= crossings_up_to(ids@, drawn, 0));
    while i < ids.len()
        invariant
            i <= ids@.len(),
            ids@.len() == lines@.len(),
            drawn == lines_of(lines@),
            forall|i: int| 0 <= i < lines@.len() ==> can_measure((#[trigger] lines@[i])@),
            out@ == crossings_up_to(ids@, drawn, i as int),
        decreases ids.len() - i,
    {
        let ghost before = out@;
        let mut j: usize = i + 1;
        assert(out@ =~= before + crossings_behind(ids@, drawn, i as int, j as int));
        while j < ids.len()
            invariant
                i < j <= ids@.len(),
                ids@.len() == lines@.len(),
                drawn == lines_of(lines@),
                forall|i: int| 0 <= i < lines@.len() ==> can_measure((#[trigger] lines@[i])@),
                out@ == before + crossings_behind(ids@, drawn, i as int, j as int),
            decreases ids.len() - j,
        {
            let places: Vec<(i64, i64)> = find_places(&lines[i], &lines[j]);
            let ghost all = crossings_of_pair(ids@[i as int], ids@[j as int], places@);
            let ghost held = out@;
            let mut k: usize = 0;
            assert(out@ =~= held + all.take(0));
            while k < places.len()
                invariant
                    i < ids@.len(),
                    j < ids@.len(),
                    k <= places@.len(),
                    all == crossings_of_pair(ids@[i as int], ids@[j as int], places@),
                    out@ == held + all.take(k as int),
                decreases places.len() - k,
            {
                out.push(ConnectorCrossing { ids: (ids[i], ids[j]), place: places[k] });
                assert(out@ =~= held + all.take(k + 1));
                k = k + 1;
            }
            proof {
                assert(all.take(k as int) =~= all);
                assert(drawn[i as int] == lines@[i as int]@ && drawn[j as int]
                    == lines@[j as int]@);
                assert(before + crossings_behind(ids@, drawn, i as int, j as int) + all =~= before
                    + crossings_behind(ids@, drawn, i as int, j + 1));
            }
            j = j + 1;
        }
        i = i + 1;
    }
    out
}

/// A connector of a map with the lane that leads to it and the lane that it leads to.
#[derive(Clone, Copy, Debug, PartialEq, Eq, Structural)]
pub struct ConnectorEnds {
    pub from: u64,
    pub id: u64,
    pub to: u64,
}

/// Whether a connector is in a list.
pub open spec fn is_listed(list: Seq<ConnectorEnds>, id: u64) -> bool {
    exists|i: int| 0 <= i < list.len() && (#[trigger] list[i]).id == id
}

/// The list with a connection of a lane added, where that is a connector which leads to a lane and is
/// not in the list yet.
pub open spec fn with_connection(
    lanes: LaneGraph,
    list: Seq<ConnectorEnds>,
    from: u64,
    id: u64,
) -> Seq<ConnectorEnds> {
    if lanes.is_connector(id) && !is_listed(list, id) && lanes.lane(id).connections@.len() > 0
        && lanes.has(lanes.lane(id).connections@[0]) {
        list.push(ConnectorEnds { from, id, to: lanes.lane(id).connections@[0] })
    } else {
        list
    }
}

/// The list with the first `n` connections of a lane added.
pub open spec fn with_connections(
    lanes: LaneGraph,
    list: Seq<ConnectorEnds>,
    from: u64,
    n: int,
) -> Seq<ConnectorEnds>
    decreases n,
{
    if n <= 0 {
        list
    } else {
        with_connection(
            lanes,
            with_connections(lanes, list, from, n - 1),
            from,
            lanes.lane(from).connections@[n - 1],
        )
    }
}

/// The connectors that the first `n` lanes lead to; connectors themselves lead to none.
pub open spec fn connectors_up_to(lanes: LaneGraph, n: int) -> Seq<ConnectorEnds>
    decreases n,
{
    if n <= 0 {
        Seq::empty()
    } else {
        let before = connectors_up_to(lanes, n - 1);
        if lanes.lanes@[n - 1].edge_id == NO_EDGE {
            before
        } else {
            with_connections(
                lanes,
                before,
                n as u64,
                lanes.lanes@[n - 1].connections@.len() as int,
            )
        }
    }
}

fn is_in_list(list: &Vec<ConnectorEnds>, id: u64) -> (r: bool)
    ensures
        r == is_listed(list@, id),
{
    let mut i: usize = 0;
    while i < list.len()
        invariant
            i <= list@.len(),
            forall|k: int| 0 <= k < i ==> (#[trigger] list@[k]).id != id,
        decreases list.len() - i,
    {
        if list[i].id == id {
            return true;
        }
        i = i + 1;
    }
    false
}

/// The connectors of a map that are drawn, in the order of the lanes that lead to them.
pub fn drawn_connectors(lanes: &LaneGraph) -> (r: Vec<ConnectorEnds>)
    requires
        lanes.lanes@.len() < u64::MAX,
    ensures
        r@ == connectors_up_to(*lanes, lanes.lanes@.len() as int),
{
    let count: usize = lanes.lanes.len();
    let mut out: Vec<ConnectorEnds> = Vec::new();
    let mut l: usize = 0;
    assert(out@ =~= connectors_up_to(*lanes, 0));
    while l < count
        invariant
            l <= count,
            count == lanes.lanes@.len(),
            count < u64::MAX,
            out@ == connectors_up_to(*lanes, l as int),
        decreases count - l,
    {
        if lanes.lanes[l].edge_id != NO_EDGE {
            let from: u64 = l as u64 + 1;
            let ghost before = out@;
            let conns: &Vec<u64> = &lanes.lanes[l].connections;
            let mut k: usize = 0;
            while k < conns.len()
                invariant
                    l < count,
                    count == lanes.lanes@.len(),
                    count < u64::MAX,
                    from == l + 1,
                    *conns == lanes.lanes@[l as int].connections,
                    k <= conns@.len(),
                    out@ == with_connections(*lanes, before, from, k as int),
                decreases conns.len() - k,
            {
                let id: u64 = conns[k];
                if id >= 1 && id <= count as u64 && !is_in_list(&out, id) {
                    let c: usize = (id - 1) as usize;
                    if lanes.lanes[c].edge_id == NO_EDGE && lanes.lanes[c].connections.len() > 0 {
                        let to: u64 = lanes.lanes[c].connections[0];
                        if to >= 1 && to <= count as u64 {
                            out.push(ConnectorEnds { from, id, to });
                        }
                    }
                }
                k = k + 1;
            }
        }
        l = l + 1;
    }
    out
}

/// Two steps of two ways through a junction, by their places in the lists.
#[derive(Clone, Copy, Debug, PartialEq, Eq, Structural)]
pub struct StepPair {
    pub a: usize,
    pub b: usize,
    pub s: usize,
    pub t: usize,
}

/// The pairs of one step of a way with `n` steps of another.
pub open spec fn pairs_of_step(a: int, b: int, s: int, n: int) -> Seq<StepPair> {
    Seq::new(
        n as nat,
        |t: int| StepPair { a: a as usize, b: b as usize, s: s as usize, t: t as usize },
    )
}

/// The pairs of the first `m` steps of a way with `n` steps of another.
pub open spec fn pairs_of_ways(a: int, b: int, m: int, n: int) -> Seq<StepPair>
    decreases m,
{
    if m <= 0 {
        Seq::empty()
    } else {
        pairs_of_ways(a, b, m - 1, n) + pairs_of_step(a, b, m - 1, n)
    }
}

/// The pairs of the steps of way `a` with those of the ways behind it, up to way `b`. Of each way
/// the number of its steps is given.
pub open spec fn pairs_behind(counts: Seq<int>, a: int, b: int) -> Seq<StepPair>
    decreases b - a,
{
    if b <= a + 1 {
        Seq::empty()
    } else {
        pairs_behind(counts, a, b - 1) + pairs_of_ways(a, b - 1, counts[a], counts[b - 1])
    }
}

/// The pairs of the steps of the first `a` ways with those of the ways behind them.
pub open spec fn pairs_up_to(counts: Seq<int>, a: int) -> Seq<StepPair>
    decreases a,
{
    if a <= 0 {
        Seq::empty()
    } else {
        pairs_up_to(counts, a - 1) + pairs_behind(counts, a - 1, counts.len() as int)
    }
}

/// How many steps each way has.
pub open spec fn step_counts(lines: Seq<Vec<LineStep>>) -> Seq<int> {
    lines.map_values(|l: Vec<LineStep>| l@.len() as int)
}

/// Whether a pair names two steps of some ways.
pub open spec fn names_steps(lines: Seq<Vec<LineStep>>, p: StepPair) -> bool {
    &&& p.a < p.b < lines.len()
    &&& p.s < lines[p.a as int]@.len()
    &&& p.t < lines[p.b as int]@.len()
}

/// The pairs of steps of different ways through a junction, in the order of the ways and their steps.
pub fn step_pairs(lines: &Vec<Vec<LineStep>>) -> (r: Vec<StepPair>)
    ensures
        r@ == pairs_up_to(step_counts(lines@), lines@.len() as int),
        forall|k: int| 0 <= k < r@.len() ==> names_steps(lines@, #[trigger] r@[k]),
{
    let ghost counts = step_counts(lines@);
    let mut out: Vec<StepPair> = Vec::new();
    let mut a: usize = 0;
    assert(out@ =~= pairs_up_to(counts, 0));
    while a < lines.len()
        invariant
            a <= lines@.len(),
            counts == step_counts(lines@),
            out@ == pairs_up_to(counts, a as int),
            forall|k: int| 0 <= k < out@.len() ==> names_steps(lines@, #[trigger] out@[k]),
        decreases lines.len() - a,
    {
        let ghost before = out@;
        let mut b: usize = a + 1;
        assert(out@ =~= before + pairs_behind(counts, a as int, b as int));
        while b < lines.len()
            invariant
                a < b <= lines@.len(),
                counts == step_counts(lines@),
                out@ == before + pairs_behind(counts, a as int, b as int),
                forall|k: int| 0 <= k < out@.len() ==> names_steps(lines@, #[trigger] out@[k]),
            decreases lines.len() - b,
        {
            let (m, n): (usize, usize) = (lines[a].len(), lines[b].len());
            let ghost held = out@;
            let mut s: usize = 0;
            assert(out@ =~= held + pairs_of_ways(a as int, b as int, 0, n as int));
            while s < m
                invariant
                    a < b < lines@.len(),
                    m == lines@[a as int]@.len(),
                    n == lines@[b as int]@.len(),
                    s <= m,
                    out@ == held + pairs_of_ways(a as int, b as int, s as int, n as int),
                    forall|k: int| 0 <= k < out@.len() ==> names_steps(lines@, #[trigger] out@[k]),
                decreases m - s,
            {
                let ghost base = out@;
                let ghost row = pairs_of_step(a as int, b as int, s as int, n as int);
                let mut t: usize = 0;
                assert(out@ =~= base + row.take(0));
                while t < n
                    invariant
                        a < b < lines@.len(),
                        m == lines@[a as int]@.len(),
                        n == lines@[b as int]@.len(),
                        s < m,
                        t <= n,
                        row == pairs_of_step(a as int, b as int, s as int, n as int),
                        out@ == base + row.take(t as int),
                        forall|k: int|
                            0 <= k < out@.len() ==> names_steps(lines@, #[trigger] out@[k]),
                    decreases n - t,
                {
                    out.push(StepPair { a, b, s, t });
                    assert(out@ =~= base + row.take(t + 1));
                    t = t + 1;
                }
                proof {
                    assert(row.take(t as int) =~= row);
                    assert(held + pairs_of_ways(a as int, b as int, s as int, n as int) + row
                        =~= held + pairs_of_ways(a as int, b as int, s + 1, n as int));
                }
                s = s + 1;
            }
            proof {
                let row = pairs_of_ways(a as int, b as int, m as int, n as int);
                assert(counts[a as int] == m && counts[b as int] == n);
                assert(before + pairs_behind(counts, a as int, b as int) + row =~= before
                    + pairs_behind(counts, a as int, b + 1));
            }
            b = b + 1;
        }
        assert(counts.len() == lines@.len());
        a = a + 1;
    }
    out
}

/// The crossings of some pairs of steps that touch.
pub open spec fn crossings_of_steps(
    lines: Seq<Vec<LineStep>>,
    pairs: Seq<StepPair>,
    touch: Seq<bool>,
    n: int,
) -> Seq<Crossing>
    decreases n,
{
    if n <= 0 {
        Seq::empty()
    } else {
        let before = crossings_of_steps(lines, pairs, touch, n - 1);
        let p = pairs[n - 1];
        match steps_cross(lines[p.a as int]@[p.s as int], lines[p.b as int]@[p.t as int]) {
            Some(c) if touch[n - 1] => before.push(
                Crossing {
                    a: p.a,
                    b: p.b,
                    x: c.0.0 as i64,
                    y: c.0.1 as i64,
                    along_a: c.1 as i64,
                    along_b: c.2 as i64,
                },
            ),
            _ => before,
        }
    }
}

/// Where the ways through a junction cross: of the pairs of steps of which is told whether they touch,
/// those that do and have a place in common, in their order.
pub fn way_crossings(lines: &Vec<Vec<LineStep>>, pairs: &Vec<StepPair>, touch: &Vec<bool>) -> (r:
    Vec<Crossing>)
    requires
        touch@.len() == pairs@.len(),
        forall|k: int| 0 <= k < pairs@.len() ==> names_steps(lines@, #[trigger] pairs@[k]),
        forall|i: int, j: int|
            0 <= i < lines@.len() && 0 <= j < lines@[i]@.len() ==> (#[trigger] lines@[i]@[j]).wf(),
    ensures
        r@ == crossings_of_steps(lines@, pairs@, touch@, pairs@.len() as int),
{
    let mut out: Vec<Crossing> = Vec::new();
    let mut k: usize = 0;
    assert(out@ =~= crossings_of_steps(lines@, pairs@, touch@, 0));
    while k < pairs.len()
        invariant
            k <= pairs@.len(),
            touch@.len() == pairs@.len(),
            forall|k: int| 0 <= k < pairs@.len() ==> names_steps(lines@, #[trigger] pairs@[k]),
            forall|i: int, j: int|
                0 <= i < lines@.len() && 0 <= j < lines@[i]@.len() ==> (
                #[trigger] lines@[i]@[j]).wf(),
            out@ == crossings_of_steps(lines@, pairs@, touch@, k as int),
        decreases pairs.len() - k,
    {
        let p: StepPair = pairs[k];
        assert(names_steps(lines@, pairs@[k as int]));
        match polyline_segment_intersection(lines[p.a][p.s], lines[p.b][p.t], touch[k]) {
            Some(c) => {
                out.push(
                    Crossing {
                        a: p.a,
                        b: p.b,
                        x: c.place.0,
                        y: c.place.1,
                        along_a: c.along_a,
                        along_b: c.along_b,
                    },
                );
            },
            None => {},
        }
        k = k + 1;
    }
    out
}

/// Every two steps of different ways are compared.
pub proof fn law_all_steps_are_compared(counts: Seq<int>, a: int, b: int, s: int, t: int)
    requires
        0 <= a < b < counts.len() <= usize::MAX,
        0 <= s < counts[a] <= usize::MAX,
        0 <= t < counts[b] <= usize::MAX,
    ensures
        pairs_up_to(counts, counts.len() as int).contains(
            StepPair { a: a as usize, b: b as usize, s: s as usize, t: t as usize },
        ),
{
    lemma_step_compared(counts, counts.len() as int, a, b, s, t);
}

proof fn lemma_step_compared(counts: Seq<int>, n: int, a: int, b: int, s: int, t: int)
    requires
        0 <= a < b < counts.len() <= usize::MAX,
        a < n,
        0 <= s < counts[a] <= usize::MAX,
        0 <= t < counts[b] <= usize::MAX,
    ensures
        pairs_up_to(counts, n).contains(
            StepPair { a: a as usize, b: b as usize, s: s as usize, t: t as usize },
        ),
    decreases n,
{
    let p = StepPair { a: a as usize, b: b as usize, s: s as usize, t: t as usize };
    let before = pairs_up_to(counts, n - 1);
    let more = pairs_behind(counts, n - 1, counts.len() as int);
    let now = pairs_up_to(counts, n);
    if a < n - 1 {
        lemma_step_compared(counts, n - 1, a, b, s, t);
        let k = choose|k: int| 0 <= k < before.len() && before[k] == p;
        assert(now[k] == p);
    } else {
        lemma_step_compared_behind(counts, counts.len() as int, a, b, s, t);
        let k = choose|k: int| 0 <= k < more.len() && more[k] == p;
        assert(now[before.len() + k] == p);
    }
}

proof fn lemma_step_compared_behind(counts: Seq<int>, n: int, a: int, b: int, s: int, t: int)
    requires
        0 <= a < b < n <= counts.len() <= usize::MAX,
        0 <= s < counts[a] <= usize::MAX,
        0 <= t < counts[b] <= usize::MAX,
    ensures
        pairs_behind(counts, a, n).contains(
            StepPair { a: a as usize, b: b as usize, s: s as usize, t: t as usize },
        ),
    decreases n,
{
    let p = StepPair { a: a as usize, b: b as usize, s: s as usize, t: t as usize };
    let before = pairs_behind(counts, a, n - 1);
    let more = pairs_of_ways(a, n - 1, counts[a], counts[n - 1]);
    let now = pairs_behind(counts, a, n);
    if b < n - 1 {
        lemma_step_compared_behind(counts, n - 1, a, b, s, t);
        let k = choose|k: int| 0 <= k < before.len() && before[k] == p;
        assert(now[k] == p);
    } else {
        lemma_step_of_ways(a, b, counts[a], counts[b], s, t);
        let k = choose|k: int| 0 <= k < more.len() && more[k] == p;
        assert(now[before.len() + k] == p);
    }
}

proof fn lemma_step_of_ways(a: int, b: int, m: int, n: int, s: int, t: int)
    requires
        0 <= s < m,
        0 <= t < n,
    ensures
        pairs_of_ways(a, b, m, n).contains(
            StepPair { a: a as usize, b: b as usize, s: s as usize, t: t as usize },
        ),
    decreases m,
{
    let p = StepPair { a: a as usize, b: b as usize, s: s as usize, t: t as usize };
    let before = pairs_of_ways(a, b, m - 1, n);
    let now = pairs_of_ways(a, b, m, n);
    if s < m - 1 {
        lemma_step_of_ways(a, b, m - 1, n, s, t);
        let k = choose|k: int| 0 <= k < before.len() && before[k] == p;
        assert(now[k] == p);
    } else {
        assert(now[before.len() + t] == p);
    }
}

/// Wherever a part of one connector crosses a part of another, the place is among the hits that are then
/// merged.
pub proof fn law_crossing_parts_are_hits(a: Seq<Segment>, b: Seq<Segment>, i: int, j: int)
    requires
        0 <= i < a.len(),
        0 <= j < b.len(),
        segments_cross(a[i], b[j]) is Some,
    ensures
        hits_of_line(a, b, a.len() as int).contains(
            (
                segments_cross(a[i], b[j])->Some_0.0 as i64,
                segments_cross(a[i], b[j])->Some_0.1 as i64,
            ),
        ),
{
    lemma_hit_of_line(a, b, a.len() as int, i, j);
}

proof fn lemma_hit_of_line(a: Seq<Segment>, b: Seq<Segment>, n: int, i: int, j: int)
    requires
        0 <= i < n <= a.len(),
        0 <= j < b.len(),
        segments_cross(a[i], b[j]) is Some,
    ensures
        hits_of_line(a, b, n).contains(
            (
                segments_cross(a[i], b[j])->Some_0.0 as i64,
                segments_cross(a[i], b[j])->Some_0.1 as i64,
            ),
        ),
    decreases n,
{
    let c = segments_cross(a[i], b[j])->Some_0;
    let p = (c.0 as i64, c.1 as i64);
    let before = hits_of_line(a, b, n - 1);
    let more = hits_of_part(a[n - 1], b, b.len() as int);
    let now = hits_of_line(a, b, n);
    if i < n - 1 {
        lemma_hit_of_line(a, b, n - 1, i, j);
        let k = choose|k: int| 0 <= k < before.len() && before[k] == p;
        assert(now[k] == p);
    } else {
        lemma_hit_of_part(a[i], b, b.len() as int, j);
        let k = choose|k: int| 0 <= k < more.len() && more[k] == p;
        assert(now[before.len() + k] == p);
    }
}

proof fn lemma_hit_of_part(a: Segment, line: Seq<Segment>, n: int, j: int)
    requires
        0 <= j < n <= line.len(),
        segments_cross(a, line[j]) is Some,
    ensures
        hits_of_part(a, line, n).contains(
            (
                segments_cross(a, line[j])->Some_0.0 as i64,
                segments_cross(a, line[j])->Some_0.1 as i64,
            ),
        ),
    decreases n,
{
    let c = segments_cross(a, line[j])->Some_0;
    let p = (c.0 as i64, c.1 as i64);
    let before = hits_of_part(a, line, n - 1);
    let now = hits_of_part(a, line, n);
    if j < n - 1 {
        lemma_hit_of_part(a, line, n - 1, j);
        let k = choose|k: int| 0 <= k < before.len() && before[k] == p;
        assert(now[k] == p);
    } else {
        assert(now[before.len() as int] == p);
    }
}

/// The crossings of every two connectors are told.
pub proof fn law_all_connectors_are_crossed(
    ids: Seq<u64>,
    lines: Seq<Seq<Segment>>,
    i: int,
    j: int,
    k: int,
)
    requires
        ids.len() == lines.len(),
        0 <= i < j < ids.len(),
        0 <= k < places_of(lines[i], lines[j]).len(),
    ensures
        crossings_up_to(ids, lines, ids.len() as int).contains(
            ConnectorCrossing { ids: (ids[i], ids[j]), place: places_of(lines[i], lines[j])[k] },
        ),
{
    lemma_connector_crossed(ids, lines, ids.len() as int, i, j, k);
}

proof fn lemma_connector_crossed(
    ids: Seq<u64>,
    lines: Seq<Seq<Segment>>,
    n: int,
    i: int,
    j: int,
    k: int,
)
    requires
        0 <= i < j < ids.len(),
        i < n,
        0 <= k < places_of(lines[i], lines[j]).len(),
    ensures
        crossings_up_to(ids, lines, n).contains(
            ConnectorCrossing { ids: (ids[i], ids[j]), place: places_of(lines[i], lines[j])[k] },
        ),
    decreases n,
{
    let c = ConnectorCrossing { ids: (ids[i], ids[j]), place: places_of(lines[i], lines[j])[k] };
    let before = crossings_up_to(ids, lines, n - 1);
    let more = crossings_behind(ids, lines, n - 1, ids.len() as int);
    let now = crossings_up_to(ids, lines, n);
    if i < n - 1 {
        lemma_connector_crossed(ids, lines, n - 1, i, j, k);
        let x = choose|x: int| 0 <= x < before.len() && before[x] == c;
        assert(now[x] == c);
    } else {
        lemma_connector_crossed_behind(ids, lines, ids.len() as int, i, j, k);
        let x = choose|x: int| 0 <= x < more.len() && more[x] == c;
        assert(now[before.len() + x] == c);
    }
}

proof fn lemma_connector_crossed_behind(
    ids: Seq<u64>,
    lines: Seq<Seq<Segment>>,
    n: int,
    i: int,
    j: int,
    k: int,
)
    requires
        0 <= i < j < n <= ids.len(),
        0 <= k < places_of(lines[i], lines[j]).len(),
    ensures
        crossings_behind(ids, lines, i, n).contains(
            ConnectorCrossing { ids: (ids[i], ids[j]), place: places_of(lines[i], lines[j])[k] },
        ),
    decreases n,
{
    let c = ConnectorCrossing { ids: (ids[i], ids[j]), place: places_of(lines[i], lines[j])[k] };
    let before = crossings_behind(ids, lines, i, n - 1);
    let now = crossings_behind(ids, lines, i, n);
    if j < n - 1 {
        lemma_connector_crossed_behind(ids, lines, n - 1, i, j, k);
        let x = choose|x: int| 0 <= x < before.len() && before[x] == c;
        assert(now[x] == c);
    } else {
        assert(now[before.len() + k] == c);
    }
}

/// A connector that a lane leads to is listed.
pub proof fn law_connectors_are_listed(lanes: LaneGraph, i: int, j: int)
    requires
        0 <= i < lanes.lanes@.len(),
        lanes.lanes@[i].edge_id != NO_EDGE,
        0 <= j < lanes.lanes@[i].connections@.len(),
        lanes.is_connector(lanes.lanes@[i].connections@[j]),
        lanes.lane(lanes.lanes@[i].connections@[j]).connections@.len() > 0,
        lanes.has(lanes.lane(lanes.lanes@[i].connections@[j]).connections@[0]),
        lanes.lanes@.len() < u64::MAX,
    ensures
        is_listed(
            connectors_up_to(lanes, lanes.lanes@.len() as int),
            lanes.lanes@[i].connections@[j],
        ),
{
    lemma_connector_listed(lanes, lanes.lanes@.len() as int, i, j);
}

proof fn lemma_connector_listed(lanes: LaneGraph, n: int, i: int, j: int)
    requires
        0 <= i < n <= lanes.lanes@.len() < u64::MAX,
        lanes.lanes@[i].edge_id != NO_EDGE,
        0 <= j < lanes.lanes@[i].connections@.len(),
        lanes.is_connector(lanes.lanes@[i].connections@[j]),
        lanes.lane(lanes.lanes@[i].connections@[j]).connections@.len() > 0,
        lanes.has(lanes.lane(lanes.lanes@[i].connections@[j]).connections@[0]),
    ensures
        is_listed(connectors_up_to(lanes, n), lanes.lanes@[i].connections@[j]),
    decreases n,
{
    let id = lanes.lanes@[i].connections@[j];
    let before = connectors_up_to(lanes, n - 1);
    let m = lanes.lanes@[n - 1].connections@.len() as int;
    if i < n - 1 {
        lemma_connector_listed(lanes, n - 1, i, j);
        lemma_listing_kept(lanes, before, n as u64, m, id);
    } else {
        assert(lanes.lane(n as u64) == lanes.lanes@[n - 1]);
        lemma_connection_listed(lanes, before, n as u64, m, j);
    }
}

proof fn lemma_listing_kept(lanes: LaneGraph, list: Seq<ConnectorEnds>, from: u64, n: int, id: u64)
    requires
        is_listed(list, id),
    ensures
        is_listed(with_connections(lanes, list, from, n), id),
    decreases n,
{
    if n > 0 {
        lemma_listing_kept(lanes, list, from, n - 1, id);
        let before = with_connections(lanes, list, from, n - 1);
        let now = with_connections(lanes, list, from, n);
        let k = choose|k: int| 0 <= k < before.len() && (#[trigger] before[k]).id == id;
        assert(now[k] == before[k]);
    }
}

proof fn lemma_connection_listed(
    lanes: LaneGraph,
    list: Seq<ConnectorEnds>,
    from: u64,
    n: int,
    j: int,
)
    requires
        0 <= j < n <= lanes.lane(from).connections@.len(),
        lanes.is_connector(lanes.lane(from).connections@[j]),
        lanes.lane(lanes.lane(from).connections@[j]).connections@.len() > 0,
        lanes.has(lanes.lane(lanes.lane(from).connections@[j]).connections@[0]),
    ensures
        is_listed(with_connections(lanes, list, from, n), lanes.lane(from).connections@[j]),
    decreases n,
{
    let id = lanes.lane(from).connections@[j];
    let before = with_connections(lanes, list, from, n - 1);
    let now = with_connections(lanes, list, from, n);
    if j < n - 1 {
        lemma_connection_listed(lanes, list, from, n - 1, j);
        let k = choose|k: int| 0 <= k < before.len() && (#[trigger] before[k]).id == id;
        assert(now[k] == before[k]);
    } else if !is_listed(before, id) {
        assert(now[before.len() as int].id == id);
    }
}

/// Only connectors are listed, each with a lane that leads over it and with the lane that it leads to.
pub proof fn law_only_connectors_are_listed(lanes: LaneGraph, n: int, k: int)
    requires
        0 <= n <= lanes.lanes@.len() < u64::MAX,
        0 <= k < connectors_up_to(lanes, n).len(),
    ensures
        lists_connector(lanes, connectors_up_to(lanes, n)[k]),
    decreases n,
{
    let before = connectors_up_to(lanes, n - 1);
    if k < before.len() {
        law_only_connectors_are_listed(lanes, n - 1, k);
    }
    if lanes.lanes@[n - 1].edge_id != NO_EDGE {
        assert(lanes.lane(n as u64) == lanes.lanes@[n - 1]);
        lemma_connections_listed(
            lanes,
            before,
            n as u64,
            lanes.lanes@[n - 1].connections@.len() as int,
            k,
        );
    }
}

/// Whether an entry names a connector, a lane that leads over it and the lane that it leads to.
pub open spec fn lists_connector(lanes: LaneGraph, c: ConnectorEnds) -> bool {
    &&& lanes.has(c.from)
    &&& lanes.lane(c.from).edge_id != NO_EDGE
    &&& lanes.lane(c.from).connections@.contains(c.id)
    &&& lanes.has(c.id)
    &&& lanes.lane(c.id).edge_id == NO_EDGE
    &&& lanes.lane(c.id).connections@.len() > 0
    &&& lanes.lane(c.id).connections@[0] == c.to
    &&& lanes.has(c.to)
}

proof fn lemma_connections_listed(
    lanes: LaneGraph,
    list: Seq<ConnectorEnds>,
    from: u64,
    n: int,
    k: int,
)
    requires
        lanes.has(from),
        lanes.lane(from).edge_id != NO_EDGE,
        0 <= n <= lanes.lane(from).connections@.len(),
        0 <= k < with_connections(lanes, list, from, n).len(),
    ensures
        k < list.len() ==> with_connections(lanes, list, from, n)[k] == list[k],
        k >= list.len() ==> lists_connector(lanes, with_connections(lanes, list, from, n)[k]),
        with_connections(lanes, list, from, n).len() >= list.len(),
    decreases n,
{
    if n > 0 {
        let before = with_connections(lanes, list, from, n - 1);
        lemma_connections_grow(lanes, list, from, n - 1);
        if k < before.len() {
            lemma_connections_listed(lanes, list, from, n - 1, k);
        } else {
            let id = lanes.lane(from).connections@[n - 1];
            assert(lanes.lane(from).connections@.contains(id));
        }
    }
}

proof fn lemma_connections_grow(lanes: LaneGraph, list: Seq<ConnectorEnds>, from: u64, n: int)
    ensures
        with_connections(lanes, list, from, n).len() >= list.len(),
    decreases n,
{
    if n > 0 {
        lemma_connections_grow(lanes, list, from, n - 1);
    }
}

} // verus!
