//! The shapes of all lanes of a map.

use vstd::prelude::*;

use crate::map::curves::{
    build_lane_connector_with_fallback, connector_points, end_of_line, start_of_line, Cubic,
};
use crate::map::lane_graph::{Lane, NO_EDGE};
use crate::map::map_data::MapData;
use crate::map::polyline::{all_in_plane, is_in_plane, length_of, line_length};
use crate::simulation::turn_plan::{
    can_be_drawn, is_lane_line, road_lane_points, shapes_ok, LaneShape,
};
use crate::units::{larger, max_of, saturated};

verus! {

/// The least length of a lane.
pub const LEAST_LANE_LENGTH: i64 = 500_000;

/// Whether `s` is a line with its length.
pub open spec fn is_measured(s: LaneShape) -> bool {
    s.length == larger(saturated(line_length(s.points@)), LEAST_LANE_LENGTH as int) && s.curve_length is None
}

/// Whether `points` follow a curve.
pub open spec fn follows(points: Seq<(i64, i64)>, c: Cubic) -> bool {
    points.len() == 41 && forall|i: int|
        0 <= i < 41 ==> ((#[trigger] points[i]).0 as int, points[i].1 as int) == c.at(i)
}

/// Whether `points` follow the curve from the end of one line to the start of another.
pub open spec fn joins(
    points: Seq<(i64, i64)>,
    from: Seq<(i64, i64)>,
    to: Seq<(i64, i64)>,
) -> bool {
    exists|c: Cubic|
        c.points() == connector_points(
            end_of_line(from).0,
            end_of_line(from).1,
            start_of_line(to).0,
            start_of_line(to).1,
        ) && #[trigger] follows(points, c)
}

/// Whether `points` is the shape of the lane of a road.
pub open spec fn road_shape(map: MapData, l: Lane, points: Seq<(i64, i64)>) -> bool {
    if l.edge_id < map.edges@.len() {
        is_lane_line(points, map, l.edge_id as int, l.lane_index as int)
    } else {
        points.len() == 0
    }
}

/// Whether lane `l` leads over connector `id` to the lane `to`.
pub open spec fn leads_over(map: MapData, l: u64, id: u64, to: u64) -> bool {
    &&& map.lanes.has(l)
    &&& map.lanes.lane(l).edge_id != NO_EDGE
    &&& map.lanes.lane(l).connections@.contains(id)
    &&& map.lanes.lane(id).connections@.len() > 0
    &&& map.lanes.lane(id).connections@[0] == to
    &&& map.lanes.has(to)
    &&& map.lanes.lane(to).edge_id != NO_EDGE
}

/// Whether the curve from one line to another can be measured.
pub open spec fn joinable(from: Seq<(i64, i64)>, to: Seq<(i64, i64)>) -> bool {
    from.len() > 0 && to.len() > 0 && exists|p: Seq<(i64, i64)>| #[trigger]
        joins(p, from, to) && all_in_plane(p)
}

/// Whether connector `id` has a shape if it can have one by the lane `l`.
pub open spec fn shaped_from(map: MapData, shapes: Seq<LaneShape>, l: u64, id: u64) -> bool {
    forall|to: u64| #[trigger]
        leads_over(map, l, id, to) && map.lanes.has(id) && map.lanes.lane(id).edge_id == NO_EDGE
            && joinable(shapes[l - 1].points@, shapes[to - 1].points@) ==> shapes[id
            - 1].points@.len() > 0
}

/// Whether shapes have only been added to connectors.
pub open spec fn only_added(map: MapData, before: Seq<LaneShape>, after: Seq<LaneShape>) -> bool {
    &&& before.len() == after.len()
    &&& forall|i: int|
        0 <= i < after.len() ==> #[trigger] after[i] == before[i] || map.lanes.lanes@[i].edge_id
            == NO_EDGE && before[i].points@.len() == 0
}

/// Whether the shapes fit the lanes of a map: lanes of roads lie beside the middle of their roads,
/// and a connector that has a shape joins a lane that leads over it to the lane that it leads to.
pub open spec fn fit_map(map: MapData, shapes: Seq<LaneShape>) -> bool {
    &&& shapes.len() == map.lanes.lanes@.len()
    &&& forall|i: int| 0 <= i < shapes.len() ==> is_measured(#[trigger] shapes[i])
    &&& forall|i: int|
        0 <= i < shapes.len() && map.lanes.lanes@[i].edge_id != NO_EDGE ==> road_shape(
            map,
            map.lanes.lanes@[i],
            (#[trigger] shapes[i]).points@,
        )
    &&& forall|i: int|
        0 <= i < shapes.len() && map.lanes.lanes@[i].edge_id == NO_EDGE ==> connector_shape(
            map,
            shapes,
            (#[trigger] shapes[i]).points@,
            (i + 1) as u64,
        )
}

/// Whether `points` is the shape of connector `id`, or nothing.
pub open spec fn connector_shape(
    map: MapData,
    shapes: Seq<LaneShape>,
    points: Seq<(i64, i64)>,
    id: u64,
) -> bool {
    points.len() == 0 || exists|l: u64, to: u64| #[trigger]
        leads_over(map, l, id, to) && joins(
            points,
            shapes[l - 1].points@,
            shapes[to - 1].points@,
        )
}

fn measured(points: Vec<(i64, i64)>) -> (r: LaneShape)
    requires
        all_in_plane(points@),
    ensures
        is_measured(r),
        r.points@ == points@,
        r.length >= 0,
{
    let length: i64 = max_of(length_of(&points), LEAST_LANE_LENGTH);
    LaneShape { points, length, curve_length: None }
}

fn road_shapes(map: &MapData) -> (r: Vec<LaneShape>)
    requires
        map.wf(),
        can_be_drawn(*map),
    ensures
        shapes_ok(r@),
        fit_map(*map, r@),
{
    let mut out: Vec<LaneShape> = Vec::new();
    let mut i: usize = 0;
    while i < map.lanes.lanes.len()
        invariant
            map.wf(),
            can_be_drawn(*map),
            i <= map.lanes.lanes@.len(),
            out@.len() == i,
            shapes_ok(out@),
            forall|k: int| 0 <= k < i ==> is_measured(#[trigger] out@[k]),
            forall|k: int|
                0 <= k < i && map.lanes.lanes@[k].edge_id != NO_EDGE ==> road_shape(
                    *map,
                    map.lanes.lanes@[k],
                    (#[trigger] out@[k]).points@,
                ),
            forall|k: int|
                0 <= k < i && map.lanes.lanes@[k].edge_id == NO_EDGE ==> (#[trigger] out@[k]).points@.len()
                    == 0,
        decreases map.lanes.lanes.len() - i,
    {
        let l: &Lane = &map.lanes.lanes[i];
        assert(map.edges.len() == map.edges@.len());
        let points: Vec<(i64, i64)> = if l.edge_id != NO_EDGE && l.edge_id
            < map.edges.len() as u64 {
            road_lane_points(map, l.edge_id as usize, l.lane_index)
        } else {
            Vec::new()
        };
        out.push(measured(points));
        i = i + 1;
    }
    out
}

/// The curve from one lane to another as a line, where it can be measured.
fn joined(from: &Vec<(i64, i64)>, to: &Vec<(i64, i64)>) -> (r: Option<Vec<(i64, i64)>>)
    requires
        all_in_plane(from@),
        all_in_plane(to@),
    ensures
        r is Some == joinable(from@, to@),
        r matches Some(p) ==> joins(p@, from@, to@) && all_in_plane(p@) && p@.len() == 41,
{
    match build_lane_connector_with_fallback(from, to) {
        Some(c) => {
            let points: Vec<(i64, i64)> = c.sampled();
            assert(follows(points@, c));
            proof {
                assert forall|p: Seq<(i64, i64)>| #[trigger] joins(p, from@, to@) implies p
                    == points@ by {
                    let d = choose|d: Cubic|
                        d.points() == connector_points(
                            end_of_line(from@).0,
                            end_of_line(from@).1,
                            start_of_line(to@).0,
                            start_of_line(to@).1,
                        ) && #[trigger] follows(p, d);
                    assert(c.points() == d.points());
                    assert(c == d);
                    assert forall|i: int| 0 <= i < 41 implies p[i] == points@[i] by {
                        assert((p[i].0 as int, p[i].1 as int) == d.at(i));
                        assert((points@[i].0 as int, points@[i].1 as int) == c.at(i));
                    }
                    assert(p =~= points@);
                }
                assert(joins(points@, from@, to@));
            }
            if is_in_plane(&points) {
                Some(points)
            } else {
                None
            }
        },
        None => None,
    }
}

fn place_connector(map: &MapData, shapes: &mut Vec<LaneShape>, from: usize, id: u64)
    requires
        map.wf(),
        shapes_ok(old(shapes)@),
        fit_map(*map, old(shapes)@),
        from < old(shapes)@.len(),
        map.lanes.lanes@[from as int].edge_id != NO_EDGE,
        map.lanes.lanes@[from as int].connections@.contains(id),
    ensures
        shapes_ok(final(shapes)@),
        fit_map(*map, final(shapes)@),
        only_added(*map, old(shapes)@, final(shapes)@),
        shaped_from(*map, final(shapes)@, (from + 1) as u64, id),
{
    let ghost before = shapes@;
    assert(shapes.len() == shapes@.len());
    if id < 1 || id > shapes.len() as u64 {
        return ;
    }
    let c: usize = (id - 1) as usize;
    if map.lanes.lanes[c].edge_id != NO_EDGE || shapes[c].points.len() > 0
        || map.lanes.lanes[c].connections.len() == 0 {
        return ;
    }
    let to: u64 = map.lanes.lanes[c].connections[0];
    if to < 1 || to > shapes.len() as u64 || map.lanes.lanes[(to - 1) as usize].edge_id == NO_EDGE {
        return ;
    }
    match joined(&shapes[from].points, &shapes[(to - 1) as usize].points) {
        Some(points) => {
            let s: LaneShape = measured(points);
            shapes.set(c, s);
            proof {
                let l = (from + 1) as u64;
                assert(leads_over(*map, l, id, to));
                assert(joins(
                    shapes@[c as int].points@,
                    shapes@[l - 1].points@,
                    shapes@[to - 1].points@,
                ));
                assert forall|i: int|
                    0 <= i < shapes@.len() && map.lanes.lanes@[i].edge_id
                        == NO_EDGE implies connector_shape(
                    *map,
                    shapes@,
                    (#[trigger] shapes@[i]).points@,
                    (i + 1) as u64,
                ) by {
                    if i != c {
                        assert(connector_shape(*map, before, before[i].points@, (i + 1) as u64));
                        if shapes@[i].points@.len() > 0 {
                            let (a, b) = choose|a: u64, b: u64| #[trigger]
                                leads_over(*map, a, (i + 1) as u64, b) && joins(
                                    before[i].points@,
                                    before[a - 1].points@,
                                    before[b - 1].points@,
                                );
                            assert(shapes@[a - 1] == before[a - 1]);
                            assert(shapes@[b - 1] == before[b - 1]);
                        }
                    }
                }
            }
        },
        None => {},
    }
}

proof fn lemma_still_shaped(
    map: MapData,
    before: Seq<LaneShape>,
    after: Seq<LaneShape>,
    l: u64,
    id: u64,
)
    requires
        before.len() == map.lanes.lanes@.len(),
        only_added(map, before, after),
        shaped_from(map, before, l, id),
    ensures
        shaped_from(map, after, l, id),
{
    assert forall|to: u64| #[trigger]
        leads_over(map, l, id, to) && map.lanes.has(id) && map.lanes.lane(id).edge_id == NO_EDGE
            && joinable(after[l - 1].points@, after[to - 1].points@) implies after[id
        - 1].points@.len() > 0 by {
        assert(after[l - 1] == before[l - 1]);
        assert(after[to - 1] == before[to - 1]);
        assert(before[id - 1].points@.len() > 0);
        assert(after[id - 1] == before[id - 1]);
    }
}

/// The shapes of all lanes of a map. Connectors get theirs from the first lane that leads over them;
/// the length of a curve is measured elsewhere.
pub fn lane_shapes(map: &MapData) -> (r: Vec<LaneShape>)
    requires
        map.wf(),
        can_be_drawn(*map),
    ensures
        shapes_ok(r@),
        fit_map(*map, r@),
        forall|l: u64, id: u64, to: u64| #[trigger]
            leads_over(*map, l, id, to) ==> shaped_from(*map, r@, l, id),
{
    let mut shapes: Vec<LaneShape> = road_shapes(map);
    let n: usize = shapes.len();
    let mut i: usize = 0;
    while i < n
        invariant
            map.wf(),
            n == shapes@.len(),
            n == map.lanes.lanes@.len(),
            shapes_ok(shapes@),
            fit_map(*map, shapes@),
            i <= n,
            forall|l: u64, id: u64, to: u64| #[trigger]
                leads_over(*map, l, id, to) && l <= i ==> shaped_from(*map, shapes@, l, id),
        decreases n - i,
    {
        if map.lanes.lanes[i].edge_id != NO_EDGE {
            let list: &Vec<u64> = &map.lanes.lanes[i].connections;
            let mut k: usize = 0;
            while k < list.len()
                invariant
                    map.wf(),
                    i < n,
                    n == shapes@.len(),
                    n == map.lanes.lanes@.len(),
                    list == &map.lanes.lanes@[i as int].connections,
                    map.lanes.lanes@[i as int].edge_id != NO_EDGE,
                    shapes_ok(shapes@),
                    fit_map(*map, shapes@),
                    k <= list@.len(),
                    forall|l: u64, id: u64, to: u64| #[trigger]
                        leads_over(*map, l, id, to) && l <= i ==> shaped_from(
                            *map,
                            shapes@,
                            l,
                            id,
                        ),
                    forall|j: int|
                        0 <= j < k ==> shaped_from(
                            *map,
                            shapes@,
                            (i + 1) as u64,
                            #[trigger] list@[j],
                        ),
                decreases list.len() - k,
            {
                assert(list@.contains(list@[k as int]));
                let ghost before = shapes@;
                place_connector(map, &mut shapes, i, list[k]);
                proof {
                    assert forall|l: u64, id: u64, to: u64| #[trigger]
                        leads_over(*map, l, id, to) && l <= i implies shaped_from(
                        *map,
                        shapes@,
                        l,
                        id,
                    ) by {
                        lemma_still_shaped(*map, before, shapes@, l, id);
                    }
                    assert forall|j: int| 0 <= j < k implies shaped_from(
                        *map,
                        shapes@,
                        (i + 1) as u64,
                        #[trigger] list@[j],
                    ) by {
                        lemma_still_shaped(*map, before, shapes@, (i + 1) as u64, list@[j]);
                    }
                }
                k = k + 1;
            }
            proof {
                assert forall|l: u64, id: u64, to: u64| #[trigger]
                    leads_over(*map, l, id, to) && l <= i + 1 implies shaped_from(
                    *map,
                    shapes@,
                    l,
                    id,
                ) by {
                    if l == i + 1 {
                        let j = choose|j: int| 0 <= j < list@.len() && list@[j] == id;
                        assert(shaped_from(*map, shapes@, (i + 1) as u64, list@[j]));
                    }
                }
            }
        }
        i = i + 1;
    }
    shapes
}

} // verus!
