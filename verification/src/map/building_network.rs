//! Linking buildings to the road network.

use rstar::primitives::GeomWithData;
use rstar::RTree;
use vstd::prelude::*;

use crate::map::building::{OdBuilding, OdBuildingView};
use crate::map::road_network::RoadNode;
use crate::units::square_distance;

verus! {

/// Largest coordinate for which squared distances fit the search.
pub const MAX_COORDINATE: i64 = 0x1000_0000_0000_0000;

/// Whether a point lies within the searchable range.
pub open spec fn in_range(p: (i64, i64)) -> bool {
    -MAX_COORDINATE <= p.0 <= MAX_COORDINATE && -MAX_COORDINATE <= p.1 <= MAX_COORDINATE
}

/// Whether point `i` is as near to `q` as any point of the list.
pub open spec fn is_nearest(points: Seq<(i64, i64)>, q: (i64, i64), i: int) -> bool {
    &&& 0 <= i < points.len()
    &&& forall|j: int|
        0 <= j < points.len() ==> square_distance(
            points[i].0 as int,
            points[i].1 as int,
            q.0 as int,
            q.1 as int,
        ) <= square_distance(
            (#[trigger] points[j]).0 as int,
            points[j].1 as int,
            q.0 as int,
            q.1 as int,
        )
}

/// `rstar::RTree::bulk_load` over the points, then `rstar::RTree::nearest_neighbor` for each
/// query: one of the points nearest to the query, and none exactly when there are no points.
/// Which of several nearest points is given is left open. The coordinates are bounded so that
/// the squared distances of the search fit into 128 bits.
#[verifier::external_body]
fn nearest_points(points: &Vec<(i64, i64)>, queries: &Vec<(i64, i64)>) -> (r: Vec<Option<usize>>)
    requires
        forall|i: int| 0 <= i < points@.len() ==> in_range(#[trigger] points@[i]),
        forall|i: int| 0 <= i < queries@.len() ==> in_range(#[trigger] queries@[i]),
    ensures
        r@.len() == queries@.len(),
        forall|k: int|
            0 <= k < r@.len() ==> match #[trigger] r@[k] {
                Some(i) => is_nearest(points@, queries@[k], i as int),
                None => points@.len() == 0,
            },
{
    let at = |p: &(i64, i64)| [p.0 as i128, p.1 as i128];
    let entries = points.iter().enumerate().map(|(i, p)| GeomWithData::new(at(p), i)).collect();
    let tree: RTree<GeomWithData<[i128; 2], usize>> = RTree::bulk_load(entries);
    queries.iter().map(|q| tree.nearest_neighbor(&at(q)).map(|g| g.data)).collect()
}

/// The places of the road nodes as longitude and latitude.
pub open spec fn node_points(nodes: Seq<RoadNode>) -> Seq<(i64, i64)> {
    nodes.map_values(|n: RoadNode| (n.lng, n.lat))
}

/// A building after it has been linked: its access node is a road node nearest to its centre;
/// without road nodes nothing changes.
pub open spec fn linked(before: OdBuildingView, after: OdBuildingView, nodes: Seq<RoadNode>) -> bool {
    &&& after == (OdBuildingView { access_node: after.access_node, ..before })
    &&& if nodes.len() == 0 {
        after.access_node == before.access_node
    } else {
        after.access_node matches Some(i) && is_nearest(
            node_points(nodes),
            (before.centroid.0 as i64, before.centroid.1 as i64),
            i as int,
        )
    }
}

/// Gives every building the nearest road node as its access.
pub fn link_to_road_nodes(buildings: &mut Vec<OdBuilding>, nodes: &Vec<RoadNode>)
    requires
        forall|i: int|
            0 <= i < nodes@.len() ==> in_range(((#[trigger] nodes@[i]).lng, nodes@[i].lat)),
        forall|i: int|
            0 <= i < old(buildings)@.len() ==> in_range((#[trigger] old(buildings)@[i]).centroid),
    ensures
        final(buildings)@.len() == old(buildings)@.len(),
        forall|k: int|
            0 <= k < old(buildings)@.len() ==> linked(
                #[trigger] old(buildings)@[k]@,
                final(buildings)@[k]@,
                nodes@,
            ),
{
    if nodes.len() == 0 {
        return ;
    }
    let mut points: Vec<(i64, i64)> = Vec::new();
    let mut i: usize = 0;
    while i < nodes.len()
        invariant
            i <= nodes.len(),
            points@ == node_points(nodes@).take(i as int),
        decreases nodes.len() - i,
    {
        points.push((nodes[i].lng, nodes[i].lat));
        i = i + 1;
        assert(points@ =~= node_points(nodes@).take(i as int));
    }
    assert(points@ =~= node_points(nodes@));
    let mut queries: Vec<(i64, i64)> = Vec::new();
    let mut b: usize = 0;
    while b < buildings.len()
        invariant
            b <= buildings.len(),
            buildings@ == old(buildings)@,
            queries@.len() == b,
            forall|k: int| 0 <= k < b ==> #[trigger] queries@[k] == buildings@[k].centroid,
        decreases buildings.len() - b,
    {
        queries.push(buildings[b].centroid);
        b = b + 1;
    }
    proof {
        assert forall|i: int| 0 <= i < points@.len() implies in_range(#[trigger] points@[i]) by {
            assert(in_range((nodes@[i].lng, nodes@[i].lat)));
        }
        assert forall|k: int| 0 <= k < queries@.len() implies in_range(#[trigger] queries@[k]) by {
            assert(in_range(old(buildings)@[k].centroid));
        }
    }
    let nearest: Vec<Option<usize>> = nearest_points(&points, &queries);
    let mut k: usize = 0;
    while k < buildings.len()
        invariant
            k <= buildings.len(),
            nodes@.len() > 0,
            points@ == node_points(nodes@),
            buildings@.len() == old(buildings)@.len(),
            nearest@.len() == buildings@.len(),
            queries@.len() == buildings@.len(),
            forall|m: int|
                0 <= m < queries@.len() ==> #[trigger] queries@[m] == old(buildings)@[m].centroid,
            forall|m: int|
                0 <= m < nearest@.len() ==> match #[trigger] nearest@[m] {
                    Some(i) => is_nearest(points@, queries@[m], i as int),
                    None => points@.len() == 0,
                },
            forall|m: int|
                0 <= m < k ==> linked(
                    #[trigger] old(buildings)@[m]@,
                    buildings@[m]@,
                    nodes@,
                ),
            forall|m: int|
                k <= m < buildings@.len() ==> #[trigger] buildings@[m] == old(buildings)@[m],
        decreases buildings.len() - k,
    {
        match nearest[k] {
            Some(n) => {
                buildings[k].access_node = Some(n);
            },
            None => {},
        }
        proof {
            assert(queries@[k as int] == old(buildings)@[k as int].centroid);
            assert(linked(old(buildings)@[k as int]@, buildings@[k as int]@, nodes@));
        }
        k = k + 1;
    }
}

} // verus!
