//! Finding routes.

use rand::rngs::StdRng;
use vstd::prelude::*;

use crate::map::map_data::MapData;
use crate::map::road_network::RoadEdge;
use crate::map::topology::{
    is_walk, leads_along, never_too_high, walk_cost, Topology,
};
use crate::units::{larger, max_of, saturate, saturated, scale, scaled};
use crate::util::random::draw_choice;

verus! {

/// Speed to which preferences refer, 50 km/h.
pub const REF_SPEED: i64 = 13_890_000;

/// How fast an edge is taken to be: between the reference speed and its limit, by preference.
pub open spec fn effective_speed(max_speed: int, alpha: int, ref_speed: int) -> int {
    larger(
        saturated(ref_speed + saturated(scaled(saturated(max_speed - ref_speed), alpha))),
        100_000,
    )
}

/// What an edge costs: the time to drive along it, in microseconds.
pub open spec fn edge_cost(length: int, max_speed: int, alpha: int, ref_speed: int) -> int {
    saturated(larger(length, 0) * 1_000_000 / effective_speed(max_speed, alpha, ref_speed))
}

/// What each edge costs.
pub open spec fn edge_costs(edges: Seq<RoadEdge>, alpha: i64, ref_speed: i64) -> Seq<u64> {
    edges.map_values(
        |e: RoadEdge|
            edge_cost(e.length as int, e.max_speed as int, alpha as int, ref_speed as int) as u64,
    )
}

fn cost_of(e: &RoadEdge, alpha: i64, ref_speed: i64) -> (r: u64)
    ensures
        r == edge_cost(e.length as int, e.max_speed as int, alpha as int, ref_speed as int),
{
    let faster: i64 = scale(saturate(e.max_speed as i128 - ref_speed as i128), alpha);
    let speed: i64 = max_of(saturate(ref_speed as i128 + faster as i128), 100_000);
    let length: i64 = max_of(e.length, 0);
    proof {
        let l = length as int;
        let s = speed as int;
        assert(0 <= l * 1_000_000 / s) by (nonlinear_arith)
            requires
                0 <= l,
                s >= 100_000,
        ;
    }
    saturate(length as i128 * 1_000_000 / speed as i128) as u64
}

fn costs_of(edges: &Vec<RoadEdge>, alpha: i64, ref_speed: i64) -> (r: Vec<u64>)
    ensures
        r@ == edge_costs(edges@, alpha, ref_speed),
{
    let mut out: Vec<u64> = Vec::new();
    let mut i: usize = 0;
    while i < edges.len()
        invariant
            i <= edges@.len(),
            out@.len() == i,
            forall|j: int|
                0 <= j < i ==> #[trigger] out@[j] == edge_cost(
                    edges@[j].length as int,
                    edges@[j].max_speed as int,
                    alpha as int,
                    ref_speed as int,
                ),
        decreases edges.len() - i,
    {
        out.push(cost_of(&edges[i], alpha, ref_speed));
        i = i + 1;
    }
    assert(out@ =~= edge_costs(edges@, alpha, ref_speed));
    out
}

/// The cheapest edge of a list that leads to a node, the first of those that cost the same.
pub open spec fn cheapest_edge_to(
    ends: Seq<(int, int)>,
    costs: Seq<u64>,
    list: Seq<int>,
    b: int,
) -> Option<int>
    decreases list.len(),
{
    if list.len() == 0 {
        None
    } else {
        let before = cheapest_edge_to(ends, costs, list.drop_last(), b);
        let e = list.last();
        if ends[e].1 != b || before is Some && costs[before->Some_0] <= costs[e] {
            before
        } else {
            Some(e)
        }
    }
}

/// The edges along some nodes: between each two the cheapest. Nodes without an edge between them
/// are passed over.
pub open spec fn edges_along(graph: Topology, costs: Seq<u64>, nodes: Seq<int>) -> Seq<int>
    decreases nodes.len(),
{
    if nodes.len() < 2 {
        Seq::empty()
    } else {
        let before = edges_along(graph, costs, nodes.drop_last());
        let a = nodes[nodes.len() - 2];
        match cheapest_edge_to(graph.ends(), costs, graph.out_edges(a), nodes.last()) {
            Some(e) => before.push(e),
            None => before,
        }
    }
}

/// The cheapest edge from `a` to `b`, the first in walk order of those that cost the same.
fn cheapest_edge(graph: &Topology, costs: &Vec<u64>, a: usize, b: usize) -> (r: Option<usize>)
    requires
        graph.wf(),
        costs@.len() == graph.ends().len(),
        a < graph.nodes(),
    ensures
        match cheapest_edge_to(graph.ends(), costs@, graph.out_edges(a as int), b as int) {
            Some(e) => r is Some && r->Some_0 == e,
            None => r is None,
        },
        r matches Some(e) ==> e < graph.ends().len(),
{
    let out: Vec<usize> = graph.outgoing(a);
    let ghost walk = graph.out_edges(a as int);
    let mut best: Option<usize> = None;
    let mut i: usize = 0;
    assert(walk.take(0) =~= Seq::<int>::empty());
    while i < out.len()
        invariant
            i <= out@.len(),
            graph.wf(),
            a < graph.nodes(),
            costs@.len() == graph.ends().len(),
            walk == graph.out_edges(a as int),
            out@.map_values(|e: usize| e as int) == walk,
            best matches Some(e) ==> e < graph.ends().len(),
            match cheapest_edge_to(graph.ends(), costs@, walk.take(i as int), b as int) {
                Some(e) => best is Some && best->Some_0 == e,
                None => best is None,
            },
        decreases out.len() - i,
    {
        let e: usize = out[i];
        proof {
            graph.lemma_wf();
            assert(walk[i as int] == out@.map_values(|e: usize| e as int)[i as int]);
            assert(walk[i as int] == e);
            assert(graph.out_edges(a as int)[i as int] == e);
            assert(walk.take(i + 1).drop_last() =~= walk.take(i as int));
            assert(walk.take(i + 1).last() == e);
        }
        match graph.edge_endpoints(e) {
            Some(p) => {
                if p.1 == b {
                    match best {
                        Some(f) => {
                            if costs[f] > costs[e] {
                                best = Some(e);
                            }
                        },
                        None => {
                            best = Some(e);
                        },
                    }
                }
            },
            None => {},
        }
        i = i + 1;
    }
    assert(walk.take(i as int) =~= walk);
    best
}

/// The edges along some nodes: between each two the cheapest.
pub fn path_edges(graph: &Topology, costs: &Vec<u64>, nodes: &Vec<usize>) -> (r: Vec<usize>)
    requires
        graph.wf(),
        costs@.len() == graph.ends().len(),
        forall|i: int| 0 <= i < nodes@.len() ==> #[trigger] nodes@[i] < graph.nodes(),
    ensures
        r@.map_values(|e: usize| e as int) == edges_along(
            *graph,
            costs@,
            nodes@.map_values(|n: usize| n as int),
        ),
{
    let ghost path = nodes@.map_values(|n: usize| n as int);
    let mut out: Vec<usize> = Vec::new();
    if nodes.len() < 2 {
        assert(out@.map_values(|e: usize| e as int) =~= edges_along(*graph, costs@, path));
        return out;
    }
    let mut i: usize = 1;
    assert(out@.map_values(|e: usize| e as int) =~= edges_along(*graph, costs@, path.take(1)));
    while i < nodes.len()
        invariant
            1 <= i <= nodes@.len(),
            graph.wf(),
            costs@.len() == graph.ends().len(),
            path == nodes@.map_values(|n: usize| n as int),
            forall|i: int| 0 <= i < nodes@.len() ==> #[trigger] nodes@[i] < graph.nodes(),
            out@.map_values(|e: usize| e as int) == edges_along(
                *graph,
                costs@,
                path.take(i as int),
            ),
        decreases nodes.len() - i,
    {
        let a: usize = nodes[i - 1];
        let b: usize = nodes[i];
        let ghost before = out@;
        let ghost now = path.take(i + 1);
        assert(now.drop_last() =~= path.take(i as int));
        assert(now.last() == b);
        assert(now[now.len() - 2] == a);
        match cheapest_edge(graph, costs, a, b) {
            Some(e) => {
                out.push(e);
                assert(out@.map_values(|e: usize| e as int) =~= before.map_values(
                    |e: usize| e as int,
                ).push(e as int));
            },
            None => {},
        }
        i = i + 1;
    }
    assert(path.take(i as int) =~= path);
    out
}

/// The route between two nodes: the edges along the nodes of the path found by what the edges cost,
/// where `estimates` tell at what the rest of the way from each node is estimated.
pub fn find_path(
    map: &MapData,
    from: usize,
    to: usize,
    route_alpha: i64,
    ref_speed: i64,
    estimates: &Vec<u64>,
) -> (r: Option<Vec<usize>>)
    requires
        map.wf(),
        from < map.nodes@.len(),
        to < map.nodes@.len(),
        estimates@.len() == map.nodes@.len(),
    ensures
        ({
            let costs = edge_costs(map.edges@, route_alpha, ref_speed);
            match map.graph.path_nodes(from as int, to as int, costs, estimates@) {
                Some(p) => r is Some && r->Some_0@.map_values(|e: usize| e as int) == edges_along(
                    map.graph,
                    costs,
                    p,
                ),
                None => r is None,
            }
        }),
        r is None <==> forall|w: Seq<int>|
            !#[trigger] is_walk(map.graph.ends(), w, from as int, to as int),
        r is Some ==> is_walk(
            map.graph.ends(),
            r->Some_0@.map_values(|e: usize| e as int),
            from as int,
            to as int,
        ),
        r is Some && never_too_high(
            map.graph.ends(),
            edge_costs(map.edges@, route_alpha, ref_speed),
            estimates@,
            to as int,
        ) ==> forall|w: Seq<int>| #[trigger]
            is_walk(map.graph.ends(), w, from as int, to as int) ==> walk_cost(
                edge_costs(map.edges@, route_alpha, ref_speed),
                r->Some_0@.map_values(|e: usize| e as int),
            ) <= walk_cost(edge_costs(map.edges@, route_alpha, ref_speed), w),
        r is Some && route_alpha == 0 && 100_000 < ref_speed <= 1_000_000_000_000 && can_be_timed(
            map.edges@,
        ) && never_too_high(
            map.graph.ends(),
            edge_costs(map.edges@, route_alpha, ref_speed),
            estimates@,
            to as int,
        ) ==> forall|w: Seq<int>| #[trigger]
            is_walk(map.graph.ends(), w, from as int, to as int) ==> walk_length(
                map.edges@,
                r->Some_0@.map_values(|e: usize| e as int),
            ) * 1_000_000 <= walk_length(map.edges@, w) * 1_000_000 + r->Some_0@.len() * ref_speed,
{
    let costs: Vec<u64> = costs_of(&map.edges, route_alpha, ref_speed);
    match map.graph.find_path_nodes(from, to, &costs, estimates) {
        Some(nodes) => {
            let ghost ends = map.graph.ends();
            let ghost path = nodes@.map_values(|n: usize| n as int);
            let ghost w = choose|w: Seq<int>| #[trigger] leads_along(ends, w, path);
            proof {
                map.graph.lemma_wf();
                assert forall|i: int| 0 <= i < nodes@.len() implies #[trigger] nodes@[i]
                    < map.graph.nodes() by {
                    assert(path[i] == nodes@[i]);
                    if i > 0 {
                        assert(ends[w[i - 1]] == (path[i - 1], path[i]));
                    } else {
                        assert(path.first() == path[0]);
                    }
                }
            }
            let edges: Vec<usize> = path_edges(&map.graph, &costs, &nodes);
            proof {
                let found = edges@.map_values(|e: usize| e as int);
                lemma_edges_along(map.graph, costs@, path, w);
                assert(found == edges_along(map.graph, costs@, path));
                lemma_walk_of_path(ends, found, path);
                assert forall|v: Seq<int>| #[trigger]
                    is_walk(ends, v, from as int, to as int) && never_too_high(
                        ends,
                        costs@,
                        estimates@,
                        to as int,
                    ) implies walk_cost(costs@, found) <= walk_cost(costs@, v) by {
                    let u = choose|u: Seq<int>| #[trigger]
                        leads_along(ends, u, path) && walk_cost(costs@, u) <= walk_cost(costs@, v);
                    lemma_edges_along(map.graph, costs@, path, u);
                }
                if route_alpha == 0 && 100_000 < ref_speed <= 1_000_000_000_000 && can_be_timed(
                    map.edges@,
                ) && never_too_high(ends, costs@, estimates@, to as int) {
                    lemma_walk_in_range(ends, found, from as int, to as int);
                    assert forall|v: Seq<int>| #[trigger]
                        is_walk(ends, v, from as int, to as int) implies walk_length(
                        map.edges@,
                        found,
                    ) * 1_000_000 <= walk_length(map.edges@, v) * 1_000_000 + found.len()
                        * ref_speed by {
                        lemma_walk_in_range(ends, v, from as int, to as int);
                        law_cheapest_is_shortest(map.edges@, ref_speed, found, v);
                    }
                }
            }
            Some(edges)
        },
        None => None,
    }
}

/// The edges chosen along a path lead along it and cost no more than any other edges along it.
proof fn lemma_edges_along(graph: Topology, costs: Seq<u64>, path: Seq<int>, w: Seq<int>)
    requires
        graph.wf(),
        path.len() > 0,
        leads_along(graph.ends(), w, path),
    ensures
        leads_along(graph.ends(), edges_along(graph, costs, path), path),
        walk_cost(costs, edges_along(graph, costs, path)) <= walk_cost(costs, w),
    decreases path.len(),
{
    let ends = graph.ends();
    graph.lemma_wf();
    if path.len() >= 2 {
        let front = path.drop_last();
        let v = w.drop_last();
        assert(leads_along(ends, v, front)) by {
            assert forall|i: int| 0 <= i < v.len() implies 0 <= #[trigger] v[i] < ends.len()
                && ends[v[i]] == (front[i], front[i + 1]) by {
                assert(v[i] == w[i]);
            }
        }
        lemma_edges_along(graph, costs, front, v);
        let a = path[path.len() - 2];
        let b = path.last();
        let last = w[w.len() - 1];
        assert(ends[last] == (a, b));
        graph.lemma_out_edge_listed(last);
        let list = graph.out_edges(a);
        let k = choose|k: int| 0 <= k < list.len() && list[k] == last;
        lemma_cheapest(ends, costs, list, b, k);
        let e = cheapest_edge_to(ends, costs, list, b)->Some_0;
        let m = choose|m: int| 0 <= m < list.len() && list[m] == e;
        assert(ends[list[m]].0 == a);
        let before = edges_along(graph, costs, front);
        assert(edges_along(graph, costs, path) == before.push(e));
        assert(before.push(e).drop_last() =~= before);
        assert forall|i: int| 0 <= i < before.push(e).len() implies 0 <= #[trigger] before.push(
            e,
        )[i] < ends.len() && ends[before.push(e)[i]] == (path[i], path[i + 1]) by {
            if i < before.len() {
                assert(before.push(e)[i] == before[i]);
                assert(front[i] == path[i] && front[i + 1] == path[i + 1]);
            }
        }
    } else {
        assert(w =~= Seq::<int>::empty());
    }
}

/// The cheapest edge of a list to a node is one of the list, leads there and costs no more than any
/// other that does.
proof fn lemma_cheapest(ends: Seq<(int, int)>, costs: Seq<u64>, list: Seq<int>, b: int, k: int)
    requires
        0 <= k < list.len(),
        ends[list[k]].1 == b,
    ensures
        cheapest_edge_to(ends, costs, list, b) is Some,
        list.contains(cheapest_edge_to(ends, costs, list, b)->Some_0),
        ends[cheapest_edge_to(ends, costs, list, b)->Some_0].1 == b,
        costs[cheapest_edge_to(ends, costs, list, b)->Some_0] <= costs[list[k]],
    decreases list.len(),
{
    let rest = list.drop_last();
    let before = cheapest_edge_to(ends, costs, rest, b);
    if k < rest.len() {
        assert(rest[k] == list[k]);
        lemma_cheapest(ends, costs, rest, b, k);
    } else if before is Some {
        lemma_cheapest_listed(ends, costs, rest, b);
    }
    if before is Some {
        let m = choose|m: int| 0 <= m < rest.len() && rest[m] == before->Some_0;
        assert(list[m] == before->Some_0);
    }
    assert(list[list.len() - 1] == list.last());
}

proof fn lemma_cheapest_listed(ends: Seq<(int, int)>, costs: Seq<u64>, list: Seq<int>, b: int)
    requires
        cheapest_edge_to(ends, costs, list, b) is Some,
    ensures
        list.contains(cheapest_edge_to(ends, costs, list, b)->Some_0),
        ends[cheapest_edge_to(ends, costs, list, b)->Some_0].1 == b,
    decreases list.len(),
{
    let rest = list.drop_last();
    let before = cheapest_edge_to(ends, costs, rest, b);
    if before is Some {
        lemma_cheapest_listed(ends, costs, rest, b);
        let m = choose|m: int| 0 <= m < rest.len() && rest[m] == before->Some_0;
        assert(list[m] == before->Some_0);
    }
    assert(list[list.len() - 1] == list.last());
}

proof fn lemma_walk_of_path(ends: Seq<(int, int)>, w: Seq<int>, path: Seq<int>)
    requires
        leads_along(ends, w, path),
    ensures
        is_walk(ends, w, path.first(), path.last()),
    decreases w.len(),
{
    if w.len() > 0 {
        let v = w.drop_last();
        let front = path.drop_last();
        assert forall|i: int| 0 <= i < v.len() implies 0 <= #[trigger] v[i] < ends.len()
            && ends[v[i]] == (front[i], front[i + 1]) by {
            assert(v[i] == w[i]);
        }
        lemma_walk_of_path(ends, v, front);
        let k = w.len() - 1;
        assert(ends[w[k]] == (path[k], path[k + 1]));
    }
}

/// The first of some drawn nodes that is not `from`, else `from`.
pub open spec fn first_other(from: usize, drawn: Seq<usize>) -> usize
    decreases drawn.len(),
{
    if drawn.len() == 0 {
        from
    } else if drawn[0] != from {
        drawn[0]
    } else {
        first_other(from, drawn.skip(1))
    }
}

/// The first of some drawn nodes that is not `from`, else `from`.
pub fn destination_from(from: usize, drawn: &Vec<usize>) -> (r: usize)
    ensures
        r == first_other(from, drawn@),
{
    let mut i: usize = 0;
    assert(drawn@.skip(0) =~= drawn@);
    while i < drawn.len()
        invariant
            i <= drawn@.len(),
            first_other(from, drawn@) == first_other(from, drawn@.skip(i as int)),
        decreases drawn.len() - i,
    {
        assert(drawn@.skip(i as int)[0] == drawn@[i as int]);
        assert(drawn@.skip(i as int).skip(1) =~= drawn@.skip(i + 1));
        if drawn[i] != from {
            return drawn[i];
        }
        i = i + 1;
    }
    from
}

/// Most draws that are made for a destination.
pub const MAX_DRAWS: usize = 20;

/// Whether `drawn` are the draws made for a destination among `n` nodes: nodes drawn one after the
/// other until one is not `from`, at least one and at most twenty of them.
pub open spec fn draws_made(n: nat, from: usize, drawn: Seq<usize>) -> bool {
    &&& 1 <= drawn.len() <= MAX_DRAWS
    &&& forall|i: int| 0 <= i < drawn.len() ==> #[trigger] drawn[i] < n
    &&& forall|i: int| 0 <= i < drawn.len() - 1 ==> #[trigger] drawn[i] == from
    &&& drawn.last() != from || drawn.len() == MAX_DRAWS
}

/// A node drawn by chance that is not `from`: nodes are drawn until one is not, and after twenty
/// draws of `from` it is `from`. A graph with less than two nodes has none, and then it is `from`
/// too. Where `from` is no node of the graph, the first draw decides.
pub fn random_destination(graph: &Topology, from: usize, rng: &mut StdRng) -> (r: usize)
    ensures
        graph.nodes() < 2 ==> r == from,
        graph.nodes() >= 2 ==> r < graph.nodes() && exists|drawn: Seq<usize>|
            #[trigger] draws_made(graph.nodes(), from, drawn) && r == first_other(from, drawn),
        graph.nodes() >= 2 && from >= graph.nodes() ==> r != from,
{
    let count: usize = graph.node_count();
    if count < 2 {
        return from;
    }
    let mut drawn: Vec<usize> = Vec::new();
    let mut found: bool = false;
    while !found && drawn.len() < MAX_DRAWS
        invariant
            count == graph.nodes(),
            count >= 2,
            drawn@.len() <= MAX_DRAWS,
            forall|i: int| 0 <= i < drawn@.len() ==> #[trigger] drawn@[i] < count,
            forall|i: int| 0 <= i < drawn@.len() - 1 ==> #[trigger] drawn@[i] == from,
            !found ==> forall|i: int| 0 <= i < drawn@.len() ==> #[trigger] drawn@[i] == from,
            found ==> drawn@.len() > 0 && drawn@.last() != from,
        decreases MAX_DRAWS - drawn.len(),
    {
        match draw_choice(rng, count) {
            Some(i) => {
                drawn.push(i);
                found = i != from;
            },
            None => {},
        }
    }
    proof {
        assert(draws_made(graph.nodes(), from, drawn@));
        lemma_draws_decide(from, drawn@);
    }
    destination_from(from, &drawn)
}

/// Where all draws but the last are `from`, the last one is the destination.
proof fn lemma_draws_decide(from: usize, drawn: Seq<usize>)
    requires
        drawn.len() > 0,
        forall|i: int| 0 <= i < drawn.len() - 1 ==> #[trigger] drawn[i] == from,
    ensures
        first_other(from, drawn) == drawn.last(),
    decreases drawn.len(),
{
    let rest = drawn.skip(1);
    if drawn.len() > 1 {
        assert(drawn[0] == from);
        assert forall|i: int| 0 <= i < rest.len() - 1 implies #[trigger] rest[i] == from by {
            assert(rest[i] == drawn[i + 1]);
        }
        lemma_draws_decide(from, rest);
    } else {
        assert(first_other(from, rest) == from);
    }
}

/// With more preference for fast routes, an edge with a limit above the reference speed never costs
/// more.
pub proof fn law_fast_edges_get_cheaper(length: int, max_speed: int, low: int, high: int, ref_speed: int)
    requires
        0 <= low <= high <= 1_000_000,
        0 <= ref_speed <= max_speed <= 1_000_000_000_000,
    ensures
        edge_cost(length, max_speed, high, ref_speed) <= edge_cost(length, max_speed, low, ref_speed),
{
    let d = max_speed - ref_speed;
    assert(0 <= d * low / 1_000_000 <= d * high / 1_000_000 <= d) by (nonlinear_arith)
        requires
            0 <= low <= high <= 1_000_000,
            0 <= d,
    ;
    let a = effective_speed(max_speed, low, ref_speed);
    let b = effective_speed(max_speed, high, ref_speed);
    let l = larger(length, 0) * 1_000_000;
    assert(l / b <= l / a) by (nonlinear_arith)
        requires
            0 < a <= b,
            0 <= l,
    ;
}

/// The lengths of the edges of a walk together.
pub open spec fn walk_length(edges: Seq<RoadEdge>, w: Seq<int>) -> int
    decreases w.len(),
{
    if w.len() == 0 {
        0
    } else {
        walk_length(edges, w.drop_last()) + edges[w.last()].length
    }
}

/// The longest edge whose time is told apart from longer ones at any speed: a hundred million
/// kilometres.
pub const MAX_TIMED_LENGTH: i64 = 100_000_000_000_000_000;

/// Whether all edges have a length that can be timed.
pub open spec fn can_be_timed(edges: Seq<RoadEdge>) -> bool {
    forall|e: int| 0 <= e < edges.len() ==> 0 <= (#[trigger] edges[e]).length <= MAX_TIMED_LENGTH
}

/// An edge costs the time to drive along it, rounded down to a microsecond: at the reference speed
/// without preference for fast roads, at its limit with full preference, and in between the speed is
/// between these. No speed below a tenth of a metre in a second is reckoned with.
pub proof fn law_cost_is_time(length: int, max_speed: int, alpha: int, ref_speed: int)
    requires
        0 <= length <= MAX_TIMED_LENGTH,
        100_000 <= ref_speed <= 1_000_000_000_000,
        100_000 <= max_speed <= 1_000_000_000_000,
        0 <= alpha <= 1_000_000,
    ensures
        ({
            let c = edge_cost(length, max_speed, alpha, ref_speed);
            let speed = effective_speed(max_speed, alpha, ref_speed);
            &&& 0 <= c
            &&& c * speed <= length * 1_000_000 < (c + 1) * speed
            &&& alpha == 0 ==> speed == ref_speed
            &&& alpha == 1_000_000 ==> speed == max_speed
            &&& ref_speed <= max_speed ==> ref_speed <= speed <= max_speed
            &&& max_speed <= ref_speed ==> max_speed <= speed <= ref_speed
        }),
{
    let d = max_speed - ref_speed;
    assert(d * 0 / 1_000_000 == 0 && d * 1_000_000 / 1_000_000 == d);
    assert(d >= 0 ==> 0 <= d * alpha / 1_000_000 <= d) by (nonlinear_arith)
        requires
            0 <= alpha <= 1_000_000,
    ;
    assert(d <= 0 ==> d <= d * alpha / 1_000_000 <= 0) by (nonlinear_arith)
        requires
            0 <= alpha <= 1_000_000,
    ;
    let speed = effective_speed(max_speed, alpha, ref_speed);
    let n = length * 1_000_000;
    let c = n / speed;
    assert(0 <= c <= n / 100_000) by (nonlinear_arith)
        requires
            0 <= n,
            100_000 <= speed,
            c == n / speed,
    ;
    assert(c * speed <= n < (c + 1) * speed) by (nonlinear_arith)
        requires
            100_000 <= speed,
            c == n / speed,
    ;
}

/// Two edges with the same limit cost together what one of both their lengths costs, up to the
/// rounding of each to a microsecond; one twice as long costs twice as much.
pub proof fn law_cost_follows_length(a: int, b: int, max_speed: int, alpha: int, ref_speed: int)
    requires
        0 <= a,
        0 <= b,
        a + b <= MAX_TIMED_LENGTH,
        100_000 <= ref_speed <= 1_000_000_000_000,
        100_000 <= max_speed <= 1_000_000_000_000,
        0 <= alpha <= 1_000_000,
    ensures
        ({
            let both = edge_cost(a, max_speed, alpha, ref_speed) + edge_cost(
                b,
                max_speed,
                alpha,
                ref_speed,
            );
            both <= edge_cost(a + b, max_speed, alpha, ref_speed) <= both + 1
        }),
        a == b ==> 2 * edge_cost(a, max_speed, alpha, ref_speed) <= edge_cost(
            2 * a,
            max_speed,
            alpha,
            ref_speed,
        ) <= 2 * edge_cost(a, max_speed, alpha, ref_speed) + 1,
{
    law_cost_is_time(a, max_speed, alpha, ref_speed);
    law_cost_is_time(b, max_speed, alpha, ref_speed);
    law_cost_is_time(a + b, max_speed, alpha, ref_speed);
    let s = effective_speed(max_speed, alpha, ref_speed);
    let p = edge_cost(a, max_speed, alpha, ref_speed);
    let q = edge_cost(b, max_speed, alpha, ref_speed);
    let r = edge_cost(a + b, max_speed, alpha, ref_speed);
    let (x, y) = (a * 1_000_000, b * 1_000_000);
    assert((a + b) * 1_000_000 == x + y);
    assert(p + q <= r <= p + q + 1) by (nonlinear_arith)
        requires
            s > 0,
            p * s <= x < (p + 1) * s,
            q * s <= y < (q + 1) * s,
            r * s <= x + y < (r + 1) * s,
    ;
}

proof fn lemma_cost_of_walk(edges: Seq<RoadEdge>, ref_speed: i64, w: Seq<int>)
    requires
        can_be_timed(edges),
        100_000 < ref_speed <= 1_000_000_000_000,
        forall|i: int| 0 <= i < w.len() ==> 0 <= #[trigger] w[i] < edges.len(),
    ensures
        walk_cost(edge_costs(edges, 0, ref_speed), w) * ref_speed <= walk_length(edges, w)
            * 1_000_000,
        walk_length(edges, w) * 1_000_000 <= (walk_cost(edge_costs(edges, 0, ref_speed), w)
            + w.len()) * ref_speed,
    decreases w.len(),
{
    let costs = edge_costs(edges, 0, ref_speed);
    if w.len() > 0 {
        let front = w.drop_last();
        assert forall|i: int| 0 <= i < front.len() implies 0 <= #[trigger] front[i]
            < edges.len() by {
            assert(front[i] == w[i]);
        }
        lemma_cost_of_walk(edges, ref_speed, front);
        let e = w[w.len() - 1];
        let edge = edges[e];
        let r = ref_speed as int;
        let l = edge.length as int;
        lemma_cost_at_reference(l, edge.max_speed as int, r);
        let c = edge_cost(l, edge.max_speed as int, 0, r);
        assert(costs[w.last()] == c);
        let (k, m, n) = (walk_cost(costs, front), walk_length(edges, front), front.len() as int);
        assert((k + c) * r <= (m + l) * 1_000_000 <= (k + c + n + 1) * r) by (nonlinear_arith)
            requires
                k * r <= m * 1_000_000 <= (k + n) * r,
                c * r <= l * 1_000_000 < (c + 1) * r,
        ;
    }
}

/// Without preference for fast roads the limit of an edge does not matter.
proof fn lemma_cost_at_reference(length: int, max_speed: int, ref_speed: int)
    requires
        0 <= length <= MAX_TIMED_LENGTH,
        100_000 < ref_speed <= 1_000_000_000_000,
    ensures
        ({
            let c = edge_cost(length, max_speed, 0, ref_speed);
            0 <= c <= i64::MAX && c * ref_speed <= length * 1_000_000 < (c + 1) * ref_speed
        }),
{
    let d = saturated(max_speed - ref_speed);
    assert(d * 0 / 1_000_000 == 0);
    assert(effective_speed(max_speed, 0, ref_speed) == ref_speed);
    let n = length * 1_000_000;
    let c = n / ref_speed;
    assert(0 <= c <= n / 100_000) by (nonlinear_arith)
        requires
            0 <= n,
            100_000 <= ref_speed,
            c == n / ref_speed,
    ;
    assert(c * ref_speed <= n < (c + 1) * ref_speed) by (nonlinear_arith)
        requires
            100_000 <= ref_speed,
            c == n / ref_speed,
    ;
}

/// A walk that costs no more than another one without preference for fast roads is no longer than it,
/// but for what is lost by rounding the time of each of its edges to a microsecond.
pub proof fn law_cheapest_is_shortest(
    edges: Seq<RoadEdge>,
    ref_speed: i64,
    found: Seq<int>,
    w: Seq<int>,
)
    requires
        can_be_timed(edges),
        100_000 < ref_speed <= 1_000_000_000_000,
        forall|i: int| 0 <= i < found.len() ==> 0 <= #[trigger] found[i] < edges.len(),
        forall|i: int| 0 <= i < w.len() ==> 0 <= #[trigger] w[i] < edges.len(),
        walk_cost(edge_costs(edges, 0, ref_speed), found) <= walk_cost(
            edge_costs(edges, 0, ref_speed),
            w,
        ),
    ensures
        walk_length(edges, found) * 1_000_000 <= walk_length(edges, w) * 1_000_000 + found.len()
            * ref_speed,
{
    lemma_cost_of_walk(edges, ref_speed, found);
    lemma_cost_of_walk(edges, ref_speed, w);
    let (a, b, n, r) = (
        walk_cost(edge_costs(edges, 0, ref_speed), found),
        walk_cost(edge_costs(edges, 0, ref_speed), w),
        found.len() as int,
        ref_speed as int,
    );
    assert((a + n) * r <= b * r + n * r) by (nonlinear_arith)
        requires
            a <= b,
            0 <= r,
    ;
}

proof fn lemma_walk_in_range(ends: Seq<(int, int)>, w: Seq<int>, from: int, to: int)
    requires
        is_walk(ends, w, from, to),
    ensures
        forall|i: int| 0 <= i < w.len() ==> 0 <= #[trigger] w[i] < ends.len(),
    decreases w.len(),
{
    if w.len() > 0 {
        lemma_walk_in_range(ends, w.drop_last(), from, ends[w.last()].0);
        assert forall|i: int| 0 <= i < w.len() implies 0 <= #[trigger] w[i] < ends.len() by {
            if i < w.len() - 1 {
                assert(w.drop_last()[i] == w[i]);
            }
        }
    }
}

/// Of the edges that lead to a node the cheapest is taken, as long as there is one.
pub proof fn law_cheapest_edge(
    ends: Seq<(int, int)>,
    costs: Seq<u64>,
    list: Seq<int>,
    b: int,
    k: int,
)
    requires
        0 <= k < list.len(),
        ends[list[k]].1 == b,
    ensures
        ({
            let r = cheapest_edge_to(ends, costs, list, b);
            r is Some && list.contains(r->Some_0) && ends[r->Some_0].1 == b && costs[r->Some_0]
                <= costs[list[k]]
        }),
    decreases list.len(),
{
    let front = list.drop_last();
    let before = cheapest_edge_to(ends, costs, front, b);
    assert(list[list.len() - 1] == list.last());
    lemma_edge_found(ends, costs, front, b);
    if k < front.len() {
        assert(front[k] == list[k]);
        law_cheapest_edge(ends, costs, front, b, k);
    }
    if before is Some {
        let i = choose|i: int| 0 <= i < front.len() && front[i] == before->Some_0;
        assert(list[i] == before->Some_0);
    }
}

proof fn lemma_edge_found(ends: Seq<(int, int)>, costs: Seq<u64>, list: Seq<int>, b: int)
    ensures
        cheapest_edge_to(ends, costs, list, b) matches Some(e) ==> list.contains(e) && ends[e].1
            == b,
    decreases list.len(),
{
    if list.len() > 0 {
        let front = list.drop_last();
        lemma_edge_found(ends, costs, front, b);
        let before = cheapest_edge_to(ends, costs, front, b);
        assert(list[list.len() - 1] == list.last());
        if before is Some {
            let i = choose|i: int| 0 <= i < front.len() && front[i] == before->Some_0;
            assert(list[i] == before->Some_0);
        }
    }
}

/// The first drawn node that differs from the start is taken; only where none does, the start itself.
pub proof fn law_other_node_is_taken(from: usize, drawn: Seq<usize>)
    ensures
        first_other(from, drawn) != from ==> drawn.contains(first_other(from, drawn)),
        first_other(from, drawn) == from <==> forall|i: int|
            0 <= i < drawn.len() ==> #[trigger] drawn[i] == from,
    decreases drawn.len(),
{
    if drawn.len() > 0 {
        let rest = drawn.skip(1);
        law_other_node_is_taken(from, rest);
        if drawn[0] == from {
            if first_other(from, rest) != from {
                let i = choose|i: int| 0 <= i < rest.len() && rest[i] == first_other(from, rest);
                assert(drawn[i + 1] == rest[i]);
            } else {
                assert forall|i: int| 0 <= i < drawn.len() implies #[trigger] drawn[i] == from by {
                    if i > 0 {
                        assert(rest[i - 1] == drawn[i]);
                    }
                }
            }
        }
    }
}

} // verus!
