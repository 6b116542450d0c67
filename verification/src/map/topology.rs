//! The directed graph under every network: which nodes exist and which edges join them.
//!
//! Node and edge records are kept beside the graph, in vectors indexed by the graph's own
//! indices. An edge removal therefore moves the last record into the freed place, as the graph
//! does with its indices.

use petgraph::graph::{EdgeIndex, Graph, NodeIndex};
use petgraph::visit::EdgeRef;
use petgraph::{Directed, Direction};
use vstd::prelude::*;

verus! {

/// The graph of the `petgraph` crate.
#[verifier::external_type_specification]
#[verifier::external_body]
#[verifier::reject_recursive_types(N)]
#[verifier::reject_recursive_types(E)]
#[verifier::reject_recursive_types(Ty)]
#[verifier::reject_recursive_types(Ix)]
pub struct ExGraph<N, E, Ty, Ix>(Graph<N, E, Ty, Ix>);

/// The marker type of directed graphs.
#[verifier::external_type_specification]
#[verifier::external_body]
pub struct ExDirected(Directed);

/// A directed graph without weights.
pub type BareGraph = Graph<(), (), Directed, u32>;

/// The endpoints of each edge, source first, by edge index.
pub uninterp spec fn graph_ends(g: BareGraph) -> Seq<(int, int)>;

/// For each node, the edges that leave it, in the order in which the graph walks them.
pub uninterp spec fn graph_out(g: BareGraph) -> Seq<Seq<int>>;

/// For each node, the edges that enter it, in the order in which the graph walks them.
pub uninterp spec fn graph_in(g: BareGraph) -> Seq<Seq<int>>;

/// The members of a walk list other than `e`.
pub open spec fn list_without(list: Seq<int>, e: int) -> Seq<int> {
    list.filter(|x: int| x != e)
}

/// A walk list after edge `e` has left it and the edge `last` has taken over the index `e`.
pub open spec fn walk_without(list: Seq<int>, e: int, last: int) -> Seq<int> {
    list_without(list, e).map_values(
        |x: int|
            if x == last {
                e
            } else {
                x
            },
    )
}

/// `petgraph::graph::Graph::with_capacity`: a graph without nodes and edges.
#[verifier::external_body]
fn graph_new() -> (g: BareGraph)
    ensures
        graph_ends(g) == Seq::<(int, int)>::empty(),
        graph_out(g) == Seq::<Seq<int>>::empty(),
        graph_in(g) == Seq::<Seq<int>>::empty(),
{
    Graph::with_capacity(0, 0)
}

/// `petgraph::graph::Graph::add_node`: the new node gets the next index and no edges. The
/// call panics when the 32-bit index space is used up.
#[verifier::external_body]
fn graph_add_node(g: &mut BareGraph) -> (n: usize)
    requires
        graph_out(*old(g)).len() < u32::MAX,
    ensures
        n == graph_out(*old(g)).len(),
        graph_ends(*final(g)) == graph_ends(*old(g)),
        graph_out(*final(g)) == graph_out(*old(g)).push(Seq::<int>::empty()),
        graph_in(*final(g)) == graph_in(*old(g)).push(Seq::<int>::empty()),
{
    g.add_node(()).index()
}

/// `petgraph::graph::Graph::add_edge`: the new edge gets the next index and is walked first
/// among the edges that leave `a` and among those that enter `b`. The call panics when a node
/// is missing or the 32-bit index space is used up.
#[verifier::external_body]
fn graph_add_edge(g: &mut BareGraph, a: usize, b: usize) -> (e: usize)
    requires
        a < graph_out(*old(g)).len(),
        b < graph_out(*old(g)).len(),
        a < graph_in(*old(g)).len(),
        b < graph_in(*old(g)).len(),
        graph_ends(*old(g)).len() < u32::MAX,
    ensures
        e == graph_ends(*old(g)).len(),
        graph_ends(*final(g)) == graph_ends(*old(g)).push((a as int, b as int)),
        graph_out(*final(g)) == graph_out(*old(g)).update(
            a as int,
            seq![e as int] + graph_out(*old(g))[a as int],
        ),
        graph_in(*final(g)) == graph_in(*old(g)).update(
            b as int,
            seq![e as int] + graph_in(*old(g))[b as int],
        ),
{
    g.add_edge(NodeIndex::new(a), NodeIndex::new(b), ()).index()
}

/// `petgraph::graph::Graph::remove_edge`: the edge leaves the graph and the last edge takes
/// over its index, keeping its places in the walks.
#[verifier::external_body]
fn graph_remove_edge(g: &mut BareGraph, e: usize)
    requires
        e < graph_ends(*old(g)).len(),
        e <= u32::MAX,
    ensures
        graph_ends(*final(g)) == graph_ends(*old(g)).update(
            e as int,
            graph_ends(*old(g)).last(),
        ).drop_last(),
        graph_out(*final(g)) == graph_out(*old(g)).map_values(
            |l: Seq<int>| walk_without(l, e as int, graph_ends(*old(g)).len() - 1),
        ),
        graph_in(*final(g)) == graph_in(*old(g)).map_values(
            |l: Seq<int>| walk_without(l, e as int, graph_ends(*old(g)).len() - 1),
        ),
{
    g.remove_edge(EdgeIndex::new(e));
}

/// `petgraph::graph::Graph::node_count`: the number of nodes.
#[verifier::external_body]
fn graph_node_count(g: &BareGraph) -> (n: usize)
    ensures
        n == graph_out(*g).len(),
{
    g.node_count()
}

/// `petgraph::graph::Graph::edge_count`: the number of edges.
#[verifier::external_body]
fn graph_edge_count(g: &BareGraph) -> (n: usize)
    ensures
        n == graph_ends(*g).len(),
{
    g.edge_count()
}

/// `petgraph::graph::Graph::edge_endpoints`: source and target of an edge, `None` for an
/// index beyond the last edge.
#[verifier::external_body]
fn graph_edge_endpoints(g: &BareGraph, e: usize) -> (r: Option<(usize, usize)>)
    requires
        e <= u32::MAX,
    ensures
        match r {
            Some(p) => e < graph_ends(*g).len() && p.0 == graph_ends(*g)[e as int].0 && p.1
                == graph_ends(*g)[e as int].1,
            None => e >= graph_ends(*g).len(),
        },
{
    g.edge_endpoints(EdgeIndex::new(e)).map(|p| (p.0.index(), p.1.index()))
}

/// `petgraph::graph::Graph::edges_directed` with `Outgoing`: the edges that leave a node, in
/// walk order.
#[verifier::external_body]
fn graph_outgoing(g: &BareGraph, n: usize) -> (r: Vec<usize>)
    requires
        n < graph_out(*g).len(),
        n <= u32::MAX,
    ensures
        r@.map_values(|e: usize| e as int) == graph_out(*g)[n as int],
{
    g.edges_directed(NodeIndex::new(n), Direction::Outgoing).map(|e| e.id().index()).collect()
}

/// `petgraph::graph::Graph::edges_directed` with `Incoming`: the edges that enter a node, in
/// walk order.
#[verifier::external_body]
fn graph_incoming(g: &BareGraph, n: usize) -> (r: Vec<usize>)
    requires
        n < graph_in(*g).len(),
        n <= u32::MAX,
    ensures
        r@.map_values(|e: usize| e as int) == graph_in(*g)[n as int],
{
    g.edges_directed(NodeIndex::new(n), Direction::Incoming).map(|e| e.id().index()).collect()
}

/// The edges `w` lead from one node to another, each from where the one before it ends.
pub open spec fn is_walk(ends: Seq<(int, int)>, w: Seq<int>, from: int, to: int) -> bool
    decreases w.len(),
{
    if w.len() == 0 {
        from == to
    } else {
        0 <= w.last() < ends.len() && ends[w.last()].1 == to && is_walk(
            ends,
            w.drop_last(),
            from,
            ends[w.last()].0,
        )
    }
}

/// What the edges of a walk cost together.
pub open spec fn walk_cost(costs: Seq<u64>, w: Seq<int>) -> int
    decreases w.len(),
{
    if w.len() == 0 {
        0
    } else {
        walk_cost(costs, w.drop_last()) + costs[w.last()]
    }
}

/// The edges `w` lead along the nodes `path`.
pub open spec fn leads_along(ends: Seq<(int, int)>, w: Seq<int>, path: Seq<int>) -> bool {
    &&& w.len() + 1 == path.len()
    &&& forall|i: int|
        0 <= i < w.len() ==> 0 <= #[trigger] w[i] < ends.len() && ends[w[i]] == (
            path[i],
            path[i + 1],
        )
}

/// No estimate is more than what a walk from its node to `to` costs.
pub open spec fn never_too_high(
    ends: Seq<(int, int)>,
    costs: Seq<u64>,
    estimates: Seq<u64>,
    to: int,
) -> bool {
    forall|w: Seq<int>, n: int| #[trigger]
        is_walk(ends, w, n, to) && 0 <= n < estimates.len() ==> estimates[n] <= walk_cost(costs, w)
}

/// The nodes of the path that `petgraph::algo::astar` finds between two nodes of a graph with the
/// given edges and walks, where an edge costs `costs` and the rest of the way from a node is
/// estimated at `estimates`.
pub uninterp spec fn astar_nodes(
    ends: Seq<(int, int)>,
    walks: Seq<Seq<int>>,
    from: int,
    to: int,
    costs: Seq<u64>,
    estimates: Seq<u64>,
) -> Option<Seq<int>>;

/// `petgraph::algo::astar` with integer costs: the nodes of the path that it finds. The path leads
/// from the one node to the other along edges, and one is found where there is any. Where no
/// estimate is too high, no walk is cheaper than the cheapest edges along the path. Sums are taken
/// in 128 bits, which the costs of all edges together do not fill.
#[verifier::external_body]
fn graph_astar(
    g: &BareGraph,
    from: usize,
    to: usize,
    costs: &Vec<u64>,
    estimates: &Vec<u64>,
) -> (r: Option<Vec<usize>>)
    requires
        from < graph_out(*g).len() <= u32::MAX,
        to < graph_out(*g).len(),
        costs@.len() == graph_ends(*g).len(),
        estimates@.len() == graph_out(*g).len(),
    ensures
        match r {
            Some(p) => {
                let path = p@.map_values(|n: usize| n as int);
                &&& astar_nodes(
                    graph_ends(*g),
                    graph_out(*g),
                    from as int,
                    to as int,
                    costs@,
                    estimates@,
                ) == Some(path)
                &&& path.len() > 0 && path.first() == from && path.last() == to
                &&& exists|w: Seq<int>| #[trigger] leads_along(graph_ends(*g), w, path)
                &&& never_too_high(graph_ends(*g), costs@, estimates@, to as int) ==> forall|
                    v: Seq<int>,
                |
                    #[trigger] is_walk(graph_ends(*g), v, from as int, to as int) ==> exists|
                        w: Seq<int>,
                    |
                        #[trigger] leads_along(graph_ends(*g), w, path) && walk_cost(costs@, w)
                            <= walk_cost(costs@, v)
            },
            None => {
                &&& astar_nodes(
                    graph_ends(*g),
                    graph_out(*g),
                    from as int,
                    to as int,
                    costs@,
                    estimates@,
                ) is None
                &&& forall|w: Seq<int>|
                    !#[trigger] is_walk(graph_ends(*g), w, from as int, to as int)
            },
        },
{
    petgraph::algo::astar(
        g,
        NodeIndex::new(from),
        |n| n.index() == to,
        |e| costs[e.id().index()] as u128,
        |n| estimates[n.index()] as u128,
    ).map(|found| found.1.iter().map(|n| n.index()).collect())
}

/// Whether `list` holds exactly the edges whose chosen endpoint is `n`, each once.
pub open spec fn walk_complete(list: Seq<int>, ends: Seq<int>, n: int) -> bool {
    &&& list.no_duplicates()
    &&& forall|e: int| #[trigger] list.contains(e) <==> 0 <= e < ends.len() && ends[e] == n
}

/// A filtered list holds exactly the kept members, each as often as before.
proof fn lemma_filter_members(list: Seq<int>, e: int)
    ensures
        forall|x: int|
            #[trigger] list_without(list, e).contains(x) <==> list.contains(x) && x != e,
        list.no_duplicates() ==> list_without(list, e).no_duplicates(),
    decreases list.len(),
{
    reveal(Seq::filter);
    if list.len() > 0 {
        let rest = list.drop_last();
        let last = list.last();
        lemma_filter_members(rest, e);
        assert forall|x: int| list.contains(x) <==> rest.contains(x) || x == last by {
            if rest.contains(x) {
                let i = choose|i: int| 0 <= i < rest.len() && rest[i] == x;
                assert(list[i] == x);
            }
            if x == last {
                assert(list[list.len() - 1] == x);
            }
            if list.contains(x) && x != last {
                let i = choose|i: int| 0 <= i < list.len() && list[i] == x;
                assert(rest[i] == x);
            }
        }
        let f = list_without(rest, e);
        let g = list_without(list, e);
        if last != e {
            assert(g == f.push(last));
            assert forall|x: int| g.contains(x) <==> f.contains(x) || x == last by {
                if f.contains(x) {
                    let i = choose|i: int| 0 <= i < f.len() && f[i] == x;
                    assert(g[i] == x);
                }
                if x == last {
                    assert(g[g.len() - 1] == x);
                }
                if g.contains(x) && x != last {
                    let i = choose|i: int| 0 <= i < g.len() && g[i] == x;
                    assert(f[i] == x);
                }
            }
        } else {
            assert(g == f);
        }
        if list.no_duplicates() {
            assert(rest.no_duplicates());
            assert(!rest.contains(last));
            if last != e {
                assert forall|i: int, j: int|
                    0 <= i < g.len() && 0 <= j < g.len() && i != j implies g[i] != g[j] by {
                    if i < f.len() && j < f.len() {
                        assert(f[i] != f[j]);
                    } else if i < f.len() {
                        assert(f.contains(f[i]));
                    } else {
                        assert(f.contains(f[j]));
                    }
                }
            }
        }
    }
}

/// Removing an edge keeps the walk lists complete.
proof fn lemma_walk_without(list: Seq<int>, ends: Seq<int>, n: int, e: int)
    requires
        walk_complete(list, ends, n),
        0 <= e < ends.len(),
    ensures
        walk_complete(
            walk_without(list, e, ends.len() - 1),
            ends.update(e, ends.last()).drop_last(),
            n,
        ),
{
    let last = ends.len() - 1;
    let m = |x: int|
        if x == last {
            e
        } else {
            x
        };
    let f = list_without(list, e);
    let w = walk_without(list, e, last);
    let new_ends = ends.update(e, ends.last()).drop_last();
    lemma_filter_members(list, e);
    assert(w == f.map_values(m));
    assert forall|x: int| w.contains(x) <==> 0 <= x < new_ends.len() && new_ends[x] == n by {
        if w.contains(x) {
            let i = choose|i: int| 0 <= i < w.len() && w[i] == x;
            assert(f.contains(f[i]));
            assert(list.contains(f[i]));
        }
        if 0 <= x < new_ends.len() && new_ends[x] == n {
            let src = if x == e {
                last
            } else {
                x
            };
            assert(list.contains(src));
            assert(f.contains(src));
            let i = choose|i: int| 0 <= i < f.len() && f[i] == src;
            assert(w[i] == x);
        }
    }
    assert forall|i: int, j: int| 0 <= i < w.len() && 0 <= j < w.len() && i != j implies w[i]
        != w[j] by {
        assert(f.contains(f[i]) && f.contains(f[j]));
        assert(list.contains(f[i]) && list.contains(f[j]));
        assert(f[i] != f[j]);
    }
}

/// The nodes and directed edges of a network.
pub struct Topology {
    graph: BareGraph,
}

impl Topology {
    /// Source and target of each edge.
    pub closed spec fn ends(&self) -> Seq<(int, int)> {
        graph_ends(self.graph)
    }

    /// Number of nodes.
    pub closed spec fn nodes(&self) -> nat {
        graph_out(self.graph).len()
    }

    /// The edges that leave `n`, in walk order: the edge added last comes first.
    pub closed spec fn out_edges(&self, n: int) -> Seq<int> {
        graph_out(self.graph)[n]
    }

    /// The edges that enter `n`, in walk order: the edge added last comes first.
    pub closed spec fn in_edges(&self, n: int) -> Seq<int> {
        graph_in(self.graph)[n]
    }

    /// The source of each edge.
    pub open spec fn sources(&self) -> Seq<int> {
        self.ends().map_values(|p: (int, int)| p.0)
    }

    /// The target of each edge.
    pub open spec fn targets(&self) -> Seq<int> {
        self.ends().map_values(|p: (int, int)| p.1)
    }

    /// Every edge joins existing nodes and is walked once from each of its ends.
    pub closed spec fn wf(&self) -> bool {
        &&& graph_in(self.graph).len() == self.nodes()
        &&& self.nodes() <= u32::MAX
        &&& self.ends().len() <= u32::MAX
        &&& forall|e: int|
            0 <= e < self.ends().len() ==> 0 <= (#[trigger] self.ends()[e]).0 < self.nodes() && 0
                <= self.ends()[e].1 < self.nodes()
        &&& forall|n: int|
            0 <= n < self.nodes() ==> walk_complete(
                #[trigger] self.out_edges(n),
                self.sources(),
                n,
            )
        &&& forall|n: int|
            0 <= n < self.nodes() ==> walk_complete(
                #[trigger] self.in_edges(n),
                self.targets(),
                n,
            )
    }

    /// `after` is this network with one more edge from `a` to `b`, walked before all others.
    pub open spec fn edge_added(&self, after: &Topology, a: int, b: int) -> bool {
        &&& after.nodes() == self.nodes()
        &&& after.ends() == self.ends().push((a, b))
        &&& forall|k: int|
            0 <= k < self.nodes() ==> #[trigger] after.out_edges(k) == (if k == a {
                seq![self.ends().len() as int] + self.out_edges(k)
            } else {
                self.out_edges(k)
            })
        &&& forall|k: int|
            0 <= k < self.nodes() ==> #[trigger] after.in_edges(k) == (if k == b {
                seq![self.ends().len() as int] + self.in_edges(k)
            } else {
                self.in_edges(k)
            })
    }

    /// `after` is this network without edge `e`, whose index the last edge has taken over.
    pub open spec fn edge_removed(&self, after: &Topology, e: int) -> bool {
        &&& after.nodes() == self.nodes()
        &&& after.ends() == self.ends().update(e, self.ends().last()).drop_last()
        &&& forall|k: int|
            0 <= k < self.nodes() ==> #[trigger] after.out_edges(k) == walk_without(
                self.out_edges(k),
                e,
                self.ends().len() - 1,
            )
        &&& forall|k: int|
            0 <= k < self.nodes() ==> #[trigger] after.in_edges(k) == walk_without(
                self.in_edges(k),
                e,
                self.ends().len() - 1,
            )
    }

    /// Both networks have the same nodes, edges and walks.
    pub open spec fn same_as(&self, other: &Topology) -> bool {
        &&& self.nodes() == other.nodes()
        &&& self.ends() == other.ends()
        &&& forall|k: int|
            0 <= k < self.nodes() ==> #[trigger] self.out_edges(k) == other.out_edges(k)
        &&& forall|k: int|
            0 <= k < self.nodes() ==> #[trigger] self.in_edges(k) == other.in_edges(k)
    }

    /// What well-formedness says of edges and walks.
    pub proof fn lemma_wf(&self)
        requires
            self.wf(),
        ensures
            self.nodes() <= u32::MAX,
            self.ends().len() <= u32::MAX,
            forall|e: int|
                0 <= e < self.ends().len() ==> 0 <= (#[trigger] self.ends()[e]).0 < self.nodes()
                    && 0 <= self.ends()[e].1 < self.nodes(),
            forall|n: int, i: int|
                0 <= n < self.nodes() && 0 <= i < self.out_edges(n).len() ==> 0
                    <= #[trigger] self.out_edges(n)[i] < self.ends().len()
                    && self.ends()[self.out_edges(n)[i]].0 == n,
            forall|n: int, i: int|
                0 <= n < self.nodes() && 0 <= i < self.in_edges(n).len() ==> 0
                    <= #[trigger] self.in_edges(n)[i] < self.ends().len()
                    && self.ends()[self.in_edges(n)[i]].1 == n,
    {
        assert forall|n: int, i: int|
            0 <= n < self.nodes() && 0 <= i < self.out_edges(n).len() implies 0
            <= #[trigger] self.out_edges(n)[i] < self.ends().len()
            && self.ends()[self.out_edges(n)[i]].0 == n by {
            assert(self.out_edges(n).contains(self.out_edges(n)[i]));
        }
        assert forall|n: int, i: int|
            0 <= n < self.nodes() && 0 <= i < self.in_edges(n).len() implies 0
            <= #[trigger] self.in_edges(n)[i] < self.ends().len()
            && self.ends()[self.in_edges(n)[i]].1 == n by {
            assert(self.in_edges(n).contains(self.in_edges(n)[i]));
        }
    }

    /// No edge is walked twice from a node.
    pub proof fn lemma_walks_distinct(&self, n: int)
        requires
            self.wf(),
            0 <= n < self.nodes(),
        ensures
            self.out_edges(n).no_duplicates(),
            self.in_edges(n).no_duplicates(),
    {
        assert(walk_complete(self.out_edges(n), self.sources(), n));
        assert(walk_complete(self.in_edges(n), self.targets(), n));
    }

    /// Every edge is walked from its source and into its target.
    pub proof fn lemma_out_edge_listed(&self, e: int)
        requires
            self.wf(),
            0 <= e < self.ends().len(),
        ensures
            self.out_edges(self.ends()[e].0).contains(e),
            self.in_edges(self.ends()[e].1).contains(e),
    {
        let p = self.ends()[e];
        assert(walk_complete(self.out_edges(p.0), self.sources(), p.0));
        assert(walk_complete(self.in_edges(p.1), self.targets(), p.1));
        assert(self.sources()[e] == p.0);
        assert(self.targets()[e] == p.1);
    }

    /// An empty network.
    pub fn new() -> (r: Topology)
        ensures
            r.wf(),
            r.nodes() == 0,
            r.ends() == Seq::<(int, int)>::empty(),
    {
        Topology { graph: graph_new() }
    }

    /// Number of nodes.
    pub fn node_count(&self) -> (r: usize)
        ensures
            r == self.nodes(),
    {
        graph_node_count(&self.graph)
    }

    /// Number of edges.
    pub fn edge_count(&self) -> (r: usize)
        ensures
            r == self.ends().len(),
    {
        graph_edge_count(&self.graph)
    }

    /// Adds a node without edges.
    pub fn add_node(&mut self) -> (n: usize)
        requires
            old(self).wf(),
            old(self).nodes() < u32::MAX,
        ensures
            final(self).wf(),
            n == old(self).nodes(),
            final(self).nodes() == old(self).nodes() + 1,
            final(self).ends() == old(self).ends(),
            forall|k: int|
                0 <= k < old(self).nodes() ==> #[trigger] final(self).out_edges(k)
                    == old(self).out_edges(k) && final(self).in_edges(k) == old(self).in_edges(k),
            final(self).out_edges(n as int) == Seq::<int>::empty(),
            final(self).in_edges(n as int) == Seq::<int>::empty(),
    {
        let n: usize = graph_add_node(&mut self.graph);
        proof {
            assert forall|k: int| 0 <= k < self.nodes() implies walk_complete(
                #[trigger] self.out_edges(k),
                self.sources(),
                k,
            ) by {
                if k < old(self).nodes() {
                    assert(self.out_edges(k) == old(self).out_edges(k));
                }
            }
            assert forall|k: int| 0 <= k < self.nodes() implies walk_complete(
                #[trigger] self.in_edges(k),
                self.targets(),
                k,
            ) by {
                if k < old(self).nodes() {
                    assert(self.in_edges(k) == old(self).in_edges(k));
                }
            }
        }
        n
    }

    /// Adds an edge from `a` to `b`; it is walked before the edges already there.
    pub fn add_edge(&mut self, a: usize, b: usize) -> (e: usize)
        requires
            old(self).wf(),
            a < old(self).nodes(),
            b < old(self).nodes(),
            old(self).ends().len() < u32::MAX,
        ensures
            final(self).wf(),
            e == old(self).ends().len(),
            old(self).edge_added(final(self), a as int, b as int),
    {
        let e: usize = graph_add_edge(&mut self.graph, a, b);
        proof {
            assert forall|k: int| 0 <= k < self.nodes() implies walk_complete(
                #[trigger] self.out_edges(k),
                self.sources(),
                k,
            ) by {
                let before = old(self).out_edges(k);
                let after = self.out_edges(k);
                assert(walk_complete(before, old(self).sources(), k));
                if k == a {
                    lemma_prepend_complete(before, old(self).sources(), k);
                    assert(self.sources() =~= old(self).sources().push(k));
                } else {
                    lemma_other_complete(before, old(self).sources(), k, a as int);
                    assert(self.sources() =~= old(self).sources().push(a as int));
                }
            }
            assert forall|k: int| 0 <= k < self.nodes() implies walk_complete(
                #[trigger] self.in_edges(k),
                self.targets(),
                k,
            ) by {
                let before = old(self).in_edges(k);
                assert(walk_complete(before, old(self).targets(), k));
                if k == b {
                    lemma_prepend_complete(before, old(self).targets(), k);
                    assert(self.targets() =~= old(self).targets().push(k));
                } else {
                    lemma_other_complete(before, old(self).targets(), k, b as int);
                    assert(self.targets() =~= old(self).targets().push(b as int));
                }
            }
        }
        e
    }

    /// Removes an edge; the last edge takes over its index.
    pub fn remove_edge(&mut self, e: usize)
        requires
            old(self).wf(),
            e < old(self).ends().len(),
        ensures
            final(self).wf(),
            old(self).edge_removed(final(self), e as int),
    {
        graph_remove_edge(&mut self.graph, e);
        proof {
            let ghost s = old(self).sources();
            let ghost t = old(self).targets();
            assert(self.sources() =~= s.update(e as int, s.last()).drop_last());
            assert(self.targets() =~= t.update(e as int, t.last()).drop_last());
            assert forall|k: int| 0 <= k < self.nodes() implies walk_complete(
                #[trigger] self.out_edges(k),
                self.sources(),
                k,
            ) by {
                assert(walk_complete(old(self).out_edges(k), s, k));
                lemma_walk_without(old(self).out_edges(k), s, k, e as int);
            }
            assert forall|k: int| 0 <= k < self.nodes() implies walk_complete(
                #[trigger] self.in_edges(k),
                self.targets(),
                k,
            ) by {
                assert(walk_complete(old(self).in_edges(k), t, k));
                lemma_walk_without(old(self).in_edges(k), t, k, e as int);
            }
        }
    }

    /// Source and target of an edge; `None` for an index beyond the last edge.
    pub fn edge_endpoints(&self, e: usize) -> (r: Option<(usize, usize)>)
        requires
            self.wf(),
        ensures
            match r {
                Some(p) => e < self.ends().len() && p.0 == self.ends()[e as int].0 && p.1
                    == self.ends()[e as int].1 && p.0 < self.nodes() && p.1 < self.nodes(),
                None => e >= self.ends().len(),
            },
    {
        if e >= self.edge_count() {
            return None;
        }
        graph_edge_endpoints(&self.graph, e)
    }

    /// The edges that leave `n`, in walk order; none for an index beyond the last node.
    pub fn outgoing(&self, n: usize) -> (r: Vec<usize>)
        requires
            self.wf(),
        ensures
            n < self.nodes() ==> r@.map_values(|e: usize| e as int) == self.out_edges(n as int),
            n >= self.nodes() ==> r@.len() == 0,
    {
        if n >= self.node_count() {
            return Vec::new();
        }
        graph_outgoing(&self.graph, n)
    }

    /// The edges that enter `n`, in walk order; none for an index beyond the last node.
    pub fn incoming(&self, n: usize) -> (r: Vec<usize>)
        requires
            self.wf(),
        ensures
            n < self.nodes() ==> r@.map_values(|e: usize| e as int) == self.in_edges(n as int),
            n >= self.nodes() ==> r@.len() == 0,
    {
        if n >= self.node_count() {
            return Vec::new();
        }
        graph_incoming(&self.graph, n)
    }

    /// The edges that leave each node, in walk order.
    pub closed spec fn walks(&self) -> Seq<Seq<int>> {
        graph_out(self.graph)
    }

    /// The nodes of the path found between two nodes.
    pub open spec fn path_nodes(
        &self,
        from: int,
        to: int,
        costs: Seq<u64>,
        estimates: Seq<u64>,
    ) -> Option<Seq<int>> {
        astar_nodes(self.ends(), self.walks(), from, to, costs, estimates)
    }

    /// The nodes of a path between two nodes, where there is one; where no estimate is too high, a
    /// cheapest.
    pub fn find_path_nodes(
        &self,
        from: usize,
        to: usize,
        costs: &Vec<u64>,
        estimates: &Vec<u64>,
    ) -> (r: Option<Vec<usize>>)
        requires
            self.wf(),
            from < self.nodes(),
            to < self.nodes(),
            costs@.len() == self.ends().len(),
            estimates@.len() == self.nodes(),
        ensures
            match r {
                Some(p) => {
                    let path = p@.map_values(|n: usize| n as int);
                    &&& self.path_nodes(from as int, to as int, costs@, estimates@) == Some(path)
                    &&& path.len() > 0 && path.first() == from && path.last() == to
                    &&& exists|w: Seq<int>| #[trigger] leads_along(self.ends(), w, path)
                    &&& never_too_high(self.ends(), costs@, estimates@, to as int) ==> forall|
                        v: Seq<int>,
                    |
                        #[trigger] is_walk(self.ends(), v, from as int, to as int) ==> exists|
                            w: Seq<int>,
                        |
                            #[trigger] leads_along(self.ends(), w, path) && walk_cost(costs@, w)
                                <= walk_cost(costs@, v)
                },
                None => {
                    &&& self.path_nodes(from as int, to as int, costs@, estimates@) is None
                    &&& forall|w: Seq<int>|
                        !#[trigger] is_walk(self.ends(), w, from as int, to as int)
                },
            },
    {
        graph_astar(&self.graph, from, to, costs, estimates)
    }

    /// The first edge from `a` to `b` in walk order.
    pub fn edge_connecting(&self, a: usize, b: usize) -> (r: Option<usize>)
        requires
            self.wf(),
        ensures
            match r {
                Some(e) => a < self.nodes() && e < self.ends().len() && self.ends()[e as int] == (
                    a as int,
                    b as int,
                ) && exists|i: int|
                    0 <= i < self.out_edges(a as int).len() && #[trigger] self.out_edges(
                        a as int,
                    )[i] == e && forall|j: int|
                        0 <= j < i ==> self.ends()[#[trigger] self.out_edges(a as int)[j]].1 != b,
                None => forall|e: int|
                    0 <= e < self.ends().len() ==> #[trigger] self.ends()[e] != (a as int, b as int),
            },
    {
        let out: Vec<usize> = self.outgoing(a);
        proof {
            self.lemma_wf();
        }
        let ghost walk = self.out_edges(a as int);
        let mut i: usize = 0;
        while i < out.len()
            invariant
                self.wf(),
                i <= out.len(),
                out.len() > 0 ==> a < self.nodes(),
                a < self.nodes() ==> out@.map_values(|e: usize| e as int) == walk,
                a >= self.nodes() ==> out.len() == 0,
                walk == self.out_edges(a as int),
                forall|j: int| 0 <= j < i ==> self.ends()[#[trigger] walk[j]].1 != b,
                forall|n: int, i: int|
                    0 <= n < self.nodes() && 0 <= i < self.out_edges(n).len() ==> 0
                        <= #[trigger] self.out_edges(n)[i] < self.ends().len()
                        && self.ends()[self.out_edges(n)[i]].0 == n,
            decreases out.len() - i,
        {
            let e: usize = out[i];
            assert(walk[i as int] == e);
            assert(self.out_edges(a as int)[i as int] == e);
            match self.edge_endpoints(e) {
                Some(p) => {
                    if p.1 == b {
                        return Some(e);
                    }
                },
                None => {},
            }
            i = i + 1;
        }
        proof {
            assert forall|e: int| 0 <= e < self.ends().len() implies #[trigger] self.ends()[e] != (
                a as int,
                b as int,
            ) by {
                if self.ends()[e] == (a as int, b as int) {
                    assert(walk_complete(walk, self.sources(), a as int));
                    assert(self.sources()[e] == a);
                    assert(walk.contains(e));
                    let j = choose|j: int| 0 <= j < walk.len() && walk[j] == e;
                    assert(self.ends()[walk[j]].1 != b);
                }
            }
        }
        None
    }
}

/// The edges with the given node at the chosen end, newest first.
pub open spec fn newest_first(ends: Seq<int>, n: int) -> Seq<int>
    decreases ends.len(),
{
    if ends.len() == 0 {
        Seq::empty()
    } else {
        let before = newest_first(ends.drop_last(), n);
        if ends.last() == n {
            seq![ends.len() - 1] + before
        } else {
            before
        }
    }
}

impl Topology {
    /// Every walk lists the newest edge first, as it does while no edge has been removed.
    pub open spec fn built_in_order(&self) -> bool {
        &&& forall|k: int|
            0 <= k < self.nodes() ==> #[trigger] self.out_edges(k) == newest_first(
                self.sources(),
                k,
            )
        &&& forall|k: int|
            0 <= k < self.nodes() ==> #[trigger] self.in_edges(k) == newest_first(
                self.targets(),
                k,
            )
    }

    /// A network with `n` nodes and the given edges, added in their order.
    pub fn from_edges(n: usize, ends: &Vec<(usize, usize)>) -> (r: Topology)
        requires
            n <= u32::MAX,
            ends@.len() <= u32::MAX,
            forall|i: int| 0 <= i < ends@.len() ==> (#[trigger] ends@[i]).0 < n && ends@[i].1 < n,
        ensures
            r.wf(),
            r.nodes() == n,
            r.ends() == ends@.map_values(|p: (usize, usize)| (p.0 as int, p.1 as int)),
            r.built_in_order(),
    {
        let mut g: Topology = Topology::new();
        let mut k: usize = 0;
        while k < n
            invariant
                k <= n,
                n <= u32::MAX,
                g.wf(),
                g.nodes() == k,
                g.ends() == Seq::<(int, int)>::empty(),
                g.built_in_order(),
            decreases n - k,
        {
            let ghost before = g;
            g.add_node();
            k = k + 1;
            proof {
                assert(g.sources() =~= Seq::<int>::empty());
                assert(g.targets() =~= Seq::<int>::empty());
                assert(before.sources() =~= Seq::<int>::empty());
                assert(before.targets() =~= Seq::<int>::empty());
                assert forall|j: int| 0 <= j < g.nodes() implies #[trigger] g.out_edges(j)
                    == newest_first(g.sources(), j) by {
                    if j < before.nodes() {
                        assert(before.out_edges(j) == newest_first(before.sources(), j));
                    }
                }
                assert forall|j: int| 0 <= j < g.nodes() implies #[trigger] g.in_edges(j)
                    == newest_first(g.targets(), j) by {
                    if j < before.nodes() {
                        assert(g.out_edges(j) == before.out_edges(j));
                        assert(before.in_edges(j) == newest_first(before.targets(), j));
                    }
                }
            }
        }
        let mut i: usize = 0;
        let ghost goal = ends@.map_values(|p: (usize, usize)| (p.0 as int, p.1 as int));
        assert(goal.take(0) =~= Seq::<(int, int)>::empty());
        while i < ends.len()
            invariant
                i <= ends.len(),
                ends@.len() <= u32::MAX,
                forall|k: int|
                    0 <= k < ends@.len() ==> (#[trigger] ends@[k]).0 < n && ends@[k].1 < n,
                goal == ends@.map_values(|p: (usize, usize)| (p.0 as int, p.1 as int)),
                g.wf(),
                g.nodes() == n,
                g.ends() == goal.take(i as int),
                g.built_in_order(),
            decreases ends.len() - i,
        {
            let ghost before = g;
            let p: (usize, usize) = ends[i];
            g.add_edge(p.0, p.1);
            i = i + 1;
            proof {
                assert(g.ends() =~= goal.take(i as int));
                assert(g.sources() =~= before.sources().push(p.0 as int));
                assert(g.targets() =~= before.targets().push(p.1 as int));
                assert(g.sources().drop_last() =~= before.sources());
                assert(g.targets().drop_last() =~= before.targets());
                assert forall|j: int| 0 <= j < g.nodes() implies #[trigger] g.out_edges(j)
                    == newest_first(g.sources(), j) by {
                    assert(before.out_edges(j) == newest_first(before.sources(), j));
                }
                assert forall|j: int| 0 <= j < g.nodes() implies #[trigger] g.in_edges(j)
                    == newest_first(g.targets(), j) by {
                    assert(before.in_edges(j) == newest_first(before.targets(), j));
                }
            }
        }
        assert(goal.take(i as int) =~= goal);
        g
    }
}

/// Prepending the newest edge keeps the walk of its own end complete.
proof fn lemma_prepend_complete(list: Seq<int>, ends: Seq<int>, n: int)
    requires
        walk_complete(list, ends, n),
    ensures
        walk_complete(seq![ends.len() as int] + list, ends.push(n), n),
{
    let e = ends.len() as int;
    let w = seq![e] + list;
    assert(!list.contains(e));
    assert forall|x: int| w.contains(x) <==> 0 <= x < ends.push(n).len() && ends.push(n)[x]
        == n by {
        if w.contains(x) && x != e {
            let i = choose|i: int| 0 <= i < w.len() && w[i] == x;
            assert(list[i - 1] == x);
            assert(list.contains(x));
        }
        if 0 <= x < ends.len() && ends[x] == n {
            assert(list.contains(x));
            let i = choose|i: int| 0 <= i < list.len() && list[i] == x;
            assert(w[i + 1] == x);
        }
        if x == e {
            assert(w[0] == x);
        }
    }
    assert forall|i: int, j: int| 0 <= i < w.len() && 0 <= j < w.len() && i != j implies w[i]
        != w[j] by {
        if i > 0 {
            assert(list.contains(list[i - 1]));
        }
        if j > 0 {
            assert(list.contains(list[j - 1]));
        }
    }
}

/// An edge at another node keeps a walk complete.
proof fn lemma_other_complete(list: Seq<int>, ends: Seq<int>, n: int, other: int)
    requires
        walk_complete(list, ends, n),
        other != n,
    ensures
        walk_complete(list, ends.push(other), n),
{
}

/// Removing the edge that was added last restores the graph: adding an edge and taking it out
/// again leaves every walk as it was.
pub proof fn law_add_remove_edge(
    before: Topology,
    added: Topology,
    removed: Topology,
    a: int,
    b: int,
)
    requires
        before.wf(),
        0 <= a < before.nodes(),
        0 <= b < before.nodes(),
        before.edge_added(&added, a, b),
        added.edge_removed(&removed, before.ends().len() as int),
    ensures
        removed.same_as(&before),
{
    let e = before.ends().len() as int;
    assert(removed.ends() =~= before.ends());
    assert forall|k: int| 0 <= k < before.nodes() implies removed.out_edges(k)
        == before.out_edges(k) && removed.in_edges(k) == before.in_edges(k) by {
        assert(walk_complete(before.out_edges(k), before.sources(), k));
        assert(walk_complete(before.in_edges(k), before.targets(), k));
        assert(!before.out_edges(k).contains(e));
        assert(!before.in_edges(k).contains(e));
        lemma_walk_without_absent(before.out_edges(k), e);
        lemma_walk_without_absent(before.in_edges(k), e);
        assert(added.out_edges(k) == added.out_edges(k));
        assert(added.in_edges(k) == added.in_edges(k));
    }
}

/// Taking out the newest edge gives back a walk that did not hold it, with or without the
/// newest edge in front.
proof fn lemma_walk_without_absent(list: Seq<int>, e: int)
    requires
        !list.contains(e),
    ensures
        walk_without(list, e, e) == list,
        walk_without(seq![e] + list, e, e) == list,
    decreases list.len(),
{
    reveal(Seq::filter);
    if list.len() == 0 {
        let one = seq![e] + list;
        assert(one.drop_last() =~= Seq::<int>::empty());
        assert(list_without(one.drop_last(), e) =~= Seq::<int>::empty());
        assert(one.last() == e);
        assert(list_without(one, e) =~= Seq::<int>::empty());
        assert(walk_without(list, e, e) =~= list);
        assert(walk_without(one, e, e) =~= list);
    } else {
        let rest = list.drop_last();
        let last = list.last();
        assert(list.contains(last));
        assert forall|x: int| rest.contains(x) implies list.contains(x) by {
            let i = choose|i: int| 0 <= i < rest.len() && rest[i] == x;
            assert(list[i] == x);
        }
        lemma_walk_without_absent(rest, e);
        let one = seq![e] + list;
        assert(one.drop_last() =~= seq![e] + rest);
        assert(one.last() == last);
        assert(list_without(list, e) == list_without(rest, e).push(last));
        assert(list_without(one, e) == list_without(seq![e] + rest, e).push(last));
        assert(walk_without(list, e, e) =~= walk_without(rest, e, e).push(last));
        assert(walk_without(one, e, e) =~= walk_without(seq![e] + rest, e, e).push(last));
        assert(rest.push(last) =~= list);
    }
}

/// The walk from a node visits exactly its edges, and the newest of them first.
pub proof fn law_newest_edges_first(ends: Seq<int>, n: int)
    ensures
        forall|e: int| #[trigger]
            newest_first(ends, n).contains(e) <==> 0 <= e < ends.len() && ends[e] == n,
        forall|i: int, j: int|
            0 <= i < j < newest_first(ends, n).len() ==> #[trigger] newest_first(ends, n)[i]
                > #[trigger] newest_first(ends, n)[j],
    decreases ends.len(),
{
    if ends.len() > 0 {
        let front = ends.drop_last();
        law_newest_edges_first(front, n);
        let before = newest_first(front, n);
        let now = newest_first(ends, n);
        let last = ends.len() - 1;
        assert forall|e: int| #[trigger] now.contains(e) <==> 0 <= e < ends.len() && ends[e]
            == n by {
            if 0 <= e < last {
                assert(front[e] == ends[e]);
            }
            if now.contains(e) {
                let k = choose|k: int| 0 <= k < now.len() && now[k] == e;
                if ends.last() != n {
                    assert(before.contains(e));
                } else if k > 0 {
                    assert(before[k - 1] == e);
                    assert(before.contains(e));
                }
            }
            if 0 <= e < ends.len() && ends[e] == n {
                if e == last {
                    assert(now[0] == e);
                } else {
                    assert(before.contains(e));
                    let k = choose|k: int| 0 <= k < before.len() && before[k] == e;
                    if ends.last() == n {
                        assert(now[k + 1] == e);
                    } else {
                        assert(now[k] == e);
                    }
                }
            }
        }
        assert forall|i: int, j: int| 0 <= i < j < now.len() implies #[trigger] now[i]
            > #[trigger] now[j] by {
            if ends.last() == n {
                assert(now[j] == before[j - 1]);
                assert(before.contains(before[j - 1]));
                if i > 0 {
                    assert(now[i] == before[i - 1]);
                }
            }
        }
    }
}

} // verus!
