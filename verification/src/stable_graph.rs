//! What this library relies on from `petgraph`'s `StableGraph`.
//!
//! Nothing in this file is proved. The types of `petgraph` are opaque to
//! Verus; the spec functions without a body give names to what a graph
//! holds, and each function states, over those names, what the documentation
//! and the source of `petgraph` say about the method it calls.

use crate::route::{Route, RouteView};
use crate::station::{Station, StationView};
use petgraph::stable_graph::{EdgeIndex, NodeIndex, StableGraph};
use petgraph::visit::EdgeRef;
use petgraph::{Directed, Incoming};
use vstd::prelude::*;

verus! {

/// `petgraph::stable_graph::NodeIndex`: the handle of a node.
#[verifier::external_type_specification]
#[verifier::external_body]
#[verifier::reject_recursive_types(Ix)]
pub struct ExNodeIndex<Ix>(NodeIndex<Ix>);

/// `petgraph::stable_graph::EdgeIndex`: the handle of an edge.
#[verifier::external_type_specification]
#[verifier::external_body]
#[verifier::reject_recursive_types(Ix)]
pub struct ExEdgeIndex<Ix>(EdgeIndex<Ix>);

/// `petgraph::Directed`: the marker of graphs with directed edges.
#[verifier::external_type_specification]
#[verifier::external_body]
pub struct ExDirected(Directed);

/// `petgraph::stable_graph::StableGraph`: a graph whose handles stay valid
/// when other nodes and edges are removed.
#[verifier::external_type_specification]
#[verifier::external_body]
#[verifier::reject_recursive_types(N)]
#[verifier::reject_recursive_types(E)]
#[verifier::reject_recursive_types(Ty)]
#[verifier::reject_recursive_types(Ix)]
pub struct ExStableGraph<N, E, Ty, Ix>(StableGraph<N, E, Ty, Ix>);

/// A directed edge with its payload, as plain values.
pub struct Segment {
    pub from: NodeIndex<u32>,
    pub to: NodeIndex<u32>,
    pub route: RouteView,
}

/// The nodes of a graph: the station at each handle that is in use.
pub uninterp spec fn graph_nodes(g: StableGraph<Station, Route>) -> Map<NodeIndex<u32>, StationView>;

/// The edges of a graph: source, target and route at each handle that is in
/// use.
pub uninterp spec fn graph_edges(g: StableGraph<Station, Route>) -> Map<EdgeIndex<u32>, Segment>;

/// The edges that arrive at node `a`, in the order in which the graph hands
/// them out.
pub uninterp spec fn incoming_order(g: StableGraph<Station, Route>, a: NodeIndex<u32>) -> Seq<
    EdgeIndex<u32>,
>;

/// The edges that leave node `a`, in the order in which the graph hands them
/// out.
pub uninterp spec fn outgoing_order(g: StableGraph<Station, Route>, a: NodeIndex<u32>) -> Seq<
    EdgeIndex<u32>,
>;

/// The edges of `edges` that start or end at `a`.
pub open spec fn touching_set(edges: Map<EdgeIndex<u32>, Segment>, a: NodeIndex<u32>) -> Set<
    EdgeIndex<u32>,
> {
    Set::new(|e: EdgeIndex<u32>| edges.dom().contains(e) && (edges[e].from == a || edges[e].to == a))
}

/// Whether `listed` holds the edges of `edges` that end at `a`, and no others.
pub open spec fn lists_edges_into(
    listed: Seq<EdgeIndex<u32>>,
    edges: Map<EdgeIndex<u32>, Segment>,
    a: NodeIndex<u32>,
) -> bool {
    forall|e: EdgeIndex<u32>|
        listed.contains(e) <==> edges.dom().contains(e) && edges[e].to == a
}

/// Whether `listed` holds the edges of `edges` that start at `a`, and no
/// others.
pub open spec fn lists_edges_out_of(
    listed: Seq<EdgeIndex<u32>>,
    edges: Map<EdgeIndex<u32>, Segment>,
    a: NodeIndex<u32>,
) -> bool {
    forall|e: EdgeIndex<u32>|
        listed.contains(e) <==> edges.dom().contains(e) && edges[e].from == a
}

/// Whether the graph `g` lists no edge at any node.
pub open spec fn lists_nothing(g: StableGraph<Station, Route>) -> bool {
    &&& forall|a: NodeIndex<u32>| (#[trigger] incoming_order(g, a)).len() == 0
    &&& forall|a: NodeIndex<u32>| (#[trigger] outgoing_order(g, a)).len() == 0
}

/// Whether the graph `after` lists at every node what the graph `before`
/// lists there, in the same order.
pub open spec fn lists_the_same(
    before: StableGraph<Station, Route>,
    after: StableGraph<Station, Route>,
) -> bool {
    &&& forall|a: NodeIndex<u32>| #[trigger] incoming_order(after, a) == incoming_order(before, a)
    &&& forall|a: NodeIndex<u32>| #[trigger] outgoing_order(after, a) == outgoing_order(before, a)
}

/// The list `listed` of a node `at`, with the edge `e` put in front of it
/// where `at` is the node `of` to whose list `e` belongs.
pub open spec fn put_first(
    listed: Seq<EdgeIndex<u32>>,
    at: NodeIndex<u32>,
    of: NodeIndex<u32>,
    e: EdgeIndex<u32>,
) -> Seq<EdgeIndex<u32>> {
    if at == of {
        seq![e] + listed
    } else {
        listed
    }
}

/// Whether the graph `after` lists what the graph `before` lists, with the
/// edge `e` from `a` to `b` in front of the edges that leave `a` and in
/// front of the edges that arrive at `b`.
pub open spec fn lists_one_more(
    before: StableGraph<Station, Route>,
    after: StableGraph<Station, Route>,
    a: NodeIndex<u32>,
    b: NodeIndex<u32>,
    e: EdgeIndex<u32>,
) -> bool {
    &&& forall|at: NodeIndex<u32>| #[trigger]
        outgoing_order(after, at) == put_first(outgoing_order(before, at), at, a, e)
    &&& forall|at: NodeIndex<u32>| #[trigger]
        incoming_order(after, at) == put_first(incoming_order(before, at), at, b, e)
}

/// The test for a handle that is not an edge of `edges` that starts or ends
/// at `a`.
pub open spec fn clear_of(edges: Map<EdgeIndex<u32>, Segment>, a: NodeIndex<u32>) -> spec_fn(
    EdgeIndex<u32>,
) -> bool {
    |e: EdgeIndex<u32>| !touching_set(edges, a).contains(e)
}

/// Whether the graph `after` lists at every node what the graph `before`
/// lists there, in the same order, but for the edges that start or end at
/// `a`, which it does not list.
pub open spec fn lists_without(
    before: StableGraph<Station, Route>,
    after: StableGraph<Station, Route>,
    a: NodeIndex<u32>,
) -> bool {
    &&& forall|at: NodeIndex<u32>| #[trigger]
        incoming_order(after, at) == incoming_order(before, at).filter(
            clear_of(graph_edges(before), a),
        )
    &&& forall|at: NodeIndex<u32>| #[trigger]
        outgoing_order(after, at) == outgoing_order(before, at).filter(
            clear_of(graph_edges(before), a),
        )
}

/// `StableGraph::new`: a directed graph without nodes or edges.
#[verifier::external_body]
pub(crate) fn new_graph() -> (g: StableGraph<Station, Route>)
    ensures
        graph_nodes(g) =~= Map::empty(),
        graph_edges(g) =~= Map::empty(),
        lists_nothing(g),
{
    StableGraph::new()
}

/// `StableGraph::node_count`: the number of nodes.
#[verifier::external_body]
pub(crate) fn node_count(g: &StableGraph<Station, Route>) -> (n: usize)
    ensures
        n == graph_nodes(*g).len(),
{
    g.node_count()
}

/// `StableGraph::edge_count`: the number of edges.
#[verifier::external_body]
pub(crate) fn edge_count(g: &StableGraph<Station, Route>) -> (n: usize)
    ensures
        n == graph_edges(*g).len(),
{
    g.edge_count()
}

/// `StableGraph::contains_node`: whether `a` is a node of the graph.
#[verifier::external_body]
pub(crate) fn contains_node(g: &StableGraph<Station, Route>, a: NodeIndex<u32>) -> (r: bool)
    ensures
        r == graph_nodes(*g).dom().contains(a),
{
    g.contains_node(a)
}

/// `StableGraph::add_node`: puts `weight` at a handle that was not in use and
/// returns that handle; every other node and every edge stays as it was, and
/// so do the lists of edges at the nodes. The method panics when the graph
/// holds as many nodes as a `u32` index can number, which the precondition
/// excludes.
#[verifier::external_body]
pub(crate) fn add_node(g: &mut StableGraph<Station, Route>, weight: Station) -> (a: NodeIndex<u32>)
    requires
        graph_nodes(*old(g)).len() < u32::MAX,
    ensures
        !graph_nodes(*old(g)).dom().contains(a),
        graph_nodes(*final(g)) == graph_nodes(*old(g)).insert(a, weight@),
        graph_edges(*final(g)) == graph_edges(*old(g)),
        lists_the_same(*old(g), *final(g)),
{
    g.add_node(weight)
}

/// `StableGraph::add_edge`: puts an edge from `a` to `b` with `weight` at a
/// handle that was not in use and returns that handle; every other edge and
/// every node stays as it was. The new edge is linked in as the first of the
/// edges that leave `a` and as the first of those that arrive at `b`. The
/// method panics when `a` or `b` is not a node of the graph, and when the
/// graph holds as many edges as a `u32` index can number; the precondition
/// excludes both.
#[verifier::external_body]
pub(crate) fn add_edge(
    g: &mut StableGraph<Station, Route>,
    a: NodeIndex<u32>,
    b: NodeIndex<u32>,
    weight: Route,
) -> (e: EdgeIndex<u32>)
    requires
        graph_nodes(*old(g)).dom().contains(a),
        graph_nodes(*old(g)).dom().contains(b),
        graph_edges(*old(g)).len() < u32::MAX,
    ensures
        !graph_edges(*old(g)).dom().contains(e),
        graph_edges(*final(g)) == graph_edges(*old(g)).insert(
            e,
            Segment { from: a, to: b, route: weight@ },
        ),
        graph_nodes(*final(g)) == graph_nodes(*old(g)),
        lists_one_more(*old(g), *final(g), a, b, e),
{
    g.add_edge(a, b, weight)
}

/// `StableGraph::remove_node`: where `a` is a node, removes it together with
/// every edge that starts or ends at it, and returns its weight; every other
/// node and edge keeps its handle and its payload, and the edges that stay
/// keep their order in the lists at the nodes. Where `a` is no node, the
/// graph stays as it was and the result is `None`.
#[verifier::external_body]
pub(crate) fn remove_node(g: &mut StableGraph<Station, Route>, a: NodeIndex<u32>) -> (r: Option<
    Station,
>)
    ensures
        r is Some <==> graph_nodes(*old(g)).dom().contains(a),
        r matches Some(weight) ==> weight@ == graph_nodes(*old(g))[a],
        graph_nodes(*final(g)) == graph_nodes(*old(g)).remove(a),
        graph_edges(*final(g)) == if graph_nodes(*old(g)).dom().contains(a) {
            graph_edges(*old(g)).remove_keys(touching_set(graph_edges(*old(g)), a))
        } else {
            graph_edges(*old(g))
        },
        if graph_nodes(*old(g)).dom().contains(a) {
            lists_without(*old(g), *final(g), a)
        } else {
            lists_the_same(*old(g), *final(g))
        },
{
    g.remove_node(a)
}

/// `StableGraph::node_weight`: the station at node `a`, or `None` where `a`
/// is no node of the graph.
#[verifier::external_body]
pub(crate) fn node_weight(g: &StableGraph<Station, Route>, a: NodeIndex<u32>) -> (r: Option<
    &Station,
>)
    ensures
        r is Some <==> graph_nodes(*g).dom().contains(a),
        r matches Some(weight) ==> weight@ == graph_nodes(*g)[a],
{
    g.node_weight(a)
}

/// `StableGraph::node_weight_mut`: access to the station at node `a`, or
/// `None` where `a` is no node of the graph. Whatever the caller makes of the
/// station, every other node and every edge stays as it was, and so do the
/// lists of edges at the nodes.
#[verifier::external_body]
pub(crate) fn node_weight_mut(g: &mut StableGraph<Station, Route>, a: NodeIndex<u32>) -> (r: Option<
    &mut Station,
>)
    ensures
        r is Some <==> graph_nodes(*old(g)).dom().contains(a),
        r matches Some(weight) ==> (*weight)@ == graph_nodes(*old(g))[a] && graph_nodes(*final(g))
            == graph_nodes(*old(g)).insert(a, (*final(weight))@),
        r is None ==> graph_nodes(*final(g)) == graph_nodes(*old(g)),
        graph_edges(*final(g)) == graph_edges(*old(g)),
        lists_the_same(*old(g), *final(g)),
{
    g.node_weight_mut(a)
}

/// `StableGraph::edge_endpoints`: the source and the target of edge `e`, or
/// `None` where `e` is no edge of the graph.
#[verifier::external_body]
pub(crate) fn edge_endpoints(g: &StableGraph<Station, Route>, e: EdgeIndex<u32>) -> (r: Option<
    (NodeIndex<u32>, NodeIndex<u32>),
>)
    ensures
        r == if graph_edges(*g).dom().contains(e) {
            Some((graph_edges(*g)[e].from, graph_edges(*g)[e].to))
        } else {
            None
        },
{
    g.edge_endpoints(e)
}

/// `StableGraph::edge_weight`: the route on edge `e`, or `None` where `e` is
/// no edge of the graph.
#[verifier::external_body]
pub(crate) fn edge_weight(g: &StableGraph<Station, Route>, e: EdgeIndex<u32>) -> (r: Option<&Route>)
    ensures
        r is Some <==> graph_edges(*g).dom().contains(e),
        r matches Some(weight) ==> weight@ == graph_edges(*g)[e].route,
{
    g.edge_weight(e)
}

/// `StableGraph::edges_directed` with `Incoming`: the handles of all edges
/// that end at `a`, each once, in the graph's order.
#[verifier::external_body]
pub(crate) fn incoming_edges(g: &StableGraph<Station, Route>, a: NodeIndex<u32>) -> (r: Vec<
    EdgeIndex<u32>,
>)
    ensures
        r@ == incoming_order(*g, a),
        lists_edges_into(r@, graph_edges(*g), a),
        r@.no_duplicates(),
{
    g.edges_directed(a, Incoming).map(|edge| edge.id()).collect()
}

/// `StableGraph::edges`: the handles of all edges that start at `a`, each
/// once, in the graph's order.
#[verifier::external_body]
pub(crate) fn outgoing_edges(g: &StableGraph<Station, Route>, a: NodeIndex<u32>) -> (r: Vec<
    EdgeIndex<u32>,
>)
    ensures
        r@ == outgoing_order(*g, a),
        lists_edges_out_of(r@, graph_edges(*g), a),
        r@.no_duplicates(),
{
    g.edges(a).map(|edge| edge.id()).collect()
}

/// `==` on `NodeIndex`: whether two handles are the same.
#[verifier::external_body]
pub(crate) fn same_node(a: NodeIndex<u32>, b: NodeIndex<u32>) -> (r: bool)
    ensures
        r == (a == b),
{
    a == b
}

} // verus!
