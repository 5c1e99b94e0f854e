//! The route network: stations as the nodes and routes as the directed edges
//! of a graph with stable handles.

pub mod grouping;
pub mod listing;
pub mod removal;

use crate::route::{is_directed_name, segment_name, Route, RouteView, BACKWARD, FORWARD};
use crate::stable_graph::{
    add_edge, add_node, contains_node, edge_count, edge_endpoints, edge_weight, graph_edges,
    graph_nodes, incoming_order, lists_nothing, lists_the_same, new_graph, node_count,
    node_weight, node_weight_mut, outgoing_order, put_first, Segment,
};
use crate::station::{fresh_platforms, platform_classes, Station, StationView};
use crate::train::TrainType;
use petgraph::stable_graph::{EdgeIndex, NodeIndex, StableGraph};
use vstd::prelude::*;
use vstd::string::StringExecFns;

verus! {

/// Why an edit of the network failed.
#[derive(Debug, PartialEq)]
pub enum GraphError {
    /// The station to remove is not in the network.
    RemovingStation,
}

/// The route network.
pub struct Graph {
    pub graph: StableGraph<Station, Route>,
}

impl Graph {
    /// The stations of the network, by their handles.
    pub open spec fn stations(&self) -> Map<NodeIndex<u32>, StationView> {
        graph_nodes(self.graph)
    }

    /// The segments of the network, by their handles.
    pub open spec fn segments(&self) -> Map<EdgeIndex<u32>, Segment> {
        graph_edges(self.graph)
    }

    /// The network holds finitely many stations and segments, and every
    /// segment starts and ends at a station of the network.
    pub open spec fn wf(&self) -> bool {
        &&& self.stations().dom().finite()
        &&& self.segments().dom().finite()
        &&& forall|e: EdgeIndex<u32>| #[trigger]
            self.segments().dom().contains(e) ==> {
                &&& self.stations().dom().contains(self.segments()[e].from)
                &&& self.stations().dom().contains(self.segments()[e].to)
            }
    }

    /// Every segment's name ends in a direction marker.
    pub open spec fn directed_names(&self) -> bool {
        forall|e: EdgeIndex<u32>| #[trigger]
            self.segments().dom().contains(e) ==> is_directed_name(self.segments()[e].route.name)
    }

    /// The segments that arrive at `node`, in the order in which the graph
    /// lists them.
    pub open spec fn arrivals(&self, node: NodeIndex<u32>) -> Seq<EdgeIndex<u32>> {
        incoming_order(self.graph, node)
    }

    /// The segments that leave `node`, in the order in which the graph lists
    /// them.
    pub open spec fn departures(&self, node: NodeIndex<u32>) -> Seq<EdgeIndex<u32>> {
        outgoing_order(self.graph, node)
    }

    /// An empty network.
    pub fn new() -> (r: Graph)
        ensures
            r.wf(),
            r.stations() == Map::<NodeIndex<u32>, StationView>::empty(),
            r.segments() == Map::<EdgeIndex<u32>, Segment>::empty(),
            lists_nothing(r.graph),
    {
        Graph { graph: new_graph() }
    }

    /// The number of stations in the network.
    pub fn station_count(&self) -> (n: usize)
        ensures
            n == self.stations().len(),
    {
        node_count(&self.graph)
    }

    /// The number of segments in the network.
    pub fn segment_count(&self) -> (n: usize)
        ensures
            n == self.segments().len(),
    {
        edge_count(&self.graph)
    }

    /// Whether `node` is a station of the network.
    pub fn contains_station(&self, node: NodeIndex<u32>) -> (r: bool)
        ensures
            r == self.stations().dom().contains(node),
    {
        contains_node(&self.graph, node)
    }

    /// The station at `node`, if `node` is a station of the network.
    pub fn station(&self, node: NodeIndex<u32>) -> (r: Option<&Station>)
        ensures
            r is Some <==> self.stations().dom().contains(node),
            r matches Some(station) ==> station@ == self.stations()[node],
    {
        node_weight(&self.graph, node)
    }

    /// Access to the station at `node`, if `node` is a station of the
    /// network, for the booking of its platforms. Whatever the caller makes
    /// of the station, the rest of the network stays as it was.
    pub fn station_mut(&mut self, node: NodeIndex<u32>) -> (r: Option<&mut Station>)
        requires
            old(self).wf(),
        ensures
            final(self).wf(),
            r is Some <==> old(self).stations().dom().contains(node),
            r matches Some(station) ==> (*station)@ == old(self).stations()[node]
                && final(self).stations() == old(self).stations().insert(
                node,
                (*final(station))@,
            ),
            r is None ==> final(self).stations() == old(self).stations(),
            final(self).segments() == old(self).segments(),
            lists_the_same(old(self).graph, final(self).graph),
    {
        node_weight_mut(&mut self.graph, node)
    }

    /// The route on the segment `edge`, if `edge` is a segment of the
    /// network.
    pub fn route(&self, edge: EdgeIndex<u32>) -> (r: Option<&Route>)
        ensures
            r is Some <==> self.segments().dom().contains(edge),
            r matches Some(route) ==> route@ == self.segments()[edge].route,
    {
        edge_weight(&self.graph, edge)
    }

    /// The stations at which the segment `edge` starts and ends, if `edge`
    /// is a segment of the network.
    pub fn endpoints(&self, edge: EdgeIndex<u32>) -> (r: Option<(NodeIndex<u32>, NodeIndex<u32>)>)
        ensures
            r is Some <==> self.segments().dom().contains(edge),
            r matches Some(ends) ==> ends.0 == self.segments()[edge].from && ends.1
                == self.segments()[edge].to,
    {
        edge_endpoints(&self.graph, edge)
    }

    /// Adds a station and returns its handle. The station takes its id from
    /// `id`, which advances by one, and gets the platforms that `platforms`
    /// asks for, as [`Station::new`] makes them. Every other station and every
    /// segment stays as it was.
    pub fn add_station_to_graph(
        &mut self,
        id: &mut u32,
        name: String,
        platforms: Vec<(u8, TrainType)>,
    ) -> (r: NodeIndex<u32>)
        requires
            old(self).wf(),
            old(self).stations().len() < u32::MAX,
            *old(id) < u32::MAX,
            platform_classes(platforms@).len() <= u8::MAX,
        ensures
            final(self).wf(),
            !old(self).stations().dom().contains(r),
            final(self).stations() == old(self).stations().insert(
                r,
                StationView {
                    id: *old(id),
                    name: name@,
                    platforms: fresh_platforms(platform_classes(platforms@)),
                },
            ),
            final(self).segments() == old(self).segments(),
            lists_the_same(old(self).graph, final(self).graph),
            *final(id) == *old(id) + 1,
    {
        let new_station = Station::new(id, name, platforms);
        add_node(&mut self.graph, new_station)
    }

    /// Adds the route of line `name` from `station_a` to `station_b`, and, if
    /// `bidirectional`, the route back. The segment from `station_a` to
    /// `station_b` is named `name` followed by the forward marker, the one
    /// back `name` followed by the backward marker. Each segment takes its id
    /// from `route_id`, which advances by one for each. Returns the handle of
    /// the forward segment and, if there is one, that of the backward
    /// segment.
    pub fn add_route_to_graph(
        &mut self,
        station_a: NodeIndex<u32>,
        station_b: NodeIndex<u32>,
        route_id: &mut u32,
        name: String,
        bidirectional: bool,
    ) -> (r: (Option<EdgeIndex<u32>>, Option<EdgeIndex<u32>>))
        requires
            old(self).wf(),
            old(self).stations().dom().contains(station_a),
            old(self).stations().dom().contains(station_b),
            old(self).segments().len() + segments_of_route(bidirectional) <= u32::MAX,
            *old(route_id) + segments_of_route(bidirectional) <= u32::MAX,
        ensures
            final(self).wf(),
            old(self).directed_names() ==> final(self).directed_names(),
            final(self).stations() == old(self).stations(),
            *final(route_id) == *old(route_id) + segments_of_route(bidirectional),
            r.0 is Some,
            r.1 is Some <==> bidirectional,
            !old(self).segments().dom().contains(r.0->0),
            bidirectional ==> !old(self).segments().dom().contains(r.1->0) && r.1->0 != r.0->0,
            final(self).segments() == with_route(
                old(self).segments(),
                station_a,
                station_b,
                *old(route_id),
                name@,
                r.0->0,
                r.1,
            ),
            lists_with_route(*old(self), *final(self), station_a, station_b, r.0->0, r.1),
    {
        let mut name_f = name.clone();
        let mut name_b = name;
        proof {
            reveal_strlit("f");
            reveal_strlit("b");
        }
        name_f.append("f");
        name_b.append("b");
        assert(name_f@ =~= segment_name(name@, true));
        assert(name_b@ =~= segment_name(name@, false));
        let new_route = Route::new(route_id, name_f);
        let forward_edge = add_edge(&mut self.graph, station_a, station_b, new_route);
        let mut backward_edge: Option<EdgeIndex<u32>> = None;
        if bidirectional {
            let new_route_reverse_direction = Route::new(route_id, name_b);
            let back = add_edge(&mut self.graph, station_b, station_a, new_route_reverse_direction);
            backward_edge = Some(back);
        }
        (Some(forward_edge), backward_edge)
    }
}

/// Whether the network `after` lists the segments at its stations as the
/// network `before` does, with the segments of one more route from `a` to
/// `b` in front: the forward segment first of those that leave `a` and of
/// those that arrive at `b`, and then, where the route has one, the backward
/// segment first of those that leave `b` and of those that arrive at `a`.
pub open spec fn lists_with_route(
    before: Graph,
    after: Graph,
    a: NodeIndex<u32>,
    b: NodeIndex<u32>,
    forward: EdgeIndex<u32>,
    backward: Option<EdgeIndex<u32>>,
) -> bool {
    &&& forall|at: NodeIndex<u32>| #[trigger]
        after.departures(at) == (match backward {
            Some(back) => put_first(put_first(before.departures(at), at, a, forward), at, b, back),
            None => put_first(before.departures(at), at, a, forward),
        })
    &&& forall|at: NodeIndex<u32>| #[trigger]
        after.arrivals(at) == (match backward {
            Some(back) => put_first(put_first(before.arrivals(at), at, b, forward), at, a, back),
            None => put_first(before.arrivals(at), at, b, forward),
        })
}

/// The number of segments that a route consists of.
pub open spec fn segments_of_route(bidirectional: bool) -> int {
    if bidirectional {
        2
    } else {
        1
    }
}

/// The segments `segments` together with those of one route of line `line`:
/// a forward segment from `a` to `b` at handle `forward`, with id `first_id`,
/// and, where `backward` names a handle, a backward segment from `b` to `a`
/// at that handle, with the next id.
pub open spec fn with_route(
    segments: Map<EdgeIndex<u32>, Segment>,
    a: NodeIndex<u32>,
    b: NodeIndex<u32>,
    first_id: u32,
    line: Seq<char>,
    forward: EdgeIndex<u32>,
    backward: Option<EdgeIndex<u32>>,
) -> Map<EdgeIndex<u32>, Segment> {
    let one = segments.insert(
        forward,
        Segment { from: a, to: b, route: RouteView { id: first_id, name: segment_name(line, true) } },
    );
    match backward {
        Some(back) => one.insert(
            back,
            Segment {
                from: b,
                to: a,
                route: RouteView { id: (first_id + 1) as u32, name: segment_name(line, false) },
            },
        ),
        None => one,
    }
}



/// A route adds its forward segment, and its backward segment where it has
/// one, with consecutive ids and the names of the two directions; no other
/// segment is added and none is changed, so the network has one segment
/// more, or two.
pub proof fn lemma_with_route(
    segments: Map<EdgeIndex<u32>, Segment>,
    a: NodeIndex<u32>,
    b: NodeIndex<u32>,
    first_id: u32,
    line: Seq<char>,
    forward: EdgeIndex<u32>,
    backward: Option<EdgeIndex<u32>>,
)
    requires
        segments.dom().finite(),
        !segments.dom().contains(forward),
        backward matches Some(back) ==> !segments.dom().contains(back) && back != forward
            && first_id < u32::MAX,
    ensures
        ({
            let after = with_route(segments, a, b, first_id, line, forward, backward);
            &&& after.dom().finite()
            &&& after.len() == segments.len() + segments_of_route(backward is Some)
            &&& after.dom().contains(forward)
            &&& after[forward] == (Segment {
                from: a,
                to: b,
                route: RouteView { id: first_id, name: line.push(FORWARD) },
            })
            &&& backward matches Some(back) ==> after.dom().contains(back) && after[back] == (
                Segment {
                    from: b,
                    to: a,
                    route: RouteView { id: (first_id + 1) as u32, name: line.push(BACKWARD) },
                }) && after[back].route.id != after[forward].route.id
            &&& forall|e: EdgeIndex<u32>|
                after.dom().contains(e) && e != forward && backward != Some(e)
                    <==> segments.dom().contains(e)
            &&& segments.submap_of(after)
        }),
{
}

} // verus!
