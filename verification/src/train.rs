//! Trains, the register that owns them, and the rule by which a train advances
//! along its line.

use crate::graph::Graph;
use crate::route::{segment_name, BACKWARD, FORWARD};
use crate::stable_graph::{
    edge_endpoints, edge_weight, lists_edges_out_of, outgoing_edges, outgoing_order, Segment,
};
use petgraph::stable_graph::{EdgeIndex, NodeIndex};
use vstd::prelude::*;
use vstd::string::{StrSliceExecFns, StringExecFns};

verus! {

/// The class of a vehicle, and of the platforms that can take it.
#[derive(Copy, Clone, Eq, PartialEq, Ord, PartialOrd, Hash, Debug, Structural)]
pub enum TrainType {
    LowSpeed,
    Freight,
    HighSpeed,
}

/// Where a train is: at a station or on a segment between two stations.
#[derive(Debug, PartialEq, Clone, Copy)]
pub enum Location {
    NodeTypeIndex(NodeIndex<u32>),
    EdgeTypeIndex(EdgeIndex<u32>),
}

/// Why a train could not advance.
#[derive(Debug, PartialEq, Eq, Clone, Copy)]
pub enum TrainError {
    /// No segment of the train's line leaves the station at which the train
    /// stands, in either direction.
    TrainStuck,
    /// The segment on which the train was is no longer in the network.
    SegmentGone,
}

/// A train of the fleet.
#[derive(Debug, PartialEq)]
pub struct Train {
    id: u32,
    train_type: TrainType,
    location: Location,
    route_name: String,
    dir_forward: bool,
    model: String,
}

/// What a [`Train`] is, as plain values.
pub struct TrainView {
    pub id: u32,
    pub train_type: TrainType,
    pub location: Location,
    pub route_name: Seq<char>,
    pub dir_forward: bool,
    pub model: Seq<char>,
}

impl View for Train {
    type V = TrainView;

    closed spec fn view(&self) -> TrainView {
        TrainView {
            id: self.id,
            train_type: self.train_type,
            location: self.location,
            route_name: self.route_name@,
            dir_forward: self.dir_forward,
            model: self.model@,
        }
    }
}

/// Whether `e` is a segment of `segments` whose route is named `wanted`.
pub open spec fn is_named(
    segments: Map<EdgeIndex<u32>, Segment>,
    e: EdgeIndex<u32>,
    wanted: Seq<char>,
) -> bool {
    segments.dom().contains(e) && segments[e].route.name == wanted
}

/// Whether `e` is a segment of `segments` that leaves `node` and belongs to
/// `line` in the given direction.
pub open spec fn leaves_on_line(
    segments: Map<EdgeIndex<u32>, Segment>,
    e: EdgeIndex<u32>,
    node: NodeIndex<u32>,
    line: Seq<char>,
    forward: bool,
) -> bool {
    is_named(segments, e, segment_name(line, forward)) && segments[e].from == node
}

/// The last of `outgoing` that is a segment of `segments` named `wanted`.
pub open spec fn last_named(
    segments: Map<EdgeIndex<u32>, Segment>,
    outgoing: Seq<EdgeIndex<u32>>,
    wanted: Seq<char>,
) -> Option<EdgeIndex<u32>>
    decreases outgoing.len(),
{
    if outgoing.len() == 0 {
        None
    } else if is_named(segments, outgoing.last(), wanted) {
        Some(outgoing.last())
    } else {
        last_named(segments, outgoing.drop_last(), wanted)
    }
}

/// The train `train` after it has left its station, whose outgoing segments
/// are `outgoing`: it is on the last of them that belongs to its line in its
/// direction of travel; where there is none, it has turned round and is on
/// the last that belongs to its line in the other direction. Where there is
/// none either, the train is stuck.
pub open spec fn departed(
    train: TrainView,
    segments: Map<EdgeIndex<u32>, Segment>,
    outgoing: Seq<EdgeIndex<u32>>,
) -> Result<TrainView, TrainError> {
    let ahead = last_named(segments, outgoing, segment_name(train.route_name, train.dir_forward));
    let behind = last_named(
        segments,
        outgoing,
        segment_name(train.route_name, !train.dir_forward),
    );
    match (ahead, behind) {
        (Some(e), _) => Ok(TrainView { location: Location::EdgeTypeIndex(e), ..train }),
        (None, Some(e)) => Ok(
            TrainView {
                location: Location::EdgeTypeIndex(e),
                dir_forward: !train.dir_forward,
                ..train
            },
        ),
        (None, None) => Err(TrainError::TrainStuck),
    }
}

/// The train `train` after it has left the segment `e`: it is at the station
/// at which `e` ends. Where `e` is no segment of `segments`, the train cannot
/// advance.
pub open spec fn arrived(
    train: TrainView,
    segments: Map<EdgeIndex<u32>, Segment>,
    e: EdgeIndex<u32>,
) -> Result<TrainView, TrainError> {
    if segments.dom().contains(e) {
        Ok(TrainView { location: Location::NodeTypeIndex(segments[e].to), ..train })
    } else {
        Err(TrainError::SegmentGone)
    }
}

/// The train `train` after one step in the network `graph`.
pub open spec fn advanced(train: TrainView, graph: Graph) -> Result<TrainView, TrainError> {
    match train.location {
        Location::NodeTypeIndex(node) => departed(
            train,
            graph.segments(),
            outgoing_order(graph.graph, node),
        ),
        Location::EdgeTypeIndex(e) => arrived(train, graph.segments(), e),
    }
}

/// Whether `train` is at a station or on a segment of the network `graph`.
pub open spec fn on_the_map(train: TrainView, graph: Graph) -> bool {
    match train.location {
        Location::NodeTypeIndex(node) => graph.stations().dom().contains(node),
        Location::EdgeTypeIndex(e) => graph.segments().dom().contains(e),
    }
}

/// Whether the outcome `r` of a step and the train `after` it are what
/// `expected` says: the new train on success, and on failure the error with
/// the train as it was `before`.
pub open spec fn is_outcome(
    expected: Result<TrainView, TrainError>,
    before: TrainView,
    r: Result<(), TrainError>,
    after: TrainView,
) -> bool {
    match expected {
        Ok(train) => r is Ok && after == train,
        Err(error) => r == Err::<(), TrainError>(error) && after == before,
    }
}

/// Whether `name_in_graph` is one of the two names of a line: that of its
/// forward segments or that of its backward segments.
pub fn compare_route_names(
    name_in_graph: &String,
    route_name_forward_direction: &String,
    route_name_back_direction: &String,
) -> (r: bool)
    ensures
        r == (name_in_graph@ == route_name_forward_direction@ || name_in_graph@
            == route_name_back_direction@),
{
    if *name_in_graph == *route_name_forward_direction || *name_in_graph
        == *route_name_back_direction {
        true
    } else {
        false
    }
}

impl Train {
    fn new(
        id: &mut u32,
        train_type: TrainType,
        location: Location,
        route_name: String,
        dir_forward: bool,
        model: String,
    ) -> (r: Train)
        requires
            *old(id) < u32::MAX,
        ensures
            *final(id) == *old(id) + 1,
            r@ == (TrainView {
                id: *old(id),
                train_type,
                location,
                route_name: route_name@,
                dir_forward,
                model: model@,
            }),
    {
        let new_train = Train { id: *id, train_type, location, route_name, dir_forward, model };
        *id += 1;
        new_train
    }

    /// The id of the train.
    pub fn id(&self) -> (r: u32)
        ensures
            r == self@.id,
    {
        self.id
    }

    /// The class of the train.
    pub fn train_type(&self) -> (r: TrainType)
        ensures
            r == self@.train_type,
    {
        self.train_type
    }

    /// Where the train is.
    pub fn location(&self) -> (r: Location)
        ensures
            r == self@.location,
    {
        self.location
    }

    /// The name of the line on which the train runs.
    pub fn route_name(&self) -> (r: &String)
        ensures
            r@ == self@.route_name,
    {
        &self.route_name
    }

    /// Whether the train runs forward along its line.
    pub fn dir_forward(&self) -> (r: bool)
        ensures
            r == self@.dir_forward,
    {
        self.dir_forward
    }

    /// The model of the train.
    pub fn model(&self) -> (r: &String)
        ensures
            r@ == self@.model,
    {
        &self.model
    }

    /// Advances the train by one step: from a segment to the station at
    /// which the segment ends, and from a station onto a segment of the
    /// train's line that leaves the station, as [`departed`] chooses it among
    /// the outgoing segments in the order of the graph. A step that fails
    /// leaves the train as it was.
    pub fn move_forward(&mut self, graph: &Graph) -> (r: Result<(), TrainError>)
        ensures
            is_outcome(advanced(old(self)@, *graph), old(self)@, r, final(self)@),
            old(self)@.location matches Location::NodeTypeIndex(node) ==> lists_edges_out_of(
                outgoing_order(graph.graph, node),
                graph.segments(),
                node,
            ) && outgoing_order(graph.graph, node).no_duplicates(),
            graph.wf() && on_the_map(old(self)@, *graph) ==> on_the_map(final(self)@, *graph),
            r is Ok ==> match (old(self)@.location, final(self)@.location) {
                (Location::NodeTypeIndex(node), Location::EdgeTypeIndex(e)) => {
                    &&& graph.segments().dom().contains(e)
                    &&& graph.segments()[e].from == node
                },
                (Location::EdgeTypeIndex(e), Location::NodeTypeIndex(node)) => {
                    &&& graph.segments().dom().contains(e)
                    &&& graph.segments()[e].to == node
                },
                _ => false,
            },
    {
        match self.location {
            Location::NodeTypeIndex(value) => {
                let outgoing = outgoing_edges(&graph.graph, value);
                let r = self.change_train_location(graph, &outgoing);
                proof {
                    if r is Ok {
                        lemma_last_named_is_listed(
                            graph.segments(),
                            outgoing@,
                            segment_name(old(self)@.route_name, true),
                        );
                        lemma_last_named_is_listed(
                            graph.segments(),
                            outgoing@,
                            segment_name(old(self)@.route_name, false),
                        );
                    }
                }
                r
            },
            Location::EdgeTypeIndex(value) => {
                match edge_endpoints(&graph.graph, value) {
                    Some(ends) => {
                        self.location = Location::NodeTypeIndex(ends.1);
                        Ok(())
                    },
                    None => Err(TrainError::SegmentGone),
                }
            },
        }
    }

    /// Moves the train from its station onto one of the segments `outgoing`,
    /// as [`departed`] chooses it, turning the train round where its line
    /// goes on only in the other direction.
    pub fn change_train_location(&mut self, graph: &Graph, outgoing: &Vec<EdgeIndex<u32>>) -> (r:
        Result<(), TrainError>)
        ensures
            is_outcome(
                departed(old(self)@, graph.segments(), outgoing@),
                old(self)@,
                r,
                final(self)@,
            ),
    {
        let mut route_forward_name = self.route_name.clone();
        let mut route_backward_name = self.route_name.clone();
        proof {
            reveal_strlit("f");
            reveal_strlit("b");
        }
        route_forward_name.append("f");
        route_backward_name.append("b");
        assert(route_forward_name@ =~= segment_name(self@.route_name, true));
        assert(route_backward_name@ =~= segment_name(self@.route_name, false));
        let mut last_forward: Option<EdgeIndex<u32>> = None;
        let mut last_backward: Option<EdgeIndex<u32>> = None;
        let mut i: usize = 0;
        assert(outgoing@.take(0) =~= Seq::<EdgeIndex<u32>>::empty());
        while i < outgoing.len()
            invariant
                i <= outgoing.len(),
                self@ == old(self)@,
                route_forward_name@ == segment_name(self@.route_name, true),
                route_backward_name@ == segment_name(self@.route_name, false),
                last_forward == last_named(
                    graph.segments(),
                    outgoing@.take(i as int),
                    route_forward_name@,
                ),
                last_backward == last_named(
                    graph.segments(),
                    outgoing@.take(i as int),
                    route_backward_name@,
                ),
            decreases outgoing.len() - i,
        {
            let edge = outgoing[i];
            proof {
                let more = outgoing@.take(i as int + 1);
                assert(more.drop_last() =~= outgoing@.take(i as int));
                assert(more.last() == edge);
            }
            match edge_weight(&graph.graph, edge) {
                Some(route) => {
                    if compare_route_names(&route.name, &route_forward_name, &route_backward_name) {
                        let length = route.name.as_str().unicode_len();
                        let marker = route.name.as_str().get_char(length - 1);
                        if marker == FORWARD {
                            last_forward = Some(edge);
                        } else if marker == BACKWARD {
                            last_backward = Some(edge);
                        }
                    }
                },
                None => {},
            }
            i += 1;
        }
        assert(outgoing@.take(i as int) =~= outgoing@);
        let (ahead, behind) = if self.dir_forward {
            (last_forward, last_backward)
        } else {
            (last_backward, last_forward)
        };
        match ahead {
            Some(edge) => {
                self.location = Location::EdgeTypeIndex(edge);
                Ok(())
            },
            None => match behind {
                Some(edge) => {
                    self.dir_forward = !self.dir_forward;
                    self.location = Location::EdgeTypeIndex(edge);
                    Ok(())
                },
                None => Err(TrainError::TrainStuck),
            },
        }
    }
}

/// A train that leaves a station goes onto one of the outgoing segments that
/// belongs to its line and runs in the direction in which the train then
/// travels. It turns round only where no outgoing segment of its line runs
/// in its direction, and it is stuck only where none runs in either.
pub proof fn lemma_departure(
    train: TrainView,
    segments: Map<EdgeIndex<u32>, Segment>,
    outgoing: Seq<EdgeIndex<u32>>,
)
    ensures
        match departed(train, segments, outgoing) {
            Ok(after) => {
                &&& after.location matches Location::EdgeTypeIndex(e) && outgoing.contains(e)
                    && is_named(segments, e, segment_name(train.route_name, after.dir_forward))
                &&& after.dir_forward != train.dir_forward ==> forall|i: int|
                    0 <= i < outgoing.len() ==> !is_named(
                        segments,
                        #[trigger] outgoing[i],
                        segment_name(train.route_name, train.dir_forward),
                    )
                &&& after == (TrainView {
                    location: after.location,
                    dir_forward: after.dir_forward,
                    ..train
                })
            },
            Err(error) => {
                &&& error == TrainError::TrainStuck
                &&& forall|i: int, forward: bool|
                    0 <= i < outgoing.len() ==> !is_named(
                        segments,
                        #[trigger] outgoing[i],
                        #[trigger] segment_name(train.route_name, forward),
                    )
            },
        },
{
    lemma_last_named_is_listed(segments, outgoing, segment_name(train.route_name, true));
    lemma_last_named_is_listed(segments, outgoing, segment_name(train.route_name, false));
}

/// Where `outgoing` lists the segments that leave `node`, a train at `node`
/// departs exactly if a segment of its line leaves `node`, in whichever
/// direction, and it keeps its direction exactly if one does so in the
/// direction of the train.
pub proof fn lemma_departs_where_line_goes_on(
    train: TrainView,
    segments: Map<EdgeIndex<u32>, Segment>,
    outgoing: Seq<EdgeIndex<u32>>,
    node: NodeIndex<u32>,
)
    requires
        lists_edges_out_of(outgoing, segments, node),
    ensures
        departed(train, segments, outgoing) is Ok <==> exists|e: EdgeIndex<u32>, forward: bool|
            leaves_on_line(segments, e, node, train.route_name, forward),
        departed(train, segments, outgoing) matches Ok(after) && after.dir_forward
            == train.dir_forward <==> exists|e: EdgeIndex<u32>|
            leaves_on_line(segments, e, node, train.route_name, train.dir_forward),
{
    lemma_departure(train, segments, outgoing);
    let ahead = segment_name(train.route_name, train.dir_forward);
    let behind = segment_name(train.route_name, !train.dir_forward);
    lemma_last_named_is_listed(segments, outgoing, ahead);
    lemma_last_named_is_listed(segments, outgoing, behind);
    if departed(train, segments, outgoing) is Ok {
        let after = departed(train, segments, outgoing)->Ok_0;
        let e = after.location->EdgeTypeIndex_0;
        assert(leaves_on_line(segments, e, node, train.route_name, after.dir_forward));
    }
    if last_named(segments, outgoing, ahead) is Some {
        let e = last_named(segments, outgoing, ahead)->0;
        assert(leaves_on_line(segments, e, node, train.route_name, train.dir_forward));
    }
    assert forall|e: EdgeIndex<u32>, forward: bool|
        leaves_on_line(segments, e, node, train.route_name, forward) implies (if forward
        == train.dir_forward {
        last_named(segments, outgoing, ahead)
    } else {
        last_named(segments, outgoing, behind)
    }) is Some by {
        assert(outgoing.contains(e));
        let at = choose|at: int| 0 <= at < outgoing.len() && outgoing[at] == e;
        assert(is_named(segments, outgoing[at], segment_name(train.route_name, forward)));
    }
}

/// Where a step takes a train from a station onto a segment, the next step
/// in the same network takes it to the station at which that segment ends,
/// with its direction of travel unchanged.
pub proof fn lemma_arrival_follows_departure(train: TrainView, graph: Graph)
    requires
        train.location is NodeTypeIndex,
        advanced(train, graph) is Ok,
    ensures
        advanced(train, graph)->Ok_0.location matches Location::EdgeTypeIndex(e) && {
            &&& graph.segments().dom().contains(e)
            &&& advanced(advanced(train, graph)->Ok_0, graph) == Ok::<TrainView, TrainError>(
                TrainView {
                    location: Location::NodeTypeIndex(graph.segments()[e].to),
                    ..advanced(train, graph)->Ok_0
                },
            )
        },
{
    let node = train.location->NodeTypeIndex_0;
    lemma_departure(train, graph.segments(), outgoing_order(graph.graph, node));
}

/// The segment that [`last_named`] finds is one of `outgoing`, belongs to
/// `segments` and is named `wanted`.
pub proof fn lemma_last_named_is_listed(
    segments: Map<EdgeIndex<u32>, Segment>,
    outgoing: Seq<EdgeIndex<u32>>,
    wanted: Seq<char>,
)
    ensures
        last_named(segments, outgoing, wanted) matches Some(e) ==> outgoing.contains(e)
            && is_named(segments, e, wanted),
        last_named(segments, outgoing, wanted) is None ==> forall|i: int|
            0 <= i < outgoing.len() ==> !is_named(segments, #[trigger] outgoing[i], wanted),
    decreases outgoing.len(),
{
    if outgoing.len() > 0 {
        lemma_last_named_is_listed(segments, outgoing.drop_last(), wanted);
        if !is_named(segments, outgoing.last(), wanted) {
            if last_named(segments, outgoing, wanted) is Some {
                let e = last_named(segments, outgoing, wanted)->0;
                let at = choose|at: int|
                    0 <= at < outgoing.drop_last().len() && outgoing.drop_last()[at] == e;
                assert(outgoing[at] == e);
            }
            assert forall|i: int| 0 <= i < outgoing.len() && last_named(
                segments,
                outgoing,
                wanted,
            ) is None implies !is_named(segments, #[trigger] outgoing[i], wanted) by {
                if i < outgoing.len() - 1 {
                    assert(outgoing.drop_last()[i] == outgoing[i]);
                }
            }
        } else {
            assert(outgoing[outgoing.len() - 1] == outgoing.last());
        }
    }
}

/// The owner of a fleet of trains and of the counter from which the trains
/// take their ids.
#[derive(Debug)]
pub struct TrainRegister {
    pub name: String,
    pub next_train_id: u32,
    pub train_list: Vec<Train>,
}

impl TrainRegister {
    /// The name of the register.
    pub open spec fn name_view(&self) -> Seq<char> {
        self.name@
    }

    /// The id that the next train will get.
    pub open spec fn next_id(&self) -> u32 {
        self.next_train_id
    }

    /// The trains of the register, in the order in which they were added.
    pub open spec fn trains(&self) -> Seq<TrainView> {
        self.train_list@.map_values(|train: Train| train@)
    }

    /// Every train has an id below that of the next train, and no two trains
    /// have the same id.
    pub open spec fn wf(&self) -> bool {
        &&& forall|i: int|
            0 <= i < self.trains().len() ==> (#[trigger] self.trains()[i]).id < self.next_id()
        &&& forall|i: int, j: int|
            0 <= i < j < self.trains().len() ==> (#[trigger] self.trains()[i]).id != (
            #[trigger] self.trains()[j]).id
    }

    /// An empty register, whose first train will get the id 0.
    pub fn new(register_name: String) -> (r: TrainRegister)
        ensures
            r.wf(),
            r.name_view() == register_name@,
            r.next_id() == 0,
            r.trains() == Seq::<TrainView>::empty(),
            r.train_list@.len() == 0,
    {
        let r = TrainRegister { name: register_name, next_train_id: 0, train_list: Vec::new() };
        assert(r.trains() =~= Seq::<TrainView>::empty());
        r
    }

    /// The name of the register.
    pub fn name(&self) -> (r: &String)
        ensures
            r@ == self.name_view(),
    {
        &self.name
    }

    /// The id that the next train will get.
    pub fn next_train_id(&self) -> (r: u32)
        ensures
            r == self.next_id(),
    {
        self.next_train_id
    }

    /// Adds a train to the register and returns its id, which is the id that
    /// the register held for the next train; that id then advances by one.
    pub fn add_train(
        &mut self,
        train_type: TrainType,
        location: Location,
        route_name: String,
        dir_forward: bool,
        model: String,
    ) -> (r: u32)
        requires
            old(self).next_id() < u32::MAX,
        ensures
            r == old(self).next_id(),
            final(self).next_id() == r + 1,
            final(self).name_view() == old(self).name_view(),
            final(self).trains() == old(self).trains().push(
                TrainView {
                    id: r,
                    train_type,
                    location,
                    route_name: route_name@,
                    dir_forward,
                    model: model@,
                },
            ),
            final(self).train_list@.len() == old(self).train_list@.len() + 1,
            final(self).train_list@.last()@ == (TrainView {
                id: r,
                train_type,
                location,
                route_name: route_name@,
                dir_forward,
                model: model@,
            }),
            forall|i: int|
                0 <= i < old(self).train_list@.len() ==> (#[trigger] final(self).train_list@[i])
                    == old(self).train_list@[i],
            old(self).wf() ==> final(self).wf(),
    {
        let new_train = Train::new(
            &mut self.next_train_id,
            train_type,
            location,
            route_name,
            dir_forward,
            model,
        );
        let ghost added = new_train@;
        self.train_list.push(new_train);
        assert(self.trains() =~= old(self).trains().push(added));
        self.next_train_id - 1
    }
}

} // verus!
