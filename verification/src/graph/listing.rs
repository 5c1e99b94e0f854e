//! What follows from the way in which the graph lists the segments at a
//! station: each segment that arrives once among the arriving ones, and each
//! that leaves once among the leaving ones.

use crate::graph::grouping::{
    distinct, groups_of, lemma_distinct_contains, lemma_distinct_no_duplicates,
    lemma_member_is_named, lemma_no_members, members, names_of, under, Group,
};
use crate::graph::removal::{
    fresh_handles, is_pair, lemma_with_rejoins_keeps, name_all, rejoin_of, touches, with_rejoins,
    Rejoin,
};
use crate::graph::{Graph, GraphError};
use crate::route::{RouteView, BACKWARD, FORWARD};
use crate::stable_graph::{
    incoming_order, lists_edges_into, lists_edges_out_of, outgoing_order, touching_set, Segment,
};
use petgraph::stable_graph::{EdgeIndex, NodeIndex};
use vstd::prelude::*;

verus! {

impl Graph {
    /// The graph lists at `node`, among the arriving segments, exactly those
    /// that end at `node`, and among the leaving segments exactly those that
    /// start at `node`, each of them once.
    pub open spec fn lists_at(&self, node: NodeIndex<u32>) -> bool {
        &&& lists_edges_into(incoming_order(self.graph, node), self.segments(), node)
        &&& lists_edges_out_of(outgoing_order(self.graph, node), self.segments(), node)
        &&& incoming_order(self.graph, node).no_duplicates()
        &&& outgoing_order(self.graph, node).no_duplicates()
    }
}

/// The name of the route on each segment of `segments`.
pub open spec fn name_in(segments: Map<EdgeIndex<u32>, Segment>) -> spec_fn(EdgeIndex<u32>) -> Seq<
    char,
> {
    |e: EdgeIndex<u32>| segments[e].route.name
}

/// The segments listed at `node` are the segments that touch `node`.
pub proof fn lemma_touching_is_listed(graph: Graph, node: NodeIndex<u32>)
    requires
        graph.lists_at(node),
    ensures
        forall|i: int|
            0 <= i < graph.touching(node).len() ==> touches(
                graph.segments(),
                #[trigger] graph.touching(node)[i],
                node,
            ),
        forall|e: EdgeIndex<u32>|
            touches(graph.segments(), e, node) ==> #[trigger] graph.touching(node).contains(e),
        graph.touching(node).to_set() == touching_set(graph.segments(), node),
{
    let arriving = incoming_order(graph.graph, node);
    let leaving = outgoing_order(graph.graph, node);
    let listed = graph.touching(node);
    assert forall|i: int| 0 <= i < listed.len() implies touches(
        graph.segments(),
        #[trigger] listed[i],
        node,
    ) by {
        if i < arriving.len() {
            assert(arriving.contains(arriving[i]));
        } else {
            assert(leaving.contains(leaving[i - arriving.len()]));
        }
    }
    assert forall|e: EdgeIndex<u32>| touches(graph.segments(), e, node) implies #[trigger] listed.contains(
        e,
    ) by {
        if graph.segments()[e].to == node {
            assert(arriving.contains(e));
            let i = choose|i: int| 0 <= i < arriving.len() && arriving[i] == e;
            assert(listed[i] == e);
        } else {
            assert(leaving.contains(e));
            let i = choose|i: int| 0 <= i < leaving.len() && leaving[i] == e;
            assert(listed[arriving.len() + i] == e);
        }
    }
    assert(listed.to_set() =~= touching_set(graph.segments(), node));
}

/// No more lines run through a station than segments touch it.
pub proof fn lemma_through_lines_bound(graph: Graph, node: NodeIndex<u32>)
    requires
        graph.wf(),
        graph.lists_at(node),
    ensures
        touching_set(graph.segments(), node).finite(),
        touching_set(graph.segments(), node).len() <= graph.segments().len(),
        graph.through_lines(node).len() <= touching_set(graph.segments(), node).len(),
{
    let segments = graph.segments();
    let touching = touching_set(segments, node);
    vstd::set_lib::lemma_len_subset(touching, segments.dom());
    let named = graph.named_touching(node);
    let names = names_of(named);
    let once = distinct(names);
    let groups = groups_of(named);
    groups.lemma_filter_len(is_pair());
    assert(graph.through_lines(node).len() == groups.filter(is_pair()).len());
    assert(groups.len() == once.len());
    lemma_distinct_no_duplicates(names);
    once.unique_seq_to_set();
    let carried = touching.map(name_in(segments));
    vstd::set_lib::lemma_map_size_bound(touching, carried, name_in(segments));
    lemma_touching_is_listed(graph, node);
    assert forall|name: Seq<char>| once.to_set().contains(name) implies carried.contains(name) by {
        lemma_distinct_contains(names, name);
        let i = choose|i: int| 0 <= i < names.len() && names[i] == name;
        let e = graph.touching(node)[i];
        assert(named[i] == (segments[e].route.name, e));
        assert(touching.contains(e));
        assert(name_in(segments)(e) == name);
    }
    vstd::set_lib::lemma_len_subset(once.to_set(), carried);
}

/// A filter keeps a sequence free of duplicates.
pub proof fn lemma_filter_no_duplicates<A>(s: Seq<A>, pred: spec_fn(A) -> bool)
    requires
        s.no_duplicates(),
    ensures
        s.filter(pred).no_duplicates(),
    decreases s.len(),
{
    reveal(Seq::filter);
    if s.len() > 0 {
        let before = s.drop_last();
        lemma_filter_no_duplicates(before, pred);
        let kept = before.filter(pred);
        if pred(s.last()) {
            if kept.contains(s.last()) {
                before.lemma_filter_contains_rev(pred, s.last());
                let i = choose|i: int| 0 <= i < before.len() && before[i] == s.last();
                assert(s[i] == s[s.len() - 1]);
            }
            assert forall|i: int, j: int| 0 <= i < j < kept.push(s.last()).len() implies kept.push(
                s.last(),
            )[i] != kept.push(s.last())[j] by {
                if j == kept.len() {
                    assert(kept.contains(kept[i]));
                }
            }
        }
    }
}

/// Where exactly one item of a sequence without duplicates passes a test,
/// the filter for that test leaves that item alone.
pub proof fn lemma_filter_only<A>(s: Seq<A>, pred: spec_fn(A) -> bool, x: A)
    requires
        s.no_duplicates(),
        s.contains(x),
        pred(x),
        forall|i: int| 0 <= i < s.len() && pred(#[trigger] s[i]) ==> s[i] == x,
    ensures
        s.filter(pred) == seq![x],
{
    lemma_filter_no_duplicates(s, pred);
    let kept = s.filter(pred);
    let at = choose|i: int| 0 <= i < s.len() && s[i] == x;
    s.lemma_filter_contains(pred, at);
    assert forall|j: int| 0 <= j < kept.len() implies kept[j] == x by {
        s.lemma_filter_pred(pred, j);
        assert(kept.contains(kept[j]));
        s.lemma_filter_contains_rev(pred, kept[j]);
        let i = choose|i: int| 0 <= i < s.len() && s[i] == kept[j];
    }
    if kept.len() >= 2 {
        assert(kept[0] == kept[1]);
    }
    let j = choose|j: int| 0 <= j < kept.len() && kept[j] == x;
    assert(kept =~= seq![x]);
}

/// Handles without duplicates stay without duplicates under their names.
pub proof fn lemma_named_no_duplicates(
    segments: Map<EdgeIndex<u32>, Segment>,
    edges: Seq<EdgeIndex<u32>>,
)
    requires
        edges.no_duplicates(),
    ensures
        name_all(segments, edges).no_duplicates(),
{
    let named = name_all(segments, edges);
    assert forall|i: int, j: int| 0 <= i < j < named.len() implies named[i] != named[j] by {
        assert(named[i].1 == edges[i]);
        assert(named[j].1 == edges[j]);
    }
}

/// Whether `e` is the one segment of `segments` named `name` that arrives at
/// `node`.
pub open spec fn arrives_alone(
    segments: Map<EdgeIndex<u32>, Segment>,
    node: NodeIndex<u32>,
    name: Seq<char>,
    e: EdgeIndex<u32>,
) -> bool {
    forall|other: EdgeIndex<u32>|
        #[trigger] segments.dom().contains(other) && segments[other].to == node
            && segments[other].route.name == name <==> other == e
}

/// Whether `e` is the one segment of `segments` named `name` that leaves
/// `node`.
pub open spec fn leaves_alone(
    segments: Map<EdgeIndex<u32>, Segment>,
    node: NodeIndex<u32>,
    name: Seq<char>,
    e: EdgeIndex<u32>,
) -> bool {
    forall|other: EdgeIndex<u32>|
        #[trigger] segments.dom().contains(other) && segments[other].from == node
            && segments[other].route.name == name <==> other == e
}

/// Where `e` is the one segment that arrives at `node`, the graph lists it
/// alone among the arriving segments.
pub proof fn lemma_one_arrival(graph: Graph, node: NodeIndex<u32>, e: EdgeIndex<u32>)
    requires
        graph.lists_at(node),
        forall|other: EdgeIndex<u32>|
            #[trigger] graph.segments().dom().contains(other) && graph.segments()[other].to
                == node <==> other == e,
    ensures
        incoming_order(graph.graph, node) == seq![e],
{
    let into = incoming_order(graph.graph, node);
    assert(graph.segments().dom().contains(e));
    assert(into.contains(e));
    assert forall|i: int| 0 <= i < into.len() implies into[i] == e by {
        assert(into.contains(into[i]));
    }
    if into.len() >= 2 {
        assert(into[0] == into[1]);
    }
    assert(into =~= seq![e]);
}

/// Where `e` is the one segment that leaves `node`, the graph lists it alone
/// among the leaving segments.
pub proof fn lemma_one_departure(graph: Graph, node: NodeIndex<u32>, e: EdgeIndex<u32>)
    requires
        graph.lists_at(node),
        forall|other: EdgeIndex<u32>|
            #[trigger] graph.segments().dom().contains(other) && graph.segments()[other].from
                == node <==> other == e,
    ensures
        outgoing_order(graph.graph, node) == seq![e],
{
    let out = outgoing_order(graph.graph, node);
    assert(graph.segments().dom().contains(e));
    assert(out.contains(e));
    assert forall|i: int| 0 <= i < out.len() implies out[i] == e by {
        assert(out.contains(out[i]));
    }
    if out.len() >= 2 {
        assert(out[0] == out[1]);
    }
    assert(out =~= seq![e]);
}

/// Where one segment named `name` arrives at `node` and one leaves it, the
/// group of `name` among the segments that touch `node` is those two, the
/// arriving one first, and the line `name` runs through `node`: it is one of
/// the lines that the removal of `node` joins again.
pub proof fn lemma_group_of_a_through_line(
    graph: Graph,
    node: NodeIndex<u32>,
    name: Seq<char>,
    arriving: EdgeIndex<u32>,
    leaving: EdgeIndex<u32>,
)
    requires
        graph.lists_at(node),
        arrives_alone(graph.segments(), node, name, arriving),
        leaves_alone(graph.segments(), node, name, leaving),
    ensures
        members(graph.named_touching(node), name) == seq![arriving, leaving],
        exists|g: int|
            0 <= g < groups_of(graph.named_touching(node)).len() && #[trigger] groups_of(
                graph.named_touching(node),
            )[g] == (name, seq![arriving, leaving]),
        exists|k: int|
            0 <= k < graph.through_lines(node).len() && #[trigger] graph.through_lines(node)[k]
                == rejoin_for(graph.segments(), node, name, arriving, leaving),
{
    let segments = graph.segments();
    let into = incoming_order(graph.graph, node);
    let out = outgoing_order(graph.graph, node);
    let named_into = name_all(segments, into);
    let named_out = name_all(segments, out);
    let named = graph.named_touching(node);
    assert(named =~= named_into + named_out);
    Seq::filter_distributes_over_add(named_into, named_out, under(name));
    lemma_named_no_duplicates(segments, into);
    lemma_named_no_duplicates(segments, out);
    assert(segments.dom().contains(arriving) && segments[arriving].to == node);
    assert(segments.dom().contains(leaving) && segments[leaving].from == node);
    assert(into.contains(arriving));
    assert(out.contains(leaving));
    let i = choose|i: int| 0 <= i < into.len() && into[i] == arriving;
    let j = choose|j: int| 0 <= j < out.len() && out[j] == leaving;
    assert(named_into[i] == (name, arriving));
    assert(named_out[j] == (name, leaving));
    assert forall|at: int| 0 <= at < named_into.len() && under(name)(
        #[trigger] named_into[at],
    ) implies named_into[at] == (name, arriving) by {
        assert(into.contains(into[at]));
    }
    assert forall|at: int| 0 <= at < named_out.len() && under(name)(
        #[trigger] named_out[at],
    ) implies named_out[at] == (name, leaving) by {
        assert(out.contains(out[at]));
    }
    lemma_filter_only(named_into, under(name), (name, arriving));
    lemma_filter_only(named_out, under(name), (name, leaving));
    let pair = seq![arriving, leaving];
    assert(members(named, name) =~= pair);
    // the name is one of the names at the station, so it has a group
    let names = names_of(named);
    assert(names[i] == name);
    lemma_distinct_contains(names, name);
    let once = distinct(names);
    let g = choose|g: int| 0 <= g < once.len() && once[g] == name;
    let groups = groups_of(named);
    assert(groups[g] == (name, pair));
    // the group is a pair, so its line is joined again
    groups.lemma_filter_contains(is_pair(), g);
    let kept = groups.filter(is_pair());
    let k = choose|k: int| 0 <= k < kept.len() && kept[k] == groups[g];
    assert(graph.through_lines(node)[k] == rejoin_for(segments, node, name, arriving, leaving));
}

/// How the line `line` is joined again where its two segments at `node` are
/// `first` and `second`, in that order.
pub open spec fn rejoin_for(
    segments: Map<EdgeIndex<u32>, Segment>,
    node: NodeIndex<u32>,
    line: Seq<char>,
    first: EdgeIndex<u32>,
    second: EdgeIndex<u32>,
) -> Rejoin {
    rejoin_of(segments, node, (line, seq![first, second]))
}

/// Each line that the removal of `node` joins again belongs to a group of
/// two segments that touch `node`.
pub proof fn lemma_through_line_has_a_pair(graph: Graph, node: NodeIndex<u32>, k: int)
    requires
        graph.lists_at(node),
        0 <= k < graph.through_lines(node).len(),
    ensures
        exists|first: EdgeIndex<u32>, second: EdgeIndex<u32>|
            {
                &&& touches(graph.segments(), first, node)
                &&& touches(graph.segments(), second, node)
                &&& graph.segments()[first].route.name == graph.through_lines(node)[k].line
                &&& graph.segments()[second].route.name == graph.through_lines(node)[k].line
                &&& #[trigger] rejoin_for(
                    graph.segments(),
                    node,
                    graph.through_lines(node)[k].line,
                    first,
                    second,
                ) == graph.through_lines(node)[k]
            },
{
    let segments = graph.segments();
    let named = graph.named_touching(node);
    let groups = groups_of(named);
    let kept = groups.filter(is_pair());
    groups.lemma_filter_pred(is_pair(), k);
    assert(kept.contains(kept[k]));
    groups.lemma_filter_contains_rev(is_pair(), kept[k]);
    let g = choose|g: int| 0 <= g < groups.len() && groups[g] == kept[k];
    let once = distinct(names_of(named));
    assert(groups[g] == (once[g], members(named, once[g])));
    let group = groups[g];
    lemma_member_is_named(named, group.0, 0);
    lemma_member_is_named(named, group.0, 1);
    let first = group.1[0];
    let second = group.1[1];
    lemma_touching_is_listed(graph, node);
    let a = choose|at: int| 0 <= at < named.len() && (#[trigger] named[at]).1 == first;
    let b = choose|at: int| 0 <= at < named.len() && (#[trigger] named[at]).1 == second;
    assert(graph.touching(node)[a] == first);
    assert(graph.touching(node)[b] == second);
    let kept_names = named.filter(under(group.0));
    named.lemma_filter_pred(under(group.0), 0);
    named.lemma_filter_pred(under(group.0), 1);
    assert(kept_names.contains(kept_names[0]));
    assert(kept_names.contains(kept_names[1]));
    named.lemma_filter_contains_rev(under(group.0), kept_names[0]);
    named.lemma_filter_contains_rev(under(group.0), kept_names[1]);
    let c = choose|at: int| 0 <= at < named.len() && named[at] == kept_names[0];
    let d = choose|at: int| 0 <= at < named.len() && named[at] == kept_names[1];
    assert(named[c] == (segments[graph.touching(node)[c]].route.name, graph.touching(node)[c]));
    assert(named[d] == (segments[graph.touching(node)[d]].route.name, graph.touching(node)[d]));
    assert(group.1 == members(named, group.0));
    assert(kept_names[0].1 == first);
    assert(kept_names[1].1 == second);
    assert(segments[first].route.name == group.0);
    assert(segments[second].route.name == group.0);
    assert(touches(segments, first, node));
    assert(touches(segments, second, node));
    assert(group.1 =~= seq![first, second]);
    assert(graph.through_lines(node)[k] == rejoin_of(segments, node, group));
    assert(graph.through_lines(node)[k].line == group.0);
    assert(rejoin_for(segments, node, group.0, first, second) == graph.through_lines(node)[k]);
}

/// The replacement route for the line at position `k` stands at the handles
/// at position `k`, between the stations of that line, with the ids
/// `first_id + 2 * k` and the next.
pub proof fn lemma_with_rejoins_at(
    segments: Map<EdgeIndex<u32>, Segment>,
    lines: Seq<Rejoin>,
    handles: Seq<(EdgeIndex<u32>, EdgeIndex<u32>)>,
    first_id: int,
    k: int,
)
    requires
        handles.len() == lines.len(),
        fresh_handles(segments, handles),
        0 <= k < lines.len(),
    ensures
        ({
            let after = with_rejoins(segments, lines, handles, first_id);
            &&& after.dom().contains(handles[k].0)
            &&& after.dom().contains(handles[k].1)
            &&& after[handles[k].0] == (Segment {
                from: lines[k].from,
                to: lines[k].to,
                route: RouteView {
                    id: (first_id + 2 * k) as u32,
                    name: lines[k].line.push(FORWARD),
                },
            })
            &&& after[handles[k].1] == (Segment {
                from: lines[k].to,
                to: lines[k].from,
                route: RouteView {
                    id: ((first_id + 2 * k) as u32 + 1) as u32,
                    name: lines[k].line.push(BACKWARD),
                },
            })
        }),
    decreases lines.len(),
{
    let last = lines.len() - 1;
    assert(handles.last() == handles[last]);
    if k < last {
        assert(handles.drop_last()[k] == handles[k]);
        assert(lines.drop_last()[k] == lines[k]);
        lemma_with_rejoins_at(segments, lines.drop_last(), handles.drop_last(), first_id, k);
    }
}

/// Whether `segment` is one of the two segments of the replacement route for
/// `line` whose forward segment has the id `id`.
pub open spec fn replaces(segment: Segment, line: Rejoin, id: int) -> bool {
    ||| {
        &&& segment.from == line.from
        &&& segment.to == line.to
        &&& segment.route.id == id
        &&& segment.route.name == line.line.push(FORWARD)
    }
    ||| {
        &&& segment.from == line.to
        &&& segment.to == line.from
        &&& segment.route.id == id + 1
        &&& segment.route.name == line.line.push(BACKWARD)
    }
}

/// Every segment that the removal of a station leaves in the network and
/// that was not there before belongs to the replacement route of one of the
/// lines that ran through the station.
pub proof fn lemma_new_segments_are_replacements(
    before: Graph,
    node: NodeIndex<u32>,
    first_id: u32,
    r: Result<(), GraphError>,
    after: Graph,
    counter: u32,
)
    requires
        before.has_room_to_remove(node, first_id),
        before.is_removal(node, first_id, r, after, counter),
    ensures
        forall|e: EdgeIndex<u32>|
            #[trigger] after.segments().dom().contains(e) && !before.segments().dom().contains(e)
                ==> exists|k: int|
                0 <= k < before.through_lines(node).len() && #[trigger] replaces(
                    after.segments()[e],
                    before.through_lines(node)[k],
                    first_id + 2 * k,
                ),
{
    if before.stations().dom().contains(node) {
        let segments = before.segments();
        let lines = before.through_lines(node);
        let handles = choose|handles: Seq<(EdgeIndex<u32>, EdgeIndex<u32>)>|
            {
                &&& handles.len() == before.through_lines(node).len()
                &&& fresh_handles(before.segments(), handles)
                &&& after.segments() == #[trigger] before.segments_without(node, first_id, handles)
            };
        let stitched = with_rejoins(segments, lines, handles, first_id as int);
        lemma_with_rejoins_keeps(segments, lines, handles, first_id as int);
        assert forall|e: EdgeIndex<u32>|
            #[trigger] after.segments().dom().contains(e) && !segments.dom().contains(
                e,
            ) implies exists|k: int|
            0 <= k < lines.len() && #[trigger] replaces(
                after.segments()[e],
                lines[k],
                first_id + 2 * k,
            ) by {
            assert(stitched.dom().contains(e));
            let k = choose|k: int|
                0 <= k < handles.len() && ((#[trigger] handles[k]).0 == e || handles[k].1 == e);
            lemma_with_rejoins_at(segments, lines, handles, first_id as int, k);
            assert(replaces(after.segments()[e], lines[k], first_id + 2 * k));
        }
    }
}

/// Whether `other` is a station next to `node`: another station with a
/// segment of `segments` to or from `node`.
pub open spec fn is_neighbour(
    segments: Map<EdgeIndex<u32>, Segment>,
    node: NodeIndex<u32>,
    other: NodeIndex<u32>,
) -> bool {
    other != node && exists|e: EdgeIndex<u32>|
        #[trigger] segments.dom().contains(e) && ((segments[e].from == other && segments[e].to
            == node) || (segments[e].from == node && segments[e].to == other))
}

/// Every segment that the removal of a station leaves in the network and
/// that was not there before joins two stations that were next to the
/// removed one.
pub proof fn lemma_new_segments_join_neighbours(
    before: Graph,
    node: NodeIndex<u32>,
    first_id: u32,
    r: Result<(), GraphError>,
    after: Graph,
    counter: u32,
)
    requires
        before.lists_at(node),
        before.is_removal(node, first_id, r, after, counter),
    ensures
        forall|e: EdgeIndex<u32>|
            #[trigger] after.segments().dom().contains(e) && !before.segments().dom().contains(e)
                ==> {
                &&& is_neighbour(before.segments(), node, after.segments()[e].from)
                &&& is_neighbour(before.segments(), node, after.segments()[e].to)
            },
{
    if before.stations().dom().contains(node) {
        let segments = before.segments();
        let lines = before.through_lines(node);
        let handles = choose|handles: Seq<(EdgeIndex<u32>, EdgeIndex<u32>)>|
            {
                &&& handles.len() == before.through_lines(node).len()
                &&& fresh_handles(before.segments(), handles)
                &&& after.segments() == #[trigger] before.segments_without(node, first_id, handles)
            };
        let stitched = with_rejoins(segments, lines, handles, first_id as int);
        lemma_with_rejoins_keeps(segments, lines, handles, first_id as int);
        assert forall|e: EdgeIndex<u32>|
            #[trigger] after.segments().dom().contains(e) && !segments.dom().contains(
                e,
            ) implies is_neighbour(segments, node, after.segments()[e].from) && is_neighbour(
            segments,
            node,
            after.segments()[e].to,
        ) by {
            assert(stitched.dom().contains(e));
            assert(!touching_set(stitched, node).contains(e));
            let k = choose|k: int|
                0 <= k < handles.len() && ((#[trigger] handles[k]).0 == e || handles[k].1 == e);
            lemma_with_rejoins_at(segments, lines, handles, first_id as int, k);
            lemma_through_line_has_a_pair(before, node, k);
            let (first, second) = choose|first: EdgeIndex<u32>, second: EdgeIndex<u32>|
                {
                    &&& touches(segments, first, node)
                    &&& touches(segments, second, node)
                    &&& segments[first].route.name == lines[k].line
                    &&& segments[second].route.name == lines[k].line
                    &&& #[trigger] rejoin_for(segments, node, lines[k].line, first, second)
                        == lines[k]
                };
            assert(seq![first, second][0] == first);
            assert(seq![first, second][1] == second);
            assert(stitched[e].from != node && stitched[e].to != node);
            assert(segments.dom().contains(first));
            assert(segments.dom().contains(second));
        }
    }
}

/// Whether `forward` and `backward` are, in `after`, the two segments of a
/// route of line `line` from `from` to `to` with the ids `id` and `id + 1`,
/// at handles that `before` did not use.
pub open spec fn is_bridge(
    before: Map<EdgeIndex<u32>, Segment>,
    after: Map<EdgeIndex<u32>, Segment>,
    from: NodeIndex<u32>,
    to: NodeIndex<u32>,
    line: Seq<char>,
    id: int,
    forward: EdgeIndex<u32>,
    backward: EdgeIndex<u32>,
) -> bool {
    &&& forward != backward
    &&& !before.dom().contains(forward)
    &&& !before.dom().contains(backward)
    &&& after.dom().contains(forward)
    &&& after.dom().contains(backward)
    &&& after[forward].from == from
    &&& after[forward].to == to
    &&& after[forward].route.id == id
    &&& after[forward].route.name == line.push(FORWARD)
    &&& after[backward].from == to
    &&& after[backward].to == from
    &&& after[backward].route.id == id + 1
    &&& after[backward].route.name == line.push(BACKWARD)
}

/// Where one segment named `line` arrives at a station from another station
/// and one segment named `line` leaves it for another station, the removal
/// of the station succeeds and puts a route in both directions in their
/// place: a forward segment from the station before to the station after,
/// and a backward segment back, named `line` with the marker of their
/// direction, with two consecutive ids from the counter. The station and the
/// two segments are gone.
pub proof fn lemma_through_line_is_bridged(
    before: Graph,
    node: NodeIndex<u32>,
    first_id: u32,
    r: Result<(), GraphError>,
    after: Graph,
    counter: u32,
    line: Seq<char>,
    arriving: EdgeIndex<u32>,
    leaving: EdgeIndex<u32>,
)
    requires
        before.lists_at(node),
        before.stations().dom().contains(node),
        before.has_room_to_remove(node, first_id),
        before.is_removal(node, first_id, r, after, counter),
        arrives_alone(before.segments(), node, line, arriving),
        leaves_alone(before.segments(), node, line, leaving),
        before.segments()[arriving].from != node,
        before.segments()[leaving].to != node,
    ensures
        r is Ok,
        !after.stations().dom().contains(node),
        !after.segments().dom().contains(arriving),
        !after.segments().dom().contains(leaving),
        exists|forward: EdgeIndex<u32>, backward: EdgeIndex<u32>, k: int|
            {
                &&& 0 <= k < before.through_lines(node).len()
                &&& first_id + 2 * k + 1 < counter
                &&& #[trigger] is_bridge(
                    before.segments(),
                    after.segments(),
                    before.segments()[arriving].from,
                    before.segments()[leaving].to,
                    line,
                    first_id + 2 * k,
                    forward,
                    backward,
                )
            },
{
    let segments = before.segments();
    let lines = before.through_lines(node);
    assert(segments.dom().contains(arriving) && segments[arriving].to == node);
    assert(segments.dom().contains(leaving) && segments[leaving].from == node);
    lemma_group_of_a_through_line(before, node, line, arriving, leaving);
    let k = choose|k: int|
        0 <= k < lines.len() && #[trigger] lines[k] == rejoin_for(
            segments,
            node,
            line,
            arriving,
            leaving,
        );
    assert(seq![arriving, leaving][0] == arriving);
    assert(seq![arriving, leaving][1] == leaving);
    let handles = choose|handles: Seq<(EdgeIndex<u32>, EdgeIndex<u32>)>|
        {
            &&& handles.len() == before.through_lines(node).len()
            &&& fresh_handles(before.segments(), handles)
            &&& after.segments() == #[trigger] before.segments_without(node, first_id, handles)
        };
    let stitched = with_rejoins(segments, lines, handles, first_id as int);
    lemma_with_rejoins_keeps(segments, lines, handles, first_id as int);
    lemma_with_rejoins_at(segments, lines, handles, first_id as int, k);
    assert(stitched.dom().contains(arriving) && stitched[arriving] == segments[arriving]);
    assert(stitched.dom().contains(leaving) && stitched[leaving] == segments[leaving]);
    assert(touching_set(stitched, node).contains(arriving));
    assert(touching_set(stitched, node).contains(leaving));
    assert(!touching_set(stitched, node).contains(handles[k].0));
    assert(!touching_set(stitched, node).contains(handles[k].1));
    assert(is_bridge(
        segments,
        after.segments(),
        segments[arriving].from,
        segments[leaving].to,
        line,
        first_id + 2 * k,
        handles[k].0,
        handles[k].1,
    ));
}

/// The segments of `segments` that touch `node` and are named `name`.
pub open spec fn carriers(
    segments: Map<EdgeIndex<u32>, Segment>,
    node: NodeIndex<u32>,
    name: Seq<char>,
) -> Set<EdgeIndex<u32>> {
    Set::new(|e: EdgeIndex<u32>| touches(segments, e, node) && segments[e].route.name == name)
}

/// The names that exactly two of the segments that touch `node` carry.
pub open spec fn pair_names(segments: Map<EdgeIndex<u32>, Segment>, node: NodeIndex<u32>) -> Set<
    Seq<char>,
> {
    Set::new(|name: Seq<char>| carriers(segments, node, name).len() == 2)
}

/// Whether a segment of `segments` starts and ends at `node`.
pub open spec fn has_loop(segments: Map<EdgeIndex<u32>, Segment>, node: NodeIndex<u32>) -> bool {
    exists|e: EdgeIndex<u32>|
        #[trigger] segments.dom().contains(e) && segments[e].from == node && segments[e].to == node
}

/// At a station without a segment to itself, the graph lists each segment
/// that touches the station once, and the group of a name holds as many
/// segments as carry that name at the station.
pub proof fn lemma_members_count(graph: Graph, node: NodeIndex<u32>, name: Seq<char>)
    requires
        graph.lists_at(node),
        !has_loop(graph.segments(), node),
    ensures
        graph.touching(node).no_duplicates(),
        members(graph.named_touching(node), name).no_duplicates(),
        members(graph.named_touching(node), name).to_set() == carriers(
            graph.segments(),
            node,
            name,
        ),
        members(graph.named_touching(node), name).len() == carriers(
            graph.segments(),
            node,
            name,
        ).len(),
{
    let segments = graph.segments();
    let into = incoming_order(graph.graph, node);
    let out = outgoing_order(graph.graph, node);
    let listed = graph.touching(node);
    assert forall|i: int, j: int| 0 <= i < into.len() && 0 <= j < out.len() implies into[i]
        != out[j] by {
        assert(into.contains(into[i]));
        assert(out.contains(out[j]));
        if into[i] == out[j] {
            assert(segments.dom().contains(into[i]));
        }
    }
    vstd::seq_lib::lemma_no_dup_in_concat(into, out);
    let named = graph.named_touching(node);
    lemma_named_no_duplicates(segments, listed);
    lemma_filter_no_duplicates(named, under(name));
    lemma_touching_is_listed(graph, node);
    let kept = named.filter(under(name));
    let held = members(named, name);
    assert forall|i: int| 0 <= i < kept.len() implies (#[trigger] kept[i]).0 == name
        && touches(segments, kept[i].1, node) && segments[kept[i].1].route.name == name by {
        named.lemma_filter_pred(under(name), i);
        assert(kept.contains(kept[i]));
        named.lemma_filter_contains_rev(under(name), kept[i]);
        let at = choose|at: int| 0 <= at < named.len() && named[at] == kept[i];
        assert(named[at] == (segments[listed[at]].route.name, listed[at]));
    }
    assert forall|i: int, j: int| 0 <= i < j < held.len() implies held[i] != held[j] by {
        assert(kept[i].0 == kept[j].0);
        assert(kept[i] != kept[j]);
    }
    assert forall|e: EdgeIndex<u32>| carriers(segments, node, name).contains(e) implies held.contains(
        e,
    ) by {
        assert(listed.contains(e));
        let at = choose|at: int| 0 <= at < listed.len() && listed[at] == e;
        assert(named[at] == (name, e));
        named.lemma_filter_contains(under(name), at);
        let i = choose|i: int| 0 <= i < kept.len() && kept[i] == named[at];
        assert(held[i] == e);
    }
    assert forall|e: EdgeIndex<u32>| held.contains(e) implies carriers(segments, node, name).contains(
        e,
    ) by {
        let i = choose|i: int| 0 <= i < held.len() && held[i] == e;
        assert(kept[i].1 == e);
    }
    assert(held.to_set() =~= carriers(segments, node, name));
    held.unique_seq_to_set();
}

/// At a station without a segment to itself, as many lines run through the
/// station as there are names that exactly two of its segments carry, so the
/// removal of the station takes two ids from the counter for each such name.
pub proof fn lemma_through_lines_count(graph: Graph, node: NodeIndex<u32>)
    requires
        graph.lists_at(node),
        !has_loop(graph.segments(), node),
    ensures
        pair_names(graph.segments(), node).finite(),
        graph.through_lines(node).len() == pair_names(graph.segments(), node).len(),
{
    let segments = graph.segments();
    let named = graph.named_touching(node);
    let names = names_of(named);
    let once = distinct(names);
    let groups = groups_of(named);
    let pairs = groups.filter(is_pair());
    let lines = pairs.map_values(|g: Group| g.0);
    lemma_distinct_no_duplicates(names);
    assert forall|i: int, j: int| 0 <= i < j < groups.len() implies groups[i] != groups[j] by {
        assert(groups[i].0 == once[i]);
        assert(groups[j].0 == once[j]);
    }
    lemma_filter_no_duplicates(groups, is_pair());
    assert forall|i: int| 0 <= i < pairs.len() implies (#[trigger] pairs[i]).1.len() == 2
        && pairs[i].1 == members(named, pairs[i].0) && once.contains(pairs[i].0) by {
        groups.lemma_filter_pred(is_pair(), i);
        assert(pairs.contains(pairs[i]));
        groups.lemma_filter_contains_rev(is_pair(), pairs[i]);
        let g = choose|g: int| 0 <= g < groups.len() && groups[g] == pairs[i];
        assert(groups[g] == (once[g], members(named, once[g])));
    }
    assert forall|i: int, j: int| 0 <= i < j < lines.len() implies lines[i] != lines[j] by {
        assert(pairs[i].1 == members(named, pairs[i].0));
        assert(pairs[j].1 == members(named, pairs[j].0));
        assert(pairs[i] != pairs[j]);
    }
    assert forall|name: Seq<char>| lines.contains(name) implies pair_names(segments, node).contains(
        name,
    ) by {
        let i = choose|i: int| 0 <= i < lines.len() && lines[i] == name;
        assert(pairs[i].0 == name);
        lemma_members_count(graph, node, name);
    }
    assert forall|name: Seq<char>| pair_names(segments, node).contains(name) implies lines.contains(
        name,
    ) by {
        lemma_members_count(graph, node, name);
        if !once.contains(name) {
            lemma_no_members(named, name);
        }
        let g = choose|g: int| 0 <= g < once.len() && once[g] == name;
        assert(groups[g] == (name, members(named, name)));
        groups.lemma_filter_contains(is_pair(), g);
        let i = choose|i: int| 0 <= i < pairs.len() && pairs[i] == groups[g];
        assert(lines[i] == name);
    }
    assert(lines.to_set() =~= pair_names(segments, node));
    vstd::seq_lib::seq_to_set_is_finite(lines);
    lines.unique_seq_to_set();
    assert(graph.through_lines(node).len() == pairs.len());
}

} // verus!
