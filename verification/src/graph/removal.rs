//! The removal of a station, and the joining of the lines that ran through
//! it.

use crate::graph::grouping::{
    distinct, group_by_name, groups_of, groups_view, lemma_member_is_named, members, named_view,
    names_of, Group, Named,
};
use crate::graph::listing::lemma_through_lines_bound;
use crate::graph::{with_route, Graph, GraphError};
use crate::stable_graph::{
    clear_of, edge_endpoints, edge_weight, incoming_edges, incoming_order, lists_the_same,
    outgoing_edges, outgoing_order, put_first, remove_node, same_node, touching_set, Segment,
};
use petgraph::stable_graph::{EdgeIndex, NodeIndex};
use vstd::prelude::*;

verus! {

/// Whether `e` is a segment of `segments` that starts or ends at `node`.
pub open spec fn touches(
    segments: Map<EdgeIndex<u32>, Segment>,
    e: EdgeIndex<u32>,
    node: NodeIndex<u32>,
) -> bool {
    segments.dom().contains(e) && (segments[e].from == node || segments[e].to == node)
}

/// The handles `edges`, each under the name of its route in `segments`.
pub open spec fn name_all(segments: Map<EdgeIndex<u32>, Segment>, edges: Seq<EdgeIndex<u32>>) -> Seq<
    Named,
> {
    edges.map_values(|e: EdgeIndex<u32>| (segments[e].route.name, e))
}

/// A line that is to be joined again: the name under which its segments are
/// stored, and the stations from and to which its replacement runs forward.
pub struct Rejoin {
    pub line: Seq<char>,
    pub from: NodeIndex<u32>,
    pub to: NodeIndex<u32>,
}

/// The test for a group of exactly two segments.
pub open spec fn is_pair() -> spec_fn(Group) -> bool {
    |g: Group| g.1.len() == 2
}

/// How the line of a group of two segments is joined again when `node` goes:
/// where the first segment starts at `node`, from the start of the second to
/// the end of the first; else from the start of the first to the end of the
/// second.
pub open spec fn rejoin_of(
    segments: Map<EdgeIndex<u32>, Segment>,
    node: NodeIndex<u32>,
    group: Group,
) -> Rejoin {
    let first = segments[group.1[0]];
    let second = segments[group.1[1]];
    if first.from == node {
        Rejoin { line: group.0, from: second.from, to: first.to }
    } else {
        Rejoin { line: group.0, from: first.from, to: second.to }
    }
}

/// [`rejoin_of`] for given segments and a given station.
pub open spec fn rejoiner(segments: Map<EdgeIndex<u32>, Segment>, node: NodeIndex<u32>) -> spec_fn(
    Group,
) -> Rejoin {
    |g: Group| rejoin_of(segments, node, g)
}

/// The lines among `groups` that are joined again when `node` goes: those of
/// the groups of exactly two segments, in the order of the groups.
pub open spec fn rejoins(
    segments: Map<EdgeIndex<u32>, Segment>,
    node: NodeIndex<u32>,
    groups: Seq<Group>,
) -> Seq<Rejoin> {
    groups.filter(is_pair()).map_values(rejoiner(segments, node))
}

/// The segments `segments` together with the replacement routes for `lines`:
/// for the line at position `k`, a route in both directions whose forward
/// segment stands at `handles[k].0` with id `first_id + 2 * k`, and whose
/// backward segment stands at `handles[k].1` with the next id.
pub open spec fn with_rejoins(
    segments: Map<EdgeIndex<u32>, Segment>,
    lines: Seq<Rejoin>,
    handles: Seq<(EdgeIndex<u32>, EdgeIndex<u32>)>,
    first_id: int,
) -> Map<EdgeIndex<u32>, Segment>
    decreases lines.len(),
{
    if lines.len() == 0 {
        segments
    } else {
        let k = lines.len() - 1;
        with_route(
            with_rejoins(segments, lines.drop_last(), handles.drop_last(), first_id),
            lines[k].from,
            lines[k].to,
            (first_id + 2 * k) as u32,
            lines[k].line,
            handles.last().0,
            Some(handles.last().1),
        )
    }
}

/// The list `listed` of the segments that leave the station `at`, or, where
/// `leaving` is false, of those that arrive at it, after the replacement
/// routes for `lines` have been added at `handles`, one after the other, the
/// forward segment of each before the backward one: each new segment stands
/// in front of the segments that were listed before it.
pub open spec fn listed_with_rejoins(
    listed: Seq<EdgeIndex<u32>>,
    lines: Seq<Rejoin>,
    handles: Seq<(EdgeIndex<u32>, EdgeIndex<u32>)>,
    at: NodeIndex<u32>,
    leaving: bool,
) -> Seq<EdgeIndex<u32>>
    decreases lines.len(),
{
    if lines.len() == 0 {
        listed
    } else {
        let earlier = listed_with_rejoins(
            listed,
            lines.drop_last(),
            handles.drop_last(),
            at,
            leaving,
        );
        let line = lines.last();
        if leaving {
            put_first(put_first(earlier, at, line.from, handles.last().0), at, line.to, handles.last().1)
        } else {
            put_first(put_first(earlier, at, line.to, handles.last().0), at, line.from, handles.last().1)
        }
    }
}

/// Whether the network `after` lists the segments at its stations as the
/// network `before` does, with the segments of the replacement routes for
/// `lines` at `handles` in front, as [`listed_with_rejoins`] puts them.
pub open spec fn lists_with_rejoins(
    before: Graph,
    after: Graph,
    lines: Seq<Rejoin>,
    handles: Seq<(EdgeIndex<u32>, EdgeIndex<u32>)>,
) -> bool {
    &&& forall|at: NodeIndex<u32>| #[trigger]
        after.departures(at) == listed_with_rejoins(before.departures(at), lines, handles, at, true)
    &&& forall|at: NodeIndex<u32>| #[trigger]
        after.arrivals(at) == listed_with_rejoins(before.arrivals(at), lines, handles, at, false)
}

/// The handles in `handles` differ from one another and from every handle
/// of `segments`.
pub open spec fn fresh_handles(
    segments: Map<EdgeIndex<u32>, Segment>,
    handles: Seq<(EdgeIndex<u32>, EdgeIndex<u32>)>,
) -> bool {
    &&& forall|k: int|
        0 <= k < handles.len() ==> {
            &&& !segments.dom().contains((#[trigger] handles[k]).0)
            &&& !segments.dom().contains(handles[k].1)
            &&& handles[k].0 != handles[k].1
        }
    &&& forall|j: int, k: int|
        0 <= j < k < handles.len() ==> {
            &&& (#[trigger] handles[j]).0 != (#[trigger] handles[k]).0
            &&& handles[j].0 != handles[k].1
            &&& handles[j].1 != handles[k].0
            &&& handles[j].1 != handles[k].1
        }
}

impl Graph {
    /// The segments that touch `node`: first those that arrive at it, then
    /// those that leave it, each kind in the order of the graph.
    pub open spec fn touching(&self, node: NodeIndex<u32>) -> Seq<EdgeIndex<u32>> {
        incoming_order(self.graph, node) + outgoing_order(self.graph, node)
    }

    /// The segments that touch `node`, each under the name of its route.
    pub open spec fn named_touching(&self, node: NodeIndex<u32>) -> Seq<Named> {
        name_all(self.segments(), self.touching(node))
    }

    /// The lines that run through `node`, each with the two stations that it
    /// joins once `node` is gone, in the order in which their names first
    /// occur among the segments that touch `node`.
    pub open spec fn through_lines(&self, node: NodeIndex<u32>) -> Seq<Rejoin> {
        rejoins(self.segments(), node, groups_of(self.named_touching(node)))
    }

    /// The segments of the network after the removal of `node`, where the
    /// replacement segments stand at `handles` and take their ids from
    /// `first_id` on.
    pub open spec fn segments_without(
        &self,
        node: NodeIndex<u32>,
        first_id: u32,
        handles: Seq<(EdgeIndex<u32>, EdgeIndex<u32>)>,
    ) -> Map<EdgeIndex<u32>, Segment> {
        let stitched = with_rejoins(
            self.segments(),
            self.through_lines(node),
            handles,
            first_id as int,
        );
        stitched.remove_keys(touching_set(stitched, node))
    }

    /// Whether the network `after` lists the segments at its stations as the
    /// removal of `node` from this network leaves them, where the
    /// replacement segments stand at `handles`: as this network lists them,
    /// with the replacement segments in front, and without those that touch
    /// `node`.
    pub open spec fn lists_without_station(
        &self,
        after: Graph,
        node: NodeIndex<u32>,
        first_id: u32,
        handles: Seq<(EdgeIndex<u32>, EdgeIndex<u32>)>,
    ) -> bool {
        let lines = self.through_lines(node);
        let stitched = with_rejoins(self.segments(), lines, handles, first_id as int);
        &&& forall|at: NodeIndex<u32>| #[trigger]
            after.departures(at) == listed_with_rejoins(
                self.departures(at),
                lines,
                handles,
                at,
                true,
            ).filter(clear_of(stitched, node))
        &&& forall|at: NodeIndex<u32>| #[trigger]
            after.arrivals(at) == listed_with_rejoins(
                self.arrivals(at),
                lines,
                handles,
                at,
                false,
            ).filter(clear_of(stitched, node))
    }

    /// Appends to `named` the segments `edges`, each under the name of its
    /// route.
    fn append_named(&self, edges: &Vec<EdgeIndex<u32>>, named: &mut Vec<(String, EdgeIndex<u32>)>)
        requires
            forall|i: int|
                0 <= i < edges@.len() ==> self.segments().dom().contains(#[trigger] edges@[i]),
        ensures
            named_view(final(named)@) == named_view(old(named)@) + name_all(
                self.segments(),
                edges@,
            ),
    {
        let mut i: usize = 0;
        assert(named_view(named@) =~= named_view(old(named)@) + name_all(
            self.segments(),
            edges@.take(0),
        ));
        while i < edges.len()
            invariant
                i <= edges.len(),
                forall|i: int|
                    0 <= i < edges@.len() ==> self.segments().dom().contains(#[trigger] edges@[i]),
                named_view(named@) == named_view(old(named)@) + name_all(
                    self.segments(),
                    edges@.take(i as int),
                ),
            decreases edges.len() - i,
        {
            let edge = edges[i];
            assert(self.segments().dom().contains(edges@[i as int]));
            match edge_weight(&self.graph, edge) {
                Some(route) => {
                    let ghost before = named_view(named@);
                    named.push((route.name.clone(), edge));
                    assert(named_view(named@) =~= before.push((route.name@, edge)));
                    assert(name_all(self.segments(), edges@.take(i as int + 1)) =~= name_all(
                        self.segments(),
                        edges@.take(i as int),
                    ).push((route.name@, edge)));
                },
                None => {},
            }
            i += 1;
            assert(named_view(named@) =~= named_view(old(named)@) + name_all(
                self.segments(),
                edges@.take(i as int),
            ));
        }
        assert(edges@.take(i as int) =~= edges@);
    }

    /// The segments that touch `node`, each with the name of its route:
    /// first those that arrive at `node`, then those that leave it.
    pub fn routes_at(&self, node: NodeIndex<u32>) -> (r: Vec<(String, EdgeIndex<u32>)>)
        ensures
            named_view(r@) == self.named_touching(node),
            forall|i: int|
                0 <= i < r@.len() ==> touches(self.segments(), (#[trigger] r@[i]).1, node),
            self.lists_at(node),
    {
        let incoming = incoming_edges(&self.graph, node);
        let outgoing = outgoing_edges(&self.graph, node);
        let mut edge_names_and_indexes: Vec<(String, EdgeIndex<u32>)> = Vec::new();
        assert forall|i: int| 0 <= i < incoming@.len() implies self.segments().dom().contains(
            #[trigger] incoming@[i],
        ) by {
            assert(incoming@.contains(incoming@[i]));
        }
        assert forall|i: int| 0 <= i < outgoing@.len() implies self.segments().dom().contains(
            #[trigger] outgoing@[i],
        ) by {
            assert(outgoing@.contains(outgoing@[i]));
        }
        self.append_named(&incoming, &mut edge_names_and_indexes);
        self.append_named(&outgoing, &mut edge_names_and_indexes);
        assert(named_view(edge_names_and_indexes@) =~= name_all(
            self.segments(),
            incoming@ + outgoing@,
        ));
        assert forall|i: int| 0 <= i < edge_names_and_indexes@.len() implies touches(
            self.segments(),
            (#[trigger] edge_names_and_indexes@[i]).1,
            node,
        ) by {
            let e = edge_names_and_indexes@[i].1;
            assert(named_view(edge_names_and_indexes@)[i].1 == e);
            assert(e == (incoming@ + outgoing@)[i]);
            if i < incoming@.len() {
                assert(incoming@.contains(incoming@[i]));
            } else {
                assert(outgoing@.contains(outgoing@[i - incoming@.len()]));
            }
        }
        edge_names_and_indexes
    }

    /// Joins what each through line among `groups` would lose with `node`:
    /// for each group of exactly two segments, in order, a route in both
    /// directions is added between the stations that [`rejoin_of`] names,
    /// under the group's name as its line. Returns the handles of the new
    /// segments, forward and backward, for each such group. Groups of any
    /// other size add nothing.
    pub fn rejoin_groups(
        &mut self,
        node: NodeIndex<u32>,
        groups: &Vec<(String, Vec<EdgeIndex<u32>>)>,
        id_route_counter: &mut u32,
    ) -> (r: Vec<(EdgeIndex<u32>, EdgeIndex<u32>)>)
        requires
            old(self).wf(),
            forall|g: int, i: int|
                0 <= g < groups@.len() && 0 <= i < groups@[g].1@.len() ==> old(
                    self,
                ).segments().dom().contains(#[trigger] groups@[g].1@[i]),
            old(self).segments().len() + 2 * rejoins(
                old(self).segments(),
                node,
                groups_view(groups@),
            ).len() <= u32::MAX,
            *old(id_route_counter) + 2 * rejoins(
                old(self).segments(),
                node,
                groups_view(groups@),
            ).len() <= u32::MAX,
        ensures
            final(self).wf(),
            old(self).directed_names() ==> final(self).directed_names(),
            final(self).stations() == old(self).stations(),
            r@.len() == rejoins(old(self).segments(), node, groups_view(groups@)).len(),
            fresh_handles(old(self).segments(), r@),
            final(self).segments() == with_rejoins(
                old(self).segments(),
                rejoins(old(self).segments(), node, groups_view(groups@)),
                r@,
                *old(id_route_counter) as int,
            ),
            *final(id_route_counter) == *old(id_route_counter) + 2 * r@.len(),
            lists_with_rejoins(
                *old(self),
                *final(self),
                rejoins(old(self).segments(), node, groups_view(groups@)),
                r@,
            ),
    {
        let ghost before = old(self).segments();
        let ghost all = groups_view(groups@);
        let ghost first_id = *old(id_route_counter) as int;
        let mut added: Vec<(EdgeIndex<u32>, EdgeIndex<u32>)> = Vec::new();
        let mut g: usize = 0;
        proof {
            assert(all.take(0) =~= Seq::<Group>::empty());
            lemma_rejoins_empty(before, node);
        }
        while g < groups.len()
            invariant
                g <= groups.len(),
                all == groups_view(groups@),
                before.dom().finite(),
                forall|g: int, i: int|
                    0 <= g < groups@.len() && 0 <= i < groups@[g].1@.len()
                        ==> before.dom().contains(#[trigger] groups@[g].1@[i]),
                before.len() + 2 * rejoins(before, node, all).len() <= u32::MAX,
                first_id + 2 * rejoins(before, node, all).len() <= u32::MAX,
                self.wf(),
                old(self).directed_names() ==> self.directed_names(),
                self.stations() == old(self).stations(),
                added@.len() == rejoins(before, node, all.take(g as int)).len(),
                fresh_handles(before, added@),
                self.segments() == with_rejoins(
                    before,
                    rejoins(before, node, all.take(g as int)),
                    added@,
                    first_id,
                ),
                *id_route_counter == first_id + 2 * added@.len(),
                lists_with_rejoins(
                    *old(self),
                    *self,
                    rejoins(before, node, all.take(g as int)),
                    added@,
                ),
                self.segments().len() == before.len() + 2 * added@.len(),
                before.submap_of(self.segments()),
                forall|k: int|
                    0 <= k < added@.len() ==> self.segments().dom().contains(
                        (#[trigger] added@[k]).0,
                    ) && self.segments().dom().contains(added@[k].1),
            decreases groups.len() - g,
        {
            let ghost done = rejoins(before, node, all.take(g as int));
            let ghost group: Group = all[g as int];
            proof {
                lemma_rejoins_push(before, node, all.take(g as int), group);
                assert(all.take(g as int + 1) =~= all.take(g as int).push(group));
                lemma_rejoins_prefix(before, node, all, g as int + 1);
            }
            if groups[g].1.len() == 2 {
                let first = groups[g].1[0];
                let second = groups[g].1[1];
                assert(before.dom().contains(groups@[g as int].1@[0]));
                assert(before.dom().contains(groups@[g as int].1@[1]));
                let first_edge = edge_endpoints(&self.graph, first);
                let second_edge = edge_endpoints(&self.graph, second);
                match (first_edge, second_edge) {
                    (Some(first_ends), Some(second_ends)) => {
                        let new_edge = if same_node(first_ends.0, node) {
                            (second_ends.0, first_ends.1)
                        } else {
                            (first_ends.0, second_ends.1)
                        };
                        let ghost line = rejoin_of(before, node, group);
                        assert(line.from == new_edge.0 && line.to == new_edge.1);
                        let ghost current = *self;
                        let route_name = groups[g].0.clone();
                        let new_edges = self.add_route_to_graph(
                            new_edge.0,
                            new_edge.1,
                            id_route_counter,
                            route_name,
                            true,
                        );
                        match new_edges {
                            (Some(forward), Some(backward)) => {
                                let ghost handles = added@;
                                added.push((forward, backward));
                                proof {
                                    assert(done.push(line).drop_last() =~= done);
                                    assert(added@.drop_last() =~= handles);
                                    assert(self.segments() == with_rejoins(
                                        before,
                                        done.push(line),
                                        added@,
                                        first_id,
                                    ));
                                    assert(fresh_handles(before, added@));
                                    assert(done.push(line).last() == line);
                                    assert(added@.last() == (forward, backward));
                                    assert forall|at: NodeIndex<u32>| #[trigger]
                                        self.departures(at) == listed_with_rejoins(
                                            old(self).departures(at),
                                            done.push(line),
                                            added@,
                                            at,
                                            true,
                                        ) by {
                                        assert(current.departures(at) == listed_with_rejoins(
                                            old(self).departures(at),
                                            done,
                                            handles,
                                            at,
                                            true,
                                        ));
                                    }
                                    assert forall|at: NodeIndex<u32>| #[trigger]
                                        self.arrivals(at) == listed_with_rejoins(
                                            old(self).arrivals(at),
                                            done.push(line),
                                            added@,
                                            at,
                                            false,
                                        ) by {
                                        assert(current.arrivals(at) == listed_with_rejoins(
                                            old(self).arrivals(at),
                                            done,
                                            handles,
                                            at,
                                            false,
                                        ));
                                    }
                                }
                            },
                            _ => {},
                        }
                    },
                    _ => {},
                }
            }
            g += 1;
        }
        assert(all.take(g as int) =~= all);
        added
    }

    /// The groups of the segments that touch `node`, by the name of their
    /// route: a caller sees from them which lines the removal of `node` would
    /// join again, those of exactly two segments, and which it would cut.
    pub fn routes_grouped_at(&self, node: NodeIndex<u32>) -> (r: Vec<(String, Vec<EdgeIndex<u32>>)>)
        ensures
            groups_view(r@) == groups_of(self.named_touching(node)),
            forall|g: int, i: int|
                0 <= g < r@.len() && 0 <= i < r@[g].1@.len() ==> touches(
                    self.segments(),
                    #[trigger] r@[g].1@[i],
                    node,
                ),
            self.lists_at(node),
    {
        let edge_names_and_indexes = self.routes_at(node);
        let ghost named = named_view(edge_names_and_indexes@);
        let related_routes = group_by_name(edge_names_and_indexes);
        proof {
            assert forall|g: int, i: int|
                0 <= g < related_routes@.len() && 0 <= i < related_routes@[g].1@.len()
                    implies touches(self.segments(), #[trigger] related_routes@[g].1@[i], node) by {
                let group = groups_of(named)[g];
                assert(groups_view(related_routes@)[g] == group);
                let names = distinct(names_of(named));
                assert(groups_of(named).len() == names.len());
                assert(group == (names[g], members(named, names[g])));
                lemma_member_is_named(named, group.0, i);
                let at = choose|at: int|
                    0 <= at < named.len() && named[at].1 == groups_view(related_routes@)[g].1[i];
                assert(touches(self.segments(), edge_names_and_indexes@[at].1, node));
            }
        }
        related_routes
    }

    /// What the removal of `node` does to the network `self` and to a counter
    /// of route ids that stands at `first_id`: `r` is the result, `after` the
    /// network and `counter` the counter after it.
    ///
    /// Where `node` is no station, the removal fails and nothing changes.
    /// Where it is one, each line that runs through it gets a replacement
    /// route in both directions at handles that were not in use, with ids
    /// from `first_id` on; then `node` goes, with every segment that touches
    /// it, replacements included.
    pub open spec fn is_removal(
        &self,
        node: NodeIndex<u32>,
        first_id: u32,
        r: Result<(), GraphError>,
        after: Graph,
        counter: u32,
    ) -> bool {
        if self.stations().dom().contains(node) {
            &&& r is Ok
            &&& after.stations() == self.stations().remove(node)
            &&& counter == first_id + 2 * self.through_lines(node).len()
            &&& exists|handles: Seq<(EdgeIndex<u32>, EdgeIndex<u32>)>|
                {
                    &&& handles.len() == self.through_lines(node).len()
                    &&& fresh_handles(self.segments(), handles)
                    &&& after.segments() == #[trigger] self.segments_without(
                        node,
                        first_id,
                        handles,
                    )
                    &&& self.lists_without_station(after, node, first_id, handles)
                }
        } else {
            &&& r == Err::<(), GraphError>(GraphError::RemovingStation)
            &&& after.stations() == self.stations()
            &&& after.segments() == self.segments()
            &&& lists_the_same(self.graph, after.graph)
            &&& counter == first_id
        }
    }

    /// Whether the network and a counter of route ids that stands at
    /// `first_id` have room for `lines` more routes in both directions.
    pub open spec fn has_room_for(&self, first_id: u32, lines: nat) -> bool {
        &&& self.segments().len() + 2 * lines <= u32::MAX
        &&& first_id + 2 * lines <= u32::MAX
    }

    /// Whether the network and a counter of route ids that stands at
    /// `first_id` have room for the replacement routes that the removal of
    /// `node` adds: one for each line that runs through `node`, and none
    /// where `node` is no station.
    pub open spec fn has_room_to_remove(&self, node: NodeIndex<u32>, first_id: u32) -> bool {
        self.stations().dom().contains(node) ==> self.has_room_for(
            first_id,
            self.through_lines(node).len(),
        )
    }

    /// Whether the network and a counter of route ids that stands at
    /// `first_id` have room for as many routes in both directions as
    /// segments touch `node`, which are at least as many as the removal of
    /// `node` adds.
    pub open spec fn has_room_for_neighbours(&self, node: NodeIndex<u32>, first_id: u32) -> bool {
        self.stations().dom().contains(node) ==> self.has_room_for(
            first_id,
            touching_set(self.segments(), node).len(),
        )
    }

    fn remove_grouped(
        &mut self,
        index_node: NodeIndex<u32>,
        related_routes: &Vec<(String, Vec<EdgeIndex<u32>>)>,
        id_route_counter: &mut u32,
    ) -> (r: Result<(), GraphError>)
        requires
            old(self).wf(),
            old(self).stations().dom().contains(index_node),
            old(self).has_room_to_remove(index_node, *old(id_route_counter)),
            groups_view(related_routes@) == groups_of(old(self).named_touching(index_node)),
            forall|g: int, i: int|
                0 <= g < related_routes@.len() && 0 <= i < related_routes@[g].1@.len() ==> touches(
                    old(self).segments(),
                    #[trigger] related_routes@[g].1@[i],
                    index_node,
                ),
        ensures
            final(self).wf(),
            old(self).directed_names() ==> final(self).directed_names(),
            old(self).is_removal(
                index_node,
                *old(id_route_counter),
                r,
                *final(self),
                *final(id_route_counter),
            ),
    {
        let added = self.rejoin_groups(index_node, related_routes, id_route_counter);
        let ghost stitched = self.segments();
        let ghost joined = *self;
        let removed_node = remove_node(&mut self.graph, index_node);
        proof {
            {
                assert(self.segments().dom().subset_of(stitched.dom()));
                vstd::set_lib::lemma_set_subset_finite(stitched.dom(), self.segments().dom());
                assert forall|e: EdgeIndex<u32>| #[trigger]
                    self.segments().dom().contains(e) implies self.stations().dom().contains(
                    self.segments()[e].from,
                ) && self.stations().dom().contains(self.segments()[e].to) by {
                    assert(stitched.dom().contains(e));
                    assert(!touching_set(stitched, index_node).contains(e));
                }
                assert(self.segments() == old(self).segments_without(
                    index_node,
                    *old(id_route_counter),
                    added@,
                ));
                assert forall|at: NodeIndex<u32>| #[trigger]
                    self.departures(at) == listed_with_rejoins(
                        old(self).departures(at),
                        old(self).through_lines(index_node),
                        added@,
                        at,
                        true,
                    ).filter(clear_of(stitched, index_node)) by {
                    assert(joined.departures(at) == listed_with_rejoins(
                        old(self).departures(at),
                        old(self).through_lines(index_node),
                        added@,
                        at,
                        true,
                    ));
                }
                assert forall|at: NodeIndex<u32>| #[trigger]
                    self.arrivals(at) == listed_with_rejoins(
                        old(self).arrivals(at),
                        old(self).through_lines(index_node),
                        added@,
                        at,
                        false,
                    ).filter(clear_of(stitched, index_node)) by {
                    assert(joined.arrivals(at) == listed_with_rejoins(
                        old(self).arrivals(at),
                        old(self).through_lines(index_node),
                        added@,
                        at,
                        false,
                    ));
                }
            }
        }
        match removed_node {
            Some(_) => Ok(()),
            None => Err(GraphError::RemovingStation),
        }
    }

    /// Removes the station at `index_node` with every segment that touches
    /// it. Before that, each line that runs through the station is joined
    /// again: the segments that touch the station are grouped by the name of
    /// their route, and each group of exactly two gets a replacement route,
    /// as [`Graph::rejoin_groups`] adds it. The replacement segments take
    /// their ids from `id_route_counter`. Fails, and changes nothing, where
    /// `index_node` is no station of the network.
    ///
    /// The network and the counter must have room for the replacement
    /// routes. There is room for them wherever there is room for as many
    /// routes as segments touch the station.
    pub fn remove_station_from_graph(
        &mut self,
        index_node: NodeIndex<u32>,
        id_route_counter: &mut u32,
    ) -> (r: Result<(), GraphError>)
        requires
            old(self).wf(),
            old(self).has_room_to_remove(index_node, *old(id_route_counter)) || old(
                self,
            ).has_room_for_neighbours(index_node, *old(id_route_counter)),
        ensures
            final(self).wf(),
            old(self).directed_names() ==> final(self).directed_names(),
            old(self).lists_at(index_node),
            old(self).is_removal(
                index_node,
                *old(id_route_counter),
                r,
                *final(self),
                *final(id_route_counter),
            ),
    {
        let related_routes = self.routes_grouped_at(index_node);
        if !self.contains_station(index_node) {
            return Err(GraphError::RemovingStation);
        }
        proof {
            lemma_through_lines_bound(*self, index_node);
        }
        self.remove_grouped(index_node, &related_routes, id_route_counter)
    }

    /// Removes the station at `index_node` as
    /// [`Graph::remove_station_from_graph`] does, where the network and the
    /// counter have room for the replacement routes; where they have not,
    /// returns `None` and changes nothing.
    pub fn try_remove_station(&mut self, index_node: NodeIndex<u32>, id_route_counter: &mut u32) -> (r:
        Option<Result<(), GraphError>>)
        requires
            old(self).wf(),
        ensures
            final(self).wf(),
            old(self).directed_names() ==> final(self).directed_names(),
            old(self).lists_at(index_node),
            r is Some <==> old(self).has_room_to_remove(index_node, *old(id_route_counter)),
            r matches Some(removal) ==> old(self).is_removal(
                index_node,
                *old(id_route_counter),
                removal,
                *final(self),
                *final(id_route_counter),
            ),
            r is None ==> *final(self) == *old(self) && *final(id_route_counter) == *old(
                id_route_counter,
            ),
    {
        let related_routes = self.routes_grouped_at(index_node);
        if !self.contains_station(index_node) {
            return Some(Err(GraphError::RemovingStation));
        }
        let pairs = count_pairs(&related_routes);
        let held = self.segment_count();
        if pairs > 0x7fff_ffff || held > 0xffff_ffff {
            return None;
        }
        let needed: u64 = 2 * (pairs as u64);
        if held as u64 + needed <= u32::MAX as u64 && *id_route_counter as u64 + needed
            <= u32::MAX as u64 {
            Some(self.remove_grouped(index_node, &related_routes, id_route_counter))
        } else {
            None
        }
    }
}

/// The test for a group that the removal of its station cuts: one of any
/// number of segments but two.
pub open spec fn is_cut() -> spec_fn(Group) -> bool {
    |g: Group| g.1.len() != 2
}

/// The names of `groups`, in order.
pub open spec fn group_names(groups: Seq<Group>) -> Seq<Seq<char>> {
    groups.map_values(|g: Group| g.0)
}

/// The names of the groups among `groups` that are not of exactly two
/// segments, in the order of the groups: the names under which the removal
/// of the station drops segments without a replacement.
pub fn cut_lines(groups: &Vec<(String, Vec<EdgeIndex<u32>>)>) -> (r: Vec<String>)
    ensures
        r@.map_values(|name: String| name@) == group_names(groups_view(groups@).filter(is_cut())),
{
    let mut cut: Vec<String> = Vec::new();
    let mut g: usize = 0;
    let ghost all = groups_view(groups@);
    proof {
        reveal(Seq::filter);
        assert(all.take(0) =~= Seq::<Group>::empty());
        assert(all.take(0).filter(is_cut()).len() == 0);
        assert(cut@.map_values(|name: String| name@) =~= group_names(
            all.take(0).filter(is_cut()),
        ));
    }
    while g < groups.len()
        invariant
            g <= groups.len(),
            all == groups_view(groups@),
            cut@.map_values(|name: String| name@) == group_names(
                all.take(g as int).filter(is_cut()),
            ),
        decreases groups.len() - g,
    {
        let ghost names = cut@.map_values(|name: String| name@);
        proof {
            all.take(g as int).lemma_filter_push(all[g as int], is_cut());
            assert(all.take(g as int + 1) =~= all.take(g as int).push(all[g as int]));
        }
        if groups[g].1.len() != 2 {
            cut.push(groups[g].0.clone());
            assert(cut@.map_values(|name: String| name@) =~= names.push(all[g as int].0));
            assert(group_names(all.take(g as int).filter(is_cut()).push(all[g as int]))
                =~= names.push(all[g as int].0));
        }
        g += 1;
    }
    assert(all.take(g as int) =~= all);
    cut
}

/// The number of groups of exactly two segments among `groups`.
pub fn count_pairs(groups: &Vec<(String, Vec<EdgeIndex<u32>>)>) -> (r: usize)
    ensures
        r == groups_view(groups@).filter(is_pair()).len(),
{
    let mut pairs: usize = 0;
    let mut g: usize = 0;
    let ghost all = groups_view(groups@);
    proof {
        reveal(Seq::filter);
        assert(all.take(0) =~= Seq::<Group>::empty());
        assert(all.take(0).filter(is_pair()).len() == 0);
    }
    while g < groups.len()
        invariant
            g <= groups.len(),
            all == groups_view(groups@),
            pairs == all.take(g as int).filter(is_pair()).len(),
            pairs <= g,
        decreases groups.len() - g,
    {
        proof {
            all.take(g as int).lemma_filter_push(all[g as int], is_pair());
            assert(all.take(g as int + 1) =~= all.take(g as int).push(all[g as int]));
        }
        if groups[g].1.len() == 2 {
            pairs += 1;
        }
        g += 1;
    }
    assert(all.take(g as int) =~= all);
    pairs
}

/// Without groups no line is joined again.
pub proof fn lemma_rejoins_empty(segments: Map<EdgeIndex<u32>, Segment>, node: NodeIndex<u32>)
    ensures
        rejoins(segments, node, Seq::<Group>::empty()).len() == 0,
{
    reveal(Seq::filter);
    assert(Seq::<Group>::empty().filter(is_pair()).len() == 0);
}

/// One more group adds its line where it is a group of two, and nothing
/// where it is not.
pub proof fn lemma_rejoins_push(
    segments: Map<EdgeIndex<u32>, Segment>,
    node: NodeIndex<u32>,
    groups: Seq<Group>,
    group: Group,
)
    ensures
        rejoins(segments, node, groups.push(group)) == if group.1.len() == 2 {
            rejoins(segments, node, groups).push(rejoin_of(segments, node, group))
        } else {
            rejoins(segments, node, groups)
        },
{
    groups.lemma_filter_push(group, is_pair());
    if group.1.len() == 2 {
        assert(groups.filter(is_pair()).push(group).map_values(rejoiner(segments, node))
            =~= groups.filter(is_pair()).map_values(rejoiner(segments, node)).push(
            rejoin_of(segments, node, group),
        ));
    }
}

/// The first `n` groups give no more lines than all of them.
pub proof fn lemma_rejoins_prefix(
    segments: Map<EdgeIndex<u32>, Segment>,
    node: NodeIndex<u32>,
    groups: Seq<Group>,
    n: int,
)
    requires
        0 <= n <= groups.len(),
    ensures
        rejoins(segments, node, groups.take(n)).len() <= rejoins(segments, node, groups).len(),
{
    groups.lemma_filter_take_len(is_pair(), n);
}

/// The replacement routes leave every segment that was there as it was.
pub proof fn lemma_with_rejoins_keeps(
    segments: Map<EdgeIndex<u32>, Segment>,
    lines: Seq<Rejoin>,
    handles: Seq<(EdgeIndex<u32>, EdgeIndex<u32>)>,
    first_id: int,
)
    requires
        handles.len() == lines.len(),
        fresh_handles(segments, handles),
    ensures
        segments.submap_of(with_rejoins(segments, lines, handles, first_id)),
        forall|e: EdgeIndex<u32>|
            with_rejoins(segments, lines, handles, first_id).dom().contains(e) ==> {
                ||| segments.dom().contains(e)
                ||| exists|k: int|
                    0 <= k < handles.len() && ((#[trigger] handles[k]).0 == e || handles[k].1 == e)
            },
    decreases lines.len(),
{
    if lines.len() > 0 {
        let fewer = handles.drop_last();
        lemma_with_rejoins_keeps(segments, lines.drop_last(), fewer, first_id);
        let before = with_rejoins(segments, lines.drop_last(), fewer, first_id);
        let after = with_rejoins(segments, lines, handles, first_id);
        assert forall|e: EdgeIndex<u32>| after.dom().contains(e) implies {
            ||| segments.dom().contains(e)
            ||| exists|k: int|
                0 <= k < handles.len() && ((#[trigger] handles[k]).0 == e || handles[k].1 == e)
        } by {
            if e == handles.last().0 || e == handles.last().1 {
                assert(handles[handles.len() - 1] == handles.last());
            } else {
                assert(before.dom().contains(e));
                if !segments.dom().contains(e) {
                    let k = choose|k: int|
                        0 <= k < fewer.len() && ((#[trigger] fewer[k]).0 == e || fewer[k].1 == e);
                    assert(handles[k] == fewer[k]);
                }
            }
        }
    }
}

/// The removal of a station leaves every segment that does not touch the
/// station as it was, under its handle, and leaves no segment that touches
/// the station. Each segment that it adds stands at a handle that was not in
/// use.
pub proof fn lemma_removal_keeps_the_rest(
    before: Graph,
    node: NodeIndex<u32>,
    first_id: u32,
    r: Result<(), GraphError>,
    after: Graph,
    counter: u32,
)
    requires
        before.is_removal(node, first_id, r, after, counter),
    ensures
        forall|e: EdgeIndex<u32>|
            before.segments().dom().contains(e) && !touches(before.segments(), e, node) ==> {
                &&& #[trigger] after.segments().dom().contains(e)
                &&& after.segments()[e] == before.segments()[e]
            },
        forall|e: EdgeIndex<u32>|
            before.segments().dom().contains(e) && #[trigger] after.segments().dom().contains(e)
                ==> after.segments()[e] == before.segments()[e],
        before.stations().dom().contains(node) ==> forall|e: EdgeIndex<u32>| !touches(after.segments(), e, node),
        !after.stations().dom().contains(node),
        forall|other: NodeIndex<u32>|
            other != node && before.stations().dom().contains(other) ==> {
                &&& #[trigger] after.stations().dom().contains(other)
                &&& after.stations()[other] == before.stations()[other]
            },
{
    if before.stations().dom().contains(node) {
        let handles = choose|handles: Seq<(EdgeIndex<u32>, EdgeIndex<u32>)>|
            {
                &&& handles.len() == before.through_lines(node).len()
                &&& fresh_handles(before.segments(), handles)
                &&& after.segments() == #[trigger] before.segments_without(node, first_id, handles)
            };
        lemma_with_rejoins_keeps(
            before.segments(),
            before.through_lines(node),
            handles,
            first_id as int,
        );
    }
}

} // verus!
