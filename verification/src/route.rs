//! The payload of an edge of the route graph.

use vstd::prelude::*;

verus! {

/// One directed segment of track. Its name is that of the line it belongs to,
/// followed by a direction marker.
#[derive(PartialEq, Clone, Debug)]
pub struct Route {
    pub id: u32,
    /// The name of the line, with the direction marker at its end.
    pub name: String,
}

/// What a [`Route`] is, as plain values.
pub struct RouteView {
    pub id: u32,
    pub name: Seq<char>,
}

impl View for Route {
    type V = RouteView;

    open spec fn view(&self) -> RouteView {
        RouteView { id: self.id, name: self.name@ }
    }
}

/// The marker at the end of the name of a segment that runs forward.
pub const FORWARD: char = 'f';

/// The marker at the end of the name of a segment that runs backward.
pub const BACKWARD: char = 'b';

/// The marker for a direction of travel.
pub open spec fn marker(forward: bool) -> char {
    if forward {
        FORWARD
    } else {
        BACKWARD
    }
}

/// The name of the segments of `line` that run in the given direction.
pub open spec fn segment_name(line: Seq<char>, forward: bool) -> Seq<char> {
    line.push(marker(forward))
}

/// Whether `name` ends in a direction marker.
pub open spec fn is_directed_name(name: Seq<char>) -> bool {
    name.len() > 0 && (name.last() == FORWARD || name.last() == BACKWARD)
}

impl Route {
    /// Creates a route that takes its id from `id` and advances that counter
    /// by one.
    pub fn new(id: &mut u32, name: String) -> (r: Route)
        requires
            *old(id) < u32::MAX,
        ensures
            r.id == *old(id),
            r.name == name,
            *final(id) == *old(id) + 1,
    {
        let route = Route { id: *id, name };
        *id += 1;
        route
    }
}

} // verus!
