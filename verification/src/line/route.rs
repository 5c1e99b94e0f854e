//! One segment of a line, between two stations given by their ids.

use vstd::prelude::*;

verus! {

/// A segment of a line from one station to the next.
#[derive(PartialEq, Clone, Debug)]
pub struct Route {
    pub id: u32,
    pub name: String,
    pub start_station: u32,
    pub end_station: u32,
}

impl Route {
    /// Advances the counter `id` by one and creates a segment with the new
    /// value of the counter as its id.
    pub fn new(id: &mut u32, name: String, start_station: u32, end_station: u32) -> (r: Route)
        requires
            *old(id) < u32::MAX,
        ensures
            *final(id) == *old(id) + 1,
            r.id == *old(id) + 1,
            r.name == name,
            r.start_station == start_station,
            r.end_station == end_station,
    {
        *id += 1;
        Route { id: *id, name, start_station, end_station }
    }
}

} // verus!
