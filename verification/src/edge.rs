//! A named connection between two stations, given by their ids.

use vstd::prelude::*;

verus! {

/// A connection from one station to another.
#[derive(PartialEq, Clone, Debug)]
pub struct Edger {
    id: u32,
    name: String,
    start_station: u32,
    end_station: u32,
}

/// What an [`Edger`] is, as plain values.
pub struct EdgerView {
    pub id: u32,
    pub name: Seq<char>,
    pub start_station: u32,
    pub end_station: u32,
}

impl View for Edger {
    type V = EdgerView;

    closed spec fn view(&self) -> EdgerView {
        EdgerView {
            id: self.id,
            name: self.name@,
            start_station: self.start_station,
            end_station: self.end_station,
        }
    }
}

impl Edger {
    /// Creates a connection that takes its id from `id` and advances that
    /// counter by one.
    pub fn new(id: &mut u32, name: String, start_station: u32, end_station: u32) -> (r: Edger)
        requires
            *old(id) < u32::MAX,
        ensures
            r@ == (EdgerView { id: *old(id), name: name@, start_station, end_station }),
            *final(id) == *old(id) + 1,
    {
        let unit_edge = Edger { id: *id, name, start_station, end_station };
        *id += 1;
        unit_edge
    }
}

} // verus!
