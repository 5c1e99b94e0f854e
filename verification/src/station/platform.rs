//! A single platform of a station.

use crate::train::TrainType;
use vstd::prelude::*;

verus! {

/// A bookable slot of a station, reserved for one class of vehicle.
///
/// Platforms are created and booked through their [`Station`](super::Station).
#[derive(Clone, Copy, Eq, PartialEq, Ord, PartialOrd, Hash, Debug)]
pub struct Platform {
    pub id: u8,
    pub occupied: bool,
    pub platform_type: TrainType,
}

impl Platform {
    /// A free platform with the given id and class.
    pub fn new(id: u8, platform_type: TrainType) -> (r: Platform)
        ensures
            r == (Platform { id, occupied: false, platform_type }),
    {
        Platform { id, occupied: false, platform_type }
    }

    /// Whether a vehicle of class `class` may be booked onto this platform.
    pub open spec fn is_free_for(self, class: TrainType) -> bool {
        !self.occupied && self.platform_type == class
    }
}

} // verus!
