use vstd::prelude::*;

verus! {

/// A two-part numeric label for a road.
pub struct RoadID {
    pub major: i16,
    pub minor: i16,
}

/// A road, identified by its `RoadID`.
pub struct Road {
    pub road_id: RoadID,
}

impl RoadID {
    pub fn new(major: i16, minor: i16) -> (r: RoadID)
        ensures
            r.major == major,
            r.minor == minor,
    {
        RoadID { major, minor }
    }

    pub fn get_major(&self) -> (r: i16)
        ensures
            r == self.major,
    {
        self.major
    }

    pub fn get_minor(&self) -> (r: i16)
        ensures
            r == self.minor,
    {
        self.minor
    }
}

impl Road {
    pub fn new(major: i16, minor: i16) -> (r: Road)
        ensures
            r.road_id.major == major,
            r.road_id.minor == minor,
    {
        Road { road_id: RoadID { major, minor } }
    }
}

} // verus!
