use crate::trip::Location;
use vstd::prelude::*;

verus! {

/// A bare list of stops, as submitted by a caller.
pub struct Locations {
    pub locations: Vec<Location>,
}

} // verus!
