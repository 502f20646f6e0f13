use crate::coordinate::Coordinate;
use vstd::prelude::*;

verus! {

/// One stop of a requested trip: a street address and its resolved
/// coordinates.
#[derive(Clone, Debug)]
pub struct Location {
    pub address: String,
    pub address_complement: String,
    pub coordinates: Coordinate,
    pub place_id: String,
    pub id: usize,
}

/// A requested trip: a titled list of stops.
pub struct Trip {
    pub back_to_start: bool,
    pub title: String,
    pub locations: Vec<Location>,
}

} // verus!
