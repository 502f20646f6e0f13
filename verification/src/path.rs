use crate::coordinate::Coordinate;
use vstd::prelude::*;

verus! {

/// A labelled stop of a computed route.
pub struct PathLocation {
    pub location: Coordinate,
    pub label: String,
}

/// A computed route: the full coordinate path, its total distance, and the
/// ordered stops.
pub struct Path {
    pub title: String,
    pub path: Vec<Coordinate>,
    pub distance: i64,
    pub locations: Vec<PathLocation>,
}

} // verus!
