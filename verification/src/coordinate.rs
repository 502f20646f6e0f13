use vstd::prelude::*;

verus! {

/// Coordinates are carried as integers: degrees scaled by one million
/// (microdegrees). Geographic latitudes and longitudes lie well inside
/// `[-COORD_LIMIT, COORD_LIMIT]`, and the bound keeps every squared
/// Euclidean distance of two in-range points inside `i64`.
pub const COORD_LIMIT: i64 = 1_000_000_000;

/// A point of the road network: a latitude and a longitude in microdegrees,
/// and the identifier of the graph node that sits there.
#[derive(Clone, Copy, Debug, PartialEq, Eq, Structural)]
pub struct Coordinate {
    pub lat: i64,
    pub lng: i64,
    pub id: usize,
}

impl Coordinate {
    /// Both components are inside the geographic range.
    pub open spec fn in_range(self) -> bool {
        -COORD_LIMIT <= self.lat <= COORD_LIMIT && -COORD_LIMIT <= self.lng <= COORD_LIMIT
    }

    /// The component along a split dimension: latitude for dimension 0,
    /// longitude for dimension 1.
    pub open spec fn spec_coord(self, k: int) -> i64 {
        if k == 0 {
            self.lat
        } else {
            self.lng
        }
    }

    /// The component along a split dimension.
    pub fn coord(&self, k: usize) -> (r: i64)
        requires
            k < 2,
        ensures
            r == self.spec_coord(k as int),
    {
        if k == 0 {
            self.lat
        } else {
            self.lng
        }
    }
}

} // verus!
