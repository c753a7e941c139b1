//! Coordinates and the capability that user data provides.
use vstd::prelude::*;

verus! {

/// The largest latitude magnitude, in micro-degrees.
pub const MAX_LAT: i64 = 90_000_000;

/// The largest longitude magnitude, in micro-degrees.
pub const MAX_LNG: i64 = 180_000_000;

/// A coordinate `(lat, lng)` in micro-degrees lies on the globe.
pub open spec fn valid_coord(c: (i64, i64)) -> bool {
    -MAX_LAT <= c.0 <= MAX_LAT && -MAX_LNG <= c.1 <= MAX_LNG
}

} // verus!

verus! {

/// What the clustering needs of a caller's data point: its coordinate, as
/// `(lat, lng)` in micro-degrees. Everything else about the point is carried
/// along untouched.
pub trait UserDataType {
    /// The coordinate of the point.
    spec fn coords(&self) -> (i64, i64);

    /// Returns the coordinate of the point.
    fn get_coords(&self) -> (r: (i64, i64))
        ensures
            r == self.coords(),
    ;
}

} // verus!
