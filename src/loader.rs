//! A ready-made data point: a coordinate with an identifier.
use vstd::prelude::*;
use crate::location::UserDataType;

verus! {

/// A data point at (`latitude`, `longitude`) micro-degrees, carrying a
/// caller-chosen identifier.
#[derive(Clone, Copy, Debug, PartialEq)]
pub struct Val<K> {
    pub latitude: i64,
    pub longitude: i64,
    pub unique_identifier: K,
}

impl<K> Val<K> {
    pub fn new(lat: i64, lon: i64, unique_identifier: K) -> (r: Self)
        ensures
            r.latitude == lat,
            r.longitude == lon,
            r.unique_identifier == unique_identifier,
    {
        Val { latitude: lat, longitude: lon, unique_identifier }
    }

    pub fn get_coords(&self) -> (r: (i64, i64))
        ensures
            r == (self.latitude, self.longitude),
    {
        (self.latitude, self.longitude)
    }
}

impl<K> UserDataType for Val<K> {
    open spec fn coords(&self) -> (i64, i64) {
        (self.latitude, self.longitude)
    }

    fn get_coords(&self) -> (r: (i64, i64)) {
        (self.latitude, self.longitude)
    }
}

} // verus!
