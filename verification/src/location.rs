//! One addressable place and its mathematical view.

use vstd::prelude::*;

verus! {

/// One addressable place: its names in two languages and its position.
///
/// `latitude` and `longitude` count units of 10^-7 degree.
#[derive(Debug)]
pub struct Location {
    pub sub_district_th: String,
    pub sub_district_en: String,
    pub district_th: String,
    pub district_en: String,
    pub latitude: i64,
    pub longitude: i64,
    pub province_th: String,
    pub province_en: String,
    pub address: String,
    pub address_en: String,
}

/// What a [`Location`] holds, as mathematical values.
pub struct LocationView {
    pub sub_district_th: Seq<char>,
    pub sub_district_en: Seq<char>,
    pub district_th: Seq<char>,
    pub district_en: Seq<char>,
    pub latitude: int,
    pub longitude: int,
    pub province_th: Seq<char>,
    pub province_en: Seq<char>,
    pub address: Seq<char>,
    pub address_en: Seq<char>,
}

impl View for Location {
    type V = LocationView;

    open spec fn view(&self) -> LocationView {
        LocationView {
            sub_district_th: self.sub_district_th@,
            sub_district_en: self.sub_district_en@,
            district_th: self.district_th@,
            district_en: self.district_en@,
            latitude: self.latitude as int,
            longitude: self.longitude as int,
            province_th: self.province_th@,
            province_en: self.province_en@,
            address: self.address@,
            address_en: self.address_en@,
        }
    }
}

impl DeepView for Location {
    type V = LocationView;

    open spec fn deep_view(&self) -> LocationView {
        self@
    }
}

impl LocationView {
    /// The coordinate along axis `k`: the latitude for 0, the longitude otherwise.
    pub open spec fn at(self, k: int) -> int {
        if k == 0 {
            self.latitude
        } else {
            self.longitude
        }
    }
}

impl Clone for Location {
    fn clone(&self) -> (copy: Self)
        ensures
            copy == *self,
    {
        Location {
            sub_district_th: self.sub_district_th.clone(),
            sub_district_en: self.sub_district_en.clone(),
            district_th: self.district_th.clone(),
            district_en: self.district_en.clone(),
            latitude: self.latitude,
            longitude: self.longitude,
            province_th: self.province_th.clone(),
            province_en: self.province_en.clone(),
            address: self.address.clone(),
            address_en: self.address_en.clone(),
        }
    }
}

impl Location {
    /// The coordinate along axis `k`, widened to the scalar in which the
    /// spatial index measures distances: the latitude for 0, the longitude for 1.
    pub fn at(&self, k: usize) -> (coordinate: i128)
        requires
            k < 2,
        ensures
            coordinate == self@.at(k as int),
    {
        if k == 0 {
            self.latitude as i128
        } else {
            self.longitude as i128
        }
    }
}

} // verus!
