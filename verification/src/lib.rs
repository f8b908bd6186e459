//! Nearest-location lookup over a fixed set of address records.
//!
//! Coordinates are fixed-point numbers: an `i64` counts units of 10^-7 degree.
//! The record store reads comma-separated text into [`Location`] values; the
//! spatial index answers which stored record lies nearest to a query point.

pub mod coordinate;
pub mod location;
pub mod index;
pub mod store;

pub use crate::coordinate::parse_coordinate;
pub use crate::index::find_geolocation;
pub use crate::index::within_reach;
pub use crate::index::REACH;
pub use crate::location::Location;
pub use crate::location::LocationView;
pub use crate::store::load_geolocation;
pub use crate::store::location_from_row;
pub use crate::store::locations_from_records;
pub use crate::store::LoadError;
pub use crate::store::ReadFault;
