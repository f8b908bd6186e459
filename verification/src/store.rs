//! The record store: location records read from comma-separated text.
//!
//! The text is UTF-8 with a header row, which is skipped, and one record per
//! further row. A record has at least ten fields, in this order: address,
//! address in English, district, district in English, latitude, longitude,
//! province, province in English, sub-district, sub-district in English.
//! Loading is all or nothing: the first record that cannot be taken decides
//! the error, and no location is returned.
//!
//! Splitting the text into records and fields is the work of the `csv`
//! crate, reached through [`read_records`].

use vstd::prelude::*;
use vstd::utf8::encode_utf8;
use crate::coordinate::coordinate_of;
use crate::coordinate::parse_coordinate;
use crate::location::Location;
use crate::location::LocationView;

verus! {

/// Why a load failed.
#[derive(Debug, Clone, Copy, PartialEq, Eq, Structural)]
pub enum LoadError {
    /// The source could not be read.
    SourceUnavailable,
    /// A row could not be split into fields, or has fewer than ten of them.
    MalformedRow,
    /// The latitude or the longitude of a row is no coordinate.
    InvalidCoordinate,
}

/// Why the reader handed out no record for a row.
#[derive(Debug, Clone, Copy, PartialEq, Eq, Structural)]
pub enum ReadFault {
    /// Reading from the source failed.
    Source,
    /// The row could not be split into fields of text, or has another number
    /// of fields than the header.
    Row,
}

/// The least number of fields in a record.
pub const FIELDS: usize = 10;

/// The error that the fields of one record give, or `None` where they make
/// a location.
pub open spec fn row_error(fields: Seq<Seq<char>>) -> Option<LoadError> {
    if fields.len() < FIELDS {
        Some(LoadError::MalformedRow)
    } else if coordinate_of(encode_utf8(fields[4])) is None || coordinate_of(
        encode_utf8(fields[5]),
    ) is None {
        Some(LoadError::InvalidCoordinate)
    } else {
        None
    }
}

/// The location that the fields of one record make, where [`row_error`]
/// finds no fault in them.
pub open spec fn location_of(fields: Seq<Seq<char>>) -> LocationView {
    LocationView {
        sub_district_th: fields[8],
        sub_district_en: fields[9],
        district_th: fields[2],
        district_en: fields[3],
        latitude: coordinate_of(encode_utf8(fields[4]))->0,
        longitude: coordinate_of(encode_utf8(fields[5]))->0,
        province_th: fields[6],
        province_en: fields[7],
        address: fields[0],
        address_en: fields[1],
    }
}

/// The error that one record gives, or `None` where it makes a location.
/// Where the reader handed out no record, the source was unavailable if
/// reading failed, and the row is malformed otherwise.
pub open spec fn record_error(record: Result<Seq<Seq<char>>, ReadFault>) -> Option<LoadError> {
    match record {
        Err(ReadFault::Source) => Some(LoadError::SourceUnavailable),
        Err(ReadFault::Row) => Some(LoadError::MalformedRow),
        Ok(fields) => row_error(fields),
    }
}

/// `outcome` is what loading `records` gives: the location of every record,
/// in order, where no record has a fault, and otherwise the error of the
/// first record that has one.
pub open spec fn load_outcome(
    records: Seq<Result<Seq<Seq<char>>, ReadFault>>,
    outcome: Result<Seq<LocationView>, LoadError>,
) -> bool {
    match outcome {
        Ok(locations) => {
            &&& locations.len() == records.len()
            &&& forall|i: int|
                0 <= i < records.len() ==> record_error(#[trigger] records[i]) is None
                    && locations[i] == location_of(records[i]->Ok_0)
        },
        Err(error) => exists|k: int|
            {
                &&& 0 <= k < records.len()
                &&& record_error(#[trigger] records[k]) == Some(error)
                &&& forall|j: int| 0 <= j < k ==> record_error(#[trigger] records[j]) is None
            },
    }
}

/// The result of a load as mathematical values.
pub open spec fn loaded(result: Result<Vec<Location>, LoadError>) -> Result<
    Seq<LocationView>,
    LoadError,
> {
    match result {
        Ok(locations) => Ok(locations.deep_view()),
        Err(error) => Err(error),
    }
}

/// One record as the reader hands it out, as mathematical values.
pub open spec fn record_view(record: Result<Vec<String>, ReadFault>) -> Result<
    Seq<Seq<char>>,
    ReadFault,
> {
    match record {
        Ok(fields) => Ok(fields.deep_view()),
        Err(fault) => Err(fault),
    }
}

/// [`record_view`] of each record.
pub open spec fn records_view(records: Seq<Result<Vec<String>, ReadFault>>) -> Seq<
    Result<Seq<Seq<char>>, ReadFault>,
> {
    Seq::new(records.len(), |i: int| record_view(records[i]))
}

/// What the `csv` crate reads from `content` with its default settings:
/// for each row after the header, in order, the fields of the record, or
/// the fault where it reports an error for that row: `Source` for an error
/// of reading, `Row` for any other.
pub uninterp spec fn csv_records(content: Seq<u8>) -> Seq<Result<Seq<Seq<char>>, ReadFault>>;

/// `csv::Reader::from_reader` on `content`, then `csv::Reader::into_records`
/// to its end, with `csv::Error::is_io_error` on each error.
///
/// The reader splits the bytes by its own rules and depends on nothing else,
/// so the items that it yields are a function of `content`. The contract
/// names that function and claims nothing more of it.
#[verifier::external_body]
fn read_records(content: &[u8]) -> (records: Vec<Result<Vec<String>, ReadFault>>)
    ensures
        records_view(records@) == csv_records(content@),
{
    csv::Reader::from_reader(content).into_records().map(
        |record|
            match record {
                Ok(fields) => Ok(fields.iter().map(String::from).collect()),
                Err(error) if error.is_io_error() => Err(ReadFault::Source),
                Err(_) => Err(ReadFault::Row),
            },
    ).collect()
}

/// Makes a location of the fields of one record.
///
/// Fails with `MalformedRow` where there are fewer than ten fields, and
/// otherwise with `InvalidCoordinate` where the fifth or the sixth field is
/// no coordinate. Fields beyond the tenth are ignored.
pub fn location_from_row(fields: &Vec<String>) -> (result: Result<Location, LoadError>)
    ensures
        match result {
            Ok(location) => row_error(fields.deep_view()) is None && location@ == location_of(
                fields.deep_view(),
            ),
            Err(error) => row_error(fields.deep_view()) == Some(error),
        },
{
    if fields.len() < FIELDS {
        return Err(LoadError::MalformedRow);
    }
    let latitude = match parse_coordinate(fields[4].as_str()) {
        Some(units) => units,
        None => {
            return Err(LoadError::InvalidCoordinate);
        },
    };
    let longitude = match parse_coordinate(fields[5].as_str()) {
        Some(units) => units,
        None => {
            return Err(LoadError::InvalidCoordinate);
        },
    };
    Ok(
        Location {
            sub_district_th: fields[8].clone(),
            sub_district_en: fields[9].clone(),
            district_th: fields[2].clone(),
            district_en: fields[3].clone(),
            latitude,
            longitude,
            province_th: fields[6].clone(),
            province_en: fields[7].clone(),
            address: fields[0].clone(),
            address_en: fields[1].clone(),
        },
    )
}

/// Makes the locations of the records that the reader handed out.
///
/// Returns one location per record, in order, where every record was read
/// and makes a location. Otherwise returns the error of the first record
/// that does not: `SourceUnavailable` where reading failed, `MalformedRow`
/// for another fault of the reader, else what [`location_from_row`] says of
/// the record.
pub fn locations_from_records(records: &Vec<Result<Vec<String>, ReadFault>>) -> (result: Result<
    Vec<Location>,
    LoadError,
>)
    ensures
        load_outcome(records_view(records@), loaded(result)),
{
    let ghost views = records_view(records@);
    let mut locations: Vec<Location> = Vec::new();
    let mut i: usize = 0;
    while i < records.len()
        invariant
            i <= records@.len(),
            views == records_view(records@),
            locations@.len() == i,
            forall|j: int|
                0 <= j < i ==> record_error(#[trigger] views[j]) is None && locations@[j]@
                    == location_of(views[j]->Ok_0),
        decreases records@.len() - i,
    {
        match &records[i] {
            Err(ReadFault::Source) => {
                assert(record_error(views[i as int]) == Some(LoadError::SourceUnavailable));
                return Err(LoadError::SourceUnavailable);
            },
            Err(ReadFault::Row) => {
                assert(record_error(views[i as int]) == Some(LoadError::MalformedRow));
                return Err(LoadError::MalformedRow);
            },
            Ok(fields) => {
                match location_from_row(fields) {
                    Err(error) => {
                        assert(record_error(views[i as int]) == Some(error));
                        return Err(error);
                    },
                    Ok(location) => {
                        locations.push(location);
                    },
                }
            },
        }
        i = i + 1;
    }
    Ok(locations)
}

/// Loads the locations that `content` holds as comma-separated text.
///
/// Returns one location per row after the header, in the order of the rows,
/// or the error of the first row that does not make a location; then no
/// location is returned at all.
pub fn load_geolocation(content: &[u8]) -> (result: Result<Vec<Location>, LoadError>)
    ensures
        load_outcome(csv_records(content@), loaded(result)),
{
    let records = read_records(content);
    locations_from_records(&records)
}

/// Loading is a function of the records: two outcomes of the same records
/// are the same outcome.
pub proof fn load_outcome_is_unique(
    records: Seq<Result<Seq<Seq<char>>, ReadFault>>,
    first: Result<Seq<LocationView>, LoadError>,
    second: Result<Seq<LocationView>, LoadError>,
)
    requires
        load_outcome(records, first),
        load_outcome(records, second),
    ensures
        first == second,
{
    match (first, second) {
        (Ok(a), Ok(b)) => {
            assert forall|i: int| 0 <= i < a.len() implies a[i] == b[i] by {
                assert(a[i] == location_of(records[i]->Ok_0));
            }
            assert(a =~= b);
        },
        (Err(a), Err(b)) => {
            let k = choose|k: int|
                {
                    &&& 0 <= k < records.len()
                    &&& record_error(#[trigger] records[k]) == Some(a)
                    &&& forall|j: int| 0 <= j < k ==> record_error(#[trigger] records[j]) is None
                };
            let m = choose|m: int|
                {
                    &&& 0 <= m < records.len()
                    &&& record_error(#[trigger] records[m]) == Some(b)
                    &&& forall|j: int| 0 <= j < m ==> record_error(#[trigger] records[j]) is None
                };
            assert(k == m) by {
                if k < m {
                    assert(record_error(records[k]) is None);
                }
                if m < k {
                    assert(record_error(records[m]) is None);
                }
            }
        },
        (Ok(a), Err(b)) => {
            let m = choose|m: int|
                0 <= m < records.len() && record_error(#[trigger] records[m]) == Some(b);
            assert(record_error(records[m]) is None);
        },
        (Err(a), Ok(b)) => {
            let k = choose|k: int|
                0 <= k < records.len() && record_error(#[trigger] records[k]) == Some(a);
            assert(record_error(records[k]) is None);
        },
    }
}

/// A load that fails returns no location, and a load fails exactly where
/// some record has a fault.
pub proof fn load_is_all_or_nothing(
    records: Seq<Result<Seq<Seq<char>>, ReadFault>>,
    outcome: Result<Seq<LocationView>, LoadError>,
)
    requires
        load_outcome(records, outcome),
    ensures
        outcome is Err <==> exists|k: int|
            0 <= k < records.len() && record_error(#[trigger] records[k]) is Some,
        outcome is Ok ==> outcome->Ok_0.len() == records.len(),
{
}

} // verus!
