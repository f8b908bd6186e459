//! The spatial index: a two-dimensional tree over the stored records and the
//! nearest-record query against it.
//!
//! Distances are straight lines in coordinate space, not paths on the globe.
//! Among records that are equally near, the one that the search of the tree
//! meets first is the answer; the sequence of records and the query point
//! decide which that is.
//! The tree belongs to the `kd_tree` crate; what this module relies on is
//! written in the contracts of [`build_tree`] and [`tree_nearest`].

use vstd::prelude::*;
use crate::location::Location;
use crate::location::LocationView;

verus! {

/// The largest size of a coordinate up to which distances are exact: the
/// squares of the differences between two such coordinates, and the sum of
/// two such squares, fit an `i128`. It stands for 400 billion degrees.
pub const REACH: i64 = 4_000_000_000_000_000_000;

/// `coordinate` is of a size up to [`REACH`].
pub open spec fn in_reach(coordinate: int) -> bool {
    -REACH <= coordinate <= REACH
}

/// Both coordinates of every record are in reach.
pub open spec fn all_in_reach(records: Seq<LocationView>) -> bool {
    forall|i: int|
        0 <= i < records.len() ==> in_reach((#[trigger] records[i]).latitude) && in_reach(
            records[i].longitude,
        )
}

/// Squared straight-line distance, in squared coordinate units, between a
/// record and the point (`lat`, `lng`).
pub open spec fn squared_distance(record: LocationView, lat: int, lng: int) -> int {
    (record.latitude - lat) * (record.latitude - lat) + (record.longitude - lng) * (
    record.longitude - lng)
}

/// `found` is a nearest record to the query (`lat`, `lng`) over `records`:
/// nothing where there are no records, otherwise one of the records, with no
/// other record closer to the query point.
pub open spec fn is_nearest(
    records: Seq<LocationView>,
    lat: int,
    lng: int,
    found: Option<LocationView>,
) -> bool {
    match found {
        None => records.len() == 0,
        Some(record) => {
            &&& records.contains(record)
            &&& forall|i: int|
                0 <= i < records.len() ==> squared_distance(record, lat, lng) <= squared_distance(
                    #[trigger] records[i],
                    lat,
                    lng,
                )
        },
    }
}

/// No two different records are both nearest to (`lat`, `lng`).
pub open spec fn tie_free(records: Seq<LocationView>, lat: int, lng: int) -> bool {
    forall|x: LocationView, y: LocationView|
        is_nearest(records, lat, lng, Some(x)) && is_nearest(records, lat, lng, Some(y)) ==> x
            == y
}

/// The tree of the `kd_tree` crate over the stored records, split by
/// latitude and longitude in turn. Only [`build_tree`] makes one, so every
/// value of this type is a tree that `kd_tree` arranged by [`Location::at`].
#[verifier::external_body]
pub struct RecordTree {
    tree: kd_tree::KdTreeN<Location, typenum::U2>,
}

/// The records that a tree holds, in the order in which it stores them.
pub uninterp spec fn tree_records(tree: RecordTree) -> Seq<LocationView>;

/// The order in which `kd_tree` stores the records that it is given in the
/// order `records`, when it builds a tree of them by latitude and longitude.
pub uninterp spec fn kd_stored(records: Seq<LocationView>) -> Seq<LocationView>;

/// The record that the search of `kd_tree` returns for the query point
/// (`lat`, `lng`) over a tree that stores its records in the order `stored`.
pub uninterp spec fn kd_found(stored: Seq<LocationView>, lat: int, lng: int) -> Option<
    LocationView,
>;

/// The answer to the query (`lat`, `lng`) over `records`: what the search
/// returns from the tree built of them.
pub open spec fn answer(records: Seq<LocationView>, lat: int, lng: int) -> Option<LocationView> {
    kd_found(kd_stored(records), lat, lng)
}

/// `kd_tree::KdTreeN::build_by_key`, keyed by [`Location::at`].
///
/// The call reorders the records it is given and keeps every one of them:
/// the tree holds the same records, each as often as the input did. The
/// order in which it stores them comes of comparing coordinates and of
/// nothing else, so it is a function of the records in their given order;
/// the contract names that function and does not say what it is.
#[verifier::external_body]
fn build_tree(locations: Vec<Location>) -> (tree: RecordTree)
    ensures
        tree_records(tree) == kd_stored(locations.deep_view()),
        tree_records(tree).to_multiset() == locations.deep_view().to_multiset(),
{
    RecordTree { tree: kd_tree::KdTreeN::build_by_key(locations, |location, k| location.at(k)) }
}

/// `kd_tree::KdSliceN::nearest_by`, with coordinates read by [`Location::at`].
///
/// The call returns nothing exactly for a tree without records. Otherwise it
/// returns a record of the tree such that no record of the tree has a smaller
/// squared distance to the query point: the search passes over a part of the
/// tree only where the splitting line alone is as far away as the best
/// record met so far. The search computes in `i128`, where the differences,
/// squares and sums of coordinates in reach are exact; beyond that it may
/// overflow, so such input is left out. Of several equally near records it
/// returns the one that it meets first, which the stored order and the query
/// point decide; the contract names that choice and does not say what it is.
#[verifier::external_body]
fn tree_nearest(tree: &RecordTree, lat: i64, lng: i64) -> (found: Option<&Location>)
    requires
        all_in_reach(tree_records(*tree)),
        in_reach(lat as int),
        in_reach(lng as int),
    ensures
        found.deep_view() == kd_found(tree_records(*tree), lat as int, lng as int),
        is_nearest(tree_records(*tree), lat as int, lng as int, found.deep_view()),
{
    tree.tree.nearest_by(&[lat as i128, lng as i128], |location, k| location.at(k)).map(
        |hit| hit.item,
    )
}

/// Reordering the records leaves the admissible answers to a query unchanged.
pub proof fn nearest_ignores_order(
    a: Seq<LocationView>,
    b: Seq<LocationView>,
    lat: int,
    lng: int,
    found: Option<LocationView>,
)
    requires
        a.to_multiset() == b.to_multiset(),
    ensures
        is_nearest(a, lat, lng, found) <==> is_nearest(b, lat, lng, found),
{
    a.to_multiset_ensures();
    b.to_multiset_ensures();
    if let Some(record) = found {
        assert(a.contains(record) <==> b.contains(record)) by {
            assert(a.contains(record) <==> a.to_multiset().count(record) > 0);
            assert(b.contains(record) <==> b.to_multiset().count(record) > 0);
        }
        if is_nearest(a, lat, lng, found) {
            assert forall|j: int| 0 <= j < b.len() implies squared_distance(record, lat, lng)
                <= squared_distance(#[trigger] b[j], lat, lng) by {
                assert(b.contains(b[j]));
                assert(a.to_multiset().count(b[j]) > 0);
                let i = choose|i: int| 0 <= i < a.len() && a[i] == b[j];
                assert(squared_distance(record, lat, lng) <= squared_distance(a[i], lat, lng));
            }
        }
        if is_nearest(b, lat, lng, found) {
            assert forall|i: int| 0 <= i < a.len() implies squared_distance(record, lat, lng)
                <= squared_distance(#[trigger] a[i], lat, lng) by {
                assert(a.contains(a[i]));
                assert(b.to_multiset().count(a[i]) > 0);
                let j = choose|j: int| 0 <= j < b.len() && b[j] == a[i];
                assert(squared_distance(record, lat, lng) <= squared_distance(b[j], lat, lng));
            }
        }
    }
}

/// Two queries at the same point over the same records, given in any two
/// orders, find the same record, unless different records tie for nearest.
pub proof fn nearest_is_order_independent(
    a: Seq<LocationView>,
    b: Seq<LocationView>,
    lat: int,
    lng: int,
    found_a: Option<LocationView>,
    found_b: Option<LocationView>,
)
    requires
        a.to_multiset() == b.to_multiset(),
        tie_free(a, lat, lng),
        is_nearest(a, lat, lng, found_a),
        is_nearest(b, lat, lng, found_b),
    ensures
        found_a == found_b,
{
    nearest_ignores_order(a, b, lat, lng, found_b);
    if found_a is None {
        assert(found_b is None) by {
            if let Some(record) = found_b {
                assert(a.contains(record));
            }
        }
    }
}

/// A query has one answer: two answers to the same sequence of records and
/// the same query point are equal, also where records tie for nearest.
pub proof fn answer_is_determined(
    records: Seq<LocationView>,
    lat: int,
    lng: int,
    first: Option<LocationView>,
    second: Option<LocationView>,
)
    requires
        first == answer(records, lat, lng),
        second == answer(records, lat, lng),
    ensures
        first == second,
{
}

/// A query at the exact position of a stored record finds a record at that
/// position, at distance zero. It finds that very record where every record
/// at the position equals it.
pub proof fn exact_match_is_found(records: Seq<LocationView>, i: int, found: Option<LocationView>)
    requires
        0 <= i < records.len(),
        is_nearest(records, records[i].latitude, records[i].longitude, found),
    ensures
        found is Some,
        found->0.latitude == records[i].latitude,
        found->0.longitude == records[i].longitude,
        squared_distance(found->0, records[i].latitude, records[i].longitude) == 0,
        (forall|j: int|
            0 <= j < records.len() && records[j].latitude == records[i].latitude
                && records[j].longitude == records[i].longitude ==> records[j] == records[i])
            ==> found == Some(records[i]),
{
    let lat = records[i].latitude;
    let lng = records[i].longitude;
    let record = found->0;
    let dx = record.latitude - lat;
    let dy = record.longitude - lng;
    assert(squared_distance(record, lat, lng) <= squared_distance(records[i], lat, lng));
    assert(squared_distance(records[i], lat, lng) == 0);
    assert(dx * dx + dy * dy <= 0 ==> dx == 0 && dy == 0) by (nonlinear_arith);
    let j = choose|j: int| 0 <= j < records.len() && records[j] == record;
    assert(records[j] == record);
}

/// Tells whether the records and the query point are in reach, which is
/// what [`find_geolocation`] asks of them.
pub fn within_reach(locations: &Vec<Location>, lat: i64, lng: i64) -> (within: bool)
    ensures
        within <==> all_in_reach(locations.deep_view()) && in_reach(lat as int) && in_reach(
            lng as int,
        ),
{
    if lat < -REACH || lat > REACH || lng < -REACH || lng > REACH {
        return false;
    }
    let ghost records = locations.deep_view();
    let mut i: usize = 0;
    while i < locations.len()
        invariant
            i <= locations@.len(),
            records == locations.deep_view(),
            forall|j: int|
                0 <= j < i ==> in_reach((#[trigger] records[j]).latitude) && in_reach(
                    records[j].longitude,
                ),
        decreases locations@.len() - i,
    {
        let location = &locations[i];
        if location.latitude < -REACH || location.latitude > REACH || location.longitude < -REACH
            || location.longitude > REACH {
            assert(!in_reach(records[i as int].latitude) || !in_reach(records[i as int].longitude));
            return false;
        }
        i = i + 1;
    }
    true
}

/// Finds the record nearest to the point (`lat`, `lng`), both in units of
/// 10^-7 degree, by squared straight-line distance in coordinate space.
///
/// The records are arranged in a fresh tree, the tree is searched once, and
/// a copy of the record that the search returns is the answer. Without
/// records there is nothing to find. Where several records are equally near,
/// the search returns the one that it meets first. Any point in reach is a
/// query, on the globe or not.
pub fn find_geolocation(locations: Vec<Location>, lat: i64, lng: i64) -> (found: Option<Location>)
    requires
        all_in_reach(locations.deep_view()),
        in_reach(lat as int),
        in_reach(lng as int),
    ensures
        found.deep_view() == answer(locations.deep_view(), lat as int, lng as int),
        is_nearest(locations.deep_view(), lat as int, lng as int, found.deep_view()),
        locations@.len() == 0 ==> found is None,
        locations@.len() > 0 ==> found is Some && exists|i: int|
            0 <= i < locations@.len() && found->0@ == (#[trigger] locations@[i])@,
{
    let ghost records = locations.deep_view();
    let tree = build_tree(locations);
    proof {
        tree_records(tree).to_multiset_ensures();
        records.to_multiset_ensures();
        assert forall|i: int| 0 <= i < tree_records(tree).len() implies in_reach(
            (#[trigger] tree_records(tree)[i]).latitude,
        ) && in_reach(tree_records(tree)[i].longitude) by {
            let record = tree_records(tree)[i];
            assert(tree_records(tree).contains(record));
            assert(records.to_multiset().count(record) > 0);
            let k = choose|k: int| 0 <= k < records.len() && records[k] == record;
        }
    }
    let found = match tree_nearest(&tree, lat, lng) {
        None => None,
        Some(record) => Some(record.clone()),
    };
    proof {
        nearest_ignores_order(tree_records(tree), records, lat as int, lng as int, found.deep_view());
        if found is Some {
            let i = choose|i: int| 0 <= i < records.len() && records[i] == found->0@;
            assert(records[i] == locations@[i]@);
        }
    }
    found
}

} // verus!
