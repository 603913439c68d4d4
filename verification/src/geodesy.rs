//! Geodesic helper: haversine distance between two points given as
//! decimal-degree strings, and the two-decimal rounding applied to group
//! distances before they are used as sort keys.
//!
//! A distance is returned as the IEEE-754 bit pattern of the value in
//! metres. The haversine distance is never negative, so ordering the
//! returned bit patterns as unsigned integers orders the distances
//! themselves; the library compares and stores only these bit patterns.
use vstd::prelude::*;

verus! {

/// The haversine distance, as a metre bit pattern, between the two points
/// whose decimal-degree coordinates are given in (lon1, lat1, lon2, lat2)
/// order. A function of the four coordinate strings alone; a string that
/// is not a decimal number stands for zero degrees.
pub uninterp spec fn haversine_of(
    lon1: Seq<char>,
    lat1: Seq<char>,
    lon2: Seq<char>,
    lat2: Seq<char>,
) -> u64;

/// The given metre bit pattern rounded to two decimal places.
pub uninterp spec fn round_cents_of(d: u64) -> u64;

/// The bit pattern of the largest finite distance; stands in for the
/// distance of a stop that has no platforms.
pub const MAX_DISTANCE_BITS: u64 = 0x7FEF_FFFF_FFFF_FFFF;

/// Relies on geo's `Haversine.distance` (`Distance` for `HaversineMeasure`):
/// the great-circle distance in metres between the two points, a
/// deterministic function of the two points alone, never negative; and on
/// `str::parse`, with an unparseable coordinate read as zero degrees.
#[verifier::external_body]
pub fn haversine_distance_bits(lon1: &str, lat1: &str, lon2: &str, lat2: &str) -> (r: u64)
    ensures
        r == haversine_of(lon1@, lat1@, lon2@, lat2@),
{
    let p1: geo::Point = geo::Point::new(
        lon1.parse().unwrap_or_default(),
        lat1.parse().unwrap_or_default(),
    );
    let p2: geo::Point = geo::Point::new(
        lon2.parse().unwrap_or_default(),
        lat2.parse().unwrap_or_default(),
    );
    geo::Distance::distance(&geo::Haversine, p1, p2).to_bits()
}

/// Relies on geo's `Haversine.distance` as above, then on std's
/// fixed-precision formatting (`{:.2}`) and `str::parse` to round the
/// distance to two decimal places before taking its bit pattern.
#[verifier::external_body]
pub fn haversine_rounded_bits(lon1: &str, lat1: &str, lon2: &str, lat2: &str) -> (r: u64)
    ensures
        r == round_cents_of(haversine_of(lon1@, lat1@, lon2@, lat2@)),
{
    let p1: geo::Point = geo::Point::new(
        lon1.parse().unwrap_or_default(),
        lat1.parse().unwrap_or_default(),
    );
    let p2: geo::Point = geo::Point::new(
        lon2.parse().unwrap_or_default(),
        lat2.parse().unwrap_or_default(),
    );
    let d = geo::Distance::distance(&geo::Haversine, p1, p2);
    format!("{:.2}", d).parse().unwrap_or(d).to_bits()
}

} // verus!
