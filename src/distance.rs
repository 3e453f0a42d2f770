//! The surface distance between two points on the earth, by the planar
//! approximation of the FCC rules (47 CFR 73.208), in whole micrometres.
use crate::cosine::{abs, cos_fixed, cos_spec, lemma_cos_even, COS_ONE};
use crate::gps_position::GPSPosition;
use vstd::arithmetic::mul::lemma_mul_upper_bound;
use vstd::prelude::*;

verus! {

/// Distances are whole micrometres.
pub type Micrometer = u64;

/// Beyond this distance (475 km) the approximation is too coarse to be used.
pub const MAX_RANGE_UM: u64 = 475_000_000_000;

/// Billionths of a micrometre per micrometre: the unit of a factor
/// (micrometres per degree) times a difference (billionths of a degree), to
/// micrometres.
pub const RAW_PER_UM: u128 = 1_000_000_000;

/// What can go wrong on the way from a coordinate or a photo to a distance.
#[derive(Debug, Clone, PartialEq, Eq)]
pub enum ConvertError {
    /// The two points are farther apart than the approximation is good for.
    ResultToLarge,
    /// The metadata was read but holds no latitude or no longitude.
    ExifNotFound { path: Option<String> },
    /// The file could not be read, or it has no metadata section at all.
    ExifAbsent { file: String },
    /// A coordinate record does not hold three rational numbers with
    /// nonzero denominators.
    UnexpectedExifContent,
    /// The text is not a pair of decimal numbers.
    UnrecognisedString { input: String },
    /// A scan found no image file at all.
    NoImagesFound,
}

/// Kilometres per degree of latitude at the mean latitude, times `COS_ONE`
/// and in micrometres: `s` is the sum of the two latitudes, which is the mean
/// latitude in half-billionths of a degree.
pub open spec fn north_factor_scaled(s: int) -> int {
    111_132_090_000 * COS_ONE - 566_050_000 * cos_spec(2 * s) + 1_200_000 * cos_spec(4 * s)
}

/// Kilometres per degree of longitude at the mean latitude, as above.
pub open spec fn east_factor_scaled(s: int) -> int {
    111_415_130_000 * cos_spec(s) - 94_550_000 * cos_spec(3 * s) + 120_000 * cos_spec(5 * s)
}

/// The north-south component of the distance, in micrometres.
pub open spec fn north_um(p1: GPSPosition, p2: GPSPosition) -> int {
    let s = p1.lat + p2.lat;
    (north_factor_scaled(s) / (COS_ONE as int)) * abs(p2.lat - p1.lat) / (RAW_PER_UM as int)
}

/// The east-west component of the distance, in micrometres.
pub open spec fn east_um(p1: GPSPosition, p2: GPSPosition) -> int {
    let s = p1.lat + p2.lat;
    (abs(east_factor_scaled(s)) / (COS_ONE as int)) * abs(p2.lon - p1.lon) / (RAW_PER_UM as int)
}

/// The square of the distance in micrometres.
pub open spec fn distance_sq_um(p1: GPSPosition, p2: GPSPosition) -> int {
    north_um(p1, p2) * north_um(p1, p2) + east_um(p1, p2) * east_um(p1, p2)
}

/// The approximation holds for the two points.
pub open spec fn in_valid_range(p1: GPSPosition, p2: GPSPosition) -> bool {
    distance_sq_um(p1, p2) <= MAX_RANGE_UM * MAX_RANGE_UM
}

/// `r` is the integer square root of `n`.
pub open spec fn is_floor_sqrt(r: int, n: int) -> bool {
    0 <= r && r * r <= n < (r + 1) * (r + 1)
}

/// What `fcc_approximation` returns for two points.
pub open spec fn fcc_result(p1: GPSPosition, p2: GPSPosition, r: Result<u64, ConvertError>) -> bool {
    match r {
        Ok(d) => in_valid_range(p1, p2) && is_floor_sqrt(d as int, distance_sq_um(p1, p2)),
        Err(e) => !in_valid_range(p1, p2) && e == ConvertError::ResultToLarge,
    }
}

/// The integer square root of `n`, by bisection.
fn floor_sqrt(n: u128) -> (r: u64)
    requires
        n <= MAX_RANGE_UM * MAX_RANGE_UM,
    ensures
        is_floor_sqrt(r as int, n as int),
        r <= MAX_RANGE_UM,
{
    let mut lo: u64 = 0;
    let mut hi: u64 = MAX_RANGE_UM + 1;
    assert(n < hi * hi) by (nonlinear_arith)
        requires
            n <= MAX_RANGE_UM * MAX_RANGE_UM,
            hi == MAX_RANGE_UM + 1,
    ;
    while hi - lo > 1
        invariant
            lo < hi <= MAX_RANGE_UM + 1,
            lo * lo <= n,
            n < hi * hi,
        decreases hi - lo,
    {
        let mid: u64 = lo + (hi - lo) / 2;
        let mid_wide: u128 = mid as u128;
        assert(mid_wide <= 475_000_000_001);
        assert(mid_wide * mid_wide <= 475_000_000_001 * 475_000_000_001) by (nonlinear_arith)
            requires
                0 <= mid_wide <= 475_000_000_001,
        ;
        let mid_sq: u128 = mid_wide * mid_wide;
        if mid_sq <= n {
            lo = mid;
        } else {
            hi = mid;
        }
    }
    lo
}

/// The absolute difference of two coordinates.
fn abs_diff(a: i64, b: i64) -> (r: u128)
    ensures
        r == abs(b - a),
        r <= 18_446_744_073_709_551_615,
{
    let d: i128 = b as i128 - a as i128;
    if d < 0 {
        (-d) as u128
    } else {
        d as u128
    }
}

/// Calculate the distance between two points on earth over the surface, in
/// micrometres.
///
/// The factors for a degree of latitude and of longitude are taken at the mean
/// latitude. Beyond 475 km the approximation is too coarse, and the result is
/// `ResultToLarge`.
pub fn fcc_approximation(p1: &GPSPosition, p2: &GPSPosition) -> (r: Result<Micrometer, ConvertError>)
    ensures
        fcc_result(*p1, *p2, r),
{
    let s: i128 = p1.lat as i128 + p2.lat as i128;
    let sa: u128 = if s < 0 {
        (-s) as u128
    } else {
        s as u128
    };
    let c1 = cos_fixed(sa);
    let c2 = cos_fixed(2 * sa);
    let c3 = cos_fixed(3 * sa);
    let c4 = cos_fixed(4 * sa);
    let c5 = cos_fixed(5 * sa);
    proof {
        lemma_cos_even(s as int);
        lemma_cos_even(2 * s);
        lemma_cos_even(3 * s);
        lemma_cos_even(4 * s);
        lemma_cos_even(5 * s);
    }
    let north: i128 = 111_132_090_000 * COS_ONE - 566_050_000 * c2 + 1_200_000 * c4;
    let east: i128 = 111_415_130_000 * c1 - 94_550_000 * c3 + 120_000 * c5;
    assert(north == north_factor_scaled(s as int));
    assert(east == east_factor_scaled(s as int));
    let north_factor: u128 = (north / COS_ONE) as u128;
    let east_abs: u128 = if east < 0 {
        (-east) as u128
    } else {
        east as u128
    };
    let east_factor: u128 = east_abs / (COS_ONE as u128);
    let dlat = abs_diff(p1.lat, p2.lat);
    let dlon = abs_diff(p1.lon, p2.lon);
    proof {
        lemma_mul_upper_bound(north_factor as int, 112_000_000_000, dlat as int, 18_446_744_073_709_551_615);
        lemma_mul_upper_bound(east_factor as int, 112_000_000_000, dlon as int, 18_446_744_073_709_551_615);
    }
    let north_um_len: u128 = north_factor * dlat / RAW_PER_UM;
    let east_um_len: u128 = east_factor * dlon / RAW_PER_UM;
    assert(north_um_len == north_um(*p1, *p2));
    assert(east_um_len == east_um(*p1, *p2));
    if north_um_len > MAX_RANGE_UM as u128 || east_um_len > MAX_RANGE_UM as u128 {
        assert(distance_sq_um(*p1, *p2) > MAX_RANGE_UM * MAX_RANGE_UM) by (nonlinear_arith)
            requires
                north_um_len > MAX_RANGE_UM || east_um_len > MAX_RANGE_UM,
                distance_sq_um(*p1, *p2) == north_um_len * north_um_len + east_um_len * east_um_len,
        ;
        return Err(ConvertError::ResultToLarge);
    }
    proof {
        lemma_mul_upper_bound(north_um_len as int, MAX_RANGE_UM as int, north_um_len as int, MAX_RANGE_UM as int);
        lemma_mul_upper_bound(east_um_len as int, MAX_RANGE_UM as int, east_um_len as int, MAX_RANGE_UM as int);
    }
    let sq: u128 = north_um_len * north_um_len + east_um_len * east_um_len;
    if sq > (MAX_RANGE_UM as u128) * (MAX_RANGE_UM as u128) {
        return Err(ConvertError::ResultToLarge);
    }
    Ok(floor_sqrt(sq))
}

/// An integer has one integer square root.
pub proof fn lemma_floor_sqrt_unique(x: int, y: int, n: int)
    requires
        is_floor_sqrt(x, n),
        is_floor_sqrt(y, n),
    ensures
        x == y,
{
    if x < y {
        assert((x + 1) * (x + 1) <= y * y) by (nonlinear_arith)
            requires
                0 <= x < y,
        ;
    } else if y < x {
        assert((y + 1) * (y + 1) <= x * x) by (nonlinear_arith)
            requires
                0 <= y < x,
        ;
    }
}

/// The distance is symmetric: measured from `a` to `b` and from `b` to `a`,
/// the outcome is the same, a distance or the out-of-range error.
pub proof fn lemma_distance_symmetric(
    a: GPSPosition,
    b: GPSPosition,
    ab: Result<Micrometer, ConvertError>,
    ba: Result<Micrometer, ConvertError>,
)
    requires
        fcc_result(a, b, ab),
        fcc_result(b, a, ba),
    ensures
        ab == ba,
{
    assert(a.lat + b.lat == b.lat + a.lat);
    assert(abs(b.lat - a.lat) == abs(a.lat - b.lat));
    assert(abs(b.lon - a.lon) == abs(a.lon - b.lon));
    assert(north_um(a, b) == north_um(b, a));
    assert(east_um(a, b) == east_um(b, a));
    assert(distance_sq_um(a, b) == distance_sq_um(b, a));
    if let (Ok(x), Ok(y)) = (ab, ba) {
        lemma_floor_sqrt_unique(x as int, y as int, distance_sq_um(a, b));
    }
}

} // verus!
