//! Our type for GPS/WGS84 coordinates with the corresponding methods.
use crate::coordinate_text::{
    decimal_value, is_only_separator, only_separator, parse_spec, strip_blank_chars,
    NANOS_PER_DEGREE,
};
use crate::distance::{fcc_approximation, fcc_result, ConvertError, Micrometer};
use crate::metadata::{FieldContext, FieldTag, FieldValue, MetadataField, Rational};
use vstd::arithmetic::div_mod::lemma_div_is_ordered_by_denominator;
use vstd::prelude::*;

verus! {

/// WGS84 coordinates in whole billionths of a degree.
///
/// No validation or normalisation is done: any pair of values is a position.
#[derive(Debug, Clone, Copy, PartialEq, Eq, Structural)]
pub struct GPSPosition {
    /// Latitude of the coordinate, in billionths of a degree.
    pub lat: i64,
    /// Longitude of the coordinate, in billionths of a degree.
    pub lon: i64,
}

/// `r` in billionths of a degree when it counts units of `1 / per_degree`
/// degree (1 for degrees, 60 for minutes, 3600 for seconds), rounded down.
pub open spec fn rational_nanos(r: Rational, per_degree: int) -> int {
    (r.num * NANOS_PER_DEGREE) / (r.denom * per_degree)
}

/// A degree/minute/second triple in billionths of a degree.
pub open spec fn dms_nanos(r: Seq<Rational>) -> int {
    rational_nanos(r[0], 1) + rational_nanos(r[1], 60) + rational_nanos(r[2], 3600)
}

/// The value is a degree/minute/second triple of finite rationals.
pub open spec fn is_dms(v: FieldValue) -> bool {
    match v {
        FieldValue::Rational(r) => r@.len() == 3 && r@[0].denom != 0 && r@[1].denom != 0
            && r@[2].denom != 0,
        FieldValue::Other => false,
    }
}

/// The angle of a degree/minute/second value.
pub open spec fn value_nanos(v: FieldValue) -> int {
    match v {
        FieldValue::Rational(r) => dms_nanos(r@),
        FieldValue::Other => 0,
    }
}

/// The record takes part in the extraction: a GPS record of the main image.
pub open spec fn is_gps_record(f: MetadataField) -> bool {
    !f.thumbnail && f.context == FieldContext::Gps
}

/// The latitude and longitude found in `fs`, each the last one found, or
/// `None` once a coordinate record holds an unexpected value.
pub open spec fn extract_state(fs: Seq<MetadataField>) -> Option<(Option<int>, Option<int>)>
    decreases fs.len(),
{
    if fs.len() == 0 {
        Some((None, None))
    } else {
        match extract_state(fs.drop_last()) {
            None => None,
            Some((lat, lon)) => {
                let f = fs.last();
                if !is_gps_record(f) {
                    Some((lat, lon))
                } else {
                    match f.tag {
                        FieldTag::GPSLatitude => if is_dms(f.value) {
                            Some((Some(value_nanos(f.value)), lon))
                        } else {
                            None
                        },
                        FieldTag::GPSLongitude => if is_dms(f.value) {
                            Some((lat, Some(value_nanos(f.value))))
                        } else {
                            None
                        },
                        FieldTag::Other(_) => Some((lat, lon)),
                    }
                }
            },
        }
    }
}

/// What `from_exif` returns for the records `fs`.
pub open spec fn from_exif_result(fs: Seq<MetadataField>, r: Result<GPSPosition, ConvertError>) -> bool {
    match extract_state(fs) {
        None => r == Err::<GPSPosition, ConvertError>(ConvertError::UnexpectedExifContent),
        Some((Some(lat), Some(lon))) => r == Ok::<GPSPosition, ConvertError>(
            GPSPosition { lat: lat as i64, lon: lon as i64 },
        ),
        Some(_) => r == Err::<GPSPosition, ConvertError>(ConvertError::ExifNotFound { path: None }),
    }
}

/// Once a coordinate record with an unexpected value is met, no later record
/// changes the outcome.
proof fn lemma_extract_failure_stays(fs: Seq<MetadataField>, i: int)
    requires
        0 <= i <= fs.len(),
        extract_state(fs.subrange(0, i)) is None,
    ensures
        extract_state(fs) is None,
    decreases fs.len() - i,
{
    if i < fs.len() {
        assert(fs.subrange(0, i + 1).drop_last() == fs.subrange(0, i));
        lemma_extract_failure_stays(fs, i + 1);
    } else {
        assert(fs.subrange(0, i) == fs);
    }
}

/// The position that the records give, if any.
pub open spec fn metadata_position(m: Option<Vec<MetadataField>>) -> Option<GPSPosition> {
    match m {
        None => None,
        Some(fs) => match extract_state(fs@) {
            Some((Some(lat), Some(lon))) => Some(GPSPosition { lat: lat as i64, lon: lon as i64 }),
            _ => None,
        },
    }
}

/// What `parse_from_string` returns for the text `input`.
pub open spec fn parse_result(input: Seq<char>, r: Result<GPSPosition, ConvertError>) -> bool {
    match parse_spec(input) {
        Some((lat, lon)) => r == Ok::<GPSPosition, ConvertError>(
            GPSPosition { lat: lat as i64, lon: lon as i64 },
        ),
        None => match r {
            Err(ConvertError::UnrecognisedString { input: text }) => text@ == input,
            _ => false,
        },
    }
}

/// One rational as billionths of a degree, `per_degree` of them to the degree.
fn rational_to_nanos(r: Rational, per_degree: u128) -> (n: u128)
    requires
        r.denom != 0,
        1 <= per_degree <= 3600,
    ensures
        n == rational_nanos(r, per_degree as int),
        n <= (r.num * NANOS_PER_DEGREE) / (per_degree as int),
{
    let top: u128 = (r.num as u128) * (NANOS_PER_DEGREE as u128);
    assert(per_degree <= (r.denom as u128) * per_degree <= 4_294_967_295 * 3600) by (nonlinear_arith)
        requires
            1 <= r.denom <= 4_294_967_295,
            1 <= per_degree <= 3600,
    ;
    let bottom: u128 = (r.denom as u128) * per_degree;
    proof {
        lemma_div_is_ordered_by_denominator(top as int, per_degree as int, bottom as int);
    }
    top / bottom
}

/// Convert a value from degree, minute, second into billionths of a degree.
pub fn value_to_float(val: &FieldValue) -> (r: Result<i64, ConvertError>)
    ensures
        is_dms(*val) ==> r == Ok::<i64, ConvertError>(value_nanos(*val) as i64),
        is_dms(*val) ==> value_nanos(*val) <= 4_368_314_599_999_999_999,
        !is_dms(*val) ==> r == Err::<i64, ConvertError>(ConvertError::UnexpectedExifContent),
{
    match val {
        FieldValue::Rational(rat) => {
            if rat.len() != 3 || rat[0].denom == 0 || rat[1].denom == 0 || rat[2].denom == 0 {
                return Err(ConvertError::UnexpectedExifContent);
            }
            let d = rational_to_nanos(rat[0], 1);
            let m = rational_to_nanos(rat[1], 60);
            let s = rational_to_nanos(rat[2], 3600);
            let total: u128 = d + m + s;
            Ok(total as i64)
        },
        FieldValue::Other => Err(ConvertError::UnexpectedExifContent),
    }
}

impl GPSPosition {
    /// Calculate the distance in micrometres between two points.
    pub fn distance(&self, other: &GPSPosition) -> (r: Result<Micrometer, ConvertError>)
        ensures
            fcc_result(*self, *other, r),
    {
        fcc_approximation(self, other)
    }

    /// Try to read a `GPSPosition` from the metadata records of a photo.
    ///
    /// Only GPS records of the main image count. The last latitude and the last
    /// longitude found are taken; a coordinate record that is not a degree,
    /// minute, second triple stops the search with `UnexpectedExifContent`.
    pub fn from_exif(fields: &[MetadataField]) -> (r: Result<GPSPosition, ConvertError>)
        ensures
            from_exif_result(fields@, r),
    {
        let mut lat: Option<i64> = None;
        let mut lon: Option<i64> = None;
        let mut i: usize = 0;
        while i < fields.len()
            invariant
                0 <= i <= fields@.len(),
                extract_state(fields@.subrange(0, i as int)) == Some(
                    (
                        match lat {
                            Some(v) => Some(v as int),
                            None => None::<int>,
                        },
                        match lon {
                            Some(v) => Some(v as int),
                            None => None::<int>,
                        },
                    ),
                ),
            decreases fields@.len() - i,
        {
            let f = &fields[i];
            assert(fields@.subrange(0, i + 1).drop_last() == fields@.subrange(0, i as int));
            if !f.thumbnail && f.context == FieldContext::Gps {
                match f.tag {
                    FieldTag::GPSLatitude => {
                        match value_to_float(&f.value) {
                            Ok(v) => {
                                lat = Some(v);
                            },
                            Err(e) => {
                                proof {
                                    lemma_extract_failure_stays(fields@, i + 1);
                                }
                                return Err(e);
                            },
                        }
                    },
                    FieldTag::GPSLongitude => {
                        match value_to_float(&f.value) {
                            Ok(v) => {
                                lon = Some(v);
                            },
                            Err(e) => {
                                proof {
                                    lemma_extract_failure_stays(fields@, i + 1);
                                }
                                return Err(e);
                            },
                        }
                    },
                    FieldTag::Other(_) => {},
                }
            }
            i = i + 1;
        }
        assert(fields@.subrange(0, fields@.len() as int) == fields@);
        match (lat, lon) {
            (Some(la), Some(lo)) => Ok(GPSPosition { lat: la, lon: lo }),
            _ => Err(ConvertError::ExifNotFound { path: None }),
        }
    }

    /// Parse a position from a text such as `"46.605243, 14.296923"` or
    /// `"45.212291; -79.327838"`.
    ///
    /// Blanks are dropped wherever they stand. What is left must be two decimal
    /// numbers of degrees, each with an optional sign, joined by one comma or
    /// one semicolon. Digits past the ninth after the point are dropped. Any
    /// other text gives `UnrecognisedString` with the input.
    pub fn parse_from_string(input: &str) -> (r: Result<GPSPosition, ConvertError>)
        ensures
            parse_result(input@, r),
    {
        let t = strip_blank_chars(input);
        match only_separator(&t) {
            None => Err(ConvertError::UnrecognisedString { input: input.to_owned() }),
            Some(p) => {
                proof {
                    let q = choose|q: int| is_only_separator(t@, q);
                    if q != p as int {
                        assert(!crate::coordinate_text::is_separator(t@[q]));
                    }
                }
                let lat = decimal_value(&t, 0, p);
                let lon = decimal_value(&t, p + 1, t.len());
                match (lat, lon) {
                    (Some(a), Some(b)) => Ok(GPSPosition { lat: a, lon: b }),
                    _ => Err(ConvertError::UnrecognisedString { input: input.to_owned() }),
                }
            },
        }
    }

    /// The position of the photo at `path`, from what its metadata reader
    /// returned: `None` where the file could not be read or has no metadata
    /// section.
    ///
    /// Where there is no position, the error tells why: `ExifAbsent` where
    /// nothing was read, `ExifNotFound` where the records hold no latitude or no
    /// longitude, `UnexpectedExifContent` where a coordinate record is malformed.
    pub fn from_image_path(path: &String, metadata: &Option<Vec<MetadataField>>) -> (r: Result<
        GPSPosition,
        ConvertError,
    >)
        ensures
            match metadata_position(*metadata) {
                Some(p) => r == Ok::<GPSPosition, ConvertError>(p),
                None => match r {
                    Ok(_) => false,
                    Err(ConvertError::ExifAbsent { file }) => metadata is None && file@ == path@,
                    Err(ConvertError::ExifNotFound { path: Some(p) }) => metadata is Some && p@
                        == path@,
                    Err(ConvertError::UnexpectedExifContent) => metadata is Some,
                    Err(_) => false,
                },
            },
            match *metadata {
                Some(fs) => match extract_state(fs@) {
                    None => r == Err::<GPSPosition, ConvertError>(
                        ConvertError::UnexpectedExifContent,
                    ),
                    Some((Some(_), Some(_))) => r is Ok,
                    Some(_) => match r {
                        Err(ConvertError::ExifNotFound { path: Some(p) }) => p@ == path@,
                        _ => false,
                    },
                },
                None => true,
            },
    {
        match metadata {
            None => Err(ConvertError::ExifAbsent { file: path.clone() }),
            Some(fields) => match GPSPosition::from_exif(fields.as_slice()) {
                Ok(p) => Ok(p),
                Err(ConvertError::UnexpectedExifContent) => Err(ConvertError::UnexpectedExifContent),
                Err(_) => Err(ConvertError::ExifNotFound { path: Some(path.clone()) }),
            },
        }
    }
}

} // verus!
