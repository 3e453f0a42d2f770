use fencer_lib::gps_position::value_to_float;
use fencer_lib::metadata::{FieldContext, FieldTag, FieldValue, MetadataField, Rational};
use fencer_lib::{ConvertError, GPSPosition};

const KLAGENFURT_DD: GPSPosition = GPSPosition {
    lat: 46_605_243_000,
    lon: 14_296_923_000,
};
const UTTERSON_DD: GPSPosition = GPSPosition {
    lat: 45_212_291_000,
    lon: -79_327_838_000,
};
const CONVERT_EPS: f64 = 1.0e-8;

fn rat(num: u32, denom: u32) -> Rational {
    Rational { num, denom }
}

fn gps(tag: FieldTag, value: FieldValue) -> MetadataField {
    MetadataField {
        tag,
        context: FieldContext::Gps,
        thumbnail: false,
        value,
    }
}

fn klagenfurt_lat() -> FieldValue {
    FieldValue::Rational(vec![rat(46, 1), rat(36, 1), rat(188748, 10000)])
}

fn klagenfurt_lon() -> FieldValue {
    FieldValue::Rational(vec![rat(14, 1), rat(17, 1), rat(489228, 10000)])
}

#[test]
fn gps_position_test_value_to_float_ok_pos_pos() {
    let lat = value_to_float(&klagenfurt_lat()).unwrap();
    let lon = value_to_float(&klagenfurt_lon()).unwrap();
    assert!(((KLAGENFURT_DD.lat - lat) as f64 / 1e9).abs() < CONVERT_EPS);
    assert!(((KLAGENFURT_DD.lon - lon) as f64 / 1e9).abs() < CONVERT_EPS);
}

#[test]
fn dms_values_convert_exactly() {
    assert_eq!(value_to_float(&klagenfurt_lat()), Ok(46_605_243_000));
    // 14 + 17/60 + 48.9228/3600 = 14.2969229999..., rounded down
    assert_eq!(value_to_float(&klagenfurt_lon()), Ok(14_296_922_999));
}

#[test]
fn dms_value_of_wrong_shape_is_rejected() {
    let two = FieldValue::Rational(vec![rat(46, 1), rat(36, 1)]);
    assert_eq!(value_to_float(&two), Err(ConvertError::UnexpectedExifContent));
    let zero = FieldValue::Rational(vec![rat(46, 1), rat(36, 0), rat(1, 1)]);
    assert_eq!(value_to_float(&zero), Err(ConvertError::UnexpectedExifContent));
    assert_eq!(
        value_to_float(&FieldValue::Other),
        Err(ConvertError::UnexpectedExifContent)
    );
}

#[test]
fn largest_rationals_fit() {
    let max = FieldValue::Rational(vec![
        rat(u32::MAX, 1),
        rat(u32::MAX, 1),
        rat(u32::MAX, 1),
    ]);
    let expected: i64 = 4_294_967_295_000_000_000 + 4_294_967_295_000_000_000 / 60
        + 4_294_967_295_000_000_000 / 3600;
    assert_eq!(value_to_float(&max), Ok(expected));
}

#[test]
fn from_exif_reads_both_coordinates() {
    let fields = vec![
        gps(FieldTag::Other(0), FieldValue::Other),
        gps(FieldTag::GPSLatitude, klagenfurt_lat()),
        gps(FieldTag::GPSLongitude, klagenfurt_lon()),
    ];
    assert_eq!(
        GPSPosition::from_exif(&fields),
        Ok(GPSPosition {
            lat: 46_605_243_000,
            lon: 14_296_922_999
        })
    );
}

#[test]
fn from_exif_skips_thumbnail_and_other_groups() {
    let mut thumb = gps(FieldTag::GPSLongitude, klagenfurt_lon());
    thumb.thumbnail = true;
    let mut other = gps(FieldTag::GPSLongitude, klagenfurt_lon());
    other.context = FieldContext::Other;
    let fields = vec![gps(FieldTag::GPSLatitude, klagenfurt_lat()), thumb, other];
    assert_eq!(
        GPSPosition::from_exif(&fields),
        Err(ConvertError::ExifNotFound { path: None })
    );
}

#[test]
fn from_exif_rejects_bad_shape() {
    let fields = vec![
        gps(FieldTag::GPSLatitude, FieldValue::Other),
        gps(FieldTag::GPSLongitude, klagenfurt_lon()),
    ];
    assert_eq!(
        GPSPosition::from_exif(&fields),
        Err(ConvertError::UnexpectedExifContent)
    );
}

#[test]
fn from_exif_on_no_records() {
    assert_eq!(
        GPSPosition::from_exif(&[]),
        Err(ConvertError::ExifNotFound { path: None })
    );
}

#[test]
fn parse_string_1() {
    let inp = "46.605243, 14.296923";
    let pos = GPSPosition::parse_from_string(inp).unwrap();
    assert_eq!(KLAGENFURT_DD, pos);
}

#[test]
fn parse_string_2() {
    let inp = "45.212291; -79.327838";
    let pos = GPSPosition::parse_from_string(inp).unwrap();
    assert_eq!(UTTERSON_DD, pos);
}

#[test]
fn parse_string_neg_1() {
    let inp = "46.605243 14.296923";
    let pos = GPSPosition::parse_from_string(inp);
    assert_eq!(
        Err(ConvertError::UnrecognisedString {
            input: inp.to_string()
        }),
        pos
    );
}

#[test]
fn parse_string_neg_2() {
    let inp = "45.212291;";
    let pos = GPSPosition::parse_from_string(inp);
    assert_eq!(
        Err(ConvertError::UnrecognisedString {
            input: inp.to_string()
        }),
        pos
    );
}

#[test]
fn parse_accepts_blanks_signs_and_short_forms() {
    assert_eq!(
        GPSPosition::parse_from_string(" \t+12.5 ;\n-9.22 "),
        Ok(GPSPosition {
            lat: 12_500_000_000,
            lon: -9_220_000_000
        })
    );
    assert_eq!(
        GPSPosition::parse_from_string("4 6,.5"),
        Ok(GPSPosition {
            lat: 46_000_000_000,
            lon: 500_000_000
        })
    );
    assert_eq!(
        GPSPosition::parse_from_string("7.,0"),
        Ok(GPSPosition {
            lat: 7_000_000_000,
            lon: 0
        })
    );
}

#[test]
fn parse_drops_digits_past_the_ninth() {
    assert_eq!(
        GPSPosition::parse_from_string("0.1234567899,-0.0000000019"),
        Ok(GPSPosition {
            lat: 123_456_789,
            lon: -1
        })
    );
}

#[test]
fn parse_rejects_bad_texts() {
    for inp in [
        "", ",", "1,2,3", "1;2;3", "a,b", "1.2.3,4", "inf,1", "NaN,1", "e5,2", "1e,2", "1e+,2", "1.5e5e1,2", "1e5.0,2", ".,1", "-,1",
        "1,+", "--1,2", "1,2x", "45.212291",
    ] {
        assert_eq!(
            GPSPosition::parse_from_string(inp),
            Err(ConvertError::UnrecognisedString {
                input: inp.to_string()
            }),
            "{}",
            inp
        );
    }
}

#[test]
fn parse_accepts_exponents() {
    assert_eq!(
        GPSPosition::parse_from_string("1e5,1"),
        Ok(GPSPosition {
            lat: 100_000_000_000_000,
            lon: 1_000_000_000
        })
    );
    assert_eq!(
        GPSPosition::parse_from_string("4.6605243E1; -7932.7838e-2"),
        Ok(GPSPosition {
            lat: 46_605_243_000,
            lon: -79_327_838_000
        })
    );
    assert_eq!(
        GPSPosition::parse_from_string("1e-9,1e-10"),
        Ok(GPSPosition { lat: 1, lon: 0 })
    );
    assert_eq!(
        GPSPosition::parse_from_string("0e99999999999999999999999,.5E+1"),
        Ok(GPSPosition {
            lat: 0,
            lon: 5_000_000_000
        })
    );
    assert_eq!(
        GPSPosition::parse_from_string("1e-99999999999999999999999,2."),
        Ok(GPSPosition {
            lat: 0,
            lon: 2_000_000_000
        })
    );
    assert!(GPSPosition::parse_from_string("9e9,0").is_ok());
    assert!(GPSPosition::parse_from_string("1e10,0").is_err());
    assert!(GPSPosition::parse_from_string("1e99999999999999999999999,0").is_err());
}

#[test]
fn parse_strips_unicode_blanks() {
    assert_eq!(
        GPSPosition::parse_from_string("\u{2003}1,\u{a0}2\u{3000}\u{85}"),
        Ok(GPSPosition {
            lat: 1_000_000_000,
            lon: 2_000_000_000
        })
    );
}

#[test]
fn parse_range_limit() {
    assert_eq!(
        GPSPosition::parse_from_string("9223372036.854775807,-9223372036.854775807"),
        Ok(GPSPosition {
            lat: i64::MAX,
            lon: -i64::MAX
        })
    );
    assert!(GPSPosition::parse_from_string("9223372036.854775808,0").is_err());
    assert!(GPSPosition::parse_from_string("99999999999999999999999,0").is_err());
}
