use fencer_lib::metadata::{FieldContext, FieldTag, FieldValue, MetadataField, Rational};
use fencer_lib::scan::{
    check_image, gather_in_range, has_jpg_ending, is_jpg, run_sequential,
    ScanCandidate,
};
use fencer_lib::{ConvertError, GPSPosition};

fn dms(deg: u32, min: u32, sec_num: u32, sec_denom: u32) -> FieldValue {
    FieldValue::Rational(vec![
        Rational { num: deg, denom: 1 },
        Rational { num: min, denom: 1 },
        Rational {
            num: sec_num,
            denom: sec_denom,
        },
    ])
}

fn photo(path: &str, lat: FieldValue, lon: FieldValue) -> ScanCandidate {
    ScanCandidate {
        path: path.to_string(),
        metadata: Some(vec![
            MetadataField {
                tag: FieldTag::GPSLatitude,
                context: FieldContext::Gps,
                thumbnail: false,
                value: lat,
            },
            MetadataField {
                tag: FieldTag::GPSLongitude,
                context: FieldContext::Gps,
                thumbnail: false,
                value: lon,
            },
        ]),
    }
}

// 46 36' 18.8748", 14 17' 48.9228"
fn klagenfurt(path: &str) -> ScanCandidate {
    photo(path, dms(46, 36, 188748, 10000), dms(14, 17, 489228, 10000))
}

// about 4.5 km north of the point above
fn north(path: &str) -> ScanCandidate {
    photo(path, dms(46, 39, 0, 1), dms(14, 17, 489228, 10000))
}

fn far(path: &str) -> ScanCandidate {
    photo(path, dms(45, 12, 0, 1), dms(79, 19, 0, 1))
}

fn no_metadata(path: &str) -> ScanCandidate {
    ScanCandidate {
        path: path.to_string(),
        metadata: None,
    }
}

fn candidates() -> Vec<ScanCandidate> {
    vec![
        klagenfurt("d/z.jpg"),
        no_metadata("d/broken.jpg"),
        north("d/north.jpg"),
        far("d/far.jpg"),
        klagenfurt("d/a.jpg"),
        klagenfurt("d/z.jpg"),
        ScanCandidate {
            path: "d/empty.jpg".to_string(),
            metadata: Some(vec![]),
        },
    ]
}

const REFERENCE: &str = "46.605243, 14.296923";

#[test]
fn sequential_scan_reports_sorted_unique_paths() {
    let r = run_sequential(REFERENCE, 80_000_000, &candidates()).unwrap();
    assert_eq!(r, vec!["d/a.jpg".to_string(), "d/z.jpg".to_string()]);
    let wide = run_sequential(REFERENCE, 10_000_000_000, &candidates()).unwrap();
    assert_eq!(
        wide,
        vec![
            "d/a.jpg".to_string(),
            "d/north.jpg".to_string(),
            "d/z.jpg".to_string()
        ]
    );
}

#[test]
fn parallel_gather_matches_sequential() {
    let cs = candidates();
    let point = GPSPosition::parse_from_string(REFERENCE).unwrap();
    for max in [0u64, 80_000_000, 10_000_000_000] {
        // verdicts reached in reverse order, as a worker pool might
        let mut flags = vec![false; cs.len()];
        for i in (0..cs.len()).rev() {
            flags[i] = check_image(&point, max, &cs[i]);
        }
        assert_eq!(
            gather_in_range(&cs, &flags),
            run_sequential(REFERENCE, max, &cs)
        );
    }
}

#[test]
fn strict_radius() {
    let point = GPSPosition::parse_from_string(REFERENCE).unwrap();
    // the photo lies one billionth of a degree east of the point: about 76 um
    assert!(!check_image(&point, 0, &klagenfurt("x.jpg")));
    assert!(!check_image(&point, 50, &klagenfurt("x.jpg")));
    assert!(check_image(&point, 1_000, &klagenfurt("x.jpg")));
}

#[test]
fn photo_without_metadata_is_skipped() {
    let cs = vec![no_metadata("b.jpg"), klagenfurt("a.jpg")];
    assert_eq!(
        run_sequential(REFERENCE, 80_000_000, &cs),
        Ok(vec!["a.jpg".to_string()])
    );
    let only = vec![no_metadata("b.jpg")];
    assert_eq!(run_sequential(REFERENCE, 80_000_000, &only), Ok(vec![]));
}

#[test]
fn empty_candidate_set_is_reported() {
    assert_eq!(
        run_sequential(REFERENCE, 80_000_000, &vec![]),
        Err(ConvertError::NoImagesFound)
    );
    assert_eq!(
        gather_in_range(&vec![], &vec![]),
        Err(ConvertError::NoImagesFound)
    );
}

#[test]
fn bad_reference_stops_the_scan() {
    assert_eq!(
        run_sequential("46.6 14.2", 80_000_000, &candidates()),
        Err(ConvertError::UnrecognisedString {
            input: "46.6 14.2".to_string()
        })
    );
    assert_eq!(
        run_sequential("", 80_000_000, &vec![]),
        Err(ConvertError::UnrecognisedString {
            input: String::new()
        })
    );
}

#[test]
fn metadata_failures_are_told_apart() {
    let path = "p.jpg".to_string();
    assert_eq!(
        GPSPosition::from_image_path(&path, &None),
        Err(ConvertError::ExifAbsent {
            file: "p.jpg".to_string()
        })
    );
    assert_eq!(
        GPSPosition::from_image_path(&path, &Some(vec![])),
        Err(ConvertError::ExifNotFound {
            path: Some("p.jpg".to_string())
        })
    );
    let bad = photo("p.jpg", FieldValue::Other, FieldValue::Other);
    assert_eq!(
        GPSPosition::from_image_path(&path, &bad.metadata),
        Err(ConvertError::UnexpectedExifContent)
    );
    assert_eq!(
        GPSPosition::from_image_path(&path, &klagenfurt("p.jpg").metadata),
        Ok(GPSPosition {
            lat: 46_605_243_000,
            lon: 14_296_922_999
        })
    );
}

#[test]
fn jpg_names() {
    assert!(is_jpg(true, "img01.jpg"));
    assert!(is_jpg(true, "IMG01.JPG"));
    assert!(is_jpg(true, "a.JpG"));
    assert!(!is_jpg(false, "img01.jpg"));
    assert!(!is_jpg(true, "img01.jpeg"));
    assert!(!is_jpg(true, "jpg"));
    assert!(!is_jpg(true, ""));
    assert!(has_jpg_ending(".jpg"));
    assert!(!has_jpg_ending("x.JPG"));
}
