use fencer_lib::distance::fcc_approximation;
use fencer_lib::{ConvertError, GPSPosition};

const KLAGENFURT: GPSPosition = GPSPosition {
    lat: 46_605_243_000,
    lon: 14_296_923_000,
};
const PRNJAVOR: GPSPosition = GPSPosition {
    lat: 44_861_556_000,
    lon: 17_666_873_000,
};
const UTTERSON: GPSPosition = GPSPosition {
    lat: 45_212_291_000,
    lon: -79_327_838_000,
};
const AAU_L7: GPSPosition = GPSPosition {
    lat: 46_614_433_000,
    lon: 14_262_985_000,
};
const AAU_L4: GPSPosition = GPSPosition {
    lat: 46_614_739_000,
    lon: 14_263_303_000,
};

#[test]
fn fcc_ok() {
    assert!(fcc_approximation(&KLAGENFURT, &PRNJAVOR).is_ok());
}

#[test]
fn fcc_too_far() {
    assert_eq!(
        fcc_approximation(&KLAGENFURT, &UTTERSON).unwrap_err(),
        ConvertError::ResultToLarge
    );
}

#[test]
fn fcc_test_distance() {
    let calc_distance = fcc_approximation(&AAU_L4, &AAU_L7).unwrap();
    let known_distanc: f64 = 41.87;
    println!("Calc distance: {}", calc_distance);
    assert!((calc_distance as f64 / 1_000_000.0 - known_distanc).abs() < 0.1);
}

#[test]
fn distance_is_symmetric_on_known_points() {
    assert_eq!(
        fcc_approximation(&AAU_L4, &AAU_L7),
        fcc_approximation(&AAU_L7, &AAU_L4)
    );
    assert_eq!(
        fcc_approximation(&KLAGENFURT, &PRNJAVOR),
        fcc_approximation(&PRNJAVOR, &KLAGENFURT)
    );
    assert_eq!(
        fcc_approximation(&UTTERSON, &KLAGENFURT),
        Err(ConvertError::ResultToLarge)
    );
}

#[test]
fn distance_to_itself_is_zero() {
    assert_eq!(fcc_approximation(&KLAGENFURT, &KLAGENFURT), Ok(0));
    assert_eq!(KLAGENFURT.distance(&KLAGENFURT), Ok(0));
}

#[test]
fn klagenfurt_prnjavor_is_about_three_hundred_and_thirty_km() {
    // Great-circle distance is about 334 km.
    let d = fcc_approximation(&KLAGENFURT, &PRNJAVOR).unwrap();
    assert!(d > 320_000_000_000 && d < 345_000_000_000, "{}", d);
}

#[test]
fn one_degree_of_latitude_at_the_equator() {
    let a = GPSPosition { lat: 0, lon: 0 };
    let b = GPSPosition {
        lat: 1_000_000_000,
        lon: 0,
    };
    // 111.13209 - 0.56605 cos(1 deg) + 0.00120 cos(2 deg) km
    let expected: f64 = 111.13209 - 0.56605 * (1.0f64).to_radians().cos()
        + 0.00120 * (2.0f64).to_radians().cos();
    let d = fcc_approximation(&a, &b).unwrap();
    assert!((d as f64 / 1_000_000_000.0 - expected).abs() < 1e-6, "{}", d);
}

#[test]
fn longitude_near_the_pole_is_short() {
    let a = GPSPosition {
        lat: 89_000_000_000,
        lon: 0,
    };
    let b = GPSPosition {
        lat: 89_000_000_000,
        lon: 1_000_000_000,
    };
    let m: f64 = (89.0f64).to_radians();
    let k2 = 111.41513 * m.cos() - 0.09455 * (3.0 * m).cos() + 0.00012 * (5.0 * m).cos();
    let d = fcc_approximation(&a, &b).unwrap();
    assert!((d as f64 / 1_000_000_000.0 - k2.abs()).abs() < 1e-6, "{}", d);
}

#[test]
fn out_of_range_just_past_the_limit() {
    let a = GPSPosition { lat: 0, lon: 0 };
    let b = GPSPosition {
        lat: 5_000_000_000,
        lon: 0,
    };
    assert_eq!(fcc_approximation(&a, &b), Err(ConvertError::ResultToLarge));
    let c = GPSPosition {
        lat: 4_000_000_000,
        lon: 0,
    };
    assert!(fcc_approximation(&a, &c).is_ok());
}

#[test]
fn extreme_coordinates_do_not_overflow() {
    let a = GPSPosition {
        lat: i64::MAX,
        lon: i64::MIN,
    };
    let b = GPSPosition {
        lat: i64::MIN,
        lon: i64::MAX,
    };
    assert_eq!(fcc_approximation(&a, &b), Err(ConvertError::ResultToLarge));
    assert_eq!(fcc_approximation(&a, &a), Ok(0));
}

#[test]
fn img01_out_of_range() {
    // the position of the photo img01.jpg, and a point in Graz
    let position_image = GPSPosition {
        lat: 46_617_128_472,
        lon: 14_266_543_388,
    };
    let position_test = GPSPosition {
        lat: 47_061_578_000,
        lon: 15_420_153_000,
    };
    let dist = position_image.distance(&position_test).unwrap() as f64 / 1_000_000.0;
    println!("Distance: {}m", dist);
    assert!(dist < 133e3);
    assert!(dist > 100e3);
}

#[test]
fn nearby_distinct_points_are_apart() {
    for lat in [0i64, 46_605_243_000, 89_000_000_000, -89_000_000_000] {
        let a = GPSPosition { lat, lon: 0 };
        let north = GPSPosition { lat: lat + 1, lon: 0 };
        let east = GPSPosition { lat, lon: 1 };
        let dn = fcc_approximation(&a, &north).unwrap();
        let de = fcc_approximation(&a, &east).unwrap();
        assert!(dn > 0 && dn < 200, "{} {}", lat, dn);
        assert!(de > 0 && de < 200, "{} {}", lat, de);
    }
}

#[test]
fn it_works() {
    assert_eq!(2 + 2, 4);
}
