use navitia_poi_model::objects::{INFINITY, NINETY, ONE_EIGHTY, SIGN_BIT};
use navitia_poi_model::Coord;

fn coord(lon: f64, lat: f64) -> Coord {
    Coord::new(lon.to_bits(), lat.to_bits())
}

fn valid_by_numbers(lon: f64, lat: f64) -> bool {
    !(lat == 0. && lon == 0.) && -90. <= lat && lat <= 90. && -180. <= lon && lon <= 180.
}

#[test]
fn bit_patterns_of_the_bounds() {
    assert_eq!(NINETY, 90f64.to_bits());
    assert_eq!(ONE_EIGHTY, 180f64.to_bits());
    assert_eq!(INFINITY, f64::INFINITY.to_bits());
    assert_eq!(SIGN_BIT, (-0f64).to_bits());
}

#[test]
fn new_keeps_the_numbers_as_they_are() {
    let c = coord(2.35, 48.85);
    assert_eq!(f64::from_bits(c.lon()), 2.35);
    assert_eq!(f64::from_bits(c.lat()), 48.85);
    let odd = coord(1e300, f64::NEG_INFINITY);
    assert_eq!(f64::from_bits(odd.lon()), 1e300);
    assert_eq!(f64::from_bits(odd.lat()), f64::NEG_INFINITY);
}

#[test]
fn origin_is_default_and_not_valid() {
    assert!(coord(0., 0.).is_default());
    assert!(!coord(0., 0.).is_valid());
}

#[test]
fn negative_zero_counts_as_zero() {
    assert!(coord(-0., 0.).is_default());
    assert!(coord(0., -0.).is_default());
    assert!(coord(-0., -0.).is_default());
    assert!(!coord(-0., -0.).is_valid());
}

#[test]
fn default_coordinate_is_the_origin() {
    let c = Coord::default();
    assert_eq!(c.lon(), 0);
    assert_eq!(c.lat(), 0);
    assert!(c.is_default());
}

#[test]
fn paris_is_valid() {
    assert!(coord(2.35, 48.85).is_valid());
    assert!(!coord(2.35, 48.85).is_default());
}

#[test]
fn longitude_out_of_range_is_not_valid() {
    assert!(!coord(200., 48.85).is_valid());
    assert!(!coord(-200., 48.85).is_valid());
}

#[test]
fn latitude_out_of_range_is_not_valid() {
    assert!(!coord(2.35, 95.).is_valid());
    assert!(!coord(2.35, -95.).is_valid());
}

#[test]
fn one_zero_number_does_not_make_a_default() {
    assert!(!coord(0., 12.).is_default());
    assert!(!coord(12., 0.).is_default());
    assert!(coord(0., 12.).is_valid());
    assert!(coord(12., 0.).is_valid());
}

#[test]
fn bounds_are_valid_and_the_next_numbers_are_not() {
    assert!(coord(180., 90.).is_valid());
    assert!(coord(-180., -90.).is_valid());
    let above_ninety = f64::from_bits(90f64.to_bits() + 1);
    let above_one_eighty = f64::from_bits(180f64.to_bits() + 1);
    assert!(!coord(1., above_ninety).is_valid());
    assert!(!coord(1., -above_ninety).is_valid());
    assert!(!coord(above_one_eighty, 1.).is_valid());
    assert!(!coord(-above_one_eighty, 1.).is_valid());
    let below_ninety = f64::from_bits(90f64.to_bits() - 1);
    assert!(coord(1., below_ninety).is_valid());
}

#[test]
fn not_a_number_and_infinity_are_not_valid() {
    assert!(!coord(f64::NAN, 1.).is_valid());
    assert!(!coord(1., f64::NAN).is_valid());
    assert!(!coord(1., -f64::NAN).is_valid());
    assert!(!coord(f64::INFINITY, 1.).is_valid());
    assert!(!coord(1., f64::NEG_INFINITY).is_valid());
    assert!(!coord(f64::NAN, f64::NAN).is_default());
}

#[test]
fn validity_agrees_with_the_numbers() {
    let samples = [
        0., -0., 1e-320, -1e-320, 0.5, -0.5, 2.35, 48.85, 89.999999, 90., 90.000001, -90., 95.,
        -95., 179.9, 180., -180., 180.1, 200., -200., 1e10, -1e10, f64::MAX, f64::MIN,
        f64::MIN_POSITIVE, f64::INFINITY, f64::NEG_INFINITY, f64::NAN,
    ];
    for lon in samples {
        for lat in samples {
            let c = coord(lon, lat);
            assert_eq!(c.is_valid(), valid_by_numbers(lon, lat), "lon {} lat {}", lon, lat);
            assert_eq!(c.is_default(), lat == 0. && lon == 0., "lon {} lat {}", lon, lat);
        }
    }
}

#[test]
fn coordinates_are_equal_as_their_numbers_are() {
    let samples = [0., -0., 1., -1., 2.35, 48.85, 90., f64::INFINITY, f64::NEG_INFINITY, f64::NAN, -f64::NAN, f64::MIN_POSITIVE];
    for a in samples {
        for b in samples {
            assert_eq!(coord(a, 1.) == coord(b, 1.), a == b, "{} {}", a, b);
            assert_eq!(coord(1., a) == coord(1., b), a == b, "{} {}", a, b);
            assert_eq!(coord(a, b) == coord(a, b), a == a && b == b, "{} {}", a, b);
        }
    }
}
