use exif_gps::codec::decode_dms;
use exif_gps::exif::dir_to_f64;
use exif_gps::exif::dms_to_f64;
use exif_gps::exif::f64_to_dms;
use exif_gps::exif::latlng_to_exif;
use exif_gps::exif::ur64_to_f64;
use exif_gps::rational::Rational;

fn triple(degrees: u32, minutes: u32, centiseconds: u32) -> Vec<Rational> {
    vec![
        Rational::new(degrees, 1),
        Rational::new(minutes, 1),
        Rational::new(centiseconds, 100),
    ]
}

#[test]
fn ur64_to_f64_divides_as_floats_do() {
    for (numerator, denominator) in [(1u32, 1u32), (1, 3), (4220, 100), (u32::MAX, 7), (0, 5)] {
        let bits = ur64_to_f64(&Rational::new(numerator, denominator));
        assert_eq!(f64::from_bits(bits), numerator as f64 / denominator as f64);
    }
}

#[test]
fn ur64_to_f64_over_zero_is_infinite_or_no_number() {
    assert_eq!(f64::from_bits(ur64_to_f64(&Rational::new(1, 0))), f64::INFINITY);
    assert_eq!(f64::from_bits(ur64_to_f64(&Rational::new(u32::MAX, 0))), f64::INFINITY);
    assert!(f64::from_bits(ur64_to_f64(&Rational::new(0, 0))).is_nan());
}

#[test]
fn dms_to_f64_gives_decimal_degrees() {
    let value = f64::from_bits(dms_to_f64(&triple(36, 41, 4220)).unwrap());
    assert_eq!(value, 13_210_220.0 / 360_000.0);
    assert!((value - (36.0 + 41.0 / 60.0 + 42.2 / 3600.0)).abs() < 1e-12);
    assert_eq!(f64::from_bits(dms_to_f64(&triple(0, 0, 0)).unwrap()), 0.0);
    assert_eq!(f64::from_bits(dms_to_f64(&triple(90, 30, 0)).unwrap()), 90.5);
}

#[test]
fn dms_to_f64_of_a_bad_triple_is_none() {
    assert_eq!(dms_to_f64(&triple(1, 2, 3)[..2]), None);
    assert_eq!(dms_to_f64(&[]), None);
    let mut zero = triple(1, 2, 3);
    zero[1] = Rational::new(5, 0);
    assert_eq!(dms_to_f64(&zero), None);
}

#[test]
fn f64_to_dms_gives_the_triple() {
    assert_eq!(f64_to_dms(36.695055289275f64.to_bits()), Some(triple(36, 41, 4220)));
    assert_eq!(f64_to_dms(0.0f64.to_bits()), Some(triple(0, 0, 0)));
    assert_eq!(f64_to_dms((-0.0f64).to_bits()), Some(triple(0, 0, 0)));
    assert_eq!(f64_to_dms(179.5f64.to_bits()), Some(triple(179, 30, 0)));
}

#[test]
fn f64_to_dms_of_what_has_no_triple_is_none() {
    assert_eq!(f64_to_dms((-1.0f64).to_bits()), None);
    assert_eq!(f64_to_dms(f64::NAN.to_bits()), None);
    assert_eq!(f64_to_dms(f64::INFINITY.to_bits()), None);
    assert_eq!(f64_to_dms(f64::NEG_INFINITY.to_bits()), None);
    assert_eq!(f64_to_dms(4294967296.0f64.to_bits()), None);
    assert_eq!(f64_to_dms(f64::MAX.to_bits()), None);
}

#[test]
fn dir_to_f64_gives_one_or_minus_one() {
    assert_eq!(dir_to_f64("N").map(f64::from_bits), Some(1.0));
    assert_eq!(dir_to_f64("E").map(f64::from_bits), Some(1.0));
    assert_eq!(dir_to_f64("S").map(f64::from_bits), Some(-1.0));
    assert_eq!(dir_to_f64("W").map(f64::from_bits), Some(-1.0));
    assert_eq!(dir_to_f64("X"), None);
    assert_eq!(dir_to_f64(""), None);
}

#[test]
fn latlng_to_exif_gives_letters_and_triples() {
    let (lat_ref, lat, lng_ref, lng) =
        latlng_to_exif(36.695055289275f64.to_bits(), 137.21132191834f64.to_bits());
    assert_eq!(lat_ref, "N");
    assert_eq!(lat, triple(36, 41, 4220));
    assert_eq!(lng_ref, "E");
    assert_eq!(lng, triple(137, 12, 4076));
    let (lat_ref, lat, lng_ref, lng) =
        latlng_to_exif((-33.856784f64).to_bits(), (-70.25f64).to_bits());
    assert_eq!(lat_ref, "S");
    assert_eq!(lat, triple(33, 51, 2442));
    assert_eq!(lng_ref, "W");
    assert_eq!(lng, triple(70, 15, 0));
}

#[test]
fn the_codec_on_doubles_goes_there_and_back() {
    let (lat_ref, lat, lng_ref, lng) =
        latlng_to_exif(36.695055289275f64.to_bits(), (-137.21132191834f64).to_bits());
    let latitude = f64::from_bits(dir_to_f64(&lat_ref).unwrap())
        * f64::from_bits(dms_to_f64(&lat).unwrap());
    let longitude = f64::from_bits(dir_to_f64(&lng_ref).unwrap())
        * f64::from_bits(dms_to_f64(&lng).unwrap());
    assert!((latitude - 36.695055).abs() < 0.0001);
    assert!((longitude + 137.211322).abs() < 0.0001);
}

#[test]
fn f64_to_dms_refuses_the_smallest_doubles_below_zero() {
    assert_eq!(f64_to_dms(0xb370_0000_0000_0000), None);
    assert_eq!(f64_to_dms((-f64::from_bits(1)).to_bits()), None);
    assert_eq!(f64_to_dms((-1e-300f64).to_bits()), None);
    assert_eq!(f64_to_dms(0x3370_0000_0000_0000), Some(triple(0, 0, 0)));
    assert_eq!(f64_to_dms(f64::from_bits(1).to_bits()), Some(triple(0, 0, 0)));
}

#[test]
fn latlng_to_exif_gives_the_smallest_doubles_the_letters_of_their_side() {
    let tiny = f64::from_bits(0x3370_0000_0000_0000);
    let (lat_ref, lat, lng_ref, lng) = latlng_to_exif(tiny.to_bits(), tiny.to_bits());
    assert_eq!((lat_ref.as_str(), lng_ref.as_str()), ("N", "E"));
    let (south, lat_back, west, lng_back) = latlng_to_exif((-tiny).to_bits(), (-tiny).to_bits());
    assert_eq!((south.as_str(), west.as_str()), ("S", "W"));
    assert_eq!((lat, lng), (lat_back, lng_back));
    let (lat_ref, _, lng_ref, _) = latlng_to_exif((-0.0f64).to_bits(), (-0.0f64).to_bits());
    assert_eq!((lat_ref.as_str(), lng_ref.as_str()), ("N", "E"));
}

#[test]
fn latlng_to_exif_of_a_negated_pair_has_the_same_triples_and_the_other_letters() {
    for (lat, lng) in [(36.695055289275, 137.21132191834), (1e-9, 179.999999), (89.5, 1e-200)] {
        let there = latlng_to_exif(f64::to_bits(lat), f64::to_bits(lng));
        let back = latlng_to_exif(f64::to_bits(-lat), f64::to_bits(-lng));
        assert_eq!((there.0.as_str(), there.2.as_str()), ("N", "E"));
        assert_eq!((back.0.as_str(), back.2.as_str()), ("S", "W"));
        assert_eq!((there.1, there.3), (back.1, back.3));
    }
}

#[test]
fn a_triple_through_a_double_keeps_its_magnitude() {
    let triples = [
        triple(0, 0, 0),
        triple(0, 0, 1),
        triple(0, 18, 0),
        triple(36, 41, 4220),
        triple(137, 12, 4076),
        triple(179, 59, 5999),
        triple(u32::MAX, 59, 5999),
    ];
    for first in triples {
        let double = dms_to_f64(&first).unwrap();
        let second = f64_to_dms(double).unwrap();
        let before = decode_dms(&first).unwrap();
        let after = decode_dms(&second).unwrap();
        assert_eq!(after.denominator(), before.denominator());
        assert_eq!(after.numerator(), before.numerator());
        // And so for ever after.
        assert_eq!(dms_to_f64(&second), Some(double));
    }
}

#[test]
fn a_triple_through_a_double_may_come_back_in_other_fields() {
    // The double nearest to 0.3 lies below it: 17 minutes and sixty seconds.
    let double = dms_to_f64(&triple(0, 18, 0)).unwrap();
    assert_eq!(f64::from_bits(double), 0.3);
    assert_eq!(f64_to_dms(double), Some(triple(0, 17, 6000)));
}

#[test]
fn a_triple_of_too_many_degrees_in_all_has_none_to_come_back_to() {
    let double = dms_to_f64(&triple(u32::MAX, 60, 0)).unwrap();
    assert_eq!(f64::from_bits(double), 4294967296.0);
    assert_eq!(f64_to_dms(double), None);
}
