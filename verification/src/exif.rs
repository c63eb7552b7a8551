//! The codec on doubles.
//!
//! The functions here take and give a decimal degree as the bit pattern of
//! an IEEE 754 binary64 number, for callers that hold coordinates in that
//! form. Each is a function of [`codec`](crate::codec) with a conversion
//! before or behind it, and tells failure by `None` in place of an error.

use vstd::prelude::*;
use crate::binary64::binary64_below_zero;
use crate::binary64::binary64_degrees;
use crate::binary64::lemma_degrees_keep_the_side_of_zero;
use crate::codec::Axis;
use crate::codec::reference_letter;
use crate::binary64::nearest_binary64;
use crate::codec::decode_dms;
use crate::codec::decode_dms_spec;
use crate::codec::SECONDS_DENOMINATOR;
use crate::codec::dms_denominator;
use crate::codec::dms_numerator;
use crate::codec::lemma_encoded_fields_in_range;
use crate::codec::rounded_centiseconds;
use crate::codec::whole_degrees;
use crate::codec::whole_minutes;
use crate::binary64::binary64_exponent;
use crate::binary64::binary64_fraction;
use crate::binary64::lemma_binade_is_between;
use crate::binary64::lemma_nearest_double_is_close;
use crate::laws::lemma_encoded_total_is_rounded_magnitude;
use vstd::arithmetic::div_mod::lemma_basic_div;
use vstd::arithmetic::power2::lemma2_to64;
use vstd::arithmetic::power2::lemma_pow2_adds;
use vstd::arithmetic::power2::lemma_pow2_pos;
use vstd::arithmetic::power2::lemma2_to64_rest;
use vstd::arithmetic::power2::pow2;
use crate::codec::decode_reference;
use crate::codec::decode_reference_spec;
use crate::codec::encode_dms;
use crate::codec::encode_dms_spec;
use crate::degrees::Degrees;
use crate::degrees::DegreesView;
use crate::pipeline::DecimalCoordinate;
use crate::pipeline::DecimalCoordinateView;
use crate::pipeline::GpsTagSetView;
use crate::pipeline::encode_coordinate;
use crate::pipeline::encode_coordinate_spec;
use crate::rational::Rational;

verus! {

/// The bit pattern of positive infinity.
pub const INFINITY_BITS: u64 = 0x7ff0_0000_0000_0000;

/// The bit pattern of a quiet NaN.
pub const NAN_BITS: u64 = 0x7ff8_0000_0000_0000;

/// What [`ur64_to_f64`] returns: the quotient as floating-point division
/// gives it.
pub open spec fn ur64_to_f64_spec(u: Rational) -> int {
    if u.denominator != 0 {
        nearest_binary64(
            DegreesView {
                negative: false,
                numerator: u.numerator as nat,
                denominator: u.denominator as nat,
            },
        )
    } else if u.numerator != 0 {
        INFINITY_BITS as int
    } else {
        NAN_BITS as int
    }
}

/// The double nearest to one rational. Over a zero denominator a numerator
/// above zero gives infinity, and zero gives a NaN.
pub fn ur64_to_f64(u: &Rational) -> (bits: u64)
    ensures
        bits == ur64_to_f64_spec(*u),
{
    if u.denominator != 0 {
        Degrees::new(false, u.numerator as u128, u.denominator as u128).unwrap().to_binary64()
    } else if u.numerator != 0 {
        INFINITY_BITS
    } else {
        NAN_BITS
    }
}

/// What [`dms_to_f64`] returns.
pub open spec fn dms_to_f64_spec(v: Seq<Rational>) -> Option<int> {
    match decode_dms_spec(v) {
        Ok(magnitude) => Some(nearest_binary64(magnitude)),
        Err(_) => None,
    }
}

/// The double nearest to the magnitude of a degree / minute / second
/// triple, or `None` where [`decode_dms`] fails.
pub fn dms_to_f64(v: &[Rational]) -> (r: Option<u64>)
    ensures
        match r {
            Some(bits) => dms_to_f64_spec(v@) == Some(bits as int),
            None => dms_to_f64_spec(v@) is None,
        },
{
    match decode_dms(v) {
        Ok(magnitude) => Some(magnitude.to_binary64()),
        Err(_) => None,
    }
}

/// What [`f64_to_dms`] returns.
pub open spec fn f64_to_dms_spec(value: u64) -> Option<Seq<Rational>> {
    match binary64_degrees(value) {
        None => None,
        Some(magnitude) => match encode_dms_spec(magnitude) {
            Ok(triple) => Some(triple),
            Err(_) => None,
        },
    }
}

/// The degree / minute / second triple of a double, or `None` where the
/// double is below zero by however little, is no number, or has 2^32
/// degrees or more.
pub fn f64_to_dms(value: u64) -> (r: Option<Vec<Rational>>)
    ensures
        match r {
            Some(triple) => f64_to_dms_spec(value) == Some(triple@),
            None => f64_to_dms_spec(value) is None,
        },
        binary64_below_zero(value) ==> r is None,
{
    proof {
        if binary64_below_zero(value) {
            lemma_f64_to_dms_refuses_what_is_below_zero(value);
        }
    }
    match Degrees::from_binary64(value) {
        None => None,
        Some(magnitude) => match encode_dms(magnitude) {
            Ok(triple) => Some(triple),
            Err(_) => None,
        },
    }
}

/// What [`dir_to_f64`] returns: the double 1 or -1.
pub open spec fn dir_to_f64_spec(s: Seq<char>) -> Option<int> {
    match decode_reference_spec(s) {
        Ok(sign) => Some(
            nearest_binary64(DegreesView { negative: sign < 0, numerator: 1, denominator: 1 }),
        ),
        Err(_) => None,
    }
}

/// The sign of a hemisphere letter as a double, 1 or -1, or `None` where the
/// letter is none of `N`, `S`, `E`, `W`.
pub fn dir_to_f64(s: &str) -> (r: Option<u64>)
    ensures
        match r {
            Some(bits) => dir_to_f64_spec(s@) == Some(bits as int),
            None => dir_to_f64_spec(s@) is None,
        },
{
    match decode_reference(s) {
        Ok(sign) => Some(Degrees::new(sign < 0, 1, 1).unwrap().to_binary64()),
        Err(_) => None,
    }
}

/// The coordinate that two doubles denote, where both denote degrees.
pub open spec fn coordinate_of(lat: u64, lng: u64) -> Option<DecimalCoordinateView> {
    match (binary64_degrees(lat), binary64_degrees(lng)) {
        (Some(latitude), Some(longitude)) => Some(DecimalCoordinateView { latitude, longitude }),
        _ => None,
    }
}

/// Whether two doubles have GPS fields: both are numbers, of less than 2^32
/// degrees either way.
pub open spec fn has_exif(lat: u64, lng: u64) -> bool {
    coordinate_of(lat, lng) matches Some(coordinate) && encode_coordinate_spec(coordinate) is Ok
}

/// The four GPS fields of a latitude and a longitude given as doubles:
/// letter and triple of the one, letter and triple of the other.
pub fn latlng_to_exif(lat: u64, lng: u64) -> (r: (String, Vec<Rational>, String, Vec<Rational>))
    requires
        has_exif(lat, lng),
    ensures
        encode_coordinate_spec(coordinate_of(lat, lng).unwrap()) == Ok::<
            GpsTagSetView,
            crate::codec::CodecError,
        >(
            GpsTagSetView {
                latitude_ref: r.0@,
                latitude: r.1@,
                longitude_ref: r.2@,
                longitude: r.3@,
            },
        ),
        r.0@ == reference_letter(Axis::Latitude, binary64_below_zero(lat)),
        r.2@ == reference_letter(Axis::Longitude, binary64_below_zero(lng)),
{
    proof {
        lemma_latlng_to_exif_letters(lat, lng);
    }
    let latitude = Degrees::from_binary64(lat).unwrap();
    let longitude = Degrees::from_binary64(lng).unwrap();
    let tags = encode_coordinate(DecimalCoordinate { latitude, longitude }).unwrap();
    (tags.latitude_ref, tags.latitude, tags.longitude_ref, tags.longitude)
}

/// No double below zero has a triple, however small it is.
pub proof fn lemma_f64_to_dms_refuses_what_is_below_zero(value: u64)
    requires
        binary64_below_zero(value),
    ensures
        f64_to_dms_spec(value) is None,
{
    if binary64_degrees(value) is Some {
        lemma_degrees_keep_the_side_of_zero(value);
    }
}

/// The letters go by the side of zero on which the doubles lie: `S` and `W`
/// for what is below zero, `N` and `E` for everything else.
pub proof fn lemma_latlng_to_exif_letters(lat: u64, lng: u64)
    requires
        has_exif(lat, lng),
    ensures
        encode_coordinate_spec(coordinate_of(lat, lng).unwrap()).unwrap().latitude_ref
            == reference_letter(Axis::Latitude, binary64_below_zero(lat)),
        encode_coordinate_spec(coordinate_of(lat, lng).unwrap()).unwrap().longitude_ref
            == reference_letter(Axis::Longitude, binary64_below_zero(lng)),
{
    lemma_degrees_keep_the_side_of_zero(lat);
    lemma_degrees_keep_the_side_of_zero(lng);
}

/// A position that was written is not moved by being read and written
/// again: a triple of whole degrees, whole minutes and hundredths of a
/// second goes to a double, and the triple of that double decodes to the
/// magnitude of the first, whatever the double lost.
///
/// The two triples may still differ, as 0 degrees 17 minutes 60.00 seconds
/// differs from 0 degrees 18 minutes. A triple of `2^32` degrees or more in
/// all has no triple to come back to.
pub proof fn lemma_triple_through_a_double_keeps_its_magnitude(triple: Seq<Rational>)
    requires
        triple.len() == 3,
        triple[0].denominator == 1,
        triple[1].denominator == 1,
        triple[2].denominator == SECONDS_DENOMINATOR,
    ensures
        dms_to_f64_spec(triple) matches Some(bits) && 0 <= bits <= u64::MAX && (match f64_to_dms_spec(
            bits as u64,
        ) {
            Some(back) => decode_dms_spec(back) == decode_dms_spec(triple),
            None => dms_numerator(triple) >= 360000 * 0x1_0000_0000,
        }),
{
    let x = decode_dms_spec(triple).unwrap();
    let total = dms_numerator(triple) as int;
    assert(x.denominator == 360000);
    assert(total <= 0xffff_ffff * 366001);
    lemma2_to64();
    lemma2_to64_rest();
    if total == 0 {
        assert(nearest_binary64(x) == 0);
        assert(binary64_exponent(0u64) == 0 && binary64_fraction(0u64) == 0);
        let cut = pow2(966) as int;
        lemma_pow2_pos(966);
        lemma_basic_div(cut - 1, cut);
        lemma_pow2_adds(64, 44);
        assert(binary64_degrees(0u64).unwrap().numerator == 0);
    } else {
        assert(x.denominator <= x.numerator * pow2(19)) by (nonlinear_arith)
            requires
                x.denominator == 360000,
                x.numerator >= 1,
                pow2(19) == 0x80000,
        ;
        assert(x.numerator < pow2(33) * x.denominator) by (nonlinear_arith)
            requires
                x.denominator == 360000,
                x.numerator <= 0xffff_ffff * 366001,
                pow2(33) == 0x2_0000_0000,
        ;
        lemma_binade_is_between(x, 19, 33);
        lemma_nearest_double_is_close(x);
    }
    let bits = nearest_binary64(x) as u64;
    let back = binary64_degrees(bits).unwrap();
    let a = back.numerator as int;
    let b = back.denominator as int;
    assert(back.wf() && !back.negative);
    lemma_encoded_total_is_rounded_magnitude(back);
    let gap = a * 360000 - total * b;
    assert(-b < 2 * gap < b) by {
        if total == 0 {
            assert(a == 0);
            assert(total * b == 0) by (nonlinear_arith)
                requires
                    total == 0,
            ;
        } else {
            let p = pow2(53) as int;
            assert(back.within(x, x.numerator, x.denominator * pow2(53)));
            assert(-(total * (b * 360000)) <= gap * (360000 * p) <= total * (b * 360000));
            assert(-b < 2 * gap < b) by (nonlinear_arith)
                requires
                    -(total * (b * 360000)) <= gap * (360000 * p) <= total * (b * 360000),
                    p == 0x20_0000_0000_0000,
                    0 < total <= 0xffff_ffff * 366001,
                    0 < b,
            ;
        }
    }
    let found = 360000 * whole_degrees(back) + 6000 * whole_minutes(back) + rounded_centiseconds(
        back,
    );
    assert(found == total) by (nonlinear_arith)
        requires
            found == (2 * (360000 * a) + b) / (2 * b),
            gap == a * 360000 - total * b,
            -b < 2 * gap < b,
            0 < b,
    ;
    lemma_encoded_fields_in_range(back);
    if whole_degrees(back) <= u32::MAX {
        let again = encode_dms_spec(back).unwrap();
        assert(again[0] == Rational { numerator: whole_degrees(back) as u32, denominator: 1 });
        assert(again[1] == Rational { numerator: whole_minutes(back) as u32, denominator: 1 });
        assert(again[2] == Rational {
            numerator: rounded_centiseconds(back) as u32,
            denominator: SECONDS_DENOMINATOR,
        });
        assert(3600 * again[0].numerator * again[1].denominator * again[2].denominator == 360000
            * whole_degrees(back)) by (nonlinear_arith)
            requires
                again[0].numerator == whole_degrees(back),
                again[1].denominator == 1,
                again[2].denominator == 100,
        ;
        assert(60 * again[1].numerator * again[0].denominator * again[2].denominator == 6000
            * whole_minutes(back)) by (nonlinear_arith)
            requires
                again[1].numerator == whole_minutes(back),
                again[0].denominator == 1,
                again[2].denominator == 100,
        ;
        assert(again[2].numerator * again[0].denominator * again[1].denominator
            == rounded_centiseconds(back)) by (nonlinear_arith)
            requires
                again[2].numerator == rounded_centiseconds(back),
                again[0].denominator == 1,
                again[1].denominator == 1,
        ;
        assert(dms_numerator(again) == found);
        assert(dms_denominator(again) == 360000);
    }
}

} // verus!
