//! Decimal degrees to and from degree / minute / second triples.
//!
//! EXIF stores the magnitude of a coordinate as three unsigned rationals and
//! its sign as a hemisphere letter. Decoding is exact. Encoding keeps whole
//! degrees and whole minutes and rounds the seconds to hundredths.

use vstd::prelude::*;
use crate::rational::Rational;
use crate::degrees::Degrees;
use crate::degrees::DegreesView;

verus! {

/// Why a conversion between degrees and tag values failed.
#[derive(Clone, Copy, Debug, PartialEq, Eq, Structural)]
pub enum CodecError {
    /// A degree / minute / second value does not hold exactly three rationals.
    MalformedTriple,
    /// One of the three rationals has a zero denominator.
    DivisionByZero,
    /// A hemisphere letter is none of `N`, `S`, `E`, `W`.
    UnrecognizedReference,
    /// A magnitude to encode is below zero.
    NegativeMagnitude,
    /// A magnitude to encode has 2^32 whole degrees or more, which the degree
    /// field of a triple cannot hold.
    MagnitudeTooLarge,
}

/// Seconds are stored in hundredths: the denominator of the third rational.
pub const SECONDS_DENOMINATOR: u32 = 100;

/// The numerator of `degrees + minutes / 60 + seconds / 3600` over the
/// common denominator [`dms_denominator`].
pub open spec fn dms_numerator(triple: Seq<Rational>) -> nat {
    (3600 * triple[0].numerator * triple[1].denominator * triple[2].denominator + 60
        * triple[1].numerator * triple[0].denominator * triple[2].denominator
        + triple[2].numerator * triple[0].denominator * triple[1].denominator) as nat
}

/// The common denominator of the three terms: 3600 times the three denominators.
pub open spec fn dms_denominator(triple: Seq<Rational>) -> nat {
    (3600 * triple[0].denominator * triple[1].denominator * triple[2].denominator) as nat
}

/// What [`decode_dms`] returns.
///
/// The magnitude is the exact sum `degrees + minutes / 60 + seconds / 3600`,
/// each term a true quotient, written over one common denominator.
pub open spec fn decode_dms_spec(triple: Seq<Rational>) -> Result<DegreesView, CodecError> {
    if triple.len() != 3 {
        Err(CodecError::MalformedTriple)
    } else if triple[0].denominator == 0 || triple[1].denominator == 0 || triple[2].denominator
        == 0 {
        Err(CodecError::DivisionByZero)
    } else {
        Ok(
            DegreesView {
                negative: false,
                numerator: dms_numerator(triple),
                denominator: dms_denominator(triple),
            },
        )
    }
}

/// What [`decode_reference`] returns: 1 for `N` and `E`, -1 for `S` and `W`.
pub open spec fn decode_reference_spec(letter: Seq<char>) -> Result<i8, CodecError> {
    if letter == seq!['N'] || letter == seq!['E'] {
        Ok(1i8)
    } else if letter == seq!['S'] || letter == seq!['W'] {
        Ok(-1i8)
    } else {
        Err(CodecError::UnrecognizedReference)
    }
}

/// What [`decode_coordinate_axis`] returns: the magnitude of the triple under
/// the sign of the letter. A bad letter is reported before a bad triple.
pub open spec fn decode_coordinate_axis_spec(
    reference: Seq<char>,
    triple: Seq<Rational>,
) -> Result<DegreesView, CodecError> {
    match decode_reference_spec(reference) {
        Err(e) => Err(e),
        Ok(sign) => match decode_dms_spec(triple) {
            Err(e) => Err(e),
            Ok(magnitude) => Ok(magnitude.with_sign(sign < 0)),
        },
    }
}

/// A decoded triple is a well-formed value: its denominator is positive and
/// stays within the bound of [`Degrees`].
pub proof fn lemma_decoded_is_well_formed(triple: Seq<Rational>)
    requires
        decode_dms_spec(triple) is Ok,
    ensures
        decode_dms_spec(triple).unwrap().wf(),
{
    let d0 = triple[0].denominator as int;
    let d1 = triple[1].denominator as int;
    let d2 = triple[2].denominator as int;
    assert(0 < 3600 * d0 * d1 * d2 <= 3600 * 0xffff_ffff * 0xffff_ffff * 0xffff_ffff)
        by (nonlinear_arith)
        requires
            0 < d0 <= 0xffff_ffff,
            0 < d1 <= 0xffff_ffff,
            0 < d2 <= 0xffff_ffff,
    ;
}

/// The unsigned magnitude, in degrees, of a degree / minute / second triple.
///
/// Fails with `MalformedTriple` unless there are exactly three rationals, and
/// with `DivisionByZero` if one of them has a zero denominator.
pub fn decode_dms(triple: &[Rational]) -> (r: Result<Degrees, CodecError>)
    ensures
        match r {
            Ok(d) => decode_dms_spec(triple@) == Ok::<DegreesView, CodecError>(d@),
            Err(e) => decode_dms_spec(triple@) == Err::<DegreesView, CodecError>(e),
        },
{
    if triple.len() != 3 {
        return Err(CodecError::MalformedTriple);
    }
    let n0 = triple[0].numerator as u128;
    let d0 = triple[0].denominator as u128;
    let n1 = triple[1].numerator as u128;
    let d1 = triple[1].denominator as u128;
    let n2 = triple[2].numerator as u128;
    let d2 = triple[2].denominator as u128;
    if d0 == 0 || d1 == 0 || d2 == 0 {
        return Err(CodecError::DivisionByZero);
    }
    proof {
        lemma_decoded_is_well_formed(triple@);
        lemma_three_factor_bound(3600, n0 as int, d1 as int, d2 as int);
        lemma_three_factor_bound(60, n1 as int, d0 as int, d2 as int);
        lemma_three_factor_bound(1, n2 as int, d0 as int, d1 as int);
        lemma_three_factor_bound(3600, d0 as int, d1 as int, d2 as int);
    }
    let numerator = 3600 * n0 * d1 * d2 + 60 * n1 * d0 * d2 + 1 * n2 * d0 * d1;
    let denominator = 3600 * d0 * d1 * d2;
    Ok(Degrees::new(false, numerator, denominator).unwrap())
}

/// A constant times three 32-bit factors, and each product on the way to it,
/// stays below the constant times 2^96.
proof fn lemma_three_factor_bound(k: int, a: int, b: int, c: int)
    requires
        0 <= k,
        0 <= a <= 0xffff_ffff,
        0 <= b <= 0xffff_ffff,
        0 <= c <= 0xffff_ffff,
    ensures
        0 <= k * a <= k * 0xffff_ffff,
        0 <= k * a * b <= k * 0xffff_ffff * 0xffff_ffff,
        0 <= k * a * b * c <= k * 0xffff_ffff * 0xffff_ffff * 0xffff_ffff,
{
    assert(0 <= k * a <= k * 0xffff_ffff) by (nonlinear_arith)
        requires
            0 <= k,
            0 <= a <= 0xffff_ffff,
    ;
    let ka = k * a;
    let kmax = k * 0xffff_ffff;
    assert(0 <= ka * b <= kmax * 0xffff_ffff) by (nonlinear_arith)
        requires
            0 <= ka <= kmax,
            0 <= b <= 0xffff_ffff,
    ;
    let kab = ka * b;
    let kmax2 = kmax * 0xffff_ffff;
    assert(0 <= kab * c <= kmax2 * 0xffff_ffff) by (nonlinear_arith)
        requires
            0 <= kab <= kmax2,
            0 <= c <= 0xffff_ffff,
    ;
}

/// The sign that a hemisphere letter stands for: 1 for `N` and `E`, -1 for
/// `S` and `W`. Any other string fails with `UnrecognizedReference`.
pub fn decode_reference(letter: &str) -> (r: Result<i8, CodecError>)
    ensures
        r == decode_reference_spec(letter@),
{
    if letter.unicode_len() != 1 {
        assert(letter@ != seq!['N'] && letter@ != seq!['E'] && letter@ != seq!['S'] && letter@
            != seq!['W']);
        return Err(CodecError::UnrecognizedReference);
    }
    let c = letter.get_char(0);
    assert(letter@ =~= seq![c]);
    assert(seq![c] == seq!['N'] <==> c == 'N') by {
        assert(seq![c][0] == c);
        assert(seq!['N'][0] == 'N');
    }
    assert(seq![c] == seq!['E'] <==> c == 'E') by {
        assert(seq![c][0] == c);
        assert(seq!['E'][0] == 'E');
    }
    assert(seq![c] == seq!['S'] <==> c == 'S') by {
        assert(seq![c][0] == c);
        assert(seq!['S'][0] == 'S');
    }
    assert(seq![c] == seq!['W'] <==> c == 'W') by {
        assert(seq![c][0] == c);
        assert(seq!['W'][0] == 'W');
    }
    if c == 'N' || c == 'E' {
        Ok(1)
    } else if c == 'S' || c == 'W' {
        Ok(-1)
    } else {
        Err(CodecError::UnrecognizedReference)
    }
}

/// The signed value, in degrees, of one axis: the magnitude of `triple` under
/// the sign of `reference`.
pub fn decode_coordinate_axis(reference: &str, triple: &[Rational]) -> (r: Result<
    Degrees,
    CodecError,
>)
    ensures
        match r {
            Ok(d) => decode_coordinate_axis_spec(reference@, triple@) == Ok::<
                DegreesView,
                CodecError,
            >(d@),
            Err(e) => decode_coordinate_axis_spec(reference@, triple@) == Err::<
                DegreesView,
                CodecError,
            >(e),
        },
{
    let sign = match decode_reference(reference) {
        Ok(sign) => sign,
        Err(e) => {
            return Err(e);
        },
    };
    match decode_dms(triple) {
        Ok(magnitude) => Ok(magnitude.with_sign(sign < 0)),
        Err(e) => Err(e),
    }
}

/// Which axis of a coordinate a value lies on. It decides the pair of
/// hemisphere letters: `N` / `S` for a latitude, `E` / `W` for a longitude.
#[derive(Clone, Copy, Debug, PartialEq, Eq, Structural)]
pub enum Axis {
    Latitude,
    Longitude,
}

/// The whole degrees of a magnitude: its floor.
pub open spec fn whole_degrees(v: DegreesView) -> nat {
    v.numerator / v.denominator
}

/// What is left of a magnitude above its whole degrees, as a count of
/// `1 / denominator` degrees.
pub open spec fn degree_remainder(v: DegreesView) -> nat {
    v.numerator % v.denominator
}

/// The whole minutes in the fraction of a degree: the floor of sixty times it.
pub open spec fn whole_minutes(v: DegreesView) -> nat {
    (60 * degree_remainder(v)) / v.denominator
}

/// What is left above the whole minutes, as a count of `1 / denominator` minutes.
pub open spec fn minute_remainder(v: DegreesView) -> nat {
    (60 * degree_remainder(v)) % v.denominator
}

/// The seconds in the fraction of a minute, in hundredths, rounded to the
/// nearest hundredth with a half rounded up.
pub open spec fn rounded_centiseconds(v: DegreesView) -> nat {
    (2 * (6000 * minute_remainder(v)) + v.denominator) / (2 * v.denominator)
}

/// What [`encode_dms`] returns.
///
/// Degrees and minutes are whole numbers over 1. Seconds are hundredths over
/// 100, so a triple carries no more than 1/100 of an arc-second.
pub open spec fn encode_dms_spec(v: DegreesView) -> Result<Seq<Rational>, CodecError> {
    if v.below_zero() {
        Err(CodecError::NegativeMagnitude)
    } else if whole_degrees(v) > u32::MAX {
        Err(CodecError::MagnitudeTooLarge)
    } else {
        Ok(
            seq![
                Rational { numerator: whole_degrees(v) as u32, denominator: 1 },
                Rational { numerator: whole_minutes(v) as u32, denominator: 1 },
                Rational {
                    numerator: rounded_centiseconds(v) as u32,
                    denominator: SECONDS_DENOMINATOR,
                },
            ],
        )
    }
}

/// The letter for a value on `axis`: `N` or `E` unless it is below zero.
pub open spec fn reference_letter(axis: Axis, below_zero: bool) -> Seq<char> {
    match axis {
        Axis::Latitude => if below_zero {
            seq!['S']
        } else {
            seq!['N']
        },
        Axis::Longitude => if below_zero {
            seq!['W']
        } else {
            seq!['E']
        },
    }
}

/// The minute field of an encoded triple is below 60 and the seconds field at
/// most 6000 hundredths, whatever the magnitude.
pub proof fn lemma_encoded_fields_in_range(v: DegreesView)
    requires
        v.wf(),
    ensures
        whole_minutes(v) < 60,
        rounded_centiseconds(v) <= 6000,
        degree_remainder(v) < v.denominator,
        minute_remainder(v) < v.denominator,
{
    let d = v.denominator as int;
    let r1 = degree_remainder(v) as int;
    let r2 = minute_remainder(v) as int;
    assert(r1 < d && 0 <= r1) by (nonlinear_arith)
        requires
            r1 == (v.numerator as int) % d,
            0 < d,
    ;
    assert(0 <= r2 < d) by (nonlinear_arith)
        requires
            r2 == (60 * r1) % d,
            0 < d,
    ;
    assert((60 * r1) / d < 60) by (nonlinear_arith)
        requires
            0 <= r1 < d,
    ;
    assert((2 * (6000 * r2) + d) / (2 * d) <= 6000) by (nonlinear_arith)
        requires
            0 <= r2 < d,
    ;
}

/// The degree / minute / second triple of a magnitude.
///
/// Whole degrees and whole minutes are taken by flooring, and the seconds
/// are rounded to hundredths, a half going up. Fails with
/// `NegativeMagnitude` if the magnitude is below zero, and with
/// `MagnitudeTooLarge` if its whole degrees do not fit in 32 bits.
pub fn encode_dms(magnitude: Degrees) -> (r: Result<Vec<Rational>, CodecError>)
    ensures
        match r {
            Ok(t) => encode_dms_spec(magnitude@) == Ok::<Seq<Rational>, CodecError>(t@),
            Err(e) => encode_dms_spec(magnitude@) == Err::<Seq<Rational>, CodecError>(e),
        },
{
    if magnitude.is_below_zero() {
        return Err(CodecError::NegativeMagnitude);
    }
    let n = magnitude.numerator();
    let d = magnitude.denominator();
    let degrees = n / d;
    if degrees > 0xffff_ffff {
        return Err(CodecError::MagnitudeTooLarge);
    }
    proof {
        lemma_encoded_fields_in_range(magnitude@);
    }
    let r1 = n % d;
    let minutes = (60 * r1) / d;
    let r2 = (60 * r1) % d;
    let centiseconds = (2 * (6000 * r2) + d) / (2 * d);
    let mut triple: Vec<Rational> = Vec::new();
    triple.push(Rational::whole(degrees as u32));
    triple.push(Rational::whole(minutes as u32));
    triple.push(Rational::new(centiseconds as u32, SECONDS_DENOMINATOR));
    assert(triple@ =~= encode_dms_spec(magnitude@).unwrap());
    Ok(triple)
}

/// The hemisphere letter and the triple of a signed value on `axis`.
///
/// The letter carries the sign and the triple the absolute value. A zero is
/// `N` or `E`, with either sign flag. Fails with `MagnitudeTooLarge` where
/// [`encode_dms`] does on the absolute value.
pub fn encode_coordinate_axis(axis: Axis, signed_degrees: Degrees) -> (r: Result<
    (String, Vec<Rational>),
    CodecError,
>)
    ensures
        match r {
            Ok((letter, triple)) => {
                &&& letter@ == reference_letter(axis, signed_degrees@.below_zero())
                &&& encode_dms_spec(signed_degrees@.magnitude()) == Ok::<
                    Seq<Rational>,
                    CodecError,
                >(triple@)
            },
            Err(e) => encode_dms_spec(signed_degrees@.magnitude()) == Err::<
                Seq<Rational>,
                CodecError,
            >(e),
        },
{
    let triple = match encode_dms(signed_degrees.magnitude()) {
        Ok(triple) => triple,
        Err(e) => {
            return Err(e);
        },
    };
    let below_zero = signed_degrees.is_below_zero();
    let letter = match axis {
        Axis::Latitude => if below_zero {
            "S"
        } else {
            "N"
        },
        Axis::Longitude => if below_zero {
            "W"
        } else {
            "E"
        },
    };
    proof {
        reveal_strlit("N");
        reveal_strlit("S");
        reveal_strlit("E");
        reveal_strlit("W");
        assert(letter@ =~= reference_letter(axis, below_zero));
    }
    Ok((letter.to_owned(), triple))
}

} // verus!
