//! What holds of the codec and of a scan over tags as a whole.
//!
//! Encoding rounds the seconds to hundredths and decoding is exact, so a
//! value that goes through a triple and back moves by at most half of one
//! hundredth of an arc-second: 1/720000 of a degree. A scan takes the last
//! field of each kind, so tags that lack a field, or whose last field of a
//! kind does not decode, hold no position, and tags that hold the fields of
//! one position only hold that position.

use vstd::prelude::*;
use vstd::arithmetic::div_mod::lemma_fundamental_div_mod;
use crate::rational::Rational;
use crate::degrees::DegreesView;
use crate::codec::CodecError;
use crate::codec::Axis;
use crate::codec::SECONDS_DENOMINATOR;
use crate::codec::decode_dms_spec;
use crate::codec::decode_reference_spec;
use crate::codec::decode_coordinate_axis_spec;
use crate::codec::encode_dms_spec;
use crate::codec::reference_letter;
use crate::codec::whole_degrees;
use crate::codec::whole_minutes;
use crate::codec::degree_remainder;
use crate::codec::minute_remainder;
use crate::codec::rounded_centiseconds;
use crate::codec::dms_numerator;
use crate::codec::dms_denominator;
use crate::codec::lemma_encoded_fields_in_range;
use crate::pipeline::DecimalCoordinateView;
use crate::pipeline::DecodedTagSet;
use crate::pipeline::GpsFieldView;
use crate::pipeline::GpsKind;
use crate::pipeline::holds_no_other_position;
use crate::pipeline::is_only_of_kind;
use crate::pipeline::lacks_kind;
use crate::pipeline::reads_back;
use crate::pipeline::encode_coordinate_spec;
use crate::pipeline::holds_field;
use crate::pipeline::extract_spec;
use crate::pipeline::scan;

verus! {

/// The triple of a magnitude, read as one count of hundredths of an
/// arc-second, is the magnitude rounded to the nearest hundredth, a half
/// going up: `floor(360000 * magnitude + 1/2)`.
pub proof fn lemma_encoded_total_is_rounded_magnitude(v: DegreesView)
    requires
        v.wf(),
    ensures
        360000 * whole_degrees(v) + 6000 * whole_minutes(v) + rounded_centiseconds(v) == (2 * (
        360000 * v.numerator) + v.denominator) / (2 * v.denominator),
{
    let n = v.numerator as int;
    let d = v.denominator as int;
    let deg = whole_degrees(v) as int;
    let r1 = degree_remainder(v) as int;
    let min = whole_minutes(v) as int;
    let r2 = minute_remainder(v) as int;
    let cs = rounded_centiseconds(v) as int;
    lemma_encoded_fields_in_range(v);
    lemma_fundamental_div_mod(n, d);
    lemma_fundamental_div_mod(60 * r1, d);
    lemma_fundamental_div_mod(2 * (6000 * r2) + d, 2 * d);
    let rest = (2 * (6000 * r2) + d) % (2 * d);
    assert(n == d * deg + r1);
    assert(60 * r1 == d * min + r2);
    assert(2 * (6000 * r2) + d == (2 * d) * cs + rest);
    assert(0 <= rest < 2 * d);
    let total = 360000 * deg + 6000 * min + cs;
    assert(2 * (360000 * n) + d == (2 * d) * total + rest) by (nonlinear_arith)
        requires
            n == d * deg + r1,
            60 * r1 == d * min + r2,
            2 * (6000 * r2) + d == (2 * d) * cs + rest,
            total == 360000 * deg + 6000 * min + cs,
    ;
    assert((2 * (360000 * n) + d) / (2 * d) == total) by (nonlinear_arith)
        requires
            2 * (360000 * n) + d == (2 * d) * total + rest,
            0 <= rest < 2 * d,
            0 < d,
    ;
}

/// Encoding a magnitude and decoding the triple gives the magnitude back to
/// within 1/720000 of a degree, and so within 1/360000.
///
/// This holds of every magnitude that can be encoded at all: zero or more,
/// with whole degrees that fit in 32 bits.
pub proof fn lemma_encode_then_decode_is_close(v: DegreesView)
    requires
        v.wf(),
        encode_dms_spec(v) is Ok,
    ensures
        decode_dms_spec(encode_dms_spec(v).unwrap()) is Ok,
        decode_dms_spec(encode_dms_spec(v).unwrap()).unwrap().wf(),
        decode_dms_spec(encode_dms_spec(v).unwrap()).unwrap().within(v, 1, 720000),
        decode_dms_spec(encode_dms_spec(v).unwrap()).unwrap().within(v, 1, 360000),
{
    let triple = encode_dms_spec(v).unwrap();
    let n = v.numerator as int;
    let d = v.denominator as int;
    let deg = whole_degrees(v) as int;
    let r1 = degree_remainder(v) as int;
    let min = whole_minutes(v) as int;
    let r2 = minute_remainder(v) as int;
    let cs = rounded_centiseconds(v) as int;
    lemma_encoded_fields_in_range(v);
    assert(triple[0] == Rational { numerator: deg as u32, denominator: 1 });
    assert(triple[1] == Rational { numerator: min as u32, denominator: 1 });
    assert(triple[2] == Rational { numerator: cs as u32, denominator: SECONDS_DENOMINATOR });
    let back = decode_dms_spec(triple).unwrap();
    assert(dms_denominator(triple) == 360000);
    assert(dms_numerator(triple) == 360000 * deg + 6000 * min + cs);
    assert(back.numerator == 360000 * deg + 6000 * min + cs);
    assert(back.denominator == 360000);
    lemma_fundamental_div_mod(n, d);
    lemma_fundamental_div_mod(60 * r1, d);
    lemma_fundamental_div_mod(2 * (6000 * r2) + d, 2 * d);
    let rest = (2 * (6000 * r2) + d) % (2 * d);
    assert(0 <= rest < 2 * d);
    let gap = back.signed_numerator() * v.denominator - v.signed_numerator() * back.denominator;
    assert(v.signed_numerator() == n);
    assert(gap == (360000 * deg + 6000 * min + cs) * d - n * 360000);
    assert(2 * gap == d - rest) by (nonlinear_arith)
        requires
            gap == (360000 * deg + 6000 * min + cs) * d - n * 360000,
            n == d * deg + r1,
            60 * r1 == d * min + r2,
            2 * (6000 * r2) + d == (2 * d) * cs + rest,
    ;
    assert(back.denominator * v.denominator == 360000 * d);
    assert(1 * (360000 * d) == 360000 * d);
}

/// A hemisphere letter chosen for an axis decodes to the sign it was chosen for.
pub proof fn lemma_letter_decodes_to_its_sign(axis: Axis, below_zero: bool)
    ensures
        decode_reference_spec(reference_letter(axis, below_zero)) == Ok::<i8, CodecError>(
            if below_zero {
                -1i8
            } else {
                1i8
            },
        ),
{
    assert(seq!['N'][0] == 'N');
    assert(seq!['E'][0] == 'E');
    assert(seq!['S'][0] == 'S');
    assert(seq!['W'][0] == 'W');
}

/// Encoding a signed value on an axis and decoding the letter and the triple
/// gives the value back to within 1/720000 of a degree, with its sign.
pub proof fn lemma_axis_round_trip(axis: Axis, v: DegreesView)
    requires
        v.wf(),
        encode_dms_spec(v.magnitude()) is Ok,
    ensures
        decode_coordinate_axis_spec(
            reference_letter(axis, v.below_zero()),
            encode_dms_spec(v.magnitude()).unwrap(),
        ) is Ok,
        decode_coordinate_axis_spec(
            reference_letter(axis, v.below_zero()),
            encode_dms_spec(v.magnitude()).unwrap(),
        ).unwrap().within(v, 1, 720000),
        decode_coordinate_axis_spec(
            reference_letter(axis, v.below_zero()),
            encode_dms_spec(v.magnitude()).unwrap(),
        ).unwrap().negative == v.below_zero(),
{
    lemma_letter_decodes_to_its_sign(axis, v.below_zero());
    lemma_encode_then_decode_is_close(v.magnitude());
    let triple = encode_dms_spec(v.magnitude()).unwrap();
    let magnitude = decode_dms_spec(triple).unwrap();
    let back = magnitude.with_sign(v.below_zero());
    assert(decode_coordinate_axis_spec(reference_letter(axis, v.below_zero()), triple) == Ok::<
        DegreesView,
        CodecError,
    >(back));
    let m = v.magnitude();
    let gap_m = magnitude.signed_numerator() * m.denominator - m.signed_numerator()
        * magnitude.denominator;
    let gap = back.signed_numerator() * v.denominator - v.signed_numerator() * back.denominator;
    if v.below_zero() {
        assert(gap == -gap_m) by (nonlinear_arith)
            requires
                gap == (-(magnitude.numerator as int)) * v.denominator - (-(v.numerator as int))
                    * magnitude.denominator,
                gap_m == (magnitude.numerator as int) * v.denominator - (v.numerator as int)
                    * magnitude.denominator,
        ;
    } else {
        assert(v.signed_numerator() == m.signed_numerator());
        assert(gap == gap_m);
    }
}

/// The directories hold `field`, and behind it in scan order no field of its kind.
pub open spec fn is_last_of_kind(directories: Seq<Seq<GpsFieldView>>, field: GpsFieldView) -> bool {
    exists|i: int, j: int|
        #![trigger directories[i][j]]
        {
            &&& 0 <= i < directories.len()
            &&& 0 <= j < directories[i].len()
            &&& directories[i][j] == field
            &&& no_later_of_kind(directories, i, j)
        }
}

/// Behind place `j` of directory `i` no field is of the kind of the one at that place.
pub open spec fn no_later_of_kind(directories: Seq<Seq<GpsFieldView>>, i: int, j: int) -> bool {
    forall|k: int, l: int|
        0 <= k < directories.len() && 0 <= l < directories[k].len() && (k > i || (k == i && l > j))
            ==> !(#[trigger] directories[k][l]).same_kind(directories[i][j])
}

/// Whether a field decodes: a letter to a sign, a triple to a magnitude.
/// What is none of the four GPS fields has nothing to decode.
pub open spec fn decodes(field: GpsFieldView) -> bool {
    match field {
        GpsFieldView::LatitudeRef(letter) => decode_reference_spec(letter) is Ok,
        GpsFieldView::Latitude(triple) => decode_dms_spec(triple) is Ok,
        GpsFieldView::LongitudeRef(letter) => decode_reference_spec(letter) is Ok,
        GpsFieldView::Longitude(triple) => decode_dms_spec(triple) is Ok,
        GpsFieldView::Other { .. } => true,
    }
}

proof fn lemma_note_all_without_kind(set: DecodedTagSet, fields: Seq<GpsFieldView>, f: GpsFieldView)
    requires
        forall|j: int| 0 <= j < fields.len() ==> !(#[trigger] fields[j]).same_kind(f),
        !(f is Other),
    ensures
        set.note_all(fields).knows(f.kind().unwrap()) == set.knows(f.kind().unwrap()),
        set.note(f) == set ==> set.note_all(fields).note(f) == set.note_all(fields),
    decreases fields.len(),
{
    if fields.len() > 0 {
        let front = fields.drop_last();
        assert(forall|j: int| 0 <= j < front.len() ==> front[j] == fields[j]);
        lemma_note_all_without_kind(set, front, f);
        assert(!fields.last().same_kind(f));
    }
}

proof fn lemma_note_all_last_of_kind(set: DecodedTagSet, fields: Seq<GpsFieldView>, j: int)
    requires
        0 <= j < fields.len(),
        !(fields[j] is Other),
        forall|l: int| j < l < fields.len() ==> !(#[trigger] fields[l]).same_kind(fields[j]),
    ensures
        set.note_all(fields).note(fields[j]) == set.note_all(fields),
    decreases fields.len(),
{
    let front = fields.drop_last();
    if j < fields.len() - 1 {
        assert(forall|l: int| 0 <= l < front.len() ==> front[l] == fields[l]);
        lemma_note_all_last_of_kind(set, front, j);
        assert(!fields.last().same_kind(fields[j]));
    }
}

/// A field of each kind, to stand for the kind.
spec fn sample(kind: GpsKind) -> GpsFieldView {
    match kind {
        GpsKind::LatitudeRef => GpsFieldView::LatitudeRef(seq![]),
        GpsKind::Latitude => GpsFieldView::Latitude(seq![]),
        GpsKind::LongitudeRef => GpsFieldView::LongitudeRef(seq![]),
        GpsKind::Longitude => GpsFieldView::Longitude(seq![]),
    }
}

/// A scan knows nothing of a field that no directory holds.
pub proof fn lemma_scan_of_missing_kind(directories: Seq<Seq<GpsFieldView>>, kind: GpsKind)
    requires
        lacks_kind(directories, kind),
    ensures
        !scan(directories).knows(kind),
    decreases directories.len(),
{
    if directories.len() > 0 {
        let front = directories.drop_last();
        assert(forall|i: int| 0 <= i < front.len() ==> front[i] == directories[i]);
        lemma_scan_of_missing_kind(front, kind);
        let last = directories.last();
        assert(forall|j: int| 0 <= j < last.len() ==> last[j] == directories[directories.len() - 1][j]);
        lemma_note_all_without_kind(scan(front), last, sample(kind));
    }
}

/// A scan knows of each of the four GPS fields what the last one of its kind
/// decodes to: to see that field once more changes nothing.
pub proof fn lemma_scan_takes_the_last(directories: Seq<Seq<GpsFieldView>>, i: int, j: int)
    requires
        0 <= i < directories.len(),
        0 <= j < directories[i].len(),
        !(directories[i][j] is Other),
        no_later_of_kind(directories, i, j),
    ensures
        scan(directories).note(directories[i][j]) == scan(directories),
    decreases directories.len(),
{
    let front = directories.drop_last();
    let last = directories.last();
    let f = directories[i][j];
    assert(forall|l: int| 0 <= l < last.len() ==> last[l] == directories[directories.len() - 1][l]);
    if i == directories.len() - 1 {
        lemma_note_all_last_of_kind(scan(front), last, j);
    } else {
        assert(forall|k: int| 0 <= k < front.len() ==> front[k] == directories[k]);
        assert(front[i][j] == f);
        lemma_scan_takes_the_last(front, i, j);
        lemma_note_all_without_kind(scan(front), last, f);
    }
}

/// Tags that lack one of the four GPS fields hold no coordinate: latitude
/// fields alone, say, are no position.
pub proof fn lemma_incomplete_tags_hold_no_coordinate(
    directories: Seq<Seq<GpsFieldView>>,
    kind: GpsKind,
)
    requires
        lacks_kind(directories, kind),
    ensures
        extract_spec(directories) is None,
{
    lemma_scan_of_missing_kind(directories, kind);
}

/// Tags in which the last field of some kind does not decode hold no
/// coordinate, whatever else they hold: a longitude letter `Z`, say, hides
/// the position and raises no error.
pub proof fn lemma_undecodable_field_hides_the_coordinate(
    directories: Seq<Seq<GpsFieldView>>,
    field: GpsFieldView,
)
    requires
        is_last_of_kind(directories, field),
        !decodes(field),
    ensures
        extract_spec(directories) is None,
{
    let (i, j) = choose|i: int, j: int|
        #![trigger directories[i][j]]
        {
            &&& 0 <= i < directories.len()
            &&& 0 <= j < directories[i].len()
            &&& directories[i][j] == field
            &&& no_later_of_kind(directories, i, j)
        };
    lemma_scan_takes_the_last(directories, i, j);
}

/// Tags in which the four fields of an encoded coordinate are each the last
/// of their kind hold that coordinate, to within 1/720000 of a degree on
/// either axis and with the signs it had.
pub proof fn lemma_written_coordinate_is_read_back(
    directories: Seq<Seq<GpsFieldView>>,
    coordinate: DecimalCoordinateView,
)
    requires
        coordinate.latitude.wf(),
        coordinate.longitude.wf(),
        encode_coordinate_spec(coordinate) is Ok,
        is_last_of_kind(
            directories,
            GpsFieldView::LatitudeRef(encode_coordinate_spec(coordinate).unwrap().latitude_ref),
        ),
        is_last_of_kind(
            directories,
            GpsFieldView::Latitude(encode_coordinate_spec(coordinate).unwrap().latitude),
        ),
        is_last_of_kind(
            directories,
            GpsFieldView::LongitudeRef(encode_coordinate_spec(coordinate).unwrap().longitude_ref),
        ),
        is_last_of_kind(
            directories,
            GpsFieldView::Longitude(encode_coordinate_spec(coordinate).unwrap().longitude),
        ),
    ensures
        reads_back(directories, coordinate),
{
    let tags = encode_coordinate_spec(coordinate).unwrap();
    lemma_last_field_is_known(directories, GpsFieldView::LatitudeRef(tags.latitude_ref));
    lemma_last_field_is_known(directories, GpsFieldView::Latitude(tags.latitude));
    lemma_last_field_is_known(directories, GpsFieldView::LongitudeRef(tags.longitude_ref));
    lemma_last_field_is_known(directories, GpsFieldView::Longitude(tags.longitude));
    lemma_axis_round_trip(Axis::Latitude, coordinate.latitude);
    lemma_axis_round_trip(Axis::Longitude, coordinate.longitude);
}

proof fn lemma_last_field_is_known(directories: Seq<Seq<GpsFieldView>>, field: GpsFieldView)
    requires
        is_last_of_kind(directories, field),
        !(field is Other),
    ensures
        scan(directories).note(field) == scan(directories),
{
    let (i, j) = choose|i: int, j: int|
        #![trigger directories[i][j]]
        {
            &&& 0 <= i < directories.len()
            &&& 0 <= j < directories[i].len()
            &&& directories[i][j] == field
            &&& no_later_of_kind(directories, i, j)
        };
    lemma_scan_takes_the_last(directories, i, j);
}

proof fn lemma_note_all_only_of_kind(set: DecodedTagSet, fields: Seq<GpsFieldView>, f: GpsFieldView)
    requires
        !(f is Other),
        forall|j: int|
            0 <= j < fields.len() && (#[trigger] fields[j]).same_kind(f) ==> fields[j] == f,
    ensures
        set.note(f) == set ==> set.note_all(fields).note(f) == set.note_all(fields),
        (exists|j: int| 0 <= j < fields.len() && #[trigger] fields[j] == f) ==> set.note_all(
            fields,
        ).note(f) == set.note_all(fields),
    decreases fields.len(),
{
    if fields.len() > 0 {
        let front = fields.drop_last();
        assert(forall|j: int| 0 <= j < front.len() ==> front[j] == fields[j]);
        lemma_note_all_only_of_kind(set, front, f);
        if fields.last() != f {
            assert(!fields.last().same_kind(f));
            if exists|j: int| 0 <= j < fields.len() && #[trigger] fields[j] == f {
                let j = choose|j: int| 0 <= j < fields.len() && #[trigger] fields[j] == f;
                assert(front[j] == f);
            }
        }
    }
}

/// A scan knows what a field decodes to if the directories hold it and hold
/// no other of its kind, however often and wherever they hold it.
pub proof fn lemma_scan_of_the_only_of_its_kind(
    directories: Seq<Seq<GpsFieldView>>,
    field: GpsFieldView,
)
    requires
        !(field is Other),
        is_only_of_kind(directories, field),
    ensures
        holds_field(directories, field) ==> scan(directories).note(field) == scan(directories),
    decreases directories.len(),
{
    if directories.len() > 0 {
        let front = directories.drop_last();
        let last = directories.last();
        let top = directories.len() - 1;
        assert(forall|i: int| 0 <= i < front.len() ==> front[i] == directories[i]);
        assert(forall|j: int| 0 <= j < last.len() ==> last[j] == directories[top][j]);
        lemma_scan_of_the_only_of_its_kind(front, field);
        lemma_note_all_only_of_kind(scan(front), last, field);
        if holds_field(directories, field) {
            let (i, j) = choose|i: int, j: int|
                0 <= i < directories.len() && 0 <= j < directories[i].len()
                    && #[trigger] directories[i][j] == field;
            if i == top {
                assert(last[j] == field);
            } else {
                assert(front[i][j] == field);
                assert(holds_field(front, field));
            }
        }
    }
}

/// A position that the tags hold alone is read back: where the tags hold the
/// four fields of an encoded coordinate and no other field of their kinds,
/// they hold that coordinate, to within 1/720000 of a degree on either axis
/// and with its signs.
pub proof fn lemma_sole_position_is_read_back(
    directories: Seq<Seq<GpsFieldView>>,
    coordinate: DecimalCoordinateView,
)
    requires
        coordinate.latitude.wf(),
        coordinate.longitude.wf(),
        encode_coordinate_spec(coordinate) is Ok,
        holds_field(
            directories,
            GpsFieldView::LatitudeRef(encode_coordinate_spec(coordinate).unwrap().latitude_ref),
        ),
        holds_field(
            directories,
            GpsFieldView::Latitude(encode_coordinate_spec(coordinate).unwrap().latitude),
        ),
        holds_field(
            directories,
            GpsFieldView::LongitudeRef(encode_coordinate_spec(coordinate).unwrap().longitude_ref),
        ),
        holds_field(
            directories,
            GpsFieldView::Longitude(encode_coordinate_spec(coordinate).unwrap().longitude),
        ),
        holds_no_other_position(directories, encode_coordinate_spec(coordinate).unwrap()),
    ensures
        reads_back(directories, coordinate),
{
    let tags = encode_coordinate_spec(coordinate).unwrap();
    lemma_scan_of_the_only_of_its_kind(directories, GpsFieldView::LatitudeRef(tags.latitude_ref));
    lemma_scan_of_the_only_of_its_kind(directories, GpsFieldView::Latitude(tags.latitude));
    lemma_scan_of_the_only_of_its_kind(
        directories,
        GpsFieldView::LongitudeRef(tags.longitude_ref),
    );
    lemma_scan_of_the_only_of_its_kind(directories, GpsFieldView::Longitude(tags.longitude));
    lemma_axis_round_trip(Axis::Latitude, coordinate.latitude);
    lemma_axis_round_trip(Axis::Longitude, coordinate.longitude);
}

} // verus!
