//! Reading and rewriting the GPS fields of a JPEG's metadata.
//!
//! The metadata directory itself is parsed, held and written by `little_exif`.
//! This module reads the four GPS fields out of it, decides whether they
//! make a coordinate, and puts the fields of a new coordinate in.

use vstd::prelude::*;
use little_exif::exif_tag::ExifTag;
use little_exif::filetype::FileExtension;
use little_exif::ifd::ExifTagGroup;
use little_exif::metadata::Metadata;
use little_exif::rational::uR64;
use crate::rational::Rational;
use crate::degrees::Degrees;
use crate::degrees::DegreesView;
use crate::codec::Axis;
use crate::codec::CodecError;
use crate::codec::decode_dms;
use crate::codec::decode_dms_spec;
use crate::codec::decode_reference;
use crate::codec::decode_reference_spec;
use crate::codec::encode_coordinate_axis;
use crate::codec::encode_dms_spec;
use crate::codec::reference_letter;
use crate::laws::lemma_sole_position_is_read_back;
use crate::jpeg::MAX_DIRECTORY_LENGTH;
use crate::jpeg::segments_well_framed;
use crate::jpeg::take_exif_out;
use crate::jpeg::well_framed;
use crate::jpeg::without_exif;
use crate::orderly::are_light;
use crate::orderly::directories_are_light;
use crate::orderly::directories_are_orderly;
use crate::orderly::is_orderly;
use crate::orderly::same_group;
use crate::tiff::directory_is_walkable;
use crate::tiff::directory_walkable;
use crate::tiff::has_exif_header;

verus! {

/// Why a step of the pipeline failed.
#[derive(Clone, Copy, Debug, PartialEq, Eq, Structural)]
pub enum PipelineError {
    /// The bytes are not a JPEG file with a metadata directory that can be read.
    UnsupportedOrCorruptContainer,
    /// The patched directory could not be written back into the file.
    SerializationFailed,
    /// The coordinate to write has no degree / minute / second form.
    Coordinate(CodecError),
}

/// A position: a latitude and a longitude, both in signed degrees.
///
/// Nothing is checked about the range: a latitude beyond 90 degrees or a
/// longitude beyond 180 is passed on as it is.
#[derive(Clone, Copy, Debug)]
pub struct DecimalCoordinate {
    pub latitude: Degrees,
    pub longitude: Degrees,
}

/// What a [`DecimalCoordinate`] denotes.
pub struct DecimalCoordinateView {
    pub latitude: DegreesView,
    pub longitude: DegreesView,
}

impl View for DecimalCoordinate {
    type V = DecimalCoordinateView;

    open spec fn view(&self) -> DecimalCoordinateView {
        DecimalCoordinateView { latitude: self.latitude@, longitude: self.longitude@ }
    }
}

/// The number of the tag that points from the directory of an image to its
/// EXIF directory.
pub const EXIF_POINTER_ID: u16 = 0x8769;

/// The number of the tag that points to the GPS directory.
pub const GPS_POINTER_ID: u16 = 0x8825;

/// The number of the tag that points from the EXIF directory to the
/// interoperability directory.
pub const INTEROP_POINTER_ID: u16 = 0xa005;

/// The number under which a directory files the latitude letter.
pub const LATITUDE_REF_ID: u16 = 1;

/// The number under which a directory files the latitude triple.
pub const LATITUDE_ID: u16 = 2;

/// The number under which a directory files the longitude letter.
pub const LONGITUDE_REF_ID: u16 = 3;

/// The number under which a directory files the longitude triple.
pub const LONGITUDE_ID: u16 = 4;

/// One tag of a metadata directory, as far as this library reads it: one of
/// the four GPS position fields with its value, or something else, with
/// the number it is filed under and the bytes of its value.
#[derive(Clone, Debug)]
pub enum GpsField {
    LatitudeRef(String),
    Latitude(Vec<Rational>),
    LongitudeRef(String),
    Longitude(Vec<Rational>),
    Other { id: u16, value: Vec<u8> },
}

/// What a [`GpsField`] denotes.
pub enum GpsFieldView {
    LatitudeRef(Seq<char>),
    Latitude(Seq<Rational>),
    LongitudeRef(Seq<char>),
    Longitude(Seq<Rational>),
    Other { id: u16, value: Seq<u8> },
}

/// What kind of directory a directory is: that of an image itself, or one
/// of those that hang off it.
#[derive(Clone, Copy, Debug, PartialEq, Eq, Structural)]
pub enum DirectoryGroup {
    Generic,
    Exif,
    Interop,
    Gps,
}

/// One directory of a handle, copied out: its kind, the number of the image
/// it belongs to, counted from zero, and its tags in their order.
#[derive(Clone, Debug)]
pub struct Directory {
    pub group: DirectoryGroup,
    pub image: u32,
    pub tags: Vec<GpsField>,
}

/// What a [`Directory`] denotes.
pub struct DirectoryView {
    pub group: DirectoryGroup,
    pub image: u32,
    pub tags: Seq<GpsFieldView>,
}

impl View for Directory {
    type V = DirectoryView;

    open spec fn view(&self) -> DirectoryView {
        DirectoryView { group: self.group, image: self.image, tags: fields_view(self.tags@) }
    }
}

impl View for GpsField {
    type V = GpsFieldView;

    open spec fn view(&self) -> GpsFieldView {
        match self {
            GpsField::LatitudeRef(letter) => GpsFieldView::LatitudeRef(letter@),
            GpsField::Latitude(triple) => GpsFieldView::Latitude(triple@),
            GpsField::LongitudeRef(letter) => GpsFieldView::LongitudeRef(letter@),
            GpsField::Longitude(triple) => GpsFieldView::Longitude(triple@),
            GpsField::Other { id, value } => GpsFieldView::Other { id: *id, value: value@ },
        }
    }
}

/// The four GPS fields that make a position.
#[derive(Clone, Copy, Debug, PartialEq, Eq, Structural)]
pub enum GpsKind {
    LatitudeRef,
    Latitude,
    LongitudeRef,
    Longitude,
}

impl GpsFieldView {
    /// Which of the four GPS fields this is, if any.
    pub open spec fn kind(self) -> Option<GpsKind> {
        match self {
            GpsFieldView::LatitudeRef(_) => Some(GpsKind::LatitudeRef),
            GpsFieldView::Latitude(_) => Some(GpsKind::Latitude),
            GpsFieldView::LongitudeRef(_) => Some(GpsKind::LongitudeRef),
            GpsFieldView::Longitude(_) => Some(GpsKind::Longitude),
            GpsFieldView::Other { .. } => None,
        }
    }

    /// The number that a directory files the tag under.
    pub open spec fn id(self) -> u16 {
        match self {
            GpsFieldView::LatitudeRef(_) => LATITUDE_REF_ID,
            GpsFieldView::Latitude(_) => LATITUDE_ID,
            GpsFieldView::LongitudeRef(_) => LONGITUDE_REF_ID,
            GpsFieldView::Longitude(_) => LONGITUDE_ID,
            GpsFieldView::Other { id, .. } => id,
        }
    }

    /// Both are the same one of the four GPS fields, whatever their values.
    pub open spec fn same_kind(self, other: GpsFieldView) -> bool {
        self.kind() is Some && self.kind() == other.kind()
    }
}

/// The four GPS position fields of one coordinate, ready to be written.
#[derive(Clone, Debug)]
pub struct GpsTagSet {
    pub latitude_ref: String,
    pub latitude: Vec<Rational>,
    pub longitude_ref: String,
    pub longitude: Vec<Rational>,
}

/// What a [`GpsTagSet`] denotes.
pub struct GpsTagSetView {
    pub latitude_ref: Seq<char>,
    pub latitude: Seq<Rational>,
    pub longitude_ref: Seq<char>,
    pub longitude: Seq<Rational>,
}

impl View for GpsTagSet {
    type V = GpsTagSetView;

    open spec fn view(&self) -> GpsTagSetView {
        GpsTagSetView {
            latitude_ref: self.latitude_ref@,
            latitude: self.latitude@,
            longitude_ref: self.longitude_ref@,
            longitude: self.longitude@,
        }
    }
}

/// What a scan over the tags knows of the four GPS fields: for each, the
/// decoded value of the last one seen, or `None` where none was seen or the
/// last one seen did not decode.
pub struct DecodedTagSet {
    pub latitude_sign: Option<i8>,
    pub latitude: Option<DegreesView>,
    pub longitude_sign: Option<i8>,
    pub longitude: Option<DegreesView>,
}

/// The success of a result, without its error.
pub open spec fn success<T>(result: Result<T, CodecError>) -> Option<T> {
    match result {
        Ok(value) => Some(value),
        Err(_) => None,
    }
}

impl DecodedTagSet {
    /// Nothing seen yet.
    pub open spec fn empty() -> DecodedTagSet {
        DecodedTagSet { latitude_sign: None, latitude: None, longitude_sign: None, longitude: None }
    }

    /// The set after one more tag has been seen. A GPS field replaces what
    /// was known of its kind, also where it does not decode.
    pub open spec fn note(self, field: GpsFieldView) -> DecodedTagSet {
        match field {
            GpsFieldView::LatitudeRef(letter) => DecodedTagSet {
                latitude_sign: success(decode_reference_spec(letter)),
                ..self
            },
            GpsFieldView::Latitude(triple) => DecodedTagSet {
                latitude: success(decode_dms_spec(triple)),
                ..self
            },
            GpsFieldView::LongitudeRef(letter) => DecodedTagSet {
                longitude_sign: success(decode_reference_spec(letter)),
                ..self
            },
            GpsFieldView::Longitude(triple) => DecodedTagSet {
                longitude: success(decode_dms_spec(triple)),
                ..self
            },
            GpsFieldView::Other { .. } => self,
        }
    }

    /// The set after the tags of one directory have been seen in order.
    pub open spec fn note_all(self, fields: Seq<GpsFieldView>) -> DecodedTagSet
        decreases fields.len(),
    {
        if fields.len() == 0 {
            self
        } else {
            self.note_all(fields.drop_last()).note(fields.last())
        }
    }

    /// Whether the set knows the field of a kind.
    pub open spec fn knows(self, kind: GpsKind) -> bool {
        match kind {
            GpsKind::LatitudeRef => self.latitude_sign is Some,
            GpsKind::Latitude => self.latitude is Some,
            GpsKind::LongitudeRef => self.longitude_sign is Some,
            GpsKind::Longitude => self.longitude is Some,
        }
    }

    /// The coordinate of a complete set: all four fields known. A partial set
    /// has none.
    pub open spec fn coordinate(self) -> Option<DecimalCoordinateView> {
        if self.latitude_sign is Some && self.latitude is Some && self.longitude_sign is Some
            && self.longitude is Some {
            Some(
                DecimalCoordinateView {
                    latitude: self.latitude.unwrap().with_sign(self.latitude_sign.unwrap() < 0),
                    longitude: self.longitude.unwrap().with_sign(self.longitude_sign.unwrap() < 0),
                },
            )
        } else {
            None
        }
    }
}

/// What a scan knows after all directories, nested ones too, in their order.
pub open spec fn scan(directories: Seq<Seq<GpsFieldView>>) -> DecodedTagSet
    decreases directories.len(),
{
    if directories.len() == 0 {
        DecodedTagSet::empty()
    } else {
        scan(directories.drop_last()).note_all(directories.last())
    }
}

/// What [`extract_coordinate`] returns for a handle with these directories.
pub open spec fn extract_spec(directories: Seq<Seq<GpsFieldView>>) -> Option<
    DecimalCoordinateView,
> {
    scan(directories).coordinate()
}

/// What a list of directories denotes.
pub open spec fn directories_view(directories: Seq<Directory>) -> Seq<DirectoryView> {
    Seq::new(directories.len(), |i: int| directories[i]@)
}

/// The tags of a list of directories, without what the directories are.
pub open spec fn tags_of(directories: Seq<DirectoryView>) -> Seq<Seq<GpsFieldView>> {
    Seq::new(directories.len(), |i: int| directories[i].tags)
}

/// The tags of one directory, each by what it denotes.
pub open spec fn fields_view(fields: Seq<GpsField>) -> Seq<GpsFieldView> {
    Seq::new(fields.len(), |j: int| fields[j]@)
}

/// What an optional exact angle denotes.
pub open spec fn degrees_view(value: Option<Degrees>) -> Option<DegreesView> {
    match value {
        Some(d) => Some(d@),
        None => None,
    }
}

/// What an optional coordinate denotes.
pub open spec fn coordinate_view(value: Option<DecimalCoordinate>) -> Option<
    DecimalCoordinateView,
> {
    match value {
        Some(c) => Some(c@),
        None => None,
    }
}

/// The coordinate that the tags of `directories` hold, if they hold one.
///
/// The tags are scanned in order, through every directory. Of each of the
/// four GPS fields the last one seen counts. The result is a coordinate only
/// if all four were seen and the last of each decodes; anything less is no
/// coordinate, and no error either.
pub fn coordinate_from_fields(directories: &Vec<Directory>) -> (r: Option<DecimalCoordinate>)
    ensures
        coordinate_view(r) == extract_spec(tags_of(directories_view(directories@))),
{
    let mut latitude_sign: Option<i8> = None;
    let mut latitude: Option<Degrees> = None;
    let mut longitude_sign: Option<i8> = None;
    let mut longitude: Option<Degrees> = None;
    let ghost all = tags_of(directories_view(directories@));
    let mut i: usize = 0;
    while i < directories.len()
        invariant
            i <= directories.len(),
            all == tags_of(directories_view(directories@)),
            scan(all.take(i as int)) == (DecodedTagSet {
                latitude_sign,
                latitude: degrees_view(latitude),
                longitude_sign,
                longitude: degrees_view(longitude),
            }),
        decreases directories.len() - i,
    {
        let fields = &directories[i].tags;
        let ghost seen = scan(all.take(i as int));
        let ghost these = fields_view(fields@);
        assert(all[i as int] == these);
        let mut j: usize = 0;
        while j < fields.len()
            invariant
                j <= fields.len(),
                these == fields_view(fields@),
                seen.note_all(these.take(j as int)) == (DecodedTagSet {
                    latitude_sign,
                    latitude: degrees_view(latitude),
                    longitude_sign,
                    longitude: degrees_view(longitude),
                }),
            decreases fields.len() - j,
        {
            proof {
                assert(these.take(j + 1).drop_last() == these.take(j as int));
                assert(these.take(j + 1).last() == fields@[j as int]@);
            }
            match &fields[j] {
                GpsField::LatitudeRef(letter) => {
                    latitude_sign = match decode_reference(letter.as_str()) {
                        Ok(sign) => Some(sign),
                        Err(_) => None,
                    };
                },
                GpsField::Latitude(triple) => {
                    latitude = match decode_dms(triple.as_slice()) {
                        Ok(magnitude) => Some(magnitude),
                        Err(_) => None,
                    };
                },
                GpsField::LongitudeRef(letter) => {
                    longitude_sign = match decode_reference(letter.as_str()) {
                        Ok(sign) => Some(sign),
                        Err(_) => None,
                    };
                },
                GpsField::Longitude(triple) => {
                    longitude = match decode_dms(triple.as_slice()) {
                        Ok(magnitude) => Some(magnitude),
                        Err(_) => None,
                    };
                },
                GpsField::Other { .. } => {},
            }
            j = j + 1;
        }
        proof {
            assert(these.take(fields.len() as int) == these);
            assert(all.take(i + 1).drop_last() == all.take(i as int));
            assert(all.take(i + 1).last() == these);
        }
        i = i + 1;
    }
    proof {
        assert(all.take(directories.len() as int) == all);
    }
    match (latitude_sign, latitude, longitude_sign, longitude) {
        (Some(latitude_sign), Some(latitude), Some(longitude_sign), Some(longitude)) => Some(
            DecimalCoordinate {
                latitude: latitude.with_sign(latitude_sign < 0),
                longitude: longitude.with_sign(longitude_sign < 0),
            },
        ),
        _ => None,
    }
}

/// `little_exif`'s metadata of one image: its directories of tags. The
/// library carries it as it is and reaches into it only through the
/// functions below.
#[verifier::external_type_specification]
#[verifier::external_body]
pub struct ExMetadata(Metadata);

/// The metadata of one image, as parsed out of its file: the handle that
/// the pipeline reads positions from and writes them to.
pub type ImageMetadataHandle = Metadata;

/// What a handle holds: its directories in the order in which it keeps
/// them, each with its kind, the number of its image, and its tags in their
/// order. A directory that hangs off another, as the GPS directory does,
/// stands in the list like any other.
pub uninterp spec fn directories(handle: Metadata) -> Seq<DirectoryView>;

/// The bytes that `Metadata::encode` makes of a handle's directories, or
/// `None` where it fails.
pub uninterp spec fn tiff_bytes(handle: Metadata) -> Option<Seq<u8>>;

/// The directories that `Metadata::new_from_vec` reads out of a JPEG file,
/// or `None` where it fails.
pub uninterp spec fn exif_directories(bytes: Seq<u8>) -> Option<Seq<DirectoryView>>;

/// The JPEG file that `Metadata::write_to_vec` makes of a file and an
/// encoded directory, or `None` where it fails.
pub uninterp spec fn jpeg_with_exif(file: Seq<u8>, tiff: Seq<u8>) -> Option<Seq<u8>>;

/// Calls `Metadata::new_from_vec` for a JPEG file. Not proved: that the same
/// bytes always give the same directories or the same failure. Nothing is
/// claimed about which bytes are accepted.
///
/// The reader follows every link and every pointer that it finds, and
/// sorts the directories by kind and image, with a panic on two of one kind
/// and image. It fetches every value whatever length the entry claims. It
/// takes 16-bit values of two GPS tags for bytes, with a panic on one that
/// is none, and the first character of an altitude reference stored as
/// text, with a panic where there is none. And it makes signed rationals of
/// unsigned ones by way of a float, with a panic on some that are no whole
/// numbers. The condition leaves out the files on which one of these goes
/// wrong: [`directory_walkable`] goes the same way through the file first.
#[verifier::external_body]
fn read_metadata(bytes: &[u8]) -> (r: Option<Metadata>)
    requires
        directory_walkable(bytes@),
    ensures
        match r {
            Some(handle) => exif_directories(bytes@) == Some(directories(handle)),
            None => exif_directories(bytes@) is None,
        },
{
    Metadata::new_from_vec(&bytes.to_vec(), FileExtension::JPEG).ok()
}

/// Calls `Metadata::get_ifds` for the number of directories. Not proved:
/// that it is the length of [`directories`].
#[verifier::external_body]
fn directory_count(handle: &Metadata) -> (r: usize)
    ensures
        r == directories(*handle).len(),
{
    handle.get_ifds().len()
}

/// Calls `get_ifd_type` and `get_generic_ifd_nr` on one directory. Not
/// proved: that they give the kind and the image number of that directory
/// in [`directories`].
#[verifier::external_body]
fn directory_at(handle: &Metadata, directory: usize) -> (r: (DirectoryGroup, u32))
    requires
        directory < directories(*handle).len(),
    ensures
        r.0 == directories(*handle)[directory as int].group,
        r.1 == directories(*handle)[directory as int].image,
{
    let ifd = &handle.get_ifds()[directory];
    let group = match ifd.get_ifd_type() {
        ExifTagGroup::GENERIC => DirectoryGroup::Generic,
        ExifTagGroup::EXIF => DirectoryGroup::Exif,
        ExifTagGroup::INTEROP => DirectoryGroup::Interop,
        ExifTagGroup::GPS => DirectoryGroup::Gps,
    };
    (group, ifd.get_generic_ifd_nr())
}

/// Calls `ImageFileDirectory::get_tags` on one directory for the number of
/// its tags. Not proved: that it is the number of tags of that directory in
/// [`directories`].
#[verifier::external_body]
fn tag_count(handle: &Metadata, directory: usize) -> (r: usize)
    requires
        directory < directories(*handle).len(),
    ensures
        r == directories(*handle)[directory as int].tags.len(),
{
    handle.get_ifds()[directory].get_tags().len()
}

/// Reads one tag through `get_ifds` and `get_tags` and copies it out, but
/// for the bytes of a tag that is none of the four. Not proved: that a GPS
/// latitude or longitude tag, or one of their reference tags, comes out
/// with its value unchanged, and every other tag with what `as_u16` gives
/// for it.
#[verifier::external_body]
fn tag_at(handle: &Metadata, directory: usize, tag: usize) -> (r: GpsField)
    requires
        directory < directories(*handle).len(),
        tag < directories(*handle)[directory as int].tags.len(),
    ensures
        r@.kind() == directories(*handle)[directory as int].tags[tag as int].kind(),
        r@.id() == directories(*handle)[directory as int].tags[tag as int].id(),
        r@.kind() is Some ==> r@ == directories(*handle)[directory as int].tags[tag as int],
{
    let cooked = |triple: &Vec<uR64>| -> Vec<Rational> {
        triple.iter().map(|r| Rational::new(r.nominator, r.denominator)).collect()
    };
    match &handle.get_ifds()[directory].get_tags()[tag] {
        ExifTag::GPSLatitudeRef(letter) => GpsField::LatitudeRef(letter.clone()),
        ExifTag::GPSLatitude(triple) => GpsField::Latitude(cooked(triple)),
        ExifTag::GPSLongitudeRef(letter) => GpsField::LongitudeRef(letter.clone()),
        ExifTag::GPSLongitude(triple) => GpsField::Longitude(cooked(triple)),
        other => GpsField::Other { id: other.as_u16(), value: Vec::new() },
    }
}

/// Reads the bytes of one tag that is none of the four. Not proved: that
/// they are the bytes that [`directories`] gives the tag: the thumbnail of
/// a thumbnail tag, the strips of a strip tag with a zero byte between one
/// and the next, and what `value_as_u8_vec` gives of any other.
#[verifier::external_body]
fn tag_bytes(handle: &Metadata, directory: usize, tag: usize) -> (r: Vec<u8>)
    requires
        directory < directories(*handle).len(),
        tag < directories(*handle)[directory as int].tags.len(),
        directories(*handle)[directory as int].tags[tag as int] is Other,
    ensures
        r@ == directories(*handle)[directory as int].tags[tag as int]->value,
{
    match &handle.get_ifds()[directory].get_tags()[tag] {
        ExifTag::ThumbnailOffset(_, data) => data.clone(),
        ExifTag::StripOffsets(_, data) => data.join(&0u8),
        other => other.value_as_u8_vec(&handle.get_endian()),
    }
}

/// Whether a directory of the given kind and image holds `field`.
pub open spec fn holds_in(
    directories: Seq<DirectoryView>,
    group: DirectoryGroup,
    image: u32,
    field: GpsFieldView,
) -> bool {
    exists|i: int, j: int|
        #![trigger directories[i].tags[j]]
        {
            &&& 0 <= i < directories.len()
            &&& 0 <= j < directories[i].tags.len()
            &&& directories[i].group == group
            &&& directories[i].image == image
            &&& directories[i].tags[j] == field
        }
}

/// Whether some list of tags holds `field`.
pub open spec fn holds_field(tags: Seq<Seq<GpsFieldView>>, field: GpsFieldView) -> bool {
    exists|i: int, j: int|
        0 <= i < tags.len() && 0 <= j < tags[i].len() && #[trigger] tags[i][j] == field
}

/// Whether no list of tags holds a field of `kind`.
pub open spec fn lacks_kind(tags: Seq<Seq<GpsFieldView>>, kind: GpsKind) -> bool {
    forall|i: int, j: int|
        0 <= i < tags.len() && 0 <= j < tags[i].len() ==> (#[trigger] tags[i][j]).kind() != Some(
            kind,
        )
}

/// Whether every field of the kind of `field` that the tags hold is `field`
/// itself.
pub open spec fn is_only_of_kind(tags: Seq<Seq<GpsFieldView>>, field: GpsFieldView) -> bool {
    forall|i: int, j: int|
        0 <= i < tags.len() && 0 <= j < tags[i].len() && (#[trigger] tags[i][j]).same_kind(field)
            ==> tags[i][j] == field
}

/// Whether the tags hold no GPS position field besides those of `set`.
pub open spec fn holds_no_other_position(tags: Seq<Seq<GpsFieldView>>, set: GpsTagSetView) -> bool {
    &&& is_only_of_kind(tags, GpsFieldView::LatitudeRef(set.latitude_ref))
    &&& is_only_of_kind(tags, GpsFieldView::Latitude(set.latitude))
    &&& is_only_of_kind(tags, GpsFieldView::LongitudeRef(set.longitude_ref))
    &&& is_only_of_kind(tags, GpsFieldView::Longitude(set.longitude))
}

/// Whether the tags hold `coordinate` as far as a triple can: a scan finds
/// a position that lies within 1/720000 of a degree of it on either axis,
/// on the same side of zero.
pub open spec fn reads_back(tags: Seq<Seq<GpsFieldView>>, coordinate: DecimalCoordinateView) -> bool {
    &&& extract_spec(tags) matches Some(found)
    &&& found.latitude.within(coordinate.latitude, 1, 720000)
    &&& found.longitude.within(coordinate.longitude, 1, 720000)
    &&& found.latitude.negative == coordinate.latitude.below_zero()
    &&& found.longitude.negative == coordinate.longitude.below_zero()
}

/// Whether a tag is filed where [`apply_coordinate`] writes: in the GPS
/// directory of the first image, under the number of `field`.
pub open spec fn is_in_the_place_of(
    group: DirectoryGroup,
    image: u32,
    tag: GpsFieldView,
    field: GpsFieldView,
) -> bool {
    group == DirectoryGroup::Gps && image == 0 && tag.id() == field.id()
}

/// The number under which the fields of a kind are filed.
pub open spec fn kind_id(kind: GpsKind) -> u16 {
    match kind {
        GpsKind::LatitudeRef => LATITUDE_REF_ID,
        GpsKind::Latitude => LATITUDE_ID,
        GpsKind::LongitudeRef => LONGITUDE_REF_ID,
        GpsKind::Longitude => LONGITUDE_ID,
    }
}

/// Calls `Metadata::remove_tag` with a tag of one of the four GPS fields.
/// Not proved: that no GPS directory, of whichever image, then holds a tag
/// under the number of that field, that every other tag is still where it
/// was, that nothing is new, and that the directories stay in order.
///
/// `remove_tag` goes through the GPS directories of the images up to the
/// highest number that the directory of an image has, and takes the first
/// directory it finds of a kind and image. The condition sees to it that
/// this reaches every GPS directory.
#[verifier::external_body]
fn remove_field(handle: &mut Metadata, kind: GpsKind)
    requires
        is_orderly(directories(*old(handle))),
    ensures
        is_orderly(directories(*final(handle))),
        forall|image: u32, tag: GpsFieldView|
            #[trigger] holds_in(directories(*final(handle)), DirectoryGroup::Gps, image, tag)
                ==> tag.id() != kind_id(kind),
        forall|group: DirectoryGroup, image: u32, tag: GpsFieldView|
            #[trigger] holds_in(directories(*old(handle)), group, image, tag) && !(group
                == DirectoryGroup::Gps && tag.id() == kind_id(kind)) ==> holds_in(
                directories(*final(handle)),
                group,
                image,
                tag,
            ),
        forall|group: DirectoryGroup, image: u32, tag: GpsFieldView|
            #[trigger] holds_in(directories(*final(handle)), group, image, tag) ==> holds_in(
                directories(*old(handle)),
                group,
                image,
                tag,
            ),
{
    match kind {
        GpsKind::LatitudeRef => handle.remove_tag(ExifTag::GPSLatitudeRef(String::new())),
        GpsKind::Latitude => handle.remove_tag(ExifTag::GPSLatitude(Vec::new())),
        GpsKind::LongitudeRef => handle.remove_tag(ExifTag::GPSLongitudeRef(String::new())),
        GpsKind::Longitude => handle.remove_tag(ExifTag::GPSLongitude(Vec::new())),
    };
}

/// Calls `Metadata::set_tag` with one of the four GPS fields. Not proved,
/// of the GPS directory of the first image: that it then holds the field,
/// and under the number of the field nothing else. Not proved, of every
/// directory: that it still holds what it held, but for what the field took
/// the place of, and that it holds nothing new but the field. Not proved
/// either: that the directories stay in order.
///
/// `set_tag` makes the GPS directory of the first image and the directory
/// of that image where they are missing, sorts the directories by image and
/// kind, with a panic on two of one kind and image, and writes into the
/// first GPS directory of the first image that it finds. The condition
/// sees to it that there is one such directory at most.
#[verifier::external_body]
fn set_field(handle: &mut Metadata, field: GpsField)
    requires
        field@.kind() is Some,
        is_orderly(directories(*old(handle))),
    ensures
        is_orderly(directories(*final(handle))),
        holds_in(directories(*final(handle)), DirectoryGroup::Gps, 0, field@),
        forall|tag: GpsFieldView|
            #[trigger] holds_in(directories(*final(handle)), DirectoryGroup::Gps, 0, tag)
                && tag.id() == field@.id() ==> tag == field@,
        forall|group: DirectoryGroup, image: u32, tag: GpsFieldView|
            #[trigger] holds_in(directories(*old(handle)), group, image, tag)
                && !is_in_the_place_of(group, image, tag, field@) ==> holds_in(
                directories(*final(handle)),
                group,
                image,
                tag,
            ),
        forall|group: DirectoryGroup, image: u32, tag: GpsFieldView|
            #[trigger] holds_in(directories(*final(handle)), group, image, tag) ==> tag == field@
                || holds_in(directories(*old(handle)), group, image, tag),
{
    let raw = |triple: Vec<Rational>| -> Vec<uR64> {
        triple.iter().map(|r| uR64 { nominator: r.numerator, denominator: r.denominator }).collect()
    };
    match field {
        GpsField::LatitudeRef(letter) => handle.set_tag(ExifTag::GPSLatitudeRef(letter)),
        GpsField::Latitude(triple) => handle.set_tag(ExifTag::GPSLatitude(raw(triple))),
        GpsField::LongitudeRef(letter) => handle.set_tag(ExifTag::GPSLongitudeRef(letter)),
        GpsField::Longitude(triple) => handle.set_tag(ExifTag::GPSLongitude(raw(triple))),
        GpsField::Other { .. } => {},
    }
}

/// Whether a directory holds a tag under the number of a pointer that could
/// lead back to it: the EXIF directory one to an EXIF or GPS directory, a
/// GPS or interoperability directory one to any directory.
pub open spec fn leads_back(directory: DirectoryView) -> bool {
    exists|j: int|
        0 <= j < directory.tags.len() && is_pointer_back(
            directory.group,
            (#[trigger] directory.tags[j]).id(),
        )
}

/// Whether a tag number in a directory of a kind is that of a pointer that
/// could lead back to the directory.
pub open spec fn is_pointer_back(group: DirectoryGroup, id: u16) -> bool {
    match group {
        DirectoryGroup::Generic => false,
        DirectoryGroup::Exif => id == EXIF_POINTER_ID || id == GPS_POINTER_ID,
        _ => id == EXIF_POINTER_ID || id == GPS_POINTER_ID || id == INTEROP_POINTER_ID,
    }
}

/// Whether the pointers from directory to directory lead on and never back.
pub open spec fn pointers_lead_on(directories: Seq<DirectoryView>) -> bool {
    forall|i: int| 0 <= i < directories.len() ==> !leads_back(#[trigger] directories[i])
}

/// Calls `Metadata::encode`. Not proved: that the same handle always gives
/// the same bytes or the same failure.
///
/// The encoder goes from a directory to the one that a pointer tag in it
/// names, of the same image, and from there on. The second condition keeps
/// it from coming back: from the directory of an image it can go to the
/// three other kinds, from the EXIF directory to the interoperability
/// directory only, and from there and from the GPS directory nowhere. The
/// first condition keeps it from an assertion that there is one directory
/// to an image, and from the length of a thumbnail that is more than the
/// one number it leaves room for. The third keeps what it adds up in 32
/// bits in range: the sizes of the values and the offsets to them.
#[verifier::external_body]
fn encode_directories(handle: &Metadata) -> (r: Option<Vec<u8>>)
    requires
        is_orderly(directories(*handle)),
        pointers_lead_on(directories(*handle)),
        are_light(directories(*handle)),
    ensures
        match r {
            Some(tiff) => tiff_bytes(*handle) == Some(tiff@),
            None => tiff_bytes(*handle) is None,
        },
{
    handle.encode().ok()
}

/// Whether a file opens with an EXIF segment that holds `tiff`: the JPEG
/// signature, the APP1 marker, the length of the segment in sixteen bits,
/// the `Exif` header and then the encoded directories.
pub open spec fn opens_with(written: Seq<u8>, tiff: Seq<u8>) -> bool {
    &&& written.len() >= 12 + tiff.len()
    &&& written[0] == 0xff
    &&& written[1] == 0xd8
    &&& written[2] == 0xff
    &&& written[3] == 0xe1
    &&& written[4] * 256 + written[5] == 8 + tiff.len()
    &&& has_exif_header(written.subrange(6, 12))
    &&& written.subrange(12, 12 + tiff.len() as int) == tiff
}

/// Calls `Metadata::write_to_vec` for a JPEG file, on a copy of `file`.
/// Not proved: that the outcome depends on the file and on the encoded
/// directories alone, and that what is written opens with the segment of
/// the encoded directories.
///
/// The writer first takes the old EXIF segments out. For that it walks the
/// segments of the file, as [`framed_from`](crate::jpeg::framed_from) does,
/// and subtracts 2 from every length it meets. Then it puts the encoded
/// directories behind the signature and adds their length to the 8 bytes
/// around them in 16 bits. The conditions keep both computations in range.
#[verifier::external_body]
fn write_metadata(handle: &Metadata, file: &[u8]) -> (r: Option<Vec<u8>>)
    requires
        well_framed(file@),
        is_orderly(directories(*handle)),
        pointers_lead_on(directories(*handle)),
        are_light(directories(*handle)),
        tiff_bytes(*handle) is Some,
        tiff_bytes(*handle).unwrap().len() <= MAX_DIRECTORY_LENGTH,
    ensures
        match r {
            Some(written) => {
                &&& jpeg_with_exif(file@, tiff_bytes(*handle).unwrap()) == Some(written@)
                &&& opens_with(written@, tiff_bytes(*handle).unwrap())
            },
            None => jpeg_with_exif(file@, tiff_bytes(*handle).unwrap()) is None,
        },
{
    let mut buffer = file.to_vec();
    handle.write_to_vec(&mut buffer, FileExtension::JPEG).ok().map(|_| buffer)
}

/// What [`parse`] reads out of a file: the directories that the reader
/// finds, or `None` where the file is not one that it can be let loose on,
/// or where it fails.
pub open spec fn parse_spec(bytes: Seq<u8>) -> Option<Seq<DirectoryView>> {
    if directory_walkable(bytes) {
        exif_directories(bytes)
    } else {
        None
    }
}

/// The metadata of a JPEG file.
///
/// Fails with `UnsupportedOrCorruptContainer` where the bytes are not a JPEG
/// file whose metadata directory can be read. That includes every file on
/// which the reader would not come to an end, which is more than the files
/// that are corrupt. Refused are files in which
///
/// - a link from one image to the next leads in a circle,
/// - a directory holds two pointers to a directory of one kind, or a
///   pointer to itself or to the directory it hangs off,
/// - the value of an entry, or a strip or a thumbnail of the length that a
///   tag gives, does not lie inside the segment,
/// - the GPS version or the reference of the altitude is stored in 16-bit
///   numbers of which one is above 255, or the reference of the altitude
///   as a text without a character,
/// - the shutter speed, the brightness, the exposure compensation, the
///   temperature, the water depth or the camera angle is stored as an
///   unsigned rational that is no whole number.
pub fn parse(bytes: &[u8]) -> (r: Result<ImageMetadataHandle, PipelineError>)
    ensures
        match r {
            Ok(handle) => parse_spec(bytes@) == Some(directories(handle)),
            Err(e) => e == PipelineError::UnsupportedOrCorruptContainer && parse_spec(bytes@)
                is None,
        },
{
    if !directory_is_walkable(bytes) {
        return Err(PipelineError::UnsupportedOrCorruptContainer);
    }
    match read_metadata(bytes) {
        Some(handle) => Ok(handle),
        None => Err(PipelineError::UnsupportedOrCorruptContainer),
    }
}

/// The directories of a handle, copied out in their order.
pub fn read_directories(handle: &ImageMetadataHandle) -> (r: Vec<Directory>)
    ensures
        directories_view(r@) == directories(*handle),
{
    let count = directory_count(handle);
    let mut all: Vec<Directory> = Vec::new();
    let mut i: usize = 0;
    while i < count
        invariant
            i <= count,
            count == directories(*handle).len(),
            all@.len() == i,
            forall|k: int| 0 <= k < i ==> (#[trigger] all@[k])@ == directories(*handle)[k],
        decreases count - i,
    {
        let (group, image) = directory_at(handle, i);
        let length = tag_count(handle, i);
        let mut tags: Vec<GpsField> = Vec::new();
        let mut j: usize = 0;
        while j < length
            invariant
                i < count,
                count == directories(*handle).len(),
                j <= length,
                length == directories(*handle)[i as int].tags.len(),
                tags@.len() == j,
                forall|k: int|
                    0 <= k < j ==> (#[trigger] tags@[k])@ == directories(*handle)[i as int].tags[k],
            decreases length - j,
        {
            let field = match tag_at(handle, i, j) {
                GpsField::Other { id, .. } => GpsField::Other {
                    id,
                    value: tag_bytes(handle, i, j),
                },
                field => field,
            };
            tags.push(field);
            j = j + 1;
        }
        assert(fields_view(tags@) =~= directories(*handle)[i as int].tags);
        all.push(Directory { group, image, tags });
        i = i + 1;
    }
    assert(directories_view(all@) =~= directories(*handle));
    all
}

/// The coordinate that a handle's GPS fields hold, if they hold one.
///
/// All directories are scanned. `None` where one of the four fields is
/// missing or does not decode: partial or unreadable GPS data counts as no
/// position, never as an error.
pub fn extract_coordinate(handle: &ImageMetadataHandle) -> (r: Option<DecimalCoordinate>)
    ensures
        coordinate_view(r) == extract_spec(tags_of(directories(*handle))),
{
    let all = read_directories(handle);
    coordinate_from_fields(&all)
}

/// What [`encode_coordinate`] returns: for each axis its hemisphere letter
/// and its triple. A latitude that cannot be encoded is reported before a
/// longitude that cannot.
pub open spec fn encode_coordinate_spec(coordinate: DecimalCoordinateView) -> Result<
    GpsTagSetView,
    CodecError,
> {
    match encode_dms_spec(coordinate.latitude.magnitude()) {
        Err(e) => Err(e),
        Ok(latitude) => match encode_dms_spec(coordinate.longitude.magnitude()) {
            Err(e) => Err(e),
            Ok(longitude) => Ok(
                GpsTagSetView {
                    latitude_ref: reference_letter(
                        Axis::Latitude,
                        coordinate.latitude.below_zero(),
                    ),
                    latitude,
                    longitude_ref: reference_letter(
                        Axis::Longitude,
                        coordinate.longitude.below_zero(),
                    ),
                    longitude,
                },
            ),
        },
    }
}

/// The four GPS fields of a coordinate.
///
/// Fails with `MagnitudeTooLarge` where an axis has 2^32 degrees or more.
pub fn encode_coordinate(coordinate: DecimalCoordinate) -> (r: Result<GpsTagSet, CodecError>)
    ensures
        match r {
            Ok(tags) => encode_coordinate_spec(coordinate@) == Ok::<GpsTagSetView, CodecError>(
                tags@,
            ),
            Err(e) => encode_coordinate_spec(coordinate@) == Err::<GpsTagSetView, CodecError>(e),
        },
{
    let (latitude_ref, latitude) = match encode_coordinate_axis(
        Axis::Latitude,
        coordinate.latitude,
    ) {
        Ok(encoded) => encoded,
        Err(e) => {
            return Err(e);
        },
    };
    let (longitude_ref, longitude) = match encode_coordinate_axis(
        Axis::Longitude,
        coordinate.longitude,
    ) {
        Ok(encoded) => encoded,
        Err(e) => {
            return Err(e);
        },
    };
    Ok(GpsTagSet { latitude_ref, latitude, longitude_ref, longitude })
}

impl GpsTagSetView {
    /// Whether `field` is one of the four fields of the set.
    pub open spec fn has(self, field: GpsFieldView) -> bool {
        ||| field == GpsFieldView::LatitudeRef(self.latitude_ref)
        ||| field == GpsFieldView::Latitude(self.latitude)
        ||| field == GpsFieldView::LongitudeRef(self.longitude_ref)
        ||| field == GpsFieldView::Longitude(self.longitude)
    }
}

/// Whether the GPS directory of the first image holds all four fields of a
/// tag set.
pub open spec fn holds_tags(directories: Seq<DirectoryView>, set: GpsTagSetView) -> bool {
    &&& holds_in(directories, DirectoryGroup::Gps, 0, GpsFieldView::LatitudeRef(set.latitude_ref))
    &&& holds_in(directories, DirectoryGroup::Gps, 0, GpsFieldView::Latitude(set.latitude))
    &&& holds_in(directories, DirectoryGroup::Gps, 0, GpsFieldView::LongitudeRef(set.longitude_ref))
    &&& holds_in(directories, DirectoryGroup::Gps, 0, GpsFieldView::Longitude(set.longitude))
}

/// Whether `after` holds no tag that is neither one of `set` nor a tag that
/// `before` held in the same directory.
pub open spec fn adds_only(
    before: Seq<DirectoryView>,
    after: Seq<DirectoryView>,
    set: GpsTagSetView,
) -> bool {
    forall|group: DirectoryGroup, image: u32, tag: GpsFieldView|
        #[trigger] holds_in(after, group, image, tag) ==> set.has(tag) || holds_in(
            before,
            group,
            image,
            tag,
        )
}

/// Whether a tag is one that writing a position leaves alone: any tag but
/// those filed under the four numbers of a position in a GPS directory.
pub open spec fn is_left_alone(group: DirectoryGroup, tag: GpsFieldView) -> bool {
    !(group == DirectoryGroup::Gps && LATITUDE_REF_ID <= tag.id() <= LONGITUDE_ID)
}

/// Whether `after` still holds, in the same directory, every tag of `before`
/// that writing a position leaves alone.
pub open spec fn keeps_the_rest(before: Seq<DirectoryView>, after: Seq<DirectoryView>) -> bool {
    forall|group: DirectoryGroup, image: u32, tag: GpsFieldView|
        #[trigger] holds_in(before, group, image, tag) && is_left_alone(group, tag) ==> holds_in(
            after,
            group,
            image,
            tag,
        )
}

/// Whether every one of the four GPS fields that the directories hold lies
/// in a GPS directory, of whichever image.
pub open spec fn keeps_position_in_gps_directories(directories: Seq<DirectoryView>) -> bool {
    forall|i: int, j: int|
        0 <= i < directories.len() && 0 <= j < directories[i].tags.len() && (
        #[trigger] directories[i].tags[j]).kind() is Some ==> directories[i].group
            == DirectoryGroup::Gps
}

/// The field of a set of the given kind.
pub open spec fn field_of(set: GpsTagSetView, kind: GpsKind) -> GpsFieldView {
    match kind {
        GpsKind::LatitudeRef => GpsFieldView::LatitudeRef(set.latitude_ref),
        GpsKind::Latitude => GpsFieldView::Latitude(set.latitude),
        GpsKind::LongitudeRef => GpsFieldView::LongitudeRef(set.longitude_ref),
        GpsKind::Longitude => GpsFieldView::Longitude(set.longitude),
    }
}

/// Whether a tag, if it is one of the four GPS fields, is the one of `set`.
pub open spec fn agrees_with(tag: GpsFieldView, set: GpsTagSetView) -> bool {
    match tag {
        GpsFieldView::LatitudeRef(letter) => letter == set.latitude_ref,
        GpsFieldView::Latitude(triple) => triple == set.latitude,
        GpsFieldView::LongitudeRef(letter) => letter == set.longitude_ref,
        GpsFieldView::Longitude(triple) => triple == set.longitude,
        GpsFieldView::Other { .. } => true,
    }
}

/// Whether the tags hold all four fields of `set`.
pub open spec fn holds_fields(tags: Seq<Seq<GpsFieldView>>, set: GpsTagSetView) -> bool {
    &&& holds_field(tags, GpsFieldView::LatitudeRef(set.latitude_ref))
    &&& holds_field(tags, GpsFieldView::Latitude(set.latitude))
    &&& holds_field(tags, GpsFieldView::LongitudeRef(set.longitude_ref))
    &&& holds_field(tags, GpsFieldView::Longitude(set.longitude))
}

/// Whether a written file is read again as it was meant: [`parse`] takes
/// it, and the directories that come out hold the four fields of `set`, no
/// position field beside them, and every tag of `before` that writing a
/// position leaves alone; and without its EXIF segments it is `file`
/// without its own.
pub open spec fn is_read_again(
    written: Seq<u8>,
    before: Seq<DirectoryView>,
    file: Seq<u8>,
    set: GpsTagSetView,
) -> bool {
    &&& parse_spec(written) matches Some(found)
    &&& holds_fields(tags_of(found), set)
    &&& holds_no_other_position(tags_of(found), set)
    &&& keeps_the_rest(before, found)
    &&& without_exif(written) == without_exif(file)
}

/// What [`apply_coordinate`] gives for a handle that held `before` and is
/// patched: the file that comes of writing its directories, if that file is
/// read again as it was meant.
pub open spec fn applied(
    before: Seq<DirectoryView>,
    handle: Metadata,
    file: Seq<u8>,
    set: GpsTagSetView,
) -> Option<Seq<u8>> {
    match serialized(handle, file, set) {
        Some(written) => if is_read_again(written, before, file, set) {
            Some(written)
        } else {
            None
        },
        None => None,
    }
}

/// The file that comes of writing a handle's directories, with the position
/// `set` in them, into `file`, or `None` where that fails: where the
/// directories hold another position beside `set`, where a pointer in them
/// leads back, where they weigh too much, where they cannot be encoded or
/// are too long for one segment, where the segments of `file` cannot be
/// walked, or where the writer gives up.
pub open spec fn serialized(handle: Metadata, file: Seq<u8>, set: GpsTagSetView) -> Option<
    Seq<u8>,
> {
    if !holds_no_other_position(tags_of(directories(handle)), set) || !pointers_lead_on(
        directories(handle),
    ) || !are_light(directories(handle)) {
        None
    } else {
        match tiff_bytes(handle) {
            None => None,
            Some(tiff) => if tiff.len() > MAX_DIRECTORY_LENGTH || !well_framed(file) {
                None
            } else {
                jpeg_with_exif(file, tiff)
            },
        }
    }
}

/// What taking the fields of one kind out of a handle does to its
/// directories: no GPS directory holds a tag under their number, every
/// other tag is kept, and nothing is new.
spec fn is_one_removal(before: Seq<DirectoryView>, after: Seq<DirectoryView>, id: u16) -> bool {
    &&& forall|image: u32, tag: GpsFieldView|
        #[trigger] holds_in(after, DirectoryGroup::Gps, image, tag) ==> tag.id() != id
    &&& forall|group: DirectoryGroup, image: u32, tag: GpsFieldView|
        #[trigger] holds_in(before, group, image, tag) && !(group == DirectoryGroup::Gps
            && tag.id() == id) ==> holds_in(after, group, image, tag)
    &&& forall|group: DirectoryGroup, image: u32, tag: GpsFieldView|
        #[trigger] holds_in(after, group, image, tag) ==> holds_in(before, group, image, tag)
}

/// What one write into a handle does to its directories, as far as it is
/// known: the field is in its place and alone there, what was elsewhere is
/// kept, and nothing but the field is new.
spec fn is_one_write(before: Seq<DirectoryView>, after: Seq<DirectoryView>, field: GpsFieldView) -> bool {
    &&& holds_in(after, DirectoryGroup::Gps, 0, field)
    &&& forall|tag: GpsFieldView|
        #[trigger] holds_in(after, DirectoryGroup::Gps, 0, tag) && tag.id() == field.id() ==> tag
            == field
    &&& forall|group: DirectoryGroup, image: u32, tag: GpsFieldView|
        #[trigger] holds_in(before, group, image, tag) && !is_in_the_place_of(
            group,
            image,
            tag,
            field,
        ) ==> holds_in(after, group, image, tag)
    &&& forall|group: DirectoryGroup, image: u32, tag: GpsFieldView|
        #[trigger] holds_in(after, group, image, tag) ==> tag == field || holds_in(
            before,
            group,
            image,
            tag,
        )
}

/// A tag that the directories hold is among their tags, and every tag of
/// theirs is held by a directory.
proof fn lemma_holds_in_and_holds_field(directories: Seq<DirectoryView>)
    ensures
        forall|group: DirectoryGroup, image: u32, tag: GpsFieldView|
            #[trigger] holds_in(directories, group, image, tag) ==> holds_field(
                tags_of(directories),
                tag,
            ),
        forall|i: int, j: int|
            0 <= i < directories.len() && 0 <= j < directories[i].tags.len() ==> holds_in(
                directories,
                directories[i].group,
                directories[i].image,
                #[trigger] directories[i].tags[j],
            ),
{
    assert forall|group: DirectoryGroup, image: u32, tag: GpsFieldView| #[trigger]
        holds_in(directories, group, image, tag) implies holds_field(
        tags_of(directories),
        tag,
    ) by {
        let (i, j) = choose|i: int, j: int|
            #![trigger directories[i].tags[j]]
            {
                &&& 0 <= i < directories.len()
                &&& 0 <= j < directories[i].tags.len()
                &&& directories[i].group == group
                &&& directories[i].image == image
                &&& directories[i].tags[j] == tag
            };
        assert(tags_of(directories)[i][j] == tag);
    }
}

/// Four removals, one for each kind of field, leave no position in the GPS
/// directories, keep every other tag and add nothing.
proof fn lemma_four_removals(
    before: Seq<DirectoryView>,
    first: Seq<DirectoryView>,
    second: Seq<DirectoryView>,
    third: Seq<DirectoryView>,
    after: Seq<DirectoryView>,
)
    requires
        is_one_removal(before, first, LATITUDE_REF_ID),
        is_one_removal(first, second, LATITUDE_ID),
        is_one_removal(second, third, LONGITUDE_REF_ID),
        is_one_removal(third, after, LONGITUDE_ID),
    ensures
        forall|group: DirectoryGroup, image: u32, tag: GpsFieldView|
            #[trigger] holds_in(after, group, image, tag) ==> holds_in(before, group, image, tag)
                && is_left_alone(group, tag),
        forall|group: DirectoryGroup, image: u32, tag: GpsFieldView|
            #[trigger] holds_in(before, group, image, tag) && is_left_alone(group, tag)
                ==> holds_in(after, group, image, tag),
{
    assert forall|group: DirectoryGroup, image: u32, tag: GpsFieldView| #[trigger]
        holds_in(after, group, image, tag) implies holds_in(before, group, image, tag)
        && is_left_alone(group, tag) by {
        assert(holds_in(third, group, image, tag));
        assert(holds_in(second, group, image, tag));
        assert(holds_in(first, group, image, tag));
    }
    assert forall|group: DirectoryGroup, image: u32, tag: GpsFieldView| #[trigger]
        holds_in(before, group, image, tag) && is_left_alone(group, tag) implies holds_in(
        after,
        group,
        image,
        tag,
    ) by {
        assert(holds_in(first, group, image, tag));
        assert(holds_in(second, group, image, tag));
        assert(holds_in(third, group, image, tag));
    }
}

/// Four writes, one for each field of a position, into directories that
/// hold no position in their GPS directories put the position there, keep
/// every other tag, and add nothing but the four fields.
proof fn lemma_four_writes(
    before: Seq<DirectoryView>,
    first: Seq<DirectoryView>,
    second: Seq<DirectoryView>,
    third: Seq<DirectoryView>,
    after: Seq<DirectoryView>,
    set: GpsTagSetView,
)
    requires
        is_one_write(before, first, GpsFieldView::LatitudeRef(set.latitude_ref)),
        is_one_write(first, second, GpsFieldView::Latitude(set.latitude)),
        is_one_write(second, third, GpsFieldView::LongitudeRef(set.longitude_ref)),
        is_one_write(third, after, GpsFieldView::Longitude(set.longitude)),
        forall|group: DirectoryGroup, image: u32, tag: GpsFieldView|
            #[trigger] holds_in(before, group, image, tag) ==> is_left_alone(group, tag),
    ensures
        holds_tags(after, set),
        adds_only(before, after, set),
        forall|group: DirectoryGroup, image: u32, tag: GpsFieldView|
            #[trigger] holds_in(before, group, image, tag) ==> holds_in(after, group, image, tag),
        keeps_position_in_gps_directories(before) ==> holds_no_other_position(
            tags_of(after),
            set,
        ),
{
    let f1 = GpsFieldView::LatitudeRef(set.latitude_ref);
    let f2 = GpsFieldView::Latitude(set.latitude);
    let f3 = GpsFieldView::LongitudeRef(set.longitude_ref);
    let f4 = GpsFieldView::Longitude(set.longitude);
    let gps = DirectoryGroup::Gps;
    assert(holds_in(second, gps, 0, f1));
    assert(holds_in(third, gps, 0, f1));
    assert(holds_in(third, gps, 0, f2));
    assert(holds_tags(after, set));
    assert forall|group: DirectoryGroup, image: u32, tag: GpsFieldView| #[trigger]
        holds_in(after, group, image, tag) implies set.has(tag) || holds_in(
        before,
        group,
        image,
        tag,
    ) by {
        if !set.has(tag) {
            assert(holds_in(third, group, image, tag));
            assert(holds_in(second, group, image, tag));
            assert(holds_in(first, group, image, tag));
        }
    }
    assert forall|group: DirectoryGroup, image: u32, tag: GpsFieldView| #[trigger]
        holds_in(before, group, image, tag) implies holds_in(after, group, image, tag) by {
        assert(is_left_alone(group, tag));
        assert(holds_in(first, group, image, tag));
        assert(holds_in(second, group, image, tag));
        assert(holds_in(third, group, image, tag));
    }
    if keeps_position_in_gps_directories(before) {
        lemma_holds_in_and_holds_field(before);
        lemma_holds_in_and_holds_field(after);
        assert forall|i: int, j: int|
            0 <= i < after.len() && 0 <= j < after[i].tags.len() && (
            #[trigger] after[i].tags[j]).kind() is Some implies set.has(after[i].tags[j]) by {
            let tag = after[i].tags[j];
            let group = after[i].group;
            let image = after[i].image;
            assert(holds_in(after, group, image, tag));
            if !set.has(tag) {
                assert(holds_in(before, group, image, tag));
                let (a, b) = choose|a: int, b: int|
                    #![trigger before[a].tags[b]]
                    {
                        &&& 0 <= a < before.len()
                        &&& 0 <= b < before[a].tags.len()
                        &&& before[a].group == group
                        &&& before[a].image == image
                        &&& before[a].tags[b] == tag
                    };
                assert(group == gps);
                assert(is_left_alone(group, tag));
            }
        }
        let tags = tags_of(after);
        assert forall|i: int, j: int, field: GpsFieldView|
            0 <= i < tags.len() && 0 <= j < tags[i].len() && set.has(field) && (
            #[trigger] tags[i][j]).same_kind(field) implies #[trigger] set.has(field) && tags[i][j]
            == field by {
            assert(tags[i][j] == after[i].tags[j]);
            assert(set.has(after[i].tags[j]));
        }
        assert(set.has(f1) && set.has(f2) && set.has(f3) && set.has(f4));
    }
}

/// The number that a directory files a tag under.
pub fn tag_id(tag: &GpsField) -> (r: u16)
    ensures
        r == tag@.id(),
{
    match tag {
        GpsField::LatitudeRef(_) => LATITUDE_REF_ID,
        GpsField::Latitude(_) => LATITUDE_ID,
        GpsField::LongitudeRef(_) => LONGITUDE_REF_ID,
        GpsField::Longitude(_) => LONGITUDE_ID,
        GpsField::Other { id, .. } => *id,
    }
}

/// Whether two triples hold the same rationals.
fn same_triple(a: &Vec<Rational>, b: &Vec<Rational>) -> (r: bool)
    ensures
        r == (a@ == b@),
{
    if a.len() != b.len() {
        return false;
    }
    let mut k: usize = 0;
    while k < a.len()
        invariant
            k <= a.len(),
            a.len() == b.len(),
            forall|l: int| 0 <= l < k ==> a@[l] == b@[l],
        decreases a.len() - k,
    {
        if a[k].numerator != b[k].numerator || a[k].denominator != b[k].denominator {
            return false;
        }
        k = k + 1;
    }
    assert(a@ =~= b@);
    true
}

/// Whether a tag, if it is one of the four GPS fields, is the one of `set`.
fn tag_agrees(tag: &GpsField, set: &GpsTagSet) -> (r: bool)
    ensures
        r == agrees_with(tag@, set@),
{
    match tag {
        GpsField::LatitudeRef(letter) => *letter == set.latitude_ref,
        GpsField::Latitude(triple) => same_triple(triple, &set.latitude),
        GpsField::LongitudeRef(letter) => *letter == set.longitude_ref,
        GpsField::Longitude(triple) => same_triple(triple, &set.longitude),
        GpsField::Other { .. } => true,
    }
}

/// Whether the directories hold no position field beside those of `set`.
pub fn holds_one_position(directories: &Vec<Directory>, set: &GpsTagSet) -> (r: bool)
    ensures
        r == holds_no_other_position(tags_of(directories_view(directories@)), set@),
{
    let ghost tags = tags_of(directories_view(directories@));
    let mut i: usize = 0;
    while i < directories.len()
        invariant
            i <= directories.len(),
            tags == tags_of(directories_view(directories@)),
            forall|k: int, l: int|
                0 <= k < i && 0 <= l < tags[k].len() ==> agrees_with(#[trigger] tags[k][l], set@),
        decreases directories.len() - i,
    {
        let these = &directories[i].tags;
        let mut j: usize = 0;
        while j < these.len()
            invariant
                i < directories.len(),
                j <= these.len(),
                tags == tags_of(directories_view(directories@)),
                tags[i as int] == fields_view(these@),
                forall|l: int| 0 <= l < j ==> agrees_with(#[trigger] tags[i as int][l], set@),
            decreases these.len() - j,
        {
            if !tag_agrees(&these[j], set) {
                proof {
                    let tag = tags[i as int][j as int];
                    assert(tag == these@[j as int]@);
                    assert(tag.same_kind(GpsFieldView::LatitudeRef(set@.latitude_ref))
                        || tag.same_kind(GpsFieldView::Latitude(set@.latitude)) || tag.same_kind(
                        GpsFieldView::LongitudeRef(set@.longitude_ref),
                    ) || tag.same_kind(GpsFieldView::Longitude(set@.longitude)));
                }
                return false;
            }
            j = j + 1;
        }
        i = i + 1;
    }
    true
}

/// Whether a tag is the field of `set` of the given kind.
fn tag_is(tag: &GpsField, set: &GpsTagSet, kind: GpsKind) -> (r: bool)
    ensures
        r == (tag@ == field_of(set@, kind)),
{
    match (tag, kind) {
        (GpsField::LatitudeRef(letter), GpsKind::LatitudeRef) => *letter == set.latitude_ref,
        (GpsField::Latitude(triple), GpsKind::Latitude) => same_triple(triple, &set.latitude),
        (GpsField::LongitudeRef(letter), GpsKind::LongitudeRef) => *letter == set.longitude_ref,
        (GpsField::Longitude(triple), GpsKind::Longitude) => same_triple(triple, &set.longitude),
        _ => false,
    }
}

/// Whether the directories hold the field of `set` of the given kind.
fn holds_kind(directories: &Vec<Directory>, set: &GpsTagSet, kind: GpsKind) -> (r: bool)
    ensures
        r == holds_field(tags_of(directories_view(directories@)), field_of(set@, kind)),
{
    let ghost tags = tags_of(directories_view(directories@));
    let mut i: usize = 0;
    while i < directories.len()
        invariant
            i <= directories.len(),
            tags == tags_of(directories_view(directories@)),
            forall|k: int, l: int|
                0 <= k < i && 0 <= l < tags[k].len() ==> #[trigger] tags[k][l] != field_of(
                    set@,
                    kind,
                ),
        decreases directories.len() - i,
    {
        let these = &directories[i].tags;
        let mut j: usize = 0;
        while j < these.len()
            invariant
                i < directories.len(),
                j <= these.len(),
                tags == tags_of(directories_view(directories@)),
                tags[i as int] == fields_view(these@),
                forall|l: int| 0 <= l < j ==> #[trigger] tags[i as int][l] != field_of(set@, kind),
            decreases these.len() - j,
        {
            if tag_is(&these[j], set, kind) {
                assert(tags[i as int][j as int] == field_of(set@, kind));
                return true;
            }
            j = j + 1;
        }
        i = i + 1;
    }
    false
}

/// Whether the directories hold all four fields of `set`.
pub fn holds_position(directories: &Vec<Directory>, set: &GpsTagSet) -> (r: bool)
    ensures
        r == holds_fields(tags_of(directories_view(directories@)), set@),
{
    holds_kind(directories, set, GpsKind::LatitudeRef) && holds_kind(
        directories,
        set,
        GpsKind::Latitude,
    ) && holds_kind(directories, set, GpsKind::LongitudeRef) && holds_kind(
        directories,
        set,
        GpsKind::Longitude,
    )
}

/// Whether two runs of bytes are the same.
fn same_bytes(a: &Vec<u8>, b: &Vec<u8>) -> (r: bool)
    ensures
        r == (a@ == b@),
{
    if a.len() != b.len() {
        return false;
    }
    let mut k: usize = 0;
    while k < a.len()
        invariant
            k <= a.len(),
            a.len() == b.len(),
            forall|l: int| 0 <= l < k ==> a@[l] == b@[l],
        decreases a.len() - k,
    {
        if a[k] != b[k] {
            return false;
        }
        k = k + 1;
    }
    assert(a@ =~= b@);
    true
}

/// Whether two tags are the same, value and all.
pub fn same_tag(a: &GpsField, b: &GpsField) -> (r: bool)
    ensures
        r == (a@ == b@),
{
    match (a, b) {
        (GpsField::LatitudeRef(x), GpsField::LatitudeRef(y)) => *x == *y,
        (GpsField::Latitude(x), GpsField::Latitude(y)) => same_triple(x, y),
        (GpsField::LongitudeRef(x), GpsField::LongitudeRef(y)) => *x == *y,
        (GpsField::Longitude(x), GpsField::Longitude(y)) => same_triple(x, y),
        (GpsField::Other { id: i, value: x }, GpsField::Other { id: j, value: y }) => *i == *j
            && same_bytes(x, y),
        _ => false,
    }
}

/// Whether a directory of the given kind and image holds the tag.
pub fn is_held(directories: &Vec<Directory>, group: DirectoryGroup, image: u32, tag: &GpsField) -> (r:
    bool)
    ensures
        r == holds_in(directories_view(directories@), group, image, tag@),
{
    let ghost all = directories_view(directories@);
    let mut i: usize = 0;
    while i < directories.len()
        invariant
            i <= directories.len(),
            all == directories_view(directories@),
            forall|k: int, l: int|
                0 <= k < i && 0 <= l < all[k].tags.len() ==> !(all[k].group == group
                    && all[k].image == image && #[trigger] all[k].tags[l] == tag@),
        decreases directories.len() - i,
    {
        if same_group(directories[i].group, group) && directories[i].image == image {
            let these = &directories[i].tags;
            let mut j: usize = 0;
            while j < these.len()
                invariant
                    i < directories.len(),
                    j <= these.len(),
                    all == directories_view(directories@),
                    all[i as int].group == group,
                    all[i as int].image == image,
                    all[i as int].tags == fields_view(these@),
                    forall|l: int| 0 <= l < j ==> #[trigger] all[i as int].tags[l] != tag@,
                decreases these.len() - j,
            {
                if same_tag(&these[j], tag) {
                    assert(all[i as int].tags[j as int] == tag@);
                    return true;
                }
                j = j + 1;
            }
        }
        i = i + 1;
    }
    false
}

/// Whether `after` still holds, in the same directory, every tag of `before`
/// that writing a position leaves alone.
pub fn keeps_rest(before: &Vec<Directory>, after: &Vec<Directory>) -> (r: bool)
    ensures
        r == keeps_the_rest(directories_view(before@), directories_view(after@)),
{
    let ghost old = directories_view(before@);
    let ghost new = directories_view(after@);
    proof {
        lemma_holds_in_and_holds_field(old);
    }
    let mut i: usize = 0;
    while i < before.len()
        invariant
            i <= before.len(),
            old == directories_view(before@),
            new == directories_view(after@),
            forall|k: int, l: int|
                0 <= k < old.len() && 0 <= l < old[k].tags.len() ==> holds_in(
                    old,
                    old[k].group,
                    old[k].image,
                    #[trigger] old[k].tags[l],
                ),
            forall|k: int, l: int|
                0 <= k < i && 0 <= l < old[k].tags.len() && is_left_alone(
                    old[k].group,
                    #[trigger] old[k].tags[l],
                ) ==> holds_in(new, old[k].group, old[k].image, old[k].tags[l]),
        decreases before.len() - i,
    {
        let group = before[i].group;
        let image = before[i].image;
        let these = &before[i].tags;
        let mut j: usize = 0;
        while j < these.len()
            invariant
                i < before.len(),
                j <= these.len(),
                old == directories_view(before@),
                new == directories_view(after@),
                old[i as int].group == group,
                old[i as int].image == image,
                old[i as int].tags == fields_view(these@),
                forall|k: int, l: int|
                    0 <= k < old.len() && 0 <= l < old[k].tags.len() ==> holds_in(
                        old,
                        old[k].group,
                        old[k].image,
                        #[trigger] old[k].tags[l],
                    ),
                forall|l: int|
                    0 <= l < j && is_left_alone(group, #[trigger] old[i as int].tags[l])
                        ==> holds_in(new, group, image, old[i as int].tags[l]),
            decreases these.len() - j,
        {
            let id = tag_id(&these[j]);
            let position = same_group(group, DirectoryGroup::Gps) && LATITUDE_REF_ID <= id && id
                <= LONGITUDE_ID;
            if !position && !is_held(after, group, image, &these[j]) {
                proof {
                    let tag = old[i as int].tags[j as int];
                    assert(holds_in(old, group, image, tag));
                    assert(is_left_alone(group, tag));
                    assert(!holds_in(new, group, image, tag));
                }
                return false;
            }
            j = j + 1;
        }
        i = i + 1;
    }
    proof {
        assert forall|group: DirectoryGroup, image: u32, tag: GpsFieldView| #[trigger]
            holds_in(old, group, image, tag) && is_left_alone(group, tag) implies holds_in(
            new,
            group,
            image,
            tag,
        ) by {
            let (k, l) = choose|k: int, l: int|
                #![trigger old[k].tags[l]]
                {
                    &&& 0 <= k < old.len()
                    &&& 0 <= l < old[k].tags.len()
                    &&& old[k].group == group
                    &&& old[k].image == image
                    &&& old[k].tags[l] == tag
                };
            assert(holds_in(new, old[k].group, old[k].image, old[k].tags[l]));
        }
    }
    true
}

/// Whether the pointers of the directories lead on and never back.
pub fn pointers_are_forward(directories: &Vec<Directory>) -> (r: bool)
    ensures
        r == pointers_lead_on(directories_view(directories@)),
{
    let ghost all = directories_view(directories@);
    let mut i: usize = 0;
    while i < directories.len()
        invariant
            i <= directories.len(),
            all == directories_view(directories@),
            forall|k: int| 0 <= k < i ==> !leads_back(#[trigger] all[k]),
        decreases directories.len() - i,
    {
        let group = directories[i].group;
        let these = &directories[i].tags;
        let mut j: usize = 0;
        while j < these.len()
            invariant
                i < directories.len(),
                j <= these.len(),
                all == directories_view(directories@),
                all[i as int].tags == fields_view(these@),
                all[i as int].group == group,
                forall|l: int|
                    0 <= l < j ==> !is_pointer_back(group, (#[trigger] all[i as int].tags[l]).id()),
            decreases these.len() - j,
        {
            let id = tag_id(&these[j]);
            let back = match group {
                DirectoryGroup::Generic => false,
                DirectoryGroup::Exif => id == EXIF_POINTER_ID || id == GPS_POINTER_ID,
                _ => id == EXIF_POINTER_ID || id == GPS_POINTER_ID || id == INTEROP_POINTER_ID,
            };
            if back {
                assert(is_pointer_back(group, all[i as int].tags[j as int].id()));
                assert(leads_back(all[i as int]));
                return false;
            }
            j = j + 1;
        }
        i = i + 1;
    }
    true
}

/// Puts a coordinate into a handle and writes the handle into a copy of the
/// file it was parsed from.
///
/// What the GPS directories held of the four position fields, under
/// whichever image, is taken out, and the four fields of the coordinate go
/// into the GPS directory of the first image. Every other tag stays where
/// it was, and nothing else is added. A handle that comes out of a success
/// holds the coordinate and no other position: a scan of it finds the
/// coordinate again, moved by the rounding of the seconds at most.
///
/// What is written is read once more before it is handed out: the file
/// that comes of a success is one that [`parse`] takes, in which a scan
/// finds the coordinate, moved by the rounding of the seconds at most, and
/// in which every other tag that the handle held is found again, in its
/// directory and with its bytes. Outside its EXIF segments that file is the
/// one that was given, byte for byte: the image is the same.
///
/// Fails with `Coordinate` where the coordinate has no encoding; the handle
/// is then untouched. Fails with `SerializationFailed`, the handle
/// untouched as well, where its directories are not in order: two of one
/// kind and image, one without an image, or a thumbnail length of more than
/// one number. Fails with `SerializationFailed` where the patched
/// directories cannot be written or are not read again as they were meant;
/// the handle then holds the new fields all the same. That includes
/// directories that hold a position field outside their GPS directories, a
/// pointer that leads back, or a tag that the writer leaves out.
pub fn apply_coordinate(
    handle: &mut ImageMetadataHandle,
    original_bytes: &[u8],
    coordinate: DecimalCoordinate,
) -> (r: Result<Vec<u8>, PipelineError>)
    ensures
        match encode_coordinate_spec(coordinate@) {
            Err(e) => {
                &&& r == Err::<Vec<u8>, PipelineError>(PipelineError::Coordinate(e))
                &&& *final(handle) == *old(handle)
            },
            Ok(set) => if !is_orderly(directories(*old(handle))) {
                &&& r == Err::<Vec<u8>, PipelineError>(PipelineError::SerializationFailed)
                &&& *final(handle) == *old(handle)
            } else {
                &&& is_orderly(directories(*final(handle)))
                &&& holds_tags(directories(*final(handle)), set)
                &&& adds_only(directories(*old(handle)), directories(*final(handle)), set)
                &&& keeps_the_rest(directories(*old(handle)), directories(*final(handle)))
                &&& keeps_position_in_gps_directories(directories(*old(handle)))
                    ==> holds_no_other_position(tags_of(directories(*final(handle))), set)
                &&& r is Ok ==> reads_back(tags_of(directories(*final(handle))), coordinate@)
                &&& r matches Ok(written) ==> opens_with(
                    written@,
                    tiff_bytes(*final(handle)).unwrap(),
                )
                &&& r matches Ok(written) ==> (parse_spec(written@) matches Some(found)
                    && reads_back(tags_of(found), coordinate@) && keeps_the_rest(
                    directories(*old(handle)),
                    found,
                ))
                &&& r matches Ok(written) ==> without_exif(written@) == without_exif(
                    original_bytes@,
                )
                &&& match r {
                    Ok(written) => applied(
                        directories(*old(handle)),
                        *final(handle),
                        original_bytes@,
                        set,
                    ) == Some(written@),
                    Err(e) => {
                        &&& e == PipelineError::SerializationFailed
                        &&& applied(
                            directories(*old(handle)),
                            *final(handle),
                            original_bytes@,
                            set,
                        ) is None
                    },
                }
            },
        },
{
    let tags = match encode_coordinate(coordinate) {
        Ok(tags) => tags,
        Err(e) => {
            return Err(PipelineError::Coordinate(e));
        },
    };
    let written = match encode_coordinate(coordinate) {
        Ok(written) => written,
        Err(e) => {
            return Err(PipelineError::Coordinate(e));
        },
    };
    let held = read_directories(handle);
    if !directories_are_orderly(&held) {
        return Err(PipelineError::SerializationFailed);
    }
    put_position(handle, tags);
    let file = write_out(handle, original_bytes, &held, &written);
    proof {
        if file is Some {
            let found = parse_spec(file.unwrap()@).unwrap();
            use_type_invariant(&coordinate.latitude);
            use_type_invariant(&coordinate.longitude);
            coordinate.latitude.lemma_well_formed();
            coordinate.longitude.lemma_well_formed();
            lemma_holds_in_and_holds_field(directories(*handle));
            lemma_sole_position_is_read_back(tags_of(directories(*handle)), coordinate@);
            lemma_sole_position_is_read_back(tags_of(found), coordinate@);
        }
    }
    match file {
        Some(file) => Ok(file),
        None => Err(PipelineError::SerializationFailed),
    }
}

/// Takes what the GPS directories hold of a position out of a handle and
/// puts the four fields of `tags` into the GPS directory of the first image.
fn put_position(handle: &mut Metadata, tags: GpsTagSet)
    requires
        is_orderly(directories(*old(handle))),
    ensures
        is_orderly(directories(*final(handle))),
        holds_tags(directories(*final(handle)), tags@),
        adds_only(directories(*old(handle)), directories(*final(handle)), tags@),
        keeps_the_rest(directories(*old(handle)), directories(*final(handle))),
        keeps_position_in_gps_directories(directories(*old(handle)))
            ==> holds_no_other_position(tags_of(directories(*final(handle))), tags@),
{
    let ghost set = tags@;
    let ghost before = directories(*handle);
    remove_field(handle, GpsKind::LatitudeRef);
    let ghost r1 = directories(*handle);
    remove_field(handle, GpsKind::Latitude);
    let ghost r2 = directories(*handle);
    remove_field(handle, GpsKind::LongitudeRef);
    let ghost r3 = directories(*handle);
    remove_field(handle, GpsKind::Longitude);
    let ghost cleared = directories(*handle);
    set_field(handle, GpsField::LatitudeRef(tags.latitude_ref));
    let ghost w1 = directories(*handle);
    set_field(handle, GpsField::Latitude(tags.latitude));
    let ghost w2 = directories(*handle);
    set_field(handle, GpsField::LongitudeRef(tags.longitude_ref));
    let ghost w3 = directories(*handle);
    set_field(handle, GpsField::Longitude(tags.longitude));
    proof {
        let after = directories(*handle);
        lemma_four_removals(before, r1, r2, r3, cleared);
        lemma_four_writes(cleared, w1, w2, w3, after, set);
        lemma_holds_in_and_holds_field(before);
        lemma_holds_in_and_holds_field(cleared);
        assert(adds_only(before, after, set));
        assert(keeps_the_rest(before, after));
        if keeps_position_in_gps_directories(before) {
            assert forall|i: int, j: int|
                0 <= i < cleared.len() && 0 <= j < cleared[i].tags.len() implies (
            #[trigger] cleared[i].tags[j]).kind() is None by {
                let tag = cleared[i].tags[j];
                assert(holds_in(cleared, cleared[i].group, cleared[i].image, tag));
                if tag.kind() is Some {
                    assert(holds_in(before, cleared[i].group, cleared[i].image, tag));
                    let (a, b) = choose|a: int, b: int|
                        #![trigger before[a].tags[b]]
                        {
                            &&& 0 <= a < before.len()
                            &&& 0 <= b < before[a].tags.len()
                            &&& before[a].group == cleared[i].group
                            &&& before[a].image == cleared[i].image
                            &&& before[a].tags[b] == tag
                        };
                    assert(cleared[i].group == DirectoryGroup::Gps);
                    assert(!is_left_alone(cleared[i].group, tag));
                }
            }
            assert(keeps_position_in_gps_directories(cleared));
        }
    }
}

/// Writes the directories of a patched handle into a copy of the file and
/// reads the copy again, to see that it holds what it was meant to.
fn write_out(handle: &Metadata, file: &[u8], held: &Vec<Directory>, set: &GpsTagSet) -> (r: Option<
    Vec<u8>,
>)
    requires
        is_orderly(directories(*handle)),
    ensures
        match r {
            Some(written) => {
                &&& applied(directories_view(held@), *handle, file@, set@) == Some(written@)
                &&& opens_with(written@, tiff_bytes(*handle).unwrap())
            },
            None => applied(directories_view(held@), *handle, file@, set@) is None,
        },
{
    let all = read_directories(handle);
    if !holds_one_position(&all, set) || !pointers_are_forward(&all) || !directories_are_light(
        &all,
    ) {
        return None;
    }
    let tiff = match encode_directories(handle) {
        Some(tiff) => tiff,
        None => {
            return None;
        },
    };
    if tiff.len() > MAX_DIRECTORY_LENGTH || !segments_well_framed(file) {
        return None;
    }
    let written = match write_metadata(handle, file) {
        Some(written) => written,
        None => {
            return None;
        },
    };
    let again = match parse(written.as_slice()) {
        Ok(again) => read_directories(&again),
        Err(_) => {
            return None;
        },
    };
    if !holds_position(&again, set) || !holds_one_position(&again, set) || !keeps_rest(
        held,
        &again,
    ) {
        return None;
    }
    let left = take_exif_out(written.as_slice());
    let meant = take_exif_out(file);
    if !same_bytes(&left, &meant) {
        return None;
    }
    Some(written)
}

} // verus!
