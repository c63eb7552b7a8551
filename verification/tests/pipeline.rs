use exif_gps::codec::CodecError;
use exif_gps::degrees::Degrees;
use exif_gps::jpeg::take_exif_out;
use exif_gps::pipeline::apply_coordinate;
use exif_gps::pipeline::coordinate_from_fields;
use exif_gps::pipeline::encode_coordinate;
use exif_gps::pipeline::extract_coordinate;
use exif_gps::pipeline::parse;
use exif_gps::pipeline::read_directories;
use exif_gps::pipeline::DecimalCoordinate;
use exif_gps::pipeline::Directory;
use exif_gps::pipeline::DirectoryGroup;
use exif_gps::pipeline::GpsField;
use exif_gps::pipeline::PipelineError;
use exif_gps::rational::Rational;
use little_exif::exif_tag::ExifTag;
use little_exif::filetype::FileExtension;
use little_exif::ifd::ExifTagGroup;
use little_exif::metadata::Metadata;
use little_exif::rational::uR64;

fn degrees_of(value: f64) -> Degrees {
    Degrees::from_binary64(value.to_bits()).unwrap()
}

fn float_of(value: &Degrees) -> f64 {
    f64::from_bits(value.to_binary64())
}

fn coordinate(latitude: f64, longitude: f64) -> DecimalCoordinate {
    DecimalCoordinate { latitude: degrees_of(latitude), longitude: degrees_of(longitude) }
}

fn triple(degrees: u32, minutes: u32, centiseconds: u32) -> Vec<Rational> {
    vec![
        Rational::new(degrees, 1),
        Rational::new(minutes, 1),
        Rational::new(centiseconds, 100),
    ]
}

fn raw_triple(degrees: u32, minutes: u32, centiseconds: u32) -> Vec<uR64> {
    vec![
        uR64 { nominator: degrees, denominator: 1 },
        uR64 { nominator: minutes, denominator: 1 },
        uR64 { nominator: centiseconds, denominator: 100 },
    ]
}

/// A small JPEG file without metadata: quantisation table, frame header,
/// start of scan, a few bytes of entropy-coded data, end of image.
fn bare_jpeg() -> Vec<u8> {
    let mut file = vec![0xff, 0xd8];
    file.extend([0xff, 0xe0, 0x00, 0x10]);
    file.extend(*b"JFIF\0");
    file.extend([0x01, 0x01, 0x00, 0x00, 0x01, 0x00, 0x01, 0x00, 0x00]);
    file.extend([0xff, 0xdb, 0x00, 0x43, 0x00]);
    file.extend([0x10; 64]);
    file.extend([0xff, 0xc0, 0x00, 0x0b, 0x08, 0x00, 0x01, 0x00, 0x01, 0x01, 0x01, 0x11, 0x00]);
    file.extend([0xff, 0xda, 0x00, 0x08, 0x01, 0x01, 0x00, 0x00, 0x3f, 0x00]);
    file.extend([0x37, 0xff, 0x00, 0x9a, 0xff, 0xd0, 0x21]);
    file.extend([0xff, 0xd9]);
    file
}

/// The bare file with the given metadata written into it.
fn jpeg_with(metadata: &Metadata) -> Vec<u8> {
    let mut file = bare_jpeg();
    metadata.write_to_vec(&mut file, FileExtension::JPEG).unwrap();
    file
}

/// A file that carries a description, a camera make and an exposure time,
/// and no position.
fn jpeg_without_position() -> Vec<u8> {
    let mut metadata = Metadata::new();
    metadata.set_tag(ExifTag::ImageDescription("harbour at dusk".to_string()));
    metadata.set_tag(ExifTag::Make("Pinhole".to_string()));
    metadata.set_tag(ExifTag::ExposureTime(vec![uR64 { nominator: 1, denominator: 250 }]));
    jpeg_with(&metadata)
}

/// A file with the four GPS fields of a place in Sydney, and a description.
fn jpeg_with_position() -> Vec<u8> {
    let mut metadata = Metadata::new();
    metadata.set_tag(ExifTag::ImageDescription("opera house".to_string()));
    metadata.set_tag(ExifTag::GPSLatitudeRef("S".to_string()));
    metadata.set_tag(ExifTag::GPSLatitude(raw_triple(33, 51, 2442)));
    metadata.set_tag(ExifTag::GPSLongitudeRef("E".to_string()));
    metadata.set_tag(ExifTag::GPSLongitude(raw_triple(151, 12, 5507)));
    jpeg_with(&metadata)
}

/// A directory of the given tags, as the GPS directory of the first image.
fn directory(tags: Vec<GpsField>) -> Directory {
    Directory { group: DirectoryGroup::Gps, image: 0, tags }
}

fn other() -> GpsField {
    GpsField::Other { id: 0x010e, value: b"text\0".to_vec() }
}

/// Every tag of a handle, with the kind and image of its directory.
fn all_tags(handle: &Metadata) -> Vec<(DirectoryGroup, u32, GpsField)> {
    let mut all = Vec::new();
    for directory in read_directories(handle) {
        for tag in directory.tags {
            all.push((directory.group, directory.image, tag));
        }
    }
    all
}

fn same_tag(a: &GpsField, b: &GpsField) -> bool {
    match (a, b) {
        (GpsField::LatitudeRef(x), GpsField::LatitudeRef(y)) => x == y,
        (GpsField::LongitudeRef(x), GpsField::LongitudeRef(y)) => x == y,
        (GpsField::Latitude(x), GpsField::Latitude(y)) => x == y,
        (GpsField::Longitude(x), GpsField::Longitude(y)) => x == y,
        (GpsField::Other { id: i, value: v }, GpsField::Other { id: j, value: w }) => {
            i == j && v == w
        }
        _ => false,
    }
}

fn first_string(metadata: &Metadata, tag: &ExifTag) -> Option<String> {
    match metadata.get_tag(tag).next() {
        Some(ExifTag::ImageDescription(text)) => Some(text.clone()),
        Some(ExifTag::Make(text)) => Some(text.clone()),
        _ => None,
    }
}

#[test]
fn parse_rejects_what_is_no_jpeg() {
    assert_eq!(parse(&[]).err(), Some(PipelineError::UnsupportedOrCorruptContainer));
    assert_eq!(
        parse(b"\x89PNG\r\n\x1a\n").err(),
        Some(PipelineError::UnsupportedOrCorruptContainer),
    );
    assert_eq!(
        parse(b"not an image at all").err(),
        Some(PipelineError::UnsupportedOrCorruptContainer),
    );
}

#[test]
fn parse_rejects_a_jpeg_without_metadata() {
    assert_eq!(parse(&bare_jpeg()).err(), Some(PipelineError::UnsupportedOrCorruptContainer));
}

#[test]
fn parse_rejects_a_directory_that_is_cut_off() {
    let file = jpeg_with_position();
    assert_eq!(parse(&file[..40]).err(), Some(PipelineError::UnsupportedOrCorruptContainer));
}

#[test]
fn parse_reads_the_tags_of_a_file() {
    let handle = parse(&jpeg_with_position()).unwrap();
    let all: Vec<GpsField> = all_tags(&handle).into_iter().map(|(_, _, tag)| tag).collect();
    let mut letters = Vec::new();
    let mut triples = Vec::new();
    let mut others = 0;
    for field in all {
        match field {
            GpsField::LatitudeRef(letter) => letters.push(("latitude", letter)),
            GpsField::LongitudeRef(letter) => letters.push(("longitude", letter)),
            GpsField::Latitude(value) => triples.push(("latitude", value)),
            GpsField::Longitude(value) => triples.push(("longitude", value)),
            GpsField::Other { .. } => others += 1,
        }
    }
    assert_eq!(letters, vec![("latitude", "S".to_string()), ("longitude", "E".to_string())]);
    assert_eq!(
        triples,
        vec![("latitude", triple(33, 51, 2442)), ("longitude", triple(151, 12, 5507))],
    );
    assert!(others >= 1);
}

#[test]
fn read_directories_follows_the_handle() {
    let mut handle = Metadata::new();
    assert!(read_directories(&handle).iter().all(|directory| directory.tags.is_empty()));
    handle.set_tag(ExifTag::Make("Pinhole".to_string()));
    handle.set_tag(ExifTag::GPSLongitudeRef("W".to_string()));
    let directories = read_directories(&handle);
    assert_eq!(directories.len(), handle.get_ifds().len());
    for (directory, ifd) in directories.iter().zip(handle.get_ifds()) {
        assert_eq!(directory.tags.len(), ifd.get_tags().len());
        assert_eq!(directory.image, ifd.get_generic_ifd_nr());
    }
    let all = all_tags(&handle);
    assert_eq!(all.len(), 2);
    assert!(all.iter().any(|(group, image, tag)| {
        *group == DirectoryGroup::Generic
            && *image == 0
            && matches!(tag, GpsField::Other { id: 0x010f, value } if value == b"Pinhole\0")
    }));
    assert!(all.iter().any(|(group, image, tag)| {
        *group == DirectoryGroup::Gps
            && *image == 0
            && matches!(tag, GpsField::LongitudeRef(l) if l == "W")
    }));
}

#[test]
fn read_directories_tells_the_directories_apart() {
    let mut handle = Metadata::new();
    handle.set_tag(ExifTag::Make("Pinhole".to_string()));
    handle.set_tag(ExifTag::ExposureTime(vec![uR64 { nominator: 1, denominator: 250 }]));
    handle.set_tag(ExifTag::GPSLatitudeRef("N".to_string()));
    handle.get_ifd_mut(ExifTagGroup::GENERIC, 1)
        .set_tag(ExifTag::Make("Second".to_string()));
    let seen: Vec<(DirectoryGroup, u32, usize)> = read_directories(&handle)
        .iter()
        .map(|directory| (directory.group, directory.image, directory.tags.len()))
        .collect();
    assert_eq!(
        seen,
        vec![
            (DirectoryGroup::Generic, 0, 1),
            (DirectoryGroup::Exif, 0, 1),
            (DirectoryGroup::Gps, 0, 1),
            (DirectoryGroup::Generic, 1, 1),
        ],
    );
}

#[test]
fn read_directories_gives_other_tags_their_number_and_bytes() {
    let mut handle = Metadata::new();
    handle.set_tag(ExifTag::ExposureTime(vec![uR64 { nominator: 1, denominator: 250 }]));
    let all = all_tags(&handle);
    assert_eq!(all.len(), 1);
    match &all[0] {
        (DirectoryGroup::Exif, 0, GpsField::Other { id, value }) => {
            assert_eq!(*id, 0x829a);
            assert_eq!(value, &vec![1, 0, 0, 0, 250, 0, 0, 0]);
        }
        unexpected => panic!("{:?}", unexpected),
    }
}

#[test]
fn extract_coordinate_reads_a_position() {
    let handle = parse(&jpeg_with_position()).unwrap();
    let found = extract_coordinate(&handle).unwrap();
    assert!(found.latitude.negative());
    assert_eq!(found.latitude.numerator(), 3600 * 33 * 100 + 60 * 51 * 100 + 2442);
    assert_eq!(found.latitude.denominator(), 360000);
    assert!(!found.longitude.negative());
    assert_eq!(found.longitude.numerator(), 3600 * 151 * 100 + 60 * 12 * 100 + 5507);
    assert_eq!(found.longitude.denominator(), 360000);
    assert!((float_of(&found.latitude) + 33.856783).abs() < 1e-6);
    assert!((float_of(&found.longitude) - 151.215297).abs() < 1e-6);
}

#[test]
fn extract_coordinate_without_gps_fields_is_none() {
    let handle = parse(&jpeg_without_position()).unwrap();
    assert!(extract_coordinate(&handle).is_none());
    assert!(extract_coordinate(&Metadata::new()).is_none());
}

#[test]
fn extract_coordinate_with_latitude_only_is_none() {
    let mut handle = Metadata::new();
    handle.set_tag(ExifTag::GPSLatitudeRef("N".to_string()));
    handle.set_tag(ExifTag::GPSLatitude(raw_triple(36, 41, 4220)));
    assert!(extract_coordinate(&handle).is_none());
    let parsed = parse(&jpeg_with(&handle)).unwrap();
    assert!(extract_coordinate(&parsed).is_none());
}

#[test]
fn extract_coordinate_with_any_one_field_missing_is_none() {
    for missing in 0..4 {
        let mut handle = Metadata::new();
        if missing != 0 {
            handle.set_tag(ExifTag::GPSLatitudeRef("N".to_string()));
        }
        if missing != 1 {
            handle.set_tag(ExifTag::GPSLatitude(raw_triple(36, 41, 4220)));
        }
        if missing != 2 {
            handle.set_tag(ExifTag::GPSLongitudeRef("E".to_string()));
        }
        if missing != 3 {
            handle.set_tag(ExifTag::GPSLongitude(raw_triple(137, 12, 4076)));
        }
        assert!(extract_coordinate(&handle).is_none());
    }
}

#[test]
fn extract_coordinate_with_an_unknown_longitude_letter_is_none() {
    let mut handle = Metadata::new();
    handle.set_tag(ExifTag::GPSLatitudeRef("N".to_string()));
    handle.set_tag(ExifTag::GPSLatitude(raw_triple(36, 41, 4220)));
    handle.set_tag(ExifTag::GPSLongitudeRef("Z".to_string()));
    handle.set_tag(ExifTag::GPSLongitude(raw_triple(137, 12, 4076)));
    assert!(extract_coordinate(&handle).is_none());
    let parsed = parse(&jpeg_with(&handle)).unwrap();
    assert!(extract_coordinate(&parsed).is_none());
}

#[test]
fn extract_coordinate_with_a_malformed_triple_is_none() {
    let mut handle = Metadata::new();
    handle.set_tag(ExifTag::GPSLatitudeRef("N".to_string()));
    handle.set_tag(ExifTag::GPSLatitude(raw_triple(36, 41, 4220)));
    handle.set_tag(ExifTag::GPSLongitudeRef("E".to_string()));
    handle.set_tag(
        ExifTag::GPSLongitude(
            vec![uR64 { nominator: 137, denominator: 1 }, uR64 { nominator: 12, denominator: 1 }],
        ),
    );
    assert!(extract_coordinate(&handle).is_none());
    handle.set_tag(
        ExifTag::GPSLongitude(
            vec![
                uR64 { nominator: 137, denominator: 1 },
                uR64 { nominator: 12, denominator: 0 },
                uR64 { nominator: 4076, denominator: 100 },
            ],
        ),
    );
    assert!(extract_coordinate(&handle).is_none());
    handle.set_tag(ExifTag::GPSLongitude(raw_triple(137, 12, 4076)));
    assert!(extract_coordinate(&handle).is_some());
}

#[test]
fn coordinate_from_fields_takes_the_last_field_of_each_kind() {
    let first = vec![
        GpsField::LatitudeRef("N".to_string()),
        GpsField::Latitude(triple(1, 0, 0)),
        other(),
        GpsField::LongitudeRef("E".to_string()),
        GpsField::Longitude(triple(2, 0, 0)),
    ];
    let second = vec![GpsField::Latitude(triple(3, 30, 0)), GpsField::LongitudeRef("W".to_string())];
    let found = coordinate_from_fields(
        &vec![directory(first), directory(vec![]), directory(second)],
    ).unwrap();
    assert_eq!(float_of(&found.latitude), 3.5);
    assert_eq!(float_of(&found.longitude), -2.0);
}

#[test]
fn coordinate_from_fields_lets_a_later_bad_field_hide_an_earlier_good_one() {
    let fields = vec![
        GpsField::LatitudeRef("N".to_string()),
        GpsField::Latitude(triple(1, 0, 0)),
        GpsField::LongitudeRef("E".to_string()),
        GpsField::Longitude(triple(2, 0, 0)),
        GpsField::LatitudeRef("north".to_string()),
    ];
    assert!(coordinate_from_fields(&vec![directory(fields.clone())]).is_none());
    let mut mended = fields;
    mended.push(GpsField::LatitudeRef("S".to_string()));
    let found = coordinate_from_fields(&vec![directory(mended)]).unwrap();
    assert_eq!(float_of(&found.latitude), -1.0);
}

#[test]
fn coordinate_from_fields_of_nothing_is_none() {
    assert!(coordinate_from_fields(&vec![]).is_none());
    assert!(coordinate_from_fields(&vec![directory(vec![]), directory(vec![other()])]).is_none());
}

#[test]
fn coordinate_from_fields_reads_fields_in_any_directory() {
    let fields = vec![
        GpsField::LatitudeRef("S".to_string()),
        GpsField::Latitude(triple(1, 30, 0)),
        GpsField::LongitudeRef("W".to_string()),
        GpsField::Longitude(triple(2, 15, 0)),
    ];
    let elsewhere = Directory { group: DirectoryGroup::Exif, image: 3, tags: fields };
    let found = coordinate_from_fields(&vec![elsewhere]).unwrap();
    assert_eq!(float_of(&found.latitude), -1.5);
    assert_eq!(float_of(&found.longitude), -2.25);
}

#[test]
fn encode_coordinate_gives_the_four_fields() {
    let tags = encode_coordinate(coordinate(36.695055289275, 137.21132191834)).unwrap();
    assert_eq!(tags.latitude_ref, "N");
    assert_eq!(tags.latitude, triple(36, 41, 4220));
    assert_eq!(tags.longitude_ref, "E");
    assert_eq!(tags.longitude, triple(137, 12, 4076));
    let tags = encode_coordinate(coordinate(-33.856784, -70.25)).unwrap();
    assert_eq!(tags.latitude_ref, "S");
    assert_eq!(tags.latitude, triple(33, 51, 2442));
    assert_eq!(tags.longitude_ref, "W");
    assert_eq!(tags.longitude, triple(70, 15, 0));
}

#[test]
fn encode_coordinate_reports_the_latitude_first() {
    assert_eq!(
        encode_coordinate(coordinate(1e10, 1.0)).err(),
        Some(CodecError::MagnitudeTooLarge),
    );
    assert_eq!(
        encode_coordinate(coordinate(1.0, -1e10)).err(),
        Some(CodecError::MagnitudeTooLarge),
    );
}

#[test]
fn apply_coordinate_adds_a_position() {
    let original = jpeg_without_position();
    let mut handle = parse(&original).unwrap();
    assert!(extract_coordinate(&handle).is_none());
    let applied = coordinate(36.695055289275, 137.21132191834);
    let written = apply_coordinate(&mut handle, &original, applied).unwrap();
    assert_ne!(written, original);
    assert_eq!(&written[..2], &[0xff, 0xd8]);
    assert_eq!(&written[written.len() - 2..], &[0xff, 0xd9]);

    let reread = parse(&written).unwrap();
    let found = extract_coordinate(&reread).unwrap();
    assert!((float_of(&found.latitude) - 36.695055289275).abs() <= 1.0 / 360000.0);
    assert!((float_of(&found.longitude) - 137.21132191834).abs() <= 1.0 / 360000.0);
    assert_eq!(found.latitude.numerator(), 3600 * 36 * 100 + 60 * 41 * 100 + 4220);
    assert_eq!(found.longitude.numerator(), 3600 * 137 * 100 + 60 * 12 * 100 + 4076);
}

#[test]
fn apply_coordinate_replaces_a_position() {
    let original = jpeg_with_position();
    let mut handle = parse(&original).unwrap();
    let applied = coordinate(48.858370, -2.294481);
    let written = apply_coordinate(&mut handle, &original, applied).unwrap();

    let in_handle = extract_coordinate(&handle).unwrap();
    assert!((float_of(&in_handle.latitude) - 48.858370).abs() <= 1.0 / 360000.0);
    assert!((float_of(&in_handle.longitude) + 2.294481).abs() <= 1.0 / 360000.0);

    let reread = parse(&written).unwrap();
    let found = extract_coordinate(&reread).unwrap();
    assert!(!found.latitude.negative());
    assert!(found.longitude.negative());
    assert!((float_of(&found.latitude) - 48.858370).abs() <= 1.0 / 360000.0);
    assert!((float_of(&found.longitude) + 2.294481).abs() <= 1.0 / 360000.0);
    let fields = all_tags(&reread);
    assert_eq!(
        fields.iter().filter(|(_, _, field)| matches!(field, GpsField::Latitude(_))).count(),
        1,
    );
}

#[test]
fn apply_coordinate_keeps_the_other_tags_and_the_image() {
    let original = jpeg_without_position();
    let before = Metadata::new_from_vec(&original, FileExtension::JPEG).unwrap();
    let mut handle = parse(&original).unwrap();
    let written = apply_coordinate(&mut handle, &original, coordinate(-12.5, 45.25)).unwrap();
    let after = Metadata::new_from_vec(&written, FileExtension::JPEG).unwrap();

    assert_eq!(
        first_string(&after, &ExifTag::ImageDescription(String::new())),
        Some("harbour at dusk".to_string()),
    );
    assert_eq!(first_string(&after, &ExifTag::Make(String::new())), Some("Pinhole".to_string()));
    for tag in &before {
        assert!(after.get_tag(tag).any(|kept| kept == tag), "{:?} is gone", tag);
    }

    // Everything behind the metadata segment is the image as it was.
    let image = &bare_jpeg()[2..];
    assert!(written.ends_with(image));
    assert!(original.ends_with(image));
}

#[test]
fn apply_coordinate_puts_the_fields_into_the_handle() {
    let original = jpeg_without_position();
    let mut handle = parse(&original).unwrap();
    apply_coordinate(&mut handle, &original, coordinate(-33.856784, 151.215297)).unwrap();
    let fields: Vec<GpsField> = all_tags(&handle)
        .into_iter()
        .filter(|(group, image, _)| *group == DirectoryGroup::Gps && *image == 0)
        .map(|(_, _, tag)| tag)
        .collect();
    assert_eq!(fields.len(), 4);
    assert!(fields.iter().any(|f| matches!(f, GpsField::LatitudeRef(l) if l == "S")));
    assert!(fields.iter().any(|f| matches!(f, GpsField::LongitudeRef(l) if l == "E")));
    assert!(fields.iter().any(|f| matches!(f, GpsField::Latitude(t) if *t == triple(33, 51, 2442))));
    assert!(
        fields.iter().any(|f| matches!(f, GpsField::Longitude(t) if *t == triple(151, 12, 5507)))
    );
}

#[test]
fn apply_coordinate_leaves_every_other_tag_of_the_handle_in_its_directory() {
    let mut handle = Metadata::new();
    handle.set_tag(ExifTag::ImageDescription("opera house".to_string()));
    handle.set_tag(ExifTag::ExposureTime(vec![uR64 { nominator: 1, denominator: 250 }]));
    handle.set_tag(ExifTag::GPSAltitude(vec![uR64 { nominator: 12, denominator: 1 }]));
    handle.set_tag(ExifTag::GPSLatitudeRef("S".to_string()));
    handle.set_tag(ExifTag::GPSLatitude(raw_triple(33, 51, 2442)));
    handle.get_ifd_mut(ExifTagGroup::GENERIC, 1)
        .set_tag(ExifTag::Make("Second".to_string()));
    let before = all_tags(&handle);
    apply_coordinate(&mut handle, &bare_jpeg(), coordinate(10.5, 20.25)).unwrap();
    let after = all_tags(&handle);
    for (group, image, tag) in &before {
        let position = matches!(tag, GpsField::LatitudeRef(_) | GpsField::Latitude(_));
        let kept = after.iter().any(|(g, i, t)| g == group && i == image && same_tag(t, tag));
        assert_eq!(kept, !position, "{:?}", tag);
    }
    // Nothing is new but the four fields.
    assert_eq!(after.len(), before.len() + 2);
    let found = extract_coordinate(&handle).unwrap();
    assert_eq!(float_of(&found.latitude), 10.5);
    assert_eq!(float_of(&found.longitude), 20.25);
}

#[test]
fn apply_coordinate_takes_a_position_out_of_the_gps_directory_of_every_image() {
    // A second image with a latitude of its own: a scan would find it last.
    let mut handle = Metadata::new();
    handle.get_ifd_mut(ExifTagGroup::GPS, 1)
        .set_tag(ExifTag::GPSLatitude(raw_triple(1, 0, 0)));
    handle.get_ifd_mut(ExifTagGroup::GPS, 1)
        .set_tag(ExifTag::GPSAltitude(vec![uR64 { nominator: 12, denominator: 1 }]));
    let written = apply_coordinate(&mut handle, &bare_jpeg(), coordinate(10.5, 20.25)).unwrap();
    let found = extract_coordinate(&handle).unwrap();
    assert_eq!(float_of(&found.latitude), 10.5);
    assert_eq!(float_of(&found.longitude), 20.25);
    let tags = all_tags(&handle);
    assert_eq!(tags.iter().filter(|(_, _, tag)| matches!(tag, GpsField::Latitude(_))).count(), 1);
    assert!(tags.iter().any(|(group, image, tag)| {
        *group == DirectoryGroup::Gps && *image == 1 && matches!(tag, GpsField::Other { id: 6, .. })
    }));
    let reread = extract_coordinate(&parse(&written).unwrap()).unwrap();
    assert_eq!(float_of(&reread.latitude), 10.5);
    assert_eq!(float_of(&reread.longitude), 20.25);
}

#[test]
fn apply_coordinate_replaces_a_far_position_in_all_four_fields() {
    let original = jpeg_with_position();
    let mut handle = parse(&original).unwrap();
    let written = apply_coordinate(&mut handle, &original, coordinate(64.1466, -21.9426)).unwrap();
    let found = extract_coordinate(&parse(&written).unwrap()).unwrap();
    assert!(!found.latitude.negative());
    assert!(found.longitude.negative());
    assert!((float_of(&found.latitude) - 64.1466).abs() <= 1.0 / 360000.0);
    assert!((float_of(&found.longitude) + 21.9426).abs() <= 1.0 / 360000.0);
}

#[test]
fn apply_coordinate_fails_on_a_position_outside_the_gps_directories() {
    let mut handle = Metadata::new();
    handle.get_ifd_mut(ExifTagGroup::EXIF, 0)
        .set_tag(ExifTag::GPSLatitude(raw_triple(1, 0, 0)));
    let result = apply_coordinate(&mut handle, &bare_jpeg(), coordinate(10.5, 20.25));
    assert_eq!(result.err(), Some(PipelineError::SerializationFailed));
    // With the value that is written the field is no other position, but
    // no reader gives a latitude back out of an EXIF directory.
    let mut handle = Metadata::new();
    handle.get_ifd_mut(ExifTagGroup::EXIF, 0)
        .set_tag(ExifTag::GPSLatitude(raw_triple(10, 30, 0)));
    let result = apply_coordinate(&mut handle, &bare_jpeg(), coordinate(10.5, 20.25));
    assert_eq!(result.err(), Some(PipelineError::SerializationFailed));
    let tags = encode_coordinate(coordinate(10.5, 20.25)).unwrap();
    assert!(exif_gps::pipeline::holds_one_position(&read_directories(&handle), &tags));
}

#[test]
fn apply_coordinate_fails_on_a_pointer_that_leads_back() {
    for (group, tag) in [
        (ExifTagGroup::EXIF, ExifTag::ExifOffset(vec![0])),
        (ExifTagGroup::EXIF, ExifTag::GPSInfo(vec![0])),
        (ExifTagGroup::GPS, ExifTag::GPSInfo(vec![0])),
        (ExifTagGroup::GPS, ExifTag::ExifOffset(vec![0])),
        (ExifTagGroup::GPS, ExifTag::InteropOffset(vec![0])),
        (ExifTagGroup::INTEROP, ExifTag::InteropOffset(vec![0])),
        (ExifTagGroup::INTEROP, ExifTag::ExifOffset(vec![0])),
    ] {
        let mut handle = Metadata::new();
        handle.set_tag(ExifTag::Make("Pinhole".to_string()));
        handle.get_ifd_mut(group, 0).set_tag(tag);
        let result = apply_coordinate(&mut handle, &bare_jpeg(), coordinate(10.5, 20.25));
        assert_eq!(result.err(), Some(PipelineError::SerializationFailed));
    }
}

#[test]
fn apply_coordinate_fails_where_the_written_file_is_not_read_again() {
    // A pointer of the handle's own beside the one that the writer makes
    // gives a file with two pointers of one kind, which no reader takes.
    for (group, tag) in [
        (ExifTagGroup::GENERIC, ExifTag::ExifOffset(vec![0])),
        (ExifTagGroup::GENERIC, ExifTag::GPSInfo(vec![0])),
        (ExifTagGroup::EXIF, ExifTag::InteropOffset(vec![0])),
    ] {
        let mut handle = Metadata::new();
        handle.set_tag(ExifTag::ExposureTime(vec![uR64 { nominator: 1, denominator: 250 }]));
        handle.set_tag(ExifTag::InteroperabilityIndex("R98".to_string()));
        handle.get_ifd_mut(group, 0).set_tag(tag);
        let result = apply_coordinate(&mut handle, &bare_jpeg(), coordinate(10.5, 20.25));
        assert_eq!(result.err(), Some(PipelineError::SerializationFailed));
        let found = extract_coordinate(&handle).unwrap();
        assert_eq!(float_of(&found.latitude), 10.5);
    }
}

#[test]
fn apply_coordinate_gives_a_file_that_parse_takes_with_the_position_in_it() {
    for original in [jpeg_without_position(), jpeg_with_position()] {
        let mut handle = parse(&original).unwrap();
        let written = apply_coordinate(&mut handle, &original, coordinate(-0.5, 179.75)).unwrap();
        let again = read_directories(&parse(&written).unwrap());
        let tags = encode_coordinate(coordinate(-0.5, 179.75)).unwrap();
        assert!(exif_gps::pipeline::holds_position(&again, &tags));
        assert!(exif_gps::pipeline::holds_one_position(&again, &tags));
        let other = encode_coordinate(coordinate(0.5, 179.75)).unwrap();
        assert!(!exif_gps::pipeline::holds_position(&again, &other));
        assert!(!exif_gps::pipeline::holds_one_position(&again, &other));
        assert!(exif_gps::pipeline::pointers_are_forward(&again));
    }
}

#[test]
fn read_directories_gives_thumbnails_and_strips_their_bytes() {
    let mut handle = Metadata::new();
    handle.set_tag(ExifTag::ThumbnailOffset(vec![0], vec![0xff, 0xd8, 0x01, 0x02, 0xff, 0xd9]));
    handle.set_tag(ExifTag::ThumbnailLength(vec![6]));
    handle.set_tag(ExifTag::StripOffsets(vec![0, 0], vec![vec![1, 2, 3], vec![4, 5]]));
    handle.set_tag(ExifTag::StripByteCounts(vec![3, 2]));
    let tags = all_tags(&handle);
    assert!(tags.iter().any(|(_, _, tag)| {
        matches!(tag, GpsField::Other { id: 0x0201, value } if value == &[0xff, 0xd8, 1, 2, 0xff, 0xd9])
    }));
    assert!(tags.iter().any(|(_, _, tag)| {
        matches!(tag, GpsField::Other { id: 0x0111, value } if value == &[1, 2, 3, 0, 4, 5])
    }));
    let before = all_tags(&handle);
    let written = apply_coordinate(&mut handle, &bare_jpeg(), coordinate(10.5, 20.25)).unwrap();
    let after = all_tags(&handle);
    let again = all_tags(&parse(&written).unwrap());
    for (group, image, tag) in &before {
        assert!(after.iter().any(|(g, i, t)| g == group && i == image && same_tag(t, tag)));
        assert!(again.iter().any(|(g, i, t)| g == group && i == image && same_tag(t, tag)));
    }
}

#[test]
fn apply_coordinate_leaves_tags_with_the_same_numbers_in_other_directories() {
    // The interoperability directory files its index under 1 and its
    // version under 2, the numbers of the latitude letter and triple.
    let mut handle = Metadata::new();
    handle.set_tag(ExifTag::InteroperabilityIndex("R98".to_string()));
    handle.set_tag(ExifTag::InteroperabilityVersion(vec![0x30, 0x31, 0x30, 0x30]));
    let before = all_tags(&handle);
    assert_eq!(before.len(), 2);
    apply_coordinate(&mut handle, &bare_jpeg(), coordinate(10.5, 20.25)).unwrap();
    let after = all_tags(&handle);
    for (group, image, tag) in &before {
        assert_eq!(*group, DirectoryGroup::Interop);
        assert!(after.iter().any(|(g, i, t)| g == group && i == image && same_tag(t, tag)));
    }
    assert_eq!(after.len(), 6);
}

#[test]
fn apply_coordinate_takes_the_place_of_what_the_gps_directory_files_under_the_four_numbers() {
    let mut handle = Metadata::new();
    handle.get_ifd_mut(ExifTagGroup::GPS, 0)
        .set_tag(ExifTag::InteroperabilityIndex("R98".to_string()));
    handle.get_ifd_mut(ExifTagGroup::GPS, 0)
        .set_tag(ExifTag::GPSAltitude(vec![uR64 { nominator: 12, denominator: 1 }]));
    assert_eq!(all_tags(&handle).len(), 2);
    apply_coordinate(&mut handle, &bare_jpeg(), coordinate(10.5, 20.25)).unwrap();
    let after = all_tags(&handle);
    assert_eq!(after.len(), 5);
    assert_eq!(
        after.iter().filter(|(_, _, tag)| matches!(tag, GpsField::Other { .. })).count(),
        1,
    );
    assert!(after.iter().any(|(_, _, tag)| matches!(tag, GpsField::Other { id: 6, .. })));
    let found = extract_coordinate(&handle).unwrap();
    assert_eq!(float_of(&found.latitude), 10.5);
}

#[test]
fn apply_coordinate_writes_the_directories_right_behind_the_signature() {
    let original = jpeg_with_position();
    let mut handle = parse(&original).unwrap();
    let written = apply_coordinate(&mut handle, &original, coordinate(10.5, 20.25)).unwrap();
    let encoded = handle.encode().unwrap();
    assert_eq!(&written[..4], &[0xff, 0xd8, 0xff, 0xe1]);
    assert_eq!(u16::from_be_bytes([written[4], written[5]]) as usize, 8 + encoded.len());
    assert_eq!(&written[6..12], b"Exif\0\0");
    assert_eq!(&written[12..12 + encoded.len()], &encoded[..]);
    assert_eq!(&written[12 + encoded.len()..], &bare_jpeg()[2..]);
}

#[test]
fn apply_coordinate_fails_where_the_writer_leaves_a_tag_out() {
    // The writer does not write the opto-electric conversion function.
    let mut handle = Metadata::new();
    handle.set_tag(ExifTag::Make("Pinhole".to_string()));
    handle.set_tag(ExifTag::OECF(vec![1, 2, 3, 4, 5]));
    let result = apply_coordinate(&mut handle, &bare_jpeg(), coordinate(10.5, 20.25));
    assert_eq!(result.err(), Some(PipelineError::SerializationFailed));
    // Without it the same handle is written.
    let mut handle = Metadata::new();
    handle.set_tag(ExifTag::Make("Pinhole".to_string()));
    assert!(apply_coordinate(&mut handle, &bare_jpeg(), coordinate(10.5, 20.25)).is_ok());
}

#[test]
fn apply_coordinate_gives_a_file_with_every_other_tag_as_it_was() {
    for original in [jpeg_without_position(), jpeg_with_position()] {
        let mut handle = parse(&original).unwrap();
        let before = read_directories(&handle);
        let written = apply_coordinate(&mut handle, &original, coordinate(-0.5, 179.75)).unwrap();
        let again = read_directories(&parse(&written).unwrap());
        assert!(exif_gps::pipeline::keeps_rest(&before, &again));
        assert!(exif_gps::pipeline::keeps_rest(&before, &read_directories(&handle)));
        // A position that was there before is not kept, and is not asked for.
        let kept = before.iter().flat_map(|d| d.tags.iter()).all(|tag| {
            again.iter().any(|d| d.tags.iter().any(|t| same_tag(t, tag)))
        });
        assert_eq!(kept, extract_coordinate(&parse(&original).unwrap()).is_none());
    }
}

#[test]
fn keeps_rest_asks_for_the_same_directory_and_the_same_bytes() {
    let make = |value: &[u8]| GpsField::Other { id: 0x010f, value: value.to_vec() };
    let one = |group, image, tags| vec![Directory { group, image, tags }];
    let before = one(DirectoryGroup::Generic, 0, vec![make(b"Pinhole\0")]);
    assert!(exif_gps::pipeline::keeps_rest(&before, &before));
    assert!(exif_gps::pipeline::keeps_rest(&vec![], &before));
    assert!(!exif_gps::pipeline::keeps_rest(&before, &vec![]));
    let other_bytes = one(DirectoryGroup::Generic, 0, vec![make(b"Pinhole")]);
    assert!(!exif_gps::pipeline::keeps_rest(&before, &other_bytes));
    let other_image = one(DirectoryGroup::Generic, 1, vec![make(b"Pinhole\0")]);
    assert!(!exif_gps::pipeline::keeps_rest(&before, &other_image));
    let other_group = one(DirectoryGroup::Exif, 0, vec![make(b"Pinhole\0")]);
    assert!(!exif_gps::pipeline::keeps_rest(&before, &other_group));
    // The four fields of a position in a GPS directory are not asked for.
    let position = one(DirectoryGroup::Gps, 2, vec![GpsField::LatitudeRef("N".to_string())]);
    assert!(exif_gps::pipeline::keeps_rest(&position, &vec![]));
    let elsewhere = one(DirectoryGroup::Exif, 0, vec![GpsField::LatitudeRef("N".to_string())]);
    assert!(!exif_gps::pipeline::keeps_rest(&elsewhere, &vec![]));
}

#[test]
fn apply_coordinate_fails_on_a_thumbnail_length_of_two_numbers() {
    let mut handle = Metadata::new();
    handle.set_tag(ExifTag::ThumbnailLength(vec![1, 2]));
    let result = apply_coordinate(&mut handle, &bare_jpeg(), coordinate(10.5, 20.25));
    assert_eq!(result.err(), Some(PipelineError::SerializationFailed));
    assert!(extract_coordinate(&handle).is_none());
}

#[test]
fn apply_coordinate_fails_on_two_directories_of_one_kind_and_image() {
    use_of_two_directories(ExifTagGroup::GPS, 0, ExifTagGroup::GPS, 0);
    use_of_two_directories(ExifTagGroup::GENERIC, 0, ExifTagGroup::GENERIC, 0);
    use_of_two_directories(ExifTagGroup::EXIF, 1, ExifTagGroup::EXIF, 1);
}

/// Applies a coordinate to a handle in which the directory of the second
/// image is overwritten by one of kind `second` and image `image_two`.
fn use_of_two_directories(first: ExifTagGroup, image_one: u32, second: ExifTagGroup, image_two: u32) {
    let mut handle = Metadata::new();
    handle.get_ifd_mut(first, image_one).set_tag(ExifTag::Make("Pinhole".to_string()));
    *handle.get_ifd_mut(ExifTagGroup::GENERIC, 7) =
        little_exif::ifd::ImageFileDirectory::new_with_tags(vec![], second, image_two);
    let before = all_tags(&handle).len();
    let result = apply_coordinate(&mut handle, &bare_jpeg(), coordinate(10.5, 20.25));
    assert_eq!(result.err(), Some(PipelineError::SerializationFailed));
    assert_eq!(all_tags(&handle).len(), before);
}

#[test]
fn apply_coordinate_fails_on_a_directory_without_an_image() {
    let mut handle = Metadata::new();
    *handle.get_ifd_mut(ExifTagGroup::GENERIC, 0) =
        little_exif::ifd::ImageFileDirectory::new_with_tags(
            vec![ExifTag::GPSLatitude(raw_triple(1, 0, 0))],
            ExifTagGroup::GPS,
            3,
        );
    let result = apply_coordinate(&mut handle, &bare_jpeg(), coordinate(10.5, 20.25));
    assert_eq!(result.err(), Some(PipelineError::SerializationFailed));
    let found: Vec<_> = all_tags(&handle);
    assert_eq!(found.len(), 1);
}

#[test]
fn apply_coordinate_leaves_the_image_as_it_was() {
    for original in [jpeg_without_position(), jpeg_with_position()] {
        let mut handle = parse(&original).unwrap();
        let written = apply_coordinate(&mut handle, &original, coordinate(48.8584, 2.2945))
            .unwrap();
        assert_ne!(written, original);
        assert_eq!(take_exif_out(&written), bare_jpeg());
        assert_eq!(take_exif_out(&original), bare_jpeg());
    }
}

#[test]
fn take_exif_out_leaves_what_the_writer_clears_a_file_to() {
    let mut trailing = jpeg_with_position();
    trailing.extend([0xff, 0xe1, 0x00, 0x08, b'E', b'x', b'i', b'f', 0x00, 0x00, 0x07]);
    let mut doubled = jpeg_with_position();
    let second = doubled[2..].to_vec();
    doubled.extend(second);
    for file in [bare_jpeg(), jpeg_without_position(), jpeg_with_position(), trailing, doubled] {
        let mut cleared = file.clone();
        Metadata::clear_metadata(&mut cleared, FileExtension::JPEG).unwrap();
        assert_eq!(take_exif_out(&file), cleared);
    }
}
