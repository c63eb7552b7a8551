use exif_gps::pipeline::parse;
use exif_gps::pipeline::PipelineError;
use exif_gps::tiff::directory_is_walkable;
use little_exif::exif_tag::ExifTag;
use little_exif::filetype::FileExtension;
use little_exif::metadata::Metadata;
use little_exif::rational::uR64;

/// One entry of a directory, little endian.
fn entry(id: u16, format: u16, count: u32, value: [u8; 4]) -> Vec<u8> {
    let mut bytes = Vec::new();
    bytes.extend(id.to_le_bytes());
    bytes.extend(format.to_le_bytes());
    bytes.extend(count.to_le_bytes());
    bytes.extend(value);
    bytes
}

/// A directory of the given entries with a link to the next.
fn directory(entries: &[Vec<u8>], link: u32) -> Vec<u8> {
    let mut bytes = Vec::new();
    bytes.extend((entries.len() as u16).to_le_bytes());
    for one in entries {
        bytes.extend(one);
    }
    bytes.extend(link.to_le_bytes());
    bytes
}

/// A JPEG file whose EXIF segment holds the given data behind a little
/// endian header that points at offset 8.
fn jpeg_of(data: &[u8]) -> Vec<u8> {
    let mut tiff = vec![0x49, 0x49, 0x2a, 0x00, 8, 0, 0, 0];
    tiff.extend(data);
    let mut file = vec![0xff, 0xd8, 0xff, 0xe1];
    file.extend(((tiff.len() + 8) as u16).to_be_bytes());
    file.extend(*b"Exif\0\0");
    file.extend(tiff);
    file.extend([0xff, 0xd9]);
    file
}

fn refused(file: &[u8]) -> bool {
    !directory_is_walkable(file)
        && parse(file).err() == Some(PipelineError::UnsupportedOrCorruptContainer)
}

#[test]
fn a_file_without_a_segment_is_walkable() {
    assert!(directory_is_walkable(&[]));
    assert!(directory_is_walkable(&[0xff, 0xd8, 0xff, 0xd9]));
    assert!(directory_is_walkable(b"no image"));
}

#[test]
fn a_plain_directory_is_walkable() {
    let file = jpeg_of(&directory(&[entry(0x0112, 3, 1, [1, 0, 0, 0])], 0));
    assert!(directory_is_walkable(&file));
    assert!(parse(&file).is_ok());
}

#[test]
fn a_link_that_points_back_is_refused() {
    assert!(refused(&jpeg_of(&directory(&[], 8))));
    let mut two = directory(&[], 14);
    two.extend(directory(&[], 8));
    assert!(refused(&jpeg_of(&two)));
}

#[test]
fn links_that_end_are_walkable() {
    let mut two = directory(&[], 14);
    two.extend(directory(&[], 0));
    let file = jpeg_of(&two);
    assert!(directory_is_walkable(&file));
    assert_eq!(parse(&file).unwrap().get_ifds().len(), 2);
}

#[test]
fn two_pointers_of_one_kind_are_refused() {
    for id in [0x8769u16, 0x8825] {
        let pointer = entry(id, 4, 1, [38, 0, 0, 0]);
        let mut data = directory(&[pointer.clone(), pointer], 0);
        assert_eq!(data.len(), 30);
        data.extend(directory(&[], 0));
        assert!(refused(&jpeg_of(&data)));
    }
}

#[test]
fn one_pointer_of_each_kind_is_walkable() {
    let mut data = directory(
        &[entry(0x8769, 4, 1, [38, 0, 0, 0]), entry(0x8825, 4, 1, [44, 0, 0, 0])],
        0,
    );
    data.extend(directory(&[], 0));
    data.extend(directory(&[], 0));
    let file = jpeg_of(&data);
    assert!(directory_is_walkable(&file));
    assert_eq!(parse(&file).unwrap().get_ifds().len(), 3);
}

#[test]
fn a_pointer_at_its_own_directory_is_refused() {
    assert!(refused(&jpeg_of(&directory(&[entry(0x8769, 4, 1, [8, 0, 0, 0])], 0))));
    assert!(refused(&jpeg_of(&directory(&[entry(0x8825, 4, 1, [8, 0, 0, 0])], 0))));
}

#[test]
fn an_altitude_reference_stored_as_empty_text_is_refused() {
    let mut data = directory(&[entry(0x8825, 4, 1, [26, 0, 0, 0])], 0);
    data.extend(directory(&[entry(0x0005, 2, 0, [0, 0, 0, 0])], 0));
    assert!(refused(&jpeg_of(&data)));
    let mut data = directory(&[entry(0x8825, 4, 1, [26, 0, 0, 0])], 0);
    data.extend(directory(&[entry(0x0005, 2, 2, [0x30, 0, 0, 0])], 0));
    assert!(parse(&jpeg_of(&data)).is_ok());
}

#[test]
fn a_byte_tag_stored_in_16_bits_must_hold_bytes() {
    let gps = |value: [u8; 4]| {
        let mut data = directory(&[entry(0x8825, 4, 1, [26, 0, 0, 0])], 0);
        data.extend(directory(&[entry(0x0005, 3, 1, value)], 0));
        jpeg_of(&data)
    };
    assert!(refused(&gps([0x00, 0x01, 0, 0])));
    assert!(refused(&gps([0xff, 0xff, 0, 0])));
    assert!(parse(&gps([0xff, 0x00, 0, 0])).is_ok());
    assert!(parse(&gps([0x01, 0x00, 0, 0])).is_ok());
    // The version, four values behind the directory.
    let version = |values: [u16; 4]| {
        let mut data = directory(&[entry(0x8825, 4, 1, [26, 0, 0, 0])], 0);
        data.extend(directory(&[entry(0x0000, 3, 4, [44, 0, 0, 0])], 0));
        for value in values {
            data.extend(value.to_le_bytes());
        }
        jpeg_of(&data)
    };
    assert!(parse(&version([2, 3, 0, 0])).is_ok());
    assert!(refused(&version([2, 3, 0, 256])));
}

#[test]
fn a_value_outside_the_segment_is_refused() {
    assert!(refused(&jpeg_of(&directory(&[entry(0x010e, 2, 100, [26, 0, 0, 0])], 0))));
    assert!(refused(&jpeg_of(&directory(&[entry(0x010e, 1, u32::MAX, [0, 0, 0, 0])], 0))));
    assert!(refused(&jpeg_of(&directory(&[entry(0x010e, 2, 5, [0xff, 0xff, 0xff, 0xff])], 0))));
}

#[test]
fn unsigned_rationals_for_a_signed_tag_must_be_plain() {
    let exif = |numerator: u32, denominator: u32| {
        let mut data = directory(&[entry(0x8769, 4, 1, [26, 0, 0, 0])], 0);
        data.extend(directory(&[entry(0x9204, 5, 1, [44, 0, 0, 0])], 0));
        data.extend(numerator.to_le_bytes());
        data.extend(denominator.to_le_bytes());
        jpeg_of(&data)
    };
    assert!(parse(&exif(0, 1)).is_ok());
    assert!(parse(&exif(6, 3)).is_ok());
    assert!(parse(&exif(7, 0)).is_ok());
    assert!(parse(&exif(0, 0)).is_ok());
    assert!(parse(&exif(u32::MAX, 1)).is_ok());
    assert!(refused(&exif(1, 3)));
    assert!(refused(&exif(2971215073, 1836311903)));
    // Stored as what it is, a signed rational is taken whatever it holds.
    let mut data = directory(&[entry(0x8769, 4, 1, [26, 0, 0, 0])], 0);
    data.extend(directory(&[entry(0x9204, 10, 1, [44, 0, 0, 0])], 0));
    data.extend(1u32.to_le_bytes());
    data.extend(3u32.to_le_bytes());
    assert!(parse(&jpeg_of(&data)).is_ok());
}

#[test]
fn the_length_of_a_thumbnail_must_lie_inside_the_segment() {
    let thumbnail = |length: u32| {
        let data = directory(
            &[entry(0x0201, 4, 1, [8, 0, 0, 0]), entry(0x0202, 4, 1, length.to_le_bytes())],
            0,
        );
        jpeg_of(&data)
    };
    assert!(parse(&thumbnail(4)).is_ok());
    assert!(refused(&thumbnail(u32::MAX)));
    assert!(refused(&thumbnail(100_000)));
}

/// A file as a camera might write it, made by the writer itself.
fn sample() -> Vec<u8> {
    let mut metadata = Metadata::new();
    metadata.set_tag(ExifTag::ImageDescription("harbour".to_string()));
    metadata.set_tag(ExifTag::ExposureTime(vec![uR64 { nominator: 1, denominator: 250 }]));
    metadata.set_tag(ExifTag::InteroperabilityIndex("R98".to_string()));
    metadata.set_tag(
        ExifTag::ExposureCompensation(vec![little_exif::rational::iR64 {
            nominator: -1,
            denominator: 3,
        }]),
    );
    metadata.set_tag(ExifTag::GPSVersionID(vec![2, 3, 0, 0]));
    metadata.set_tag(ExifTag::GPSLatitudeRef("S".to_string()));
    metadata.set_tag(ExifTag::GPSAltitudeRef(vec![0]));
    metadata.set_tag(
        ExifTag::GPSLatitude(vec![
            uR64 { nominator: 33, denominator: 1 },
            uR64 { nominator: 51, denominator: 1 },
            uR64 { nominator: 2442, denominator: 100 },
        ]),
    );
    let mut file = vec![0xff, 0xd8, 0xff, 0xd9];
    metadata.write_to_vec(&mut file, FileExtension::JPEG).unwrap();
    file
}

#[test]
fn what_the_writer_writes_is_walkable() {
    let file = sample();
    assert!(directory_is_walkable(&file));
    assert!(parse(&file).is_ok());
}

#[test]
fn parse_comes_back_from_every_file_with_one_byte_changed() {
    let file = sample();
    let mut walkable = 0;
    for at in 2..file.len() {
        for value in [0x00, 0x01, 0x02, 0x03, 0x05, 0x08, 0x10, 0x25, 0x69, 0x87, 0x88, 0xa0, 0xff] {
            let mut changed = file.clone();
            changed[at] = value;
            if directory_is_walkable(&changed) {
                walkable += 1;
            }
            let _ = parse(&changed);
        }
    }
    assert!(walkable > file.len());
}

#[test]
fn parse_comes_back_from_every_file_with_one_entry_changed() {
    let file = sample();
    let ids: [u16; 9] = [0x0000, 0x0005, 0x8769, 0x8825, 0xa005, 0x9204, 0x0201, 0x0202, 0x0117];
    let formats: [u16; 6] = [1, 2, 3, 4, 5, 10];
    let counts: [u32; 5] = [0, 1, 2, 4, 9];
    let values: [u32; 6] = [0, 8, 26, 38, 300, 0x0100_0100];
    // The entries lie behind the 12 bytes before the data, the 8 bytes of
    // its header and the 2 bytes of a count, twelve bytes each.
    for at in (22..file.len() - 14).step_by(2) {
        for id in ids {
            for format in formats {
                for count in counts {
                    for value in values {
                        let mut changed = file.clone();
                        changed[at..at + 2].copy_from_slice(&id.to_le_bytes());
                        changed[at + 2..at + 4].copy_from_slice(&format.to_le_bytes());
                        changed[at + 4..at + 8].copy_from_slice(&count.to_le_bytes());
                        changed[at + 8..at + 12].copy_from_slice(&value.to_le_bytes());
                        let _ = parse(&changed);
                    }
                }
            }
        }
    }
}

#[test]
fn parse_comes_back_from_files_with_a_few_bytes_changed_at_random() {
    let file = sample();
    let bytes = [0x00, 0x01, 0x02, 0x03, 0x04, 0x05, 0x08, 0x0a, 0x17, 0x25, 0x69, 0x87, 0x88, 0x92, 0xa0, 0xff];
    let mut state = 0x2545_f491_4f6c_dd1du64;
    let mut next = move |below: usize| {
        state ^= state << 13;
        state ^= state >> 7;
        state ^= state << 17;
        (state >> 16) as usize % below
    };
    let mut taken = 0;
    for _ in 0..60_000 {
        let mut changed = file.clone();
        for _ in 0..1 + next(4) {
            let at = 12 + next(file.len() - 14);
            changed[at] = bytes[next(bytes.len())];
        }
        if parse(&changed).is_ok() {
            taken += 1;
        }
    }
    assert!(taken > 1000);
}

/// One entry of a directory, big endian.
fn big_entry(id: u16, format: u16, count: u32, value: [u8; 4]) -> Vec<u8> {
    let mut bytes = Vec::new();
    bytes.extend(id.to_be_bytes());
    bytes.extend(format.to_be_bytes());
    bytes.extend(count.to_be_bytes());
    bytes.extend(value);
    bytes
}

fn big_directory(entries: &[Vec<u8>], link: u32) -> Vec<u8> {
    let mut bytes = Vec::new();
    bytes.extend((entries.len() as u16).to_be_bytes());
    for one in entries {
        bytes.extend(one);
    }
    bytes.extend(link.to_be_bytes());
    bytes
}

/// A JPEG file whose APP1 segment holds a big endian header that points at
/// offset 8 and the given data, with or without the `Exif` header.
fn big_jpeg_of(data: &[u8], header: bool) -> Vec<u8> {
    let mut payload = Vec::new();
    if header {
        payload.extend(*b"Exif\0\0");
    }
    payload.extend([0x4d, 0x4d, 0x00, 0x2a, 0, 0, 0, 8]);
    payload.extend(data);
    let mut file = vec![0xff, 0xd8, 0xff, 0xe0, 0x00, 0x04, 0x01, 0x02, 0xff, 0xe1];
    file.extend(((payload.len() + 2) as u16).to_be_bytes());
    file.extend(payload);
    file.extend([0xff, 0xd9]);
    file
}

/// A big endian file with all four kinds of directory.
fn big_sample(header: bool) -> Vec<u8> {
    // image at 8 (3 entries, 42 bytes), EXIF at 50 (2 entries, 30 bytes),
    // interoperability at 80 (1 entry, 18 bytes), GPS at 98 (2 entries, 30
    // bytes), a rational at 128.
    let mut data = big_directory(
        &[
            big_entry(0x0112, 3, 1, [0, 1, 0, 0]),
            big_entry(0x8769, 4, 1, [0, 0, 0, 50]),
            big_entry(0x8825, 4, 1, [0, 0, 0, 98]),
        ],
        0,
    );
    data.extend(big_directory(
        &[big_entry(0x9204, 5, 1, [0, 0, 0, 128]), big_entry(0xa005, 4, 1, [0, 0, 0, 80])],
        0,
    ));
    data.extend(big_directory(&[big_entry(0x0001, 2, 4, *b"R98\0")], 0));
    data.extend(big_directory(
        &[big_entry(0x0000, 3, 2, [0, 2, 0, 3]), big_entry(0x0005, 3, 1, [0, 1, 0, 0])],
        0,
    ));
    data.extend(6u32.to_be_bytes());
    data.extend(3u32.to_be_bytes());
    assert_eq!(data.len(), 128);
    big_jpeg_of(&data, header)
}

#[test]
fn a_big_endian_file_is_walked_like_a_little_endian_one() {
    for header in [true, false] {
        let file = big_sample(header);
        assert!(directory_is_walkable(&file));
        assert_eq!(parse(&file).unwrap().get_ifds().len(), 4);
    }
    assert!(refused(&big_jpeg_of(&big_directory(&[], 8), true)));
    assert!(refused(&big_jpeg_of(&big_directory(&[], 8), false)));
    let mut data = big_directory(&[big_entry(0x8825, 4, 1, [0, 0, 0, 26])], 0);
    data.extend(big_directory(&[big_entry(0x0005, 3, 1, [1, 0, 0, 0])], 0));
    assert!(refused(&big_jpeg_of(&data, true)));
}

#[test]
fn parse_comes_back_from_big_endian_files_with_a_few_bytes_changed_at_random() {
    let bytes = [0x00, 0x01, 0x02, 0x03, 0x04, 0x05, 0x08, 0x0a, 0x32, 0x50, 0x62, 0x80, 0x87, 0x88, 0x92, 0xff];
    let mut state = 0x9e37_79b9_7f4a_7c15u64;
    let mut next = move |below: usize| {
        state ^= state << 13;
        state ^= state >> 7;
        state ^= state << 17;
        (state >> 16) as usize % below
    };
    let mut taken = 0;
    for header in [true, false] {
        let file = big_sample(header);
        for _ in 0..40_000 {
            let mut changed = file.clone();
            for _ in 0..1 + next(4) {
                let at = 10 + next(file.len() - 12);
                changed[at] = bytes[next(bytes.len())];
            }
            if parse(&changed).is_ok() {
                taken += 1;
            }
        }
    }
    assert!(taken > 1000);
}

#[test]
fn a_first_segment_that_is_no_directory_is_left_to_the_reader() {
    let mut file = vec![0xff, 0xd8, 0xff, 0xe1, 0x00, 0x0a];
    file.extend(*b"http://x");
    file.extend([0xff, 0xd9]);
    assert!(directory_is_walkable(&file));
    assert_eq!(parse(&file).err(), Some(PipelineError::UnsupportedOrCorruptContainer));
}
