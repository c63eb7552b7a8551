//! The marker segments of a JPEG file, as far as rewriting metadata needs them.
//!
//! A JPEG file is a start marker followed by segments: a `0xFF` byte, a
//! marker byte, and for most markers a two-byte big-endian length that counts
//! itself. Replacing the metadata means walking those segments from the
//! start. The walk here follows them the way the metadata writer does and
//! says whether every length it meets is a possible one. A second walk of
//! the same kind takes the EXIF segments out of a file, so that two files
//! can be held against each other in everything but their metadata.

use vstd::prelude::*;

verus! {

/// The byte that opens every marker.
pub const MARKER_PREFIX: u8 = 0xff;

/// The marker byte that ends the image.
pub const END_OF_IMAGE: u8 = 0xd9;

/// The marker byte of an APP1 segment, where EXIF data lives.
pub const APP1: u8 = 0xe1;

/// The marker byte of a start-of-scan segment; entropy-coded data follows it.
pub const START_OF_SCAN: u8 = 0xda;

/// The length of the `Exif\0\0` header that opens the payload of an EXIF segment.
pub const EXIF_HEADER_LENGTH: usize = 6;

/// The most bytes of encoded directory that fit in one APP1 segment: the
/// 16-bit segment length, less the length field itself and the EXIF header.
pub const MAX_DIRECTORY_LENGTH: usize = 65527;

/// Where a walk over the segments stands.
#[derive(Clone, Copy, Debug, PartialEq, Eq, Structural)]
pub enum Walk {
    /// Between markers: looking for the next `0xFF`.
    Seeking,
    /// Right after a `0xFF`: the next byte is taken as a marker.
    AtMarker,
    /// Inside entropy-coded data: looking for a `0xFF` that ends it.
    InScan,
    /// Inside entropy-coded data, right after a `0xFF`.
    InScanAtMarker,
}

/// Whether a byte after `0xFF` keeps a walk inside entropy-coded data: a
/// stuffed zero or one of the restart markers.
pub open spec fn stays_in_scan(byte: u8) -> bool {
    byte == 0x00 || 0xd0 <= byte <= 0xd7
}

/// The big-endian number in the two bytes at `at`.
pub open spec fn length_at(bytes: Seq<u8>, at: int) -> int {
    bytes[at] * 256 + bytes[at + 1]
}

/// Whether a walk that stands at `at` in state `walk` meets no segment
/// length below 2 before it ends.
///
/// The walk ends at the end-of-image marker, at the end of the bytes, at a
/// length field that is cut off, at a segment that runs to the end of the
/// bytes or past it, and at an APP1 segment too short to tell whether it
/// holds EXIF data. An APP1 segment is passed over like any
/// other. After a start-of-scan segment the walk runs through the
/// entropy-coded data up to the next `0xFF` that is followed by neither a
/// zero nor a restart marker.
pub open spec fn framed_from(bytes: Seq<u8>, at: int, walk: Walk) -> bool
    decreases bytes.len() - at, (if walk is InScanAtMarker { 1nat } else { 0nat }),
{
    if at < 0 || at >= bytes.len() {
        true
    } else {
        match walk {
            Walk::Seeking => framed_from(
                bytes,
                at + 1,
                if bytes[at] == MARKER_PREFIX {
                    Walk::AtMarker
                } else {
                    Walk::Seeking
                },
            ),
            Walk::AtMarker => {
                if bytes[at] == END_OF_IMAGE || at + 3 > bytes.len() {
                    true
                } else if length_at(bytes, at + 1) < 2 {
                    false
                } else if bytes[at] == APP1 && at + 3 + EXIF_HEADER_LENGTH > bytes.len() {
                    true
                } else if at + 1 + length_at(bytes, at + 1) >= bytes.len() {
                    true
                } else {
                    framed_from(
                        bytes,
                        at + 1 + length_at(bytes, at + 1),
                        if bytes[at] == START_OF_SCAN {
                            Walk::InScan
                        } else {
                            Walk::Seeking
                        },
                    )
                }
            },
            Walk::InScan => framed_from(
                bytes,
                at + 1,
                if bytes[at] == MARKER_PREFIX {
                    Walk::InScanAtMarker
                } else {
                    Walk::InScan
                },
            ),
            Walk::InScanAtMarker => {
                if stays_in_scan(bytes[at]) {
                    framed_from(bytes, at + 1, Walk::InScan)
                } else {
                    framed_from(bytes, at, Walk::AtMarker)
                }
            },
        }
    }
}

/// Whether the bytes start with the JPEG start-of-image marker.
pub open spec fn has_signature(bytes: Seq<u8>) -> bool {
    bytes.len() >= 2 && bytes[0] == MARKER_PREFIX && bytes[1] == 0xd8
}

/// Whether a file's segments can be walked: either it lacks the JPEG
/// signature, so that no walk starts, or the walk from behind the signature
/// meets no segment length below 2.
pub open spec fn well_framed(bytes: Seq<u8>) -> bool {
    has_signature(bytes) ==> framed_from(bytes, 2, Walk::Seeking)
}

/// Walks the segments of `bytes` and says whether they are [`well_framed`].
pub fn segments_well_framed(bytes: &[u8]) -> (r: bool)
    ensures
        r == well_framed(bytes@),
{
    let len = bytes.len();
    if len < 2 || bytes[0] != MARKER_PREFIX || bytes[1] != 0xd8 {
        return true;
    }
    let mut at: usize = 2;
    let mut walk = Walk::Seeking;
    while at < len
        invariant
            len == bytes@.len(),
            2 <= at,
            well_framed(bytes@) == framed_from(bytes@, at as int, walk),
        decreases len - at, (if walk is InScanAtMarker { 1nat } else { 0nat }),
    {
        let byte = bytes[at];
        match walk {
            Walk::Seeking => {
                walk = if byte == MARKER_PREFIX {
                    Walk::AtMarker
                } else {
                    Walk::Seeking
                };
                at = at + 1;
            },
            Walk::AtMarker => {
                if byte == END_OF_IMAGE || len - at < 3 {
                    return true;
                }
                let length: usize = bytes[at + 1] as usize * 256 + bytes[at + 2] as usize;
                if length < 2 {
                    return false;
                }
                if byte == APP1 && len - at < 3 + EXIF_HEADER_LENGTH {
                    return true;
                }
                if length >= len - at - 1 {
                    return true;
                }
                walk = if byte == START_OF_SCAN {
                    Walk::InScan
                } else {
                    Walk::Seeking
                };
                at = at + 1 + length;
            },
            Walk::InScan => {
                walk = if byte == MARKER_PREFIX {
                    Walk::InScanAtMarker
                } else {
                    Walk::InScan
                };
                at = at + 1;
            },
            Walk::InScanAtMarker => {
                if byte == 0x00 || (0xd0 <= byte && byte <= 0xd7) {
                    walk = Walk::InScan;
                    at = at + 1;
                } else {
                    walk = Walk::AtMarker;
                }
            },
        }
    }
    true
}

/// Whether the six bytes from `at` are `Exif` and two zero bytes.
pub open spec fn is_exif_header_at(bytes: Seq<u8>, at: int) -> bool {
    &&& bytes[at] == 0x45
    &&& bytes[at + 1] == 0x78
    &&& bytes[at + 2] == 0x69
    &&& bytes[at + 3] == 0x66
    &&& bytes[at + 4] == 0
    &&& bytes[at + 5] == 0
}

/// Whether a walk that is right after a `0xFF`, at the marker byte, has
/// that `0xFF` still to hand on.
pub open spec fn holds_prefix(walk: Walk) -> bool {
    walk is AtMarker || walk is InScanAtMarker
}

/// What a walk from `at` in state `walk` leaves of a file when it takes the
/// EXIF segments out: every byte from `at` on but those of the APP1
/// segments that open with the `Exif` header. Where the walk ends, what is
/// left of the file stays as it is. A walk that stands at a marker byte
/// hands on the `0xFF` before it first, unless the marker opens an EXIF
/// segment.
pub open spec fn rest_from(bytes: Seq<u8>, at: int, walk: Walk) -> Seq<u8>
    decreases bytes.len() - at, (if walk is InScanAtMarker { 1nat } else { 0nat }),
{
    if at < 0 || at >= bytes.len() {
        if holds_prefix(walk) {
            seq![MARKER_PREFIX]
        } else {
            Seq::empty()
        }
    } else {
        match walk {
            Walk::Seeking => if bytes[at] == MARKER_PREFIX {
                rest_from(bytes, at + 1, Walk::AtMarker)
            } else {
                seq![bytes[at]] + rest_from(bytes, at + 1, Walk::Seeking)
            },
            Walk::AtMarker => {
                if bytes[at] == END_OF_IMAGE || at + 3 > bytes.len() || length_at(bytes, at + 1)
                    < 2 || (bytes[at] == APP1 && at + 3 + EXIF_HEADER_LENGTH > bytes.len()) {
                    seq![MARKER_PREFIX] + bytes.subrange(at, bytes.len() as int)
                } else if bytes[at] == APP1 && is_exif_header_at(bytes, at + 3) {
                    if at + 1 + length_at(bytes, at + 1) >= bytes.len() {
                        Seq::empty()
                    } else {
                        rest_from(bytes, at + 1 + length_at(bytes, at + 1), Walk::Seeking)
                    }
                } else if at + 1 + length_at(bytes, at + 1) >= bytes.len() {
                    seq![MARKER_PREFIX] + bytes.subrange(at, bytes.len() as int)
                } else {
                    seq![MARKER_PREFIX] + bytes.subrange(at, at + 1 + length_at(bytes, at + 1))
                        + rest_from(
                        bytes,
                        at + 1 + length_at(bytes, at + 1),
                        if bytes[at] == START_OF_SCAN {
                            Walk::InScan
                        } else {
                            Walk::Seeking
                        },
                    )
                }
            },
            Walk::InScan => if bytes[at] == MARKER_PREFIX {
                rest_from(bytes, at + 1, Walk::InScanAtMarker)
            } else {
                seq![bytes[at]] + rest_from(bytes, at + 1, Walk::InScan)
            },
            Walk::InScanAtMarker => {
                if stays_in_scan(bytes[at]) {
                    seq![MARKER_PREFIX, bytes[at]] + rest_from(bytes, at + 1, Walk::InScan)
                } else {
                    rest_from(bytes, at, Walk::AtMarker)
                }
            },
        }
    }
}

/// A file without its EXIF segments: the image and everything else that
/// the file holds. A file without the JPEG signature is left as it is.
pub open spec fn without_exif(bytes: Seq<u8>) -> Seq<u8> {
    if has_signature(bytes) {
        bytes.subrange(0, 2) + rest_from(bytes, 2, Walk::Seeking)
    } else {
        bytes
    }
}

/// Copies the bytes from `from` up to `to` to the end of `out`.
fn push_range(out: &mut Vec<u8>, bytes: &[u8], from: usize, to: usize)
    requires
        from <= to <= bytes.len(),
    ensures
        final(out)@ == old(out)@ + bytes@.subrange(from as int, to as int),
{
    let ghost start = out@;
    let mut i = from;
    while i < to
        invariant
            from <= i <= to <= bytes.len(),
            out@ == start + bytes@.subrange(from as int, i as int),
        decreases to - i,
    {
        out.push(bytes[i]);
        assert(bytes@.subrange(from as int, i + 1) =~= bytes@.subrange(from as int, i as int)
            + seq![bytes@[i as int]]);
        assert(out@ =~= start + bytes@.subrange(from as int, i + 1));
        i = i + 1;
    }
    assert(bytes@.subrange(from as int, from as int) =~= Seq::<u8>::empty()) ;
}

/// Takes the EXIF segments out of a copy of a file.
pub fn take_exif_out(bytes: &[u8]) -> (r: Vec<u8>)
    ensures
        r@ == without_exif(bytes@),
{
    let len = bytes.len();
    let mut out: Vec<u8> = Vec::new();
    if len < 2 || bytes[0] != MARKER_PREFIX || bytes[1] != 0xd8 {
        push_range(&mut out, bytes, 0, len);
        assert(out@ =~= bytes@);
        return out;
    }
    push_range(&mut out, bytes, 0, 2);
    let mut at: usize = 2;
    let mut walk = Walk::Seeking;
    while at < len
        invariant
            len == bytes@.len(),
            2 <= at,
            without_exif(bytes@) == out@ + rest_from(bytes@, at as int, walk),
        decreases len - at, (if walk is InScanAtMarker { 1nat } else { 0nat }),
    {
        let byte = bytes[at];
        let ghost before = out@;
        match walk {
            Walk::Seeking => {
                if byte == MARKER_PREFIX {
                    walk = Walk::AtMarker;
                } else {
                    out.push(byte);
                    assert(out@ + rest_from(bytes@, at + 1, Walk::Seeking) =~= before + (seq![byte]
                        + rest_from(bytes@, at + 1, Walk::Seeking)));
                }
                at = at + 1;
            },
            Walk::AtMarker => {
                let stop = byte == END_OF_IMAGE || len - at < 3;
                let length: usize = if stop {
                    0
                } else {
                    bytes[at + 1] as usize * 256 + bytes[at + 2] as usize
                };
                if stop || length < 2 || (byte == APP1 && len - at < 3 + EXIF_HEADER_LENGTH) {
                    out.push(MARKER_PREFIX);
                    push_range(&mut out, bytes, at, len);
                    assert(out@ =~= before + (seq![MARKER_PREFIX] + bytes@.subrange(
                        at as int,
                        len as int,
                    )));
                    return out;
                }
                if byte == APP1 && bytes[at + 3] == 0x45 && bytes[at + 4] == 0x78 && bytes[at + 5]
                    == 0x69 && bytes[at + 6] == 0x66 && bytes[at + 7] == 0 && bytes[at + 8] == 0 {
                    if length >= len - at - 1 {
                        assert(out@ =~= before + Seq::<u8>::empty());
                        return out;
                    }
                    walk = Walk::Seeking;
                    at = at + 1 + length;
                } else {
                    out.push(MARKER_PREFIX);
                    if length >= len - at - 1 {
                        push_range(&mut out, bytes, at, len);
                        assert(out@ =~= before + (seq![MARKER_PREFIX] + bytes@.subrange(
                            at as int,
                            len as int,
                        )));
                        return out;
                    }
                    push_range(&mut out, bytes, at, at + 1 + length);
                    let next = if byte == START_OF_SCAN {
                        Walk::InScan
                    } else {
                        Walk::Seeking
                    };
                    assert(out@ + rest_from(bytes@, at + 1 + length, next) =~= before + (
                    seq![MARKER_PREFIX] + bytes@.subrange(at as int, at + 1 + length) + rest_from(
                        bytes@,
                        at + 1 + length,
                        next,
                    )));
                    walk = next;
                    at = at + 1 + length;
                }
            },
            Walk::InScan => {
                if byte == MARKER_PREFIX {
                    walk = Walk::InScanAtMarker;
                } else {
                    out.push(byte);
                    assert(out@ + rest_from(bytes@, at + 1, Walk::InScan) =~= before + (seq![byte]
                        + rest_from(bytes@, at + 1, Walk::InScan)));
                }
                at = at + 1;
            },
            Walk::InScanAtMarker => {
                if byte == 0x00 || (0xd0 <= byte && byte <= 0xd7) {
                    out.push(MARKER_PREFIX);
                    out.push(byte);
                    assert(out@ + rest_from(bytes@, at + 1, Walk::InScan) =~= before + (
                    seq![MARKER_PREFIX, byte] + rest_from(bytes@, at + 1, Walk::InScan)));
                    walk = Walk::InScan;
                    at = at + 1;
                } else {
                    walk = Walk::AtMarker;
                }
            },
        }
    }
    if matches!(walk, Walk::AtMarker | Walk::InScanAtMarker) {
        out.push(MARKER_PREFIX);
        assert(out@ =~= without_exif(bytes@));
    } else {
        assert(out@ =~= without_exif(bytes@));
    }
    out
}

} // verus!
