//! The directories of an EXIF segment, as far as reading them safely needs.
//!
//! The tags of a photograph sit in an APP1 segment of the JPEG file, in the
//! layout of a TIFF file: a header, then directories of twelve-byte entries,
//! each directory with a link to the next and some entries with a pointer to
//! a directory that hangs off. `little_exif` reads all of that. The walk
//! here goes the same way first, without reading any value it does not
//! need, and says whether the reader will come to an end on the file: no
//! link leads in a circle, no pointer leads back, no directory has two
//! pointers of one kind, no value lies outside the segment, and the values
//! that the reader converts on the way are ones that it can convert.

use vstd::prelude::*;
use vstd::slice::slice_subrange;
use crate::jpeg::Walk;
use crate::jpeg::has_signature;
use crate::jpeg::length_at;
use crate::jpeg::stays_in_scan;
use crate::jpeg::APP1;
use crate::jpeg::END_OF_IMAGE;
use crate::jpeg::EXIF_HEADER_LENGTH;
use crate::jpeg::MARKER_PREFIX;
use crate::jpeg::START_OF_SCAN;
use crate::pipeline::DirectoryGroup;
use crate::pipeline::EXIF_POINTER_ID;
use crate::pipeline::GPS_POINTER_ID;
use crate::pipeline::INTEROP_POINTER_ID;

verus! {

/// Where the payload of the first APP1 segment lies that a walk from `at`
/// in state `walk` comes to: its first byte and the byte behind its last.
/// `None` where the walk ends before it finds one that is complete.
pub open spec fn payload_from(bytes: Seq<u8>, at: int, walk: Walk) -> Option<(int, int)>
    decreases bytes.len() - at, (if walk is InScanAtMarker { 1nat } else { 0nat }),
{
    if at < 0 || at >= bytes.len() {
        None
    } else {
        match walk {
            Walk::Seeking => payload_from(
                bytes,
                at + 1,
                if bytes[at] == MARKER_PREFIX {
                    Walk::AtMarker
                } else {
                    Walk::Seeking
                },
            ),
            Walk::AtMarker => {
                if bytes[at] == END_OF_IMAGE || at + 3 > bytes.len() || length_at(bytes, at + 1)
                    < 2 {
                    None
                } else if bytes[at] == APP1 {
                    if at + 1 + length_at(bytes, at + 1) > bytes.len() {
                        None
                    } else {
                        Some((at + 3, at + 1 + length_at(bytes, at + 1)))
                    }
                } else if at + 1 + length_at(bytes, at + 1) >= bytes.len() {
                    None
                } else {
                    payload_from(
                        bytes,
                        at + 1 + length_at(bytes, at + 1),
                        if bytes[at] == START_OF_SCAN {
                            Walk::InScan
                        } else {
                            Walk::Seeking
                        },
                    )
                }
            },
            Walk::InScan => payload_from(
                bytes,
                at + 1,
                if bytes[at] == MARKER_PREFIX {
                    Walk::InScanAtMarker
                } else {
                    Walk::InScan
                },
            ),
            Walk::InScanAtMarker => {
                if stays_in_scan(bytes[at]) {
                    payload_from(bytes, at + 1, Walk::InScan)
                } else {
                    payload_from(bytes, at, Walk::AtMarker)
                }
            },
        }
    }
}

/// Where the payload of the first APP1 segment of a JPEG file lies.
pub open spec fn exif_payload(bytes: Seq<u8>) -> Option<(int, int)> {
    if has_signature(bytes) {
        payload_from(bytes, 2, Walk::Seeking)
    } else {
        None
    }
}

/// Whether a payload opens with `Exif` and two zero bytes.
pub open spec fn has_exif_header(payload: Seq<u8>) -> bool {
    &&& payload[0] == 0x45
    &&& payload[1] == 0x78
    &&& payload[2] == 0x69
    &&& payload[3] == 0x66
    &&& payload[4] == 0
    &&& payload[5] == 0
}

/// The 16-bit number at `at`, highest byte first if `big`.
pub open spec fn u16_at(t: Seq<u8>, at: int, big: bool) -> int {
    if big {
        t[at] * 256 + t[at + 1]
    } else {
        t[at + 1] * 256 + t[at]
    }
}

/// The 32-bit number at `at`, highest byte first if `big`.
pub open spec fn u32_at(t: Seq<u8>, at: int, big: bool) -> int {
    if big {
        u16_at(t, at, true) * 65536 + u16_at(t, at + 2, true)
    } else {
        u16_at(t, at + 2, false) * 65536 + u16_at(t, at, false)
    }
}

/// The bytes that `count` values of a format take, or -1 for a format that
/// there is not.
pub open spec fn value_bytes(format: int, count: int) -> int {
    if format == 1 || format == 2 || format == 6 || format == 7 {
        count
    } else if format == 3 || format == 8 {
        2 * count
    } else if format == 4 || format == 9 || format == 11 {
        4 * count
    } else if format == 5 || format == 10 || format == 12 {
        8 * count
    } else {
        -1
    }
}

/// The bytes that the value of the entry at `at` takes.
pub open spec fn entry_bytes(t: Seq<u8>, big: bool, at: int) -> int {
    value_bytes(u16_at(t, at + 2, big), u32_at(t, at + 4, big))
}

/// Whether the reader goes on to the value of the entry at `at`: its format
/// is one that there is and its value takes less than 2^32 bytes.
pub open spec fn entry_is_read(t: Seq<u8>, big: bool, at: int) -> bool {
    0 <= entry_bytes(t, big, at) <= 0xffff_ffff
}

/// Where the value of the entry at `at` lies: in the entry if it fits in
/// four bytes, else where the entry says.
pub open spec fn value_at(t: Seq<u8>, big: bool, at: int) -> int {
    if entry_bytes(t, big, at) > 4 {
        u32_at(t, at + 8, big)
    } else {
        at + 8
    }
}

/// Whether a tag in a directory of a kind is one whose values the reader
/// takes for bytes, also where they are stored as 16-bit numbers: the GPS
/// version and the reference of the altitude.
pub open spec fn is_byte_tag(group: DirectoryGroup, id: int) -> bool {
    group == DirectoryGroup::Gps && (id == 0 || id == 5)
}

/// The kind of directory that a tag in a directory of a kind points to.
pub open spec fn points_to(group: DirectoryGroup, id: int) -> Option<DirectoryGroup> {
    if group == DirectoryGroup::Generic && id == EXIF_POINTER_ID {
        Some(DirectoryGroup::Exif)
    } else if group == DirectoryGroup::Generic && id == GPS_POINTER_ID {
        Some(DirectoryGroup::Gps)
    } else if group == DirectoryGroup::Exif && id == INTEROP_POINTER_ID {
        Some(DirectoryGroup::Interop)
    } else {
        None
    }
}

/// Where value `v` of a run of values of `width` bytes from `base` lies.
pub open spec fn value_slot(base: int, width: int, v: int) -> int {
    base + width * v
}

/// Whether a tag in a directory of a kind is one that holds signed
/// rationals, which the reader makes of unsigned ones by way of a float
/// where it finds those: the shutter speed, the brightness, the exposure
/// compensation, the temperature, the water depth and the camera angle.
pub open spec fn is_signed_tag(group: DirectoryGroup, id: int) -> bool {
    group == DirectoryGroup::Exif && (id == 0x9201 || id == 0x9203 || id == 0x9204 || id == 0x9400
        || id == 0x9403 || id == 0x9405)
}

/// Whether a tag is one whose values are the lengths of data that the
/// reader fetches: the byte counts of the strips and the length of the
/// thumbnail.
pub open spec fn is_length_tag(id: int) -> bool {
    id == 0x0117 || id == 0x0202
}

/// Whether an unsigned rational goes through a float and back without a
/// remainder: it is a whole number, or it has no value at all.
pub open spec fn is_plain(numerator: int, denominator: int) -> bool {
    denominator == 0 || numerator % denominator == 0
}

/// Whether the 16-bit values of a run are all below 256.
pub open spec fn are_bytes(t: Seq<u8>, big: bool, base: int, count: int) -> bool {
    forall|v: int| 0 <= v < count ==> u16_at(t, #[trigger] value_slot(base, 2, v), big) <= 255
}

/// Whether the rationals of a run are all plain.
pub open spec fn are_plain(t: Seq<u8>, big: bool, base: int, count: int) -> bool {
    forall|v: int|
        0 <= v < count ==> is_plain(
            u32_at(t, #[trigger] value_slot(base, 8, v), big),
            u32_at(t, value_slot(base, 8, v) + 4, big),
        )
}

/// Whether the 32-bit values of a run are all lengths of something inside
/// the data.
pub open spec fn are_lengths(t: Seq<u8>, big: bool, base: int, count: int) -> bool {
    forall|v: int| 0 <= v < count ==> u32_at(t, #[trigger] value_slot(base, 4, v), big) <= t.len()
}

/// Whether the reader can take the entry at `at` of a directory of kind
/// `group`. An entry that the reader gives up on before its value is fine.
/// Of any other, a value of more than four bytes lies inside the data; the
/// 16-bit values of a tag that takes bytes are below 256; the unsigned
/// rationals of a tag that takes signed ones are plain; the lengths of
/// strips and thumbnail are lengths of something inside the data; and the
/// reference of the altitude, stored as text, has a first character.
pub open spec fn entry_ok(t: Seq<u8>, big: bool, at: int, group: DirectoryGroup) -> bool {
    entry_is_read(t, big, at) ==> {
        &&& entry_bytes(t, big, at) > 4 ==> value_at(t, big, at) + entry_bytes(t, big, at)
            <= t.len()
        &&& is_byte_tag(group, u16_at(t, at, big)) && u16_at(t, at + 2, big) == 3 ==> are_bytes(
            t,
            big,
            value_at(t, big, at),
            u32_at(t, at + 4, big),
        )
        &&& is_signed_tag(group, u16_at(t, at, big)) && u16_at(t, at + 2, big) == 5
            ==> are_plain(t, big, value_at(t, big, at), u32_at(t, at + 4, big))
        &&& is_length_tag(u16_at(t, at, big)) && u16_at(t, at + 2, big) == 4 ==> are_lengths(
            t,
            big,
            value_at(t, big, at),
            u32_at(t, at + 4, big),
        )
        &&& group == DirectoryGroup::Gps && u16_at(t, at, big) == 5 && u16_at(t, at + 2, big) == 2
            ==> u32_at(t, at + 4, big) >= 1
    }
}

/// The kind of directory that the entry at `at` sends the reader to, if it
/// does: a pointer tag of the directory's kind with a value of four bytes.
pub open spec fn entry_points(t: Seq<u8>, big: bool, at: int, group: DirectoryGroup) -> Option<
    DirectoryGroup,
> {
    if entry_bytes(t, big, at) == 4 {
        points_to(group, u16_at(t, at, big))
    } else {
        None
    }
}

/// Where entry `k` of the directory at `pos` lies.
pub open spec fn slot(pos: int, k: int) -> int {
    pos + 2 + 12 * k
}

/// The number of entries that the directory at `pos` says it has.
pub open spec fn entry_count(t: Seq<u8>, big: bool, pos: int) -> int {
    u16_at(t, pos, big)
}

/// Whether the reader goes through the entries of a directory at `pos`:
/// there are six bytes, and there is room for the entries and the link.
pub open spec fn has_entries(t: Seq<u8>, big: bool, pos: int) -> bool {
    t.len() - pos >= 6 && 2 + 12 * entry_count(t, big, pos) + 4 <= t.len() - pos
}

/// Whether the reader can take every entry of the directory at `pos`, and
/// no two entries send it to a directory of the same kind.
pub open spec fn entries_ok(t: Seq<u8>, big: bool, pos: int, group: DirectoryGroup) -> bool {
    &&& forall|k: int|
        0 <= k < entry_count(t, big, pos) ==> entry_ok(t, big, #[trigger] slot(pos, k), group)
    &&& forall|k: int, l: int|
        0 <= k < l < entry_count(t, big, pos) && entry_points(
            t,
            big,
            #[trigger] slot(pos, k),
            group,
        ) is Some ==> entry_points(t, big, slot(pos, k), group) != entry_points(
            t,
            big,
            #[trigger] slot(pos, l),
            group,
        )
}

/// Whether the reader can take a directory from which no pointer leads on:
/// a GPS or an interoperability directory.
pub open spec fn leaf_ok(t: Seq<u8>, big: bool, pos: int, group: DirectoryGroup) -> bool {
    has_entries(t, big, pos) ==> entries_ok(t, big, pos, group)
}

/// Whether the reader can take the EXIF directory at `pos`, which hangs off
/// the directory at `above`, and the interoperability directory that it
/// points to, which is neither of the two.
pub open spec fn exif_ok(t: Seq<u8>, big: bool, pos: int, above: int) -> bool {
    has_entries(t, big, pos) ==> {
        &&& entries_ok(t, big, pos, DirectoryGroup::Exif)
        &&& forall|k: int|
            0 <= k < entry_count(t, big, pos) && entry_points(
                t,
                big,
                #[trigger] slot(pos, k),
                DirectoryGroup::Exif,
            ) is Some ==> {
                &&& u32_at(t, slot(pos, k) + 8, big) != pos
                &&& u32_at(t, slot(pos, k) + 8, big) != above
                &&& leaf_ok(t, big, u32_at(t, slot(pos, k) + 8, big), DirectoryGroup::Interop)
            }
    }
}

/// Whether the reader can take the directory of an image at `pos` and the
/// directories that hang off it, none of which is the directory itself.
pub open spec fn image_ok(t: Seq<u8>, big: bool, pos: int) -> bool {
    has_entries(t, big, pos) ==> {
        &&& entries_ok(t, big, pos, DirectoryGroup::Generic)
        &&& forall|k: int|
            0 <= k < entry_count(t, big, pos) ==> sub_ok(t, big, pos, #[trigger] slot(pos, k))
    }
}

/// Whether the reader can take what the entry at `at` of the directory of an
/// image at `pos` points to.
pub open spec fn sub_ok(t: Seq<u8>, big: bool, pos: int, at: int) -> bool {
    match entry_points(t, big, at, DirectoryGroup::Generic) {
        Some(DirectoryGroup::Exif) => u32_at(t, at + 8, big) != pos && exif_ok(
            t,
            big,
            u32_at(t, at + 8, big),
            pos,
        ),
        Some(group) => u32_at(t, at + 8, big) != pos && leaf_ok(
            t,
            big,
            u32_at(t, at + 8, big),
            group,
        ),
        None => true,
    }
}

/// Whether the reader can take the directories of the images from `pos` on,
/// and the links from one to the next end within `fuel` steps.
pub open spec fn chain_ok(t: Seq<u8>, big: bool, pos: int, fuel: nat) -> bool
    decreases fuel,
{
    if !has_entries(t, big, pos) {
        true
    } else if !image_ok(t, big, pos) {
        false
    } else if u32_at(t, slot(pos, entry_count(t, big, pos)), big) == 0 {
        true
    } else if fuel == 0 {
        false
    } else {
        chain_ok(t, big, u32_at(t, slot(pos, entry_count(t, big, pos)), big), (fuel - 1) as nat)
    }
}

/// Whether the reader can take the data of a segment: the payload without
/// its `Exif` header, if it has one. Data without the header of a TIFF file
/// is fine, for the reader gives up on it at once. The links may take as
/// many steps as there are bytes; more would go in a circle.
pub open spec fn data_ok(t: Seq<u8>) -> bool {
    if t.len() < 8 {
        true
    } else if t[0] == 0x49 && t[1] == 0x49 && t[2] == 0x2a && t[3] == 0 {
        chain_ok(t, false, u32_at(t, 4, false), t.len())
    } else if t[0] == 0x4d && t[1] == 0x4d && t[2] == 0 && t[3] == 0x2a {
        chain_ok(t, true, u32_at(t, 4, true), t.len())
    } else {
        true
    }
}

/// Whether the reader of directories comes to an end on a file. A file
/// without an APP1 segment does, for there is nothing to read.
pub open spec fn directory_walkable(bytes: Seq<u8>) -> bool {
    match exif_payload(bytes) {
        None => true,
        Some((first, end)) => {
            let payload = bytes.subrange(first, end);
            if payload.len() < EXIF_HEADER_LENGTH {
                true
            } else if has_exif_header(payload) {
                data_ok(payload.subrange(EXIF_HEADER_LENGTH as int, payload.len() as int))
            } else {
                data_ok(payload)
            }
        },
    }
}

/// The 16-bit number at `at`.
fn read_u16(t: &[u8], at: usize, big: bool) -> (r: u16)
    requires
        at + 2 <= t.len(),
    ensures
        r == u16_at(t@, at as int, big),
{
    let first = t[at] as u16;
    let second = t[at + 1] as u16;
    if big {
        first * 256 + second
    } else {
        second * 256 + first
    }
}

/// The 32-bit number at `at`.
fn read_u32(t: &[u8], at: usize, big: bool) -> (r: u32)
    requires
        at + 4 <= t.len(),
    ensures
        r == u32_at(t@, at as int, big),
{
    let first = read_u16(t, at, big) as u32;
    let second = read_u16(t, at + 2, big) as u32;
    if big {
        first * 65536 + second
    } else {
        second * 65536 + first
    }
}

/// The bytes that the value of the entry at `at` takes, if the reader goes
/// on to it.
fn entry_size(t: &[u8], big: bool, at: usize) -> (r: Option<u64>)
    requires
        at + 12 <= t.len(),
    ensures
        match r {
            Some(total) => entry_is_read(t@, big, at as int) && total == entry_bytes(
                t@,
                big,
                at as int,
            ),
            None => !entry_is_read(t@, big, at as int),
        },
{
    let format = read_u16(t, at + 2, big);
    let count = read_u32(t, at + 4, big) as u64;
    let total: u64 = if format == 1 || format == 2 || format == 6 || format == 7 {
        count
    } else if format == 3 || format == 8 {
        2 * count
    } else if format == 4 || format == 9 || format == 11 {
        4 * count
    } else if format == 5 || format == 10 || format == 12 {
        8 * count
    } else {
        return None;
    };
    if total > 0xffff_ffff {
        None
    } else {
        Some(total)
    }
}

/// Whether a kind of directory is the GPS directory.
fn is_gps(group: DirectoryGroup) -> (r: bool)
    ensures
        r == (group == DirectoryGroup::Gps),
{
    match group {
        DirectoryGroup::Gps => true,
        _ => false,
    }
}

/// Whether the 16-bit values of a run are all below 256.
fn bytes_check(t: &[u8], big: bool, base: usize, count: usize) -> (r: bool)
    requires
        base + 2 * count <= t.len(),
    ensures
        r == are_bytes(t@, big, base as int, count as int),
{
    let mut v: usize = 0;
    while v < count
        invariant
            v <= count,
            base + 2 * count <= t.len(),
            forall|w: int|
                0 <= w < v ==> u16_at(t@, #[trigger] value_slot(base as int, 2, w), big) <= 255,
        decreases count - v,
    {
        assert(base + 2 * v == value_slot(base as int, 2, v as int));
        if read_u16(t, base + 2 * v, big) > 255 {
            return false;
        }
        v = v + 1;
    }
    true
}

/// Whether the rationals of a run are all plain.
fn plain_check(t: &[u8], big: bool, base: usize, count: usize) -> (r: bool)
    requires
        base + 8 * count <= t.len(),
    ensures
        r == are_plain(t@, big, base as int, count as int),
{
    let mut v: usize = 0;
    while v < count
        invariant
            v <= count,
            base + 8 * count <= t.len(),
            forall|w: int|
                0 <= w < v ==> is_plain(
                    u32_at(t@, #[trigger] value_slot(base as int, 8, w), big),
                    u32_at(t@, value_slot(base as int, 8, w) + 4, big),
                ),
        decreases count - v,
    {
        assert(base + 8 * v == value_slot(base as int, 8, v as int));
        let numerator = read_u32(t, base + 8 * v, big);
        let denominator = read_u32(t, base + 8 * v + 4, big);
        if denominator != 0 && numerator % denominator != 0 {
            return false;
        }
        v = v + 1;
    }
    true
}

/// Whether the 32-bit values of a run are all lengths of something inside
/// the data.
fn lengths_check(t: &[u8], big: bool, base: usize, count: usize) -> (r: bool)
    requires
        base + 4 * count <= t.len(),
    ensures
        r == are_lengths(t@, big, base as int, count as int),
{
    let mut v: usize = 0;
    while v < count
        invariant
            v <= count,
            base + 4 * count <= t.len(),
            forall|w: int|
                0 <= w < v ==> u32_at(t@, #[trigger] value_slot(base as int, 4, w), big) <= t.len(),
        decreases count - v,
    {
        assert(base + 4 * v == value_slot(base as int, 4, v as int));
        if read_u32(t, base + 4 * v, big) as u64 > t.len() as u64 {
            return false;
        }
        v = v + 1;
    }
    true
}

/// Whether a kind of directory is the EXIF directory.
fn is_exif(group: DirectoryGroup) -> (r: bool)
    ensures
        r == (group == DirectoryGroup::Exif),
{
    match group {
        DirectoryGroup::Exif => true,
        _ => false,
    }
}

/// Whether the reader can take the entry at `at`.
fn entry_check(t: &[u8], big: bool, at: usize, group: DirectoryGroup) -> (r: bool)
    requires
        at + 12 <= t.len(),
    ensures
        r == entry_ok(t@, big, at as int, group),
{
    let total = match entry_size(t, big, at) {
        Some(total) => total,
        None => {
            return true;
        },
    };
    let id = read_u16(t, at, big);
    let format = read_u16(t, at + 2, big);
    let count = read_u32(t, at + 4, big) as u64;
    let value: u64 = if total > 4 {
        read_u32(t, at + 8, big) as u64
    } else {
        (at + 8) as u64
    };
    if total > 4 && value + total > t.len() as u64 {
        return false;
    }
    let base = value as usize;
    let count = count as usize;
    if is_gps(group) && (id == 0 || id == 5) && format == 3 && !bytes_check(t, big, base, count) {
        return false;
    }
    if is_exif(group) && (id == 0x9201 || id == 0x9203 || id == 0x9204 || id == 0x9400 || id
        == 0x9403 || id == 0x9405) && format == 5 && !plain_check(t, big, base, count) {
        return false;
    }
    if (id == 0x0117 || id == 0x0202) && format == 4 && !lengths_check(t, big, base, count) {
        return false;
    }
    if is_gps(group) && id == 5 && format == 2 && count == 0 {
        return false;
    }
    true
}

/// The kind of directory that the entry at `at` sends the reader to.
fn entry_pointer(t: &[u8], big: bool, at: usize, group: DirectoryGroup) -> (r: Option<
    DirectoryGroup,
>)
    requires
        at + 12 <= t.len(),
    ensures
        r == entry_points(t@, big, at as int, group),
{
    match entry_size(t, big, at) {
        Some(4) => {},
        _ => {
            return None;
        },
    }
    let id = read_u16(t, at, big);
    match group {
        DirectoryGroup::Generic => if id == EXIF_POINTER_ID {
            Some(DirectoryGroup::Exif)
        } else if id == GPS_POINTER_ID {
            Some(DirectoryGroup::Gps)
        } else {
            None
        },
        DirectoryGroup::Exif => if id == INTEROP_POINTER_ID {
            Some(DirectoryGroup::Interop)
        } else {
            None
        },
        _ => None,
    }
}

/// The number of entries of the directory at `pos`, if the reader goes
/// through them.
fn shape(t: &[u8], big: bool, pos: u64) -> (r: Option<usize>)
    ensures
        match r {
            Some(n) => has_entries(t@, big, pos as int) && n == entry_count(t@, big, pos as int)
                && pos + 2 + 12 * n + 4 <= t.len(),
            None => !has_entries(t@, big, pos as int),
        },
{
    if pos >= t.len() as u64 || t.len() as u64 - pos < 6 {
        return None;
    }
    let n = read_u16(t, pos as usize, big) as u64;
    if 2 + 12 * n + 4 > t.len() as u64 - pos {
        None
    } else {
        Some(n as usize)
    }
}

/// Whether the reader can take every entry of the directory at `pos`, and
/// no two entries send it to a directory of the same kind.
fn entries_check(t: &[u8], big: bool, pos: usize, n: usize, group: DirectoryGroup) -> (r: bool)
    requires
        has_entries(t@, big, pos as int),
        n == entry_count(t@, big, pos as int),
        pos + 2 + 12 * n + 4 <= t.len(),
    ensures
        r == entries_ok(t@, big, pos as int, group),
{
    let mut k: usize = 0;
    let mut seen_exif = false;
    let mut seen_gps = false;
    let mut seen_interop = false;
    let ghost mut at_exif: int = 0;
    let ghost mut at_gps: int = 0;
    let ghost mut at_interop: int = 0;
    while k < n
        invariant
            k <= n,
            n == entry_count(t@, big, pos as int),
            pos + 2 + 12 * n + 4 <= t.len(),
            forall|l: int| 0 <= l < k ==> entry_ok(t@, big, #[trigger] slot(pos as int, l), group),
            forall|l: int, m: int|
                0 <= l < m < k && entry_points(t@, big, #[trigger] slot(pos as int, l), group)
                    is Some ==> entry_points(t@, big, slot(pos as int, l), group) != entry_points(
                    t@,
                    big,
                    #[trigger] slot(pos as int, m),
                    group,
                ),
            seen_exif ==> 0 <= at_exif < k && entry_points(t@, big, slot(pos as int, at_exif), group)
                == Some(DirectoryGroup::Exif),
            seen_gps ==> 0 <= at_gps < k && entry_points(t@, big, slot(pos as int, at_gps), group)
                == Some(DirectoryGroup::Gps),
            seen_interop ==> 0 <= at_interop < k && entry_points(
                t@,
                big,
                slot(pos as int, at_interop),
                group,
            ) == Some(DirectoryGroup::Interop),
            !seen_exif ==> forall|l: int|
                0 <= l < k ==> entry_points(t@, big, #[trigger] slot(pos as int, l), group) != Some(
                    DirectoryGroup::Exif,
                ),
            !seen_gps ==> forall|l: int|
                0 <= l < k ==> entry_points(t@, big, #[trigger] slot(pos as int, l), group) != Some(
                    DirectoryGroup::Gps,
                ),
            !seen_interop ==> forall|l: int|
                0 <= l < k ==> entry_points(t@, big, #[trigger] slot(pos as int, l), group) != Some(
                    DirectoryGroup::Interop,
                ),
        decreases n - k,
    {
        let at = pos + 2 + 12 * k;
        assert(at == slot(pos as int, k as int));
        if !entry_check(t, big, at, group) {
            return false;
        }
        match entry_pointer(t, big, at, group) {
            Some(DirectoryGroup::Exif) => {
                if seen_exif {
                    assert(entry_points(t@, big, slot(pos as int, at_exif), group) == entry_points(
                        t@,
                        big,
                        slot(pos as int, k as int),
                        group,
                    ));
                    return false;
                }
                seen_exif = true;
                proof {
                    at_exif = k as int;
                }
            },
            Some(DirectoryGroup::Gps) => {
                if seen_gps {
                    assert(entry_points(t@, big, slot(pos as int, at_gps), group) == entry_points(
                        t@,
                        big,
                        slot(pos as int, k as int),
                        group,
                    ));
                    return false;
                }
                seen_gps = true;
                proof {
                    at_gps = k as int;
                }
            },
            Some(DirectoryGroup::Interop) => {
                if seen_interop {
                    assert(entry_points(t@, big, slot(pos as int, at_interop), group)
                        == entry_points(t@, big, slot(pos as int, k as int), group));
                    return false;
                }
                seen_interop = true;
                proof {
                    at_interop = k as int;
                }
            },
            _ => {},
        }
        k = k + 1;
    }
    true
}

/// Whether the reader can take a directory from which no pointer leads on.
fn leaf_check(t: &[u8], big: bool, pos: u64, group: DirectoryGroup) -> (r: bool)
    ensures
        r == leaf_ok(t@, big, pos as int, group),
{
    match shape(t, big, pos) {
        None => true,
        Some(n) => entries_check(t, big, pos as usize, n, group),
    }
}

/// Whether the reader can take the EXIF directory at `pos` and what it
/// points to.
#[verifier::loop_isolation(false)]
fn exif_check(t: &[u8], big: bool, pos: u64, above: u64) -> (r: bool)
    ensures
        r == exif_ok(t@, big, pos as int, above as int),
{
    let n = match shape(t, big, pos) {
        None => {
            return true;
        },
        Some(n) => n,
    };
    let pos = pos as usize;
    if !entries_check(t, big, pos, n, DirectoryGroup::Exif) {
        return false;
    }
    let mut k: usize = 0;
    while k < n
        invariant
            k <= n,
            n == entry_count(t@, big, pos as int),
            pos + 2 + 12 * n + 4 <= t.len(),
            forall|l: int|
                0 <= l < k && entry_points(
                    t@,
                    big,
                    #[trigger] slot(pos as int, l),
                    DirectoryGroup::Exif,
                ) is Some ==> {
                    &&& u32_at(t@, slot(pos as int, l) + 8, big) != pos
                    &&& u32_at(t@, slot(pos as int, l) + 8, big) != above
                    &&& leaf_ok(
                        t@,
                        big,
                        u32_at(t@, slot(pos as int, l) + 8, big),
                        DirectoryGroup::Interop,
                    )
                },
        decreases n - k,
    {
        let at = pos + 2 + 12 * k;
        assert(at == slot(pos as int, k as int));
        let fine = match entry_pointer(t, big, at, DirectoryGroup::Exif) {
            Some(_) => {
                let target = read_u32(t, at + 8, big) as u64;
                target != pos as u64 && target != above && leaf_check(
                    t,
                    big,
                    target,
                    DirectoryGroup::Interop,
                )
            },
            None => true,
        };
        if !fine {
            assert(entry_points(t@, big, slot(pos as int, k as int), DirectoryGroup::Exif) is Some);
            return false;
        }
        k = k + 1;
    }
    true
}

/// Whether the reader can take the directory of an image at `pos` and the
/// directories that hang off it.
fn image_check(t: &[u8], big: bool, pos: usize, n: usize) -> (r: bool)
    requires
        has_entries(t@, big, pos as int),
        n == entry_count(t@, big, pos as int),
        pos + 2 + 12 * n + 4 <= t.len(),
    ensures
        r == image_ok(t@, big, pos as int),
{
    if !entries_check(t, big, pos, n, DirectoryGroup::Generic) {
        return false;
    }
    let mut k: usize = 0;
    while k < n
        invariant
            k <= n,
            n == entry_count(t@, big, pos as int),
            pos + 2 + 12 * n + 4 <= t.len(),
            forall|l: int| 0 <= l < k ==> sub_ok(t@, big, pos as int, #[trigger] slot(pos as int, l)),
        decreases n - k,
    {
        let at = pos + 2 + 12 * k;
        assert(at == slot(pos as int, k as int));
        let fine = match entry_pointer(t, big, at, DirectoryGroup::Generic) {
            Some(DirectoryGroup::Exif) => {
                let target = read_u32(t, at + 8, big) as u64;
                target != pos as u64 && exif_check(t, big, target, pos as u64)
            },
            Some(group) => {
                let target = read_u32(t, at + 8, big) as u64;
                target != pos as u64 && leaf_check(t, big, target, group)
            },
            None => true,
        };
        if !fine {
            return false;
        }
        k = k + 1;
    }
    true
}

/// Whether the reader can take the directories of the images from `first`
/// on, and the links end within as many steps as there are bytes.
fn chain_check(t: &[u8], big: bool, first: u64) -> (r: bool)
    ensures
        r == chain_ok(t@, big, first as int, t@.len()),
{
    let mut pos = first;
    let mut fuel = t.len();
    loop
        invariant
            fuel <= t.len(),
            chain_ok(t@, big, first as int, t@.len()) == chain_ok(t@, big, pos as int, fuel as nat),
        decreases fuel,
    {
        let n = match shape(t, big, pos) {
            None => {
                return true;
            },
            Some(n) => n,
        };
        if !image_check(t, big, pos as usize, n) {
            return false;
        }
        let at = pos as usize + 2 + 12 * n;
        assert(at == slot(pos as int, entry_count(t@, big, pos as int)));
        let link = read_u32(t, at, big);
        if link == 0 {
            return true;
        }
        if fuel == 0 {
            return false;
        }
        pos = link as u64;
        fuel = fuel - 1;
    }
}

/// Whether the reader can take the data of a segment.
fn data_check(t: &[u8]) -> (r: bool)
    ensures
        r == data_ok(t@),
{
    if t.len() < 8 {
        true
    } else if t[0] == 0x49 && t[1] == 0x49 && t[2] == 0x2a && t[3] == 0 {
        chain_check(t, false, read_u32(t, 4, false) as u64)
    } else if t[0] == 0x4d && t[1] == 0x4d && t[2] == 0 && t[3] == 0x2a {
        chain_check(t, true, read_u32(t, 4, true) as u64)
    } else {
        true
    }
}

/// Where the payload of the first APP1 segment of a JPEG file lies.
fn find_payload(bytes: &[u8]) -> (r: Option<(usize, usize)>)
    ensures
        match r {
            Some((first, end)) => first <= end <= bytes.len() && exif_payload(bytes@) == Some(
                (first as int, end as int),
            ),
            None => exif_payload(bytes@) is None,
        },
{
    let len = bytes.len();
    if len < 2 || bytes[0] != MARKER_PREFIX || bytes[1] != 0xd8 {
        return None;
    }
    let mut at: usize = 2;
    let mut walk = Walk::Seeking;
    while at < len
        invariant
            len == bytes@.len(),
            2 <= at,
            exif_payload(bytes@) == payload_from(bytes@, at as int, walk),
        decreases len - at, (if walk is InScanAtMarker { 1nat } else { 0nat }),
    {
        let byte = bytes[at];
        match walk {
            Walk::Seeking => {
                walk = if byte == MARKER_PREFIX {
                    Walk::AtMarker
                } else {
                    Walk::Seeking
                };
                at = at + 1;
            },
            Walk::AtMarker => {
                if byte == END_OF_IMAGE || len - at < 3 {
                    return None;
                }
                let length: usize = bytes[at + 1] as usize * 256 + bytes[at + 2] as usize;
                if length < 2 {
                    return None;
                }
                if byte == APP1 {
                    if length > len - at - 1 {
                        return None;
                    }
                    return Some((at + 3, at + 1 + length));
                }
                if length >= len - at - 1 {
                    return None;
                }
                walk = if byte == START_OF_SCAN {
                    Walk::InScan
                } else {
                    Walk::Seeking
                };
                at = at + 1 + length;
            },
            Walk::InScan => {
                walk = if byte == MARKER_PREFIX {
                    Walk::InScanAtMarker
                } else {
                    Walk::InScan
                };
                at = at + 1;
            },
            Walk::InScanAtMarker => {
                if byte == 0x00 || (0xd0 <= byte && byte <= 0xd7) {
                    walk = Walk::InScan;
                    at = at + 1;
                } else {
                    walk = Walk::AtMarker;
                }
            },
        }
    }
    None
}

/// Walks the directories of a file the way the reader will and says
/// whether they are [`directory_walkable`].
pub fn directory_is_walkable(bytes: &[u8]) -> (r: bool)
    ensures
        r == directory_walkable(bytes@),
{
    let (first, end) = match find_payload(bytes) {
        None => {
            return true;
        },
        Some(range) => range,
    };
    let payload = slice_subrange(bytes, first, end);
    if payload.len() < EXIF_HEADER_LENGTH {
        true
    } else if payload[0] == 0x45 && payload[1] == 0x78 && payload[2] == 0x69 && payload[3] == 0x66
        && payload[4] == 0 && payload[5] == 0 {
        data_check(slice_subrange(payload, EXIF_HEADER_LENGTH, payload.len()))
    } else {
        data_check(payload)
    }
}

} // verus!
