//! What the library asks of the directories of a handle before it hands
//! them to the writer.
//!
//! The directories of a handle that comes out of a file are in order: no
//! two are of one kind and image, each belongs to an image that has a
//! directory of its own, and the length of a thumbnail is one number. A
//! handle can be put together otherwise, and `little_exif` does not write
//! such a handle: it sorts with a panic, leaves a directory out of a
//! removal, or runs out of room. Nor does it write more than 32 bits can
//! count. The test here tells the two apart.

use vstd::prelude::*;
use crate::pipeline::Directory;
use crate::pipeline::DirectoryGroup;
use crate::pipeline::DirectoryView;
use crate::pipeline::GpsField;
use crate::pipeline::GpsFieldView;
use crate::pipeline::directories_view;

verus! {

/// The number under which a directory files the length of the thumbnail.
pub const THUMBNAIL_LENGTH_ID: u16 = 0x0202;

/// Whether two directories are of one kind and image.
pub open spec fn same_place(a: DirectoryView, b: DirectoryView) -> bool {
    a.group == b.group && a.image == b.image
}

/// Whether no two directories are of one kind and image.
pub open spec fn are_apart(directories: Seq<DirectoryView>) -> bool {
    forall|i: int, j: int|
        0 <= i < j < directories.len() ==> !same_place(
            #[trigger] directories[i],
            #[trigger] directories[j],
        )
}

/// Whether an image number is one that the directories have an image for:
/// zero, or at most the number of the directory of some image.
pub open spec fn is_numbered(directories: Seq<DirectoryView>, image: u32) -> bool {
    image == 0 || exists|j: int|
        0 <= j < directories.len() && (#[trigger] directories[j]).group == DirectoryGroup::Generic
            && directories[j].image >= image
}

/// Whether every directory has an image number that the directories have an
/// image for.
pub open spec fn are_numbered(directories: Seq<DirectoryView>) -> bool {
    forall|i: int|
        0 <= i < directories.len() ==> is_numbered(directories, (#[trigger] directories[i]).image)
}

/// Whether a tag, if it is filed as the length of a thumbnail, has a value
/// of four bytes at most: one number.
pub open spec fn is_short_length(tag: GpsFieldView) -> bool {
    tag.id() == THUMBNAIL_LENGTH_ID ==> (tag matches GpsFieldView::Other { value, .. }
        && value.len() <= 4)
}

/// Whether every length of a thumbnail is one number.
pub open spec fn have_short_lengths(directories: Seq<DirectoryView>) -> bool {
    forall|i: int, j: int|
        0 <= i < directories.len() && 0 <= j < directories[i].tags.len() ==> is_short_length(
            #[trigger] directories[i].tags[j],
        )
}

/// The most that the directories of a handle may weigh: 2^28.
pub const MAX_WEIGHT: u64 = 0x1000_0000;

/// The bytes that the value of a tag takes at most when it is written: four
/// for each character of a letter, eight for each rational of a triple, and
/// of any other tag as many as it has.
pub open spec fn tag_size(tag: GpsFieldView) -> nat {
    match tag {
        GpsFieldView::LatitudeRef(letter) => 4 * letter.len(),
        GpsFieldView::Latitude(triple) => 8 * triple.len(),
        GpsFieldView::LongitudeRef(letter) => 4 * letter.len(),
        GpsFieldView::Longitude(triple) => 8 * triple.len(),
        GpsFieldView::Other { value, .. } => value.len(),
    }
}

/// What a tag weighs: more than the room that the writer needs for it, with
/// its entry, its value, the offsets of its strips and the padding.
pub open spec fn tag_weight(tag: GpsFieldView) -> nat {
    64 + 8 * tag_size(tag)
}

/// What the tags of a directory weigh together.
pub open spec fn tags_weight(tags: Seq<GpsFieldView>) -> nat
    decreases tags.len(),
{
    if tags.len() == 0 {
        0
    } else {
        tags_weight(tags.drop_last()) + tag_weight(tags.last())
    }
}

/// What the directories weigh together, each with its tags, its count, its
/// link and the pointers to it.
pub open spec fn weight(directories: Seq<DirectoryView>) -> nat
    decreases directories.len(),
{
    if directories.len() == 0 {
        0
    } else {
        weight(directories.drop_last()) + 64 + tags_weight(directories.last().tags)
    }
}

/// Whether the directories are light enough for the writer, which counts
/// what it writes in 32 bits.
pub open spec fn are_light(directories: Seq<DirectoryView>) -> bool {
    weight(directories) <= MAX_WEIGHT
}

/// Whether the directories are in order: no two of one kind and image, each
/// with an image number that there is an image for, and every length of a
/// thumbnail one number.
pub open spec fn is_orderly(directories: Seq<DirectoryView>) -> bool {
    &&& are_apart(directories)
    &&& are_numbered(directories)
    &&& have_short_lengths(directories)
}

/// The first tags of a directory weigh no more than all of them.
proof fn lemma_tags_weight_grows(tags: Seq<GpsFieldView>, i: int)
    requires
        0 <= i <= tags.len(),
    ensures
        tags_weight(tags.take(i)) <= tags_weight(tags),
    decreases tags.len(),
{
    if i == tags.len() {
        assert(tags.take(i) =~= tags);
    } else {
        assert(tags.drop_last().take(i) =~= tags.take(i));
        lemma_tags_weight_grows(tags.drop_last(), i);
    }
}

/// The first directories weigh no more than all of them.
proof fn lemma_weight_grows(directories: Seq<DirectoryView>, i: int)
    requires
        0 <= i <= directories.len(),
    ensures
        weight(directories.take(i)) <= weight(directories),
    decreases directories.len(),
{
    if i == directories.len() {
        assert(directories.take(i) =~= directories);
    } else {
        assert(directories.drop_last().take(i) =~= directories.take(i));
        lemma_weight_grows(directories.drop_last(), i);
    }
}

/// Whether two kinds of directory are the same.
pub fn same_group(a: DirectoryGroup, b: DirectoryGroup) -> (r: bool)
    ensures
        r == (a == b),
{
    match (a, b) {
        (DirectoryGroup::Generic, DirectoryGroup::Generic) => true,
        (DirectoryGroup::Exif, DirectoryGroup::Exif) => true,
        (DirectoryGroup::Interop, DirectoryGroup::Interop) => true,
        (DirectoryGroup::Gps, DirectoryGroup::Gps) => true,
        _ => false,
    }
}

/// Whether no two directories are of one kind and image.
fn apart_check(directories: &Vec<Directory>) -> (r: bool)
    ensures
        r == are_apart(directories_view(directories@)),
{
    let ghost all = directories_view(directories@);
    let mut j: usize = 0;
    while j < directories.len()
        invariant
            j <= directories.len(),
            all == directories_view(directories@),
            forall|k: int, l: int|
                0 <= k < l < j ==> !same_place(#[trigger] all[k], #[trigger] all[l]),
        decreases directories.len() - j,
    {
        let mut i: usize = 0;
        while i < j
            invariant
                i <= j < directories.len(),
                all == directories_view(directories@),
                forall|k: int| 0 <= k < i ==> !same_place(#[trigger] all[k], all[j as int]),
            decreases j - i,
        {
            if same_group(directories[i].group, directories[j].group) && directories[i].image
                == directories[j].image {
                assert(same_place(all[i as int], all[j as int]));
                return false;
            }
            i = i + 1;
        }
        j = j + 1;
    }
    true
}

/// Whether every directory has an image number that there is an image for.
fn numbered_check(directories: &Vec<Directory>) -> (r: bool)
    ensures
        r == are_numbered(directories_view(directories@)),
{
    let ghost all = directories_view(directories@);
    let mut top: u32 = 0;
    let ghost mut at: int = -1;
    let mut i: usize = 0;
    while i < directories.len()
        invariant
            i <= directories.len(),
            all == directories_view(directories@),
            -1 <= at < i,
            at >= 0 ==> all[at].group == DirectoryGroup::Generic && all[at].image == top,
            at < 0 ==> top == 0,
            forall|k: int|
                0 <= k < i && (#[trigger] all[k]).group == DirectoryGroup::Generic ==> all[k].image
                    <= top,
        decreases directories.len() - i,
    {
        if same_group(directories[i].group, DirectoryGroup::Generic) && directories[i].image
            >= top {
            top = directories[i].image;
            proof {
                at = i as int;
            }
        }
        i = i + 1;
    }
    let mut i: usize = 0;
    while i < directories.len()
        invariant
            i <= directories.len(),
            all == directories_view(directories@),
            -1 <= at < directories.len(),
            at >= 0 ==> all[at].group == DirectoryGroup::Generic && all[at].image == top,
            at < 0 ==> top == 0,
            forall|k: int|
                0 <= k < all.len() && (#[trigger] all[k]).group == DirectoryGroup::Generic
                    ==> all[k].image <= top,
            forall|k: int| 0 <= k < i ==> is_numbered(all, (#[trigger] all[k]).image),
        decreases directories.len() - i,
    {
        if directories[i].image > top {
            assert(!is_numbered(all, all[i as int].image));
            return false;
        }
        i = i + 1;
    }
    true
}

/// Whether every length of a thumbnail is one number.
fn lengths_check(directories: &Vec<Directory>) -> (r: bool)
    ensures
        r == have_short_lengths(directories_view(directories@)),
{
    let ghost all = directories_view(directories@);
    let mut i: usize = 0;
    while i < directories.len()
        invariant
            i <= directories.len(),
            all == directories_view(directories@),
            forall|k: int, l: int|
                0 <= k < i && 0 <= l < all[k].tags.len() ==> is_short_length(
                    #[trigger] all[k].tags[l],
                ),
        decreases directories.len() - i,
    {
        let these = &directories[i].tags;
        let mut j: usize = 0;
        while j < these.len()
            invariant
                i < directories.len(),
                j <= these.len(),
                all == directories_view(directories@),
                all[i as int].tags.len() == these.len(),
                forall|l: int| 0 <= l < these.len() ==> all[i as int].tags[l] == these@[l]@,
                forall|l: int| 0 <= l < j ==> is_short_length(#[trigger] all[i as int].tags[l]),
            decreases these.len() - j,
        {
            let short = match &these[j] {
                GpsField::Other { id, value } => *id != THUMBNAIL_LENGTH_ID || value.len() <= 4,
                _ => true,
            };
            if !short {
                assert(!is_short_length(all[i as int].tags[j as int]));
                return false;
            }
            j = j + 1;
        }
        i = i + 1;
    }
    true
}

/// The size of a tag, if it is the greatest weight at most.
fn size_of(tag: &GpsField) -> (r: Option<u64>)
    ensures
        match r {
            Some(size) => size == tag_size(tag@) && size <= MAX_WEIGHT,
            None => tag_size(tag@) > MAX_WEIGHT,
        },
{
    let (count, width): (usize, u64) = match tag {
        GpsField::LatitudeRef(letter) => (letter.as_str().unicode_len(), 4),
        GpsField::Latitude(triple) => (triple.len(), 8),
        GpsField::LongitudeRef(letter) => (letter.as_str().unicode_len(), 4),
        GpsField::Longitude(triple) => (triple.len(), 8),
        GpsField::Other { value, .. } => (value.len(), 1),
    };
    if count as u64 > MAX_WEIGHT {
        None
    } else if width * (count as u64) > MAX_WEIGHT {
        None
    } else {
        Some(width * (count as u64))
    }
}

/// What the tags of a directory weigh, if it is the greatest weight at most.
fn weigh_tags(tags: &Vec<GpsField>) -> (r: Option<u64>)
    ensures
        match r {
            Some(total) => total == tags_weight(crate::pipeline::fields_view(tags@)) && total
                <= MAX_WEIGHT,
            None => tags_weight(crate::pipeline::fields_view(tags@)) > MAX_WEIGHT,
        },
{
    let ghost all = crate::pipeline::fields_view(tags@);
    let mut total: u64 = 0;
    let mut j: usize = 0;
    while j < tags.len()
        invariant
            j <= tags.len(),
            all == crate::pipeline::fields_view(tags@),
            total == tags_weight(all.take(j as int)),
            total <= MAX_WEIGHT,
        decreases tags.len() - j,
    {
        proof {
            assert(all.take(j + 1).drop_last() =~= all.take(j as int));
            assert(all.take(j + 1).last() == tags@[j as int]@);
            lemma_tags_weight_grows(all, j + 1);
        }
        let size = match size_of(&tags[j]) {
            Some(size) => size,
            None => {
                return None;
            },
        };
        if total + 64 + 8 * size > MAX_WEIGHT {
            return None;
        }
        total = total + 64 + 8 * size;
        j = j + 1;
    }
    proof {
        assert(all.take(tags.len() as int) =~= all);
    }
    Some(total)
}

/// Weighs the directories and says whether they are light enough for the
/// writer.
pub fn directories_are_light(directories: &Vec<Directory>) -> (r: bool)
    ensures
        r == are_light(directories_view(directories@)),
{
    let ghost all = directories_view(directories@);
    let mut total: u64 = 0;
    let mut i: usize = 0;
    while i < directories.len()
        invariant
            i <= directories.len(),
            all == directories_view(directories@),
            total == weight(all.take(i as int)),
            total <= MAX_WEIGHT,
        decreases directories.len() - i,
    {
        proof {
            assert(all.take(i + 1).drop_last() =~= all.take(i as int));
            assert(all.take(i + 1).last() == directories@[i as int]@);
            lemma_weight_grows(all, i + 1);
        }
        let tags = match weigh_tags(&directories[i].tags) {
            Some(tags) => tags,
            None => {
                return false;
            },
        };
        if total + 64 + tags > MAX_WEIGHT {
            return false;
        }
        total = total + 64 + tags;
        i = i + 1;
    }
    proof {
        assert(all.take(directories.len() as int) =~= all);
    }
    true
}

/// Looks through the directories and says whether they are in order.
pub fn directories_are_orderly(directories: &Vec<Directory>) -> (r: bool)
    ensures
        r == is_orderly(directories_view(directories@)),
{
    apart_check(directories) && numbered_check(directories) && lengths_check(directories)
}

} // verus!
