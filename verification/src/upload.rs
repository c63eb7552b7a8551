//! What is looked at before a file is parsed at all.
//!
//! The pipeline itself takes any bytes. A front end that lets people upload
//! photographs asks for the declared type and the size first, and parses
//! only what passes.

use vstd::prelude::*;

verus! {

/// The smallest upload that is looked at: 10 KiB.
pub const MIN_UPLOAD_BYTES: u64 = 10_240;

/// The largest upload that is looked at: 5 MiB.
pub const MAX_UPLOAD_BYTES: u64 = 5_242_880;

/// Why an upload is turned away unread.
#[derive(Clone, Copy, Debug, PartialEq, Eq, Structural)]
pub enum UploadRefusal {
    /// The declared type is not `image/jpeg`.
    NotJpeg,
    /// The size is below [`MIN_UPLOAD_BYTES`] or above [`MAX_UPLOAD_BYTES`].
    SizeOutOfRange,
}

/// What [`check_upload`] returns. The type is looked at before the size.
pub open spec fn check_upload_spec(mime_type: Seq<char>, size: u64) -> Result<(), UploadRefusal> {
    if mime_type != "image/jpeg"@ {
        Err(UploadRefusal::NotJpeg)
    } else if size < MIN_UPLOAD_BYTES || size > MAX_UPLOAD_BYTES {
        Err(UploadRefusal::SizeOutOfRange)
    } else {
        Ok(())
    }
}

/// Whether an upload of the declared type and size is to be parsed.
pub fn check_upload(mime_type: &str, size: u64) -> (r: Result<(), UploadRefusal>)
    ensures
        r == check_upload_spec(mime_type@, size),
{
    if mime_type.to_owned() != "image/jpeg".to_owned() {
        Err(UploadRefusal::NotJpeg)
    } else if size < MIN_UPLOAD_BYTES || size > MAX_UPLOAD_BYTES {
        Err(UploadRefusal::SizeOutOfRange)
    } else {
        Ok(())
    }
}

} // verus!
