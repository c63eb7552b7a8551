//! Geographic coordinates in EXIF GPS form.
//!
//! The crate converts between decimal degrees and the degree / minute / second
//! triples of unsigned rationals, with hemisphere letters, that EXIF stores,
//! and reads and rewrites the GPS fields of a JPEG's metadata directory.
//! All values are exact: a coordinate is a rational number, never a float.

pub mod rational;
pub mod degrees;
pub mod binary64;
pub mod codec;
pub mod laws;
pub mod jpeg;
pub mod tiff;
pub mod pipeline;
pub mod orderly;
pub mod upload;
pub mod exif;
