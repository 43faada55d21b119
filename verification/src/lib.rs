//! Metadata scraping for files: image formats and sizes (with a few EXIF fields), text
//! statistics, and in-place stripping of metadata from JPEG, PNG, GIF and text files.
use vstd::prelude::*;

pub mod bytes;
pub mod gif;
pub mod image;
pub mod layout;
pub mod names;
pub mod scanner;
pub mod strip;
pub mod text;
pub mod unicode;

verus! {
}
