//! What the scan of the image folder needs to know: which files are images,
//! and with which priority a newly found image enters the table.

use vstd::prelude::*;
use crate::key_order::str_equal;

verus! {

/// The priority with which a newly found image enters the table: 0 for an
/// image without tags, 1 for an image that has some already, which is thereby
/// handled after the images that have none.
pub open spec fn initial_priority_of(has_local_tags: bool) -> u8 {
    if has_local_tags {
        1
    } else {
        0
    }
}

/// Computes the priority with which a newly found image enters the table.
pub fn initial_priority(has_local_tags: bool) -> (r: u8)
    ensures
        r == initial_priority_of(has_local_tags),
{
    if has_local_tags {
        1
    } else {
        0
    }
}

/// Whether the lower-case text `s` is the file extension of an image.
pub open spec fn names_image(s: Seq<char>) -> bool {
    s == "png"@ || s == "jpg"@ || s == "bmp"@ || s == "jpeg"@ || s == "tif"@ || s == "tiff"@
}

/// The text that `str::to_lowercase` gives for `s`.
pub uninterp spec fn lowercase_of(s: Seq<char>) -> Seq<char>;

/// Turns a text into lower case with `str::to_lowercase`, which follows the
/// Unicode character tables. Taken on trust: the result depends on the text
/// alone, and `lowercase_of` is its name.
#[verifier::external_body]
fn to_lowercase(text: &str) -> (r: String)
    ensures
        r@ == lowercase_of(text@),
{
    text.to_lowercase()
}

/// Whether a file extension that is in lower case already is that of an
/// image.
pub fn is_lowercase_image_extension(extension: &str) -> (r: bool)
    ensures
        r == names_image(extension@),
{
    str_equal(extension, "png") || str_equal(extension, "jpg") || str_equal(extension, "bmp")
        || str_equal(extension, "jpeg") || str_equal(extension, "tif") || str_equal(
        extension,
        "tiff",
    )
}

/// Whether a file extension, in whatever case, is that of an image.
pub fn is_image_extension(extension: &str) -> (r: bool)
    ensures
        r == names_image(lowercase_of(extension@)),
{
    let lower = to_lowercase(extension);
    is_lowercase_image_extension(lower.as_str())
}

} // verus!
