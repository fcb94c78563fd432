//! The rules by which the copies of an image are made. Decoding and encoding are not
//! done here.

use crate::entry::{extension, file_stem, split_extension};
use crate::text::{decimal, push_decimal};
use vstd::prelude::*;
use vstd::string::*;

verus! {

/// The formats of images that are told apart.
#[derive(Clone, Copy, Debug, PartialEq, Eq, Structural)]
pub enum ImageFormat {
    Jpeg,
    Png,
    WebP,
    Other,
}

/// The widths that narrower copies are made for, widest first.
pub const WIDTHS: [u32; 2] = [1536, 768];

/// The format that an image is written in: an image in a format other than JPEG, PNG
/// and WebP is written as PNG.
pub open spec fn target_of(format: ImageFormat) -> ImageFormat {
    match format {
        ImageFormat::Other => ImageFormat::Png,
        _ => format,
    }
}

/// The format that an image of the given format is written in.
pub fn target_format(format: ImageFormat) -> (r: ImageFormat)
    ensures
        r == target_of(format),
{
    match format {
        ImageFormat::Other => ImageFormat::Png,
        _ => format,
    }
}

/// Whether it is tried to make an image smaller by encoding it anew: not for a
/// JPEG, which would lose by it.
pub fn tries_reencoding(format: ImageFormat) -> (r: bool)
    ensures
        r == !(format is Jpeg),
{
    !matches!(format, ImageFormat::Jpeg)
}

/// Whether the image encoded anew takes the place of the one read: always where the
/// format changes, else where it is smaller.
pub fn keeps_reencoded(format: ImageFormat, reencoded_len: usize, original_len: usize) -> (r: bool)
    ensures
        r == (target_of(format) != format || reencoded_len < original_len),
{
    target_format(format) != format || reencoded_len < original_len
}

/// Whether a copy of the given width is made of an image: only of a wider one.
pub fn wants_copy(original_width: u32, width: u32) -> (r: bool)
    ensures
        r == (original_width > width),
{
    original_width > width
}

/// Whether a copy is kept: only where it is smaller than the image in full width.
pub fn keeps_copy(copy_len: usize, full_len: usize) -> (r: bool)
    ensures
        r == (copy_len < full_len),
{
    copy_len < full_len
}

/// The name of the copy of the given width: the width stands between the stem of the
/// name and its extension. A name without extension has no copies.
pub open spec fn copy_name(name: Seq<char>, width: u32) -> Option<Seq<char>> {
    match extension(name) {
        Some(e) => Some(file_stem(name) + "-"@ + decimal(width as nat) + "."@ + e),
        None => None,
    }
}

/// The name of the copy of an image for the given width.
pub fn make_image_path_for_width(name: &str, width: u32) -> (r: Option<String>)
    ensures
        match r {
            Some(copy) => copy_name(name@, width) == Some(copy@),
            None => copy_name(name@, width) is None,
        },
{
    let (stem, ext) = split_extension(name);
    match ext {
        Some(e) => {
            let mut copy = stem;
            copy.append("-");
            push_decimal(&mut copy, width as u64);
            copy.append(".");
            copy.append(e.as_str());
            Some(copy)
        },
        None => None,
    }
}

} // verus!
