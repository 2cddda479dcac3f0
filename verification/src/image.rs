//! Image format detection from magic bytes.

use vstd::prelude::*;

use crate::bytes::starts_with;
use crate::types::PixelFormat;

verus! {

/// The bytes that every JPEG image starts with.
pub open spec fn jpeg_magic() -> Seq<u8> {
    seq![0xffu8, 0xd8u8, 0xffu8]
}

/// The bytes that every PNG image starts with.
pub open spec fn png_magic() -> Seq<u8> {
    seq![0x89u8, 0x50u8, 0x4eu8, 0x47u8, 0x0du8, 0x0au8, 0x1au8, 0x0au8]
}

/// The format of an image by its first bytes.
pub open spec fn image_format(data: Seq<u8>) -> Option<PixelFormat> {
    if jpeg_magic().is_prefix_of(data) {
        Some(PixelFormat::Jpeg)
    } else if png_magic().is_prefix_of(data) {
        Some(PixelFormat::Png)
    } else {
        None
    }
}

/// An image is a JPEG or a PNG just where it starts with the bytes that these
/// formats start with, and never both.
pub proof fn lemma_magic_decides_the_format(data: Seq<u8>)
    ensures
        image_format(data) == Some(PixelFormat::Jpeg) <==> data.len() >= 3 && data[0] == 0xff
            && data[1] == 0xd8 && data[2] == 0xff,
        image_format(data) == Some(PixelFormat::Png) <==> data.len() >= 8 && data[0] == 0x89
            && data[1] == 0x50 && data[2] == 0x4e && data[3] == 0x47 && data[4] == 0x0d && data[5]
            == 0x0a && data[6] == 0x1a && data[7] == 0x0a,
{
    if data.len() >= 3 && data[0] == 0xff && data[1] == 0xd8 && data[2] == 0xff {
        assert(jpeg_magic() =~= data.subrange(0, 3));
    }
    if jpeg_magic().is_prefix_of(data) {
        assert(jpeg_magic()[0] == data[0] && jpeg_magic()[1] == data[1] && jpeg_magic()[2]
            == data[2]);
    }
    if data.len() >= 8 && data[0] == 0x89 && data[1] == 0x50 && data[2] == 0x4e && data[3] == 0x47
        && data[4] == 0x0d && data[5] == 0x0a && data[6] == 0x1a && data[7] == 0x0a {
        assert(png_magic() =~= data.subrange(0, 8));
    }
    if png_magic().is_prefix_of(data) {
        assert forall|i: int| 0 <= i < 8 implies png_magic()[i] == data[i] by {}
        assert(png_magic()[0] == data[0] && png_magic()[1] == data[1] && png_magic()[2] == data[2]
            && png_magic()[3] == data[3] && png_magic()[4] == data[4] && png_magic()[5] == data[5]
            && png_magic()[6] == data[6] && png_magic()[7] == data[7]);
    }
}

/// Detects the image format of `data` from its magic bytes.
///
/// Returns `Some(PixelFormat::Jpeg)` for JPEG data, `Some(PixelFormat::Png)`
/// for PNG data, and `None` for anything else (including too-short input).
pub fn detect_image_format(data: &[u8]) -> (result: Option<PixelFormat>)
    ensures
        result == image_format(data@),
{
    let jpeg = [0xffu8, 0xd8u8, 0xffu8];
    let png = [0x89u8, 0x50u8, 0x4eu8, 0x47u8, 0x0du8, 0x0au8, 0x1au8, 0x0au8];
    assert(jpeg@ =~= jpeg_magic());
    assert(png@ =~= png_magic());
    if starts_with(data, &jpeg) {
        Some(PixelFormat::Jpeg)
    } else if starts_with(data, &png) {
        Some(PixelFormat::Png)
    } else {
        None
    }
}

} // verus!
