//! Embedded MP4 cover-art parsing.

use vstd::prelude::*;
use vstd::slice::{slice_subrange, slice_to_vec};
use vstd::string::*;

use crate::bytes::{fourcc, read_u32_be};
use crate::image::detect_image_format;
use crate::mp4::boxes::{find_box, nav};
use crate::types::{CoverArt, PixelFormat};

verus! {

pub open spec fn meta_path() -> Seq<Seq<u8>> {
    seq![crate::bytes::code('u', 'd', 't', 'a'), crate::bytes::code('m', 'e', 't', 'a')]
}

pub open spec fn covr_path() -> Seq<Seq<u8>> {
    seq![crate::bytes::code('i', 'l', 's', 't'), crate::bytes::code('c', 'o', 'v', 'r')]
}

/// The cover box: below the `meta` box, whose content starts with four bytes of
/// version and flags or, in some files, does not.
pub open spec fn covr_of(moov: Seq<u8>) -> Option<Seq<u8>> {
    match crate::mp4::boxes::descend(moov, meta_path()) {
        None => None,
        Some(meta) => {
            let behind_flags = if meta.len() >= 4 {
                crate::mp4::boxes::descend(meta.subrange(4, meta.len() as int), covr_path())
            } else {
                None
            };
            match behind_flags {
                Some(covr) => Some(covr),
                None => crate::mp4::boxes::descend(meta, covr_path()),
            }
        },
    }
}

/// The format and the bytes of the cover in a `data` box: its type is 13 for
/// JPEG and 14 for PNG; under any other type the image's own first bytes count.
pub open spec fn cover_in(data: Seq<u8>) -> Option<(PixelFormat, Seq<u8>)> {
    let image = data.subrange(8, data.len() as int);
    if data.len() <= 8 {
        None
    } else if crate::bytes::be32(data, 0) == 13 {
        Some((PixelFormat::Jpeg, image))
    } else if crate::bytes::be32(data, 0) == 14 {
        Some((PixelFormat::Png, image))
    } else {
        match crate::image::image_format(image) {
            Some(format) => Some((format, image)),
            None => None,
        }
    }
}

/// The `data` box of the cover of a `moov` payload.
pub open spec fn data_of(moov: Seq<u8>) -> Option<Seq<u8>> {
    match covr_of(moov) {
        None => None,
        Some(covr) => crate::mp4::boxes::child(covr, crate::bytes::code('d', 'a', 't', 'a')),
    }
}

/// The cover of a `moov` payload.
pub open spec fn cover_art(moov: Seq<u8>) -> Option<(PixelFormat, Seq<u8>)> {
    match data_of(moov) {
        None => None,
        Some(data) => cover_in(data),
    }
}

/// Whatever the declared type, a cover is all of its `data` box behind the type
/// and the locale, four bytes each.
pub proof fn lemma_cover_is_the_whole_image(moov: Seq<u8>)
    ensures
        cover_art(moov) matches Some((format, image)) ==> {
            &&& data_of(moov) matches Some(data)
            &&& image.len() > 0
            &&& image.len() + 8 == data.len()
            &&& forall|i: int| 0 <= i < image.len() ==> #[trigger] image[i] == data[i + 8]
        },
{
}

/// A declared type of 13 is JPEG and one of 14 is PNG. Under any other type an
/// image that starts like a JPEG or a PNG is one, and nothing else is a cover.
pub proof fn lemma_declared_type_decides_the_format(data: Seq<u8>, kind: int)
    requires
        data.len() > 8,
        kind == ((data[0] * 0x100 + data[1]) * 0x100 + data[2]) * 0x100 + data[3],
    ensures
        kind == 13 ==> (cover_in(data) matches Some((format, _)) && format is Jpeg),
        kind == 14 ==> (cover_in(data) matches Some((format, _)) && format is Png),
        kind != 13 && kind != 14 && data.len() >= 11 && data[8] == 0xff && data[9] == 0xd8
            && data[10] == 0xff ==> (cover_in(data) matches Some((format, _)) && format is Jpeg),
        kind != 13 && kind != 14 && data[8] != 0xff && data[8] != 0x89 ==> cover_in(data) is None,
        cover_in(data) matches Some((format, _)) ==> format is Png && kind != 14 ==> {
            &&& data.len() >= 16
            &&& data[8] == 0x89
            &&& data[9] == 0x50
            &&& data[10] == 0x4e
            &&& data[11] == 0x47
            &&& data[12] == 0x0d
            &&& data[13] == 0x0a
            &&& data[14] == 0x1a
            &&& data[15] == 0x0a
        },
{
    let image = data.subrange(8, data.len() as int);
    crate::image::lemma_magic_decides_the_format(image);
}

fn find_covr(moov_payload: &[u8]) -> (result: Option<&[u8]>)
    ensures
        match result {
            Some(covr) => covr_of(moov_payload@) == Some(covr@),
            None => covr_of(moov_payload@) is None,
        },
{
    let to_meta = [fourcc('u', 'd', 't', 'a'), fourcc('m', 'e', 't', 'a')];
    let to_covr = [fourcc('i', 'l', 's', 't'), fourcc('c', 'o', 'v', 'r')];
    assert(crate::mp4::boxes::codes(to_meta@) =~= meta_path());
    assert(crate::mp4::boxes::codes(to_covr@) =~= covr_path());
    let meta = match nav(moov_payload, &to_meta) {
        Some(meta) => meta,
        None => {
            return None;
        },
    };
    if meta.len() >= 4 {
        if let Some(covr) = nav(slice_subrange(meta, 4, meta.len()), &to_covr) {
            return Some(covr);
        }
    }
    nav(meta, &to_covr)
}

/// Finds the cover embedded in a `moov` payload.
pub fn parse_cover_art(moov_payload: &[u8]) -> (result: Option<CoverArt>)
    ensures
        match result {
            Some(cover) => cover_art(moov_payload@) == Some((cover.format, cover.data@))
                && cover.mime_type@ == cover.format.mime_text(),
            None => cover_art(moov_payload@) is None,
        },
        result matches Some(cover) ==> (data_of(moov_payload@) matches Some(data)
            && cover.data@.len() + 8 == data.len() && forall|i: int|
            0 <= i < cover.data@.len() ==> #[trigger] cover.data@[i] == data[i + 8]),
{
    let covr = match find_covr(moov_payload) {
        Some(covr) => covr,
        None => {
            return None;
        },
    };
    let data = match find_box(covr, &fourcc('d', 'a', 't', 'a')) {
        Some(data) => data,
        None => {
            return None;
        },
    };
    if data.len() <= 8 {
        return None;
    }
    let image = slice_subrange(data, 8, data.len());
    let format = match read_u32_be(data, 0) {
        Some(13) => PixelFormat::Jpeg,
        Some(14) => PixelFormat::Png,
        _ => match detect_image_format(image) {
            Some(format) => format,
            None => {
                return None;
            },
        },
    };
    Some(
        CoverArt {
            format,
            mime_type: String::from_str(format.mime_type()),
            data: slice_to_vec(image),
        },
    )
}

/// A cover that was put into a file is found in it, with all its bytes, where the
/// `meta` box has its four bytes of version and flags.
pub proof fn lemma_cover_reads_back(kind: u32, locale: Seq<u8>, flags: Seq<u8>, image: Seq<u8>)
    requires
        locale.len() == 4,
        flags.len() == 4,
        image.len() > 0,
        image.len() + 100 <= u32::MAX,
    ensures
        ({
            let data = crate::mp4::boxes::written_box(
                crate::bytes::code('d', 'a', 't', 'a'),
                crate::bytes::written32(kind as int) + locale + image,
            );
            let ilst = crate::mp4::boxes::written_box(
                crate::bytes::code('i', 'l', 's', 't'),
                crate::mp4::boxes::written_box(crate::bytes::code('c', 'o', 'v', 'r'), data),
            );
            let moov = crate::mp4::boxes::written_box(
                crate::bytes::code('u', 'd', 't', 'a'),
                crate::mp4::boxes::written_box(
                    crate::bytes::code('m', 'e', 't', 'a'),
                    flags + ilst,
                ),
            );
            &&& kind == 13 ==> cover_art(moov) == Some((PixelFormat::Jpeg, image))
            &&& kind == 14 ==> cover_art(moov) == Some((PixelFormat::Png, image))
            &&& kind != 13 && kind != 14 ==> cover_art(moov) == match crate::image::image_format(
                image,
            ) {
                Some(format) => Some((format, image)),
                None => None,
            }
        }),
{
    let code_data = crate::bytes::code('d', 'a', 't', 'a');
    let code_ilst = crate::bytes::code('i', 'l', 's', 't');
    let code_covr = crate::bytes::code('c', 'o', 'v', 'r');
    let code_udta = crate::bytes::code('u', 'd', 't', 'a');
    let code_meta = crate::bytes::code('m', 'e', 't', 'a');
    let content = crate::bytes::written32(kind as int) + locale + image;
    let data = crate::mp4::boxes::written_box(code_data, content);
    let ilst = crate::mp4::boxes::written_box(
        code_ilst,
        crate::mp4::boxes::written_box(code_covr, data),
    );
    let meta = flags + ilst;
    crate::mp4::boxes::lemma_only_box_is_found(code_data, content);
    crate::mp4::boxes::lemma_nested_box_is_found(code_ilst, code_covr, data);
    crate::mp4::boxes::lemma_nested_box_is_found(code_udta, code_meta, meta);
    assert(meta_path() =~= seq![code_udta, code_meta]);
    assert(covr_path() =~= seq![code_ilst, code_covr]);
    assert(meta.subrange(4, meta.len() as int) =~= ilst);
    assert(content.subrange(8, content.len() as int) =~= image);
    assert(content.subrange(0, 4) =~= crate::bytes::written32(kind as int));
    crate::bytes::lemma_written_numbers_read_back(content, 0, kind as int);
}

} // verus!
