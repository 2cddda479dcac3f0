//! Decoding one group of pictures into JPEG thumbnails.

use openh264::decoder::Decoder;
use vstd::prelude::*;
use vstd::string::*;

use crate::h264::annex_b::{parameter_sets_annex_b, sample_to_annex_b};
use crate::h264::config::{AvcConfig, DecodedImage, JpegQuality, ThumbnailSize};
use crate::h264::gop::{
    decode_units, decoder_error_text, flush_decoder, open_decoder, plan_picture, DecodedPicture,
    GopProgress, PicturePlan,
};
use crate::h264::jpeg::{rgb_to_jpeg, OutputBudget};
use crate::h264::scaling::I420Picture;

verus! {

// ---------------------------------------------------------------------------
// One picture
// ---------------------------------------------------------------------------

/// The size that a picture is put out in, or the words for why it is not.
pub open spec fn plan_of(picture: DecodedPicture, size: ThumbnailSize) -> Result<
    PicturePlan,
    Seq<char>,
> {
    crate::h264::gop::picture_plan(
        picture.planes.width as int,
        picture.planes.height as int,
        size.width_bound(),
        size.height_bound(),
    )
}

/// Whether these are the RGB pixels of a picture in the size that is planned
/// for it: its own pixels, or what `scale` can make of its planes.
pub open spec fn are_pixels_of<F: Fn(I420Picture, u32, u32) -> Result<Vec<u8>, String>>(
    rgb: Seq<u8>,
    picture: DecodedPicture,
    plan: PicturePlan,
    scale: F,
) -> bool {
    if plan.scaled {
        exists|scaled: Vec<u8>|
            #![trigger scaled@]
            scaled@ == rgb && scale.ensures(
                (picture.planes, plan.width, plan.height),
                Ok::<Vec<u8>, String>(scaled),
            )
    } else {
        rgb == picture.rgb@
    }
}

/// Whether `rgb` are the pixels of a picture, and what stands against encoding
/// them.
pub open spec fn encodes<F: Fn(I420Picture, u32, u32) -> Result<Vec<u8>, String>>(
    rgb: Seq<u8>,
    fault: Option<Seq<char>>,
    picture: DecodedPicture,
    plan: PicturePlan,
    scale: F,
) -> bool {
    &&& are_pixels_of(rgb, picture, plan, scale)
    &&& fault == crate::h264::jpeg::encoding_fault(
        rgb.len() as int,
        plan.width as int,
        plan.height as int,
    )
}

/// The image of a picture with these pixels.
pub open spec fn image_of(rgb: Seq<u8>, plan: PicturePlan, quality: u8)
    -> crate::h264::gop::ImageView {
    crate::h264::gop::ImageView {
        width: plan.width,
        height: plan.height,
        data: crate::h264::jpeg::jpeg_stream(rgb, plan.width as u16, plan.height as u16, quality),
    }
}

/// Whether an image is the JPEG of a picture, in the size that is planned for
/// it.
pub open spec fn is_image_of<F: Fn(I420Picture, u32, u32) -> Result<Vec<u8>, String>>(
    image: crate::h264::gop::ImageView,
    picture: DecodedPicture,
    quality: u8,
    size: ThumbnailSize,
    scale: F,
) -> bool {
    &&& image.data.len() <= crate::h264::config::MAX_DECODED_IMAGE_BYTES
    &&& plan_of(picture, size) matches Ok(plan) && exists|rgb: Seq<u8>| #[trigger]
        encodes(rgb, None, picture, plan, scale) && image == image_of(rgb, plan, quality)
}

/// Whether these are the words for why no image is made of a picture: it has no
/// size to be put out in, it cannot be scaled or encoded, or its stream is too
/// large to be held.
pub open spec fn refuses_image<F: Fn(I420Picture, u32, u32) -> Result<Vec<u8>, String>>(
    text: String,
    picture: DecodedPicture,
    size: ThumbnailSize,
    scale: F,
) -> bool {
    match plan_of(picture, size) {
        Err(fault) => text@ == fault,
        Ok(plan) => {
            ||| plan.scaled && scale.ensures(
                (picture.planes, plan.width, plan.height),
                Err::<Vec<u8>, String>(text),
            )
            ||| exists|rgb: Seq<u8>, fault: Option<Seq<char>>| #[trigger]
                encodes(rgb, fault, picture, plan, scale) && text@ == match fault {
                    Some(fault) => fault,
                    None => crate::h264::jpeg::jpeg_too_large(),
                }
        },
    }
}

/// Encodes a picture in the size that is planned for it, brought to that by
/// `scale` where it is another than its own.
pub fn picture_to_jpeg<F: Fn(I420Picture, u32, u32) -> Result<Vec<u8>, String>>(
    picture: DecodedPicture,
    quality: JpegQuality,
    size: ThumbnailSize,
    scale: &F,
) -> (result: Result<DecodedImage, String>)
    requires
        forall|planes: I420Picture, width: u32, height: u32| #[trigger]
            scale.requires((planes, width, height)),
    ensures
        match result {
            Ok(image) => is_image_of(image@, picture, quality@, size, *scale),
            Err(text) => refuses_image(text, picture, size, *scale),
        },
        plan_of(picture, size) is Err ==> result is Err,
{
    let ghost given = picture;
    let DecodedPicture { planes, rgb } = picture;
    let plan = match plan_picture(planes.width, planes.height, size) {
        Ok(plan) => plan,
        Err(text) => {
            return Err(text);
        },
    };
    let rgb: Vec<u8> = if plan.scaled {
        match scale(planes, plan.width, plan.height) {
            Ok(rgb) => rgb,
            Err(text) => {
                return Err(text);
            },
        }
    } else {
        rgb
    };
    let ghost fault = crate::h264::jpeg::encoding_fault(
        rgb@.len() as int,
        plan.width as int,
        plan.height as int,
    );
    assert(encodes(rgb@, fault, given, plan, *scale));
    rgb_to_jpeg(rgb.as_slice(), plan.width, plan.height, quality)
}

// ---------------------------------------------------------------------------
// The outputs
// ---------------------------------------------------------------------------

/// The bytes of the outputs that the first `k` positions stand for.
pub open spec fn output_bytes(
    images: Seq<Option<crate::h264::gop::ImageView>>,
    counts: Seq<usize>,
    k: int,
) -> int
    decreases k,
{
    if k <= 0 {
        0
    } else {
        output_bytes(images, counts, k - 1) + match images[k - 1] {
            Some(image) => image.data.len() * counts[k - 1],
            None => 0,
        }
    }
}

/// Storing an image at the positions that want it adds its bytes once for each
/// of their outputs.
proof fn lemma_stored_bytes(
    images: Seq<Option<crate::h264::gop::ImageView>>,
    indices: Seq<usize>,
    counts: Seq<usize>,
    index: int,
    image: crate::h264::gop::ImageView,
    k: int,
)
    requires
        0 <= k <= images.len() == indices.len() == counts.len(),
        forall|i: int|
            0 <= i < images.len() && indices[i] == index ==> #[trigger] images[i] is None,
    ensures
        output_bytes(
            crate::h264::gop::with_image(images, indices, index, image),
            counts,
            k,
        ) == output_bytes(images, counts, k) + image.data.len()
            * crate::h264::gop::outputs_wanting(indices, counts, index, k),
    decreases k,
{
    let len = image.data.len() as int;
    if k > 0 {
        lemma_stored_bytes(images, indices, counts, index, image, k - 1);
        let before = crate::h264::gop::outputs_wanting(indices, counts, index, k - 1);
        let count = counts[k - 1] as int;
        assert(len * (before + count) == len * before + len * count) by (nonlinear_arith);
        if indices[k - 1] == index {
            assert(images[k - 1] is None);
        }
    } else {
        assert(len * 0 == 0) by (nonlinear_arith);
    }
}

/// How far the decoding has come once the image of the next picture is stored.
pub open spec fn stored(
    progress: crate::h264::gop::GopView,
    image: crate::h264::gop::ImageView,
) -> crate::h264::gop::GopView {
    crate::h264::gop::GopView {
        decoded: progress.decoded + 1,
        images: crate::h264::gop::with_image(
            progress.images,
            progress.indices,
            progress.decoded,
            image,
        ),
        ..progress
    }
}

/// Whether the picture that comes next was taken: where some output wants it,
/// its image is stored and the budget charged, and else it is only counted.
pub open spec fn takes_picture<F: Fn(I420Picture, u32, u32) -> Result<Vec<u8>, String>>(
    before: crate::h264::gop::GopView,
    after: crate::h264::gop::GopView,
    picture: DecodedPicture,
    quality: u8,
    size: ThumbnailSize,
    limit: Option<usize>,
    taken_before: int,
    taken_after: int,
    scale: F,
) -> bool {
    if crate::h264::gop::wanted(before.indices, before.decoded) {
        exists|image: crate::h264::gop::ImageView| #[trigger]
            is_image_of(image, picture, quality, size, scale) && after == stored(before, image)
                && crate::h264::gop::output_fault(
                limit,
                taken_before,
                image.data.len() as int,
                before.outputs_due(),
            ) is None && taken_after == crate::h264::gop::charged(
                limit,
                taken_before,
                image,
                before.outputs_due(),
            )
    } else {
        &&& after == (crate::h264::gop::GopView { decoded: before.decoded + 1, ..before })
        &&& taken_after == taken_before
    }
}

/// Whether these are the words for why the picture that comes next is not
/// stored: more pictures came out than can be counted, no image is made of a
/// wanted one, or its image is not put out.
pub open spec fn refuses_picture<F: Fn(I420Picture, u32, u32) -> Result<Vec<u8>, String>>(
    text: String,
    progress: crate::h264::gop::GopView,
    picture: DecodedPicture,
    quality: u8,
    size: ThumbnailSize,
    limit: Option<usize>,
    taken: int,
    scale: F,
) -> bool {
    if !crate::h264::gop::wanted(progress.indices, progress.decoded) {
        progress.decoded == usize::MAX && text@ == "decoded frame count overflow"@
    } else {
        ||| refuses_image(text, picture, size, scale)
        ||| exists|image: crate::h264::gop::ImageView| #[trigger]
            is_image_of(image, picture, quality, size, scale) && crate::h264::gop::output_fault(
                limit,
                taken,
                image.data.len() as int,
                progress.outputs_due(),
            ) == Some(text@)
    }
}

/// Counts the picture that comes next. Where some output wants it, its image is
/// stored at every position that does, and the budget is charged for all the
/// outputs these stand for.
pub fn store_selected_frame<F: Fn(I420Picture, u32, u32) -> Result<Vec<u8>, String>>(
    progress: &mut GopProgress,
    picture: DecodedPicture,
    quality: JpegQuality,
    size: ThumbnailSize,
    budget: &mut OutputBudget,
    scale: &F,
) -> (result: Result<(), String>)
    requires
        old(progress)@.wf(),
        forall|planes: I420Picture, width: u32, height: u32| #[trigger]
            scale.requires((planes, width, height)),
    ensures
        final(progress)@.wf(),
        final(budget).limit() == old(budget).limit(),
        match result {
            Ok(_) => takes_picture(
                old(progress)@,
                final(progress)@,
                picture,
                quality@,
                size,
                old(budget).limit(),
                old(budget).taken(),
                final(budget).taken(),
                *scale,
            ),
            Err(text) => {
                &&& final(progress)@ == old(progress)@
                &&& final(budget).taken() == old(budget).taken()
                &&& refuses_picture(
                    text,
                    old(progress)@,
                    picture,
                    quality@,
                    size,
                    old(budget).limit(),
                    old(budget).taken(),
                    *scale,
                )
            },
        },
        crate::h264::gop::wanted(old(progress)@.indices, old(progress)@.decoded) && plan_of(
            picture,
            size,
        ) is Err ==> result is Err,
        !crate::h264::gop::wanted(old(progress)@.indices, old(progress)@.decoded) ==> (result
            is Err <==> old(progress)@.decoded == usize::MAX),
{
    if !progress.wants_next() {
        return progress.skip();
    }
    let image = match picture_to_jpeg(picture, quality, size, scale) {
        Ok(image) => image,
        Err(text) => {
            return Err(text);
        },
    };
    assert(is_image_of(image@, picture, quality@, size, *scale));
    progress.store(&image, budget)
}

// ---------------------------------------------------------------------------
// The group
// ---------------------------------------------------------------------------

/// Whether a decoder was fed the parameter sets of a configuration and then the
/// first `fed` of some samples in order, as Annex B streams, and nothing else.
pub open spec fn is_fed(
    decoder: Decoder,
    config: crate::h264::config::AvcConfigView,
    samples: Seq<Seq<u8>>,
    fed: int,
) -> bool {
    let units = crate::h264::gop::units_fed(decoder);
    &&& 0 <= fed <= samples.len()
    &&& units.len() == fed + 1
    &&& crate::h264::annex_b::parameter_sets(config) == Ok::<Seq<u8>, Seq<char>>(units[0])
    &&& forall|i: int|
        0 <= i < fed ==> crate::h264::annex_b::annex_b(#[trigger] samples[i], config.length_size)
            == Ok::<Seq<u8>, Seq<char>>(units[i + 1])
}

/// Whether each image stored is that of the picture that the decoder gave at the
/// place that its position wants.
pub open spec fn are_images_of<F: Fn(I420Picture, u32, u32) -> Result<Vec<u8>, String>>(
    images: Seq<Option<crate::h264::gop::ImageView>>,
    indices: Seq<usize>,
    pictures: Seq<DecodedPicture>,
    quality: u8,
    size: ThumbnailSize,
    scale: F,
) -> bool {
    forall|i: int|
        0 <= i < images.len() ==> (#[trigger] images[i] matches Some(image) ==> indices[i]
            < pictures.len() && is_image_of(
            image,
            pictures[indices[i] as int],
            quality,
            size,
            scale,
        ))
}

/// Whether a decoding has come to `progress` where a decoder was fed the first
/// `fed` samples.
pub open spec fn is_reached<F: Fn(I420Picture, u32, u32) -> Result<Vec<u8>, String>>(
    decoder: Decoder,
    config: crate::h264::config::AvcConfigView,
    samples: Seq<Seq<u8>>,
    fed: int,
    progress: crate::h264::gop::GopView,
    quality: u8,
    size: ThumbnailSize,
    scale: F,
) -> bool {
    let pictures = crate::h264::gop::pictures_given(decoder);
    &&& is_fed(decoder, config, samples, fed)
    &&& progress.wf()
    &&& progress.samples == samples.len()
    &&& progress.decoded <= pictures.len()
    &&& are_images_of(progress.images, progress.indices, pictures, quality, size, scale)
}

/// The bytes taken from a budget once some images were put out.
pub open spec fn taken_with(
    limit: Option<usize>,
    taken: int,
    progress: crate::h264::gop::GopView,
) -> int {
    match limit {
        Some(_) => taken + output_bytes(
            progress.images,
            progress.counts,
            progress.images.len() as int,
        ),
        None => taken,
    }
}

/// The images stored stay those of the pictures given when one more is taken,
/// and the budget stays charged for them.
proof fn lemma_picture_taken<F: Fn(I420Picture, u32, u32) -> Result<Vec<u8>, String>>(
    before: crate::h264::gop::GopView,
    after: crate::h264::gop::GopView,
    pictures: Seq<DecodedPicture>,
    quality: u8,
    size: ThumbnailSize,
    limit: Option<usize>,
    taken: int,
    taken_before: int,
    taken_after: int,
    scale: F,
)
    requires
        before.wf(),
        after.wf(),
        before.decoded < pictures.len(),
        are_images_of(before.images, before.indices, pictures, quality, size, scale),
        taken_before == taken_with(limit, taken, before),
        takes_picture(
            before,
            after,
            pictures[before.decoded],
            quality,
            size,
            limit,
            taken_before,
            taken_after,
            scale,
        ),
    ensures
        after.samples == before.samples,
        after.indices == before.indices,
        after.counts == before.counts,
        after.decoded == before.decoded + 1,
        are_images_of(after.images, after.indices, pictures, quality, size, scale),
        taken_after == taken_with(limit, taken, after),
        taken_before <= taken_after,
        limit matches Some(max) ==> taken_before <= max ==> taken_after <= max,
{
    if crate::h264::gop::wanted(before.indices, before.decoded) {
        let image = choose|image: crate::h264::gop::ImageView| #[trigger]
            is_image_of(image, pictures[before.decoded], quality, size, scale) && after == stored(
                before,
                image,
            ) && crate::h264::gop::output_fault(
                limit,
                taken_before,
                image.data.len() as int,
                before.outputs_due(),
            ) is None && taken_after == crate::h264::gop::charged(
                limit,
                taken_before,
                image,
                before.outputs_due(),
            );
        assert forall|i: int| 0 <= i < before.images.len() && before.indices[i]
            == before.decoded implies #[trigger] before.images[i] is None by {}
        lemma_stored_bytes(
            before.images,
            before.indices,
            before.counts,
            before.decoded,
            image,
            before.images.len() as int,
        );
        crate::h264::gop::lemma_outputs_wanting_monotone(
            before.indices,
            before.counts,
            before.decoded,
            0,
            before.indices.len() as int,
        );
        assert(image.data.len() * before.outputs_due() >= 0) by (nonlinear_arith)
            requires
                before.outputs_due() >= 0,
        ;
    }
}

/// Whether these are the words for why the decoding of a group does not start.
pub open spec fn cannot_start(text: Seq<char>, config: crate::h264::config::AvcConfigView) -> bool {
    ||| crate::h264::gop::is_decoder_fault(text)
    ||| crate::h264::annex_b::accepts_first(config.sps + config.pps) && text
        == crate::h264::annex_b::no_room()
    ||| match crate::h264::annex_b::parameter_sets(config) {
        Ok(_) => text == "OpenH264 emitted a frame for AVC parameter sets"@,
        Err(fault) => text == fault,
    }
}

/// Whether these are the words for why a sample is not decoded.
pub open spec fn refuses_sample(text: Seq<char>, sample: Seq<u8>, length_size: int) -> bool {
    ||| crate::h264::annex_b::annex_b(sample, length_size) == Err::<Seq<u8>, Seq<char>>(text)
    ||| 1 <= length_size <= 4 && text == crate::h264::annex_b::no_room()
}

/// Whether these are the words for why the decoding ends where a decoder was fed
/// the first `fed` samples and the decoding has come to `progress`: the decoder
/// fails, the sample that comes next is refused, the picture that comes next is
/// refused, or at the end there is not one picture for each sample.
pub open spec fn ends_decoding<F: Fn(I420Picture, u32, u32) -> Result<Vec<u8>, String>>(
    text: String,
    decoder: Decoder,
    config: crate::h264::config::AvcConfigView,
    samples: Seq<Seq<u8>>,
    fed: int,
    progress: crate::h264::gop::GopView,
    quality: u8,
    size: ThumbnailSize,
    limit: Option<usize>,
    taken: int,
    scale: F,
) -> bool {
    let pictures = crate::h264::gop::pictures_given(decoder);
    &&& is_reached(decoder, config, samples, fed, progress, quality, size, scale)
    &&& {
        ||| crate::h264::gop::is_decoder_fault(text@)
        ||| fed < samples.len() && refuses_sample(text@, samples[fed], config.length_size)
        ||| progress.decoded < pictures.len() && refuses_picture(
            text,
            progress,
            pictures[progress.decoded],
            quality,
            size,
            limit,
            taken,
            scale,
        )
        ||| fed == samples.len() && progress.decoded == pictures.len() && progress.decoded
            != samples.len() && text@ == crate::h264::gop::wrong_count(
            progress.decoded,
            samples.len() as int,
        )
    }
}

/// Whether these are the words for why the decoding of a group ends somewhere,
/// with a budget that is charged for the images stored up to there.
pub open spec fn ends_group<F: Fn(I420Picture, u32, u32) -> Result<Vec<u8>, String>>(
    text: String,
    config: crate::h264::config::AvcConfigView,
    samples: Seq<Seq<u8>>,
    indices: Seq<usize>,
    counts: Seq<usize>,
    quality: u8,
    size: ThumbnailSize,
    limit: Option<usize>,
    taken_before: int,
    taken: int,
    scale: F,
) -> bool {
    exists|decoder: Decoder, fed: int, progress: crate::h264::gop::GopView|
        progress.indices == indices && progress.counts == counts && taken == taken_with(
            limit,
            taken_before,
            progress,
        ) && #[trigger] ends_decoding(
            text,
            decoder,
            config,
            samples,
            fed,
            progress,
            quality,
            size,
            limit,
            taken,
            scale,
        )
}

/// Whether images are those of the wanted pictures of a group: a decoder that
/// was fed the group gave one picture for each sample, and the image at each
/// position is that of the picture at the place that the position wants.
pub open spec fn are_thumbnails<F: Fn(I420Picture, u32, u32) -> Result<Vec<u8>, String>>(
    images: Seq<DecodedImage>,
    decoder: Decoder,
    config: crate::h264::config::AvcConfigView,
    samples: Seq<Seq<u8>>,
    indices: Seq<usize>,
    quality: u8,
    size: ThumbnailSize,
    scale: F,
) -> bool {
    let pictures = crate::h264::gop::pictures_given(decoder);
    &&& is_fed(decoder, config, samples, samples.len() as int)
    &&& pictures.len() == samples.len()
    &&& images.len() == indices.len()
    &&& forall|i: int|
        0 <= i < images.len() ==> is_image_of(
            (#[trigger] images[i])@,
            pictures[indices[i] as int],
            quality,
            size,
            scale,
        )
}

/// Decodes one group of pictures and encodes the wanted ones, one image for
/// each position of the output. Pictures that exceed the bounds are brought to
/// their size, in RGB, by `scale`.
///
/// The decoder is fed the parameter sets and then every sample, and gives the
/// pictures in presentation order. What they look like is up to the decoder,
/// and any of its errors ends the decoding.
pub fn decode_frames_to_jpeg<F: Fn(I420Picture, u32, u32) -> Result<Vec<u8>, String>>(
    config: &AvcConfig,
    samples: &[Vec<u8>],
    output_indices: &[usize],
    output_counts: &[usize],
    quality: JpegQuality,
    size: ThumbnailSize,
    output_budget: &mut OutputBudget,
    scale: F,
) -> (result: Result<Vec<DecodedImage>, String>)
    requires
        forall|planes: I420Picture, width: u32, height: u32| #[trigger]
            scale.requires((planes, width, height)),
    ensures
        final(output_budget).limit() == old(output_budget).limit(),
        old(output_budget).taken() <= final(output_budget).taken(),
        match crate::h264::gop::request_fault(
            samples@.len() as int,
            output_indices@,
            output_counts@,
        ) {
            Some(fault) => {
                &&& result matches Err(text) && text@ == fault
                &&& final(output_budget).taken() == old(output_budget).taken()
            },
            None => match result {
                Ok(images) => {
                    &&& exists|decoder: Decoder| #[trigger]
                        are_thumbnails(
                            images@,
                            decoder,
                            config@,
                            crate::h264::config::byte_views(samples@),
                            output_indices@,
                            quality@,
                            size,
                            scale,
                        )
                    &&& forall|i: int, j: int|
                        0 <= i < images@.len() && 0 <= j < images@.len() && output_indices@[i]
                            == output_indices@[j] ==> (#[trigger] images@[i])@ == (
                        #[trigger] images@[j])@
                    &&& match old(output_budget).limit() {
                        Some(max) => {
                            &&& final(output_budget).taken() == old(output_budget).taken()
                                + output_bytes(
                                Seq::new(images@.len(), |i: int| Some(images@[i]@)),
                                output_counts@,
                                images@.len() as int,
                            )
                            &&& old(output_budget).taken() <= max ==> final(output_budget).taken()
                                <= max
                        },
                        None => final(output_budget).taken() == old(output_budget).taken(),
                    }
                },
                Err(text) => {
                    ||| cannot_start(text@, config@) && final(output_budget).taken() == old(
                        output_budget,
                    ).taken()
                    ||| ends_group(
                        text,
                        config@,
                        crate::h264::config::byte_views(samples@),
                        output_indices@,
                        output_counts@,
                        quality@,
                        size,
                        old(output_budget).limit(),
                        old(output_budget).taken(),
                        final(output_budget).taken(),
                        scale,
                    )
                },
            },
        },
{
    let mut progress = match GopProgress::new(samples.len(), output_indices, output_counts) {
        Ok(progress) => progress,
        Err(text) => {
            return Err(text);
        },
    };
    let mut decoder = match open_decoder() {
        Ok(decoder) => decoder,
        Err(error) => {
            return Err(decoder_error_text(&error));
        },
    };
    let headers: Vec<u8> = match parameter_sets_annex_b(config) {
        Ok(headers) => headers,
        Err(text) => {
            return Err(text);
        },
    };
    proof {
        crate::h264::annex_b::lemma_parameter_sets_len(config@);
    }
    match decode_units(&mut decoder, headers.as_slice()) {
        Ok(Some(_)) => {
            return Err(String::from_str("OpenH264 emitted a frame for AVC parameter sets"));
        },
        Ok(None) => {},
        Err(error) => {
            return Err(decoder_error_text(&error));
        },
    }
    let ghost all = crate::h264::config::byte_views(samples@);
    proof {
        lemma_no_bytes(progress@.images, output_counts@, output_indices@.len() as int);
    }
    let mut annex_b: Vec<u8> = Vec::new();
    let mut index: usize = 0;
    while index < samples.len()
        invariant
            all == crate::h264::config::byte_views(samples@),
            index <= samples@.len(),
            progress@.decoded == crate::h264::gop::pictures_given(decoder).len(),
            is_reached(decoder, config@, all, index as int, progress@, quality@, size, scale),
            progress@.indices == output_indices@,
            progress@.counts == output_counts@,
            output_budget.limit() == old(output_budget).limit(),
            output_budget.taken() == taken_with(
                old(output_budget).limit(),
                old(output_budget).taken(),
                progress@,
            ),
            old(output_budget).taken() <= output_budget.taken(),
            old(output_budget).limit() matches Some(max) ==> old(output_budget).taken() <= max
                ==> output_budget.taken() <= max,
            crate::h264::gop::request_fault(
                samples@.len() as int,
                output_indices@,
                output_counts@,
            ) is None,
            forall|planes: I420Picture, width: u32, height: u32| #[trigger]
                scale.requires((planes, width, height)),
        decreases samples@.len() - index,
    {
        let ghost before = decoder;
        assert(all[index as int] == samples@[index as int]@);
        match sample_to_annex_b(samples[index].as_slice(), config.length_size, &mut annex_b) {
            Ok(_) => {},
            Err(text) => {
                assert(ends_decoding(
                    text,
                    decoder,
                    config@,
                    all,
                    index as int,
                    progress@,
                    quality@,
                    size,
                    old(output_budget).limit(),
                    output_budget.taken(),
                    scale,
                ));
                return Err(text);
            },
        }
        proof {
            crate::h264::annex_b::lemma_annex_b_len(all[index as int], config@.length_size);
        }
        let given = match decode_units(&mut decoder, annex_b.as_slice()) {
            Ok(given) => given,
            Err(error) => {
                let text = decoder_error_text(&error);
                assert(ends_decoding(
                    text,
                    before,
                    config@,
                    all,
                    index as int,
                    progress@,
                    quality@,
                    size,
                    old(output_budget).limit(),
                    output_budget.taken(),
                    scale,
                ));
                return Err(text);
            },
        };
        assert(is_fed(decoder, config@, all, index + 1));
        assert(is_reached(decoder, config@, all, index + 1, progress@, quality@, size, scale));
        if let Some(picture) = given {
            let ghost held = progress@;
            let ghost taken = output_budget.taken();
            match store_selected_frame(
                &mut progress,
                picture,
                quality,
                size,
                output_budget,
                &scale,
            ) {
                Ok(_) => {},
                Err(text) => {
                    assert(ends_decoding(
                        text,
                        decoder,
                        config@,
                        all,
                        index + 1,
                        held,
                        quality@,
                        size,
                        old(output_budget).limit(),
                        output_budget.taken(),
                        scale,
                    ));
                    return Err(text);
                },
            }
            proof {
                lemma_picture_taken(
                    held,
                    progress@,
                    crate::h264::gop::pictures_given(decoder),
                    quality@,
                    size,
                    old(output_budget).limit(),
                    old(output_budget).taken(),
                    taken,
                    output_budget.taken(),
                    scale,
                );
            }
        }
        index += 1;
    }
    let ghost before = decoder;
    let pictures: Vec<DecodedPicture> = match flush_decoder(&mut decoder) {
        Ok(pictures) => pictures,
        Err(error) => {
            let text = decoder_error_text(&error);
            assert(ends_decoding(
                text,
                before,
                config@,
                all,
                all.len() as int,
                progress@,
                quality@,
                size,
                old(output_budget).limit(),
                output_budget.taken(),
                scale,
            ));
            return Err(text);
        },
    };
    let ghost given = crate::h264::gop::pictures_given(before);
    let ghost flushed = pictures@;
    assert(is_reached(decoder, config@, all, all.len() as int, progress@, quality@, size, scale));
    for picture in iter: pictures
        invariant
            all == crate::h264::config::byte_views(samples@),
            iter.seq() == flushed,
            crate::h264::gop::pictures_given(decoder) == given + flushed,
            progress@.decoded == given.len() + iter.index(),
            is_reached(decoder, config@, all, all.len() as int, progress@, quality@, size, scale),
            progress@.indices == output_indices@,
            progress@.counts == output_counts@,
            output_budget.limit() == old(output_budget).limit(),
            output_budget.taken() == taken_with(
                old(output_budget).limit(),
                old(output_budget).taken(),
                progress@,
            ),
            old(output_budget).taken() <= output_budget.taken(),
            old(output_budget).limit() matches Some(max) ==> old(output_budget).taken() <= max
                ==> output_budget.taken() <= max,
            crate::h264::gop::request_fault(
                samples@.len() as int,
                output_indices@,
                output_counts@,
            ) is None,
            forall|planes: I420Picture, width: u32, height: u32| #[trigger]
                scale.requires((planes, width, height)),
    {
        let ghost held = progress@;
        let ghost taken = output_budget.taken();
        assert(crate::h264::gop::pictures_given(decoder)[held.decoded] == picture);
        match store_selected_frame(&mut progress, picture, quality, size, output_budget, &scale) {
            Ok(_) => {},
            Err(text) => {
                assert(ends_decoding(
                    text,
                    decoder,
                    config@,
                    all,
                    all.len() as int,
                    held,
                    quality@,
                    size,
                    old(output_budget).limit(),
                    output_budget.taken(),
                    scale,
                ));
                return Err(text);
            },
        }
        proof {
            lemma_picture_taken(
                held,
                progress@,
                crate::h264::gop::pictures_given(decoder),
                quality@,
                size,
                old(output_budget).limit(),
                old(output_budget).taken(),
                taken,
                output_budget.taken(),
                scale,
            );
        }
    }
    let ghost held = progress@;
    let result = progress.finish();
    proof {
        if result is Ok {
            let images = result->Ok_0;
            assert(held.images =~= Seq::new(images@.len(), |i: int| Some(images@[i]@)));
            assert forall|i: int| 0 <= i < images@.len() implies held.images[i] == Some(
                (#[trigger] images@[i])@,
            ) by {}
            assert(are_thumbnails(
                images@,
                decoder,
                config@,
                all,
                output_indices@,
                quality@,
                size,
                scale,
            ));
        } else {
            assert(ends_decoding(
                result->Err_0,
                decoder,
                config@,
                all,
                all.len() as int,
                held,
                quality@,
                size,
                old(output_budget).limit(),
                output_budget.taken(),
                scale,
            ));
        }
    }
    result
}

/// Where nothing is stored, nothing is put out.
proof fn lemma_no_bytes(
    images: Seq<Option<crate::h264::gop::ImageView>>,
    counts: Seq<usize>,
    k: int,
)
    requires
        0 <= k <= images.len(),
        forall|i: int| 0 <= i < images.len() ==> #[trigger] images[i] is None,
    ensures
        output_bytes(images, counts, k) == 0,
    decreases k,
{
    if k > 0 {
        lemma_no_bytes(images, counts, k - 1);
        assert(images[k - 1] is None);
    }
}

/// The image of a picture inside its bounds is the JPEG stream of its own pixels
/// in its own size and in the quality that is asked for; that of any other is the
/// stream of what `scale` makes of its planes.
pub proof fn lemma_images_show_their_pictures<
    F: Fn(I420Picture, u32, u32) -> Result<Vec<u8>, String>,
>(
    image: crate::h264::gop::ImageView,
    picture: DecodedPicture,
    quality: u8,
    size: ThumbnailSize,
    scale: F,
) -> (rgb: Seq<u8>)
    requires
        is_image_of(image, picture, quality, size, scale),
        0 < size.width_bound() <= u16::MAX,
        0 < size.height_bound() <= u16::MAX,
    ensures
        image.data == crate::h264::jpeg::jpeg_stream(
            rgb,
            image.width as u16,
            image.height as u16,
            quality,
        ),
        picture.planes.width <= size.width_bound() && picture.planes.height <= size.height_bound()
            ==> image.width == picture.planes.width && image.height == picture.planes.height && rgb
            == picture.rgb@,
        picture.planes.width > size.width_bound() || picture.planes.height > size.height_bound()
            ==> exists|scaled: Vec<u8>|
            #![trigger scaled@]
            scaled@ == rgb && scale.ensures(
                (picture.planes, image.width, image.height),
                Ok::<Vec<u8>, String>(scaled),
            ),
        image.width <= size.width_bound(),
        image.height <= size.height_bound(),
{
    crate::h264::gop::lemma_pictures_are_put_out_inside_their_bounds(
        picture.planes.width as int,
        picture.planes.height as int,
        size.width_bound(),
        size.height_bound(),
    );
    let plan = plan_of(picture, size)->Ok_0;
    choose|rgb: Seq<u8>| #[trigger]
        encodes(rgb, None, picture, plan, scale) && image == image_of(rgb, plan, quality)
}

/// The images of a group are those that its positions want: the decoder was fed
/// the parameter sets and each sample once and in order, it gave one picture for
/// each sample, and the image in each place shows the picture whose number stands
/// there, in the quality that is asked for.
pub proof fn lemma_thumbnails_show_the_wanted_pictures<
    F: Fn(I420Picture, u32, u32) -> Result<Vec<u8>, String>,
>(
    images: Seq<DecodedImage>,
    decoder: Decoder,
    config: crate::h264::config::AvcConfigView,
    samples: Seq<Seq<u8>>,
    indices: Seq<usize>,
    quality: u8,
    size: ThumbnailSize,
    scale: F,
    i: int,
    n: int,
) -> (rgb: Seq<u8>)
    requires
        are_thumbnails(images, decoder, config, samples, indices, quality, size, scale),
        0 < size.width_bound() <= u16::MAX,
        0 < size.height_bound() <= u16::MAX,
        0 <= i < indices.len(),
        0 <= n < samples.len(),
    ensures
        images.len() == indices.len(),
        crate::h264::gop::pictures_given(decoder).len() == samples.len(),
        crate::h264::gop::units_fed(decoder).len() == samples.len() + 1,
        crate::h264::annex_b::parameter_sets(config) == Ok::<Seq<u8>, Seq<char>>(
            crate::h264::gop::units_fed(decoder)[0],
        ),
        crate::h264::annex_b::annex_b(samples[n], config.length_size) == Ok::<Seq<u8>, Seq<char>>(
            crate::h264::gop::units_fed(decoder)[n + 1],
        ),
        images[i]@.data == crate::h264::jpeg::jpeg_stream(
            rgb,
            images[i]@.width as u16,
            images[i]@.height as u16,
            quality,
        ),
        ({
            let picture = crate::h264::gop::pictures_given(decoder)[indices[i] as int];
            picture.planes.width <= size.width_bound() && picture.planes.height
                <= size.height_bound() ==> images[i]@.width == picture.planes.width
                && images[i]@.height == picture.planes.height && rgb == picture.rgb@
        }),
{
    let picture = crate::h264::gop::pictures_given(decoder)[indices[i] as int];
    assert(is_image_of(images[i]@, picture, quality, size, scale));
    lemma_images_show_their_pictures(images[i]@, picture, quality, size, scale)
}

/// Each picture is counted once. Where it is wanted its image stands in every
/// place that wants it and no other place changes, and else nothing does; the
/// budget is charged for the image as often as it is put out.
pub proof fn lemma_pictures_are_taken_in_turn<
    F: Fn(I420Picture, u32, u32) -> Result<Vec<u8>, String>,
>(
    before: crate::h264::gop::GopView,
    after: crate::h264::gop::GopView,
    picture: DecodedPicture,
    quality: u8,
    size: ThumbnailSize,
    limit: Option<usize>,
    taken_before: int,
    taken_after: int,
    scale: F,
    i: int,
)
    requires
        takes_picture(
            before,
            after,
            picture,
            quality,
            size,
            limit,
            taken_before,
            taken_after,
            scale,
        ),
        before.images.len() == before.indices.len(),
        0 <= i < before.images.len(),
    ensures
        after.decoded == before.decoded + 1,
        after.indices == before.indices,
        after.counts == before.counts,
        after.images.len() == before.images.len(),
        before.indices[i] != before.decoded ==> after.images[i] == before.images[i],
        before.indices[i] == before.decoded ==> {
            &&& after.images[i] matches Some(image) && is_image_of(
                image,
                picture,
                quality,
                size,
                scale,
            )
            &&& limit matches Some(max) ==> taken_after == taken_before + (
            after.images[i]->Some_0).data.len() * before.outputs_due() && taken_after <= max
        },
        (forall|j: int| 0 <= j < before.indices.len() ==> #[trigger] before.indices[j]
            != before.decoded) ==> taken_after == taken_before,
        limit is None ==> taken_after == taken_before,
{
    if before.indices[i] == before.decoded {
        assert(crate::h264::gop::wanted(before.indices, before.decoded));
    }
}

} // verus!
