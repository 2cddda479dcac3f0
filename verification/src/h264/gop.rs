//! Decoding one group of pictures and picking out the wanted ones.
//!
//! What the decoder gives is taken out of it at once as a [`DecodedPicture`], in
//! plain values. A [`GopProgress`] counts these pictures, which come in
//! presentation order, and keeps the image of each wanted one at every position
//! of the output that wants it, inside an output budget.

use openh264::decoder::{DecodeOptions, Decoder, Flush};
use openh264::formats::YUVSource;
use openh264::Error as DecoderError;
use vstd::prelude::*;
use vstd::slice::slice_to_vec;
use vstd::string::*;

use crate::h264::config::{
    rgb_buffer_len, thumbnail_dimensions, DecodedImage, ThumbnailSize, MAX_DECODED_IMAGE_BYTES,
};
use crate::h264::jpeg::OutputBudget;
use crate::h264::scaling::I420Picture;
use crate::strings::{decimal_text, join2, join3};

verus! {

// ---------------------------------------------------------------------------
// The decoder
// ---------------------------------------------------------------------------

/// A picture as the decoder gives it.
#[derive(Debug)]
pub struct DecodedPicture {
    /// Its planes.
    pub planes: I420Picture,
    /// Its pixels in its own size.
    pub rgb: Vec<u8>,
}

impl DecodedPicture {
    /// Whether there are three bytes for each pixel.
    pub open spec fn is_filled(self) -> bool {
        self.rgb@.len() == self.planes.width * self.planes.height * 3
    }
}

/// The OpenH264 decoder.
#[verifier::external_type_specification]
#[verifier::external_body]
pub struct ExDecoder(Decoder);

/// An error of the OpenH264 decoder, which is only carried through.
#[verifier::external_type_specification]
#[verifier::external_body]
pub struct ExDecoderError(DecoderError);

/// The units that a decoder was fed, in order.
pub uninterp spec fn units_fed(decoder: Decoder) -> Seq<Seq<u8>>;

/// The pictures that a decoder has given, in order.
pub uninterp spec fn pictures_given(decoder: Decoder) -> Seq<DecodedPicture>;

/// Opens a decoder with `openh264::decoder::Decoder::new`. It was fed nothing
/// yet and has given nothing. Whether it opens is up to the decoder library.
#[verifier::external_body]
pub(crate) fn open_decoder() -> (result: Result<Decoder, DecoderError>)
    ensures
        result matches Ok(decoder) ==> {
            &&& units_fed(decoder) == Seq::<Seq<u8>>::empty()
            &&& pictures_given(decoder) == Seq::<DecodedPicture>::empty()
        },
{
    Decoder::new()
}

/// Feeds NAL units to the decoder with
/// `openh264::decoder::Decoder::decode_with_options`, without flushing, and
/// takes the picture that comes out by the methods of
/// `openh264::formats::YUVSource` and by
/// `openh264::decoder::DecodedYUV::write_rgb8`, which writes three bytes for
/// each pixel. The decoder counts the bytes in 32 bits with a sign. Whether a
/// picture comes out and what it looks like depends on all that the decoder was
/// fed, and is up to the decoder.
#[verifier::external_body]
pub(crate) fn decode_units(decoder: &mut Decoder, data: &[u8]) -> (result: Result<
    Option<DecodedPicture>,
    DecoderError,
>)
    requires
        data@.len() <= i32::MAX,
    ensures
        units_fed(*final(decoder)) == units_fed(*old(decoder)).push(data@),
        pictures_given(*final(decoder)) == match result {
            Ok(Some(picture)) => pictures_given(*old(decoder)).push(picture),
            _ => pictures_given(*old(decoder)),
        },
        result matches Ok(Some(picture)) ==> picture.is_filled(),
{
    let options = DecodeOptions::new().flush_after_decode(Flush::NoFlush);
    let given = decoder.decode_with_options(data, options)?;
    Ok(given.map(|picture| {
        let mut rgb = vec![0; picture.rgb8_len()];
        picture.write_rgb8(&mut rgb);
        let (width, height) = picture.dimensions();
        let (y_stride, u_stride, v_stride) = picture.strides();
        let (y, u, v) = (picture.y().to_vec(), picture.u().to_vec(), picture.v().to_vec());
        let planes = I420Picture { width, height, y_stride, u_stride, v_stride, y, u, v };
        DecodedPicture { planes, rgb }
    }))
}

/// Takes the pictures that are still inside the decoder with
/// `openh264::decoder::Decoder::flush_remaining`, in the order of that, each as
/// [`decode_units`] takes one. How many there are and what they look like is up
/// to the decoder.
#[verifier::external_body]
pub(crate) fn flush_decoder(decoder: &mut Decoder) -> (result: Result<
    Vec<DecodedPicture>,
    DecoderError,
>)
    ensures
        units_fed(*final(decoder)) == units_fed(*old(decoder)),
        pictures_given(*final(decoder)) == match result {
            Ok(pictures) => pictures_given(*old(decoder)) + pictures@,
            Err(_) => pictures_given(*old(decoder)),
        },
        result matches Ok(pictures) ==> forall|i: int|
            0 <= i < pictures@.len() ==> (#[trigger] pictures@[i]).is_filled(),
{
    let given = decoder.flush_remaining()?;
    Ok(given.iter().map(|picture| {
        let mut rgb = vec![0; picture.rgb8_len()];
        picture.write_rgb8(&mut rgb);
        let (width, height) = picture.dimensions();
        let (y_stride, u_stride, v_stride) = picture.strides();
        let (y, u, v) = (picture.y().to_vec(), picture.u().to_vec(), picture.v().to_vec());
        let planes = I420Picture { width, height, y_stride, u_stride, v_stride, y, u, v };
        DecodedPicture { planes, rgb }
    }).collect())
}

/// Whether these are the words of a decoder error.
pub open spec fn is_decoder_fault(text: Seq<char>) -> bool {
    "OpenH264 encountered an error. Native:"@.is_prefix_of(text)
}

/// The words of a decoder error, from the `Display` of `openh264::Error`, which
/// begin in the same way for every error. The numbers and the message behind
/// that are up to the decoder.
#[verifier::external_body]
pub(crate) fn decoder_error_text(error: &DecoderError) -> (result: String)
    ensures
        is_decoder_fault(result@),
{
    error.to_string()
}

// ---------------------------------------------------------------------------
// Output size
// ---------------------------------------------------------------------------

/// The size that a decoded picture is put out in.
#[derive(Debug, Clone, Copy, PartialEq, Eq, Structural)]
pub struct PicturePlan {
    pub width: u32,
    pub height: u32,
    /// Whether the size is another than the picture's own.
    pub scaled: bool,
}

/// The size that a picture of `width` by `height` pixels is put out in, or the
/// words for why it is not.
pub open spec fn picture_plan(
    width: int,
    height: int,
    max_width: int,
    max_height: int,
) -> Result<PicturePlan, Seq<char>> {
    if width > u32::MAX {
        Err("decoded frame width is too large"@)
    } else if height > u32::MAX {
        Err("decoded frame height is too large"@)
    } else if width == 0 || height == 0 {
        Err("decoded frame has zero dimensions"@)
    } else {
        let (out_width, out_height) = crate::h264::config::scaled_dimensions(
            width,
            height,
            max_width,
            max_height,
        );
        if out_width * out_height * 3 > usize::MAX {
            Err("decoded frame is too large"@)
        } else if out_width * out_height * 3 > MAX_DECODED_IMAGE_BYTES {
            Err("decoded frame exceeds the image size limit"@)
        } else {
            Ok(
                PicturePlan {
                    width: out_width as u32,
                    height: out_height as u32,
                    scaled: (out_width, out_height) != (width, height),
                },
            )
        }
    }
}

/// Decides the size that a decoded picture is put out in.
pub fn plan_picture(width: usize, height: usize, size: ThumbnailSize) -> (result: Result<
    PicturePlan,
    String,
>)
    ensures
        match picture_plan(width as int, height as int, size.width_bound(), size.height_bound()) {
            Ok(plan) => result == Ok::<PicturePlan, String>(plan),
            Err(text) => result matches Err(error) && error@ == text,
        },
{
    if width as u64 > u32::MAX as u64 {
        return Err(String::from_str("decoded frame width is too large"));
    }
    if height as u64 > u32::MAX as u64 {
        return Err(String::from_str("decoded frame height is too large"));
    }
    let (out_width, out_height) = match thumbnail_dimensions(width as u32, height as u32, size) {
        Ok(dimensions) => dimensions,
        Err(text) => {
            return Err(text);
        },
    };
    let rgb_len: usize = match rgb_buffer_len(out_width, out_height) {
        Ok(len) => len,
        Err(text) => {
            return Err(text);
        },
    };
    if rgb_len > MAX_DECODED_IMAGE_BYTES {
        return Err(String::from_str("decoded frame exceeds the image size limit"));
    }
    let scaled: bool = out_width as usize != width || out_height as usize != height;
    Ok(PicturePlan { width: out_width, height: out_height, scaled })
}

// ---------------------------------------------------------------------------
// Selection
// ---------------------------------------------------------------------------

/// An image by its bytes.
pub struct ImageView {
    pub width: u32,
    pub height: u32,
    pub data: Seq<u8>,
}

impl View for DecodedImage {
    type V = ImageView;

    open spec fn view(&self) -> ImageView {
        ImageView { width: self.width, height: self.height, data: self.data@ }
    }
}

pub open spec fn image_views(images: Seq<Option<DecodedImage>>) -> Seq<Option<ImageView>> {
    Seq::new(
        images.len(),
        |i: int|
            match images[i] {
                Some(image) => Some(image@),
                None => None,
            },
    )
}

/// The number of outputs, over the first `k` positions, that want the picture
/// `index`, each position weighted by its count.
pub open spec fn outputs_wanting(
    indices: Seq<usize>,
    counts: Seq<usize>,
    index: int,
    k: int,
) -> int
    decreases k,
{
    if k <= 0 {
        0
    } else {
        outputs_wanting(indices, counts, index, k - 1) + if indices[k - 1] == index {
            counts[k - 1] as int
        } else {
            0
        }
    }
}

pub(crate) proof fn lemma_outputs_wanting_monotone(
    indices: Seq<usize>,
    counts: Seq<usize>,
    index: int,
    i: int,
    k: int,
)
    requires
        0 <= i <= k,
    ensures
        0 <= outputs_wanting(indices, counts, index, i) <= outputs_wanting(
            indices,
            counts,
            index,
            k,
        ),
    decreases k,
{
    if k > 0 {
        if i < k {
            lemma_outputs_wanting_monotone(indices, counts, index, i, k - 1);
        } else {
            lemma_outputs_wanting_monotone(indices, counts, index, k - 1, k - 1);
        }
    }
}

/// What stands against a request for the pictures `indices` of `samples`
/// samples.
pub open spec fn request_fault(
    samples: int,
    indices: Seq<usize>,
    counts: Seq<usize>,
) -> Option<Seq<char>> {
    if samples == 0 {
        Some("no H.264 samples to decode"@)
    } else if indices.len() != counts.len() || counts.contains(0) {
        Some("invalid H.264 output multiplicities"@)
    } else if exists|i: int| 0 <= i < indices.len() && #[trigger] indices[i] >= samples {
        Some("requested H.264 output is outside the sample range"@)
    } else {
        None
    }
}

/// Checks a request for pictures.
pub fn check_request(samples: usize, indices: &[usize], counts: &[usize]) -> (result: Result<
    (),
    String,
>)
    ensures
        match request_fault(samples as int, indices@, counts@) {
            None => result is Ok,
            Some(text) => result matches Err(error) && error@ == text,
        },
{
    if samples == 0 {
        return Err(String::from_str("no H.264 samples to decode"));
    }
    if indices.len() != counts.len() {
        return Err(String::from_str("invalid H.264 output multiplicities"));
    }
    let mut index: usize = 0;
    while index < counts.len()
        invariant
            index <= counts@.len(),
            samples > 0,
            indices@.len() == counts@.len(),
            forall|i: int| 0 <= i < index ==> counts@[i] != 0,
        decreases counts@.len() - index,
    {
        if counts[index] == 0 {
            assert(counts@.contains(counts@[index as int]));
            return Err(String::from_str("invalid H.264 output multiplicities"));
        }
        index += 1;
    }
    assert(!counts@.contains(0));
    let mut index: usize = 0;
    while index < indices.len()
        invariant
            index <= indices@.len(),
            samples > 0,
            indices@.len() == counts@.len(),
            !counts@.contains(0),
            forall|i: int| 0 <= i < index ==> #[trigger] indices@[i] < samples,
        decreases indices@.len() - index,
    {
        if indices[index] >= samples {
            assert(indices@[index as int] >= samples);
            return Err(String::from_str("requested H.264 output is outside the sample range"));
        }
        index += 1;
    }
    Ok(())
}

/// Whether some output wants the picture `index`.
pub open spec fn wanted(indices: Seq<usize>, index: int) -> bool {
    exists|i: int| 0 <= i < indices.len() && #[trigger] indices[i] == index
}

fn is_wanted(indices: &[usize], index: usize) -> (result: bool)
    ensures
        result == wanted(indices@, index as int),
{
    let mut position: usize = 0;
    while position < indices.len()
        invariant
            position <= indices@.len(),
            forall|i: int| 0 <= i < position ==> #[trigger] indices@[i] != index,
        decreases indices@.len() - position,
    {
        if indices[position] == index {
            assert(indices@[position as int] == index);
            return true;
        }
        position += 1;
    }
    false
}

fn copy_image(image: &DecodedImage) -> (result: DecodedImage)
    ensures
        result@ == image@,
{
    DecodedImage {
        width: image.width,
        height: image.height,
        data: slice_to_vec(image.data.as_slice()),
    }
}

// ---------------------------------------------------------------------------
// Progress
// ---------------------------------------------------------------------------

/// The pictures of one group that have come out of the decoder so far.
#[derive(Debug)]
pub struct GopProgress<'a> {
    samples: usize,
    indices: &'a [usize],
    counts: &'a [usize],
    decoded: usize,
    images: Vec<Option<DecodedImage>>,
}

/// A decoding under way, by what it holds.
pub struct GopView {
    /// The number of samples to decode.
    pub samples: int,
    /// The wanted pictures, one for each position of the output.
    pub indices: Seq<usize>,
    /// How many outputs each position stands for.
    pub counts: Seq<usize>,
    /// The number of pictures that the decoder has given.
    pub decoded: int,
    /// The images stored, one place for each position of the output.
    pub images: Seq<Option<ImageView>>,
}

impl<'a> View for GopProgress<'a> {
    type V = GopView;

    closed spec fn view(&self) -> GopView {
        GopView {
            samples: self.samples as int,
            indices: self.indices@,
            counts: self.counts@,
            decoded: self.decoded as int,
            images: image_views(self.images@),
        }
    }
}

impl GopView {
    /// Whether the request is sound, and an image is stored at just the positions
    /// whose picture has come out, the same one at all that want the same picture.
    pub open spec fn wf(self) -> bool {
        &&& request_fault(self.samples, self.indices, self.counts) is None
        &&& 0 <= self.decoded <= usize::MAX
        &&& self.images.len() == self.indices.len()
        &&& forall|i: int|
            0 <= i < self.images.len() ==> (#[trigger] self.images[i] is Some) == (self.indices[i]
                < self.decoded)
        &&& forall|i: int, j: int|
            0 <= i < self.images.len() && 0 <= j < self.images.len() && self.indices[i]
                == self.indices[j] ==> #[trigger] self.images[i] == #[trigger] self.images[j]
    }

    /// The number of outputs that want the picture that comes next.
    pub open spec fn outputs_due(self) -> int {
        outputs_wanting(self.indices, self.counts, self.decoded, self.indices.len() as int)
    }
}

/// The images once the one of the picture `index` is stored at every position
/// that wants it.
pub open spec fn with_image(
    images: Seq<Option<ImageView>>,
    indices: Seq<usize>,
    index: int,
    image: ImageView,
) -> Seq<Option<ImageView>> {
    Seq::new(
        images.len(),
        |i: int|
            if indices[i] == index {
                Some(image)
            } else {
                images[i]
            },
    )
}

/// The bytes taken from a budget once an image was put out `outputs` times; nothing
/// is counted where there is no limit.
pub open spec fn charged(limit: Option<usize>, taken: int, image: ImageView, outputs: int) -> int {
    match limit {
        Some(_) => taken + image.data.len() * outputs,
        None => taken,
    }
}

/// What stands against putting out an image `outputs` times.
pub open spec fn output_fault(
    limit: Option<usize>,
    taken: int,
    len: int,
    outputs: int,
) -> Option<Seq<char>> {
    if outputs > usize::MAX {
        Some("thumbnail output count overflow"@)
    } else {
        match limit {
            Some(max) => if taken + len * outputs > max {
                Some("thumbnail payload is too large"@)
            } else {
                None
            },
            None => None,
        }
    }
}

/// The words for a group that did not give one picture for each sample.
pub open spec fn wrong_count(decoded: int, samples: int) -> Seq<char> {
    "OpenH264 produced "@ + crate::strings::decimal(decoded) + " frames for "@ + (
    crate::strings::decimal(samples) + " samples"@)
}

impl<'a> GopProgress<'a> {
    /// Starts before the first picture of a sound request.
    pub fn new(
        samples: usize,
        output_indices: &'a [usize],
        output_counts: &'a [usize],
    ) -> (result: Result<Self, String>)
        ensures
            match request_fault(samples as int, output_indices@, output_counts@) {
                None => result matches Ok(progress) && progress@.wf() && progress@ == (GopView {
                    samples: samples as int,
                    indices: output_indices@,
                    counts: output_counts@,
                    decoded: 0,
                    images: Seq::new(output_indices@.len(), |i: int| None::<ImageView>),
                }),
                Some(text) => result matches Err(error) && error@ == text,
            },
    {
        match check_request(samples, output_indices, output_counts) {
            Ok(_) => {},
            Err(text) => {
                return Err(text);
            },
        }
        let mut images: Vec<Option<DecodedImage>> = Vec::new();
        let mut position: usize = 0;
        while position < output_indices.len()
            invariant
                position <= output_indices@.len(),
                images@.len() == position,
                forall|i: int| 0 <= i < position ==> #[trigger] images@[i] is None,
            decreases output_indices@.len() - position,
        {
            images.push(None);
            position += 1;
        }
        assert(image_views(images@) =~= Seq::new(
            output_indices@.len(),
            |i: int| None::<ImageView>,
        ));
        Ok(
            GopProgress {
                samples,
                indices: output_indices,
                counts: output_counts,
                decoded: 0,
                images,
            },
        )
    }

    /// Whether some output wants the picture that comes next.
    pub fn wants_next(&self) -> (result: bool)
        ensures
            result == wanted(self@.indices, self@.decoded),
    {
        is_wanted(self.indices, self.decoded)
    }

    /// Counts a picture that no output wants.
    pub fn skip(&mut self) -> (result: Result<(), String>)
        requires
            old(self)@.wf(),
            !wanted(old(self)@.indices, old(self)@.decoded),
        ensures
            final(self)@.wf(),
            match result {
                Ok(_) => final(self)@ == (GopView {
                    decoded: old(self)@.decoded + 1,
                    ..old(self)@
                }),
                Err(text) => {
                    &&& old(self)@.decoded == usize::MAX
                    &&& final(self)@ == old(self)@
                    &&& text@ == "decoded frame count overflow"@
                },
            },
            old(self)@.decoded == usize::MAX ==> result is Err,
    {
        if self.decoded == usize::MAX {
            return Err(String::from_str("decoded frame count overflow"));
        }
        proof {
            assert forall|i: int| 0 <= i < self@.images.len() implies self@.indices[i]
                != self@.decoded by {
                assert(self@.images[i] is Some == (self@.indices[i] < self@.decoded));
            }
        }
        self.decoded = self.decoded + 1;
        Ok(())
    }

    /// Counts a wanted picture and stores its image at every position that wants
    /// it, once the budget has room for all the outputs they stand for.
    pub fn store(&mut self, image: &DecodedImage, budget: &mut OutputBudget) -> (result: Result<
        (),
        String,
    >)
        requires
            old(self)@.wf(),
            wanted(old(self)@.indices, old(self)@.decoded),
        ensures
            final(self)@.wf(),
            final(budget).limit() == old(budget).limit(),
            match output_fault(
                old(budget).limit(),
                old(budget).taken(),
                image@.data.len() as int,
                old(self)@.outputs_due(),
            ) {
                None => {
                    &&& result is Ok
                    &&& final(budget).taken() == charged(
                        old(budget).limit(),
                        old(budget).taken(),
                        image@,
                        old(self)@.outputs_due(),
                    )
                    &&& final(self)@ == (GopView {
                        decoded: old(self)@.decoded + 1,
                        images: with_image(
                            old(self)@.images,
                            old(self)@.indices,
                            old(self)@.decoded,
                            image@,
                        ),
                        ..old(self)@
                    })
                },
                Some(fault) => {
                    &&& result matches Err(text) && text@ == fault
                    &&& final(self)@ == old(self)@
                    &&& final(budget).taken() == old(budget).taken()
                },
            },
    {
        let index: usize = self.decoded;
        let ghost indices = self.indices@;
        let ghost counts = self.counts@;
        let ghost count = indices.len() as int;
        let mut outputs: usize = 0;
        let mut position: usize = 0;
        while position < self.indices.len()
            invariant
                self@.wf(),
                *self == *old(self),
                index == self.decoded,
                indices == self.indices@,
                counts == self.counts@,
                count == indices.len(),
                position <= indices.len(),
                *budget == *old(budget),
                outputs == outputs_wanting(indices, counts, index as int, position as int),
            decreases indices.len() - position,
        {
            proof {
                lemma_outputs_wanting_monotone(
                    indices,
                    counts,
                    index as int,
                    position + 1,
                    count,
                );
            }
            if self.indices[position] == index {
                outputs =
                match outputs.checked_add(self.counts[position]) {
                    Some(outputs) => outputs,
                    None => {
                        return Err(String::from_str("thumbnail output count overflow"));
                    },
                };
            }
            position += 1;
        }
        match budget.reserve(image.data.len(), outputs) {
            Ok(_) => {},
            Err(text) => {
                return Err(text);
            },
        }
        let ghost before = self.images@;
        let mut position: usize = 0;
        while position < self.indices.len()
            invariant
                old(self)@.wf(),
                self.samples == old(self).samples,
                self.indices == old(self).indices,
                self.counts == old(self).counts,
                self.decoded == old(self).decoded == index,
                indices == self.indices@,
                before == old(self).images@,
                before.len() == self.images@.len() == indices.len() == self.counts@.len(),
                position <= indices.len(),
                forall|i: int|
                    0 <= i < position ==> (if indices[i] == index {
                        #[trigger] self.images@[i] matches Some(stored) && stored@ == image@
                    } else {
                        self.images@[i] == before[i]
                    }),
                forall|i: int|
                    position <= i < indices.len() ==> #[trigger] self.images@[i] == before[i],
            decreases indices.len() - position,
        {
            if self.indices[position] == index {
                self.images[position] = Some(copy_image(image));
            }
            position += 1;
        }
        proof {
            let place = choose|i: int| 0 <= i < indices.len() && #[trigger] indices[i] == index;
            assert(indices[place] < self.samples);
            assert(self@.images =~= with_image(
                old(self)@.images,
                indices,
                index as int,
                image@,
            ));
            assert forall|i: int| 0 <= i < self@.images.len() implies (#[trigger] self@.images[i]
                is Some) == (indices[i] < index + 1) by {
                assert(old(self)@.images[i] is Some == (indices[i] < index));
            }
        }
        self.decoded = index + 1;
        Ok(())
    }

    /// The images of all positions, if the decoder gave one picture for each
    /// sample.
    pub fn finish(self) -> (result: Result<Vec<DecodedImage>, String>)
        requires
            self@.wf(),
        ensures
            match result {
                Ok(images) => {
                    &&& self@.decoded == self@.samples
                    &&& self@.images == Seq::new(images@.len(), |i: int| Some(images@[i]@))
                },
                Err(text) => {
                    &&& self@.decoded != self@.samples
                    &&& text@ == wrong_count(self@.decoded, self@.samples)
                },
            },
    {
        let decoded: usize = self.decoded;
        let GopProgress { samples, indices, images, .. } = self;
        let ghost stored = image_views(images@);
        if decoded != samples {
            let frames = join3(
                "OpenH264 produced ",
                decimal_text(decoded as u64).as_str(),
                " frames for ",
            );
            let counted = join2(decimal_text(samples as u64).as_str(), " samples");
            return Err(join2(frames.as_str(), counted.as_str()));
        }
        let ghost all = images@;
        let mut finished: Vec<DecodedImage> = Vec::new();
        for image in iter: images
            invariant
                iter.seq() == all,
                stored == image_views(all),
                all.len() == indices@.len(),
                stored == self@.images,
                indices@ == self@.indices,
                self@.wf(),
                decoded == self@.decoded == self@.samples,
                finished@.len() == iter.index(),
                forall|i: int|
                    0 <= i < finished@.len() ==> stored[i] == Some((#[trigger] finished@[i])@),
        {
            let ghost i = finished@.len() as int;
            assert(self@.indices[i] < self@.samples);
            assert(self@.images[i] is Some);
            if let Some(image) = image {
                finished.push(image);
            }
        }
        assert(stored =~= Seq::new(finished@.len(), |i: int| Some(finished@[i]@)));
        Ok(finished)
    }
}

/// A picture inside its bounds is put out in its own size, and any other scaled to
/// one inside the bounds that keeps its aspect ratio; unless it has no pixels, or
/// its size is more than can be put out.
pub proof fn lemma_pictures_are_put_out_inside_their_bounds(
    width: int,
    height: int,
    max_width: int,
    max_height: int,
)
    requires
        0 < max_width <= u16::MAX,
        0 < max_height <= u16::MAX,
        0 <= width,
        0 <= height,
    ensures
        match picture_plan(width, height, max_width, max_height) {
            Ok(plan) => {
                &&& plan.width <= max_width && plan.height <= max_height
                &&& plan.width * plan.height * 3 <= 64 * 1024 * 1024
                &&& plan.scaled <==> width > max_width || height > max_height
                &&& !plan.scaled ==> plan.width == width && plan.height == height
                &&& crate::h264::config::keeps_aspect_ratio(
                    width,
                    height,
                    max_width,
                    max_height,
                    plan.width as int,
                    plan.height as int,
                )
            },
            Err(_) => {
                ||| width == 0 || height == 0
                ||| width > u32::MAX || height > u32::MAX
                ||| max_width * max_height * 3 > usize::MAX
                ||| max_width * max_height * 3 > 64 * 1024 * 1024
            },
        },
{
    if 0 < width && 0 < height {
        crate::h264::config::lemma_scaled_dimensions_fit(width, height, max_width, max_height);
        crate::h264::config::lemma_scaled_dimensions_keep_the_aspect_ratio(
            width,
            height,
            max_width,
            max_height,
        );
        let (out_width, out_height) = crate::h264::config::scaled_dimensions(
            width,
            height,
            max_width,
            max_height,
        );
        assert(out_width * out_height <= max_width * max_height) by (nonlinear_arith)
            requires
                0 < out_width <= max_width,
                0 < out_height <= max_height,
        ;
        if width > max_width || height > max_height {
            assert((out_width, out_height) != (width, height));
        }
    }
}

/// A request for pictures is sound just where there are samples, each wanted
/// picture is one of them, and each position stands for at least one output.
pub proof fn lemma_sound_requests(samples: int, indices: Seq<usize>, counts: Seq<usize>)
    ensures
        request_fault(samples, indices, counts) is None <==> samples != 0 && indices.len()
            == counts.len() && (forall|i: int|
            0 <= i < counts.len() ==> #[trigger] counts[i] != 0) && (forall|i: int|
            0 <= i < indices.len() ==> #[trigger] indices[i] < samples),
{
    if counts.contains(0) {
        let at = counts.index_of(0);
        assert(counts[at] == 0);
    }
    if exists|i: int| 0 <= i < counts.len() && #[trigger] counts[i] == 0 {
        let at = choose|i: int| 0 <= i < counts.len() && #[trigger] counts[i] == 0;
        assert(counts.contains(counts[at]));
    }
}

/// An image is stored at all positions that want its picture, and at no other.
pub proof fn lemma_images_are_stored_where_they_are_wanted(
    images: Seq<Option<ImageView>>,
    indices: Seq<usize>,
    index: int,
    image: ImageView,
    i: int,
)
    requires
        0 <= i < images.len(),
    ensures
        with_image(images, indices, index, image).len() == images.len(),
        indices[i] == index ==> with_image(images, indices, index, image)[i] == Some(image),
        indices[i] != index ==> with_image(images, indices, index, image)[i] == images[i],
{
}

/// The outputs that want a picture are those of all positions that do, each as
/// often as it stands for.
pub proof fn lemma_outputs_are_counted_by_position(
    indices: Seq<usize>,
    counts: Seq<usize>,
    index: int,
    k: int,
)
    requires
        0 <= k < indices.len(),
        indices.len() == counts.len(),
    ensures
        outputs_wanting(indices, counts, index, 0) == 0,
        indices[k] == index ==> outputs_wanting(indices, counts, index, k + 1) == outputs_wanting(
            indices,
            counts,
            index,
            k,
        ) + counts[k],
        indices[k] != index ==> outputs_wanting(indices, counts, index, k + 1) == outputs_wanting(
            indices,
            counts,
            index,
            k,
        ),
{
}

} // verus!
