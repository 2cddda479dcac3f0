//! JPEG output inside a byte budget.

use vstd::prelude::*;
use vstd::string::*;

use crate::h264::config::{DecodedImage, JpegQuality, MAX_DECODED_IMAGE_BYTES};
use crate::memory::{try_reserve_exact, vec_capacity};
use crate::strings::{decimal_text, join2, join3};

verus! {

/// The bytes that the images of one request may come to.
#[derive(Debug)]
pub struct OutputBudget {
    max_bytes: Option<usize>,
    used_bytes: usize,
}

impl OutputBudget {
    /// The limit, where there is one.
    pub closed spec fn limit(self) -> Option<usize> {
        self.max_bytes
    }

    /// The bytes taken so far; nothing is counted where there is no limit.
    pub closed spec fn taken(self) -> int {
        self.used_bytes as int
    }

    #[verifier::type_invariant]
    spec fn inside_limit(self) -> bool {
        match self.max_bytes {
            Some(max) => self.used_bytes <= max,
            None => self.used_bytes == 0,
        }
    }

    pub fn new(max_bytes: Option<usize>) -> (result: Self)
        ensures
            result.limit() == max_bytes,
            result.taken() == 0,
    {
        OutputBudget { max_bytes, used_bytes: 0 }
    }

    /// Takes `image_bytes` for each of `output_count` outputs, all or nothing.
    pub fn reserve(&mut self, image_bytes: usize, output_count: usize) -> (result: Result<
        (),
        String,
    >)
        ensures
            final(self).limit() == old(self).limit(),
            match result {
                Ok(_) => match old(self).limit() {
                    Some(max) => {
                        &&& final(self).taken() == old(self).taken() + image_bytes * output_count
                        &&& final(self).taken() <= max
                    },
                    None => final(self).taken() == old(self).taken(),
                },
                Err(text) => {
                    &&& text@ == "thumbnail payload is too large"@
                    &&& final(self).taken() == old(self).taken()
                    &&& old(self).limit() matches Some(max) && old(self).taken() + image_bytes
                        * output_count > max
                },
            },
    {
        proof {
            use_type_invariant(&*self);
            assert(image_bytes * output_count >= 0) by (nonlinear_arith);
        }
        let max: usize = match self.max_bytes {
            Some(max) => max,
            None => {
                return Ok(());
            },
        };
        let used: usize = self.used_bytes;
        if let Some(additional) = image_bytes.checked_mul(output_count) {
            if additional <= max - used {
                self.used_bytes = used + additional;
                return Ok(());
            }
        }
        Err(String::from_str("thumbnail payload is too large"))
    }

    pub fn used(&self) -> (result: usize)
        ensures
            result == self.taken(),
            self.limit() matches Some(max) ==> result <= max,
    {
        proof {
            use_type_invariant(self);
        }
        self.used_bytes
    }
}

/// The words for a JPEG stream that cannot be held.
pub open spec fn jpeg_too_large() -> Seq<char> {
    "JPEG output is too large"@
}

/// Grows with the compressed stream instead of reserving the much larger raw
/// RGB size, up to a limit.
#[derive(Debug)]
pub struct FallibleJpegWriter {
    pub data: Vec<u8>,
    pub max_len: usize,
}

impl FallibleJpegWriter {
    pub fn new(max_len: usize) -> (result: Self)
        ensures
            result.data@.len() == 0,
            result.max_len == max_len,
    {
        FallibleJpegWriter { data: Vec::new(), max_len }
    }

    pub fn into_inner(self) -> (result: Vec<u8>)
        ensures
            result == self.data,
    {
        self.data
    }

    /// Appends all of `bytes`, or nothing where they would exceed the limit or
    /// memory for them is refused. The room at least doubles with each growth.
    pub fn write(&mut self, bytes: &[u8]) -> (result: Result<usize, String>)
        ensures
            final(self).max_len == old(self).max_len,
            match result {
                Ok(written) => {
                    &&& written == bytes@.len()
                    &&& final(self).data@ == old(self).data@ + bytes@
                    &&& final(self).data@.len() <= old(self).max_len
                },
                Err(text) => {
                    &&& text@ == jpeg_too_large()
                    &&& final(self).data@ == old(self).data@
                },
            },
            old(self).data@.len() + bytes@.len() > old(self).max_len ==> result is Err,
            bytes@.len() == 0 && old(self).data@.len() <= old(self).max_len ==> result is Ok,
    {
        let required: usize = match self.data.len().checked_add(bytes.len()) {
            Some(required) => required,
            None => {
                return Err(String::from_str("JPEG output is too large"));
            },
        };
        if required > self.max_len {
            return Err(String::from_str("JPEG output is too large"));
        }
        let capacity: usize = vec_capacity(&self.data);
        if required > capacity {
            let target: usize = growth_target(capacity, required, self.max_len);
            let additional: usize = target - self.data.len();
            if !try_reserve_exact(&mut self.data, additional) {
                return Err(String::from_str("JPEG output is too large"));
            }
        }
        self.data.extend_from_slice(bytes);
        assert(self.data@ =~= old(self).data@ + bytes@);
        Ok(bytes.len())
    }

    /// Appends all of `bytes` or nothing.
    pub fn write_all(&mut self, bytes: &[u8]) -> (result: Result<(), String>)
        ensures
            final(self).max_len == old(self).max_len,
            match result {
                Ok(_) => {
                    &&& final(self).data@ == old(self).data@ + bytes@
                    &&& final(self).data@.len() <= old(self).max_len
                },
                Err(text) => {
                    &&& text@ == jpeg_too_large()
                    &&& final(self).data@ == old(self).data@
                },
            },
            old(self).data@.len() + bytes@.len() > old(self).max_len ==> result is Err,
            bytes@.len() == 0 && old(self).data@.len() <= old(self).max_len ==> result is Ok,
    {
        match self.write(bytes) {
            Ok(_) => Ok(()),
            Err(text) => Err(text),
        }
    }
}

/// The room to grow to: twice what there is, at least what is required, at
/// most the limit.
pub fn growth_target(capacity: usize, required: usize, max_len: usize) -> (result: usize)
    requires
        required <= max_len,
    ensures
        required <= result <= max_len,
        result == max_len || result == required || result == capacity * 2,
        capacity * 2 <= max_len ==> result >= capacity * 2,
        capacity * 2 > max_len ==> result == max_len,
{
    let doubled: usize = if capacity <= max_len / 2 { capacity * 2 } else { max_len };
    if doubled < required {
        required
    } else {
        doubled
    }
}

/// The bytes that the JPEG encoder makes of a picture.
pub uninterp spec fn jpeg_stream(rgb: Seq<u8>, width: u16, height: u16, quality: u8) -> Seq<u8>;

/// Encodes an RGB picture with `jpeg_encoder::Encoder::encode` into a vector.
/// The stream is determined by the pixels, the dimensions and the quality. The
/// encoder fails only where a dimension is zero, the pixels are too few or the
/// writer fails, which a vector does not.
#[verifier::external_body]
fn encode_rgb(
    rgb: &[u8],
    width: u16,
    height: u16,
    quality: u8,
) -> (result: Result<Vec<u8>, jpeg_encoder::EncodingError>)
    requires
        width > 0,
        height > 0,
        1 <= quality <= 100,
        rgb@.len() >= width * height * 3,
    ensures
        result is Ok,
        result->Ok_0@ == jpeg_stream(rgb@, width, height, quality),
{
    let mut data = Vec::new();
    jpeg_encoder::Encoder::new(&mut data, quality).encode(
        rgb,
        width,
        height,
        jpeg_encoder::ColorType::Rgb,
    ).map(|_| data)
}

/// The encoder's error, which is only carried through.
#[verifier::external_type_specification]
#[verifier::external_body]
pub struct ExEncodingError(jpeg_encoder::EncodingError);

/// What stands against encoding a picture of these dimensions in `rgb_len`
/// bytes.
pub open spec fn encoding_fault(rgb_len: int, width: int, height: int) -> Option<Seq<char>> {
    if width > u16::MAX {
        Some("frame width exceeds JPEG limits"@)
    } else if height > u16::MAX {
        Some("frame height exceeds JPEG limits"@)
    } else if rgb_len < width * height * 3 {
        Some(
            "Image data too small for dimensions and color_type: "@ + crate::strings::decimal(
                rgb_len,
            ) + " need at least "@ + crate::strings::decimal(width * height * 3),
        )
    } else if width == 0 || height == 0 {
        Some(
            "Image dimensions must be non zero: "@ + crate::strings::decimal(width) + "x"@
                + crate::strings::decimal(height),
        )
    } else {
        None
    }
}

/// Makes an image of an encoded stream, inside the size limit. What stands
/// in the stream is kept unchanged.
pub fn image_of_stream(stream: &[u8], width: u32, height: u32) -> (result: Result<
    DecodedImage,
    String,
>)
    ensures
        match result {
            Ok(image) => {
                &&& image.width == width
                &&& image.height == height
                &&& image.data@ == stream@
                &&& stream@.len() <= MAX_DECODED_IMAGE_BYTES
            },
            Err(text) => text@ == jpeg_too_large(),
        },
        stream@.len() > MAX_DECODED_IMAGE_BYTES ==> result is Err,
        stream@.len() == 0 ==> result is Ok,
{
    let mut output = FallibleJpegWriter::new(MAX_DECODED_IMAGE_BYTES);
    output.write_all(stream)?;
    assert(output.data@ =~= stream@);
    Ok(DecodedImage { width, height, data: output.into_inner() })
}

/// Encodes an RGB picture of `width` by `height` pixels.
pub fn rgb_to_jpeg(rgb: &[u8], width: u32, height: u32, quality: JpegQuality) -> (result: Result<
    DecodedImage,
    String,
>)
    ensures
        match result {
            Ok(image) => {
                &&& encoding_fault(rgb@.len() as int, width as int, height as int) is None
                &&& image.width == width
                &&& image.height == height
                &&& image.data@ == jpeg_stream(rgb@, width as u16, height as u16, quality@)
                &&& image.data@.len() <= MAX_DECODED_IMAGE_BYTES
            },
            Err(text) => {
                ||| encoding_fault(rgb@.len() as int, width as int, height as int) == Some(text@)
                ||| encoding_fault(rgb@.len() as int, width as int, height as int) is None && text@
                    == jpeg_too_large()
            },
        },
        encoding_fault(rgb@.len() as int, width as int, height as int) is None && jpeg_stream(
            rgb@,
            width as u16,
            height as u16,
            quality@,
        ).len() > MAX_DECODED_IMAGE_BYTES ==> result is Err,
{
    if width > u16::MAX as u32 {
        return Err(String::from_str("frame width exceeds JPEG limits"));
    }
    if height > u16::MAX as u32 {
        return Err(String::from_str("frame height exceeds JPEG limits"));
    }
    assert(width * height * 3 <= 0xffff * 0xffff * 3) by (nonlinear_arith)
        requires
            width <= 0xffff,
            height <= 0xffff,
    ;
    assert(width * height <= 0xffff * 0xffff) by (nonlinear_arith)
        requires
            width <= 0xffff,
            height <= 0xffff,
    ;
    let required: u64 = width as u64 * height as u64 * 3;
    if (rgb.len() as u64) < required {
        let length = join3(
            "Image data too small for dimensions and color_type: ",
            decimal_text(rgb.len() as u64).as_str(),
            " need at least ",
        );
        return Err(join2(length.as_str(), decimal_text(required).as_str()));
    }
    if width == 0 || height == 0 {
        let first = join3(
            "Image dimensions must be non zero: ",
            decimal_text(width as u64).as_str(),
            "x",
        );
        return Err(join2(first.as_str(), decimal_text(height as u64).as_str()));
    }
    match encode_rgb(rgb, width as u16, height as u16, quality.get()) {
        Ok(stream) => image_of_stream(stream.as_slice(), width, height),
        Err(_) => Err(String::from_str("JPEG output is too large")),
    }
}

/// A picture is encoded just where both its sides are from 1 to 65,535 pixels and
/// it has three bytes for each of them.
pub proof fn lemma_sound_pictures_are_encoded(rgb_len: int, width: int, height: int)
    requires
        0 <= width,
        0 <= height,
    ensures
        encoding_fault(rgb_len, width, height) is None <==> 1 <= width <= 65_535 && 1 <= height
            <= 65_535 && rgb_len >= width * height * 3,
{
}

} // verus!
