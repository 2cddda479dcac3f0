//! Stream configuration and output bounds.

use vstd::prelude::*;
use vstd::string::*;

verus! {

/// The most bytes that a decoded or encoded picture may have.
pub const MAX_DECODED_IMAGE_BYTES: usize = 67_108_864;

pub const DEFAULT_THUMBNAIL_BOUND: u32 = 320;

/// Aspect-ratio-preserving bounds applied before JPEG encoding.
#[derive(Debug, Clone, Copy, PartialEq, Eq, Structural)]
pub struct ThumbnailSize {
    max_width: u32,
    max_height: u32,
}

impl ThumbnailSize {
    #[verifier::type_invariant]
    spec fn bounds_fit(self) -> bool {
        1 <= self.max_width <= u16::MAX && 1 <= self.max_height <= u16::MAX
    }

    pub closed spec fn width_bound(self) -> int {
        self.max_width as int
    }

    pub closed spec fn height_bound(self) -> int {
        self.max_height as int
    }

    /// Creates non-zero output bounds accepted by the JPEG encoder.
    pub fn new(max_width: u32, max_height: u32) -> (result: Option<Self>)
        ensures
            match result {
                Some(size) => {
                    &&& 1 <= max_width <= u16::MAX
                    &&& 1 <= max_height <= u16::MAX
                    &&& size.width_bound() == max_width
                    &&& size.height_bound() == max_height
                },
                None => !(1 <= max_width <= u16::MAX && 1 <= max_height <= u16::MAX),
            },
    {
        if max_width > 0 && max_height > 0 && max_width <= u16::MAX as u32 && max_height
            <= u16::MAX as u32 {
            Some(ThumbnailSize { max_width, max_height })
        } else {
            None
        }
    }

    /// The bounds as width and height.
    pub fn bounds(&self) -> (result: (u32, u32))
        ensures
            result.0 == self.width_bound(),
            result.1 == self.height_bound(),
            1 <= result.0 <= u16::MAX,
            1 <= result.1 <= u16::MAX,
    {
        proof {
            use_type_invariant(self);
        }
        (self.max_width, self.max_height)
    }
}

impl Default for ThumbnailSize {
    fn default() -> (result: Self)
        ensures
            result.width_bound() == DEFAULT_THUMBNAIL_BOUND,
            result.height_bound() == DEFAULT_THUMBNAIL_BOUND,
            result.width_bound() == 320,
            result.height_bound() == 320,
    {
        ThumbnailSize { max_width: DEFAULT_THUMBNAIL_BOUND, max_height: DEFAULT_THUMBNAIL_BOUND }
    }
}

/// JPEG quality for encoded thumbnails, constrained to the encoder's 1-100
/// range so that no other value can reach the encoder.
///
/// The encoder switches to 4:2:0 chroma subsampling below 90, so that 89 to 90
/// is a visible step rather than a smooth one.
#[derive(Debug, Clone, Copy, PartialEq, Eq, PartialOrd, Ord, Structural)]
pub struct JpegQuality {
    quality: u8,
}

impl View for JpegQuality {
    type V = u8;

    closed spec fn view(&self) -> u8 {
        self.quality
    }
}

/// The quality that thumbnails have where none is asked for.
pub const DEFAULT_JPEG_QUALITY: u8 = 60;

impl JpegQuality {
    #[verifier::type_invariant]
    spec fn in_range(self) -> bool {
        1 <= self.quality <= 100
    }

    /// Returns `None` unless `quality` is within the encoder's 1-100 range.
    pub fn new(quality: u8) -> (result: Option<Self>)
        ensures
            match result {
                Some(accepted) => 1 <= quality <= 100 && accepted@ == quality,
                None => !(1 <= quality <= 100),
            },
    {
        if 1 <= quality && quality <= 100 {
            Some(JpegQuality { quality })
        } else {
            None
        }
    }

    pub fn get(self) -> (result: u8)
        ensures
            result == self@,
            1 <= result <= 100,
    {
        proof {
            use_type_invariant(&self);
        }
        self.quality
    }
}

impl Default for JpegQuality {
    fn default() -> (result: Self)
        ensures
            result@ == DEFAULT_JPEG_QUALITY,
            result@ == 60,
    {
        JpegQuality { quality: DEFAULT_JPEG_QUALITY }
    }
}

/// AVC decoder configuration extracted from an MP4 `avcC` box.
#[derive(Debug, PartialEq, Eq)]
pub struct AvcConfig {
    pub length_size: usize,
    pub sps: Vec<Vec<u8>>,
    pub pps: Vec<Vec<u8>>,
}

/// A configuration by the bytes of its parameter sets.
pub struct AvcConfigView {
    pub length_size: int,
    pub sps: Seq<Seq<u8>>,
    pub pps: Seq<Seq<u8>>,
}

/// Byte strings by their bytes.
pub open spec fn byte_views(units: Seq<Vec<u8>>) -> Seq<Seq<u8>> {
    Seq::new(units.len(), |i: int| units[i]@)
}

impl View for AvcConfig {
    type V = AvcConfigView;

    open spec fn view(&self) -> AvcConfigView {
        AvcConfigView {
            length_size: self.length_size as int,
            sps: byte_views(self.sps@),
            pps: byte_views(self.pps@),
        }
    }
}

/// Decoded JPEG thumbnail.
#[derive(Debug, PartialEq, Eq)]
pub struct DecodedImage {
    pub width: u32,
    pub height: u32,
    pub data: Vec<u8>,
}

pub open spec fn at_least_one(value: int) -> int {
    if value < 1 {
        1
    } else {
        value
    }
}

/// The dimensions of a thumbnail: those of the frame where they fit the bounds,
/// else the largest that keep the aspect ratio, rounded down but never to zero.
pub open spec fn scaled_dimensions(
    width: int,
    height: int,
    max_width: int,
    max_height: int,
) -> (int, int) {
    if width <= max_width && height <= max_height {
        (width, height)
    } else if max_width * height <= max_height * width {
        (max_width, at_least_one(height * max_width / width))
    } else {
        (at_least_one(width * max_height / height), max_height)
    }
}

/// The dimensions that a frame is scaled to.
pub fn thumbnail_dimensions(width: u32, height: u32, size: ThumbnailSize) -> (result: Result<
    (u32, u32),
    String,
>)
    ensures
        match result {
            Ok((scaled_width, scaled_height)) => {
                &&& width > 0
                &&& height > 0
                &&& (scaled_width as int, scaled_height as int) == scaled_dimensions(
                    width as int,
                    height as int,
                    size.width_bound(),
                    size.height_bound(),
                )
                &&& keeps_aspect_ratio(
                    width as int,
                    height as int,
                    size.width_bound(),
                    size.height_bound(),
                    scaled_width as int,
                    scaled_height as int,
                )
            },
            Err(text) => (width == 0 || height == 0) && text@
                == "decoded frame has zero dimensions"@,
        },
{
    if width == 0 || height == 0 {
        return Err(String::from_str("decoded frame has zero dimensions"));
    }
    let (max_width, max_height) = size.bounds();
    proof {
        lemma_scaled_dimensions_keep_the_aspect_ratio(
            width as int,
            height as int,
            max_width as int,
            max_height as int,
        );
    }
    if width <= max_width && height <= max_height {
        return Ok((width, height));
    }
    proof {
        lemma_scaled_dimensions_fit(
            width as int,
            height as int,
            max_width as int,
            max_height as int,
        );
    }
    assert(max_width * height <= 0xffff * 0xffff_ffff) by (nonlinear_arith)
        requires
            max_width <= 0xffff,
            height <= 0xffff_ffff,
    ;
    assert(max_height * width <= 0xffff * 0xffff_ffff) by (nonlinear_arith)
        requires
            max_height <= 0xffff,
            width <= 0xffff_ffff,
    ;
    assert(max_width * height == height * max_width) by (nonlinear_arith);
    assert(max_height * width == width * max_height) by (nonlinear_arith);
    let by_width: u64 = max_width as u64 * height as u64;
    let by_height: u64 = max_height as u64 * width as u64;
    if by_width <= by_height {
        let scaled: u64 = by_width / width as u64;
        Ok((max_width, if scaled < 1 { 1 } else { scaled as u32 }))
    } else {
        let scaled: u64 = by_height / height as u64;
        Ok((if scaled < 1 { 1 } else { scaled as u32 }, max_height))
    }
}

/// Whether a side was scaled as the other was, rounded down but not to zero.
pub open spec fn is_scaled_side(side: int, scaled: int, other: int, scaled_other: int) -> bool {
    &&& scaled >= 1
    &&& side * scaled_other < (scaled + 1) * other
    &&& scaled * other <= side * scaled_other || scaled == 1
}

/// Whether a frame is shown as it is where it fits its bounds, and else with one
/// side at its bound and the other scaled as that side was.
pub open spec fn keeps_aspect_ratio(
    width: int,
    height: int,
    max_width: int,
    max_height: int,
    scaled_width: int,
    scaled_height: int,
) -> bool {
    if width <= max_width && height <= max_height {
        scaled_width == width && scaled_height == height
    } else {
        ||| scaled_width == max_width && is_scaled_side(
            height,
            scaled_height,
            width,
            scaled_width,
        )
        ||| scaled_height == max_height && is_scaled_side(
            width,
            scaled_width,
            height,
            scaled_height,
        )
    }
}

/// A frame inside its bounds keeps its size. Of any other, one side is at its
/// bound, and the other keeps the aspect ratio, rounded down unless that leaves
/// nothing.
pub proof fn lemma_scaled_dimensions_keep_the_aspect_ratio(
    width: int,
    height: int,
    max_width: int,
    max_height: int,
)
    requires
        width > 0,
        height > 0,
        max_width > 0,
        max_height > 0,
    ensures
        ({
            let (scaled_width, scaled_height) = scaled_dimensions(
                width,
                height,
                max_width,
                max_height,
            );
            &&& keeps_aspect_ratio(
                width,
                height,
                max_width,
                max_height,
                scaled_width,
                scaled_height,
            )
            &&& width <= max_width && height <= max_height ==> scaled_width == width
                && scaled_height == height
            &&& width > max_width || height > max_height ==> {
                ||| scaled_width == max_width && height * scaled_width < (scaled_height + 1) * width
                    && (scaled_height * width <= height * scaled_width || scaled_height == 1)
                ||| scaled_height == max_height && width * scaled_height < (scaled_width + 1)
                    * height && (scaled_width * height <= width * scaled_height || scaled_width
                    == 1)
            }
        }),
{
    if width <= max_width && height <= max_height {
    } else if max_width * height <= max_height * width {
        lemma_rounded_side(height, width, max_width);
    } else {
        lemma_rounded_side(width, height, max_height);
    }
}

proof fn lemma_rounded_side(side: int, other: int, scaled_other: int)
    requires
        side > 0,
        other > 0,
        scaled_other > 0,
    ensures
        is_scaled_side(side, at_least_one(side * scaled_other / other), other, scaled_other),
{
    let scaled = side * scaled_other / other;
    assert(0 <= scaled && scaled * other <= side * scaled_other && side * scaled_other < (scaled
        + 1) * other) by (nonlinear_arith)
        requires
            side > 0,
            other > 0,
            scaled_other > 0,
            scaled == side * scaled_other / other,
    ;
    if scaled < 1 {
        assert((scaled + 1) * other <= (1int + 1) * other) by (nonlinear_arith)
            requires
                scaled < 1,
                other > 0,
        ;
    }
}

/// A thumbnail has at least one pixel each way, stays inside its bounds and is
/// never larger than the frame it shows.
pub proof fn lemma_scaled_dimensions_fit(
    width: int,
    height: int,
    max_width: int,
    max_height: int,
)
    requires
        width > 0,
        height > 0,
        max_width > 0,
        max_height > 0,
    ensures
        ({
            let (scaled_width, scaled_height) = scaled_dimensions(
                width,
                height,
                max_width,
                max_height,
            );
            &&& 1 <= scaled_width <= max_width
            &&& 1 <= scaled_height <= max_height
            &&& scaled_width <= width
            &&& scaled_height <= height
        }),
{
    if width <= max_width && height <= max_height {
    } else if max_width * height <= max_height * width {
        lemma_scaled_side(width, height, max_width, max_height);
    } else {
        assert(max_width * height == height * max_width) by (nonlinear_arith);
        assert(max_height * width == width * max_height) by (nonlinear_arith);
        lemma_scaled_side(height, width, max_height, max_width);
    }
}

/// Where the first side sets the scale, it is cut to its bound, and the other
/// side then fits too.
proof fn lemma_scaled_side(first: int, other: int, max_first: int, max_other: int)
    requires
        first > 0,
        other > 0,
        max_first > 0,
        max_other > 0,
        !(first <= max_first && other <= max_other),
        max_first * other <= max_other * first,
    ensures
        max_first <= first,
        0 <= other * max_first / first <= max_other,
        other * max_first / first <= other,
{
    assert(max_first <= first) by (nonlinear_arith)
        requires
            first > 0,
            other > 0,
            max_first > 0,
            max_other > 0,
            !(first <= max_first && other <= max_other),
            max_first * other <= max_other * first,
    ;
    let scaled = other * max_first / first;
    assert(0 <= scaled <= max_other && scaled <= other) by (nonlinear_arith)
        requires
            first > 0,
            other > 0,
            max_first > 0,
            max_first <= first,
            max_first * other <= max_other * first,
            scaled == other * max_first / first,
    ;
}

/// The number of bytes of an RGB picture.
pub fn rgb_buffer_len(width: u32, height: u32) -> (result: Result<usize, String>)
    ensures
        match result {
            Ok(len) => len == width * height * 3,
            Err(text) => width * height * 3 > usize::MAX && text@ == "decoded frame is too large"@,
        },
{
    assert(width * height >= 0) by (nonlinear_arith);
    if let Some(pixels) = (width as usize).checked_mul(height as usize) {
        if let Some(len) = pixels.checked_mul(3) {
            return Ok(len);
        }
    }
    Err(String::from_str("decoded frame is too large"))
}

} // verus!
