//! What scaling a decoded picture needs to know beforehand.

use vstd::prelude::*;
use vstd::string::*;

verus! {

/// A decoded picture: brightness in full size, both colours in half size.
#[derive(Debug, PartialEq, Eq)]
pub struct I420Picture {
    pub width: usize,
    pub height: usize,
    pub y_stride: usize,
    pub u_stride: usize,
    pub v_stride: usize,
    pub y: Vec<u8>,
    pub u: Vec<u8>,
    pub v: Vec<u8>,
}

/// The layout of a picture that was found sound.
#[derive(Debug, Clone, Copy, PartialEq, Eq, Structural)]
pub struct ValidatedI420 {
    pub source_width: usize,
    pub source_height: usize,
    pub uv_width: usize,
    pub uv_height: usize,
    pub y_stride: usize,
    pub u_stride: usize,
    pub v_stride: usize,
}

/// What stands against scaling a picture to `width` by `height` pixels in a
/// target of `target_len` bytes.
pub open spec fn scaling_fault(
    picture: I420Picture,
    target_len: int,
    width: int,
    height: int,
) -> Option<Seq<char>> {
    let uv_width = picture.width as int / 2;
    let uv_height = picture.height as int / 2;
    let y_len = picture.y_stride * picture.height;
    let u_len = picture.u_stride * uv_height;
    let v_len = picture.v_stride * uv_height;
    if picture.width == 0 || picture.height == 0 || width == 0 || height == 0 {
        Some("scaled image has zero dimensions"@)
    } else if picture.width % 2 != 0 || picture.height % 2 != 0 {
        Some("decoded frame is not even I420"@)
    } else if picture.y_stride < picture.width || picture.u_stride < uv_width || picture.v_stride
        < uv_width {
        Some("decoded I420 stride is too small"@)
    } else if y_len > usize::MAX || u_len > usize::MAX || v_len > usize::MAX {
        Some("decoded I420 plane length overflow"@)
    } else if picture.y@.len() < y_len || picture.u@.len() < u_len || picture.v@.len() < v_len {
        Some("decoded I420 plane is too short"@)
    } else if width * height * 3 > usize::MAX {
        Some("scaled RGB target length overflow"@)
    } else if target_len != width * height * 3 {
        Some("scaled RGB target has an invalid length"@)
    } else {
        None
    }
}

/// The layout of a sound picture.
pub open spec fn layout_of(picture: I420Picture) -> ValidatedI420 {
    ValidatedI420 {
        source_width: picture.width,
        source_height: picture.height,
        uv_width: (picture.width as int / 2) as usize,
        uv_height: (picture.height as int / 2) as usize,
        y_stride: picture.y_stride,
        u_stride: picture.u_stride,
        v_stride: picture.v_stride,
    }
}

/// Checks that a picture can be scaled into a target.
pub fn validate_scaled_rgb(
    picture: &I420Picture,
    target_len: usize,
    width: usize,
    height: usize,
) -> (result: Result<ValidatedI420, String>)
    ensures
        match scaling_fault(*picture, target_len as int, width as int, height as int) {
            None => result matches Ok(layout) && layout == layout_of(*picture),
            Some(text) => result matches Err(error) && error@ == text,
        },
{
    if picture.width == 0 || picture.height == 0 || width == 0 || height == 0 {
        return Err(String::from_str("scaled image has zero dimensions"));
    }
    if picture.width % 2 != 0 || picture.height % 2 != 0 {
        return Err(String::from_str("decoded frame is not even I420"));
    }
    let uv_width: usize = picture.width / 2;
    let uv_height: usize = picture.height / 2;
    if picture.y_stride < picture.width || picture.u_stride < uv_width || picture.v_stride
        < uv_width {
        return Err(String::from_str("decoded I420 stride is too small"));
    }
    let (y_len, u_len, v_len) = match (
        picture.y_stride.checked_mul(picture.height),
        picture.u_stride.checked_mul(uv_height),
        picture.v_stride.checked_mul(uv_height),
    ) {
        (Some(y_len), Some(u_len), Some(v_len)) => (y_len, u_len, v_len),
        _ => {
            return Err(String::from_str("decoded I420 plane length overflow"));
        },
    };
    if picture.y.len() < y_len || picture.u.len() < u_len || picture.v.len() < v_len {
        return Err(String::from_str("decoded I420 plane is too short"));
    }
    assert(width * height >= 0) by (nonlinear_arith);
    let expected: Option<usize> = match width.checked_mul(height) {
        Some(pixels) => pixels.checked_mul(3),
        None => None,
    };
    match expected {
        Some(len) => {
            if target_len != len {
                return Err(String::from_str("scaled RGB target has an invalid length"));
            }
        },
        None => {
            return Err(String::from_str("scaled RGB target length overflow"));
        },
    }
    Ok(
        ValidatedI420 {
            source_width: picture.width,
            source_height: picture.height,
            uv_width,
            uv_height,
            y_stride: picture.y_stride,
            u_stride: picture.u_stride,
            v_stride: picture.v_stride,
        },
    )
}

/// Whether an axis is reduced so little (at most to half) that it is
/// interpolated between neighbours.
pub fn interpolates_neighbours(source_len: usize, target_len: usize) -> (result: bool)
    ensures
        result == (target_len * 2 <= usize::MAX && source_len <= target_len * 2),
{
    match target_len.checked_mul(2) {
        Some(twice) => source_len <= twice,
        None => false,
    }
}

/// The source pixel at the centre of the quarter `sample` of the target pixel
/// `target`.
pub open spec fn stratum_index(
    target: int,
    target_len: int,
    source_len: int,
    sample: int,
) -> int {
    let index = (target * 8 + sample * 2 + 1) * source_len / (target_len * 8);
    if index < source_len {
        index
    } else {
        source_len - 1
    }
}

/// The source pixels at the centres of the four quarters of a target pixel.
pub open spec fn stratum_indices(target: int, target_len: int, source_len: int) -> Seq<usize> {
    Seq::new(4, |sample: int| stratum_index(target, target_len, source_len, sample) as usize)
}

/// Picks the four source pixels that a target pixel is averaged from.
pub fn stratified_indices(target: usize, target_len: usize, source_len: usize) -> (result: Result<
    [usize; 4],
    String,
>)
    ensures
        match result {
            Ok(indices) => {
                &&& target < target_len
                &&& 0 < source_len
                &&& (target * 8 + 7) * source_len <= u128::MAX
                &&& indices@ == stratum_indices(
                    target as int,
                    target_len as int,
                    source_len as int,
                )
            },
            Err(text) => {
                ||| (target >= target_len || source_len == 0) && text@
                    == "invalid scaled image axis"@
                ||| target < target_len && source_len > 0 && (target * 8 + 7) * source_len
                    > u128::MAX && text@ == "scaled image axis arithmetic overflow"@
            },
        },
{
    if source_len == 0 || target_len == 0 || target >= target_len {
        return Err(String::from_str("invalid scaled image axis"));
    }
    let denominator: u128 = target_len as u128 * 8;
    let base: u128 = target as u128 * 8;
    let source: u128 = source_len as u128;
    if (base + 7).checked_mul(source).is_none() {
        return Err(String::from_str("scaled image axis arithmetic overflow"));
    }
    let first: usize = stratum(base, 1, source, denominator);
    let second: usize = stratum(base, 3, source, denominator);
    let third: usize = stratum(base, 5, source, denominator);
    let fourth: usize = stratum(base, 7, source, denominator);
    let indices = [first, second, third, fourth];
    assert(indices@ =~= stratum_indices(target as int, target_len as int, source_len as int));
    Ok(indices)
}

fn stratum(base: u128, place: u128, source: u128, denominator: u128) -> (result: usize)
    requires
        place <= 7,
        0 < source <= usize::MAX,
        denominator > 0,
        base + 7 <= u128::MAX,
        (base + 7) * source <= u128::MAX,
    ensures
        ({
            let index = (base + place) * source / denominator as int;
            result == if index < source {
                index
            } else {
                source - 1
            }
        }),
{
    assert((base + place) * source <= (base + 7) * source) by (nonlinear_arith)
        requires
            place <= 7,
            0 < source,
    ;
    assert(0 <= (base + place) * source) by (nonlinear_arith)
        requires
            0 <= base + place,
            0 < source,
    ;
    let index: u128 = (base + place) * source / denominator;
    if index < source {
        index as usize
    } else {
        (source - 1) as usize
    }
}

/// The four pixels of an averaged target pixel all lie inside the source, in
/// ascending order.
pub proof fn lemma_strata_lie_inside(target: int, target_len: int, source_len: int, sample: int)
    requires
        0 <= target < target_len,
        0 < source_len,
        0 <= sample < 4,
    ensures
        0 <= stratum_index(target, target_len, source_len, sample) < source_len,
        sample > 0 ==> stratum_index(target, target_len, source_len, sample - 1) <= stratum_index(
            target,
            target_len,
            source_len,
            sample,
        ),
{
    let here = (target * 8 + sample * 2 + 1) * source_len;
    let before = (target * 8 + (sample - 1) * 2 + 1) * source_len;
    assert(here >= 0 && before <= here) by (nonlinear_arith)
        requires
            here == (target * 8 + sample * 2 + 1) * source_len,
            before == (target * 8 + (sample - 1) * 2 + 1) * source_len,
            0 <= target,
            0 <= sample,
            0 < source_len,
    ;
    vstd::arithmetic::div_mod::lemma_div_pos_is_pos(here, target_len * 8);
    vstd::arithmetic::div_mod::lemma_div_is_ordered(before, here, target_len * 8);
}

/// Each of the four pixels holds the centre of its quarter of the target pixel:
/// an eighth, three, five and seven eighths of the way through it.
pub proof fn lemma_strata_are_at_the_centres(
    target: int,
    target_len: int,
    source_len: int,
    sample: int,
)
    requires
        0 <= target < target_len,
        0 < source_len,
        0 <= sample < 4,
    ensures
        ({
            let index = stratum_index(target, target_len, source_len, sample);
            let eighths = 8 * target + 2 * sample + 1;
            &&& index * (8 * target_len) <= eighths * source_len
            &&& eighths * source_len < (index + 1) * (8 * target_len)
        }),
{
    let eighths = 8 * target + 2 * sample + 1;
    let wide = 8 * target_len;
    let place = eighths * source_len;
    let index = place / wide;
    assert(index * wide <= place && place < (index + 1) * wide) by (nonlinear_arith)
        requires
            wide > 0,
            index == place / wide,
    ;
    assert(place < wide * source_len) by (nonlinear_arith)
        requires
            place == eighths * source_len,
            eighths < wide,
            0 < source_len,
    ;
    assert(index < source_len) by (nonlinear_arith)
        requires
            index * wide <= place,
            place < wide * source_len,
            wide > 0,
    ;
}

/// A picture that can be scaled has all its pixels: the brightness of each, and
/// both colours of each two by two of them.
pub proof fn lemma_sound_picture_has_all_its_pixels(
    picture: I420Picture,
    target_len: int,
    width: int,
    height: int,
    x: int,
    y: int,
)
    requires
        scaling_fault(picture, target_len, width, height) is None,
        0 <= x < picture.width,
        0 <= y < picture.height,
    ensures
        target_len == width * height * 3,
        y * picture.y_stride + x < picture.y@.len(),
        y / 2 * picture.u_stride + x / 2 < picture.u@.len(),
        y / 2 * picture.v_stride + x / 2 < picture.v@.len(),
        x < layout_of(picture).source_width,
        y < layout_of(picture).source_height,
        x / 2 < layout_of(picture).uv_width,
        y / 2 < layout_of(picture).uv_height,
        layout_of(picture).y_stride == picture.y_stride,
        layout_of(picture).u_stride == picture.u_stride,
        layout_of(picture).v_stride == picture.v_stride,
{
    lemma_pixel_in_plane(x, y, picture.width as int, picture.height as int, picture.y_stride as int);
    lemma_pixel_in_plane(
        x / 2,
        y / 2,
        picture.width as int / 2,
        picture.height as int / 2,
        picture.u_stride as int,
    );
    lemma_pixel_in_plane(
        x / 2,
        y / 2,
        picture.width as int / 2,
        picture.height as int / 2,
        picture.v_stride as int,
    );
}

proof fn lemma_pixel_in_plane(x: int, y: int, width: int, height: int, stride: int)
    requires
        0 <= x < width <= stride,
        0 <= y < height,
    ensures
        y * stride + x < stride * height,
{
    assert(y * stride + x < stride * height) by (nonlinear_arith)
        requires
            0 <= x < stride,
            0 <= y < height,
    ;
}

/// A picture is scaled just where it has pixels in even numbers, its rows are no
/// longer than their strides, its planes hold all of them, and the target has
/// three bytes for each of its own pixels.
pub proof fn lemma_sound_pictures_are_scaled(
    picture: I420Picture,
    target_len: int,
    width: int,
    height: int,
)
    requires
        0 <= width,
        0 <= height,
        0 <= target_len <= usize::MAX,
        picture.y@.len() <= usize::MAX,
        picture.u@.len() <= usize::MAX,
        picture.v@.len() <= usize::MAX,
    ensures
        scaling_fault(picture, target_len, width, height) is None <==> {
            &&& 0 < picture.width && 0 < picture.height && 0 < width && 0 < height
            &&& picture.width % 2 == 0 && picture.height % 2 == 0
            &&& picture.width <= picture.y_stride
            &&& picture.width <= 2 * picture.u_stride
            &&& picture.width <= 2 * picture.v_stride
            &&& picture.y_stride * picture.height <= picture.y@.len()
            &&& picture.u_stride * (picture.height as int / 2) <= picture.u@.len()
            &&& picture.v_stride * (picture.height as int / 2) <= picture.v@.len()
            &&& target_len == width * height * 3
        },
{
}

} // verus!
