//! Decoding groups of pictures, and what comes before and after it.

use media_parser::h264::annex_b::{append_annex_b_nal, parameter_sets_annex_b, sample_to_annex_b};
use media_parser::h264::config::{
    rgb_buffer_len, thumbnail_dimensions, AvcConfig, DecodedImage, JpegQuality, ThumbnailSize,
    DEFAULT_JPEG_QUALITY, MAX_DECODED_IMAGE_BYTES,
};
use media_parser::h264::decode::{
    decode_frames_to_jpeg, picture_to_jpeg, store_selected_frame,
};
use media_parser::h264::gop::{
    check_request, plan_picture, DecodedPicture, GopProgress, PicturePlan,
};
use media_parser::h264::jpeg::{
    growth_target, image_of_stream, rgb_to_jpeg, FallibleJpegWriter, OutputBudget,
};
use media_parser::h264::scaling::{
    interpolates_neighbours, stratified_indices, validate_scaled_rgb, I420Picture,
};
use openh264::encoder::{Encoder, EncoderConfig};
use openh264::formats::YUVBuffer;
use openh264::OpenH264API;

fn picture(
    dimensions: (usize, usize),
    strides: (usize, usize, usize),
    y: &[u8],
    u: &[u8],
    v: &[u8],
) -> I420Picture {
    I420Picture {
        width: dimensions.0,
        height: dimensions.1,
        y_stride: strides.0,
        u_stride: strides.1,
        v_stride: strides.2,
        y: y.to_vec(),
        u: u.to_vec(),
        v: v.to_vec(),
    }
}

#[test]
fn jpeg_writer_grows_geometrically_and_enforces_its_limit() {
    let mut output = FallibleJpegWriter::new(8);
    let mut capacity_changes = 0;
    let mut capacity = output.data.capacity();

    for byte in 0..8 {
        output.write_all(&[byte]).expect("write within limit");
        if output.data.capacity() != capacity {
            capacity_changes += 1;
            capacity = output.data.capacity();
        }
    }

    assert_eq!(output.data, (0..8).collect::<Vec<_>>());
    assert!(capacity_changes <= 4);
    assert!(output.write_all(&[8]).is_err());
    assert_eq!(output.data, (0..8).collect::<Vec<_>>());
}

#[test]
fn default_thumbnail_size_downscales_8k_before_rgb_allocation() {
    let size = ThumbnailSize::default();

    assert_eq!(thumbnail_dimensions(7_680, 4_320, size), Ok((320, 180)));
    assert_eq!(rgb_buffer_len(320, 180), Ok(320 * 180 * 3));
}

#[test]
fn thumbnail_size_preserves_aspect_ratio_without_upscaling() {
    let size = ThumbnailSize::new(640, 640).expect("non-zero bounds are valid");

    assert_eq!(thumbnail_dimensions(1_920, 1_080, size), Ok((640, 360)));
    assert_eq!(thumbnail_dimensions(1_080, 1_920, size), Ok((360, 640)));
    assert_eq!(thumbnail_dimensions(160, 90, size), Ok((160, 90)));
}

#[test]
fn rejects_quality_outside_the_encoder_range() {
    assert_eq!(JpegQuality::new(0), None);
    assert_eq!(JpegQuality::new(101), None);
    assert_eq!(JpegQuality::new(1).map(JpegQuality::get), Some(1));
    assert_eq!(JpegQuality::new(100).map(JpegQuality::get), Some(100));
}

#[test]
fn defaults_to_thumbnail_grade_quality() {
    assert_eq!(Some(JpegQuality::default()), JpegQuality::new(DEFAULT_JPEG_QUALITY));
    assert_eq!(JpegQuality::default().get(), 60);
}

#[test]
fn output_budget_accepts_the_exact_weighted_limit() {
    let mut budget = OutputBudget::new(Some(12));

    budget
        .reserve(4, 3)
        .expect("three four-byte outputs fit exactly");

    assert_eq!(budget.used(), 12);
}

#[test]
fn output_budget_rejects_without_consuming_the_failed_reservation() {
    let mut budget = OutputBudget::new(Some(11));

    let error = budget
        .reserve(4, 3)
        .expect_err("weighted output exceeds the byte budget");

    assert!(error.contains("thumbnail payload is too large"));
    assert_eq!(budget.used(), 0);
}

#[test]
fn converts_length_prefixed_sample_to_annex_b() {
    let sample = [0, 0, 0, 2, 0x65, 0x88, 0, 0, 0, 1, 0x41];
    let mut output = Vec::new();

    sample_to_annex_b(&sample, 4, &mut output).unwrap();

    assert_eq!(output, vec![0, 0, 0, 1, 0x65, 0x88, 0, 0, 0, 1, 0x41]);
}

#[test]
fn reuses_the_output_buffer_across_samples() {
    let first = [0, 0, 0, 2, 0x65, 0x88];
    let second = [0, 0, 0, 1, 0x41];
    let mut output = Vec::new();

    sample_to_annex_b(&first, 4, &mut output).unwrap();
    let capacity = output.capacity();
    sample_to_annex_b(&second, 4, &mut output).unwrap();

    assert_eq!(output, vec![0, 0, 0, 1, 0x41]);
    assert_eq!(output.capacity(), capacity);
}

#[test]
fn expands_one_byte_length_prefixes_to_four_byte_start_codes() {
    let sample = [2, 0x65, 0x88, 1, 0x41];
    let mut output = Vec::new();

    sample_to_annex_b(&sample, 1, &mut output).unwrap();

    assert_eq!(output, vec![0, 0, 0, 1, 0x65, 0x88, 0, 0, 0, 1, 0x41]);
}

#[test]
fn rejects_a_sample_without_nal_units() {
    let mut output = vec![0xff; 8];

    assert!(sample_to_annex_b(&[], 4, &mut output).is_err());
    assert!(output.is_empty());
}

#[test]
fn rejects_invalid_i420_sources_and_targets() {
    let y = [16; 6];
    let uv = [128; 2];

    let zero_sized = picture((0, 2), (0, 0, 0), &[], &[], &[]);
    assert!(validate_scaled_rgb(&zero_sized, 3, 1, 1)
        .expect_err("zero source is invalid")
        .contains("zero dimensions"));

    let odd_sized = picture((3, 2), (3, 1, 1), &y, &uv[..1], &uv[..1]);
    assert!(validate_scaled_rgb(&odd_sized, 3, 1, 1)
        .expect_err("odd I420 source is invalid")
        .contains("even I420"));

    let short_stride = picture((2, 2), (1, 0, 0), &y[..2], &[], &[]);
    assert!(validate_scaled_rgb(&short_stride, 3, 1, 1)
        .expect_err("short stride is invalid")
        .contains("stride"));

    let short_plane = picture((2, 2), (2, 1, 1), &y[..3], &uv[..1], &uv[..1]);
    assert!(validate_scaled_rgb(&short_plane, 3, 1, 1)
        .expect_err("short plane is invalid")
        .contains("plane is too short"));

    let valid_source = picture((2, 2), (2, 1, 1), &y[..4], &uv[..1], &uv[..1]);
    assert!(validate_scaled_rgb(&valid_source, 2, 1, 1)
        .expect_err("wrong target length is invalid")
        .contains("target has an invalid length"));
}

#[test]
fn a_sound_source_gives_its_layout() {
    let y = [16; 12];
    let uv = [128; 3];
    let source = picture((6, 2), (6, 3, 3), &y, &uv, &uv);

    let layout = validate_scaled_rgb(&source, 9, 3, 1).expect("odd target is valid");

    assert_eq!((layout.source_width, layout.source_height), (6, 2));
    assert_eq!((layout.uv_width, layout.uv_height), (3, 1));
    assert_eq!((layout.y_stride, layout.u_stride, layout.v_stride), (6, 3, 3));
}

#[test]
fn strata_are_the_quarter_centres_of_a_target_pixel() {
    assert_eq!(stratified_indices(0, 2, 16), Ok([1, 3, 5, 7]));
    assert_eq!(stratified_indices(1, 2, 16), Ok([9, 11, 13, 15]));
    assert_eq!(
        stratified_indices(2, 2, 16),
        Err("invalid scaled image axis".to_string())
    );
    assert_eq!(
        stratified_indices(0, 1, 0),
        Err("invalid scaled image axis".to_string())
    );
}

#[test]
fn strata_of_large_axes_stay_inside() {
    if let Ok(indices) = stratified_indices(usize::MAX - 1, usize::MAX, usize::MAX) {
        assert!(indices.iter().all(|index| *index < usize::MAX));
    }
}

#[test]
fn only_moderate_downscales_interpolate() {
    assert!(interpolates_neighbours(10, 6));
    assert!(interpolates_neighbours(12, 6));
    assert!(!interpolates_neighbours(13, 6));
    assert!(!interpolates_neighbours(16, 2));
}

#[test]
fn thumbnail_bounds_must_not_be_zero() {
    assert_eq!(ThumbnailSize::new(0, 320), None);
    assert_eq!(ThumbnailSize::new(320, 0), None);
    assert_eq!(ThumbnailSize::default().bounds(), (320, 320));
}

#[test]
fn thumbnail_dimensions_never_round_to_zero() {
    let size = ThumbnailSize::new(10, 10).expect("bounds are valid");

    assert_eq!(thumbnail_dimensions(10_000, 1, size), Ok((10, 1)));
    assert!(thumbnail_dimensions(0, 1, size).is_err());
}

#[test]
fn rgb_buffers_are_bounded() {
    assert_eq!(rgb_buffer_len(2, 3), Ok(18));
    assert!(rgb_buffer_len(u32::MAX, u32::MAX).is_err());
}

#[test]
fn output_budgets_without_a_limit_count_nothing() {
    let mut budget = OutputBudget::new(None);

    budget.reserve(usize::MAX, usize::MAX).expect("no limit");

    assert_eq!(budget.used(), 0);
}

#[test]
fn growth_doubles_up_to_the_limit() {
    assert_eq!(growth_target(4, 5, 100), 8);
    assert_eq!(growth_target(0, 5, 100), 5);
    assert_eq!(growth_target(60, 61, 100), 100);
}

#[test]
fn annex_b_units_start_with_a_start_code() {
    let mut output = vec![7];

    append_annex_b_nal(&mut output, &[0x41, 0x42]).expect("unit is short");

    assert_eq!(output, vec![7, 0, 0, 0, 1, 0x41, 0x42]);
}

#[test]
fn parameter_sets_come_in_order() {
    let config = AvcConfig {
        length_size: 4,
        sps: vec![vec![0x67, 1], vec![0x67, 2]],
        pps: vec![vec![0x68, 3]],
    };

    assert_eq!(
        parameter_sets_annex_b(&config),
        Ok(vec![
            0, 0, 0, 1, 0x67, 1, 0, 0, 0, 1, 0x67, 2, 0, 0, 0, 1, 0x68, 3
        ])
    );
}

#[test]
fn truncated_units_are_rejected() {
    let mut output = Vec::new();

    assert!(sample_to_annex_b(&[0, 0, 0, 3, 1, 2], 4, &mut output).is_err());
    assert!(sample_to_annex_b(&[0, 0, 0], 4, &mut output).is_err());
    assert!(sample_to_annex_b(&[0, 0, 0, 0, 1, 0x41], 5, &mut output).is_err());
}

#[test]
fn rgb_pictures_become_jpeg_streams() {
    let rgb = vec![200u8; 16 * 8 * 3];

    let image = rgb_to_jpeg(&rgb, 16, 8, JpegQuality::default()).expect("picture encodes");

    assert_eq!((image.width, image.height), (16, 8));
    assert_eq!(&image.data[..2], &[0xff, 0xd8]);
    assert_eq!(&image.data[image.data.len() - 2..], &[0xff, 0xd9]);
    let again = rgb_to_jpeg(&rgb, 16, 8, JpegQuality::default()).expect("picture encodes");
    assert_eq!(image, again);
}

#[test]
fn pictures_that_jpeg_cannot_hold_are_rejected() {
    let quality = JpegQuality::default();

    assert_eq!(
        rgb_to_jpeg(&[], 65_536, 1, quality),
        Err("frame width exceeds JPEG limits".to_string())
    );
    assert_eq!(
        rgb_to_jpeg(&[], 1, 65_536, quality),
        Err("frame height exceeds JPEG limits".to_string())
    );
    assert_eq!(
        rgb_to_jpeg(&[0; 5], 1, 2, quality),
        Err("Image data too small for dimensions and color_type: 5 need at least 6".to_string())
    );
    assert_eq!(
        rgb_to_jpeg(&[], 0, 2, quality),
        Err("Image dimensions must be non zero: 0x2".to_string())
    );
}

#[test]
fn streams_beyond_the_image_limit_are_rejected() {
    assert_eq!(
        image_of_stream(&[1, 2, 3], 4, 5),
        Ok(DecodedImage {
            width: 4,
            height: 5,
            data: vec![1, 2, 3],
        })
    );
    assert_eq!(
        image_of_stream(&vec![0; MAX_DECODED_IMAGE_BYTES + 1], 4, 5),
        Err("JPEG output is too large".to_string())
    );
}

#[test]
fn pictures_are_scaled_only_where_they_exceed_the_bounds() {
    let size = ThumbnailSize::new(64, 64).expect("bounds are valid");

    assert_eq!(
        plan_picture(64, 48, size),
        Ok(PicturePlan {
            width: 64,
            height: 48,
            scaled: false,
        })
    );
    assert_eq!(
        plan_picture(128, 64, size),
        Ok(PicturePlan {
            width: 64,
            height: 32,
            scaled: true,
        })
    );
}

#[test]
fn unsound_decode_requests_are_rejected() {
    assert!(check_request(3, &[0, 2], &[1, 1]).is_ok());
    assert!(check_request(0, &[0], &[1]).is_err());
    assert!(check_request(3, &[0, 2], &[1]).is_err());
    assert!(check_request(3, &[0, 3], &[1, 1]).is_err());
}

/// A NAL unit without its start code.
fn unit_body(unit: &[u8]) -> Vec<u8> {
    let zeros = unit.iter().take_while(|byte| **byte == 0).count();
    unit[zeros + 1..].to_vec()
}

/// A grey clip of `count` pictures as length-prefixed samples.
fn encoded_clip(width: usize, height: usize, count: usize) -> (AvcConfig, Vec<Vec<u8>>) {
    let mut encoder = Encoder::with_api_config(
        OpenH264API::from_source(),
        EncoderConfig::new().skip_frames(false),
    )
    .expect("encoder opens");
    let mut config = AvcConfig {
        length_size: 4,
        sps: Vec::new(),
        pps: Vec::new(),
    };
    let mut samples = Vec::new();
    for index in 0..count {
        let mut yuv = vec![(60 + 40 * index) as u8; width * height];
        yuv.extend(vec![128u8; width * height / 2]);
        let source = YUVBuffer::from_vec(yuv, width, height);
        let stream = encoder.encode(&source).expect("picture encodes").to_vec();
        let mut sample = Vec::new();
        for unit in openh264::nal_units(&stream) {
            let body = unit_body(unit);
            match body[0] & 31 {
                7 => config.sps.push(body),
                8 => config.pps.push(body),
                _ => {
                    sample.extend((body.len() as u32).to_be_bytes());
                    sample.extend(body);
                }
            }
        }
        samples.push(sample);
    }
    (config, samples)
}

/// The JPEG stream of a picture of 64 by 48 pixels of one brightness.
fn grey_jpeg(level: u8) -> Vec<u8> {
    rgb_to_jpeg(&[level; 64 * 48 * 3], 64, 48, JpegQuality::default())
        .expect("picture encodes")
        .data
}

#[test]
fn wanted_pictures_of_a_group_come_out_in_order() {
    let (config, samples) = encoded_clip(64, 48, 3);
    let mut budget = OutputBudget::new(None);

    let images = decode_frames_to_jpeg(
        &config,
        &samples,
        &[2, 0, 1],
        &[1, 1, 1],
        JpegQuality::default(),
        ThumbnailSize::default(),
        &mut budget,
        |_, _, _| Err("pictures fit the bounds".to_string()),
    )
    .expect("group decodes");

    let levels: Vec<u8> = images
        .iter()
        .map(|image| {
            (0..=255)
                .find(|level| grey_jpeg(*level) == image.data)
                .expect("picture is of one brightness")
        })
        .collect();
    assert!(levels[1] < levels[2]);
    assert!(levels[2] < levels[0]);
}

#[test]
fn the_group_is_fed_as_it_stands() {
    let (config, samples) = encoded_clip(64, 48, 3);
    let first_two = samples[..2].to_vec();
    let mut budget = OutputBudget::new(None);
    let mut decode = |samples: &[Vec<u8>]| {
        decode_frames_to_jpeg(
            &config,
            samples,
            &[0, 1],
            &[1, 1],
            JpegQuality::default(),
            ThumbnailSize::default(),
            &mut budget,
            |_, _, _| Err("pictures fit the bounds".to_string()),
        )
        .expect("group decodes")
    };

    assert_eq!(decode(&first_two), decode(&samples));
}

#[test]
fn pictures_beyond_the_bounds_are_scaled_from_their_planes() {
    let (config, samples) = encoded_clip(64, 48, 1);
    let size = ThumbnailSize::new(16, 16).expect("bounds are valid");
    let mut budget = OutputBudget::new(None);

    let images = decode_frames_to_jpeg(
        &config,
        &samples,
        &[0],
        &[1],
        JpegQuality::default(),
        size,
        &mut budget,
        |planes, width, height| {
            assert_eq!((planes.width, planes.height), (64, 48));
            assert!(planes.y[..64].iter().all(|luma| (50..70).contains(luma)));
            assert!(planes.u[..32].iter().all(|colour| (118..138).contains(colour)));
            assert!(planes.v[..32].iter().all(|colour| (118..138).contains(colour)));
            validate_scaled_rgb(&planes, 16 * 12 * 3, width as usize, height as usize)?;
            Ok(vec![planes.y[0]; 16 * 12 * 3])
        },
    )
    .expect("group decodes");

    assert_eq!((images[0].width, images[0].height), (16, 12));
}

#[test]
fn a_group_is_decoded_into_one_image_for_each_output() {
    let (config, samples) = encoded_clip(64, 48, 3);
    let mut budget = OutputBudget::new(Some(1_000_000));

    let images = decode_frames_to_jpeg(
        &config,
        &samples,
        &[2, 0, 2],
        &[1, 2, 1],
        JpegQuality::default(),
        ThumbnailSize::default(),
        &mut budget,
        |_, _, _| Err("pictures fit the bounds".to_string()),
    )
    .expect("group decodes");

    assert_eq!(images.len(), 3);
    assert_eq!(images[0], images[2]);
    assert_ne!(images[0], images[1]);
    assert_eq!((images[0].width, images[0].height), (64, 48));
    assert_eq!(images[0].data[..2], [0xff, 0xd8]);
    assert_eq!(
        budget.used(),
        2 * images[0].data.len() + 2 * images[1].data.len()
    );
}

#[test]
fn larger_pictures_are_scaled_before_they_are_encoded() {
    let (config, samples) = encoded_clip(64, 48, 1);
    let size = ThumbnailSize::new(16, 16).expect("bounds are valid");
    let quality = JpegQuality::default();
    let mut budget = OutputBudget::new(None);

    let images = decode_frames_to_jpeg(
        &config,
        &samples,
        &[0],
        &[1],
        quality,
        size,
        &mut budget,
        |planes, width, height| {
            assert_eq!((planes.width, planes.height), (64, 48));
            assert_eq!((width, height), (16, 12));
            Ok(vec![7; 16 * 12 * 3])
        },
    );

    assert_eq!(
        images.map(|mut images| images.remove(0)),
        rgb_to_jpeg(&[7; 16 * 12 * 3], 16, 12, quality)
    );
    assert_eq!(
        decode_frames_to_jpeg(
            &config,
            &samples,
            &[0],
            &[1],
            quality,
            size,
            &mut budget,
            |_, _, _| Err("no scaler".to_string()),
        ),
        Err("no scaler".to_string())
    );
}

#[test]
fn a_group_that_exceeds_the_budget_is_refused() {
    let (config, samples) = encoded_clip(64, 48, 1);
    let mut budget = OutputBudget::new(Some(10));

    assert_eq!(
        decode_frames_to_jpeg(
            &config,
            &samples,
            &[0],
            &[1],
            JpegQuality::default(),
            ThumbnailSize::default(),
            &mut budget,
            |_, _, _| Ok(Vec::new()),
        ),
        Err("thumbnail payload is too large".to_string())
    );
    assert_eq!(budget.used(), 0);
    assert_eq!(
        decode_frames_to_jpeg(
            &config,
            &[],
            &[],
            &[],
            JpegQuality::default(),
            ThumbnailSize::default(),
            &mut budget,
            |_, _, _| Ok(Vec::new()),
        ),
        Err("no H.264 samples to decode".to_string())
    );
}

/// A picture of two by two pixels.
fn small_picture(rgb: &[u8]) -> DecodedPicture {
    DecodedPicture {
        planes: picture((2, 2), (2, 1, 1), &[0; 4], &[0], &[0]),
        rgb: rgb.to_vec(),
    }
}

#[test]
fn scaled_pixels_must_fill_the_picture() {
    let size = ThumbnailSize::new(1, 1).expect("bounds are valid");

    assert_eq!(
        picture_to_jpeg(
            small_picture(&[7; 12]),
            JpegQuality::default(),
            size,
            &|_, _, _| Ok(vec![1, 2])
        ),
        Err("Image data too small for dimensions and color_type: 2 need at least 3".to_string())
    );
}

#[test]
fn pictures_inside_the_bounds_keep_their_pixels() {
    let quality = JpegQuality::default();
    let pixels = [1, 2, 3, 4, 5, 6, 7, 8, 9, 10, 11, 12];

    assert_eq!(
        picture_to_jpeg(
            small_picture(&pixels),
            quality,
            ThumbnailSize::default(),
            &|_, _, _| Err("pictures fit the bounds".to_string())
        ),
        rgb_to_jpeg(&pixels, 2, 2, quality)
    );
    assert_eq!(
        picture_to_jpeg(
            small_picture(&pixels[..11]),
            quality,
            ThumbnailSize::default(),
            &|_, _, _| Ok(Vec::new())
        ),
        Err("Image data too small for dimensions and color_type: 11 need at least 12".to_string())
    );
}

#[test]
fn pictures_without_a_size_are_not_put_out() {
    let mut empty = small_picture(&[]);
    empty.planes.width = 0;

    assert_eq!(
        picture_to_jpeg(
            empty,
            JpegQuality::default(),
            ThumbnailSize::default(),
            &|_, _, _| Ok(Vec::new())
        ),
        Err("decoded frame has zero dimensions".to_string())
    );
}

/// What becomes of a group that wants its first picture.
fn first_of(config: &AvcConfig, samples: &[Vec<u8>]) -> Result<Vec<DecodedImage>, String> {
    decode_frames_to_jpeg(
        config,
        samples,
        &[0],
        &[1],
        JpegQuality::default(),
        ThumbnailSize::default(),
        &mut OutputBudget::new(None),
        |_, _, _| Err("pictures fit the bounds".to_string()),
    )
}

#[test]
fn samples_that_cannot_be_rewritten_end_the_decoding() {
    let (config, mut samples) = encoded_clip(64, 48, 1);
    samples.push(vec![0, 0, 0, 9, 0x41]);

    assert_eq!(
        first_of(&config, &samples),
        Err("truncated NAL payload".to_string())
    );
}

#[test]
fn decoder_errors_are_reported_in_its_own_words() {
    let (config, _) = encoded_clip(64, 48, 1);
    let samples = vec![vec![0, 0, 0, 4, 0x65, 0xff, 0xff, 0xff]];

    let text = first_of(&config, &samples).expect_err("decoder refuses the slice");
    assert!(text.starts_with("OpenH264 encountered an error. Native:"));
}

#[test]
fn groups_without_parameter_sets_do_not_start() {
    let (_, samples) = encoded_clip(64, 48, 1);
    let config = AvcConfig {
        length_size: 4,
        sps: Vec::new(),
        pps: Vec::new(),
    };

    assert_eq!(
        first_of(&config, &samples),
        Err("avcC contains no SPS/PPS parameter sets".to_string())
    );
}

#[test]
fn groups_that_lack_pictures_are_reported() {
    let progress = GopProgress::new(1, &[0], &[1]).expect("request is sound");

    assert_eq!(
        progress.finish(),
        Err("OpenH264 produced 0 frames for 1 samples".to_string())
    );
}

#[test]
fn each_picture_is_stored_where_it_is_wanted() {
    let quality = JpegQuality::default();
    let size = ThumbnailSize::default();
    let scale = |_: I420Picture, _: u32, _: u32| Err("pictures fit the bounds".to_string());
    let expected = |level: u8| rgb_to_jpeg(&[level; 12], 2, 2, quality).expect("picture encodes");
    let mut budget = OutputBudget::new(Some(1_000_000));
    let mut progress = GopProgress::new(3, &[2, 1, 2], &[1, 2, 1]).expect("request is sound");

    for level in [40, 90, 140] {
        store_selected_frame(
            &mut progress,
            small_picture(&[level; 12]),
            quality,
            size,
            &mut budget,
            &scale,
        )
        .expect("picture is counted");
        if level == 40 {
            assert_eq!(budget.used(), 0);
        }
    }

    assert_eq!(
        budget.used(),
        2 * expected(90).data.len() + 2 * expected(140).data.len()
    );
    assert_eq!(
        progress.finish(),
        Ok(vec![expected(140), expected(90), expected(140)])
    );
}

#[test]
fn pictures_that_exceed_the_budget_are_not_stored() {
    let quality = JpegQuality::default();
    let len = rgb_to_jpeg(&[40; 12], 2, 2, quality)
        .expect("picture encodes")
        .data
        .len();
    let mut budget = OutputBudget::new(Some(2 * len - 1));
    let mut progress = GopProgress::new(1, &[0, 0], &[1, 1]).expect("request is sound");

    assert_eq!(
        store_selected_frame(
            &mut progress,
            small_picture(&[40; 12]),
            quality,
            ThumbnailSize::default(),
            &mut budget,
            &|_, _, _| Ok(Vec::new()),
        ),
        Err("thumbnail payload is too large".to_string())
    );
    assert_eq!(budget.used(), 0);
    assert_eq!(
        progress.finish(),
        Err("OpenH264 produced 0 frames for 1 samples".to_string())
    );
}

#[test]
fn outputs_that_cannot_be_counted_are_refused() {
    let mut budget = OutputBudget::new(None);
    let mut progress =
        GopProgress::new(1, &[0, 0], &[usize::MAX, 1]).expect("request is sound");

    assert_eq!(
        store_selected_frame(
            &mut progress,
            small_picture(&[40; 12]),
            JpegQuality::default(),
            ThumbnailSize::default(),
            &mut budget,
            &|_, _, _| Ok(Vec::new()),
        ),
        Err("thumbnail output count overflow".to_string())
    );
}
