//! The boxes of a movie: headers, covers, video tracks and their samples.

use media_parser::errors::MediaParserError;
use media_parser::h264::config::DecodedImage;
use media_parser::mp4::avc::{parse_avc_config, parse_avc_descriptions};
use media_parser::mp4::chunks::{sample_description_index, validate_sample_tables};
use media_parser::mp4::cover::parse_cover_art;
use media_parser::mp4::headers::{
    moov_search_step, parse_hdlr, parse_mdhd, parse_moov_payload, parse_tkhd,
    track_presentation_offset, MoovSearch, TrackHeader,
};
use media_parser::mp4::sample_io::{
    plan_sample_reads, SampleReadBudget, SampleReadError, SampleReadLimits,
};
use media_parser::mp4::sample_reads::{
    batch_fault, collect_samples, distinct_samples, take_apart, SplitFault,
};
use media_parser::mp4::samples::{
    nearest_sync_sample, next_sync_sample, parse_chunk_offsets, parse_sample_sizes, parse_stss,
    sample_size, SampleSizes, StscEntry,
};
use media_parser::mp4::thumbnails::{
    avc_config_for_range, check_output_count, check_timestamp, find_video_track, finish_frame,
    keyframe_plan, parse_video_sample_tables, plan_frame, track_not_found,
};
use media_parser::mp4::timing::PresentationTimeline;
use media_parser::time::Duration;
use media_parser::types::PixelFormat;

fn mp4_box(fourcc: &[u8; 4], payload: &[u8]) -> Vec<u8> {
    let size = u32::try_from(payload.len() + 8).expect("box fits");
    [size.to_be_bytes().as_slice(), fourcc.as_slice(), payload].concat()
}

fn full_box(fourcc: &[u8; 4], body: &[u8]) -> Vec<u8> {
    mp4_box(fourcc, &[&[0, 0, 0, 0], body].concat())
}

fn words(values: &[u32]) -> Vec<u8> {
    values
        .iter()
        .flat_map(|value| value.to_be_bytes())
        .collect()
}

fn tkhd(id: u32) -> Vec<u8> {
    full_box(b"tkhd", &words(&[0, 0, id, 0, 4_000]))
}

fn mdia(handler: &[u8; 4], stbl: &[u8]) -> Vec<u8> {
    let mdhd = full_box(
        b"mdhd",
        &[words(&[0, 0, 1_000, 4_000]), vec![0x15, 0xc7, 0, 0]].concat(),
    );
    let hdlr = full_box(b"hdlr", &[words(&[0]), handler.to_vec()].concat());
    let minf = mp4_box(b"minf", &mp4_box(b"stbl", stbl));
    mp4_box(b"mdia", &[mdhd, hdlr, minf].concat())
}

fn avc_entry() -> Vec<u8> {
    let avcc = mp4_box(
        b"avcC",
        &[
            1, 66, 0, 30, 0xff, 0xe1, 0, 2, 0x67, 7, 1, 0, 1, 0x68,
        ],
    );
    [vec![0; 78], avcc].concat()
}

/// Four samples of one second in two chunks; the first and the third are sync
/// samples.
fn video_stbl() -> Vec<u8> {
    let entry = mp4_box(b"avc1", &avc_entry());
    [
        full_box(b"stsd", &[words(&[1]), entry].concat()),
        full_box(b"stts", &words(&[1, 4, 1_000])),
        full_box(b"stsc", &words(&[1, 1, 2, 1])),
        full_box(b"stsz", &words(&[0, 4, 10, 20, 30, 40])),
        full_box(b"stco", &words(&[2, 100, 200])),
        full_box(b"stss", &words(&[2, 1, 3])),
    ]
    .concat()
}

fn moov_payload() -> Vec<u8> {
    let audio = mp4_box(b"trak", &[tkhd(1), mdia(b"soun", &[])].concat());
    let video = mp4_box(b"trak", &[tkhd(2), mdia(b"vide", &video_stbl())].concat());
    [audio, video].concat()
}

#[test]
fn track_headers_are_read_in_both_versions() {
    let mut version_1 = vec![1, 0, 0, 1];
    version_1.extend(words(&[0, 0, 0, 0, 7, 0, 1, 2]));

    assert_eq!(
        parse_tkhd(&version_1),
        Some(TrackHeader {
            id: 7,
            track_enabled: true,
            duration: 0x1_0000_0002,
        })
    );
    assert_eq!(
        parse_tkhd(&tkhd(9)[8..]),
        Some(TrackHeader {
            id: 9,
            track_enabled: false,
            duration: 4_000,
        })
    );
    assert_eq!(parse_tkhd(&tkhd(9)[8..31]), None);
    assert_eq!(parse_tkhd(&[2; 40]), None);
}

#[test]
fn media_headers_name_a_language() {
    let mut mdhd = vec![0; 4];
    mdhd.extend(words(&[0, 0, 1_000, 5_000]));
    mdhd.extend([0x15, 0xc7, 0, 0]);

    let header = parse_mdhd(&mdhd).expect("header is whole");

    assert_eq!((header.timescale, header.duration), (1_000, 5_000));
    assert_eq!(header.language.as_ref().map(|code| code.as_slice()), Some(b"eng".as_slice()));
    mdhd[20..22].copy_from_slice(&[0, 0]);
    assert!(parse_mdhd(&mdhd).expect("header is whole").language.is_none());
    assert!(parse_mdhd(&mdhd[..21]).is_none());
}

#[test]
fn handlers_are_four_bytes() {
    assert_eq!(parse_hdlr(b"\0\0\0\0\0\0\0\0vide"), Some(*b"vide"));
    assert_eq!(parse_hdlr(b"\0\0\0\0\0\0\0\0vid"), None);
}

#[test]
fn edit_lists_shift_the_presentation() {
    let elst = full_box(b"elst", &words(&[1, 4_000, 500, 0x1_0000]));
    let trak = mp4_box(b"edts", &elst);

    assert_eq!(track_presentation_offset(&trak), 500);
    assert_eq!(track_presentation_offset(&[]), 0);
}

#[test]
fn movie_boxes_are_searched_from_box_to_box() {
    let header = mp4_box(b"ftyp", b"isom");
    assert_eq!(
        moov_search_step(&header, 0, 100),
        MoovSearch::Continue { offset: 12 }
    );
    assert_eq!(
        moov_search_step(&mp4_box(b"moov", &[0; 8]), 12, 28),
        MoovSearch::Found {
            offset: 12,
            size: 16,
        }
    );
    assert_eq!(
        moov_search_step(&mp4_box(b"moov", &[0; 8]), 12, 27),
        MoovSearch::Missing
    );
    assert_eq!(moov_search_step(&[], 100, 100), MoovSearch::Missing);
}

#[test]
fn movie_payloads_come_without_their_header() {
    let moov = mp4_box(b"moov", b"abc");

    assert_eq!(parse_moov_payload(&moov).expect("box is whole"), b"abc");
    assert!(matches!(
        parse_moov_payload(&moov[..7]),
        Err(MediaParserError::InvalidFormat(_))
    ));
}

#[test]
fn parameter_sets_are_read_from_the_configuration() {
    let config = parse_avc_config(&avc_entry()).expect("configuration is whole");

    assert_eq!(config.length_size, 4);
    assert_eq!(config.sps, vec![vec![0x67, 7]]);
    assert_eq!(config.pps, vec![vec![0x68]]);
    assert!(parse_avc_config(&avc_entry()[..80]).is_none());
}

#[test]
fn descriptions_of_other_codecs_have_no_configuration() {
    let stsd = [
        words(&[0, 2]),
        mp4_box(b"avc1", &avc_entry()),
        mp4_box(b"hvc1", &[0; 78]),
    ]
    .concat();

    let configs = parse_avc_descriptions(&stsd).expect("entries are whole");

    assert_eq!(configs.len(), 2);
    assert!(configs[0].is_some());
    assert!(configs[1].is_none());
}

fn moov_with_cover(kind: u32, image: &[u8]) -> Vec<u8> {
    let data = mp4_box(b"data", &[words(&[kind, 0]), image.to_vec()].concat());
    let ilst = mp4_box(b"ilst", &mp4_box(b"covr", &data));
    mp4_box(b"udta", &full_box(b"meta", &ilst))
}

#[test]
fn covers_have_the_format_that_they_declare_or_show() {
    let jpeg = parse_cover_art(&moov_with_cover(13, &[1, 2, 3])).expect("cover is there");
    assert_eq!((jpeg.format, jpeg.mime_type.as_str()), (PixelFormat::Jpeg, "image/jpeg"));
    assert_eq!(jpeg.data, vec![1, 2, 3]);

    let png = parse_cover_art(&moov_with_cover(14, &[1])).expect("cover is there");
    assert_eq!(png.format, PixelFormat::Png);

    let shown =
        parse_cover_art(&moov_with_cover(0, &[0xff, 0xd8, 0xff, 0xe0])).expect("cover is there");
    assert_eq!(shown.format, PixelFormat::Jpeg);

    assert!(parse_cover_art(&moov_with_cover(0, &[1, 2, 3])).is_none());
    assert!(parse_cover_art(&moov_with_cover(13, &[])).is_none());
    assert!(parse_cover_art(&[]).is_none());
}

#[test]
fn the_first_video_track_is_found() {
    let moov = moov_payload();

    let any = find_video_track(&moov, 0)
        .expect("tracks are sound")
        .expect("there is a video track");
    assert_eq!((any.id, any.timescale, any.duration), (2, 1_000, 4_000));
    assert!(find_video_track(&moov, 2).expect("tracks are sound").is_some());
    assert!(find_video_track(&moov, 1).expect("tracks are sound").is_none());
    assert!(matches!(
        track_not_found(0),
        MediaParserError::TrackNotFound(1)
    ));
    assert!(matches!(
        track_not_found(5),
        MediaParserError::TrackNotFound(5)
    ));
}

#[test]
fn timestamps_behind_a_track_are_rejected() {
    let moov = moov_payload();
    let track = find_video_track(&moov, 0)
        .expect("tracks are sound")
        .expect("there is a video track");

    assert!(check_timestamp(&track, Duration::from_millis(3_999)).is_ok());
    let error = check_timestamp(&track, Duration::from_secs(4)).expect_err("track has ended");
    assert_eq!(
        error.message(),
        "Invalid format: thumbnail timestamp 4s is outside the video track duration"
    );
}

#[test]
fn thumbnails_are_decoded_from_the_sync_sample_before_them() {
    let moov = moov_payload();
    let track = find_video_track(&moov, 0)
        .expect("tracks are sound")
        .expect("there is a video track");
    let tables = parse_video_sample_tables(track.stbl).expect("tables agree");
    let timeline = PresentationTimeline::new(
        tables.stts,
        tables.composition_offsets.as_deref(),
        track.presentation_offset,
        tables.sizes.sample_count,
    )
    .expect("timeline is sound");

    let plan = plan_frame(&track, &tables, &timeline, Duration::from_millis(3_200))
        .expect("a sample is on display");
    assert_eq!(plan.selection.sample_index, 4);
    assert_eq!((plan.sync_sample, plan.end_sample), (3, 4));
    assert_eq!(plan.output_index, 1);

    let keyframe = keyframe_plan(&plan, &timeline).expect("sync sample is timed");
    assert_eq!((keyframe.sync_sample, keyframe.end_sample), (3, 3));
    assert_eq!(keyframe.selection.presentation_tick, 2_000);
    assert_eq!(keyframe.output_index, 0);

    let frame = finish_frame(
        &track,
        &plan,
        DecodedImage {
            width: 4,
            height: 2,
            data: vec![9],
        },
    );
    assert_eq!((frame.track_id, frame.width, frame.height), (2, 4, 2));
    assert_eq!(frame.timestamp, Duration::from_secs(3));
    assert_eq!((frame.format, frame.data), (PixelFormat::Jpeg, vec![9]));
}

#[test]
fn tables_that_disagree_are_rejected() {
    let (sizes, stsc, offsets) = tables();
    let stts = [words(&[0, 1, 4, 1_000])].concat();
    let short = [words(&[0, 1, 3, 1_000])].concat();

    assert!(validate_sample_tables(&stts, None, &sizes, &stsc, &offsets, None, 1).is_some());
    assert!(validate_sample_tables(&short, None, &sizes, &stsc, &offsets, None, 1).is_none());
    assert!(validate_sample_tables(&stts, None, &sizes, &stsc, &offsets[..1], None, 1).is_none());
    assert!(
        validate_sample_tables(&stts, None, &sizes, &stsc, &offsets, Some(&[2, 3]), 1).is_none()
    );
    assert!(validate_sample_tables(&stts, None, &sizes, &stsc, &offsets, None, 0).is_none());
}

#[test]
fn sample_tables_are_read() {
    let stbl = video_stbl();
    let sizes = parse_sample_sizes(&words(&[0, 0, 2, 5, 6])).expect("table is whole");

    assert_eq!((sample_size(1, &sizes), sample_size(2, &sizes)), (Some(5), Some(6)));
    assert_eq!(sample_size(3, &sizes), None);
    assert_eq!(parse_chunk_offsets(&stbl), Some(vec![100, 200]));
    assert_eq!(parse_stss(&words(&[0, 2, 1, 3])), Some(vec![1, 3]));
    assert_eq!(parse_stss(&words(&[0, 2, 1])), None);
}

#[test]
fn sync_samples_surround_a_sample() {
    assert_eq!(nearest_sync_sample(4, Some(&[1, 3, 6])), 3);
    assert_eq!(next_sync_sample(4, Some(&[1, 3, 6]), 8), Some(6));
    assert_eq!(next_sync_sample(6, Some(&[1, 3, 6]), 8), None);
    assert_eq!(nearest_sync_sample(4, None), 4);
    assert_eq!(next_sync_sample(4, None, 8), Some(5));
}

/// Four samples of 10 to 40 bytes in two chunks.
fn tables() -> (SampleSizes, Vec<StscEntry>, Vec<u64>) {
    (
        SampleSizes::variable(vec![10, 20, 30, 40]).expect("table is short"),
        vec![StscEntry {
            first_chunk: 1,
            samples_per_chunk: 2,
            sample_description_index: 1,
        }],
        vec![100, 200],
    )
}

fn limits() -> SampleReadLimits {
    SampleReadLimits {
        max_samples: 4,
        max_sample_bytes: 40,
        max_logical_bytes: 100,
        max_physical_bytes: 200,
        max_regions: 2,
        max_region_bytes: 200,
        max_coalesce_gap_bytes: 10,
    }
}

#[test]
fn sample_reads_are_planned_and_charged() {
    let (sizes, stsc, offsets) = tables();
    let mut used = SampleReadBudget::default();

    let batches = plan_sample_reads(&[1, 2, 3, 4], &sizes, &stsc, &offsets, limits(), &mut used)
        .expect("samples fit the limits");

    assert_eq!(batches.len(), 2);
    assert_eq!((batches[0].offset, batches[0].size), (100, 30));
    assert_eq!((batches[1].offset, batches[1].size), (200, 70));
    assert_eq!(
        used,
        SampleReadBudget {
            samples: 4,
            logical_bytes: 100,
            physical_bytes: 100,
            regions: 2,
        }
    );
    assert_eq!(sample_description_index(3, &sizes, &stsc, &offsets), Some(1));
}

#[test]
fn sample_reads_beyond_a_limit_end_the_request() {
    let (sizes, stsc, offsets) = tables();
    for limits in [
        SampleReadLimits {
            max_samples: 3,
            ..limits()
        },
        SampleReadLimits {
            max_logical_bytes: 99,
            ..limits()
        },
        SampleReadLimits {
            max_physical_bytes: 99,
            ..limits()
        },
        SampleReadLimits {
            max_regions: 1,
            ..limits()
        },
    ] {
        let mut used = SampleReadBudget::default();
        let error = plan_sample_reads(&[1, 2, 3, 4], &sizes, &stsc, &offsets, limits, &mut used)
            .expect_err("a limit is exceeded");
        assert!(matches!(error, SampleReadError::Fatal(_)));
        assert_eq!(used, SampleReadBudget::default());
    }
}

#[test]
fn oversized_samples_reject_their_track() {
    let (sizes, stsc, offsets) = tables();
    let mut used = SampleReadBudget::default();
    let limits = SampleReadLimits {
        max_sample_bytes: 39,
        ..limits()
    };

    let error = plan_sample_reads(&[4], &sizes, &stsc, &offsets, limits, &mut used)
        .expect_err("the sample is too large");

    assert!(matches!(
        error,
        SampleReadError::Track(error) if error.message().contains("invalid sample size: 40 bytes")
    ));
}

#[test]
fn batches_are_split_into_their_samples() {
    let (sizes, stsc, offsets) = tables();
    let mut used = SampleReadBudget::default();
    let batches = plan_sample_reads(&[2, 1], &sizes, &stsc, &offsets, limits(), &mut used)
        .expect("samples fit the limits");
    let data: Vec<u8> = (0..30).collect();

    assert_eq!(batch_fault(&batches[0], &data), None);
    let parts = take_apart(&batches[0], &data).expect("memory is granted");
    let samples = collect_samples(vec![parts]).expect("memory is granted");

    assert_eq!(samples[&1], (0..10).collect::<Vec<u8>>());
    assert_eq!(samples[&2], (10..30).collect::<Vec<u8>>());
    assert_eq!(
        batch_fault(&batches[0], &data[..29]),
        Some(SplitFault::Truncated)
    );
}

#[test]
fn samples_are_wanted_once_in_order() {
    assert_eq!(distinct_samples(&[3, 1, 3, 2]), vec![1, 2, 3]);
}

#[test]
fn test_mp4_covr_cover_extraction() {
    let image = [0xff, 0xd8, 0xff, 0xe0, 1, 2, 3, 0xff, 0xd9];
    let mut data_payload = Vec::new();
    data_payload.extend_from_slice(&13u32.to_be_bytes());
    data_payload.extend_from_slice(&0u32.to_be_bytes());
    data_payload.extend_from_slice(&image);

    let data = mp4_box(b"data", &data_payload);
    let covr = mp4_box(b"covr", &data);
    let ilst = mp4_box(b"ilst", &covr);
    let mut meta_payload = vec![0, 0, 0, 0];
    meta_payload.extend_from_slice(&ilst);
    let meta = mp4_box(b"meta", &meta_payload);
    let udta = mp4_box(b"udta", &meta);
    let moov = mp4_box(b"moov", &udta);

    let payload = parse_moov_payload(&moov).expect("box is whole");
    let cover = parse_cover_art(payload).expect("cover should exist");

    assert_eq!(cover.format, PixelFormat::Jpeg);
    assert_eq!(cover.mime_type, "image/jpeg");
    assert_eq!(cover.data, image);
}

#[test]
fn test_mp4_thumbnail_batch_rejects_too_many_outputs() {
    let error =
        check_output_count(4_097).expect_err("an unbounded output batch must be rejected");

    assert!(matches!(error, MediaParserError::InvalidFormat(_)));
    assert!(check_output_count(4_096).is_ok());
}

#[test]
fn test_mp4_thumbnail_rejects_non_h264_video() {
    let mut tkhd = vec![0; 84];
    tkhd[12..16].copy_from_slice(&1u32.to_be_bytes());
    let mut mdhd = vec![0; 24];
    mdhd[12..16].copy_from_slice(&1_000u32.to_be_bytes());
    mdhd[16..20].copy_from_slice(&1_000u32.to_be_bytes());
    let mut hdlr = vec![0; 12];
    hdlr[8..12].copy_from_slice(b"vide");

    let mut stsd = vec![0; 8];
    stsd[4..8].copy_from_slice(&1u32.to_be_bytes());
    stsd.extend(mp4_box(b"mp4v", &[0; 78]));
    let mut stts = vec![0; 8];
    stts[4..8].copy_from_slice(&1u32.to_be_bytes());
    stts.extend_from_slice(&1u32.to_be_bytes());
    stts.extend_from_slice(&1_000u32.to_be_bytes());
    let mut stsz = vec![0; 12];
    stsz[4..8].copy_from_slice(&4u32.to_be_bytes());
    stsz[8..12].copy_from_slice(&1u32.to_be_bytes());
    let mut stsc = vec![0; 8];
    stsc[4..8].copy_from_slice(&1u32.to_be_bytes());
    stsc.extend_from_slice(&1u32.to_be_bytes());
    stsc.extend_from_slice(&1u32.to_be_bytes());
    stsc.extend_from_slice(&1u32.to_be_bytes());
    let mut stco = vec![0; 8];
    stco[4..8].copy_from_slice(&1u32.to_be_bytes());
    stco.extend_from_slice(&0u32.to_be_bytes());

    let stbl = mp4_box(
        b"stbl",
        &[
            mp4_box(b"stsd", &stsd),
            mp4_box(b"stts", &stts),
            mp4_box(b"stsz", &stsz),
            mp4_box(b"stsc", &stsc),
            mp4_box(b"stco", &stco),
        ]
        .concat(),
    );
    let minf = mp4_box(b"minf", &stbl);
    let mdia = mp4_box(
        b"mdia",
        &[mp4_box(b"mdhd", &mdhd), mp4_box(b"hdlr", &hdlr), minf].concat(),
    );
    let trak = mp4_box(b"trak", &[mp4_box(b"tkhd", &tkhd), mdia].concat());

    let track = find_video_track(&trak, 0)
        .expect("tracks are sound")
        .expect("there is a video track");
    let tables = parse_video_sample_tables(track.stbl).expect("tables agree");
    let timeline = PresentationTimeline::new(
        tables.stts,
        tables.composition_offsets.as_deref(),
        track.presentation_offset,
        tables.sizes.sample_count,
    )
    .expect("timeline is sound");
    let plan = plan_frame(&track, &tables, &timeline, Duration::zero())
        .expect("a sample is on display");
    let error = avc_config_for_range(&tables, plan.sync_sample, plan.end_sample)
        .expect_err("non-H.264 video should not produce a thumbnail");

    assert!(matches!(error, MediaParserError::UnsupportedCodec(_)));
}
