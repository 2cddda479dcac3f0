//! Choosing the samples of thumbnails.

use media_parser::errors::MediaParserError;
use media_parser::h264::config::{AvcConfig, DecodedImage};
use media_parser::mp4::headers::parse_elst_media_time;
use media_parser::mp4::samples::{SampleSizes, StscEntry};
use media_parser::mp4::thumbnail_groups::{
    check_timestamps, group_frames, place_frames, plan_frames, wanted_samples, GroupPlan,
};
use media_parser::mp4::thumbnails::{avc_config_for_range, VideoSampleTables, VideoTrack};
use media_parser::mp4::timing::{CompositionOffset, PresentationTimeline};
use media_parser::time::Duration;

#[test]
fn uses_the_stsc_selected_sample_description() {
    let stts = [0; 16];
    let tables = VideoSampleTables {
        stts: &stts,
        composition_offsets: None,
        sizes: SampleSizes {
            fixed_size: 1,
            sizes: Vec::new(),
            sample_count: 1,
        },
        stsc: vec![StscEntry {
            first_chunk: 1,
            samples_per_chunk: 1,
            sample_description_index: 2,
        }],
        chunk_offsets: vec![0],
        sync_samples: None,
        avc_configs: vec![
            Some(AvcConfig {
                length_size: 4,
                sps: vec![vec![1]],
                pps: vec![vec![2]],
            }),
            None,
        ],
    };

    let error = avc_config_for_range(&tables, 1, 1)
        .expect_err("description 2 is not AVC and must not reuse description 1");

    assert!(matches!(error, MediaParserError::UnsupportedCodec(_)));
}

#[test]
fn rejects_empty_and_multi_segment_edit_lists() {
    let mut empty_edit = vec![0, 0, 0, 0];
    empty_edit.extend_from_slice(&1u32.to_be_bytes());
    empty_edit.extend_from_slice(&1_000u32.to_be_bytes());
    empty_edit.extend_from_slice(&(-1i32).to_be_bytes());
    empty_edit.extend_from_slice(&0x0001_0000u32.to_be_bytes());

    let mut multiple_edits = vec![0, 0, 0, 0];
    multiple_edits.extend_from_slice(&2u32.to_be_bytes());
    for media_time in [0i32, 1_000] {
        multiple_edits.extend_from_slice(&1_000u32.to_be_bytes());
        multiple_edits.extend_from_slice(&media_time.to_be_bytes());
        multiple_edits.extend_from_slice(&0x0001_0000u32.to_be_bytes());
    }

    assert_eq!(parse_elst_media_time(&empty_edit), None);
    assert_eq!(parse_elst_media_time(&multiple_edits), None);
}

/// One time-to-sample entry.
fn stts(count: u32, delta: u32) -> Vec<u8> {
    let mut bytes = vec![0; 8];
    bytes[4..8].copy_from_slice(&1u32.to_be_bytes());
    bytes.extend_from_slice(&count.to_be_bytes());
    bytes.extend_from_slice(&delta.to_be_bytes());
    bytes
}

/// A track of a tenth of a second for each sample.
fn video_track() -> VideoTrack<'static> {
    VideoTrack {
        id: 1,
        timescale: 1_000,
        duration: 900,
        presentation_offset: 200,
        stbl: &[],
    }
}

/// Nine samples with three pictures between each two that refer to each other,
/// which are decoded behind both.
fn reordered_tables<'a>(stts: &'a [u8], sync_samples: &[u32]) -> VideoSampleTables<'a> {
    let offsets = [200, 500, 200, 0, 100, 500, 200, 0, 100];
    VideoSampleTables {
        stts,
        composition_offsets: Some(
            offsets
                .iter()
                .map(|offset| CompositionOffset {
                    sample_count: 1,
                    sample_offset: *offset,
                })
                .collect(),
        ),
        sizes: SampleSizes {
            fixed_size: 10,
            sizes: Vec::new(),
            sample_count: 9,
        },
        stsc: vec![StscEntry {
            first_chunk: 1,
            samples_per_chunk: 9,
            sample_description_index: 1,
        }],
        chunk_offsets: vec![100],
        sync_samples: Some(sync_samples.to_vec()),
        avc_configs: Vec::new(),
    }
}

fn timeline_of(tables: &VideoSampleTables, track: &VideoTrack) -> PresentationTimeline {
    PresentationTimeline::new(
        tables.stts,
        tables.composition_offsets.as_deref(),
        track.presentation_offset,
        tables.sizes.sample_count,
    )
    .expect("timeline is sound")
}

fn tenths(tenths: &[u64]) -> Vec<Duration> {
    tenths
        .iter()
        .map(|tenth| Duration::from_millis(tenth * 100))
        .collect()
}

fn groups_at(sync_samples: &[u32], times: &[u64], keyframes: bool) -> Vec<GroupPlan> {
    let table = stts(9, 100);
    let tables = reordered_tables(&table, sync_samples);
    let track = video_track();
    let timeline = timeline_of(&tables, &track);
    let plans = plan_frames(&track, &tables, &timeline, &tenths(times), keyframes)
        .expect("every time shows a sample");
    group_frames(&plans)
}

#[test]
fn early_pictures_take_only_the_samples_up_to_them() {
    assert_eq!(
        groups_at(&[1], &[0, 1], false),
        vec![GroupPlan {
            sync_sample: 1,
            end_sample: 4,
            frames: vec![0, 1],
            output_indices: vec![0, 1],
        }]
    );
    assert_eq!(
        wanted_samples(&groups_at(&[1], &[0, 1], false)).expect("few samples"),
        vec![1, 2, 3, 4]
    );
}

#[test]
fn all_pictures_of_a_group_are_taken_from_one_decoding() {
    assert_eq!(
        groups_at(&[1], &[0, 1, 2, 3, 4, 5, 6, 7, 8], false),
        vec![GroupPlan {
            sync_sample: 1,
            end_sample: 9,
            frames: vec![0, 1, 2, 3, 4, 5, 6, 7, 8],
            output_indices: vec![0, 1, 2, 3, 4, 5, 6, 7, 8],
        }]
    );
}

#[test]
fn a_place_does_not_depend_on_what_else_is_wanted() {
    let alone = groups_at(&[1], &[3], false);
    let shared = groups_at(&[1], &[8, 3], false);

    assert_eq!((alone[0].end_sample, shared[0].end_sample), (5, 9));
    assert_eq!(alone[0].output_indices, vec![3]);
    assert_eq!(shared[0].output_indices, vec![8, 3]);
}

#[test]
fn keyframes_are_taken_once_for_all_times() {
    assert_eq!(
        groups_at(&[1], &[0, 1, 2], true),
        vec![GroupPlan {
            sync_sample: 1,
            end_sample: 1,
            frames: vec![0, 1, 2],
            output_indices: vec![0, 0, 0],
        }]
    );
}

#[test]
fn groups_come_in_the_order_in_which_they_are_first_wanted() {
    let groups = groups_at(&[1, 6], &[8, 0, 6], false);

    assert_eq!(
        groups,
        vec![
            GroupPlan {
                sync_sample: 6,
                end_sample: 9,
                frames: vec![0, 2],
                output_indices: vec![3, 1],
            },
            GroupPlan {
                sync_sample: 1,
                end_sample: 1,
                frames: vec![1],
                output_indices: vec![0],
            },
        ]
    );
    assert_eq!(
        wanted_samples(&groups).expect("few samples"),
        vec![6, 7, 8, 9, 1]
    );
}

#[test]
fn images_go_back_to_the_times_that_want_them() {
    let table = stts(9, 100);
    let tables = reordered_tables(&table, &[1, 6]);
    let track = video_track();
    let timeline = timeline_of(&tables, &track);
    let plans = plan_frames(&track, &tables, &timeline, &tenths(&[8, 0, 6]), false)
        .expect("every time shows a sample");
    let groups = group_frames(&plans);
    let image = |byte: u8| DecodedImage {
        width: 2,
        height: 1,
        data: vec![byte],
    };

    let frames = place_frames(
        &track,
        &plans,
        &groups,
        vec![vec![image(80), image(60)], vec![image(0)]],
    );

    let placed: Vec<(Duration, u8)> = frames
        .iter()
        .map(|frame| (frame.timestamp, frame.data[0]))
        .collect();
    assert_eq!(
        placed,
        vec![
            (Duration::from_millis(800), 80),
            (Duration::from_millis(0), 0),
            (Duration::from_millis(600), 60),
        ]
    );
}

#[test]
fn requests_without_times_take_nothing() {
    assert_eq!(groups_at(&[1], &[], false), Vec::new());
    assert!(wanted_samples(&[]).expect("no samples").is_empty());
    assert!(check_timestamps(&video_track(), &[]).is_ok());
    assert!(place_frames(&video_track(), &[], &[], Vec::new()).is_empty());
}

#[test]
fn one_timestamp_outside_the_track_refuses_them_all() {
    let track = video_track();

    assert!(check_timestamps(&track, &tenths(&[0, 8])).is_ok());
    let error = check_timestamps(&track, &[Duration::from_millis(0), Duration::from_secs(10)])
        .expect_err("the second timestamp is outside");
    assert_eq!(
        error.message(),
        "Invalid format: thumbnail timestamp 10s is outside the video track duration"
    );
}

#[test]
fn too_many_samples_are_not_read() {
    let group = |end_sample: u32| GroupPlan {
        sync_sample: 1,
        end_sample,
        frames: vec![0],
        output_indices: vec![0],
    };

    assert_eq!(
        wanted_samples(&[group(16_384)]).expect("samples fit").len(),
        16_384
    );
    assert!(wanted_samples(&[group(16_384), group(1)]).is_err());
}
