//! Sample timing and presentation order.

use media_parser::mp4::timing::{
    parse_ctts, presentation_timeline_sample_count_fits, stts_duration_ticks, CompositionOffset,
    PresentationTimeline, SampleSelection, MAX_PRESENTATION_TIMELINE_BYTES,
};

fn stts(count: u32, delta: u32) -> Vec<u8> {
    let mut bytes = vec![0; 8];
    bytes[4..8].copy_from_slice(&1u32.to_be_bytes());
    bytes.extend_from_slice(&count.to_be_bytes());
    bytes.extend_from_slice(&delta.to_be_bytes());
    bytes
}

#[test]
fn selects_sample_without_expanding_stts() {
    let timeline = PresentationTimeline::new(&stts(4, 1_000), None, 0, 4).unwrap();

    assert_eq!(
        timeline.select(2_500),
        Some(SampleSelection {
            sample_index: 3,
            presentation_tick: 2_000,
        })
    );
}

#[test]
fn selects_sample_by_ctts_presentation_time() {
    let mut ctts = vec![0; 8];
    ctts[4..8].copy_from_slice(&3u32.to_be_bytes());
    for offset in [2_000u32, 3_000, 1_000] {
        ctts.extend_from_slice(&1u32.to_be_bytes());
        ctts.extend_from_slice(&offset.to_be_bytes());
    }
    let composition_offsets = parse_ctts(&ctts).unwrap();
    let timeline =
        PresentationTimeline::new(&stts(3, 1_000), Some(&composition_offsets), 2_000, 3).unwrap();

    assert_eq!(
        timeline.select(1_000),
        Some(SampleSelection {
            sample_index: 3,
            presentation_tick: 1_000,
        })
    );
}

#[test]
fn presentation_timeline_handles_reordered_and_equal_ticks() {
    let composition_offsets = vec![
        CompositionOffset {
            sample_count: 1,
            sample_offset: 2_000,
        },
        CompositionOffset {
            sample_count: 1,
            sample_offset: 0,
        },
        CompositionOffset {
            sample_count: 1,
            sample_offset: -2_000,
        },
        CompositionOffset {
            sample_count: 1,
            sample_offset: 0,
        },
        CompositionOffset {
            sample_count: 1,
            sample_offset: -1_000,
        },
    ];
    let timeline =
        PresentationTimeline::new(&stts(5, 1_000), Some(&composition_offsets), 1_000, 5).unwrap();

    for (target, sample_index, presentation_tick) in [
        (0, 2, 0),
        (500, 2, 0),
        (1_000, 1, 1_000),
        (1_500, 1, 1_000),
        (2_000, 5, 2_000),
        (2_500, 5, 2_000),
        (10_000, 5, 2_000),
    ] {
        assert_eq!(
            timeline.select(target),
            Some(SampleSelection {
                sample_index,
                presentation_tick,
            }),
            "target {target}"
        );
    }

    let shifted = PresentationTimeline::new(&stts(5, 1_000), None, -1_000, 5).unwrap();
    assert_eq!(
        shifted.select(0),
        Some(SampleSelection {
            sample_index: 1,
            presentation_tick: 1_000,
        })
    );
}

#[test]
fn presentation_timeline_preserves_signed_ticks_in_decode_order_ranges() {
    let timeline = PresentationTimeline::new(&stts(3, 1_000), None, 1_500, 3).unwrap();

    assert_eq!(
        timeline.ticks_for_range(1, 3),
        Some(vec![(1, -1_500), (2, -500), (3, 500)])
    );
    assert_eq!(timeline.tick(2), Some(-500));
    assert_eq!(timeline.ticks_for_range(0, 1), None);
    assert_eq!(timeline.ticks_for_range(2, 1), None);
    assert_eq!(timeline.ticks_for_range(1, 4), None);
}

#[test]
fn presentation_timeline_rejects_malformed_timing_tables() {
    assert!(PresentationTimeline::new(&stts(0, 1), None, 0, 1).is_none());
    assert!(PresentationTimeline::new(&[], None, 0, 0).is_none());
    assert!(PresentationTimeline::new(&[], None, 0, 1).is_none());
    assert!(PresentationTimeline::new(&stts(1, 0), None, 0, 1).is_none());
    assert!(
        PresentationTimeline::new(
            &stts(2, 1),
            Some(&[CompositionOffset {
                sample_count: 1,
                sample_offset: 0,
            }]),
            0,
            2,
        )
        .is_none()
    );
    assert!(
        PresentationTimeline::new(
            &stts(1, 1),
            Some(&[CompositionOffset {
                sample_count: 2,
                sample_offset: 0,
            }]),
            0,
            1,
        )
        .is_none()
    );
    assert!(PresentationTimeline::new(&stts(1, 1), None, 0, 2).is_none());
    assert!(PresentationTimeline::new(&stts(2, u32::MAX), None, 0, 2).is_some());
    assert!(PresentationTimeline::new(&stts(u32::MAX, u32::MAX), None, 0, u32::MAX).is_none());
}

#[test]
fn presentation_timeline_pins_the_storage_budget_boundary() {
    let bytes_per_sample = std::mem::size_of::<i128>() + std::mem::size_of::<u32>();
    let max_samples = MAX_PRESENTATION_TIMELINE_BYTES / bytes_per_sample;

    assert!(!presentation_timeline_sample_count_fits(0));
    assert!(presentation_timeline_sample_count_fits(max_samples));
    assert!(!presentation_timeline_sample_count_fits(max_samples + 1));
}

#[test]
fn rejects_zero_sample_delta() {
    assert!(PresentationTimeline::new(&stts(2, 0), None, 0, 2).is_none());
}

#[test]
fn sums_stts_duration_with_checked_arithmetic() {
    let mut bytes = vec![0; 8];
    bytes[4..8].copy_from_slice(&2u32.to_be_bytes());
    bytes.extend_from_slice(&3u32.to_be_bytes());
    bytes.extend_from_slice(&1_000u32.to_be_bytes());
    bytes.extend_from_slice(&2u32.to_be_bytes());
    bytes.extend_from_slice(&500u32.to_be_bytes());

    assert_eq!(stts_duration_ticks(&bytes), Some(4_000));

    let mut large = vec![0; 8];
    large[4..8].copy_from_slice(&1u32.to_be_bytes());
    large.extend_from_slice(&u32::MAX.to_be_bytes());
    large.extend_from_slice(&u32::MAX.to_be_bytes());

    assert_eq!(
        stts_duration_ticks(&large),
        Some(u64::from(u32::MAX) * u64::from(u32::MAX))
    );
}

#[test]
fn parses_signed_ctts_v1_offsets() {
    let mut ctts = vec![1, 0, 0, 0, 0, 0, 0, 1];
    ctts.extend_from_slice(&2u32.to_be_bytes());
    ctts.extend_from_slice(&(-500i32).to_be_bytes());

    assert_eq!(
        parse_ctts(&ctts).unwrap(),
        vec![CompositionOffset {
            sample_count: 2,
            sample_offset: -500,
        }]
    );
}
