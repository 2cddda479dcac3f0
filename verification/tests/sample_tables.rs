//! Sample tables.

use media_parser::mp4::chunks::{
    range_uses_description_index, sample_description_index, validate_sample_tables, SampleLocator,
};
use media_parser::mp4::samples::{parse_stsc, SampleSizes, StscEntry};

fn two_run_tables() -> (SampleSizes, Vec<StscEntry>, Vec<u64>) {
    // chunks 1-2 use description 1 (2 samples each), chunks 3-4 use
    // description 2 (1 sample each); sample sizes vary per sample.
    let sizes = SampleSizes {
        fixed_size: 0,
        sizes: vec![10, 20, 30, 40, 50, 60],
        sample_count: 6,
    };
    let stsc = vec![
        StscEntry {
            first_chunk: 1,
            samples_per_chunk: 2,
            sample_description_index: 1,
        },
        StscEntry {
            first_chunk: 3,
            samples_per_chunk: 1,
            sample_description_index: 2,
        },
    ];
    let chunk_offsets = vec![100, 200, 300, 400];
    (sizes, stsc, chunk_offsets)
}

#[test]
fn range_description_index_covers_whole_range_in_one_walk() {
    let (sizes, stsc, chunk_offsets) = two_run_tables();

    assert!(range_uses_description_index(1, 4, 1, &stsc, &chunk_offsets));
    assert!(range_uses_description_index(5, 6, 2, &stsc, &chunk_offsets));
    assert!(!range_uses_description_index(
        1,
        6,
        1,
        &stsc,
        &chunk_offsets
    ));
    assert!(!range_uses_description_index(
        4,
        5,
        1,
        &stsc,
        &chunk_offsets
    ));
    assert!(!range_uses_description_index(
        6,
        7,
        2,
        &stsc,
        &chunk_offsets
    ));
    assert!(!range_uses_description_index(
        0,
        4,
        1,
        &stsc,
        &chunk_offsets
    ));
    let _ = sizes;
}

#[test]
fn sample_locator_matches_expected_offsets_in_order() {
    let (sizes, stsc, chunk_offsets) = two_run_tables();
    let mut locator = SampleLocator::new(&sizes, &stsc, &chunk_offsets).unwrap();

    for (sample_index, expected_offset) in [100, 110, 200, 230, 300, 400].into_iter().enumerate()
    {
        assert_eq!(
            locator.file_offset(u32::try_from(sample_index + 1).unwrap()),
            Some(expected_offset),
            "sample {sample_index}"
        );
    }
}

#[test]
fn sample_locator_rejects_out_of_order_queries() {
    let (sizes, stsc, chunk_offsets) = two_run_tables();
    let mut locator = SampleLocator::new(&sizes, &stsc, &chunk_offsets).unwrap();

    assert_eq!(locator.file_offset(3), Some(200));
    assert_eq!(locator.file_offset(2), None);
}

#[test]
fn preserves_stsc_sample_description_index() {
    let mut stsc = vec![0; 8];
    stsc[4..8].copy_from_slice(&1u32.to_be_bytes());
    stsc.extend_from_slice(&1u32.to_be_bytes());
    stsc.extend_from_slice(&2u32.to_be_bytes());
    stsc.extend_from_slice(&3u32.to_be_bytes());

    let entries = parse_stsc(&stsc).unwrap();

    assert_eq!(entries[0].sample_description_index, 3);
}

#[test]
fn locates_samples_without_iterating_every_prior_chunk() {
    let sizes = SampleSizes {
        fixed_size: 4,
        sizes: Vec::new(),
        sample_count: 1_000_000_000,
    };
    let stsc = [StscEntry {
        first_chunk: 1,
        samples_per_chunk: 1_000_000_000,
        sample_description_index: 1,
    }];
    let chunk_offsets = vec![0];

    assert_eq!(
        sample_description_index(1_000, &sizes, &stsc, &chunk_offsets),
        Some(1)
    );
    assert_eq!(
        sample_description_index(1_000_000_000, &sizes, &stsc, &chunk_offsets),
        Some(1)
    );
}

#[test]
fn rejects_stsc_entries_outside_the_chunk_table() {
    let mut stts = vec![0; 8];
    stts[4..8].copy_from_slice(&1u32.to_be_bytes());
    stts.extend_from_slice(&1u32.to_be_bytes());
    stts.extend_from_slice(&1u32.to_be_bytes());
    let sizes = SampleSizes {
        fixed_size: 1,
        sizes: Vec::new(),
        sample_count: 1,
    };
    let stsc = [
        StscEntry {
            first_chunk: 1,
            samples_per_chunk: 1,
            sample_description_index: 1,
        },
        StscEntry {
            first_chunk: u32::MAX,
            samples_per_chunk: 1,
            sample_description_index: 1,
        },
    ];

    assert!(validate_sample_tables(&stts, None, &sizes, &stsc, &[0], None, 1).is_none());
}
