//! Planning the reads of thumbnails.

use media_parser::errors::MediaParserError;
use media_parser::mp4::samples::{SampleSizes, StscEntry};
use media_parser::mp4::thumbnail_io::{
    plan_read_batches, split_read_batch, MAX_COALESCED_READ_BYTES, MAX_FRAME_BYTES,
    READ_COALESCE_GAP_BYTES,
};

fn fixed_samples(sample_count: u32, fixed_size: u32) -> SampleSizes {
    SampleSizes::fixed(sample_count, fixed_size).expect("test sample size must be non-zero")
}

fn one_sample_per_chunk() -> [StscEntry; 1] {
    [StscEntry {
        first_chunk: 1,
        samples_per_chunk: 1,
        sample_description_index: 1,
    }]
}

#[test]
fn coalesces_samples_within_the_gap_limit() {
    let sizes = fixed_samples(2, 4);
    let second_offset = 100 + 4 + READ_COALESCE_GAP_BYTES;
    let batches = plan_read_batches(
        &[1, 2],
        &sizes,
        &one_sample_per_chunk(),
        &[100, second_offset],
    )
    .expect("plan should coalesce a sample at the gap limit");

    assert_eq!(batches.len(), 1);
    assert_eq!(batches[0].offset, 100);
    assert_eq!(batches[0].size, 8 + READ_COALESCE_GAP_BYTES as usize);
    assert_eq!(batches[0].samples.len(), 2);
    assert_eq!(
        batches[0].samples[1].offset,
        4 + READ_COALESCE_GAP_BYTES as usize
    );
}

#[test]
fn splits_samples_beyond_the_gap_limit() {
    let sizes = fixed_samples(2, 4);
    let second_offset = 4 + READ_COALESCE_GAP_BYTES + 1;
    let batches = plan_read_batches(
        &[1, 2],
        &sizes,
        &one_sample_per_chunk(),
        &[0, second_offset],
    )
    .expect("plan should split distant samples");

    assert_eq!(batches.len(), 2);
    assert_eq!(batches[0].size, 4);
    assert_eq!(batches[1].offset, second_offset);
}

#[test]
fn rejects_overlapping_samples() {
    let sizes = fixed_samples(2, 4);
    let error = plan_read_batches(&[1, 2], &sizes, &one_sample_per_chunk(), &[0, 3])
        .expect_err("overlapping samples must be rejected");

    assert!(matches!(
        error,
        MediaParserError::InvalidFormat(message) if message == "overlapping video samples"
    ));
}

#[test]
fn rejects_a_sample_larger_than_the_frame_limit() {
    let sizes = fixed_samples(1, u32::try_from(MAX_FRAME_BYTES + 1).unwrap());
    let error = plan_read_batches(&[1], &sizes, &one_sample_per_chunk(), &[0])
        .expect_err("oversized sample must be rejected");

    assert!(matches!(
        error,
        MediaParserError::InvalidFormat(message) if message.contains("invalid thumbnail sample size")
    ));
}

#[test]
fn rejects_total_sample_bytes_over_the_batch_limit() {
    let sizes = fixed_samples(3, u32::try_from(MAX_FRAME_BYTES).unwrap());
    let error = plan_read_batches(
        &[1, 2, 3],
        &sizes,
        &one_sample_per_chunk(),
        &[0, MAX_FRAME_BYTES as u64, (MAX_FRAME_BYTES * 2) as u64],
    )
    .expect_err("sample byte total must be bounded");

    assert!(matches!(
        error,
        MediaParserError::InvalidFormat(message) if message.contains("thumbnail sample batch is too large")
    ));
}

#[test]
fn splits_a_nearby_read_that_would_exceed_the_coalesced_limit() {
    let sizes = SampleSizes::variable(vec![MAX_COALESCED_READ_BYTES as u32, 1]).unwrap();
    let batches = plan_read_batches(
        &[1, 2],
        &sizes,
        &one_sample_per_chunk(),
        &[0, MAX_COALESCED_READ_BYTES as u64 + 1],
    )
    .expect("the oversized merged read should split instead of failing");

    assert_eq!(batches.len(), 2);
    assert_eq!(batches[0].size, MAX_COALESCED_READ_BYTES);
    assert_eq!(batches[1].size, 1);
}

#[test]
fn rejects_coalesced_reads_over_the_batch_limit() {
    let sample_count = 4_101u32;
    let group_size = 1_367u32;
    let mut offsets = Vec::with_capacity(sample_count as usize);
    let mut group_start = 0u64;
    for index in 0..sample_count {
        let position = index % group_size;
        if position == 0 && index != 0 {
            group_start = offsets.last().copied().unwrap() + READ_COALESCE_GAP_BYTES + 2;
        }
        offsets.push(group_start + u64::from(position) * (READ_COALESCE_GAP_BYTES + 1));
    }
    let sizes = fixed_samples(sample_count, 1);
    let sample_indices: Vec<u32> = (1..=sample_count).collect();
    let error = plan_read_batches(&sample_indices, &sizes, &one_sample_per_chunk(), &offsets)
        .expect_err("coalesced read total must be bounded");

    assert!(matches!(
        error,
        MediaParserError::InvalidFormat(message) if message == "coalesced thumbnail reads are too large"
    ));
}

#[test]
fn rejects_a_truncated_coalesced_read() {
    let sizes = fixed_samples(1, 4);
    let batches = plan_read_batches(&[1], &sizes, &one_sample_per_chunk(), &[0]).unwrap();
    let error = split_read_batch(&batches[0], &[1, 2, 3])
        .expect_err("short reads must not produce partial samples");

    assert!(matches!(
        error,
        MediaParserError::InvalidFormat(message) if message.contains("truncated sample batch")
    ));
}
