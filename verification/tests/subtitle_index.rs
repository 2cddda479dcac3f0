//! Indexing subtitle tracks and the limits of requests on an index.

use media_parser::errors::MediaParserError;
use media_parser::mp4::bounded_tables::{SampleDescriptionEntry, SampleTimingTable};
use media_parser::mp4::headers::{moov_search_step, MoovSearch};
use media_parser::mp4::retained::RetainedBudget;
use media_parser::mp4::samples::{SampleSizes, StscEntry};
use media_parser::mp4::subtitles::cues::{
    allocate_selected_cues, select_cues, SelectCuesError, SubtitleRequestBudget,
    SubtitleRequestLimits, SUBTITLE_CUE_PROJECTION_BYTES, SUBTITLE_ENVELOPE_PROJECTED_BASE_BYTES,
    SUBTITLE_TRACK_PROJECTION_BYTES,
};
use media_parser::mp4::subtitles::extract::{
    subtitle_read_limits, ExtractionStep, SubtitleExtraction,
};
use media_parser::mp4::subtitles::index::{
    IndexUsage, IndexedTrack, IndexedTrackState, SubtitleIndex, MAX_INDEXED_SUBTITLE_SAMPLES,
    MAX_RETAINED_INDEX_BYTES, MAX_TRAKS,
};
use media_parser::time::Duration;
use media_parser::types::{SubtitleTrack, TrackFilter};

/// Bytes to be read at any place.
trait ByteSource {
    fn read_at(&self, offset: u64, buf: &mut [u8]) -> Result<usize, MediaParserError>;

    fn size(&self) -> u64;
}

fn read_up_to(source: &dyn ByteSource, offset: u64, size: usize) -> Result<Vec<u8>, MediaParserError> {
    let mut buf = vec![0; size];
    let mut filled = 0;
    while filled < size {
        let count = source.read_at(offset + filled as u64, &mut buf[filled..])?;
        if count == 0 {
            break;
        }
        filled += count;
    }
    buf.truncate(filled);
    Ok(buf)
}

fn read_moov(source: &dyn ByteSource) -> Result<Vec<u8>, MediaParserError> {
    let mut offset = 0;
    loop {
        let header = read_up_to(source, offset, 16)?;
        match moov_search_step(&header, offset, source.size()) {
            MoovSearch::Found { offset, size } => return read_up_to(source, offset, size),
            MoovSearch::Continue { offset: next } => offset = next,
            MoovSearch::Missing => {
                return Err(MediaParserError::InvalidFormat("moov box not found".to_owned()));
            }
        }
    }
}

fn copy_into(bytes: &[u8], offset: u64, buf: &mut [u8]) -> usize {
    let start = usize::try_from(offset)
        .unwrap_or(usize::MAX)
        .min(bytes.len());
    let count = buf.len().min(bytes.len() - start);
    buf[..count].copy_from_slice(&bytes[start..start + count]);
    count
}

struct BytesReader(Vec<u8>);

impl ByteSource for BytesReader {
    fn read_at(&self, offset: u64, buf: &mut [u8]) -> Result<usize, MediaParserError> {
        Ok(copy_into(&self.0, offset, buf))
    }

    fn size(&self) -> u64 {
        self.0.len() as u64
    }
}

fn build_with_limits(
    source: &dyn ByteSource,
    max_traks: usize,
    max_samples: usize,
    max_retained_bytes: usize,
) -> Result<(SubtitleIndex, IndexUsage), MediaParserError> {
    SubtitleIndex::from_moov(&read_moov(source)?, max_traks, max_samples, max_retained_bytes)
}

fn read_with_limits(
    source: &dyn ByteSource,
    max_traks: usize,
    max_samples: usize,
    max_retained_bytes: usize,
) -> Result<SubtitleIndex, MediaParserError> {
    Ok(build_with_limits(source, max_traks, max_samples, max_retained_bytes)?.0)
}

fn read_index(source: &dyn ByteSource) -> Result<SubtitleIndex, MediaParserError> {
    read_with_limits(
        source,
        MAX_TRAKS,
        MAX_INDEXED_SUBTITLE_SAMPLES,
        MAX_RETAINED_INDEX_BYTES,
    )
}

fn extract(
    index: &SubtitleIndex,
    source: &dyn ByteSource,
    mut extraction: SubtitleExtraction,
) -> Result<Vec<SubtitleTrack>, MediaParserError> {
    loop {
        match extraction.advance(index)? {
            ExtractionStep::Done => return Ok(extraction.finish()),
            ExtractionStep::Pass => {}
            ExtractionStep::Read(reads) => {
                let IndexedTrackState::Ready(track) = &index.tracks[reads.track] else {
                    panic!("only ready tracks are read");
                };
                let mut data = Vec::new();
                for batch in &reads.batches {
                    let mut buf = vec![0; batch.size];
                    let count = source.read_at(batch.offset, &mut buf)?;
                    buf.truncate(count);
                    data.push(buf);
                }
                extraction.supply(track, reads.selected, reads.batches, data)?;
            }
        }
    }
}

trait Subtitles {
    fn subtitles_with_limits(
        &self,
        source: &dyn ByteSource,
        filter: Option<TrackFilter>,
        range: Option<(Duration, Duration)>,
        limits: SubtitleRequestLimits,
    ) -> Result<Vec<SubtitleTrack>, MediaParserError>;

    fn subtitles(
        &self,
        source: &dyn ByteSource,
        filter: Option<TrackFilter>,
        range: Option<(Duration, Duration)>,
    ) -> Result<Vec<SubtitleTrack>, MediaParserError>;
}

impl Subtitles for SubtitleIndex {
    fn subtitles_with_limits(
        &self,
        source: &dyn ByteSource,
        filter: Option<TrackFilter>,
        range: Option<(Duration, Duration)>,
        limits: SubtitleRequestLimits,
    ) -> Result<Vec<SubtitleTrack>, MediaParserError> {
        let extraction =
            SubtitleExtraction::new(filter, range, false, limits, subtitle_read_limits())?;
        extract(self, source, extraction)
    }

    fn subtitles(
        &self,
        source: &dyn ByteSource,
        filter: Option<TrackFilter>,
        range: Option<(Duration, Duration)>,
    ) -> Result<Vec<SubtitleTrack>, MediaParserError> {
        self.subtitles_with_limits(source, filter, range, SubtitleRequestLimits::standard())
    }
}

fn mp4_box(fourcc: &[u8; 4], payload: &[u8]) -> Vec<u8> {
    let size = u32::try_from(payload.len() + 8).unwrap();
    [size.to_be_bytes().as_slice(), fourcc.as_slice(), payload].concat()
}

fn full_box(fourcc: &[u8; 4], body: &[u8]) -> Vec<u8> {
    mp4_box(fourcc, &[&[0, 0, 0, 0], body].concat())
}

fn track_header(id: u32, duration: u32, enabled: bool) -> Vec<u8> {
    let mut tkhd = vec![0u8; 80];
    tkhd[8..12].copy_from_slice(&id.to_be_bytes());
    tkhd[16..20].copy_from_slice(&duration.to_be_bytes());
    mp4_box(
        b"tkhd",
        &[&[0, 0, 0, u8::from(enabled)], tkhd.as_slice()].concat(),
    )
}

fn index_track_with_enabled(
    id: u32,
    sample_count: u32,
    codec: &[u8; 4],
    enabled: bool,
) -> Vec<u8> {
    let tkhd = track_header(id, sample_count * 1000, enabled);

    let mut mdhd = vec![0u8; 20];
    mdhd[8..12].copy_from_slice(&1000u32.to_be_bytes());
    mdhd[12..16].copy_from_slice(&(sample_count * 1000).to_be_bytes());
    mdhd[16..18].copy_from_slice(&0x15c7u16.to_be_bytes());
    let mdhd = full_box(b"mdhd", &mdhd);
    let mut hdlr = vec![0u8; 8];
    hdlr[4..8].copy_from_slice(b"sbtl");
    let hdlr = full_box(b"hdlr", &hdlr);

    let entry = mp4_box(codec, &[0; 8]);
    let stsd = full_box(
        b"stsd",
        &[1u32.to_be_bytes().as_slice(), entry.as_slice()].concat(),
    );
    let stts = full_box(
        b"stts",
        &[
            1u32.to_be_bytes().as_slice(),
            sample_count.to_be_bytes().as_slice(),
            1000u32.to_be_bytes().as_slice(),
        ]
        .concat(),
    );
    let stsc = full_box(
        b"stsc",
        &[
            1u32.to_be_bytes().as_slice(),
            1u32.to_be_bytes().as_slice(),
            sample_count.to_be_bytes().as_slice(),
            1u32.to_be_bytes().as_slice(),
        ]
        .concat(),
    );
    let stsz = full_box(
        b"stsz",
        &[
            0u32.to_be_bytes().as_slice(),
            sample_count.to_be_bytes().as_slice(),
            vec![3u32.to_be_bytes(); usize::try_from(sample_count).unwrap()]
                .concat()
                .as_slice(),
        ]
        .concat(),
    );
    let stco = full_box(
        b"stco",
        &[1u32.to_be_bytes().as_slice(), 0u32.to_be_bytes().as_slice()].concat(),
    );
    let stbl = mp4_box(b"stbl", &[stsd, stts, stsc, stsz, stco].concat());
    let minf = mp4_box(b"minf", &stbl);
    let mdia = mp4_box(b"mdia", &[mdhd, hdlr, minf].concat());
    mp4_box(b"trak", &[tkhd, mdia].concat())
}

fn index_track(id: u32, sample_count: u32, codec: &[u8; 4]) -> Vec<u8> {
    index_track_with_enabled(id, sample_count, codec, false)
}

fn chapter_reference(ids: &[u32]) -> Vec<u8> {
    let payload = ids
        .iter()
        .flat_map(|id| id.to_be_bytes())
        .collect::<Vec<_>>();
    mp4_box(b"chap", &payload)
}

fn chapter_source_track(id: u32, enabled: bool, tref_payload: &[u8]) -> Vec<u8> {
    let mut hdlr = vec![0u8; 8];
    hdlr[4..8].copy_from_slice(b"vide");
    let mdia = mp4_box(b"mdia", &full_box(b"hdlr", &hdlr));
    let tref = mp4_box(b"tref", tref_payload);
    mp4_box(
        b"trak",
        &[track_header(id, 1000, enabled), tref, mdia].concat(),
    )
}

fn ready_track_ids(index: &SubtitleIndex) -> Vec<u32> {
    index
        .tracks
        .iter()
        .filter_map(|track| match track {
            IndexedTrackState::Ready(track) => Some(track.id),
            IndexedTrackState::Rejected { .. } => None,
        })
        .collect()
}

fn index_fixture(tracks: &[Vec<u8>]) -> BytesReader {
    BytesReader(mp4_box(b"moov", &tracks.concat()))
}

fn one_cue_index() -> SubtitleIndex {
    let mut stts = vec![0u8; 8];
    stts[4..8].copy_from_slice(&1u32.to_be_bytes());
    stts.extend_from_slice(&1u32.to_be_bytes());
    stts.extend_from_slice(&1000u32.to_be_bytes());
    let mut retained = RetainedBudget::new(1024);
    let timing = SampleTimingTable::parse(&stts, &mut retained).unwrap();
    SubtitleIndex {
        tracks: vec![IndexedTrackState::Ready(IndexedTrack {
            id: 1,
            descriptions: vec![SampleDescriptionEntry {
                codec: "tx3g".to_owned(),
            }],
            codec_description_index: 0,
            language: Some("eng".to_owned()),
            timescale: 1000,
            duration: 1000,
            handler: *b"sbtl",
            presentation_offset: 0,
            timing,
            sizes: SampleSizes::fixed(1, 3).unwrap(),
            stsc: vec![StscEntry {
                first_chunk: 1,
                samples_per_chunk: 1,
                sample_description_index: 1,
            }],
            chunk_offsets: vec![0],
        })],
    }
}

#[test]
fn enabled_chapter_source_excludes_only_a_disabled_target() {
    let source = chapter_source_track(10, true, &chapter_reference(&[1]));
    let target = index_track_with_enabled(1, 1, b"text", false);
    let index = read_index(&index_fixture(&[source, target]))
        .unwrap();

    assert!(ready_track_ids(&index).is_empty());
}

#[test]
fn enabled_chapter_target_remains_a_subtitle_track() {
    let source = chapter_source_track(10, true, &chapter_reference(&[1]));
    let target = index_track_with_enabled(1, 1, b"text", true);
    let index = read_index(&index_fixture(&[source, target]))
        .unwrap();

    assert_eq!(ready_track_ids(&index), vec![1]);
}

#[test]
fn disabled_chapter_source_does_not_classify_its_target() {
    let source = chapter_source_track(10, false, &chapter_reference(&[1]));
    let target = index_track_with_enabled(1, 1, b"text", false);
    let index = read_index(&index_fixture(&[source, target]))
        .unwrap();

    assert_eq!(ready_track_ids(&index), vec![1]);
}

#[test]
fn zero_chapter_reference_id_is_ignored() {
    let source = chapter_source_track(10, true, &chapter_reference(&[0]));
    let target = index_track_with_enabled(0, 1, b"text", false);
    let index = read_index(&index_fixture(&[source, target]))
        .unwrap();

    assert_eq!(ready_track_ids(&index), vec![0]);
}

#[test]
fn malformed_chapter_payload_is_ignored_without_accepting_its_prefix() {
    let mut malformed_payload = 1u32.to_be_bytes().to_vec();
    malformed_payload.push(0xff);
    let tref = [
        mp4_box(b"chap", &malformed_payload),
        chapter_reference(&[2]),
    ]
    .concat();
    let source = chapter_source_track(10, true, &tref);
    let first_target = index_track_with_enabled(1, 1, b"text", false);
    let second_target = index_track_with_enabled(2, 1, b"text", false);
    let index = read_index(&index_fixture(&[source, first_target, second_target]))
        .unwrap();

    assert_eq!(ready_track_ids(&index), vec![1]);
}

#[test]
fn malformed_chapter_framing_is_ignored_and_other_valid_atoms_still_apply() {
    let mut malformed = chapter_reference(&[1]);
    let oversized = malformed.len() as u32 + 1;
    malformed[0..4].copy_from_slice(&oversized.to_be_bytes());
    let tref = [chapter_reference(&[2]), malformed].concat();
    let source = chapter_source_track(10, true, &tref);
    let first_target = index_track_with_enabled(1, 1, b"text", false);
    let second_target = index_track_with_enabled(2, 1, b"text", false);
    let index = read_index(&index_fixture(&[source, first_target, second_target]))
        .unwrap();

    assert_eq!(ready_track_ids(&index), vec![1]);
}

#[test]
fn cue_selection_budget_and_allocation_failures_are_fatal() {
    let index = one_cue_index();
    let IndexedTrackState::Ready(track) = &index.tracks[0] else {
        panic!("test track is ready");
    };
    let mut request = SubtitleRequestBudget::new(SubtitleRequestLimits {
        max_samples: 0,
        max_cues: 1,
        max_decoded_text_bytes: 16,
        max_output_bytes: SUBTITLE_ENVELOPE_PROJECTED_BASE_BYTES + 1024,
    })
    .unwrap();

    assert!(matches!(
        select_cues(track, None, &mut request),
        Err(SelectCuesError::Fatal(_))
    ));
    assert!(matches!(
        allocate_selected_cues(usize::MAX),
        Err(SelectCuesError::Fatal(_))
    ));
}

#[test]
fn request_limits_accept_exact_boundaries() {
    let index = one_cue_index();
    let tracks = index
        .subtitles_with_limits(
            &BytesReader(vec![0, 1, b'x']),
            None,
            None,
            SubtitleRequestLimits {
                max_samples: 1,
                max_cues: 1,
                max_decoded_text_bytes: 1,
                max_output_bytes: SUBTITLE_ENVELOPE_PROJECTED_BASE_BYTES
                    + SUBTITLE_TRACK_PROJECTION_BYTES
                    + SUBTITLE_CUE_PROJECTION_BYTES
                    + 1,
            },
        )
        .unwrap();

    assert_eq!(tracks[0].cues[0].text, "x");
}

#[test]
fn request_limits_reject_one_over_each_boundary() {
    let index = one_cue_index();
    let reader = BytesReader(vec![0, 1, b'x']);
    let baseline = SubtitleRequestLimits {
        max_samples: 1,
        max_cues: 1,
        max_decoded_text_bytes: 1,
        max_output_bytes: SUBTITLE_ENVELOPE_PROJECTED_BASE_BYTES
            + SUBTITLE_TRACK_PROJECTION_BYTES
            + SUBTITLE_CUE_PROJECTION_BYTES
            + 1,
    };
    for limits in [
        SubtitleRequestLimits {
            max_samples: 0,
            ..baseline
        },
        SubtitleRequestLimits {
            max_cues: 0,
            ..baseline
        },
        SubtitleRequestLimits {
            max_decoded_text_bytes: 0,
            ..baseline
        },
        SubtitleRequestLimits {
            max_output_bytes: baseline.max_output_bytes - 1,
            ..baseline
        },
    ] {
        index
            .subtitles_with_limits(&reader, None, None, limits)
            .expect_err("one-over request boundary");
    }
}

#[test]
fn empty_result_requires_the_complete_projected_envelope_base() {
    let index = SubtitleIndex { tracks: Vec::new() };
    let limits = SubtitleRequestLimits {
        max_samples: 0,
        max_cues: 0,
        max_decoded_text_bytes: 0,
        max_output_bytes: SUBTITLE_ENVELOPE_PROJECTED_BASE_BYTES,
    };

    let tracks = index
        .subtitles_with_limits(&BytesReader(Vec::new()), None, None, limits)
        .expect("the exact empty-envelope base should be accepted");
    assert!(tracks.is_empty());

    let error = index
        .subtitles_with_limits(
            &BytesReader(Vec::new()),
            None,
            None,
            SubtitleRequestLimits {
                max_output_bytes: SUBTITLE_ENVELOPE_PROJECTED_BASE_BYTES - 1,
                ..limits
            },
        )
        .expect_err("one byte below the empty-envelope base must fail");
    assert!(error.message().contains("output budget exceeded"));
}

#[test]
fn real_index_limits_accept_exact_sample_and_retained_usage() {
    let reader = index_fixture(&[index_track(1, 2, b"tx3g")]);
    let (_, usage) = build_with_limits(&reader, MAX_TRAKS, usize::MAX, usize::MAX)
        .unwrap();
    assert_eq!(usage.samples, 2);

    read_with_limits(&reader, MAX_TRAKS, usage.samples, usage.retained_bytes)
        .expect("exact measured index limits");
    read_with_limits(&reader, MAX_TRAKS, usage.samples - 1, usize::MAX)
        .expect_err("one-over aggregate sample work is fatal");
    read_with_limits(&reader, MAX_TRAKS, usize::MAX, usage.retained_bytes - 1)
        .expect_err("one-over retained allocation is fatal");
}


#[test]
fn rejected_track_work_remains_charged_for_following_valid_track() {
    let reader = index_fixture(&[index_track(1, 1, b"junk"), index_track(2, 1, b"tx3g")]);
    let (_, usage) = build_with_limits(&reader, MAX_TRAKS, usize::MAX, usize::MAX)
        .unwrap();
    assert_eq!(usage.samples, 2);

    let index =
        read_with_limits(&reader, MAX_TRAKS, usage.samples, usage.retained_bytes)
            .expect("rejected and valid track fit exact combined budget");
    let broad = index
        .subtitles(
            &reader,
            None,
            Some((Duration::from_secs(2), Duration::from_secs(3))),
        )
        .unwrap();
    assert_eq!(broad.len(), 1);
    assert_eq!(broad[0].base.id, 2);

    read_with_limits(&reader, MAX_TRAKS, usage.samples - 1, usize::MAX)
        .expect_err("rejected sample work is not refunded");
    read_with_limits(&reader, MAX_TRAKS, usize::MAX, usage.retained_bytes - 1)
        .expect_err("broad retained exhaustion remains fatal");
}

#[test]
fn tracks_without_headers_are_indexed_without_memory() {
    let bare = mp4_box(b"trak", &[]);
    let moov = mp4_box(b"moov", &bare.repeat(3));

    let (index, usage) = SubtitleIndex::from_moov(&moov, 3, 0, 0).expect("nothing is kept");
    assert!(index.tracks.is_empty());
    assert_eq!((usage.samples, usage.retained_bytes), (0, 0));

    let error = SubtitleIndex::from_moov(&moov, 2, 0, 0).expect_err("one track too many");
    assert_eq!(
        error.message(),
        MediaParserError::InvalidFormat("track count exceeds limit of 2".to_owned()).message()
    );
}

#[test]
fn reported_usage_covers_what_the_index_keeps() {
    let source = index_fixture(&[index_track(1, 2, b"tx3g"), index_track(2, 3, b"tx3g")]);

    let (index, usage) = build_with_limits(
        &source,
        MAX_TRAKS,
        MAX_INDEXED_SUBTITLE_SAMPLES,
        MAX_RETAINED_INDEX_BYTES,
    )
    .expect("tracks are indexed");

    let mut kept = index.tracks.len() * std::mem::size_of::<IndexedTrackState>();
    for state in &index.tracks {
        if let IndexedTrackState::Ready(track) = state {
            kept += track.descriptions.len() * (std::mem::size_of::<SampleDescriptionEntry>() + 4)
                + track.sizes.sizes.len() * 4
                + track.stsc.len() * std::mem::size_of::<StscEntry>()
                + track.chunk_offsets.len() * 8;
        }
    }
    assert_eq!(ready_track_ids(&index), vec![1, 2]);
    assert!(usage.retained_bytes >= kept);
}
