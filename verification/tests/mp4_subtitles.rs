//! Extracting subtitle tracks from whole files held in memory.

use std::cell::{Cell, RefCell};

use media_parser::errors::MediaParserError;
use media_parser::mp4::headers::{moov_search_step, MoovSearch};
use media_parser::mp4::subtitles::cues::SubtitleRequestLimits;
use media_parser::mp4::subtitles::extract::{
    subtitle_read_limits, validate_subtitle_range, ExtractionStep, SubtitleExtraction,
};
use media_parser::mp4::subtitles::index::{
    IndexedTrackState, SubtitleIndex, MAX_INDEXED_SUBTITLE_SAMPLES, MAX_RETAINED_INDEX_BYTES,
    MAX_TRAKS,
};
use media_parser::registry::{require_format, Format};
use media_parser::time::Duration;
use media_parser::types::{BaseTrackMeta, SubtitleTrack, TrackFilter};

/// Bytes to be read at any place.
trait ByteSource {
    fn read_at(&self, offset: u64, buf: &mut [u8]) -> Result<usize, MediaParserError>;

    fn size(&self) -> u64;
}

fn read_up_to(source: &dyn ByteSource, offset: u64, size: usize) -> Result<Vec<u8>, MediaParserError> {
    let mut buf = vec![0; size];
    let mut filled = 0;
    while filled < size {
        let count = source.read_at(offset + filled as u64, &mut buf[filled..])?;
        if count == 0 {
            break;
        }
        filled += count;
    }
    buf.truncate(filled);
    Ok(buf)
}

fn read_moov(source: &dyn ByteSource) -> Result<Vec<u8>, MediaParserError> {
    let mut offset = 0;
    loop {
        let header = read_up_to(source, offset, 16)?;
        match moov_search_step(&header, offset, source.size()) {
            MoovSearch::Found { offset, size } => return read_up_to(source, offset, size),
            MoovSearch::Continue { offset: next } => offset = next,
            MoovSearch::Missing => {
                return Err(MediaParserError::InvalidFormat("moov box not found".to_owned()));
            }
        }
    }
}

fn copy_into(bytes: &[u8], offset: u64, buf: &mut [u8]) -> usize {
    let start = usize::try_from(offset)
        .unwrap_or(usize::MAX)
        .min(bytes.len());
    let count = buf.len().min(bytes.len() - start);
    buf[..count].copy_from_slice(&bytes[start..start + count]);
    count
}

struct BytesReader(Vec<u8>);

impl ByteSource for BytesReader {
    fn read_at(&self, offset: u64, buf: &mut [u8]) -> Result<usize, MediaParserError> {
        Ok(copy_into(&self.0, offset, buf))
    }

    fn size(&self) -> u64 {
        self.0.len() as u64
    }
}

struct CountingReader {
    bytes: Vec<u8>,
    reads: Cell<usize>,
    ranges: RefCell<Vec<(u64, usize)>>,
}

impl CountingReader {
    fn new(bytes: Vec<u8>) -> Self {
        Self {
            bytes,
            reads: Cell::new(0),
            ranges: RefCell::new(Vec::new()),
        }
    }

    fn reads(&self) -> usize {
        self.reads.get()
    }

    fn ranges(&self) -> Vec<(u64, usize)> {
        self.ranges.borrow().clone()
    }
}

impl ByteSource for CountingReader {
    fn read_at(&self, offset: u64, buf: &mut [u8]) -> Result<usize, MediaParserError> {
        self.reads.set(self.reads.get() + 1);
        self.ranges.borrow_mut().push((offset, buf.len()));
        Ok(copy_into(&self.bytes, offset, buf))
    }

    fn size(&self) -> u64 {
        self.bytes.len() as u64
    }
}

struct FaultingReader {
    bytes: Vec<u8>,
    fault_offset: u64,
    short_read: bool,
}

impl ByteSource for FaultingReader {
    fn read_at(&self, offset: u64, buf: &mut [u8]) -> Result<usize, MediaParserError> {
        if offset == self.fault_offset {
            if !self.short_read {
                return Err(MediaParserError::Io(
                    "injected sample read failure".to_owned(),
                ));
            }
            let shortened = buf.len().saturating_sub(1);
            return Ok(copy_into(&self.bytes, offset, &mut buf[..shortened]));
        }
        Ok(copy_into(&self.bytes, offset, buf))
    }

    fn size(&self) -> u64 {
        self.bytes.len() as u64
    }
}

fn read_index(source: &dyn ByteSource) -> Result<SubtitleIndex, MediaParserError> {
    let moov = read_moov(source)?;
    let (index, _) = SubtitleIndex::from_moov(
        &moov,
        MAX_TRAKS,
        MAX_INDEXED_SUBTITLE_SAMPLES,
        MAX_RETAINED_INDEX_BYTES,
    )?;
    Ok(index)
}

fn extract(
    index: &SubtitleIndex,
    source: &dyn ByteSource,
    mut extraction: SubtitleExtraction,
) -> Result<Vec<SubtitleTrack>, MediaParserError> {
    loop {
        match extraction.advance(index)? {
            ExtractionStep::Done => return Ok(extraction.finish()),
            ExtractionStep::Pass => {}
            ExtractionStep::Read(reads) => {
                let IndexedTrackState::Ready(track) = &index.tracks[reads.track] else {
                    panic!("only ready tracks are read");
                };
                let mut data = Vec::new();
                for batch in &reads.batches {
                    let mut buf = vec![0; batch.size];
                    let count = source.read_at(batch.offset, &mut buf)?;
                    buf.truncate(count);
                    data.push(buf);
                }
                extraction.supply(track, reads.selected, reads.batches, data)?;
            }
        }
    }
}

trait Subtitles {
    fn subtitles(
        &self,
        source: &dyn ByteSource,
        filter: Option<TrackFilter>,
        range: Option<(Duration, Duration)>,
    ) -> Result<Vec<SubtitleTrack>, MediaParserError>;

    fn subtitles_first(
        &self,
        source: &dyn ByteSource,
        range: Option<(Duration, Duration)>,
    ) -> Result<Vec<SubtitleTrack>, MediaParserError>;
}

fn request(
    filter: Option<TrackFilter>,
    range: Option<(Duration, Duration)>,
    first_only: bool,
) -> Result<SubtitleExtraction, MediaParserError> {
    validate_subtitle_range(range)?;
    SubtitleExtraction::new(
        filter,
        range,
        first_only,
        SubtitleRequestLimits::standard(),
        subtitle_read_limits(),
    )
}

impl Subtitles for SubtitleIndex {
    fn subtitles(
        &self,
        source: &dyn ByteSource,
        filter: Option<TrackFilter>,
        range: Option<(Duration, Duration)>,
    ) -> Result<Vec<SubtitleTrack>, MediaParserError> {
        extract(self, source, request(filter, range, false)?)
    }

    fn subtitles_first(
        &self,
        source: &dyn ByteSource,
        range: Option<(Duration, Duration)>,
    ) -> Result<Vec<SubtitleTrack>, MediaParserError> {
        extract(self, source, request(None, range, true)?)
    }
}

fn read_subtitles_in_range(
    source: &dyn ByteSource,
    filter: Option<TrackFilter>,
    range: Option<(Duration, Duration)>,
) -> Result<Vec<SubtitleTrack>, MediaParserError> {
    validate_subtitle_range(range)?;
    read_index(source)?.subtitles(source, filter, range)
}

fn read_subtitles(
    source: &dyn ByteSource,
    filter: Option<TrackFilter>,
) -> Result<Vec<SubtitleTrack>, MediaParserError> {
    read_subtitles_in_range(source, filter, None)
}

fn parse_subtitles(
    source: &dyn ByteSource,
    filter: Option<TrackFilter>,
    range: Option<(Duration, Duration)>,
) -> Result<Vec<SubtitleTrack>, MediaParserError> {
    validate_subtitle_range(range)?;
    let mut header = [0; 32];
    let count = source.read_at(0, &mut header)?;
    match require_format(&header[..count])? {
        Format::Mp4 => read_subtitles_in_range(source, filter, range),
        Format::Mp3 => Ok(Vec::new()),
    }
}

struct MediaParser<'a>(&'a dyn ByteSource);

impl MediaParser<'_> {
    fn subtitles(
        &self,
        filter: Option<TrackFilter>,
    ) -> Result<Vec<SubtitleTrack>, MediaParserError> {
        parse_subtitles(self.0, filter, None)
    }

    fn subtitles_in_range(
        &self,
        filter: Option<TrackFilter>,
        range: (Duration, Duration),
    ) -> Result<Vec<SubtitleTrack>, MediaParserError> {
        parse_subtitles(self.0, filter, Some(range))
    }
}

fn property<'a>(base: &'a BaseTrackMeta, name: &str) -> &'a str {
    base.properties
        .iter()
        .find(|pair| pair.0 == name)
        .map(|pair| pair.1.as_str())
        .expect("property is there")
}

fn mp4_box(fourcc: &[u8; 4], payload: &[u8]) -> Vec<u8> {
    let size = u32::try_from(payload.len() + 8).expect("test box fits u32");
    [size.to_be_bytes().as_slice(), fourcc.as_slice(), payload].concat()
}

fn full_box(fourcc: &[u8; 4], body: &[u8]) -> Vec<u8> {
    mp4_box(fourcc, &[&[0, 0, 0, 0], body].concat())
}

fn encoded_language(language: &[u8; 3]) -> u16 {
    language.iter().fold(0u16, |value, character| {
        (value << 5) | u16::from(character - b'`')
    })
}

fn tkhd(track_id: u32, duration: u32) -> Vec<u8> {
    let mut body = vec![0u8; 80];
    body[8..12].copy_from_slice(&track_id.to_be_bytes());
    body[16..20].copy_from_slice(&duration.to_be_bytes());
    full_box(b"tkhd", &body)
}

fn mdhd(language: &[u8; 3], duration: u32) -> Vec<u8> {
    let mut body = vec![0u8; 20];
    body[8..12].copy_from_slice(&1000u32.to_be_bytes());
    body[12..16].copy_from_slice(&duration.to_be_bytes());
    body[16..18].copy_from_slice(&encoded_language(language).to_be_bytes());
    full_box(b"mdhd", &body)
}

fn hdlr() -> Vec<u8> {
    let mut body = vec![0u8; 8];
    body[4..8].copy_from_slice(b"sbtl");
    full_box(b"hdlr", &body)
}

fn stsd(codec: &[u8; 4]) -> Vec<u8> {
    stsd_entries(&[*codec])
}

fn stsd_entries(codecs: &[[u8; 4]]) -> Vec<u8> {
    let entries = codecs
        .iter()
        .map(|codec| mp4_box(codec, &[0; 8]))
        .collect::<Vec<_>>()
        .concat();
    full_box(
        b"stsd",
        &[
            u32::try_from(codecs.len())
                .unwrap()
                .to_be_bytes()
                .as_slice(),
            entries.as_slice(),
        ]
        .concat(),
    )
}

fn stts(sample_count: u32) -> Vec<u8> {
    stts_entries(&[(sample_count, 1000)])
}

fn stts_entries(entries: &[(u32, u32)]) -> Vec<u8> {
    let mut body = Vec::from(u32::try_from(entries.len()).unwrap().to_be_bytes());
    for (sample_count, sample_delta) in entries {
        body.extend_from_slice(&sample_count.to_be_bytes());
        body.extend_from_slice(&sample_delta.to_be_bytes());
    }
    full_box(b"stts", &body)
}

fn stsc(sample_count: u32) -> Vec<u8> {
    stsc_runs(&[(1, sample_count, 1)])
}

fn stsc_runs(runs: &[(u32, u32, u32)]) -> Vec<u8> {
    let mut body = Vec::from(u32::try_from(runs.len()).unwrap().to_be_bytes());
    for (first_chunk, samples_per_chunk, description_index) in runs {
        body.extend_from_slice(&first_chunk.to_be_bytes());
        body.extend_from_slice(&samples_per_chunk.to_be_bytes());
        body.extend_from_slice(&description_index.to_be_bytes());
    }
    full_box(b"stsc", &body)
}

fn stsz(samples: &[Vec<u8>]) -> Vec<u8> {
    let mut body = Vec::from(0u32.to_be_bytes());
    body.extend_from_slice(&(samples.len() as u32).to_be_bytes());
    for sample in samples {
        body.extend_from_slice(&(sample.len() as u32).to_be_bytes());
    }
    full_box(b"stsz", &body)
}

fn fixed_stsz(sample_size: u32, sample_count: u32) -> Vec<u8> {
    full_box(
        b"stsz",
        &[
            sample_size.to_be_bytes().as_slice(),
            sample_count.to_be_bytes().as_slice(),
        ]
        .concat(),
    )
}

fn stco(marker: u32) -> Vec<u8> {
    stco_markers(&[marker])
}

fn stco_markers(markers: &[u32]) -> Vec<u8> {
    let mut body = Vec::from(u32::try_from(markers.len()).unwrap().to_be_bytes());
    for marker in markers {
        body.extend_from_slice(&marker.to_be_bytes());
    }
    full_box(b"stco", &body)
}

fn co64_markers(markers: &[u64]) -> Vec<u8> {
    let mut body = Vec::from(u32::try_from(markers.len()).unwrap().to_be_bytes());
    for marker in markers {
        body.extend_from_slice(&marker.to_be_bytes());
    }
    full_box(b"co64", &body)
}

fn subtitle_track(
    track_id: u32,
    language: &[u8; 3],
    samples: &[Vec<u8>],
    offset_marker: u32,
    presentation_offset: Option<i32>,
) -> Vec<u8> {
    subtitle_track_with_tables(
        track_id,
        language,
        samples,
        stsd(b"tx3g"),
        stsc(samples.len() as u32),
        stco(offset_marker),
        presentation_offset,
    )
}

fn subtitle_track_with_tables(
    track_id: u32,
    language: &[u8; 3],
    samples: &[Vec<u8>],
    stsd: Vec<u8>,
    stsc: Vec<u8>,
    stco: Vec<u8>,
    presentation_offset: Option<i32>,
) -> Vec<u8> {
    subtitle_track_with_timing(
        track_id,
        language,
        samples,
        stsd,
        stts(samples.len() as u32),
        stsc,
        stco,
        presentation_offset,
    )
}

#[allow(clippy::too_many_arguments)]
fn subtitle_track_with_timing(
    track_id: u32,
    language: &[u8; 3],
    samples: &[Vec<u8>],
    stsd: Vec<u8>,
    stts: Vec<u8>,
    stsc: Vec<u8>,
    stco: Vec<u8>,
    presentation_offset: Option<i32>,
) -> Vec<u8> {
    let duration = u32::try_from(samples.len()).unwrap() * 1000;
    subtitle_track_with_timing_and_duration(
        track_id,
        language,
        samples,
        stsd,
        stts,
        stsc,
        stco,
        presentation_offset,
        duration,
    )
}

#[allow(clippy::too_many_arguments)]
fn subtitle_track_with_timing_and_duration(
    track_id: u32,
    language: &[u8; 3],
    samples: &[Vec<u8>],
    stsd: Vec<u8>,
    stts: Vec<u8>,
    stsc: Vec<u8>,
    stco: Vec<u8>,
    presentation_offset: Option<i32>,
    duration: u32,
) -> Vec<u8> {
    let stbl = mp4_box(b"stbl", &[stsd, stts, stsc, stsz(samples), stco].concat());
    let minf = mp4_box(b"minf", &stbl);
    let mdia = mp4_box(b"mdia", &[mdhd(language, duration), hdlr(), minf].concat());
    let edit = presentation_offset.map(|media_time| {
        let entry = [
            1u32.to_be_bytes().as_slice(),
            duration.to_be_bytes().as_slice(),
            media_time.to_be_bytes().as_slice(),
            0x0001_0000u32.to_be_bytes().as_slice(),
        ]
        .concat();
        mp4_box(b"edts", &full_box(b"elst", &entry))
    });
    let mut children = vec![tkhd(track_id, duration)];
    children.extend(edit);
    children.push(mdia);
    mp4_box(b"trak", &children.concat())
}

fn fixed_size_subtitle_track(
    track_id: u32,
    language: &[u8; 3],
    samples: &[Vec<u8>],
    declared_sample_count: u32,
    offset_marker: u32,
) -> Vec<u8> {
    let sample_size = u32::try_from(samples[0].len()).expect("test sample size fits u32");
    assert!(
        samples
            .iter()
            .all(|sample| sample.len() == sample_size as usize)
    );
    let duration = u32::try_from(samples.len()).unwrap() * 1000;
    let stbl = mp4_box(
        b"stbl",
        &[
            stsd(b"tx3g"),
            stts(samples.len() as u32),
            stsc(samples.len() as u32),
            fixed_stsz(sample_size, declared_sample_count),
            stco(offset_marker),
        ]
        .concat(),
    );
    let minf = mp4_box(b"minf", &stbl);
    let mdia = mp4_box(b"mdia", &[mdhd(language, duration), hdlr(), minf].concat());
    mp4_box(b"trak", &[tkhd(track_id, duration), mdia].concat())
}

fn tx3g(text: &str) -> Vec<u8> {
    let bytes = text.as_bytes();
    [
        u16::try_from(bytes.len()).unwrap().to_be_bytes().as_slice(),
        bytes,
    ]
    .concat()
}

fn patch_marker(bytes: &mut [u8], marker: u32, replacement: u32) {
    let marker = marker.to_be_bytes();
    let position = bytes
        .windows(marker.len())
        .position(|window| window == marker)
        .expect("unique stco marker");
    bytes[position..position + 4].copy_from_slice(&replacement.to_be_bytes());
}

fn patch_marker_u64(bytes: &mut [u8], marker: u64, replacement: u64) {
    let marker = marker.to_be_bytes();
    let position = bytes
        .windows(marker.len())
        .position(|window| window == marker)
        .expect("unique co64 marker");
    bytes[position..position + 8].copy_from_slice(&replacement.to_be_bytes());
}

fn subtitle_mp4() -> Vec<u8> {
    subtitle_mp4_with_edit(None)
}

fn single_codec_subtitle_mp4(codec: &[u8; 4], sample: Vec<u8>) -> Vec<u8> {
    let offset: u32 = 0xc1c2_c3c4;
    let samples = [sample];
    let ftyp = mp4_box(b"ftyp", b"isom\0\0\0\0isom");
    let moov = mp4_box(
        b"moov",
        &subtitle_track_with_tables(
            1,
            b"eng",
            &samples,
            stsd(codec),
            stsc(1),
            stco(offset),
            None,
        ),
    );
    let payload = samples.concat();
    let mdat = mp4_box(b"mdat", &payload);
    let mut file = [ftyp, moov, mdat].concat();
    let payload_offset = file.len() - payload.len();
    patch_marker(&mut file, offset, payload_offset as u32);
    file
}

fn subtitle_mp4_with_edit(presentation_offset: Option<i32>) -> Vec<u8> {
    let english_offset: u32 = 0xf1f2_f3f4;
    let spanish_offset: u32 = 0xe1e2_e3e4;
    let english = [tx3g("First"), tx3g("Second")];
    let spanish = [tx3g("Hola")];
    let ftyp = mp4_box(b"ftyp", b"isom\0\0\0\0isom");
    let moov = mp4_box(
        b"moov",
        &[
            subtitle_track(1, b"eng", &english, english_offset, presentation_offset),
            subtitle_track(2, b"spa", &spanish, spanish_offset, None),
        ]
        .concat(),
    );
    let english_payload = english.concat();
    let spanish_payload = spanish.concat();
    let mdat = mp4_box(
        b"mdat",
        &[english_payload.as_slice(), spanish_payload.as_slice()].concat(),
    );
    let mut file = [ftyp, moov, mdat].concat();
    let mdat_payload = file.len() - english_payload.len() - spanish_payload.len();
    patch_marker(&mut file, english_offset, mdat_payload as u32);
    patch_marker(
        &mut file,
        spanish_offset,
        (mdat_payload + english_payload.len()) as u32,
    );
    file
}

fn fixed_stsz_count_mismatch_mp4() -> Vec<u8> {
    let english_offset: u32 = 0xa7a8_a9aa;
    let spanish_offset: u32 = 0xb7b8_b9ba;
    let english = [tx3g("One"), tx3g("Two")];
    let spanish = [tx3g("Hola")];
    let ftyp = mp4_box(b"ftyp", b"isom\0\0\0\0isom");
    let moov = mp4_box(
        b"moov",
        &[
            fixed_size_subtitle_track(1, b"eng", &english, u32::MAX, english_offset),
            subtitle_track(2, b"spa", &spanish, spanish_offset, None),
        ]
        .concat(),
    );
    let english_payload = english.concat();
    let spanish_payload = spanish.concat();
    let mdat = mp4_box(
        b"mdat",
        &[english_payload.as_slice(), spanish_payload.as_slice()].concat(),
    );
    let mut file = [ftyp, moov, mdat].concat();
    let mdat_payload = file.len() - english_payload.len() - spanish_payload.len();
    patch_marker(&mut file, english_offset, mdat_payload as u32);
    patch_marker(
        &mut file,
        spanish_offset,
        (mdat_payload + english_payload.len()) as u32,
    );
    file
}

fn same_language_subtitle_mp4() -> Vec<u8> {
    let mut bytes = subtitle_mp4();
    let spanish_language = encoded_language(b"spa").to_be_bytes();
    let language_offset = bytes
        .windows(spanish_language.len())
        .rposition(|window| window == spanish_language)
        .expect("Spanish mdhd language");
    bytes[language_offset..language_offset + 2]
        .copy_from_slice(&encoded_language(b"eng").to_be_bytes());
    bytes
}

fn description_policy_mp4(second_codec: [u8; 4], referenced: bool) -> Vec<u8> {
    let english_first: u32 = 0xa1a2_a3a4;
    let english_second: u32 = 0xb1b2_b3b4;
    let spanish_offset: u32 = 0xc1c2_c3c4;
    let english = [tx3g("First"), tx3g("Second")];
    let spanish = [tx3g("Hola")];
    let (runs, markers) = if referenced {
        (
            vec![(1, 1, 1), (2, 1, 2)],
            vec![english_first, english_second],
        )
    } else {
        (vec![(1, 2, 1)], vec![english_first])
    };
    let english_track = subtitle_track_with_tables(
        1,
        b"eng",
        &english,
        stsd_entries(&[*b"tx3g", second_codec]),
        stsc_runs(&runs),
        stco_markers(&markers),
        None,
    );
    let spanish_track = subtitle_track(2, b"spa", &spanish, spanish_offset, None);
    let ftyp = mp4_box(b"ftyp", b"isom\0\0\0\0isom");
    let moov = mp4_box(b"moov", &[english_track, spanish_track].concat());
    let english_payload = english.concat();
    let spanish_payload = spanish.concat();
    let mdat = mp4_box(
        b"mdat",
        &[english_payload.as_slice(), spanish_payload.as_slice()].concat(),
    );
    let mut file = [ftyp, moov, mdat].concat();
    let payload_offset = file.len() - english_payload.len() - spanish_payload.len();
    patch_marker(&mut file, english_first, payload_offset as u32);
    if referenced {
        patch_marker(
            &mut file,
            english_second,
            (payload_offset + english[0].len()) as u32,
        );
    }
    patch_marker(
        &mut file,
        spanish_offset,
        (payload_offset + english_payload.len()) as u32,
    );
    file
}

fn zero_delta_subtitle_mp4() -> Vec<u8> {
    let offset: u32 = 0xd1d2_d3d4;
    let samples = [tx3g("First"), tx3g("Gap"), tx3g("Third")];
    let track = subtitle_track_with_timing_and_duration(
        1,
        b"eng",
        &samples,
        stsd(b"tx3g"),
        stts_entries(&[(1, 1_000), (1, 0), (1, 1_000)]),
        stsc(3),
        stco(offset),
        None,
        2_000,
    );
    let ftyp = mp4_box(b"ftyp", b"isom\0\0\0\0isom");
    let moov = mp4_box(b"moov", &track);
    let payload = samples.concat();
    let mdat = mp4_box(b"mdat", &payload);
    let mut file = [ftyp, moov, mdat].concat();
    let payload_offset = file.len() - payload.len();
    patch_marker(&mut file, offset, payload_offset as u32);
    file
}

/// Two chunks holding one sample each, separated by real padding wider than the
/// shipped `max_coalesce_gap_bytes`, so the pair cannot merge into one read
/// batch. That ceiling is private to the subtitle module, hence the literal.
/// Returns the file plus the absolute offset of each sample.
fn multi_chunk_subtitle_mp4() -> (Vec<u8>, u64, u64) {
    let first_offset: u32 = 0x9192_9394;
    let second_offset: u32 = 0x8182_8384;
    let chunk_gap: usize = 64 * 1024 + 1;
    let samples = [tx3g("First"), tx3g("Second")];
    let ftyp = mp4_box(b"ftyp", b"isom\0\0\0\0isom");
    let moov = mp4_box(
        b"moov",
        &subtitle_track_with_tables(
            1,
            b"eng",
            &samples,
            stsd(b"tx3g"),
            stsc_runs(&[(1, 1, 1), (2, 1, 1)]),
            stco_markers(&[first_offset, second_offset]),
            None,
        ),
    );
    let padding = vec![0u8; chunk_gap];
    let payload = [
        samples[0].as_slice(),
        padding.as_slice(),
        samples[1].as_slice(),
    ]
    .concat();
    let mdat = mp4_box(b"mdat", &payload);
    let mut file = [ftyp, moov, mdat].concat();
    let first_sample = file.len() - payload.len();
    let second_sample = first_sample + samples[0].len() + chunk_gap;
    patch_marker(&mut file, first_offset, first_sample as u32);
    patch_marker(&mut file, second_offset, second_sample as u32);
    (file, first_sample as u64, second_sample as u64)
}

/// Two chunks addressed by a `co64` table whose small, real offsets are encoded
/// as 64-bit entries, so the second entry is only reachable through the 8-byte
/// stride and the 64-bit read.
fn co64_subtitle_mp4() -> Vec<u8> {
    let first_offset: u64 = 0xf1f2_f3f4_f5f6_f7f8;
    let second_offset: u64 = 0xe1e2_e3e4_e5e6_e7e8;
    let samples = [tx3g("First"), tx3g("Second")];
    let ftyp = mp4_box(b"ftyp", b"isom\0\0\0\0isom");
    let moov = mp4_box(
        b"moov",
        &subtitle_track_with_tables(
            1,
            b"eng",
            &samples,
            stsd(b"tx3g"),
            stsc_runs(&[(1, 1, 1), (2, 1, 1)]),
            co64_markers(&[first_offset, second_offset]),
            None,
        ),
    );
    let payload = samples.concat();
    let mdat = mp4_box(b"mdat", &payload);
    let mut file = [ftyp, moov, mdat].concat();
    let first_sample = file.len() - payload.len();
    patch_marker_u64(&mut file, first_offset, first_sample as u64);
    patch_marker_u64(
        &mut file,
        second_offset,
        (first_sample + samples[0].len()) as u64,
    );
    file
}

fn patch_first_track_id(bytes: &mut [u8], track_id: u32) {
    let tkhd_fourcc = bytes
        .windows(4)
        .position(|window| window == b"tkhd")
        .expect("first tkhd");
    let track_id_offset = tkhd_fourcc + 16;
    bytes[track_id_offset..track_id_offset + 4].copy_from_slice(&track_id.to_be_bytes());
}

fn find_bytes(bytes: &[u8], needle: &[u8]) -> usize {
    bytes
        .windows(needle.len())
        .position(|window| window == needle)
        .expect("fixture byte sequence")
}

#[test]
fn high_level_subtitles_dispatches_synthetic_mp4() {
    let parser = MediaParser(&BytesReader(subtitle_mp4()));

    let tracks = parser
        .subtitles(None)
        .expect("extract all high-level subtitles");

    assert_eq!(tracks.len(), 2);
    assert_eq!(tracks[0].base.id, 1);
    assert_eq!(tracks[0].cues.len(), 2);
    assert_eq!(tracks[0].cues[0].text, "First");
    assert_eq!(tracks[1].base.id, 2);
    assert_eq!(tracks[1].cues[0].text, "Hola");
}

#[test]
fn high_level_subtitles_decodes_wvtt_vttc_payload() {
    let sample = mp4_box(b"vttc", &mp4_box(b"payl", b"WebVTT cue"));
    let parser = MediaParser(&BytesReader(single_codec_subtitle_mp4(b"wvtt", sample)));

    let tracks = parser.subtitles(None).expect("extract WebVTT track");

    assert_eq!(tracks.len(), 1);
    assert_eq!(tracks[0].base.codec, "wvtt");
    assert_eq!(tracks[0].cues.len(), 1);
    assert_eq!(tracks[0].cues[0].text, "WebVTT cue");
}

#[test]
fn high_level_subtitles_decodes_length_prefixed_quicktime_text() {
    let parser = MediaParser(&BytesReader(single_codec_subtitle_mp4(
        b"text",
        tx3g("QuickTime cue!"),
    )));

    let tracks = parser
        .subtitles(None)
        .expect("extract QuickTime text track");

    assert_eq!(tracks.len(), 1);
    assert_eq!(tracks[0].base.codec, "text");
    assert_eq!(tracks[0].cues.len(), 1);
    assert_eq!(tracks[0].cues[0].text, "QuickTime cue!");
}

#[test]
fn high_level_subtitles_preserves_stpp_payload() {
    let parser = MediaParser(&BytesReader(single_codec_subtitle_mp4(
        b"stpp",
        b"<p>cue</p>".to_vec(),
    )));

    let tracks = parser.subtitles(None).expect("extract stpp track");

    assert_eq!(tracks.len(), 1);
    assert_eq!(tracks[0].base.codec, "stpp");
    assert_eq!(tracks[0].cues.len(), 1);
    assert_eq!(tracks[0].cues[0].text, "<p>cue</p>");
}

#[test]
fn high_level_subtitles_in_range_dispatches_synthetic_mp4() {
    let parser = MediaParser(&BytesReader(subtitle_mp4()));

    let tracks = parser
        .subtitles_in_range(
            Some(TrackFilter::Language("eng".to_owned())),
            (Duration::from_secs(1), Duration::from_secs(2)),
        )
        .expect("extract high-level ranged subtitles");

    assert_eq!(tracks.len(), 1);
    assert_eq!(tracks[0].base.id, 1);
    assert_eq!(tracks[0].cues.len(), 1);
    assert_eq!(tracks[0].cues[0].cue_id, 2);
    assert_eq!(tracks[0].cues[0].text, "Second");
}

#[test]
fn high_level_subtitles_returns_empty_for_mp3_without_mp4_parsing() {
    let mut bytes = vec![0; 32];
    bytes[..3].copy_from_slice(b"ID3");
    let reader = CountingReader::new(bytes);
    let parser = MediaParser(&reader);

    let tracks = parser
        .subtitles(None)
        .expect("MP3 has no subtitle tracks");

    assert!(tracks.is_empty());
    assert_eq!(reader.ranges(), vec![(0, 32)]);
}

#[test]
fn high_level_invalid_subtitle_ranges_perform_no_reads() {
    for range in [
        (Duration::from_secs(1), Duration::from_secs(1)),
        (Duration::from_secs(2), Duration::from_secs(1)),
    ] {
        let reader = CountingReader::new(subtitle_mp4());
        let parser = MediaParser(&reader);

        parser
            .subtitles_in_range(None, range)
            .expect_err("invalid high-level subtitle range");

        assert_eq!(reader.reads(), 0);
    }
}

#[test]
fn high_level_registry_invalid_subtitle_ranges_perform_no_reads() {
    for range in [
        (Duration::from_secs(1), Duration::from_secs(1)),
        (Duration::from_secs(2), Duration::from_secs(1)),
    ] {
        let reader = CountingReader::new(subtitle_mp4());

        let error = parse_subtitles(&reader, None, Some(range))
            .expect_err("invalid registry subtitle range");

        assert!(matches!(error, MediaParserError::SubtitleError(_)));
        assert_eq!(reader.reads(), 0);
    }
}

#[test]
fn high_level_subtitles_unknown_format_reads_one_header() {
    let reader = CountingReader::new(vec![0; 32]);
    let parser = MediaParser(&reader);

    let error = parser
        .subtitles(None)
        .expect_err("unknown format must not dispatch subtitles");

    assert!(matches!(error, MediaParserError::InvalidFormat(_)));
    assert_eq!(reader.ranges(), vec![(0, 32)]);
}

#[test]
fn public_mp4_subtitle_apis_extract_and_reuse_index() {
    let reader = BytesReader(subtitle_mp4());
    let index = read_index(&reader).expect("build index");

    let indexed = index
        .subtitles(&reader, None, None)
        .expect("extract indexed subtitles");
    assert_eq!(indexed.len(), 2);
    assert_eq!(indexed[0].cues[0].cue_id, 1);
    assert_eq!(indexed[0].cues[0].text, "First");

    let ranged = read_subtitles_in_range(
        &reader,
        Some(TrackFilter::Language("ENG".to_owned())),
        Some((Duration::from_millis(900), Duration::from_millis(1100))),
    )
    .expect("extract ranged English subtitles");
    assert_eq!(ranged.len(), 1);
    assert_eq!(ranged[0].cues.len(), 2);
    assert_eq!(ranged[0].cues[0].start_time, Duration::zero());
    assert_eq!(ranged[0].cues[1].start_time, Duration::from_secs(1));

    let filtered = read_subtitles(&reader, Some(TrackFilter::TrackId(1)))
        .expect("extract track 1");
    assert_eq!(filtered.len(), 1);
    assert_eq!(filtered[0].cues.len(), 2);
    assert_eq!(filtered[0].base.properties.len(), 3);
    assert_eq!(property(&filtered[0].base, "handler_type"), "sbtl");
    assert_eq!(property(&filtered[0].base, "sample_count"), "2");
    assert_eq!(property(&filtered[0].base, "cue_count"), "2");
}

#[test]
fn hardening_invalid_ranges_perform_no_reads() {
    let reader = CountingReader::new(subtitle_mp4());

    for range in [
        (Duration::from_secs(1), Duration::from_secs(1)),
        (Duration::from_secs(2), Duration::from_secs(1)),
    ] {
        read_subtitles_in_range(&reader, None, Some(range))
            .expect_err("invalid thin-wrapper range");
    }
    assert_eq!(reader.reads(), 0);

    let index = read_index(&reader).expect("build index");
    let reads_after_index = reader.reads();
    index
        .subtitles(
            &reader,
            None,
            Some((Duration::from_secs(2), Duration::from_secs(1))),
        )
        .expect_err("invalid reusable-index range");
    assert_eq!(reader.reads(), reads_after_index);
}

#[test]
fn hardening_trak_limit_counts_irrelevant_and_malformed_boxes() {
    let malformed = mp4_box(b"trak", &[]);
    let accepted = BytesReader(mp4_box(b"moov", &malformed.repeat(1000)));
    read_index(&accepted)
        .expect("exactly 1000 trak boxes are accepted");

    let rejected = BytesReader(mp4_box(b"moov", &malformed.repeat(1001)));
    let error = read_index(&rejected)
        .expect_err("1001st trak must fail before relevance checks");
    assert!(error.message().contains("1000"), "{error:?}");
}

#[test]
fn hardening_track_local_decode_failure_never_returns_a_partial_track() {
    let mut bytes = subtitle_mp4();
    let text = find_bytes(&bytes, b"First");
    bytes[text - 2..text].copy_from_slice(&u16::MAX.to_be_bytes());
    let reader = BytesReader(bytes);
    let index = read_index(&reader).expect("build index");

    let broad = index
        .subtitles(&reader, None, None)
        .expect("broad request skips bad track");
    assert_eq!(broad.len(), 1);
    assert_eq!(broad[0].base.id, 2);

    index
        .subtitles(&reader, Some(TrackFilter::TrackId(1)), None)
        .expect_err("explicit bad track reports its decode error");
}

#[test]
fn hardening_invalid_first_track_offset_is_skipped_broadly_and_by_language() {
    let mut bytes = same_language_subtitle_mp4();
    let first_stco = find_bytes(&bytes, b"stco") + 12;
    bytes[first_stco..first_stco + 4].copy_from_slice(&u32::MAX.to_be_bytes());
    let reader = BytesReader(bytes);
    let index = read_index(&reader).expect("build index");

    for filter in [None, Some(TrackFilter::Language("eng".to_owned()))] {
        let tracks = index
            .subtitles(&reader, filter, None)
            .expect("track-local offset failure is skipped");
        assert_eq!(tracks.len(), 1);
        assert_eq!(tracks[0].base.id, 2);
    }

    let error = index
        .subtitles(&reader, Some(TrackFilter::TrackId(1)), None)
        .expect_err("explicit malformed track reports its sample offset error");
    assert!(
        error.message().contains("truncated sample batch"),
        "{error:?}"
    );
}

#[test]
fn hardening_short_first_track_read_is_track_local_but_reader_error_is_fatal() {
    let bytes = same_language_subtitle_mp4();
    let first_sample = u64::try_from(find_bytes(&bytes, &[0, 5, b'F', b'i'])).unwrap();
    let short = FaultingReader {
        bytes: bytes.clone(),
        fault_offset: first_sample,
        short_read: true,
    };
    let index = read_index(&short).expect("build index");

    let tracks = index
        .subtitles(&short, Some(TrackFilter::Language("eng".to_owned())), None)
        .expect("short sample data skips only the first track");
    assert_eq!(tracks.len(), 1);
    assert_eq!(tracks[0].base.id, 2);
    index
        .subtitles(&short, Some(TrackFilter::TrackId(1)), None)
        .expect_err("explicit truncated track errors");

    let fatal = FaultingReader {
        bytes,
        fault_offset: first_sample,
        short_read: false,
    };
    let fatal_index = read_index(&fatal).expect("build index");
    let error = fatal_index
        .subtitles(&fatal, None, None)
        .expect_err("reader I/O failure aborts a broad request");
    assert!(matches!(error, MediaParserError::Io(_)));
}

#[test]
fn hardening_track_id_zero_is_an_ordinary_exact_filter() {
    let mut bytes = subtitle_mp4();
    patch_first_track_id(&mut bytes, 0);
    let reader = BytesReader(bytes);

    let tracks = read_subtitles(&reader, Some(TrackFilter::TrackId(0)))
        .expect("extract exact ID zero");
    assert_eq!(tracks.len(), 1);
    assert_eq!(tracks[0].base.id, 0);
    assert!(
        read_subtitles(&reader, Some(TrackFilter::TrackId(99)))
            .unwrap()
            .is_empty()
    );
}

#[test]
fn hardening_edit_offset_clamps_crossing_cue_and_drops_zero_length_gap() {
    let reader = BytesReader(subtitle_mp4_with_edit(Some(500)));
    let tracks = read_subtitles(&reader, Some(TrackFilter::TrackId(1)))
        .expect("extract edited track");
    assert_eq!(tracks[0].cues[0].start_time, Duration::zero());
    assert_eq!(tracks[0].cues[0].end_time, Duration::from_millis(500));
    assert_eq!(tracks[0].cues[1].start_time, Duration::from_millis(500));

    let reader = BytesReader(subtitle_mp4_with_edit(Some(1000)));
    let tracks = read_subtitles(&reader, Some(TrackFilter::TrackId(1)))
        .expect("extract edited track with zero-length first cue");
    assert_eq!(tracks[0].cues.len(), 1);
    assert_eq!(tracks[0].cues[0].cue_id, 2);
    assert_eq!(tracks[0].cues[0].start_time, Duration::zero());
}

#[test]
fn hardening_range_selection_reads_only_overlapping_samples() {
    let bytes = subtitle_mp4();
    let first_sample = u64::try_from(find_bytes(&bytes, &[0, 5, b'F', b'i'])).unwrap();
    let second_sample = u64::try_from(find_bytes(&bytes, &[0, 6, b'S', b'e'])).unwrap();
    let reader = CountingReader::new(bytes);
    let index = read_index(&reader).expect("build index");
    let reads_after_index = reader.ranges().len();

    let tracks = index
        .subtitles(
            &reader,
            Some(TrackFilter::TrackId(1)),
            Some((Duration::from_millis(1100), Duration::from_millis(1200))),
        )
        .expect("extract narrow range");
    assert_eq!(tracks[0].cues.len(), 1);
    assert_eq!(tracks[0].cues[0].cue_id, 2);
    let sample_reads = &reader.ranges()[reads_after_index..];
    assert!(
        sample_reads
            .iter()
            .any(|(offset, _)| *offset == second_sample)
    );
    assert!(
        sample_reads
            .iter()
            .all(|(offset, _)| *offset != first_sample)
    );
}

#[test]
fn hardening_distant_chunks_are_read_as_separate_batches() {
    let (bytes, first_sample, second_sample) = multi_chunk_subtitle_mp4();
    let sizes = (tx3g("First").len(), tx3g("Second").len());
    let reader = CountingReader::new(bytes);
    let index = read_index(&reader).expect("build index");
    let reads_after_index = reader.ranges().len();

    let tracks = index
        .subtitles(&reader, None, None)
        .expect("extract both chunks");

    assert_eq!(tracks.len(), 1);
    assert_eq!(tracks[0].cues.len(), 2);
    assert_eq!(tracks[0].cues[0].text, "First");
    assert_eq!(tracks[0].cues[1].text, "Second");

    // Batches complete out of order, so compare the reads by offset rather than
    // by arrival.
    let mut sample_reads = reader.ranges()[reads_after_index..].to_vec();
    sample_reads.sort_by_key(|(offset, _)| *offset);
    assert_eq!(
        sample_reads,
        vec![(first_sample, sizes.0), (second_sample, sizes.1)]
    );
}

#[test]
fn hardening_co64_chunk_offsets_locate_every_chunk() {
    let reader = BytesReader(co64_subtitle_mp4());

    let tracks = read_subtitles(&reader, None)
        .expect("extract a co64-addressed track");

    assert_eq!(tracks.len(), 1);
    assert_eq!(tracks[0].cues.len(), 2);
    assert_eq!(tracks[0].cues[0].text, "First");
    assert_eq!(tracks[0].cues[1].text, "Second");
}

#[test]
fn hardening_half_open_range_excludes_end_and_includes_start_boundary() {
    let reader = BytesReader(subtitle_mp4());
    let tracks = read_subtitles_in_range(
        &reader,
        Some(TrackFilter::TrackId(1)),
        Some((Duration::from_secs(1), Duration::from_secs(2))),
    )
    .expect("extract exact half-open range");

    assert_eq!(tracks[0].cues.len(), 1);
    assert_eq!(tracks[0].cues[0].cue_id, 2);
    assert_eq!(tracks[0].cues[0].start_time, Duration::from_secs(1));
}

#[test]
fn hardening_zero_delta_sample_is_gap_with_stable_source_ids() {
    let reader = BytesReader(zero_delta_subtitle_mp4());
    let tracks = read_subtitles(&reader, Some(TrackFilter::TrackId(1)))
        .expect("extract track containing a genuine zero-delta timing gap");

    assert_eq!(tracks.len(), 1);
    assert_eq!(tracks[0].cues.len(), 2);
    assert_eq!(tracks[0].cues[0].cue_id, 1);
    assert_eq!(tracks[0].cues[0].start_time, Duration::zero());
    assert_eq!(tracks[0].cues[0].end_time, Duration::from_secs(1));
    assert_eq!(tracks[0].cues[1].cue_id, 3);
    assert_eq!(tracks[0].cues[1].start_time, Duration::from_secs(1));
    assert_eq!(tracks[0].cues[1].end_time, Duration::from_secs(2));
}

#[test]
fn hardening_empty_and_whitespace_samples_are_timing_gaps() {
    let mut bytes = subtitle_mp4();
    let first = find_bytes(&bytes, b"First");
    bytes[first..first + 5].copy_from_slice(b"     ");
    let reader = BytesReader(bytes);

    let tracks = read_subtitles(&reader, Some(TrackFilter::TrackId(1)))
        .expect("extract track with whitespace gap");
    assert_eq!(tracks[0].cues.len(), 1);
    assert_eq!(tracks[0].cues[0].cue_id, 2);
}

#[test]
fn hardening_unsupported_codec_is_skipped_broadly_and_errors_explicitly() {
    let mut bytes = subtitle_mp4();
    let codec = find_bytes(&bytes, b"tx3g");
    bytes[codec..codec + 4].copy_from_slice(b"junk");
    let reader = BytesReader(bytes);
    let index = read_index(&reader)
            .expect("index rejected track");

    let broad = index
        .subtitles(&reader, None, None)
        .unwrap();
    assert_eq!(broad.len(), 1);
    assert_eq!(broad[0].base.id, 2);
    index
        .subtitles(&reader, Some(TrackFilter::TrackId(1)), None)
        .expect_err("explicit unsupported track errors");
}

#[test]
fn subtitles_first_returns_only_the_first_track_in_physical_order() {
    let reader = BytesReader(subtitle_mp4());
    let index = read_index(&reader).expect("index subtitles");

    let tracks = index
        .subtitles_first(&reader, None)
        .expect("extract first subtitle track");

    assert_eq!(tracks.len(), 1);
    assert_eq!(tracks[0].base.id, 1);
}

#[test]
fn subtitles_first_skips_a_rejected_track_before_returning() {
    let mut bytes = subtitle_mp4();
    let codec = find_bytes(&bytes, b"tx3g");
    bytes[codec..codec + 4].copy_from_slice(b"junk");
    let reader = BytesReader(bytes);
    let index = read_index(&reader)
            .expect("index rejected first track");

    let tracks = index
        .subtitles_first(&reader, None)
        .expect("skip rejected track and extract next valid track");

    assert_eq!(tracks.len(), 1);
    assert_eq!(tracks[0].base.id, 2);
}

#[test]
fn hardening_malformed_table_is_retained_as_a_track_rejection() {
    let mut bytes = subtitle_mp4();
    let stsz = find_bytes(&bytes, b"stsz");
    let sample_count = stsz + 12;
    bytes[sample_count..sample_count + 4].copy_from_slice(&3u32.to_be_bytes());
    let reader = BytesReader(bytes);
    let index = read_index(&reader)
            .expect("index rejected track");

    let broad = index
        .subtitles(&reader, None, None)
        .unwrap();
    assert_eq!(broad.len(), 1);
    assert_eq!(broad[0].base.id, 2);
    let error = index
        .subtitles(&reader, Some(TrackFilter::TrackId(1)), None)
        .expect_err("explicit malformed track errors");
    assert!(error.message().contains("stsz"), "{error:?}");
}

#[test]
fn hardening_variable_stsz_count_above_limit_is_a_track_rejection() {
    let mut bytes = subtitle_mp4();
    let stsz = find_bytes(&bytes, b"stsz");
    let sample_count = stsz + 12;
    bytes[sample_count..sample_count + 4].copy_from_slice(&u32::MAX.to_be_bytes());
    let reader = BytesReader(bytes);
    let index = read_index(&reader)
            .expect("oversized malformed stsz should reject only its track");

    let broad = index
        .subtitles(&reader, None, None)
        .unwrap();
    assert_eq!(broad.len(), 1);
    assert_eq!(broad[0].base.id, 2);
    index
        .subtitles(&reader, Some(TrackFilter::TrackId(1)), None)
        .expect_err("explicit malformed variable-size track errors");
}

#[test]
fn hardening_oversized_sample_preserves_sibling_unless_explicitly_selected() {
    let mut bytes = subtitle_mp4();
    let stsz = find_bytes(&bytes, b"stsz");
    let first_sample_size = stsz + 16;
    bytes[first_sample_size..first_sample_size + 4]
        .copy_from_slice(&(2 * 1024 * 1024u32).to_be_bytes());
    let reader = BytesReader(bytes);
    let index = read_index(&reader).expect("index subtitles");

    let broad = index
        .subtitles(&reader, None, None)
        .expect("an oversized sample must reject only its track");
    assert_eq!(broad.len(), 1);
    assert_eq!(broad[0].base.id, 2);

    let error = index
        .subtitles(&reader, Some(TrackFilter::TrackId(1)), None)
        .expect_err("an explicitly selected oversized track must fail");
    assert!(
        error
            .message()
            .contains("invalid sample size: 2097152 bytes"),
        "{error:?}"
    );
}

#[test]
fn hardening_fixed_stsz_count_mismatch_is_a_track_rejection() {
    let reader = BytesReader(fixed_stsz_count_mismatch_mp4());
    let index = read_index(&reader)
            .expect("inconsistent fixed stsz should reject only its track");

    let broad = index
        .subtitles(&reader, None, None)
        .unwrap();
    assert_eq!(broad.len(), 1);
    assert_eq!(broad[0].base.id, 2);
    index
        .subtitles(&reader, Some(TrackFilter::TrackId(1)), None)
        .expect_err("explicit malformed fixed-size track errors");
}

fn assert_oversized_table_count_is_track_local(fourcc: [u8; 4]) {
    let mut bytes = subtitle_mp4();
    let table_fourcc = if fourcc == *b"co64" { *b"stco" } else { fourcc };
    let table = find_bytes(&bytes, &table_fourcc);
    bytes[table..table + 4].copy_from_slice(&fourcc);
    bytes[table + 8..table + 12].copy_from_slice(&u32::MAX.to_be_bytes());
    let reader = BytesReader(bytes);

    let index = read_index(&reader)
            .expect("oversized malformed table should reject only its track");
    let broad = index
        .subtitles(&reader, None, None)
        .unwrap();
    assert_eq!(broad.len(), 1);
    assert_eq!(broad[0].base.id, 2);
}

#[test]
fn hardening_oversized_stsd_count_is_track_local() {
    assert_oversized_table_count_is_track_local(*b"stsd");
}

#[test]
fn hardening_oversized_stts_count_is_track_local() {
    assert_oversized_table_count_is_track_local(*b"stts");
}

#[test]
fn hardening_oversized_stsc_count_is_track_local() {
    assert_oversized_table_count_is_track_local(*b"stsc");
}

#[test]
fn hardening_oversized_stco_count_is_track_local() {
    assert_oversized_table_count_is_track_local(*b"stco");
}

#[test]
fn hardening_oversized_co64_count_is_track_local() {
    assert_oversized_table_count_is_track_local(*b"co64");
}

#[test]
fn hardening_invalid_sample_description_reference_is_track_local() {
    let mut bytes = subtitle_mp4();
    let stsc = find_bytes(&bytes, b"stsc");
    let description_index = stsc + 20;
    bytes[description_index..description_index + 4].copy_from_slice(&2u32.to_be_bytes());
    let reader = BytesReader(bytes);
    let index = read_index(&reader)
            .expect("index rejected track");

    let broad = index
        .subtitles(&reader, None, None)
        .unwrap();
    assert_eq!(broad.len(), 1);
    assert_eq!(broad[0].base.id, 2);
    index
        .subtitles(&reader, Some(TrackFilter::TrackId(1)), None)
        .expect_err("explicit invalid description reference errors");
}

fn assert_description_policy_rejects_track(bytes: Vec<u8>) {
    let reader = BytesReader(bytes);
    let index = read_index(&reader)
            .expect("index rejected description policy track");
    let broad = index
        .subtitles(&reader, None, None)
        .unwrap();
    assert_eq!(broad.len(), 1);
    assert_eq!(broad[0].base.id, 2);
    index
        .subtitles(&reader, Some(TrackFilter::TrackId(1)), None)
        .expect_err("explicit rejected description track errors");
}

#[test]
fn hardening_mixed_referenced_supported_descriptions_reject_track() {
    assert_description_policy_rejects_track(description_policy_mp4(*b"wvtt", true));
}

#[test]
fn hardening_referenced_unsupported_description_rejects_track() {
    assert_description_policy_rejects_track(description_policy_mp4(*b"junk", true));
}

#[test]
fn hardening_unreferenced_unsupported_description_does_not_reject_track() {
    let reader = BytesReader(description_policy_mp4(*b"junk", false));
    let tracks = read_subtitles(&reader, Some(TrackFilter::TrackId(1)))
        .expect("only referenced descriptions control codec policy");

    assert_eq!(tracks.len(), 1);
    assert_eq!(tracks[0].base.codec, "tx3g");
    assert_eq!(tracks[0].cues.len(), 2);
}

#[test]
fn filtered_requests_report_the_filtered_list() {
    let reader = BytesReader(subtitle_mp4());
    let index = read_index(&reader).expect("build index");
    let ids = |filter| -> Vec<u32> {
        let tracks = index.subtitles(&reader, filter, None).expect("tracks are sound");
        tracks.iter().map(|track| track.base.id).collect()
    };

    assert_eq!(ids(None), vec![1, 2]);
    assert_eq!(ids(Some(TrackFilter::TrackId(2))), vec![2]);
    assert_eq!(ids(Some(TrackFilter::Language("ENG".to_owned()))), vec![1]);
    assert!(ids(Some(TrackFilter::TrackId(0))).is_empty());
    assert!(ids(Some(TrackFilter::Language("fra".to_owned()))).is_empty());
}

#[test]
fn ranged_requests_narrow_each_track() {
    let reader = BytesReader(subtitle_mp4());
    let index = read_index(&reader).expect("build index");
    let range = (Duration::from_millis(1_000), Duration::from_millis(1_500));

    let full = index.subtitles(&reader, None, None).expect("tracks are sound");
    let part = index
        .subtitles(&reader, None, Some(range))
        .expect("tracks are sound");

    assert_eq!(part.len(), full.len());
    for (part, full) in part.iter().zip(&full) {
        assert_eq!(part.base.id, full.base.id);
        let kept: Vec<_> = full
            .cues
            .iter()
            .filter(|cue| {
                cue.end_time.as_nanos() > range.0.as_nanos()
                    && cue.start_time.as_nanos() < range.1.as_nanos()
            })
            .map(|cue| (cue.cue_id, cue.start_time, cue.end_time, cue.text.clone()))
            .collect();
        let found: Vec<_> = part
            .cues
            .iter()
            .map(|cue| (cue.cue_id, cue.start_time, cue.end_time, cue.text.clone()))
            .collect();
        assert_eq!(found, kept);
    }
}
