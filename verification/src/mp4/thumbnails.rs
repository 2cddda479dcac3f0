//! Choosing the samples of a thumbnail from H.264 video tracks.

use vstd::prelude::*;

use crate::bytes::{bytes_equal, fourcc};
use crate::errors::{invalid_format, unsupported_codec_error, MediaParserError};
use crate::h264::config::{AvcConfig, DecodedImage};
use crate::mp4::avc::parse_avc_descriptions;
use crate::mp4::boxes::{find_box, iter_boxes, nav};
use crate::mp4::chunks::{sample_description_index, validate_sample_tables};
use crate::mp4::headers::{
    find_edit_list, parse_elst_media_time, parse_hdlr, parse_mdhd, parse_tkhd,
};
use crate::mp4::samples::{
    nearest_sync_sample, next_sync_sample, parse_chunk_offsets, parse_sample_sizes, parse_stsc,
    parse_stss, SampleSizes, StscEntry,
};
use crate::mp4::timing::{
    duration_to_ticks, parse_ctts, ticks_to_duration, CompositionOffset, PresentationTimeline,
    SampleSelection,
};
use crate::strings::join3;
use crate::time::Duration;
use crate::types::{Frame, PixelFormat};

verus! {

// ---------------------------------------------------------------------------
// The track
// ---------------------------------------------------------------------------

/// A video track that thumbnails are taken from.
#[derive(Debug)]
pub struct VideoTrack<'a> {
    pub id: u32,
    pub timescale: u32,
    pub duration: u64,
    pub presentation_offset: i64,
    pub stbl: &'a [u8],
}

/// What the boxes of a `trak` say of a video track.
pub struct VideoTrackFacts {
    pub id: u32,
    pub timescale: u32,
    pub duration: u64,
    pub stbl: Seq<u8>,
}

pub open spec fn stbl_path() -> Seq<Seq<u8>> {
    seq![crate::bytes::code('m', 'i', 'n', 'f'), crate::bytes::code('s', 't', 'b', 'l')]
}

/// The track header of a `trak`.
pub open spec fn tkhd_of(trak: Seq<u8>) -> Option<crate::mp4::headers::TrackHeader> {
    match crate::mp4::boxes::child(trak, crate::bytes::code('t', 'k', 'h', 'd')) {
        Some(tkhd) => crate::mp4::headers::track_header(tkhd),
        None => None,
    }
}

pub open spec fn handler_of(mdia: Seq<u8>) -> Option<Seq<u8>> {
    match crate::mp4::boxes::child(mdia, crate::bytes::code('h', 'd', 'l', 'r')) {
        Some(hdlr) => crate::mp4::headers::handler_type(hdlr),
        None => None,
    }
}

pub open spec fn mdhd_of(mdia: Seq<u8>) -> Option<crate::mp4::headers::MediaHeaderView> {
    match crate::mp4::boxes::child(mdia, crate::bytes::code('m', 'd', 'h', 'd')) {
        Some(mdhd) => crate::mp4::headers::media_header(mdhd),
        None => None,
    }
}

/// A `trak` as a video track, if it has the requested number (zero requests
/// any), is handled as video and has its headers and its sample table.
pub open spec fn video_facts(trak: Seq<u8>, requested: u32) -> Option<VideoTrackFacts> {
    match (
        tkhd_of(trak),
        crate::mp4::boxes::child(trak, crate::bytes::code('m', 'd', 'i', 'a')),
    ) {
        (Some(header), Some(mdia)) => match (
            mdhd_of(mdia),
            crate::mp4::boxes::descend(mdia, stbl_path()),
        ) {
            (Some(media), Some(stbl)) => if (requested == 0 || header.id == requested)
                && handler_of(mdia) == Some(crate::bytes::code('v', 'i', 'd', 'e')) {
                Some(
                    VideoTrackFacts {
                        id: header.id,
                        timescale: media.timescale,
                        duration: media.duration,
                        stbl,
                    },
                )
            } else {
                None
            },
            _ => None,
        },
        _ => None,
    }
}

/// The first of `boxes` from `i` on that is a video track as requested.
pub open spec fn first_video(boxes: Seq<(Seq<u8>, Seq<u8>)>, requested: u32, i: int) -> Option<int>
    decreases boxes.len() - i,
{
    if i >= boxes.len() {
        None
    } else if boxes[i].0 == crate::bytes::code('t', 'r', 'a', 'k') && video_facts(
        boxes[i].1,
        requested,
    ) is Some {
        Some(i)
    } else {
        first_video(boxes, requested, i + 1)
    }
}

/// The media time at which a video track starts: zero without an edit list;
/// only a single, non-empty, normal-rate edit is supported.
pub open spec fn video_offset(trak: Seq<u8>) -> Option<int> {
    match crate::mp4::boxes::descend(trak, crate::mp4::headers::edit_list_path()) {
        Some(elst) => crate::mp4::headers::edit_media_time(elst),
        None => Some(0),
    }
}

/// A `trak` as a video track.
fn read_video_facts(trak: &[u8], requested: u32) -> (result: Option<(u32, u32, u64, &[u8])>)
    ensures
        match result {
            Some((id, timescale, duration, stbl)) => video_facts(trak@, requested) == Some(
                (VideoTrackFacts { id, timescale, duration, stbl: stbl@ }),
            ),
            None => video_facts(trak@, requested) is None,
        },
{
    let header = match find_box(trak, &fourcc('t', 'k', 'h', 'd')) {
        Some(tkhd) => match parse_tkhd(tkhd) {
            Some(header) => header,
            None => {
                return None;
            },
        },
        None => {
            return None;
        },
    };
    if requested != 0 && header.id != requested {
        return None;
    }
    let mdia = match find_box(trak, &fourcc('m', 'd', 'i', 'a')) {
        Some(mdia) => mdia,
        None => {
            return None;
        },
    };
    let handler = match find_box(mdia, &fourcc('h', 'd', 'l', 'r')) {
        Some(hdlr) => match parse_hdlr(hdlr) {
            Some(handler) => handler,
            None => {
                return None;
            },
        },
        None => {
            return None;
        },
    };
    if !bytes_equal(&handler, &fourcc('v', 'i', 'd', 'e')) {
        return None;
    }
    let media = match find_box(mdia, &fourcc('m', 'd', 'h', 'd')) {
        Some(mdhd) => match parse_mdhd(mdhd) {
            Some(media) => media,
            None => {
                return None;
            },
        },
        None => {
            return None;
        },
    };
    let path = [fourcc('m', 'i', 'n', 'f'), fourcc('s', 't', 'b', 'l')];
    assert(crate::mp4::boxes::codes(path@) =~= stbl_path());
    match nav(mdia, &path) {
        Some(stbl) => Some((header.id, media.timescale, media.duration, stbl)),
        None => None,
    }
}

/// Finds the first video track with the requested number; zero requests any.
pub fn find_video_track(moov_payload: &[u8], requested_track_id: u32) -> (result: Result<
    Option<VideoTrack<'_>>,
    MediaParserError,
>)
    ensures
        ({
            let boxes = crate::mp4::boxes::boxes_from(moov_payload@, 0);
            match first_video(boxes, requested_track_id, 0) {
                None => result matches Ok(None),
                Some(i) => {
                    let trak = boxes[i].1;
                    match video_offset(trak) {
                        Some(offset) => {
                            &&& result matches Ok(Some(track))
                            &&& video_facts(trak, requested_track_id) == Some(
                                (VideoTrackFacts {
                                    id: track.id,
                                    timescale: track.timescale,
                                    duration: track.duration,
                                    stbl: track.stbl@,
                                }),
                            )
                            &&& track.presentation_offset == offset
                        },
                        None => result matches Err(error) && error@
                            == crate::errors::ErrorView::InvalidFormat(
                            "video track uses an unsupported MP4 edit list"@,
                        ),
                    }
                },
            }
        }),
{
    let children = iter_boxes(moov_payload);
    let ghost boxes = crate::mp4::boxes::box_views(children@);
    let trak_code = fourcc('t', 'r', 'a', 'k');
    let mut index: usize = 0;
    while index < children.len()
        invariant
            index <= children@.len(),
            boxes == crate::mp4::boxes::box_views(children@),
            boxes == crate::mp4::boxes::boxes_from(moov_payload@, 0),
            trak_code@ == crate::bytes::code('t', 'r', 'a', 'k'),
            first_video(boxes, requested_track_id, 0) == first_video(
                boxes,
                requested_track_id,
                index as int,
            ),
        decreases children@.len() - index,
    {
        let child = children[index];
        assert(boxes[index as int] == (child.0@, child.1@));
        if bytes_equal(&child.0, &trak_code) {
            let trak = child.1;
            if let Some((id, timescale, duration, stbl)) = read_video_facts(
                trak,
                requested_track_id,
            ) {
                let presentation_offset: i64 = match find_edit_list(trak) {
                    Some(elst) => match parse_elst_media_time(elst) {
                        Some(time) => time,
                        None => {
                            return Err(
                                invalid_format("video track uses an unsupported MP4 edit list"),
                            );
                        },
                    },
                    None => 0,
                };
                return Ok(
                    Some(VideoTrack { id, timescale, duration, presentation_offset, stbl }),
                );
            }
        }
        index += 1;
    }
    Ok(None)
}

// ---------------------------------------------------------------------------
// The sample tables
// ---------------------------------------------------------------------------

/// The sample tables of a video track.
#[derive(Debug)]
pub struct VideoSampleTables<'a> {
    pub stts: &'a [u8],
    pub composition_offsets: Option<Vec<CompositionOffset>>,
    pub sizes: SampleSizes,
    pub stsc: Vec<StscEntry>,
    pub chunk_offsets: Vec<u64>,
    pub sync_samples: Option<Vec<u32>>,
    pub avc_configs: Vec<Option<AvcConfig>>,
}

/// Sample tables by what they hold.
pub struct VideoTablesView {
    pub stts: Seq<u8>,
    pub composition_offsets: Option<Seq<CompositionOffset>>,
    pub sizes: (u32, Seq<u32>, u32),
    pub stsc: Seq<StscEntry>,
    pub chunk_offsets: Seq<u64>,
    pub sync_samples: Option<Seq<u32>>,
    pub avc_configs: Seq<Option<crate::h264::config::AvcConfigView>>,
}

pub open spec fn vec_view<T>(values: Option<Vec<T>>) -> Option<Seq<T>> {
    match values {
        Some(values) => Some(values@),
        None => None,
    }
}

impl<'a> View for VideoSampleTables<'a> {
    type V = VideoTablesView;

    open spec fn view(&self) -> VideoTablesView {
        VideoTablesView {
            stts: self.stts@,
            composition_offsets: vec_view(self.composition_offsets),
            sizes: (self.sizes.fixed_size, self.sizes.sizes@, self.sizes.sample_count),
            stsc: self.stsc@,
            chunk_offsets: self.chunk_offsets@,
            sync_samples: vec_view(self.sync_samples),
            avc_configs: crate::mp4::avc::config_views(self.avc_configs@),
        }
    }
}

/// The sync samples of a sample table: `Ok(None)` without an `stss` box, an
/// error where it is malformed or empty.
pub open spec fn sync_of(stbl: Seq<u8>) -> Result<Option<Seq<u32>>, ()> {
    match crate::mp4::boxes::child(stbl, crate::bytes::code('s', 't', 's', 's')) {
        None => Ok(None),
        Some(stss) => match crate::mp4::samples::sync_table(stss) {
            Some(samples) => if samples.len() > 0 {
                Ok(Some(samples))
            } else {
                Err(())
            },
            None => Err(()),
        },
    }
}

/// The composition offsets of a sample table: `Ok(None)` without a `ctts` box,
/// an error where it is malformed.
pub open spec fn offsets_of(stbl: Seq<u8>) -> Result<Option<Seq<CompositionOffset>>, ()> {
    match crate::mp4::boxes::child(stbl, crate::bytes::code('c', 't', 't', 's')) {
        None => Ok(None),
        Some(ctts) => match crate::mp4::timing::ctts_table(ctts) {
            Some(offsets) => Ok(Some(offsets)),
            None => Err(()),
        },
    }
}

pub open spec fn sizes_of(stbl: Seq<u8>) -> Option<(u32, Seq<u32>, u32)> {
    match crate::mp4::boxes::child(stbl, crate::bytes::code('s', 't', 's', 'z')) {
        None => None,
        Some(stsz) => crate::mp4::samples::sample_size_table(stsz),
    }
}

pub open spec fn stsc_of(stbl: Seq<u8>) -> Option<Seq<StscEntry>> {
    match crate::mp4::boxes::child(stbl, crate::bytes::code('s', 't', 's', 'c')) {
        None => None,
        Some(stsc) => crate::mp4::samples::stsc_table(stsc),
    }
}

pub open spec fn descriptions_of(stbl: Seq<u8>) -> Option<
    Seq<Option<crate::h264::config::AvcConfigView>>,
> {
    match crate::mp4::boxes::child(stbl, crate::bytes::code('s', 't', 's', 'd')) {
        None => None,
        Some(stsd) => crate::mp4::avc::avc_descriptions(stsd),
    }
}

/// The sample tables of an `stbl` payload, or the words for the first that is
/// missing or malformed.
pub open spec fn video_tables(stbl: Seq<u8>) -> Result<VideoTablesView, Seq<char>> {
    match crate::mp4::boxes::child(stbl, crate::bytes::code('s', 't', 't', 's')) {
        None => Err("video track missing stts"@),
        Some(stts) => if sizes_of(stbl) is None {
            Err("video track missing stsz"@)
        } else if stsc_of(stbl) is None {
            Err("video track missing stsc"@)
        } else if crate::mp4::samples::chunk_offset_table(stbl) is None {
            Err("video track missing stco/co64"@)
        } else if sync_of(stbl) is Err {
            Err("invalid video stss"@)
        } else if offsets_of(stbl) is Err {
            Err("invalid video ctts"@)
        } else if descriptions_of(stbl) is None {
            Err("video track missing stsd"@)
        } else {
            let tables = VideoTablesView {
                stts,
                composition_offsets: offsets_of(stbl)->Ok_0,
                sizes: sizes_of(stbl).unwrap(),
                stsc: stsc_of(stbl).unwrap(),
                chunk_offsets: crate::mp4::samples::chunk_offset_table(stbl).unwrap(),
                sync_samples: sync_of(stbl)->Ok_0,
                avc_configs: descriptions_of(stbl).unwrap(),
            };
            if crate::mp4::chunks::tables_agree(
                tables.stts,
                tables.composition_offsets,
                tables.sizes.2 as int,
                tables.stsc,
                tables.chunk_offsets,
                tables.sync_samples,
                tables.avc_configs.len() as int,
            ) {
                Ok(tables)
            } else {
                Err("inconsistent video sample tables"@)
            }
        },
    }
}

fn read_sync_samples(stbl: &[u8]) -> (result: Result<Option<Vec<u32>>, MediaParserError>)
    ensures
        match sync_of(stbl@) {
            Ok(samples) => result matches Ok(found) && vec_view(found) == samples,
            Err(_) => result matches Err(error) && error@
                == crate::errors::ErrorView::InvalidFormat("invalid video stss"@),
        },
{
    match find_box(stbl, &fourcc('s', 't', 's', 's')) {
        None => Ok(None),
        Some(stss) => {
            if let Some(samples) = parse_stss(stss) {
                if samples.len() > 0 {
                    return Ok(Some(samples));
                }
            }
            Err(invalid_format("invalid video stss"))
        },
    }
}

fn read_composition_offsets(stbl: &[u8]) -> (result: Result<
    Option<Vec<CompositionOffset>>,
    MediaParserError,
>)
    ensures
        match offsets_of(stbl@) {
            Ok(offsets) => result matches Ok(found) && vec_view(found) == offsets,
            Err(_) => result matches Err(error) && error@
                == crate::errors::ErrorView::InvalidFormat("invalid video ctts"@),
        },
{
    match find_box(stbl, &fourcc('c', 't', 't', 's')) {
        None => Ok(None),
        Some(ctts) => match parse_ctts(ctts) {
            Some(offsets) => Ok(Some(offsets)),
            None => Err(invalid_format("invalid video ctts")),
        },
    }
}

/// A vector as an optional slice.
fn as_slice_option<T>(values: &Option<Vec<T>>) -> (result: Option<&[T]>)
    ensures
        crate::mp4::samples::slice_view(result) == vec_view(*values),
{
    match values {
        Some(values) => Some(values.as_slice()),
        None => None,
    }
}

/// Parses the sample tables of a video track and checks that they agree.
pub fn parse_video_sample_tables(stbl: &[u8]) -> (result: Result<
    VideoSampleTables<'_>,
    MediaParserError,
>)
    ensures
        match video_tables(stbl@) {
            Ok(tables) => result matches Ok(found) && found@ == tables,
            Err(text) => result matches Err(error) && error@
                == crate::errors::ErrorView::InvalidFormat(text),
        },
{
    let stts = match find_box(stbl, &fourcc('s', 't', 't', 's')) {
        Some(stts) => stts,
        None => {
            return Err(invalid_format("video track missing stts"));
        },
    };
    let sizes = match find_box(stbl, &fourcc('s', 't', 's', 'z')) {
        Some(stsz) => match parse_sample_sizes(stsz) {
            Some(sizes) => sizes,
            None => {
                return Err(invalid_format("video track missing stsz"));
            },
        },
        None => {
            return Err(invalid_format("video track missing stsz"));
        },
    };
    let stsc = match find_box(stbl, &fourcc('s', 't', 's', 'c')) {
        Some(stsc) => match parse_stsc(stsc) {
            Some(entries) => entries,
            None => {
                return Err(invalid_format("video track missing stsc"));
            },
        },
        None => {
            return Err(invalid_format("video track missing stsc"));
        },
    };
    let chunk_offsets = match parse_chunk_offsets(stbl) {
        Some(offsets) => offsets,
        None => {
            return Err(invalid_format("video track missing stco/co64"));
        },
    };
    let sync_samples = match read_sync_samples(stbl) {
        Ok(samples) => samples,
        Err(error) => {
            return Err(error);
        },
    };
    let composition_offsets = match read_composition_offsets(stbl) {
        Ok(offsets) => offsets,
        Err(error) => {
            return Err(error);
        },
    };
    let avc_configs = match find_box(stbl, &fourcc('s', 't', 's', 'd')) {
        Some(stsd) => match parse_avc_descriptions(stsd) {
            Some(configs) => configs,
            None => {
                return Err(invalid_format("video track missing stsd"));
            },
        },
        None => {
            return Err(invalid_format("video track missing stsd"));
        },
    };
    if validate_sample_tables(
        stts,
        as_slice_option(&composition_offsets),
        &sizes,
        stsc.as_slice(),
        chunk_offsets.as_slice(),
        as_slice_option(&sync_samples),
        avc_configs.len(),
    ).is_none() {
        return Err(invalid_format("inconsistent video sample tables"));
    }
    Ok(
        VideoSampleTables {
            stts,
            composition_offsets,
            sizes,
            stsc,
            chunk_offsets,
            sync_samples,
            avc_configs,
        },
    )
}

// ---------------------------------------------------------------------------
// Choosing samples
// ---------------------------------------------------------------------------

/// The media tick at a timestamp, rounded down.
pub open spec fn target_tick(timestamp: Duration, timescale: u32) -> u64 {
    crate::mp4::timing::at_most(timestamp@ * timescale / 1_000_000_000, u64::MAX as int) as u64
}

/// Whether a timestamp lies outside a track of a known duration.
pub open spec fn beyond_track(timestamp: Duration, timescale: u32, duration: u64) -> bool {
    duration != 0 && crate::mp4::timing::at_most(
        timestamp@ * timescale / 1_000_000_000,
        u64::MAX as int,
    ) >= duration
}

/// The error for a timestamp outside the track.
pub open spec fn outside_track(timestamp: Duration) -> crate::errors::ErrorView {
    crate::errors::ErrorView::InvalidFormat(
        "thumbnail timestamp "@ + timestamp.words() + " is outside the video track duration"@,
    )
}

/// Checks that a timestamp lies inside the track.
pub fn check_timestamp(track: &VideoTrack, timestamp: Duration) -> (result: Result<
    (),
    MediaParserError,
>)
    ensures
        match result {
            Ok(_) => !beyond_track(timestamp, track.timescale, track.duration),
            Err(error) => beyond_track(timestamp, track.timescale, track.duration) && error@
                == outside_track(timestamp),
        },
{
    if track.duration != 0 && duration_to_ticks(timestamp, track.timescale) >= track.duration {
        let words = timestamp.to_words();
        return Err(
            MediaParserError::InvalidFormat(
                join3(
                    "thumbnail timestamp ",
                    words.as_str(),
                    " is outside the video track duration",
                ),
            ),
        );
    }
    Ok(())
}

/// The most thumbnails that are taken at once.
pub const MAX_THUMBNAIL_OUTPUTS: usize = 4096;

/// Checks that not too many thumbnails are wanted at once.
pub fn check_output_count(count: usize) -> (result: Result<(), MediaParserError>)
    ensures
        match result {
            Ok(_) => count <= MAX_THUMBNAIL_OUTPUTS,
            Err(error) => count > MAX_THUMBNAIL_OUTPUTS && error@
                == crate::errors::ErrorView::InvalidFormat("too many thumbnail outputs"@),
        },
        result is Ok <==> count <= 0x1000,
{
    if count > MAX_THUMBNAIL_OUTPUTS {
        return Err(invalid_format("too many thumbnail outputs"));
    }
    Ok(())
}

/// The error for a track that is not there; a request for any track is
/// answered as one for the first.
pub fn track_not_found(requested_track_id: u32) -> (result: MediaParserError)
    ensures
        result@ == crate::errors::ErrorView::TrackNotFound(
            if requested_track_id == 0 {
                1
            } else {
                requested_track_id
            },
        ),
{
    MediaParserError::TrackNotFound(if requested_track_id == 0 { 1 } else { requested_track_id })
}

/// The configuration that every sample from `start_sample` to `end_sample`
/// (1-based, both included) is coded with, or the error.
pub open spec fn range_config(
    tables: VideoSampleTables,
    start_sample: u32,
    end_sample: u32,
) -> Result<int, crate::errors::ErrorView> {
    match crate::mp4::chunks::description_of(
        start_sample as int,
        tables.sizes,
        tables.stsc@,
        tables.chunk_offsets@,
    ) {
        None => Err(
            crate::errors::ErrorView::InvalidFormat("could not resolve sample description"@),
        ),
        Some(index) => if exists|n: int|
            start_sample <= n <= end_sample && #[trigger] crate::mp4::chunks::description_of(
                n,
                tables.sizes,
                tables.stsc@,
                tables.chunk_offsets@,
            ) != Some(index) {
            Err(
                crate::errors::ErrorView::UnsupportedCodec(
                    "a thumbnail GOP uses multiple sample descriptions"@,
                ),
            )
        } else if 1 <= index <= tables.avc_configs@.len() && tables.avc_configs@[index - 1]
            is Some {
            Ok(index - 1)
        } else {
            Err(crate::errors::ErrorView::UnsupportedCodec("video track is not H.264/AVC"@))
        },
    }
}

/// Finds the configuration that all samples of a range are coded with.
pub fn avc_config_for_range<'a>(
    tables: &'a VideoSampleTables<'_>,
    start_sample: u32,
    end_sample: u32,
) -> (result: Result<&'a AvcConfig, MediaParserError>)
    ensures
        match range_config(*tables, start_sample, end_sample) {
            Ok(i) => result matches Ok(config) && tables.avc_configs@[i] == Some(*config),
            Err(error) => result matches Err(found) && found@ == error,
        },
{
    let index: u32 = match sample_description_index(
        start_sample,
        &tables.sizes,
        tables.stsc.as_slice(),
        tables.chunk_offsets.as_slice(),
    ) {
        Some(index) => index,
        None => {
            return Err(invalid_format("could not resolve sample description"));
        },
    };
    if start_sample < end_sample {
        let mut sample: u32 = start_sample;
        while sample < end_sample
            invariant
                start_sample <= sample <= end_sample,
                crate::mp4::chunks::description_of(
                    start_sample as int,
                    tables.sizes,
                    tables.stsc@,
                    tables.chunk_offsets@,
                ) == Some(index),
                forall|n: int|
                    start_sample <= n <= sample ==> #[trigger] crate::mp4::chunks::description_of(
                        n,
                        tables.sizes,
                        tables.stsc@,
                        tables.chunk_offsets@,
                    ) == Some(index),
            decreases end_sample - sample,
        {
            sample += 1;
            if sample_description_index(
                sample,
                &tables.sizes,
                tables.stsc.as_slice(),
                tables.chunk_offsets.as_slice(),
            ) != Some(index) {
                return Err(
                    unsupported_codec_error("a thumbnail GOP uses multiple sample descriptions"),
                );
            }
        }
    }
    if index >= 1 && index as usize <= tables.avc_configs.len() {
        if let Some(config) = &tables.avc_configs[index as usize - 1] {
            return Ok(config);
        }
    }
    Err(unsupported_codec_error("video track is not H.264/AVC"))
}

/// The samples that a thumbnail is decoded from.
#[derive(Debug, Clone, Copy, PartialEq, Eq, Structural)]
pub struct FramePlan {
    /// The sample that the thumbnail shows.
    pub selection: SampleSelection,
    /// The first sample to decode.
    pub sync_sample: u32,
    /// The last sample to decode.
    pub end_sample: u32,
    /// The place of the thumbnail among the decoded pictures, in presentation
    /// order and counted from zero.
    pub output_index: usize,
}

/// The number of samples from `start` up to `end` (1-based, half-open) that are
/// presented before the sample `chosen`.
pub open spec fn presented_before(ticks: Seq<i128>, start: int, end: int, chosen: u32) -> int
    decreases end - start,
{
    if start >= end {
        0
    } else {
        presented_before(ticks, start, end - 1, chosen) + if end - 1 != chosen
            && crate::mp4::timing::presented_up_to(ticks, (end - 1) as u32, chosen) {
            1int
        } else {
            0int
        }
    }
}

/// Whether `end` is the last sample before the next sync sample, or the last
/// sample of the track where there is none.
pub open spec fn is_group_end(
    sync_sample: u32,
    sync_samples: Option<Seq<u32>>,
    sample_count: u32,
    end: u32,
) -> bool {
    exists|next: Option<u32>|
        #[trigger] crate::mp4::samples::is_next_sync(
            sync_sample,
            sync_samples,
            sample_count,
            next,
        ) && end == match next {
            Some(sample) => sample - 1,
            None => sample_count as int,
        }
}

/// Whether `end` is the last sample, in decoding order, of those from `start` to
/// `group_end` (1-based, both included) that are presented up to the sample
/// `chosen`.
pub open spec fn is_last_needed(
    ticks: Seq<i128>,
    start: u32,
    group_end: u32,
    chosen: u32,
    end: u32,
) -> bool {
    &&& start <= end <= group_end
    &&& crate::mp4::timing::presented_up_to(ticks, end, chosen)
    &&& forall|n: u32|
        end < n <= group_end ==> !#[trigger] crate::mp4::timing::presented_up_to(ticks, n, chosen)
}

/// Whether a plan shows the sample on display at `target_tick`, decoded from
/// the sync sample before it to the last sample of its group of pictures that is
/// presented up to it.
pub open spec fn frame_planned(
    ticks: Seq<i128>,
    sync_samples: Option<Seq<u32>>,
    sample_count: u32,
    target_tick: u64,
    plan: FramePlan,
) -> bool {
    let chosen = plan.selection.sample_index;
    &&& crate::mp4::timing::is_on_display(ticks, target_tick, Some(plan.selection))
    &&& crate::mp4::samples::is_nearest_sync(chosen, sync_samples, plan.sync_sample)
    &&& exists|group_end: u32|
        group_end <= ticks.len() && #[trigger] is_group_end(
            plan.sync_sample,
            sync_samples,
            sample_count,
            group_end,
        ) && is_last_needed(ticks, plan.sync_sample, group_end, chosen, plan.end_sample)
    &&& 1 <= plan.sync_sample <= chosen <= plan.end_sample <= ticks.len()
    &&& plan.output_index == presented_before(
        ticks,
        plan.sync_sample as int,
        plan.end_sample + 1,
        chosen,
    )
}

/// Whether this is the error for why no sample is shown at `target_tick`.
pub open spec fn refuses_frame(
    ticks: Seq<i128>,
    sync_samples: Option<Seq<u32>>,
    sample_count: u32,
    target_tick: u64,
    error: crate::errors::ErrorView,
) -> bool {
    ||| crate::mp4::timing::is_on_display(ticks, target_tick, None) && error
        == crate::errors::ErrorView::InvalidFormat("could not select video sample"@)
    ||| exists|selection: SampleSelection, sync: u32, group_end: u32|
        {
            &&& #[trigger] crate::mp4::timing::is_on_display(ticks, target_tick, Some(selection))
            &&& #[trigger] crate::mp4::samples::is_nearest_sync(
                selection.sample_index,
                sync_samples,
                sync,
            )
            &&& #[trigger] is_group_end(sync, sync_samples, sample_count, group_end)
            &&& if !(1 <= sync <= group_end <= ticks.len()) {
                error == crate::errors::ErrorView::InvalidFormat("invalid video timing tables"@)
            } else {
                !(sync <= selection.sample_index <= group_end) && error
                    == crate::errors::ErrorView::InvalidFormat(
                    "selected sample is outside its GOP"@,
                )
            }
        }
}

/// The place of a sample among the pictures of its group does not change when
/// more of the group is decoded than is presented up to it.
pub proof fn lemma_later_samples_keep_the_place(
    ticks: Seq<i128>,
    start: u32,
    group_end: u32,
    chosen: u32,
    end: u32,
    later: u32,
)
    requires
        is_last_needed(ticks, start, group_end, chosen, end),
        end <= later <= group_end,
    ensures
        presented_before(ticks, start as int, later + 1, chosen) == presented_before(
            ticks,
            start as int,
            end + 1,
            chosen,
        ),
    decreases later - end,
{
    if end < later {
        lemma_later_samples_keep_the_place(
            ticks,
            start,
            group_end,
            chosen,
            end,
            (later - 1) as u32,
        );
        assert(!crate::mp4::timing::presented_up_to(ticks, later, chosen));
    }
}

/// The places of the pictures of a group follow the order in which their samples
/// are presented.
pub proof fn lemma_places_follow_presentation(
    ticks: Seq<i128>,
    start: u32,
    end: int,
    earlier: u32,
    later: u32,
)
    requires
        1 <= start,
        end <= u32::MAX + 1,
        start <= earlier < end,
        earlier != later,
        crate::mp4::timing::presented_up_to(ticks, earlier, later),
    ensures
        presented_before(ticks, start as int, end, earlier) < presented_before(
            ticks,
            start as int,
            end,
            later,
        ),
{
    lemma_places_split(ticks, start as int, end, earlier, later);
}

proof fn lemma_places_split(ticks: Seq<i128>, start: int, end: int, earlier: u32, later: u32)
    requires
        1 <= start,
        end <= u32::MAX + 1,
        earlier != later,
        crate::mp4::timing::presented_up_to(ticks, earlier, later),
    ensures
        presented_before(ticks, start, end, earlier) + (if start <= earlier < end {
            1int
        } else {
            0int
        }) <= presented_before(ticks, start, end, later),
    decreases end - start,
{
    if start < end {
        lemma_places_split(ticks, start, end - 1, earlier, later);
    }
}

/// The place of a sample lies inside the pictures that are decoded for it.
pub proof fn lemma_place_is_inside(ticks: Seq<i128>, start: u32, end: int, chosen: u32)
    requires
        start <= chosen < end,
    ensures
        0 <= presented_before(ticks, start as int, end, chosen) < end - start,
{
    lemma_place_bound(ticks, start as int, end, chosen);
}

proof fn lemma_place_bound(ticks: Seq<i128>, start: int, end: int, chosen: u32)
    requires
        start <= end,
    ensures
        0 <= presented_before(ticks, start, end, chosen) <= end - start - if start <= chosen < end {
            1int
        } else {
            0int
        },
    decreases end - start,
{
    if start < end {
        lemma_place_bound(ticks, start, end - 1, chosen);
    }
}

/// Where the sync samples are sound, the group that is decoded for a sample
/// holds the sample and lies inside the track.
pub proof fn lemma_group_holds_its_sample(
    sync_samples: Option<Seq<u32>>,
    sample_count: u32,
    chosen: u32,
    sync_sample: u32,
    end_sample: u32,
)
    requires
        sync_samples matches Some(samples) ==> crate::mp4::chunks::sync_samples_sound(
            samples,
            sample_count as int,
        ),
        1 <= chosen <= sample_count,
        crate::mp4::samples::is_nearest_sync(chosen, sync_samples, sync_sample),
        is_group_end(sync_sample, sync_samples, sample_count, end_sample),
    ensures
        1 <= sync_sample <= chosen <= end_sample <= sample_count,
{
    if let Some(samples) = sync_samples {
        assert(samples.contains(samples[0]));
    }
}

/// Chooses the samples for a thumbnail at `timestamp`.
pub fn plan_frame(
    track: &VideoTrack,
    tables: &VideoSampleTables,
    timeline: &PresentationTimeline,
    timestamp: Duration,
) -> (result: Result<FramePlan, MediaParserError>)
    requires
        tables.sync_samples matches Some(samples) ==> crate::mp4::samples::ascending(samples@),
    ensures
        ({
            let target = target_tick(timestamp, track.timescale);
            match result {
                Ok(plan) => frame_planned(
                    timeline@,
                    vec_view(tables.sync_samples),
                    tables.sizes.sample_count,
                    target,
                    plan,
                ),
                Err(error) => refuses_frame(
                    timeline@,
                    vec_view(tables.sync_samples),
                    tables.sizes.sample_count,
                    target,
                    error@,
                ),
            }
        }),
{
    let ghost sync_samples = vec_view(tables.sync_samples);
    let ghost sample_count = tables.sizes.sample_count;
    let target: u64 = duration_to_ticks(timestamp, track.timescale);
    let selection = match timeline.select(target) {
        Some(selection) => selection,
        None => {
            return Err(invalid_format("could not select video sample"));
        },
    };
    let sync_sample: u32 = nearest_sync_sample(
        selection.sample_index,
        as_slice_option(&tables.sync_samples),
    );
    let next: Option<u32> = next_sync_sample(
        sync_sample,
        as_slice_option(&tables.sync_samples),
        tables.sizes.sample_count,
    );
    let group_end: u32 = match next {
        Some(sample) => sample - 1,
        None => tables.sizes.sample_count,
    };
    assert(is_group_end(
        sync_sample,
        vec_view(tables.sync_samples),
        tables.sizes.sample_count,
        group_end,
    )) by {
        assert(crate::mp4::samples::is_next_sync(
            sync_sample,
            vec_view(tables.sync_samples),
            tables.sizes.sample_count,
            next,
        ));
    }
    let order = match timeline.ticks_for_range(sync_sample, group_end) {
        Some(order) => order,
        None => {
            return Err(invalid_format("invalid video timing tables"));
        },
    };
    if selection.sample_index < sync_sample || selection.sample_index > group_end {
        return Err(invalid_format("selected sample is outside its GOP"));
    }
    let chosen: u32 = selection.sample_index;
    let chosen_tick: i128 = order[(chosen - sync_sample) as usize].1;
    let mut output_index: usize = 0;
    let mut end_sample: u32 = chosen;
    let mut position: usize = 0;
    while position < order.len()
        invariant
            position <= order@.len(),
            1 <= sync_sample <= chosen <= end_sample <= group_end <= timeline@.len(),
            order@ == Seq::new(
                (group_end - sync_sample + 1) as nat,
                |i: int| ((sync_sample + i) as u32, timeline@[sync_sample + i - 1]),
            ),
            chosen_tick == timeline@[chosen - 1],
            output_index <= position,
            output_index == presented_before(
                timeline@,
                sync_sample as int,
                sync_sample + position,
                chosen,
            ),
            crate::mp4::timing::presented_up_to(timeline@, end_sample, chosen),
            forall|n: u32|
                end_sample < n < sync_sample + position
                    ==> !#[trigger] crate::mp4::timing::presented_up_to(timeline@, n, chosen),
        decreases order@.len() - position,
    {
        let (sample, tick) = order[position];
        if tick < chosen_tick || (tick == chosen_tick && sample <= chosen) {
            if sample != chosen {
                output_index += 1;
            }
            if sample > end_sample {
                end_sample = sample;
            }
        }
        position += 1;
    }
    proof {
        assert(is_last_needed(timeline@, sync_sample, group_end, chosen, end_sample));
        lemma_later_samples_keep_the_place(
            timeline@,
            sync_sample,
            group_end,
            chosen,
            end_sample,
            group_end,
        );
    }
    let plan = FramePlan { selection, sync_sample, end_sample, output_index };
    assert(frame_planned(timeline@, sync_samples, sample_count, target, plan)) by {
        assert(crate::mp4::samples::is_nearest_sync(chosen, sync_samples, sync_sample));
        assert(is_group_end(sync_sample, sync_samples, sample_count, group_end));
    }
    Ok(plan)
}

/// The plan that shows only the sync sample of a plan, at its own time. A sync
/// sample before the start of the presentation is shown at the start.
pub open spec fn keyframe_of(plan: FramePlan, ticks: Seq<i128>) -> FramePlan {
    let tick = ticks[plan.sync_sample - 1];
    FramePlan {
        selection: SampleSelection {
            sample_index: plan.sync_sample,
            presentation_tick: if tick < 0 {
                0
            } else {
                tick as u64
            },
        },
        sync_sample: plan.sync_sample,
        end_sample: plan.sync_sample,
        output_index: 0,
    }
}

/// Narrows a plan to its sync sample, which takes a single picture to decode.
pub fn keyframe_plan(plan: &FramePlan, timeline: &PresentationTimeline) -> (result: Result<
    FramePlan,
    MediaParserError,
>)
    ensures
        match result {
            Ok(keyframe) => {
                &&& 1 <= plan.sync_sample <= timeline@.len()
                &&& keyframe == keyframe_of(*plan, timeline@)
            },
            Err(error) => !(1 <= plan.sync_sample <= timeline@.len()) && error@
                == crate::errors::ErrorView::InvalidFormat("invalid video timing tables"@),
        },
{
    let tick: i128 = match timeline.tick(plan.sync_sample) {
        Some(tick) => tick,
        None => {
            return Err(invalid_format("invalid video timing tables"));
        },
    };
    let presentation_tick: u64 = if tick < 0 { 0 } else { tick as u64 };
    Ok(
        FramePlan {
            selection: SampleSelection { sample_index: plan.sync_sample, presentation_tick },
            sync_sample: plan.sync_sample,
            end_sample: plan.sync_sample,
            output_index: 0,
        },
    )
}

/// Whether a frame shows an image at the time that a plan shows it at.
pub open spec fn is_frame_of(
    frame: Frame,
    track_id: u32,
    timescale: u32,
    plan: FramePlan,
    image: DecodedImage,
) -> bool {
    &&& frame.track_id == track_id
    &&& frame.width == image.width
    &&& frame.height == image.height
    &&& frame.timestamp@ == if timescale == 0 {
        0
    } else {
        crate::mp4::timing::at_most(
            plan.selection.presentation_tick * 1_000_000_000 / timescale as int,
            u64::MAX as int,
        )
    }
    &&& frame.format == PixelFormat::Jpeg
    &&& frame.data == image.data
    &&& frame.strides is None
}

/// A frame is shown at the time of its sample: `timescale` ticks take a second,
/// and the time is the whole nanoseconds of that, as far as 64 bits count them.
/// In ticks again it is that of the sample or the one before, where the clock has
/// no more ticks in a second than there are nanoseconds.
pub proof fn lemma_frame_has_the_time_of_its_sample(
    frame: Frame,
    track_id: u32,
    timescale: u32,
    plan: FramePlan,
    image: DecodedImage,
    back_tick: int,
)
    requires
        is_frame_of(frame, track_id, timescale, plan, image),
        timescale > 0,
    ensures
        frame.timestamp@ * timescale <= plan.selection.presentation_tick * 1_000_000_000,
        frame.timestamp@ < 0xffff_ffff_ffff_ffff ==> plan.selection.presentation_tick
            * 1_000_000_000 < (frame.timestamp@ + 1) * timescale,
        frame.timestamp@ < 0xffff_ffff_ffff_ffff && timescale <= 1_000_000_000 && back_tick
            * 1_000_000_000 <= frame.timestamp@ * timescale && frame.timestamp@ * timescale < (
        back_tick + 1) * 1_000_000_000 ==> plan.selection.presentation_tick - 1 <= back_tick
            <= plan.selection.presentation_tick,
        frame.track_id == track_id,
        frame.width == image.width,
        frame.height == image.height,
        frame.data@ == image.data@,
        frame.format is Jpeg,
{
    let tick = plan.selection.presentation_tick as int;
    crate::mp4::timing::lemma_time_of_tick(tick, timescale);
    assert((frame.timestamp@ + 1) * timescale == frame.timestamp@ * timescale + timescale)
        by (nonlinear_arith);
}

/// A thumbnail is not later than the time it was asked for, unless no sample is
/// presented by then; and no sample is presented between the two.
pub proof fn lemma_frame_is_the_last_by_its_time(
    ticks: Seq<i128>,
    sync_samples: Option<Seq<u32>>,
    sample_count: u32,
    timestamp: Duration,
    track_id: u32,
    timescale: u32,
    plan: FramePlan,
    image: DecodedImage,
    frame: Frame,
    sample: u32,
)
    requires
        timescale > 0,
        ticks.len() <= u32::MAX,
        frame_planned(ticks, sync_samples, sample_count, target_tick(timestamp, timescale), plan),
        is_frame_of(frame, track_id, timescale, plan, image),
        1 <= sample <= ticks.len(),
        0 <= ticks[sample - 1] <= u64::MAX,
        ticks[sample - 1] * 1_000_000_000 <= timestamp@ * timescale,
    ensures
        frame.timestamp@ <= timestamp@,
        plan.selection.presentation_tick * 1_000_000_000 <= timestamp@ * timescale,
        ticks[sample - 1] <= plan.selection.presentation_tick,
        plan.selection.presentation_tick == ticks[plan.selection.sample_index - 1],
{
    let target = target_tick(timestamp, timescale);
    let wanted = timestamp@ * timescale;
    assert(crate::mp4::timing::presented(ticks, sample));
    assert(ticks[sample - 1] <= target);
    lemma_frame_has_the_time_of_its_sample(frame, track_id, timescale, plan, image, 0);
    assert(target * 1_000_000_000 <= wanted);
    assert(timestamp@ < frame.timestamp@ ==> (timestamp@ + 1) * timescale <= frame.timestamp@
        * timescale) by (nonlinear_arith)
        requires
            timescale > 0,
    ;
    assert((timestamp@ + 1) * timescale == wanted + timescale) by (nonlinear_arith)
        requires
            wanted == timestamp@ * timescale,
    ;
}

/// The frame that a plan and its decoded image make.
pub fn finish_frame(track: &VideoTrack, plan: &FramePlan, image: DecodedImage) -> (result: Frame)
    ensures
        is_frame_of(result, track.id, track.timescale, *plan, image),
        track.timescale > 0 ==> result.timestamp@ * track.timescale
            <= plan.selection.presentation_tick * 1_000_000_000,
        track.timescale > 0 && result.timestamp@ < 0xffff_ffff_ffff_ffff
            ==> plan.selection.presentation_tick * 1_000_000_000 < (result.timestamp@ + 1)
            * track.timescale,
{
    Frame {
        track_id: track.id,
        width: image.width,
        height: image.height,
        timestamp: ticks_to_duration(plan.selection.presentation_tick, track.timescale),
        format: PixelFormat::Jpeg,
        data: image.data,
        strides: None,
    }
}

/// A timestamp lies outside a track just where the track has a duration and is
/// over by then.
pub proof fn lemma_timestamps_end_with_the_track(
    timestamp: Duration,
    timescale: u32,
    duration: u64,
)
    requires
        timestamp@ >= 0,
    ensures
        beyond_track(timestamp, timescale, duration) <==> duration != 0 && timestamp@ * timescale
            >= duration * 1_000_000_000,
{
    assert(timestamp@ * timescale >= 0) by (nonlinear_arith)
        requires
            timestamp@ >= 0,
    ;
}

/// The tick of a timestamp is the last one that has come by then, as far as 64
/// bits count them.
pub proof fn lemma_target_is_the_last_tick(timestamp: Duration, timescale: u32)
    requires
        timestamp@ >= 0,
    ensures
        target_tick(timestamp, timescale) * 1_000_000_000 <= timestamp@ * timescale,
        target_tick(timestamp, timescale) < 0xffff_ffff_ffff_ffff ==> timestamp@ * timescale < (
        target_tick(timestamp, timescale) + 1) * 1_000_000_000,
{
    assert(timestamp@ * timescale >= 0) by (nonlinear_arith)
        requires
            timestamp@ >= 0,
    ;
}

/// A keyframe is the sync sample that a thumbnail is decoded from, decoded alone
/// and shown at its own time, but not before the start of the presentation.
pub proof fn lemma_keyframe_is_the_sync_sample(plan: FramePlan, ticks: Seq<i128>)
    requires
        1 <= plan.sync_sample <= ticks.len(),
        ticks[plan.sync_sample - 1] <= u64::MAX,
    ensures
        ({
            let keyframe = keyframe_of(plan, ticks);
            let tick = ticks[plan.sync_sample - 1];
            &&& keyframe.selection.sample_index == plan.sync_sample
            &&& keyframe.sync_sample == plan.sync_sample
            &&& keyframe.end_sample == plan.sync_sample
            &&& keyframe.output_index == 0
            &&& tick >= 0 ==> keyframe.selection.presentation_tick == tick
            &&& tick < 0 ==> keyframe.selection.presentation_tick == 0
        }),
{
}

/// The place of a picture is the number of pictures decoded with it that are
/// presented before it: those of earlier ticks, and of the same tick those with
/// smaller numbers.
pub proof fn lemma_place_counts_the_earlier_pictures(
    ticks: Seq<i128>,
    start: int,
    end: int,
    chosen: u32,
)
    requires
        1 <= start <= end,
        end <= u32::MAX,
    ensures
        presented_before(ticks, start, start, chosen) == 0,
        presented_before(ticks, start, end + 1, chosen) == presented_before(
            ticks,
            start,
            end,
            chosen,
        ) + if ticks[end - 1] < ticks[chosen - 1] || ticks[end - 1] == ticks[chosen - 1] && end
            < chosen {
            1int
        } else {
            0int
        },
{
}

/// A `mdia` written from its three boxes has them as its children.
proof fn lemma_media_boxes_read_back(mdhd: Seq<u8>, hdlr: Seq<u8>, minf: Seq<u8>) -> (mdia: Seq<u8>)
    requires
        mdhd.len() + hdlr.len() + minf.len() + 50 <= u32::MAX,
    ensures
        mdia == crate::mp4::boxes::written_boxes(
            seq![
                (crate::bytes::code('m', 'd', 'h', 'd'), mdhd),
                (crate::bytes::code('h', 'd', 'l', 'r'), hdlr),
                (crate::bytes::code('m', 'i', 'n', 'f'), minf),
            ],
        ),
        mdia.len() == mdhd.len() + hdlr.len() + minf.len() + 24,
        crate::mp4::boxes::child(mdia, crate::bytes::code('m', 'd', 'h', 'd')) == Some(mdhd),
        crate::mp4::boxes::child(mdia, crate::bytes::code('h', 'd', 'l', 'r')) == Some(hdlr),
        crate::mp4::boxes::child(mdia, crate::bytes::code('m', 'i', 'n', 'f')) == Some(minf),
{
    let code_mdhd = crate::bytes::code('m', 'd', 'h', 'd');
    let code_hdlr = crate::bytes::code('h', 'd', 'l', 'r');
    let code_minf = crate::bytes::code('m', 'i', 'n', 'f');
    let media = seq![(code_mdhd, mdhd), (code_hdlr, hdlr), (code_minf, minf)];
    let mdia = crate::mp4::boxes::written_boxes(media);
    assert(code_mdhd[0] != code_hdlr[0]);
    assert(code_hdlr[0] != code_minf[0]);
    assert(code_mdhd[1] != code_minf[1]);
    assert(mdia.len() == mdhd.len() + hdlr.len() + minf.len() + 24) by {
        assert(media.drop_first() =~= seq![(code_hdlr, hdlr), (code_minf, minf)]);
        assert(media.drop_first().drop_first() =~= seq![(code_minf, minf)]);
        assert(media.drop_first().drop_first().drop_first() =~= seq![]);
        reveal_with_fuel(crate::mp4::boxes::written_boxes, 4);
    }
    crate::mp4::boxes::lemma_child_is_the_first(media, code_mdhd, 0);
    crate::mp4::boxes::lemma_child_is_the_first(media, code_hdlr, 1);
    crate::mp4::boxes::lemma_child_is_the_first(media, code_minf, 2);
    mdia
}

/// The video track that a `trak` holds has the number of its track header, the
/// clock and the duration of its media header, and its own sample table. It is
/// taken where it is asked for by its number or any is, and only as video.
pub proof fn lemma_video_track_reads_back(
    tkhd: Seq<u8>,
    mdhd: Seq<u8>,
    hdlr: Seq<u8>,
    stbl: Seq<u8>,
    requested: u32,
)
    requires
        tkhd.len() + mdhd.len() + hdlr.len() + stbl.len() + 100 <= u32::MAX,
        crate::mp4::headers::track_header(tkhd) is Some,
        crate::mp4::headers::media_header(mdhd) is Some,
        crate::mp4::headers::handler_type(hdlr) is Some,
    ensures
        ({
            let mdia = crate::mp4::boxes::written_boxes(
                seq![
                    (crate::bytes::code('m', 'd', 'h', 'd'), mdhd),
                    (crate::bytes::code('h', 'd', 'l', 'r'), hdlr),
                    (
                        crate::bytes::code('m', 'i', 'n', 'f'),
                        crate::mp4::boxes::written_box(
                            crate::bytes::code('s', 't', 'b', 'l'),
                            stbl,
                        ),
                    ),
                ],
            );
            let trak = crate::mp4::boxes::written_boxes(
                seq![
                    (crate::bytes::code('t', 'k', 'h', 'd'), tkhd),
                    (crate::bytes::code('m', 'd', 'i', 'a'), mdia),
                ],
            );
            let header = crate::mp4::headers::track_header(tkhd).unwrap();
            let media = crate::mp4::headers::media_header(mdhd).unwrap();
            video_facts(trak, requested) == if (requested == 0 || requested == header.id)
                && crate::mp4::headers::handler_type(hdlr) == Some(
                crate::bytes::code('v', 'i', 'd', 'e'),
            ) {
                Some(
                    VideoTrackFacts {
                        id: header.id,
                        timescale: media.timescale,
                        duration: media.duration,
                        stbl,
                    },
                )
            } else {
                None
            }
        }),
{
    let code_tkhd = crate::bytes::code('t', 'k', 'h', 'd');
    let code_mdia = crate::bytes::code('m', 'd', 'i', 'a');
    let code_stbl = crate::bytes::code('s', 't', 'b', 'l');
    let inner = crate::mp4::boxes::written_box(code_stbl, stbl);
    let mdia = lemma_media_boxes_read_back(mdhd, hdlr, inner);
    let boxes = seq![(code_tkhd, tkhd), (code_mdia, mdia)];
    assert(code_tkhd[0] != code_mdia[0]);
    crate::mp4::boxes::lemma_child_is_the_first(boxes, code_tkhd, 0);
    crate::mp4::boxes::lemma_child_is_the_first(boxes, code_mdia, 1);
    crate::mp4::boxes::lemma_only_box_is_found(code_stbl, stbl);
    assert(stbl_path().drop_first() =~= seq![code_stbl]);
}

/// Of several video tracks the first one that is asked for is taken.
pub proof fn lemma_first_video_track_is_taken(
    boxes: Seq<(Seq<u8>, Seq<u8>)>,
    requested: u32,
    i: int,
    other: int,
)
    requires
        0 <= i <= other < boxes.len(),
        boxes[other].0 == crate::bytes::code('t', 'r', 'a', 'k'),
        video_facts(boxes[other].1, requested) is Some,
    ensures
        first_video(boxes, requested, i) matches Some(place) && i <= place <= other
            && boxes[place].0 == crate::bytes::code('t', 'r', 'a', 'k') && video_facts(
            boxes[place].1,
            requested,
        ) is Some,
    decreases boxes.len() - i,
{
    if !(boxes[i].0 == crate::bytes::code('t', 'r', 'a', 'k') && video_facts(boxes[i].1, requested)
        is Some) {
        lemma_first_video_track_is_taken(boxes, requested, i + 1, other);
    }
}

/// A video track is presented from the start of its one edit on, and without an
/// edit list from its own start on. Any other edit list is not supported.
pub proof fn lemma_video_starts_at_its_edit(elst: Seq<u8>)
    requires
        elst.len() + 16 <= u32::MAX,
    ensures
        video_offset(
            crate::mp4::boxes::written_box(
                crate::bytes::code('e', 'd', 't', 's'),
                crate::mp4::boxes::written_box(crate::bytes::code('e', 'l', 's', 't'), elst),
            ),
        ) == crate::mp4::headers::edit_media_time(elst),
        video_offset(seq![]) == Some(0int),
{
    let edts = crate::bytes::code('e', 'd', 't', 's');
    let list = crate::bytes::code('e', 'l', 's', 't');
    crate::mp4::boxes::lemma_nested_box_is_found(edts, list, elst);
    assert(crate::mp4::headers::edit_list_path() =~= seq![edts, list]);
    assert(crate::mp4::boxes::boxes_from(Seq::<u8>::empty(), 0) =~= Seq::empty());
}

/// The configuration of a range is that of its samples' one description; samples
/// of different descriptions have none in common, and neither has a range whose
/// description is not AVC.
pub proof fn lemma_range_has_one_configuration(
    tables: VideoSampleTables,
    start_sample: u32,
    end_sample: u32,
    n: int,
)
    requires
        start_sample <= n <= end_sample,
    ensures
        range_config(tables, start_sample, end_sample) matches Ok(place) ==> {
            &&& 0 <= place < tables.avc_configs@.len()
            &&& tables.avc_configs@[place] is Some
            &&& crate::mp4::chunks::description_of(
                n,
                tables.sizes,
                tables.stsc@,
                tables.chunk_offsets@,
            ) matches Some(index) && index == place + 1
        },
{
}

/// The tables of a video track are those of its own boxes, and they agree: the
/// times, the sizes and the chunks are for as many samples, and so are the
/// offsets where there are any; the sync samples start with the first one.
pub proof fn lemma_video_tables_are_those_of_their_boxes(stbl: Seq<u8>)
    ensures
        video_tables(stbl) matches Ok(tables) ==> {
            let chunks = tables.chunk_offsets.len() as int;
            &&& crate::mp4::boxes::child(stbl, crate::bytes::code('s', 't', 't', 's')) == Some(
                tables.stts,
            )
            &&& crate::mp4::boxes::child(stbl, crate::bytes::code('s', 't', 's', 'z')) matches Some(
                stsz,
            ) && crate::mp4::samples::sample_size_table(stsz) == Some(tables.sizes)
            &&& crate::mp4::boxes::child(stbl, crate::bytes::code('s', 't', 's', 'c')) matches Some(
                stsc,
            ) && crate::mp4::samples::stsc_table(stsc) == Some(tables.stsc)
            &&& crate::mp4::samples::chunk_offset_table(stbl) == Some(tables.chunk_offsets)
            &&& match crate::mp4::boxes::child(stbl, crate::bytes::code('s', 't', 's', 's')) {
                Some(stss) => tables.sync_samples is Some && crate::mp4::samples::sync_table(stss)
                    == tables.sync_samples,
                None => tables.sync_samples is None,
            }
            &&& match crate::mp4::boxes::child(stbl, crate::bytes::code('c', 't', 't', 's')) {
                Some(ctts) => tables.composition_offsets is Some && crate::mp4::timing::ctts_table(
                    ctts,
                ) == tables.composition_offsets,
                None => tables.composition_offsets is None,
            }
            &&& crate::mp4::boxes::child(stbl, crate::bytes::code('s', 't', 's', 'd')) matches Some(
                stsd,
            ) && crate::mp4::avc::avc_descriptions(stsd) == Some(tables.avc_configs)
            &&& tables.sizes.2 > 0
            &&& crate::mp4::timing::run_total(crate::mp4::timing::stts_runs(tables.stts))
                == tables.sizes.2
            &&& tables.composition_offsets matches Some(offsets) ==> crate::mp4::timing::run_total(
                crate::mp4::timing::ctts_runs(offsets),
            ) == tables.sizes.2
            &&& crate::mp4::chunks::samples_before(tables.stsc, chunks, tables.stsc.len() as int)
                == tables.sizes.2
            &&& tables.sync_samples matches Some(samples) ==> samples.len() > 0 && samples[0] == 1
        },
{
}

/// A thumbnail is decoded from a sync sample up to the last sample of its group
/// that is presented no later than it: a sample behind that one is presented
/// later, or a sync sample stands before it.
pub proof fn lemma_decoding_goes_up_to_the_last_needed_sample(
    ticks: Seq<i128>,
    sync_samples: Option<Seq<u32>>,
    sample_count: u32,
    target: u64,
    plan: FramePlan,
    n: u32,
)
    requires
        frame_planned(ticks, sync_samples, sample_count, target, plan),
        sample_count == ticks.len(),
        plan.end_sample < n <= sample_count,
    ensures
        ({
            let chosen = plan.selection.sample_index;
            let end = plan.end_sample;
            &&& 1 <= plan.sync_sample <= chosen <= end <= sample_count
            &&& ticks[end - 1] < ticks[chosen - 1] || ticks[end - 1] == ticks[chosen - 1] && end
                <= chosen
            &&& {
                ||| ticks[n - 1] > ticks[chosen - 1]
                ||| ticks[n - 1] == ticks[chosen - 1] && n > chosen
                ||| sync_samples is None
                ||| exists|s: u32|
                    sync_samples->Some_0.contains(s) && plan.sync_sample < s <= n
            }
        }),
{
    let chosen = plan.selection.sample_index;
    let group_end = choose|group_end: u32|
        group_end <= ticks.len() && #[trigger] is_group_end(
            plan.sync_sample,
            sync_samples,
            sample_count,
            group_end,
        ) && is_last_needed(ticks, plan.sync_sample, group_end, chosen, plan.end_sample);
    let next = choose|next: Option<u32>|
        #[trigger] crate::mp4::samples::is_next_sync(
            plan.sync_sample,
            sync_samples,
            sample_count,
            next,
        ) && group_end == match next {
            Some(sample) => sample - 1,
            None => sample_count as int,
        };
    if n <= group_end {
        assert(!crate::mp4::timing::presented_up_to(ticks, n, chosen));
    } else if let (Some(samples), Some(sample)) = (sync_samples, next) {
        assert(samples.contains(sample) && plan.sync_sample < sample <= n);
    }
}

} // verus!
