//! Extracting the cues of indexed subtitle tracks.
//!
//! An extraction goes through the tracks in their order. For each it says
//! which bytes of the file it needs, and takes them back as they were read.

use std::collections::HashMap;

use vstd::prelude::*;

use crate::errors::{other_error, subtitle_error, MediaParserError};
use crate::memory::{try_reserve_exact, try_reserve_samples};
use crate::mp4::sample_io::{
    plan_sample_reads, SampleReadBudget, SampleReadError, SampleReadLimits,
};
use crate::mp4::sample_reads::{batch_fault, take_apart, ReadBatch};
use crate::mp4::subtitles::cues::{
    select_cues, SelectCuesError, SelectedCue, SubtitleRequestBudget, SubtitleRequestLimits,
    MAX_SELECTED_SUBTITLE_SAMPLES, SUBTITLE_CUE_PROJECTION_BYTES, SUBTITLE_TRACK_PROJECTION_BYTES,
};
use crate::mp4::subtitles::index::{IndexedTrack, IndexedTrackState, SubtitleIndex};
use crate::mp4::subtitles::output::{output_string, track_properties};
use crate::mp4::subtitles::text::{decode_sample, DecodeSampleError};
use crate::mp4::thumbnail_io::split_error;
use crate::strings::{decimal_text, equal_ignoring_case, join2};
use crate::time::Duration;
use crate::types::{BaseTrackMeta, SubtitleCue, SubtitleTrack, TrackFilter};
use crate::unicode::text_len;

verus! {

broadcast use vstd::std_specs::hash::group_hash_axioms;

/// The limits on the reads of an ordinary request.
pub fn subtitle_read_limits() -> (result: SampleReadLimits)
    ensures
        result.countable(),
        result.max_samples == MAX_SELECTED_SUBTITLE_SAMPLES,
        result.max_sample_bytes == 1024 * 1024,
        result.max_logical_bytes == 64 * 1024 * 1024,
        result.max_physical_bytes == 96 * 1024 * 1024,
        result.max_regions == 4096,
        result.max_region_bytes == 8 * 1024 * 1024,
        result.max_coalesce_gap_bytes == 64 * 1024,
        result.max_sample_bytes <= result.max_region_bytes <= result.max_logical_bytes
            <= result.max_physical_bytes,
        result.max_regions <= result.max_samples,
{
    SampleReadLimits {
        max_samples: MAX_SELECTED_SUBTITLE_SAMPLES,
        max_sample_bytes: 1_048_576,
        max_logical_bytes: 67_108_864,
        max_physical_bytes: 100_663_296,
        max_regions: 4096,
        max_region_bytes: 8_388_608,
        max_coalesce_gap_bytes: 65_536,
    }
}

/// The words for a range that ends before it starts, or is empty.
pub open spec fn range_fault() -> Seq<char> {
    "subtitle range start must be before its end"@
}

/// Checks that a range is not empty.
pub fn validate_subtitle_range(range: Option<(Duration, Duration)>) -> (result: Result<
    (),
    MediaParserError,
>)
    ensures
        match crate::mp4::subtitles::cues::range_view(range) {
            Some((start, end)) => result is Ok <==> start < end,
            None => result is Ok,
        },
        result matches Err(error) ==> error@ == crate::errors::ErrorView::SubtitleError(
            range_fault(),
        ),
{
    match range {
        Some((start, end)) => if start.is_shorter_than(&end) {
            Ok(())
        } else {
            Err(subtitle_error("subtitle range start must be before its end"))
        },
        None => Ok(()),
    }
}

// ---------------------------------------------------------------------------
// Model
// ---------------------------------------------------------------------------

/// How far an extraction has come.
pub struct ExtractionView {
    pub filter: Option<crate::types::FilterView>,
    pub range: Option<(int, int)>,
    pub first_only: bool,
    pub read_limits: SampleReadLimits,
    pub reads: SampleReadBudget,
    pub limits: SubtitleRequestLimits,
    pub taken: crate::mp4::subtitles::cues::RequestUse,
    pub position: int,
    pub output: Seq<crate::types::SubtitleTrackView>,
}

/// Whether a filter names the track with this number.
pub open spec fn names_track(filter: Option<crate::types::FilterView>, id: u32) -> bool {
    filter == Some(crate::types::FilterView::TrackId(id))
}

/// Whether a track is wanted. A language matches in upper and lower case.
pub open spec fn wants(
    filter: Option<crate::types::FilterView>,
    track: crate::mp4::subtitles::index::TrackView,
) -> bool {
    match filter {
        None => true,
        Some(crate::types::FilterView::TrackId(id)) => track.id == id,
        Some(crate::types::FilterView::Language(language)) => track.language is Some
            && crate::strings::lower_text(track.language.unwrap()) == crate::strings::lower_text(
            language,
        ),
    }
}

/// The samples of selected cues.
pub open spec fn samples_of(cues: Seq<crate::mp4::subtitles::cues::CueSpan>) -> Seq<u32> {
    Seq::new(cues.len(), |i: int| cues[i].sample_index)
}

/// What an extraction does about one track.
pub enum TrackAction {
    /// It goes on to the next track.
    Pass,
    /// It needs the bytes of these batches for these cues.
    Read(Seq<crate::mp4::subtitles::cues::CueSpan>, Seq<crate::mp4::sample_reads::BatchView>),
}

/// A track that cannot be read ends the request only where it was named.
pub open spec fn after_track_failure(
    state: ExtractionView,
    id: u32,
    error: crate::errors::ErrorView,
) -> Result<(TrackAction, ExtractionView), crate::errors::ErrorView> {
    if names_track(state.filter, id) {
        Err(error)
    } else {
        Ok((TrackAction::Pass, state))
    }
}

/// What an extraction does about a track that is ready and wanted.
pub open spec fn planned_ready(state: ExtractionView, track: IndexedTrack) -> Result<
    (TrackAction, ExtractionView),
    crate::errors::ErrorView,
> {
    let output_bytes = state.taken.output_bytes + SUBTITLE_TRACK_PROJECTION_BYTES;
    let charged = ExtractionView {
        taken: crate::mp4::subtitles::cues::RequestUse { output_bytes, ..state.taken },
        ..state
    };
    if output_bytes > state.limits.max_output_bytes {
        Err(crate::errors::ErrorView::Other(crate::mp4::subtitles::cues::output_exceeded()))
    } else {
        match crate::mp4::subtitles::cues::track_cues(track@, state.range) {
            Err(text) => after_track_failure(
                charged,
                track.id,
                crate::errors::ErrorView::SubtitleError(text),
            ),
            Ok(cues) => {
                let selected_samples = state.taken.selected_samples + cues.len();
                let selected = ExtractionView {
                    taken: crate::mp4::subtitles::cues::RequestUse {
                        selected_samples,
                        ..charged.taken
                    },
                    ..charged
                };
                if selected_samples > state.limits.max_samples {
                    Err(crate::errors::ErrorView::Other("too many selected subtitle samples"@))
                } else {
                    match crate::mp4::sample_io::sample_plan(
                        samples_of(cues),
                        track.sizes,
                        track.stsc@,
                        track.chunk_offsets@,
                        state.read_limits,
                        state.reads,
                    ) {
                        Err(crate::mp4::sample_io::ReadFault::Track(text)) => after_track_failure(
                            selected,
                            track.id,
                            crate::errors::ErrorView::InvalidFormat(text),
                        ),
                        Err(crate::mp4::sample_io::ReadFault::Fatal(text)) => Err(
                            crate::errors::ErrorView::Other(text),
                        ),
                        Ok(batches) => Ok(
                            (
                                TrackAction::Read(cues, batches),
                                ExtractionView {
                                    reads: crate::mp4::sample_io::spent_on(
                                        state.reads,
                                        samples_of(cues),
                                        batches,
                                    ),
                                    ..selected
                                },
                            ),
                        ),
                    }
                }
            },
        }
    }
}

/// What an extraction does about one track.
pub open spec fn planned(state: ExtractionView, track: IndexedTrackState) -> Result<
    (TrackAction, ExtractionView),
    crate::errors::ErrorView,
> {
    match track {
        IndexedTrackState::Rejected { id, reason } => after_track_failure(
            state,
            id,
            crate::errors::ErrorView::SubtitleError(reason@),
        ),
        IndexedTrackState::Ready(track) => if wants(state.filter, track@) {
            planned_ready(state, track)
        } else {
            Ok((TrackAction::Pass, state))
        },
    }
}

/// The bytes of a batch's first `k` samples, put over those that are there.
pub open spec fn with_slices(
    samples: Map<u32, Seq<u8>>,
    slices: Seq<crate::mp4::sample_reads::SampleSlice>,
    k: int,
    data: Seq<u8>,
) -> Map<u32, Seq<u8>>
    decreases k,
{
    if k <= 0 {
        samples
    } else {
        with_slices(samples, slices, k - 1, data).insert(
            slices[k - 1].sample_index,
            crate::mp4::sample_reads::slice_bytes(slices[k - 1], data),
        )
    }
}

/// The samples that the first `k` batches brought, or the words for the first
/// of them that cannot be taken apart.
pub open spec fn gathered(
    batches: Seq<crate::mp4::sample_reads::BatchView>,
    data: Seq<Seq<u8>>,
    k: int,
) -> Result<Map<u32, Seq<u8>>, Seq<char>>
    decreases k,
{
    if k <= 0 {
        Ok(Map::empty())
    } else {
        match gathered(batches, data, k - 1) {
            Err(text) => Err(text),
            Ok(samples) => match crate::mp4::sample_reads::split_fault(
                batches[k - 1],
                data[k - 1],
            ) {
                Some(fault) => Err(
                    crate::mp4::thumbnail_io::split_fault_text(
                        fault,
                        batches[k - 1],
                        data[k - 1].len() as int,
                    ),
                ),
                None => Ok(
                    with_slices(
                        samples,
                        batches[k - 1].samples,
                        batches[k - 1].samples.len() as int,
                        data[k - 1],
                    ),
                ),
            },
        }
    }
}

/// What decoding cues came to.
pub enum DecodeOutcome {
    /// These cues, with what the request has taken.
    Cues(Seq<crate::types::CueView>, crate::mp4::subtitles::cues::RequestUse),
    /// The track cannot be decoded.
    Track(crate::errors::ErrorView, crate::mp4::subtitles::cues::RequestUse),
    /// The request cannot go on.
    Fatal(crate::errors::ErrorView),
}

/// What the text of one more cue takes, or which limit it is beyond.
pub open spec fn charged_for_text(
    taken: crate::mp4::subtitles::cues::RequestUse,
    limits: SubtitleRequestLimits,
    bytes: int,
) -> Result<crate::mp4::subtitles::cues::RequestUse, crate::errors::ErrorView> {
    if taken.decoded_text_bytes + bytes > limits.max_decoded_text_bytes {
        Err(crate::errors::ErrorView::Other("MP4 subtitle decoded text budget exceeded"@))
    } else if taken.cues + 1 > limits.max_cues {
        Err(crate::errors::ErrorView::Other("too many subtitle cues"@))
    } else if taken.output_bytes + SUBTITLE_CUE_PROJECTION_BYTES + bytes
        > limits.max_output_bytes {
        Err(crate::errors::ErrorView::Other(crate::mp4::subtitles::cues::output_exceeded()))
    } else {
        Ok(
            crate::mp4::subtitles::cues::RequestUse {
                selected_samples: taken.selected_samples,
                cues: taken.cues + 1,
                decoded_text_bytes: taken.decoded_text_bytes + bytes,
                output_bytes: taken.output_bytes + SUBTITLE_CUE_PROJECTION_BYTES + bytes,
            },
        )
    }
}

/// The outcome with one more cue.
#[verifier::opaque]
pub open spec fn with_cue(
    cues: Seq<crate::types::CueView>,
    taken: crate::mp4::subtitles::cues::RequestUse,
    span: crate::mp4::subtitles::cues::CueSpan,
    samples: Map<u32, Seq<u8>>,
    codec: Seq<char>,
    limits: SubtitleRequestLimits,
) -> DecodeOutcome {
    if !samples.contains_key(span.sample_index) {
        DecodeOutcome::Track(
            crate::errors::ErrorView::InvalidFormat(
                "missing subtitle sample "@ + crate::strings::decimal(span.sample_index as int),
            ),
            taken,
        )
    } else {
        match crate::mp4::subtitles::text::decoded(codec, samples[span.sample_index], None) {
            Ok(None) => DecodeOutcome::Cues(cues, taken),
            Ok(Some(text)) => match charged_for_text(
                taken,
                limits,
                crate::unicode::byte_len(text),
            ) {
                Ok(charged) => DecodeOutcome::Cues(
                    cues.push(
                        crate::types::CueView {
                            cue_id: span.sample_index,
                            start: span.start,
                            end: span.end,
                            text,
                        },
                    ),
                    charged,
                ),
                Err(error) => DecodeOutcome::Fatal(error),
            },
            Err(crate::mp4::subtitles::text::TextFault::Invalid) => DecodeOutcome::Track(
                crate::errors::ErrorView::SubtitleError("invalid MP4 subtitle sample"@),
                taken,
            ),
            Err(crate::mp4::subtitles::text::TextFault::Unsupported(name)) => DecodeOutcome::Track(
                crate::errors::ErrorView::UnsupportedCodec(name),
                taken,
            ),
            Err(crate::mp4::subtitles::text::TextFault::Capacity) => DecodeOutcome::Fatal(
                crate::errors::ErrorView::Other("MP4 subtitle text capacity exceeded"@),
            ),
        }
    }
}

/// What decoding the first `k` cues comes to.
pub open spec fn decoded_cues(
    spans: Seq<crate::mp4::subtitles::cues::CueSpan>,
    k: int,
    samples: Map<u32, Seq<u8>>,
    codec: Seq<char>,
    limits: SubtitleRequestLimits,
    taken: crate::mp4::subtitles::cues::RequestUse,
) -> DecodeOutcome
    decreases k,
{
    if k <= 0 {
        DecodeOutcome::Cues(seq![], taken)
    } else {
        match decoded_cues(spans, k - 1, samples, codec, limits, taken) {
            DecodeOutcome::Cues(cues, used) => with_cue(
                cues,
                used,
                spans[k - 1],
                samples,
                codec,
                limits,
            ),
            other => other,
        }
    }
}

/// A track as it is reported, with all its decoded cues.
pub open spec fn reported(
    track: crate::mp4::subtitles::index::TrackView,
    cues: Seq<crate::types::CueView>,
) -> crate::types::SubtitleTrackView {
    crate::types::SubtitleTrackView {
        base: crate::types::BaseTrackView {
            id: track.id,
            codec: track.codecs[track.codec_index],
            language: track.language,
            timescale: track.timescale,
            duration: track.duration,
            properties: crate::mp4::subtitles::output::property_pairs(
                track.handler,
                track.sizes.2 as int,
                cues.len() as int,
            ),
        },
        cues,
    }
}

/// Where an extraction is once the bytes for a track were read.
pub open spec fn supplied(
    state: ExtractionView,
    track: crate::mp4::subtitles::index::TrackView,
    spans: Seq<crate::mp4::subtitles::cues::CueSpan>,
    batches: Seq<crate::mp4::sample_reads::BatchView>,
    data: Seq<Seq<u8>>,
) -> Result<ExtractionView, crate::errors::ErrorView> {
    match gathered(batches, data, batches.len() as int) {
        Err(text) => if names_track(state.filter, track.id) {
            Err(crate::errors::ErrorView::InvalidFormat(text))
        } else {
            Ok(state)
        },
        Ok(samples) => match decoded_cues(
            spans,
            spans.len() as int,
            samples,
            track.codecs[track.codec_index],
            state.limits,
            state.taken,
        ) {
            DecodeOutcome::Fatal(error) => Err(error),
            DecodeOutcome::Track(error, taken) => if names_track(state.filter, track.id) {
                Err(error)
            } else {
                Ok(ExtractionView { taken, ..state })
            },
            DecodeOutcome::Cues(cues, taken) => Ok(
                ExtractionView { taken, output: state.output.push(reported(track, cues)), ..state },
            ),
        },
    }
}

/// Whether an error says that the allocator has no more room.
pub open spec fn reports_no_room(error: MediaParserError) -> bool {
    ||| crate::mp4::subtitles::cues::reports_no_room(error)
    ||| crate::mp4::subtitles::output::reports_no_room(error)
    ||| crate::mp4::subtitles::output::reports_no_properties(error)
    ||| error@ == crate::errors::ErrorView::Other("MP4 subtitle text capacity exceeded"@)
    ||| error@ == crate::errors::ErrorView::Other("MP4 subtitle cue allocation failed"@)
    ||| error@ == crate::errors::ErrorView::Other("MP4 subtitle track allocation failed"@)
    ||| error@ == crate::errors::ErrorView::Other(crate::mp4::sample_io::no_room())
}

// ---------------------------------------------------------------------------
// The extraction
// ---------------------------------------------------------------------------

/// Whether memory is asked for to go on to a track: only where it is wanted, has
/// cues to select, and neither its projection nor its samples are beyond their
/// limit.
pub open spec fn needs_room(state: ExtractionView, track: IndexedTrackState) -> bool {
    track matches IndexedTrackState::Ready(track) && wants(state.filter, track@)
        && needs_room_for_cues(state, track)
}

/// Whether memory is asked for to select the cues of a track that is wanted.
pub open spec fn needs_room_for_cues(state: ExtractionView, track: IndexedTrack) -> bool {
    &&& state.taken.output_bytes + SUBTITLE_TRACK_PROJECTION_BYTES <= state.limits.max_output_bytes
    &&& crate::mp4::subtitles::cues::track_cues(track@, state.range) matches Ok(cues) && cues.len()
        > 0 && state.taken.selected_samples + cues.len() <= state.limits.max_samples
}

/// What one track needs of the file.
#[derive(Debug)]
pub struct TrackReads {
    /// The place of the track in the index.
    pub track: usize,
    pub selected: Vec<SelectedCue>,
    pub batches: Vec<ReadBatch>,
}

/// What an extraction does next.
#[derive(Debug)]
pub enum ExtractionStep {
    /// All tracks are done.
    Done,
    /// A track is done, or not wanted.
    Pass,
    /// A track needs these bytes.
    Read(TrackReads),
}

/// A request for subtitle tracks under way.
#[derive(Debug)]
pub struct SubtitleExtraction {
    pub filter: Option<TrackFilter>,
    pub range: Option<(Duration, Duration)>,
    pub first_only: bool,
    pub read_limits: SampleReadLimits,
    pub reads: SampleReadBudget,
    pub request: SubtitleRequestBudget,
    pub position: usize,
    pub output: Vec<SubtitleTrack>,
}

impl View for SubtitleExtraction {
    type V = ExtractionView;

    open spec fn view(&self) -> ExtractionView {
        ExtractionView {
            filter: crate::types::filter_view(self.filter),
            range: crate::mp4::subtitles::cues::range_view(self.range),
            first_only: self.first_only,
            read_limits: self.read_limits,
            reads: self.reads,
            limits: self.request.limits(),
            taken: self.request.taken(),
            position: self.position as int,
            output: crate::types::subtitle_track_views(self.output@),
        }
    }
}

/// Whether a track is the one that a filter names.
fn is_named(filter: &Option<TrackFilter>, id: u32) -> (result: bool)
    ensures
        result == names_track(crate::types::filter_view(*filter), id),
{
    match filter {
        Some(TrackFilter::TrackId(wanted)) => *wanted == id,
        _ => false,
    }
}

/// Whether a track is wanted.
pub fn track_matches(track: &IndexedTrack, filter: &Option<TrackFilter>) -> (result: bool)
    ensures
        result == wants(crate::types::filter_view(*filter), track@),
{
    match filter {
        None => true,
        Some(TrackFilter::TrackId(id)) => track.id == *id,
        Some(TrackFilter::Language(language)) => match &track.language {
            Some(own) => equal_ignoring_case(own.as_str(), language.as_str()),
            None => false,
        },
    }
}

/// Lets a request go on without a track, unless the track was named.
fn handle_track_failure(filter: &Option<TrackFilter>, id: u32, error: MediaParserError) -> (result:
    Result<(), MediaParserError>)
    ensures
        match result {
            Ok(_) => !names_track(crate::types::filter_view(*filter), id),
            Err(reported) => names_track(crate::types::filter_view(*filter), id) && reported
                == error,
        },
{
    if is_named(filter, id) {
        return Err(error);
    }
    Ok(())
}

/// The samples of selected cues.
fn selected_samples(selected: &Vec<SelectedCue>) -> (result: Result<Vec<u32>, MediaParserError>)
    ensures
        match result {
            Ok(samples) => samples@ == samples_of(
                crate::mp4::subtitles::cues::cue_spans(selected@),
            ),
            Err(error) => selected@.len() > 0 && crate::mp4::subtitles::cues::reports_no_room(
                error,
            ),
        },
{
    let mut samples: Vec<u32> = Vec::new();
    if !try_reserve_exact(&mut samples, selected.len()) {
        return Err(other_error("MP4 subtitle sample selection allocation failed"));
    }
    let ghost all = samples_of(crate::mp4::subtitles::cues::cue_spans(selected@));
    let mut index: usize = 0;
    assert(samples@ =~= all.take(0));
    while index < selected.len()
        invariant
            index <= selected@.len(),
            all == samples_of(crate::mp4::subtitles::cues::cue_spans(selected@)),
            samples@ == all.take(index as int),
        decreases selected@.len() - index,
    {
        samples.push(selected[index].sample_index);
        index += 1;
        assert(samples@ =~= all.take(index as int));
    }
    assert(all.take(index as int) =~= all);
    Ok(samples)
}

impl SubtitleExtraction {
    /// Whether nothing is taken or spent beyond its limit.
    pub open spec fn in_limits(self) -> bool {
        &&& self.request.in_limits()
        &&& self.reads.in_limits(self.read_limits)
        &&& self.read_limits.countable()
    }

    /// A request that starts with the first track.
    pub fn new(
        filter: Option<TrackFilter>,
        range: Option<(Duration, Duration)>,
        first_only: bool,
        limits: SubtitleRequestLimits,
        read_limits: SampleReadLimits,
    ) -> (result: Result<Self, MediaParserError>)
        requires
            read_limits.countable(),
        ensures
            match result {
                Ok(extraction) => {
                    &&& limits.max_output_bytes
                        >= crate::mp4::subtitles::cues::SUBTITLE_ENVELOPE_PROJECTED_BASE_BYTES
                    &&& extraction.in_limits()
                    &&& extraction@ == (ExtractionView {
                        filter: crate::types::filter_view(filter),
                        range: crate::mp4::subtitles::cues::range_view(range),
                        first_only,
                        read_limits,
                        reads: SampleReadBudget {
                            samples: 0,
                            logical_bytes: 0,
                            physical_bytes: 0,
                            regions: 0,
                        },
                        limits,
                        taken: crate::mp4::subtitles::cues::RequestUse {
                            selected_samples: 0,
                            cues: 0,
                            decoded_text_bytes: 0,
                            output_bytes:
                                crate::mp4::subtitles::cues::SUBTITLE_ENVELOPE_PROJECTED_BASE_BYTES as int,
                        },
                        position: 0,
                        output: seq![],
                    })
                },
                Err(error) => {
                    &&& limits.max_output_bytes
                        < crate::mp4::subtitles::cues::SUBTITLE_ENVELOPE_PROJECTED_BASE_BYTES
                    &&& error@ == crate::errors::ErrorView::Other(
                        crate::mp4::subtitles::cues::output_exceeded(),
                    )
                },
            },
    {
        let request = match SubtitleRequestBudget::new(limits) {
            Ok(request) => request,
            Err(error) => {
                return Err(error);
            },
        };
        let extraction = SubtitleExtraction {
            filter,
            range,
            first_only,
            read_limits,
            reads: SampleReadBudget::default(),
            request,
            position: 0,
            output: Vec::new(),
        };
        assert(extraction@.output =~= seq![]);
        Ok(extraction)
    }
}

impl SubtitleExtraction {
    /// Plans the reads of one ready track that is wanted.
    fn plan_ready(&mut self, track: &IndexedTrack) -> (result: Result<
        Option<(Vec<SelectedCue>, Vec<ReadBatch>)>,
        MediaParserError,
    >)
        requires
            old(self).in_limits(),
            track@.usable(),
        ensures
            final(self).in_limits(),
            ({
                let expected = planned_ready(old(self)@, *track);
                match result {
                    Ok(None) => expected == Ok::<
                        (TrackAction, ExtractionView),
                        crate::errors::ErrorView,
                    >((TrackAction::Pass, final(self)@)),
                    Ok(Some((selected, batches))) => expected == Ok::<
                        (TrackAction, ExtractionView),
                        crate::errors::ErrorView,
                    >(
                        (
                            TrackAction::Read(
                                crate::mp4::subtitles::cues::cue_spans(selected@),
                                crate::mp4::sample_reads::batch_views(batches@),
                            ),
                            final(self)@,
                        ),
                    ),
                    Err(error) => needs_room_for_cues(old(self)@, *track) && reports_no_room(error)
                        || (expected matches Err(text) && error@ == text),
                }
            }),
    {
        let range = self.range;
        match self.request.charge_projection(SUBTITLE_TRACK_PROJECTION_BYTES) {
            Ok(_) => {},
            Err(error) => {
                return Err(error);
            },
        }
        let selected = match select_cues(track, range, &mut self.request) {
            Ok(selected) => selected,
            Err(SelectCuesError::Track(error)) => {
                match handle_track_failure(&self.filter, track.id, error) {
                    Ok(_) => {
                        return Ok(None);
                    },
                    Err(error) => {
                        return Err(error);
                    },
                }
            },
            Err(SelectCuesError::Fatal(error)) => {
                return Err(error);
            },
        };
        let samples = match selected_samples(&selected) {
            Ok(samples) => samples,
            Err(error) => {
                return Err(error);
            },
        };
        match plan_sample_reads(
            samples.as_slice(),
            &track.sizes,
            track.stsc.as_slice(),
            track.chunk_offsets.as_slice(),
            self.read_limits,
            &mut self.reads,
        ) {
            Ok(batches) => Ok(Some((selected, batches))),
            Err(SampleReadError::Track(error)) => {
                match handle_track_failure(&self.filter, track.id, error) {
                    Ok(_) => Ok(None),
                    Err(error) => Err(error),
                }
            },
            Err(SampleReadError::Fatal(error)) => Err(error),
        }
    }

    /// Goes on to the next track and says what it needs of the file.
    ///
    /// Where only the first track is wanted, one reported track is enough.
    pub fn advance(&mut self, index: &SubtitleIndex) -> (result: Result<
        ExtractionStep,
        MediaParserError,
    >)
        requires
            old(self).in_limits(),
            index.usable(),
        ensures
            final(self).in_limits(),
            ({
                let state = old(self)@;
                let next = ExtractionView { position: state.position + 1, ..state };
                let expected = planned(next, index.tracks@[state.position]);
                if state.position >= index.tracks@.len() || state.first_only && state.output.len()
                    > 0 {
                    result matches Ok(step) && step is Done && *final(self) == *old(self)
                } else {
                    match result {
                        Ok(ExtractionStep::Done) => false,
                        Ok(ExtractionStep::Pass) => expected == Ok::<
                            (TrackAction, ExtractionView),
                            crate::errors::ErrorView,
                        >((TrackAction::Pass, final(self)@)),
                        Ok(ExtractionStep::Read(reads)) => {
                            &&& reads.track == state.position
                            &&& index.tracks@[state.position] is Ready
                            &&& expected == Ok::<
                                (TrackAction, ExtractionView),
                                crate::errors::ErrorView,
                            >(
                                (
                                    TrackAction::Read(
                                        crate::mp4::subtitles::cues::cue_spans(reads.selected@),
                                        crate::mp4::sample_reads::batch_views(reads.batches@),
                                    ),
                                    final(self)@,
                                ),
                            )
                        },
                        Err(error) => needs_room(next, index.tracks@[state.position])
                            && reports_no_room(error) || (expected matches Err(text) && error@
                            == text),
                    }
                }
            }),
    {
        if self.position >= index.tracks.len() || (self.first_only && self.output.len() > 0) {
            return Ok(ExtractionStep::Done);
        }
        let place: usize = self.position;
        self.position = place + 1;
        match &index.tracks[place] {
            IndexedTrackState::Rejected { id, reason } => {
                match handle_track_failure(&self.filter, *id, subtitle_error(reason)) {
                    Ok(_) => Ok(ExtractionStep::Pass),
                    Err(error) => Err(error),
                }
            },
            IndexedTrackState::Ready(track) => {
                assert(index.tracks@[place as int]@ == crate::mp4::subtitles::index::StateView::Ready(
                    track@,
                ));
                if !track_matches(track, &self.filter) {
                    return Ok(ExtractionStep::Pass);
                }
                match self.plan_ready(track) {
                    Ok(Some((selected, batches))) => Ok(
                        ExtractionStep::Read(TrackReads { track: place, selected, batches }),
                    ),
                    Ok(None) => Ok(ExtractionStep::Pass),
                    Err(error) => Err(error),
                }
            },
        }
    }
}

// ---------------------------------------------------------------------------
// Taking back what was read
// ---------------------------------------------------------------------------

pub open spec fn byte_views(data: Seq<Vec<u8>>) -> Seq<Seq<u8>> {
    Seq::new(data.len(), |i: int| data[i]@)
}

/// Samples by their bytes.
pub open spec fn byte_map(samples: Map<u32, Vec<u8>>) -> Map<u32, Seq<u8>> {
    samples.map_values(|bytes: Vec<u8>| bytes@)
}

proof fn lemma_gathered_error_stays(
    batches: Seq<crate::mp4::sample_reads::BatchView>,
    data: Seq<Seq<u8>>,
    i: int,
    j: int,
)
    requires
        0 <= i <= j,
        gathered(batches, data, i) is Err,
    ensures
        gathered(batches, data, j) == gathered(batches, data, i),
    decreases j - i,
{
    if i < j {
        lemma_gathered_error_stays(batches, data, i, j - 1);
    }
}

/// Checks that the batches of a track can be taken apart.
fn check_batches(batches: &Vec<ReadBatch>, data: &Vec<Vec<u8>>) -> (result: Result<
    (),
    MediaParserError,
>)
    requires
        data@.len() == batches@.len(),
    ensures
        ({
            let views = crate::mp4::sample_reads::batch_views(batches@);
            let expected = gathered(views, byte_views(data@), batches@.len() as int);
            match result {
                Ok(_) => expected is Ok && forall|i: int|
                    0 <= i < batches@.len() ==> crate::mp4::sample_reads::split_fault(
                        (#[trigger] batches@[i])@,
                        data@[i]@,
                    ) is None,
                Err(error) => expected matches Err(text) && error@
                    == crate::errors::ErrorView::InvalidFormat(text),
            }
        }),
{
    let ghost views = crate::mp4::sample_reads::batch_views(batches@);
    let ghost bytes = byte_views(data@);
    let mut index: usize = 0;
    while index < batches.len()
        invariant
            index <= batches@.len(),
            data@.len() == batches@.len(),
            views == crate::mp4::sample_reads::batch_views(batches@),
            bytes == byte_views(data@),
            gathered(views, bytes, index as int) is Ok,
            forall|i: int|
                0 <= i < index ==> crate::mp4::sample_reads::split_fault(
                    (#[trigger] batches@[i])@,
                    data@[i]@,
                ) is None,
        decreases batches@.len() - index,
    {
        assert(views[index as int] == batches@[index as int]@);
        assert(bytes[index as int] == data@[index as int]@);
        match batch_fault(&batches[index], data[index].as_slice()) {
            Some(fault) => {
                proof {
                    lemma_gathered_error_stays(views, bytes, index + 1, batches@.len() as int);
                }
                return Err(split_error(fault, &batches[index], data[index].len()));
            },
            None => {},
        }
        index += 1;
    }
    Ok(())
}

/// Takes the batches of a track apart into its samples. Only where that can be
/// done is memory asked for.
fn gather_samples(batches: &Vec<ReadBatch>, data: &Vec<Vec<u8>>) -> (result: Result<
    HashMap<u32, Vec<u8>>,
    CueError,
>)
    requires
        data@.len() == batches@.len(),
    ensures
        ({
            let expected = gathered(
                crate::mp4::sample_reads::batch_views(batches@),
                byte_views(data@),
                batches@.len() as int,
            );
            match result {
                Ok(samples) => expected == Ok::<Map<u32, Seq<u8>>, Seq<char>>(byte_map(samples@)),
                Err(CueError::Track(error)) => expected matches Err(text) && error@
                    == crate::errors::ErrorView::InvalidFormat(text),
                Err(CueError::Fatal(error)) => expected is Ok && reports_no_room(error),
            }
        }),
{
    match check_batches(batches, data) {
        Ok(_) => {},
        Err(error) => {
            return Err(CueError::Track(error));
        },
    }
    let ghost views = crate::mp4::sample_reads::batch_views(batches@);
    let ghost bytes = byte_views(data@);
    let mut samples: HashMap<u32, Vec<u8>> = HashMap::new();
    let mut index: usize = 0;
    assert(byte_map(samples@) =~= Map::empty());
    while index < batches.len()
        invariant
            index <= batches@.len(),
            data@.len() == batches@.len(),
            views == crate::mp4::sample_reads::batch_views(batches@),
            bytes == byte_views(data@),
            gathered(views, bytes, batches@.len() as int) is Ok,
            forall|i: int|
                0 <= i < batches@.len() ==> crate::mp4::sample_reads::split_fault(
                    (#[trigger] batches@[i])@,
                    data@[i]@,
                ) is None,
            gathered(views, bytes, index as int) == Ok::<Map<u32, Seq<u8>>, Seq<char>>(
                byte_map(samples@),
            ),
        decreases batches@.len() - index,
    {
        let ghost before = byte_map(samples@);
        assert(views[index as int] == batches@[index as int]@);
        assert(bytes[index as int] == data@[index as int]@);
        let parts = match take_apart(&batches[index], data[index].as_slice()) {
            Some(parts) => parts,
            None => {
                return Err(CueError::Fatal(other_error("MP4 sample read allocation failed")));
            },
        };
        if !try_reserve_samples(&mut samples, parts.len()) {
            return Err(CueError::Fatal(other_error("MP4 sample read allocation failed")));
        }
        let ghost pairs = parts@;
        let ghost slices = batches@[index as int].samples@;
        let ghost source = data@[index as int]@;
        for pair in inner: parts
            invariant
                inner.seq() == pairs,
                crate::mp4::sample_reads::parts_of(pairs, slices, source),
                byte_map(samples@) == with_slices(before, slices, inner.index() as int, source),
        {
            let ghost held = samples@;
            samples.insert(pair.0, pair.1);
            assert(byte_map(samples@) =~= byte_map(held).insert(pair.0, pair.1@));
        }
        index += 1;
    }
    Ok(samples)
}

proof fn lemma_outcome_stays(
    spans: Seq<crate::mp4::subtitles::cues::CueSpan>,
    i: int,
    j: int,
    samples: Map<u32, Seq<u8>>,
    codec: Seq<char>,
    limits: SubtitleRequestLimits,
    taken: crate::mp4::subtitles::cues::RequestUse,
)
    requires
        0 <= i <= j,
        !(decoded_cues(spans, i, samples, codec, limits, taken) is Cues),
    ensures
        decoded_cues(spans, j, samples, codec, limits, taken) == decoded_cues(
            spans,
            i,
            samples,
            codec,
            limits,
            taken,
        ),
    decreases j - i,
{
    if i < j {
        lemma_outcome_stays(spans, i, j - 1, samples, codec, limits, taken);
    }
}

/// Why the cues of a track are not read or decoded.
enum CueError {
    Track(MediaParserError),
    Fatal(MediaParserError),
}

/// Charges one more cue to the request.
fn charge_text(request: &mut SubtitleRequestBudget, bytes: usize) -> (result: Result<
    (),
    MediaParserError,
>)
    requires
        old(request).in_limits(),
    ensures
        final(request).in_limits(),
        final(request).limits() == old(request).limits(),
        ({
            let expected = charged_for_text(old(request).taken(), old(request).limits(), bytes as int);
            match result {
                Ok(_) => expected == Ok::<
                    crate::mp4::subtitles::cues::RequestUse,
                    crate::errors::ErrorView,
                >(final(request).taken()),
                Err(error) => expected matches Err(text) && error@ == text,
            }
        }),
{
    match request.request.charge_decoded_text(bytes) {
        Ok(_) => {},
        Err(error) => {
            return Err(error);
        },
    }
    match request.request.charge_cue(1) {
        Ok(_) => {},
        Err(error) => {
            return Err(error);
        },
    }
    match request.charge_projection(SUBTITLE_CUE_PROJECTION_BYTES) {
        Ok(_) => {},
        Err(error) => {
            return Err(error);
        },
    }
    request.charge_projection(bytes)
}

/// Decodes the selected cues of a track and charges them to the request.
fn decode_cues(
    codec: &str,
    selected: &Vec<SelectedCue>,
    samples: &HashMap<u32, Vec<u8>>,
    request: &mut SubtitleRequestBudget,
) -> (result: Result<Vec<SubtitleCue>, CueError>)
    requires
        old(request).in_limits(),
    ensures
        final(request).in_limits(),
        final(request).limits() == old(request).limits(),
        ({
            let outcome = decoded_cues(
                crate::mp4::subtitles::cues::cue_spans(selected@),
                selected@.len() as int,
                byte_map(samples@),
                codec@,
                old(request).limits(),
                old(request).taken(),
            );
            match result {
                Ok(cues) => outcome == DecodeOutcome::Cues(
                    crate::types::cue_views(cues@),
                    final(request).taken(),
                ),
                Err(CueError::Track(error)) => outcome == DecodeOutcome::Track(
                    error@,
                    final(request).taken(),
                ),
                Err(CueError::Fatal(error)) => reports_no_room(error) || outcome
                    == DecodeOutcome::Fatal(error@),
            }
        }),
{
    let ghost spans = crate::mp4::subtitles::cues::cue_spans(selected@);
    let ghost bytes = byte_map(samples@);
    let ghost limits = request.limits();
    let ghost taken = request.taken();
    let mut cues: Vec<SubtitleCue> = Vec::new();
    if !try_reserve_exact(&mut cues, selected.len()) {
        return Err(CueError::Fatal(other_error("MP4 subtitle cue allocation failed")));
    }
    let mut index: usize = 0;
    assert(crate::types::cue_views(cues@) =~= seq![]);
    while index < selected.len()
        invariant
            index <= selected@.len(),
            spans == crate::mp4::subtitles::cues::cue_spans(selected@),
            bytes == byte_map(samples@),
            limits == old(request).limits(),
            taken == old(request).taken(),
            request.in_limits(),
            request.limits() == limits,
            decoded_cues(spans, index as int, bytes, codec@, limits, taken)
                == DecodeOutcome::Cues(crate::types::cue_views(cues@), request.taken()),
        decreases selected@.len() - index,
    {
        let ghost before = crate::types::cue_views(cues@);
        let ghost used = request.taken();
        let cue = selected[index];
        assert(spans[index as int] == cue@);
        let ghost step = with_cue(before, used, cue@, bytes, codec@, limits);
        proof {
            reveal(with_cue);
            if !(step is Cues) {
                lemma_outcome_stays(
                    spans,
                    index + 1,
                    selected@.len() as int,
                    bytes,
                    codec@,
                    limits,
                    taken,
                );
            }
        }
        match samples.get(&cue.sample_index) {
            Some(data) => {
                assert(bytes[cue.sample_index] == data@);
                match decode_sample(codec, data.as_slice()) {
                    Ok(Some(text)) => {
                        match charge_text(request, text_len(text.as_str())) {
                            Ok(_) => {
                                let next = SubtitleCue {
                                    cue_id: cue.sample_index,
                                    start_time: cue.start_time,
                                    end_time: cue.end_time,
                                    text,
                                };
                                let ghost pushed = next@;
                                cues.push(next);
                                assert(crate::types::cue_views(cues@) =~= before.push(pushed));
                            },
                            Err(error) => {
                                return Err(CueError::Fatal(error));
                            },
                        }
                    },
                    Ok(None) => {},
                    Err(DecodeSampleError::Track(error)) => {
                        return Err(CueError::Track(error));
                    },
                    Err(DecodeSampleError::Fatal(error)) => {
                        return Err(CueError::Fatal(error));
                    },
                }
            },
            None => {
                return Err(
                    CueError::Track(
                        MediaParserError::InvalidFormat(
                            join2(
                                "missing subtitle sample ",
                                decimal_text(cue.sample_index as u64).as_str(),
                            ),
                        ),
                    ),
                );
            },
        }
        index += 1;
    }
    Ok(cues)
}

/// A track as it is reported.
fn report_track(track: &IndexedTrack, cues: Vec<SubtitleCue>) -> (result: Result<
    SubtitleTrack,
    MediaParserError,
>)
    requires
        track@.usable(),
    ensures
        match result {
            Ok(output) => output@ == reported(track@, crate::types::cue_views(cues@)),
            Err(error) => crate::mp4::subtitles::output::reports_no_room(error)
                || crate::mp4::subtitles::output::reports_no_properties(error),
        },
{
    let properties = match track_properties(track.handler, track.sizes.sample_count, cues.len()) {
        Ok(properties) => properties,
        Err(error) => {
            return Err(error);
        },
    };
    let codec = match output_string(track.codec()) {
        Ok(codec) => codec,
        Err(error) => {
            return Err(error);
        },
    };
    let language = match &track.language {
        Some(language) => match output_string(language.as_str()) {
            Ok(language) => Some(language),
            Err(error) => {
                return Err(error);
            },
        },
        None => None,
    };
    Ok(
        SubtitleTrack {
            base: BaseTrackMeta {
                id: track.id,
                codec,
                language,
                timescale: track.timescale,
                duration: track.duration,
                properties,
            },
            cues,
        },
    )
}

impl SubtitleExtraction {
    /// Takes the bytes of a track's batches, in their order, and reports the
    /// track with all its cues.
    ///
    /// A track that cannot be decoded is left out as a whole, unless it was
    /// named: what it took of the request stays taken.
    pub fn supply(
        &mut self,
        track: &IndexedTrack,
        selected: Vec<SelectedCue>,
        batches: Vec<ReadBatch>,
        data: Vec<Vec<u8>>,
    ) -> (result: Result<(), MediaParserError>)
        requires
            old(self).in_limits(),
            track@.usable(),
            data@.len() == batches@.len(),
        ensures
            final(self).in_limits(),
            ({
                let expected = supplied(
                    old(self)@,
                    track@,
                    crate::mp4::subtitles::cues::cue_spans(selected@),
                    crate::mp4::sample_reads::batch_views(batches@),
                    byte_views(data@),
                );
                match result {
                    Ok(_) => expected == Ok::<ExtractionView, crate::errors::ErrorView>(
                        final(self)@,
                    ),
                    Err(error) => {
                        ||| expected matches Err(text) && error@ == text
                        ||| gathered(
                            crate::mp4::sample_reads::batch_views(batches@),
                            byte_views(data@),
                            batches@.len() as int,
                        ) is Ok && reports_no_room(error)
                    },
                }
            }),
    {
        let samples = match gather_samples(&batches, &data) {
            Ok(samples) => samples,
            Err(CueError::Track(error)) => {
                return handle_track_failure(&self.filter, track.id, error);
            },
            Err(CueError::Fatal(error)) => {
                return Err(error);
            },
        };
        let cues = match decode_cues(track.codec(), &selected, &samples, &mut self.request) {
            Ok(cues) => cues,
            Err(CueError::Track(error)) => {
                return handle_track_failure(&self.filter, track.id, error);
            },
            Err(CueError::Fatal(error)) => {
                return Err(error);
            },
        };
        let output = match report_track(track, cues) {
            Ok(output) => output,
            Err(error) => {
                return Err(error);
            },
        };
        if !try_reserve_exact(&mut self.output, 1) {
            return Err(other_error("MP4 subtitle track allocation failed"));
        }
        let ghost before = crate::types::subtitle_track_views(self.output@);
        let ghost pushed = output@;
        self.output.push(output);
        assert(crate::types::subtitle_track_views(self.output@) =~= before.push(pushed));
        Ok(())
    }

    /// The tracks reported.
    pub fn finish(self) -> (result: Vec<SubtitleTrack>)
        ensures
            crate::types::subtitle_track_views(result@) == self@.output,
    {
        self.output
    }
}

// ---------------------------------------------------------------------------
// What an extraction promises
// ---------------------------------------------------------------------------

/// The bytes that a file holds at a sample's place.
pub open spec fn file_bytes(
    n: u32,
    sizes: crate::mp4::samples::SampleSizes,
    stsc: Seq<crate::mp4::samples::StscEntry>,
    chunk_offsets: Seq<u64>,
    file: Seq<u8>,
) -> Seq<u8> {
    let read = crate::mp4::sample_reads::read_of(n, sizes, stsc, chunk_offsets);
    file.subrange(read.offset as int, read.offset + read.size)
}

/// The bytes that reading each batch from a file brings.
pub open spec fn read_from(
    batches: Seq<crate::mp4::sample_reads::BatchView>,
    file: Seq<u8>,
) -> Seq<Seq<u8>> {
    Seq::new(
        batches.len(),
        |i: int| file.subrange(batches[i].offset, batches[i].offset + batches[i].size),
    )
}

/// Whether all of a map's samples have the bytes that the file holds for them.
spec fn faithful(
    samples: Map<u32, Seq<u8>>,
    sizes: crate::mp4::samples::SampleSizes,
    stsc: Seq<crate::mp4::samples::StscEntry>,
    chunk_offsets: Seq<u64>,
    file: Seq<u8>,
) -> bool {
    forall|n: u32| #[trigger]
        samples.contains_key(n) ==> samples[n] == file_bytes(n, sizes, stsc, chunk_offsets, file)
}

proof fn lemma_with_slices_faithful(
    samples: Map<u32, Seq<u8>>,
    slices: Seq<crate::mp4::sample_reads::SampleSlice>,
    k: int,
    data: Seq<u8>,
    sizes: crate::mp4::samples::SampleSizes,
    stsc: Seq<crate::mp4::samples::StscEntry>,
    chunk_offsets: Seq<u64>,
    file: Seq<u8>,
)
    requires
        0 <= k <= slices.len(),
        faithful(samples, sizes, stsc, chunk_offsets, file),
        forall|s: int|
            0 <= s < slices.len() ==> crate::mp4::sample_reads::slice_bytes(
                #[trigger] slices[s],
                data,
            ) == file_bytes(slices[s].sample_index, sizes, stsc, chunk_offsets, file),
    ensures
        faithful(with_slices(samples, slices, k, data), sizes, stsc, chunk_offsets, file),
        samples.dom().subset_of(with_slices(samples, slices, k, data).dom()),
        forall|s: int|
            0 <= s < k ==> with_slices(samples, slices, k, data).contains_key(
                (#[trigger] slices[s]).sample_index,
            ),
    decreases k,
{
    if k > 0 {
        lemma_with_slices_faithful(
            samples,
            slices,
            k - 1,
            data,
            sizes,
            stsc,
            chunk_offsets,
            file,
        );
        assert(crate::mp4::sample_reads::slice_bytes(slices[k - 1], data) == file_bytes(
            slices[k - 1].sample_index,
            sizes,
            stsc,
            chunk_offsets,
            file,
        ));
    }
}

proof fn lemma_gathered_faithful(
    batches: Seq<crate::mp4::sample_reads::BatchView>,
    k: int,
    sizes: crate::mp4::samples::SampleSizes,
    stsc: Seq<crate::mp4::samples::StscEntry>,
    chunk_offsets: Seq<u64>,
    file: Seq<u8>,
)
    requires
        0 <= k <= batches.len(),
        forall|b: int|
            0 <= b < batches.len() ==> crate::mp4::sample_reads::split_fault(
                #[trigger] batches[b],
                read_from(batches, file)[b],
            ) is None,
        forall|b: int, s: int|
            #![trigger batches[b].samples[s]]
            0 <= b < batches.len() && 0 <= s < batches[b].samples.len()
                ==> crate::mp4::sample_reads::slice_bytes(
                batches[b].samples[s],
                read_from(batches, file)[b],
            ) == file_bytes(batches[b].samples[s].sample_index, sizes, stsc, chunk_offsets, file),
    ensures
        ({
            let samples = gathered(batches, read_from(batches, file), k);
            &&& samples is Ok
            &&& faithful(samples->Ok_0, sizes, stsc, chunk_offsets, file)
            &&& forall|b: int, s: int|
                #![trigger batches[b].samples[s]]
                0 <= b < k && 0 <= s < batches[b].samples.len() ==> samples->Ok_0.contains_key(
                    batches[b].samples[s].sample_index,
                )
        }),
    decreases k,
{
    if k > 0 {
        lemma_gathered_faithful(batches, k - 1, sizes, stsc, chunk_offsets, file);
        let data = read_from(batches, file);
        let last = batches[k - 1];
        assert(crate::mp4::sample_reads::split_fault(batches[k - 1], data[k - 1]) is None);
        assert forall|s: int| 0 <= s < last.samples.len() implies
            crate::mp4::sample_reads::slice_bytes(#[trigger] last.samples[s], data[k - 1])
            == file_bytes(last.samples[s].sample_index, sizes, stsc, chunk_offsets, file) by {
            assert(batches[k - 1].samples[s] == last.samples[s]);
        }
        lemma_with_slices_faithful(
            gathered(batches, data, k - 1)->Ok_0,
            last.samples,
            last.samples.len() as int,
            data[k - 1],
            sizes,
            stsc,
            chunk_offsets,
            file,
        );
    }
}

/// Where the planned batches of a track were read from a file in full, each
/// wanted sample comes out with the bytes that the file holds at its place.
pub proof fn lemma_samples_come_from_the_file(
    wanted: Seq<u32>,
    sizes: crate::mp4::samples::SampleSizes,
    stsc: Seq<crate::mp4::samples::StscEntry>,
    chunk_offsets: Seq<u64>,
    limits: SampleReadLimits,
    used: SampleReadBudget,
    file: Seq<u8>,
)
    requires
        ({
            let plan = crate::mp4::sample_io::sample_plan(
                wanted,
                sizes,
                stsc,
                chunk_offsets,
                limits,
                used,
            );
            &&& plan is Ok
            &&& forall|b: int|
                0 <= b < plan->Ok_0.len() ==> (#[trigger] plan->Ok_0[b]).offset
                    + plan->Ok_0[b].size <= file.len()
        }),
    ensures
        ({
            let batches = crate::mp4::sample_io::sample_plan(
                wanted,
                sizes,
                stsc,
                chunk_offsets,
                limits,
                used,
            )->Ok_0;
            let samples = gathered(batches, read_from(batches, file), batches.len() as int);
            &&& samples is Ok
            &&& forall|n: u32| #[trigger]
                wanted.contains(n) ==> samples->Ok_0.contains_key(n) && samples->Ok_0[n]
                    == file_bytes(n, sizes, stsc, chunk_offsets, file)
        }),
{
    let max_total = crate::mp4::sample_io::left_of(limits.max_logical_bytes, used.logical_bytes);
    let batches = crate::mp4::sample_io::sample_plan(
        wanted,
        sizes,
        stsc,
        chunk_offsets,
        limits,
        used,
    )->Ok_0;
    let data = read_from(batches, file);
    crate::mp4::sample_reads::lemma_plan_brings_the_wanted_samples(
        wanted,
        sizes,
        stsc,
        chunk_offsets,
        limits.max_sample_bytes as int,
        max_total,
        limits.max_coalesce_gap_bytes as int,
        limits.max_region_bytes as int,
    );
    assert forall|b: int| 0 <= b < batches.len() implies crate::mp4::sample_reads::split_fault(
        #[trigger] batches[b],
        data[b],
    ) is None by {
        crate::mp4::sample_reads::lemma_split_gives_file_bytes(
            wanted,
            sizes,
            stsc,
            chunk_offsets,
            limits.max_sample_bytes as int,
            max_total,
            limits.max_coalesce_gap_bytes as int,
            limits.max_region_bytes as int,
            file,
            b,
        );
    }
    assert forall|b: int, s: int|
        #![trigger batches[b].samples[s]]
        0 <= b < batches.len() && 0 <= s < batches[b].samples.len() implies
        crate::mp4::sample_reads::slice_bytes(batches[b].samples[s], data[b]) == file_bytes(
        batches[b].samples[s].sample_index,
        sizes,
        stsc,
        chunk_offsets,
        file,
    ) by {
        crate::mp4::sample_reads::lemma_split_gives_file_bytes(
            wanted,
            sizes,
            stsc,
            chunk_offsets,
            limits.max_sample_bytes as int,
            max_total,
            limits.max_coalesce_gap_bytes as int,
            limits.max_region_bytes as int,
            file,
            b,
        );
    }
    lemma_gathered_faithful(batches, batches.len() as int, sizes, stsc, chunk_offsets, file);
    let samples = gathered(batches, data, batches.len() as int)->Ok_0;
    assert forall|n: u32| #[trigger] wanted.contains(n) implies samples.contains_key(n)
        && samples[n] == file_bytes(n, sizes, stsc, chunk_offsets, file) by {
        let read = crate::mp4::sample_reads::read_of(n, sizes, stsc, chunk_offsets);
        assert(crate::mp4::sample_reads::brought(batches, read));
        let (b, s) = choose|b: int, s: int|
            0 <= b < batches.len() && #[trigger] crate::mp4::sample_reads::slice_is(
                batches[b],
                s,
                read,
            );
        assert(batches[b].samples[s].sample_index == n);
    }
}

/// A reported track has a cue for each of the selected samples that holds a
/// text, in their order and with their times, and no other. A track that fails
/// on the way is not reported at all.
pub proof fn lemma_report_is_whole(
    state: ExtractionView,
    track: crate::mp4::subtitles::index::TrackView,
    spans: Seq<crate::mp4::subtitles::cues::CueSpan>,
    batches: Seq<crate::mp4::sample_reads::BatchView>,
    data: Seq<Seq<u8>>,
)
    ensures
        match supplied(state, track, spans, batches, data) {
            Err(_) => true,
            Ok(after) => {
                ||| after.output == state.output
                ||| {
                    let samples = gathered(batches, data, batches.len() as int)->Ok_0;
                    let codec = track.codecs[track.codec_index];
                    &&& gathered(batches, data, batches.len() as int) is Ok
                    &&& after.output == state.output.push(
                        reported(track, texts_of(spans, spans.len() as int, samples, codec)),
                    )
                    &&& forall|i: int|
                        0 <= i < spans.len() ==> sample_decodes(#[trigger] spans[i], samples, codec)
                }
            },
        },
{
    if let Ok(samples) = gathered(batches, data, batches.len() as int) {
        lemma_cues_are_texts(
            spans,
            spans.len() as int,
            samples,
            track.codecs[track.codec_index],
            state.limits,
            state.taken,
        );
    }
}

/// Whether the bytes of a sample were brought and hold a text or a gap.
pub open spec fn sample_decodes(
    span: crate::mp4::subtitles::cues::CueSpan,
    samples: Map<u32, Seq<u8>>,
    codec: Seq<char>,
) -> bool {
    &&& samples.contains_key(span.sample_index)
    &&& crate::mp4::subtitles::text::decoded(codec, samples[span.sample_index], None) is Ok
}

/// The cues of the first `k` samples that hold a text.
pub open spec fn texts_of(
    spans: Seq<crate::mp4::subtitles::cues::CueSpan>,
    k: int,
    samples: Map<u32, Seq<u8>>,
    codec: Seq<char>,
) -> Seq<crate::types::CueView>
    decreases k,
{
    if k <= 0 {
        seq![]
    } else {
        let before = texts_of(spans, k - 1, samples, codec);
        let span = spans[k - 1];
        match crate::mp4::subtitles::text::decoded(codec, samples[span.sample_index], None) {
            Ok(Some(text)) => before.push(
                crate::types::CueView {
                    cue_id: span.sample_index,
                    start: span.start,
                    end: span.end,
                    text,
                },
            ),
            _ => before,
        }
    }
}

/// One more cue is that of the sample's text, if it holds any.
proof fn lemma_cue_is_text(
    cues: Seq<crate::types::CueView>,
    taken: crate::mp4::subtitles::cues::RequestUse,
    span: crate::mp4::subtitles::cues::CueSpan,
    samples: Map<u32, Seq<u8>>,
    codec: Seq<char>,
    limits: SubtitleRequestLimits,
)
    ensures
        with_cue(cues, taken, span, samples, codec, limits) matches DecodeOutcome::Cues(longer, _)
            ==> sample_decodes(span, samples, codec) && longer
            == match crate::mp4::subtitles::text::decoded(codec, samples[span.sample_index], None) {
            Ok(Some(text)) => cues.push(
                crate::types::CueView {
                    cue_id: span.sample_index,
                    start: span.start,
                    end: span.end,
                    text,
                },
            ),
            _ => cues,
        },
{
    reveal(with_cue);
}

/// Where cues cannot be decoded, one of their samples cannot.
pub(crate) proof fn lemma_undecoded_sample(
    spans: Seq<crate::mp4::subtitles::cues::CueSpan>,
    k: int,
    samples: Map<u32, Seq<u8>>,
    codec: Seq<char>,
    limits: SubtitleRequestLimits,
    taken: crate::mp4::subtitles::cues::RequestUse,
)
    requires
        0 <= k <= spans.len(),
    ensures
        decoded_cues(spans, k, samples, codec, limits, taken) is Track ==> exists|i: int|
            0 <= i < k && !sample_decodes(#[trigger] spans[i], samples, codec),
    decreases k,
{
    if k > 0 {
        lemma_undecoded_sample(spans, k - 1, samples, codec, limits, taken);
        let before = decoded_cues(spans, k - 1, samples, codec, limits, taken);
        if before is Track {
            let i = choose|i: int|
                0 <= i < k - 1 && !sample_decodes(#[trigger] spans[i], samples, codec);
            assert(!sample_decodes(spans[i], samples, codec));
        } else if let DecodeOutcome::Cues(cues, used) = before {
            lemma_undecoded_cue(cues, used, spans[k - 1], samples, codec, limits);
        }
    }
}

proof fn lemma_undecoded_cue(
    cues: Seq<crate::types::CueView>,
    taken: crate::mp4::subtitles::cues::RequestUse,
    span: crate::mp4::subtitles::cues::CueSpan,
    samples: Map<u32, Seq<u8>>,
    codec: Seq<char>,
    limits: SubtitleRequestLimits,
)
    ensures
        with_cue(cues, taken, span, samples, codec, limits) is Track ==> !sample_decodes(
            span,
            samples,
            codec,
        ),
{
    reveal(with_cue);
}

pub(crate) proof fn lemma_cues_are_texts(
    spans: Seq<crate::mp4::subtitles::cues::CueSpan>,
    k: int,
    samples: Map<u32, Seq<u8>>,
    codec: Seq<char>,
    limits: SubtitleRequestLimits,
    taken: crate::mp4::subtitles::cues::RequestUse,
)
    requires
        0 <= k <= spans.len(),
    ensures
        decoded_cues(spans, k, samples, codec, limits, taken) matches DecodeOutcome::Cues(
            cues,
            _,
        ) ==> cues == texts_of(spans, k, samples, codec) && forall|i: int|
            0 <= i < k ==> sample_decodes(#[trigger] spans[i], samples, codec),
    decreases k,
{
    if k > 0 {
        lemma_cues_are_texts(spans, k - 1, samples, codec, limits, taken);
        if let DecodeOutcome::Cues(cues, used) = decoded_cues(
            spans,
            k - 1,
            samples,
            codec,
            limits,
            taken,
        ) {
            lemma_cue_is_text(cues, used, spans[k - 1], samples, codec, limits);
        }
    }
}

/// All tracks are wanted where nothing is asked for; else the track with the number
/// that is asked for, or those of the language that is, in upper or lower case. A
/// track without a language is not asked for by one.
pub proof fn lemma_filters_ask_for_tracks(
    filter: crate::types::FilterView,
    track: crate::mp4::subtitles::index::TrackView,
)
    ensures
        wants(None, track),
        match filter {
            crate::types::FilterView::TrackId(id) => wants(Some(filter), track) <==> id == track.id,
            crate::types::FilterView::Language(language) => match track.language {
                None => !wants(Some(filter), track),
                Some(own) => {
                    &&& own == language ==> wants(Some(filter), track)
                    &&& wants(Some(filter), track) <==> own.len() == language.len() && forall|i: int|
                        0 <= i < own.len() ==> crate::strings::lower_char(#[trigger] own[i])
                            == crate::strings::lower_char(language[i])
                },
            },
        },
{
    if let (crate::types::FilterView::Language(language), Some(own)) = (filter, track.language) {
        let left = crate::strings::lower_text(own);
        let right = crate::strings::lower_text(language);
        if left == right {
            assert(left.len() == own.len() && right.len() == language.len());
            assert forall|i: int| 0 <= i < own.len() implies crate::strings::lower_char(
                #[trigger] own[i],
            ) == crate::strings::lower_char(language[i]) by {
                assert(left[i] == right[i]);
            }
        }
        if own.len() == language.len() && (forall|i: int|
            0 <= i < own.len() ==> crate::strings::lower_char(#[trigger] own[i])
                == crate::strings::lower_char(language[i])) {
            assert(left =~= right);
        }
    }
}

/// Every reported cue is that of a selected sample: it has the number and the
/// times of that, and the text that its bytes hold.
pub proof fn lemma_cues_are_those_of_their_samples(
    spans: Seq<crate::mp4::subtitles::cues::CueSpan>,
    k: int,
    samples: Map<u32, Seq<u8>>,
    codec: Seq<char>,
    i: int,
) -> (j: int)
    requires
        0 <= k <= spans.len(),
        0 <= i < texts_of(spans, k, samples, codec).len(),
    ensures
        i <= j < k,
        ({
            let cue = texts_of(spans, k, samples, codec)[i];
            &&& cue.cue_id == spans[j].sample_index
            &&& cue.start == spans[j].start
            &&& cue.end == spans[j].end
            &&& crate::mp4::subtitles::text::decoded(
                codec,
                samples[spans[j].sample_index],
                None,
            ) == Ok::<Option<Seq<char>>, crate::mp4::subtitles::text::TextFault>(Some(cue.text))
        }),
    decreases k,
{
    if k > 0 && i < texts_of(spans, k - 1, samples, codec).len() {
        lemma_cues_are_those_of_their_samples(spans, k - 1, samples, codec, i)
    } else {
        lemma_no_more_texts_than_samples(spans, k - 1, samples, codec);
        k - 1
    }
}

proof fn lemma_no_more_texts_than_samples(
    spans: Seq<crate::mp4::subtitles::cues::CueSpan>,
    k: int,
    samples: Map<u32, Seq<u8>>,
    codec: Seq<char>,
)
    ensures
        texts_of(spans, k, samples, codec).len() <= if k < 0 {
            0
        } else {
            k
        },
    decreases k,
{
    if k > 0 {
        lemma_no_more_texts_than_samples(spans, k - 1, samples, codec);
    }
}

/// A track is reported with its number, its coding, its language, its clock and
/// its duration, with all its cues, and with the numbers of its samples and cues.
pub proof fn lemma_report_describes_its_track(
    track: crate::mp4::subtitles::index::TrackView,
    cues: Seq<crate::types::CueView>,
)
    ensures
        ({
            let report = reported(track, cues);
            &&& report.base.id == track.id
            &&& report.base.codec == track.codecs[track.codec_index]
            &&& report.base.language == track.language
            &&& report.base.timescale == track.timescale
            &&& report.base.duration == track.duration
            &&& report.cues == cues
            &&& report.base.properties.len() == 3
            &&& crate::strings::decimal_value(report.base.properties[1].1) == track.sizes.2
            &&& crate::strings::decimal_value(report.base.properties[2].1) == cues.len()
        }),
{
    crate::mp4::subtitles::output::lemma_properties_count_samples_and_cues(
        track.handler,
        track.sizes.2 as int,
        cues.len() as int,
    );
}

/// The bytes of a sample are those that the file holds from its place on, as many
/// as its size says.
pub proof fn lemma_sample_bytes_are_those_of_the_file(
    n: u32,
    sizes: crate::mp4::samples::SampleSizes,
    stsc: Seq<crate::mp4::samples::StscEntry>,
    chunk_offsets: Seq<u64>,
    file: Seq<u8>,
    i: int,
)
    requires
        crate::mp4::chunks::ends_in_file(sizes, stsc, chunk_offsets, n as int),
        0 <= crate::mp4::chunks::offset_of_sample(sizes, stsc, chunk_offsets, n as int),
        crate::mp4::chunks::offset_of_sample(sizes, stsc, chunk_offsets, n as int)
            + crate::mp4::samples::size_of_sample(sizes, n as int).unwrap() <= file.len(),
        0 <= i < crate::mp4::samples::size_of_sample(sizes, n as int).unwrap(),
    ensures
        file_bytes(n, sizes, stsc, chunk_offsets, file).len()
            == crate::mp4::samples::size_of_sample(sizes, n as int).unwrap(),
        file_bytes(n, sizes, stsc, chunk_offsets, file)[i]
            == file[crate::mp4::chunks::offset_of_sample(sizes, stsc, chunk_offsets, n as int) + i],
{
}

/// Each track takes 512 bytes of the report and each cue 160 and those of its
/// text, on top of what is taken already; a cue is counted once and its text in
/// full, and one that is beyond a limit takes nothing.
pub proof fn lemma_reports_are_charged_in_full(
    taken: crate::mp4::subtitles::cues::RequestUse,
    limits: SubtitleRequestLimits,
    bytes: int,
    state: ExtractionView,
    track: IndexedTrack,
)
    ensures
        match charged_for_text(taken, limits, bytes) {
            Ok(after) => {
                &&& after.cues == taken.cues + 1
                &&& after.cues <= limits.max_cues
                &&& after.decoded_text_bytes == taken.decoded_text_bytes + bytes
                &&& after.decoded_text_bytes <= limits.max_decoded_text_bytes
                &&& after.output_bytes == taken.output_bytes + 160 + bytes
                &&& after.output_bytes <= limits.max_output_bytes
                &&& after.selected_samples == taken.selected_samples
            },
            Err(_) => {
                ||| taken.cues >= limits.max_cues
                ||| taken.decoded_text_bytes + bytes > limits.max_decoded_text_bytes
                ||| taken.output_bytes + 160 + bytes > limits.max_output_bytes
            },
        },
        state.taken.output_bytes + 512 > state.limits.max_output_bytes ==> planned_ready(
            state,
            track,
        ) is Err,
        planned_ready(state, track) matches Ok((_, after)) ==> {
            &&& after.taken.output_bytes == state.taken.output_bytes + 512
            &&& after.taken.output_bytes <= state.limits.max_output_bytes
            &&& after.taken.cues == state.taken.cues
            &&& after.taken.decoded_text_bytes == state.taken.decoded_text_bytes
        },
        planned_ready(state, track) matches Ok((TrackAction::Read(cues, _), after)) ==> {
            &&& after.taken.selected_samples == state.taken.selected_samples + cues.len()
            &&& after.taken.selected_samples <= state.limits.max_samples
            &&& crate::mp4::subtitles::cues::track_cues(track@, state.range) == Ok::<
                _,
                Seq<char>,
            >(cues)
        },
{
}

/// A filter names a track just where it is one by its number, and this is the
/// track's.
pub proof fn lemma_filters_name_tracks_by_number(filter: Option<crate::types::FilterView>, id: u32)
    ensures
        names_track(filter, id) <==> (filter matches Some(crate::types::FilterView::TrackId(named))
            && named == id),
{
}

} // verus!
