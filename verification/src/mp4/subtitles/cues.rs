//! Choosing the cues of a subtitle track.

use vstd::prelude::*;

use crate::errors::{other_error, subtitle_error, MediaParserError};
use crate::memory::try_reserve_exact;
use crate::mp4::bounded_tables::SampleTiming;
use crate::mp4::subtitles::budget::{checked_charge, RequestBudget, RequestLimits};
use crate::mp4::subtitles::index::IndexedTrack;
use crate::mp4::timing::ticks_to_duration;
use crate::time::Duration;

verus! {

/// The bytes in front of the reported tracks: a length of four bytes and the
/// empty header `{"version":1,"entries":[]}`.
pub const SUBTITLE_ENVELOPE_PROJECTED_BASE_BYTES: usize = 30;

/// The most bytes that the reported tracks may take up.
pub const MAX_SUBTITLE_OUTPUT_BYTES: usize = 67_108_864;

/// The bytes that a reported track is taken to need, apart from its cues.
pub const SUBTITLE_TRACK_PROJECTION_BYTES: usize = 512;

/// The bytes that a reported cue is taken to need, apart from its text.
pub const SUBTITLE_CUE_PROJECTION_BYTES: usize = 160;

/// The most samples that one request may select.
pub const MAX_SELECTED_SUBTITLE_SAMPLES: usize = 200_000;

/// The most cues that one request may bring back.
pub const MAX_SUBTITLE_CUES: usize = 200_000;

/// The most bytes of text that one request may decode.
pub const MAX_DECODED_TEXT_BYTES: usize = 33_554_432;

/// How much one request may bring back, and how large the report may be.
#[derive(Debug, Clone, Copy)]
pub struct SubtitleRequestLimits {
    pub max_samples: usize,
    pub max_cues: usize,
    pub max_decoded_text_bytes: usize,
    pub max_output_bytes: usize,
}

/// What one request has taken of its limits, the size of its report included.
#[derive(Debug)]
pub struct SubtitleRequestBudget {
    pub request: RequestBudget,
    pub max_output_bytes: usize,
    pub output_bytes: usize,
}

/// What one request has taken, as plain numbers.
pub struct RequestUse {
    pub selected_samples: int,
    pub cues: int,
    pub decoded_text_bytes: int,
    pub output_bytes: int,
}

/// The words for a report that is too large.
pub open spec fn output_exceeded() -> Seq<char> {
    "MP4 subtitle output budget exceeded"@
}

impl SubtitleRequestLimits {
    /// The limits of an ordinary request.
    pub fn standard() -> (result: Self)
        ensures
            result.max_samples == MAX_SELECTED_SUBTITLE_SAMPLES,
            result.max_cues == MAX_SUBTITLE_CUES,
            result.max_decoded_text_bytes == MAX_DECODED_TEXT_BYTES,
            result.max_output_bytes == MAX_SUBTITLE_OUTPUT_BYTES,
            result.max_samples == 200_000,
            result.max_cues == 200_000,
            result.max_decoded_text_bytes == 32 * 1024 * 1024,
            result.max_output_bytes == 64 * 1024 * 1024,
            result.max_decoded_text_bytes <= result.max_output_bytes,
            result.max_cues <= result.max_samples,
    {
        SubtitleRequestLimits {
            max_samples: MAX_SELECTED_SUBTITLE_SAMPLES,
            max_cues: MAX_SUBTITLE_CUES,
            max_decoded_text_bytes: MAX_DECODED_TEXT_BYTES,
            max_output_bytes: MAX_SUBTITLE_OUTPUT_BYTES,
        }
    }
}

impl SubtitleRequestBudget {
    pub open spec fn in_limits(self) -> bool {
        self.request.in_limits() && self.output_bytes <= self.max_output_bytes
    }

    pub open spec fn limits(self) -> SubtitleRequestLimits {
        SubtitleRequestLimits {
            max_samples: self.request.limits.max_samples,
            max_cues: self.request.limits.max_cues,
            max_decoded_text_bytes: self.request.limits.max_decoded_text_bytes,
            max_output_bytes: self.max_output_bytes,
        }
    }

    pub open spec fn taken(self) -> RequestUse {
        RequestUse {
            selected_samples: self.request.selected_samples as int,
            cues: self.request.cues as int,
            decoded_text_bytes: self.request.decoded_text_bytes as int,
            output_bytes: self.output_bytes as int,
        }
    }

    /// The budget of a request whose report is empty so far, unless not even
    /// that fits.
    pub fn new(limits: SubtitleRequestLimits) -> (result: Result<Self, MediaParserError>)
        ensures
            match result {
                Ok(budget) => {
                    &&& budget.limits() == limits
                    &&& budget.taken() == (RequestUse {
                        selected_samples: 0,
                        cues: 0,
                        decoded_text_bytes: 0,
                        output_bytes: SUBTITLE_ENVELOPE_PROJECTED_BASE_BYTES as int,
                    })
                    &&& budget.taken().output_bytes == 30
                    &&& budget.in_limits()
                },
                Err(error) => limits.max_output_bytes < SUBTITLE_ENVELOPE_PROJECTED_BASE_BYTES
                    && error@ == crate::errors::ErrorView::Other(output_exceeded()),
            },
    {
        let request = RequestBudget::new(
            RequestLimits {
                max_samples: limits.max_samples,
                max_cues: limits.max_cues,
                max_decoded_text_bytes: limits.max_decoded_text_bytes,
            },
        );
        let mut budget = SubtitleRequestBudget {
            request,
            max_output_bytes: limits.max_output_bytes,
            output_bytes: 0,
        };
        match budget.charge_projection(SUBTITLE_ENVELOPE_PROJECTED_BASE_BYTES) {
            Ok(_) => Ok(budget),
            Err(error) => Err(error),
        }
    }

    /// Takes `bytes` of the report, or nothing where that is too much.
    pub fn charge_projection(&mut self, bytes: usize) -> (result: Result<(), MediaParserError>)
        ensures
            final(self).request == old(self).request,
            final(self).max_output_bytes == old(self).max_output_bytes,
            final(self).output_bytes == if result is Ok {
                old(self).output_bytes + bytes
            } else {
                old(self).output_bytes as int
            },
            result is Ok <==> old(self).output_bytes + bytes <= old(self).max_output_bytes,
            result matches Err(error) ==> error@ == crate::errors::ErrorView::Other(
                output_exceeded(),
            ),
            old(self).in_limits() ==> final(self).in_limits(),
    {
        let total: usize = checked_charge(
            self.output_bytes,
            bytes,
            self.max_output_bytes,
            "MP4 subtitle output budget exceeded",
        )?;
        self.output_bytes = total;
        Ok(())
    }
}

// ---------------------------------------------------------------------------
// Which cues
// ---------------------------------------------------------------------------

/// A sample that is on display in the wanted range.
#[derive(Debug, Clone, Copy)]
pub struct SelectedCue {
    pub sample_index: u32,
    pub start_time: Duration,
    pub end_time: Duration,
}

/// A selected sample with its times in nanoseconds.
pub struct CueSpan {
    pub sample_index: u32,
    pub start: int,
    pub end: int,
}

/// Why cues are not selected.
#[derive(Debug)]
pub enum SelectCuesError {
    /// The track cannot be read; others can.
    Track(MediaParserError),
    /// The request as a whole cannot go on.
    Fatal(MediaParserError),
}

impl View for SelectedCue {
    type V = CueSpan;

    open spec fn view(&self) -> CueSpan {
        CueSpan {
            sample_index: self.sample_index,
            start: self.start_time@,
            end: self.end_time@,
        }
    }
}

pub open spec fn cue_spans(cues: Seq<SelectedCue>) -> Seq<CueSpan> {
    Seq::new(cues.len(), |i: int| cues[i]@)
}

pub open spec fn range_view(range: Option<(Duration, Duration)>) -> Option<(int, int)> {
    match range {
        Some((start, end)) => Some((start@, end@)),
        None => None,
    }
}

/// The time of a media tick in nanoseconds, rounded down.
pub open spec fn time_of(tick: int, timescale: u32) -> int {
    if timescale == 0 {
        0
    } else {
        crate::mp4::timing::at_most(tick * 1_000_000_000 / timescale as int, u64::MAX as int)
    }
}

/// Whether something on display from `start` up to `end` is so at some time of
/// a range, which its start belongs to and its end does not.
pub open spec fn overlaps(range: Option<(int, int)>, start: int, end: int) -> bool {
    range matches Some((from, to)) ==> end > from && start < to
}

pub open spec fn not_below_zero(value: int) -> int {
    if value < 0 {
        0
    } else {
        value
    }
}

/// The cue of a sample: none where it is on display for no time after the
/// track's start, or not in the range; an error where its time is too late.
pub open spec fn cue_of(
    timing: SampleTiming,
    offset: int,
    timescale: u32,
    range: Option<(int, int)>,
) -> Result<Option<CueSpan>, Seq<char>> {
    let raw_start = timing.start_tick - offset;
    let raw_end = raw_start + timing.duration_ticks;
    let start = time_of(not_below_zero(raw_start), timescale);
    let end = time_of(raw_end, timescale);
    if raw_end <= 0 {
        Ok(None)
    } else if raw_start > u64::MAX || raw_end > u64::MAX {
        Err("subtitle timing is too large"@)
    } else if start >= end || !overlaps(range, start, end) {
        Ok(None)
    } else {
        Ok(Some(CueSpan { sample_index: timing.sample_index, start, end }))
    }
}

/// Whether a cue is on display from `start_tick`, but not before the start of the
/// track, for `duration_ticks`, where `timescale` ticks make a second: each of its
/// times is the whole nanoseconds up to its tick, as far as 64 bits count them.
pub open spec fn is_cue_at(
    cue: CueSpan,
    start_tick: int,
    duration_ticks: int,
    timescale: u32,
) -> bool {
    let shown_tick = if start_tick < 0 {
        0
    } else {
        start_tick
    };
    let end_tick = start_tick + duration_ticks;
    &&& 0 <= cue.start < cue.end <= 0xffff_ffff_ffff_ffff
    &&& cue.start * timescale <= shown_tick * 1_000_000_000
    &&& shown_tick * 1_000_000_000 < (cue.start + 1) * timescale
    &&& cue.end * timescale <= end_tick * 1_000_000_000
    &&& cue.end < 0xffff_ffff_ffff_ffff ==> end_tick * 1_000_000_000 < (cue.end + 1) * timescale
}

/// A cue begins and ends at the times of its ticks, counted from the start of the
/// track. It is left out just where it has no time on display after that start or
/// none in the range.
pub proof fn lemma_cue_times_follow_the_ticks(
    timing: SampleTiming,
    offset: int,
    timescale: u32,
    range: Option<(int, int)>,
)
    ensures
        ({
            let start_tick = timing.start_tick - offset;
            let end_tick = start_tick + timing.duration_ticks;
            let shown_tick = if start_tick < 0 {
                0
            } else {
                start_tick
            };
            match cue_of(timing, offset, timescale, range) {
                Ok(Some(cue)) => {
                    &&& timescale > 0
                    &&& cue.sample_index == timing.sample_index
                    &&& is_cue_at(
                        cue,
                        start_tick,
                        timing.duration_ticks as int,
                        timescale,
                    )
                    &&& cue.start * timescale <= shown_tick * 1_000_000_000
                    &&& shown_tick * 1_000_000_000 < (cue.start + 1) * timescale
                    &&& cue.end * timescale <= end_tick * 1_000_000_000
                    &&& cue.end < 0xffff_ffff_ffff_ffff ==> end_tick * 1_000_000_000 < (cue.end
                        + 1) * timescale
                    &&& range matches Some((from, to)) ==> cue.start < to && from < cue.end
                },
                Ok(None) => {
                    ||| end_tick <= 0
                    ||| timescale == 0
                    ||| forall|cue: CueSpan| !#[trigger]
                        is_cue_at(cue, start_tick, timing.duration_ticks as int, timescale)
                    ||| range matches Some((from, to)) && forall|cue: CueSpan| #[trigger]
                        is_cue_at(cue, start_tick, timing.duration_ticks as int, timescale)
                            ==> cue.end <= from || to <= cue.start
                },
                Err(_) => end_tick > u64::MAX || start_tick > u64::MAX,
            }
        }),
{
    let start_tick = timing.start_tick - offset;
    let end_tick = start_tick + timing.duration_ticks;
    let shown_tick = not_below_zero(start_tick);
    if end_tick > 0 && timescale > 0 {
        crate::mp4::timing::lemma_time_of_tick(shown_tick, timescale);
        crate::mp4::timing::lemma_time_of_tick(end_tick, timescale);
        let start = time_of(shown_tick, timescale);
        let end = time_of(end_tick, timescale);
        assert forall|cue: CueSpan| #[trigger]
            is_cue_at(cue, start_tick, timing.duration_ticks as int, timescale) implies cue.start
            == start && cue.end == end by {
            crate::mp4::timing::lemma_times_and_ticks_are_unique(
                start,
                cue.start,
                shown_tick,
                0,
                timescale,
            );
            crate::mp4::timing::lemma_times_and_ticks_are_unique(
                end,
                cue.end,
                end_tick,
                0,
                timescale,
            );
        }
    }
}

/// The times of a cue do not depend on the clock that its track counts in: with
/// `factor` times as many ticks in a second, `factor` times as many ticks are the
/// same times. A track that is shown from a later tick on is shown earlier by it.
pub proof fn lemma_cue_times_do_not_depend_on_the_clock(
    timing: SampleTiming,
    scaled: SampleTiming,
    offset: int,
    timescale: u32,
    scaled_timescale: u32,
    factor: int,
    range: Option<(int, int)>,
)
    requires
        timescale > 0,
        factor > 0,
        scaled_timescale == timescale * factor,
        scaled.start_tick == timing.start_tick * factor,
        scaled.duration_ticks == timing.duration_ticks * factor,
        scaled.sample_index == timing.sample_index,
        (timing.start_tick - offset + timing.duration_ticks) * factor <= u64::MAX,
    ensures
        cue_of(scaled, offset * factor, scaled_timescale, range) == cue_of(
            timing,
            offset,
            timescale,
            range,
        ),
{
    let start_tick = timing.start_tick - offset;
    let end_tick = start_tick + timing.duration_ticks;
    assert((timing.start_tick - offset) * factor == timing.start_tick * factor - offset * factor)
        by (nonlinear_arith);
    assert((start_tick + timing.duration_ticks) * factor == start_tick * factor
        + timing.duration_ticks * factor) by (nonlinear_arith);
    assert(end_tick <= 0 ==> end_tick * factor <= 0) by (nonlinear_arith)
        requires
            factor > 0,
    ;
    assert(end_tick > 0 ==> end_tick * factor >= end_tick) by (nonlinear_arith)
        requires
            factor > 0,
    ;
    assert(start_tick < 0 ==> start_tick * factor < 0) by (nonlinear_arith)
        requires
            factor > 0,
    ;
    assert(start_tick >= 0 ==> start_tick * factor >= start_tick) by (nonlinear_arith)
        requires
            factor > 0,
    ;
    assert(timescale * factor > 0) by (nonlinear_arith)
        requires
            timescale > 0,
            factor > 0,
    ;
    if end_tick > 0 {
        let shown_tick = not_below_zero(start_tick);
        assert(0 * factor == 0);
        lemma_time_of_scaled_tick(shown_tick, timescale, scaled_timescale, factor);
        lemma_time_of_scaled_tick(end_tick, timescale, scaled_timescale, factor);
    }
}

proof fn lemma_time_of_scaled_tick(
    tick: int,
    timescale: u32,
    scaled_timescale: u32,
    factor: int,
)
    requires
        tick >= 0,
        timescale > 0,
        factor > 0,
        scaled_timescale == timescale * factor,
        scaled_timescale > 0,
    ensures
        time_of(tick * factor, scaled_timescale) == time_of(tick, timescale),
{
    assert(tick * factor >= 0) by (nonlinear_arith)
        requires
            tick >= 0,
            factor > 0,
    ;
    crate::mp4::timing::lemma_time_of_tick(tick, timescale);
    crate::mp4::timing::lemma_time_of_tick(tick * factor, scaled_timescale);
    crate::mp4::timing::lemma_time_does_not_depend_on_the_clock(
        time_of(tick, timescale),
        time_of(tick * factor, scaled_timescale),
        tick,
        timescale,
        scaled_timescale,
        factor,
    );
}

/// The cues of the first `k` samples, or the first error.
pub open spec fn cues_of(
    runs: Seq<(u32, int)>,
    k: int,
    offset: int,
    timescale: u32,
    range: Option<(int, int)>,
) -> Result<Seq<CueSpan>, Seq<char>>
    decreases k,
{
    if k <= 0 {
        Ok(seq![])
    } else {
        match cues_of(runs, k - 1, offset, timescale, range) {
            Err(text) => Err(text),
            Ok(cues) => match cue_of(
                crate::mp4::bounded_tables::timing_of(runs, k - 1),
                offset,
                timescale,
                range,
            ) {
                Err(text) => Err(text),
                Ok(None) => Ok(cues),
                Ok(Some(cue)) => Ok(cues.push(cue)),
            },
        }
    }
}

/// The cues of a track.
pub open spec fn track_cues(
    track: crate::mp4::subtitles::index::TrackView,
    range: Option<(int, int)>,
) -> Result<Seq<CueSpan>, Seq<char>> {
    cues_of(
        track.runs,
        crate::mp4::timing::expanded(track.runs).len() as int,
        track.presentation_offset,
        track.timescale,
        range,
    )
}

/// The words for a selection that the allocator has no room for.
pub open spec fn reports_no_room(error: MediaParserError) -> bool {
    error@ == crate::errors::ErrorView::Other("MP4 subtitle sample selection allocation failed"@)
}

/// The cue of a sample, if it is on display in the range.
fn cue_timing(track: &IndexedTrack, timing: SampleTiming, range: Option<(Duration, Duration)>) -> (
    result: Result<Option<SelectedCue>, MediaParserError>)
    ensures
        ({
            let expected = cue_of(
                timing,
                track@.presentation_offset,
                track.timescale,
                range_view(range),
            );
            match result {
                Ok(Some(cue)) => expected == Ok::<Option<CueSpan>, Seq<char>>(Some(cue@)),
                Ok(None) => expected == Ok::<Option<CueSpan>, Seq<char>>(None),
                Err(error) => expected matches Err(text) && error@
                    == crate::errors::ErrorView::SubtitleError(text),
            }
        }),
        result matches Ok(Some(cue)) ==> is_cue_at(
            cue@,
            timing.start_tick - track@.presentation_offset,
            timing.duration_ticks as int,
            track.timescale,
        ),
{
    proof {
        lemma_cue_times_follow_the_ticks(
            timing,
            track@.presentation_offset,
            track.timescale,
            range_view(range),
        );
    }
    let raw_start: i128 = timing.start_tick as i128 - track.presentation_offset as i128;
    let raw_end: i128 = raw_start + timing.duration_ticks as i128;
    if raw_end <= 0 {
        return Ok(None);
    }
    let max_tick: i128 = u64::MAX as i128;
    if raw_start > max_tick || raw_end > max_tick {
        return Err(subtitle_error("subtitle timing is too large"));
    }
    let start_tick: u64 = if raw_start < 0 { 0 } else { raw_start as u64 };
    let end_tick: u64 = raw_end as u64;
    let start_time = ticks_to_duration(start_tick, track.timescale);
    let end_time = ticks_to_duration(end_tick, track.timescale);
    if !start_time.is_shorter_than(&end_time) {
        return Ok(None);
    }
    if let Some((start, end)) = range {
        if !start.is_shorter_than(&end_time) || !start_time.is_shorter_than(&end) {
            return Ok(None);
        }
    }
    Ok(Some(SelectedCue { sample_index: timing.sample_index, start_time, end_time }))
}

/// Empty room for `capacity` selected cues. Cues that would take up more than
/// `isize::MAX` bytes are refused; whether fewer get their room is up to the
/// allocator.
pub fn allocate_selected_cues(capacity: usize) -> (result: Result<
    Vec<SelectedCue>,
    SelectCuesError,
>)
    ensures
        match result {
            Ok(room) => room@.len() == 0 && capacity * vstd::layout::size_of::<SelectedCue>()
                <= isize::MAX,
            Err(SelectCuesError::Fatal(error)) => capacity > 0 && reports_no_room(error),
            Err(SelectCuesError::Track(_)) => false,
        },
{
    let mut selected: Vec<SelectedCue> = Vec::new();
    if !try_reserve_exact(&mut selected, capacity) {
        return Err(
            SelectCuesError::Fatal(other_error("MP4 subtitle sample selection allocation failed")),
        );
    }
    Ok(selected)
}

/// Counts the cues of a track in a range.
fn count_cues(track: &IndexedTrack, range: Option<(Duration, Duration)>) -> (result: Result<
    usize,
    MediaParserError,
>)
    ensures
        match result {
            Ok(count) => track_cues(track@, range_view(range)) matches Ok(cues) && cues.len()
                == count,
            Err(error) => track_cues(track@, range_view(range)) matches Err(text) && error@
                == crate::errors::ErrorView::SubtitleError(text),
        },
{
    let ghost runs = track.timing@;
    let ghost total = crate::mp4::timing::expanded(runs).len() as int;
    let mut cursor = track.timing.start();
    let mut count: usize = 0;
    let ghost mut k: int = 0;
    let samples: u32 = track.timing.sample_count();
    loop
        invariant
            0 <= k <= total,
            total == samples,
            runs == track.timing@,
            total == crate::mp4::timing::expanded(runs).len(),
            cursor.at(track.timing@, k),
            count <= k,
            ({
                let cues = cues_of(
                    runs,
                    k,
                    track@.presentation_offset,
                    track.timescale,
                    range_view(range),
                );
                cues is Ok && cues->Ok_0.len() == count
            }),
        ensures
            k == total,
        decreases total - k,
    {
        match track.timing.next(&mut cursor) {
            Some(timing) => {
                match cue_timing(track, timing, range) {
                    Ok(Some(_)) => {
                        count += 1;
                    },
                    Ok(None) => {},
                    Err(error) => {
                        proof {
                            lemma_cues_error_stays(
                                runs,
                                k + 1,
                                total,
                                track@.presentation_offset,
                                track.timescale,
                                range_view(range),
                            );
                        }
                        return Err(error);
                    },
                }
                proof {
                    k = k + 1;
                }
            },
            None => {
                break;
            },
        }
    }
    Ok(count)
}

proof fn lemma_cues_error_stays(
    runs: Seq<(u32, int)>,
    i: int,
    j: int,
    offset: int,
    timescale: u32,
    range: Option<(int, int)>,
)
    requires
        0 <= i <= j,
        cues_of(runs, i, offset, timescale, range) is Err,
    ensures
        cues_of(runs, j, offset, timescale, range) == cues_of(runs, i, offset, timescale, range),
    decreases j - i,
{
    if i < j {
        lemma_cues_error_stays(runs, i, j - 1, offset, timescale, range);
    }
}

/// Selects the cues of a track in a range and charges them to the request.
pub fn select_cues(
    track: &IndexedTrack,
    range: Option<(Duration, Duration)>,
    request: &mut SubtitleRequestBudget,
) -> (result: Result<Vec<SelectedCue>, SelectCuesError>)
    ensures
        final(request).limits() == old(request).limits(),
        old(request).in_limits() ==> final(request).in_limits(),
        ({
            let expected = track_cues(track@, range_view(range));
            let taken = old(request).taken();
            match result {
                Ok(cues) => {
                    &&& expected == Ok::<Seq<CueSpan>, Seq<char>>(cue_spans(cues@))
                    &&& final(request).taken() == (RequestUse {
                        selected_samples: taken.selected_samples + cues@.len(),
                        ..taken
                    })
                    &&& taken.selected_samples + cues@.len() <= old(request).limits().max_samples
                },
                Err(SelectCuesError::Track(error)) => {
                    &&& expected matches Err(text) && error@
                        == crate::errors::ErrorView::SubtitleError(text)
                    &&& *final(request) == *old(request)
                },
                Err(SelectCuesError::Fatal(error)) => {
                    ||| expected matches Ok(cues) && cues.len() > 0 && taken.selected_samples
                        + cues.len() <= old(request).limits().max_samples && reports_no_room(error)
                    ||| expected matches Ok(cues) && taken.selected_samples + cues.len() > old(
                        request,
                    ).limits().max_samples && error@ == crate::errors::ErrorView::Other(
                        "too many selected subtitle samples"@,
                    )
                },
            }
        }),
{
    let count: usize = match count_cues(track, range) {
        Ok(count) => count,
        Err(error) => {
            return Err(SelectCuesError::Track(error));
        },
    };
    match request.request.charge_selected_samples(count) {
        Ok(_) => {},
        Err(error) => {
            return Err(SelectCuesError::Fatal(error));
        },
    }
    let mut selected = match allocate_selected_cues(count) {
        Ok(selected) => selected,
        Err(error) => {
            return Err(error);
        },
    };
    let ghost runs = track.timing@;
    let ghost total = crate::mp4::timing::expanded(runs).len() as int;
    let mut cursor = track.timing.start();
    let ghost mut k: int = 0;
    assert(cue_spans(selected@) =~= Seq::empty());
    loop
        invariant
            0 <= k <= total,
            runs == track.timing@,
            total == crate::mp4::timing::expanded(runs).len(),
            cursor.at(track.timing@, k),
            track_cues(track@, range_view(range)) is Ok,
            cues_of(
                runs,
                k,
                track@.presentation_offset,
                track.timescale,
                range_view(range),
            ) == Ok::<Seq<CueSpan>, Seq<char>>(cue_spans(selected@)),
        ensures
            k == total,
        decreases total - k,
    {
        match track.timing.next(&mut cursor) {
            Some(timing) => {
                let ghost before = cue_spans(selected@);
                match cue_timing(track, timing, range) {
                    Ok(Some(cue)) => {
                        selected.push(cue);
                        assert(cue_spans(selected@) =~= before.push(cue@));
                    },
                    Ok(None) => {},
                    Err(error) => {
                        proof {
                            lemma_cues_error_stays(
                                runs,
                                k + 1,
                                total,
                                track@.presentation_offset,
                                track.timescale,
                                range_view(range),
                            );
                        }
                        return Err(SelectCuesError::Track(error));
                    },
                }
                proof {
                    k = k + 1;
                }
            },
            None => {
                break;
            },
        }
    }
    Ok(selected)
}

// ---------------------------------------------------------------------------
// What a selection promises
// ---------------------------------------------------------------------------

/// The cues of a whole track that are on display at some time of a range.
pub open spec fn in_range(cues: Seq<CueSpan>, range: (int, int)) -> Seq<CueSpan> {
    cues.filter(|cue: CueSpan| overlaps(Some(range), cue.start, cue.end))
}

pub(crate) proof fn lemma_in_range_push(cues: Seq<CueSpan>, cue: CueSpan, range: (int, int))
    ensures
        in_range(cues.push(cue), range) == if overlaps(Some(range), cue.start, cue.end) {
            in_range(cues, range).push(cue)
        } else {
            in_range(cues, range)
        },
{
    reveal(Seq::filter);
    assert(cues.push(cue).drop_last() =~= cues);
}

proof fn lemma_ranged_cues(
    runs: Seq<(u32, int)>,
    k: int,
    offset: int,
    timescale: u32,
    range: (int, int),
)
    ensures
        match cues_of(runs, k, offset, timescale, None) {
            Ok(cues) => cues_of(runs, k, offset, timescale, Some(range)) == Ok::<
                Seq<CueSpan>,
                Seq<char>,
            >(in_range(cues, range)),
            Err(text) => cues_of(runs, k, offset, timescale, Some(range)) == Err::<
                Seq<CueSpan>,
                Seq<char>,
            >(text),
        },
    decreases k,
{
    if k <= 0 {
        reveal(Seq::filter);
        assert(in_range(seq![], range) =~= seq![]);
    } else {
        lemma_ranged_cues(runs, k - 1, offset, timescale, range);
        let timing = crate::mp4::bounded_tables::timing_of(runs, k - 1);
        if let Ok(cues) = cues_of(runs, k - 1, offset, timescale, None) {
            if let Ok(Some(cue)) = cue_of(timing, offset, timescale, None) {
                lemma_in_range_push(cues, cue, range);
            }
        }
    }
}

/// A request for a range brings back just those cues of the whole track that
/// are on display at some time of it, in the same order and with the same
/// numbers and times: they are neither clipped nor counted anew. The start of
/// the range belongs to it, its end does not.
pub proof fn lemma_range_selects_overlapping_cues(
    track: crate::mp4::subtitles::index::TrackView,
    range: (int, int),
)
    ensures
        match track_cues(track, None) {
            Ok(cues) => track_cues(track, Some(range)) == Ok::<Seq<CueSpan>, Seq<char>>(
                in_range(cues, range),
            ),
            Err(text) => track_cues(track, Some(range)) == Err::<Seq<CueSpan>, Seq<char>>(text),
        },
{
    lemma_ranged_cues(
        track.runs,
        crate::mp4::timing::expanded(track.runs).len() as int,
        track.presentation_offset,
        track.timescale,
        range,
    );
}

/// Every cue of a track is that of the sample it is numbered by, which begins
/// where the samples before it end and lasts as long as the track says.
pub proof fn lemma_cues_have_the_times_of_their_samples(
    track: crate::mp4::subtitles::index::TrackView,
    range: Option<(int, int)>,
    i: int,
)
    requires
        crate::mp4::bounded_tables::runs_countable(track.runs),
        track_cues(track, range) is Ok,
        0 <= i < track_cues(track, range)->Ok_0.len(),
    ensures
        ({
            let cue = track_cues(track, range)->Ok_0[i];
            let lengths = crate::mp4::timing::expanded(track.runs);
            let before = cue.sample_index - 1;
            &&& 0 <= before < lengths.len()
            &&& is_cue_at(
                cue,
                crate::mp4::timing::sum_of_first(lengths, before) - track.presentation_offset,
                lengths[before],
                track.timescale,
            )
        }),
{
    crate::mp4::timing::lemma_expanded_len(track.runs);
    lemma_cues_follow_their_samples(
        track.runs,
        crate::mp4::timing::expanded(track.runs).len() as int,
        track.presentation_offset,
        track.timescale,
        range,
        i,
    );
}

proof fn lemma_cues_follow_their_samples(
    runs: Seq<(u32, int)>,
    k: int,
    offset: int,
    timescale: u32,
    range: Option<(int, int)>,
    i: int,
)
    requires
        crate::mp4::bounded_tables::runs_countable(runs),
        0 <= k <= crate::mp4::timing::expanded(runs).len() <= u32::MAX,
        cues_of(runs, k, offset, timescale, range) is Ok,
        0 <= i < cues_of(runs, k, offset, timescale, range)->Ok_0.len(),
    ensures
        ({
            let cue = cues_of(runs, k, offset, timescale, range)->Ok_0[i];
            let lengths = crate::mp4::timing::expanded(runs);
            let before = cue.sample_index - 1;
            &&& 0 <= before < k
            &&& is_cue_at(
                cue,
                crate::mp4::timing::sum_of_first(lengths, before) - offset,
                lengths[before],
                timescale,
            )
        }),
    decreases k,
{
    let shorter = cues_of(runs, k - 1, offset, timescale, range);
    if k > 0 && i < shorter->Ok_0.len() {
        lemma_cues_follow_their_samples(runs, k - 1, offset, timescale, range, i);
    } else {
        crate::mp4::bounded_tables::lemma_timing_is_exact(runs, k - 1);
        lemma_cue_times_follow_the_ticks(
            crate::mp4::bounded_tables::timing_of(runs, k - 1),
            offset,
            timescale,
            range,
        );
    }
}

/// Whether cues are numbered upwards from one to `last`, and each is on display
/// for some time, at some time of the range.
pub open spec fn cues_sound(cues: Seq<CueSpan>, range: Option<(int, int)>, last: int) -> bool {
    &&& forall|i: int|
        0 <= i < cues.len() ==> 1 <= (#[trigger] cues[i]).sample_index <= last && cues[i].start
            < cues[i].end && overlaps(range, cues[i].start, cues[i].end)
    &&& forall|i: int, j: int|
        0 <= i < j < cues.len() ==> (#[trigger] cues[i]).sample_index < (
        #[trigger] cues[j]).sample_index
}

proof fn lemma_cues_sound_up_to(
    runs: Seq<(u32, int)>,
    k: int,
    offset: int,
    timescale: u32,
    range: Option<(int, int)>,
)
    requires
        0 <= k <= u32::MAX,
    ensures
        cues_of(runs, k, offset, timescale, range) matches Ok(cues) ==> cues_sound(cues, range, k),
    decreases k,
{
    if k > 0 {
        lemma_cues_sound_up_to(runs, k - 1, offset, timescale, range);
    }
}

/// The cues of a track are numbered by their samples, in the order of the
/// file; each is on display for some time, and at some time of the range.
pub proof fn lemma_cues_are_sound(
    track: crate::mp4::subtitles::index::TrackView,
    range: Option<(int, int)>,
)
    requires
        crate::mp4::bounded_tables::runs_countable(track.runs),
    ensures
        track_cues(track, range) matches Ok(cues) ==> cues_sound(
            cues,
            range,
            crate::mp4::timing::expanded(track.runs).len() as int,
        ),
{
    crate::mp4::timing::lemma_expanded_len(track.runs);
    lemma_cues_sound_up_to(
        track.runs,
        crate::mp4::timing::expanded(track.runs).len() as int,
        track.presentation_offset,
        track.timescale,
        range,
    );
}

/// Whether a time belongs to a span, which its start does and its end does not.
pub open spec fn is_during(time: int, start: int, end: int) -> bool {
    start <= time < end
}

/// A cue is selected for a range just where there is a time of the range at which
/// it is on display.
pub proof fn lemma_overlap_is_a_time_in_common(from: int, to: int, start: int, end: int)
    requires
        from < to,
        start < end,
    ensures
        overlaps(Some((from, to)), start, end) <==> exists|time: int| #[trigger]
            is_during(time, from, to) && is_during(time, start, end),
        overlaps(None, start, end),
{
    if overlaps(Some((from, to)), start, end) {
        let time = if from < start {
            start
        } else {
            from
        };
        assert(is_during(time, from, to) && is_during(time, start, end));
    }
}

} // verus!
