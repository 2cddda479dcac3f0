//! Which tracks and which cues a request for subtitle tracks selects.
//!
//! A track is reported or left out by what the file holds for it alone, whatever
//! else is requested: the limits of a request end it, but select nothing.

use vstd::prelude::*;

use crate::mp4::sample_io::SampleReadLimits;
use crate::mp4::subtitles::extract::{DecodeOutcome, ExtractionView, TrackAction};
use crate::mp4::subtitles::index::{IndexedTrack, IndexedTrackState};

verus! {

// ---------------------------------------------------------------------------
// What one track has to report
// ---------------------------------------------------------------------------

/// The report of a track in a range, unless its cues cannot be selected, one of
/// their samples cannot be read, or one of them cannot be decoded.
#[verifier::opaque]
pub open spec fn report_in_range(
    track: IndexedTrack,
    range: Option<(int, int)>,
    limits: SampleReadLimits,
    file: Seq<u8>,
) -> Option<crate::types::SubtitleTrackView> {
    let codec = track@.codecs[track@.codec_index];
    match crate::mp4::subtitles::cues::track_cues(track@, range) {
        Err(_) => None,
        Ok(cues) => match crate::mp4::sample_reads::read_plan(
            crate::mp4::subtitles::extract::samples_of(cues),
            track.sizes,
            track.stsc@,
            track.chunk_offsets@,
            limits.max_sample_bytes as int,
            limits.max_logical_bytes as int,
            limits.max_coalesce_gap_bytes as int,
            limits.max_region_bytes as int,
        ) {
            Err(_) => None,
            Ok(batches) => match crate::mp4::subtitles::extract::gathered(
                batches,
                crate::mp4::subtitles::requests::batches_at(file, batches),
                batches.len() as int,
            ) {
                Err(_) => None,
                Ok(samples) => if forall|i: int|
                    0 <= i < cues.len() ==> crate::mp4::subtitles::extract::sample_decodes(
                        #[trigger] cues[i],
                        samples,
                        codec,
                    ) {
                    Some(
                        crate::mp4::subtitles::extract::reported(
                            track@,
                            crate::mp4::subtitles::extract::texts_of(
                                cues,
                                cues.len() as int,
                                samples,
                                codec,
                            ),
                        ),
                    )
                } else {
                    None
                },
            },
        },
    }
}

/// What a track adds to the reports of a request: its report, where it is
/// usable, wanted and has one.
pub open spec fn contribution(
    filter: Option<crate::types::FilterView>,
    track: IndexedTrackState,
    range: Option<(int, int)>,
    limits: SampleReadLimits,
    file: Seq<u8>,
) -> Seq<crate::types::SubtitleTrackView> {
    match track {
        IndexedTrackState::Ready(ready) if crate::mp4::subtitles::extract::wants(
            filter,
            ready@,
        ) => match report_in_range(ready, range, limits, file) {
            Some(report) => seq![report],
            None => seq![],
        },
        _ => seq![],
    }
}

/// What the tracks from place `i` on add to the reports of a request, in their
/// order.
pub open spec fn contributions(
    filter: Option<crate::types::FilterView>,
    tracks: Seq<IndexedTrackState>,
    i: int,
    range: Option<(int, int)>,
    limits: SampleReadLimits,
    file: Seq<u8>,
) -> Seq<crate::types::SubtitleTrackView>
    decreases tracks.len() - i,
{
    if i < 0 || i >= tracks.len() {
        seq![]
    } else {
        contribution(filter, tracks[i], range, limits, file) + contributions(
            filter,
            tracks,
            i + 1,
            range,
            limits,
            file,
        )
    }
}

/// Whether a filter asks for a track by its number.
pub open spec fn names_a_track(filter: Option<crate::types::FilterView>) -> bool {
    match filter {
        Some(crate::types::FilterView::TrackId(_)) => true,
        _ => false,
    }
}

/// Whether a track is usable, wanted and has no report.
pub open spec fn fails(
    filter: Option<crate::types::FilterView>,
    track: IndexedTrackState,
    range: Option<(int, int)>,
    limits: SampleReadLimits,
    file: Seq<u8>,
) -> bool {
    track matches IndexedTrackState::Ready(ready) && crate::mp4::subtitles::extract::wants(
        filter,
        ready@,
    ) && report_in_range(ready, range, limits, file) is None
}

/// A track that is done has added what it contributes; one that was named and
/// fails ends the request.
proof fn lemma_track_contributes(state: ExtractionView, track: IndexedTrackState, file: Seq<u8>)
    ensures
        crate::mp4::subtitles::requests::after_track(state, track, file) matches Ok(after) ==> {
            &&& after.output == state.output + contribution(
                state.filter,
                track,
                state.range,
                state.read_limits,
                file,
            )
            &&& names_a_track(state.filter) ==> !fails(
                state.filter,
                track,
                state.range,
                state.read_limits,
                file,
            )
        },
{
    reveal(report_in_range);
    let next = ExtractionView { position: state.position + 1, ..state };
    if let IndexedTrackState::Ready(ready) = track {
        if let Ok(cues) = crate::mp4::subtitles::cues::track_cues(ready@, state.range) {
            crate::mp4::sample_reads::lemma_plan_within_more(
                crate::mp4::subtitles::extract::samples_of(cues),
                ready.sizes,
                ready.stsc@,
                ready.chunk_offsets@,
                state.read_limits.max_sample_bytes as int,
                crate::mp4::sample_io::left_of(
                    state.read_limits.max_logical_bytes,
                    state.reads.logical_bytes,
                ),
                state.read_limits.max_logical_bytes as int,
                state.read_limits.max_coalesce_gap_bytes as int,
                state.read_limits.max_region_bytes as int,
            );
        }
        if let Ok((TrackAction::Read(cues, batches), after)) =
            crate::mp4::subtitles::extract::planned(next, track) {
            lemma_supplied_contributes(after, ready, cues, batches, file);
        }
    }
}

/// What was read for a track adds its report, if all its samples decode.
proof fn lemma_supplied_contributes(
    state: ExtractionView,
    track: IndexedTrack,
    cues: Seq<crate::mp4::subtitles::cues::CueSpan>,
    batches: Seq<crate::mp4::sample_reads::BatchView>,
    file: Seq<u8>,
)
    ensures
        ({
            let data = crate::mp4::subtitles::requests::batches_at(file, batches);
            let codec = track@.codecs[track@.codec_index];
            crate::mp4::subtitles::extract::supplied(state, track@, cues, batches, data) matches Ok(
                after,
            ) ==> match crate::mp4::subtitles::extract::gathered(
                batches,
                data,
                batches.len() as int,
            ) {
                Ok(samples) if forall|i: int|
                    0 <= i < cues.len() ==> crate::mp4::subtitles::extract::sample_decodes(
                        #[trigger] cues[i],
                        samples,
                        codec,
                    ) => after.output == state.output.push(
                    crate::mp4::subtitles::extract::reported(
                        track@,
                        crate::mp4::subtitles::extract::texts_of(
                            cues,
                            cues.len() as int,
                            samples,
                            codec,
                        ),
                    ),
                ),
                _ => after.output == state.output
                    && !crate::mp4::subtitles::extract::names_track(state.filter, track.id),
            }
        }),
{
    let data = crate::mp4::subtitles::requests::batches_at(file, batches);
    let codec = track@.codecs[track@.codec_index];
    if let Ok(samples) = crate::mp4::subtitles::extract::gathered(
        batches,
        data,
        batches.len() as int,
    ) {
        crate::mp4::subtitles::extract::lemma_undecoded_sample(
            cues,
            cues.len() as int,
            samples,
            codec,
            state.limits,
            state.taken,
        );
        crate::mp4::subtitles::extract::lemma_cues_are_texts(
            cues,
            cues.len() as int,
            samples,
            codec,
            state.limits,
            state.taken,
        );
    }
}

// ---------------------------------------------------------------------------
// What a request selects
// ---------------------------------------------------------------------------

/// A request that comes to its end has reported exactly the usable tracks that
/// are wanted and can be selected, read and decoded, in their order. A track
/// that fails is left out as a whole; one that was named and fails ends the
/// request with an error instead.
pub proof fn lemma_request_reports_exactly_the_sound_tracks(
    state: ExtractionView,
    tracks: Seq<IndexedTrackState>,
    file: Seq<u8>,
)
    requires
        0 <= state.position <= tracks.len(),
        !state.first_only,
    ensures
        crate::mp4::subtitles::requests::after_request(state, tracks, file) matches Ok(after)
            ==> {
            &&& after.output == state.output + contributions(
                state.filter,
                tracks,
                state.position,
                state.range,
                state.read_limits,
                file,
            )
            &&& names_a_track(state.filter) ==> forall|i: int|
                state.position <= i < tracks.len() ==> !fails(
                    state.filter,
                    #[trigger] tracks[i],
                    state.range,
                    state.read_limits,
                    file,
                )
        },
    decreases tracks.len() - state.position,
{
    if state.position < tracks.len() {
        let track = tracks[state.position];
        crate::mp4::subtitles::requests::lemma_moves_on(state, track, file);
        lemma_track_contributes(state, track, file);
        if let Ok(next) = crate::mp4::subtitles::requests::after_track(state, track, file) {
            lemma_request_reports_exactly_the_sound_tracks(next, tracks, file);
            if let Ok(after) = crate::mp4::subtitles::requests::after_request(next, tracks, file) {
                assert(after.output =~= state.output + contributions(
                    state.filter,
                    tracks,
                    state.position,
                    state.range,
                    state.read_limits,
                    file,
                ));
            }
        }
    } else {
        assert(state.output + Seq::<crate::types::SubtitleTrackView>::empty() =~= state.output);
    }
}

/// Unless it names a track, a request fails only for its limits, never for a
/// track.
pub proof fn lemma_request_fails_only_for_its_limits(
    state: ExtractionView,
    tracks: Seq<IndexedTrackState>,
    file: Seq<u8>,
)
    requires
        0 <= state.position <= tracks.len(),
        !names_a_track(state.filter),
    ensures
        crate::mp4::subtitles::requests::after_request(state, tracks, file) matches Err(error)
            ==> error is Other,
    decreases tracks.len() - state.position,
{
    if crate::mp4::subtitles::requests::goes_on(state, tracks) {
        let track = tracks[state.position];
        crate::mp4::subtitles::requests::lemma_moves_on(state, track, file);
        lemma_track_fails_only_for_limits(state, track, file);
        if let Ok(next) = crate::mp4::subtitles::requests::after_track(state, track, file) {
            lemma_request_fails_only_for_its_limits(next, tracks, file);
        }
    }
}

proof fn lemma_track_fails_only_for_limits(
    state: ExtractionView,
    track: IndexedTrackState,
    file: Seq<u8>,
)
    requires
        !names_a_track(state.filter),
    ensures
        crate::mp4::subtitles::requests::after_track(state, track, file) matches Err(error)
            ==> error is Other,
{
    let next = ExtractionView { position: state.position + 1, ..state };
    if let Ok((TrackAction::Read(cues, batches), after)) =
        crate::mp4::subtitles::extract::planned(next, track) {
        let ready = track->Ready_0;
        if let Ok(samples) = crate::mp4::subtitles::extract::gathered(
            batches,
            crate::mp4::subtitles::requests::batches_at(file, batches),
            batches.len() as int,
        ) {
            lemma_fatal_is_other(
                cues,
                cues.len() as int,
                samples,
                ready@.codecs[ready@.codec_index],
                after.limits,
                after.taken,
            );
        }
    }
}

proof fn lemma_fatal_is_other(
    spans: Seq<crate::mp4::subtitles::cues::CueSpan>,
    k: int,
    samples: Map<u32, Seq<u8>>,
    codec: Seq<char>,
    limits: crate::mp4::subtitles::cues::SubtitleRequestLimits,
    taken: crate::mp4::subtitles::cues::RequestUse,
)
    ensures
        crate::mp4::subtitles::extract::decoded_cues(
            spans,
            k,
            samples,
            codec,
            limits,
            taken,
        ) matches DecodeOutcome::Fatal(error) ==> error is Other,
    decreases k,
{
    if k > 0 {
        reveal(crate::mp4::subtitles::extract::with_cue);
        lemma_fatal_is_other(spans, k - 1, samples, codec, limits, taken);
    }
}

// ---------------------------------------------------------------------------
// Filters
// ---------------------------------------------------------------------------

/// Whether a reported track is the one that a filter selects.
pub open spec fn selects(
    filter: crate::types::FilterView,
    report: crate::types::SubtitleTrackView,
) -> bool {
    match filter {
        crate::types::FilterView::TrackId(id) => report.base.id == id,
        crate::types::FilterView::Language(language) => report.base.language is Some
            && crate::strings::lower_text(report.base.language.unwrap())
            == crate::strings::lower_text(language),
    }
}

proof fn lemma_contribution_is_filtered(
    filter: crate::types::FilterView,
    track: IndexedTrackState,
    range: Option<(int, int)>,
    limits: SampleReadLimits,
    file: Seq<u8>,
)
    ensures
        contribution(Some(filter), track, range, limits, file) == contribution(
            None,
            track,
            range,
            limits,
            file,
        ).filter(|report: crate::types::SubtitleTrackView| selects(filter, report)),
{
    reveal(report_in_range);
    reveal_with_fuel(Seq::filter, 2);
    let all = contribution(None, track, range, limits, file);
    let pred = |report: crate::types::SubtitleTrackView| selects(filter, report);
    if all.len() > 0 {
        let ready = track->Ready_0;
        assert(all.drop_last() =~= seq![]);
        assert(all.last() == all[0]);
        assert(all[0].base.id == ready@.id && all[0].base.language == ready@.language);
        assert(all.filter(pred) =~= if pred(all[0]) {
            seq![all[0]]
        } else {
            seq![]
        });
    }
}

proof fn lemma_contributions_are_filtered(
    filter: crate::types::FilterView,
    tracks: Seq<IndexedTrackState>,
    i: int,
    range: Option<(int, int)>,
    limits: SampleReadLimits,
    file: Seq<u8>,
)
    ensures
        contributions(Some(filter), tracks, i, range, limits, file) == contributions(
            None,
            tracks,
            i,
            range,
            limits,
            file,
        ).filter(|report: crate::types::SubtitleTrackView| selects(filter, report)),
    decreases tracks.len() - i,
{
    reveal_with_fuel(Seq::filter, 1);
    if 0 <= i < tracks.len() {
        lemma_contribution_is_filtered(filter, tracks[i], range, limits, file);
        lemma_contributions_are_filtered(filter, tracks, i + 1, range, limits, file);
        Seq::filter_distributes_over_add(
            contribution(None, tracks[i], range, limits, file),
            contributions(None, tracks, i + 1, range, limits, file),
            |report: crate::types::SubtitleTrackView| selects(filter, report),
        );
    }
}

/// A filtered request reports what the same request without a filter reports,
/// filtered: by the number of the track, or by its language in upper and lower
/// case. Nothing is reported where nothing matches.
pub proof fn lemma_filtered_request_reports_the_filtered_list(
    all: ExtractionView,
    one: ExtractionView,
    filter: crate::types::FilterView,
    tracks: Seq<IndexedTrackState>,
    file: Seq<u8>,
)
    requires
        0 <= all.position <= tracks.len(),
        all.filter is None,
        one.filter == Some(filter),
        one.position == all.position,
        one.range == all.range,
        one.read_limits == all.read_limits,
        !all.first_only,
        !one.first_only,
        all.output.len() == 0,
        one.output.len() == 0,
    ensures
        match (
            crate::mp4::subtitles::requests::after_request(all, tracks, file),
            crate::mp4::subtitles::requests::after_request(one, tracks, file),
        ) {
            (Ok(all), Ok(one)) => one.output == all.output.filter(
                |report: crate::types::SubtitleTrackView| selects(filter, report),
            ),
            _ => true,
        },
{
    lemma_request_reports_exactly_the_sound_tracks(all, tracks, file);
    lemma_request_reports_exactly_the_sound_tracks(one, tracks, file);
    lemma_contributions_are_filtered(
        filter,
        tracks,
        all.position,
        all.range,
        all.read_limits,
        file,
    );
    if let (Ok(after_all), Ok(after_one)) = (
        crate::mp4::subtitles::requests::after_request(all, tracks, file),
        crate::mp4::subtitles::requests::after_request(one, tracks, file),
    ) {
        assert(after_all.output =~= contributions(
            None,
            tracks,
            all.position,
            all.range,
            all.read_limits,
            file,
        ));
        assert(after_one.output =~= contributions(
            Some(filter),
            tracks,
            all.position,
            all.range,
            all.read_limits,
            file,
        ));
    }
}

// ---------------------------------------------------------------------------
// Ranges
// ---------------------------------------------------------------------------

/// The cues that are on display at some time of a range.
pub open spec fn cues_in_range(cues: Seq<crate::types::CueView>, range: (int, int)) -> Seq<
    crate::types::CueView,
> {
    cues.filter(
        |cue: crate::types::CueView|
            crate::mp4::subtitles::cues::overlaps(Some(range), cue.start, cue.end),
    )
}

/// Whether one report is the other, of the whole track, for a range: the same
/// track with those of its cues that are on display in the range.
pub open spec fn narrows(
    part: crate::types::SubtitleTrackView,
    full: crate::types::SubtitleTrackView,
    range: (int, int),
) -> bool {
    &&& part.base.id == full.base.id
    &&& part.base.codec == full.base.codec
    &&& part.base.language == full.base.language
    &&& part.base.timescale == full.base.timescale
    &&& part.base.duration == full.base.duration
    &&& part.cues == cues_in_range(full.cues, range)
}

proof fn lemma_texts_in_range(
    spans: Seq<crate::mp4::subtitles::cues::CueSpan>,
    samples: Map<u32, Seq<u8>>,
    codec: Seq<char>,
    range: (int, int),
)
    ensures
        ({
            let part = crate::mp4::subtitles::cues::in_range(spans, range);
            crate::mp4::subtitles::extract::texts_of(part, part.len() as int, samples, codec)
                == cues_in_range(
                crate::mp4::subtitles::extract::texts_of(
                    spans,
                    spans.len() as int,
                    samples,
                    codec,
                ),
                range,
            )
        }),
    decreases spans.len(),
{
    reveal(Seq::filter);
    if spans.len() > 0 {
        let before = spans.drop_last();
        let span = spans.last();
        assert(spans =~= before.push(span));
        lemma_texts_in_range(before, samples, codec, range);
        crate::mp4::subtitles::cues::lemma_in_range_push(before, span, range);
        let part = crate::mp4::subtitles::cues::in_range(before, range);
        lemma_texts_of_prefix(spans, before, before.len() as int, samples, codec);
        let texts = crate::mp4::subtitles::extract::texts_of(
            before,
            before.len() as int,
            samples,
            codec,
        );
        if crate::mp4::subtitles::cues::overlaps(Some(range), span.start, span.end) {
            lemma_texts_of_prefix(part.push(span), part, part.len() as int, samples, codec);
        }
        if let Ok(Some(text)) = crate::mp4::subtitles::text::decoded(
            codec,
            samples[span.sample_index],
            None,
        ) {
            let cue = crate::types::CueView {
                cue_id: span.sample_index,
                start: span.start,
                end: span.end,
                text,
            };
            assert(texts.push(cue).drop_last() =~= texts);
        }
    }
}

/// The texts of the first cues do not depend on those behind them.
proof fn lemma_texts_of_prefix(
    longer: Seq<crate::mp4::subtitles::cues::CueSpan>,
    shorter: Seq<crate::mp4::subtitles::cues::CueSpan>,
    k: int,
    samples: Map<u32, Seq<u8>>,
    codec: Seq<char>,
)
    requires
        0 <= k <= shorter.len() <= longer.len(),
        forall|i: int| 0 <= i < shorter.len() ==> longer[i] == shorter[i],
    ensures
        crate::mp4::subtitles::extract::texts_of(longer, k, samples, codec)
            == crate::mp4::subtitles::extract::texts_of(shorter, k, samples, codec),
    decreases k,
{
    if k > 0 {
        lemma_texts_of_prefix(longer, shorter, k - 1, samples, codec);
    }
}

/// A cue of a range is one of the whole track.
proof fn lemma_selected_cue_is_one(
    spans: Seq<crate::mp4::subtitles::cues::CueSpan>,
    range: (int, int),
    i: int,
)
    requires
        0 <= i < crate::mp4::subtitles::cues::in_range(spans, range).len(),
    ensures
        spans.contains(crate::mp4::subtitles::cues::in_range(spans, range)[i]),
    decreases spans.len(),
{
    reveal(Seq::filter);
    if spans.len() > 0 {
        let before = spans.drop_last();
        assert(spans =~= before.push(spans.last()));
        crate::mp4::subtitles::cues::lemma_in_range_push(before, spans.last(), range);
        let part = crate::mp4::subtitles::cues::in_range(before, range);
        if i < part.len() {
            lemma_selected_cue_is_one(before, range, i);
            let j = choose|j: int| 0 <= j < before.len() && before[j] == part[i];
            assert(spans[j] == part[i]);
        } else {
            assert(spans[spans.len() - 1] == spans.last());
        }
    }
}

/// The samples of a range hold the same bytes as in the whole track.
proof fn lemma_selected_samples_agree(
    spans: Seq<crate::mp4::subtitles::cues::CueSpan>,
    track: IndexedTrack,
    range: (int, int),
    file: Seq<u8>,
)
    ensures
        ({
            let selected = crate::mp4::subtitles::cues::in_range(spans, range);
            let all = crate::mp4::subtitles::requests::file_samples(spans, track, file);
            let some = crate::mp4::subtitles::requests::file_samples(selected, track, file);
            forall|i: int|
                0 <= i < selected.len() ==> some[(#[trigger] selected[i]).sample_index]
                    == all[selected[i].sample_index]
        }),
{
    let selected = crate::mp4::subtitles::cues::in_range(spans, range);
    let all = crate::mp4::subtitles::requests::file_samples(spans, track, file);
    let some = crate::mp4::subtitles::requests::file_samples(selected, track, file);
    assert forall|i: int| 0 <= i < selected.len() implies some[(
    #[trigger] selected[i]).sample_index] == all[selected[i].sample_index] by {
        lemma_selected_cue_is_one(spans, range, i);
        let j = choose|j: int| 0 <= j < spans.len() && spans[j] == selected[i];
        let n = selected[i].sample_index;
        assert(crate::mp4::subtitles::extract::samples_of(spans)[j] == n);
        assert(crate::mp4::subtitles::extract::samples_of(selected)[i] == n);
        assert(all.contains_key(n) && some.contains_key(n));
    }
}

/// Whole reports of one track narrow as their ranges do.
proof fn lemma_reports_narrow(
    full: crate::types::SubtitleTrackView,
    part: crate::types::SubtitleTrackView,
    track: IndexedTrack,
    range: (int, int),
    file: Seq<u8>,
)
    requires
        crate::mp4::subtitles::requests::is_report_of(full, track, None, file),
        crate::mp4::subtitles::requests::is_report_of(part, track, Some(range), file),
    ensures
        narrows(part, full, range),
{
    reveal(crate::mp4::subtitles::requests::is_report_of);
    crate::mp4::subtitles::cues::lemma_range_selects_overlapping_cues(track@, range);
    let spans = crate::mp4::subtitles::cues::track_cues(track@, None)->Ok_0;
    let selected = crate::mp4::subtitles::cues::in_range(spans, range);
    let codec = track@.codecs[track@.codec_index];
    let all = crate::mp4::subtitles::requests::file_samples(spans, track, file);
    let some = crate::mp4::subtitles::requests::file_samples(selected, track, file);
    lemma_selected_samples_agree(spans, track, range, file);
    crate::mp4::subtitles::requests::lemma_texts_agree(
        selected,
        selected.len() as int,
        some,
        all,
        codec,
    );
    lemma_texts_in_range(spans, all, codec, range);
}

/// Where no track fails, a request for a range reports the same tracks as the
/// request without it, in the same order. Each has those cues of the whole track
/// that are on display in the range, with the same numbers, times and texts:
/// nothing is clipped or counted anew.
pub proof fn lemma_ranged_request_narrows_each_track(
    full: ExtractionView,
    part: ExtractionView,
    range: (int, int),
    tracks: Seq<IndexedTrackState>,
    file: Seq<u8>,
)
    requires
        0 <= full.position <= tracks.len(),
        full.range is None,
        part.range == Some(range),
        part.position == full.position,
        part.filter == full.filter,
        part.read_limits == full.read_limits,
        !full.first_only,
        !part.first_only,
        part.output.len() == full.output.len(),
        forall|i: int|
            0 <= i < full.output.len() ==> narrows(
                #[trigger] part.output[i],
                full.output[i],
                range,
            ),
        forall|i: int|
            full.position <= i < tracks.len() ==> {
                &&& !fails(full.filter, #[trigger] tracks[i], None, full.read_limits, file)
                &&& !fails(full.filter, tracks[i], Some(range), full.read_limits, file)
            },
    ensures
        match (
            crate::mp4::subtitles::requests::after_request(full, tracks, file),
            crate::mp4::subtitles::requests::after_request(part, tracks, file),
        ) {
            (Ok(full), Ok(part)) => {
                &&& part.output.len() == full.output.len()
                &&& forall|i: int|
                    0 <= i < full.output.len() ==> narrows(
                        #[trigger] part.output[i],
                        full.output[i],
                        range,
                    )
            },
            _ => true,
        },
    decreases tracks.len() - full.position,
{
    if full.position < tracks.len() {
        let track = tracks[full.position];
        crate::mp4::subtitles::requests::lemma_moves_on(full, track, file);
        crate::mp4::subtitles::requests::lemma_moves_on(part, track, file);
        if let (Ok(next_full), Ok(next_part)) = (
            crate::mp4::subtitles::requests::after_track(full, track, file),
            crate::mp4::subtitles::requests::after_track(part, track, file),
        ) {
            lemma_track_contributes(full, track, file);
            lemma_track_contributes(part, track, file);
            crate::mp4::subtitles::requests::lemma_track_adds_its_report(full, track, file);
            crate::mp4::subtitles::requests::lemma_track_adds_its_report(part, track, file);
            let before = full.output.len() as int;
            if next_full.output.len() > before {
                assert(next_full.output.last() == next_full.output[before]);
                assert(next_part.output.last() == next_part.output[before]);
                lemma_reports_narrow(
                    next_full.output[before],
                    next_part.output[before],
                    track->Ready_0,
                    range,
                    file,
                );
            }
            assert forall|i: int| 0 <= i < next_full.output.len() implies narrows(
                #[trigger] next_part.output[i],
                next_full.output[i],
                range,
            ) by {
                if i < before {
                    assert(next_full.output[i] == full.output[i]);
                    assert(next_part.output[i] == part.output[i]);
                }
            }
            lemma_ranged_request_narrows_each_track(next_full, next_part, range, tracks, file);
        }
    }
}

} // verus!
