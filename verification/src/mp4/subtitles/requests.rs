//! What a whole request for subtitle tracks brings back of a file.

use vstd::prelude::*;

use crate::mp4::subtitles::extract::{ExtractionView, TrackAction};
use crate::mp4::subtitles::index::{IndexedTrack, IndexedTrackState};

verus! {

// ---------------------------------------------------------------------------
// A request from its first track to its last
// ---------------------------------------------------------------------------

pub open spec fn clamped(value: int, max: int) -> int {
    if value < 0 {
        0
    } else if value > max {
        max
    } else {
        value
    }
}

/// What a read brings: as many of the bytes as the file holds.
pub open spec fn bytes_at(file: Seq<u8>, offset: int, size: int) -> Seq<u8> {
    let len = file.len() as int;
    file.subrange(clamped(offset, len), clamped(offset + size, len))
}

/// What reading each batch brings.
pub open spec fn batches_at(
    file: Seq<u8>,
    batches: Seq<crate::mp4::sample_reads::BatchView>,
) -> Seq<Seq<u8>> {
    Seq::new(batches.len(), |i: int| bytes_at(file, batches[i].offset, batches[i].size))
}

/// Whether a request goes on to the next track.
pub open spec fn goes_on(state: ExtractionView, tracks: Seq<IndexedTrackState>) -> bool {
    0 <= state.position < tracks.len() && !(state.first_only && state.output.len() > 0)
}

/// A request once the track that comes next is done.
pub open spec fn after_track(
    state: ExtractionView,
    track: IndexedTrackState,
    file: Seq<u8>,
) -> Result<ExtractionView, crate::errors::ErrorView> {
    let next = ExtractionView { position: state.position + 1, ..state };
    match crate::mp4::subtitles::extract::planned(next, track) {
        Err(error) => Err(error),
        Ok((TrackAction::Pass, after)) => Ok(after),
        Ok((TrackAction::Read(cues, batches), after)) => crate::mp4::subtitles::extract::supplied(
            after,
            track->Ready_0@,
            cues,
            batches,
            batches_at(file, batches),
        ),
    }
}

/// A request once all its tracks are done, read from a file that does not
/// change.
pub open spec fn after_request(
    state: ExtractionView,
    tracks: Seq<IndexedTrackState>,
    file: Seq<u8>,
) -> Result<ExtractionView, crate::errors::ErrorView>
    decreases tracks.len() - state.position,
{
    if !goes_on(state, tracks) {
        Ok(state)
    } else {
        match after_track(state, tracks[state.position], file) {
            Err(error) => Err(error),
            Ok(after) => after_request(after, tracks, file),
        }
    }
}

/// One track moves a request on by one.
pub(crate) proof fn lemma_moves_on(state: ExtractionView, track: IndexedTrackState, file: Seq<u8>)
    ensures
        after_track(state, track, file) matches Ok(after) ==> {
            &&& after.position == state.position + 1
            &&& after.filter == state.filter
            &&& after.range == state.range
            &&& after.first_only == state.first_only
            &&& after.read_limits == state.read_limits
        },
{
}

// ---------------------------------------------------------------------------
// What is reported
// ---------------------------------------------------------------------------

/// The bytes that a file holds for the samples of some cues.
pub open spec fn file_samples(
    spans: Seq<crate::mp4::subtitles::cues::CueSpan>,
    track: IndexedTrack,
    file: Seq<u8>,
) -> Map<u32, Seq<u8>> {
    Map::new(
        |n: u32| crate::mp4::subtitles::extract::samples_of(spans).contains(n),
        |n: u32|
            crate::mp4::subtitles::extract::file_bytes(
                n,
                track.sizes,
                track.stsc@,
                track.chunk_offsets@,
                file,
            ),
    )
}

/// Whether a report is of a whole track: a cue for each sample in the range
/// that holds a text, with the text that the file holds for it.
#[verifier::opaque]
pub open spec fn is_report_of(
    report: crate::types::SubtitleTrackView,
    track: IndexedTrack,
    range: Option<(int, int)>,
    file: Seq<u8>,
) -> bool {
    &&& crate::mp4::subtitles::cues::track_cues(track@, range) matches Ok(spans)
    &&& ({
        let samples = file_samples(spans, track, file);
        let codec = track@.codecs[track@.codec_index];
        &&& report == crate::mp4::subtitles::extract::reported(
            track@,
            crate::mp4::subtitles::extract::texts_of(
                spans,
                spans.len() as int,
                samples,
                codec,
            ),
        )
        &&& forall|i: int|
            0 <= i < spans.len() ==> crate::mp4::subtitles::extract::sample_decodes(
                #[trigger] spans[i],
                samples,
                codec,
            )
    })
}

/// Whether a track is wanted and its report is whole.
pub open spec fn reports_track(
    report: crate::types::SubtitleTrackView,
    state: ExtractionView,
    track: IndexedTrackState,
    file: Seq<u8>,
) -> bool {
    match track {
        IndexedTrackState::Ready(ready) => crate::mp4::subtitles::extract::wants(
            state.filter,
            ready@,
        ) && is_report_of(report, ready, state.range, file),
        IndexedTrackState::Rejected { .. } => false,
    }
}

/// Whether the reports that came behind those of `state` are of the tracks at
/// `places`, in the order of the file.
pub open spec fn reports_places(
    state: ExtractionView,
    after: ExtractionView,
    tracks: Seq<IndexedTrackState>,
    file: Seq<u8>,
    places: Seq<int>,
) -> bool {
    let before = state.output.len() as int;
    &&& after.output.len() == before + places.len()
    &&& after.output.take(before) == state.output
    &&& forall|i: int|
        0 <= i < places.len() ==> state.position <= #[trigger] places[i] < tracks.len()
            && reports_track(after.output[before + i], state, tracks[places[i]], file)
    &&& forall|i: int, j: int|
        0 <= i < j < places.len() ==> #[trigger] places[i] < #[trigger] places[j]
}

pub(crate) proof fn lemma_texts_agree(
    spans: Seq<crate::mp4::subtitles::cues::CueSpan>,
    k: int,
    left: Map<u32, Seq<u8>>,
    right: Map<u32, Seq<u8>>,
    codec: Seq<char>,
)
    requires
        0 <= k <= spans.len(),
        forall|i: int|
            0 <= i < spans.len() ==> left[(#[trigger] spans[i]).sample_index]
                == right[spans[i].sample_index],
    ensures
        crate::mp4::subtitles::extract::texts_of(spans, k, left, codec)
            == crate::mp4::subtitles::extract::texts_of(spans, k, right, codec),
    decreases k,
{
    if k > 0 {
        lemma_texts_agree(spans, k - 1, left, right, codec);
        assert(left[spans[k - 1].sample_index] == right[spans[k - 1].sample_index]);
    }
}

/// Where no batch was cut short, all of them lie inside the file.
proof fn lemma_whole_batches_lie_inside(
    batches: Seq<crate::mp4::sample_reads::BatchView>,
    file: Seq<u8>,
    k: int,
)
    requires
        0 <= k <= batches.len(),
        forall|b: int| 0 <= b < batches.len() ==> (#[trigger] batches[b]).size > 0,
        crate::mp4::subtitles::extract::gathered(batches, batches_at(file, batches), k) is Ok,
    ensures
        forall|b: int|
            0 <= b < k ==> 0 <= (#[trigger] batches[b]).offset && batches[b].offset
                + batches[b].size <= file.len(),
    decreases k,
{
    if k > 0 {
        lemma_whole_batches_lie_inside(batches, file, k - 1);
        let last = batches[k - 1];
        let data = batches_at(file, batches);
        assert(crate::mp4::sample_reads::split_fault(batches[k - 1], data[k - 1]) is None);
        assert(data[k - 1] == bytes_at(file, last.offset, last.size));
    }
}

/// What one track adds to a request: nothing, or a whole report of the track
/// where it is wanted.
pub(crate) proof fn lemma_track_adds_its_report(
    state: ExtractionView,
    track: IndexedTrackState,
    file: Seq<u8>,
)
    ensures
        after_track(state, track, file) matches Ok(after) ==> after.output == state.output || (
        after.output.len() == state.output.len() + 1 && after.output.drop_last() == state.output
            && reports_track(after.output.last(), state, track, file)),
{
    reveal(is_report_of);
    let next = ExtractionView { position: state.position + 1, ..state };
    match crate::mp4::subtitles::extract::planned(next, track) {
        Ok((TrackAction::Read(cues, batches), after)) => {
            let ready = track->Ready_0;
            let data = batches_at(file, batches);
            let codec = ready@.codecs[ready@.codec_index];
            crate::mp4::subtitles::extract::lemma_report_is_whole(
                after,
                ready@,
                cues,
                batches,
                data,
            );
            let gathered = crate::mp4::subtitles::extract::gathered(
                batches,
                data,
                batches.len() as int,
            );
            if let Ok(last) = crate::mp4::subtitles::extract::supplied(
                after,
                ready@,
                cues,
                batches,
                data,
            ) {
                if last.output != state.output {
                    lemma_read_samples_are_the_files(state, ready, cues, batches, file);
                    let samples = file_samples(cues, ready, file);
                    lemma_texts_agree(cues, cues.len() as int, gathered->Ok_0, samples, codec);
                    assert(last.output.drop_last() =~= state.output);
                    assert forall|i: int| 0 <= i < cues.len() implies
                        crate::mp4::subtitles::extract::sample_decodes(
                        #[trigger] cues[i],
                        samples,
                        codec,
                    ) by {
                        assert(crate::mp4::subtitles::extract::sample_decodes(
                            cues[i],
                            gathered->Ok_0,
                            codec,
                        ));
                    }
                }
            }
        },
        _ => {},
    }
}

/// Where the planned batches of a track came back whole, its samples have the
/// bytes of the file.
proof fn lemma_read_samples_are_the_files(
    state: ExtractionView,
    track: IndexedTrack,
    cues: Seq<crate::mp4::subtitles::cues::CueSpan>,
    batches: Seq<crate::mp4::sample_reads::BatchView>,
    file: Seq<u8>,
)
    requires
        crate::mp4::sample_io::sample_plan(
            crate::mp4::subtitles::extract::samples_of(cues),
            track.sizes,
            track.stsc@,
            track.chunk_offsets@,
            state.read_limits,
            state.reads,
        ) == Ok::<Seq<crate::mp4::sample_reads::BatchView>, crate::mp4::sample_io::ReadFault>(
            batches,
        ),
        crate::mp4::subtitles::extract::gathered(
            batches,
            batches_at(file, batches),
            batches.len() as int,
        ) is Ok,
    ensures
        ({
            let gathered = crate::mp4::subtitles::extract::gathered(
                batches,
                batches_at(file, batches),
                batches.len() as int,
            )->Ok_0;
            let samples = file_samples(cues, track, file);
            forall|i: int|
                0 <= i < cues.len() ==> {
                    &&& samples.contains_key((#[trigger] cues[i]).sample_index)
                    &&& gathered[cues[i].sample_index] == samples[cues[i].sample_index]
                }
        }),
{
    let wanted = crate::mp4::subtitles::extract::samples_of(cues);
    crate::mp4::sample_reads::lemma_plan_brings_the_wanted_samples(
        wanted,
        track.sizes,
        track.stsc@,
        track.chunk_offsets@,
        state.read_limits.max_sample_bytes as int,
        crate::mp4::sample_io::left_of(
            state.read_limits.max_logical_bytes,
            state.reads.logical_bytes,
        ),
        state.read_limits.max_coalesce_gap_bytes as int,
        state.read_limits.max_region_bytes as int,
    );
    assert forall|b: int| 0 <= b < batches.len() implies (#[trigger] batches[b]).size > 0 by {
        assert(crate::mp4::sample_reads::batch_sound(
            batches[b],
            state.read_limits.max_region_bytes as int,
        ));
        assert(batches[b].samples[0].size > 0);
    }
    lemma_whole_batches_lie_inside(batches, file, batches.len() as int);
    crate::mp4::subtitles::extract::lemma_samples_come_from_the_file(
        wanted,
        track.sizes,
        track.stsc@,
        track.chunk_offsets@,
        state.read_limits,
        state.reads,
        file,
    );
    assert(batches_at(file, batches) =~= crate::mp4::subtitles::extract::read_from(batches, file))
        by {
        assert forall|b: int| 0 <= b < batches.len() implies #[trigger] batches_at(
            file,
            batches,
        )[b] == crate::mp4::subtitles::extract::read_from(batches, file)[b] by {
            assert(batches[b].offset + batches[b].size <= file.len());
        }
    }
    assert forall|i: int| 0 <= i < cues.len() implies wanted.contains(
        (#[trigger] cues[i]).sample_index,
    ) by {
        assert(wanted[i] == cues[i].sample_index);
    }
}

/// The places of the reports of a request, once those behind its next track
/// are known.
proof fn lemma_places_extend(
    state: ExtractionView,
    next: ExtractionView,
    after: ExtractionView,
    tracks: Seq<IndexedTrackState>,
    file: Seq<u8>,
    rest: Seq<int>,
)
    requires
        0 <= state.position < tracks.len(),
        next.position == state.position + 1,
        next.filter == state.filter,
        next.range == state.range,
        reports_places(next, after, tracks, file, rest),
        next.output == state.output || (next.output.len() == state.output.len() + 1
            && next.output.drop_last() == state.output && reports_track(
            next.output.last(),
            state,
            tracks[state.position],
            file,
        )),
    ensures
        exists|places: Seq<int>| #[trigger] reports_places(state, after, tracks, file, places),
{
    let before = state.output.len() as int;
    if next.output == state.output {
        assert forall|i: int| 0 <= i < rest.len() implies state.position
            <= #[trigger] rest[i] < tracks.len() && reports_track(
            after.output[before + i],
            state,
            tracks[rest[i]],
            file,
        ) by {
            assert(reports_track(after.output[before + i], next, tracks[rest[i]], file));
        }
        assert(reports_places(state, after, tracks, file, rest));
    } else {
        let places = seq![state.position] + rest;
        assert(after.output.take(before) =~= state.output) by {
            assert(after.output.take(before) =~= after.output.take(before + 1).drop_last());
        }
        assert forall|i: int| 0 <= i < places.len() implies state.position
            <= #[trigger] places[i] < tracks.len() && reports_track(
            after.output[before + i],
            state,
            tracks[places[i]],
            file,
        ) by {
            if i == 0 {
                assert(after.output[before] == after.output.take(before + 1).last());
            } else {
                assert(places[i] == rest[i - 1]);
                assert(reports_track(
                    after.output[before + 1 + (i - 1)],
                    next,
                    tracks[rest[i - 1]],
                    file,
                ));
            }
        }
        assert(reports_places(state, after, tracks, file, places));
    }
}

/// A request that comes to its end reports whole tracks only, each one wanted
/// and in the order of the file: a cue for each of its samples in the range
/// that holds a text, under the number of the sample, with the text that the
/// file holds at the sample's place.
pub proof fn lemma_request_reports_whole_tracks(
    state: ExtractionView,
    tracks: Seq<IndexedTrackState>,
    file: Seq<u8>,
)
    ensures
        after_request(state, tracks, file) matches Ok(after) ==> exists|places: Seq<int>|
            #[trigger] reports_places(state, after, tracks, file, places),
    decreases tracks.len() - state.position,
{
    if !goes_on(state, tracks) {
        assert(state.output.take(state.output.len() as int) =~= state.output);
        assert(reports_places(state, state, tracks, file, seq![]));
    } else if let Ok(next) = after_track(state, tracks[state.position], file) {
        lemma_moves_on(state, tracks[state.position], file);
        lemma_track_adds_its_report(state, tracks[state.position], file);
        lemma_request_reports_whole_tracks(next, tracks, file);
        if let Ok(after) = after_request(next, tracks, file) {
            let rest = choose|places: Seq<int>|
                #[trigger] reports_places(next, after, tracks, file, places);
            lemma_places_extend(state, next, after, tracks, file, rest);
        }
    }
}

// ---------------------------------------------------------------------------
// What is skipped and what fails
// ---------------------------------------------------------------------------

/// Whether no track from the request's place on is wanted or named.
pub open spec fn wants_none(state: ExtractionView, tracks: Seq<IndexedTrackState>) -> bool {
    forall|i: int|
        state.position <= i < tracks.len() ==> match #[trigger] tracks[i] {
            IndexedTrackState::Ready(track) => !crate::mp4::subtitles::extract::wants(
                state.filter,
                track@,
            ),
            IndexedTrackState::Rejected { id, .. } => !crate::mp4::subtitles::extract::names_track(
                state.filter,
                id,
            ),
        }
}

/// A request that no track matches succeeds, reports nothing and costs nothing.
pub proof fn lemma_request_without_match_reports_nothing(
    state: ExtractionView,
    tracks: Seq<IndexedTrackState>,
    file: Seq<u8>,
)
    requires
        0 <= state.position <= tracks.len(),
        state.output.len() == 0,
        wants_none(state, tracks),
    ensures
        after_request(state, tracks, file) == Ok::<ExtractionView, crate::errors::ErrorView>(
            ExtractionView { position: tracks.len() as int, ..state },
        ),
    decreases tracks.len() - state.position,
{
    if state.position < tracks.len() {
        let next = ExtractionView { position: state.position + 1, ..state };
        let track = tracks[state.position];
        assert(after_track(state, track, file) == Ok::<ExtractionView, crate::errors::ErrorView>(
            next,
        ));
        lemma_request_without_match_reports_nothing(next, tracks, file);
    }
}

/// The number of ready tracks with a number, from place `i` on.
pub open spec fn ready_tracks(tracks: Seq<IndexedTrackState>, id: u32, i: int) -> int
    decreases tracks.len() - i,
{
    if i < 0 || i >= tracks.len() {
        0
    } else {
        ready_tracks(tracks, id, i + 1) + match tracks[i] {
            IndexedTrackState::Ready(track) => if track.id == id {
                1int
            } else {
                0int
            },
            IndexedTrackState::Rejected { .. } => 0int,
        }
    }
}

/// A request that names a track either fails or reports every track of that
/// number: none is skipped, and none was found unusable before.
pub proof fn lemma_named_track_is_never_skipped(
    state: ExtractionView,
    tracks: Seq<IndexedTrackState>,
    file: Seq<u8>,
    id: u32,
)
    requires
        0 <= state.position <= tracks.len(),
        !state.first_only,
        state.filter == Some(crate::types::FilterView::TrackId(id)),
    ensures
        after_request(state, tracks, file) matches Ok(after) ==> {
            &&& after.output.len() == state.output.len() + ready_tracks(tracks, id, state.position)
            &&& forall|i: int|
                state.position <= i < tracks.len() ==> (
                #[trigger] tracks[i] matches IndexedTrackState::Rejected { id: rejected, .. }
                    ==> rejected != id)
        },
    decreases tracks.len() - state.position,
{
    if state.position < tracks.len() {
        let track = tracks[state.position];
        if let Ok(next) = after_track(state, track, file) {
            lemma_moves_on(state, track, file);
            lemma_track_adds_its_report(state, track, file);
            lemma_named_track_is_never_skipped(next, tracks, file, id);
        }
    }
}

/// A request that does not name a track passes over it where it was found
/// unusable before: the request goes on as if the track were not there.
pub proof fn lemma_unusable_track_is_passed_over(
    state: ExtractionView,
    id: u32,
    reason: &'static str,
    file: Seq<u8>,
)
    ensures
        after_track(state, IndexedTrackState::Rejected { id, reason }, file)
            == if crate::mp4::subtitles::extract::names_track(state.filter, id) {
            Err::<ExtractionView, crate::errors::ErrorView>(
                crate::errors::ErrorView::SubtitleError(reason@),
            )
        } else {
            Ok(ExtractionView { position: state.position + 1, ..state })
        },
{
}

} // verus!
