//! Thumbnails of one request, gathered by the group of pictures that they are
//! decoded from.
//!
//! Every time of a request is planned by itself. Plans that start at the same
//! sync sample share one group, which is read and decoded once, up to the last
//! sample that any of them needs. The images of the groups are then put back in
//! the order of the times.

use vstd::prelude::*;

use crate::errors::{invalid_format, MediaParserError};
use crate::h264::config::DecodedImage;
use crate::memory::try_reserve_exact;
use crate::mp4::thumbnail_io::MAX_SAMPLES_PER_THUMBNAIL_BATCH;
use crate::mp4::thumbnails::{
    check_timestamp, finish_frame, keyframe_plan, plan_frame, FramePlan, VideoSampleTables,
    VideoTrack,
};
use crate::mp4::timing::PresentationTimeline;
use crate::time::Duration;
use crate::types::Frame;

verus! {

// ---------------------------------------------------------------------------
// The times
// ---------------------------------------------------------------------------

/// The error for the first of some timestamps that lies outside a track.
pub open spec fn timestamps_fault(
    timestamps: Seq<Duration>,
    timescale: u32,
    duration: u64,
    k: int,
) -> Option<crate::errors::ErrorView>
    decreases timestamps.len() - k,
{
    if k >= timestamps.len() {
        None
    } else if crate::mp4::thumbnails::beyond_track(timestamps[k], timescale, duration) {
        Some(crate::mp4::thumbnails::outside_track(timestamps[k]))
    } else {
        timestamps_fault(timestamps, timescale, duration, k + 1)
    }
}

/// Checks that all timestamps lie inside the track.
pub fn check_timestamps(track: &VideoTrack, timestamps: &[Duration]) -> (result: Result<
    (),
    MediaParserError,
>)
    ensures
        match timestamps_fault(timestamps@, track.timescale, track.duration, 0) {
            None => result is Ok,
            Some(error) => result matches Err(found) && found@ == error,
        },
{
    let mut position: usize = 0;
    while position < timestamps.len()
        invariant
            position <= timestamps@.len(),
            timestamps_fault(timestamps@, track.timescale, track.duration, 0) == timestamps_fault(
                timestamps@,
                track.timescale,
                track.duration,
                position as int,
            ),
        decreases timestamps@.len() - position,
    {
        match check_timestamp(track, timestamps[position]) {
            Ok(_) => {},
            Err(error) => {
                return Err(error);
            },
        }
        position += 1;
    }
    Ok(())
}

/// The tick of a timestamp.
pub open spec fn target_tick(timestamp: Duration, timescale: u32) -> u64 {
    crate::mp4::thumbnails::target_tick(timestamp, timescale)
}

/// Whether a plan shows what is wanted at a timestamp: the sample on display
/// there, or the keyframe that this is decoded from.
pub open spec fn is_planned(
    ticks: Seq<i128>,
    sync_samples: Option<Seq<u32>>,
    sample_count: u32,
    target: u64,
    keyframes: bool,
    plan: FramePlan,
) -> bool {
    if keyframes {
        exists|shown: FramePlan| #[trigger]
            crate::mp4::thumbnails::frame_planned(ticks, sync_samples, sample_count, target, shown)
                && plan == crate::mp4::thumbnails::keyframe_of(shown, ticks)
    } else {
        crate::mp4::thumbnails::frame_planned(ticks, sync_samples, sample_count, target, plan)
    }
}

/// Whether the first timestamp without a plan is refused with this error.
pub open spec fn refuses_first(
    ticks: Seq<i128>,
    sync_samples: Option<Seq<u32>>,
    sample_count: u32,
    timescale: u32,
    timestamps: Seq<Duration>,
    keyframes: bool,
    plans: Seq<FramePlan>,
    error: crate::errors::ErrorView,
) -> bool {
    &&& plans.len() < timestamps.len()
    &&& are_planned(ticks, sync_samples, sample_count, timescale, timestamps, keyframes, plans)
    &&& crate::mp4::thumbnails::refuses_frame(
        ticks,
        sync_samples,
        sample_count,
        target_tick(timestamps[plans.len() as int], timescale),
        error,
    )
}

/// Whether each of some plans shows what is wanted at the timestamp in its
/// place.
pub open spec fn are_planned(
    ticks: Seq<i128>,
    sync_samples: Option<Seq<u32>>,
    sample_count: u32,
    timescale: u32,
    timestamps: Seq<Duration>,
    keyframes: bool,
    plans: Seq<FramePlan>,
) -> bool {
    &&& plans.len() <= timestamps.len()
    &&& forall|i: int|
        0 <= i < plans.len() ==> is_planned(
            ticks,
            sync_samples,
            sample_count,
            target_tick(timestamps[i], timescale),
            keyframes,
            #[trigger] plans[i],
        )
}

/// Chooses the samples for a thumbnail at each of some timestamps. Where the
/// allocator has no room for the plans, there are too many timestamps.
pub fn plan_frames(
    track: &VideoTrack,
    tables: &VideoSampleTables,
    timeline: &PresentationTimeline,
    timestamps: &[Duration],
    keyframes: bool,
) -> (result: Result<Vec<FramePlan>, MediaParserError>)
    requires
        tables.sync_samples matches Some(samples) ==> crate::mp4::samples::ascending(samples@),
    ensures
        match result {
            Ok(plans) => {
                &&& plans@.len() == timestamps@.len()
                &&& are_planned(
                    timeline@,
                    crate::mp4::thumbnails::vec_view(tables.sync_samples),
                    tables.sizes.sample_count,
                    track.timescale,
                    timestamps@,
                    keyframes,
                    plans@,
                )
            },
            Err(error) => {
                ||| timestamps@.len() > 0 && error@ == crate::errors::ErrorView::InvalidFormat(
                    "too many thumbnail timestamps"@,
                )
                ||| exists|plans: Seq<FramePlan>| #[trigger]
                    refuses_first(
                        timeline@,
                        crate::mp4::thumbnails::vec_view(tables.sync_samples),
                        tables.sizes.sample_count,
                        track.timescale,
                        timestamps@,
                        keyframes,
                        plans,
                        error@,
                    )
            },
        },
{
    let ghost sync_samples = crate::mp4::thumbnails::vec_view(tables.sync_samples);
    let ghost count = tables.sizes.sample_count;
    let mut plans: Vec<FramePlan> = Vec::new();
    if !try_reserve_exact(&mut plans, timestamps.len()) {
        return Err(invalid_format("too many thumbnail timestamps"));
    }
    let mut position: usize = 0;
    while position < timestamps.len()
        invariant
            position <= timestamps@.len(),
            plans@.len() == position,
            sync_samples == crate::mp4::thumbnails::vec_view(tables.sync_samples),
            count == tables.sizes.sample_count,
            tables.sync_samples matches Some(samples) ==> crate::mp4::samples::ascending(samples@),
            are_planned(
                timeline@,
                sync_samples,
                count,
                track.timescale,
                timestamps@,
                keyframes,
                plans@,
            ),
        decreases timestamps@.len() - position,
    {
        let shown = match plan_frame(track, tables, timeline, timestamps[position]) {
            Ok(plan) => plan,
            Err(error) => {
                assert(refuses_first(
                    timeline@,
                    sync_samples,
                    count,
                    track.timescale,
                    timestamps@,
                    keyframes,
                    plans@,
                    error@,
                ));
                return Err(error);
            },
        };
        if keyframes {
            match keyframe_plan(&shown, timeline) {
                Ok(plan) => {
                    plans.push(plan);
                },
                Err(error) => {
                    return Err(error);
                },
            }
        } else {
            plans.push(shown);
        }
        position += 1;
    }
    Ok(plans)
}

// ---------------------------------------------------------------------------
// The groups
// ---------------------------------------------------------------------------

/// The thumbnails that are decoded from one group of pictures.
#[derive(Debug, PartialEq, Eq)]
pub struct GroupPlan {
    /// The first sample to decode.
    pub sync_sample: u32,
    /// The last sample to decode.
    pub end_sample: u32,
    /// The places of the thumbnails in the request.
    pub frames: Vec<usize>,
    /// The place of each of them among the decoded pictures.
    pub output_indices: Vec<usize>,
}

/// A group by what it holds.
pub struct GroupView {
    pub sync_sample: u32,
    pub end_sample: u32,
    pub frames: Seq<usize>,
    pub output_indices: Seq<usize>,
}

impl View for GroupPlan {
    type V = GroupView;

    open spec fn view(&self) -> GroupView {
        GroupView {
            sync_sample: self.sync_sample,
            end_sample: self.end_sample,
            frames: self.frames@,
            output_indices: self.output_indices@,
        }
    }
}

pub open spec fn group_views(groups: Seq<GroupPlan>) -> Seq<GroupView> {
    Seq::new(groups.len(), |i: int| groups[i]@)
}

/// The sync samples that the first `k` plans start at, in the order in which
/// they first occur.
pub open spec fn syncs_of(plans: Seq<FramePlan>, k: int) -> Seq<u32>
    decreases k,
{
    if k <= 0 {
        seq![]
    } else {
        let before = syncs_of(plans, k - 1);
        if before.contains(plans[k - 1].sync_sample) {
            before
        } else {
            before.push(plans[k - 1].sync_sample)
        }
    }
}

/// What the first `k` plans want of the group of a sync sample: those of them
/// that start at it, decoded up to the last sample that any of them needs.
pub open spec fn group_of(plans: Seq<FramePlan>, sync_sample: u32, k: int) -> GroupView
    decreases k,
{
    if k <= 0 {
        GroupView { sync_sample, end_sample: 0, frames: seq![], output_indices: seq![] }
    } else {
        let before = group_of(plans, sync_sample, k - 1);
        let plan = plans[k - 1];
        if plan.sync_sample != sync_sample {
            before
        } else {
            GroupView {
                sync_sample,
                end_sample: if before.end_sample < plan.end_sample {
                    plan.end_sample
                } else {
                    before.end_sample
                },
                frames: before.frames.push((k - 1) as usize),
                output_indices: before.output_indices.push(plan.output_index),
            }
        }
    }
}

/// The groups of the first `k` plans.
pub open spec fn groups_of(plans: Seq<FramePlan>, k: int) -> Seq<GroupView> {
    Seq::new(syncs_of(plans, k).len(), |i: int| group_of(plans, syncs_of(plans, k)[i], k))
}

/// Each sync sample occurs once, and just those of the plans occur.
proof fn lemma_syncs(plans: Seq<FramePlan>, k: int)
    requires
        0 <= k <= plans.len(),
    ensures
        syncs_of(plans, k).no_duplicates(),
        forall|i: int|
            0 <= i < k ==> syncs_of(plans, k).contains((#[trigger] plans[i]).sync_sample),
        forall|i: int|
            0 <= i < syncs_of(plans, k).len() ==> exists|j: int|
                0 <= j < k && (#[trigger] plans[j]).sync_sample == #[trigger] syncs_of(plans, k)[i],
    decreases k,
{
    if k > 0 {
        lemma_syncs(plans, k - 1);
        let before = syncs_of(plans, k - 1);
        let after = syncs_of(plans, k);
        assert forall|i: int| 0 <= i < k implies after.contains(
            (#[trigger] plans[i]).sync_sample,
        ) by {
            if before.contains(plans[i].sync_sample) {
                let at = before.index_of(plans[i].sync_sample);
                assert(after[at] == plans[i].sync_sample);
            } else {
                assert(i == k - 1);
                assert(after[after.len() - 1] == plans[i].sync_sample);
            }
        }
        assert forall|i: int| 0 <= i < after.len() implies exists|j: int|
            0 <= j < k && (#[trigger] plans[j]).sync_sample == #[trigger] after[i] by {
            if i < before.len() {
                assert(after[i] == before[i]);
                let j = choose|j: int|
                    0 <= j < k - 1 && (#[trigger] plans[j]).sync_sample == before[i];
                assert(plans[j].sync_sample == after[i]);
            } else {
                assert(plans[k - 1].sync_sample == after[i]);
            }
        }
    }
}

/// A group holds the places of just the plans that start at its sync sample, in
/// order, and is decoded far enough for each of them.
pub proof fn lemma_group_holds_its_plans(plans: Seq<FramePlan>, sync_sample: u32, k: int)
    requires
        0 <= k <= plans.len(),
        k <= usize::MAX,
    ensures
        ({
            let group = group_of(plans, sync_sample, k);
            &&& group.sync_sample == sync_sample
            &&& group.frames.len() == group.output_indices.len()
            &&& forall|j: int|
                0 <= j < group.frames.len() ==> {
                    let place = #[trigger] group.frames[j];
                    &&& place < k
                    &&& plans[place as int].sync_sample == sync_sample
                    &&& plans[place as int].output_index == group.output_indices[j]
                    &&& plans[place as int].end_sample <= group.end_sample
                }
            &&& forall|i: int, j: int|
                0 <= i < j < group.frames.len() ==> #[trigger] group.frames[i]
                    < #[trigger] group.frames[j]
            &&& forall|i: int|
                0 <= i < k && (#[trigger] plans[i]).sync_sample == sync_sample
                    ==> group.frames.contains(i as usize)
            &&& group.frames.len() > 0 ==> exists|i: int|
                0 <= i < k && (#[trigger] plans[i]).sync_sample == sync_sample
                    && plans[i].end_sample == group.end_sample
        }),
    decreases k,
{
    if k > 0 {
        lemma_group_holds_its_plans(plans, sync_sample, k - 1);
        let before = group_of(plans, sync_sample, k - 1);
        let group = group_of(plans, sync_sample, k);
        if plans[k - 1].sync_sample == sync_sample {
            assert forall|i: int|
                0 <= i < k && (#[trigger] plans[i]).sync_sample == sync_sample implies
                group.frames.contains(i as usize) by {
                if i < k - 1 {
                    let at = before.frames.index_of(i as usize);
                    assert(group.frames[at] == i as usize);
                } else {
                    assert(group.frames[group.frames.len() - 1] == i as usize);
                }
            }
            if before.end_sample < plans[k - 1].end_sample || before.frames.len() == 0 {
                if before.frames.len() == 0 {
                    lemma_empty_group(plans, sync_sample, k - 1);
                }
                assert(plans[k - 1].end_sample == group.end_sample);
            } else {
                let i = choose|i: int|
                    0 <= i < k - 1 && (#[trigger] plans[i]).sync_sample == sync_sample
                        && plans[i].end_sample == before.end_sample;
                assert(plans[i].end_sample == group.end_sample);
            }
        }
    }
}

/// A group without plans has no end.
proof fn lemma_empty_group(plans: Seq<FramePlan>, sync_sample: u32, k: int)
    requires
        0 <= k <= plans.len(),
        group_of(plans, sync_sample, k).frames.len() == 0,
    ensures
        group_of(plans, sync_sample, k) == (GroupView {
            sync_sample,
            end_sample: 0,
            frames: seq![],
            output_indices: seq![],
        }),
    decreases k,
{
    if k > 0 {
        lemma_empty_group(plans, sync_sample, k - 1);
    }
}

/// A plan adds to the group of its sync sample and leaves the others as they
/// are.
proof fn lemma_next_plan(plans: Seq<FramePlan>, k: int)
    requires
        0 <= k < plans.len() <= usize::MAX,
    ensures
        ({
            let sync_sample = plans[k].sync_sample;
            let before = groups_of(plans, k);
            let after = groups_of(plans, k + 1);
            let added = group_of(plans, sync_sample, k + 1);
            &&& syncs_of(plans, k).contains(sync_sample) ==> exists|i: int|
                0 <= i < before.len() && (#[trigger] before[i]).sync_sample == sync_sample
            &&& forall|i: int|
                0 <= i < before.len() && (#[trigger] before[i]).sync_sample == sync_sample ==> {
                    &&& before[i] == group_of(plans, sync_sample, k)
                    &&& after == before.update(i, added)
                }
            &&& !syncs_of(plans, k).contains(sync_sample) ==> {
                &&& after == before.push(added)
                &&& group_of(plans, sync_sample, k) == (GroupView {
                    sync_sample,
                    end_sample: 0,
                    frames: seq![],
                    output_indices: seq![],
                })
            }
        }),
{
    let sync_sample = plans[k].sync_sample;
    let syncs = syncs_of(plans, k);
    let before = groups_of(plans, k);
    let after = groups_of(plans, k + 1);
    let added = group_of(plans, sync_sample, k + 1);
    lemma_syncs(plans, k);
    assert forall|i: int| 0 <= i < before.len() implies (#[trigger] before[i]).sync_sample
        == syncs[i] by {
        lemma_group_holds_its_plans(plans, syncs[i], k);
    }
    if syncs.contains(sync_sample) {
        let at = syncs.index_of(sync_sample);
        assert(before[at].sync_sample == sync_sample);
    } else {
        lemma_group_holds_its_plans(plans, sync_sample, k);
        let group = group_of(plans, sync_sample, k);
        if group.frames.len() > 0 {
            let place = group.frames[0] as int;
            assert(syncs.contains(plans[place].sync_sample));
        }
        lemma_empty_group(plans, sync_sample, k);
        assert(after =~= before.push(added));
    }
    assert forall|i: int|
        0 <= i < before.len() && (#[trigger] before[i]).sync_sample == sync_sample implies before[i]
        == group_of(plans, sync_sample, k) && after == before.update(i, added) by {
        assert(syncs[i] == sync_sample);
        assert(syncs.contains(sync_sample));
        assert(after =~= before.update(i, added));
    }
}

/// Gathers plans by the group of pictures that they are decoded from.
pub fn group_frames(plans: &[FramePlan]) -> (result: Vec<GroupPlan>)
    ensures
        group_views(result@) == groups_of(plans@, plans@.len() as int),
{
    let mut groups: Vec<GroupPlan> = Vec::new();
    let mut place: usize = 0;
    assert(group_views(groups@) =~= groups_of(plans@, 0));
    while place < plans.len()
        invariant
            place <= plans@.len(),
            group_views(groups@) == groups_of(plans@, place as int),
        decreases plans@.len() - place,
    {
        let plan = plans[place];
        let ghost views = group_views(groups@);
        proof {
            lemma_next_plan(plans@, place as int);
        }
        let mut index: usize = 0;
        while index < groups.len() && groups[index].sync_sample != plan.sync_sample
            invariant
                index <= groups@.len(),
                views == group_views(groups@),
                forall|i: int|
                    0 <= i < index ==> (#[trigger] views[i]).sync_sample != plan.sync_sample,
            decreases groups@.len() - index,
        {
            assert(views[index as int].sync_sample != plan.sync_sample);
            index += 1;
        }
        if index < groups.len() {
            assert(views[index as int].sync_sample == plan.sync_sample);
            let group = &mut groups[index];
            if group.end_sample < plan.end_sample {
                group.end_sample = plan.end_sample;
            }
            group.frames.push(place);
            group.output_indices.push(plan.output_index);
            assert(group_views(groups@) =~= views.update(
                index as int,
                group_of(plans@, plan.sync_sample, place + 1),
            ));
        } else {
            let mut frames: Vec<usize> = Vec::new();
            frames.push(place);
            let mut output_indices: Vec<usize> = Vec::new();
            output_indices.push(plan.output_index);
            groups.push(
                GroupPlan {
                    sync_sample: plan.sync_sample,
                    end_sample: plan.end_sample,
                    frames,
                    output_indices,
                },
            );
            assert(group_views(groups@) =~= views.push(
                group_of(plans@, plan.sync_sample, place + 1),
            ));
        }
        place += 1;
    }
    groups
}

// ---------------------------------------------------------------------------
// The samples
// ---------------------------------------------------------------------------

/// The samples of the first `k` groups, group by group.
pub open spec fn samples_of(groups: Seq<GroupView>, k: int) -> Seq<u32>
    decreases k,
{
    if k <= 0 {
        seq![]
    } else {
        samples_of(groups, k - 1) + range_of(
            groups[k - 1].sync_sample,
            groups[k - 1].end_sample + 1,
        )
    }
}

/// The samples from `start` up to `end`, half-open.
pub open spec fn range_of(start: u32, end: int) -> Seq<u32> {
    Seq::new(
        if start < end {
            (end - start) as nat
        } else {
            0
        },
        |i: int| (start + i) as u32,
    )
}

proof fn lemma_samples_of_monotone(groups: Seq<GroupView>, i: int, k: int)
    requires
        0 <= i <= k,
    ensures
        samples_of(groups, i).len() <= samples_of(groups, k).len(),
    decreases k,
{
    if i < k {
        lemma_samples_of_monotone(groups, i, k - 1);
    }
}

/// The samples to read for some groups.
pub fn wanted_samples(groups: &[GroupPlan]) -> (result: Result<Vec<u32>, MediaParserError>)
    ensures
        ({
            let samples = samples_of(group_views(groups@), groups@.len() as int);
            if samples.len() <= MAX_SAMPLES_PER_THUMBNAIL_BATCH {
                result matches Ok(wanted) && wanted@ == samples
            } else {
                result matches Err(error) && error@ == crate::errors::ErrorView::InvalidFormat(
                    "too many thumbnail samples"@,
                )
            }
        }),
{
    let ghost views = group_views(groups@);
    let mut samples: Vec<u32> = Vec::new();
    let mut index: usize = 0;
    while index < groups.len()
        invariant
            index <= groups@.len(),
            views == group_views(groups@),
            samples@ == samples_of(views, index as int),
            samples@.len() <= MAX_SAMPLES_PER_THUMBNAIL_BATCH,
        decreases groups@.len() - index,
    {
        let start: u32 = groups[index].sync_sample;
        let end: u32 = groups[index].end_sample;
        let ghost before = samples@;
        assert(views[index as int].sync_sample == start && views[index as int].end_sample == end);
        let mut sample: u64 = start as u64;
        while sample <= end as u64
            invariant
                index < groups@.len(),
                views == group_views(groups@),
                before == samples_of(views, index as int),
                views[index as int].sync_sample == start,
                views[index as int].end_sample == end,
                start <= sample,
                sample <= end + 1 || sample == start,
                samples@ == before + range_of(start, sample as int),
                samples@.len() <= MAX_SAMPLES_PER_THUMBNAIL_BATCH,
            decreases end + 1 - sample,
        {
            if samples.len() == MAX_SAMPLES_PER_THUMBNAIL_BATCH {
                proof {
                    lemma_samples_of_monotone(views, index + 1, groups@.len() as int);
                }
                return Err(invalid_format("too many thumbnail samples"));
            }
            samples.push(sample as u32);
            sample += 1;
            assert(samples@ =~= before + range_of(start, sample as int));
        }
        assert(range_of(start, sample as int) =~= range_of(start, end + 1));
        index += 1;
    }
    Ok(samples)
}

/// Groups of different sync samples have no sample in common: the one is decoded
/// to a sample before the other starts.
pub proof fn lemma_groups_are_apart(
    ticks: Seq<i128>,
    sync_samples: Option<Seq<u32>>,
    sample_count: u32,
    earlier_target: u64,
    earlier: FramePlan,
    later_target: u64,
    later: FramePlan,
)
    requires
        crate::mp4::thumbnails::frame_planned(
            ticks,
            sync_samples,
            sample_count,
            earlier_target,
            earlier,
        ),
        crate::mp4::thumbnails::frame_planned(
            ticks,
            sync_samples,
            sample_count,
            later_target,
            later,
        ),
        earlier.sync_sample < later.sync_sample <= sample_count,
    ensures
        earlier.end_sample < later.sync_sample,
{
}

/// In a group that several thumbnails share, each of them keeps the place among
/// the decoded pictures that it has by itself, and that place is decoded.
pub proof fn lemma_shared_group_keeps_places(
    ticks: Seq<i128>,
    sync_samples: Option<Seq<u32>>,
    sample_count: u32,
    targets: Seq<u64>,
    plans: Seq<FramePlan>,
    place: int,
)
    requires
        plans.len() == targets.len(),
        plans.len() <= usize::MAX,
        forall|i: int|
            0 <= i < plans.len() ==> crate::mp4::thumbnails::frame_planned(
                ticks,
                sync_samples,
                sample_count,
                targets[i],
                #[trigger] plans[i],
            ),
        0 <= place < plans.len(),
    ensures
        ({
            let plan = plans[place];
            let group = group_of(plans, plan.sync_sample, plans.len() as int);
            &&& plan.end_sample <= group.end_sample
            &&& plan.output_index == crate::mp4::thumbnails::presented_before(
                ticks,
                plan.sync_sample as int,
                group.end_sample + 1,
                plan.selection.sample_index,
            )
            &&& plan.output_index < group.end_sample + 1 - plan.sync_sample
        }),
{
    let plan = plans[place];
    let sync_sample = plan.sync_sample;
    let chosen = plan.selection.sample_index;
    lemma_group_holds_its_plans(plans, sync_sample, plans.len() as int);
    let group = group_of(plans, sync_sample, plans.len() as int);
    let at = group.frames.index_of(place as usize);
    assert(group.frames[at] == place as usize);
    let last = choose|i: int|
        0 <= i < plans.len() && (#[trigger] plans[i]).sync_sample == sync_sample
            && plans[i].end_sample == group.end_sample;
    let group_end = choose|group_end: u32|
        group_end <= ticks.len() && #[trigger] crate::mp4::thumbnails::is_group_end(
            sync_sample,
            sync_samples,
            sample_count,
            group_end,
        ) && crate::mp4::thumbnails::is_last_needed(
            ticks,
            sync_sample,
            group_end,
            chosen,
            plan.end_sample,
        );
    let last_end = choose|group_end: u32|
        group_end <= ticks.len() && #[trigger] crate::mp4::thumbnails::is_group_end(
            sync_sample,
            sync_samples,
            sample_count,
            group_end,
        ) && crate::mp4::thumbnails::is_last_needed(
            ticks,
            sync_sample,
            group_end,
            plans[last].selection.sample_index,
            plans[last].end_sample,
        );
    lemma_one_group_end(sync_sample, sync_samples, sample_count, group_end, last_end);
    crate::mp4::thumbnails::lemma_later_samples_keep_the_place(
        ticks,
        sync_sample,
        group_end,
        chosen,
        plan.end_sample,
        group.end_sample,
    );
    crate::mp4::thumbnails::lemma_place_is_inside(
        ticks,
        sync_sample,
        group.end_sample + 1,
        chosen,
    );
}

/// A group ends in one place.
proof fn lemma_one_group_end(
    sync_sample: u32,
    sync_samples: Option<Seq<u32>>,
    sample_count: u32,
    a: u32,
    b: u32,
)
    requires
        crate::mp4::thumbnails::is_group_end(sync_sample, sync_samples, sample_count, a),
        crate::mp4::thumbnails::is_group_end(sync_sample, sync_samples, sample_count, b),
    ensures
        a == b,
{
}

// ---------------------------------------------------------------------------
// The frames
// ---------------------------------------------------------------------------

/// Whether there is one image for each thumbnail of each group.
pub open spec fn images_fit(groups: Seq<GroupPlan>, images: Seq<Vec<DecodedImage>>) -> bool {
    &&& images.len() == groups.len()
    &&& forall|g: int|
        0 <= g < groups.len() ==> (#[trigger] images[g])@.len() == groups[g].frames@.len()
}

/// Whether the first `j` images of a group stand at the places of their
/// thumbnails.
pub open spec fn group_placed(
    frames: Seq<Option<Frame>>,
    track_id: u32,
    timescale: u32,
    plans: Seq<FramePlan>,
    group: GroupPlan,
    images: Seq<DecodedImage>,
    j: int,
) -> bool {
    forall|i: int|
        0 <= i < j ==> {
            let place = #[trigger] group.frames@[i] as int;
            frames[place] matches Some(frame) && crate::mp4::thumbnails::is_frame_of(
                frame,
                track_id,
                timescale,
                plans[place],
                images[i],
            )
        }
}

/// Puts the images of the groups in the order of the request, each with the time
/// that it is shown at.
pub fn place_frames(
    track: &VideoTrack,
    plans: &[FramePlan],
    groups: &[GroupPlan],
    images: Vec<Vec<DecodedImage>>,
) -> (result: Vec<Frame>)
    requires
        group_views(groups@) == groups_of(plans@, plans@.len() as int),
        images_fit(groups@, images@),
    ensures
        result@.len() == plans@.len(),
        forall|g: int, j: int|
            #![trigger groups@[g].frames@[j]]
            0 <= g < groups@.len() && 0 <= j < groups@[g].frames@.len() ==> {
                let place = groups@[g].frames@[j] as int;
                &&& 0 <= place < result@.len()
                &&& crate::mp4::thumbnails::is_frame_of(
                    result@[place],
                    track.id,
                    track.timescale,
                    plans@[place],
                    images@[g]@[j],
                )
            },
{
    let ghost all = images@;
    let count: usize = plans.len();
    proof {
        lemma_groups_partition(plans@, groups@);
    }
    let mut placed: Vec<Option<Frame>> = Vec::new();
    while placed.len() < count
        invariant
            placed@.len() <= count,
        decreases count - placed@.len(),
    {
        placed.push(None);
    }
    let mut index: usize = 0;
    for group_images in iter: images
        invariant
            iter.seq() == all,
            index == iter.index(),
            placed@.len() == plans@.len(),
            images_fit(groups@, all),
            are_parts(plans@, groups@),
            forall|g: int|
                0 <= g < index ==> group_placed(
                    placed@,
                    track.id,
                    track.timescale,
                    plans@,
                    #[trigger] groups@[g],
                    all[g]@,
                    groups@[g].frames@.len() as int,
                ),
    {
        let ghost current = index as int;
        assert(all[current] == group_images);
        let ghost wanted = group_images@;
        let members: &Vec<usize> = &groups[index].frames;
        let members_len: usize = members.len();
        let mut position: usize = 0;
        for image in inner: group_images
            invariant
                inner.seq() == wanted,
                position == inner.index(),
                current == index,
                0 <= current < groups@.len(),
                wanted == all[current]@,
                wanted.len() == members@.len() == members_len,
                *members == groups@[current].frames,
                placed@.len() == plans@.len(),
                are_parts(plans@, groups@),
                group_placed(
                    placed@,
                    track.id,
                    track.timescale,
                    plans@,
                    groups@[current],
                    wanted,
                    position as int,
                ),
                forall|g: int|
                    0 <= g < current ==> group_placed(
                        placed@,
                        track.id,
                        track.timescale,
                        plans@,
                        #[trigger] groups@[g],
                        all[g]@,
                        groups@[g].frames@.len() as int,
                    ),
        {
            let ghost before = placed@;
            let place: usize = members[position];
            placed[place] = Some(finish_frame(track, &plans[place], image));
            proof {
                let own = members@;
                assert forall|i: int| 0 <= i < position implies placed@[#[trigger] own[i] as int]
                    == before[own[i] as int] by {
                    assert(own[i] < own[position as int]);
                }
                assert forall|g: int| 0 <= g < current implies group_placed(
                    placed@,
                    track.id,
                    track.timescale,
                    plans@,
                    #[trigger] groups@[g],
                    all[g]@,
                    groups@[g].frames@.len() as int,
                ) by {
                    let other = groups@[g].frames@;
                    assert(group_placed(
                        before,
                        track.id,
                        track.timescale,
                        plans@,
                        groups@[g],
                        all[g]@,
                        other.len() as int,
                    ));
                    assert forall|i: int|
                        0 <= i < other.len() implies placed@[#[trigger] other[i] as int]
                        == before[other[i] as int] by {
                        assert(plans@[other[i] as int].sync_sample == groups@[g].sync_sample);
                        assert(plans@[own[position as int] as int].sync_sample
                            == groups@[current].sync_sample);
                    }
                }
            }
            position += 1;
        }
        index += 1;
    }
    proof {
        assert forall|place: int| 0 <= place < count implies #[trigger] placed@[place] is Some by {
            assert(in_some_group(groups@, place as usize));
            let g = choose|g: int|
                0 <= g < groups@.len() && (#[trigger] groups@[g]).frames@.contains(place as usize);
            let i = groups@[g].frames@.index_of(place as usize);
            assert(groups@[g].frames@[i] == place as usize);
            assert(group_placed(
                placed@,
                track.id,
                track.timescale,
                plans@,
                groups@[g],
                all[g]@,
                groups@[g].frames@.len() as int,
            ));
        }
    }
    let ghost complete = placed@;
    let mut frames: Vec<Frame> = Vec::new();
    for frame in iter: placed
        invariant
            iter.seq() == complete,
            frames@.len() == iter.index(),
            forall|i: int| 0 <= i < complete.len() ==> #[trigger] complete[i] is Some,
            forall|i: int| 0 <= i < frames@.len() ==> complete[i] == Some(#[trigger] frames@[i]),
    {
        assert(complete[frames@.len() as int] is Some);
        if let Some(frame) = frame {
            frames.push(frame);
        }
    }
    proof {
        assert forall|g: int, j: int|
            #![trigger groups@[g].frames@[j]]
            0 <= g < groups@.len() && 0 <= j < groups@[g].frames@.len() implies {
            let place = groups@[g].frames@[j] as int;
            &&& 0 <= place < frames@.len()
            &&& crate::mp4::thumbnails::is_frame_of(
                frames@[place],
                track.id,
                track.timescale,
                plans@[place],
                all[g]@[j],
            )
        } by {
            let place = groups@[g].frames@[j] as int;
            assert(group_placed(
                complete,
                track.id,
                track.timescale,
                plans@,
                groups@[g],
                all[g]@,
                groups@[g].frames@.len() as int,
            ));
            assert(complete[place] == Some(frames@[place]));
        }
    }
    frames
}

/// Whether every plan has its place in just one of some groups, that of its sync
/// sample.
pub open spec fn are_parts(plans: Seq<FramePlan>, groups: Seq<GroupPlan>) -> bool {
    &&& forall|g: int, j: int|
        #![trigger groups[g].frames@[j]]
        0 <= g < groups.len() && 0 <= j < groups[g].frames@.len() ==> {
            let place = groups[g].frames@[j] as int;
            &&& 0 <= place < plans.len()
            &&& plans[place].sync_sample == groups[g].sync_sample
        }
    &&& forall|g: int, i: int, j: int|
        #![trigger groups[g].frames@[i], groups[g].frames@[j]]
        0 <= g < groups.len() && 0 <= i < j < groups[g].frames@.len() ==> groups[g].frames@[i]
            < groups[g].frames@[j]
    &&& forall|g: int, h: int|
        0 <= g < h < groups.len() ==> (#[trigger] groups[g]).sync_sample != (
        #[trigger] groups[h]).sync_sample
    &&& forall|place: usize| place < plans.len() ==> #[trigger] in_some_group(groups, place)
}

/// Whether a thumbnail is decoded from one of some groups.
pub open spec fn in_some_group(groups: Seq<GroupPlan>, place: usize) -> bool {
    exists|g: int| 0 <= g < groups.len() && (#[trigger] groups[g]).frames@.contains(place)
}

/// Every thumbnail of a request is decoded from just one group, and no two groups
/// start at the same sync sample.
pub proof fn lemma_groups_partition(plans: Seq<FramePlan>, groups: Seq<GroupPlan>)
    requires
        plans.len() <= usize::MAX,
        group_views(groups) == groups_of(plans, plans.len() as int),
    ensures
        are_parts(plans, groups),
{
    let count = plans.len() as int;
    let syncs = syncs_of(plans, count);
    lemma_syncs(plans, count);
    assert(groups.len() == group_views(groups).len() == syncs.len());
    assert forall|g: int| 0 <= g < groups.len() implies (#[trigger] groups[g])@ == group_of(
        plans,
        syncs[g],
        count,
    ) && groups[g].sync_sample == syncs[g] by {
        assert(group_views(groups)[g] == groups[g]@);
        lemma_group_holds_its_plans(plans, syncs[g], count);
    }
    assert forall|g: int, j: int|
        #![trigger groups[g].frames@[j]]
        0 <= g < groups.len() && 0 <= j < groups[g].frames@.len() implies {
        let place = groups[g].frames@[j] as int;
        &&& 0 <= place < plans.len()
        &&& plans[place].sync_sample == groups[g].sync_sample
    } by {
        lemma_group_holds_its_plans(plans, syncs[g], count);
        assert(groups[g]@ == group_of(plans, syncs[g], count));
    }
    assert forall|g: int, i: int, j: int|
        #![trigger groups[g].frames@[i], groups[g].frames@[j]]
        0 <= g < groups.len() && 0 <= i < j < groups[g].frames@.len() implies groups[g].frames@[i]
        < groups[g].frames@[j] by {
        lemma_group_holds_its_plans(plans, syncs[g], count);
        assert(groups[g]@ == group_of(plans, syncs[g], count));
    }
    assert forall|place: usize| place < plans.len() implies #[trigger] in_some_group(
        groups,
        place,
    ) by {
        let g = syncs.index_of(plans[place as int].sync_sample);
        lemma_group_holds_its_plans(plans, syncs[g], count);
        assert(groups[g]@ == group_of(plans, syncs[g], count));
        assert(groups[g].frames@.contains(place));
    }
}

/// The thumbnail in each place is for the timestamp in the same place: no sample
/// that is presented by then comes after the one that is shown, and this is not
/// later than that either. A keyframe is the one that such a thumbnail is decoded
/// from.
pub proof fn lemma_plans_are_for_their_timestamps(
    ticks: Seq<i128>,
    sync_samples: Option<Seq<u32>>,
    sample_count: u32,
    timescale: u32,
    timestamps: Seq<Duration>,
    keyframes: bool,
    plans: Seq<FramePlan>,
    i: int,
    sample: u32,
) -> (shown: FramePlan)
    requires
        are_planned(ticks, sync_samples, sample_count, timescale, timestamps, keyframes, plans),
        ticks.len() <= u32::MAX,
        0 <= i < plans.len(),
        timestamps[i]@ >= 0,
        1 <= sample <= ticks.len(),
        0 <= ticks[sample - 1] <= u64::MAX,
        ticks[sample - 1] * 1_000_000_000 <= timestamps[i]@ * timescale,
    ensures
        plans.len() <= timestamps.len(),
        shown.selection.presentation_tick == ticks[shown.selection.sample_index - 1],
        shown.selection.presentation_tick * 1_000_000_000 <= timestamps[i]@ * timescale,
        ticks[sample - 1] <= shown.selection.presentation_tick,
        plans[i].sync_sample == shown.sync_sample,
        shown.sync_sample <= shown.selection.sample_index <= shown.end_sample,
        !keyframes ==> plans[i] == shown,
        keyframes ==> plans[i].selection.sample_index == shown.sync_sample && plans[i].end_sample
            == shown.sync_sample,
{
    let target = target_tick(timestamps[i], timescale);
    crate::mp4::thumbnails::lemma_target_is_the_last_tick(timestamps[i], timescale);
    assert(is_planned(ticks, sync_samples, sample_count, target, keyframes, plans[i]));
    assert(crate::mp4::timing::presented(ticks, sample));
    assert(ticks[sample - 1] <= target);
    if keyframes {
        choose|shown: FramePlan| #[trigger]
            crate::mp4::thumbnails::frame_planned(ticks, sync_samples, sample_count, target, shown)
                && plans[i] == crate::mp4::thumbnails::keyframe_of(shown, ticks)
    } else {
        plans[i]
    }
}

/// The samples of some groups are those from the sync sample of one of them to its
/// last sample, and no others.
pub proof fn lemma_samples_are_those_of_the_groups(groups: Seq<GroupView>, k: int, n: u32)
    requires
        0 <= k <= groups.len(),
    ensures
        samples_of(groups, k).contains(n) <==> exists|g: int|
            0 <= g < k && (#[trigger] groups[g]).sync_sample <= n <= groups[g].end_sample,
    decreases k,
{
    if k > 0 {
        let group = groups[k - 1];
        let before = samples_of(groups, k - 1);
        let range = range_of(group.sync_sample, group.end_sample + 1);
        lemma_samples_are_those_of_the_groups(groups, k - 1, n);
        lemma_range_lists_its_samples(group.sync_sample, group.end_sample + 1, n);
        assert(samples_of(groups, k) == before + range);
        if before.contains(n) {
            assert((before + range)[before.index_of(n)] == n);
        }
        if range.contains(n) {
            assert((before + range)[before.len() + range.index_of(n)] == n);
        }
        if (before + range).contains(n) {
            let at = (before + range).index_of(n);
            if at < before.len() {
                assert(before[at] == n);
            } else {
                assert(range[at - before.len()] == n);
            }
        }
    }
}

proof fn lemma_range_lists_its_samples(start: u32, end: int, n: u32)
    requires
        end <= u32::MAX + 1,
    ensures
        range_of(start, end).contains(n) <==> start <= n < end,
{
    if start <= n < end {
        assert(range_of(start, end)[n - start] == n);
    }
}

} // verus!
