//! MP4 sample timing and presentation-order calculations.

use vstd::prelude::*;

use crate::bytes::read_u32_be;
use crate::mp4::samples::table_entries;
use crate::time::Duration;

verus! {

/// A run of samples that are presented `sample_offset` ticks behind their
/// decode time.
#[derive(Debug, Clone, Copy, PartialEq, Eq, Structural)]
pub struct CompositionOffset {
    pub sample_count: u32,
    pub sample_offset: i64,
}

/// A sample with the tick at which it is presented.
#[derive(Debug, Clone, Copy, PartialEq, Eq, Structural)]
pub struct SampleSelection {
    pub sample_index: u32,
    pub presentation_tick: u64,
}

/// The most bytes that a presentation timeline may take up.
pub const MAX_PRESENTATION_TIMELINE_BYTES: usize = 134_217_728;

/// The bytes that a presentation timeline takes up for each sample: a 128-bit
/// tick and a 32-bit index.
pub const PRESENTATION_TIMELINE_BYTES_PER_SAMPLE: usize = 20;

// ---------------------------------------------------------------------------
// Run-length tables
// ---------------------------------------------------------------------------

/// The number of samples that `runs`, each a count and a value, describe.
pub open spec fn run_total(runs: Seq<(u32, int)>) -> int
    decreases runs.len(),
{
    if runs.len() == 0 {
        0
    } else {
        run_total(runs.drop_last()) + runs.last().0
    }
}

/// The value of each sample, in order.
pub open spec fn expanded(runs: Seq<(u32, int)>) -> Seq<int>
    decreases runs.len(),
{
    if runs.len() == 0 {
        Seq::empty()
    } else {
        expanded(runs.drop_last()) + Seq::new(runs.last().0 as nat, |i: int| runs.last().1)
    }
}

/// The sum of the first `n` of `values`.
pub open spec fn sum_of_first(values: Seq<int>, n: int) -> int
    decreases n,
{
    if n <= 0 {
        0
    } else {
        sum_of_first(values, n - 1) + values[n - 1]
    }
}

pub(crate) proof fn lemma_expanded_len(runs: Seq<(u32, int)>)
    ensures
        expanded(runs).len() == run_total(runs),
    decreases runs.len(),
{
    if runs.len() > 0 {
        lemma_expanded_len(runs.drop_last());
    }
}

/// Counting more runs never gives fewer samples.
pub proof fn lemma_run_total_monotone(runs: Seq<(u32, int)>, i: int, j: int)
    requires
        0 <= i <= j <= runs.len(),
    ensures
        0 <= run_total(runs.take(i)) <= run_total(runs.take(j)),
    decreases j,
{
    if j > 0 {
        assert(runs.take(j).drop_last() =~= runs.take(j - 1));
        if i < j {
            lemma_run_total_monotone(runs, i, j - 1);
        } else {
            lemma_run_total_monotone(runs, j - 1, j - 1);
        }
    } else {
        assert(runs.take(0) =~= Seq::empty());
    }
}

/// Counting one run more gives as many samples more as the run holds.
pub proof fn lemma_run_total_step(runs: Seq<(u32, int)>, i: int)
    requires
        0 <= i < runs.len(),
    ensures
        run_total(runs.take(i + 1)) == run_total(runs.take(i)) + runs[i].0,
{
    assert(runs.take(i + 1).drop_last() =~= runs.take(i));
}

/// Where every run before `j` but the first `i` holds a sample, there are more
/// samples before `j` than before `i`.
proof fn lemma_run_total_strict(runs: Seq<(u32, int)>, i: int, j: int)
    requires
        0 <= i < j <= runs.len(),
        runs[i].0 > 0,
    ensures
        run_total(runs.take(i)) < run_total(runs.take(j)),
{
    lemma_run_total_step(runs, i);
    lemma_run_total_monotone(runs, i + 1, j);
}

/// The sample `k` of the run `i` has the value of that run.
pub(crate) proof fn lemma_expanded_at(runs: Seq<(u32, int)>, i: int, k: int)
    requires
        0 <= i < runs.len(),
        0 <= k < runs[i].0,
    ensures
        0 <= run_total(runs.take(i)) + k < expanded(runs).len(),
        expanded(runs)[run_total(runs.take(i)) + k] == runs[i].1,
    decreases runs.len(),
{
    let last = runs.len() - 1;
    lemma_run_total_monotone(runs, 0, i);
    lemma_expanded_len(runs.drop_last());
    assert(runs.take(last) =~= runs.drop_last());
    if i < last {
        lemma_expanded_at(runs.drop_last(), i, k);
        assert(runs.drop_last().take(i) =~= runs.take(i));
    }
}

/// Over samples of one value the sum grows by that value each.
pub(crate) proof fn lemma_sum_of_run(values: Seq<int>, p: int, count: int, value: int)
    requires
        0 <= p,
        0 <= count,
        p + count <= values.len(),
        forall|k: int| p <= k < p + count ==> values[k] == value,
    ensures
        sum_of_first(values, p + count) == sum_of_first(values, p) + count * value,
    decreases count,
{
    if count > 0 {
        lemma_sum_of_run(values, p, count - 1, value);
        assert((count - 1) * value + value == count * value) by (nonlinear_arith);
    } else {
        assert(0 * value == 0);
    }
}

pub(crate) proof fn lemma_sum_monotone(values: Seq<int>, i: int, j: int)
    requires
        0 <= i <= j <= values.len(),
        forall|k: int| 0 <= k < values.len() ==> values[k] >= 0,
    ensures
        0 <= sum_of_first(values, i) <= sum_of_first(values, j),
    decreases j,
{
    if j > 0 {
        if i < j {
            lemma_sum_monotone(values, i, j - 1);
        } else {
            lemma_sum_monotone(values, j - 1, j - 1);
        }
    }
}

pub(crate) proof fn lemma_expanded_nonnegative(runs: Seq<(u32, int)>)
    requires
        forall|i: int| 0 <= i < runs.len() ==> (#[trigger] runs[i]).1 >= 0,
    ensures
        forall|k: int| 0 <= k < expanded(runs).len() ==> expanded(runs)[k] >= 0,
    decreases runs.len(),
{
    if runs.len() > 0 {
        assert(runs[runs.len() - 1].1 >= 0);
        assert forall|i: int| 0 <= i < runs.drop_last().len() implies (
        #[trigger] runs.drop_last()[i]).1 >= 0 by {
            assert(runs[i].1 >= 0);
        }
        lemma_expanded_nonnegative(runs.drop_last());
        let before = expanded(runs.drop_last());
        assert forall|k: int| 0 <= k < expanded(runs).len() implies expanded(runs)[k] >= 0 by {
            if k < before.len() {
                assert(expanded(runs)[k] == before[k]);
            }
        }
    }
}

// ---------------------------------------------------------------------------
// stts and ctts
// ---------------------------------------------------------------------------

/// The runs of an `stts` payload: sample count and decode delta.
pub open spec fn stts_runs(stts: Seq<u8>) -> Seq<(u32, int)> {
    let count = crate::mp4::samples::table_len(stts, 8).unwrap();
    Seq::new(
        count as nat,
        |i: int|
            (
                crate::mp4::samples::field32(stts, 8, 8, i),
                crate::mp4::samples::field32(stts, 12, 8, i) as int,
            ),
    )
}

/// The runs of parsed composition offsets.
pub open spec fn ctts_runs(offsets: Seq<CompositionOffset>) -> Seq<(u32, int)> {
    Seq::new(
        offsets.len(),
        |i: int| (offsets[i].sample_count, offsets[i].sample_offset as int),
    )
}

/// The number that the two's complement `raw` stands for.
pub open spec fn as_signed(raw: u32) -> int {
    if raw < 0x8000_0000 {
        raw as int
    } else {
        raw - 0x1_0000_0000
    }
}

pub open spec fn ctts_entry_at(ctts: Seq<u8>, i: int) -> CompositionOffset {
    let raw = crate::mp4::samples::field32(ctts, 12, 8, i);
    CompositionOffset {
        sample_count: crate::mp4::samples::field32(ctts, 8, 8, i),
        sample_offset: (if ctts[0] == 0 { raw as int } else { as_signed(raw) }) as i64,
    }
}

/// The composition offsets of a `ctts` payload of version 0 (unsigned) or 1
/// (signed), if no entry is empty.
pub open spec fn ctts_table(ctts: Seq<u8>) -> Option<Seq<CompositionOffset>> {
    match crate::mp4::samples::table_len(ctts, 8) {
        Some(count) => {
            let entries = Seq::new(count as nat, |i: int| ctts_entry_at(ctts, i));
            if ctts[0] <= 1 && counts_positive(entries) {
                Some(entries)
            } else {
                None
            }
        },
        None => None,
    }
}

pub open spec fn counts_positive(entries: Seq<CompositionOffset>) -> bool {
    forall|i: int| 0 <= i < entries.len() ==> (#[trigger] entries[i]).sample_count > 0
}

/// Parses a `ctts` payload.
pub fn parse_ctts(ctts: &[u8]) -> (result: Option<Vec<CompositionOffset>>)
    ensures
        match result {
            Some(offsets) => ctts_table(ctts@) == Some(offsets@),
            None => ctts_table(ctts@) is None,
        },
{
    if ctts.len() == 0 || ctts[0] > 1 {
        return None;
    }
    let version: u8 = ctts[0];
    let count: usize = match table_entries(ctts, 8) {
        Some(count) => count,
        None => {
            return None;
        },
    };
    let ghost all = Seq::new(count as nat, |i: int| ctts_entry_at(ctts@, i));
    let mut offsets: Vec<CompositionOffset> = Vec::new();
    let mut index: usize = 0;
    while index < count
        invariant
            index <= count,
            8 + count * 8 <= ctts.len(),
            version == ctts@[0],
            all == Seq::new(count as nat, |i: int| ctts_entry_at(ctts@, i)),
            crate::mp4::samples::table_len(ctts@, 8) == Some(count as int),
            offsets@ == all.take(index as int),
            counts_positive(offsets@),
        decreases count - index,
    {
        let offset: usize = 8 + index * 8;
        let (sample_count, raw_offset) = match (
            read_u32_be(ctts, offset),
            read_u32_be(ctts, offset + 4),
        ) {
            (Some(sample_count), Some(raw_offset)) => (sample_count, raw_offset),
            _ => {
                return None;
            },
        };
        let sample_offset: i64 = if version == 0 || raw_offset < 0x8000_0000 {
            raw_offset as i64
        } else {
            raw_offset as i64 - 0x1_0000_0000
        };
        let entry = CompositionOffset { sample_count, sample_offset };
        assert(entry == all[index as int]);
        if sample_count == 0 {
            assert(all[index as int].sample_count == 0);
            return None;
        }
        offsets.push(entry);
        index += 1;
        assert(offsets@ =~= all.take(index as int));
    }
    assert(offsets@ =~= all);
    Some(offsets)
}

/// The number of samples that an `stts` payload describes, if it can be counted.
pub open spec fn stts_count(stts: Seq<u8>) -> Option<int> {
    if crate::mp4::samples::table_len(stts, 8) is Some && run_total(stts_runs(stts)) <= u32::MAX {
        Some(run_total(stts_runs(stts)))
    } else {
        None
    }
}

/// Total number of samples described by the stts table.
pub fn stts_sample_count(stts: &[u8]) -> (result: Option<u32>)
    ensures
        match result {
            Some(count) => stts_count(stts@) == Some(count as int),
            None => stts_count(stts@) is None,
        },
{
    let count: usize = match table_entries(stts, 8) {
        Some(count) => count,
        None => {
            return None;
        },
    };
    let ghost runs = stts_runs(stts@);
    let mut total: u32 = 0;
    let mut index: usize = 0;
    assert(runs.take(0) =~= Seq::empty());
    while index < count
        invariant
            index <= count,
            8 + count * 8 <= stts.len(),
            crate::mp4::samples::table_len(stts@, 8) == Some(count as int),
            runs == stts_runs(stts@),
            total == run_total(runs.take(index as int)),
        decreases count - index,
    {
        let samples: u32 = match read_u32_be(stts, 8 + index * 8) {
            Some(samples) => samples,
            None => {
                return None;
            },
        };
        proof {
            lemma_run_total_step(runs, index as int);
            lemma_run_total_monotone(runs, index + 1, runs.len() as int);
            assert(runs.take(runs.len() as int) =~= runs);
        }
        total =
        match total.checked_add(samples) {
            Some(total) => total,
            None => {
                return None;
            },
        };
        index += 1;
    }
    assert(runs.take(runs.len() as int) =~= runs);
    Some(total)
}

/// The sum over `runs` of count times value.
pub open spec fn weighted_total(runs: Seq<(u32, int)>) -> int
    decreases runs.len(),
{
    if runs.len() == 0 {
        0
    } else {
        weighted_total(runs.drop_last()) + runs.last().0 * runs.last().1
    }
}

pub(crate) proof fn lemma_weighted_total_monotone(runs: Seq<(u32, int)>, i: int, j: int)
    requires
        0 <= i <= j <= runs.len(),
        forall|k: int| 0 <= k < runs.len() ==> (#[trigger] runs[k]).1 >= 0,
    ensures
        0 <= weighted_total(runs.take(i)) <= weighted_total(runs.take(j)),
    decreases j,
{
    if j > 0 {
        assert(runs.take(j).drop_last() =~= runs.take(j - 1));
        assert(runs[j - 1].0 * runs[j - 1].1 >= 0) by (nonlinear_arith)
            requires
                runs[j - 1].0 >= 0,
                runs[j - 1].1 >= 0,
        ;
        if i < j {
            lemma_weighted_total_monotone(runs, i, j - 1);
        } else {
            lemma_weighted_total_monotone(runs, j - 1, j - 1);
        }
    } else {
        assert(runs.take(0) =~= Seq::empty());
    }
}

/// The duration that an `stts` payload describes, if it fits into 64 bits.
pub open spec fn stts_duration(stts: Seq<u8>) -> Option<int> {
    if crate::mp4::samples::table_len(stts, 8) is Some && weighted_total(stts_runs(stts))
        <= u64::MAX {
        Some(weighted_total(stts_runs(stts)))
    } else {
        None
    }
}

/// Total duration in media ticks described by the stts table.
pub fn stts_duration_ticks(stts: &[u8]) -> (result: Option<u64>)
    ensures
        match result {
            Some(ticks) => stts_duration(stts@) == Some(ticks as int),
            None => stts_duration(stts@) is None,
        },
{
    let count: usize = match table_entries(stts, 8) {
        Some(count) => count,
        None => {
            return None;
        },
    };
    let ghost runs = stts_runs(stts@);
    let mut total: u64 = 0;
    let mut index: usize = 0;
    assert(runs.take(0) =~= Seq::empty());
    while index < count
        invariant
            index <= count,
            8 + count * 8 <= stts.len(),
            crate::mp4::samples::table_len(stts@, 8) == Some(count as int),
            runs == stts_runs(stts@),
            total == weighted_total(runs.take(index as int)),
        decreases count - index,
    {
        let offset: usize = 8 + index * 8;
        let (samples, delta) = match (read_u32_be(stts, offset), read_u32_be(stts, offset + 4)) {
            (Some(samples), Some(delta)) => (samples, delta),
            _ => {
                return None;
            },
        };
        assert(samples as u64 * delta as u64 <= 0xffff_ffff * 0xffff_ffff) by (nonlinear_arith)
            requires
                samples <= 0xffff_ffff,
                delta <= 0xffff_ffff,
        ;
        let ticks: u64 = samples as u64 * delta as u64;
        proof {
            assert(runs.take(index + 1).drop_last() =~= runs.take(index as int));
            lemma_weighted_total_monotone(runs, index + 1, runs.len() as int);
            assert(runs.take(runs.len() as int) =~= runs);
        }
        total =
        match total.checked_add(ticks) {
            Some(total) => total,
            None => {
                return None;
            },
        };
        index += 1;
    }
    assert(runs.take(runs.len() as int) =~= runs);
    Some(total)
}

// ---------------------------------------------------------------------------
// Walking both tables
// ---------------------------------------------------------------------------

/// The composition runs, where there are any.
pub open spec fn offset_runs(offsets: Option<&[CompositionOffset]>) -> Option<Seq<(u32, int)>> {
    match offsets {
        Some(entries) => Some(ctts_runs(entries@)),
        None => None,
    }
}

/// The composition offset of the sample `t` (0-based); none means zero.
pub open spec fn offset_at(offsets: Option<Seq<(u32, int)>>, t: int) -> int {
    match offsets {
        Some(runs) => expanded(runs)[t],
        None => 0,
    }
}

/// Whether the tables time every sample: no decode run is empty or takes no
/// time, the samples and the whole duration can be counted, and the
/// composition offsets, where there are any, are for as many samples.
pub open spec fn timing_sound(deltas: Seq<(u32, int)>, offsets: Option<Seq<(u32, int)>>) -> bool {
    &&& forall|i: int| 0 <= i < deltas.len() ==> #[trigger] run_takes_time(deltas[i])
    &&& run_total(deltas) < u32::MAX
    &&& sum_of_first(expanded(deltas), run_total(deltas)) <= u64::MAX
    &&& offsets matches Some(runs) ==> run_total(runs) == run_total(deltas)
}

pub open spec fn run_takes_time(run: (u32, int)) -> bool {
    run.0 > 0 && run.1 > 0
}

/// One stts/ctts segment in decode order: `sample_count` samples starting at
/// `first_sample` that share one sample delta and one composition offset.
#[derive(Debug, Clone, Copy)]
struct TimingSegment {
    first_sample: u32,
    decode_tick: u64,
    sample_count: u32,
    sample_delta: u64,
    composition_offset: i64,
}

/// Where the run that holds the sample `t` ends.
pub open spec fn run_end(runs: Seq<(u32, int)>, t: int) -> int
    decreases runs.len(),
{
    if runs.len() == 0 {
        0
    } else if t < run_total(runs.drop_last()) {
        run_end(runs.drop_last(), t)
    } else {
        run_total(runs)
    }
}

/// Where the samples end that share the decode run and the composition run of
/// the sample `t`.
pub open spec fn segment_end(
    deltas: Seq<(u32, int)>,
    offsets: Option<Seq<(u32, int)>>,
    t: int,
) -> int {
    match offsets {
        Some(runs) if run_end(runs, t) < run_end(deltas, t) => run_end(runs, t),
        _ => run_end(deltas, t),
    }
}

proof fn lemma_run_end(runs: Seq<(u32, int)>, j: int, t: int)
    requires
        0 < j <= runs.len(),
        run_total(runs.take(j - 1)) <= t < run_total(runs.take(j)),
    ensures
        run_end(runs, t) == run_total(runs.take(j)),
    decreases runs.len(),
{
    assert(runs.take(runs.len() as int) =~= runs);
    assert(runs.take(runs.len() - 1) =~= runs.drop_last());
    if j < runs.len() {
        lemma_run_total_monotone(runs, j, runs.len() - 1);
        assert(runs.drop_last().take(j) =~= runs.take(j));
        assert(runs.drop_last().take(j - 1) =~= runs.take(j - 1));
        lemma_run_end(runs.drop_last(), j, t);
    }
}

/// What holds of the `count` samples that a walker has come to, where they lie
/// in the decode run and the composition run that it has entered.
proof fn lemma_segment(walker: TimingWalker, count: int)
    requires
        walker.tables_wf(),
        walker.stts_wf(),
        0 < count <= walker.stts_remaining,
        walker.offsets() matches Some(runs) ==> walker.ctts_wf(runs) && walker.walked()
            == run_total(runs.take(walker.ctts_index as int)) - walker.ctts_remaining && count
            <= walker.ctts_remaining,
        walker.offsets() is None ==> walker.composition_offset == 0,
    ensures
        walker.walked() + count <= run_total(walker.deltas()),
        walker.walked() >= 0,
        forall|t: int|
            walker.walked() <= t < walker.walked() + count ==> expanded(walker.deltas())[t]
                == walker.sample_delta,
        forall|t: int|
            walker.walked() <= t < walker.walked() + count ==> #[trigger] offset_at(
                walker.offsets(),
                t,
            ) == walker.composition_offset,
        walker.offsets() matches Some(runs) ==> walker.walked() + count <= run_total(runs),
        sum_of_first(expanded(walker.deltas()), walker.walked() + count) == walker.decode_tick
            + count * walker.sample_delta,
        timing_sound(walker.deltas(), walker.offsets()) ==> walker.decode_tick + count
            * walker.sample_delta <= u64::MAX && walker.sample_index + count <= u32::MAX,
{
    let deltas = walker.deltas();
    let walked = walker.walked();
    let last = walker.stts_index - 1;
    assert(deltas.take(deltas.len() as int) =~= deltas);
    lemma_run_total_step(deltas, last);
    lemma_run_total_monotone(deltas, walker.stts_index as int, deltas.len() as int);
    lemma_run_total_monotone(deltas, 0, last);
    lemma_expanded_len(deltas);
    assert forall|t: int| walked <= t < walked + count implies expanded(deltas)[t]
        == walker.sample_delta by {
        lemma_expanded_at(deltas, last, t - run_total(deltas.take(last)));
    }
    if let Some(runs) = walker.offsets() {
        let place = walker.ctts_index - 1;
        lemma_run_total_step(runs, place);
        lemma_run_total_monotone(runs, walker.ctts_index as int, runs.len() as int);
        assert(runs.take(runs.len() as int) =~= runs);
        assert forall|t: int| walked <= t < walked + count implies #[trigger] offset_at(
            walker.offsets(),
            t,
        ) == walker.composition_offset by {
            lemma_expanded_at(runs, place, t - run_total(runs.take(place)));
        }
    }
    lemma_sum_of_run(expanded(deltas), walked, count, walker.sample_delta as int);
    if timing_sound(deltas, walker.offsets()) {
        assert forall|i: int| 0 <= i < deltas.len() implies (#[trigger] deltas[i]).1 >= 0 by {
            assert(run_takes_time(deltas[i]));
        }
        lemma_expanded_nonnegative(deltas);
        lemma_sum_monotone(expanded(deltas), walked + count, run_total(deltas));
    }
}

/// Result of advancing a [`TimingWalker`].
enum TimingStep {
    Segment(TimingSegment),
    /// All stts entries were consumed.
    Exhausted,
    /// The timing tables are malformed (zero count/delta, missing ctts entry,
    /// or tick overflow).
    Invalid,
}

/// Result of going on to the next decode run.
enum RunEntry {
    Entered,
    Exhausted,
    Invalid,
}

/// Walks the stts/ctts sample timing tables segment by segment in decode
/// order, keeping the running sample index and decode tick.
struct TimingWalker<'a> {
    stts: &'a [u8],
    composition_offsets: Option<&'a [CompositionOffset]>,
    entry_count: usize,
    sample_index: u32,
    decode_tick: u64,
    stts_index: usize,
    stts_remaining: u32,
    sample_delta: u64,
    ctts_index: usize,
    ctts_remaining: u32,
    composition_offset: i64,
}

impl<'a> TimingWalker<'a> {
    /// The decode runs.
    spec fn deltas(self) -> Seq<(u32, int)> {
        stts_runs(self.stts@)
    }

    /// The composition runs.
    spec fn offsets(self) -> Option<Seq<(u32, int)>> {
        offset_runs(self.composition_offsets)
    }

    /// The number of samples walked over.
    spec fn walked(self) -> int {
        self.sample_index - 1
    }

    spec fn wf(self) -> bool {
        &&& self.tables_wf()
        &&& self.stts_wf()
        &&& match self.offsets() {
            Some(runs) => {
                &&& self.ctts_wf(runs)
                &&& self.walked() == run_total(runs.take(self.ctts_index as int))
                    - self.ctts_remaining
            },
            None => self.ctts_remaining == 0 && self.stts_remaining == 0,
        }
    }

    spec fn tables_wf(self) -> bool {
        &&& crate::mp4::samples::table_len(self.stts@, 8) == Some(self.entry_count as int)
        &&& 8 + self.entry_count * 8 <= self.stts@.len() == self.stts.len()
        &&& self.composition_offsets matches Some(entries) ==> counts_positive(entries@)
    }

    spec fn stts_wf(self) -> bool {
        let runs = self.deltas();
        &&& self.stts_index <= self.entry_count
        &&& self.sample_index >= 1
        &&& self.walked() == run_total(runs.take(self.stts_index as int)) - self.stts_remaining
        &&& self.stts_remaining > 0 ==> self.stts_index > 0 && self.stts_remaining
            <= runs[self.stts_index - 1].0 && self.sample_delta == runs[self.stts_index - 1].1
        &&& forall|i: int| 0 <= i < self.stts_index ==> #[trigger] run_takes_time(runs[i])
        &&& self.decode_tick == sum_of_first(expanded(runs), self.walked())
    }

    spec fn ctts_wf(self, runs: Seq<(u32, int)>) -> bool {
        &&& self.ctts_index <= runs.len()
        &&& self.ctts_remaining > 0 ==> self.ctts_index > 0 && self.ctts_remaining
            <= runs[self.ctts_index - 1].0 && self.composition_offset == runs[self.ctts_index
            - 1].1
    }

    fn new(
        stts: &'a [u8],
        composition_offsets: Option<&'a [CompositionOffset]>,
    ) -> (result: Option<Self>)
        requires
            composition_offsets matches Some(entries) ==> counts_positive(entries@),
        ensures
            match result {
                Some(walker) => walker.wf() && walker.walked() == 0 && walker.stts == stts
                    && walker.composition_offsets == composition_offsets,
                None => crate::mp4::samples::table_len(stts@, 8) is None,
            },
    {
        let entry_count: usize = match table_entries(stts, 8) {
            Some(count) => count,
            None => {
                return None;
            },
        };
        let walker = TimingWalker {
            stts,
            composition_offsets,
            entry_count,
            sample_index: 1,
            decode_tick: 0,
            stts_index: 0,
            stts_remaining: 0,
            sample_delta: 0,
            ctts_index: 0,
            ctts_remaining: 0,
            composition_offset: 0,
        };
        proof {
            assert(walker.deltas().take(0) =~= Seq::empty());
            if let Some(runs) = walker.offsets() {
                assert(runs.take(0) =~= Seq::empty());
            }
        }
        Some(walker)
    }

    /// Goes on to the next decode run where the last one is used up.
    fn enter_decode_run(&mut self) -> (result: RunEntry)
        requires
            old(self).wf(),
        ensures
            final(self).stts == old(self).stts,
            final(self).composition_offsets == old(self).composition_offsets,
            match result {
                RunEntry::Entered => {
                    &&& final(self).tables_wf()
                    &&& final(self).stts_wf()
                    &&& final(self).stts_remaining > 0
                    &&& final(self).sample_index == old(self).sample_index
                    &&& final(self).decode_tick == old(self).decode_tick
                    &&& final(self).ctts_index == old(self).ctts_index
                    &&& final(self).ctts_remaining == old(self).ctts_remaining
                    &&& final(self).composition_offset == old(self).composition_offset
                },
                RunEntry::Exhausted => {
                    &&& *final(self) == *old(self)
                    &&& old(self).walked() == run_total(old(self).deltas())
                    &&& forall|i: int|
                        0 <= i < old(self).deltas().len() ==> #[trigger] run_takes_time(
                            old(self).deltas()[i],
                        )
                },
                RunEntry::Invalid => !timing_sound(old(self).deltas(), old(self).offsets()),
            },
    {
        if self.stts_remaining > 0 {
            return RunEntry::Entered;
        }
        let ghost deltas = self.deltas();
        if self.stts_index == self.entry_count {
            assert(deltas.take(deltas.len() as int) =~= deltas);
            return RunEntry::Exhausted;
        }
        let offset: usize = 8 + self.stts_index * 8;
        let (remaining, delta) = match (
            read_u32_be(self.stts, offset),
            read_u32_be(self.stts, offset + 4),
        ) {
            (Some(remaining), Some(delta)) => (remaining, delta),
            _ => {
                return RunEntry::Invalid;
            },
        };
        assert(deltas[self.stts_index as int] == (remaining, delta as int));
        if remaining == 0 || delta == 0 {
            assert(!run_takes_time(deltas[self.stts_index as int]));
            return RunEntry::Invalid;
        }
        proof {
            lemma_run_total_step(deltas, self.stts_index as int);
        }
        self.stts_remaining = remaining;
        self.sample_delta = delta as u64;
        self.stts_index = self.stts_index + 1;
        RunEntry::Entered
    }

    /// Goes on to the next composition run where the last one is used up.
    /// Without composition offsets there is one run, of offset zero, for each
    /// decode run.
    fn enter_composition_run(&mut self) -> (entered: bool)
        requires
            old(self).tables_wf(),
            old(self).stts_wf(),
            old(self).stts_remaining > 0,
            old(self).offsets() matches Some(runs) ==> old(self).ctts_wf(runs) && old(
                self,
            ).walked() == run_total(runs.take(old(self).ctts_index as int)) - old(
                self,
            ).ctts_remaining,
        ensures
            final(self).stts == old(self).stts,
            final(self).composition_offsets == old(self).composition_offsets,
            entered ==> {
                &&& final(self).tables_wf()
                &&& final(self).stts_wf()
                &&& final(self).stts_remaining == old(self).stts_remaining
                &&& final(self).sample_index == old(self).sample_index
                &&& final(self).decode_tick == old(self).decode_tick
                &&& final(self).sample_delta == old(self).sample_delta
                &&& final(self).ctts_remaining > 0
                &&& match final(self).offsets() {
                    Some(runs) => final(self).ctts_wf(runs) && final(self).walked() == run_total(
                        runs.take(final(self).ctts_index as int),
                    ) - final(self).ctts_remaining,
                    None => final(self).composition_offset == 0 && final(self).ctts_remaining
                        == final(self).stts_remaining,
                }
            },
            !entered ==> !timing_sound(old(self).deltas(), old(self).offsets()),
    {
        match self.composition_offsets {
            Some(entries) => {
                if self.ctts_remaining > 0 {
                    return true;
                }
                let ghost runs = ctts_runs(entries@);
                if self.ctts_index >= entries.len() {
                    proof {
                        let deltas = self.deltas();
                        assert(runs.take(runs.len() as int) =~= runs);
                        assert(deltas.take(deltas.len() as int) =~= deltas);
                        lemma_run_total_monotone(
                            deltas,
                            self.stts_index as int,
                            deltas.len() as int,
                        );
                    }
                    return false;
                }
                let entry: CompositionOffset = entries[self.ctts_index];
                proof {
                    lemma_run_total_step(runs, self.ctts_index as int);
                }
                self.ctts_remaining = entry.sample_count;
                self.composition_offset = entry.sample_offset;
                self.ctts_index = self.ctts_index + 1;
            },
            None => {
                self.ctts_remaining = self.stts_remaining;
                self.composition_offset = 0;
            },
        }
        true
    }

    /// The next segment: as many samples as share the decode run and the
    /// composition run that the walk has come to.
    fn next_segment(&mut self) -> (result: TimingStep)
        requires
            old(self).wf(),
        ensures
            final(self).stts == old(self).stts,
            final(self).composition_offsets == old(self).composition_offsets,
            match result {
                TimingStep::Segment(segment) => {
                    &&& final(self).wf()
                    &&& segment.first_sample == old(self).sample_index
                    &&& segment.decode_tick == old(self).decode_tick
                    &&& segment.sample_count > 0
                    &&& final(self).walked() == old(self).walked() + segment.sample_count
                    &&& final(self).walked() <= run_total(old(self).deltas())
                    &&& final(self).decode_tick == segment.decode_tick + segment.sample_count
                        * segment.sample_delta
                    &&& forall|t: int|
                        old(self).walked() <= t < final(self).walked() ==> expanded(
                            old(self).deltas(),
                        )[t] == segment.sample_delta
                    &&& forall|t: int|
                        old(self).walked() <= t < final(self).walked() ==> #[trigger] offset_at(
                            old(self).offsets(),
                            t,
                        ) == segment.composition_offset
                    &&& old(self).offsets() matches Some(runs) ==> final(self).walked()
                        <= run_total(runs)
                    &&& final(self).walked() == segment_end(
                        old(self).deltas(),
                        old(self).offsets(),
                        old(self).walked(),
                    )
                },
                TimingStep::Exhausted => {
                    &&& *final(self) == *old(self)
                    &&& old(self).walked() == run_total(old(self).deltas())
                    &&& forall|i: int|
                        0 <= i < old(self).deltas().len() ==> #[trigger] run_takes_time(
                            old(self).deltas()[i],
                        )
                },
                TimingStep::Invalid => !timing_sound(old(self).deltas(), old(self).offsets()),
            },
    {
        match self.enter_decode_run() {
            RunEntry::Entered => {},
            RunEntry::Exhausted => {
                return TimingStep::Exhausted;
            },
            RunEntry::Invalid => {
                return TimingStep::Invalid;
            },
        }
        if !self.enter_composition_run() {
            return TimingStep::Invalid;
        }
        let segment_count: u32 = if self.stts_remaining <= self.ctts_remaining {
            self.stts_remaining
        } else {
            self.ctts_remaining
        };
        let segment = TimingSegment {
            first_sample: self.sample_index,
            decode_tick: self.decode_tick,
            sample_count: segment_count,
            sample_delta: self.sample_delta,
            composition_offset: self.composition_offset,
        };
        proof {
            lemma_segment(*self, segment_count as int);
            lemma_run_total_step(self.deltas(), self.stts_index - 1);
            lemma_run_end(self.deltas(), self.stts_index as int, self.walked());
            if let Some(runs) = self.offsets() {
                lemma_run_total_step(runs, self.ctts_index - 1);
                lemma_run_end(runs, self.ctts_index as int, self.walked());
            }
        }
        let duration: u64 = match (segment_count as u64).checked_mul(self.sample_delta) {
            Some(duration) => duration,
            None => {
                return TimingStep::Invalid;
            },
        };
        let decode_tick: u64 = match self.decode_tick.checked_add(duration) {
            Some(decode_tick) => decode_tick,
            None => {
                return TimingStep::Invalid;
            },
        };
        let next_sample_index: u32 = match self.sample_index.checked_add(segment_count) {
            Some(sample_index) => sample_index,
            None => {
                return TimingStep::Invalid;
            },
        };
        self.decode_tick = decode_tick;
        self.sample_index = next_sample_index;
        self.stts_remaining = self.stts_remaining - segment_count;
        self.ctts_remaining = self.ctts_remaining - segment_count;
        TimingStep::Segment(segment)
    }

    /// Whether any ctts-described samples remain after the stts table ended.
    fn has_unconsumed_ctts(&self) -> (result: bool)
        requires
            self.wf(),
        ensures
            result == (self.offsets() matches Some(runs) && run_total(runs) != self.walked()),
    {
        match self.composition_offsets {
            Some(entries) => {
                proof {
                    let runs = ctts_runs(entries@);
                    assert(runs.take(runs.len() as int) =~= runs);
                    if self.ctts_index < runs.len() {
                        assert(entries@[self.ctts_index as int].sample_count > 0);
                        lemma_run_total_strict(runs, self.ctts_index as int, runs.len() as int);
                    }
                }
                self.ctts_remaining != 0 || self.ctts_index != entries.len()
            },
            None => self.ctts_remaining != 0,
        }
    }
}

// ---------------------------------------------------------------------------
// Presentation order
// ---------------------------------------------------------------------------

pub open spec fn timeline_fits(sample_count: int) -> bool {
    0 < sample_count && sample_count * PRESENTATION_TIMELINE_BYTES_PER_SAMPLE
        <= MAX_PRESENTATION_TIMELINE_BYTES
}

/// Whether a timeline of `sample_count` samples is worth building and stays
/// inside its storage budget.
pub fn presentation_timeline_sample_count_fits(sample_count: usize) -> (result: bool)
    ensures
        result == timeline_fits(sample_count as int),
        result <==> 0 < sample_count && sample_count * 20 <= 128 * 1024 * 1024,
{
    sample_count != 0 && sample_count <= MAX_PRESENTATION_TIMELINE_BYTES
        / PRESENTATION_TIMELINE_BYTES_PER_SAMPLE
}

/// The presentation tick of the sample `t` (0-based): its decode tick, moved
/// by its composition offset and by the offset of the whole track.
pub open spec fn presentation_tick(
    stts: Seq<u8>,
    offsets: Option<Seq<(u32, int)>>,
    presentation_offset: int,
    t: int,
) -> int {
    sum_of_first(expanded(stts_runs(stts)), t) + offset_at(offsets, t) - presentation_offset
}

/// Whether the tables give each of `sample_count` samples a tick that is
/// negative or fits into 64 bits.
pub open spec fn timeline_exists(
    stts: Seq<u8>,
    offsets: Option<&[CompositionOffset]>,
    presentation_offset: int,
    sample_count: int,
) -> bool {
    &&& timeline_fits(sample_count)
    &&& offsets matches Some(entries) ==> counts_positive(entries@)
    &&& crate::mp4::samples::table_len(stts, 8) is Some
    &&& timing_sound(stts_runs(stts), offset_runs(offsets))
    &&& run_total(stts_runs(stts)) == sample_count
    &&& forall|t: int|
        0 <= t < sample_count ==> #[trigger] presentation_tick(
            stts,
            offset_runs(offsets),
            presentation_offset,
            t,
        ) <= u64::MAX
}

/// Whether the sample `a` is presented before the sample `b` or is `b` itself;
/// samples of one tick go by their number.
pub open spec fn presented_up_to(ticks: Seq<i128>, a: u32, b: u32) -> bool {
    ticks[a - 1] < ticks[b - 1] || ticks[a - 1] == ticks[b - 1] && a <= b
}

/// Whether the sample (1-based) exists and is presented at tick zero or later.
pub open spec fn presented(ticks: Seq<i128>, sample: u32) -> bool {
    1 <= sample <= ticks.len() && ticks[sample - 1] >= 0
}

/// Whether `result` is the sample on display at `target_tick`: the last one
/// presented at or before it, or the first one presented at all where none is.
pub open spec fn is_on_display(
    ticks: Seq<i128>,
    target_tick: u64,
    result: Option<SampleSelection>,
) -> bool {
    match result {
        Some(selection) => {
            let chosen = selection.sample_index;
            &&& presented(ticks, chosen)
            &&& selection.presentation_tick == ticks[chosen - 1]
            &&& (exists|sample: u32|
                presented(ticks, sample) && #[trigger] ticks[sample - 1] <= target_tick)
                ==> ticks[chosen - 1] <= target_tick && forall|sample: u32|
                presented(ticks, sample) && #[trigger] ticks[sample - 1] <= target_tick
                    ==> presented_up_to(ticks, sample, chosen)
            &&& (forall|sample: u32|
                presented(ticks, sample) ==> #[trigger] ticks[sample - 1] > target_tick)
                ==> forall|sample: u32|
                #[trigger] presented(ticks, sample) ==> presented_up_to(ticks, chosen, sample)
        },
        None => forall|sample: u32| !#[trigger] presented(ticks, sample),
    }
}

/// What a sample (1-based) is ordered by: its tick, then its number.
fn presentation_key(ticks: &[i128], sample: u32) -> (key: (i128, u32))
    requires
        1 <= sample <= ticks@.len(),
    ensures
        key == (ticks@[sample - 1], sample),
{
    (ticks[sample as usize - 1], sample)
}

/// Sorts sample numbers by presentation key with the standard library's
/// `slice::sort_unstable_by_key`: the same numbers come out, each no later
/// in presentation order than those behind it. The keys are pairs of
/// integers, which compare by their first part and then by their second.
#[verifier::external_body]
fn sort_by_presentation_key(samples: &mut Vec<u32>, ticks: &[i128])
    requires
        forall|i: int| 0 <= i < old(samples)@.len() ==> 1 <= #[trigger] old(samples)@[i]
            <= ticks@.len(),
    ensures
        final(samples)@.to_multiset() == old(samples)@.to_multiset(),
        forall|i: int, j: int|
            0 <= i <= j < final(samples)@.len() ==> presented_up_to(
                ticks@,
                #[trigger] final(samples)@[i],
                #[trigger] final(samples)@[j],
            ),
{
    samples.sort_unstable_by_key(|sample| presentation_key(ticks, *sample));
}

/// Reusable presentation timestamps for a validated MP4 video sample table.
#[derive(Debug)]
pub struct PresentationTimeline {
    /// Signed presentation ticks in one-based MP4 sample order.
    ticks_by_sample: Vec<i128>,
    /// One-based sample indices ordered by `(presentation_tick, sample_index)`.
    samples_by_time: Vec<u32>,
}

impl View for PresentationTimeline {
    type V = Seq<i128>;

    /// The ticks in sample order.
    closed spec fn view(&self) -> Seq<i128> {
        self.ticks_by_sample@
    }
}

impl PresentationTimeline {
    #[verifier::type_invariant]
    spec fn ordered(self) -> bool {
        &&& forall|i: int|
            0 <= i < self.samples_by_time@.len() ==> presented(
                self.ticks_by_sample@,
                #[trigger] self.samples_by_time@[i],
            )
        &&& forall|sample: u32|
            presented(self.ticks_by_sample@, sample) ==> #[trigger] self.samples_by_time@.contains(
                sample,
            )
        &&& forall|i: int, j: int|
            0 <= i <= j < self.samples_by_time@.len() ==> presented_up_to(
                self.ticks_by_sample@,
                #[trigger] self.samples_by_time@[i],
                #[trigger] self.samples_by_time@[j],
            )
        &&& forall|i: int|
            0 <= i < self.ticks_by_sample@.len() ==> #[trigger] self.ticks_by_sample@[i]
                <= u64::MAX
        &&& self.ticks_by_sample@.len() <= u32::MAX
    }

    /// Times every sample, if the tables describe exactly `sample_count` of
    /// them soundly and the timeline stays inside its storage budget.
    pub fn new(
        stts: &[u8],
        composition_offsets: Option<&[CompositionOffset]>,
        presentation_offset: i64,
        sample_count: u32,
    ) -> (result: Option<Self>)
        ensures
            match result {
                Some(timeline) => {
                    &&& timeline_exists(
                        stts@,
                        composition_offsets,
                        presentation_offset as int,
                        sample_count as int,
                    )
                    &&& timeline@.len() == sample_count
                    &&& forall|t: int|
                        0 <= t < sample_count ==> #[trigger] timeline@[t] == presentation_tick(
                            stts@,
                            offset_runs(composition_offsets),
                            presentation_offset as int,
                            t,
                        )
                },
                None => !timeline_exists(
                    stts@,
                    composition_offsets,
                    presentation_offset as int,
                    sample_count as int,
                ),
            },
    {
        let count: usize = sample_count as usize;
        if !presentation_timeline_sample_count_fits(count) {
            return None;
        }
        if let Some(entries) = composition_offsets {
            if !all_counts_positive(entries) {
                return None;
            }
        }
        let mut walker = match TimingWalker::new(stts, composition_offsets) {
            Some(walker) => walker,
            None => {
                return None;
            },
        };
        let ghost offsets = offset_runs(composition_offsets);
        let ghost shift = presentation_offset as int;
        let mut ticks: Vec<i128> = Vec::new();
        let mut samples: Vec<u32> = Vec::new();
        loop
            invariant
                walker.wf(),
                walker.stts == stts,
                walker.composition_offsets == composition_offsets,
                offsets == offset_runs(composition_offsets),
                shift == presentation_offset,
                count == sample_count,
                timeline_fits(sample_count as int),
                composition_offsets matches Some(entries) ==> counts_positive(entries@),
                ticks@.len() == walker.walked() <= sample_count,
                ticked(ticks@, stts@, offsets, shift),
                listed(samples@, ticks@),
            ensures
                walker.walked() == run_total(stts_runs(stts@)),
                forall|i: int|
                    0 <= i < stts_runs(stts@).len() ==> #[trigger] run_takes_time(
                        stts_runs(stts@)[i],
                    ),
            decreases sample_count - walker.walked(),
        {
            let ghost start = walker.walked();
            let ghost start_tick = walker.decode_tick;
            match walker.next_segment() {
                TimingStep::Segment(segment) => {
                    let mut position: u32 = 0;
                    while position < segment.sample_count
                        invariant
                            position <= segment.sample_count,
                            0 <= start,
                            start + 1 == segment.first_sample,
                            walker.walked() == start + segment.sample_count,
                            walker.sample_index == walker.walked() + 1,
                            walker.walked() <= run_total(stts_runs(stts@)),
                            walker.decode_tick == segment.decode_tick + segment.sample_count
                                * segment.sample_delta,
                            segment.decode_tick == sum_of_first(
                                expanded(stts_runs(stts@)),
                                start,
                            ),
                            forall|t: int|
                                start <= t < walker.walked() ==> expanded(stts_runs(stts@))[t]
                                    == segment.sample_delta,
                            forall|t: int|
                                start <= t < walker.walked() ==> #[trigger] offset_at(offsets, t)
                                    == segment.composition_offset,
                            offsets == offset_runs(composition_offsets),
                            shift == presentation_offset,
                            count == sample_count,
                            timeline_fits(sample_count as int),
                            start <= ticks@.len() == start + position <= sample_count,
                            ticked(ticks@, stts@, offsets, shift),
                            listed(samples@, ticks@),
                        decreases segment.sample_count - position,
                    {
                        if ticks.len() == count {
                            return None;
                        }
                        let ghost t = ticks@.len() as int;
                        let sample_index: u32 = segment.first_sample + position;
                        proof {
                            lemma_expanded_len(stts_runs(stts@));
                            lemma_sum_of_run(
                                expanded(stts_runs(stts@)),
                                start,
                                position as int,
                                segment.sample_delta as int,
                            );
                            assert(position * segment.sample_delta <= segment.sample_count
                                * segment.sample_delta) by (nonlinear_arith)
                                requires
                                    position <= segment.sample_count,
                                    0 <= segment.sample_delta,
                            ;
                            assert(0 <= position * segment.sample_delta) by (nonlinear_arith);
                        }
                        let decode_tick: u64 = segment.decode_tick + position as u64
                            * segment.sample_delta;
                        let tick: i128 = decode_tick as i128 + segment.composition_offset as i128
                            - presentation_offset as i128;
                        assert(offset_at(offsets, t) == segment.composition_offset);
                        assert(tick == presentation_tick(stts@, offsets, shift, t));
                        if tick > u64::MAX as i128 {
                            return None;
                        }
                        let ghost ticks_before = ticks@;
                        let ghost samples_before = samples@;
                        ticks.push(tick);
                        if tick >= 0 {
                            samples.push(sample_index);
                        }
                        proof {
                            lemma_listed_step(samples_before, ticks_before, tick);
                        }
                        position += 1;
                    }
                },
                TimingStep::Exhausted => {
                    break;
                },
                TimingStep::Invalid => {
                    return None;
                },
            }
        }
        if walker.has_unconsumed_ctts() || ticks.len() != count {
            return None;
        }
        let ghost unsorted = samples@;
        assert forall|i: int| 0 <= i < samples@.len() implies 1 <= #[trigger] samples@[i]
            <= ticks@.len() by {
            assert(presented(ticks@, samples@[i]));
        }
        sort_by_presentation_key(&mut samples, &ticks);
        proof {
            samples@.to_multiset_ensures();
            unsorted.to_multiset_ensures();
            assert forall|i: int| 0 <= i < samples@.len() implies presented(
                ticks@,
                #[trigger] samples@[i],
            ) by {
                assert(samples@.contains(samples@[i]));
                assert(samples@.to_multiset().count(samples@[i]) > 0);
                assert(unsorted.contains(samples@[i]));
            }
            assert forall|sample: u32| presented(ticks@, sample) implies
                #[trigger] samples@.contains(sample) by {
                assert(unsorted.contains(sample));
                assert(unsorted.to_multiset().count(sample) > 0);
            }
            assert forall|t: int| 0 <= t < sample_count implies #[trigger] presentation_tick(
                stts@,
                offsets,
                shift,
                t,
            ) <= u64::MAX by {
                assert(ticks@[t] <= u64::MAX);
            }
        }
        Some(PresentationTimeline { ticks_by_sample: ticks, samples_by_time: samples })
    }

    /// The sample on display at `target_tick`: the last one presented at or
    /// before it, or the first one presented at all where none is.
    pub fn select(&self, target_tick: u64) -> (result: Option<SampleSelection>)
        ensures
            is_on_display(self@, target_tick, result),
    {
        proof {
            use_type_invariant(self);
        }
        if self.samples_by_time.len() == 0 {
            assert forall|sample: u32| !#[trigger] presented(self@, sample) by {
                assert(!self.samples_by_time@.contains(sample));
            }
            return None;
        }
        let mut low: usize = 0;
        let mut high: usize = self.samples_by_time.len();
        while low < high
            invariant
                self.ordered(),
                low <= high <= self.samples_by_time@.len(),
                forall|i: int|
                    0 <= i < low ==> self.ticks_by_sample@[#[trigger] self.samples_by_time@[i] - 1]
                        <= target_tick,
                forall|i: int|
                    high <= i < self.samples_by_time@.len() ==> self.ticks_by_sample@[
                    #[trigger] self.samples_by_time@[i] - 1] > target_tick,
            decreases high - low,
        {
            let middle: usize = low + (high - low) / 2;
            let sample: u32 = self.samples_by_time[middle];
            assert(presented(self.ticks_by_sample@, self.samples_by_time@[middle as int]));
            if self.ticks_by_sample[sample as usize - 1] <= target_tick as i128 {
                assert forall|i: int| 0 <= i < middle + 1 implies self.ticks_by_sample@[
                #[trigger] self.samples_by_time@[i] - 1] <= target_tick by {
                    assert(presented_up_to(
                        self.ticks_by_sample@,
                        self.samples_by_time@[i],
                        self.samples_by_time@[middle as int],
                    ));
                }
                low = middle + 1;
            } else {
                assert forall|i: int| middle <= i < self.samples_by_time@.len() implies
                    self.ticks_by_sample@[#[trigger] self.samples_by_time@[i] - 1]
                    > target_tick by {
                    assert(presented_up_to(
                        self.ticks_by_sample@,
                        self.samples_by_time@[middle as int],
                        self.samples_by_time@[i],
                    ));
                }
                high = middle;
            }
        }
        let place: usize = if low == 0 { 0 } else { low - 1 };
        let sample_index: u32 = self.samples_by_time[place];
        assert(presented(self@, self.samples_by_time@[place as int]));
        let tick: i128 = self.ticks_by_sample[sample_index as usize - 1];
        proof {
            assert forall|sample: u32|
                presented(self@, sample) && #[trigger] self@[sample - 1]
                    <= target_tick implies presented_up_to(self@, sample, sample_index)
                && self@[sample_index - 1] <= target_tick by {
                assert(self.samples_by_time@.contains(sample));
                let i = choose|i: int|
                    0 <= i < self.samples_by_time@.len() && self.samples_by_time@[i] == sample;
                assert(self.samples_by_time@[i] == sample);
                assert(i < low);
                assert(presented_up_to(
                    self.ticks_by_sample@,
                    self.samples_by_time@[i],
                    self.samples_by_time@[place as int],
                ));
            }
            if forall|sample: u32|
                presented(self@, sample) ==> #[trigger] self@[sample - 1] > target_tick {
                if low > 0 {
                    assert(presented(self@, self.samples_by_time@[0]));
                    assert(self@[self.samples_by_time@[0] - 1] > target_tick);
                }
                assert forall|sample: u32| #[trigger] presented(self@, sample) implies
                    presented_up_to(self@, sample_index, sample) by {
                    assert(self.samples_by_time@.contains(sample));
                    let i = choose|i: int|
                        0 <= i < self.samples_by_time@.len() && self.samples_by_time@[i] == sample;
                    assert(presented_up_to(
                        self.ticks_by_sample@,
                        self.samples_by_time@[0],
                        self.samples_by_time@[i],
                    ));
                }
            }
        }
        Some(SampleSelection { sample_index, presentation_tick: tick as u64 })
    }

    /// The presentation tick of `sample_index` (1-based).
    pub fn tick(&self, sample_index: u32) -> (result: Option<i128>)
        ensures
            result == if 1 <= sample_index <= self@.len() {
                Some(self@[sample_index - 1])
            } else {
                None
            },
    {
        if sample_index == 0 || sample_index as usize > self.ticks_by_sample.len() {
            return None;
        }
        Some(self.ticks_by_sample[sample_index as usize - 1])
    }

    /// The samples from `start_sample` to `end_sample` (1-based, both
    /// included) in decode order, each with its presentation tick.
    pub fn ticks_for_range(&self, start_sample: u32, end_sample: u32) -> (result: Option<
        Vec<(u32, i128)>,
    >)
        ensures
            match result {
                Some(ticks) => {
                    &&& 1 <= start_sample <= end_sample <= self@.len()
                    &&& ticks@ == Seq::new(
                        (end_sample - start_sample + 1) as nat,
                        |i: int| ((start_sample + i) as u32, self@[start_sample + i - 1]),
                    )
                },
                None => !(1 <= start_sample <= end_sample <= self@.len()),
            },
    {
        if start_sample == 0 || start_sample > end_sample || end_sample as usize
            > self.ticks_by_sample.len() {
            return None;
        }
        let mut ticks: Vec<(u32, i128)> = Vec::new();
        let length: u32 = end_sample - start_sample;
        let mut offset: u32 = 0;
        loop
            invariant
                1 <= start_sample <= end_sample <= self.ticks_by_sample@.len(),
                offset <= length == end_sample - start_sample,
                ticks@ == Seq::new(
                    offset as nat,
                    |i: int| ((start_sample + i) as u32, self@[start_sample + i - 1]),
                ),
            decreases length - offset,
        {
            let sample: u32 = start_sample + offset;
            ticks.push((sample, self.ticks_by_sample[sample as usize - 1]));
            assert(ticks@ =~= Seq::new(
                (offset + 1) as nat,
                |i: int| ((start_sample + i) as u32, self@[start_sample + i - 1]),
            ));
            if offset == length {
                return Some(ticks);
            }
            offset += 1;
        }
    }
}

/// Whether `ticks` are the presentation ticks of the first samples and none is
/// beyond 64 bits.
spec fn ticked(
    ticks: Seq<i128>,
    stts: Seq<u8>,
    offsets: Option<Seq<(u32, int)>>,
    presentation_offset: int,
) -> bool {
    forall|t: int|
        0 <= t < ticks.len() ==> #[trigger] ticks[t] == presentation_tick(
            stts,
            offsets,
            presentation_offset,
            t,
        ) && ticks[t] <= u64::MAX
}

/// Whether `samples` are those presented at tick zero or later.
spec fn listed(samples: Seq<u32>, ticks: Seq<i128>) -> bool {
    &&& forall|i: int| 0 <= i < samples.len() ==> presented(ticks, #[trigger] samples[i])
    &&& forall|sample: u32| presented(ticks, sample) ==> #[trigger] samples.contains(sample)
}

proof fn lemma_listed_step(samples: Seq<u32>, ticks: Seq<i128>, tick: i128)
    requires
        listed(samples, ticks),
        ticks.len() < u32::MAX,
    ensures
        listed(
            if tick >= 0 {
                samples.push((ticks.len() + 1) as u32)
            } else {
                samples
            },
            ticks.push(tick),
        ),
{
    let now = ticks.push(tick);
    let added = (ticks.len() + 1) as u32;
    let list = if tick >= 0 {
        samples.push(added)
    } else {
        samples
    };
    assert forall|i: int| 0 <= i < list.len() implies presented(now, #[trigger] list[i]) by {
        if i < samples.len() {
            assert(presented(ticks, samples[i]));
        }
    }
    assert forall|sample: u32| presented(now, sample) implies #[trigger] list.contains(sample) by {
        if sample == added {
            assert(list[samples.len() as int] == added);
        } else {
            assert(presented(ticks, sample));
            assert(samples.contains(sample));
            let i = choose|i: int| 0 <= i < samples.len() && samples[i] == sample;
            assert(list[i] == sample);
        }
    }
}

/// Whether no entry is for zero samples.
fn all_counts_positive(entries: &[CompositionOffset]) -> (result: bool)
    ensures
        result == counts_positive(entries@),
{
    let mut index: usize = 0;
    while index < entries.len()
        invariant
            index <= entries@.len(),
            forall|i: int| 0 <= i < index ==> (#[trigger] entries@[i]).sample_count > 0,
        decreases entries@.len() - index,
    {
        if entries[index].sample_count == 0 {
            assert(entries@[index as int].sample_count == 0);
            return false;
        }
        index += 1;
    }
    true
}

// ---------------------------------------------------------------------------
// Ticks and durations
// ---------------------------------------------------------------------------

pub open spec fn at_most(value: int, limit: int) -> int {
    if value <= limit {
        value
    } else {
        limit
    }
}

/// Whether `nanos` are the whole nanoseconds up to a tick of which there are
/// `timescale` in a second, as far as they can be counted in 64 bits: `tick`
/// ticks take that long, and less than one nanosecond more.
pub open spec fn is_time_of_tick(nanos: int, tick: int, timescale: u32) -> bool {
    &&& 0 <= nanos <= 0xffff_ffff_ffff_ffff
    &&& nanos * timescale <= tick * 1_000_000_000
    &&& nanos < 0xffff_ffff_ffff_ffff ==> tick * 1_000_000_000 < (nanos + 1) * timescale
}

/// Whether `tick` is the last tick that has come after `nanos` nanoseconds, as
/// far as it can be counted in 64 bits.
pub open spec fn is_tick_at(tick: int, nanos: int, timescale: u32) -> bool {
    &&& 0 <= tick <= 0xffff_ffff_ffff_ffff
    &&& tick * 1_000_000_000 <= nanos * timescale
    &&& tick < 0xffff_ffff_ffff_ffff ==> nanos * timescale < (tick + 1) * 1_000_000_000
}

/// The time of a tick is its quotient by the timescale, rounded down.
pub(crate) proof fn lemma_time_of_tick(tick: int, timescale: u32)
    requires
        tick >= 0,
        timescale > 0,
    ensures
        is_time_of_tick(
            at_most(tick * 1_000_000_000 / timescale as int, u64::MAX as int),
            tick,
            timescale,
        ),
{
    let nanos = tick * 1_000_000_000;
    let scale = timescale as int;
    let whole = nanos / scale;
    let capped = at_most(whole, u64::MAX as int);
    assert(0 <= whole && whole * scale <= nanos && nanos < (whole + 1) * scale)
        by (nonlinear_arith)
        requires
            nanos >= 0,
            scale > 0,
            whole == nanos / scale,
    ;
    assert(capped * scale <= whole * scale) by (nonlinear_arith)
        requires
            capped <= whole,
            scale > 0,
    ;
}

/// No tick is counted for a time before it, and none is missed: there is just
/// one last tick up to a time, and one whole number of nanoseconds up to a tick.
pub proof fn lemma_times_and_ticks_are_unique(
    nanos: int,
    other_nanos: int,
    tick: int,
    other_tick: int,
    timescale: u32,
)
    requires
        timescale > 0,
    ensures
        is_time_of_tick(nanos, tick, timescale) && is_time_of_tick(other_nanos, tick, timescale)
            ==> nanos == other_nanos,
        is_tick_at(tick, nanos, timescale) && is_tick_at(other_tick, nanos, timescale) ==> tick
            == other_tick,
        is_time_of_tick(nanos, tick, timescale) && is_time_of_tick(
            other_nanos,
            other_tick,
            timescale,
        ) && tick <= other_tick ==> nanos <= other_nanos,
{
    let scale = timescale as int;
    assert(nanos < other_nanos ==> (nanos + 1) * scale <= other_nanos * scale) by (nonlinear_arith)
        requires
            scale > 0,
    ;
    assert(other_nanos < nanos ==> (other_nanos + 1) * scale <= nanos * scale) by (nonlinear_arith)
        requires
            scale > 0,
    ;
}

/// A time that is turned into ticks and back is not later than it was. A tick
/// that is turned into a time and back is the same or the one before, where the
/// clock has no more ticks in a second than there are nanoseconds.
pub proof fn lemma_ticks_and_times_round_down(
    nanos: int,
    tick: int,
    back_nanos: int,
    back_tick: int,
    timescale: u32,
)
    requires
        timescale > 0,
    ensures
        is_tick_at(tick, nanos, timescale) && is_time_of_tick(back_nanos, tick, timescale)
            ==> back_nanos <= nanos,
        is_time_of_tick(nanos, tick, timescale) && is_tick_at(back_tick, nanos, timescale)
            ==> back_tick <= tick,
        is_time_of_tick(nanos, tick, timescale) && is_tick_at(back_tick, nanos, timescale)
            && timescale <= 1_000_000_000 && nanos < 0xffff_ffff_ffff_ffff && tick
            <= 0xffff_ffff_ffff_ffff ==> tick - 1 <= back_tick,
{
    let scale = timescale as int;
    assert(nanos < back_nanos ==> (nanos + 1) * scale <= back_nanos * scale) by (nonlinear_arith)
        requires
            scale > 0,
    ;
    assert((nanos + 1) * scale == nanos * scale + scale) by (nonlinear_arith);
}

/// A second has `timescale` ticks, and times add up: in a clock of `factor` times
/// as many ticks in a second, `factor` times as many ticks take as long.
pub proof fn lemma_time_does_not_depend_on_the_clock(
    nanos: int,
    other_nanos: int,
    tick: int,
    timescale: u32,
    other_timescale: u32,
    factor: int,
)
    requires
        timescale > 0,
        factor > 0,
        other_timescale == timescale * factor,
        is_time_of_tick(nanos, tick, timescale),
        is_time_of_tick(other_nanos, tick * factor, other_timescale),
    ensures
        nanos == other_nanos,
        tick == timescale ==> nanos == 1_000_000_000,
{
    let scale = timescale as int;
    assert(nanos * (scale * factor) == (nanos * scale) * factor) by (nonlinear_arith);
    assert((nanos + 1) * (scale * factor) == ((nanos + 1) * scale) * factor) by (nonlinear_arith);
    assert((tick * factor) * 1_000_000_000 == (tick * 1_000_000_000) * factor) by (nonlinear_arith);
    assert((nanos * scale) * factor <= (tick * 1_000_000_000) * factor) by (nonlinear_arith)
        requires
            nanos * scale <= tick * 1_000_000_000,
            factor > 0,
    ;
    if nanos < 0xffff_ffff_ffff_ffff {
        assert((tick * 1_000_000_000) * factor < ((nanos + 1) * scale) * factor)
            by (nonlinear_arith)
            requires
                tick * 1_000_000_000 < (nanos + 1) * scale,
                factor > 0,
        ;
    }
    assert(is_time_of_tick(nanos, tick * factor, other_timescale));
    assert(scale * factor > 0) by (nonlinear_arith)
        requires
            scale > 0,
            factor > 0,
    ;
    lemma_times_and_ticks_are_unique(nanos, other_nanos, tick * factor, 0, other_timescale);
    if tick == timescale {
        assert(1_000_000_000 * scale == tick * 1_000_000_000) by (nonlinear_arith)
            requires
                tick == scale,
        ;
        assert((1_000_000_000int + 1) * scale == tick * 1_000_000_000 + scale) by (nonlinear_arith)
            requires
                tick == scale,
        ;
        assert(is_time_of_tick(1_000_000_000, tick, timescale));
        lemma_times_and_ticks_are_unique(nanos, 1_000_000_000, tick, 0, timescale);
    }
}

/// The media tick at `duration`, rounded down and capped at `u64::MAX`.
pub fn duration_to_ticks(duration: Duration, timescale: u32) -> (result: u64)
    ensures
        result == at_most(duration@ * timescale / 1_000_000_000, u64::MAX as int),
        is_tick_at(result as int, duration@, timescale),
{
    let nanos: u128 = duration.as_nanos();
    assert(0 <= nanos * timescale <= 18_446_744_073_709_551_615_999_999_999 * 0xffff_ffff)
        by (nonlinear_arith)
        requires
            nanos <= 18_446_744_073_709_551_615_999_999_999,
            timescale <= 0xffff_ffff,
    ;
    let ticks: u128 = nanos * timescale as u128 / 1_000_000_000;
    if ticks > u64::MAX as u128 {
        u64::MAX
    } else {
        ticks as u64
    }
}

/// The span of `ticks` media ticks, rounded down to nanoseconds and capped at
/// `u64::MAX` of them; zero where there is no timescale.
pub fn ticks_to_duration(ticks: u64, timescale: u32) -> (result: Duration)
    ensures
        result@ == if timescale == 0 {
            0
        } else {
            at_most(ticks * 1_000_000_000 / timescale as int, u64::MAX as int)
        },
        timescale > 0 ==> is_time_of_tick(result@, ticks as int, timescale),
{
    if timescale == 0 {
        return Duration::zero();
    }
    proof {
        lemma_time_of_tick(ticks as int, timescale);
    }
    let nanos: u128 = ticks as u128 * 1_000_000_000 / timescale as u128;
    if nanos > u64::MAX as u128 {
        Duration::from_nanos(u64::MAX)
    } else {
        Duration::from_nanos(nanos as u64)
    }
}

/// The runs of an `stts` payload are read in their order, each as the number of
/// its samples and how long each of them lasts.
pub proof fn lemma_timing_runs_read_back(stts: Seq<u8>, i: int, samples: u32, ticks: u32)
    requires
        crate::mp4::samples::table_len(stts, 8) is Some,
        0 <= i < stts_runs(stts).len(),
        stts.subrange(8 + 8 * i, 12 + 8 * i) == crate::bytes::written32(samples as int),
        stts.subrange(12 + 8 * i, 16 + 8 * i) == crate::bytes::written32(ticks as int),
    ensures
        stts_runs(stts).len() == crate::bytes::be32(stts, 4),
        stts_runs(stts)[i] == (samples, ticks as int),
{
    crate::bytes::lemma_written_numbers_read_back(stts, 8 + 8 * i, samples as int);
    crate::bytes::lemma_written_numbers_read_back(stts, 12 + 8 * i, ticks as int);
}

/// The runs of a `ctts` payload are read in their order. An offset is a number
/// without a sign in version 0, and one in two's complement in version 1.
pub proof fn lemma_composition_runs_read_back(ctts: Seq<u8>, i: int, samples: u32, raw: u32)
    requires
        ctts_table(ctts) is Some,
        0 <= i < ctts_table(ctts).unwrap().len(),
        ctts.subrange(8 + 8 * i, 12 + 8 * i) == crate::bytes::written32(samples as int),
        ctts.subrange(12 + 8 * i, 16 + 8 * i) == crate::bytes::written32(raw as int),
    ensures
        ({
            let entry = ctts_table(ctts).unwrap()[i];
            &&& entry.sample_count == samples
            &&& samples > 0
            &&& ctts[0] == 0 || ctts[0] == 1
            &&& ctts[0] == 0 || raw < 0x8000_0000 ==> entry.sample_offset == raw
            &&& ctts[0] == 1 && raw >= 0x8000_0000 ==> entry.sample_offset + 0x1_0000_0000 == raw
        }),
{
    crate::bytes::lemma_written_numbers_read_back(ctts, 8 + 8 * i, samples as int);
    crate::bytes::lemma_written_numbers_read_back(ctts, 12 + 8 * i, raw as int);
}

/// Each sample takes the value of the run that it lies in.
pub proof fn lemma_samples_take_the_value_of_their_run(runs: Seq<(u32, int)>, i: int, t: int)
    requires
        0 <= i < runs.len(),
        run_total(runs.take(i)) <= t < run_total(runs.take(i)) + runs[i].0,
    ensures
        0 <= t < expanded(runs).len(),
        expanded(runs).len() == run_total(runs),
        expanded(runs)[t] == runs[i].1,
{
    lemma_expanded_at(runs, i, t - run_total(runs.take(i)));
    lemma_expanded_len(runs);
}

/// Samples are decoded one after another, each as much later as the one before it
/// lasts. A sample is presented at its decoding time moved by its own offset, and
/// all of them earlier by the time that the presentation starts at.
pub proof fn lemma_presentation_ticks_follow_the_tables(
    stts: Seq<u8>,
    offsets: Option<Seq<(u32, int)>>,
    presentation_offset: int,
    t: int,
)
    requires
        t >= 0,
    ensures
        presentation_tick(stts, None, 0, 0) == 0,
        presentation_tick(stts, None, 0, t + 1) == presentation_tick(stts, None, 0, t) + expanded(
            stts_runs(stts),
        )[t],
        presentation_tick(stts, offsets, 0, t) == presentation_tick(stts, None, 0, t) + match offsets {
            Some(runs) => expanded(runs)[t],
            None => 0,
        },
        presentation_tick(stts, offsets, presentation_offset, t) + presentation_offset
            == presentation_tick(stts, offsets, 0, t),
{
}

/// The sample on display at a tick is the last one presented by then, and of
/// several at one tick the one with the greatest number. Where none is presented
/// by then, it is the first one presented at all. Samples before the start of the
/// presentation are never on display.
pub proof fn lemma_sample_on_display_is_the_last(
    ticks: Seq<i128>,
    target_tick: u64,
    selection: SampleSelection,
    other: u32,
)
    requires
        ticks.len() <= u32::MAX,
        is_on_display(ticks, target_tick, Some(selection)),
        1 <= other <= ticks.len(),
        ticks[other - 1] >= 0,
    ensures
        1 <= selection.sample_index <= ticks.len(),
        selection.presentation_tick == ticks[selection.sample_index - 1],
        ticks[selection.sample_index - 1] >= 0,
        ticks[other - 1] <= target_tick ==> ticks[selection.sample_index - 1] <= target_tick,
        ticks[other - 1] <= target_tick ==> ticks[other - 1] <= ticks[selection.sample_index - 1],
        ticks[other - 1] <= target_tick && ticks[other - 1] == ticks[selection.sample_index - 1]
            ==> other <= selection.sample_index,
        ticks[selection.sample_index - 1] > target_tick ==> ticks[selection.sample_index - 1]
            <= ticks[other - 1],
        ticks[selection.sample_index - 1] > target_tick && ticks[other - 1]
            == ticks[selection.sample_index - 1] ==> selection.sample_index <= other,
        !is_on_display(ticks, target_tick, None),
{
    assert(presented(ticks, other));
    if ticks[selection.sample_index - 1] > target_tick {
        assert forall|sample: u32| presented(ticks, sample) implies #[trigger] ticks[sample - 1]
            > target_tick by {}
    }
}

/// The composition offsets are read where all are there, the version is known and
/// none is for no sample; the samples of an `stts` payload are counted where all
/// its runs are there and 32 bits count them.
pub proof fn lemma_timing_tables_are_read(ctts: Seq<u8>, stts: Seq<u8>)
    ensures
        ctts_table(ctts) is Some <==> {
            let count = crate::bytes::be32(ctts, 4);
            &&& ctts.len() >= 8 && 8 + 8 * count <= ctts.len()
            &&& ctts[0] == 0 || ctts[0] == 1
            &&& forall|i: int|
                0 <= i < count ==> (#[trigger] ctts_entry_at(ctts, i)).sample_count > 0
        },
        stts_count(stts) is Some <==> stts.len() >= 8 && 8 + 8 * crate::bytes::be32(stts, 4)
            <= stts.len() && run_total(stts_runs(stts)) <= 0xffff_ffff,
        stts_count(stts) matches Some(count) ==> count == run_total(stts_runs(stts)),
{
    let count = crate::bytes::be32(ctts, 4);
    let entries = Seq::new(count as nat, |i: int| ctts_entry_at(ctts, i));
    crate::mp4::samples::lemma_tables_hold_their_entries(ctts, 8);
    crate::mp4::samples::lemma_tables_hold_their_entries(stts, 8);
    if counts_positive(entries) {
        assert forall|i: int| 0 <= i < count implies (#[trigger] ctts_entry_at(
            ctts,
            i,
        )).sample_count > 0 by {
            assert(entries[i].sample_count > 0);
        }
    }
}

} // verus!
