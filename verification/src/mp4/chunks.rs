//! Where samples lie: the chunk runs of an `stsc` table and the file offsets
//! that follow from them.

use vstd::prelude::*;

use crate::mp4::samples::{sample_size, SampleSizes, StscEntry};
use crate::mp4::timing::{stts_sample_count, CompositionOffset};

verus! {

// ---------------------------------------------------------------------------
// Chunk runs
// ---------------------------------------------------------------------------

/// The chunk behind the last one of the run `i`.
pub open spec fn run_end_chunk(stsc: Seq<StscEntry>, chunks: int, i: int) -> int {
    if i + 1 < stsc.len() {
        stsc[i + 1].first_chunk as int
    } else {
        chunks + 1
    }
}

/// The number of samples in the run `i`.
pub open spec fn run_len(stsc: Seq<StscEntry>, chunks: int, i: int) -> int {
    (run_end_chunk(stsc, chunks, i) - stsc[i].first_chunk) * stsc[i].samples_per_chunk
}

/// The number of samples in the runs before the run `i`.
pub open spec fn samples_before(stsc: Seq<StscEntry>, chunks: int, i: int) -> int
    decreases i,
{
    if i <= 0 {
        0
    } else {
        samples_before(stsc, chunks, i - 1) + run_len(stsc, chunks, i - 1)
    }
}

/// Whether the run `i` holds at least one chunk, stays inside the chunk table
/// and leaves the number of samples countable.
pub open spec fn run_sound(stsc: Seq<StscEntry>, chunks: int, i: int) -> bool {
    &&& 0 <= i < stsc.len()
    &&& stsc[i].first_chunk < run_end_chunk(stsc, chunks, i) <= chunks + 1
    &&& samples_before(stsc, chunks, i + 1) <= u32::MAX
}

/// The first run from `i` on that is not sound (the number of runs, if all are).
pub open spec fn sound_runs_from(stsc: Seq<StscEntry>, chunks: int, i: int) -> int
    decreases stsc.len() - i,
{
    if run_sound(stsc, chunks, i) {
        sound_runs_from(stsc, chunks, i + 1)
    } else {
        i
    }
}

/// The number of sound runs at the start of the table.
pub open spec fn sound_runs(stsc: Seq<StscEntry>, chunks: int) -> int {
    sound_runs_from(stsc, chunks, 0)
}

/// The run that the sample `t` (0-based) lies in, among the sound runs from `i` on.
pub open spec fn run_of_from(stsc: Seq<StscEntry>, chunks: int, t: int, i: int) -> Option<int>
    decreases stsc.len() - i,
{
    if !run_sound(stsc, chunks, i) {
        None
    } else if t < samples_before(stsc, chunks, i + 1) {
        Some(i)
    } else {
        run_of_from(stsc, chunks, t, i + 1)
    }
}

/// The run that the sample `t` (0-based) lies in.
pub open spec fn run_of(stsc: Seq<StscEntry>, chunks: int, t: int) -> Option<int> {
    run_of_from(stsc, chunks, t, 0)
}

/// Whether the runs before `i` are all sound.
pub open spec fn sound_up_to(stsc: Seq<StscEntry>, chunks: int, i: int) -> bool {
    forall|j: int| 0 <= j < i ==> #[trigger] run_sound(stsc, chunks, j)
}

proof fn lemma_sound_runs(stsc: Seq<StscEntry>, chunks: int, i: int)
    requires
        0 <= i <= stsc.len(),
        sound_up_to(stsc, chunks, i),
    ensures
        i <= sound_runs_from(stsc, chunks, i) <= stsc.len(),
        sound_runs(stsc, chunks) == sound_runs_from(stsc, chunks, i),
        sound_up_to(stsc, chunks, sound_runs(stsc, chunks)),
        !run_sound(stsc, chunks, sound_runs(stsc, chunks)),
    decreases stsc.len() - i,
{
    lemma_sound_runs_skip(stsc, chunks, i);
    if run_sound(stsc, chunks, i) {
        lemma_sound_runs(stsc, chunks, i + 1);
    }
}

proof fn lemma_sound_runs_skip(stsc: Seq<StscEntry>, chunks: int, i: int)
    requires
        0 <= i <= stsc.len(),
        sound_up_to(stsc, chunks, i),
    ensures
        sound_runs(stsc, chunks) == sound_runs_from(stsc, chunks, i),
    decreases i,
{
    if i > 0 {
        lemma_sound_runs_skip(stsc, chunks, i - 1);
        assert(run_sound(stsc, chunks, i - 1));
    }
}

proof fn lemma_samples_before_monotone(stsc: Seq<StscEntry>, chunks: int, i: int, j: int)
    requires
        0 <= i <= j <= stsc.len(),
        sound_up_to(stsc, chunks, j),
    ensures
        0 <= samples_before(stsc, chunks, i) <= samples_before(stsc, chunks, j),
        j > 0 ==> samples_before(stsc, chunks, j) <= u32::MAX,
    decreases j,
{
    if j > 0 {
        assert(run_sound(stsc, chunks, j - 1));
        assert(run_len(stsc, chunks, j - 1) >= 0) by (nonlinear_arith)
            requires
                run_len(stsc, chunks, j - 1) == (run_end_chunk(stsc, chunks, j - 1) - stsc[j
                    - 1].first_chunk) * stsc[j - 1].samples_per_chunk,
                stsc[j - 1].first_chunk < run_end_chunk(stsc, chunks, j - 1),
        ;
        if i < j {
            lemma_samples_before_monotone(stsc, chunks, i, j - 1);
        } else {
            lemma_samples_before_monotone(stsc, chunks, j - 1, j - 1);
        }
    }
}

/// The run of a sample is the one whose samples enclose it.
proof fn lemma_run_of(stsc: Seq<StscEntry>, chunks: int, t: int, i: int, r: int)
    requires
        0 <= i <= r < stsc.len(),
        sound_up_to(stsc, chunks, r + 1),
        samples_before(stsc, chunks, r) <= t < samples_before(stsc, chunks, r + 1),
    ensures
        run_of_from(stsc, chunks, t, i) == Some(r),
    decreases r - i,
{
    assert(run_sound(stsc, chunks, i));
    if i < r {
        lemma_samples_before_monotone(stsc, chunks, i + 1, r);
        lemma_run_of(stsc, chunks, t, i + 1, r);
    }
}

/// A sample behind all the sound runs has no run.
proof fn lemma_run_of_none(stsc: Seq<StscEntry>, chunks: int, t: int, i: int)
    requires
        0 <= i <= sound_runs(stsc, chunks),
        samples_before(stsc, chunks, sound_runs(stsc, chunks)) <= t,
    ensures
        run_of_from(stsc, chunks, t, i) is None,
    decreases sound_runs(stsc, chunks) - i,
{
    lemma_sound_runs(stsc, chunks, 0);
    if run_sound(stsc, chunks, i) {
        assert(i < sound_runs(stsc, chunks));
        lemma_samples_before_monotone(stsc, chunks, i + 1, sound_runs(stsc, chunks));
        lemma_run_of_none(stsc, chunks, t, i + 1);
    }
}

/// The run of a sample is sound and its samples enclose the sample.
proof fn lemma_run_of_encloses(stsc: Seq<StscEntry>, chunks: int, t: int, i: int)
    requires
        0 <= i <= stsc.len(),
        sound_up_to(stsc, chunks, i),
        samples_before(stsc, chunks, i) <= t,
    ensures
        match run_of_from(stsc, chunks, t, i) {
            Some(r) => {
                &&& i <= r < sound_runs(stsc, chunks)
                &&& sound_up_to(stsc, chunks, r + 1)
                &&& samples_before(stsc, chunks, r) <= t < samples_before(stsc, chunks, r + 1)
            },
            None => samples_before(stsc, chunks, sound_runs(stsc, chunks)) <= t,
        },
    decreases stsc.len() - i,
{
    lemma_sound_runs(stsc, chunks, i);
    if run_sound(stsc, chunks, i) {
        lemma_sound_runs(stsc, chunks, i + 1);
        if t >= samples_before(stsc, chunks, i + 1) {
            lemma_run_of_encloses(stsc, chunks, t, i + 1);
        }
    }
}

/// One stsc run: `sample_count` samples in consecutive chunks of
/// `samples_per_chunk` samples each, starting at 0-based `first_sample_index`.
#[derive(Debug, Clone, Copy)]
struct StscRun {
    first_chunk: u32,
    samples_per_chunk: u32,
    sample_description_index: u32,
    first_sample_index: u32,
    sample_count: u32,
}

impl StscRun {
    /// Whether this is the run `i` of the table.
    spec fn is_run(self, stsc: Seq<StscEntry>, chunks: int, i: int) -> bool {
        &&& self.first_chunk == stsc[i].first_chunk
        &&& self.samples_per_chunk == stsc[i].samples_per_chunk
        &&& self.sample_description_index == stsc[i].sample_description_index
        &&& self.first_sample_index == samples_before(stsc, chunks, i)
        &&& self.sample_count == run_len(stsc, chunks, i)
    }
}

/// Walks the chunk runs described by the stsc table. Once a run fails
/// validation the walk stays exhausted and [`StscRuns::failed`] reports that
/// the table was malformed.
struct StscRuns<'a> {
    stsc: &'a [StscEntry],
    final_chunk: u32,
    next_entry: usize,
    first_sample_index: u32,
    failed: bool,
}

impl<'a> StscRuns<'a> {
    spec fn chunks(self) -> int {
        self.final_chunk - 1
    }

    spec fn wf(self) -> bool {
        &&& self.final_chunk >= 1
        &&& self.next_entry <= self.stsc@.len()
        &&& sound_up_to(self.stsc@, self.chunks(), self.next_entry as int)
        &&& self.first_sample_index == samples_before(
            self.stsc@,
            self.chunks(),
            self.next_entry as int,
        )
        &&& self.failed ==> self.next_entry < self.stsc@.len() && !run_sound(
            self.stsc@,
            self.chunks(),
            self.next_entry as int,
        )
    }

    fn new(stsc: &'a [StscEntry], chunk_count: usize) -> (result: Option<Self>)
        ensures
            match result {
                Some(runs) => runs.wf() && runs.stsc == stsc && runs.chunks() == chunk_count
                    && runs.next_entry == 0 && !runs.failed,
                None => chunk_count >= u32::MAX,
            },
    {
        if chunk_count as u64 >= u32::MAX as u64 {
            return None;
        }
        Some(
            StscRuns {
                stsc,
                final_chunk: chunk_count as u32 + 1,
                next_entry: 0,
                first_sample_index: 0,
                failed: false,
            },
        )
    }

    fn failed(&self) -> (result: bool)
        ensures
            result == self.failed,
    {
        self.failed
    }

    /// The next run, while the runs are sound.
    fn next(&mut self) -> (result: Option<StscRun>)
        requires
            old(self).wf(),
        ensures
            final(self).wf(),
            final(self).stsc == old(self).stsc,
            final(self).final_chunk == old(self).final_chunk,
            match result {
                Some(run) => {
                    let i = old(self).next_entry as int;
                    &&& run_sound(old(self).stsc@, old(self).chunks(), i)
                    &&& run.is_run(old(self).stsc@, old(self).chunks(), i)
                    &&& final(self).next_entry == i + 1
                    &&& final(self).failed == old(self).failed
                },
                None => {
                    &&& final(self).next_entry == old(self).next_entry
                    &&& final(self).next_entry == sound_runs(old(self).stsc@, old(self).chunks())
                    &&& final(self).failed == (final(self).next_entry < old(self).stsc@.len())
                },
            },
    {
        proof {
            lemma_sound_runs(self.stsc@, self.chunks(), self.next_entry as int);
            lemma_samples_before_monotone(
                self.stsc@,
                self.chunks(),
                self.next_entry as int,
                self.next_entry as int,
            );
        }
        if self.failed || self.next_entry >= self.stsc.len() {
            return None;
        }
        let entry: StscEntry = self.stsc[self.next_entry];
        let next_chunk: u32 = if self.next_entry + 1 < self.stsc.len() {
            self.stsc[self.next_entry + 1].first_chunk
        } else {
            self.final_chunk
        };
        let ghost i = self.next_entry as int;
        assert(next_chunk == run_end_chunk(self.stsc@, self.chunks(), i));
        if entry.first_chunk < next_chunk && next_chunk <= self.final_chunk {
            let chunk_count: u32 = next_chunk - entry.first_chunk;
            assert(run_len(self.stsc@, self.chunks(), i) == chunk_count * entry.samples_per_chunk);
            assert(chunk_count * entry.samples_per_chunk >= 0) by (nonlinear_arith);
            if let Some(sample_count) = chunk_count.checked_mul(entry.samples_per_chunk) {
                if let Some(run_end) = self.first_sample_index.checked_add(sample_count) {
                    let run = StscRun {
                        first_chunk: entry.first_chunk,
                        samples_per_chunk: entry.samples_per_chunk,
                        sample_description_index: entry.sample_description_index,
                        first_sample_index: self.first_sample_index,
                        sample_count,
                    };
                    assert(samples_before(self.stsc@, self.chunks(), i + 1) == run_end);
                    self.next_entry = self.next_entry + 1;
                    self.first_sample_index = run_end;
                    return Some(run);
                }
            }
        }
        assert(!run_sound(self.stsc@, self.chunks(), i));
        self.failed = true;
        None
    }
}

/// The description index of the sample `n` (1-based).
pub open spec fn description_of(
    n: int,
    sizes: SampleSizes,
    stsc: Seq<StscEntry>,
    chunk_offsets: Seq<u64>,
) -> Option<u32> {
    if !(1 <= n <= sizes.sample_count) || stsc.len() == 0 || stsc[0].first_chunk != 1
        || !(0 < chunk_offsets.len() < u32::MAX) {
        None
    } else {
        match run_of(stsc, chunk_offsets.len() as int, n - 1) {
            Some(run) => Some(stsc[run].sample_description_index),
            None => None,
        }
    }
}

/// The index of the sample description that `sample_index` (1-based) uses.
pub fn sample_description_index(
    sample_index: u32,
    sizes: &SampleSizes,
    stsc: &[StscEntry],
    chunk_offsets: &[u64],
) -> (result: Option<u32>)
    ensures
        result == description_of(sample_index as int, *sizes, stsc@, chunk_offsets@),
{
    if sample_index == 0 || sample_index > sizes.sample_count || stsc.len() == 0
        || stsc[0].first_chunk != 1 || chunk_offsets.len() == 0 {
        return None;
    }
    let target: u32 = sample_index - 1;
    let mut runs = match StscRuns::new(stsc, chunk_offsets.len()) {
        Some(runs) => runs,
        None => {
            return None;
        },
    };
    let ghost chunks = chunk_offsets@.len() as int;
    loop
        invariant
            runs.wf(),
            runs.stsc@ == stsc@,
            runs.chunks() == chunks,
            0 < chunks == chunk_offsets@.len() < u32::MAX,
            1 <= sample_index <= sizes.sample_count,
            target == sample_index - 1,
            stsc@.len() > 0,
            stsc@[0].first_chunk == 1,
            run_of(stsc@, chunks, target as int) == run_of_from(
                stsc@,
                chunks,
                target as int,
                runs.next_entry as int,
            ),
        ensures
            run_of(stsc@, chunks, target as int) is None,
        decreases stsc@.len() - runs.next_entry,
    {
        let ghost entry = runs.next_entry as int;
        match runs.next() {
            Some(run) => {
                let run_end: u32 = run.first_sample_index + run.sample_count;
                if target < run_end {
                    return Some(run.sample_description_index);
                }
            },
            None => {
                proof {
                    lemma_sound_runs(stsc@, chunks, 0);
                }
                break;
            },
        }
    }
    None
}

/// Whether the samples from `start_sample` to `end_sample` (1-based, both
/// included) are all described and every run that reaches into the range, as
/// far as the range goes, uses `description_index`.
pub open spec fn range_described(
    start_sample: int,
    end_sample: int,
    description_index: u32,
    stsc: Seq<StscEntry>,
    chunks: int,
) -> bool {
    &&& 1 <= start_sample <= end_sample
    &&& chunks < u32::MAX
    &&& samples_before(stsc, chunks, sound_runs(stsc, chunks)) >= end_sample
    &&& forall|i: int|
        #![trigger stsc[i]]
        0 <= i < sound_runs(stsc, chunks) && samples_before(stsc, chunks, i) < end_sample
            && samples_before(stsc, chunks, i + 1) >= start_sample
            ==> stsc[i].sample_description_index == description_index
}

/// Checks whether every sample in `start_sample..=end_sample` (1-based) uses
/// `description_index`, walking the stsc runs once.
pub fn range_uses_description_index(
    start_sample: u32,
    end_sample: u32,
    description_index: u32,
    stsc: &[StscEntry],
    chunk_offsets: &[u64],
) -> (result: bool)
    ensures
        result == range_described(
            start_sample as int,
            end_sample as int,
            description_index,
            stsc@,
            chunk_offsets@.len() as int,
        ),
{
    if start_sample == 0 || end_sample < start_sample {
        return false;
    }
    let first: u32 = start_sample - 1;
    let last: u32 = end_sample - 1;
    let mut runs = match StscRuns::new(stsc, chunk_offsets.len()) {
        Some(runs) => runs,
        None => {
            return false;
        },
    };
    let ghost chunks = chunk_offsets@.len() as int;
    proof {
        lemma_sound_runs(stsc@, chunks, 0);
    }
    let mut covered: u32 = 0;
    loop
        invariant
            runs.wf(),
            runs.stsc@ == stsc@,
            runs.chunks() == chunks,
            chunks == chunk_offsets@.len(),
            chunks < u32::MAX,
            first == start_sample - 1,
            last == end_sample - 1,
            1 <= start_sample <= end_sample,
            covered == samples_before(stsc@, chunks, runs.next_entry as int),
            covered <= last,
            0 <= runs.next_entry <= sound_runs(stsc@, chunks) <= stsc@.len(),
            sound_up_to(stsc@, chunks, sound_runs(stsc@, chunks)),
            !run_sound(stsc@, chunks, sound_runs(stsc@, chunks)),
            forall|i: int|
                #![trigger stsc@[i]]
                0 <= i < runs.next_entry && samples_before(stsc@, chunks, i) < end_sample
                    && samples_before(stsc@, chunks, i + 1) >= start_sample
                    ==> stsc@[i].sample_description_index == description_index,
        decreases stsc@.len() - runs.next_entry,
    {
        let ghost entry = runs.next_entry as int;
        match runs.next() {
            Some(run) => {
                assert(entry < sound_runs(stsc@, chunks)) by {
                    lemma_sound_runs(stsc@, chunks, entry + 1);
                }
                covered = run.first_sample_index + run.sample_count;
                if covered > first && run.sample_description_index != description_index {
                    assert(stsc@[entry].sample_description_index != description_index);
                    return false;
                }
                if covered > last {
                    proof {
                        lemma_samples_before_monotone(
                            stsc@,
                            chunks,
                            entry + 1,
                            sound_runs(stsc@, chunks),
                        );
                        assert forall|i: int|
                            #![trigger stsc@[i]]
                            0 <= i < sound_runs(stsc@, chunks) && samples_before(stsc@, chunks, i)
                                < end_sample && samples_before(stsc@, chunks, i + 1)
                                >= start_sample implies stsc@[i].sample_description_index
                            == description_index by {
                            if i > entry {
                                lemma_samples_before_monotone(stsc@, chunks, entry + 1, i);
                            }
                        }
                    }
                    return true;
                }
            },
            None => {
                return false;
            },
        }
    }
}

/// A range uses a description exactly where each of its samples does, as long
/// as no chunk is empty.
pub proof fn lemma_range_described_per_sample(
    start_sample: int,
    end_sample: int,
    description_index: u32,
    sizes: SampleSizes,
    stsc: Seq<StscEntry>,
    chunk_offsets: Seq<u64>,
)
    requires
        1 <= start_sample <= end_sample <= sizes.sample_count,
        0 < chunk_offsets.len() < u32::MAX,
        stsc.len() > 0,
        stsc[0].first_chunk == 1,
        forall|i: int| 0 <= i < stsc.len() ==> (#[trigger] stsc[i]).samples_per_chunk > 0,
    ensures
        range_described(
            start_sample,
            end_sample,
            description_index,
            stsc,
            chunk_offsets.len() as int,
        ) <==> forall|n: int|
            start_sample <= n <= end_sample ==> #[trigger] description_of(
                n,
                sizes,
                stsc,
                chunk_offsets,
            ) == Some(description_index),
{
    let chunks = chunk_offsets.len() as int;
    let total = sound_runs(stsc, chunks);
    let each = forall|n: int|
        start_sample <= n <= end_sample ==> #[trigger] description_of(
            n,
            sizes,
            stsc,
            chunk_offsets,
        ) == Some(description_index);
    lemma_sound_runs(stsc, chunks, 0);
    if range_described(start_sample, end_sample, description_index, stsc, chunks) {
        assert forall|n: int| start_sample <= n <= end_sample implies #[trigger] description_of(
            n,
            sizes,
            stsc,
            chunk_offsets,
        ) == Some(description_index) by {
            lemma_run_of_encloses(stsc, chunks, n - 1, 0);
            let r = run_of(stsc, chunks, n - 1).unwrap();
            assert(stsc[r].sample_description_index == description_index);
        }
    }
    if each {
        assert(samples_before(stsc, chunks, total) >= end_sample) by {
            assert(description_of(end_sample, sizes, stsc, chunk_offsets) is Some);
            if samples_before(stsc, chunks, total) < end_sample {
                lemma_run_of_none(stsc, chunks, end_sample - 1, 0);
            }
        }
        assert forall|i: int|
            #![trigger stsc[i]]
            0 <= i < total && samples_before(stsc, chunks, i) < end_sample && samples_before(
                stsc,
                chunks,
                i + 1,
            ) >= start_sample implies stsc[i].sample_description_index == description_index by {
            assert(run_sound(stsc, chunks, i));
            assert(run_len(stsc, chunks, i) > 0) by (nonlinear_arith)
                requires
                    run_len(stsc, chunks, i) == (run_end_chunk(stsc, chunks, i)
                        - stsc[i].first_chunk) * stsc[i].samples_per_chunk,
                    stsc[i].first_chunk < run_end_chunk(stsc, chunks, i),
                    stsc[i].samples_per_chunk > 0,
            ;
            let n = if samples_before(stsc, chunks, i) + 1 >= start_sample {
                samples_before(stsc, chunks, i) + 1
            } else {
                start_sample
            };
            lemma_run_of(stsc, chunks, n - 1, 0, i);
            assert(description_of(n, sizes, stsc, chunk_offsets) == Some(description_index));
        }
    }
}

// ---------------------------------------------------------------------------
// File offsets
// ---------------------------------------------------------------------------

/// The chunk (1-based) that the sample `t` (0-based) lies in.
pub open spec fn chunk_of(stsc: Seq<StscEntry>, chunks: int, t: int) -> int {
    let run = run_of(stsc, chunks, t).unwrap();
    stsc[run].first_chunk + (t - samples_before(stsc, chunks, run))
        / stsc[run].samples_per_chunk as int
}

/// The first sample (0-based) of the chunk that the sample `t` (0-based) lies in.
pub open spec fn first_in_chunk(stsc: Seq<StscEntry>, chunks: int, t: int) -> int {
    let run = run_of(stsc, chunks, t).unwrap();
    t - (t - samples_before(stsc, chunks, run)) % stsc[run].samples_per_chunk as int
}

/// The number of bytes of the samples from `from` up to `to` (0-based, half-open).
pub open spec fn bytes_between(sizes: SampleSizes, from: int, to: int) -> int
    decreases to - from,
{
    if from >= to {
        0
    } else {
        bytes_between(sizes, from, to - 1) + crate::mp4::samples::size_of_sample(
            sizes,
            to,
        ).unwrap()
    }
}

/// Where the sample `n` (1-based) starts in the file: behind the samples that
/// precede it in its chunk.
pub open spec fn offset_of_sample(
    sizes: SampleSizes,
    stsc: Seq<StscEntry>,
    chunk_offsets: Seq<u64>,
    n: int,
) -> int {
    let chunks = chunk_offsets.len() as int;
    chunk_offsets[chunk_of(stsc, chunks, n - 1) - 1] + bytes_between(
        sizes,
        first_in_chunk(stsc, chunks, n - 1),
        n - 1,
    )
}

/// Whether the sample `n` (1-based) can be placed: it exists, a sound run
/// describes it, and every sample before it has a size and ends inside a
/// 64-bit file.
pub open spec fn locatable(
    sizes: SampleSizes,
    stsc: Seq<StscEntry>,
    chunk_offsets: Seq<u64>,
    n: int,
) -> bool {
    &&& 1 <= n <= sizes.sample_count
    &&& run_of(stsc, chunk_offsets.len() as int, n - 1) is Some
    &&& forall|j: int| 1 <= j < n ==> #[trigger] ends_in_file(sizes, stsc, chunk_offsets, j)
}

pub open spec fn ends_in_file(
    sizes: SampleSizes,
    stsc: Seq<StscEntry>,
    chunk_offsets: Seq<u64>,
    n: int,
) -> bool {
    &&& crate::mp4::samples::size_of_sample(sizes, n) is Some
    &&& offset_of_sample(sizes, stsc, chunk_offsets, n) + crate::mp4::samples::size_of_sample(
        sizes,
        n,
    ).unwrap() <= u64::MAX
}

/// The sample at the place `k` of the chunk `c` of the run `r` is told to lie
/// in that chunk, `k` samples behind its first one.
proof fn lemma_place_of_sample(stsc: Seq<StscEntry>, chunks: int, r: int, c: int, k: int)
    requires
        0 <= r < stsc.len(),
        sound_up_to(stsc, chunks, r + 1),
        stsc[r].first_chunk <= c < run_end_chunk(stsc, chunks, r),
        0 <= k < stsc[r].samples_per_chunk,
    ensures
        ({
            let t = samples_before(stsc, chunks, r) + (c - stsc[r].first_chunk)
                * stsc[r].samples_per_chunk + k;
            &&& samples_before(stsc, chunks, r) <= t < samples_before(stsc, chunks, r + 1)
            &&& run_of(stsc, chunks, t) == Some(r)
            &&& chunk_of(stsc, chunks, t) == c
            &&& first_in_chunk(stsc, chunks, t) == t - k
        }),
{
    let spc = stsc[r].samples_per_chunk as int;
    let into = c - stsc[r].first_chunk;
    let held = run_end_chunk(stsc, chunks, r) - stsc[r].first_chunk;
    let t = samples_before(stsc, chunks, r) + into * spc + k;
    assert(0 <= into * spc) by (nonlinear_arith)
        requires
            0 <= into,
            0 <= spc,
    ;
    assert(into * spc + k < held * spc) by (nonlinear_arith)
        requires
            0 <= into,
            into + 1 <= held,
            k < spc,
            0 < spc,
    ;
    assert(run_len(stsc, chunks, r) == held * spc);
    lemma_run_of(stsc, chunks, t, 0, r);
    vstd::arithmetic::div_mod::lemma_fundamental_div_mod_converse(into * spc + k, spc, into, k);
}

/// Locates samples by file offset, amortizing the stsc and sample-size walks
/// across calls. Queries must be made in non-decreasing sample-index order;
/// out-of-order queries return `None`.
pub struct SampleLocator<'a> {
    sizes: &'a SampleSizes,
    chunk_offsets: &'a [u64],
    runs: StscRuns<'a>,
    run: StscRun,
    chunk_number: u32,
    next_sample: u32,
    next_offset: u64,
    samples_left_in_chunk: u32,
}

impl<'a> SampleLocator<'a> {
    /// The sample sizes that this locator goes by.
    pub closed spec fn sizes(self) -> SampleSizes {
        *self.sizes
    }

    /// The chunk runs that this locator goes by.
    pub closed spec fn stsc(self) -> Seq<StscEntry> {
        self.runs.stsc@
    }

    /// The chunk offsets that this locator goes by.
    pub closed spec fn chunk_offsets(self) -> Seq<u64> {
        self.chunk_offsets@
    }

    /// The sample (1-based) that was located last.
    pub closed spec fn position(self) -> int {
        self.next_sample as int
    }

    spec fn tables_wf(self) -> bool {
        &&& self.runs.wf()
        &&& self.runs.next_entry >= 1
        &&& self.runs.chunks() == self.chunk_offsets@.len()
        &&& self.runs.chunks() < u32::MAX
        &&& self.run.is_run(
            self.runs.stsc@,
            self.runs.chunks(),
            self.runs.next_entry - 1,
        )
        &&& forall|i: int|
            0 <= i < self.runs.stsc@.len() ==> (
            #[trigger] self.runs.stsc@[i]).samples_per_chunk > 0
        &&& self.run.first_chunk <= self.chunk_number < run_end_chunk(
            self.runs.stsc@,
            self.runs.chunks(),
            self.runs.next_entry - 1,
        )
    }

    /// The sample (0-based) that stands behind those walked over.
    spec fn walked(self) -> int {
        self.run.first_sample_index + (self.chunk_number - self.run.first_chunk)
            * self.run.samples_per_chunk + (self.run.samples_per_chunk
            - self.samples_left_in_chunk)
    }

    /// Whether the locator can answer queries. It can from the start and for
    /// as long as no query ran into an unsound table.
    pub closed spec fn ready(self) -> bool {
        &&& self.tables_wf()
        &&& 1 <= self.samples_left_in_chunk <= self.run.samples_per_chunk
        &&& self.next_sample == self.walked() + 1
        &&& self.next_offset == offset_of_sample(
            *self.sizes,
            self.runs.stsc@,
            self.chunk_offsets@,
            self.next_sample as int,
        )
        &&& forall|j: int|
            1 <= j < self.next_sample ==> #[trigger] ends_in_file(
                *self.sizes,
                self.runs.stsc@,
                self.chunk_offsets@,
                j,
            )
    }

    /// Starts at the first sample, if the tables describe a first run.
    pub fn new(
        sizes: &'a SampleSizes,
        stsc: &'a [StscEntry],
        chunk_offsets: &'a [u64],
    ) -> (result: Option<Self>)
        requires
            forall|i: int| 0 <= i < stsc@.len() ==> (#[trigger] stsc@[i]).samples_per_chunk > 0,
        ensures
            match result {
                Some(locator) => {
                    &&& locator.ready()
                    &&& locator.sizes() == *sizes
                    &&& locator.stsc() == stsc@
                    &&& locator.chunk_offsets() == chunk_offsets@
                    &&& locator.position() == 1
                },
                None => true,
            },
            result is Some <==> {
                &&& stsc@.len() > 0
                &&& stsc@[0].first_chunk == 1
                &&& 0 < chunk_offsets@.len() < u32::MAX
                &&& run_sound(stsc@, chunk_offsets@.len() as int, 0)
            },
    {
        if stsc.len() == 0 || stsc[0].first_chunk != 1 || chunk_offsets.len() == 0 {
            return None;
        }
        let mut runs = match StscRuns::new(stsc, chunk_offsets.len()) {
            Some(runs) => runs,
            None => {
                return None;
            },
        };
        let run = match runs.next() {
            Some(run) => run,
            None => {
                proof {
                    lemma_sound_runs(stsc@, chunk_offsets@.len() as int, 0);
                }
                return None;
            },
        };
        proof {
            lemma_place_of_sample(stsc@, chunk_offsets@.len() as int, 0, 1, 0);
        }
        Some(
            SampleLocator {
                sizes,
                chunk_offsets,
                runs,
                run,
                chunk_number: run.first_chunk,
                next_sample: 1,
                next_offset: chunk_offsets[0],
                samples_left_in_chunk: run.samples_per_chunk,
            },
        )
    }

    /// File offset of `sample_index` (1-based).
    ///
    /// Where a sample at or behind the last located one cannot be placed, the
    /// locator has lost its place and is not ready for another query.
    pub fn file_offset(&mut self, sample_index: u32) -> (result: Option<u64>)
        requires
            old(self).ready(),
        ensures
            final(self).sizes() == old(self).sizes(),
            final(self).stsc() == old(self).stsc(),
            final(self).chunk_offsets() == old(self).chunk_offsets(),
            match result {
                Some(offset) => {
                    &&& old(self).position() <= sample_index
                    &&& locatable(
                        old(self).sizes(),
                        old(self).stsc(),
                        old(self).chunk_offsets(),
                        sample_index as int,
                    )
                    &&& offset == offset_of_sample(
                        old(self).sizes(),
                        old(self).stsc(),
                        old(self).chunk_offsets(),
                        sample_index as int,
                    )
                    &&& final(self).ready()
                    &&& final(self).position() == sample_index
                },
                None => sample_index < old(self).position() || !locatable(
                    old(self).sizes(),
                    old(self).stsc(),
                    old(self).chunk_offsets(),
                    sample_index as int,
                ),
            },
            sample_index < old(self).position() || sample_index > old(self).sizes().sample_count
                ==> *final(self) == *old(self),
    {
        if sample_index == 0 || sample_index > self.sizes.sample_count || sample_index
            < self.next_sample {
            return None;
        }
        let ghost sizes = *self.sizes;
        let ghost stsc = self.runs.stsc@;
        let ghost offsets = self.chunk_offsets@;
        while self.next_sample < sample_index
            invariant
                self.ready(),
                sizes == *self.sizes,
                stsc == self.runs.stsc@,
                offsets == self.chunk_offsets@,
                self.sizes == old(self).sizes,
                self.runs.stsc == old(self).runs.stsc,
                self.chunk_offsets == old(self).chunk_offsets,
                old(self).next_sample <= self.next_sample <= sample_index
                    <= self.sizes.sample_count,
            decreases sample_index - self.next_sample,
        {
            let ghost from = *self;
            let ghost r = self.runs.next_entry - 1;
            let ghost k = self.run.samples_per_chunk - self.samples_left_in_chunk;
            let ghost chunks = self.runs.chunks();
            let ghost n = self.next_sample as int;
            proof {
                lemma_place_of_sample(stsc, chunks, r, self.chunk_number as int, k);
            }
            let size: u32 = match sample_size(self.next_sample, self.sizes) {
                Some(size) => size,
                None => {
                    assert(!ends_in_file(sizes, stsc, offsets, n));
                    return None;
                },
            };
            self.next_offset =
            match self.next_offset.checked_add(size as u64) {
                Some(offset) => offset,
                None => {
                    assert(!ends_in_file(sizes, stsc, offsets, n));
                    return None;
                },
            };
            assert(ends_in_file(sizes, stsc, offsets, n));
            self.next_sample = self.next_sample + 1;
            self.samples_left_in_chunk = self.samples_left_in_chunk - 1;
            if self.samples_left_in_chunk == 0 {
                if !self.move_to_next_chunk() {
                    proof {
                        lemma_sound_runs(stsc, chunks, 0);
                        lemma_run_of_none(stsc, chunks, sample_index - 1, 0);
                    }
                    return None;
                }
            } else {
                proof {
                    lemma_place_of_sample(stsc, chunks, r, self.chunk_number as int, k + 1);
                    assert(bytes_between(sizes, n - 1 - k, n) == bytes_between(
                        sizes,
                        n - 1 - k,
                        n - 1,
                    ) + size);
                }
            }
            assert forall|j: int| 1 <= j < self.next_sample implies #[trigger] ends_in_file(
                sizes,
                stsc,
                offsets,
                j,
            ) by {
                if j < n {
                    assert(ends_in_file(*from.sizes, from.runs.stsc@, from.chunk_offsets@, j));
                }
            }
        }
        proof {
            lemma_place_of_sample(
                stsc,
                self.runs.chunks(),
                self.runs.next_entry - 1,
                self.chunk_number as int,
                self.run.samples_per_chunk - self.samples_left_in_chunk,
            );
        }
        Some(self.next_offset)
    }

    /// Moves from the end of one chunk to the start of the next, if a sound
    /// run describes one.
    fn move_to_next_chunk(&mut self) -> (moved: bool)
        requires
            old(self).tables_wf(),
            old(self).samples_left_in_chunk == 0,
            old(self).next_sample == old(self).walked() + 1,
        ensures
            final(self).sizes == old(self).sizes,
            final(self).runs.stsc == old(self).runs.stsc,
            final(self).runs.final_chunk == old(self).runs.final_chunk,
            final(self).chunk_offsets == old(self).chunk_offsets,
            final(self).next_sample == old(self).next_sample,
            moved ==> {
                &&& final(self).tables_wf()
                &&& final(self).samples_left_in_chunk == final(self).run.samples_per_chunk
                &&& final(self).next_sample == final(self).walked() + 1
                &&& final(self).next_offset == offset_of_sample(
                    *old(self).sizes,
                    old(self).runs.stsc@,
                    old(self).chunk_offsets@,
                    old(self).next_sample as int,
                )
            },
            !moved ==> samples_before(
                old(self).runs.stsc@,
                old(self).runs.chunks(),
                sound_runs(old(self).runs.stsc@, old(self).runs.chunks()),
            ) < old(self).next_sample,
    {
        let ghost stsc = self.runs.stsc@;
        let ghost chunks = self.runs.chunks();
        let ghost r = self.runs.next_entry - 1;
        let ghost held = run_end_chunk(stsc, chunks, r) - self.run.first_chunk;
        let ghost spc = self.run.samples_per_chunk as int;
        let ghost into = self.chunk_number - self.run.first_chunk;
        proof {
            assert(run_sound(stsc, chunks, r));
            vstd::arithmetic::div_mod::lemma_fundamental_div_mod_converse(held * spc, spc, held, 0);
            assert(into * spc + spc == (into + 1) * spc) by (nonlinear_arith);
        }
        self.chunk_number = self.chunk_number + 1;
        let run_chunks: u32 = self.run.sample_count / self.run.samples_per_chunk;
        if self.chunk_number >= self.run.first_chunk + run_chunks {
            assert(self.next_sample == samples_before(stsc, chunks, r + 1) + 1);
            match self.runs.next() {
                Some(run) => {
                    self.run = run;
                    self.chunk_number = run.first_chunk;
                },
                None => {
                    return false;
                },
            }
        }
        proof {
            let now = self.runs.next_entry - 1;
            assert(run_sound(stsc, chunks, now));
            lemma_place_of_sample(stsc, chunks, now, self.chunk_number as int, 0);
            assert((self.chunk_number - self.run.first_chunk) * self.run.samples_per_chunk >= 0)
                by (nonlinear_arith)
                requires
                    self.chunk_number >= self.run.first_chunk,
            ;
        }
        self.next_offset = self.chunk_offsets[(self.chunk_number - 1) as usize];
        self.samples_left_in_chunk = self.run.samples_per_chunk;
        true
    }
}

// ---------------------------------------------------------------------------
// Consistency of the tables
// ---------------------------------------------------------------------------

/// Whether the sync samples start with the first sample and all exist.
pub open spec fn sync_samples_sound(samples: Seq<u32>, sample_count: int) -> bool {
    &&& samples.len() > 0
    &&& samples[0] == 1
    &&& forall|i: int| 0 <= i < samples.len() ==> 1 <= #[trigger] samples[i] <= sample_count
}

/// Whether the sample tables agree on the number of samples and refer only to
/// chunks, descriptions and samples that exist.
pub open spec fn tables_agree(
    stts: Seq<u8>,
    composition_offsets: Option<Seq<CompositionOffset>>,
    count: int,
    stsc: Seq<StscEntry>,
    chunk_offsets: Seq<u64>,
    sync_samples: Option<Seq<u32>>,
    sample_description_count: int,
) -> bool {
    let chunks = chunk_offsets.len() as int;
    &&& count > 0
    &&& stsc.len() > 0
    &&& stsc[0].first_chunk == 1
    &&& 0 < chunks < u32::MAX
    &&& sample_description_count > 0
    &&& crate::mp4::timing::stts_count(stts) == Some(count)
    &&& composition_offsets matches Some(offsets) ==> crate::mp4::timing::run_total(
        crate::mp4::timing::ctts_runs(offsets),
    ) == count
    &&& sound_up_to(stsc, chunks, stsc.len() as int)
    &&& samples_before(stsc, chunks, stsc.len() as int) == count
    &&& forall|i: int|
        0 <= i < stsc.len() ==> (#[trigger] stsc[i]).sample_description_index
            <= sample_description_count
    &&& sync_samples matches Some(samples) ==> sync_samples_sound(samples, count)
}

/// Checks that the sample tables agree with each other.
pub fn validate_sample_tables(
    stts: &[u8],
    composition_offsets: Option<&[CompositionOffset]>,
    sizes: &SampleSizes,
    stsc: &[StscEntry],
    chunk_offsets: &[u64],
    sync_samples: Option<&[u32]>,
    sample_description_count: usize,
) -> (result: Option<()>)
    ensures
        result is Some <==> tables_agree(
            stts@,
            crate::mp4::samples::slice_view(composition_offsets),
            sizes.sample_count as int,
            stsc@,
            chunk_offsets@,
            crate::mp4::samples::slice_view(sync_samples),
            sample_description_count as int,
        ),
{
    if sizes.sample_count == 0 || stsc.len() == 0 || stsc[0].first_chunk != 1
        || chunk_offsets.len() == 0 || sample_description_count == 0 {
        return None;
    }
    match stts_sample_count(stts) {
        Some(count) => {
            if count != sizes.sample_count {
                return None;
            }
        },
        None => {
            return None;
        },
    }
    if let Some(offsets) = composition_offsets {
        match composition_sample_count(offsets) {
            Some(count) => {
                if count != sizes.sample_count {
                    return None;
                }
            },
            None => {
                return None;
            },
        }
    }
    let mut runs = match StscRuns::new(stsc, chunk_offsets.len()) {
        Some(runs) => runs,
        None => {
            return None;
        },
    };
    let ghost chunks = chunk_offsets@.len() as int;
    let mut described: u32 = 0;
    loop
        invariant
            runs.wf(),
            runs.stsc@ == stsc@,
            runs.chunks() == chunks,
            described == samples_before(stsc@, chunks, runs.next_entry as int),
            forall|i: int|
                0 <= i < runs.next_entry ==> (#[trigger] stsc@[i]).sample_description_index
                    <= sample_description_count,
            chunks == chunk_offsets@.len(),
        ensures
            runs.next_entry == sound_runs(stsc@, chunks),
            runs.failed == (runs.next_entry < stsc@.len()),
        decreases stsc@.len() - runs.next_entry,
    {
        let ghost entry = runs.next_entry as int;
        match runs.next() {
            Some(run) => {
                if run.sample_description_index as usize > sample_description_count {
                    assert(stsc@[entry].sample_description_index > sample_description_count);
                    return None;
                }
                described = described + run.sample_count;
            },
            None => {
                break;
            },
        }
    }
    proof {
        lemma_sound_runs(stsc@, chunks, 0);
    }
    if runs.failed() || described != sizes.sample_count {
        return None;
    }
    if let Some(samples) = sync_samples {
        if !sync_samples_are_sound(samples, sizes.sample_count) {
            return None;
        }
    }
    Some(())
}

/// The number of samples that composition offsets are for, if it can be counted.
fn composition_sample_count(offsets: &[CompositionOffset]) -> (result: Option<u32>)
    ensures
        match result {
            Some(count) => count == crate::mp4::timing::run_total(
                crate::mp4::timing::ctts_runs(offsets@),
            ),
            None => crate::mp4::timing::run_total(crate::mp4::timing::ctts_runs(offsets@))
                > u32::MAX,
        },
{
    let ghost runs = crate::mp4::timing::ctts_runs(offsets@);
    let mut total: u32 = 0;
    let mut index: usize = 0;
    assert(runs.take(0) =~= Seq::empty());
    while index < offsets.len()
        invariant
            index <= offsets@.len(),
            runs == crate::mp4::timing::ctts_runs(offsets@),
            total == crate::mp4::timing::run_total(runs.take(index as int)),
        decreases offsets@.len() - index,
    {
        proof {
            crate::mp4::timing::lemma_run_total_step(runs, index as int);
            crate::mp4::timing::lemma_run_total_monotone(runs, index + 1, runs.len() as int);
            assert(runs.take(runs.len() as int) =~= runs);
        }
        total =
        match total.checked_add(offsets[index].sample_count) {
            Some(total) => total,
            None => {
                return None;
            },
        };
        index += 1;
    }
    assert(runs.take(runs.len() as int) =~= runs);
    Some(total)
}

fn sync_samples_are_sound(samples: &[u32], sample_count: u32) -> (result: bool)
    ensures
        result == sync_samples_sound(samples@, sample_count as int),
{
    if samples.len() == 0 || samples[0] != 1 {
        return false;
    }
    let mut index: usize = 0;
    while index < samples.len()
        invariant
            index <= samples@.len(),
            forall|i: int| 0 <= i < index ==> 1 <= #[trigger] samples@[i] <= sample_count,
        decreases samples@.len() - index,
    {
        if samples[index] == 0 || samples[index] > sample_count {
            assert(!(1 <= samples@[index as int] <= sample_count));
            return false;
        }
        index += 1;
    }
    true
}

/// Where the sample tables agree, every sample has a description, and it is
/// one of those that exist.
pub proof fn lemma_agreeing_tables_describe_every_sample(
    stts: Seq<u8>,
    composition_offsets: Option<Seq<CompositionOffset>>,
    sizes: SampleSizes,
    stsc: Seq<StscEntry>,
    chunk_offsets: Seq<u64>,
    sync_samples: Option<Seq<u32>>,
    sample_description_count: int,
    n: int,
)
    requires
        tables_agree(
            stts,
            composition_offsets,
            sizes.sample_count as int,
            stsc,
            chunk_offsets,
            sync_samples,
            sample_description_count,
        ),
        1 <= n <= sizes.sample_count,
    ensures
        description_of(n, sizes, stsc, chunk_offsets) matches Some(index) && index
            <= sample_description_count,
{
    let chunks = chunk_offsets.len() as int;
    lemma_sound_runs(stsc, chunks, stsc.len() as int);
    lemma_run_of_encloses(stsc, chunks, n - 1, 0);
}

/// The samples of one chunk stand one behind another: where a sample is not the
/// first of its chunk, it starts where the one before it ends.
pub proof fn lemma_samples_of_a_chunk_are_adjacent(
    sizes: SampleSizes,
    stsc: Seq<StscEntry>,
    chunk_offsets: Seq<u64>,
    n: int,
)
    requires
        n >= 2,
        chunk_offsets.len() > 0,
        forall|i: int| 0 <= i < stsc.len() ==> (#[trigger] stsc[i]).samples_per_chunk > 0,
        locatable(sizes, stsc, chunk_offsets, n),
        first_in_chunk(stsc, chunk_offsets.len() as int, n - 1) < n - 1,
    ensures
        chunk_of(stsc, chunk_offsets.len() as int, n - 2) == chunk_of(
            stsc,
            chunk_offsets.len() as int,
            n - 1,
        ),
        offset_of_sample(sizes, stsc, chunk_offsets, n) == offset_of_sample(
            sizes,
            stsc,
            chunk_offsets,
            n - 1,
        ) + crate::mp4::samples::size_of_sample(sizes, n - 1).unwrap(),
{
    let chunks = chunk_offsets.len() as int;
    lemma_sound_runs(stsc, chunks, 0);
    lemma_run_of_encloses(stsc, chunks, n - 1, 0);
    let r = run_of(stsc, chunks, n - 1).unwrap();
    let spc = stsc[r].samples_per_chunk as int;
    let into = n - 1 - samples_before(stsc, chunks, r);
    let q = into / spc;
    let k = into % spc;
    vstd::arithmetic::div_mod::lemma_fundamental_div_mod(into, spc);
    vstd::arithmetic::div_mod::lemma_mod_bound(into, spc);
    assert(spc * q == q * spc) by (nonlinear_arith);
    vstd::arithmetic::div_mod::lemma_fundamental_div_mod_converse(into - 1, spc, q, k - 1);
    assert(q * spc >= 0) by (nonlinear_arith)
        requires
            q >= 0,
            spc > 0,
    ;
    lemma_run_of(stsc, chunks, n - 2, 0, r);
    assert(bytes_between(sizes, n - 1 - k, n - 1) == bytes_between(sizes, n - 1 - k, n - 2)
        + crate::mp4::samples::size_of_sample(sizes, n - 1).unwrap());
}

/// The first sample of a chunk starts where the chunk table places the chunk.
pub proof fn lemma_chunks_start_at_their_offsets(
    sizes: SampleSizes,
    stsc: Seq<StscEntry>,
    chunk_offsets: Seq<u64>,
    n: int,
)
    requires
        first_in_chunk(stsc, chunk_offsets.len() as int, n - 1) == n - 1,
    ensures
        offset_of_sample(sizes, stsc, chunk_offsets, n) == chunk_offsets[chunk_of(
            stsc,
            chunk_offsets.len() as int,
            n - 1,
        ) - 1],
{
}

/// The samples fill the chunks in order: the first sample is the first of the
/// first chunk. A sample is followed in its own chunk until that holds as many
/// samples as its run says, and then by the first sample of the next chunk.
pub proof fn lemma_samples_fill_the_chunks(stsc: Seq<StscEntry>, chunks: int, t: int)
    requires
        stsc.len() > 0,
        stsc[0].first_chunk == 1,
        chunks > 0,
        t >= 0,
        forall|i: int| 0 <= i < stsc.len() ==> (#[trigger] stsc[i]).samples_per_chunk > 0,
        run_of(stsc, chunks, t) is Some,
        run_of(stsc, chunks, t + 1) is Some,
    ensures
        t == 0 ==> chunk_of(stsc, chunks, t) == 1 && first_in_chunk(stsc, chunks, t) == 0,
        ({
            let held = stsc[run_of(stsc, chunks, t).unwrap()].samples_per_chunk;
            let first = first_in_chunk(stsc, chunks, t);
            &&& first <= t < first + held
            &&& if t + 1 < first + held {
                &&& chunk_of(stsc, chunks, t + 1) == chunk_of(stsc, chunks, t)
                &&& first_in_chunk(stsc, chunks, t + 1) == first
            } else {
                &&& chunk_of(stsc, chunks, t + 1) == chunk_of(stsc, chunks, t) + 1
                &&& first_in_chunk(stsc, chunks, t + 1) == t + 1
            }
        }),
{
    lemma_sound_runs(stsc, chunks, 0);
    lemma_run_of_encloses(stsc, chunks, t, 0);
    lemma_run_of_encloses(stsc, chunks, t + 1, 0);
    let r = run_of(stsc, chunks, t).unwrap();
    let spc = stsc[r].samples_per_chunk as int;
    let into = t - samples_before(stsc, chunks, r);
    let q = into / spc;
    let k = into % spc;
    vstd::arithmetic::div_mod::lemma_fundamental_div_mod(into, spc);
    vstd::arithmetic::div_mod::lemma_mod_bound(into, spc);
    assert(spc * q == q * spc) by (nonlinear_arith);
    assert(q >= 0) by (nonlinear_arith)
        requires
            into >= 0,
            spc > 0,
            q == into / spc,
    ;
    assert(q * spc >= 0) by (nonlinear_arith)
        requires
            q >= 0,
            spc > 0,
    ;
    let end = run_end_chunk(stsc, chunks, r);
    let held = end - stsc[r].first_chunk;
    let next_before = samples_before(stsc, chunks, r + 1);
    assert(next_before == samples_before(stsc, chunks, r) + held * spc);
    if t == 0 {
        lemma_samples_before_monotone(stsc, chunks, 0, r);
        if r > 0 {
            assert(run_sound(stsc, chunks, 0));
            assert(run_len(stsc, chunks, 0) > 0) by (nonlinear_arith)
                requires
                    run_len(stsc, chunks, 0) == (run_end_chunk(stsc, chunks, 0)
                        - stsc[0].first_chunk) * stsc[0].samples_per_chunk,
                    stsc[0].first_chunk < run_end_chunk(stsc, chunks, 0),
                    stsc[0].samples_per_chunk > 0,
            ;
            lemma_samples_before_monotone(stsc, chunks, 1, r);
            assert(samples_before(stsc, chunks, 1) == run_len(stsc, chunks, 0)) by {
                reveal_with_fuel(samples_before, 2);
            }
        }
        assert(into == 0);
        vstd::arithmetic::div_mod::lemma_fundamental_div_mod_converse(0, spc, 0, 0);
    }
    if k + 1 < spc {
        assert(q < held) by (nonlinear_arith)
            requires
                q * spc + k < held * spc,
                0 <= k,
                spc > 0,
        ;
        assert(q * spc + k + 1 < held * spc) by (nonlinear_arith)
            requires
                q < held,
                k + 1 < spc,
                spc > 0,
        ;
        lemma_run_of(stsc, chunks, t + 1, 0, r);
        vstd::arithmetic::div_mod::lemma_fundamental_div_mod_converse(into + 1, spc, q, k + 1);
    } else {
        assert((q + 1) * spc == q * spc + spc) by (nonlinear_arith);
        if t + 1 < next_before {
            lemma_run_of(stsc, chunks, t + 1, 0, r);
            vstd::arithmetic::div_mod::lemma_fundamental_div_mod_converse(
                into + 1,
                spc,
                q + 1,
                0,
            );
        } else {
            assert(t + 1 == next_before);
            assert(q + 1 == held) by (nonlinear_arith)
                requires
                    (q + 1) * spc == held * spc,
                    spc > 0,
            ;
            let s = run_of(stsc, chunks, t + 1).unwrap();
            assert(s >= r + 1) by {
                if s <= r {
                    lemma_samples_before_monotone(stsc, chunks, s + 1, r + 1);
                }
            }
            if s > r + 1 {
                assert(run_sound(stsc, chunks, r + 1));
                assert(run_len(stsc, chunks, r + 1) > 0) by (nonlinear_arith)
                    requires
                        run_len(stsc, chunks, r + 1) == (run_end_chunk(stsc, chunks, r + 1)
                            - stsc[r + 1].first_chunk) * stsc[r + 1].samples_per_chunk,
                        stsc[r + 1].first_chunk < run_end_chunk(stsc, chunks, r + 1),
                        stsc[r + 1].samples_per_chunk > 0,
                ;
                lemma_samples_before_monotone(stsc, chunks, r + 2, s);
                assert(samples_before(stsc, chunks, r + 2) == next_before + run_len(
                    stsc,
                    chunks,
                    r + 1,
                ));
            }
            assert(s == r + 1);
            vstd::arithmetic::div_mod::lemma_fundamental_div_mod_converse(
                0,
                stsc[s].samples_per_chunk as int,
                0,
                0,
            );
        }
    }
}

/// The description of a sample is that of the run of chunks that its own chunk
/// belongs to.
pub proof fn lemma_description_is_that_of_the_chunk(
    sizes: SampleSizes,
    stsc: Seq<StscEntry>,
    chunk_offsets: Seq<u64>,
    n: int,
    i: int,
)
    requires
        1 <= n <= sizes.sample_count,
        0 < chunk_offsets.len() < u32::MAX,
        stsc.len() > 0,
        stsc[0].first_chunk == 1,
        forall|j: int| 0 <= j < stsc.len() ==> (#[trigger] stsc[j]).samples_per_chunk > 0,
        sound_up_to(stsc, chunk_offsets.len() as int, stsc.len() as int),
        run_of(stsc, chunk_offsets.len() as int, n - 1) is Some,
        0 <= i < stsc.len(),
        stsc[i].first_chunk <= chunk_of(stsc, chunk_offsets.len() as int, n - 1),
        i + 1 < stsc.len() ==> chunk_of(stsc, chunk_offsets.len() as int, n - 1) < stsc[i
            + 1].first_chunk,
    ensures
        description_of(n, sizes, stsc, chunk_offsets) == Some(stsc[i].sample_description_index),
{
    let chunks = chunk_offsets.len() as int;
    let t = n - 1;
    lemma_sound_runs(stsc, chunks, 0);
    lemma_run_of_encloses(stsc, chunks, t, 0);
    let r = run_of(stsc, chunks, t).unwrap();
    let spc = stsc[r].samples_per_chunk as int;
    let into = t - samples_before(stsc, chunks, r);
    let held = run_end_chunk(stsc, chunks, r) - stsc[r].first_chunk;
    let q = into / spc;
    assert(0 <= q < held) by (nonlinear_arith)
        requires
            0 <= into < held * spc,
            spc > 0,
            q == into / spc,
    ;
    if i < r {
        lemma_first_chunks_ascend(stsc, chunks, i + 1, r);
    }
    if r < i {
        lemma_first_chunks_ascend(stsc, chunks, r + 1, i);
    }
}

proof fn lemma_first_chunks_ascend(stsc: Seq<StscEntry>, chunks: int, i: int, j: int)
    requires
        0 <= i <= j < stsc.len(),
        sound_up_to(stsc, chunks, stsc.len() as int),
    ensures
        stsc[i].first_chunk <= stsc[j].first_chunk,
    decreases j - i,
{
    if i < j {
        lemma_first_chunks_ascend(stsc, chunks, i, j - 1);
        assert(run_sound(stsc, chunks, j - 1));
    }
}

} // verus!
