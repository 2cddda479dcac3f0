//! Sample reads whose cost is shared by all tracks of one request.

use vstd::prelude::*;

use crate::errors::{invalid_format, other_error, MediaParserError};
use crate::mp4::sample_reads::{bytes_read_up_to, plan_reads, PlanFault, PlanRoom, ReadBatch};
use crate::mp4::samples::{SampleSizes, StscEntry};
use crate::strings::{decimal_text, join2, join3};

verus! {

/// How much the reads of one request may cost.
#[derive(Debug, Clone, Copy)]
pub struct SampleReadLimits {
    /// The most samples that all tracks together may want.
    pub max_samples: usize,
    /// The most bytes that one sample may have.
    pub max_sample_bytes: usize,
    /// The most bytes that all samples together may have.
    pub max_logical_bytes: usize,
    /// The most bytes that all reads together may bring, gaps included.
    pub max_physical_bytes: usize,
    /// The most reads.
    pub max_regions: usize,
    /// The most bytes that reads are joined to.
    pub max_region_bytes: usize,
    /// The widest gap between samples that are read together.
    pub max_coalesce_gap_bytes: u64,
}

impl SampleReadLimits {
    /// Whether the bytes of one sample beyond the limit can still be counted.
    pub open spec fn countable(self) -> bool {
        self.max_sample_bytes + self.max_logical_bytes <= usize::MAX
    }
}

/// What the reads of one request have cost so far.
#[derive(Debug, Clone, Copy, PartialEq, Eq, Structural)]
pub struct SampleReadBudget {
    pub samples: usize,
    pub logical_bytes: usize,
    pub physical_bytes: usize,
    pub regions: usize,
}

/// Why samples are not read.
#[derive(Debug)]
pub enum SampleReadError {
    /// The track cannot be read; others can.
    Track(MediaParserError),
    /// The request as a whole cannot go on.
    Fatal(MediaParserError),
}

/// Why samples are not read, in words.
pub enum ReadFault {
    Track(Seq<char>),
    Fatal(Seq<char>),
}

impl Default for SampleReadBudget {
    fn default() -> (result: Self)
        ensures
            result == (SampleReadBudget {
                samples: 0,
                logical_bytes: 0,
                physical_bytes: 0,
                regions: 0,
            }),
    {
        SampleReadBudget { samples: 0, logical_bytes: 0, physical_bytes: 0, regions: 0 }
    }
}

impl SampleReadBudget {
    /// Nothing is spent beyond its limit.
    pub open spec fn in_limits(self, limits: SampleReadLimits) -> bool {
        &&& self.samples <= limits.max_samples
        &&& self.logical_bytes <= limits.max_logical_bytes
        &&& self.physical_bytes <= limits.max_physical_bytes
        &&& self.regions <= limits.max_regions
    }
}

/// The words for a fault of a track's samples.
pub open spec fn sample_fault_text(fault: PlanFault) -> Seq<char> {
    match fault {
        PlanFault::NoTables => "could not locate samples"@,
        PlanFault::Unlocatable(n) => "could not locate sample "@ + crate::strings::decimal(
            n as int,
        ),
        PlanFault::Unsized(n) => "could not read sample "@ + crate::strings::decimal(n as int)
            + " size"@,
        PlanFault::BadSize(size) => "invalid sample size: "@ + crate::strings::decimal(size as int)
            + " bytes"@,
        PlanFault::TooManyBytes(_) => too_many_bytes(),
        PlanFault::OffsetOverflow => "sample offset overflow"@,
        PlanFault::Overlap => "overlapping samples"@,
        PlanFault::BatchTooLarge => "sample batch is too large"@,
    }
}

pub open spec fn too_many_samples() -> Seq<char> {
    "too many samples; select by track ID or language, or request a narrower time range"@
}

pub open spec fn too_many_bytes() -> Seq<char> {
    "sample data is too large; select by track ID or language, or request a narrower time range"@
}

pub open spec fn too_many_read_bytes() -> Seq<char> {
    "sample reads are too large; select by track ID or language, or request a narrower time range"@
}

pub open spec fn too_many_regions() -> Seq<char> {
    "too many sample read batches; select by track ID or language, or request a narrower time range"@
}

/// The bytes of the first `k` samples of a batch.
pub open spec fn slices_size(
    samples: Seq<crate::mp4::sample_reads::SampleSlice>,
    k: int,
) -> int
    decreases k,
{
    if k <= 0 {
        0
    } else {
        slices_size(samples, k - 1) + samples[k - 1].size
    }
}

/// The bytes of the samples in the first `k` batches.
pub open spec fn bytes_wanted(batches: Seq<crate::mp4::sample_reads::BatchView>, k: int) -> int
    decreases k,
{
    if k <= 0 {
        0
    } else {
        bytes_wanted(batches, k - 1) + slices_size(
            batches[k - 1].samples,
            batches[k - 1].samples.len() as int,
        )
    }
}

/// What is left of a limit.
pub open spec fn left_of(limit: usize, used: usize) -> int {
    if used <= limit {
        limit - used
    } else {
        0
    }
}

/// The reads for the wanted samples of a track within what a request has left,
/// or why there are none.
pub open spec fn sample_plan(
    wanted: Seq<u32>,
    sizes: SampleSizes,
    stsc: Seq<StscEntry>,
    chunk_offsets: Seq<u64>,
    limits: SampleReadLimits,
    used: SampleReadBudget,
) -> Result<Seq<crate::mp4::sample_reads::BatchView>, ReadFault> {
    if used.samples + wanted.len() > limits.max_samples {
        Err(ReadFault::Fatal(too_many_samples()))
    } else {
        match crate::mp4::sample_reads::read_plan(
            wanted,
            sizes,
            stsc,
            chunk_offsets,
            limits.max_sample_bytes as int,
            left_of(limits.max_logical_bytes, used.logical_bytes),
            limits.max_coalesce_gap_bytes as int,
            limits.max_region_bytes as int,
        ) {
            Err(PlanFault::TooManyBytes(_)) => Err(ReadFault::Fatal(too_many_bytes())),
            Err(fault) => Err(ReadFault::Track(sample_fault_text(fault))),
            Ok(batches) => if used.regions + batches.len() > limits.max_regions {
                Err(ReadFault::Fatal(too_many_regions()))
            } else if crate::mp4::sample_reads::bytes_read(batches) > left_of(
                limits.max_physical_bytes,
                used.physical_bytes,
            ) {
                Err(ReadFault::Fatal(too_many_read_bytes()))
            } else if bytes_wanted(batches, batches.len() as int) > left_of(
                limits.max_logical_bytes,
                used.logical_bytes,
            ) {
                Err(ReadFault::Fatal(too_many_bytes()))
            } else {
                Ok(batches)
            },
        }
    }
}

/// What a request has spent once it has also paid for a plan.
pub open spec fn spent_on(
    used: SampleReadBudget,
    wanted: Seq<u32>,
    batches: Seq<crate::mp4::sample_reads::BatchView>,
) -> SampleReadBudget {
    SampleReadBudget {
        samples: (used.samples + wanted.len()) as usize,
        logical_bytes: (used.logical_bytes + bytes_wanted(batches, batches.len() as int)) as usize,
        physical_bytes: (used.physical_bytes + crate::mp4::sample_reads::bytes_read(
            batches,
        )) as usize,
        regions: (used.regions + batches.len()) as usize,
    }
}

/// Whether an error is the one for a fault.
pub open spec fn reports_fault(error: SampleReadError, fault: ReadFault) -> bool {
    match (error, fault) {
        (SampleReadError::Track(error), ReadFault::Track(text)) => error@
            == crate::errors::ErrorView::InvalidFormat(text),
        (SampleReadError::Fatal(error), ReadFault::Fatal(text)) => error@
            == crate::errors::ErrorView::Other(text),
        _ => false,
    }
}

/// Whether an error is the one for a plan that the allocator has no room for.
pub open spec fn reports_no_room(error: SampleReadError) -> bool {
    match error {
        SampleReadError::Track(_) => false,
        SampleReadError::Fatal(error) => error@ == crate::errors::ErrorView::Other(no_room()),
    }
}

/// The words for a plan that the allocator has no room for.
pub open spec fn no_room() -> Seq<char> {
    "MP4 sample read allocation failed"@
}

fn sample_fault(fault: PlanFault) -> (result: MediaParserError)
    ensures
        result@ == crate::errors::ErrorView::InvalidFormat(sample_fault_text(fault)),
{
    match fault {
        PlanFault::NoTables => invalid_format("could not locate samples"),
        PlanFault::Unlocatable(n) => MediaParserError::InvalidFormat(
            join2("could not locate sample ", decimal_text(n as u64).as_str()),
        ),
        PlanFault::Unsized(n) => MediaParserError::InvalidFormat(
            join3("could not read sample ", decimal_text(n as u64).as_str(), " size"),
        ),
        PlanFault::BadSize(size) => MediaParserError::InvalidFormat(
            join3("invalid sample size: ", decimal_text(size as u64).as_str(), " bytes"),
        ),
        PlanFault::TooManyBytes(_) => invalid_format(
            "sample data is too large; select by track ID or language, or request a narrower time range",
        ),
        PlanFault::OffsetOverflow => invalid_format("sample offset overflow"),
        PlanFault::Overlap => invalid_format("overlapping samples"),
        PlanFault::BatchTooLarge => invalid_format("sample batch is too large"),
    }
}

/// The bytes of a batch's samples, if they are `limit` at most.
fn slices_size_up_to(batch: &ReadBatch, limit: usize) -> (result: Option<usize>)
    ensures
        match result {
            Some(total) => total == slices_size(batch.samples@, batch.samples@.len() as int)
                && total <= limit,
            None => slices_size(batch.samples@, batch.samples@.len() as int) > limit,
        },
{
    let mut total: usize = 0;
    let mut index: usize = 0;
    while index < batch.samples.len()
        invariant
            index <= batch.samples@.len(),
            total == slices_size(batch.samples@, index as int),
            total <= limit,
        decreases batch.samples@.len() - index,
    {
        if batch.samples[index].size > limit - total {
            proof {
                lemma_slices_size_monotone(
                    batch.samples@,
                    index + 1,
                    batch.samples@.len() as int,
                );
            }
            return None;
        }
        total += batch.samples[index].size;
        index += 1;
    }
    Some(total)
}

proof fn lemma_slices_size_monotone(
    samples: Seq<crate::mp4::sample_reads::SampleSlice>,
    i: int,
    j: int,
)
    requires
        0 <= i <= j <= samples.len(),
    ensures
        0 <= slices_size(samples, i) <= slices_size(samples, j),
    decreases j,
{
    if j > 0 {
        lemma_slices_size_monotone(samples, if i < j { i } else { j - 1 }, j - 1);
    }
}

proof fn lemma_bytes_wanted_monotone(
    batches: Seq<crate::mp4::sample_reads::BatchView>,
    i: int,
    j: int,
)
    requires
        0 <= i <= j <= batches.len(),
    ensures
        0 <= bytes_wanted(batches, i) <= bytes_wanted(batches, j),
    decreases j,
{
    if j > 0 {
        let last = batches[j - 1].samples;
        lemma_slices_size_monotone(last, 0, last.len() as int);
        lemma_bytes_wanted_monotone(batches, if i < j { i } else { j - 1 }, j - 1);
    }
}

/// The bytes of all samples in the batches, if they are `limit` at most.
fn bytes_wanted_up_to(batches: &Vec<ReadBatch>, limit: usize) -> (result: Option<usize>)
    ensures
        ({
            let views = crate::mp4::sample_reads::batch_views(batches@);
            match result {
                Some(total) => total == bytes_wanted(views, views.len() as int) && total <= limit,
                None => bytes_wanted(views, views.len() as int) > limit,
            }
        }),
{
    let ghost views = crate::mp4::sample_reads::batch_views(batches@);
    let mut total: usize = 0;
    let mut index: usize = 0;
    while index < batches.len()
        invariant
            index <= batches@.len(),
            views == crate::mp4::sample_reads::batch_views(batches@),
            total == bytes_wanted(views, index as int),
            total <= limit,
        decreases batches@.len() - index,
    {
        assert(views[index as int] == batches@[index as int]@);
        match slices_size_up_to(&batches[index], limit - total) {
            Some(bytes) => {
                total += bytes;
            },
            None => {
                proof {
                    lemma_bytes_wanted_monotone(views, index + 1, views.len() as int);
                }
                return None;
            },
        }
        index += 1;
    }
    Some(total)
}

/// Plans the reads of a track's samples and charges them to the request.
///
/// A fault of the track's own tables leaves the request as it was, and so does
/// a limit that would be exceeded.
pub fn plan_sample_reads(
    wanted: &[u32],
    sizes: &SampleSizes,
    stsc: &[StscEntry],
    chunk_offsets: &[u64],
    limits: SampleReadLimits,
    used: &mut SampleReadBudget,
) -> (result: Result<Vec<ReadBatch>, SampleReadError>)
    requires
        crate::mp4::sample_reads::chunks_filled(stsc@),
        limits.countable(),
    ensures
        old(used).in_limits(limits) ==> final(used).in_limits(limits),
        ({
            let plan = sample_plan(wanted@, *sizes, stsc@, chunk_offsets@, limits, *old(used));
            match result {
                Ok(batches) => {
                    &&& plan == Ok::<Seq<crate::mp4::sample_reads::BatchView>, ReadFault>(
                        crate::mp4::sample_reads::batch_views(batches@),
                    )
                    &&& old(used).in_limits(limits) ==> *final(used) == spent_on(
                        *old(used),
                        wanted@,
                        crate::mp4::sample_reads::batch_views(batches@),
                    )
                },
                Err(error) => {
                    &&& *final(used) == *old(used)
                    &&& plan is Err && reports_fault(error, plan->Err_0) || wanted@.len() > 0
                        && old(used).samples + wanted@.len() <= limits.max_samples
                        && reports_no_room(error)
                },
            }
        }),
{
    let wanted_count: usize = wanted.len();
    if wanted_count > limits.max_samples || used.samples > limits.max_samples - wanted_count {
        return Err(
            SampleReadError::Fatal(
                other_error(
                    "too many samples; select by track ID or language, or request a narrower time range",
                ),
            ),
        );
    }
    let logical_left: usize = limits.max_logical_bytes.saturating_sub(used.logical_bytes);
    let physical_left: usize = limits.max_physical_bytes.saturating_sub(used.physical_bytes);
    let room = match PlanRoom::reserve(wanted_count) {
        Some(room) => room,
        None => {
            return Err(SampleReadError::Fatal(other_error("MP4 sample read allocation failed")));
        },
    };
    let batches = match plan_reads(
        wanted,
        sizes,
        stsc,
        chunk_offsets,
        limits.max_sample_bytes,
        logical_left,
        limits.max_coalesce_gap_bytes,
        limits.max_region_bytes,
        room,
    ) {
        Ok(batches) => batches,
        Err(PlanFault::TooManyBytes(_)) => {
            return Err(
                SampleReadError::Fatal(
                    other_error(
                        "sample data is too large; select by track ID or language, or request a narrower time range",
                    ),
                ),
            );
        },
        Err(fault) => {
            return Err(SampleReadError::Track(sample_fault(fault)));
        },
    };
    let region_count: usize = batches.len();
    if region_count > limits.max_regions || used.regions > limits.max_regions - region_count {
        return Err(
            SampleReadError::Fatal(
                other_error(
                    "too many sample read batches; select by track ID or language, or request a narrower time range",
                ),
            ),
        );
    }
    let physical: usize = match bytes_read_up_to(&batches, physical_left) {
        Some(physical) => physical,
        None => {
            return Err(
                SampleReadError::Fatal(
                    other_error(
                        "sample reads are too large; select by track ID or language, or request a narrower time range",
                    ),
                ),
            );
        },
    };
    let logical: usize = match bytes_wanted_up_to(&batches, logical_left) {
        Some(logical) => logical,
        None => {
            return Err(
                SampleReadError::Fatal(
                    other_error(
                        "sample data is too large; select by track ID or language, or request a narrower time range",
                    ),
                ),
            );
        },
    };
    used.samples = used.samples + wanted_count;
    used.regions = used.regions + region_count;
    used.physical_bytes = used.physical_bytes.saturating_add(physical);
    used.logical_bytes = used.logical_bytes.saturating_add(logical);
    Ok(batches)
}

/// Reads that are granted stay within the limits of the request, and are counted
/// in full: the samples that were asked for, the batches, the bytes that they read
/// and those of the samples in them.
pub proof fn lemma_granted_reads_stay_in_limits(
    wanted: Seq<u32>,
    sizes: SampleSizes,
    stsc: Seq<StscEntry>,
    chunk_offsets: Seq<u64>,
    limits: SampleReadLimits,
    used: SampleReadBudget,
)
    requires
        used.in_limits(limits),
        sample_plan(wanted, sizes, stsc, chunk_offsets, limits, used) is Ok,
    ensures
        ({
            let batches = sample_plan(
                wanted,
                sizes,
                stsc,
                chunk_offsets,
                limits,
                used,
            )->Ok_0;
            let spent = spent_on(used, wanted, batches);
            &&& spent.samples <= limits.max_samples
            &&& spent.regions <= limits.max_regions
            &&& spent.physical_bytes <= limits.max_physical_bytes
            &&& spent.logical_bytes <= limits.max_logical_bytes
            &&& spent.samples == used.samples + wanted.len()
            &&& spent.regions == used.regions + batches.len()
            &&& spent.physical_bytes == used.physical_bytes + crate::mp4::sample_reads::bytes_read(
                batches,
            )
            &&& spent.logical_bytes == used.logical_bytes + bytes_wanted(
                batches,
                batches.len() as int,
            )
        }),
{
    let batches = sample_plan(wanted, sizes, stsc, chunk_offsets, limits, used)->Ok_0;
    lemma_bytes_wanted_nonnegative(batches, batches.len() as int);
    lemma_bytes_read_nonnegative(wanted, sizes, stsc, chunk_offsets, limits, used);
}

proof fn lemma_bytes_wanted_nonnegative(
    batches: Seq<crate::mp4::sample_reads::BatchView>,
    k: int,
)
    ensures
        bytes_wanted(batches, k) >= 0,
    decreases k,
{
    if k > 0 {
        lemma_bytes_wanted_nonnegative(batches, k - 1);
        lemma_slices_nonnegative(batches[k - 1].samples, batches[k - 1].samples.len() as int);
    }
}

proof fn lemma_slices_nonnegative(samples: Seq<crate::mp4::sample_reads::SampleSlice>, k: int)
    ensures
        slices_size(samples, k) >= 0,
    decreases k,
{
    if k > 0 {
        lemma_slices_nonnegative(samples, k - 1);
    }
}

proof fn lemma_bytes_read_nonnegative(
    wanted: Seq<u32>,
    sizes: SampleSizes,
    stsc: Seq<StscEntry>,
    chunk_offsets: Seq<u64>,
    limits: SampleReadLimits,
    used: SampleReadBudget,
)
    requires
        sample_plan(wanted, sizes, stsc, chunk_offsets, limits, used) is Ok,
    ensures
        crate::mp4::sample_reads::bytes_read(
            sample_plan(wanted, sizes, stsc, chunk_offsets, limits, used)->Ok_0,
        ) >= 0,
{
    let batches = sample_plan(wanted, sizes, stsc, chunk_offsets, limits, used)->Ok_0;
    crate::mp4::sample_reads::lemma_plan_brings_the_wanted_samples(
        wanted,
        sizes,
        stsc,
        chunk_offsets,
        limits.max_sample_bytes as int,
        left_of(limits.max_logical_bytes, used.logical_bytes),
        limits.max_coalesce_gap_bytes as int,
        limits.max_region_bytes as int,
    );
    lemma_sound_batches_read(batches, limits.max_region_bytes as int);
}

proof fn lemma_sound_batches_read(
    batches: Seq<crate::mp4::sample_reads::BatchView>,
    max_batch: int,
)
    requires
        crate::mp4::sample_reads::batches_sound(batches, max_batch),
    ensures
        crate::mp4::sample_reads::bytes_read(batches) >= 0,
    decreases batches.len(),
{
    if batches.len() > 0 {
        let shorter = batches.drop_last();
        assert(crate::mp4::sample_reads::batch_sound(batches[batches.len() - 1], max_batch));
        assert forall|b: int|
            0 <= b < shorter.len() implies #[trigger] crate::mp4::sample_reads::batch_sound(
            shorter[b],
            max_batch,
        ) by {
            assert(crate::mp4::sample_reads::batch_sound(batches[b], max_batch));
        }
        assert forall|a: int, b: int| 0 <= a < b < shorter.len() implies (
        #[trigger] shorter[a]).offset + shorter[a].size <= (#[trigger] shorter[b]).offset by {
            assert(batches[a].offset + batches[a].size <= batches[b].offset);
        }
        lemma_sound_batches_read(shorter, max_batch);
    }
}

} // verus!
