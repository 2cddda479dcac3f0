//! Bounded, coalesced sample reads for MP4 thumbnail extraction.

use vstd::prelude::*;

use crate::errors::{invalid_format, MediaParserError};
use crate::mp4::sample_reads::{
    batch_fault, bytes_read_up_to, plan_reads, take_apart, PlanFault, PlanRoom, ReadBatch,
    SplitFault,
};
use crate::mp4::samples::{SampleSizes, StscEntry};
use crate::strings::{decimal_text, join2, join3};

verus! {

/// The most bytes that one video sample may have.
pub const MAX_FRAME_BYTES: usize = 67_108_864;

/// The most bytes that one thumbnail batch may bring and read.
pub const MAX_THUMBNAIL_BATCH_BYTES: usize = 134_217_728;

/// The most bytes that reads are joined to.
pub const MAX_COALESCED_READ_BYTES: usize = 67_108_864;

/// The most samples that one thumbnail batch may want.
pub const MAX_SAMPLES_PER_THUMBNAIL_BATCH: usize = 16_384;

/// The widest gap between samples that are read together.
pub const READ_COALESCE_GAP_BYTES: u64 = 32_768;

/// The most reads that are under way at one time.
pub const MAX_CONCURRENT_READS: usize = 4;

/// The words for a fault of a thumbnail plan.
pub open spec fn plan_fault_text(fault: PlanFault) -> Seq<char> {
    match fault {
        PlanFault::NoTables => "could not locate samples"@,
        PlanFault::Unlocatable(n) => "could not locate sample "@ + crate::strings::decimal(
            n as int,
        ),
        PlanFault::Unsized(n) => "could not read sample "@ + crate::strings::decimal(n as int)
            + " size"@,
        PlanFault::BadSize(size) => "invalid thumbnail sample size: "@ + crate::strings::decimal(
            size as int,
        ) + " bytes"@,
        PlanFault::TooManyBytes(total) => "thumbnail sample batch is too large: "@
            + crate::strings::decimal(total as int) + " bytes"@,
        PlanFault::OffsetOverflow => "sample offset overflow"@,
        PlanFault::Overlap => "overlapping video samples"@,
        PlanFault::BatchTooLarge => "sample batch is too large"@,
    }
}

fn plan_error(fault: PlanFault) -> (result: MediaParserError)
    ensures
        result@ == crate::errors::ErrorView::InvalidFormat(plan_fault_text(fault)),
{
    match fault {
        PlanFault::NoTables => invalid_format("could not locate samples"),
        PlanFault::Unlocatable(n) => MediaParserError::InvalidFormat(
            join2("could not locate sample ", decimal_text(n as u64).as_str()),
        ),
        PlanFault::Unsized(n) => MediaParserError::InvalidFormat(
            join3("could not read sample ", decimal_text(n as u64).as_str(), " size"),
        ),
        PlanFault::BadSize(size) => MediaParserError::InvalidFormat(
            join3(
                "invalid thumbnail sample size: ",
                decimal_text(size as u64).as_str(),
                " bytes",
            ),
        ),
        PlanFault::TooManyBytes(total) => MediaParserError::InvalidFormat(
            join3(
                "thumbnail sample batch is too large: ",
                decimal_text(total as u64).as_str(),
                " bytes",
            ),
        ),
        PlanFault::OffsetOverflow => invalid_format("sample offset overflow"),
        PlanFault::Overlap => invalid_format("overlapping video samples"),
        PlanFault::BatchTooLarge => invalid_format("sample batch is too large"),
    }
}

/// The plan for a thumbnail batch, or the words for why there is none.
pub open spec fn thumbnail_plan(
    sample_indices: Seq<u32>,
    sizes: SampleSizes,
    stsc: Seq<StscEntry>,
    chunk_offsets: Seq<u64>,
) -> Result<Seq<crate::mp4::sample_reads::BatchView>, Seq<char>> {
    if sample_indices.len() > MAX_SAMPLES_PER_THUMBNAIL_BATCH {
        Err("too many thumbnail samples"@)
    } else {
        match crate::mp4::sample_reads::read_plan(
            sample_indices,
            sizes,
            stsc,
            chunk_offsets,
            MAX_FRAME_BYTES as int,
            MAX_THUMBNAIL_BATCH_BYTES as int,
            READ_COALESCE_GAP_BYTES as int,
            MAX_COALESCED_READ_BYTES as int,
        ) {
            Err(fault) => Err(plan_fault_text(fault)),
            Ok(batches) => if crate::mp4::sample_reads::bytes_read(batches)
                > MAX_THUMBNAIL_BATCH_BYTES {
                Err("coalesced thumbnail reads are too large"@)
            } else {
                Ok(batches)
            },
        }
    }
}

/// Plans the reads for a thumbnail batch. Where the allocator has no room for a
/// plan, there are too many samples.
pub fn plan_read_batches(
    sample_indices: &[u32],
    sizes: &SampleSizes,
    stsc: &[StscEntry],
    chunk_offsets: &[u64],
) -> (result: Result<Vec<ReadBatch>, MediaParserError>)
    requires
        crate::mp4::sample_reads::chunks_filled(stsc@),
    ensures
        ({
            let plan = thumbnail_plan(sample_indices@, *sizes, stsc@, chunk_offsets@);
            match result {
                Ok(planned) => plan == Ok::<
                    Seq<crate::mp4::sample_reads::BatchView>,
                    Seq<char>,
                >(crate::mp4::sample_reads::batch_views(planned@)),
                Err(error) => {
                    ||| plan matches Err(text) && error@
                        == crate::errors::ErrorView::InvalidFormat(text)
                    ||| 0 < sample_indices@.len() <= MAX_SAMPLES_PER_THUMBNAIL_BATCH && error@
                        == crate::errors::ErrorView::InvalidFormat("too many thumbnail samples"@)
                },
            }
        }),
{
    if sample_indices.len() > MAX_SAMPLES_PER_THUMBNAIL_BATCH {
        return Err(invalid_format("too many thumbnail samples"));
    }
    let room = match PlanRoom::reserve(sample_indices.len()) {
        Some(room) => room,
        None => {
            return Err(invalid_format("too many thumbnail samples"));
        },
    };
    match plan_reads(
        sample_indices,
        sizes,
        stsc,
        chunk_offsets,
        MAX_FRAME_BYTES,
        MAX_THUMBNAIL_BATCH_BYTES,
        READ_COALESCE_GAP_BYTES,
        MAX_COALESCED_READ_BYTES,
        room,
    ) {
        Ok(batches) => {
            match bytes_read_up_to(&batches, MAX_THUMBNAIL_BATCH_BYTES) {
                Some(_) => Ok(batches),
                None => Err(invalid_format("coalesced thumbnail reads are too large")),
            }
        },
        Err(fault) => Err(plan_error(fault)),
    }
}

/// The words for a batch that cannot be taken apart.
pub open spec fn split_fault_text(
    fault: SplitFault,
    batch: crate::mp4::sample_reads::BatchView,
    read: int,
) -> Seq<char> {
    match fault {
        SplitFault::Truncated => "truncated sample batch at "@ + crate::strings::decimal(
            batch.offset,
        ) + ": expected "@ + (crate::strings::decimal(batch.size) + " bytes, read "@
            + crate::strings::decimal(read)),
        SplitFault::SliceOverflow => "sample slice overflow"@,
        SplitFault::OutsideBatch => "sample is outside its read batch"@,
    }
}

/// Takes the bytes of a batch apart into samples, each with its number. Where the
/// allocator has no room for them, a sample is too large.
pub fn split_read_batch(batch: &ReadBatch, data: &[u8]) -> (result: Result<
    Vec<(u32, Vec<u8>)>,
    MediaParserError,
>)
    ensures
        match (crate::mp4::sample_reads::split_fault(batch@, data@), result) {
            (None, Ok(parts)) => crate::mp4::sample_reads::parts_of(
                parts@,
                batch.samples@,
                data@,
            ),
            (None, Err(error)) => batch.samples@.len() > 0 && error@
                == crate::errors::ErrorView::InvalidFormat("sample is too large"@),
            (Some(_), Ok(_)) => false,
            (Some(fault), Err(error)) => error@ == crate::errors::ErrorView::InvalidFormat(
                split_fault_text(fault, batch@, data@.len() as int),
            ),
        },
{
    match batch_fault(batch, data) {
        Some(fault) => Err(split_error(fault, batch, data.len())),
        None => match take_apart(batch, data) {
            Some(parts) => Ok(parts),
            None => Err(invalid_format("sample is too large")),
        },
    }
}

/// The error for a batch that cannot be taken apart.
pub(crate) fn split_error(fault: SplitFault, batch: &ReadBatch, read: usize) -> (result:
    MediaParserError)
    ensures
        result@ == crate::errors::ErrorView::InvalidFormat(
            split_fault_text(fault, batch@, read as int),
        ),
{
    match fault {
        SplitFault::Truncated => {
            let place = join3(
                "truncated sample batch at ",
                decimal_text(batch.offset).as_str(),
                ": expected ",
            );
            let counts = join3(
                decimal_text(batch.size as u64).as_str(),
                " bytes, read ",
                decimal_text(read as u64).as_str(),
            );
            MediaParserError::InvalidFormat(join2(place.as_str(), counts.as_str()))
        },
        SplitFault::SliceOverflow => invalid_format("sample slice overflow"),
        SplitFault::OutsideBatch => invalid_format("sample is outside its read batch"),
    }
}

/// The reads for a batch of thumbnails are for at most 16,384 samples of at most
/// 64 MiB each, and bring at most 128 MiB; samples are read together up to 64 MiB
/// and across gaps of at most 32 KiB.
pub proof fn lemma_thumbnail_reads_stay_in_limits(
    sample_indices: Seq<u32>,
    sizes: SampleSizes,
    stsc: Seq<StscEntry>,
    chunk_offsets: Seq<u64>,
)
    ensures
        thumbnail_plan(sample_indices, sizes, stsc, chunk_offsets) is Ok <==> sample_indices.len()
            <= 0x4000 && (crate::mp4::sample_reads::read_plan(
            sample_indices,
            sizes,
            stsc,
            chunk_offsets,
            0x400_0000,
            0x800_0000,
            0x8000,
            0x400_0000,
        ) matches Ok(batches) && crate::mp4::sample_reads::bytes_read(batches) <= 0x800_0000),
        thumbnail_plan(sample_indices, sizes, stsc, chunk_offsets) matches Ok(batches) ==> {
            &&& sample_indices.len() <= 0x4000
            &&& crate::mp4::sample_reads::bytes_read(batches) <= 0x800_0000
            &&& forall|b: int|
                0 <= b < batches.len() ==> (#[trigger] batches[b]).size <= 0x400_0000
                    || batches[b].samples.len() == 1
            &&& forall|b: int, s: int|
                #![trigger batches[b].samples[s]]
                0 <= b < batches.len() && 0 <= s < batches[b].samples.len() ==> 0
                    < batches[b].samples[s].size <= 0x400_0000
            &&& crate::mp4::sample_reads::read_plan(
                sample_indices,
                sizes,
                stsc,
                chunk_offsets,
                0x400_0000,
                0x800_0000,
                0x8000,
                0x400_0000,
            ) == Ok::<_, PlanFault>(batches)
        },
{
    if thumbnail_plan(sample_indices, sizes, stsc, chunk_offsets) is Ok {
        crate::mp4::sample_reads::lemma_plan_brings_the_wanted_samples(
            sample_indices,
            sizes,
            stsc,
            chunk_offsets,
            0x400_0000,
            0x800_0000,
            0x8000,
            0x400_0000,
        );
        let batches = thumbnail_plan(sample_indices, sizes, stsc, chunk_offsets)->Ok_0;
        assert forall|b: int| 0 <= b < batches.len() implies (#[trigger] batches[b]).size
            <= 0x400_0000 || batches[b].samples.len() == 1 by {
            assert(crate::mp4::sample_reads::batch_sound(batches[b], 0x400_0000));
        }
    }
}

} // verus!
