//! Planning coalesced reads of samples.
//!
//! The wanted samples are located, put in file order and joined into batches:
//! a sample joins the batch before it where the gap between them is small and
//! the batch does not grow too large.

use std::collections::HashMap;

use vstd::prelude::*;
use vstd::slice::slice_subrange;

use crate::memory::{try_reserve_exact, try_reserve_samples};
use crate::mp4::chunks::SampleLocator;
use crate::mp4::samples::{sample_size, SampleSizes, StscEntry};

verus! {

broadcast use vstd::std_specs::hash::group_hash_axioms;

/// A sample as it lies in the file.
#[derive(Debug, Clone, Copy, PartialEq, Eq, Structural)]
pub struct SampleRead {
    pub offset: u64,
    pub size: usize,
    pub sample_index: u32,
}

/// A sample as it lies in the bytes of a batch.
#[derive(Debug, Clone, Copy, PartialEq, Eq, Structural)]
pub struct SampleSlice {
    pub sample_index: u32,
    pub offset: usize,
    pub size: usize,
}

/// One read of the file and the samples that it brings.
#[derive(Debug)]
pub struct ReadBatch {
    pub offset: u64,
    pub size: usize,
    pub samples: Vec<SampleSlice>,
}

pub struct BatchView {
    pub offset: int,
    pub size: int,
    pub samples: Seq<SampleSlice>,
}

impl View for ReadBatch {
    type V = BatchView;

    open spec fn view(&self) -> BatchView {
        BatchView {
            offset: self.offset as int,
            size: self.size as int,
            samples: self.samples@,
        }
    }
}

/// The batches by their views.
pub open spec fn batch_views(batches: Seq<ReadBatch>) -> Seq<BatchView> {
    Seq::new(batches.len(), |i: int| batches[i]@)
}

/// Why samples cannot be read.
#[derive(Debug, Clone, Copy, PartialEq, Eq, Structural)]
pub enum PlanFault {
    /// The tables do not describe a first run of chunks.
    NoTables,
    /// This sample has no place in the file.
    Unlocatable(u32),
    /// This sample has no size.
    Unsized(u32),
    /// A sample is empty or of this size, which is too large.
    BadSize(usize),
    /// The samples come to this many bytes, which is too many.
    TooManyBytes(usize),
    /// A sample reaches beyond a 64-bit file.
    OffsetOverflow,
    /// Two samples share bytes of the file.
    Overlap,
    /// A batch would be larger than memory.
    BatchTooLarge,
}

// ---------------------------------------------------------------------------
// Distinct samples in order
// ---------------------------------------------------------------------------

/// The ascending `list` with `value` put in its place, unless it is there.
pub open spec fn with_value(list: Seq<u32>, value: u32) -> Seq<u32>
    decreases list.len(),
{
    if list.len() == 0 {
        seq![value]
    } else if list.last() < value {
        list.push(value)
    } else if list.last() == value {
        list
    } else {
        with_value(list.drop_last(), value).push(list.last())
    }
}

/// The values of `values` in ascending order, each once.
pub open spec fn distinct_ascending(values: Seq<u32>) -> Seq<u32>
    decreases values.len(),
{
    if values.len() == 0 {
        Seq::empty()
    } else {
        with_value(distinct_ascending(values.drop_last()), values.last())
    }
}

proof fn lemma_with_value(list: Seq<u32>, value: u32, place: int)
    requires
        crate::mp4::samples::strictly_increasing(list),
        0 <= place <= list.len(),
        forall|i: int| 0 <= i < place ==> list[i] < value,
        forall|i: int| place <= i < list.len() ==> list[i] >= value,
    ensures
        with_value(list, value) == if place < list.len() && list[place] == value {
            list
        } else {
            list.insert(place, value)
        },
    decreases list.len(),
{
    if list.len() == 0 {
        assert(list.insert(0, value) =~= seq![value]);
    } else if list.last() < value {
        assert(place == list.len());
        assert(list.insert(place, value) =~= list.push(value));
    } else if list.last() == value {
        assert(place == list.len() - 1) by {
            assert(list[list.len() - 1] == value);
            if place < list.len() - 1 {
                assert(list[place] < list[list.len() - 1]);
            }
        }
    } else {
        let shorter = list.drop_last();
        lemma_with_value(shorter, value, place);
        if place < shorter.len() && shorter[place] == value {
            assert(shorter.push(list.last()) =~= list);
        } else {
            assert(shorter.insert(place, value).push(list.last()) =~= list.insert(place, value));
        }
    }
}

/// The distinct values ascend strictly and are those of the list, no others.
pub proof fn lemma_distinct_ascending(values: Seq<u32>)
    ensures
        crate::mp4::samples::strictly_increasing(distinct_ascending(values)),
        forall|value: u32|
            #![trigger distinct_ascending(values).contains(value)]
            #![trigger values.contains(value)]
            distinct_ascending(values).contains(value) <==> values.contains(value),
        distinct_ascending(values).len() <= values.len(),
    decreases values.len(),
{
    if values.len() > 0 {
        let earlier = values.drop_last();
        lemma_distinct_ascending(earlier);
        let list = distinct_ascending(earlier);
        let value = values.last();
        let result = distinct_ascending(values);
        let place = lemma_place(list, value);
        lemma_with_value(list, value, place);
        assert forall|other: u32| result.contains(other) <==> values.contains(other) by {
            if result.contains(other) {
                let i = choose|i: int| 0 <= i < result.len() && result[i] == other;
                if other == value {
                    assert(values[values.len() - 1] == value);
                } else {
                    assert(list.contains(other)) by {
                        if result.len() == list.len() {
                            assert(list[i] == other);
                        } else if i < place {
                            assert(list[i] == other);
                        } else {
                            assert(list[i - 1] == other);
                        }
                    }
                    assert(earlier.contains(other));
                    let j = choose|j: int| 0 <= j < earlier.len() && earlier[j] == other;
                    assert(values[j] == other);
                }
            }
            if values.contains(other) {
                let j = choose|j: int| 0 <= j < values.len() && values[j] == other;
                if other == value {
                    if place < list.len() && list[place] == value {
                        assert(result[place] == value);
                    } else {
                        assert(result[place] == value);
                    }
                } else {
                    assert(earlier[j] == other);
                    assert(list.contains(other));
                    let i = choose|i: int| 0 <= i < list.len() && list[i] == other;
                    if result.len() == list.len() {
                        assert(result[i] == other);
                    } else if i < place {
                        assert(result[i] == other);
                    } else {
                        assert(result[i + 1] == other);
                    }
                }
            }
        }
    }
}

/// Where `value` belongs in the ascending `list`.
proof fn lemma_place(list: Seq<u32>, value: u32) -> (place: int)
    requires
        crate::mp4::samples::strictly_increasing(list),
    ensures
        0 <= place <= list.len(),
        forall|i: int| 0 <= i < place ==> list[i] < value,
        forall|i: int| place <= i < list.len() ==> list[i] >= value,
    decreases list.len(),
{
    if list.len() == 0 || list.last() < value {
        list.len() as int
    } else {
        let place = lemma_place(list.drop_last(), value);
        assert forall|i: int| place <= i < list.len() implies list[i] >= value by {
            if i < list.len() - 1 {
                assert(list.drop_last()[i] >= value);
            }
        }
        assert forall|i: int| 0 <= i < place implies list[i] < value by {
            assert(list.drop_last()[i] < value);
        }
        place
    }
}

/// The wanted samples in ascending order, each once.
pub fn distinct_samples(values: &[u32]) -> (result: Vec<u32>)
    ensures
        result@ == distinct_ascending(values@),
{
    distinct_samples_into(values, Vec::new())
}

/// Puts the wanted samples in ascending order, each once, into the room of a
/// vector.
fn distinct_samples_into(values: &[u32], room: Vec<u32>) -> (result: Vec<u32>)
    requires
        room@.len() == 0,
    ensures
        result@ == distinct_ascending(values@),
{
    let mut list: Vec<u32> = room;
    assert(list@ =~= Seq::empty());
    let mut index: usize = 0;
    assert(values@.take(0) =~= Seq::empty());
    while index < values.len()
        invariant
            index <= values@.len(),
            list@ == distinct_ascending(values@.take(index as int)),
        decreases values@.len() - index,
    {
        let value: u32 = values[index];
        proof {
            lemma_distinct_ascending(values@.take(index as int));
            assert(values@.take(index + 1).drop_last() =~= values@.take(index as int));
        }
        let mut low: usize = 0;
        let mut high: usize = list.len();
        if list.len() > 0 && list[list.len() - 1] < value {
            low = list.len();
        }
        while low < high
            invariant
                crate::mp4::samples::strictly_increasing(list@),
                low <= high <= list@.len(),
                forall|i: int| 0 <= i < low ==> list@[i] < value,
                forall|i: int| high <= i < list@.len() ==> list@[i] >= value,
            decreases high - low,
        {
            let middle: usize = low + (high - low) / 2;
            if list[middle] < value {
                low = middle + 1;
            } else {
                high = middle;
            }
        }
        proof {
            lemma_with_value(list@, value, low as int);
        }
        if low == list.len() || list[low] != value {
            list.insert(low, value);
        }
        index += 1;
    }
    assert(values@.take(values@.len() as int) =~= values@);
    list
}

// ---------------------------------------------------------------------------
// Locating
// ---------------------------------------------------------------------------

/// Whether samples can be located at all.
pub open spec fn tables_locate(stsc: Seq<StscEntry>, chunk_offsets: Seq<u64>) -> bool {
    &&& stsc.len() > 0
    &&& stsc[0].first_chunk == 1
    &&& 0 < chunk_offsets.len() < u32::MAX
    &&& crate::mp4::chunks::run_sound(stsc, chunk_offsets.len() as int, 0)
}

/// Whether no run has empty chunks.
pub open spec fn chunks_filled(stsc: Seq<StscEntry>) -> bool {
    forall|i: int| 0 <= i < stsc.len() ==> (#[trigger] stsc[i]).samples_per_chunk > 0
}

/// The sample `n` as it lies in the file.
pub open spec fn read_of(
    n: u32,
    sizes: SampleSizes,
    stsc: Seq<StscEntry>,
    chunk_offsets: Seq<u64>,
) -> SampleRead {
    SampleRead {
        offset: crate::mp4::chunks::offset_of_sample(sizes, stsc, chunk_offsets, n as int) as u64,
        size: crate::mp4::samples::size_of_sample(sizes, n as int).unwrap() as usize,
        sample_index: n,
    }
}

/// What stands against reading the sample `n` behind `total` bytes of others.
pub open spec fn read_fault(
    n: u32,
    sizes: SampleSizes,
    stsc: Seq<StscEntry>,
    chunk_offsets: Seq<u64>,
    max_sample_bytes: int,
    max_total_bytes: int,
    total: int,
) -> Option<PlanFault> {
    if !crate::mp4::chunks::locatable(sizes, stsc, chunk_offsets, n as int) {
        Some(PlanFault::Unlocatable(n))
    } else {
        match crate::mp4::samples::size_of_sample(sizes, n as int) {
            None => Some(PlanFault::Unsized(n)),
            Some(size) => if size == 0 || size > max_sample_bytes {
                Some(PlanFault::BadSize(size as usize))
            } else if total + size > max_total_bytes {
                Some(PlanFault::TooManyBytes((total + size) as usize))
            } else {
                None
            },
        }
    }
}

pub open spec fn total_size(reads: Seq<SampleRead>) -> int
    decreases reads.len(),
{
    if reads.len() == 0 {
        0
    } else {
        total_size(reads.drop_last()) + reads.last().size
    }
}

/// The first `k` of `samples` as they lie in the file, or the first fault.
pub open spec fn located(
    samples: Seq<u32>,
    k: int,
    sizes: SampleSizes,
    stsc: Seq<StscEntry>,
    chunk_offsets: Seq<u64>,
    max_sample_bytes: int,
    max_total_bytes: int,
) -> Result<Seq<SampleRead>, PlanFault>
    decreases k,
{
    if k <= 0 {
        if tables_locate(stsc, chunk_offsets) {
            Ok(Seq::empty())
        } else {
            Err(PlanFault::NoTables)
        }
    } else {
        match located(
            samples,
            k - 1,
            sizes,
            stsc,
            chunk_offsets,
            max_sample_bytes,
            max_total_bytes,
        ) {
            Err(fault) => Err(fault),
            Ok(reads) => match read_fault(
                samples[k - 1],
                sizes,
                stsc,
                chunk_offsets,
                max_sample_bytes,
                max_total_bytes,
                total_size(reads),
            ) {
                Some(fault) => Err(fault),
                None => Ok(reads.push(read_of(samples[k - 1], sizes, stsc, chunk_offsets))),
            },
        }
    }
}

/// A fault at one sample is the outcome for the whole list.
proof fn lemma_located_fault(
    samples: Seq<u32>,
    k: int,
    n: int,
    sizes: SampleSizes,
    stsc: Seq<StscEntry>,
    chunk_offsets: Seq<u64>,
    max_sample_bytes: int,
    max_total_bytes: int,
)
    requires
        0 <= k <= n,
        located(samples, k, sizes, stsc, chunk_offsets, max_sample_bytes, max_total_bytes) is Err,
    ensures
        located(samples, n, sizes, stsc, chunk_offsets, max_sample_bytes, max_total_bytes)
            == located(samples, k, sizes, stsc, chunk_offsets, max_sample_bytes, max_total_bytes),
    decreases n,
{
    if k < n {
        lemma_located_fault(
            samples,
            k,
            n - 1,
            sizes,
            stsc,
            chunk_offsets,
            max_sample_bytes,
            max_total_bytes,
        );
    }
}

/// Locates ascending samples one after another.
pub(crate) fn locate_samples(
    samples: &[u32],
    sizes: &SampleSizes,
    stsc: &[StscEntry],
    chunk_offsets: &[u64],
    max_sample_bytes: usize,
    max_total_bytes: usize,
    room: Vec<SampleRead>,
) -> (result: Result<Vec<SampleRead>, PlanFault>)
    requires
        room@.len() == 0,
        chunks_filled(stsc@),
        crate::mp4::samples::strictly_increasing(samples@),
        max_sample_bytes + max_total_bytes <= usize::MAX,
    ensures
        match result {
            Ok(reads) => Ok::<Seq<SampleRead>, PlanFault>(reads@) == located(
                samples@,
                samples@.len() as int,
                *sizes,
                stsc@,
                chunk_offsets@,
                max_sample_bytes as int,
                max_total_bytes as int,
            ),
            Err(fault) => Err::<Seq<SampleRead>, PlanFault>(fault) == located(
                samples@,
                samples@.len() as int,
                *sizes,
                stsc@,
                chunk_offsets@,
                max_sample_bytes as int,
                max_total_bytes as int,
            ),
        },
{
    let ghost count = samples@.len() as int;
    let mut locator = match SampleLocator::new(sizes, stsc, chunk_offsets) {
        Some(locator) => locator,
        None => {
            proof {
                lemma_located_fault(
                    samples@,
                    0,
                    count,
                    *sizes,
                    stsc@,
                    chunk_offsets@,
                    max_sample_bytes as int,
                    max_total_bytes as int,
                );
            }
            return Err(PlanFault::NoTables);
        },
    };
    let mut reads: Vec<SampleRead> = room;
    assert(reads@ =~= Seq::empty());
    let mut total: usize = 0;
    let mut index: usize = 0;
    while index < samples.len()
        invariant
            count == samples@.len(),
            index <= samples@.len(),
            chunks_filled(stsc@),
            crate::mp4::samples::strictly_increasing(samples@),
            max_sample_bytes + max_total_bytes <= usize::MAX,
            total == total_size(reads@),
            total <= max_total_bytes,
            locator.ready(),
            locator.sizes() == *sizes,
            locator.stsc() == stsc@,
            locator.chunk_offsets() == chunk_offsets@,
            index == 0 ==> locator.position() == 1,
            index > 0 ==> locator.position() == samples@[index - 1],
            located(
                samples@,
                index as int,
                *sizes,
                stsc@,
                chunk_offsets@,
                max_sample_bytes as int,
                max_total_bytes as int,
            ) == Ok::<Seq<SampleRead>, PlanFault>(reads@),
        decreases samples@.len() - index,
    {
        let sample: u32 = samples[index];
        proof {
            if located(
                samples@,
                index + 1,
                *sizes,
                stsc@,
                chunk_offsets@,
                max_sample_bytes as int,
                max_total_bytes as int,
            ) is Err {
                lemma_located_fault(
                    samples@,
                    index + 1,
                    count,
                    *sizes,
                    stsc@,
                    chunk_offsets@,
                    max_sample_bytes as int,
                    max_total_bytes as int,
                );
            }
        }
        let offset: u64 = match locator.file_offset(sample) {
            Some(offset) => offset,
            None => {
                return Err(PlanFault::Unlocatable(sample));
            },
        };
        let size: usize = match sample_size(sample, sizes) {
            Some(size) => size as usize,
            None => {
                return Err(PlanFault::Unsized(sample));
            },
        };
        if size == 0 || size > max_sample_bytes {
            return Err(PlanFault::BadSize(size));
        }
        if total + size > max_total_bytes {
            return Err(PlanFault::TooManyBytes(total + size));
        }
        let ghost before = reads@;
        reads.push(SampleRead { offset, size, sample_index: sample });
        assert(reads@.drop_last() =~= before);
        total = total + size;
        index += 1;
    }
    Ok(reads)
}

// ---------------------------------------------------------------------------
// File order
// ---------------------------------------------------------------------------

/// Whether the sample `a` comes no later in the file than `b`; samples at one
/// place go by their number.
pub open spec fn comes_up_to(a: SampleRead, b: SampleRead) -> bool {
    a.offset < b.offset || a.offset == b.offset && a.sample_index <= b.sample_index
}

/// `list`, which is in file order, with `read` put in its place.
pub open spec fn with_read(list: Seq<SampleRead>, read: SampleRead) -> Seq<SampleRead>
    decreases list.len(),
{
    if list.len() == 0 || comes_up_to(list.last(), read) {
        list.push(read)
    } else {
        with_read(list.drop_last(), read).push(list.last())
    }
}

/// The reads in file order.
pub open spec fn in_file_order(reads: Seq<SampleRead>) -> Seq<SampleRead>
    decreases reads.len(),
{
    if reads.len() == 0 {
        Seq::empty()
    } else {
        with_read(in_file_order(reads.drop_last()), reads.last())
    }
}

pub open spec fn file_ordered(reads: Seq<SampleRead>) -> bool {
    forall|i: int, j: int|
        0 <= i <= j < reads.len() ==> comes_up_to(#[trigger] reads[i], #[trigger] reads[j])
}

proof fn lemma_with_read(list: Seq<SampleRead>, read: SampleRead, place: int)
    requires
        file_ordered(list),
        0 <= place <= list.len(),
        forall|i: int| 0 <= i < place ==> comes_up_to(#[trigger] list[i], read),
        forall|i: int| place <= i < list.len() ==> !comes_up_to(#[trigger] list[i], read),
    ensures
        with_read(list, read) == list.insert(place, read),
    decreases list.len(),
{
    if list.len() == 0 || comes_up_to(list.last(), read) {
        if list.len() > 0 && place < list.len() {
            assert(!comes_up_to(list[list.len() - 1], read));
        }
        assert(list.insert(place, read) =~= list.push(read));
    } else {
        if place == list.len() {
            assert(comes_up_to(list[list.len() - 1], read));
        }
        let shorter = list.drop_last();
        assert forall|i: int| place <= i < shorter.len() implies !comes_up_to(
            #[trigger] shorter[i],
            read,
        ) by {
            assert(!comes_up_to(list[i], read));
        }
        assert forall|i: int| 0 <= i < place implies comes_up_to(#[trigger] shorter[i], read) by {
            assert(comes_up_to(list[i], read));
        }
        lemma_with_read(shorter, read, place);
        assert(shorter.insert(place, read).push(list.last()) =~= list.insert(place, read));
    }
}

proof fn lemma_read_place(list: Seq<SampleRead>, read: SampleRead) -> (place: int)
    requires
        file_ordered(list),
    ensures
        0 <= place <= list.len(),
        forall|i: int| 0 <= i < place ==> comes_up_to(#[trigger] list[i], read),
        forall|i: int| place <= i < list.len() ==> !comes_up_to(#[trigger] list[i], read),
    decreases list.len(),
{
    if list.len() == 0 || comes_up_to(list.last(), read) {
        assert forall|i: int| 0 <= i < list.len() implies comes_up_to(
            #[trigger] list[i],
            read,
        ) by {
            assert(comes_up_to(list[i], list[list.len() - 1]));
        }
        list.len() as int
    } else {
        let place = lemma_read_place(list.drop_last(), read);
        assert forall|i: int| place <= i < list.len() implies !comes_up_to(
            #[trigger] list[i],
            read,
        ) by {
            if i < list.len() - 1 {
                assert(!comes_up_to(list.drop_last()[i], read));
            }
        }
        assert forall|i: int| 0 <= i < place implies comes_up_to(#[trigger] list[i], read) by {
            assert(comes_up_to(list.drop_last()[i], read));
        }
        place
    }
}

/// Putting reads in file order keeps them all and adds none.
pub proof fn lemma_in_file_order(reads: Seq<SampleRead>)
    ensures
        file_ordered(in_file_order(reads)),
        in_file_order(reads).len() == reads.len(),
        in_file_order(reads).to_multiset() == reads.to_multiset(),
    decreases reads.len(),
{
    if reads.len() > 0 {
        let earlier = reads.drop_last();
        let read = reads.last();
        lemma_in_file_order(earlier);
        let list = in_file_order(earlier);
        let place = lemma_read_place(list, read);
        lemma_with_read(list, read, place);
        let result = list.insert(place, read);
        assert(file_ordered(result)) by {
            assert forall|i: int, j: int| 0 <= i <= j < result.len() implies comes_up_to(
                #[trigger] result[i],
                #[trigger] result[j],
            ) by {
                if i < place {
                    assert(comes_up_to(list[i], read));
                }
                if j > place {
                    assert(!comes_up_to(list[j - 1], read));
                }
                if i < place && j > place {
                    assert(comes_up_to(list[i], list[j - 1]));
                } else if i > place {
                    assert(comes_up_to(list[i - 1], list[j - 1]));
                } else if j < place {
                    assert(comes_up_to(list[i], list[j]));
                }
            }
        }
        list.to_multiset_ensures();
        earlier.to_multiset_ensures();
        vstd::seq_lib::to_multiset_build(earlier, read);
        assert(earlier.push(read) =~= reads);
        result.to_multiset_ensures();
        assert(result.remove(place) =~= list);
        assert(result.to_multiset().remove(read) =~= list.to_multiset());
        assert(result.to_multiset().count(result[place]) > 0) by {
            assert(result.contains(result[place]));
        }
        assert(result.to_multiset() =~= list.to_multiset().insert(read));
    } else {
        assert(reads =~= Seq::empty());
    }
}

/// Puts reads in file order.
pub(crate) fn order_reads(reads: &[SampleRead], room: Vec<SampleRead>) -> (result: Vec<
    SampleRead,
>)
    requires
        room@.len() == 0,
    ensures
        result@ == in_file_order(reads@),
{
    let mut list: Vec<SampleRead> = room;
    assert(list@ =~= Seq::empty());
    let mut index: usize = 0;
    assert(reads@.take(0) =~= Seq::empty());
    while index < reads.len()
        invariant
            index <= reads@.len(),
            list@ == in_file_order(reads@.take(index as int)),
        decreases reads@.len() - index,
    {
        let read: SampleRead = reads[index];
        proof {
            lemma_in_file_order(reads@.take(index as int));
            assert(reads@.take(index + 1).drop_last() =~= reads@.take(index as int));
        }
        let mut low: usize = 0;
        let mut high: usize = list.len();
        if list.len() > 0 && read_comes_up_to(&list[list.len() - 1], &read) {
            assert forall|i: int| 0 <= i < list@.len() implies comes_up_to(
                #[trigger] list@[i],
                read,
            ) by {
                assert(comes_up_to(list@[i], list@[list@.len() - 1]));
            }
            low = list.len();
        }
        while low < high
            invariant
                file_ordered(list@),
                low <= high <= list@.len(),
                forall|i: int| 0 <= i < low ==> comes_up_to(#[trigger] list@[i], read),
                forall|i: int| high <= i < list@.len() ==> !comes_up_to(#[trigger] list@[i], read),
            decreases high - low,
        {
            let middle: usize = low + (high - low) / 2;
            if read_comes_up_to(&list[middle], &read) {
                assert forall|i: int| 0 <= i < middle + 1 implies comes_up_to(
                    #[trigger] list@[i],
                    read,
                ) by {
                    assert(comes_up_to(list@[i], list@[middle as int]));
                }
                low = middle + 1;
            } else {
                assert forall|i: int| middle <= i < list@.len() implies !comes_up_to(
                    #[trigger] list@[i],
                    read,
                ) by {
                    assert(comes_up_to(list@[middle as int], list@[i]));
                }
                high = middle;
            }
        }
        proof {
            lemma_with_read(list@, read, low as int);
        }
        list.insert(low, read);
        index += 1;
    }
    assert(reads@.take(reads@.len() as int) =~= reads@);
    list
}

fn read_comes_up_to(a: &SampleRead, b: &SampleRead) -> (result: bool)
    ensures
        result == comes_up_to(*a, *b),
{
    a.offset < b.offset || (a.offset == b.offset && a.sample_index <= b.sample_index)
}

// ---------------------------------------------------------------------------
// Joining
// ---------------------------------------------------------------------------

/// A batch of one sample.
pub open spec fn single_batch(read: SampleRead) -> BatchView {
    BatchView {
        offset: read.offset as int,
        size: read.size as int,
        samples: seq![
            SampleSlice { sample_index: read.sample_index, offset: 0, size: read.size },
        ],
    }
}

/// A batch that a further sample has joined.
pub open spec fn joined_batch(batch: BatchView, read: SampleRead) -> BatchView {
    BatchView {
        offset: batch.offset,
        size: read.offset + read.size - batch.offset,
        samples: batch.samples.push(
            SampleSlice {
                sample_index: read.sample_index,
                offset: (read.offset - batch.offset) as usize,
                size: read.size,
            },
        ),
    }
}

/// The batches once the next sample in file order has joined them.
pub open spec fn with_next_read(
    batches: Seq<BatchView>,
    read: SampleRead,
    max_gap: int,
    max_batch: int,
) -> Result<Seq<BatchView>, PlanFault> {
    let end = read.offset + read.size;
    if end > u64::MAX {
        Err(PlanFault::OffsetOverflow)
    } else if batches.len() == 0 {
        Ok(seq![single_batch(read)])
    } else {
        let last = batches.last();
        if read.offset < last.offset + last.size {
            Err(PlanFault::Overlap)
        } else if end - last.offset > usize::MAX {
            Err(PlanFault::BatchTooLarge)
        } else if read.offset - (last.offset + last.size) <= max_gap && end - last.offset
            <= max_batch {
            Ok(batches.drop_last().push(joined_batch(last, read)))
        } else {
            Ok(batches.push(single_batch(read)))
        }
    }
}

/// The batches for the first `k` reads, or the first fault.
pub open spec fn joined(
    reads: Seq<SampleRead>,
    k: int,
    max_gap: int,
    max_batch: int,
) -> Result<Seq<BatchView>, PlanFault>
    decreases k,
{
    if k <= 0 {
        Ok(Seq::empty())
    } else {
        match joined(reads, k - 1, max_gap, max_batch) {
            Err(fault) => Err(fault),
            Ok(batches) => with_next_read(batches, reads[k - 1], max_gap, max_batch),
        }
    }
}

proof fn lemma_joined_fault(
    reads: Seq<SampleRead>,
    k: int,
    n: int,
    max_gap: int,
    max_batch: int,
)
    requires
        0 <= k <= n,
        joined(reads, k, max_gap, max_batch) is Err,
    ensures
        joined(reads, n, max_gap, max_batch) == joined(reads, k, max_gap, max_batch),
    decreases n,
{
    if k < n {
        lemma_joined_fault(reads, k, n - 1, max_gap, max_batch);
    }
}

/// The end of the last batch, which a 64-bit file holds.
spec fn last_ends_in_file(batches: Seq<ReadBatch>) -> bool {
    batches.len() > 0 ==> batches.last().offset + batches.last().size <= u64::MAX
}

/// Joins reads that are in file order into batches.
pub(crate) fn join_reads(
    reads: &[SampleRead],
    max_gap: u64,
    max_batch: usize,
    room: Vec<ReadBatch>,
) -> (result: Result<Vec<ReadBatch>, PlanFault>)
    requires
        room@.len() == 0,
    ensures
        match result {
            Ok(batches) => joined(
                reads@,
                reads@.len() as int,
                max_gap as int,
                max_batch as int,
            ) == Ok::<Seq<BatchView>, PlanFault>(batch_views(batches@)),
            Err(fault) => joined(
                reads@,
                reads@.len() as int,
                max_gap as int,
                max_batch as int,
            ) == Err::<Seq<BatchView>, PlanFault>(fault),
        },
{
    let mut batches: Vec<ReadBatch> = room;
    let mut index: usize = 0;
    assert(batch_views(batches@) =~= Seq::empty());
    while index < reads.len()
        invariant
            index <= reads@.len(),
            last_ends_in_file(batches@),
            joined(reads@, index as int, max_gap as int, max_batch as int) == Ok::<
                Seq<BatchView>,
                PlanFault,
            >(batch_views(batches@)),
        decreases reads@.len() - index,
    {
        let read: SampleRead = reads[index];
        let ghost before = batch_views(batches@);
        proof {
            if joined(reads@, index + 1, max_gap as int, max_batch as int) is Err {
                lemma_joined_fault(
                    reads@,
                    index + 1,
                    reads@.len() as int,
                    max_gap as int,
                    max_batch as int,
                );
            }
            if batches@.len() > 0 {
                assert(before.last() == batches@.last()@);
            }
        }
        let end: u64 = match read.offset.checked_add(read.size as u64) {
            Some(end) => end,
            None => {
                return Err(PlanFault::OffsetOverflow);
            },
        };
        let first = SampleSlice { sample_index: read.sample_index, offset: 0, size: read.size };
        match batches.pop() {
            Some(last) => {
                let mut last = last;
                let batch_end: u64 = last.offset + last.size as u64;
                if read.offset < batch_end {
                    return Err(PlanFault::Overlap);
                }
                if end - last.offset > usize::MAX as u64 {
                    return Err(PlanFault::BatchTooLarge);
                }
                let merged: usize = (end - last.offset) as usize;
                assert(batch_views(batches@) =~= before.drop_last());
                if read.offset - batch_end <= max_gap && merged <= max_batch {
                    let slice = SampleSlice {
                        sample_index: read.sample_index,
                        offset: (read.offset - last.offset) as usize,
                        size: read.size,
                    };
                    let ghost old_last = last@;
                    last.samples.push(slice);
                    last.size = merged;
                    assert(last@ == joined_batch(old_last, read));
                    batches.push(last);
                    assert(batch_views(batches@) =~= before.drop_last().push(
                        joined_batch(before.last(), read),
                    ));
                } else {
                    batches.push(last);
                    assert(batch_views(batches@) =~= before);
                    let single = ReadBatch {
                        offset: read.offset,
                        size: read.size,
                        samples: vec![first],
                    };
                    assert(single@.samples =~= single_batch(read).samples);
                    batches.push(single);
                    assert(batch_views(batches@) =~= before.push(single_batch(read)));
                }
            },
            None => {
                let single = ReadBatch {
                    offset: read.offset,
                    size: read.size,
                    samples: vec![first],
                };
                assert(single@.samples =~= single_batch(read).samples);
                batches.push(single);
                assert(batch_views(batches@) =~= seq![single_batch(read)]);
            },
        }
        index += 1;
    }
    Ok(batches)
}

/// The bytes that all the batches read.
pub open spec fn bytes_read(batches: Seq<BatchView>) -> int
    decreases batches.len(),
{
    if batches.len() == 0 {
        0
    } else {
        bytes_read(batches.drop_last()) + batches.last().size
    }
}

/// The bytes that all the batches read, if that is no more than `limit`.
pub(crate) fn bytes_read_up_to(batches: &Vec<ReadBatch>, limit: usize) -> (result: Option<usize>)
    ensures
        match result {
            Some(total) => total == bytes_read(batch_views(batches@)) && total <= limit,
            None => bytes_read(batch_views(batches@)) > limit,
        },
{
    let ghost views = batch_views(batches@);
    let mut total: usize = 0;
    let mut index: usize = 0;
    assert(views.take(0) =~= Seq::empty());
    while index < batches.len()
        invariant
            index <= batches@.len(),
            views == batch_views(batches@),
            total == bytes_read(views.take(index as int)),
            total <= limit,
        decreases batches@.len() - index,
    {
        proof {
            assert(views.take(index + 1).drop_last() =~= views.take(index as int));
            lemma_bytes_read_monotone(batches@, index + 1);
        }
        if batches[index].size > limit - total {
            return None;
        }
        total = total + batches[index].size;
        index += 1;
    }
    assert(views.take(views.len() as int) =~= views);
    Some(total)
}

proof fn lemma_bytes_read_monotone(batches: Seq<ReadBatch>, i: int)
    requires
        0 <= i <= batches.len(),
    ensures
        bytes_read(batch_views(batches).take(i)) <= bytes_read(batch_views(batches)),
    decreases batches.len() - i,
{
    let views = batch_views(batches);
    if i < batches.len() {
        assert(views.take(i + 1).drop_last() =~= views.take(i));
        lemma_bytes_read_monotone(batches, i + 1);
    } else {
        assert(views.take(i) =~= views);
    }
}

/// The whole plan: the wanted samples located, in file order, joined.
pub open spec fn read_plan(
    wanted: Seq<u32>,
    sizes: SampleSizes,
    stsc: Seq<StscEntry>,
    chunk_offsets: Seq<u64>,
    max_sample_bytes: int,
    max_total_bytes: int,
    max_gap: int,
    max_batch: int,
) -> Result<Seq<BatchView>, PlanFault> {
    let samples = distinct_ascending(wanted);
    match located(
        samples,
        samples.len() as int,
        sizes,
        stsc,
        chunk_offsets,
        max_sample_bytes,
        max_total_bytes,
    ) {
        Err(fault) => Err(fault),
        Ok(reads) => joined(
            in_file_order(reads),
            reads.len() as int,
            max_gap,
            max_batch,
        ),
    }
}

/// More bytes for all samples together do not change how samples are located,
/// unless there were too few.
proof fn lemma_located_within_more(
    samples: Seq<u32>,
    k: int,
    sizes: SampleSizes,
    stsc: Seq<StscEntry>,
    chunk_offsets: Seq<u64>,
    max_sample_bytes: int,
    fewer: int,
    more: int,
)
    requires
        fewer <= more,
    ensures
        ({
            let reads = located(
                samples,
                k,
                sizes,
                stsc,
                chunk_offsets,
                max_sample_bytes,
                fewer,
            );
            ||| reads matches Err(fault) && fault is TooManyBytes
            ||| reads == located(
                samples,
                k,
                sizes,
                stsc,
                chunk_offsets,
                max_sample_bytes,
                more,
            )
        }),
    decreases k,
{
    if k > 0 {
        lemma_located_within_more(
            samples,
            k - 1,
            sizes,
            stsc,
            chunk_offsets,
            max_sample_bytes,
            fewer,
            more,
        );
    }
}

/// More bytes for all samples together do not change a plan, unless there were
/// too few.
pub proof fn lemma_plan_within_more(
    wanted: Seq<u32>,
    sizes: SampleSizes,
    stsc: Seq<StscEntry>,
    chunk_offsets: Seq<u64>,
    max_sample_bytes: int,
    fewer: int,
    more: int,
    max_gap: int,
    max_batch: int,
)
    requires
        fewer <= more,
    ensures
        ({
            let plan = read_plan(
                wanted,
                sizes,
                stsc,
                chunk_offsets,
                max_sample_bytes,
                fewer,
                max_gap,
                max_batch,
            );
            ||| plan matches Err(fault) && fault is TooManyBytes
            ||| plan == read_plan(
                wanted,
                sizes,
                stsc,
                chunk_offsets,
                max_sample_bytes,
                more,
                max_gap,
                max_batch,
            )
        }),
{
    let samples = distinct_ascending(wanted);
    lemma_located_within_more(
        samples,
        samples.len() as int,
        sizes,
        stsc,
        chunk_offsets,
        max_sample_bytes,
        fewer,
        more,
    );
}

/// Empty vectors for a plan.
pub struct PlanRoom {
    samples: Vec<u32>,
    located: Vec<SampleRead>,
    ordered: Vec<SampleRead>,
    batches: Vec<ReadBatch>,
}

impl PlanRoom {
    /// Whether nothing was put into it.
    pub closed spec fn is_free(self) -> bool {
        &&& self.samples@.len() == 0
        &&& self.located@.len() == 0
        &&& self.ordered@.len() == 0
        &&& self.batches@.len() == 0
    }

    /// Room for the plan of `count` samples, if the allocator grants it.
    pub fn reserve(count: usize) -> (result: Option<Self>)
        ensures
            match result {
                Some(room) => room.is_free(),
                None => count > 0,
            },
    {
        let mut samples: Vec<u32> = Vec::new();
        let mut located: Vec<SampleRead> = Vec::new();
        let mut ordered: Vec<SampleRead> = Vec::new();
        let mut batches: Vec<ReadBatch> = Vec::new();
        if try_reserve_exact(&mut samples, count) && try_reserve_exact(&mut located, count)
            && try_reserve_exact(&mut ordered, count) && try_reserve_exact(&mut batches, count) {
            Some(PlanRoom { samples, located, ordered, batches })
        } else {
            None
        }
    }
}

/// Plans the reads of the wanted samples.
pub(crate) fn plan_reads(
    wanted: &[u32],
    sizes: &SampleSizes,
    stsc: &[StscEntry],
    chunk_offsets: &[u64],
    max_sample_bytes: usize,
    max_total_bytes: usize,
    max_gap: u64,
    max_batch: usize,
    room: PlanRoom,
) -> (result: Result<Vec<ReadBatch>, PlanFault>)
    requires
        room.is_free(),
        chunks_filled(stsc@),
        max_sample_bytes + max_total_bytes <= usize::MAX,
    ensures
        match result {
            Ok(batches) => read_plan(
                wanted@,
                *sizes,
                stsc@,
                chunk_offsets@,
                max_sample_bytes as int,
                max_total_bytes as int,
                max_gap as int,
                max_batch as int,
            ) == Ok::<Seq<BatchView>, PlanFault>(batch_views(batches@)),
            Err(fault) => read_plan(
                wanted@,
                *sizes,
                stsc@,
                chunk_offsets@,
                max_sample_bytes as int,
                max_total_bytes as int,
                max_gap as int,
                max_batch as int,
            ) == Err::<Seq<BatchView>, PlanFault>(fault),
        },
{
    let PlanRoom { samples, located, ordered, batches } = room;
    let samples = distinct_samples_into(wanted, samples);
    proof {
        lemma_distinct_ascending(wanted@);
    }
    match locate_samples(
        samples.as_slice(),
        sizes,
        stsc,
        chunk_offsets,
        max_sample_bytes,
        max_total_bytes,
        located,
    ) {
        Ok(reads) => {
            let ordered = order_reads(reads.as_slice(), ordered);
            proof {
                lemma_in_file_order(reads@);
            }
            join_reads(ordered.as_slice(), max_gap, max_batch, batches)
        },
        Err(fault) => Err(fault),
    }
}

// ---------------------------------------------------------------------------
// What a plan promises
// ---------------------------------------------------------------------------

/// Whether the slice `s` of a batch is the sample `read`.
pub open spec fn slice_is(batch: BatchView, s: int, read: SampleRead) -> bool {
    &&& 0 <= s < batch.samples.len()
    &&& batch.samples[s].sample_index == read.sample_index
    &&& batch.offset + batch.samples[s].offset == read.offset
    &&& batch.samples[s].size == read.size
}

/// Whether some slice of some batch is the sample `read`.
pub open spec fn brought(batches: Seq<BatchView>, read: SampleRead) -> bool {
    exists|b: int, s: int| 0 <= b < batches.len() && #[trigger] slice_is(batches[b], s, read)
}

/// Whether the slice `s` of a batch is one of the first `k` reads.
pub open spec fn slice_wanted(batch: BatchView, s: int, reads: Seq<SampleRead>, k: int) -> bool {
    exists|j: int| 0 <= j < k && #[trigger] slice_is(batch, s, reads[j])
}

/// Whether a batch has slices that lie inside it, and is no larger than a batch
/// or its only sample may be.
pub open spec fn batch_sound(batch: BatchView, max_batch: int) -> bool {
    &&& batch.samples.len() > 0
    &&& 0 <= batch.offset
    &&& 0 <= batch.size
    &&& batch.offset + batch.size <= u64::MAX
    &&& forall|s: int|
        0 <= s < batch.samples.len() ==> (#[trigger] batch.samples[s]).offset
            + batch.samples[s].size <= batch.size
    &&& batch.size <= max_batch || batch.samples.len() == 1
}

/// Whether the batches are sound and follow each other in the file without
/// sharing a byte.
pub open spec fn batches_sound(batches: Seq<BatchView>, max_batch: int) -> bool {
    &&& forall|b: int| 0 <= b < batches.len() ==> #[trigger] batch_sound(batches[b], max_batch)
    &&& forall|a: int, b: int|
        0 <= a < b < batches.len() ==> (#[trigger] batches[a]).offset + batches[a].size <= (
        #[trigger] batches[b]).offset
}

proof fn lemma_joined(reads: Seq<SampleRead>, k: int, max_gap: int, max_batch: int)
    requires
        0 <= k <= reads.len(),
        joined(reads, k, max_gap, max_batch) is Ok,
    ensures
        ({
            let batches = joined(reads, k, max_gap, max_batch)->Ok_0;
            &&& batches_sound(batches, max_batch)
            &&& forall|j: int| 0 <= j < k ==> brought(batches, #[trigger] reads[j])
            &&& forall|b: int, s: int|
                0 <= b < batches.len() && 0 <= s < batches[b].samples.len()
                    ==> #[trigger] slice_wanted(batches[b], s, reads, k)
        }),
    decreases k,
{
    if k > 0 {
        lemma_joined(reads, k - 1, max_gap, max_batch);
        let before = joined(reads, k - 1, max_gap, max_batch)->Ok_0;
        let read = reads[k - 1];
        let batches = joined(reads, k, max_gap, max_batch)->Ok_0;
        let end = batches.len() - 1;
        assert(with_next_read(before, read, max_gap, max_batch) == Ok::<
            Seq<BatchView>,
            PlanFault,
        >(batches));
        if before.len() > 0 {
            assert(batch_sound(before[before.len() - 1], max_batch));
        }
        assert(slice_is(batches[end], batches[end].samples.len() - 1, read));
        assert forall|j: int| 0 <= j < k implies brought(batches, #[trigger] reads[j]) by {
            if j < k - 1 {
                assert(brought(before, reads[j]));
                let (b, s) = choose|b: int, s: int|
                    0 <= b < before.len() && #[trigger] slice_is(before[b], s, reads[j]);
                assert(slice_is(batches[b], s, reads[j]));
            }
        }
        assert forall|b: int, s: int|
            0 <= b < batches.len() && 0 <= s < batches[b].samples.len() implies
            #[trigger] slice_wanted(batches[b], s, reads, k) by {
            if b == end && s == batches[end].samples.len() - 1 {
                assert(slice_is(batches[b], s, reads[k - 1]));
            } else {
                assert(slice_wanted(before[b], s, reads, k - 1));
                let j = choose|j: int| 0 <= j < k - 1 && #[trigger] slice_is(before[b], s, reads[j]);
                assert(slice_is(batches[b], s, reads[j]));
            }
        }
        assert forall|b: int| 0 <= b < batches.len() implies #[trigger] batch_sound(
            batches[b],
            max_batch,
        ) by {
            if b < before.len() {
                assert(batch_sound(before[b], max_batch));
            }
        }
        assert forall|a: int, b: int| 0 <= a < b < batches.len() implies (
        #[trigger] batches[a]).offset + batches[a].size <= (#[trigger] batches[b]).offset by {
            assert(before[a].offset + before[a].size <= before[before.len() - 1].offset || a
                == before.len() - 1);
        }
    }
}

proof fn lemma_located(
    samples: Seq<u32>,
    k: int,
    sizes: SampleSizes,
    stsc: Seq<StscEntry>,
    chunk_offsets: Seq<u64>,
    max_sample_bytes: int,
    max_total_bytes: int,
)
    requires
        0 <= k <= samples.len(),
        max_total_bytes >= 0,
        located(samples, k, sizes, stsc, chunk_offsets, max_sample_bytes, max_total_bytes) is Ok,
    ensures
        ({
            let reads = located(
                samples,
                k,
                sizes,
                stsc,
                chunk_offsets,
                max_sample_bytes,
                max_total_bytes,
            )->Ok_0;
            &&& reads.len() == k
            &&& total_size(reads) <= max_total_bytes
            &&& forall|i: int|
                0 <= i < k ==> #[trigger] reads[i] == read_of(
                    samples[i],
                    sizes,
                    stsc,
                    chunk_offsets,
                ) && 0 < reads[i].size <= max_sample_bytes && crate::mp4::chunks::locatable(
                    sizes,
                    stsc,
                    chunk_offsets,
                    samples[i] as int,
                ) && crate::mp4::samples::size_of_sample(sizes, samples[i] as int) is Some
        }),
    decreases k,
{
    if k > 0 {
        lemma_located(
            samples,
            k - 1,
            sizes,
            stsc,
            chunk_offsets,
            max_sample_bytes,
            max_total_bytes,
        );
        let before = located(
            samples,
            k - 1,
            sizes,
            stsc,
            chunk_offsets,
            max_sample_bytes,
            max_total_bytes,
        )->Ok_0;
        let read = read_of(samples[k - 1], sizes, stsc, chunk_offsets);
        let reads = before.push(read);
        assert(reads.drop_last() =~= before);
        assert(located(
            samples,
            k,
            sizes,
            stsc,
            chunk_offsets,
            max_sample_bytes,
            max_total_bytes,
        ) == Ok::<Seq<SampleRead>, PlanFault>(reads));
        assert forall|i: int| 0 <= i < k implies #[trigger] reads[i] == read_of(
            samples[i],
            sizes,
            stsc,
            chunk_offsets,
        ) && 0 < reads[i].size <= max_sample_bytes && crate::mp4::chunks::locatable(
            sizes,
            stsc,
            chunk_offsets,
            samples[i] as int,
        ) && crate::mp4::samples::size_of_sample(sizes, samples[i] as int) is Some by {
            if i < k - 1 {
                assert(reads[i] == before[i]);
            }
        }
    }
}

/// A plan brings every wanted sample, at its place in the file and in its
/// size, and brings no other; the batches follow each other in the file, share
/// no byte and stay inside their limits.
pub proof fn lemma_plan_brings_the_wanted_samples(
    wanted: Seq<u32>,
    sizes: SampleSizes,
    stsc: Seq<StscEntry>,
    chunk_offsets: Seq<u64>,
    max_sample_bytes: int,
    max_total_bytes: int,
    max_gap: int,
    max_batch: int,
)
    requires
        0 <= max_total_bytes,
        read_plan(
            wanted,
            sizes,
            stsc,
            chunk_offsets,
            max_sample_bytes,
            max_total_bytes,
            max_gap,
            max_batch,
        ) is Ok,
    ensures
        ({
            let batches = read_plan(
                wanted,
                sizes,
                stsc,
                chunk_offsets,
                max_sample_bytes,
                max_total_bytes,
                max_gap,
                max_batch,
            )->Ok_0;
            &&& batches_sound(batches, max_batch)
            &&& forall|n: u32|
                wanted.contains(n) ==> brought(
                    batches,
                    #[trigger] read_of(n, sizes, stsc, chunk_offsets),
                )
            &&& forall|b: int, s: int|
                #![trigger batches[b].samples[s]]
                0 <= b < batches.len() && 0 <= s < batches[b].samples.len() ==> {
                    let slice = batches[b].samples[s];
                    &&& wanted.contains(slice.sample_index)
                    &&& 0 < slice.size <= max_sample_bytes
                    &&& slice_is(
                        batches[b],
                        s,
                        read_of(slice.sample_index, sizes, stsc, chunk_offsets),
                    )
                }
        }),
{
    let samples = distinct_ascending(wanted);
    lemma_distinct_ascending(wanted);
    let count = samples.len() as int;
    let reads = located(
        samples,
        count,
        sizes,
        stsc,
        chunk_offsets,
        max_sample_bytes,
        max_total_bytes,
    )->Ok_0;
    lemma_located(
        samples,
        count,
        sizes,
        stsc,
        chunk_offsets,
        max_sample_bytes,
        max_total_bytes,
    );
    let ordered = in_file_order(reads);
    lemma_in_file_order(reads);
    reads.to_multiset_ensures();
    ordered.to_multiset_ensures();
    lemma_joined(ordered, count, max_gap, max_batch);
    let batches = joined(ordered, count, max_gap, max_batch)->Ok_0;
    assert forall|n: u32| wanted.contains(n) implies brought(
        batches,
        #[trigger] read_of(n, sizes, stsc, chunk_offsets),
    ) by {
        assert(samples.contains(n));
        let i = choose|i: int| 0 <= i < samples.len() && samples[i] == n;
        assert(reads.contains(reads[i]));
        assert(ordered.to_multiset().count(reads[i]) > 0);
        assert(ordered.contains(reads[i]));
        let j = choose|j: int| 0 <= j < ordered.len() && ordered[j] == reads[i];
        assert(brought(batches, ordered[j]));
    }
    assert forall|b: int, s: int|
        #![trigger batches[b].samples[s]]
        0 <= b < batches.len() && 0 <= s < batches[b].samples.len() implies {
        let slice = batches[b].samples[s];
        &&& wanted.contains(slice.sample_index)
        &&& 0 < slice.size <= max_sample_bytes
        &&& slice_is(batches[b], s, read_of(slice.sample_index, sizes, stsc, chunk_offsets))
    } by {
        assert(slice_wanted(batches[b], s, ordered, count));
        let j = choose|j: int| 0 <= j < count && #[trigger] slice_is(batches[b], s, ordered[j]);
        assert(ordered.contains(ordered[j]));
        assert(reads.to_multiset().count(ordered[j]) > 0);
        assert(reads.contains(ordered[j]));
        let i = choose|i: int| 0 <= i < reads.len() && reads[i] == ordered[j];
        assert(samples.contains(samples[i]));
    }
}

// ---------------------------------------------------------------------------
// Taking batches apart
// ---------------------------------------------------------------------------

/// Why a batch cannot be taken apart.
#[derive(Debug, Clone, Copy, PartialEq, Eq, Structural)]
pub enum SplitFault {
    /// The read brought fewer or more bytes than planned.
    Truncated,
    /// A slice ends beyond the address space.
    SliceOverflow,
    /// A slice ends beyond the batch.
    OutsideBatch,
}

/// Whether a slice lies inside `len` bytes.
pub open spec fn slice_inside(slice: SampleSlice, len: int) -> bool {
    slice.offset + slice.size <= len
}

/// What stands against taking apart the first `k` slices of `len` bytes.
pub open spec fn slices_fault(samples: Seq<SampleSlice>, k: int, len: int) -> Option<SplitFault>
    decreases k,
{
    if k <= 0 {
        None
    } else {
        match slices_fault(samples, k - 1, len) {
            Some(fault) => Some(fault),
            None => if slice_inside(samples[k - 1], len) {
                None
            } else if samples[k - 1].offset + samples[k - 1].size > usize::MAX {
                Some(SplitFault::SliceOverflow)
            } else {
                Some(SplitFault::OutsideBatch)
            },
        }
    }
}

/// What stands against taking apart a batch of which `data` was read.
pub open spec fn split_fault(batch: BatchView, data: Seq<u8>) -> Option<SplitFault> {
    if data.len() != batch.size {
        Some(SplitFault::Truncated)
    } else {
        slices_fault(batch.samples, batch.samples.len() as int, data.len() as int)
    }
}

/// The bytes of a slice.
pub open spec fn slice_bytes(slice: SampleSlice, data: Seq<u8>) -> Seq<u8> {
    data.subrange(slice.offset as int, slice.offset + slice.size)
}

/// Whether `parts` are the samples of a batch with their bytes.
pub open spec fn parts_of(
    parts: Seq<(u32, Vec<u8>)>,
    samples: Seq<SampleSlice>,
    data: Seq<u8>,
) -> bool {
    &&& parts.len() == samples.len()
    &&& forall|i: int|
        0 <= i < samples.len() ==> (#[trigger] parts[i]).0 == samples[i].sample_index
            && parts[i].1@ == slice_bytes(samples[i], data)
}

proof fn lemma_slices_fault(samples: Seq<SampleSlice>, k: int, n: int, len: int)
    requires
        0 <= k <= n,
        slices_fault(samples, k, len) is Some,
    ensures
        slices_fault(samples, n, len) == slices_fault(samples, k, len),
    decreases n,
{
    if k < n {
        lemma_slices_fault(samples, k, n - 1, len);
    }
}

/// What stands against taking a batch apart.
pub fn batch_fault(batch: &ReadBatch, data: &[u8]) -> (result: Option<SplitFault>)
    ensures
        result == split_fault(batch@, data@),
{
    if data.len() != batch.size {
        return Some(SplitFault::Truncated);
    }
    let mut index: usize = 0;
    while index < batch.samples.len()
        invariant
            index <= batch.samples@.len(),
            data@.len() == batch.size == data.len(),
            slices_fault(batch.samples@, index as int, data@.len() as int) is None,
        decreases batch.samples@.len() - index,
    {
        let slice: SampleSlice = batch.samples[index];
        proof {
            if slices_fault(batch.samples@, index + 1, data@.len() as int) is Some {
                lemma_slices_fault(
                    batch.samples@,
                    index + 1,
                    batch.samples@.len() as int,
                    data@.len() as int,
                );
            }
        }
        match slice.offset.checked_add(slice.size) {
            Some(end) => {
                if end > data.len() {
                    return Some(SplitFault::OutsideBatch);
                }
            },
            None => {
                return Some(SplitFault::SliceOverflow);
            },
        }
        index += 1;
    }
    None
}

/// The samples of a sound batch with their bytes, if the allocator has room for
/// them.
pub fn take_apart(batch: &ReadBatch, data: &[u8]) -> (result: Option<Vec<(u32, Vec<u8>)>>)
    requires
        split_fault(batch@, data@) is None,
    ensures
        match result {
            Some(parts) => parts_of(parts@, batch.samples@, data@),
            None => batch.samples@.len() > 0,
        },
{
    let mut parts: Vec<(u32, Vec<u8>)> = Vec::new();
    if !try_reserve_exact(&mut parts, batch.samples.len()) {
        return None;
    }
    let mut index: usize = 0;
    while index < batch.samples.len()
        invariant
            index <= batch.samples@.len(),
            data@.len() == data.len(),
            slices_fault(
                batch.samples@,
                batch.samples@.len() as int,
                data@.len() as int,
            ) is None,
            parts@.len() == index,
            forall|i: int|
                0 <= i < index ==> (#[trigger] parts@[i]).0 == batch.samples@[i].sample_index
                    && parts@[i].1@ == slice_bytes(batch.samples@[i], data@),
        decreases batch.samples@.len() - index,
    {
        let slice: SampleSlice = batch.samples[index];
        proof {
            if slices_fault(batch.samples@, index + 1, data@.len() as int) is Some {
                lemma_slices_fault(
                    batch.samples@,
                    index + 1,
                    batch.samples@.len() as int,
                    data@.len() as int,
                );
            }
        }
        let source = slice_subrange(data, slice.offset, slice.offset + slice.size);
        let mut bytes: Vec<u8> = Vec::new();
        if !try_reserve_exact(&mut bytes, source.len()) {
            return None;
        }
        bytes.extend_from_slice(source);
        assert(bytes@ =~= slice_bytes(slice, data@));
        parts.push((slice.sample_index, bytes));
        index += 1;
    }
    Some(parts)
}

/// `samples` with the first `k` pairs put in, later ones over earlier ones.
pub open spec fn with_pairs(
    samples: Map<u32, Vec<u8>>,
    pairs: Seq<(u32, Vec<u8>)>,
    k: int,
) -> Map<u32, Vec<u8>>
    decreases k,
{
    if k <= 0 {
        samples
    } else {
        with_pairs(samples, pairs, k - 1).insert(pairs[k - 1].0, pairs[k - 1].1)
    }
}

/// The samples of the first `k` batches by their number.
pub open spec fn samples_of_parts(parts: Seq<Vec<(u32, Vec<u8>)>>, k: int) -> Map<u32, Vec<u8>>
    decreases k,
{
    if k <= 0 {
        Map::empty()
    } else {
        with_pairs(samples_of_parts(parts, k - 1), parts[k - 1]@, parts[k - 1]@.len() as int)
    }
}

/// Collects the samples of all batches by their number.
pub fn collect_samples(parts: Vec<Vec<(u32, Vec<u8>)>>) -> (result: Option<HashMap<u32, Vec<u8>>>)
    ensures
        match result {
            Some(samples) => samples@ == samples_of_parts(parts@, parts@.len() as int),
            None => exists|i: int| 0 <= i < parts@.len() && (#[trigger] parts@[i])@.len() > 0,
        },
{
    let ghost all = parts@;
    let mut samples: HashMap<u32, Vec<u8>> = HashMap::new();
    for part in iter: parts
        invariant
            iter.seq() == all,
            samples@ == samples_of_parts(all, iter.index() as int),
    {
        let ghost before = samples@;
        let ghost pairs = part@;
        assert(all[iter.index() as int] == part);
        if part.len() > 0 && !try_reserve_samples(&mut samples, part.len()) {
            return None;
        }
        for pair in inner: part
            invariant
                inner.seq() == pairs,
                samples@ == with_pairs(before, pairs, inner.index() as int),
        {
            samples.insert(pair.0, pair.1);
        }
    }
    Some(samples)
}

/// Where a plan's batch was read from a file in full, taking it apart gives
/// each of its samples the bytes that the file holds at the sample's place.
pub proof fn lemma_split_gives_file_bytes(
    wanted: Seq<u32>,
    sizes: SampleSizes,
    stsc: Seq<StscEntry>,
    chunk_offsets: Seq<u64>,
    max_sample_bytes: int,
    max_total_bytes: int,
    max_gap: int,
    max_batch: int,
    file: Seq<u8>,
    b: int,
)
    requires
        0 <= max_total_bytes,
        read_plan(
            wanted,
            sizes,
            stsc,
            chunk_offsets,
            max_sample_bytes,
            max_total_bytes,
            max_gap,
            max_batch,
        ) is Ok,
        ({
            let batches = read_plan(
                wanted,
                sizes,
                stsc,
                chunk_offsets,
                max_sample_bytes,
                max_total_bytes,
                max_gap,
                max_batch,
            )->Ok_0;
            &&& 0 <= b < batches.len()
            &&& batches[b].offset + batches[b].size <= file.len()
        }),
    ensures
        ({
            let batch = read_plan(
                wanted,
                sizes,
                stsc,
                chunk_offsets,
                max_sample_bytes,
                max_total_bytes,
                max_gap,
                max_batch,
            )->Ok_0[b];
            let data = file.subrange(batch.offset, batch.offset + batch.size);
            &&& split_fault(batch, data) is None
            &&& forall|s: int|
                0 <= s < batch.samples.len() ==> {
                    let read = read_of(
                        (#[trigger] batch.samples[s]).sample_index,
                        sizes,
                        stsc,
                        chunk_offsets,
                    );
                    slice_bytes(batch.samples[s], data) == file.subrange(
                        read.offset as int,
                        read.offset + read.size,
                    )
                }
        }),
{
    lemma_plan_brings_the_wanted_samples(
        wanted,
        sizes,
        stsc,
        chunk_offsets,
        max_sample_bytes,
        max_total_bytes,
        max_gap,
        max_batch,
    );
    let batches = read_plan(
        wanted,
        sizes,
        stsc,
        chunk_offsets,
        max_sample_bytes,
        max_total_bytes,
        max_gap,
        max_batch,
    )->Ok_0;
    let batch = batches[b];
    let data = file.subrange(batch.offset, batch.offset + batch.size);
    assert(batch_sound(batches[b], max_batch));
    lemma_no_slices_fault(batch.samples, batch.samples.len() as int, data.len() as int);
    assert forall|s: int| 0 <= s < batch.samples.len() implies {
        let read = read_of((#[trigger] batch.samples[s]).sample_index, sizes, stsc, chunk_offsets);
        slice_bytes(batch.samples[s], data) == file.subrange(
            read.offset as int,
            read.offset + read.size,
        )
    } by {
        let read = read_of(batches[b].samples[s].sample_index, sizes, stsc, chunk_offsets);
        assert(slice_is(batches[b], s, read));
        assert(slice_bytes(batch.samples[s], data) =~= file.subrange(
            read.offset as int,
            read.offset + read.size,
        ));
    }
}

proof fn lemma_no_slices_fault(samples: Seq<SampleSlice>, k: int, len: int)
    requires
        0 <= k <= samples.len(),
        forall|s: int|
            0 <= s < samples.len() ==> (#[trigger] samples[s]).offset + samples[s].size <= len,
    ensures
        slices_fault(samples, k, len) is None,
    decreases k,
{
    if k > 0 {
        lemma_no_slices_fault(samples, k - 1, len);
        assert(slice_inside(samples[k - 1], len));
    }
}

/// A sample is read from its place in the file and in its size.
pub proof fn lemma_samples_are_read_at_their_places(
    n: u32,
    sizes: SampleSizes,
    stsc: Seq<StscEntry>,
    chunk_offsets: Seq<u64>,
)
    requires
        crate::mp4::chunks::ends_in_file(sizes, stsc, chunk_offsets, n as int),
        0 <= crate::mp4::chunks::offset_of_sample(sizes, stsc, chunk_offsets, n as int),
    ensures
        ({
            let read = read_of(n, sizes, stsc, chunk_offsets);
            &&& read.sample_index == n
            &&& read.offset == crate::mp4::chunks::offset_of_sample(
                sizes,
                stsc,
                chunk_offsets,
                n as int,
            )
            &&& read.size == crate::mp4::samples::size_of_sample(sizes, n as int).unwrap()
        }),
{
}

/// The bytes of a sample in a batch are those from its place in the batch on.
pub proof fn lemma_slices_are_cut_at_their_places(slice: SampleSlice, data: Seq<u8>, i: int)
    requires
        slice.offset + slice.size <= data.len(),
        0 <= i < slice.size,
    ensures
        slice_bytes(slice, data).len() == slice.size,
        slice_bytes(slice, data)[i] == data[slice.offset + i],
{
}

/// Samples that lie close to each other are read together: where one batch does
/// not go on with the first sample of the next, the gap between the two is too
/// wide or the batch would be too large.
pub proof fn lemma_close_samples_are_read_together(
    reads: Seq<SampleRead>,
    k: int,
    max_gap: int,
    max_batch: int,
    b: int,
)
    requires
        0 <= k <= reads.len(),
        joined(reads, k, max_gap, max_batch) is Ok,
        0 <= b,
        b + 1 < joined(reads, k, max_gap, max_batch)->Ok_0.len(),
    ensures
        ({
            let batches = joined(reads, k, max_gap, max_batch)->Ok_0;
            let next = batches[b + 1];
            &&& next.samples.len() > 0
            &&& {
                ||| next.offset - (batches[b].offset + batches[b].size) > max_gap
                ||| next.offset + next.samples[0].size - batches[b].offset > max_batch
            }
        }),
    decreases k,
{
    let before = joined(reads, k - 1, max_gap, max_batch)->Ok_0;
    let batches = joined(reads, k, max_gap, max_batch)->Ok_0;
    if k > 0 && before.len() > 0 {
        if b + 1 < before.len() {
            lemma_close_samples_are_read_together(reads, k - 1, max_gap, max_batch, b);
            if batches.len() == before.len() && b + 1 == batches.len() - 1 {
                assert(batches[b + 1].samples[0] == before[b + 1].samples[0]);
            }
        }
    }
}

/// A sample is there just where it was there before or comes in one of the pairs,
/// and the last pair with its number has its bytes.
pub proof fn lemma_last_pair_has_the_sample(
    samples: Map<u32, Vec<u8>>,
    pairs: Seq<(u32, Vec<u8>)>,
    k: int,
    n: u32,
    place: int,
)
    requires
        0 <= k <= pairs.len(),
    ensures
        with_pairs(samples, pairs, k).contains_key(n) <==> samples.contains_key(n) || exists|j: int|
            0 <= j < k && (#[trigger] pairs[j]).0 == n,
        0 <= place < k && pairs[place].0 == n && (forall|j: int|
            place < j < k ==> (#[trigger] pairs[j]).0 != n) ==> with_pairs(samples, pairs, k)[n]
            == pairs[place].1,
        (forall|j: int| 0 <= j < k ==> (#[trigger] pairs[j]).0 != n) && samples.contains_key(n)
            ==> with_pairs(samples, pairs, k)[n] == samples[n],
    decreases k,
{
    if k > 0 {
        lemma_last_pair_has_the_sample(samples, pairs, k - 1, n, place);
    }
}

/// Samples that come in different batches are all collected, each with its own
/// bytes where no other has its number.
pub proof fn lemma_samples_of_all_batches_are_collected(
    parts: Seq<Vec<(u32, Vec<u8>)>>,
    k: int,
    batch: int,
    place: int,
)
    requires
        0 <= batch < k <= parts.len(),
        0 <= place < parts[batch]@.len(),
        forall|b: int, p: int|
            #![trigger parts[b]@[p]]
            0 <= b < k && 0 <= p < parts[b]@.len() && (b != batch || p != place) ==> parts[b]@[p].0
                != parts[batch]@[place].0,
    ensures
        samples_of_parts(parts, k).contains_key(parts[batch]@[place].0),
        samples_of_parts(parts, k)[parts[batch]@[place].0] == parts[batch]@[place].1,
    decreases k,
{
    let n = parts[batch]@[place].0;
    let last = parts[k - 1]@;
    let before = samples_of_parts(parts, k - 1);
    if batch == k - 1 {
        lemma_last_pair_has_the_sample(before, last, last.len() as int, n, place);
    } else {
        lemma_samples_of_all_batches_are_collected(parts, k - 1, batch, place);
        lemma_last_pair_has_the_sample(before, last, last.len() as int, n, 0);
    }
}

/// Each part of a batch has the number of its sample, and of the bytes that were
/// read those at the place of the sample and as many as it has.
pub proof fn lemma_parts_are_the_samples_of_their_batch(
    parts: Seq<(u32, Vec<u8>)>,
    samples: Seq<SampleSlice>,
    data: Seq<u8>,
    i: int,
    j: int,
)
    requires
        parts_of(parts, samples, data),
        0 <= i < samples.len(),
        samples[i].offset + samples[i].size <= data.len(),
        0 <= j < samples[i].size,
    ensures
        parts.len() == samples.len(),
        parts[i].0 == samples[i].sample_index,
        parts[i].1@.len() == samples[i].size,
        parts[i].1@[j] == data[samples[i].offset + j],
{
}

} // verus!
