//! MP4 sample tables: sizes, chunks, sync samples and file offsets.

use vstd::prelude::*;

use crate::bytes::{fourcc, read_u32_be, read_u64_be};
use crate::mp4::boxes::find_box;

verus! {

/// A run of chunks with one layout: it reaches up to the next entry's first chunk.
#[derive(Debug, Clone, Copy, PartialEq, Eq, Structural)]
pub struct StscEntry {
    pub first_chunk: u32,
    pub samples_per_chunk: u32,
    pub sample_description_index: u32,
}

/// The sizes of a track's samples: one for all, or one each.
#[derive(Debug)]
pub struct SampleSizes {
    pub fixed_size: u32,
    pub sizes: Vec<u32>,
    pub sample_count: u32,
}

impl SampleSizes {
    /// `sample_count` samples of `size` bytes each, unless `size` is zero.
    pub fn fixed(sample_count: u32, size: u32) -> (result: Option<SampleSizes>)
        ensures
            match result {
                Some(sizes) => size != 0 && sizes.fixed_size == size && sizes.sample_count
                    == sample_count && sizes.sizes@.len() == 0,
                None => size == 0,
            },
    {
        if size == 0 {
            return None;
        }
        Some(SampleSizes { fixed_size: size, sizes: Vec::new(), sample_count })
    }

    /// One sample for each of `sizes`, unless there are more than a table can count.
    pub fn variable(sizes: Vec<u32>) -> (result: Option<SampleSizes>)
        ensures
            match result {
                Some(table) => table.fixed_size == 0 && table.sizes == sizes && table.sample_count
                    == sizes@.len(),
                None => sizes@.len() > u32::MAX,
            },
    {
        if sizes.len() as u64 > u32::MAX as u64 {
            return None;
        }
        let sample_count: u32 = sizes.len() as u32;
        Some(SampleSizes { fixed_size: 0, sizes, sample_count })
    }
}

// ---------------------------------------------------------------------------
// Full-box tables
// ---------------------------------------------------------------------------

/// The number of `entry_size`-byte entries behind the 8-byte head of a table,
/// if the table holds as many as it says.
pub open spec fn table_len(table: Seq<u8>, entry_size: int) -> Option<int> {
    let count = crate::bytes::be32(table, 4);
    if table.len() >= 8 && count <= (table.len() - 8) / entry_size {
        Some(count)
    } else {
        None
    }
}

/// Reads the entry count of a full-box table (8-byte header of version/flags
/// plus entry count) and validates that `entry_size`-byte entries fit in the
/// box payload.
pub fn table_entries(buf: &[u8], entry_size: usize) -> (result: Option<usize>)
    requires
        entry_size > 0,
    ensures
        match result {
            Some(count) => table_len(buf@, entry_size as int) == Some(count as int) && 8 + count
                * entry_size <= buf@.len(),
            None => table_len(buf@, entry_size as int) is None,
        },
{
    let count: u32 = match read_u32_be(buf, 4) {
        Some(count) => count,
        None => {
            return None;
        },
    };
    let available: usize = (buf.len() - 8) / entry_size;
    if count as usize <= available {
        assert(count * entry_size <= buf@.len() - 8) by (nonlinear_arith)
            requires
                count <= available,
                available == (buf@.len() - 8) / entry_size as int,
                entry_size > 0,
                buf@.len() >= 8,
        ;
        Some(count as usize)
    } else {
        None
    }
}

/// The `index`-th 32-bit field of a table that starts at `start` with entries
/// of `entry_size` bytes.
pub open spec fn field32(table: Seq<u8>, start: int, entry_size: int, index: int) -> u32 {
    crate::bytes::be32(table, start + index * entry_size) as u32
}

// ---------------------------------------------------------------------------
// stsz
// ---------------------------------------------------------------------------

/// What an `stsz` payload says: the common size, the sizes, the sample count.
/// The sizes are read only where there is no common size.
pub open spec fn sample_size_table(stsz: Seq<u8>) -> Option<(u32, Seq<u32>, u32)> {
    let fixed = field32(stsz, 4, 4, 0);
    let count = field32(stsz, 8, 4, 0);
    if stsz.len() < 12 {
        None
    } else if fixed != 0 {
        Some((fixed, Seq::empty(), count))
    } else if count <= (stsz.len() - 12) / 4 {
        Some((fixed, Seq::new(count as nat, |i: int| field32(stsz, 12, 4, i)), count))
    } else {
        None
    }
}

pub open spec fn sizes_match(sizes: SampleSizes, table: (u32, Seq<u32>, u32)) -> bool {
    sizes.fixed_size == table.0 && sizes.sizes@ == table.1 && sizes.sample_count == table.2
}

/// Parses an `stsz` payload.
pub fn parse_sample_sizes(stsz: &[u8]) -> (result: Option<SampleSizes>)
    ensures
        match result {
            Some(sizes) => sample_size_table(stsz@) is Some && sizes_match(
                sizes,
                sample_size_table(stsz@).unwrap(),
            ),
            None => sample_size_table(stsz@) is None,
        },
{
    parse_sample_sizes_into(stsz, Vec::new())
}

/// Parses an `stsz` payload into the room of a vector.
pub(crate) fn parse_sample_sizes_into(stsz: &[u8], room: Vec<u32>) -> (result: Option<SampleSizes>)
    requires
        room@.len() == 0,
    ensures
        match result {
            Some(sizes) => sample_size_table(stsz@) is Some && sizes_match(
                sizes,
                sample_size_table(stsz@).unwrap(),
            ),
            None => sample_size_table(stsz@) is None,
        },
{
    let (fixed_size, sample_count) = match (read_u32_be(stsz, 4), read_u32_be(stsz, 8)) {
        (Some(fixed_size), Some(sample_count)) => (fixed_size, sample_count),
        _ => {
            return None;
        },
    };
    let mut sizes = room;
    assert(sizes@ =~= Seq::empty());
    if fixed_size == 0 {
        let count: usize = sample_count as usize;
        if count > (stsz.len() - 12) / 4 {
            return None;
        }
        let mut index: usize = 0;
        while index < count
            invariant
                index <= count,
                12 + count * 4 <= stsz.len(),
                sizes@ == Seq::new(index as nat, |i: int| field32(stsz@, 12, 4, i)),
            decreases count - index,
        {
            match read_u32_be(stsz, 12 + index * 4) {
                Some(size) => sizes.push(size),
                None => {
                    return None;
                },
            }
            index += 1;
            assert(sizes@ =~= Seq::new(index as nat, |i: int| field32(stsz@, 12, 4, i)));
        }
    }
    Some(SampleSizes { fixed_size, sizes, sample_count })
}

/// The number of sizes that an `stsz` payload lists.
pub(crate) fn listed_size_count(stsz: &[u8]) -> (result: Option<usize>)
    ensures
        match result {
            Some(count) => sample_size_table(stsz@) is Some && sample_size_table(
                stsz@,
            ).unwrap().1.len() == count,
            None => sample_size_table(stsz@) is None,
        },
{
    match (read_u32_be(stsz, 4), read_u32_be(stsz, 8)) {
        (Some(fixed_size), Some(sample_count)) => {
            if fixed_size != 0 {
                Some(0)
            } else if sample_count as usize <= (stsz.len() - 12) / 4 {
                Some(sample_count as usize)
            } else {
                None
            }
        },
        _ => None,
    }
}

/// The size of the sample `index` (1-based).
pub open spec fn size_of_sample(sizes: SampleSizes, index: int) -> Option<u32> {
    if !(1 <= index <= sizes.sample_count) {
        None
    } else if sizes.fixed_size != 0 {
        Some(sizes.fixed_size)
    } else if index <= sizes.sizes@.len() {
        Some(sizes.sizes@[index - 1])
    } else {
        None
    }
}

/// Size of `sample_index` (1-based).
pub fn sample_size(sample_index: u32, sizes: &SampleSizes) -> (result: Option<u32>)
    ensures
        result == size_of_sample(*sizes, sample_index as int),
{
    if sample_index == 0 || sample_index > sizes.sample_count {
        return None;
    }
    if sizes.fixed_size != 0 {
        return Some(sizes.fixed_size);
    }
    let position: usize = (sample_index - 1) as usize;
    if position < sizes.sizes.len() {
        Some(sizes.sizes[position])
    } else {
        None
    }
}

// ---------------------------------------------------------------------------
// stsc
// ---------------------------------------------------------------------------

pub open spec fn stsc_entry_at(stsc: Seq<u8>, index: int) -> StscEntry {
    StscEntry {
        first_chunk: field32(stsc, 8, 12, index),
        samples_per_chunk: field32(stsc, 12, 12, index),
        sample_description_index: field32(stsc, 16, 12, index),
    }
}

pub open spec fn stsc_fields_present(entry: StscEntry) -> bool {
    entry.first_chunk != 0 && entry.samples_per_chunk != 0 && entry.sample_description_index != 0
}

/// Whether no field is zero and the first chunks strictly increase.
pub open spec fn stsc_sound(entries: Seq<StscEntry>) -> bool {
    &&& forall|i: int| 0 <= i < entries.len() ==> #[trigger] stsc_fields_present(entries[i])
    &&& forall|i: int, j: int|
        0 <= i < j < entries.len() ==> (#[trigger] entries[i]).first_chunk < (
        #[trigger] entries[j]).first_chunk
}

/// The entries of an `stsc` payload, if they are sound.
pub open spec fn stsc_table(stsc: Seq<u8>) -> Option<Seq<StscEntry>> {
    match table_len(stsc, 12) {
        Some(count) => {
            let entries = Seq::new(count as nat, |i: int| stsc_entry_at(stsc, i));
            if stsc_sound(entries) {
                Some(entries)
            } else {
                None
            }
        },
        None => None,
    }
}

/// Parses an `stsc` payload.
pub fn parse_stsc(stsc: &[u8]) -> (result: Option<Vec<StscEntry>>)
    ensures
        match result {
            Some(entries) => stsc_table(stsc@) == Some(entries@),
            None => stsc_table(stsc@) is None,
        },
{
    parse_stsc_into(stsc, Vec::new())
}

/// Parses an `stsc` payload into the room of a vector.
pub(crate) fn parse_stsc_into(stsc: &[u8], room: Vec<StscEntry>) -> (result: Option<
    Vec<StscEntry>,
>)
    requires
        room@.len() == 0,
    ensures
        match result {
            Some(entries) => stsc_table(stsc@) == Some(entries@),
            None => stsc_table(stsc@) is None,
        },
{
    let count: usize = match table_entries(stsc, 12) {
        Some(count) => count,
        None => {
            return None;
        },
    };
    let ghost all = Seq::new(count as nat, |i: int| stsc_entry_at(stsc@, i));
    let mut entries = room;
    let mut index: usize = 0;
    while index < count
        invariant
            index <= count,
            8 + count * 12 <= stsc.len(),
            all == Seq::new(count as nat, |i: int| stsc_entry_at(stsc@, i)),
            table_len(stsc@, 12) == Some(count as int),
            entries@ == all.take(index as int),
            stsc_sound(entries@),
        decreases count - index,
    {
        let offset: usize = 8 + index * 12;
        let entry = match (
            read_u32_be(stsc, offset),
            read_u32_be(stsc, offset + 4),
            read_u32_be(stsc, offset + 8),
        ) {
            (Some(first_chunk), Some(samples_per_chunk), Some(sample_description_index)) =>
                StscEntry { first_chunk, samples_per_chunk, sample_description_index },
            _ => {
                return None;
            },
        };
        assert(entry == all[index as int]);
        if entry.first_chunk == 0 || entry.samples_per_chunk == 0
            || entry.sample_description_index == 0 {
            assert(!stsc_fields_present(all[index as int]));
            return None;
        }
        if entries.len() > 0 && entries[entries.len() - 1].first_chunk >= entry.first_chunk {
            assert(all[index - 1].first_chunk >= all[index as int].first_chunk);
            return None;
        }
        entries.push(entry);
        index += 1;
        assert(entries@ =~= all.take(index as int));
    }
    assert(entries@ =~= all);
    Some(entries)
}

// ---------------------------------------------------------------------------
// stco / co64
// ---------------------------------------------------------------------------

/// The chunk offsets of a sample table: from `stco` where there is one, else
/// from `co64`.
pub open spec fn chunk_offset_table(stbl: Seq<u8>) -> Option<Seq<u64>> {
    match crate::mp4::boxes::child(stbl, crate::bytes::code('s', 't', 'c', 'o')) {
        Some(stco) => match table_len(stco, 4) {
            Some(count) => Some(Seq::new(count as nat, |i: int| field32(stco, 8, 4, i) as u64)),
            None => None,
        },
        None => match crate::mp4::boxes::child(stbl, crate::bytes::code('c', 'o', '6', '4')) {
            Some(co64) => match table_len(co64, 8) {
                Some(count) => Some(
                    Seq::new(count as nat, |i: int| crate::bytes::be64(co64, 8 + i * 8) as u64),
                ),
                None => None,
            },
            None => None,
        },
    }
}

/// Parses the chunk offsets of an `stbl` payload.
pub fn parse_chunk_offsets(stbl: &[u8]) -> (result: Option<Vec<u64>>)
    ensures
        match result {
            Some(offsets) => chunk_offset_table(stbl@) == Some(offsets@),
            None => chunk_offset_table(stbl@) is None,
        },
{
    parse_chunk_offsets_into(stbl, Vec::new())
}

/// Parses the chunk offsets of an `stbl` payload into the room of a vector.
pub(crate) fn parse_chunk_offsets_into(stbl: &[u8], room: Vec<u64>) -> (result: Option<Vec<u64>>)
    requires
        room@.len() == 0,
    ensures
        match result {
            Some(offsets) => chunk_offset_table(stbl@) == Some(offsets@),
            None => chunk_offset_table(stbl@) is None,
        },
{
    let mut offsets = room;
    if let Some(stco) = find_box(stbl, &fourcc('s', 't', 'c', 'o')) {
        let count: usize = match table_entries(stco, 4) {
            Some(count) => count,
            None => {
                return None;
            },
        };
        let mut index: usize = 0;
        while index < count
            invariant
                index <= count,
                8 + count * 4 <= stco.len(),
                offsets@ == Seq::new(index as nat, |i: int| field32(stco@, 8, 4, i) as u64),
            decreases count - index,
        {
            match read_u32_be(stco, 8 + index * 4) {
                Some(offset) => offsets.push(offset as u64),
                None => {
                    return None;
                },
            }
            index += 1;
            assert(offsets@ =~= Seq::new(index as nat, |i: int| field32(stco@, 8, 4, i) as u64));
        }
        return Some(offsets);
    }
    let co64 = match find_box(stbl, &fourcc('c', 'o', '6', '4')) {
        Some(co64) => co64,
        None => {
            return None;
        },
    };
    let count: usize = match table_entries(co64, 8) {
        Some(count) => count,
        None => {
            return None;
        },
    };
    let mut index: usize = 0;
    while index < count
        invariant
            index <= count,
            8 + count * 8 <= co64.len(),
            offsets@ == Seq::new(
                index as nat,
                |i: int| crate::bytes::be64(co64@, 8 + i * 8) as u64,
            ),
        decreases count - index,
    {
        match read_u64_be(co64, 8 + index * 8) {
            Some(offset) => offsets.push(offset),
            None => {
                return None;
            },
        }
        index += 1;
        assert(offsets@ =~= Seq::new(
            index as nat,
            |i: int| crate::bytes::be64(co64@, 8 + i * 8) as u64,
        ));
    }
    Some(offsets)
}

/// The number of chunk offsets of an `stbl` payload.
pub(crate) fn chunk_offset_count(stbl: &[u8]) -> (result: Option<usize>)
    ensures
        match result {
            Some(count) => chunk_offset_table(stbl@) is Some && chunk_offset_table(
                stbl@,
            ).unwrap().len() == count,
            None => chunk_offset_table(stbl@) is None,
        },
{
    match find_box(stbl, &fourcc('s', 't', 'c', 'o')) {
        Some(stco) => table_entries(stco, 4),
        None => match find_box(stbl, &fourcc('c', 'o', '6', '4')) {
            Some(co64) => table_entries(co64, 8),
            None => None,
        },
    }
}

// ---------------------------------------------------------------------------
// stss
// ---------------------------------------------------------------------------

pub open spec fn strictly_increasing(values: Seq<u32>) -> bool {
    forall|i: int, j: int| 0 <= i < j < values.len() ==> values[i] < values[j]
}

/// The sync samples of an `stss` payload, if they strictly increase.
pub open spec fn sync_table(stss: Seq<u8>) -> Option<Seq<u32>> {
    match table_len(stss, 4) {
        Some(count) => {
            let samples = Seq::new(count as nat, |i: int| field32(stss, 8, 4, i));
            if strictly_increasing(samples) {
                Some(samples)
            } else {
                None
            }
        },
        None => None,
    }
}

/// Parses an `stss` payload.
pub fn parse_stss(stss: &[u8]) -> (result: Option<Vec<u32>>)
    ensures
        match result {
            Some(samples) => sync_table(stss@) == Some(samples@),
            None => sync_table(stss@) is None,
        },
{
    let count: usize = match table_entries(stss, 4) {
        Some(count) => count,
        None => {
            return None;
        },
    };
    let ghost all = Seq::new(count as nat, |i: int| field32(stss@, 8, 4, i));
    let mut samples: Vec<u32> = Vec::new();
    let mut index: usize = 0;
    while index < count
        invariant
            index <= count,
            8 + count * 4 <= stss.len(),
            all == Seq::new(count as nat, |i: int| field32(stss@, 8, 4, i)),
            table_len(stss@, 4) == Some(count as int),
            samples@ == all.take(index as int),
            strictly_increasing(samples@),
        decreases count - index,
    {
        let sample: u32 = match read_u32_be(stss, 8 + index * 4) {
            Some(sample) => sample,
            None => {
                return None;
            },
        };
        assert(sample == all[index as int]);
        if samples.len() > 0 && samples[samples.len() - 1] >= sample {
            assert(all[index - 1] >= all[index as int]);
            return None;
        }
        samples.push(sample);
        index += 1;
        assert(samples@ =~= all.take(index as int));
    }
    assert(samples@ =~= all);
    Some(samples)
}

pub open spec fn ascending(values: Seq<u32>) -> bool {
    forall|i: int, j: int| 0 <= i <= j < values.len() ==> values[i] <= values[j]
}

/// The number of leading values of the ascending `values` that are at most `bound`.
fn count_up_to(values: &[u32], bound: u32) -> (result: usize)
    requires
        ascending(values@),
    ensures
        result <= values@.len(),
        forall|i: int| 0 <= i < result ==> values@[i] <= bound,
        forall|i: int| result <= i < values@.len() ==> values@[i] > bound,
{
    let mut low: usize = 0;
    let mut high: usize = values.len();
    while low < high
        invariant
            ascending(values@),
            low <= high <= values@.len(),
            forall|i: int| 0 <= i < low ==> values@[i] <= bound,
            forall|i: int| high <= i < values@.len() ==> values@[i] > bound,
        decreases high - low,
    {
        let middle: usize = low + (high - low) / 2;
        if values[middle] <= bound {
            low = middle + 1;
        } else {
            high = middle;
        }
    }
    low
}

/// What an optional slice holds.
pub open spec fn slice_view<T>(values: Option<&[T]>) -> Option<Seq<T>> {
    match values {
        Some(values) => Some(values@),
        None => None,
    }
}

/// Whether `result` is the last sync sample at or before `sample_index`, or the
/// first sample where there is none. Without a sync table every sample is a
/// sync sample.
pub open spec fn is_nearest_sync(
    sample_index: u32,
    sync_samples: Option<Seq<u32>>,
    result: u32,
) -> bool {
    match sync_samples {
        None => result == sample_index,
        Some(samples) => {
            ||| samples.contains(result) && result <= sample_index && forall|s: u32|
                samples.contains(s) && s <= sample_index ==> s <= result
            ||| result == 1 && forall|s: u32| samples.contains(s) ==> s > sample_index
        },
    }
}

/// The sync sample to start decoding `sample_index` from: the last one at or
/// before it, or the first sample where there is none. Without a sync table
/// every sample is a sync sample.
pub fn nearest_sync_sample(sample_index: u32, sync_samples: Option<&[u32]>) -> (result: u32)
    requires
        sync_samples matches Some(samples) ==> ascending(samples@),
    ensures
        is_nearest_sync(sample_index, slice_view(sync_samples), result),
{
    match sync_samples {
        None => sample_index,
        Some(samples) => {
            let partition: usize = count_up_to(samples, sample_index);
            if partition == 0 {
                1
            } else {
                assert(samples@.contains(samples@[partition - 1]));
                samples[partition - 1]
            }
        },
    }
}

/// Whether `result` is the first sync sample behind `sample_index` that the
/// track still holds.
pub open spec fn is_next_sync(
    sample_index: u32,
    sync_samples: Option<Seq<u32>>,
    sample_count: u32,
    result: Option<u32>,
) -> bool {
    match (sync_samples, result) {
        (None, Some(next)) => next == sample_index + 1 && next <= sample_count,
        (None, None) => sample_index + 1 > sample_count || sample_index == u32::MAX,
        (Some(samples), Some(next)) => samples.contains(next) && sample_index < next
            <= sample_count && forall|s: u32|
            samples.contains(s) && s > sample_index ==> s >= next,
        (Some(samples), None) => forall|s: u32|
            samples.contains(s) && s > sample_index ==> s > sample_count,
    }
}

/// The first sync sample behind `sample_index` that the track still holds.
pub fn next_sync_sample(
    sample_index: u32,
    sync_samples: Option<&[u32]>,
    sample_count: u32,
) -> (result: Option<u32>)
    requires
        sync_samples matches Some(samples) ==> ascending(samples@),
    ensures
        is_next_sync(sample_index, slice_view(sync_samples), sample_count, result),
{
    match sync_samples {
        None => {
            if sample_index < u32::MAX && sample_index + 1 <= sample_count {
                Some(sample_index + 1)
            } else {
                None
            }
        },
        Some(samples) => {
            let partition: usize = count_up_to(samples, sample_index);
            if partition < samples.len() && samples[partition] <= sample_count {
                assert(samples@.contains(samples@[partition as int]));
                Some(samples[partition])
            } else {
                None
            }
        },
    }
}

/// The size of each sample is read from an `stsz` payload: the common one where
/// there is one, else the four bytes in the sample's place of the list. There is
/// no sample zero and none behind the last.
pub proof fn lemma_sample_sizes_read_back(stsz: Seq<u8>, sizes: SampleSizes, n: int, size: u32)
    requires
        sample_size_table(stsz) is Some,
        sizes_match(sizes, sample_size_table(stsz).unwrap()),
    ensures
        sizes.sample_count == crate::bytes::be32(stsz, 8),
        size > 0 && stsz.subrange(4, 8) == crate::bytes::written32(size as int) && 1 <= n
            <= sizes.sample_count ==> size_of_sample(sizes, n) == Some(size),
        stsz.subrange(4, 8) == crate::bytes::written32(0) && 1 <= n <= sizes.sample_count
            && stsz.subrange(8 + 4 * n, 12 + 4 * n) == crate::bytes::written32(size as int)
            ==> size_of_sample(sizes, n) == Some(size),
        n < 1 || n > sizes.sample_count ==> size_of_sample(sizes, n) is None,
{
    crate::bytes::lemma_written_numbers_read_back(stsz, 4, size as int);
    crate::bytes::lemma_written_numbers_read_back(stsz, 4, 0);
    if stsz.subrange(4, 8) == crate::bytes::written32(0) && 1 <= n <= sizes.sample_count {
        crate::bytes::lemma_written_numbers_read_back(stsz, 8 + 4 * n, size as int);
    }
}

/// The runs of an `stsc` payload are read in their order, each as its first chunk,
/// the samples of each of its chunks and their description.
pub proof fn lemma_chunk_runs_read_back(
    stsc: Seq<u8>,
    i: int,
    first_chunk: u32,
    samples_per_chunk: u32,
    description: u32,
)
    requires
        stsc_table(stsc) is Some,
        0 <= i < stsc_table(stsc).unwrap().len(),
        stsc.subrange(8 + 12 * i, 12 + 12 * i) == crate::bytes::written32(first_chunk as int),
        stsc.subrange(12 + 12 * i, 16 + 12 * i) == crate::bytes::written32(
            samples_per_chunk as int,
        ),
        stsc.subrange(16 + 12 * i, 20 + 12 * i) == crate::bytes::written32(description as int),
    ensures
        stsc_table(stsc).unwrap()[i] == (StscEntry {
            first_chunk,
            samples_per_chunk,
            sample_description_index: description,
        }),
        first_chunk > 0,
        samples_per_chunk > 0,
        description > 0,
{
    assert(stsc_fields_present(stsc_table(stsc).unwrap()[i]));
    crate::bytes::lemma_written_numbers_read_back(stsc, 8 + 12 * i, first_chunk as int);
    crate::bytes::lemma_written_numbers_read_back(stsc, 12 + 12 * i, samples_per_chunk as int);
    crate::bytes::lemma_written_numbers_read_back(stsc, 16 + 12 * i, description as int);
}

/// The places of the chunks are read from an `stco` payload in four bytes each,
/// or from a `co64` payload in eight.
pub proof fn lemma_chunk_offsets_read_back(table: Seq<u8>, i: int, offset: u64)
    requires
        table.len() + 8 <= u32::MAX,
        0 <= i < crate::bytes::be32(table, 4),
    ensures
        ({
            let stbl = crate::mp4::boxes::written_box(
                crate::bytes::code('s', 't', 'c', 'o'),
                table,
            );
            offset <= u32::MAX && 8 + 4 * crate::bytes::be32(table, 4) <= table.len()
                && table.subrange(8 + 4 * i, 12 + 4 * i) == crate::bytes::written32(offset as int)
                ==> (chunk_offset_table(stbl) matches Some(offsets) && offsets.len()
                == crate::bytes::be32(table, 4) && offsets[i] == offset)
        }),
        ({
            let stbl = crate::mp4::boxes::written_box(
                crate::bytes::code('c', 'o', '6', '4'),
                table,
            );
            8 + 8 * crate::bytes::be32(table, 4) <= table.len() && table.subrange(
                8 + 8 * i,
                16 + 8 * i,
            ) == crate::bytes::written64(offset as int) ==> (chunk_offset_table(
                stbl,
            ) matches Some(offsets) && offsets.len() == crate::bytes::be32(table, 4) && offsets[i]
                == offset)
        }),
{
    let stco = crate::bytes::code('s', 't', 'c', 'o');
    let co64 = crate::bytes::code('c', 'o', '6', '4');
    crate::mp4::boxes::lemma_only_box_is_found(stco, table);
    crate::mp4::boxes::lemma_only_box_is_found(co64, table);
    assert(stco[0] != co64[0]);
    let boxes = seq![(co64, table)];
    assert(boxes.drop_first() =~= seq![]);
    assert(crate::mp4::boxes::written_boxes(boxes.drop_first()) =~= seq![]);
    assert(crate::mp4::boxes::written_boxes(boxes) =~= crate::mp4::boxes::written_box(co64, table));
    crate::mp4::boxes::lemma_child_is_the_first(boxes, stco, 0);
    if 8 + 4 * crate::bytes::be32(table, 4) <= table.len() {
        crate::bytes::lemma_written_numbers_read_back(table, 8 + 4 * i, offset as int);
    }
    if 8 + 8 * crate::bytes::be32(table, 4) <= table.len() {
        crate::bytes::lemma_written_numbers_read_back(table, 8 + 8 * i, offset as int);
    }
}

/// The sync samples are read from an `stss` payload in four bytes each, and they
/// ascend.
pub proof fn lemma_sync_samples_read_back(stss: Seq<u8>, i: int, sample: u32)
    requires
        sync_table(stss) is Some,
        0 <= i < sync_table(stss).unwrap().len(),
        stss.subrange(8 + 4 * i, 12 + 4 * i) == crate::bytes::written32(sample as int),
    ensures
        sync_table(stss).unwrap().len() == crate::bytes::be32(stss, 4),
        sync_table(stss).unwrap()[i] == sample,
        i > 0 ==> sync_table(stss).unwrap()[i - 1] < sample,
{
    crate::bytes::lemma_written_numbers_read_back(stss, 8 + 4 * i, sample as int);
}

/// A sample is decoded from a sync sample at or before it, and no other sync
/// sample lies between the two. The next group starts behind it, at the next sync
/// sample.
pub proof fn lemma_no_sync_sample_between(
    sample_index: u32,
    sync_samples: Option<Seq<u32>>,
    sample_count: u32,
    sync: u32,
    next: Option<u32>,
    other: u32,
)
    requires
        sample_index >= 1,
        is_nearest_sync(sample_index, sync_samples, sync),
        is_next_sync(sync, sync_samples, sample_count, next),
        sync_samples matches Some(samples) ==> samples.contains(1) && samples.contains(other),
    ensures
        sync <= sample_index,
        sync_samples is None ==> sync == sample_index,
        sync_samples matches Some(samples) ==> samples.contains(sync) && !(sync < other
            <= sample_index),
        next matches Some(after) ==> sync < after <= sample_count && (sync_samples matches Some(
            samples,
        ) ==> samples.contains(after) && !(sync < other < after) && sample_index < after),
        next is None && sync_samples is Some ==> other <= sync || other > sample_count,
{
}

/// A table is read just where it has its head and all the entries that it counts.
pub proof fn lemma_tables_hold_their_entries(table: Seq<u8>, entry_size: int)
    requires
        entry_size > 0,
    ensures
        table_len(table, entry_size) is Some <==> table.len() >= 8 && 8 + crate::bytes::be32(
            table,
            4,
        ) * entry_size <= table.len(),
        table_len(table, entry_size) matches Some(count) ==> count == crate::bytes::be32(table, 4),
{
    let count = crate::bytes::be32(table, 4);
    let room = table.len() - 8;
    assert(count <= room / entry_size <==> count * entry_size <= room) by (nonlinear_arith)
        requires
            entry_size > 0,
    ;
}

/// The sizes of samples are read where there is one for all of them, or one for
/// each.
pub proof fn lemma_sample_sizes_are_read(stsz: Seq<u8>)
    ensures
        sample_size_table(stsz) is Some <==> stsz.len() >= 12 && (crate::bytes::be32(stsz, 4) != 0
            || 12 + 4 * crate::bytes::be32(stsz, 8) <= stsz.len()),
{
}

/// The chunk runs are read where all are there, none has a field of zero, and
/// each starts behind the one before.
pub proof fn lemma_chunk_runs_are_read(stsc: Seq<u8>)
    ensures
        stsc_table(stsc) is Some <==> {
            let count = crate::bytes::be32(stsc, 4);
            &&& stsc.len() >= 8 && 8 + 12 * count <= stsc.len()
            &&& forall|i: int|
                0 <= i < count ==> (#[trigger] stsc_entry_at(stsc, i)).first_chunk != 0
                    && stsc_entry_at(stsc, i).samples_per_chunk != 0 && stsc_entry_at(
                    stsc,
                    i,
                ).sample_description_index != 0
            &&& forall|i: int, j: int|
                0 <= i < j < count ==> (#[trigger] stsc_entry_at(stsc, i)).first_chunk < (
                #[trigger] stsc_entry_at(stsc, j)).first_chunk
        },
{
    let count = crate::bytes::be32(stsc, 4);
    let entries = Seq::new(count as nat, |i: int| stsc_entry_at(stsc, i));
    lemma_tables_hold_their_entries(stsc, 12);
    if stsc_sound(entries) {
        assert forall|i: int| 0 <= i < count implies stsc_fields_present(
            #[trigger] stsc_entry_at(stsc, i),
        ) by {
            assert(stsc_fields_present(entries[i]));
        }
        assert forall|i: int, j: int| 0 <= i < j < count implies (#[trigger] stsc_entry_at(
            stsc,
            i,
        )).first_chunk < (#[trigger] stsc_entry_at(stsc, j)).first_chunk by {
            assert(entries[i].first_chunk < entries[j].first_chunk);
        }
    }
}

/// The chunk offsets are read from a table that holds all of them: of 32 bits
/// where there is such a table, else of 64.
pub proof fn lemma_chunk_offsets_are_read(stbl: Seq<u8>)
    ensures
        chunk_offset_table(stbl) is Some <==> match (
            crate::mp4::boxes::child(stbl, crate::bytes::code('s', 't', 'c', 'o')),
            crate::mp4::boxes::child(stbl, crate::bytes::code('c', 'o', '6', '4')),
        ) {
            (Some(stco), _) => stco.len() >= 8 && 8 + 4 * crate::bytes::be32(stco, 4)
                <= stco.len(),
            (None, Some(co64)) => co64.len() >= 8 && 8 + 8 * crate::bytes::be32(co64, 4)
                <= co64.len(),
            (None, None) => false,
        },
{
}

/// The sync samples are read where all are there and each is behind the one
/// before.
pub proof fn lemma_sync_samples_are_read(stss: Seq<u8>)
    ensures
        sync_table(stss) is Some <==> {
            let count = crate::bytes::be32(stss, 4);
            &&& stss.len() >= 8 && 8 + 4 * count <= stss.len()
            &&& forall|i: int, j: int|
                0 <= i < j < count ==> (#[trigger] field32(stss, 8, 4, i)) < (
                #[trigger] field32(stss, 8, 4, j))
        },
{
    let count = crate::bytes::be32(stss, 4);
    let samples = Seq::new(count as nat, |i: int| field32(stss, 8, 4, i));
    lemma_tables_hold_their_entries(stss, 4);
    if strictly_increasing(samples) {
        assert forall|i: int, j: int| 0 <= i < j < count implies (#[trigger] field32(
            stss,
            8,
            4,
            i,
        )) < (#[trigger] field32(stss, 8, 4, j)) by {
            assert(samples[i] < samples[j]);
        }
    }
}

} // verus!
