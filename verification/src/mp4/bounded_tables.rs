//! Sample tables that are retained within a budget.

use vstd::prelude::*;

use crate::bytes::read_u32_be;
use crate::memory::{text_capacity, try_reserve_text};
use crate::mp4::boxes::read_box;
use crate::mp4::retained::{budgeted_vec, RetainedBudget, TableParseError, TableResult};
use crate::mp4::samples::{
    chunk_offset_count, listed_size_count, parse_chunk_offsets_into, parse_sample_sizes_into,
    parse_stsc_into, table_entries, SampleSizes, StscEntry,
};

verus! {

// ---------------------------------------------------------------------------
// What a parse into a budget keeps
// ---------------------------------------------------------------------------

/// Whether a budget was only charged, and within its limit.
pub open spec fn only_charged(before: RetainedBudget, after: RetainedBudget) -> bool {
    &&& after.limit() == before.limit()
    &&& before.used() <= after.used() <= before.limit()
}

/// Whether an error says that the budget or the allocator has no more room.
pub open spec fn out_of_room(error: TableParseError) -> bool {
    error == TableParseError::BudgetExceeded || error == TableParseError::AllocationFailed
}

/// The part of an error that says that there is no more room.
pub open spec fn room_fault<T>(result: TableResult<T>) -> Option<TableParseError> {
    match result {
        Ok(_) => None,
        Err(error) => if out_of_room(error) {
            Some(error)
        } else {
            None
        },
    }
}

/// Whether an error is the one for a table that is malformed in this way.
pub open spec fn malformed(error: TableParseError, reason: Seq<char>) -> bool {
    match error {
        TableParseError::Invalid(text) => text@ == reason,
        _ => false,
    }
}

/// The number of entries that a table lists, if there are that many.
pub open spec fn listed(table: Seq<u8>, entry_size: int) -> int {
    match crate::mp4::samples::table_len(table, entry_size) {
        Some(count) => count,
        None => 0,
    }
}

// ---------------------------------------------------------------------------
// Sizes, chunks and offsets
// ---------------------------------------------------------------------------

/// Parses an `stsz` payload into memory charged to a budget.
pub fn parse_sample_sizes_bounded(stsz: &[u8], budget: &mut RetainedBudget) -> (result: TableResult<
    SampleSizes,
>)
    ensures
        only_charged(*old(budget), *final(budget)),
        ({
            let table = crate::mp4::samples::sample_size_table(stsz@);
            match result {
                Ok(sizes) => table is Some && crate::mp4::samples::sizes_match(
                    sizes,
                    table.unwrap(),
                ),
                Err(error) => if table is Some {
                    out_of_room(error)
                } else {
                    malformed(error, "invalid stsz table"@)
                },
            }
        }),
        crate::mp4::retained::charged_growth(
            *old(budget),
            *final(budget),
            match crate::mp4::samples::sample_size_table(stsz@) {
                Some(table) => table.1.len() as int,
                None => 0,
            },
            vstd::layout::size_of::<u32>() as int,
            room_fault(result),
        ),
{
    let used: usize = budget.used_bytes();
    assert(used <= budget.limit());
    let count: usize = match listed_size_count(stsz) {
        Some(count) => count,
        None => {
            return Err(TableParseError::Invalid("invalid stsz table"));
        },
    };
    let room: Vec<u32> = match budgeted_vec(count, budget) {
        Ok(room) => room,
        Err(error) => {
            return Err(error);
        },
    };
    match parse_sample_sizes_into(stsz, room) {
        Some(sizes) => Ok(sizes),
        None => Err(TableParseError::Invalid("invalid stsz table")),
    }
}

/// Parses an `stsc` payload into memory charged to a budget.
pub fn parse_stsc_bounded(stsc: &[u8], budget: &mut RetainedBudget) -> (result: TableResult<
    Vec<StscEntry>,
>)
    ensures
        only_charged(*old(budget), *final(budget)),
        ({
            let table = crate::mp4::samples::stsc_table(stsc@);
            match result {
                Ok(entries) => table == Some(entries@),
                Err(error) => out_of_room(error) || table is None && malformed(
                    error,
                    "invalid stsc table"@,
                ),
            }
        }),
        crate::mp4::retained::charged_growth(
            *old(budget),
            *final(budget),
            listed(stsc@, 12),
            vstd::layout::size_of::<StscEntry>() as int,
            room_fault(result),
        ),
{
    let used: usize = budget.used_bytes();
    assert(used <= budget.limit());
    let count: usize = match table_entries(stsc, 12) {
        Some(count) => count,
        None => {
            return Err(TableParseError::Invalid("invalid stsc table"));
        },
    };
    let room: Vec<StscEntry> = match budgeted_vec(count, budget) {
        Ok(room) => room,
        Err(error) => {
            return Err(error);
        },
    };
    match parse_stsc_into(stsc, room) {
        Some(entries) => Ok(entries),
        None => Err(TableParseError::Invalid("invalid stsc table")),
    }
}

/// Parses the chunk offsets of an `stbl` payload into memory charged to a
/// budget.
pub fn parse_chunk_offsets_bounded(stbl: &[u8], budget: &mut RetainedBudget) -> (result:
    TableResult<Vec<u64>>)
    ensures
        only_charged(*old(budget), *final(budget)),
        ({
            let table = crate::mp4::samples::chunk_offset_table(stbl@);
            match result {
                Ok(offsets) => table == Some(offsets@),
                Err(error) => if table is Some {
                    out_of_room(error)
                } else {
                    malformed(error, "invalid chunk offset table"@)
                },
            }
        }),
        crate::mp4::retained::charged_growth(
            *old(budget),
            *final(budget),
            match crate::mp4::samples::chunk_offset_table(stbl@) {
                Some(table) => table.len() as int,
                None => 0,
            },
            vstd::layout::size_of::<u64>() as int,
            room_fault(result),
        ),
{
    let used: usize = budget.used_bytes();
    assert(used <= budget.limit());
    let count: usize = match chunk_offset_count(stbl) {
        Some(count) => count,
        None => {
            return Err(TableParseError::Invalid("invalid chunk offset table"));
        },
    };
    let room: Vec<u64> = match budgeted_vec(count, budget) {
        Ok(room) => room,
        Err(error) => {
            return Err(error);
        },
    };
    match parse_chunk_offsets_into(stbl, room) {
        Some(offsets) => Ok(offsets),
        None => Err(TableParseError::Invalid("invalid chunk offset table")),
    }
}

// ---------------------------------------------------------------------------
// Sample descriptions
// ---------------------------------------------------------------------------

/// A sample description, by the name of its coding.
#[derive(Debug)]
pub struct SampleDescriptionEntry {
    pub codec: String,
}

/// Descriptions by the names of their codings.
pub open spec fn codec_views(entries: Seq<SampleDescriptionEntry>) -> Seq<Seq<char>> {
    Seq::new(entries.len(), |i: int| entries[i].codec@)
}

/// A four-character code as a text, a character for each byte.
pub open spec fn code_text(code: Seq<u8>) -> Seq<char> {
    Seq::new(code.len(), |i: int| code[i] as char)
}

/// The codings of the `count` boxes from `at` on, if that many stand there.
pub open spec fn codecs_from(stsd: Seq<u8>, at: int, count: int) -> Option<Seq<Seq<char>>>
    decreases count,
{
    if count <= 0 {
        Some(seq![])
    } else {
        match crate::mp4::boxes::box_at(stsd, at) {
            None => None,
            Some(header) => match codecs_from(stsd, at + header.total_size, count - 1) {
                None => None,
                Some(rest) => Some(seq![code_text(header.fourcc)] + rest),
            },
        }
    }
}

/// The codings of an `stsd` payload, if it holds as many descriptions as it
/// says.
pub open spec fn stsd_codecs(stsd: Seq<u8>) -> Option<Seq<Seq<char>>> {
    match crate::mp4::samples::table_len(stsd, 8) {
        Some(count) => codecs_from(stsd, 8, count),
        None => None,
    }
}

/// A code as a text in memory charged to a budget, a character for each byte.
pub(crate) fn retained_code(code: &[u8], budget: &mut RetainedBudget) -> (result: TableResult<
    String,
>)
    ensures
        only_charged(*old(budget), *final(budget)),
        crate::mp4::retained::charged_growth(
            *old(budget),
            *final(budget),
            code@.len() as int,
            1,
            crate::mp4::retained::fault_of(result),
        ),
        match result {
            Ok(text) => text@ == code_text(code@),
            Err(error) => out_of_room(error),
        },
{
    let used: usize = budget.used_bytes();
    assert(used <= budget.limit());
    let mut text = String::new();
    if code.len() > 0 {
        match budget.charge_bytes(code.len()) {
            Ok(_) => {},
            Err(error) => {
                return Err(error);
            },
        }
        if !try_reserve_text(&mut text, code.len()) {
            return Err(TableParseError::AllocationFailed);
        }
        let capacity: usize = text_capacity(&text);
        match budget.charge_bytes(capacity.saturating_sub(code.len())) {
            Ok(_) => {},
            Err(error) => {
                return Err(error);
            },
        }
    }
    let mut index: usize = 0;
    assert(text@ =~= code_text(code@.take(0)));
    while index < code.len()
        invariant
            index <= code@.len(),
            text@ == code_text(code@.take(index as int)),
        decreases code@.len() - index,
    {
        text.push(code[index] as char);
        index += 1;
        assert(text@ =~= code_text(code@.take(index as int)));
    }
    assert(code@.take(index as int) =~= code@);
    Ok(text)
}

/// Parses the sample descriptions of an `stsd` payload into memory charged to
/// a budget.
pub fn parse_stsd_entries_bounded(stsd: &[u8], budget: &mut RetainedBudget) -> (result: TableResult<
    Vec<SampleDescriptionEntry>,
>)
    ensures
        only_charged(*old(budget), *final(budget)),
        match result {
            Ok(entries) => stsd_codecs(stsd@) == Some(codec_views(entries@)),
            Err(error) => out_of_room(error) || stsd_codecs(stsd@) is None && malformed(
                error,
                "invalid stsd table"@,
            ),
        },
        ({
            let count = listed(stsd@, 8);
            let entry = vstd::layout::size_of::<SampleDescriptionEntry>() as int;
            &&& result matches Ok(entries) ==> entries@.len() == count && final(budget).used()
                >= old(budget).used() + count * entry + 4 * count
            &&& count == 0 ==> final(budget).used() == old(budget).used() && room_fault(result)
                is None
            &&& count > 0 && old(budget).used() + count * entry > old(budget).limit()
                ==> room_fault(result) == Some(TableParseError::BudgetExceeded)
                && final(budget).used() == old(budget).used()
        }),
{
    let used: usize = budget.used_bytes();
    assert(used <= budget.limit());
    let count: usize = match table_entries(stsd, 8) {
        Some(count) => count,
        None => {
            return Err(TableParseError::Invalid("invalid stsd table"));
        },
    };
    let mut entries: Vec<SampleDescriptionEntry> = match budgeted_vec(count, budget) {
        Ok(room) => room,
        Err(error) => {
            return Err(error);
        },
    };
    let mut offset: usize = 8;
    let mut index: usize = 0;
    let ghost whole = codecs_from(stsd@, 8, count as int);
    proof {
        assert(codec_views(entries@) =~= Seq::empty());
        if whole is Some {
            assert(codec_views(entries@) + whole.unwrap() =~= whole.unwrap());
        }
    }
    while index < count
        invariant
            index <= count,
            offset <= stsd.len(),
            stsd_codecs(stsd@) == whole,
            only_charged(*old(budget), *budget),
            budget.used() >= old(budget).used() + count * vstd::layout::size_of::<
                SampleDescriptionEntry,
            >() + 4 * index,
            index == 0 && count == 0 ==> budget.used() == old(budget).used(),
            count == listed(stsd@, 8),
            entries@.len() == index,
            count > 0 ==> old(budget).used() + count * vstd::layout::size_of::<
                SampleDescriptionEntry,
            >() <= old(budget).limit(),
            whole == match codecs_from(stsd@, offset as int, count - index) {
                Some(rest) => Some(codec_views(entries@) + rest),
                None => None,
            },
        decreases count - index,
    {
        let found = match read_box(stsd, offset) {
            Some(found) => found,
            None => {
                return Err(TableParseError::Invalid("invalid stsd table"));
            },
        };
        let codec = match retained_code(found.fourcc.as_slice(), budget) {
            Ok(codec) => codec,
            Err(error) => {
                return Err(error);
            },
        };
        let ghost before = codec_views(entries@);
        let ghost name = codec@;
        entries.push(SampleDescriptionEntry { codec });
        proof {
            assert(codec_views(entries@) =~= before.push(name));
            let rest = codecs_from(stsd@, offset + found.total_size, count - index - 1);
            if rest is Some {
                assert(before + (seq![name] + rest.unwrap()) =~= before.push(name)
                    + rest.unwrap());
            }
        }
        offset += found.total_size;
        index += 1;
    }
    assert(codec_views(entries@) + Seq::<Seq<char>>::empty() =~= codec_views(entries@));
    Ok(entries)
}

// ---------------------------------------------------------------------------
// Timing
// ---------------------------------------------------------------------------

/// A run of samples that last equally long.
#[derive(Debug, Clone, Copy, PartialEq, Eq, Structural)]
pub struct SampleTimingEntry {
    pub sample_count: u32,
    pub sample_delta: u32,
}

/// When one sample is on display, counted in media ticks.
#[derive(Debug, Clone, Copy, PartialEq, Eq, Structural)]
pub struct SampleTiming {
    /// The number of the sample, from one on.
    pub sample_index: u32,
    pub start_tick: u64,
    pub duration_ticks: u32,
}

/// How long each sample of a track lasts.
#[derive(Debug)]
pub struct SampleTimingTable {
    entries: Vec<SampleTimingEntry>,
    sample_count: u32,
}

/// Timing entries as runs of a count and a duration.
pub open spec fn entry_runs(entries: Seq<SampleTimingEntry>) -> Seq<(u32, int)> {
    Seq::new(entries.len(), |i: int| (entries[i].sample_count, entries[i].sample_delta as int))
}

/// Whether no run is empty, and samples and ticks can be counted.
pub open spec fn runs_countable(runs: Seq<(u32, int)>) -> bool {
    &&& forall|i: int| 0 <= i < runs.len() ==> (#[trigger] runs[i]).0 > 0
    &&& forall|i: int| 0 <= i < runs.len() ==> 0 <= (#[trigger] runs[i]).1 <= u32::MAX
    &&& crate::mp4::timing::run_total(runs) <= u32::MAX
    &&& crate::mp4::timing::weighted_total(runs) <= u64::MAX
}

/// The runs of an `stts` payload, if none is empty and they can be counted. A
/// sample may last no time at all.
pub open spec fn timing_runs(stts: Seq<u8>) -> Option<Seq<(u32, int)>> {
    if crate::mp4::samples::table_len(stts, 8) is Some && runs_countable(
        crate::mp4::timing::stts_runs(stts),
    ) {
        Some(crate::mp4::timing::stts_runs(stts))
    } else {
        None
    }
}

/// When the sample `k`, from zero on, is on display.
pub open spec fn timing_of(runs: Seq<(u32, int)>, k: int) -> SampleTiming {
    SampleTiming {
        sample_index: (k + 1) as u32,
        start_tick: crate::mp4::timing::sum_of_first(
            crate::mp4::timing::expanded(runs),
            k,
        ) as u64,
        duration_ticks: crate::mp4::timing::expanded(runs)[k] as u32,
    }
}

/// The samples of a track follow each other without a gap, from tick zero on:
/// each begins where the one before it ends.
pub proof fn lemma_timing_is_exact(runs: Seq<(u32, int)>, k: int)
    requires
        runs_countable(runs),
        0 <= k < crate::mp4::timing::expanded(runs).len(),
    ensures
        ({
            let timing = timing_of(runs, k);
            &&& timing.sample_index == k + 1
            &&& k == 0 ==> timing.start_tick == 0
            &&& k > 0 ==> timing.start_tick == timing_of(runs, k - 1).start_tick + timing_of(
                runs,
                k - 1,
            ).duration_ticks
            &&& timing.start_tick == crate::mp4::timing::sum_of_first(
                crate::mp4::timing::expanded(runs),
                k,
            )
            &&& timing.duration_ticks == crate::mp4::timing::expanded(runs)[k]
        }),
    decreases k,
{
    let lengths = crate::mp4::timing::expanded(runs);
    let count = lengths.len() as int;
    crate::mp4::timing::lemma_expanded_len(runs);
    crate::mp4::timing::lemma_expanded_nonnegative(runs);
    lemma_weighted_is_sum(runs);
    crate::mp4::timing::lemma_sum_monotone(lengths, 0, k);
    crate::mp4::timing::lemma_sum_monotone(lengths, k, count);
    lemma_lengths_fit(runs);
    if k > 0 {
        lemma_timing_is_exact(runs, k - 1);
    }
}

proof fn lemma_lengths_fit(runs: Seq<(u32, int)>)
    requires
        forall|i: int| 0 <= i < runs.len() ==> 0 <= (#[trigger] runs[i]).1 <= u32::MAX,
    ensures
        forall|k: int|
            0 <= k < crate::mp4::timing::expanded(runs).len() ==> 0
                <= #[trigger] crate::mp4::timing::expanded(runs)[k] <= u32::MAX,
    decreases runs.len(),
{
    if runs.len() > 0 {
        assert forall|i: int| 0 <= i < runs.drop_last().len() implies 0 <= (
        #[trigger] runs.drop_last()[i]).1 <= u32::MAX by {
            assert(runs.drop_last()[i] == runs[i]);
        }
        lemma_lengths_fit(runs.drop_last());
        let before = crate::mp4::timing::expanded(runs.drop_last());
        let all = crate::mp4::timing::expanded(runs);
        assert(0 <= runs[runs.len() - 1].1 <= u32::MAX);
        assert forall|k: int| 0 <= k < all.len() implies 0 <= #[trigger] all[k] <= u32::MAX by {
            if k < before.len() {
                assert(all[k] == before[k]);
            }
        }
    }
}

impl View for SampleTimingTable {
    type V = Seq<(u32, int)>;

    closed spec fn view(&self) -> Seq<(u32, int)> {
        entry_runs(self.entries@)
    }
}

impl SampleTimingTable {
    #[verifier::type_invariant]
    spec fn countable(self) -> bool {
        runs_countable(self@) && self.sample_count == crate::mp4::timing::run_total(self@)
    }

    /// Parses an `stts` payload into memory charged to a budget.
    pub fn parse(stts: &[u8], budget: &mut RetainedBudget) -> (result: TableResult<Self>)
        ensures
            only_charged(*old(budget), *final(budget)),
            match result {
                Ok(table) => timing_runs(stts@) == Some(table@),
                Err(error) => out_of_room(error) || timing_runs(stts@) is None && malformed(
                    error,
                    "invalid stts table"@,
                ),
            },
            crate::mp4::retained::charged_growth(
                *old(budget),
                *final(budget),
                listed(stts@, 8),
                vstd::layout::size_of::<SampleTimingEntry>() as int,
                room_fault(result),
            ),
    {
        let used: usize = budget.used_bytes();
        assert(used <= budget.limit());
        let count: usize = match table_entries(stts, 8) {
            Some(count) => count,
            None => {
                return Err(TableParseError::Invalid("invalid stts table"));
            },
        };
        let mut entries: Vec<SampleTimingEntry> = match budgeted_vec(count, budget) {
            Ok(room) => room,
            Err(error) => {
                return Err(error);
            },
        };
        let ghost runs = crate::mp4::timing::stts_runs(stts@);
        let mut sample_count: u32 = 0;
        let mut ticks: u64 = 0;
        let mut index: usize = 0;
        assert(runs.take(0) =~= Seq::empty());
        assert(entry_runs(entries@) =~= runs.take(0));
        while index < count
            invariant
                index <= count,
                8 + count * 8 <= stts.len(),
                runs == crate::mp4::timing::stts_runs(stts@),
                runs.len() == count,
                crate::mp4::samples::table_len(stts@, 8) == Some(count as int),
                entry_runs(entries@) == runs.take(index as int),
                sample_count == crate::mp4::timing::run_total(runs.take(index as int)),
                ticks == crate::mp4::timing::weighted_total(runs.take(index as int)),
                forall|i: int| 0 <= i < index ==> (#[trigger] runs[i]).0 > 0,
                only_charged(*old(budget), *budget),
                crate::mp4::retained::charged_growth(
                    *old(budget),
                    *budget,
                    count as int,
                    vstd::layout::size_of::<SampleTimingEntry>() as int,
                    None,
                ),
            decreases count - index,
        {
            let offset: usize = 8 + index * 8;
            let (run_count, delta) = match (
                read_u32_be(stts, offset),
                read_u32_be(stts, offset + 4),
            ) {
                (Some(run_count), Some(delta)) => (run_count, delta),
                _ => {
                    return Err(TableParseError::Invalid("invalid stts table"));
                },
            };
            assert(runs[index as int] == (run_count, delta as int));
            proof {
                crate::mp4::timing::lemma_run_total_step(runs, index as int);
                crate::mp4::timing::lemma_run_total_monotone(runs, index + 1, count as int);
                crate::mp4::timing::lemma_weighted_total_monotone(runs, index + 1, count as int);
                assert(runs.take(index + 1).drop_last() =~= runs.take(index as int));
                assert(runs.take(count as int) =~= runs);
                assert(0 <= run_count * delta <= 0xffff_ffff * 0xffff_ffff) by (nonlinear_arith)
                    requires
                        run_count <= 0xffff_ffff,
                        delta <= 0xffff_ffff,
                ;
            }
            if run_count == 0 {
                return Err(TableParseError::Invalid("invalid stts table"));
            }
            sample_count = match sample_count.checked_add(run_count) {
                Some(total) => total,
                None => {
                    return Err(TableParseError::Invalid("invalid stts table"));
                },
            };
            ticks = match ticks.checked_add(run_count as u64 * delta as u64) {
                Some(total) => total,
                None => {
                    return Err(TableParseError::Invalid("invalid stts table"));
                },
            };
            entries.push(SampleTimingEntry { sample_count: run_count, sample_delta: delta });
            index += 1;
            assert(entry_runs(entries@) =~= runs.take(index as int));
        }
        assert(runs.take(count as int) =~= runs);
        Ok(SampleTimingTable { entries, sample_count })
    }

    /// The number of samples.
    pub fn sample_count(&self) -> (result: u32)
        ensures
            result == crate::mp4::timing::run_total(self@),
            result == crate::mp4::timing::expanded(self@).len(),
    {
        proof {
            use_type_invariant(self);
            crate::mp4::timing::lemma_expanded_len(self@);
        }
        self.sample_count
    }

    /// The place before the first sample.
    pub fn start(&self) -> (result: TimingCursor)
        ensures
            result.at(self@, 0),
    {
        proof {
            use_type_invariant(self);
            assert(self@.take(0) =~= Seq::empty());
        }
        TimingCursor { entry: 0, within: 0, sample: 0, tick: 0 }
    }

    /// When the next sample is on display, if there is one.
    pub fn next(&self, cursor: &mut TimingCursor) -> (result: Option<SampleTiming>)
        requires
            exists|k: int| old(cursor).at(self@, k),
        ensures
            forall|k: int| #[trigger]
                old(cursor).at(self@, k) ==> match result {
                    Some(timing) => k < crate::mp4::timing::expanded(self@).len() && timing
                        == timing_of(self@, k) && final(cursor).at(self@, k + 1),
                    None => k == crate::mp4::timing::expanded(self@).len() && *final(cursor)
                        == *old(cursor),
                },
    {
        let ghost k = choose|k: int| cursor.at(self@, k);
        let ghost runs = self@;
        proof {
            use_type_invariant(self);
            crate::mp4::timing::lemma_expanded_len(runs);
            assert(runs.take(runs.len() as int) =~= runs);
        }
        if cursor.entry >= self.entries.len() {
            return None;
        }
        let run = self.entries[cursor.entry];
        proof {
            let entry = cursor.entry as int;
            assert(runs[entry] == (run.sample_count, run.sample_delta as int));
            crate::mp4::timing::lemma_expanded_at(runs, entry, cursor.within as int);
            crate::mp4::timing::lemma_run_total_step(runs, entry);
            crate::mp4::timing::lemma_run_total_monotone(runs, entry + 1, runs.len() as int);
            crate::mp4::timing::lemma_expanded_nonnegative(runs);
            lemma_weighted_is_sum(runs);
            crate::mp4::timing::lemma_sum_monotone(
                crate::mp4::timing::expanded(runs),
                k + 1,
                crate::mp4::timing::expanded(runs).len() as int,
            );
        }
        let timing = SampleTiming {
            sample_index: cursor.sample + 1,
            start_tick: cursor.tick,
            duration_ticks: run.sample_delta,
        };
        cursor.sample = cursor.sample + 1;
        cursor.tick = cursor.tick + run.sample_delta as u64;
        if cursor.within + 1 < run.sample_count {
            cursor.within = cursor.within + 1;
        } else {
            cursor.within = 0;
            cursor.entry = cursor.entry + 1;
        }
        assert(cursor.at(self@, k + 1));
        Some(timing)
    }
}

/// A place between two samples of a timing table.
#[derive(Debug, Clone, Copy)]
pub struct TimingCursor {
    entry: usize,
    within: u32,
    sample: u32,
    tick: u64,
}

impl TimingCursor {
    /// Whether this is the place before the sample `k`, from zero on.
    pub closed spec fn at(self, runs: Seq<(u32, int)>, k: int) -> bool {
        &&& self.entry <= runs.len()
        &&& self.entry < runs.len() ==> self.within < runs[self.entry as int].0
        &&& self.entry == runs.len() ==> self.within == 0
        &&& k == crate::mp4::timing::run_total(runs.take(self.entry as int)) + self.within
        &&& k == self.sample
        &&& self.tick == crate::mp4::timing::sum_of_first(crate::mp4::timing::expanded(runs), k)
    }
}

/// The durations of all samples add up to the sum over the runs.
proof fn lemma_weighted_is_sum(runs: Seq<(u32, int)>)
    ensures
        crate::mp4::timing::weighted_total(runs) == crate::mp4::timing::sum_of_first(
            crate::mp4::timing::expanded(runs),
            crate::mp4::timing::expanded(runs).len() as int,
        ),
    decreases runs.len(),
{
    if runs.len() > 0 {
        let before = crate::mp4::timing::expanded(runs.drop_last());
        let all = crate::mp4::timing::expanded(runs);
        lemma_weighted_is_sum(runs.drop_last());
        lemma_sum_of_prefix(before, all, before.len() as int);
        crate::mp4::timing::lemma_sum_of_run(
            all,
            before.len() as int,
            runs.last().0 as int,
            runs.last().1,
        );
    }
}

proof fn lemma_sum_of_prefix(prefix: Seq<int>, values: Seq<int>, n: int)
    requires
        0 <= n <= prefix.len() <= values.len(),
        forall|i: int| 0 <= i < prefix.len() ==> prefix[i] == values[i],
    ensures
        crate::mp4::timing::sum_of_first(prefix, n) == crate::mp4::timing::sum_of_first(values, n),
    decreases n,
{
    if n > 0 {
        lemma_sum_of_prefix(prefix, values, n - 1);
    }
}

/// The codings of a track are the codes of its sample descriptions, in their
/// order, a character for each byte.
pub proof fn lemma_codings_are_the_codes_of_the_descriptions(
    before: Seq<u8>,
    entries: Seq<(Seq<u8>, Seq<u8>)>,
    i: int,
    j: int,
)
    requires
        crate::mp4::boxes::writable(entries),
        0 <= i < entries.len(),
        0 <= j < 4,
    ensures
        codecs_from(
            before + crate::mp4::boxes::written_boxes(entries),
            before.len() as int,
            entries.len() as int,
        ) matches Some(codecs) && codecs.len() == entries.len() && codecs[i].len() == 4
            && codecs[i][j] == entries[i].0[j] as char,
    decreases entries.len(),
{
    let (fourcc, payload) = entries[0];
    let rest = entries.drop_first();
    let first = crate::mp4::boxes::written_box(fourcc, payload);
    let behind = crate::mp4::boxes::written_boxes(rest);
    let data = before + crate::mp4::boxes::written_boxes(entries);
    assert forall|k: int| 0 <= k < rest.len() implies (#[trigger] rest[k]).0.len() == 4
        && rest[k].1.len() + 8 <= u32::MAX by {
        assert(rest[k] == entries[k + 1]);
    }
    crate::mp4::boxes::lemma_written_box_reads_back(before, fourcc, payload, behind);
    assert(before + first + behind =~= data);
    assert((before + first).len() == before.len() + payload.len() + 8);
    if rest.len() > 0 {
        if i > 0 {
            lemma_codings_are_the_codes_of_the_descriptions(before + first, rest, i - 1, j);
            assert(rest[i - 1] == entries[i]);
        } else {
            lemma_codings_are_the_codes_of_the_descriptions(before + first, rest, 0, j);
        }
    }
}

/// The runs of an `stts` payload are read where all are there, none is for no
/// sample, 32 bits count the samples and 64 bits the ticks.
pub proof fn lemma_timing_runs_are_read(stts: Seq<u8>)
    ensures
        timing_runs(stts) is Some <==> {
            let runs = crate::mp4::timing::stts_runs(stts);
            &&& stts.len() >= 8 && 8 + 8 * crate::bytes::be32(stts, 4) <= stts.len()
            &&& forall|i: int| 0 <= i < runs.len() ==> (#[trigger] runs[i]).0 > 0
            &&& crate::mp4::timing::run_total(runs) <= 0xffff_ffff
            &&& crate::mp4::timing::weighted_total(runs) <= 0xffff_ffff_ffff_ffff
        },
        timing_runs(stts) matches Some(runs) ==> runs == crate::mp4::timing::stts_runs(stts),
{
    crate::mp4::samples::lemma_tables_hold_their_entries(stts, 8);
}

} // verus!
