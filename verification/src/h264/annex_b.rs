//! Rewriting length-prefixed NAL units to Annex B.

use vstd::prelude::*;
use vstd::string::*;

use crate::bytes::get_range;
use crate::h264::config::{AvcConfig, MAX_DECODED_IMAGE_BYTES};
use crate::strings::{decimal_text, join2};

verus! {

/// The four bytes in front of each NAL unit.
pub open spec fn start_code() -> Seq<u8> {
    seq![0u8, 0u8, 0u8, 1u8]
}

/// The number in `size` bytes at `at`, most significant first.
pub open spec fn length_at(sample: Seq<u8>, at: int, size: int) -> int
    decreases size,
{
    if size <= 0 {
        0
    } else {
        length_at(sample, at, size - 1) * 0x100 + sample[at + size - 1]
    }
}

/// `output` with one more NAL unit behind a start code.
pub open spec fn with_nal(output: Seq<u8>, nal: Seq<u8>) -> Result<Seq<u8>, Seq<char>> {
    if nal.len() == 0 {
        Err("empty H.264 NAL unit"@)
    } else if 4 + nal.len() > usize::MAX {
        Err("H.264 NAL size overflow"@)
    } else if output.len() + 4 + nal.len() > usize::MAX {
        Err("H.264 sample size overflow"@)
    } else if output.len() + 4 + nal.len() > MAX_DECODED_IMAGE_BYTES {
        Err("H.264 sample exceeds the decode size limit"@)
    } else {
        Ok(output + start_code() + nal)
    }
}

/// The words for memory that was refused.
pub open spec fn no_room() -> Seq<char> {
    "H.264 sample is too large"@
}

/// Appends a NAL unit behind a start code. What stands in `output` stays as it
/// is where the unit is not accepted.
pub fn append_annex_b_nal(output: &mut Vec<u8>, nal: &[u8]) -> (result: Result<(), String>)
    ensures
        match result {
            Ok(_) => with_nal(old(output)@, nal@) == Ok::<Seq<u8>, Seq<char>>(final(output)@),
            Err(text) => final(output)@ == old(output)@ && match with_nal(old(output)@, nal@) {
                Ok(_) => text@ == no_room(),
                Err(fault) => text@ == fault,
            },
        },
{
    if nal.len() == 0 {
        return Err(String::from_str("empty H.264 NAL unit"));
    }
    let additional: usize = match nal.len().checked_add(4) {
        Some(additional) => additional,
        None => {
            return Err(String::from_str("H.264 NAL size overflow"));
        },
    };
    let total: usize = match output.len().checked_add(additional) {
        Some(total) => total,
        None => {
            return Err(String::from_str("H.264 sample size overflow"));
        },
    };
    if total > MAX_DECODED_IMAGE_BYTES {
        return Err(String::from_str("H.264 sample exceeds the decode size limit"));
    }
    if output.try_reserve(additional).is_err() {
        return Err(String::from_str("H.264 sample is too large"));
    }
    output.push(0);
    output.push(0);
    output.push(0);
    output.push(1);
    assert(output@ =~= old(output)@ + start_code());
    output.extend_from_slice(nal);
    assert(output@ =~= old(output)@ + start_code() + nal@);
    Ok(())
}

/// `output` with the NAL units of `units` from the `k`-th on.
pub open spec fn with_nals(output: Seq<u8>, units: Seq<Seq<u8>>, k: int) -> Result<
    Seq<u8>,
    Seq<char>,
>
    decreases units.len() - k,
{
    if k >= units.len() {
        Ok(output)
    } else {
        match with_nal(output, units[k]) {
            Ok(longer) => with_nals(longer, units, k + 1),
            Err(text) => Err(text),
        }
    }
}

/// The parameter sets of a configuration, first the sequence's, then the
/// pictures'.
pub open spec fn parameter_sets(
    config: crate::h264::config::AvcConfigView,
) -> Result<Seq<u8>, Seq<char>> {
    match with_nals(Seq::empty(), config.sps + config.pps, 0) {
        Ok(data) => if data.len() == 0 {
            Err("avcC contains no SPS/PPS parameter sets"@)
        } else {
            Ok(data)
        },
        Err(text) => Err(text),
    }
}

/// Whether the first of some NAL units is accepted, and memory asked for it.
pub open spec fn accepts_first(units: Seq<Seq<u8>>) -> bool {
    units.len() > 0 && with_nal(Seq::empty(), units[0]) is Ok
}

/// The parameter sets of a configuration as an Annex B stream.
pub fn parameter_sets_annex_b(config: &AvcConfig) -> (result: Result<Vec<u8>, String>)
    ensures
        match result {
            Ok(data) => parameter_sets(config@) == Ok::<Seq<u8>, Seq<char>>(data@),
            Err(text) => parameter_sets(config@) == Err::<Seq<u8>, Seq<char>>(text@)
                || accepts_first(config@.sps + config@.pps) && text@ == no_room(),
        },
{
    let ghost units = config@.sps + config@.pps;
    let mut data: Vec<u8> = Vec::new();
    let mut index: usize = 0;
    while index < config.sps.len()
        invariant
            index <= config.sps@.len(),
            units == config@.sps + config@.pps,
            if index == 0 {
                data@.len() == 0
            } else {
                accepts_first(units)
            },
            with_nals(data@, units, index as int) == with_nals(Seq::empty(), units, 0),
        decreases config.sps@.len() - index,
    {
        assert(units[index as int] == config.sps@[index as int]@);
        assert(index == 0 ==> data@ =~= Seq::empty());
        append_annex_b_nal(&mut data, config.sps[index].as_slice())?;
        index += 1;
    }
    let mut index: usize = 0;
    while index < config.pps.len()
        invariant
            index <= config.pps@.len(),
            units == config@.sps + config@.pps,
            if config.sps@.len() + index == 0 {
                data@.len() == 0
            } else {
                accepts_first(units)
            },
            with_nals(data@, units, config.sps@.len() + index) == with_nals(
                Seq::empty(),
                units,
                0,
            ),
        decreases config.pps@.len() - index,
    {
        assert(units[config.sps@.len() + index] == config.pps@[index as int]@);
        assert(config.sps@.len() + index == 0 ==> data@ =~= Seq::empty());
        append_annex_b_nal(&mut data, config.pps[index].as_slice())?;
        index += 1;
    }
    if data.len() == 0 {
        return Err(String::from_str("avcC contains no SPS/PPS parameter sets"));
    }
    Ok(data)
}

/// `output` with the NAL units that stand length-prefixed in `sample` from
/// `at` on; empty units are passed over.
pub open spec fn annex_b_from(
    sample: Seq<u8>,
    length_size: int,
    at: int,
    output: Seq<u8>,
) -> Result<Seq<u8>, Seq<char>>
    decreases sample.len() - at,
{
    if at >= sample.len() || length_size < 1 {
        Ok(output)
    } else if at + length_size > usize::MAX {
        Err("NAL offset overflow"@)
    } else if at + length_size > sample.len() {
        Err("truncated NAL length"@)
    } else {
        let start = at + length_size;
        let length = length_at(sample, at, length_size);
        if length <= 0 {
            annex_b_from(sample, length_size, start, output)
        } else if start + length > usize::MAX {
            Err("NAL size overflow"@)
        } else if start + length > sample.len() {
            Err("truncated NAL payload"@)
        } else {
            match with_nal(output, sample.subrange(start, start + length)) {
                Ok(longer) => annex_b_from(sample, length_size, start + length, longer),
                Err(text) => Err(text),
            }
        }
    }
}

/// A length-prefixed sample as Annex B.
pub open spec fn annex_b(sample: Seq<u8>, length_size: int) -> Result<Seq<u8>, Seq<char>> {
    if !(1 <= length_size <= 4) {
        Err("invalid H.264 NAL length size: "@ + crate::strings::decimal(length_size))
    } else {
        match annex_b_from(sample, length_size, 0, Seq::empty()) {
            Ok(output) => if output.len() == 0 {
                Err("sample contained no H.264 NAL units"@)
            } else {
                Ok(output)
            },
            Err(text) => Err(text),
        }
    }
}

proof fn lemma_length_bound(sample: Seq<u8>, at: int, size: int)
    requires
        0 <= size <= 4,
    ensures
        0 <= length_at(sample, at, size) <= 0xffff_ffff,
        size <= 1 ==> length_at(sample, at, size) <= 0xff,
        size <= 2 ==> length_at(sample, at, size) <= 0xffff,
        size <= 3 ==> length_at(sample, at, size) <= 0xff_ffff,
    decreases size,
{
    if size > 0 {
        lemma_length_bound(sample, at, size - 1);
    }
}

/// Rewrites a length-prefixed AVC sample into `output` as Annex B. `output` is
/// cleared first, so callers can reuse one buffer across a whole group of
/// pictures; where the length size is not one of 1 to 4 it stays as it is.
pub fn sample_to_annex_b(sample: &[u8], length_size: usize, output: &mut Vec<u8>) -> (result:
    Result<(), String>)
    ensures
        match result {
            Ok(_) => annex_b(sample@, length_size as int) == Ok::<Seq<u8>, Seq<char>>(
                final(output)@,
            ),
            Err(text) => annex_b(sample@, length_size as int) == Err::<Seq<u8>, Seq<char>>(text@)
                || 1 <= length_size <= 4 && text@ == no_room(),
        },
        !(1 <= length_size <= 4) ==> final(output)@ == old(output)@,
        1 <= length_size <= 4 && sample@.len() == 0 ==> final(output)@.len() == 0,
{
    if length_size < 1 || length_size > 4 {
        return Err(
            join2("invalid H.264 NAL length size: ", decimal_text(length_size as u64).as_str()),
        );
    }
    output.clear();
    // Lower bound only: with short lengths the 4-byte start codes make the
    // output longer than the sample.
    if output.try_reserve(sample.len().saturating_add(4)).is_err() {
        return Err(String::from_str("H.264 sample is too large"));
    }
    let mut offset: usize = 0;
    while offset < sample.len()
        invariant
            1 <= length_size <= 4,
            offset <= sample.len(),
            annex_b_from(sample@, length_size as int, offset as int, output@) == annex_b_from(
                sample@,
                length_size as int,
                0,
                Seq::empty(),
            ),
            sample@.len() == 0 ==> output@.len() == 0,
        decreases sample@.len() - offset,
    {
        let start: usize = match offset.checked_add(length_size) {
            Some(start) => start,
            None => {
                return Err(String::from_str("NAL offset overflow"));
            },
        };
        if start > sample.len() {
            return Err(String::from_str("truncated NAL length"));
        }
        let mut length: usize = 0;
        let mut index: usize = 0;
        while index < length_size
            invariant
                1 <= length_size <= 4,
                index <= length_size,
                start == offset + length_size <= sample.len(),
                length == length_at(sample@, offset as int, index as int),
            decreases length_size - index,
        {
            proof {
                lemma_length_bound(sample@, offset as int, index as int);
                lemma_length_bound(sample@, offset as int, index + 1);
            }
            length = length * 0x100 + sample[offset + index] as usize;
            index += 1;
        }
        if length == 0 {
            offset = start;
            continue ;
        }
        let end: usize = match start.checked_add(length) {
            Some(end) => end,
            None => {
                return Err(String::from_str("NAL size overflow"));
            },
        };
        match get_range(sample, start, end) {
            Some(nal) => {
                append_annex_b_nal(output, nal)?;
            },
            None => {
                return Err(String::from_str("truncated NAL payload"));
            },
        }
        offset = end;
    }
    if output.len() == 0 {
        return Err(String::from_str("sample contained no H.264 NAL units"));
    }
    Ok(())
}

proof fn lemma_annex_b_from_len(
    sample: Seq<u8>,
    length_size: int,
    at: int,
    output: Seq<u8>,
)
    requires
        output.len() <= MAX_DECODED_IMAGE_BYTES,
    ensures
        annex_b_from(sample, length_size, at, output) matches Ok(longer) ==> longer.len()
            <= MAX_DECODED_IMAGE_BYTES,
    decreases sample.len() - at,
{
    if at < sample.len() && length_size >= 1 && at + length_size <= sample.len() {
        let start = at + length_size;
        let length = length_at(sample, at, length_size);
        if length <= 0 {
            lemma_annex_b_from_len(sample, length_size, start, output);
        } else if start + length <= sample.len() {
            if let Ok(longer) = with_nal(output, sample.subrange(start, start + length)) {
                lemma_annex_b_from_len(sample, length_size, start + length, longer);
            }
        }
    }
}

/// A rewritten sample stays inside the decode size limit.
pub proof fn lemma_annex_b_len(sample: Seq<u8>, length_size: int)
    ensures
        annex_b(sample, length_size) matches Ok(output) ==> 0 < output.len()
            <= MAX_DECODED_IMAGE_BYTES,
{
    lemma_annex_b_from_len(sample, length_size, 0, Seq::empty());
}

proof fn lemma_with_nals_len(output: Seq<u8>, units: Seq<Seq<u8>>, k: int)
    requires
        output.len() <= MAX_DECODED_IMAGE_BYTES,
    ensures
        with_nals(output, units, k) matches Ok(longer) ==> longer.len()
            <= MAX_DECODED_IMAGE_BYTES,
    decreases units.len() - k,
{
    if k < units.len() {
        if let Ok(longer) = with_nal(output, units[k]) {
            lemma_with_nals_len(longer, units, k + 1);
        }
    }
}

/// The parameter sets stay inside the decode size limit.
pub proof fn lemma_parameter_sets_len(config: crate::h264::config::AvcConfigView)
    ensures
        parameter_sets(config) matches Ok(data) ==> 0 < data.len() <= MAX_DECODED_IMAGE_BYTES,
{
    lemma_with_nals_len(Seq::empty(), config.sps + config.pps, 0);
}

/// A length in `size` bytes, the most significant first.
pub open spec fn written_length(value: int, size: int) -> Seq<u8>
    decreases size,
{
    if size <= 0 {
        seq![]
    } else {
        written_length(value / 0x100, size - 1).push((value % 0x100) as u8)
    }
}

proof fn lemma_written_length(value: int, size: int)
    requires
        0 <= size,
    ensures
        written_length(value, size).len() == size,
    decreases size,
{
    if size > 0 {
        lemma_written_length(value / 0x100, size - 1);
    }
}

/// The largest number that a length in `size` bytes can be.
pub open spec fn length_bound(size: int) -> int
    decreases size,
{
    if size <= 0 {
        1
    } else {
        length_bound(size - 1) * 0x100
    }
}

/// A length is read back from the bytes that it is written in.
pub proof fn lemma_length_reads_back(data: Seq<u8>, at: int, size: int, value: int)
    requires
        0 <= at,
        0 <= size,
        at + size <= data.len(),
        0 <= value < length_bound(size),
        data.subrange(at, at + size) == written_length(value, size),
    ensures
        length_at(data, at, size) == value,
    decreases size,
{
    if size > 0 {
        let shorter = written_length(value / 0x100, size - 1);
        lemma_written_length(value / 0x100, size - 1);
        lemma_written_length(value, size);
        let bytes = data.subrange(at, at + size);
        assert(bytes.subrange(0, size - 1) =~= shorter);
        assert(data.subrange(at, at + size - 1) =~= shorter) by {
            assert forall|i: int| 0 <= i < size - 1 implies data[at + i] == shorter[i] by {
                assert(bytes[i] == written_length(value, size)[i]);
            }
        }
        assert(data[at + size - 1] == bytes[size - 1]);
        lemma_length_reads_back(data, at, size - 1, value / 0x100);
    }
}

/// A sample with one unit is rewritten as the unit behind a start code, and the
/// units behind it come behind that: a unit is neither changed nor moved by what
/// stands around it.
pub proof fn lemma_units_are_rewritten_in_order(
    before: Seq<u8>,
    unit: Seq<u8>,
    behind: Seq<u8>,
    length_size: int,
    output: Seq<u8>,
)
    requires
        1 <= length_size <= 4,
        0 < unit.len() < length_bound(length_size),
        before.len() + length_size + unit.len() + behind.len() <= usize::MAX,
        output.len() + 4 + unit.len() <= MAX_DECODED_IMAGE_BYTES,
    ensures
        ({
            let written = before + written_length(unit.len() as int, length_size) + unit;
            annex_b_from(written + behind, length_size, before.len() as int, output)
                == annex_b_from(
                written + behind,
                length_size,
                written.len() as int,
                output + seq![0u8, 0u8, 0u8, 1u8] + unit,
            )
        }),
{
    let length = written_length(unit.len() as int, length_size);
    let data = before + length + unit + behind;
    let at = before.len() as int;
    lemma_written_length(unit.len() as int, length_size);
    assert(data.subrange(at, at + length_size) =~= length);
    lemma_length_reads_back(data, at, length_size, unit.len() as int);
    let start = at + length_size;
    assert(data.subrange(start, start + unit.len()) =~= unit);
}

/// Length-prefixed units one behind another.
pub open spec fn written_sample(units: Seq<Seq<u8>>, length_size: int) -> Seq<u8>
    decreases units.len(),
{
    if units.len() == 0 {
        seq![]
    } else {
        written_sample(units.drop_last(), length_size) + written_length(
            units.last().len() as int,
            length_size,
        ) + units.last()
    }
}

/// Units one behind another, each behind a start code.
pub open spec fn annex_b_units(units: Seq<Seq<u8>>) -> Seq<u8>
    decreases units.len(),
{
    if units.len() == 0 {
        seq![]
    } else {
        annex_b_units(units.drop_last()) + seq![0u8, 0u8, 0u8, 1u8] + units.last()
    }
}

proof fn lemma_annex_b_units_grow(units: Seq<Seq<u8>>, k: int)
    requires
        0 <= k <= units.len(),
    ensures
        annex_b_units(units.take(k)).len() <= annex_b_units(units).len(),
    decreases units.len() - k,
{
    if k < units.len() {
        lemma_annex_b_units_grow(units, k + 1);
        assert(units.take(k + 1).drop_last() =~= units.take(k));
    } else {
        assert(units.take(k) =~= units);
    }
}

proof fn lemma_sample_splits(units: Seq<Seq<u8>>, length_size: int, k: int) -> (behind: Seq<u8>)
    requires
        0 <= k < units.len(),
    ensures
        written_sample(units, length_size) == written_sample(units.take(k), length_size)
            + written_length(units[k].len() as int, length_size) + units[k] + behind,
        written_sample(units, length_size) == written_sample(units.take(k + 1), length_size)
            + behind,
    decreases units.len() - k,
{
    assert(units.take(k + 1).drop_last() =~= units.take(k));
    let first = written_sample(units.take(k + 1), length_size);
    assert(first == written_sample(units.take(k), length_size) + written_length(
        units[k].len() as int,
        length_size,
    ) + units[k]);
    if k + 1 == units.len() {
        assert(units.take(k + 1) =~= units);
        assert(first + Seq::<u8>::empty() =~= first);
        seq![]
    } else {
        let rest = lemma_sample_splits(units, length_size, k + 1);
        let next = written_length(units[k + 1].len() as int, length_size) + units[k + 1] + rest;
        assert(units.take(k + 1 + 1).drop_last() =~= units.take(k + 1));
        assert(written_sample(units, length_size) =~= first + next);
        next
    }
}

proof fn lemma_sample_is_rewritten_from(units: Seq<Seq<u8>>, length_size: int, k: int)
    requires
        1 <= length_size <= 4,
        0 <= k <= units.len(),
        written_sample(units, length_size).len() <= usize::MAX,
        annex_b_units(units).len() <= MAX_DECODED_IMAGE_BYTES,
        forall|i: int| 0 <= i < units.len() ==> 0 < (#[trigger] units[i]).len() < length_bound(
            length_size,
        ),
    ensures
        annex_b_from(
            written_sample(units, length_size),
            length_size,
            written_sample(units.take(k), length_size).len() as int,
            annex_b_units(units.take(k)),
        ) == Ok::<Seq<u8>, Seq<char>>(annex_b_units(units)),
    decreases units.len() - k,
{
    let sample = written_sample(units, length_size);
    if k == units.len() {
        assert(units.take(k) =~= units);
    } else {
        let before = written_sample(units.take(k), length_size);
        let behind = lemma_sample_splits(units, length_size, k);
        let unit = units[k];
        lemma_written_length(unit.len() as int, length_size);
        assert(units.take(k + 1).drop_last() =~= units.take(k));
        lemma_annex_b_units_grow(units, k + 1);
        lemma_units_are_rewritten_in_order(
            before,
            unit,
            behind,
            length_size,
            annex_b_units(units.take(k)),
        );
        assert(before + written_length(unit.len() as int, length_size) + unit + behind =~= sample);
        assert(written_sample(units.take(k + 1), length_size) =~= before + written_length(
            unit.len() as int,
            length_size,
        ) + unit);
        assert(annex_b_units(units.take(k + 1)) =~= annex_b_units(units.take(k)) + seq![
            0u8,
            0u8,
            0u8,
            1u8,
        ] + unit);
        lemma_sample_is_rewritten_from(units, length_size, k + 1);
    }
}

/// A sample of length-prefixed units is rewritten as the same units in the same
/// order, each behind a start code of three zeros and a one.
pub proof fn lemma_sample_is_rewritten(units: Seq<Seq<u8>>, length_size: int)
    requires
        1 <= length_size <= 4,
        units.len() > 0,
        written_sample(units, length_size).len() <= usize::MAX,
        annex_b_units(units).len() <= MAX_DECODED_IMAGE_BYTES,
        forall|i: int| 0 <= i < units.len() ==> 0 < (#[trigger] units[i]).len() < length_bound(
            length_size,
        ),
    ensures
        annex_b(written_sample(units, length_size), length_size) == Ok::<Seq<u8>, Seq<char>>(
            annex_b_units(units),
        ),
{
    assert(units.take(0) =~= seq![]);
    lemma_sample_is_rewritten_from(units, length_size, 0);
    assert(annex_b_units(units).len() > 0);
}

proof fn lemma_nals_from(units: Seq<Seq<u8>>, k: int)
    requires
        0 <= k <= units.len(),
        annex_b_units(units).len() <= MAX_DECODED_IMAGE_BYTES,
        forall|i: int| 0 <= i < units.len() ==> 0 < (#[trigger] units[i]).len(),
    ensures
        with_nals(annex_b_units(units.take(k)), units, k) == Ok::<Seq<u8>, Seq<char>>(
            annex_b_units(units),
        ),
    decreases units.len() - k,
{
    if k == units.len() {
        assert(units.take(k) =~= units);
    } else {
        assert(units.take(k + 1).drop_last() =~= units.take(k));
        lemma_annex_b_units_grow(units, k + 1);
        assert(annex_b_units(units.take(k + 1)) =~= annex_b_units(units.take(k)) + start_code()
            + units[k]);
        lemma_nals_from(units, k + 1);
    }
}

/// The parameter sets of a configuration are those of the sequence and then those
/// of the pictures, unchanged, each behind a start code.
pub proof fn lemma_parameter_sets_come_in_order(config: crate::h264::config::AvcConfigView)
    requires
        config.sps.len() + config.pps.len() > 0,
        annex_b_units(config.sps + config.pps).len() <= MAX_DECODED_IMAGE_BYTES,
        forall|i: int|
            0 <= i < (config.sps + config.pps).len() ==> 0 < (#[trigger] (config.sps
                + config.pps)[i]).len(),
    ensures
        parameter_sets(config) == Ok::<Seq<u8>, Seq<char>>(
            annex_b_units(config.sps + config.pps),
        ),
{
    let units = config.sps + config.pps;
    assert(units.take(0) =~= seq![]);
    lemma_nals_from(units, 0);
}

} // verus!
