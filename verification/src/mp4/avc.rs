//! AVC sample descriptions.

use vstd::prelude::*;
use vstd::slice::{slice_subrange, slice_to_vec};

use crate::bytes::{bytes_equal, fourcc, read_u16_be, read_u32_be};
use crate::h264::config::AvcConfig;
use crate::mp4::boxes::{find_box, iter_boxes};

verus! {

/// The first `n` of the length-prefixed units that stand in `avcc` from `at`
/// on, and where they end.
pub open spec fn units_at(avcc: Seq<u8>, at: int, n: int) -> Option<(Seq<Seq<u8>>, int)>
    decreases n,
{
    if n <= 0 {
        Some((Seq::empty(), at))
    } else {
        match units_at(avcc, at, n - 1) {
            None => None,
            Some((units, end)) => {
                let start = end + 2;
                let next = start + crate::bytes::be16(avcc, end);
                if start <= avcc.len() && next <= avcc.len() {
                    Some((units.push(avcc.subrange(start, next)), next))
                } else {
                    None
                }
            },
        }
    }
}

/// The configuration in an `avcC` payload.
pub open spec fn avcc_config(avcc: Seq<u8>) -> Option<crate::h264::config::AvcConfigView> {
    if avcc.len() < 7 || avcc[0] != 1 {
        None
    } else {
        match units_at(avcc, 6, avcc[5] as int % 32) {
            None => None,
            Some((sps, end)) => if end >= avcc.len() {
                None
            } else {
                match units_at(avcc, end + 1, avcc[end] as int) {
                    None => None,
                    Some((pps, _)) => Some(
                        crate::h264::config::AvcConfigView {
                            length_size: avcc[4] as int % 4 + 1,
                            sps,
                            pps,
                        },
                    ),
                }
            },
        }
    }
}

/// The configuration in the `avcC` box behind the 78 fixed bytes of a video
/// sample entry.
pub open spec fn entry_config(entry: Seq<u8>) -> Option<crate::h264::config::AvcConfigView> {
    if entry.len() < 78 {
        None
    } else {
        match crate::mp4::boxes::child(
            entry.subrange(78, entry.len() as int),
            crate::bytes::code('a', 'v', 'c', 'C'),
        ) {
            Some(avcc) => avcc_config(avcc),
            None => None,
        }
    }
}

proof fn lemma_units_fault(avcc: Seq<u8>, at: int, k: int, n: int)
    requires
        0 <= k <= n,
        units_at(avcc, at, k) is None,
    ensures
        units_at(avcc, at, n) is None,
    decreases n,
{
    if k < n {
        lemma_units_fault(avcc, at, k, n - 1);
    }
}

/// Reads `count` length-prefixed units from `at` on.
fn read_units(avcc: &[u8], at: usize, count: u8) -> (result: Option<(Vec<Vec<u8>>, usize)>)
    requires
        at <= avcc@.len(),
    ensures
        match result {
            Some((units, end)) => {
                &&& units_at(avcc@, at as int, count as int) == Some(
                    (crate::h264::config::byte_views(units@), end as int),
                )
                &&& end <= avcc@.len()
            },
            None => units_at(avcc@, at as int, count as int) is None,
        },
{
    let mut units: Vec<Vec<u8>> = Vec::new();
    let mut end: usize = at;
    let mut index: u8 = 0;
    assert(crate::h264::config::byte_views(units@) =~= Seq::empty());
    while index < count
        invariant
            index <= count,
            end <= avcc.len(),
            units_at(avcc@, at as int, index as int) == Some(
                (crate::h264::config::byte_views(units@), end as int),
            ),
        decreases count - index,
    {
        proof {
            if units_at(avcc@, at as int, index + 1) is None {
                lemma_units_fault(avcc@, at as int, index + 1, count as int);
            }
        }
        let length: usize = match read_u16_be(avcc, end) {
            Some(length) => length as usize,
            None => {
                return None;
            },
        };
        let start: usize = end + 2;
        if length > avcc.len() - start {
            return None;
        }
        let ghost before = crate::h264::config::byte_views(units@);
        let unit = slice_to_vec(slice_subrange(avcc, start, start + length));
        let ghost bytes = unit@;
        units.push(unit);
        assert(crate::h264::config::byte_views(units@) =~= before.push(bytes));
        end = start + length;
        index += 1;
    }
    Some((units, end))
}

/// Parses the configuration of a video sample entry.
pub fn parse_avc_config(sample_entry_payload: &[u8]) -> (result: Option<AvcConfig>)
    ensures
        match result {
            Some(config) => entry_config(sample_entry_payload@) == Some(config@),
            None => entry_config(sample_entry_payload@) is None,
        },
{
    if sample_entry_payload.len() < 78 {
        return None;
    }
    let children = slice_subrange(sample_entry_payload, 78, sample_entry_payload.len());
    let avcc = match find_box(children, &fourcc('a', 'v', 'c', 'C')) {
        Some(avcc) => avcc,
        None => {
            return None;
        },
    };
    if avcc.len() < 7 || avcc[0] != 1 {
        return None;
    }
    let length_size: usize = avcc[4] as usize % 4 + 1;
    let (sps, end) = match read_units(avcc, 6, avcc[5] % 32) {
        Some(found) => found,
        None => {
            return None;
        },
    };
    if end >= avcc.len() {
        return None;
    }
    let (pps, _) = match read_units(avcc, end + 1, avcc[end]) {
        Some(found) => found,
        None => {
            return None;
        },
    };
    Some(AvcConfig { length_size, sps, pps })
}

/// Configurations by their views; `None` stands for an entry that is not AVC.
pub open spec fn config_views(configs: Seq<Option<AvcConfig>>) -> Seq<
    Option<crate::h264::config::AvcConfigView>,
> {
    Seq::new(
        configs.len(),
        |i: int|
            match configs[i] {
                Some(config) => Some(config@),
                None => None,
            },
    )
}

/// What one sample entry says: its configuration, where it is AVC.
pub open spec fn description(entry: (Seq<u8>, Seq<u8>)) -> Option<
    crate::h264::config::AvcConfigView,
> {
    if entry.0 == crate::bytes::code('a', 'v', 'c', '1') || entry.0 == crate::bytes::code(
        'a',
        'v',
        'c',
        '3',
    ) {
        entry_config(entry.1)
    } else {
        None
    }
}

/// The sample descriptions of an `stsd` payload, if it holds as many as it
/// says, and at least one.
pub open spec fn avc_descriptions(stsd: Seq<u8>) -> Option<
    Seq<Option<crate::h264::config::AvcConfigView>>,
> {
    let count = crate::bytes::be32(stsd, 4);
    let entries = crate::mp4::boxes::boxes_from(stsd.subrange(8, stsd.len() as int), 0);
    if stsd.len() < 8 || count == 0 || count > entries.len() {
        None
    } else {
        Some(Seq::new(count as nat, |i: int| description(entries[i])))
    }
}

/// Parses the sample descriptions of an `stsd` payload.
pub fn parse_avc_descriptions(stsd: &[u8]) -> (result: Option<Vec<Option<AvcConfig>>>)
    ensures
        match result {
            Some(configs) => avc_descriptions(stsd@) == Some(config_views(configs@)),
            None => avc_descriptions(stsd@) is None,
        },
{
    let count: usize = match read_u32_be(stsd, 4) {
        Some(count) => count as usize,
        None => {
            return None;
        },
    };
    if count == 0 {
        return None;
    }
    let entries = iter_boxes(slice_subrange(stsd, 8, stsd.len()));
    let ghost boxes = crate::mp4::boxes::box_views(entries@);
    if count > entries.len() {
        return None;
    }
    let avc1 = fourcc('a', 'v', 'c', '1');
    let avc3 = fourcc('a', 'v', 'c', '3');
    let mut configs: Vec<Option<AvcConfig>> = Vec::new();
    let mut index: usize = 0;
    while index < count
        invariant
            index <= count <= entries@.len(),
            boxes == crate::mp4::boxes::box_views(entries@),
            avc1@ == crate::bytes::code('a', 'v', 'c', '1'),
            avc3@ == crate::bytes::code('a', 'v', 'c', '3'),
            config_views(configs@) == Seq::new(index as nat, |i: int| description(boxes[i])),
        decreases count - index,
    {
        let entry = entries[index];
        let ghost before = config_views(configs@);
        assert(boxes[index as int] == (entry.0@, entry.1@));
        let config = if bytes_equal(&entry.0, &avc1) || bytes_equal(&entry.0, &avc3) {
            parse_avc_config(entry.1)
        } else {
            None
        };
        configs.push(config);
        index += 1;
        assert(config_views(configs@) =~= before.push(description(boxes[index - 1])));
        assert(before.push(description(boxes[index - 1])) =~= Seq::new(
            index as nat,
            |i: int| description(boxes[i]),
        ));
    }
    Some(configs)
}

/// Parameter sets with their lengths in two bytes in front of each.
pub open spec fn written_units(units: Seq<Seq<u8>>) -> Seq<u8>
    decreases units.len(),
{
    if units.len() == 0 {
        seq![]
    } else {
        written_units(units.drop_last()) + crate::bytes::written16(units.last().len() as int)
            + units.last()
    }
}

proof fn lemma_units_read_back(before: Seq<u8>, units: Seq<Seq<u8>>, behind: Seq<u8>)
    requires
        forall|i: int| 0 <= i < units.len() ==> (#[trigger] units[i]).len() < 0x1_0000,
    ensures
        units_at(
            before + written_units(units) + behind,
            before.len() as int,
            units.len() as int,
        ) == Some((units, (before + written_units(units)).len() as int)),
    decreases units.len(),
{
    let data = before + written_units(units) + behind;
    if units.len() == 0 {
        assert(units =~= Seq::empty());
    } else {
        let last = units.last();
        let length = crate::bytes::written16(last.len() as int);
        let rest = units.drop_last();
        let written = written_units(rest);
        assert forall|i: int| 0 <= i < rest.len() implies (#[trigger] rest[i]).len() < 0x1_0000 by {
            assert(rest[i] == units[i]);
        }
        assert(units[units.len() - 1].len() < 0x1_0000);
        assert(data =~= before + written + (length + last + behind));
        lemma_units_read_back(before, rest, length + last + behind);
        let end = (before + written).len() as int;
        assert(data.subrange(end, end + 2) =~= length);
        crate::bytes::lemma_written_numbers_read_back(data, end, last.len() as int);
        assert(data.subrange(end + 2, end + 2 + last.len()) =~= last);
        assert(units =~= rest.push(last));
    }
}

/// A decoder configuration that was written is read back: the bytes of a length,
/// then the parameter sets of the sequence, then those of the pictures.
pub proof fn lemma_configuration_reads_back(
    head: Seq<u8>,
    sps: Seq<Seq<u8>>,
    pps: Seq<Seq<u8>>,
    behind: Seq<u8>,
)
    requires
        head.len() == 6,
        head[0] == 1,
        head[5] % 32 == sps.len(),
        pps.len() < 0x100,
        forall|i: int| 0 <= i < sps.len() ==> (#[trigger] sps[i]).len() < 0x1_0000,
        forall|i: int| 0 <= i < pps.len() ==> (#[trigger] pps[i]).len() < 0x1_0000,
    ensures
        avcc_config(
            head + written_units(sps) + seq![pps.len() as u8] + written_units(pps) + behind,
        ) == Some(
            (crate::h264::config::AvcConfigView {
                length_size: head[4] as int % 4 + 1,
                sps,
                pps,
            }),
        ),
{
    let avcc = head + written_units(sps) + seq![pps.len() as u8] + written_units(pps) + behind;
    let rest = seq![pps.len() as u8] + written_units(pps) + behind;
    assert(avcc =~= head + written_units(sps) + rest);
    lemma_units_read_back(head, sps, rest);
    let before = head + written_units(sps) + seq![pps.len() as u8];
    assert(avcc =~= before + written_units(pps) + behind);
    lemma_units_read_back(before, pps, behind);
    assert(avcc[(head + written_units(sps)).len() as int] == pps.len() as u8);
}

/// The configuration of a sample entry stands in its `avcC` box, behind 78 bytes
/// that do not matter. Only entries `avc1` and `avc3` have one.
pub proof fn lemma_sample_entry_reads_back(fixed: Seq<u8>, avcc: Seq<u8>, code: Seq<u8>)
    requires
        fixed.len() == 78,
        avcc.len() + 8 <= u32::MAX,
    ensures
        ({
            let entry = fixed + crate::mp4::boxes::written_box(
                crate::bytes::code('a', 'v', 'c', 'C'),
                avcc,
            );
            description((code, entry)) == if code == crate::bytes::code('a', 'v', 'c', '1')
                || code == crate::bytes::code('a', 'v', 'c', '3') {
                avcc_config(avcc)
            } else {
                None
            }
        }),
{
    let fourcc = crate::bytes::code('a', 'v', 'c', 'C');
    let inner = crate::mp4::boxes::written_box(fourcc, avcc);
    let entry = fixed + inner;
    assert(entry.subrange(78, entry.len() as int) =~= inner);
    crate::mp4::boxes::lemma_only_box_is_found(fourcc, avcc);
}

/// The sample descriptions are read in their order, as many as the table says.
pub proof fn lemma_descriptions_read_back(head: Seq<u8>, entries: Seq<(Seq<u8>, Seq<u8>)>, count: int)
    requires
        head.len() == 8,
        head.subrange(4, 8) == crate::bytes::written32(count),
        0 <= count <= u32::MAX,
        crate::mp4::boxes::writable(entries),
    ensures
        avc_descriptions(head + crate::mp4::boxes::written_boxes(entries)) == if 1 <= count
            <= entries.len() {
            Some(Seq::new(count as nat, |i: int| description(entries[i])))
        } else {
            None
        },
{
    let boxes = crate::mp4::boxes::written_boxes(entries);
    let stsd = head + boxes;
    crate::mp4::boxes::lemma_written_boxes_read_back(entries);
    assert(stsd.subrange(8, stsd.len() as int) =~= boxes);
    assert(stsd.subrange(4, 8) =~= head.subrange(4, 8));
    crate::bytes::lemma_written_numbers_read_back(stsd, 4, count);
}

} // verus!
