//! Reading MP4 boxes.
//!
//! A box starts with a header of 8 bytes (size and four-character code) or,
//! where the 32-bit size is 1, of 16 bytes, whose last 8 hold the size.

use vstd::prelude::*;
use vstd::slice::slice_subrange;

use crate::bytes::{bytes_equal, read_u32_be, read_u64_be};

verus! {

/// Box header info (without payload reference).
#[derive(Debug, Clone, Copy, PartialEq, Eq)]
pub struct BoxHeader {
    /// Four-character code of the box.
    pub fourcc: [u8; 4],
    /// Header length (8 for standard, 16 for extended).
    pub header_len: usize,
    /// Total box size including header.
    pub total_size: usize,
}

/// A box found in a buffer.
#[derive(Debug, Clone, Copy)]
pub struct BoxRead<'a> {
    /// Four-character code of the box.
    pub fourcc: [u8; 4],
    /// Header length (8 for standard, 16 for extended).
    pub header_len: usize,
    /// Total box size including header.
    pub total_size: usize,
    /// Box payload (content after header).
    pub payload: &'a [u8],
}

/// What a box header says: the code, the header's length and the box's size.
pub struct HeaderFacts {
    pub fourcc: Seq<u8>,
    pub header_len: int,
    pub total_size: int,
}

impl View for BoxHeader {
    type V = HeaderFacts;

    open spec fn view(&self) -> HeaderFacts {
        HeaderFacts {
            fourcc: self.fourcc@,
            header_len: self.header_len as int,
            total_size: self.total_size as int,
        }
    }
}

/// The header at `at`, wherever `data` holds all of it and it is sound.
///
/// A size of zero (the box reaches the end of the file) is not accepted, nor a
/// size smaller than the header itself, nor one beyond the address space.
pub open spec fn header_at(data: Seq<u8>, at: int) -> Option<HeaderFacts> {
    let size32 = crate::bytes::be32(data, at);
    let header_len: int = if size32 == 1 { 16 } else { 8 };
    let total_size: int = if size32 == 1 { crate::bytes::be64(data, at + 8) } else { size32 };
    if crate::bytes::holds(data, at, 8) && crate::bytes::holds(data, at, header_len) && header_len
        <= total_size <= usize::MAX {
        Some(
            HeaderFacts { fourcc: data.subrange(at + 4, at + 8), header_len, total_size },
        )
    } else {
        None
    }
}

/// The header of the box at `at`, wherever `data` holds the whole box.
pub open spec fn box_at(data: Seq<u8>, at: int) -> Option<HeaderFacts> {
    match header_at(data, at) {
        Some(header) => if at + header.total_size <= data.len() {
            Some(header)
        } else {
            None
        },
        None => None,
    }
}

/// The content of the box at `at`, after its header.
pub open spec fn payload_at(data: Seq<u8>, at: int) -> Seq<u8> {
    let header = box_at(data, at).unwrap();
    data.subrange(at + header.header_len, at + header.total_size)
}

/// Reads only the box header.
///
/// Unlike `read_box`, this only needs the header bytes (8 or 16), not the
/// entire box content. Useful for discovering box positions when the full box
/// may extend beyond the buffer.
pub fn read_box_header(data: &[u8], offset: usize) -> (result: Option<BoxHeader>)
    ensures
        match result {
            Some(header) => header_at(data@, offset as int) == Some(header@),
            None => header_at(data@, offset as int) is None,
        },
{
    if data.len() < 8 || offset > data.len() - 8 {
        return None;
    }
    let size32: u32 = match read_u32_be(data, offset) {
        Some(size) => size,
        None => {
            return None;
        },
    };
    let header_len: usize = if size32 == 1 { 16 } else { 8 };
    let total_size: usize = if size32 == 1 {
        match read_u64_be(data, offset + 8) {
            Some(size) => {
                if size > usize::MAX as u64 {
                    return None;
                }
                size as usize
            },
            None => {
                return None;
            },
        }
    } else {
        size32 as usize
    };
    if total_size < header_len {
        return None;
    }
    let fourcc = [data[offset + 4], data[offset + 5], data[offset + 6], data[offset + 7]];
    assert(fourcc@ =~= data@.subrange(offset + 4, offset + 8));
    Some(BoxHeader { fourcc, header_len, total_size })
}

/// Reads the box at `offset`, with a standard or an extended header.
///
/// Returns `None` where the header is cut off or unsound, or where the box
/// reaches beyond the buffer.
pub fn read_box(data: &[u8], offset: usize) -> (result: Option<BoxRead<'_>>)
    ensures
        match result {
            Some(found) => {
                &&& box_at(data@, offset as int) == Some(
                    (HeaderFacts {
                        fourcc: found.fourcc@,
                        header_len: found.header_len as int,
                        total_size: found.total_size as int,
                    }),
                )
                &&& found.payload@ == payload_at(data@, offset as int)
            },
            None => box_at(data@, offset as int) is None,
        },
{
    let header = match read_box_header(data, offset) {
        Some(header) => header,
        None => {
            return None;
        },
    };
    if header.total_size > data.len() || offset > data.len() - header.total_size {
        return None;
    }
    let payload = slice_subrange(data, offset + header.header_len, offset + header.total_size);
    Some(
        BoxRead {
            fourcc: header.fourcc,
            header_len: header.header_len,
            total_size: header.total_size,
            payload,
        },
    )
}

/// The boxes that stand one behind another from `at` on, each as its code and
/// its content, up to the first place where no whole box stands.
pub open spec fn boxes_from(data: Seq<u8>, at: int) -> Seq<(Seq<u8>, Seq<u8>)>
    decreases data.len() - at,
{
    match box_at(data, at) {
        Some(header) => seq![(header.fourcc, payload_at(data, at))] + boxes_from(
            data,
            at + header.total_size,
        ),
        None => Seq::empty(),
    }
}

/// The content of the first of `boxes` that has the code `fourcc`.
pub open spec fn first_with_code(boxes: Seq<(Seq<u8>, Seq<u8>)>, fourcc: Seq<u8>) -> Option<Seq<u8>>
    decreases boxes.len(),
{
    if boxes.len() == 0 {
        None
    } else if boxes[0].0 == fourcc {
        Some(boxes[0].1)
    } else {
        first_with_code(boxes.drop_first(), fourcc)
    }
}

/// The content of the first box with the code `fourcc` among those of `data`.
pub open spec fn child(data: Seq<u8>, fourcc: Seq<u8>) -> Option<Seq<u8>> {
    first_with_code(boxes_from(data, 0), fourcc)
}

/// The content reached from `data` by taking, for each code of `path` in turn,
/// the first child with that code.
pub open spec fn descend(data: Seq<u8>, path: Seq<Seq<u8>>) -> Option<Seq<u8>>
    decreases path.len(),
{
    if path.len() == 0 {
        Some(data)
    } else {
        match child(data, path[0]) {
            Some(inner) => descend(inner, path.drop_first()),
            None => None,
        }
    }
}

/// The codes of a path as byte strings.
pub open spec fn codes(path: Seq<[u8; 4]>) -> Seq<Seq<u8>> {
    Seq::new(path.len(), |i: int| path[i]@)
}

/// The codes and contents of found boxes.
pub open spec fn box_views(found: Seq<([u8; 4], &[u8])>) -> Seq<(Seq<u8>, Seq<u8>)> {
    Seq::new(found.len(), |i: int| (found[i].0@, found[i].1@))
}

/// Lists the boxes of `data`, each as its code and its content, up to the
/// first place where no whole box stands.
pub fn iter_boxes(data: &[u8]) -> (result: Vec<([u8; 4], &[u8])>)
    ensures
        box_views(result@) == boxes_from(data@, 0),
{
    let mut found: Vec<([u8; 4], &[u8])> = Vec::new();
    let mut offset: usize = 0;
    loop
        invariant
            offset <= data.len(),
            box_views(found@) + boxes_from(data@, offset as int) == boxes_from(data@, 0),
        decreases data@.len() - offset,
    {
        match read_box(data, offset) {
            Some(next) => {
                let ghost before = found@;
                proof {
                    assert(boxes_from(data@, offset as int) == seq![
                        (next.fourcc@, next.payload@),
                    ] + boxes_from(data@, offset + next.total_size));
                }
                found.push((next.fourcc, next.payload));
                assert(box_views(found@) =~= box_views(before) + seq![
                    (next.fourcc@, next.payload@),
                ]);
                assert(box_views(found@) + boxes_from(data@, offset + next.total_size)
                    =~= box_views(before) + boxes_from(data@, offset as int));
                offset += next.total_size;
            },
            None => {
                assert(boxes_from(data@, offset as int) =~= Seq::empty());
                assert(box_views(found@) =~= boxes_from(data@, 0));
                return found;
            },
        }
    }
}

/// Finds the content of the first box of `data` that has the code `fourcc`.
pub fn find_box<'a>(data: &'a [u8], fourcc: &[u8; 4]) -> (result: Option<&'a [u8]>)
    ensures
        match result {
            Some(payload) => child(data@, fourcc@) == Some(payload@),
            None => child(data@, fourcc@) is None,
        },
{
    let mut offset: usize = 0;
    loop
        invariant
            offset <= data.len(),
            child(data@, fourcc@) == first_with_code(
                boxes_from(data@, offset as int),
                fourcc@,
            ),
        decreases data@.len() - offset,
    {
        match read_box(data, offset) {
            Some(next) => {
                let ghost rest = boxes_from(data@, offset + next.total_size);
                assert(boxes_from(data@, offset as int) == seq![
                    (next.fourcc@, next.payload@),
                ] + rest);
                assert((seq![(next.fourcc@, next.payload@)] + rest).drop_first() =~= rest);
                if bytes_equal(&next.fourcc, fourcc) {
                    return Some(next.payload);
                }
                offset += next.total_size;
            },
            None => {
                return None;
            },
        }
    }
}

/// Follows `path` from `data` downwards, taking the first child with each code.
pub fn nav<'a>(data: &'a [u8], path: &[[u8; 4]]) -> (result: Option<&'a [u8]>)
    ensures
        match result {
            Some(payload) => descend(data@, codes(path@)) == Some(payload@),
            None => descend(data@, codes(path@)) is None,
        },
{
    let mut current: &'a [u8] = data;
    let mut depth: usize = 0;
    assert(codes(path@).skip(0) =~= codes(path@));
    while depth < path.len()
        invariant
            depth <= path@.len(),
            descend(data@, codes(path@)) == descend(current@, codes(path@).skip(depth as int)),
        decreases path@.len() - depth,
    {
        let ghost rest = codes(path@).skip(depth as int);
        assert(rest[0] == path@[depth as int]@);
        assert(rest.drop_first() =~= codes(path@).skip(depth + 1));
        match find_box(current, &path[depth]) {
            Some(inner) => {
                current = inner;
            },
            None => {
                return None;
            },
        }
        depth += 1;
    }
    assert(codes(path@).skip(depth as int) =~= Seq::empty());
    Some(current)
}

/// A box as it stands in a file: a 32-bit size, the code, the content.
pub open spec fn written_box(fourcc: Seq<u8>, payload: Seq<u8>) -> Seq<u8> {
    let size = payload.len() + 8;
    seq![
        (size / 0x100_0000) as u8,
        (size / 0x1_0000 % 0x100) as u8,
        (size / 0x100 % 0x100) as u8,
        (size % 0x100) as u8,
    ] + fourcc + payload
}

/// A box that was written into a buffer, whatever stands before and behind it,
/// is read back with its code and its content.
pub proof fn lemma_written_box_reads_back(
    before: Seq<u8>,
    fourcc: Seq<u8>,
    payload: Seq<u8>,
    behind: Seq<u8>,
)
    requires
        fourcc.len() == 4,
        payload.len() + 8 <= u32::MAX,
    ensures
        ({
            let data = before + written_box(fourcc, payload) + behind;
            let at = before.len() as int;
            &&& box_at(data, at) == Some(
                (HeaderFacts { fourcc, header_len: 8, total_size: payload.len() as int + 8 }),
            )
            &&& payload_at(data, at) == payload
        }),
{
    let data = before + written_box(fourcc, payload) + behind;
    let at = before.len() as int;
    assert(data.subrange(at + 4, at + 8) =~= fourcc);
    assert(data.subrange(at + 8, at + payload.len() + 8) =~= payload);
}

/// Wherever a box is read, its header and its content fill the `total_size`
/// bytes from its place on, all of them inside the buffer.
pub proof fn lemma_box_lies_inside(data: Seq<u8>, at: int)
    requires
        box_at(data, at) is Some,
    ensures
        ({
            let header = box_at(data, at).unwrap();
            &&& 0 <= at < at + header.total_size <= data.len()
            &&& header.header_len == 8 || header.header_len == 16
            &&& header.header_len + payload_at(data, at).len() == header.total_size
        }),
{
}


/// A box whose size takes 64 bits: the number one, the code, the size, the
/// content.
pub open spec fn written_large_box(fourcc: Seq<u8>, payload: Seq<u8>) -> Seq<u8> {
    crate::bytes::written32(1) + fourcc + crate::bytes::written64(
        payload.len() as int + 16,
    ) + payload
}

/// A box with a 64-bit size is read back with its code and its content.
pub proof fn lemma_written_large_box_reads_back(
    before: Seq<u8>,
    fourcc: Seq<u8>,
    payload: Seq<u8>,
    behind: Seq<u8>,
)
    requires
        fourcc.len() == 4,
        payload.len() + 16 <= usize::MAX,
    ensures
        ({
            let data = before + written_large_box(fourcc, payload) + behind;
            let at = before.len() as int;
            &&& box_at(data, at) == Some(
                (HeaderFacts { fourcc, header_len: 16, total_size: payload.len() as int + 16 }),
            )
            &&& payload_at(data, at) == payload
        }),
{
    let data = before + written_large_box(fourcc, payload) + behind;
    let at = before.len() as int;
    let size = payload.len() as int + 16;
    assert(data.subrange(at, at + 4) =~= crate::bytes::written32(1));
    crate::bytes::lemma_written_numbers_read_back(data, at, 1);
    assert(data.subrange(at + 8, at + 16) =~= crate::bytes::written64(size));
    crate::bytes::lemma_written_numbers_read_back(data, at + 8, size);
    assert(data.subrange(at + 4, at + 8) =~= fourcc);
    assert(data.subrange(at + 16, at + payload.len() + 16) =~= payload);
}

/// Boxes written one behind another.
pub open spec fn written_boxes(boxes: Seq<(Seq<u8>, Seq<u8>)>) -> Seq<u8>
    decreases boxes.len(),
{
    if boxes.len() == 0 {
        seq![]
    } else {
        written_box(boxes[0].0, boxes[0].1) + written_boxes(boxes.drop_first())
    }
}

/// Whether boxes can be written: their codes have four bytes, and their sizes
/// fit into 32 bits.
pub open spec fn writable(boxes: Seq<(Seq<u8>, Seq<u8>)>) -> bool {
    forall|i: int|
        0 <= i < boxes.len() ==> (#[trigger] boxes[i]).0.len() == 4 && boxes[i].1.len() + 8
            <= u32::MAX
}

/// Boxes that were written one behind another are read back, all of them and in
/// their order.
pub proof fn lemma_written_boxes_read_back(boxes: Seq<(Seq<u8>, Seq<u8>)>)
    requires
        writable(boxes),
    ensures
        boxes_from(written_boxes(boxes), 0) == boxes,
{
    lemma_written_boxes_read_back_from(seq![], boxes);
    assert(Seq::<u8>::empty() + written_boxes(boxes) =~= written_boxes(boxes));
}

proof fn lemma_written_boxes_read_back_from(before: Seq<u8>, boxes: Seq<(Seq<u8>, Seq<u8>)>)
    requires
        writable(boxes),
    ensures
        boxes_from(before + written_boxes(boxes), before.len() as int) == boxes,
    decreases boxes.len(),
{
    let data = before + written_boxes(boxes);
    if boxes.len() > 0 {
        let (fourcc, payload) = boxes[0];
        let rest = boxes.drop_first();
        let first = written_box(fourcc, payload);
        assert forall|i: int| 0 <= i < rest.len() implies (#[trigger] rest[i]).0.len() == 4
            && rest[i].1.len() + 8 <= u32::MAX by {
            assert(rest[i] == boxes[i + 1]);
        }
        lemma_written_box_reads_back(before, fourcc, payload, written_boxes(rest));
        assert(before + first + written_boxes(rest) =~= data);
        lemma_written_boxes_read_back_from(before + first, rest);
        assert(boxes =~= seq![(fourcc, payload)] + rest);
    }
}

/// The first box with a code is the one that is found, and where none has the
/// code, none is.
pub proof fn lemma_child_is_the_first(boxes: Seq<(Seq<u8>, Seq<u8>)>, fourcc: Seq<u8>, place: int)
    requires
        writable(boxes),
    ensures
        0 <= place < boxes.len() && boxes[place].0 == fourcc && (forall|j: int|
            0 <= j < place ==> (#[trigger] boxes[j]).0 != fourcc) ==> child(
            written_boxes(boxes),
            fourcc,
        ) == Some(boxes[place].1),
        (forall|j: int| 0 <= j < boxes.len() ==> (#[trigger] boxes[j]).0 != fourcc) ==> child(
            written_boxes(boxes),
            fourcc,
        ) is None,
{
    lemma_written_boxes_read_back(boxes);
    if 0 <= place < boxes.len() && boxes[place].0 == fourcc && (forall|j: int|
        0 <= j < place ==> (#[trigger] boxes[j]).0 != fourcc) {
        lemma_first_at(boxes, fourcc, place);
    }
    if forall|j: int| 0 <= j < boxes.len() ==> (#[trigger] boxes[j]).0 != fourcc {
        lemma_none_with(boxes, fourcc);
    }
}

proof fn lemma_first_at(boxes: Seq<(Seq<u8>, Seq<u8>)>, fourcc: Seq<u8>, place: int)
    requires
        0 <= place < boxes.len(),
        boxes[place].0 == fourcc,
        forall|j: int| 0 <= j < place ==> (#[trigger] boxes[j]).0 != fourcc,
    ensures
        first_with_code(boxes, fourcc) == Some(boxes[place].1),
    decreases place,
{
    if place > 0 {
        let rest = boxes.drop_first();
        assert(boxes[0].0 != fourcc);
        assert forall|j: int| 0 <= j < place - 1 implies (#[trigger] rest[j]).0 != fourcc by {
            assert(rest[j] == boxes[j + 1]);
        }
        lemma_first_at(rest, fourcc, place - 1);
    }
}

proof fn lemma_none_with(boxes: Seq<(Seq<u8>, Seq<u8>)>, fourcc: Seq<u8>)
    requires
        forall|j: int| 0 <= j < boxes.len() ==> (#[trigger] boxes[j]).0 != fourcc,
    ensures
        first_with_code(boxes, fourcc) is None,
    decreases boxes.len(),
{
    if boxes.len() > 0 {
        let rest = boxes.drop_first();
        assert(boxes[0].0 != fourcc);
        assert forall|j: int| 0 <= j < rest.len() implies (#[trigger] rest[j]).0 != fourcc by {
            assert(rest[j] == boxes[j + 1]);
        }
        lemma_none_with(rest, fourcc);
    }
}

/// A box that stands alone is found by its code, whatever it holds.
pub proof fn lemma_only_box_is_found(fourcc: Seq<u8>, payload: Seq<u8>)
    requires
        fourcc.len() == 4,
        payload.len() + 8 <= u32::MAX,
    ensures
        child(written_box(fourcc, payload), fourcc) == Some(payload),
        descend(written_box(fourcc, payload), seq![fourcc]) == Some(payload),
{
    let boxes = seq![(fourcc, payload)];
    assert(boxes.drop_first() =~= seq![]);
    assert(written_boxes(boxes.drop_first()) =~= seq![]);
    assert(written_boxes(boxes) =~= written_box(fourcc, payload));
    lemma_child_is_the_first(boxes, fourcc, 0);
    assert(seq![fourcc].drop_first() =~= seq![]);
    assert(descend(payload, seq![fourcc].drop_first()) == Some(payload));
}

/// A path is followed one code after another: what stands at the end of two paths
/// joined is what stands at the end of the second, from the end of the first.
pub proof fn lemma_paths_join(data: Seq<u8>, path: Seq<Seq<u8>>, further: Seq<Seq<u8>>)
    ensures
        descend(data, path + further) == match descend(data, path) {
            Some(inner) => descend(inner, further),
            None => None,
        },
    decreases path.len(),
{
    if path.len() == 0 {
        assert(path + further =~= further);
    } else {
        assert((path + further).drop_first() =~= path.drop_first() + further);
        match child(data, path[0]) {
            Some(inner) => {
                lemma_paths_join(inner, path.drop_first(), further);
            },
            None => {},
        }
    }
}

/// A box inside a box is found by the codes of both.
pub proof fn lemma_nested_box_is_found(outer: Seq<u8>, inner: Seq<u8>, payload: Seq<u8>)
    requires
        outer.len() == 4,
        inner.len() == 4,
        payload.len() + 16 <= u32::MAX,
    ensures
        descend(written_box(outer, written_box(inner, payload)), seq![outer, inner]) == Some(
            payload,
        ),
{
    let within = written_box(inner, payload);
    lemma_only_box_is_found(inner, payload);
    lemma_only_box_is_found(outer, within);
    lemma_paths_join(written_box(outer, within), seq![outer], seq![inner]);
    assert(seq![outer] + seq![inner] =~= seq![outer, inner]);
}

} // verus!
