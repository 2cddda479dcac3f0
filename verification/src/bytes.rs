//! Big-endian integer reads from byte slices.

use vstd::prelude::*;
use vstd::slice::slice_subrange;

verus! {

/// The two bytes of `data` at `at`, most significant first, as a number.
pub open spec fn be16(data: Seq<u8>, at: int) -> int {
    data[at] * 0x100 + data[at + 1]
}

/// The four bytes of `data` at `at`, most significant first, as a number.
pub open spec fn be32(data: Seq<u8>, at: int) -> int {
    be16(data, at) * 0x1_0000 + be16(data, at + 2)
}

/// The eight bytes of `data` at `at`, most significant first, as a number.
pub open spec fn be64(data: Seq<u8>, at: int) -> int {
    be32(data, at) * 0x1_0000_0000 + be32(data, at + 4)
}

/// Whether `data` holds `len` bytes from `at` on.
pub open spec fn holds(data: Seq<u8>, at: int, len: int) -> bool {
    0 <= at && at + len <= data.len()
}

pub open spec fn u16_at(data: Seq<u8>, at: int) -> Option<u16> {
    if holds(data, at, 2) {
        Some(be16(data, at) as u16)
    } else {
        None
    }
}

pub open spec fn u32_at(data: Seq<u8>, at: int) -> Option<u32> {
    if holds(data, at, 4) {
        Some(be32(data, at) as u32)
    } else {
        None
    }
}

pub open spec fn u64_at(data: Seq<u8>, at: int) -> Option<u64> {
    if holds(data, at, 8) {
        Some(be64(data, at) as u64)
    } else {
        None
    }
}

/// A four-character code as the bytes that stand for it in a file.
pub open spec fn code(a: char, b: char, c: char, d: char) -> Seq<u8> {
    seq![a as u8, b as u8, c as u8, d as u8]
}

/// Builds a four-character code.
pub fn fourcc(a: char, b: char, c: char, d: char) -> (result: [u8; 4])
    ensures
        result@ == code(a, b, c, d),
{
    let result = [a as u8, b as u8, c as u8, d as u8];
    assert(result@ =~= code(a, b, c, d));
    result
}

/// Reads a big-endian `u16` at `offset`, if `data` holds one there.
pub fn read_u16_be(data: &[u8], offset: usize) -> (result: Option<u16>)
    ensures
        result == u16_at(data@, offset as int),
{
    if data.len() < 2 || offset > data.len() - 2 {
        return None;
    }
    Some(data[offset] as u16 * 0x100 + data[offset + 1] as u16)
}

/// Reads a big-endian `u32` at `offset`, if `data` holds one there.
pub fn read_u32_be(data: &[u8], offset: usize) -> (result: Option<u32>)
    ensures
        result == u32_at(data@, offset as int),
{
    if data.len() < 4 || offset > data.len() - 4 {
        return None;
    }
    let high: u32 = data[offset] as u32 * 0x100 + data[offset + 1] as u32;
    let low: u32 = data[offset + 2] as u32 * 0x100 + data[offset + 3] as u32;
    Some(high * 0x1_0000 + low)
}

/// Reads a big-endian `u64` at `offset`, if `data` holds one there.
pub fn read_u64_be(data: &[u8], offset: usize) -> (result: Option<u64>)
    ensures
        result == u64_at(data@, offset as int),
{
    if data.len() < 8 || offset > data.len() - 8 {
        return None;
    }
    match (read_u32_be(data, offset), read_u32_be(data, offset + 4)) {
        (Some(high), Some(low)) => Some(high as u64 * 0x1_0000_0000 + low as u64),
        _ => None,
    }
}

/// The bytes of `data` from `start` up to `end`, if it holds them.
pub fn get_range(data: &[u8], start: usize, end: usize) -> (result: Option<&[u8]>)
    ensures
        match result {
            Some(part) => start <= end <= data@.len() && part@ == data@.subrange(
                start as int,
                end as int,
            ),
            None => !(start <= end <= data@.len()),
        },
{
    if start <= end && end <= data.len() {
        Some(slice_subrange(data, start, end))
    } else {
        None
    }
}

/// Whether two byte strings are equal.
pub fn bytes_equal(left: &[u8], right: &[u8]) -> (result: bool)
    ensures
        result == (left@ == right@),
{
    if left.len() != right.len() {
        return false;
    }
    let mut index: usize = 0;
    while index < left.len()
        invariant
            left@.len() == right@.len(),
            index <= left@.len(),
            forall|i: int| 0 <= i < index ==> left@[i] == right@[i],
        decreases left@.len() - index,
    {
        if left[index] != right[index] {
            return false;
        }
        index += 1;
    }
    assert(left@ =~= right@);
    true
}

/// Whether `data` begins with `prefix`.
pub fn starts_with(data: &[u8], prefix: &[u8]) -> (result: bool)
    ensures
        result == prefix@.is_prefix_of(data@),
{
    if data.len() < prefix.len() {
        return false;
    }
    bytes_equal(slice_subrange(data, 0, prefix.len()), prefix)
}


/// A number in two bytes, the most significant first.
pub open spec fn written16(value: int) -> Seq<u8> {
    seq![(value / 0x100) as u8, (value % 0x100) as u8]
}

/// A number in four bytes, the most significant first.
pub open spec fn written32(value: int) -> Seq<u8> {
    written16(value / 0x1_0000) + written16(value % 0x1_0000)
}

/// A number in eight bytes, the most significant first.
pub open spec fn written64(value: int) -> Seq<u8> {
    written32(value / 0x1_0000_0000) + written32(value % 0x1_0000_0000)
}

/// Numbers are read back from the bytes that they are written in, and from no
/// fewer.
pub proof fn lemma_written_numbers_read_back(data: Seq<u8>, at: int, value: int)
    requires
        0 <= at,
        0 <= value,
    ensures
        value < 0x1_0000 && at + 2 <= data.len() && data.subrange(at, at + 2) == written16(value)
            ==> be16(data, at) == value && u16_at(data, at) == Some(value as u16),
        value < 0x1_0000_0000 && at + 4 <= data.len() && data.subrange(at, at + 4) == written32(
            value,
        ) ==> be32(data, at) == value && u32_at(data, at) == Some(value as u32),
        value < 0x1_0000_0000_0000_0000 && at + 8 <= data.len() && data.subrange(at, at + 8)
            == written64(value) ==> be64(data, at) == value && u64_at(data, at) == Some(
            value as u64,
        ),
        u16_at(data, at) is Some <==> at + 2 <= data.len(),
        u32_at(data, at) is Some <==> at + 4 <= data.len(),
        u64_at(data, at) is Some <==> at + 8 <= data.len(),
{
    if at + 2 <= data.len() && data.subrange(at, at + 2) == written16(value) && value < 0x1_0000 {
        assert(data[at] == written16(value)[0] && data[at + 1] == written16(value)[1]);
    }
    if at + 4 <= data.len() && data.subrange(at, at + 4) == written32(value) && value
        < 0x1_0000_0000 {
        lemma_number_at(data, at, value);
    }
    if at + 8 <= data.len() && data.subrange(at, at + 8) == written64(value) && value
        < 0x1_0000_0000_0000_0000 {
        let high = value / 0x1_0000_0000;
        let low = value % 0x1_0000_0000;
        assert(data.subrange(at, at + 4) =~= data.subrange(at, at + 8).subrange(0, 4));
        assert(data.subrange(at + 4, at + 8) =~= data.subrange(at, at + 8).subrange(4, 8));
        assert(written64(value).subrange(0, 4) =~= written32(high));
        assert(written64(value).subrange(4, 8) =~= written32(low));
        lemma_number_at(data, at, high);
        lemma_number_at(data, at + 4, low);
    }
}

proof fn lemma_number_at(data: Seq<u8>, at: int, value: int)
    requires
        0 <= at,
        at + 4 <= data.len(),
        0 <= value < 0x1_0000_0000,
        data.subrange(at, at + 4) == written32(value),
    ensures
        be32(data, at) == value,
{
    let bytes = data.subrange(at, at + 4);
    let high = value / 0x1_0000;
    let low = value % 0x1_0000;
    assert(bytes[0] == written16(high)[0] && bytes[1] == written16(high)[1]);
    assert(bytes[2] == written16(low)[0] && bytes[3] == written16(low)[1]);
    assert(data[at] == bytes[0] && data[at + 1] == bytes[1] && data[at + 2] == bytes[2]
        && data[at + 3] == bytes[3]);
}

} // verus!
