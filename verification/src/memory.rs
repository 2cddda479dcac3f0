//! Reserving memory in a way that can fail.

use std::collections::{HashMap, HashSet};

use vstd::prelude::*;

verus! {

/// Asks the standard library's `Vec::try_reserve_exact` for room for
/// `additional` more values. The values stay as they are, whether the room is
/// granted or refused. A vector that already has the room, as one asked for
/// none has, is granted it; values that would take up more than `isize::MAX`
/// bytes are refused. In between it is left to the allocator.
#[verifier::external_body]
pub(crate) fn try_reserve_exact<T>(values: &mut Vec<T>, additional: usize) -> (granted: bool)
    ensures
        final(values)@ == old(values)@,
        additional == 0 ==> granted,
        (old(values)@.len() + additional) * vstd::layout::size_of::<T>() > isize::MAX ==> !granted,
{
    values.try_reserve_exact(additional).is_ok()
}

/// The number of values that a vector has room for, from the standard
/// library's `Vec::capacity`. It is never less than the number of values; how
/// much more it is depends on the allocator.
#[verifier::external_body]
pub(crate) fn vec_capacity<T>(values: &Vec<T>) -> (capacity: usize)
    ensures
        capacity >= values@.len(),
{
    values.capacity()
}

/// Asks the standard library's `String::try_reserve_exact` for room for
/// `additional` more bytes. The text stays as it is, whether the room is
/// granted or refused; when it is refused is left to the allocator, but for
/// a text asked for no more room.
#[verifier::external_body]
pub(crate) fn try_reserve_text(text: &mut String, additional: usize) -> (granted: bool)
    ensures
        final(text)@ == old(text)@,
        additional == 0 ==> granted,
{
    text.try_reserve_exact(additional).is_ok()
}

/// The number of bytes that a text has room for, from the standard library's
/// `String::capacity`. It is never less than the length of the text in bytes;
/// how much more it is depends on the allocator.
#[verifier::external_body]
pub(crate) fn text_capacity(text: &String) -> (capacity: usize)
    ensures
        capacity >= vstd::utf8::encode_utf8(text@).len(),
{
    text.capacity()
}

/// Asks the standard library's `HashSet::try_reserve` for room for `additional`
/// more numbers. The set stays as it is, whether the room is granted or
/// refused; when it is refused is left to the allocator.
#[verifier::external_body]
pub(crate) fn try_reserve_numbers(numbers: &mut HashSet<u32>, additional: usize) -> (granted: bool)
    ensures
        final(numbers)@ == old(numbers)@,
{
    numbers.try_reserve(additional).is_ok()
}

/// Asks the standard library's `HashMap::try_reserve` for room for `additional`
/// more samples. The map stays as it is, whether the room is granted or refused;
/// when it is refused is left to the allocator.
#[verifier::external_body]
pub(crate) fn try_reserve_samples(samples: &mut HashMap<u32, Vec<u8>>, additional: usize) -> (granted:
    bool)
    ensures
        final(samples)@ == old(samples)@,
{
    samples.try_reserve(additional).is_ok()
}

} // verus!
