//! Unicode texts: their length in UTF-8, UTF-16 decoding and trimming.

use vstd::prelude::*;
use vstd::string::*;

verus! {

broadcast use vstd::string::group_string_axioms;

/// The bytes that a text takes up in UTF-8.
pub open spec fn byte_len(text: Seq<char>) -> int {
    vstd::utf8::encode_utf8(text).len() as int
}

/// The bytes that a character takes up in UTF-8.
pub open spec fn char_width(character: char) -> int {
    if (character as u32) < 0x80 {
        1
    } else if (character as u32) < 0x800 {
        2
    } else if (character as u32) < 0x1_0000 {
        3
    } else {
        4
    }
}

/// The characters with the White_Space property of Unicode.
pub open spec fn is_whitespace(character: char) -> bool {
    let code = character as u32;
    ||| 0x09 <= code <= 0x0d
    ||| code == 0x20
    ||| code == 0x85
    ||| code == 0xa0
    ||| code == 0x1680
    ||| 0x2000 <= code <= 0x200a
    ||| code == 0x2028
    ||| code == 0x2029
    ||| code == 0x202f
    ||| code == 0x205f
    ||| code == 0x3000
}

/// A character that is cut off at both ends of a text.
pub open spec fn is_trimmable(character: char) -> bool {
    character == '\0' || is_whitespace(character)
}

/// A text without the trimmable characters at its ends.
pub open spec fn trimmed(text: Seq<char>) -> Seq<char>
    decreases text.len(),
{
    if text.len() == 0 {
        text
    } else if is_trimmable(text.first()) {
        trimmed(text.drop_first())
    } else if is_trimmable(text.last()) {
        trimmed(text.drop_last())
    } else {
        text
    }
}

/// The text in UTF-16 code units, if every surrogate is one of a pair.
pub open spec fn utf16_text(units: Seq<u16>) -> Option<Seq<char>>
    decreases units.len(),
{
    if units.len() == 0 {
        Some(seq![])
    } else if !(0xd800 <= units[0] <= 0xdfff) {
        match utf16_text(units.skip(1)) {
            Some(rest) => Some(seq![units[0] as char] + rest),
            None => None,
        }
    } else if units[0] <= 0xdbff && units.len() > 1 && 0xdc00 <= units[1] <= 0xdfff {
        match utf16_text(units.skip(2)) {
            Some(rest) => Some(
                seq![(0x1_0000 + (units[0] - 0xd800) * 0x400 + (units[1] - 0xdc00)) as char] + rest,
            ),
            None => None,
        }
    } else {
        None
    }
}

/// The code units in bytes of one of the two orders.
pub open spec fn code_units(data: Seq<u8>, big_endian: bool) -> Seq<u16> {
    Seq::new(
        data.len() / 2,
        |i: int|
            if big_endian {
                (data[2 * i] * 0x100 + data[2 * i + 1]) as u16
            } else {
                (data[2 * i + 1] * 0x100 + data[2 * i]) as u16
            },
    )
}

/// The text in some bytes, from the standard library's `str::from_utf8`: there
/// is one just where the bytes are UTF-8, and it is the text they encode.
#[verifier::external_body]
pub(crate) fn utf8_text(data: &[u8]) -> (result: Option<&str>)
    ensures
        result is Some <==> vstd::utf8::valid_utf8(data@),
        result is Some ==> result->Some_0@ == vstd::utf8::decode_utf8(data@),
{
    std::str::from_utf8(data).ok()
}

/// The character with a code, from the standard library's `char::from_u32`:
/// there is one for every code up to 0x10ffff but the surrogates.
#[verifier::external_body]
pub(crate) fn char_of_code(code: u32) -> (result: Option<char>)
    ensures
        result is Some <==> vstd::utf8::is_scalar(code),
        result is Some ==> result->Some_0 as u32 == code,
{
    char::from_u32(code)
}

/// The standard library's `String::push` puts a character behind a text.
pub assume_specification[ String::push ](text: &mut String, character: char)
    ensures
        final(text)@ == old(text)@.push(character),
;

pub proof fn lemma_char_width(character: char)
    ensures
        vstd::utf8::encode_scalar(character as u32).len() == char_width(character),
{
    vstd::utf8::char_is_scalar(character);
}

/// The length of two texts behind each other is the sum of their lengths.
pub proof fn lemma_byte_len_joined(first: Seq<char>, second: Seq<char>)
    ensures
        byte_len(first + second) == byte_len(first) + byte_len(second),
    decreases first.len(),
{
    if first.len() == 0 {
        assert(first + second =~= second);
    } else {
        assert((first + second).drop_first() =~= first.drop_first() + second);
        lemma_byte_len_joined(first.drop_first(), second);
    }
}

pub proof fn lemma_byte_len_pushed(text: Seq<char>, character: char)
    ensures
        byte_len(text.push(character)) == byte_len(text) + char_width(character),
{
    assert(text.push(character) =~= text + seq![character]);
    lemma_byte_len_joined(text, seq![character]);
    lemma_char_width(character);
    assert(seq![character].drop_first() =~= Seq::<char>::empty());
    assert(vstd::utf8::encode_utf8(Seq::<char>::empty()).len() == 0);
}

/// Trimming does not make a text longer.
pub proof fn lemma_trimmed_fits(text: Seq<char>)
    ensures
        byte_len(trimmed(text)) <= byte_len(text),
    decreases text.len(),
{
    if text.len() == 0 {
    } else if is_trimmable(text.first()) {
        lemma_trimmed_fits(text.drop_first());
    } else if is_trimmable(text.last()) {
        lemma_trimmed_fits(text.drop_last());
        assert(text =~= text.drop_last().push(text.last()));
        lemma_byte_len_pushed(text.drop_last(), text.last());
    }
}

/// Every code unit stands for three bytes of UTF-8 at most.
pub proof fn lemma_utf16_text_fits(units: Seq<u16>)
    ensures
        utf16_text(units) matches Some(text) ==> byte_len(text) <= 3 * units.len(),
    decreases units.len(),
{
    if units.len() > 0 && utf16_text(units) is Some {
        if !(0xd800 <= units[0] <= 0xdfff) {
            lemma_utf16_text_fits(units.skip(1));
            let rest = utf16_text(units.skip(1))->Some_0;
            let character = units[0] as char;
            lemma_byte_len_joined(seq![character], rest);
            lemma_byte_len_pushed(seq![], character);
            assert(Seq::<char>::empty().push(character) =~= seq![character]);
            assert(vstd::utf8::encode_utf8(Seq::<char>::empty()).len() == 0);
        } else {
            lemma_utf16_text_fits(units.skip(2));
            let rest = utf16_text(units.skip(2))->Some_0;
            let character = (0x1_0000 + (units[0] - 0xd800) * 0x400 + (units[1]
                - 0xdc00)) as char;
            lemma_byte_len_joined(seq![character], rest);
            lemma_byte_len_pushed(seq![], character);
            assert(Seq::<char>::empty().push(character) =~= seq![character]);
            assert(vstd::utf8::encode_utf8(Seq::<char>::empty()).len() == 0);
        }
    }
}

/// The bytes that a character takes up in UTF-8.
pub fn utf8_width(character: char) -> (result: usize)
    ensures
        result == char_width(character),
{
    let code: u32 = character as u32;
    if code < 0x80 {
        1
    } else if code < 0x800 {
        2
    } else if code < 0x1_0000 {
        3
    } else {
        4
    }
}

/// The bytes that a text takes up.
pub fn text_len(text: &str) -> (result: usize)
    ensures
        result == byte_len(text@),
{
    text.as_bytes().len()
}

/// The bytes that some characters take up in UTF-8.
pub fn chars_len(text: &[char]) -> (result: u128)
    ensures
        result == byte_len(text@),
        result <= 4 * text@.len(),
{
    let mut total: u128 = 0;
    let mut index: usize = 0;
    assert(text@.take(0) =~= Seq::<char>::empty());
    assert(vstd::utf8::encode_utf8(Seq::<char>::empty()).len() == 0);
    while index < text.len()
        invariant
            index <= text.len(),
            total == byte_len(text@.take(index as int)),
            total <= 4 * index,
        decreases text.len() - index,
    {
        proof {
            assert(text@.take(index + 1) =~= text@.take(index as int).push(text@[index as int]));
            lemma_byte_len_pushed(text@.take(index as int), text@[index as int]);
        }
        total += utf8_width(text[index]) as u128;
        index += 1;
    }
    assert(text@.take(text@.len() as int) =~= text@);
    total
}

/// Whether a character has the White_Space property of Unicode.
pub fn is_whitespace_char(character: char) -> (result: bool)
    ensures
        result == is_whitespace(character),
{
    let code: u32 = character as u32;
    (0x09 <= code && code <= 0x0d) || code == 0x20 || code == 0x85 || code == 0xa0 || code == 0x1680
        || (0x2000 <= code && code <= 0x200a) || code == 0x2028 || code == 0x2029 || code == 0x202f
        || code == 0x205f || code == 0x3000
}

/// Whether a character is cut off at the ends of a text.
pub fn is_trim_character(character: char) -> (result: bool)
    ensures
        result == is_trimmable(character),
{
    character == '\0' || is_whitespace_char(character)
}

/// Where a text begins and ends once it is trimmed.
pub fn trimmed_range(text: &[char]) -> (result: (usize, usize))
    ensures
        result.0 <= result.1 <= text@.len(),
        text@.subrange(result.0 as int, result.1 as int) == trimmed(text@),
{
    let mut start: usize = 0;
    assert(text@.subrange(0, text@.len() as int) =~= text@);
    while start < text.len() && is_trim_character(text[start])
        invariant
            start <= text.len(),
            trimmed(text@.subrange(start as int, text@.len() as int)) == trimmed(text@),
        decreases text.len() - start,
    {
        assert(text@.subrange(start as int, text@.len() as int).drop_first() =~= text@.subrange(
            start + 1,
            text@.len() as int,
        ));
        start += 1;
    }
    let mut end: usize = text.len();
    while end > start && is_trim_character(text[end - 1])
        invariant
            start <= end <= text.len(),
            trimmed(text@.subrange(start as int, end as int)) == trimmed(text@),
            start < text.len() ==> !is_trimmable(text@[start as int]),
        decreases end,
    {
        assert(text@.subrange(start as int, end as int).drop_last() =~= text@.subrange(
            start as int,
            end - 1,
        ));
        end -= 1;
    }
    (start, end)
}

/// The characters of a text.
pub fn chars_of(text: &str) -> (result: Vec<char>)
    ensures
        result@ == text@,
{
    let mut chars: Vec<char> = Vec::new();
    for character in iter: text.chars()
        invariant
            iter.seq() == text@,
            chars@ == text@.take(iter.index() as int),
    {
        assert(text@.take(iter.index() + 1) =~= text@.take(iter.index() as int).push(
            text@[iter.index() as int],
        ));
        chars.push(character);
    }
    assert(text@.take(text@.len() as int) =~= text@);
    chars
}

/// The code unit that a slice of bytes holds at an index.
fn unit_at(data: &[u8], index: usize, big_endian: bool) -> (result: u16)
    requires
        index < data.len() / 2,
    ensures
        result == code_units(data@, big_endian)[index as int],
{
    let first: u16 = data[2 * index] as u16;
    let second: u16 = data[2 * index + 1] as u16;
    if big_endian {
        first * 0x100 + second
    } else {
        second * 0x100 + first
    }
}

/// Decodes UTF-16, unless a surrogate stands alone.
pub fn decode_utf16(data: &[u8], big_endian: bool) -> (result: Option<Vec<char>>)
    ensures
        match result {
            Some(chars) => utf16_text(code_units(data@, big_endian)) == Some(chars@),
            None => utf16_text(code_units(data@, big_endian)) is None,
        },
{
    let ghost units = code_units(data@, big_endian);
    let count: usize = data.len() / 2;
    let mut chars: Vec<char> = Vec::new();
    let mut index: usize = 0;
    assert(units.skip(0) =~= units);
    proof {
        let whole = utf16_text(units);
        if whole is Some {
            assert(seq![] + whole->Some_0 =~= whole->Some_0);
        }
    }
    while index < count
        invariant
            index <= count,
            count == data.len() / 2,
            units == code_units(data@, big_endian),
            utf16_text(units) == match utf16_text(units.skip(index as int)) {
                Some(rest) => Some(chars@ + rest),
                None => None,
            },
        decreases count - index,
    {
        let ghost here = units.skip(index as int);
        let unit: u16 = unit_at(data, index, big_endian);
        assert(here[0] == unit);
        let step: usize;
        let code: u32;
        if unit < 0xd800 || unit > 0xdfff {
            step = 1;
            code = unit as u32;
            assert(here.skip(1) =~= units.skip(index + 1));
        } else {
            if unit > 0xdbff || index + 1 >= count {
                return None;
            }
            let low: u16 = unit_at(data, index + 1, big_endian);
            assert(here[1] == low);
            if low < 0xdc00 || low > 0xdfff {
                return None;
            }
            step = 2;
            code = 0x1_0000 + (unit as u32 - 0xd800) * 0x400 + (low as u32 - 0xdc00);
            assert(here.skip(2) =~= units.skip(index + 2));
        }
        match char_of_code(code) {
            Some(character) => {
                proof {
                    vstd::utf8::char_u32_cast(character, code);
                    let rest = utf16_text(units.skip(index + step));
                    assert(utf16_text(here) == match rest {
                        Some(rest) => Some(seq![character] + rest),
                        None => None,
                    });
                    if rest is Some {
                        assert(chars@ + (seq![character] + rest->Some_0) =~= chars@.push(character)
                            + rest->Some_0);
                    }
                }
                chars.push(character);
            },
            None => {
                return None;
            },
        }
        index += step;
    }
    assert(units.skip(count as int) =~= Seq::<u16>::empty());
    assert(chars@ + Seq::<char>::empty() =~= chars@);
    Some(chars)
}

/// The white space of Unicode: that of ASCII, the two control and no-break
/// characters of Latin-1, and the spaces and separators of the other blocks.
pub proof fn lemma_white_space(character: char)
    ensures
        (character as u32) < 0x80 ==> (is_whitespace(character) <==> character == ' ' || character
            == '\t' || character == '\n' || character == '\r' || character as u32 == 0x0b
            || character as u32 == 0x0c),
        0x80 <= character as u32 && (character as u32) < 0x1000 ==> (is_whitespace(character)
            <==> character as u32 == 0x85 || character as u32 == 0xa0),
        0x1000 <= character as u32 ==> (is_whitespace(character) <==> character as u32 == 0x1680
            || 0x2000 <= character as u32 <= 0x200a || character as u32 == 0x2028 || character as u32
            == 0x2029 || character as u32 == 0x202f || character as u32 == 0x205f || character as u32
            == 0x3000),
        is_trimmable(character) <==> is_whitespace(character) || character as u32 == 0,
{
}

/// Whether a text is `left`, `kept` and `right` one behind another, and only
/// characters that are cut off stand in the first and the last part.
pub open spec fn is_cut(text: Seq<char>, left: Seq<char>, kept: Seq<char>, right: Seq<char>) -> bool {
    &&& text == left + kept + right
    &&& all_trimmable(left)
    &&& all_trimmable(right)
}

pub open spec fn all_trimmable(text: Seq<char>) -> bool {
    forall|i: int| 0 <= i < text.len() ==> is_trimmable(#[trigger] text[i])
}

/// Trimming cuts off just the characters at both ends that can be: what stays
/// neither starts nor ends with one, and what goes is nothing else.
pub proof fn lemma_trimmed_is_the_middle(text: Seq<char>)
    ensures
        exists|left: Seq<char>, right: Seq<char>| #[trigger]
            is_cut(text, left, trimmed(text), right),
        trimmed(text).len() > 0 ==> !is_trimmable(trimmed(text)[0]) && !is_trimmable(
            trimmed(text)[trimmed(text).len() - 1],
        ),
    decreases text.len(),
{
    let kept = trimmed(text);
    if text.len() == 0 {
        assert(is_cut(text, seq![], kept, seq![])) by {
            assert(Seq::<char>::empty() + kept + Seq::<char>::empty() =~= text);
        }
    } else if is_trimmable(text.first()) {
        let rest = text.drop_first();
        lemma_trimmed_is_the_middle(rest);
        let (left, right) = choose|left: Seq<char>, right: Seq<char>| #[trigger]
            is_cut(rest, left, trimmed(rest), right);
        let longer = seq![text[0]] + left;
        assert(is_cut(text, longer, kept, right)) by {
            assert(text =~= seq![text[0]] + rest);
            assert(longer + kept + right =~= seq![text[0]] + (left + kept + right));
            assert forall|i: int| 0 <= i < longer.len() implies is_trimmable(
                #[trigger] longer[i],
            ) by {
                if i > 0 {
                    assert(longer[i] == left[i - 1]);
                }
            }
        }
    } else if is_trimmable(text.last()) {
        let rest = text.drop_last();
        lemma_trimmed_is_the_middle(rest);
        let (left, right) = choose|left: Seq<char>, right: Seq<char>| #[trigger]
            is_cut(rest, left, trimmed(rest), right);
        let longer = right.push(text.last());
        assert(is_cut(text, left, kept, longer)) by {
            assert(text =~= rest.push(text.last()));
            assert(left + kept + longer =~= (left + kept + right).push(text.last()));
            assert forall|i: int| 0 <= i < longer.len() implies is_trimmable(
                #[trigger] longer[i],
            ) by {
                if i < right.len() {
                    assert(longer[i] == right[i]);
                }
            }
        }
    } else {
        assert(is_cut(text, seq![], kept, seq![])) by {
            assert(Seq::<char>::empty() + kept + Seq::<char>::empty() =~= text);
        }
    }
}

/// A text in UTF-16 code units: one for a character below 0x10000, and two
/// surrogates for any other.
pub open spec fn utf16_units(text: Seq<char>) -> Seq<u16>
    decreases text.len(),
{
    if text.len() == 0 {
        seq![]
    } else {
        let code = text[0] as u32;
        let units = if code < 0x1_0000 {
            seq![code as u16]
        } else {
            seq![
                (0xd800 + (code - 0x1_0000) / 0x400) as u16,
                (0xdc00 + (code - 0x1_0000) % 0x400) as u16,
            ]
        };
        units + utf16_units(text.drop_first())
    }
}

/// A text is read back from its UTF-16 code units.
pub proof fn lemma_utf16_reads_back(text: Seq<char>)
    ensures
        utf16_text(utf16_units(text)) == Some(text),
    decreases text.len(),
{
    if text.len() == 0 {
        assert(text =~= seq![]);
    } else {
        let rest = text.drop_first();
        let units = utf16_units(text);
        lemma_utf16_reads_back(rest);
        vstd::utf8::char_is_scalar(text[0]);
        let code = text[0] as u32;
        vstd::utf8::char_u32_cast(text[0], code);
        assert(text =~= seq![text[0]] + rest);
        if code < 0x1_0000 {
            assert(units.skip(1) =~= utf16_units(rest));
            assert(units[0] == code);
            assert(units[0] as char == text[0]);
        } else {
            assert(units.skip(2) =~= utf16_units(rest));
            assert(units[0] == 0xd800 + (code - 0x1_0000) / 0x400);
            assert(units[1] == 0xdc00 + (code - 0x1_0000) % 0x400);
            assert(0x1_0000 + (units[0] - 0xd800) * 0x400 + (units[1] - 0xdc00) == code);
            assert((0x1_0000 + (units[0] - 0xd800) * 0x400 + (units[1] - 0xdc00)) as char
                == text[0]);
        }
    }
}

/// A surrogate without its pair is no text.
pub proof fn lemma_lone_surrogates_are_no_text(units: Seq<u16>)
    requires
        units.len() > 0,
    ensures
        0xdc00 <= units[0] <= 0xdfff ==> utf16_text(units) is None,
        0xd800 <= units[0] <= 0xdbff && (units.len() == 1 || !(0xdc00 <= units[1] <= 0xdfff))
            ==> utf16_text(units) is None,
{
}

/// Code units in bytes of one of the two orders.
pub open spec fn unit_bytes(units: Seq<u16>, big_endian: bool) -> Seq<u8> {
    Seq::new(
        units.len() * 2,
        |i: int|
            if (i % 2 == 0) == big_endian {
                (units[i / 2] / 0x100) as u8
            } else {
                (units[i / 2] % 0x100) as u8
            },
    )
}

/// Code units are read back from their bytes in either order.
pub proof fn lemma_code_units_read_back(units: Seq<u16>, big_endian: bool)
    ensures
        code_units(unit_bytes(units, big_endian), big_endian) == units,
{
    let bytes = unit_bytes(units, big_endian);
    let read = code_units(bytes, big_endian);
    assert forall|i: int| 0 <= i < units.len() implies read[i] == units[i] by {
        assert(2 * i / 2 == i && (2 * i + 1) / 2 == i);
        let high = (units[i] / 0x100) as u8;
        let low = (units[i] % 0x100) as u8;
        assert(high == units[i] / 0x100);
        assert(low == units[i] % 0x100);
    }
    assert(read =~= units);
}

} // verus!
