//! Building texts.

use vstd::prelude::*;
use vstd::string::*;

use crate::unicode::chars_of;

verus! {

/// The decimal digit of a number below ten.
pub open spec fn digit(value: int) -> char {
    (48 + value) as char
}

/// A number in decimal notation, without leading zeros.
pub open spec fn decimal(value: int) -> Seq<char>
    decreases value,
{
    if value < 10 {
        seq![digit(value)]
    } else {
        decimal(value / 10).push(digit(value % 10))
    }
}

/// The text of one decimal digit.
fn digit_text(value: u64) -> (result: &'static str)
    requires
        value < 10,
    ensures
        result@ == seq![digit(value as int)],
{
    proof {
        reveal_strlit("0");
        reveal_strlit("1");
        reveal_strlit("2");
        reveal_strlit("3");
        reveal_strlit("4");
        reveal_strlit("5");
        reveal_strlit("6");
        reveal_strlit("7");
        reveal_strlit("8");
        reveal_strlit("9");
    }
    let result = match value {
        0 => "0",
        1 => "1",
        2 => "2",
        3 => "3",
        4 => "4",
        5 => "5",
        6 => "6",
        7 => "7",
        8 => "8",
        _ => "9",
    };
    assert(result@ =~= seq![digit(value as int)]);
    result
}

/// A number in decimal notation.
pub fn decimal_text(value: u64) -> (result: String)
    ensures
        result@ == decimal(value as int),
    decreases value,
{
    let mut text = if value < 10 { String::new() } else { decimal_text(value / 10) };
    text.append(digit_text(value % 10));
    assert(text@ =~= decimal(value as int));
    text
}

/// Two texts, one behind the other.
pub fn join2(first: &str, second: &str) -> (result: String)
    ensures
        result@ == first@ + second@,
{
    let mut text = String::from_str(first);
    text.append(second);
    text
}

/// Three texts, one behind the other.
pub fn join3(first: &str, second: &str, third: &str) -> (result: String)
    ensures
        result@ == first@ + second@ + third@,
{
    let mut text = join2(first, second);
    text.append(third);
    text
}

/// Whether two texts are equal.
pub fn text_equal(left: &str, right: &str) -> (result: bool)
    ensures
        result == (left@ == right@),
{
    let left_owned = String::from_str(left);
    let right_owned = String::from_str(right);
    left_owned == right_owned
}

/// A letter in lower case, if it is an ASCII letter in upper case.
pub open spec fn lower_char(character: char) -> char {
    if 'A' <= character <= 'Z' {
        (character as u32 + 32) as char
    } else {
        character
    }
}

/// A text with its ASCII letters in lower case.
pub open spec fn lower_text(text: Seq<char>) -> Seq<char> {
    Seq::new(text.len(), |i: int| lower_char(text[i]))
}

/// A letter in lower case, if it is an ASCII letter in upper case.
fn lowercase_char(character: char) -> (result: char)
    ensures
        result == lower_char(character),
{
    if 'A' <= character && character <= 'Z' {
        let code: u8 = character as u8;
        let lower: u8 = code + 32;
        lower as char
    } else {
        character
    }
}

/// A text with its ASCII letters in lower case.
pub fn lowercase(text: &str) -> (result: String)
    ensures
        result@ == lower_text(text@),
{
    let chars = chars_of(text);
    let mut lower = String::new();
    let mut index: usize = 0;
    assert(lower@ =~= lower_text(text@).take(0));
    while index < chars.len()
        invariant
            chars@ == text@,
            index <= chars@.len(),
            lower@ == lower_text(text@).take(index as int),
        decreases chars@.len() - index,
    {
        lower.push(lowercase_char(chars[index]));
        index += 1;
        assert(lower@ =~= lower_text(text@).take(index as int));
    }
    assert(lower_text(text@).take(index as int) =~= lower_text(text@));
    lower
}

/// Whether two texts are equal but for the case of ASCII letters.
pub fn equal_ignoring_case(left: &str, right: &str) -> (result: bool)
    ensures
        result == (lower_text(left@) == lower_text(right@)),
{
    text_equal(lowercase(left).as_str(), lowercase(right).as_str())
}

/// Whether a text comes no later than another in the order of characters.
pub open spec fn text_up_to(left: Seq<char>, right: Seq<char>) -> bool
    decreases left.len(),
{
    if left.len() == 0 {
        true
    } else if right.len() == 0 {
        false
    } else if left[0] != right[0] {
        left[0] < right[0]
    } else {
        text_up_to(left.drop_first(), right.drop_first())
    }
}

pub proof fn lemma_text_order_total(left: Seq<char>, right: Seq<char>)
    ensures
        text_up_to(left, right) || text_up_to(right, left),
        text_up_to(left, right) && text_up_to(right, left) ==> left == right,
        text_up_to(left, left),
    decreases left.len(),
{
    if left.len() > 0 {
        lemma_text_order_total(left.drop_first(), left.drop_first());
        if right.len() > 0 {
            lemma_text_order_total(left.drop_first(), right.drop_first());
            if text_up_to(left, right) && text_up_to(right, left) {
                assert(left =~= seq![left[0]] + left.drop_first());
                assert(right =~= seq![right[0]] + right.drop_first());
            }
        }
    } else if right.len() == 0 {
        assert(left =~= right);
    }
}

pub proof fn lemma_text_order_transitive(first: Seq<char>, second: Seq<char>, third: Seq<char>)
    requires
        text_up_to(first, second),
        text_up_to(second, third),
    ensures
        text_up_to(first, third),
    decreases first.len(),
{
    if first.len() > 0 && second.len() > 0 && third.len() > 0 && first[0] == second[0] && second[0]
        == third[0] {
        lemma_text_order_transitive(first.drop_first(), second.drop_first(), third.drop_first());
    }
}

/// Whether a text comes no later than another in the order of characters.
pub fn is_text_up_to(left: &str, right: &str) -> (result: bool)
    ensures
        result == text_up_to(left@, right@),
{
    let left_chars = chars_of(left);
    let right_chars = chars_of(right);
    let mut index: usize = 0;
    assert(left@.skip(0) =~= left@);
    assert(right@.skip(0) =~= right@);
    while index < left_chars.len()
        invariant
            left_chars@ == left@,
            right_chars@ == right@,
            index <= left_chars@.len(),
            index <= right_chars@.len(),
            text_up_to(left@, right@) == text_up_to(
                left@.skip(index as int),
                right@.skip(index as int),
            ),
        decreases left_chars@.len() - index,
    {
        if index >= right_chars.len() {
            return false;
        }
        if left_chars[index] != right_chars[index] {
            return left_chars[index] < right_chars[index];
        }
        assert(left@.skip(index as int).drop_first() =~= left@.skip(index + 1));
        assert(right@.skip(index as int).drop_first() =~= right@.skip(index + 1));
        index += 1;
    }
    true
}

/// The number that a text of decimal digits stands for.
pub open spec fn decimal_value(text: Seq<char>) -> int
    decreases text.len(),
{
    if text.len() == 0 {
        0
    } else {
        decimal_value(text.drop_last()) * 10 + (text.last() as u32 - '0' as u32)
    }
}

/// A number in decimal notation stands for itself. It consists of digits, and
/// does not start with a zero unless it is zero.
pub proof fn lemma_decimal_reads_back(value: int)
    requires
        value >= 0,
    ensures
        decimal(value).len() > 0,
        decimal_value(decimal(value)) == value,
        forall|i: int| 0 <= i < decimal(value).len() ==> '0' <= #[trigger] decimal(value)[i] <= '9',
        decimal(value)[0] == '0' ==> value == 0,
    decreases value,
{
    let text = decimal(value);
    if value < 10 {
        assert(text.drop_last() =~= seq![]);
        assert(decimal_value(text.drop_last()) == 0);
    } else {
        lemma_decimal_reads_back(value / 10);
        assert(text.drop_last() =~= decimal(value / 10));
    }
}

/// Only the letters A to Z change in lower case, each to the small letter of the
/// same place in the alphabet; what is in lower case stays as it is.
pub proof fn lemma_lower_case(text: Seq<char>, i: int)
    requires
        0 <= i < text.len(),
    ensures
        lower_text(text).len() == text.len(),
        'A' <= text[i] <= 'Z' ==> lower_text(text)[i] as u32 - 'a' as u32 == text[i] as u32
            - 'A' as u32,
        !('A' <= text[i] <= 'Z') ==> lower_text(text)[i] == text[i],
        lower_text(lower_text(text)) == lower_text(text),
{
    assert(lower_text(lower_text(text)) =~= lower_text(text));
}

} // verus!
