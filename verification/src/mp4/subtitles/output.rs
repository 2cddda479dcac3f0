//! The texts that a subtitle track is reported with.
//!
//! Every text is built in memory that is asked for first: a malformed file
//! must not bring the process down by asking for a text that the allocator
//! cannot serve.

use vstd::prelude::*;
use vstd::string::*;

use crate::bytes::{bytes_equal, fourcc};
use crate::errors::{other_error, MediaParserError};
use crate::memory::{try_reserve_exact, try_reserve_text};
use crate::unicode::text_len;

verus! {

/// The digits of the largest number that is written out.
const MAX_DECIMAL_DIGITS: usize = 20;

/// Whether an error is the one for a text that the allocator refused.
pub open spec fn reports_no_room(error: MediaParserError) -> bool {
    error@ == crate::errors::ErrorView::Other("MP4 subtitle output allocation failed"@)
}

/// Whether an error is the one for properties that the allocator refused.
pub open spec fn reports_no_properties(error: MediaParserError) -> bool {
    error@ == crate::errors::ErrorView::Other("MP4 subtitle property allocation failed"@)
}

/// The handlers of subtitle tracks.
pub open spec fn is_subtitle_handler(handler: Seq<u8>) -> bool {
    ||| handler == crate::bytes::code('s', 'b', 't', 'l')
    ||| handler == crate::bytes::code('s', 'u', 'b', 't')
    ||| handler == crate::bytes::code('t', 'e', 'x', 't')
    ||| handler == crate::bytes::code('c', 'l', 'c', 'p')
}

/// The name of a handler.
pub open spec fn handler_text(handler: Seq<u8>) -> Seq<char> {
    if handler == crate::bytes::code('s', 'b', 't', 'l') {
        "sbtl"@
    } else if handler == crate::bytes::code('s', 'u', 'b', 't') {
        "subt"@
    } else if handler == crate::bytes::code('t', 'e', 'x', 't') {
        "text"@
    } else {
        "clcp"@
    }
}

/// The properties of a subtitle track, each as its name and its value.
pub open spec fn property_pairs(handler: Seq<u8>, sample_count: int, cue_count: int) -> Seq<
    (Seq<char>, Seq<char>),
> {
    seq![
        ("handler_type"@, handler_text(handler)),
        ("sample_count"@, crate::strings::decimal(sample_count)),
        ("cue_count"@, crate::strings::decimal(cue_count)),
    ]
}

/// Copies a text into memory that is asked for first.
pub fn output_string(value: &str) -> (result: Result<String, MediaParserError>)
    ensures
        match result {
            Ok(text) => text@ == value@,
            Err(error) => value@.len() > 0 && reports_no_room(error),
        },
{
    assert(vstd::utf8::encode_utf8(Seq::<char>::empty()).len() == 0);
    assert(value@.len() == 0 ==> value@ =~= Seq::<char>::empty());
    let mut output = String::new();
    if !try_reserve_text(&mut output, text_len(value)) {
        return Err(other_error("MP4 subtitle output allocation failed"));
    }
    output.append(value);
    assert(output@ =~= value@);
    Ok(output)
}

/// Puts a number in decimal notation behind a text.
fn append_decimal(text: &mut String, value: u64)
    ensures
        final(text)@ == old(text)@ + crate::strings::decimal(value as int),
    decreases value,
{
    if value >= 10 {
        append_decimal(text, value / 10);
    }
    let digit: u8 = 48 + (value % 10) as u8;
    text.push(digit as char);
    assert(text@ =~= old(text)@ + crate::strings::decimal(value as int));
}

/// A number in decimal notation, in memory that is asked for first.
pub fn decimal_string(value: u64) -> (result: Result<String, MediaParserError>)
    ensures
        match result {
            Ok(text) => text@ == crate::strings::decimal(value as int),
            Err(error) => reports_no_room(error),
        },
{
    let mut output = String::new();
    if !try_reserve_text(&mut output, MAX_DECIMAL_DIGITS) {
        return Err(other_error("MP4 subtitle output allocation failed"));
    }
    append_decimal(&mut output, value);
    assert(output@ =~= crate::strings::decimal(value as int));
    Ok(output)
}

/// Whether a handler is that of a subtitle track.
pub fn is_subtitle(handler: [u8; 4]) -> (result: bool)
    ensures
        result == is_subtitle_handler(handler@),
{
    bytes_equal(handler.as_slice(), fourcc('s', 'b', 't', 'l').as_slice()) || bytes_equal(
        handler.as_slice(),
        fourcc('s', 'u', 'b', 't').as_slice(),
    ) || bytes_equal(handler.as_slice(), fourcc('t', 'e', 'x', 't').as_slice()) || bytes_equal(
        handler.as_slice(),
        fourcc('c', 'l', 'c', 'p').as_slice(),
    )
}

/// The name of the handler of a subtitle track.
pub fn handler_name(handler: [u8; 4]) -> (result: &'static str)
    requires
        is_subtitle_handler(handler@),
    ensures
        result@ == handler_text(handler@),
{
    if bytes_equal(handler.as_slice(), fourcc('s', 'b', 't', 'l').as_slice()) {
        "sbtl"
    } else if bytes_equal(handler.as_slice(), fourcc('s', 'u', 'b', 't').as_slice()) {
        "subt"
    } else if bytes_equal(handler.as_slice(), fourcc('t', 'e', 'x', 't').as_slice()) {
        "text"
    } else {
        "clcp"
    }
}

/// No two properties have the same name.
pub proof fn lemma_property_names_are_distinct(handler: Seq<u8>, sample_count: int, cue_count: int)
    ensures
        crate::http_headers::names_distinct(property_pairs(handler, sample_count, cue_count)),
{
    reveal_strlit("handler_type");
    reveal_strlit("sample_count");
    reveal_strlit("cue_count");
    assert("handler_type"@[0] != "sample_count"@[0]);
}

/// The properties reported for one subtitle track.
pub fn track_properties(handler: [u8; 4], sample_count: u32, cue_count: usize) -> (result: Result<
    Vec<(String, String)>,
    MediaParserError,
>)
    requires
        is_subtitle_handler(handler@),
    ensures
        match result {
            Ok(properties) => {
                &&& crate::types::pair_views(properties@) == property_pairs(
                    handler@,
                    sample_count as int,
                    cue_count as int,
                )
                &&& crate::http_headers::names_distinct(crate::types::pair_views(properties@))
            },
            Err(error) => reports_no_room(error) || reports_no_properties(error),
        },
{
    let mut properties: Vec<(String, String)> = Vec::new();
    if !try_reserve_exact(&mut properties, 3) {
        return Err(other_error("MP4 subtitle property allocation failed"));
    }
    let handler_key = output_string("handler_type")?;
    let handler_value = output_string(handler_name(handler))?;
    let sample_key = output_string("sample_count")?;
    let sample_value = decimal_string(sample_count as u64)?;
    let cue_key = output_string("cue_count")?;
    let cue_value = decimal_string(cue_count as u64)?;
    proof {
        lemma_property_names_are_distinct(handler@, sample_count as int, cue_count as int);
    }
    properties.push((handler_key, handler_value));
    properties.push((sample_key, sample_value));
    properties.push((cue_key, cue_value));
    assert(crate::types::pair_views(properties@) =~= property_pairs(
        handler@,
        sample_count as int,
        cue_count as int,
    ));
    Ok(properties)
}

/// The reported handler of a subtitle track is spelled by its four bytes, and a
/// track of another handler is no subtitle track.
pub proof fn lemma_handlers_are_reported_by_their_bytes(handler: Seq<u8>, i: int)
    requires
        is_subtitle_handler(handler),
        0 <= i < 4,
    ensures
        handler.len() == 4,
        handler_text(handler).len() == 4,
        handler_text(handler)[i] as u8 == handler[i],
        !is_subtitle_handler(crate::bytes::code('v', 'i', 'd', 'e')),
        !is_subtitle_handler(crate::bytes::code('s', 'o', 'u', 'n')),
        is_subtitle_handler(crate::bytes::code('s', 'b', 't', 'l')),
        is_subtitle_handler(crate::bytes::code('s', 'u', 'b', 't')),
        is_subtitle_handler(crate::bytes::code('t', 'e', 'x', 't')),
        is_subtitle_handler(crate::bytes::code('c', 'l', 'c', 'p')),
{
    reveal_strlit("sbtl");
    reveal_strlit("subt");
    reveal_strlit("text");
    reveal_strlit("clcp");
    let video = crate::bytes::code('v', 'i', 'd', 'e');
    let sound = crate::bytes::code('s', 'o', 'u', 'n');
    let sbtl = crate::bytes::code('s', 'b', 't', 'l');
    let subt = crate::bytes::code('s', 'u', 'b', 't');
    let text = crate::bytes::code('t', 'e', 'x', 't');
    let clcp = crate::bytes::code('c', 'l', 'c', 'p');
    assert(video[0] == 'v' as u8 && sound[0] == 's' as u8 && sound[1] == 'o' as u8);
    assert(sbtl[0] == 's' as u8 && sbtl[1] == 'b' as u8 && subt[1] == 'u' as u8 && text[0]
        == 't' as u8 && clcp[0] == 'c' as u8);
    assert(sbtl[2] == 't' as u8 && sbtl[3] == 'l' as u8 && subt[2] == 'b' as u8 && subt[3]
        == 't' as u8);
    assert(text[1] == 'e' as u8 && text[2] == 'x' as u8 && text[3] == 't' as u8);
    assert(clcp[1] == 'l' as u8 && clcp[2] == 'c' as u8 && clcp[3] == 'p' as u8);
}

/// A subtitle track is reported with its handler, the number of its samples and
/// the number of its cues, in decimal.
pub proof fn lemma_properties_count_samples_and_cues(
    handler: Seq<u8>,
    sample_count: int,
    cue_count: int,
)
    requires
        sample_count >= 0,
        cue_count >= 0,
    ensures
        ({
            let pairs = property_pairs(handler, sample_count, cue_count);
            &&& pairs.len() == 3
            &&& pairs[0].0 == "handler_type"@
            &&& pairs[0].1 == handler_text(handler)
            &&& pairs[1].0 == "sample_count"@
            &&& crate::strings::decimal_value(pairs[1].1) == sample_count
            &&& pairs[2].0 == "cue_count"@
            &&& crate::strings::decimal_value(pairs[2].1) == cue_count
        }),
{
    crate::strings::lemma_decimal_reads_back(sample_count);
    crate::strings::lemma_decimal_reads_back(cue_count);
}

} // verus!
