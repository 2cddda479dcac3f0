//! Texts, headers and times.

use media_parser::http_headers::{
    add_missing, headers_equal, normalised, set_header, set_lowercase_headers,
};
use media_parser::strings::{
    decimal_text, equal_ignoring_case, is_text_up_to, join2, join3, lowercase, text_equal,
};
use media_parser::time::{Duration, Instant};
use media_parser::unicode::{
    chars_len, chars_of, decode_utf16, text_len, trimmed_range, utf8_width,
};

fn pairs(headers: &[(&str, &str)]) -> Vec<(String, String)> {
    headers
        .iter()
        .map(|(name, value)| (name.to_string(), value.to_string()))
        .collect()
}

#[test]
fn numbers_are_written_in_decimal() {
    assert_eq!(decimal_text(0), "0");
    assert_eq!(decimal_text(1_090), "1090");
    assert_eq!(decimal_text(u64::MAX), u64::MAX.to_string());
}

#[test]
fn texts_are_joined_and_compared() {
    assert_eq!(join2("a", "b"), "ab");
    assert_eq!(join3("a", "", "c"), "ac");
    assert!(text_equal("caf\u{e9}", "caf\u{e9}"));
    assert!(!text_equal("a", "ab"));
    assert_eq!(lowercase("X-Test \u{c9}"), "x-test \u{c9}");
    assert!(equal_ignoring_case("ENG", "eng"));
    assert!(!equal_ignoring_case("\u{c9}", "\u{e9}"));
    assert!(is_text_up_to("a", "ab"));
    assert!(is_text_up_to("ab", "ab"));
    assert!(!is_text_up_to("b", "ab"));
}

#[test]
fn characters_have_their_utf8_lengths() {
    for character in ['a', '\u{e9}', '\u{20ac}', '\u{1f600}'] {
        assert_eq!(utf8_width(character), character.len_utf8());
    }
    assert_eq!(text_len("a\u{20ac}"), 4);
    assert_eq!(chars_len(&['a', '\u{1f600}']), 5);
    assert_eq!(chars_of("a\u{e9}"), vec!['a', '\u{e9}']);
}

#[test]
fn texts_are_trimmed_of_white_space_and_zeros() {
    let text = chars_of("\0 \u{2003}a b\n\0");

    assert_eq!(trimmed_range(&text), (3, 6));
    assert_eq!(trimmed_range(&chars_of(" \n")).0, trimmed_range(&chars_of(" \n")).1);
}

#[test]
fn utf16_texts_are_decoded_in_both_byte_orders() {
    assert_eq!(
        decode_utf16(&[0, b'a', 0xd8, 0x3d, 0xde, 0x00], true),
        Some(vec!['a', '\u{1f600}'])
    );
    assert_eq!(
        decode_utf16(&[b'a', 0, 0x3d, 0xd8, 0x00, 0xde], false),
        Some(vec!['a', '\u{1f600}'])
    );
    assert_eq!(decode_utf16(&[0xd8, 0x3d], true), None);
}

#[test]
fn headers_are_set_once() {
    let mut headers = pairs(&[("a", "1"), ("b", "2")]);

    set_header(&mut headers, "a".to_string(), "3".to_string());
    set_header(&mut headers, "c".to_string(), "4".to_string());

    assert!(headers_equal(
        &normalised(&headers),
        &pairs(&[("a", "3"), ("b", "2"), ("c", "4")])
    ));
}

#[test]
fn header_names_are_set_in_lower_case() {
    let mut headers = Vec::new();

    set_lowercase_headers(&mut headers, pairs(&[("X-A", "1"), ("x-a", "2")]));

    assert_eq!(headers, pairs(&[("x-a", "2")]));
}

#[test]
fn missing_headers_are_added() {
    let mut headers = pairs(&[("X-A", "1")]);

    add_missing(&mut headers, &pairs(&[("x-a", "2"), ("x-b", "3")]));

    assert_eq!(headers, pairs(&[("X-A", "1"), ("x-b", "3")]));
}

#[test]
fn normalised_headers_do_not_depend_on_order_or_case() {
    let first = normalised(&pairs(&[("X-B", "2"), ("x-a", "1")]));
    let second = normalised(&pairs(&[("X-A", "1"), ("x-b", "2")]));

    assert!(headers_equal(&first, &second));
    assert_eq!(first, pairs(&[("x-a", "1"), ("x-b", "2")]));
    assert!(!headers_equal(&first, &pairs(&[("x-a", "1")])));
}

#[test]
fn times_have_seconds_and_nanoseconds() {
    let time = Duration::from_parts(3, 250_000_000).expect("nanoseconds are below a second");

    assert_eq!((time.as_secs(), time.subsec_nanos()), (3, 250_000_000));
    assert_eq!(time.as_nanos(), 3_250_000_000);
    assert_eq!(time, Duration::from_millis(3_250));
    assert_eq!(
        Duration::from_parts(0, 1_000_000_000),
        Some(Duration::from_secs(1))
    );
    assert_eq!(Duration::from_parts(u64::MAX, 1_000_000_000), None);
    assert!(Duration::zero().is_shorter_than(&time));
    assert!(!time.is_shorter_than(&time));
}

#[test]
fn times_are_written_in_words() {
    assert_eq!(Duration::from_millis(1_500).to_words(), "1.5s");
    assert_eq!(Duration::from_millis(250).to_words(), "250ms");
    assert_eq!(Duration::zero().to_words(), "0ns");
}

#[test]
fn points_in_time_are_ordered() {
    let now = Instant::from_nanos(5);
    let later = now
        .checked_add(Duration::from_nanos(1))
        .expect("point in time is near");

    assert_eq!(later, Instant::from_nanos(6));
    assert!(later.is_after(&now));
    assert!(!now.is_after(&now));
    assert_eq!(
        Instant::from_nanos(u128::MAX).checked_add(Duration::from_nanos(1)),
        None
    );
}
