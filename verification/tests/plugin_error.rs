//! Errors in words.

use media_parser::error::{custom_error, Error};
use media_parser::errors::MediaParserError;

#[test]
fn media_parser_resource_limit_serialization_preserves_reason_and_guidance() {
    let error = Error::MediaParser(MediaParserError::Other(
        "too many sample read batches; select by track ID or language, or request a narrower time range"
            .to_owned(),
    ));

    assert_eq!(
        error.message(),
        "Media parser error: Other error: too many sample read batches; select by track ID or language, or request a narrower time range"
    );
}

#[test]
fn custom_errors_keep_their_words() {
    assert_eq!(custom_error("no such file").message(), "no such file");
}

#[test]
fn parser_errors_are_told_apart() {
    for (error, text) in [
        (
            MediaParserError::InvalidFormat("a".to_owned()),
            "Invalid format: a",
        ),
        (
            MediaParserError::UnsupportedCodec("b".to_owned()),
            "Unsupported codec: b",
        ),
        (
            MediaParserError::SubtitleError("c".to_owned()),
            "Subtitle error: c",
        ),
        (MediaParserError::TrackNotFound(12), "Track not found: 12"),
        (
            MediaParserError::BlockingTask("d".to_owned()),
            "Blocking task failed: d",
        ),
        (MediaParserError::Io("e".to_owned()), "I/O error: e"),
        (
            MediaParserError::HttpRequest("f".to_owned()),
            "HTTP request failed: f",
        ),
    ] {
        assert_eq!(error.message(), text);
        assert_eq!(
            Error::from(error).message(),
            format!("Media parser error: {text}")
        );
    }
}
