//! What can go wrong.

use vstd::prelude::*;
use vstd::string::*;

use crate::strings::{decimal_text, join2};

verus! {

/// An error of the parser.
#[derive(Debug)]
pub enum MediaParserError {
    /// The bytes break the rules of their format.
    InvalidFormat(String),
    /// The media is coded in a way that cannot be decoded.
    UnsupportedCodec(String),
    /// A subtitle track cannot be read.
    SubtitleError(String),
    /// No track has this number.
    TrackNotFound(u32),
    /// A task off the main thread did not finish.
    BlockingTask(String),
    /// The source could not be read.
    Io(String),
    /// The server's answer was not usable.
    HttpRequest(String),
    /// Anything else, such as an exhausted budget.
    Other(String),
}

/// A parser error with its text.
pub enum ErrorView {
    InvalidFormat(Seq<char>),
    UnsupportedCodec(Seq<char>),
    SubtitleError(Seq<char>),
    TrackNotFound(u32),
    BlockingTask(Seq<char>),
    Io(Seq<char>),
    HttpRequest(Seq<char>),
    Other(Seq<char>),
}

impl View for MediaParserError {
    type V = ErrorView;

    open spec fn view(&self) -> ErrorView {
        match *self {
            MediaParserError::InvalidFormat(text) => ErrorView::InvalidFormat(text@),
            MediaParserError::UnsupportedCodec(text) => ErrorView::UnsupportedCodec(text@),
            MediaParserError::SubtitleError(text) => ErrorView::SubtitleError(text@),
            MediaParserError::TrackNotFound(id) => ErrorView::TrackNotFound(id),
            MediaParserError::BlockingTask(text) => ErrorView::BlockingTask(text@),
            MediaParserError::Io(text) => ErrorView::Io(text@),
            MediaParserError::HttpRequest(text) => ErrorView::HttpRequest(text@),
            MediaParserError::Other(text) => ErrorView::Other(text@),
        }
    }
}

pub fn invalid_format(text: &str) -> (result: MediaParserError)
    ensures
        result@ == ErrorView::InvalidFormat(text@),
{
    MediaParserError::InvalidFormat(String::from_str(text))
}

pub fn unsupported_codec_error(text: &str) -> (result: MediaParserError)
    ensures
        result@ == ErrorView::UnsupportedCodec(text@),
{
    MediaParserError::UnsupportedCodec(String::from_str(text))
}

pub fn subtitle_error(text: &str) -> (result: MediaParserError)
    ensures
        result@ == ErrorView::SubtitleError(text@),
{
    MediaParserError::SubtitleError(String::from_str(text))
}

pub fn other_error(text: &str) -> (result: MediaParserError)
    ensures
        result@ == ErrorView::Other(text@),
{
    MediaParserError::Other(String::from_str(text))
}

/// The words for an error.
pub open spec fn error_text(error: ErrorView) -> Seq<char> {
    match error {
        ErrorView::InvalidFormat(text) => "Invalid format: "@ + text,
        ErrorView::UnsupportedCodec(text) => "Unsupported codec: "@ + text,
        ErrorView::SubtitleError(text) => "Subtitle error: "@ + text,
        ErrorView::TrackNotFound(id) => "Track not found: "@ + crate::strings::decimal(id as int),
        ErrorView::BlockingTask(text) => "Blocking task failed: "@ + text,
        ErrorView::Io(text) => "I/O error: "@ + text,
        ErrorView::HttpRequest(text) => "HTTP request failed: "@ + text,
        ErrorView::Other(text) => "Other error: "@ + text,
    }
}

impl MediaParserError {
    /// The error in words.
    pub fn message(&self) -> (result: String)
        ensures
            result@ == error_text(self@),
    {
        match self {
            MediaParserError::InvalidFormat(text) => join2("Invalid format: ", text.as_str()),
            MediaParserError::UnsupportedCodec(text) => join2("Unsupported codec: ", text.as_str()),
            MediaParserError::SubtitleError(text) => join2("Subtitle error: ", text.as_str()),
            MediaParserError::TrackNotFound(id) => join2(
                "Track not found: ",
                decimal_text(*id as u64).as_str(),
            ),
            MediaParserError::BlockingTask(text) => join2("Blocking task failed: ", text.as_str()),
            MediaParserError::Io(text) => join2("I/O error: ", text.as_str()),
            MediaParserError::HttpRequest(text) => join2("HTTP request failed: ", text.as_str()),
            MediaParserError::Other(text) => join2("Other error: ", text.as_str()),
        }
    }
}

/// The words for an error say its kind and then what it was about, unchanged.
pub proof fn lemma_errors_say_what_they_are_about(text: Seq<char>, id: u32)
    ensures
        error_text(ErrorView::InvalidFormat(text)) == "Invalid format: "@ + text,
        error_text(ErrorView::UnsupportedCodec(text)) == "Unsupported codec: "@ + text,
        error_text(ErrorView::SubtitleError(text)) == "Subtitle error: "@ + text,
        error_text(ErrorView::BlockingTask(text)) == "Blocking task failed: "@ + text,
        error_text(ErrorView::Io(text)) == "I/O error: "@ + text,
        error_text(ErrorView::HttpRequest(text)) == "HTTP request failed: "@ + text,
        error_text(ErrorView::Other(text)) == "Other error: "@ + text,
        ({
            let words = error_text(ErrorView::TrackNotFound(id));
            let prefix = "Track not found: "@;
            &&& prefix.is_prefix_of(words)
            &&& crate::strings::decimal_value(words.skip(prefix.len() as int)) == id
        }),
{
    let number = crate::strings::decimal(id as int);
    let words = error_text(ErrorView::TrackNotFound(id));
    crate::strings::lemma_decimal_reads_back(id as int);
    assert(words.skip("Track not found: "@.len() as int) =~= number);
}

} // verus!
