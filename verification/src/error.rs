//! What a command of the plugin can fail with.

use vstd::prelude::*;
use vstd::string::*;

use crate::errors::MediaParserError;
use crate::strings::join2;

verus! {

/// An error of the plugin.
#[derive(Debug)]
pub enum Error {
    /// An error of the plugin's own, in words.
    Custom(String),
    /// An error of the parser.
    MediaParser(MediaParserError),
}

/// A plugin error with its text.
pub enum PluginErrorView {
    Custom(Seq<char>),
    MediaParser(crate::errors::ErrorView),
}

impl View for Error {
    type V = PluginErrorView;

    open spec fn view(&self) -> PluginErrorView {
        match *self {
            Error::Custom(text) => PluginErrorView::Custom(text@),
            Error::MediaParser(error) => PluginErrorView::MediaParser(error@),
        }
    }
}

/// The words for a plugin error.
pub open spec fn plugin_error_text(error: PluginErrorView) -> Seq<char> {
    match error {
        PluginErrorView::Custom(text) => text,
        PluginErrorView::MediaParser(error) => "Media parser error: "@ + crate::errors::error_text(
            error,
        ),
    }
}

pub fn custom_error(text: &str) -> (result: Error)
    ensures
        result@ == PluginErrorView::Custom(text@),
{
    Error::Custom(String::from_str(text))
}

impl Error {
    /// The error in words, as it is handed to the frontend.
    pub fn message(&self) -> (result: String)
        ensures
            result@ == plugin_error_text(self@),
    {
        match self {
            Error::Custom(text) => String::from_str(text.as_str()),
            Error::MediaParser(error) => join2("Media parser error: ", error.message().as_str()),
        }
    }
}

impl From<MediaParserError> for Error {
    fn from(error: MediaParserError) -> (result: Self) {
        Error::MediaParser(error)
    }
}

impl vstd::std_specs::convert::FromSpecImpl<MediaParserError> for Error {
    open spec fn obeys_from_spec() -> bool {
        true
    }

    open spec fn from_spec(error: MediaParserError) -> Self {
        Error::MediaParser(error)
    }
}

/// An error of the plugin's own is reported in its own words, and one of the
/// parser behind a note that it is.
pub proof fn lemma_plugin_errors_keep_their_words(text: Seq<char>, error: crate::errors::ErrorView)
    ensures
        plugin_error_text(PluginErrorView::Custom(text)) == text,
        plugin_error_text(PluginErrorView::MediaParser(error)) == "Media parser error: "@
            + crate::errors::error_text(error),
{
}

} // verus!
