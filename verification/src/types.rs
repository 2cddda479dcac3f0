//! What the parser hands out.

use vstd::prelude::*;

use crate::time::Duration;

verus! {

/// How the bytes of an image are coded.
#[derive(Debug, Clone, Copy, PartialEq, Eq, Structural)]
pub enum PixelFormat {
    Jpeg,
    Png,
}

impl PixelFormat {
    /// The short name of a format.
    pub open spec fn label_text(self) -> Seq<char> {
        match self {
            PixelFormat::Jpeg => "jpeg"@,
            PixelFormat::Png => "png"@,
        }
    }

    /// The MIME type of a format.
    pub open spec fn mime_text(self) -> Seq<char> {
        match self {
            PixelFormat::Jpeg => "image/jpeg"@,
            PixelFormat::Png => "image/png"@,
        }
    }

    pub fn label(&self) -> (result: &'static str)
        ensures
            result@ == self.label_text(),
    {
        match self {
            PixelFormat::Jpeg => "jpeg",
            PixelFormat::Png => "png",
        }
    }

    pub fn mime_type(&self) -> (result: &'static str)
        ensures
            result@ == self.mime_text(),
    {
        match self {
            PixelFormat::Jpeg => "image/jpeg",
            PixelFormat::Png => "image/png",
        }
    }
}

/// Artwork that is embedded in a file.
#[derive(Debug)]
pub struct CoverArt {
    pub format: PixelFormat,
    pub mime_type: String,
    pub data: Vec<u8>,
}

/// One picture of a video track.
#[derive(Debug)]
pub struct Frame {
    pub track_id: u32,
    pub width: u32,
    pub height: u32,
    pub timestamp: Duration,
    pub format: PixelFormat,
    pub data: Vec<u8>,
    pub strides: Option<Vec<usize>>,
}

/// What every track has. The properties are pairs of name and value; no name
/// stands in two of them.
#[derive(Debug)]
pub struct BaseTrackMeta {
    pub id: u32,
    pub codec: String,
    pub language: Option<String>,
    pub timescale: u32,
    pub duration: u64,
    pub properties: Vec<(String, String)>,
}

#[derive(Debug)]
pub struct VideoTrackMeta {
    pub base: BaseTrackMeta,
    pub width: u32,
    pub height: u32,
}

#[derive(Debug)]
pub struct AudioTrackMeta {
    pub base: BaseTrackMeta,
    pub channels: u16,
    pub sample_rate: u32,
}

#[derive(Debug)]
pub struct SubtitleTrackMeta {
    pub base: BaseTrackMeta,
}

#[derive(Debug)]
pub struct UnknownTrackMeta {
    pub base: BaseTrackMeta,
}

/// A track of a media file.
#[derive(Debug)]
pub enum TrackType {
    Video(VideoTrackMeta),
    Audio(AudioTrackMeta),
    Subtitle(SubtitleTrackMeta),
    Unknown(UnknownTrackMeta),
}

/// A text on display from one time to another.
#[derive(Debug)]
pub struct SubtitleCue {
    pub cue_id: u32,
    pub start_time: Duration,
    pub end_time: Duration,
    pub text: String,
}

/// A subtitle track with its texts.
#[derive(Debug)]
pub struct SubtitleTrack {
    pub base: BaseTrackMeta,
    pub cues: Vec<SubtitleCue>,
}

/// Which tracks are wanted.
#[derive(Debug)]
pub enum TrackFilter {
    /// The track with this number.
    TrackId(u32),
    /// The tracks in this language, in upper or lower case.
    Language(String),
}

/// A cue with its times in nanoseconds.
pub struct CueView {
    pub cue_id: u32,
    pub start: int,
    pub end: int,
    pub text: Seq<char>,
}

impl View for SubtitleCue {
    type V = CueView;

    open spec fn view(&self) -> CueView {
        CueView {
            cue_id: self.cue_id,
            start: self.start_time@,
            end: self.end_time@,
            text: self.text@,
        }
    }
}

pub open spec fn cue_views(cues: Seq<SubtitleCue>) -> Seq<CueView> {
    Seq::new(cues.len(), |i: int| cues[i]@)
}

/// An optional text by its characters.
pub open spec fn optional_text(text: Option<String>) -> Option<Seq<char>> {
    match text {
        Some(text) => Some(text@),
        None => None,
    }
}

/// Texts by their characters.
pub open spec fn text_views(texts: Seq<String>) -> Seq<Seq<char>> {
    Seq::new(texts.len(), |i: int| texts[i]@)
}

/// What every track has, with its texts by their characters.
pub struct BaseTrackView {
    pub id: u32,
    pub codec: Seq<char>,
    pub language: Option<Seq<char>>,
    pub timescale: u32,
    pub duration: u64,
    pub properties: Seq<(Seq<char>, Seq<char>)>,
}

impl View for BaseTrackMeta {
    type V = BaseTrackView;

    open spec fn view(&self) -> BaseTrackView {
        BaseTrackView {
            id: self.id,
            codec: self.codec@,
            language: optional_text(self.language),
            timescale: self.timescale,
            duration: self.duration,
            properties: pair_views(self.properties@),
        }
    }
}

pub struct SubtitleTrackView {
    pub base: BaseTrackView,
    pub cues: Seq<CueView>,
}

impl View for SubtitleTrack {
    type V = SubtitleTrackView;

    open spec fn view(&self) -> SubtitleTrackView {
        SubtitleTrackView { base: self.base@, cues: cue_views(self.cues@) }
    }
}

pub open spec fn subtitle_track_views(tracks: Seq<SubtitleTrack>) -> Seq<SubtitleTrackView> {
    Seq::new(tracks.len(), |i: int| tracks[i]@)
}

/// Which tracks are wanted, by number or by the characters of a language.
pub enum FilterView {
    TrackId(u32),
    Language(Seq<char>),
}

impl View for TrackFilter {
    type V = FilterView;

    open spec fn view(&self) -> FilterView {
        match *self {
            TrackFilter::TrackId(id) => FilterView::TrackId(id),
            TrackFilter::Language(language) => FilterView::Language(language@),
        }
    }
}

pub open spec fn filter_view(filter: Option<TrackFilter>) -> Option<FilterView> {
    match filter {
        Some(filter) => Some(filter@),
        None => None,
    }
}

/// A pair of texts by its characters.
pub open spec fn pair_view(pair: (String, String)) -> (Seq<char>, Seq<char>) {
    (pair.0@, pair.1@)
}

/// Pairs of texts by their characters.
pub open spec fn pair_views(pairs: Seq<(String, String)>) -> Seq<(Seq<char>, Seq<char>)> {
    Seq::new(pairs.len(), |i: int| pair_view(pairs[i]))
}

/// A format is reported by its own name, and its MIME type is that of images with
/// that name.
pub proof fn lemma_formats_have_their_names(format: PixelFormat)
    ensures
        format.mime_text() == "image/"@ + format.label_text(),
        format is Jpeg <==> format.label_text() == "jpeg"@,
        format is Png <==> format.label_text() == "png"@,
{
    reveal_strlit("image/");
    reveal_strlit("jpeg");
    reveal_strlit("png");
    reveal_strlit("image/jpeg");
    reveal_strlit("image/png");
    assert("jpeg"@.len() != "png"@.len());
    assert("image/jpeg"@ =~= "image/"@ + "jpeg"@);
    assert("image/png"@ =~= "image/"@ + "png"@);
}

} // verus!
