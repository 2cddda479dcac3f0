//! What the commands of the plugin make of requests and results.

use vstd::prelude::*;
use vstd::string::*;

use crate::envelope::{self, EnvelopeFault};
use crate::error::{custom_error, Error};
use crate::memory::try_reserve_exact;
use crate::session_cache::SessionKey;
use crate::source::{is_http_source, source_key, LocalSourceVersion, MediaSourceKey};
use crate::strings::join2;
use crate::time::{Duration, Instant};
use crate::types::{BaseTrackMeta, CoverArt, Frame, TrackFilter, TrackType};

verus! {

/// How many thumbnail sessions are kept.
pub const MAX_THUMBNAIL_SESSIONS: usize = 8;

/// How long a remote thumbnail session lasts, in seconds.
pub const REMOTE_THUMBNAIL_SESSION_SECONDS: u64 = 300;

/// How long a remote thumbnail session lasts.
pub fn remote_thumbnail_session_ttl() -> (result: Duration)
    ensures
        result@ == 300_000_000_000,
{
    Duration::from_secs(REMOTE_THUMBNAIL_SESSION_SECONDS)
}

// ---------------------------------------------------------------------------
// Sessions
// ---------------------------------------------------------------------------

/// What a thumbnail session is found by: its source and its track.
#[derive(Debug)]
pub struct ThumbnailSessionKey {
    pub source: MediaSourceKey,
    pub track_id: u32,
}

impl View for ThumbnailSessionKey {
    type V = (crate::source::SourceKeyView, u32);

    open spec fn view(&self) -> (crate::source::SourceKeyView, u32) {
        (self.source@, self.track_id)
    }
}

impl SessionKey for ThumbnailSessionKey {
    fn is_same(&self, other: &ThumbnailSessionKey) -> (result: bool) {
        self.track_id == other.track_id && self.source.is_same(&other.source)
    }

    fn copy_key(&self) -> (result: ThumbnailSessionKey) {
        ThumbnailSessionKey { source: self.source.copy_key(), track_id: self.track_id }
    }
}

/// The key of a thumbnail session. `local_version` is that of the file, for a
/// source that is one.
pub fn thumbnail_session_key(
    source: &str,
    headers: Option<&Vec<(String, String)>>,
    track_id: u32,
    local_version: Option<LocalSourceVersion>,
) -> (result: ThumbnailSessionKey)
    ensures
        result.track_id == track_id,
        crate::source::is_key_of(
            result.source@,
            source@,
            crate::source::is_http(crate::source::url_facts(source@)),
            match headers {
                Some(headers) => Some(crate::http_headers::views(headers@)),
                None => None,
            },
            local_version,
        ),
{
    ThumbnailSessionKey { source: source_key(source, headers, local_version), track_id }
}

/// When a thumbnail session that is made at `now` ends: a remote one a while
/// later, a local one never.
pub open spec fn session_end(remote: bool, now: int) -> Option<int> {
    if remote && now + 300_000_000_000 <= u128::MAX {
        Some(now + 300_000_000_000)
    } else {
        None
    }
}

pub open spec fn instant_view(instant: Option<Instant>) -> Option<int> {
    match instant {
        Some(instant) => Some(instant@),
        None => None,
    }
}

/// When a thumbnail session of a source that is remote or not ends.
pub fn session_end_of(remote: bool, now: Instant) -> (result: Option<Instant>)
    ensures
        instant_view(result) == session_end(remote, now@),
{
    if remote {
        now.checked_add(remote_thumbnail_session_ttl())
    } else {
        None
    }
}

/// When a thumbnail session that is made at `now` ends.
pub fn thumbnail_session_expiration(source: &str, now: Instant) -> (result: Option<Instant>)
    ensures
        instant_view(result) == session_end(
            crate::source::is_http(crate::source::url_facts(source@)),
            now@,
        ),
{
    session_end_of(is_http_source(source), now)
}

// ---------------------------------------------------------------------------
// Thumbnails
// ---------------------------------------------------------------------------

/// Times in milliseconds as spans of time.
pub fn thumbnail_durations(timestamps_ms: &[u64]) -> (result: Vec<Duration>)
    ensures
        result@.len() == timestamps_ms@.len(),
        forall|i: int|
            0 <= i < result@.len() ==> (#[trigger] result@[i])@ == timestamps_ms@[i] * 1_000_000,
{
    let mut durations: Vec<Duration> = Vec::new();
    let mut index: usize = 0;
    while index < timestamps_ms.len()
        invariant
            index <= timestamps_ms@.len(),
            durations@.len() == index,
            forall|i: int|
                0 <= i < index ==> (#[trigger] durations@[i])@ == timestamps_ms@[i] * 1_000_000,
        decreases timestamps_ms@.len() - index,
    {
        durations.push(Duration::from_millis(timestamps_ms[index]));
        index += 1;
    }
    durations
}

/// The numbers below `count`, in order.
pub open spec fn each_once(count: nat) -> Seq<usize> {
    Seq::new(count, |i: int| i as usize)
}

/// The words for a fault of an envelope of thumbnails.
pub open spec fn thumbnail_fault_text(fault: envelope::FaultView) -> Seq<char> {
    match fault {
        envelope::FaultView::Payload => "thumbnail payload is too large"@,
        envelope::FaultView::Header(text) => "could not encode thumbnails: "@ + text,
        envelope::FaultView::HeaderLength => "thumbnail header is too large"@,
        envelope::FaultView::Length => "thumbnail response is too large"@,
        other => envelope::fault_text(other),
    }
}

/// A fault of an envelope of thumbnails as an error.
fn thumbnail_fault(fault: EnvelopeFault) -> (result: Error)
    ensures
        result@ == crate::error::PluginErrorView::Custom(thumbnail_fault_text(fault@)),
{
    match fault {
        EnvelopeFault::Payload => custom_error("thumbnail payload is too large"),
        EnvelopeFault::Header(text) => Error::Custom(
            join2("could not encode thumbnails: ", text.as_str()),
        ),
        EnvelopeFault::HeaderLength => custom_error("thumbnail header is too large"),
        EnvelopeFault::Length => custom_error("thumbnail response is too large"),
        other => other.to_error(),
    }
}

/// Puts pictures into an envelope, with an entry for each.
pub fn encode_thumbnail_envelope(frames: Vec<Frame>) -> (result: Result<Vec<u8>, Error>)
    ensures
        ({
            let expected = envelope::thumbnail_envelope(
                frames@,
                each_once(frames@.len()),
                usize::MAX,
                envelope::FieldOrder::Declared,
            );
            match result {
                Ok(bytes) => expected == Ok::<Seq<u8>, envelope::FaultView>(bytes@),
                Err(error) => exists|fault: EnvelopeFault|
                    envelope::is_envelope(Err(fault), expected, frames@.len() > 0) && error@
                        == crate::error::PluginErrorView::Custom(
                        #[trigger] thumbnail_fault_text(fault@),
                    ),
            }
        }),
{
    let mut order: Vec<usize> = Vec::new();
    if !try_reserve_exact(&mut order, frames.len()) {
        return Err(thumbnail_fault(EnvelopeFault::Entries));
    }
    let mut index: usize = 0;
    while index < frames.len()
        invariant
            index <= frames@.len(),
            order@ == each_once(index as nat),
        decreases frames@.len() - index,
    {
        order.push(index);
        index += 1;
        assert(order@ =~= each_once(index as nat));
    }
    match envelope::encode_frames(
        frames.as_slice(),
        order.as_slice(),
        usize::MAX,
        envelope::FieldOrder::Declared,
    ) {
        Ok(bytes) => Ok(bytes),
        Err(fault) => Err(thumbnail_fault(fault)),
    }
}

// ---------------------------------------------------------------------------
// Subtitles
// ---------------------------------------------------------------------------

/// Which subtitle tracks a command asks for, and whether the first one of them
/// is enough. Track zero stands for the first track that can be read; a track is
/// asked for by its number before its language.
pub fn subtitle_selection(track_id: Option<u32>, language: Option<String>) -> (result: (
    Option<TrackFilter>,
    bool,
))
    ensures
        match (track_id, language) {
            (Some(0), _) => result == (None::<TrackFilter>, true),
            (Some(id), _) => result == (Some(TrackFilter::TrackId(id)), false),
            (None, Some(language)) => result == (Some(TrackFilter::Language(language)), false),
            (None, None) => result == (None::<TrackFilter>, false),
        },
{
    match (track_id, language) {
        (Some(0), _) => (None, true),
        (Some(id), _) => (Some(TrackFilter::TrackId(id)), false),
        (None, Some(language)) => (Some(TrackFilter::Language(language)), false),
        (None, None) => (None, false),
    }
}

// ---------------------------------------------------------------------------
// Reports
// ---------------------------------------------------------------------------

/// Artwork as it is handed to the frontend.
#[derive(Debug)]
pub struct CoverInfo {
    pub format: String,
    pub mime_type: String,
    pub data: Vec<u8>,
}

impl From<CoverArt> for CoverInfo {
    fn from(cover: CoverArt) -> (result: Self)
        ensures
            result.format@ == cover.format.label_text(),
            result.mime_type == cover.mime_type,
            result.data == cover.data,
    {
        CoverInfo {
            format: String::from_str(cover.format.label()),
            mime_type: cover.mime_type,
            data: cover.data,
        }
    }
}

impl vstd::std_specs::convert::FromSpecImpl<CoverArt> for CoverInfo {
    open spec fn obeys_from_spec() -> bool {
        false
    }

    open spec fn from_spec(cover: CoverArt) -> Self {
        arbitrary()
    }
}

/// A track as it is handed to the frontend.
#[derive(Debug)]
pub struct TrackInfo {
    pub kind: String,
    pub id: u32,
    pub codec: String,
    pub language: Option<String>,
    pub timescale: u32,
    pub duration: u64,
    pub properties: Vec<(String, String)>,
    pub width: Option<u32>,
    pub height: Option<u32>,
    pub channels: Option<u16>,
    pub sample_rate: Option<u32>,
}

/// What every kind of track is reported with.
pub open spec fn reports_base(info: TrackInfo, kind: Seq<char>, base: BaseTrackMeta) -> bool {
    &&& info.kind@ == kind
    &&& info.id == base.id
    &&& info.codec == base.codec
    &&& info.language == base.language
    &&& info.timescale == base.timescale
    &&& info.duration == base.duration
    &&& info.properties == base.properties
}

/// Whether a track is reported in full: a size only for a video track,
/// channels and a sample rate only for an audio track.
pub open spec fn reports_track(info: TrackInfo, track: TrackType) -> bool {
    match track {
        TrackType::Video(video) => {
            &&& reports_base(info, "video"@, video.base)
            &&& info.width == Some(video.width) && info.height == Some(video.height)
            &&& info.channels is None && info.sample_rate is None
        },
        TrackType::Audio(audio) => {
            &&& reports_base(info, "audio"@, audio.base)
            &&& info.width is None && info.height is None
            &&& info.channels == Some(audio.channels) && info.sample_rate == Some(
                audio.sample_rate,
            )
        },
        TrackType::Subtitle(subtitle) => {
            &&& reports_base(info, "subtitle"@, subtitle.base)
            &&& info.width is None && info.height is None
            &&& info.channels is None && info.sample_rate is None
        },
        TrackType::Unknown(unknown) => {
            &&& reports_base(info, "unknown"@, unknown.base)
            &&& info.width is None && info.height is None
            &&& info.channels is None && info.sample_rate is None
        },
    }
}

impl TrackInfo {
    /// A track of a kind without what only some kinds have.
    pub fn from_base(kind: &str, base: BaseTrackMeta) -> (result: Self)
        ensures
            reports_base(result, kind@, base),
            result.width is None,
            result.height is None,
            result.channels is None,
            result.sample_rate is None,
    {
        TrackInfo {
            kind: String::from_str(kind),
            id: base.id,
            codec: base.codec,
            language: base.language,
            timescale: base.timescale,
            duration: base.duration,
            properties: base.properties,
            width: None,
            height: None,
            channels: None,
            sample_rate: None,
        }
    }
}

impl From<TrackType> for TrackInfo {
    fn from(track: TrackType) -> (result: Self)
        ensures
            reports_track(result, track),
    {
        match track {
            TrackType::Video(video) => {
                let base = TrackInfo::from_base("video", video.base);
                TrackInfo { width: Some(video.width), height: Some(video.height), ..base }
            },
            TrackType::Audio(audio) => {
                let base = TrackInfo::from_base("audio", audio.base);
                TrackInfo {
                    channels: Some(audio.channels),
                    sample_rate: Some(audio.sample_rate),
                    ..base
                }
            },
            TrackType::Subtitle(subtitle) => TrackInfo::from_base("subtitle", subtitle.base),
            TrackType::Unknown(unknown) => TrackInfo::from_base("unknown", unknown.base),
        }
    }
}

impl vstd::std_specs::convert::FromSpecImpl<TrackType> for TrackInfo {
    open spec fn obeys_from_spec() -> bool {
        false
    }

    open spec fn from_spec(track: TrackType) -> Self {
        arbitrary()
    }
}

/// A remote thumbnail session ends five minutes after it was made; a local one
/// does not end by itself.
pub proof fn lemma_remote_sessions_end_after_five_minutes(now: int)
    requires
        0 <= now,
        now + 5 * 60 * 1_000_000_000 <= u128::MAX,
    ensures
        session_end(true, now) == Some(now + 5 * 60 * 1_000_000_000),
        session_end(false, now) is None,
{
}

/// The pictures of a request are listed once each, in their order.
pub proof fn lemma_each_picture_is_listed_once(count: nat, i: int)
    requires
        count <= usize::MAX,
        0 <= i < count,
    ensures
        each_once(count).len() == count,
        each_once(count)[i] == i,
{
}

/// A track is handed on with all that is known of it: what every track has, the
/// size of a video track, and the channels and the rate of an audio track.
pub proof fn lemma_report_says_what_the_track_says(info: TrackInfo, track: TrackType)
    requires
        reports_track(info, track),
    ensures
        match track {
            TrackType::Video(video) => {
                &&& info.kind@ == "video"@
                &&& info.width == Some(video.width)
                &&& info.height == Some(video.height)
                &&& info.channels is None
                &&& info.sample_rate is None
            },
            TrackType::Audio(audio) => {
                &&& info.kind@ == "audio"@
                &&& info.channels == Some(audio.channels)
                &&& info.sample_rate == Some(audio.sample_rate)
                &&& info.width is None
                &&& info.height is None
            },
            TrackType::Subtitle(_) => {
                &&& info.kind@ == "subtitle"@
                &&& info.width is None
                &&& info.channels is None
            },
            TrackType::Unknown(_) => {
                &&& info.kind@ == "unknown"@
                &&& info.width is None
                &&& info.channels is None
            },
        },
        ({
            let base = match track {
                TrackType::Video(video) => video.base,
                TrackType::Audio(audio) => audio.base,
                TrackType::Subtitle(subtitle) => subtitle.base,
                TrackType::Unknown(unknown) => unknown.base,
            };
            &&& info.id == base.id
            &&& info.codec@ == base.codec@
            &&& info.language == base.language
            &&& info.timescale == base.timescale
            &&& info.duration == base.duration
            &&& info.properties@ == base.properties@
        }),
{
}

} // verus!
