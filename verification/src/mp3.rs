//! What MP3 files are reported as.

use vstd::prelude::*;
use vstd::string::*;

use crate::errors::{unsupported_codec_error, MediaParserError};
use crate::strings::decimal_text;
use crate::time::Duration;
use crate::types::{AudioTrackMeta, BaseTrackMeta, Frame, TrackType};

verus! {

/// The channel mode of a frame with one channel.
pub const SINGLE_CHANNEL_MODE: u8 = 3;

/// The ticks per second that durations of MP3 tracks are counted in.
pub const MP3_TIMESCALE: u32 = 1000;

/// The first frame of an MP3 file.
#[derive(Debug)]
pub struct FirstFrame {
    pub offset: u64,
    pub bitrate_kbps: u32,
    pub version: String,
    pub layer: String,
    pub channel_mode: u8,
    pub sample_rate_hz: u32,
}

/// How long an MP3 file lasts and how that was found out.
#[derive(Debug)]
pub struct Mp3Duration {
    pub millis: u64,
    pub method: String,
}

/// The properties of an MP3 track.
pub open spec fn property_pairs(frame: FirstFrame, duration: Mp3Duration) -> Seq<
    (Seq<char>, Seq<char>),
> {
    seq![
        ("offset"@, crate::strings::decimal(frame.offset as int)),
        ("bitrate_kbps"@, crate::strings::decimal(frame.bitrate_kbps as int)),
        ("mpeg_version"@, frame.version@),
        ("mpeg_layer"@, frame.layer@),
        ("channel_mode"@, crate::strings::decimal(frame.channel_mode as int)),
        ("duration_method"@, duration.method@),
    ]
}

/// No two properties have the same name.
pub proof fn lemma_property_names_are_distinct(frame: FirstFrame, duration: Mp3Duration)
    ensures
        crate::http_headers::names_distinct(property_pairs(frame, duration)),
{
    reveal_strlit("offset");
    reveal_strlit("bitrate_kbps");
    reveal_strlit("mpeg_version");
    reveal_strlit("mpeg_layer");
    reveal_strlit("channel_mode");
    reveal_strlit("duration_method");
    let names = Seq::new(6, |i: int| property_pairs(frame, duration)[i].0);
    assert(names =~= seq![
        "offset"@,
        "bitrate_kbps"@,
        "mpeg_version"@,
        "mpeg_layer"@,
        "channel_mode"@,
        "duration_method"@,
    ]);
    assert(names[0].len() == 6 && names[3].len() == 10 && names[5].len() == 15);
    assert(names[1].len() == names[2].len() == names[4].len() == 12);
    assert(names[1][0] == 'b' && names[2][0] == 'm' && names[4][0] == 'c');
    assert forall|i: int, j: int| 0 <= i < j < 6 implies (#[trigger] property_pairs(
        frame,
        duration,
    )[i]).0 != (#[trigger] property_pairs(frame, duration)[j]).0 by {
        assert(names[i].len() != names[j].len() || names[i][0] != names[j][0]);
    }
}

/// Whether a track is the one of an MP3 file.
pub open spec fn is_mp3_track(track: TrackType, frame: FirstFrame, duration: Mp3Duration) -> bool {
    match track {
        TrackType::Audio(audio) => {
            &&& audio.base@ == (crate::types::BaseTrackView {
                id: 1,
                codec: "mp3"@,
                language: None,
                timescale: MP3_TIMESCALE,
                duration: duration.millis,
                properties: property_pairs(frame, duration),
            })
            &&& audio.channels == if frame.channel_mode == SINGLE_CHANNEL_MODE {
                1u16
            } else {
                2u16
            }
            &&& audio.sample_rate == frame.sample_rate_hz
        },
        _ => false,
    }
}

/// The track of an MP3 file has one channel just where its first frame is in
/// single-channel mode, and two in each of the other modes. It lasts as many
/// milliseconds as the file, and keeps the rate of the frame.
pub proof fn lemma_mp3_track_describes_its_frame(
    track: TrackType,
    frame: FirstFrame,
    duration: Mp3Duration,
    nanos: int,
)
    requires
        is_mp3_track(track, frame, duration),
    ensures
        track matches TrackType::Audio(audio) && {
            &&& audio.channels == 1 <==> frame.channel_mode == 3
            &&& audio.channels == 2 <==> frame.channel_mode != 3
            &&& audio.sample_rate == frame.sample_rate_hz
            &&& audio.base@.id == 1
            &&& audio.base@.codec == "mp3"@
            &&& audio.base@.language is None
            &&& nanos * audio.base@.timescale == audio.base@.duration * 1_000_000_000
                ==> nanos == duration.millis * 1_000_000
        },
{
}

/// The tracks of an MP3 file: one where a frame was found, else none.
pub fn tracks_of(found: Option<(FirstFrame, Mp3Duration)>) -> (result: Vec<TrackType>)
    ensures
        match found {
            Some((frame, duration)) => result@.len() == 1 && is_mp3_track(
                result@[0],
                frame,
                duration,
            ),
            None => result@.len() == 0,
        },
        forall|i: int|
            0 <= i < result@.len() ==> (#[trigger] result@[i] matches TrackType::Audio(audio)
                && crate::http_headers::names_distinct(audio.base@.properties)),
        found matches Some((frame, duration)) ==> result@.len() == 1 && (
        result@[0] matches TrackType::Audio(audio) && {
            &&& audio.channels == 1 <==> frame.channel_mode == 3
            &&& audio.channels == 2 <==> frame.channel_mode != 3
            &&& audio.sample_rate == frame.sample_rate_hz
            &&& audio.base.duration == duration.millis
            &&& audio.base.timescale == 1000
        }),
{
    let mut tracks: Vec<TrackType> = Vec::new();
    match found {
        Some((frame, duration)) => {
            let ghost expected = property_pairs(frame, duration);
            proof {
                lemma_property_names_are_distinct(frame, duration);
            }
            let channels: u16 = if frame.channel_mode == SINGLE_CHANNEL_MODE { 1 } else { 2 };
            let mut properties: Vec<(String, String)> = Vec::new();
            properties.push((String::from_str("offset"), decimal_text(frame.offset)));
            properties.push(
                (String::from_str("bitrate_kbps"), decimal_text(frame.bitrate_kbps as u64)),
            );
            properties.push((String::from_str("mpeg_version"), frame.version));
            properties.push((String::from_str("mpeg_layer"), frame.layer));
            properties.push(
                (String::from_str("channel_mode"), decimal_text(frame.channel_mode as u64)),
            );
            properties.push((String::from_str("duration_method"), duration.method));
            assert(crate::types::pair_views(properties@) =~= expected);
            tracks.push(
                TrackType::Audio(
                    AudioTrackMeta {
                        base: BaseTrackMeta {
                            id: 1,
                            codec: String::from_str("mp3"),
                            language: None,
                            timescale: MP3_TIMESCALE,
                            duration: duration.millis,
                            properties,
                        },
                        channels,
                        sample_rate: frame.sample_rate_hz,
                    },
                ),
            );
        },
        None => {},
    }
    tracks
}

/// The picture at a time of an MP3 file: there is never one.
pub fn read_frame(_track_id: u32, _timestamp: Duration) -> (result: Result<Frame, MediaParserError>)
    ensures
        result matches Err(error) && error@ == crate::errors::ErrorView::UnsupportedCodec(
            "MP3 does not contain video frames"@,
        ),
{
    Err(unsupported_codec_error("MP3 does not contain video frames"))
}

/// The pictures at some times of an MP3 file: none where none is wanted.
pub fn read_frames(track_id: u32, timestamps: &[Duration]) -> (result: Result<
    Vec<Frame>,
    MediaParserError,
>)
    ensures
        match result {
            Ok(frames) => timestamps@.len() == 0 && frames@.len() == 0,
            Err(error) => timestamps@.len() > 0 && error@
                == crate::errors::ErrorView::UnsupportedCodec(
                "MP3 does not contain video frames"@,
            ),
        },
{
    if timestamps.len() == 0 {
        return Ok(Vec::new());
    }
    match read_frame(track_id, timestamps[0]) {
        Ok(frame) => {
            let mut frames: Vec<Frame> = Vec::new();
            frames.push(frame);
            Ok(frames)
        },
        Err(error) => Err(error),
    }
}

/// The properties of an MP3 track say where its first frame stands, its rate, its
/// kind, its channel mode and how its duration was found out.
pub proof fn lemma_mp3_properties_describe_the_frame(frame: FirstFrame, duration: Mp3Duration)
    ensures
        ({
            let pairs = property_pairs(frame, duration);
            &&& pairs.len() == 6
            &&& pairs[0].0 == "offset"@
            &&& crate::strings::decimal_value(pairs[0].1) == frame.offset
            &&& pairs[1].0 == "bitrate_kbps"@
            &&& crate::strings::decimal_value(pairs[1].1) == frame.bitrate_kbps
            &&& pairs[2] == ("mpeg_version"@, frame.version@)
            &&& pairs[3] == ("mpeg_layer"@, frame.layer@)
            &&& pairs[4].0 == "channel_mode"@
            &&& crate::strings::decimal_value(pairs[4].1) == frame.channel_mode
            &&& pairs[5] == ("duration_method"@, duration.method@)
        }),
{
    crate::strings::lemma_decimal_reads_back(frame.offset as int);
    crate::strings::lemma_decimal_reads_back(frame.bitrate_kbps as int);
    crate::strings::lemma_decimal_reads_back(frame.channel_mode as int);
}

} // verus!
