//! Telling formats apart, and MP3 tracks.

use media_parser::errors::MediaParserError;
use media_parser::mp3::{read_frame, read_frames, tracks_of, FirstFrame, Mp3Duration};
use media_parser::registry::{
    detect_format, detect_format_by_extension, get_format_info, is_supported, require_format,
    supported_formats, Format,
};
use media_parser::time::Duration;
use media_parser::types::TrackType;

fn first_frame(channel_mode: u8) -> FirstFrame {
    FirstFrame {
        offset: 128,
        bitrate_kbps: 192,
        version: "1".to_string(),
        layer: "3".to_string(),
        channel_mode,
        sample_rate_hz: 44_100,
    }
}

fn duration() -> Mp3Duration {
    Mp3Duration {
        millis: 1_500,
        method: "cbr".to_string(),
    }
}

#[test]
fn formats_are_told_by_their_first_bytes() {
    assert_eq!(detect_format(b"\0\0\0\x18ftypisom"), Some(Format::Mp4));
    assert_eq!(detect_format(b"ID3\x04"), Some(Format::Mp3));
    assert_eq!(detect_format(b"\0\0\0\x18fty"), None);
    assert_eq!(detect_format(b""), None);
}

#[test]
fn formats_are_told_by_their_extensions() {
    assert_eq!(detect_format_by_extension("MoV"), Some(Format::Mp4));
    assert_eq!(detect_format_by_extension("mp3"), Some(Format::Mp3));
    assert_eq!(detect_format_by_extension("mkv"), None);
    assert!(is_supported("M4A"));
    assert!(!is_supported("wav"));
}

#[test]
fn unknown_formats_are_invalid() {
    assert!(matches!(
        require_format(&[0; 32]),
        Err(MediaParserError::InvalidFormat(_))
    ));
    assert_eq!(require_format(b"ID3").expect("MP3 is known"), Format::Mp3);
}

#[test]
fn every_supported_format_is_described() {
    let formats = supported_formats();

    assert_eq!(formats.len(), 2);
    for format in &formats {
        for extension in &format.extensions {
            assert_eq!(
                get_format_info(extension).expect("extension is known").name,
                format.name
            );
        }
    }
    assert!(get_format_info("wav").is_none());
}

#[test]
fn mp3_files_have_one_audio_track() {
    let tracks = tracks_of(Some((first_frame(0), duration())));

    assert_eq!(tracks.len(), 1);
    let TrackType::Audio(audio) = &tracks[0] else {
        panic!("MP3 tracks are audio");
    };
    assert_eq!(audio.base.id, 1);
    assert_eq!(audio.base.codec, "mp3");
    assert_eq!((audio.base.timescale, audio.base.duration), (1_000, 1_500));
    assert_eq!((audio.channels, audio.sample_rate), (2, 44_100));
    let properties: Vec<(&str, &str)> = audio
        .base
        .properties
        .iter()
        .map(|pair| (pair.0.as_str(), pair.1.as_str()))
        .collect();
    assert_eq!(
        properties,
        vec![
            ("offset", "128"),
            ("bitrate_kbps", "192"),
            ("mpeg_version", "1"),
            ("mpeg_layer", "3"),
            ("channel_mode", "0"),
            ("duration_method", "cbr"),
        ]
    );
}

#[test]
fn single_channel_mp3_files_have_one_channel() {
    let tracks = tracks_of(Some((first_frame(3), duration())));

    assert!(matches!(&tracks[0], TrackType::Audio(audio) if audio.channels == 1));
}

#[test]
fn mp3_files_without_a_frame_have_no_track() {
    assert!(tracks_of(None).is_empty());
}

#[test]
fn mp3_files_have_no_pictures() {
    assert!(matches!(
        read_frame(1, Duration::zero()),
        Err(MediaParserError::UnsupportedCodec(_))
    ));
    assert!(matches!(
        read_frames(1, &[Duration::zero()]),
        Err(MediaParserError::UnsupportedCodec(_))
    ));
    assert!(matches!(read_frames(1, &[]), Ok(frames) if frames.is_empty()));
}
