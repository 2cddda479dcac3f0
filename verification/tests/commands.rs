//! What the commands work out apart from reading.

use media_parser::commands::{
    encode_thumbnail_envelope, remote_thumbnail_session_ttl, session_end_of, subtitle_selection,
    thumbnail_durations, thumbnail_session_expiration, thumbnail_session_key, CoverInfo,
    TrackInfo,
};
use media_parser::session_cache::{SessionCache, SessionKey};
use media_parser::source::LocalSourceVersion;
use media_parser::time::{Duration, Instant};
use media_parser::types::{
    AudioTrackMeta, BaseTrackMeta, CoverArt, Frame, PixelFormat, SubtitleTrackMeta, TrackType,
    TrackFilter, UnknownTrackMeta, VideoTrackMeta,
};

fn base_track(id: u32, codec: &str) -> BaseTrackMeta {
    BaseTrackMeta {
        id,
        codec: codec.to_string(),
        language: None,
        timescale: 1_000,
        duration: 2_000,
        properties: Vec::new(),
    }
}

fn pairs(headers: &[(&str, &str)]) -> Vec<(String, String)> {
    headers
        .iter()
        .map(|(name, value)| (name.to_string(), value.to_string()))
        .collect()
}

fn version(length: u64) -> Option<LocalSourceVersion> {
    Some(LocalSourceVersion {
        length,
        modified_nanos: Some(7),
    })
}

#[test]
fn cover_info_names_its_format() {
    let cover = CoverInfo::from(CoverArt {
        format: PixelFormat::Jpeg,
        mime_type: "image/jpeg".to_string(),
        data: vec![1, 2, 3],
    });

    assert_eq!(cover.format, "jpeg");
    assert_eq!(cover.mime_type, "image/jpeg");
    assert_eq!(cover.data, vec![1, 2, 3]);
}

#[test]
fn thumbnail_durations_use_milliseconds() {
    assert_eq!(
        thumbnail_durations(&[0, 250, 1_000]),
        vec![
            Duration::zero(),
            Duration::from_millis(250),
            Duration::from_secs(1),
        ]
    );
}

#[test]
fn commands_encodes_thumbnail_metadata_and_image_bytes_in_one_binary_envelope() {
    let frames = vec![
        Frame {
            track_id: 3,
            width: 320,
            height: 180,
            timestamp: Duration::from_millis(250),
            format: PixelFormat::Jpeg,
            data: vec![1, 2, 3],
            strides: None,
        },
        Frame {
            track_id: 3,
            width: 640,
            height: 360,
            timestamp: Duration::from_secs(1),
            format: PixelFormat::Png,
            data: vec![4, 5],
            strides: None,
        },
    ];

    let envelope = encode_thumbnail_envelope(frames).expect("envelope should encode");
    let header_len = u32::from_le_bytes(envelope[..4].try_into().unwrap()) as usize;
    let header_end = 4 + header_len;
    let header: serde_json::Value =
        serde_json::from_slice(&envelope[4..header_end]).expect("header should be JSON");
    let expected: serde_json::Value = serde_json::from_str(
        r#"[
            {
                "trackId": 3,
                "width": 320,
                "height": 180,
                "timestampSec": 0.25,
                "format": "jpeg",
                "mimeType": "image/jpeg",
                "offset": 0,
                "length": 3
            },
            {
                "trackId": 3,
                "width": 640,
                "height": 360,
                "timestampSec": 1.0,
                "format": "png",
                "mimeType": "image/png",
                "offset": 3,
                "length": 2
            }
        ]"#,
    )
    .expect("expected header is JSON");

    assert_eq!(header, expected);
    assert_eq!(&envelope[header_end..], &[1, 2, 3, 4, 5]);
}

#[test]
fn commands_session_cache_evicts_the_least_recently_used_entry() {
    let now = Instant::from_nanos(1);
    let mut cache = SessionCache::new(2);
    cache.insert("first".to_string(), 1, None);
    cache.insert("second".to_string(), 2, None);

    assert_eq!(cache.get(&"first".to_string(), now), Some(1));
    cache.insert("third".to_string(), 3, None);

    assert_eq!(cache.get(&"second".to_string(), now), None);
    assert_eq!(cache.get(&"first".to_string(), now), Some(1));
    assert_eq!(cache.get(&"third".to_string(), now), Some(3));
}

#[test]
fn commands_session_cache_drops_an_entry_at_its_expiration_deadline() {
    let now = Instant::from_nanos(1);
    let deadline = now
        .checked_add(Duration::from_secs(30))
        .expect("deadline is near");
    let mut cache = SessionCache::new(1);
    cache.insert("remote".to_string(), 1, Some(deadline));

    assert_eq!(cache.get(&"remote".to_string(), now), Some(1));
    assert_eq!(cache.get(&"remote".to_string(), deadline), None);
}

#[test]
fn thumbnail_session_key_normalizes_http_header_names_and_order() {
    let first_headers = pairs(&[("X-Test", "one"), ("Authorization", "Bearer token")]);
    let second_headers = pairs(&[("authorization", "Bearer token"), ("x-test", "one")]);

    let first = thumbnail_session_key(
        "https://example.com/video.mp4",
        Some(&first_headers),
        7,
        None,
    );
    let second = thumbnail_session_key(
        "https://example.com/video.mp4",
        Some(&second_headers),
        7,
        None,
    );

    assert!(first.is_same(&second));
}

#[test]
fn thumbnail_session_key_ignores_headers_for_local_sources() {
    let source = "/media/multitrack_video.mp4";
    let headers = pairs(&[("Authorization", "ignored")]);

    assert!(thumbnail_session_key(source, None, 1, version(5))
        .is_same(&thumbnail_session_key(source, Some(&headers), 1, version(5))));
}

#[test]
fn thumbnail_session_key_changes_when_a_local_file_changes() {
    let source = "/media/video.mp4";
    let first = thumbnail_session_key(source, None, 1, version(1));
    let second = thumbnail_session_key(source, None, 1, version(2));

    assert!(!first.is_same(&second));
}

#[test]
fn thumbnail_session_keys_of_two_tracks_differ() {
    let first = thumbnail_session_key("/media/video.mp4", None, 1, None);
    let second = thumbnail_session_key("/media/video.mp4", None, 2, None);

    assert!(!first.is_same(&second));
    assert!(first.is_same(&first.copy_key()));
}

#[test]
fn only_remote_thumbnail_sessions_receive_an_expiration_deadline() {
    let now = Instant::from_nanos(1);

    assert_eq!(
        thumbnail_session_expiration("https://example.com/video.mp4", now),
        now.checked_add(remote_thumbnail_session_ttl())
    );
    assert_eq!(thumbnail_session_expiration("/video.mp4", now), None);
}

#[test]
fn remote_sessions_end_after_five_minutes() {
    assert_eq!(remote_thumbnail_session_ttl(), Duration::from_secs(300));
    assert_eq!(
        session_end_of(true, Instant::from_nanos(1)),
        Some(Instant::from_nanos(300_000_000_001))
    );
    assert_eq!(session_end_of(true, Instant::from_nanos(u128::MAX)), None);
    assert_eq!(session_end_of(false, Instant::from_nanos(1)), None);
}

#[test]
fn track_info_reports_what_each_kind_has() {
    let tracks = [
        TrackType::Video(VideoTrackMeta {
            base: base_track(1, "avc1"),
            width: 1_920,
            height: 1_080,
        }),
        TrackType::Audio(AudioTrackMeta {
            base: base_track(2, "mp4a"),
            channels: 2,
            sample_rate: 48_000,
        }),
        TrackType::Subtitle(SubtitleTrackMeta {
            base: base_track(3, "tx3g"),
        }),
        TrackType::Unknown(UnknownTrackMeta {
            base: base_track(4, "meta"),
        }),
    ];
    let expected = [
        ("video", "avc1", Some(1_920), Some(1_080), None, None),
        ("audio", "mp4a", None, None, Some(2), Some(48_000)),
        ("subtitle", "tx3g", None, None, None, None),
        ("unknown", "meta", None, None, None, None),
    ];

    for (index, (track, expected)) in tracks.into_iter().zip(expected).enumerate() {
        let info = TrackInfo::from(track);
        assert_eq!(info.id, index as u32 + 1);
        assert_eq!(info.language, None);
        assert_eq!((info.timescale, info.duration), (1_000, 2_000));
        assert!(info.properties.is_empty());
        assert_eq!(
            (
                info.kind.as_str(),
                info.codec.as_str(),
                info.width,
                info.height,
                info.channels,
                info.sample_rate
            ),
            expected
        );
    }
}

#[test]
fn thumbnail_fields_are_written_in_their_declared_order() {
    let envelope = encode_thumbnail_envelope(vec![Frame {
        track_id: 3,
        width: 320,
        height: 180,
        timestamp: Duration::from_millis(250),
        format: PixelFormat::Jpeg,
        data: vec![1, 2, 3],
        strides: None,
    }])
    .expect("envelope should encode");

    let header = [
        "[{\"trackId\":3,\"width\":320,\"height\":180,\"timestampSec\":0.25,",
        "\"format\":\"jpeg\",\"mimeType\":\"image/jpeg\",\"offset\":0,\"length\":3}]",
    ]
    .concat();
    assert_eq!(envelope[..4], (header.len() as u32).to_le_bytes());
    assert_eq!(&envelope[4..4 + header.len()], header.as_bytes());
}

#[test]
fn subtitle_tracks_are_asked_for_by_number_before_language() {
    let language = || Some("en".to_string());

    assert!(matches!(subtitle_selection(Some(0), language()), (None, true)));
    assert!(matches!(
        subtitle_selection(Some(7), language()),
        (Some(TrackFilter::TrackId(7)), false)
    ));
    match subtitle_selection(None, language()) {
        (Some(TrackFilter::Language(language)), false) => assert_eq!(language, "en"),
        other => panic!("unexpected selection {other:?}"),
    }
    assert!(matches!(subtitle_selection(None, None), (None, false)));
}
