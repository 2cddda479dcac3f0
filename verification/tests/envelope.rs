//! Binary envelopes.

use media_parser::envelope::{
    cover_envelope, encode_thumbnail_envelope, frame_envelope, EnvelopeFault,
};
use media_parser::time::Duration;
use media_parser::types::{CoverArt, Frame, PixelFormat};

fn test_frames() -> Vec<Frame> {
    vec![
        Frame {
            track_id: 3,
            width: 320,
            height: 180,
            timestamp: Duration::from_millis(250),
            format: PixelFormat::Jpeg,
            data: vec![1, 2, 3],
            strides: None,
        },
        Frame {
            track_id: 3,
            width: 640,
            height: 360,
            timestamp: Duration::from_secs(1),
            format: PixelFormat::Png,
            data: vec![4, 5],
            strides: None,
        },
    ]
}

fn json(text: &str) -> serde_json::Value {
    serde_json::from_str(text).expect("expected value is JSON")
}

fn envelope_parts(envelope: &[u8]) -> (serde_json::Value, &[u8]) {
    let header_len = u32::from_le_bytes(envelope[..4].try_into().unwrap()) as usize;
    let header_end = 4 + header_len;
    let header = serde_json::from_slice(&envelope[4..header_end]).expect("header should be JSON");
    (header, &envelope[header_end..])
}

#[test]
fn encodes_cover_as_a_single_entry_binary_envelope() {
    let envelope = cover_envelope(Some(CoverArt {
        format: PixelFormat::Jpeg,
        mime_type: "image/jpeg".to_string(),
        data: vec![1, 2, 3],
    }))
    .expect("cover should encode");
    let (header, payload) = envelope_parts(&envelope);

    assert_eq!(
        header,
        json(r#"[{ "format": "jpeg", "mimeType": "image/jpeg", "offset": 0, "length": 3 }]"#)
    );
    assert_eq!(payload, &[1, 2, 3]);
}

#[test]
fn encodes_missing_cover_as_an_empty_envelope() {
    let envelope = cover_envelope(None).expect("empty cover should encode");
    let (header, payload) = envelope_parts(&envelope);

    assert_eq!(header, json("[]"));
    assert!(payload.is_empty());
}

#[test]
fn envelope_encodes_thumbnail_metadata_and_image_bytes_in_one_binary_envelope() {
    let envelope = encode_thumbnail_envelope(&test_frames(), &[0, 1], usize::MAX)
        .expect("envelope should encode");
    let (header, payload) = envelope_parts(&envelope);

    assert_eq!(
        header,
        json(
            r#"[
                {
                    "trackId": 3,
                    "width": 320,
                    "height": 180,
                    "timestampSec": 0.25,
                    "format": "jpeg",
                    "mimeType": "image/jpeg",
                    "offset": 0,
                    "length": 3
                },
                {
                    "trackId": 3,
                    "width": 640,
                    "height": 360,
                    "timestampSec": 1.0,
                    "format": "png",
                    "mimeType": "image/png",
                    "offset": 3,
                    "length": 2
                }
            ]"#
        )
    );
    assert_eq!(payload, &[1, 2, 3, 4, 5]);
}

#[test]
fn duplicate_thumbnail_timestamps_share_the_same_payload_bytes() {
    let envelope = encode_thumbnail_envelope(&test_frames(), &[0, 1, 0], usize::MAX)
        .expect("envelope should encode");
    let (header, payload) = envelope_parts(&envelope);

    let entries = header.as_array().expect("header should be an array");
    assert_eq!(entries.len(), 3);
    assert_eq!(entries[0]["offset"], entries[2]["offset"]);
    assert_eq!(entries[0]["length"], entries[2]["length"]);
    assert_eq!(entries[1]["offset"], json("3"));
    assert_eq!(payload, &[1, 2, 3, 4, 5]);
}

#[test]
fn thumbnail_envelope_rejects_payloads_beyond_the_output_cap() {
    let result = encode_thumbnail_envelope(&test_frames(), &[0, 1], 4);

    assert!(result.is_err());
}

#[test]
fn thumbnail_envelope_accepts_payloads_at_the_output_cap() {
    assert!(encode_thumbnail_envelope(&test_frames(), &[0, 1], 5).is_ok());
}

#[test]
fn times_keep_their_nanoseconds() {
    let mut frames = test_frames();
    frames[0].timestamp = Duration::from_nanos(1_500_000_001);

    let envelope =
        encode_thumbnail_envelope(&frames, &[0], usize::MAX).expect("envelope should encode");
    let (header, _) = envelope_parts(&envelope);

    assert_eq!(header[0]["timestampSec"].as_f64(), Some(1.500000001));
}

#[test]
fn envelopes_give_back_their_header_and_payloads() {
    let header = b"{}".to_vec();
    let payloads: Vec<&[u8]> = vec![&[1, 2], &[], &[3]];

    let envelope = frame_envelope(&header, &payloads).expect("parts are short");

    assert_eq!(envelope, vec![2, 0, 0, 0, b'{', b'}', 1, 2, 3]);
}

#[test]
fn envelope_faults_have_their_words() {
    for (fault, text) in [
        (EnvelopeFault::Entries, "too many thumbnail entries"),
        (EnvelopeFault::FramePayload, "thumbnail payload is too large"),
        (EnvelopeFault::FrameIndex, "thumbnail frame index out of range"),
        (EnvelopeFault::Payload, "envelope payload is too large"),
        (
            EnvelopeFault::Header("reason".to_string()),
            "could not encode envelope: reason",
        ),
        (EnvelopeFault::HeaderLength, "envelope header is too large"),
        (EnvelopeFault::Length, "envelope is too large"),
    ] {
        assert_eq!(fault.to_error().message(), text);
    }
}

#[test]
fn thumbnail_envelopes_report_missing_frames_and_large_payloads() {
    let missing = encode_thumbnail_envelope(&test_frames(), &[2], usize::MAX)
        .expect_err("there is no third frame");
    assert_eq!(missing.message(), "thumbnail frame index out of range");

    let large = encode_thumbnail_envelope(&test_frames(), &[0, 1], 4).expect_err("cap is small");
    assert_eq!(large.message(), "thumbnail payload is too large");
}

#[test]
fn entry_fields_are_written_by_name() {
    let envelope =
        encode_thumbnail_envelope(&test_frames()[..1], &[0], 100).expect("envelope should encode");
    let header = [
        "[{\"format\":\"jpeg\",\"height\":180,\"length\":3,\"mimeType\":\"image/jpeg\",",
        "\"offset\":0,\"timestampSec\":0.25,\"trackId\":3,\"width\":320}]",
    ]
    .concat();

    assert_eq!(envelope[..4], (header.len() as u32).to_le_bytes());
    assert_eq!(&envelope[4..4 + header.len()], header.as_bytes());
}
