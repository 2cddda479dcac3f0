//! Decoding the text of subtitle samples.

use media_parser::errors::MediaParserError;
use media_parser::mp4::subtitles::text::{
    decode_sample, decode_sample_with_limit, decode_sample_with_reservation_count,
    decode_supported_sample, DecodeSampleError, TextBuilder,
};

fn mp4_box(fourcc: &[u8; 4], payload: &[u8]) -> Vec<u8> {
    let size = 8_u32 + u32::try_from(payload.len()).unwrap();
    let mut data = Vec::new();
    data.extend_from_slice(&size.to_be_bytes());
    data.extend_from_slice(fourcc);
    data.extend_from_slice(payload);
    data
}

fn length_prefixed_text(text: &[u8], trailing: &[u8]) -> Vec<u8> {
    let mut data = Vec::new();
    data.extend_from_slice(&u16::try_from(text.len()).unwrap().to_be_bytes());
    data.extend_from_slice(text);
    data.extend_from_slice(trailing);
    data
}

fn assert_subtitle_error(result: Result<Option<String>, DecodeSampleError>) {
    assert!(matches!(
        result,
        Err(DecodeSampleError::Track(MediaParserError::SubtitleError(_)))
    ));
}

fn assert_fatal(result: Result<Option<String>, DecodeSampleError>) {
    let Err(DecodeSampleError::Fatal(error)) = result else {
        panic!("expected a fatal subtitle decode error");
    };
    assert!(matches!(error, MediaParserError::Other(_)));
}

#[test]
fn tx3g_decodes_strict_utf8() {
    assert_eq!(
        decode_sample("tx3g", &length_prefixed_text(" café ".as_bytes(), &[]),).unwrap(),
        Some("café".into())
    );
}

#[test]
fn tx3g_decodes_bom_utf16_big_endian() {
    let bytes = [0xfe, 0xff, 0x00, b' ', 0x00, b'O', 0x00, b'K', 0x00, b' '];
    assert_eq!(
        decode_sample("tx3g", &length_prefixed_text(&bytes, &[])).unwrap(),
        Some("OK".into())
    );
}

#[test]
fn tx3g_decodes_bom_utf16_little_endian() {
    let bytes = [0xff, 0xfe, b' ', 0x00, b'O', 0x00, b'K', 0x00, b' ', 0x00];
    assert_eq!(
        decode_sample("tx3g", &length_prefixed_text(&bytes, &[])).unwrap(),
        Some("OK".into())
    );
}

#[test]
fn tx3g_treats_a_utf16_bom_without_text_as_a_gap() {
    assert_eq!(
        decode_sample("tx3g", &length_prefixed_text(&[0xfe, 0xff], &[])).unwrap(),
        None
    );
    assert_eq!(
        decode_sample("tx3g", &length_prefixed_text(&[0xff, 0xfe], &[])).unwrap(),
        None
    );
}

#[test]
fn tx3g_decodes_a_utf16_supplementary_plane_character() {
    let bytes = [0xfe, 0xff, 0xd8, 0x3d, 0xde, 0x00];
    assert_eq!(
        decode_sample("tx3g", &length_prefixed_text(&bytes, &[])).unwrap(),
        Some("😀".into())
    );
}

#[test]
fn tx3g_rejects_isolated_or_unpaired_utf16_surrogates() {
    assert_subtitle_error(decode_sample(
        "tx3g",
        &length_prefixed_text(&[0xfe, 0xff, 0xdc, 0x00], &[]),
    ));
    assert_subtitle_error(decode_sample(
        "tx3g",
        &length_prefixed_text(&[0xfe, 0xff, 0xd8, 0x00], &[]),
    ));
    assert_subtitle_error(decode_sample(
        "tx3g",
        &length_prefixed_text(&[0xfe, 0xff, 0xd8, 0x00, 0x00, b'A'], &[]),
    ));
}

#[test]
fn tx3g_falls_back_to_bomless_utf16_big_endian() {
    let bytes = [0x00, 0x20, 0x00, 0xe9, 0x00, 0x20];
    assert_eq!(
        decode_sample("tx3g", &length_prefixed_text(&bytes, &[])).unwrap(),
        Some("é".into())
    );
}

#[test]
fn tx3g_requires_a_complete_declared_text_slice() {
    assert_subtitle_error(decode_sample("tx3g", &[]));
    assert_subtitle_error(decode_sample("tx3g", &[0]));
    assert_subtitle_error(decode_sample("tx3g", &[0, 3, b'a', b'b']));
}

#[test]
fn tx3g_ignores_trailing_style_records() {
    let data = length_prefixed_text(b"caption", &[0xff, 0xfe, 0xfd, 0xfc]);
    assert_eq!(
        decode_sample("tx3g", &data).unwrap(),
        Some("caption".into())
    );
}

#[test]
fn tx3g_rejects_invalid_utf8_and_utf16() {
    assert_subtitle_error(decode_sample("tx3g", &length_prefixed_text(&[0xff], &[])));
    assert_subtitle_error(decode_sample(
        "tx3g",
        &length_prefixed_text(&[0xd8, 0x00], &[]),
    ));
    assert_subtitle_error(decode_sample(
        "tx3g",
        &length_prefixed_text(&[0xfe, 0xff, 0x00], &[]),
    ));
}

#[test]
fn tx3g_empty_or_trimmed_empty_is_a_gap() {
    assert_eq!(decode_sample("tx3g", &[0, 0]).unwrap(), None);
    assert_eq!(
        decode_sample("tx3g", &length_prefixed_text(b" \t\r\n\0 ", &[])).unwrap(),
        None
    );
}

#[test]
fn wvtt_decodes_direct_payload() {
    assert_eq!(
        decode_sample("wvtt", &mp4_box(b"payl", b" hello ")).unwrap(),
        Some("hello".into())
    );
}

#[test]
fn wvtt_decodes_payload_nested_in_vttc() {
    let sample = mp4_box(b"vttc", &mp4_box(b"payl", b"nested"));
    assert_eq!(
        decode_sample("wvtt", &sample).unwrap(),
        Some("nested".into())
    );
}

#[test]
fn wvtt_joins_all_non_gap_payloads_in_source_order() {
    let mut children = mp4_box(b"payl", b"second");
    children.extend(mp4_box(b"iden", b"ignored"));
    children.extend(mp4_box(b"payl", b" third "));

    let mut sample = mp4_box(b"payl", b" first ");
    sample.extend(mp4_box(b"junk", b"ignored"));
    sample.extend(mp4_box(b"vttc", &children));
    sample.extend(mp4_box(b"payl", b"fourth"));

    assert_eq!(
        decode_sample("wvtt", &sample).unwrap(),
        Some("first\nsecond\nthird\nfourth".into())
    );
}

#[test]
fn wvtt_ignores_unknown_well_formed_boxes() {
    let nested_unknown = mp4_box(b"vttc", &mp4_box(b"sttg", b"line:0"));
    let mut sample = mp4_box(b"free", b"anything");
    sample.extend(nested_unknown);
    assert_eq!(decode_sample("wvtt", &sample).unwrap(), None);
}

#[test]
fn wvtt_rejects_malformed_top_level_box_framing() {
    let malformed = [
        vec![0, 0, 0, 12, b'p', b'a', b'y', b'l'],
        vec![0, 0, 0, 0, b'p', b'a', b'y', b'l'],
        vec![0, 0, 0, 4, b'p', b'a', b'y', b'l'],
        vec![
            0, 0, 0, 1, b'p', b'a', b'y', b'l', 0xff, 0xff, 0xff, 0xff, 0xff, 0xff, 0xff, 0xff,
        ],
    ];
    for data in malformed {
        assert_subtitle_error(decode_sample("wvtt", &data));
    }

    let mut trailing = mp4_box(b"payl", b"ok");
    trailing.extend_from_slice(&[1, 2, 3]);
    assert_subtitle_error(decode_sample("wvtt", &trailing));
}

#[test]
fn wvtt_rejects_malformed_nested_box_framing() {
    let sample = mp4_box(b"vttc", &[0, 0, 0, 0, b'p', b'a', b'y', b'l']);
    assert_subtitle_error(decode_sample("wvtt", &sample));

    let sample = mp4_box(b"vttc", &[1, 2, 3]);
    assert_subtitle_error(decode_sample("wvtt", &sample));
}

#[test]
fn wvtt_without_nonempty_payload_is_a_gap() {
    assert_eq!(decode_sample("wvtt", &[]).unwrap(), None);
    assert_eq!(decode_sample("wvtt", &mp4_box(b"vttc", &[])).unwrap(), None);
    assert_eq!(
        decode_sample("wvtt", &mp4_box(b"payl", b" \0\t ")).unwrap(),
        None
    );
}

#[test]
fn stpp_and_text_use_strict_deterministic_decoding_and_trimming() {
    assert_eq!(
        decode_sample("stpp", b" <p>cue</p>\0 ").unwrap(),
        Some("<p>cue</p>".into())
    );
    assert_eq!(
        decode_sample(
            "text",
            &length_prefixed_text(&[0xff, 0xfe, b'O', 0, b'K', 0], &[]),
        )
        .unwrap(),
        Some("OK".into())
    );
    assert_eq!(
        decode_sample("text", &length_prefixed_text(b" \n\0\t", &[])).unwrap(),
        None
    );
    assert_subtitle_error(decode_sample("stpp", &[0xff]));
}

#[test]
fn text_trims_multibyte_unicode_whitespace_at_both_boundaries() {
    assert_eq!(
        decode_sample(
            "text",
            &length_prefixed_text("\u{2003}é\u{3000}".as_bytes(), &[]),
        )
        .unwrap(),
        Some("é".into())
    );
}

#[test]
fn text_ignores_a_trailing_style_atom_with_non_utf8_bytes() {
    let style = mp4_box(b"styl", &[0x80]);
    let sample = length_prefixed_text(b"Fourteen bytes", &style);

    assert_eq!(
        decode_sample("text", &sample).unwrap(),
        Some("Fourteen bytes".into())
    );
}

#[test]
fn text_requires_a_complete_declared_text_slice() {
    assert_subtitle_error(decode_sample("text", &[0, 3, b'a', b'b']));
}

#[test]
fn unsupported_codec_is_a_track_local_error() {
    let Err(DecodeSampleError::Track(MediaParserError::UnsupportedCodec(codec))) =
        decode_sample("c608", b"caption")
    else {
        panic!("expected a track-local unsupported codec error");
    };
    assert_eq!(codec, "c608");
}

#[test]
fn unsupported_codec_capacity_refusal_is_fatal() {
    assert_fatal(decode_sample_with_limit("c608", b"caption", 3));
}

#[test]
fn capacity_refusal_is_fatal_for_utf8_utf16_and_wvtt_joining() {
    assert_fatal(decode_sample_with_limit(
        "text",
        &length_prefixed_text(b"valid", &[]),
        4,
    ));
    assert_fatal(decode_sample_with_limit(
        "text",
        &length_prefixed_text(&[0xfe, 0xff, 0x4f, 0x60], &[]),
        2,
    ));

    let mut sample = mp4_box(b"payl", b"ab");
    sample.extend(mp4_box(b"payl", b"cd"));
    assert_fatal(decode_sample_with_limit("wvtt", &sample, 4));
}

#[test]
fn wvtt_many_tiny_payloads_use_logarithmically_bounded_growth() {
    const PAYLOAD_COUNT: usize = 512;
    let mut sample = Vec::new();
    for _ in 0..PAYLOAD_COUNT {
        sample.extend(mp4_box(b"payl", b"x"));
    }

    let (output, reservation_count) =
        decode_sample_with_reservation_count("wvtt", &sample).unwrap();
    let output = output.unwrap();

    assert_eq!(output.len(), PAYLOAD_COUNT * 2 - 1);
    assert!(
        reservation_count <= 16,
        "{} fallible reservation calls for {PAYLOAD_COUNT} payloads",
        reservation_count
    );
}

#[test]
fn texts_with_room_ask_for_no_more() {
    let mut output = TextBuilder::with_room(3).expect("three bytes are granted");

    decode_supported_sample("stpp", b" abc ", &mut output).expect("text fits");

    assert_eq!((output.len(), output.reservation_count()), (3, 1));
    assert_eq!(output.finish().as_deref(), Some("abc"));
}

#[test]
fn texts_beyond_their_room_are_fatal() {
    let mut output = TextBuilder::with_room(2).expect("two bytes are granted");

    assert!(matches!(
        decode_supported_sample("stpp", b"abc", &mut output),
        Err(DecodeSampleError::Fatal(MediaParserError::Other(_)))
    ));
}
