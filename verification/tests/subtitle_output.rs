//! The texts that subtitle tracks are reported with.

use media_parser::mp4::subtitles::output::{decimal_string, track_properties};

#[test]
fn decimal_string_matches_the_standard_formatting() {
    for value in [0u64, 7, 10, 1_000, u64::MAX] {
        assert_eq!(decimal_string(value).unwrap(), value.to_string());
    }
}

#[test]
fn track_properties_reports_the_handler_and_both_counts() {
    let properties = track_properties(*b"sbtl", 42, 7).unwrap();
    let value = |name: &str| {
        properties
            .iter()
            .find(|(key, _)| key == name)
            .map(|(_, value)| value.as_str())
    };

    assert_eq!(properties.len(), 3);
    assert_eq!(value("handler_type"), Some("sbtl"));
    assert_eq!(value("sample_count"), Some("42"));
    assert_eq!(value("cue_count"), Some("7"));
}
