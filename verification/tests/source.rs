//! Sources, their headers and their keys.

use std::collections::HashMap;

use media_parser::builder::Builder;
use media_parser::session_cache::{ExpirationPolicy, SessionKey};
use media_parser::source::{
    checked_origin, is_http_source, is_http_url, session_expiration, session_reaper_interval,
    source_key, DefaultHeaders, LocalSourceVersion, ParsedUrl, UrlOrigin,
};
use media_parser::time::Duration;

fn pairs(headers: &[(&str, &str)]) -> Vec<(String, String)> {
    headers
        .iter()
        .map(|(name, value)| (name.to_string(), value.to_string()))
        .collect()
}

fn as_map(headers: Option<Vec<(String, String)>>) -> Option<HashMap<String, String>> {
    headers.map(|headers| headers.into_iter().collect())
}

fn map(headers: &[(&str, &str)]) -> Option<HashMap<String, String>> {
    as_map(Some(pairs(headers)))
}

#[test]
fn per_call_headers_override_defaults_ignoring_case() {
    for (default_name, request_name) in [
        ("x-app-version", "X-App-Version"),
        ("X-App-Version", "x-app-version"),
    ] {
        let defaults = DefaultHeaders::new(
            pairs(&[(default_name, "1.0"), ("x-other", "keep")]),
            None,
        )
        .unwrap();
        let headers = Some(pairs(&[(request_name, "2.0")]));
        assert_eq!(
            as_map(defaults.merge("https://example.com/video.mp4", headers)),
            map(&[(request_name, "2.0"), ("x-other", "keep")]),
        );
    }
}

#[test]
fn default_headers_only_reach_normalized_allowed_origins() {
    let headers = pairs(&[("authorization", "Bearer test")]);
    let defaults = DefaultHeaders::new(
        headers.clone(),
        Some(vec!["https://API.EXAMPLE:443/path".into()]),
    )
    .unwrap();
    assert_eq!(
        defaults.merge("https://api.example/video.mp4", None),
        Some(headers)
    );
    for source in [
        "http://api.example/video.mp4",
        "https://api.example:444/video.mp4",
        "https://sub.api.example/video.mp4",
        "https://api.example.evil/video.mp4",
    ] {
        let per_call = Some(pairs(&[("x-call", "keep")]));
        assert_eq!(defaults.merge(source, per_call.clone()), per_call);
    }
}

#[test]
fn absent_origins_are_global_and_empty_origins_allow_none() {
    let headers = pairs(&[("user-agent", "app/1.0")]);
    let global = DefaultHeaders::new(headers.clone(), None).unwrap();
    let empty = DefaultHeaders::new(headers.clone(), Some(vec![])).unwrap();
    assert_eq!(
        global.merge("https://any.example/video.mp4", None),
        Some(headers.clone())
    );
    assert_eq!(empty.merge("https://any.example/video.mp4", None), None);
    for source in [
        "/tmp/video.mp4",
        "C:\\video.mp4",
        "file:///tmp/video.mp4",
        "https://",
    ] {
        assert_eq!(global.merge(source, Some(headers.clone())), None);
        assert_eq!(empty.merge(source, Some(headers.clone())), None);
    }
}

#[test]
fn invalid_default_header_origins_are_rejected() {
    for origin in [
        "not a URL",
        "file:///tmp/video.mp4",
        "ftp://api.example",
        "https://",
    ] {
        assert!(DefaultHeaders::new(Vec::new(), Some(vec![origin.into()])).is_err());
    }
}

#[test]
fn remote_source_key_normalizes_header_names_and_order() {
    let first_headers = pairs(&[("X-Test", "one"), ("Authorization", "Bearer token")]);
    let second_headers = pairs(&[("authorization", "Bearer token"), ("x-test", "one")]);

    let first = source_key("https://example.com/video.mp4", Some(&first_headers), None);
    let second = source_key("https://example.com/video.mp4", Some(&second_headers), None);

    assert!(first.is_same(&second));
    assert_eq!(
        first.headers,
        pairs(&[("authorization", "Bearer token"), ("x-test", "one")])
    );
}

#[test]
fn local_source_key_ignores_headers_and_changes_with_file_version() {
    let source = "/tmp/video.mp4";
    let version = |length| {
        Some(LocalSourceVersion {
            length,
            modified_nanos: None,
        })
    };
    let headers = pairs(&[("Authorization", "ignored")]);

    let first = source_key(source, None, version(1));
    let with_headers = source_key(source, Some(&headers), version(1));
    assert!(first.is_same(&with_headers));

    let changed = source_key(source, None, version(2));
    assert!(!first.is_same(&changed));
}

#[test]
fn missing_local_metadata_keeps_a_stable_key_without_a_version() {
    let first = source_key("/file/that/does/not/exist.mp4", None, None);
    let second = source_key("/file/that/does/not/exist.mp4", None, None);

    assert!(first.is_same(&second));
    assert!(first.local_version.is_none());
}

#[test]
fn local_sessions_slide_for_one_minute_and_remote_sessions_end_after_five() {
    let local = source_key("/file/that/does/not/exist.mp4", None, None);
    let remote = source_key("https://example.com/video.mp4", None, None);

    assert_eq!(
        session_expiration(&local),
        ExpirationPolicy::Sliding(Duration::from_secs(60))
    );
    assert_eq!(
        session_expiration(&remote),
        ExpirationPolicy::Absolute(Duration::from_secs(5 * 60))
    );
}

#[test]
fn shared_session_reaper_interval_is_one_second() {
    assert_eq!(session_reaper_interval(), Duration::from_secs(1));
}

#[test]
fn source_mode_recognizes_only_http_and_https_urls() {
    assert!(is_http_source("http://example.com/video.mp4"));
    assert!(is_http_source("https://example.com/video.mp4"));
    assert!(!is_http_source("file:///tmp/video.mp4"));
    assert!(!is_http_source("/tmp/video.mp4"));
}

#[test]
fn default_header_origins_accumulate_and_limit_where_defaults_are_sent() {
    let defaults = Builder::new()
        .user_agent("app/1.0".to_string())
        .default_headers_origins(Vec::new())
        .default_headers_origins(vec!["https://first.example".to_string()])
        .default_headers_origins(vec!["https://second.example".to_string()])
        .into_defaults()
        .unwrap();
    for source in ["https://first.example/file", "https://second.example/file"] {
        assert_eq!(
            defaults.merge(source, None),
            Some(pairs(&[("user-agent", "app/1.0")]))
        );
    }
    assert_eq!(defaults.merge("https://third.example/file", None), None);
}

#[test]
fn user_agent_overrides_default_header_in_either_setter_order() {
    for builder in [
        Builder::new()
            .user_agent("my-app/1.0".to_string())
            .default_headers(pairs(&[("User-Agent", "other/1.0")])),
        Builder::new()
            .default_headers(pairs(&[("User-Agent", "other/1.0")]))
            .user_agent("my-app/1.0".to_string()),
    ] {
        assert_eq!(
            builder.into_headers(),
            pairs(&[("user-agent", "my-app/1.0")])
        );
    }
}

#[test]
fn later_default_headers_replace_earlier_ones() {
    let headers = Builder::default()
        .default_headers(pairs(&[("X-A", "1"), ("X-B", "2")]))
        .default_headers(pairs(&[("x-a", "3")]))
        .into_headers();

    assert_eq!(as_map(Some(headers)), map(&[("x-a", "3"), ("x-b", "2")]));
}

#[test]
fn origins_need_a_web_scheme() {
    let web = ParsedUrl {
        scheme: "https".to_string(),
        origin: Some(UrlOrigin {
            scheme: "https".to_string(),
            host: "a.example".to_string(),
            port: 443,
        }),
    };
    let ftp = ParsedUrl {
        scheme: "ftp".to_string(),
        origin: None,
    };

    assert!(is_http_url(&Ok(ParsedUrl {
        scheme: "http".to_string(),
        origin: None,
    })));
    assert!(!is_http_url(&Err("relative URL".to_string())));
    let origin = checked_origin(Ok(web))
        .expect("https is a web scheme")
        .expect("https URLs share their origins");
    assert_eq!((origin.host.as_str(), origin.port), ("a.example", 443));
    assert!(checked_origin(Ok(ftp)).is_err());
    assert!(checked_origin(Err("relative URL".to_string())).is_err());
}

#[test]
fn nested_blob_urls_are_no_http_sources() {
    let nested = "blob:".repeat(100_000) + "https://example.com";

    assert!(!is_http_source(&nested));
    let error = DefaultHeaders::new(Vec::new(), Some(vec![nested])).err();
    assert_eq!(
        error.map(|error| error.message()),
        Some("Default headers origins must use HTTP(S)".to_string())
    );
}

#[test]
fn headers_are_named_once() {
    let builder = Builder::new()
        .default_headers(pairs(&[("X-One", "1"), ("x-one", "2")]))
        .user_agent("a".to_string())
        .default_headers(pairs(&[("USER-AGENT", "b")]));
    let headers = builder.into_headers();

    assert_eq!(headers, pairs(&[("x-one", "2"), ("user-agent", "a")]));
}
