use sawt::keys::{derive_key, fnv1a_bytes, fnv1a_hash};
use sawt::url::{extract_video_id, to_full_url, DownloadError};

#[test]
fn fnv1a_empty_is_offset_basis() {
    assert_eq!(fnv1a_hash(""), 0xcbf29ce484222325);
}

#[test]
fn fnv1a_single_byte() {
    assert_eq!(fnv1a_hash("a"), 0xaf63dc4c8601ec8c);
    assert_eq!(fnv1a_bytes(&[97u8]), 0xaf63dc4c8601ec8c);
}

#[test]
fn derive_key_pinned_value() {
    assert_eq!(derive_key("abc123", 0), 0xea87733d47879fda);
    assert_eq!(fnv1a_hash("abc123_0"), 0xea87733d47879fda);
}

#[test]
fn derive_key_deterministic() {
    let a = derive_key("some-collection", 42);
    let b = derive_key("some-collection", 42);
    assert_eq!(a, b);
    assert_ne!(derive_key("some-collection", 43), a);
    assert_ne!(derive_key("other-collection", 42), a);
}

#[test]
fn derive_key_multi_digit_position() {
    assert_eq!(derive_key("vid", 105), fnv1a_hash("vid_105"));
}

#[test]
fn extract_bare_id() {
    assert_eq!(extract_video_id("dQw4w9WgXcQ").unwrap(), "dQw4w9WgXcQ");
}

#[test]
fn extract_watch_url() {
    assert_eq!(
        extract_video_id("https://www.youtube.com/watch?v=dQw4w9WgXcQ").unwrap(),
        "dQw4w9WgXcQ"
    );
    assert_eq!(
        extract_video_id("https://www.youtube.com/watch?v=abc123&t=10s").unwrap(),
        "abc123"
    );
    assert_eq!(
        extract_video_id("https://www.youtube.com/watch?v=abc123#frag").unwrap(),
        "abc123"
    );
}

#[test]
fn extract_short_link() {
    assert_eq!(extract_video_id("https://youtu.be/xyz789").unwrap(), "xyz789");
    assert_eq!(extract_video_id("https://youtu.be/xyz789?t=5").unwrap(), "xyz789");
}

#[test]
fn extract_invalid_url() {
    let e = extract_video_id("https://example.com/nothing").unwrap_err();
    assert!(matches!(e, DownloadError::InvalidUrl(u) if u == "https://example.com/nothing"));
}

#[test]
fn full_url_from_bare_id() {
    assert_eq!(
        to_full_url("abc123"),
        "https://www.youtube.com/watch?v=abc123"
    );
    assert_eq!(
        to_full_url("https://youtu.be/abc"),
        "https://youtu.be/abc"
    );
    assert_eq!(
        to_full_url("http://example.com/x"),
        "http://example.com/x"
    );
}
