use safari_binarycookies::format::{component_len, table_len, to_len};
use safari_binarycookies::text::{lossy, trim_terminator, truncate_at_nul};
use safari_binarycookies::{Component, Error};

#[test]
fn component_len_rejects_non_monotonic_offsets() {
    assert!(matches!(
        component_len(Component::Domain, 10, 9),
        Err(Error::MalformedOffsets)
    ));
    assert!(matches!(component_len(Component::Name, 10, 10), Ok(0)));
    assert!(matches!(component_len(Component::Path, 10, 14), Ok(4)));
}

#[test]
fn component_len_caps_at_4096() {
    assert!(matches!(
        component_len(Component::Comment, 0, 4096),
        Ok(4096)
    ));
    assert!(matches!(
        component_len(Component::Comment, 0, 4097),
        Err(Error::CookieTooLarge {
            component: Component::Comment,
            size: 4097
        })
    ));
}

#[test]
fn string_truncation_policies_differ_per_field() {
    assert_eq!(trim_terminator(b"abc\x00"), "abc");
    assert_eq!(trim_terminator(b"abc\x00\x00"), "abc\x00");
    assert_eq!(trim_terminator(b"abc"), "abc");
    assert_eq!(trim_terminator(b""), "");

    assert_eq!(truncate_at_nul(b"abc\x00tail"), "abc");
    assert_eq!(truncate_at_nul(b"\x00tail"), "");
    assert_eq!(truncate_at_nul(b"abc"), "abc");
    assert_eq!(truncate_at_nul(b""), "");
}

#[test]
fn lossy_replaces_invalid_utf8() {
    assert_eq!(lossy(&[0x61, 0xff, 0x62]), "a\u{fffd}b");
}

#[test]
fn lossy_keeps_valid_utf8() {
    assert_eq!(lossy("h\u{e9}llo".as_bytes()), "h\u{e9}llo");
    assert_eq!(trim_terminator(&[0xff, 0x00]), "\u{fffd}");
    assert_eq!(truncate_at_nul(&[0x61, 0xc3, 0x00, 0xa9]), "a\u{fffd}");
}

#[test]
fn table_and_length_conversions() {
    assert!(matches!(table_len(0), Ok(0)));
    assert!(matches!(table_len(3), Ok(12)));
    assert!(matches!(table_len(0x10_0000), Ok(0x40_0000)));
    assert!(matches!(to_len(4096), Ok(4096)));
}

#[test]
fn component_labels() {
    assert_eq!(Component::Comment.as_str(), "comment");
    assert_eq!(Component::Domain.as_str(), "domain");
    assert_eq!(Component::Name.as_str(), "name");
    assert_eq!(Component::Path.as_str(), "path");
    assert_eq!(Component::Value.as_str(), "value");
}
