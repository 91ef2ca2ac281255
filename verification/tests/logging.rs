use monkeynuthead_upnp::logging::{payload_preview, preview_text, PacketDirection};

#[test]
fn preview_shows_line_breaks() {
    assert_eq!(
        payload_preview(b"M-SEARCH * HTTP/1.1\r\nHOST: x\r\n", 80),
        "M-SEARCH * HTTP/1.1\\r\\nHOST: x\\r\\n"
    );
}

#[test]
fn preview_is_cut_with_ellipsis() {
    assert_eq!(payload_preview(b"abcdef", 3), "abc...");
    assert_eq!(payload_preview(b"abc", 3), "abc");
    assert_eq!(payload_preview(b"", 0), "");
    assert_eq!(payload_preview(b"a\nb", 2), "a\\...");
    assert_eq!(preview_text("héllo", 2), "hé...");
}

#[test]
fn preview_replaces_invalid_utf8() {
    assert_eq!(payload_preview(&[b'a', 0xff, b'b'], 80), "a\u{FFFD}b");
}

#[test]
fn direction_labels() {
    assert_eq!(PacketDirection::Inbound.label(), "in");
    assert_eq!(PacketDirection::Outbound.label(), "out");
}
