use netconf_rs::framing::find_delimiter;
use netconf_rs::framing::frame_payload;
use netconf_rs::framing::FrameBuffer;
use netconf_rs::framing::FrameError;

#[test]
fn find_delimiter_gives_leftmost_offset() {
    assert_eq!(find_delimiter(b"<a/>]]>]]>"), Some(4));
    assert_eq!(find_delimiter(b"]]>]]>"), Some(0));
    assert_eq!(find_delimiter(b"<a/>]]>]]"), None);
    assert_eq!(find_delimiter(b""), None);
    assert_eq!(find_delimiter(b"ab]]>]]>cd]]>]]>"), Some(2));
}

#[test]
fn frame_payload_trims_and_appends_marker() {
    assert_eq!(frame_payload("  <rpc/>\n"), b"<rpc/>]]>]]>".to_vec());
    assert_eq!(frame_payload(""), b"]]>]]>".to_vec());
    assert_eq!(frame_payload("\u{3000}<a> </a>\u{85}"), b"<a> </a>]]>]]>".to_vec());
}

#[test]
fn take_message_splits_at_marker_and_keeps_rest() {
    let mut buffer = FrameBuffer::new();
    assert_eq!(buffer.extend(b"<one/>]]>]]><tw"), Ok(()));
    assert_eq!(buffer.take_message(), Some(Ok(String::from("<one/>"))));
    assert_eq!(buffer.len(), 3);
    assert_eq!(buffer.take_message(), None);
    assert_eq!(buffer.extend(b"o/>]]>]]>"), Ok(()));
    assert_eq!(buffer.take_message(), Some(Ok(String::from("<two/>"))));
    assert_eq!(buffer.len(), 0);
}

#[test]
fn take_message_reports_invalid_utf8_and_drops_the_message() {
    let mut buffer = FrameBuffer::new();
    assert_eq!(buffer.extend(&[0xff, 0xfe, b']', b']', b'>', b']', b']', b'>', b'x']), Ok(()));
    assert_eq!(buffer.take_message(), Some(Err(FrameError::InvalidUtf8)));
    assert_eq!(buffer.len(), 1);
}

#[test]
fn extend_refuses_to_pass_the_limit() {
    let mut buffer = FrameBuffer::with_limit(4);
    assert_eq!(buffer.extend(b"abc"), Ok(()));
    assert_eq!(buffer.extend(b"de"), Err(FrameError::TooLarge));
    assert_eq!(buffer.len(), 3);
    assert_eq!(buffer.extend(b"d"), Ok(()));
    assert_eq!(buffer.len(), 4);
}

#[test]
fn frame_payload_trims_every_white_space_character() {
    let white = [
        '\u{9}', '\u{a}', '\u{b}', '\u{c}', '\u{d}', '\u{20}', '\u{85}', '\u{a0}', '\u{1680}',
        '\u{2000}', '\u{2001}', '\u{2002}', '\u{2003}', '\u{2004}', '\u{2005}', '\u{2006}',
        '\u{2007}', '\u{2008}', '\u{2009}', '\u{200a}', '\u{2028}', '\u{2029}', '\u{202f}',
        '\u{205f}', '\u{3000}',
    ];
    for c in white {
        assert_eq!(frame_payload(&format!("{}<a>{}</a>{}", c, c, c)), {
            let mut wire = format!("<a>{}</a>", c).into_bytes();
            wire.extend_from_slice(b"]]>]]>");
            wire
        });
    }
}

#[test]
fn frame_payload_keeps_characters_that_only_look_like_space() {
    let others = ['\u{8}', '\u{e}', '\u{1f}', '\u{21}', '\u{84}', '\u{86}', '\u{9f}', '\u{a1}',
        '\u{167f}', '\u{1681}', '\u{180e}', '\u{1fff}', '\u{200b}', '\u{2027}', '\u{202a}',
        '\u{202e}', '\u{2030}', '\u{205e}', '\u{2060}', '\u{2fff}', '\u{3001}', '\u{feff}'];
    for c in others {
        let payload = format!("{}<a/>{}", c, c);
        let mut wire = payload.clone().into_bytes();
        wire.extend_from_slice(b"]]>]]>");
        assert_eq!(frame_payload(&payload), wire);
    }
}

#[test]
fn find_delimiter_in_overlapping_markers() {
    assert_eq!(find_delimiter(b"]]>]]>]]>"), Some(0));
    assert_eq!(find_delimiter(b"]]]>]]>"), Some(1));
    assert_eq!(find_delimiter(b"]]>]]]]>]]>"), Some(5));
    assert_eq!(find_delimiter(b"]]>]] >]]>]]"), None);
}
