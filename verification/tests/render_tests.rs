use serial_frames::render::{from_escaped_bytes, from_hex_bytes, to_escaped_string, to_hex_string};

#[test]
fn hex_form_is_spaced_uppercase_pairs() {
    assert_eq!(to_hex_string(&[0x00, 0x41, 0x5A, 0xFF]), "00 41 5A FF");
    assert_eq!(to_hex_string(&[0x0A]), "0A");
}

#[test]
fn hex_form_of_empty_is_empty() {
    assert_eq!(to_hex_string(&[]), "");
}

#[test]
fn escaped_form_keeps_printable_ascii() {
    assert_eq!(to_escaped_string(b"A b~!"), "A b~!");
}

#[test]
fn escaped_form_escapes_everything_else() {
    assert_eq!(
        to_escaped_string(&[0x00, 0x0A, 0x5C, 0x7F, 0xFF]),
        "\\x00\\x0A\\\\\\x7F\\xFF"
    );
}

#[test]
fn escaped_form_is_unambiguous_about_backslashes() {
    // A literal backslash sequence and the byte it would denote stay distinct.
    assert_ne!(to_escaped_string(b"\\x41"), to_escaped_string(b"A"));
    assert_eq!(to_escaped_string(b"\\x41"), "\\\\x41");
}

#[test]
fn hex_round_trip_recovers_bytes() {
    let samples: Vec<Vec<u8>> = vec![
        vec![],
        vec![0x00],
        vec![0xFF, 0x00, 0x20, 0x41],
        (0u8..=255).collect(),
    ];
    for bytes in samples {
        let rendered = to_hex_string(&bytes);
        assert_eq!(from_hex_bytes(rendered.as_bytes()), Some(bytes));
    }
}

#[test]
fn escaped_round_trip_recovers_bytes() {
    let samples: Vec<Vec<u8>> = vec![
        vec![],
        vec![0x5C],
        vec![0x00, 0x0D, 0x0A],
        b"plain text".to_vec(),
        (0u8..=255).collect(),
    ];
    for bytes in samples {
        let rendered = to_escaped_string(&bytes);
        assert_eq!(from_escaped_bytes(rendered.as_bytes()), Some(bytes));
    }
}

#[test]
fn hex_decoder_rejects_malformed_input() {
    assert_eq!(from_hex_bytes(b"4"), None);
    assert_eq!(from_hex_bytes(b"4G"), None);
    assert_eq!(from_hex_bytes(b"41 "), None);
    assert_eq!(from_hex_bytes(b"4142"), None);
    assert_eq!(from_hex_bytes(b"41  42"), None);
    assert_eq!(from_hex_bytes(b"ab"), None);
}

#[test]
fn escaped_decoder_rejects_malformed_input() {
    assert_eq!(from_escaped_bytes(&[0x01]), None);
    assert_eq!(from_escaped_bytes(b"\\"), None);
    assert_eq!(from_escaped_bytes(b"\\q"), None);
    assert_eq!(from_escaped_bytes(b"\\x4"), None);
    assert_eq!(from_escaped_bytes(b"\\x4g"), None);
}
