use serial_frames::router::{plan_frame_output, ConsoleFormat, SinkConfig};

fn all_sinks(format: ConsoleFormat) -> SinkConfig {
    SinkConfig { format, generic_file: true, hex_file: true, raw_file: true }
}

#[test]
fn hex_console_format_feeds_console_and_generic_file() {
    let out = plan_frame_output(b"AB", &all_sinks(ConsoleFormat::Hex)).unwrap();
    assert_eq!(out.console, "41 42");
    assert_eq!(out.generic_file.as_deref(), Some("41 42"));
    assert_eq!(out.hex_file.as_deref(), Some("41 42"));
    assert_eq!(out.raw_file.as_deref(), Some("AB"));
}

#[test]
fn escaped_console_format_feeds_console_and_generic_file() {
    let out = plan_frame_output(&[0x41, 0x00], &all_sinks(ConsoleFormat::Escaped)).unwrap();
    assert_eq!(out.console, "A\\x00");
    assert_eq!(out.generic_file.as_deref(), Some("A\\x00"));
    assert_eq!(out.hex_file.as_deref(), Some("41 00"));
    assert_eq!(out.raw_file.as_deref(), Some("A\\x00"));
}

#[test]
fn unconfigured_sinks_get_nothing() {
    let cfg = SinkConfig {
        format: ConsoleFormat::Escaped,
        generic_file: false,
        hex_file: false,
        raw_file: false,
    };
    let out = plan_frame_output(b"AB", &cfg).unwrap();
    assert_eq!(out.console, "AB");
    assert_eq!(out.generic_file, None);
    assert_eq!(out.hex_file, None);
    assert_eq!(out.raw_file, None);
}

#[test]
fn empty_frames_are_never_rendered() {
    assert!(plan_frame_output(b"", &all_sinks(ConsoleFormat::Hex)).is_none());
}
