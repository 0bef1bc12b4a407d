use serial_frames::engine::{
    policy_for_frame_length, FixedLengthEngine, HybridEngine, Policy, ReadEvent, Segmenter,
    TimeoutDelimitedEngine,
};

#[test]
fn fixed_length_segments_stream_without_timeouts() {
    let mut e = FixedLengthEngine::new(3);
    let frames = e.push_bytes(b"  ABCDEF G");
    assert_eq!(frames, vec![b"ABC".to_vec(), b"DEF".to_vec()]);
    // "G" is a partial fill, not yet a frame.
    let discarded = e.handle_timeout();
    assert!(discarded);
}

#[test]
fn fixed_length_skips_leading_spaces_only() {
    let mut e = FixedLengthEngine::new(3);
    // The space after "AB" lands mid-fill, so it is frame content.
    let frames = e.push_bytes(b"AB CD");
    assert_eq!(frames, vec![b"AB ".to_vec()]);
}

#[test]
fn fixed_length_one_byte_frames() {
    let mut e = FixedLengthEngine::new(1);
    let frames = e.push_bytes(b" A B");
    assert_eq!(frames, vec![b"A".to_vec(), b"B".to_vec()]);
}

#[test]
fn fixed_length_timeout_discards_partial_frame() {
    let mut e = FixedLengthEngine::new(4);
    let frames = e.push_bytes(b"AB");
    assert!(frames.is_empty());
    let discarded = e.handle_timeout();
    assert!(discarded);
    // Segmentation resumes seeking a new start byte.
    let frames = e.push_bytes(b" WXYZ");
    assert_eq!(frames, vec![b"WXYZ".to_vec()]);
}

#[test]
fn fixed_length_timeout_while_seeking_discards_nothing() {
    let mut e = FixedLengthEngine::new(4);
    let discarded = e.handle_timeout();
    assert!(!discarded);
}

#[test]
fn fixed_length_frames_split_across_reads() {
    let mut e = FixedLengthEngine::new(4);
    assert!(e.push_bytes(b"AB").is_empty());
    let frames = e.push_bytes(b"CDEF");
    assert_eq!(frames, vec![b"ABCD".to_vec()]);
}

#[test]
fn timeout_delimited_strips_trailing_spaces() {
    let mut e = TimeoutDelimitedEngine::new();
    e.push_bytes(b"AB  ");
    let frame = e.handle_timeout();
    assert_eq!(frame, Some(b"AB".to_vec()));
}

#[test]
fn timeout_delimited_all_spaces_emits_nothing() {
    let mut e = TimeoutDelimitedEngine::new();
    e.push_bytes(b"    ");
    assert_eq!(e.handle_timeout(), None);
    assert_eq!(e.handle_timeout(), None);
}

#[test]
fn timeout_delimited_accumulates_across_reads() {
    let mut e = TimeoutDelimitedEngine::new();
    e.push_bytes(b"AB");
    e.push_bytes(b"CD");
    assert_eq!(e.handle_timeout(), Some(b"ABCD".to_vec()));
}

#[test]
fn hybrid_emits_newline_terminated_lines_in_order() {
    let mut e = HybridEngine::new();
    let frames = e.push_bytes(b"AB\r\nCD\n");
    assert_eq!(frames, vec![b"AB".to_vec(), b"CD".to_vec()]);
    // Nothing is left pending.
    assert_eq!(e.handle_timeout(), None);
}

#[test]
fn hybrid_timeout_flushes_unterminated_frame_as_is() {
    let mut e = HybridEngine::new();
    assert!(e.push_bytes(b"XY").is_empty());
    assert_eq!(e.handle_timeout(), Some(b"XY".to_vec()));
}

#[test]
fn hybrid_timeout_keeps_trailing_spaces() {
    let mut e = HybridEngine::new();
    assert!(e.push_bytes(b"XY  ").is_empty());
    assert_eq!(e.handle_timeout(), Some(b"XY  ".to_vec()));
}

#[test]
fn hybrid_blank_lines_are_not_frames() {
    let mut e = HybridEngine::new();
    let frames = e.push_bytes(b"\n\r\n");
    assert!(frames.is_empty());
}

#[test]
fn hybrid_line_split_across_reads() {
    let mut e = HybridEngine::new();
    assert!(e.push_bytes(b"AB").is_empty());
    let frames = e.push_bytes(b"CD\nE");
    assert_eq!(frames, vec![b"ABCD".to_vec()]);
    assert_eq!(e.handle_timeout(), Some(b"E".to_vec()));
}

#[test]
fn policy_for_frame_length_selects_mode() {
    assert!(matches!(policy_for_frame_length(0), Policy::HybridNewlineTimeout));
    assert!(matches!(policy_for_frame_length(5), Policy::FixedLength(5)));
}

#[test]
fn segmenter_routes_events_per_policy() {
    let mut s = Segmenter::new(&Policy::HybridNewlineTimeout);
    let step = s.on_event(ReadEvent::Data(b"AB\nCD".to_vec()));
    assert_eq!(step.frames, vec![b"AB".to_vec()]);
    assert!(!step.stop);
    assert!(!step.discarded);
    let step = s.on_event(ReadEvent::Timeout);
    assert_eq!(step.frames, vec![b"CD".to_vec()]);
    assert!(!step.stop);
}

#[test]
fn segmenter_timeout_on_fixed_reports_discard() {
    let mut s = Segmenter::new(&Policy::FixedLength(4));
    let step = s.on_event(ReadEvent::Data(b"AB".to_vec()));
    assert!(step.frames.is_empty());
    let step = s.on_event(ReadEvent::Timeout);
    assert!(step.frames.is_empty());
    assert!(step.discarded);
    assert!(!step.stop);
}

#[test]
fn fatal_error_stops_every_policy_with_no_frames() {
    for policy in [
        Policy::FixedLength(4),
        Policy::TimeoutDelimited,
        Policy::HybridNewlineTimeout,
    ] {
        let mut s = Segmenter::new(&policy);
        s.on_event(ReadEvent::Data(b"AB".to_vec()));
        let step = s.on_event(ReadEvent::Fatal);
        assert!(step.stop);
        assert!(step.frames.is_empty());
        assert!(!step.discarded);
    }
}

#[test]
fn timeout_is_never_fatal() {
    let mut s = Segmenter::new(&Policy::TimeoutDelimited);
    for _ in 0..3 {
        let step = s.on_event(ReadEvent::Timeout);
        assert!(!step.stop);
    }
}
