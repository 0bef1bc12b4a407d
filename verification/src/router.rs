//! The output router's decisions: for one completed frame, which text
//! goes to which sink. Both renderings are computed once; the console
//! always receives the form selected at startup, and each optional file
//! sink independently receives its own form. Zero-length frames are never
//! rendered. The writes themselves happen outside this crate, one sink at
//! a time, so a failing sink cannot disturb the text meant for another.

use vstd::prelude::*;
use crate::render::{chars_of, escaped_of, hex_of, to_escaped_string, to_hex_string};

verus! {

/// The console rendering format, fixed at startup.
#[derive(Clone, Copy, Debug)]
pub enum ConsoleFormat {
    Hex,
    Escaped,
}

/// Which sinks are configured beside the always-active console, and the
/// console's format.
#[derive(Clone, Copy, Debug)]
pub struct SinkConfig {
    pub format: ConsoleFormat,
    pub generic_file: bool,
    pub hex_file: bool,
    pub raw_file: bool,
}

/// The console form of a frame under a format.
pub open spec fn console_text(frame: Seq<u8>, format: ConsoleFormat) -> Seq<u8> {
    match format {
        ConsoleFormat::Hex => hex_of(frame),
        ConsoleFormat::Escaped => escaped_of(frame),
    }
}

/// One frame's text for each sink: the console form, and the form for
/// each configured file sink.
pub struct FrameOutput {
    pub console: String,
    pub generic_file: Option<String>,
    pub hex_file: Option<String>,
    pub raw_file: Option<String>,
}

/// Computes, for one completed frame, the text each sink receives: the
/// hex form for the hex file, the escaped form for the raw file, and the
/// selected console form for the console and the generic file. An empty
/// frame is never rendered and yields nothing at all.
pub fn plan_frame_output(frame: &[u8], cfg: &SinkConfig) -> (out: Option<FrameOutput>)
    ensures
        (out is Some) == (frame@.len() > 0),
        out matches Some(o) ==> {
            &&& o.console@ == chars_of(console_text(frame@, cfg.format))
            &&& (o.generic_file is Some) == cfg.generic_file
            &&& (o.hex_file is Some) == cfg.hex_file
            &&& (o.raw_file is Some) == cfg.raw_file
            &&& (o.generic_file matches Some(t) ==> t@ == chars_of(
                console_text(frame@, cfg.format),
            ))
            &&& (o.hex_file matches Some(t) ==> t@ == chars_of(hex_of(frame@)))
            &&& (o.raw_file matches Some(t) ==> t@ == chars_of(escaped_of(frame@)))
        },
{
    if frame.len() == 0 {
        return None;
    }
    let hex_line = to_hex_string(frame);
    let escaped_line = to_escaped_string(frame);
    let console = match cfg.format {
        ConsoleFormat::Hex => hex_line.clone(),
        ConsoleFormat::Escaped => escaped_line.clone(),
    };
    let generic_file = if cfg.generic_file {
        Some(console.clone())
    } else {
        None
    };
    let hex_file = if cfg.hex_file {
        Some(hex_line)
    } else {
        None
    };
    let raw_file = if cfg.raw_file {
        Some(escaped_line)
    } else {
        None
    };
    Some(FrameOutput { console, generic_file, hex_file, raw_file })
}

} // verus!
