//! Serial-line frame debugging library.
//!
//! The heart of the crate is a frame-segmentation engine: it consumes a
//! continuous byte stream, read in chunks and punctuated by read timeouts,
//! and decides where one logical frame ends and the next begins, under one
//! of three framing policies (fixed-length, timeout-delimited, hybrid
//! newline/timeout). Completed frames are rendered as space-separated
//! uppercase hex and as an escaped printable form, and routed to a set of
//! optional sinks. All segmentation, rendering and routing decisions are
//! verified; the surrounding transport and file I/O lives outside this
//! crate and feeds the engine plain byte chunks and timeout events.

pub mod engine;
pub mod render;
pub mod router;
