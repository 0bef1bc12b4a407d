//! The frame-segmentation engine: turns a continuous byte stream, read in
//! chunks and punctuated by read timeouts, into discrete frames under one
//! of three framing policies. The engine is event-driven: the caller owns
//! the transport and feeds each read outcome in as a `ReadEvent`; the
//! engine decides which complete frames that outcome yields and whether
//! the run is over.

use vstd::prelude::*;
use crate::render::SPACE;

verus! {

/// The ASCII line-feed byte, the explicit frame terminator of the hybrid policy.
pub const NEWLINE: u8 = 0x0A;

/// The ASCII carriage-return byte, stripped with the line feed at line ends.
pub const CARRIAGE_RETURN: u8 = 0x0D;

/// The outcome of one transport read: a non-empty chunk of bytes, a read
/// timeout, or a fatal transport error.
pub enum ReadEvent {
    Data(Vec<u8>),
    Timeout,
    Fatal,
}

/// What one event yielded: the complete frames recognized, in arrival
/// order; whether a partial fixed-length frame was discarded; and whether
/// the engine's run is over.
pub struct StepResult {
    pub frames: Vec<Vec<u8>>,
    pub discarded: bool,
    pub stop: bool,
}

/// The byte sequences of a batch of frames, in order.
pub open spec fn frame_views(frames: Seq<Vec<u8>>) -> Seq<Seq<u8>> {
    frames.map_values(|f: Vec<u8>| f@)
}

/// The fixed-length policy's walk over one chunk: from a partially filled
/// frame, returns the fill state after the chunk and the complete frames
/// it yields. While the fill is empty, space bytes are idle-line padding
/// and are skipped; any other byte joins the fill, and a fill of `n`
/// bytes is a complete frame.
pub open spec fn fixed_step(pending: Seq<u8>, n: nat, input: Seq<u8>) -> (Seq<u8>, Seq<Seq<u8>>)
    decreases input.len(),
{
    if input.len() == 0 {
        (pending, Seq::<Seq<u8>>::empty())
    } else {
        let b = input[0];
        let rest = input.skip(1);
        if pending.len() == 0 && b == SPACE {
            fixed_step(pending, n, rest)
        } else {
            let filled = pending.push(b);
            if filled.len() == n {
                let r = fixed_step(Seq::<u8>::empty(), n, rest);
                (r.0, seq![filled] + r.1)
            } else {
                fixed_step(filled, n, rest)
            }
        }
    }
}

/// A byte sequence with its trailing run of space bytes removed.
pub open spec fn strip_trailing_spaces(s: Seq<u8>) -> Seq<u8>
    decreases s.len(),
{
    if s.len() > 0 && s.last() == SPACE {
        strip_trailing_spaces(s.drop_last())
    } else {
        s
    }
}

/// A byte sequence with its trailing run of carriage-return and line-feed
/// bytes removed.
pub open spec fn strip_trailing_crlf(s: Seq<u8>) -> Seq<u8>
    decreases s.len(),
{
    if s.len() > 0 && (s.last() == NEWLINE || s.last() == CARRIAGE_RETURN) {
        strip_trailing_crlf(s.drop_last())
    } else {
        s
    }
}

/// The hybrid policy's walk over one chunk: from the line accumulated so
/// far, returns the accumulation after the chunk and the frames it
/// yields. Each line-feed byte ends a line; the line's trailing
/// carriage-return/line-feed run is stripped, and the remainder is a
/// frame unless empty.
pub open spec fn hybrid_scan(line: Seq<u8>, input: Seq<u8>) -> (Seq<u8>, Seq<Seq<u8>>)
    decreases input.len(),
{
    if input.len() == 0 {
        (line, Seq::<Seq<u8>>::empty())
    } else {
        let b = input[0];
        let rest = input.skip(1);
        if b == NEWLINE {
            let content = strip_trailing_crlf(line);
            let r = hybrid_scan(Seq::<u8>::empty(), rest);
            if content.len() > 0 {
                (r.0, seq![content] + r.1)
            } else {
                r
            }
        } else {
            hybrid_scan(line.push(b), rest)
        }
    }
}

/// Law: a fixed-length segmenter only ever emits complete frames. Every
/// frame that `fixed_step` yields is exactly `n` bytes, and its first
/// byte is never the space byte: leading idle padding is skipped, never
/// emitted, and a partial fill is never in the output.
pub proof fn lemma_fixed_frames_complete(pending: Seq<u8>, n: nat, input: Seq<u8>)
    requires
        1 <= n,
        pending.len() < n,
        pending.len() > 0 ==> pending[0] != SPACE,
    ensures
        forall|k: int|
            0 <= k < fixed_step(pending, n, input).1.len() ==> {
                let f = #[trigger] fixed_step(pending, n, input).1[k];
                f.len() == n && f[0] != SPACE
            },
    decreases input.len(),
{
    if input.len() > 0 {
        let b = input[0];
        let rest = input.skip(1);
        if pending.len() == 0 && b == SPACE {
            lemma_fixed_frames_complete(pending, n, rest);
            assert(fixed_step(pending, n, input).1 == fixed_step(pending, n, rest).1);
            assert forall|k: int| 0 <= k < fixed_step(pending, n, input).1.len() implies {
                let f = #[trigger] fixed_step(pending, n, input).1[k];
                f.len() == n && f[0] != SPACE
            } by {
                assert(fixed_step(pending, n, rest).1[k].len() == n);
            }
        } else {
            let filled = pending.push(b);
            assert(filled[0] != SPACE);
            if filled.len() == n {
                lemma_fixed_frames_complete(Seq::<u8>::empty(), n, rest);
                let r = fixed_step(Seq::<u8>::empty(), n, rest);
                assert(fixed_step(pending, n, input).1 == seq![filled] + r.1);
                assert forall|k: int| 0 <= k < fixed_step(pending, n, input).1.len() implies {
                    let f = #[trigger] fixed_step(pending, n, input).1[k];
                    f.len() == n && f[0] != SPACE
                } by {
                    if k == 0 {
                        assert(fixed_step(pending, n, input).1[k] == filled);
                    } else {
                        assert(fixed_step(pending, n, input).1[k] == r.1[k - 1]);
                        assert(r.1[k - 1].len() == n);
                    }
                }
            } else {
                lemma_fixed_frames_complete(filled, n, rest);
                assert(fixed_step(pending, n, input).1 == fixed_step(filled, n, rest).1);
                assert forall|k: int| 0 <= k < fixed_step(pending, n, input).1.len() implies {
                    let f = #[trigger] fixed_step(pending, n, input).1[k];
                    f.len() == n && f[0] != SPACE
                } by {
                    assert(fixed_step(filled, n, rest).1[k].len() == n);
                }
            }
        }
    }
}

/// How many bytes of a chunk the fixed-length walk keeps, starting from
/// a fill of `fill` bytes: every byte except the space bytes that are
/// skipped as idle-line padding while the fill is empty.
pub open spec fn fixed_kept(fill: nat, n: nat, input: Seq<u8>) -> nat
    decreases input.len(),
{
    if input.len() == 0 {
        0
    } else if fill == 0 && input[0] == SPACE {
        fixed_kept(0, n, input.skip(1))
    } else if fill + 1 == n {
        1 + fixed_kept(0, n, input.skip(1))
    } else {
        1 + fixed_kept((fill + 1) as nat, n, input.skip(1))
    }
}

/// The fixed-length walk always leaves its fill short of a complete frame.
proof fn lemma_fixed_step_fill_short(pending: Seq<u8>, n: nat, input: Seq<u8>)
    requires
        1 <= n,
        pending.len() < n,
    ensures
        fixed_step(pending, n, input).0.len() < n,
    decreases input.len(),
{
    if input.len() > 0 {
        let b = input[0];
        let rest = input.skip(1);
        if pending.len() == 0 && b == SPACE {
            lemma_fixed_step_fill_short(pending, n, rest);
        } else if pending.push(b).len() == n {
            lemma_fixed_step_fill_short(Seq::<u8>::empty(), n, rest);
        } else {
            lemma_fixed_step_fill_short(pending.push(b), n, rest);
        }
    }
}

/// Bytes are conserved by the fixed-length walk: every byte it keeps
/// lands either in an emitted frame or in the final fill, and nothing
/// else does.
proof fn lemma_fixed_conservation(pending: Seq<u8>, n: nat, input: Seq<u8>)
    requires
        1 <= n,
        pending.len() < n,
    ensures
        n * fixed_step(pending, n, input).1.len() + fixed_step(pending, n, input).0.len()
            == pending.len() + fixed_kept(pending.len(), n, input),
    decreases input.len(),
{
    if input.len() > 0 {
        let b = input[0];
        let rest = input.skip(1);
        if pending.len() == 0 && b == SPACE {
            lemma_fixed_conservation(pending, n, rest);
        } else {
            let filled = pending.push(b);
            if filled.len() == n {
                lemma_fixed_conservation(Seq::<u8>::empty(), n, rest);
                let r = fixed_step(Seq::<u8>::empty(), n, rest);
                assert((seq![filled] + r.1).len() == 1 + r.1.len());
                assert(n * (1 + r.1.len()) == n + n * r.1.len()) by (nonlinear_arith);
            } else {
                lemma_fixed_conservation(filled, n, rest);
            }
        }
    }
}

/// Law: with no timeouts, a fresh fixed-length segmenter emits from a
/// chunk exactly `kept / n` frames, rounded down, where `kept` counts the
/// chunk's bytes apart from the leading space bytes skipped as idle
/// padding before each frame.
pub proof fn lemma_fixed_frame_count(n: nat, input: Seq<u8>)
    requires
        1 <= n,
    ensures
        fixed_step(Seq::<u8>::empty(), n, input).1.len() == fixed_kept(0, n, input) / n,
{
    lemma_fixed_conservation(Seq::<u8>::empty(), n, input);
    lemma_fixed_step_fill_short(Seq::<u8>::empty(), n, input);
    let frames: int = fixed_step(Seq::<u8>::empty(), n, input).1.len() as int;
    let fill: int = fixed_step(Seq::<u8>::empty(), n, input).0.len() as int;
    let kept: int = fixed_kept(0, n, input) as int;
    assert(kept == frames * (n as int) + fill) by (nonlinear_arith)
        requires
            n as int * frames + fill == kept,
    ;
    vstd::arithmetic::div_mod::lemma_fundamental_div_mod_converse(kept, n as int, frames, fill);
}

/// The fixed-length policy: seeks a first non-space byte, then fills a
/// frame of exactly `n` bytes; a timeout mid-fill discards the partial
/// frame.
pub struct FixedLengthEngine {
    pub n: usize,
    pub pending: Vec<u8>,
}

impl FixedLengthEngine {
    /// The engine invariant: the frame length is positive, the fill is
    /// always short of a complete frame, and a non-empty fill never
    /// starts with idle padding.
    pub open spec fn wf(self) -> bool {
        &&& 1 <= self.n
        &&& self.pending@.len() < self.n
        &&& (self.pending@.len() > 0 ==> self.pending@[0] != SPACE)
    }

    pub fn new(n: usize) -> (e: Self)
        requires
            1 <= n,
        ensures
            e.wf(),
            e.n == n,
            e.pending@.len() == 0,
    {
        FixedLengthEngine { n, pending: Vec::new() }
    }

    /// Feeds one chunk of bytes; returns the complete frames it yields,
    /// in arrival order, exactly as `fixed_step` describes.
    pub fn push_bytes(&mut self, data: &[u8]) -> (frames: Vec<Vec<u8>>)
        requires
            old(self).wf(),
        ensures
            final(self).wf(),
            final(self).n == old(self).n,
            final(self).pending@ == fixed_step(
                old(self).pending@,
                old(self).n as nat,
                data@,
            ).0,
            frame_views(frames@) == fixed_step(old(self).pending@, old(self).n as nat, data@).1,
    {
        let ghost p0 = self.pending@;
        let ghost n0 = self.n as nat;
        let mut frames: Vec<Vec<u8>> = Vec::new();
        let mut i: usize = 0;
        proof {
            assert(data@.skip(0) =~= data@);
            assert(frame_views(frames@) =~= Seq::<Seq<u8>>::empty());
            assert(frame_views(frames@) + fixed_step(p0, n0, data@).1 =~= fixed_step(
                p0,
                n0,
                data@,
            ).1);
        }
        while i < data.len()
            invariant
                self.wf(),
                self.n == old(self).n,
                n0 == self.n as nat,
                i <= data.len(),
                fixed_step(p0, n0, data@).0 == fixed_step(
                    self.pending@,
                    n0,
                    data@.skip(i as int),
                ).0,
                fixed_step(p0, n0, data@).1 == frame_views(frames@) + fixed_step(
                    self.pending@,
                    n0,
                    data@.skip(i as int),
                ).1,
            decreases data.len() - i,
        {
            let b = data[i];
            let ghost s = data@.skip(i as int);
            proof {
                assert(s[0] == b);
                assert(s.skip(1) =~= data@.skip(i + 1 as int));
            }
            if self.pending.len() == 0 && b == SPACE {
                proof {
                    assert(fixed_step(self.pending@, n0, s) == fixed_step(
                        self.pending@,
                        n0,
                        s.skip(1),
                    ));
                }
            } else {
                let ghost pend_before = self.pending@;
                let ghost frames_before = frames@;
                self.pending.push(b);
                if self.pending.len() == self.n {
                    let mut full: Vec<u8> = Vec::new();
                    core::mem::swap(&mut full, &mut self.pending);
                    frames.push(full);
                    proof {
                        let filled = pend_before.push(b);
                        let r = fixed_step(Seq::<u8>::empty(), n0, s.skip(1));
                        assert(fixed_step(pend_before, n0, s) == (r.0, seq![filled] + r.1));
                        assert(frame_views(frames@) =~= frame_views(frames_before).push(filled));
                        assert(frame_views(frames_before) + (seq![filled] + r.1) =~= frame_views(
                            frames@,
                        ) + r.1);
                    }
                } else {
                    proof {
                        let filled = pend_before.push(b);
                        assert(fixed_step(pend_before, n0, s) == fixed_step(
                            filled,
                            n0,
                            s.skip(1),
                        ));
                    }
                }
            }
            i = i + 1;
        }
        proof {
            assert(data@.skip(data@.len() as int) =~= Seq::<u8>::empty());
            assert(frame_views(frames@) + Seq::<Seq<u8>>::empty() =~= frame_views(frames@));
        }
        frames
    }

    /// A read timeout mid-fill: the partial frame, if any, is discarded
    /// — never emitted, never recovered — and the engine resumes seeking
    /// a new start byte. Returns whether anything was discarded.
    pub fn handle_timeout(&mut self) -> (discarded: bool)
        requires
            old(self).wf(),
        ensures
            final(self).wf(),
            final(self).n == old(self).n,
            final(self).pending@.len() == 0,
            discarded == (old(self).pending@.len() > 0),
    {
        let discarded = self.pending.len() > 0;
        self.pending.clear();
        discarded
    }
}

/// The timeout-delimited policy: accumulates every byte read; a read
/// timeout ends the frame, whose trailing spaces are padding.
pub struct TimeoutDelimitedEngine {
    pub pending: Vec<u8>,
}

impl TimeoutDelimitedEngine {
    pub fn new() -> (e: Self)
        ensures
            e.pending@.len() == 0,
    {
        TimeoutDelimitedEngine { pending: Vec::new() }
    }

    /// Feeds one chunk of bytes: all of it joins the accumulation; no
    /// frame completes before a timeout.
    pub fn push_bytes(&mut self, data: &[u8])
        ensures
            final(self).pending@ == old(self).pending@ + data@,
    {
        let mut i: usize = 0;
        while i < data.len()
            invariant
                i <= data.len(),
                self.pending@ == old(self).pending@ + data@.take(i as int),
            decreases data.len() - i,
        {
            self.pending.push(data[i]);
            proof {
                assert(old(self).pending@ + data@.take(i + 1 as int) =~= (old(self).pending@
                    + data@.take(i as int)).push(data@[i as int]));
            }
            i = i + 1;
        }
        proof {
            assert(data@.take(data@.len() as int) =~= data@);
        }
    }

    /// A read timeout ends the frame: trailing spaces are stripped, the
    /// remainder is emitted if non-empty, and the accumulation is cleared
    /// either way. An all-space or empty accumulation emits nothing.
    pub fn handle_timeout(&mut self) -> (frame: Option<Vec<u8>>)
        ensures
            final(self).pending@.len() == 0,
            match frame {
                Some(f) => f@ == strip_trailing_spaces(old(self).pending@) && f@.len() > 0,
                None => strip_trailing_spaces(old(self).pending@).len() == 0,
            },
    {
        while self.pending.len() > 0 && self.pending[self.pending.len() - 1] == SPACE
            invariant
                strip_trailing_spaces(self.pending@) == strip_trailing_spaces(old(self).pending@),
            decreases self.pending@.len(),
        {
            let ghost before = self.pending@;
            self.pending.pop();
            proof {
                assert(self.pending@ =~= before.drop_last());
            }
        }
        if self.pending.len() == 0 {
            None
        } else {
            let mut out: Vec<u8> = Vec::new();
            core::mem::swap(&mut out, &mut self.pending);
            Some(out)
        }
    }
}

/// The hybrid newline/timeout policy: line-feed bytes end frames
/// explicitly, with the trailing carriage-return/line-feed run stripped;
/// a read timeout flushes a non-empty accumulation as one frame, as-is.
pub struct HybridEngine {
    pub pending: Vec<u8>,
}

impl HybridEngine {
    /// The engine invariant: the accumulation never holds a line-feed
    /// byte — any line feed read has already ended its line.
    pub open spec fn wf(self) -> bool {
        forall|j: int| 0 <= j < self.pending@.len() ==> self.pending@[j] != NEWLINE
    }

    pub fn new() -> (e: Self)
        ensures
            e.wf(),
            e.pending@.len() == 0,
    {
        HybridEngine { pending: Vec::new() }
    }

    /// Feeds one chunk of bytes; returns the frames of every complete
    /// line the chunk closes, in arrival order, exactly as `hybrid_scan`
    /// describes. A single chunk may close zero, one, or several lines.
    pub fn push_bytes(&mut self, data: &[u8]) -> (frames: Vec<Vec<u8>>)
        requires
            old(self).wf(),
        ensures
            final(self).wf(),
            final(self).pending@ == hybrid_scan(old(self).pending@, data@).0,
            frame_views(frames@) == hybrid_scan(old(self).pending@, data@).1,
    {
        let ghost p0 = self.pending@;
        let mut frames: Vec<Vec<u8>> = Vec::new();
        let mut i: usize = 0;
        proof {
            assert(data@.skip(0) =~= data@);
            assert(frame_views(frames@) =~= Seq::<Seq<u8>>::empty());
            assert(frame_views(frames@) + hybrid_scan(p0, data@).1 =~= hybrid_scan(p0, data@).1);
        }
        while i < data.len()
            invariant
                self.wf(),
                i <= data.len(),
                hybrid_scan(p0, data@).0 == hybrid_scan(self.pending@, data@.skip(i as int)).0,
                hybrid_scan(p0, data@).1 == frame_views(frames@) + hybrid_scan(
                    self.pending@,
                    data@.skip(i as int),
                ).1,
            decreases data.len() - i,
        {
            let b = data[i];
            let ghost s = data@.skip(i as int);
            proof {
                assert(s[0] == b);
                assert(s.skip(1) =~= data@.skip(i + 1 as int));
            }
            if b == NEWLINE {
                let ghost line = self.pending@;
                let ghost frames_before = frames@;
                while self.pending.len() > 0 && (self.pending[self.pending.len() - 1] == NEWLINE
                    || self.pending[self.pending.len() - 1] == CARRIAGE_RETURN)
                    invariant
                        strip_trailing_crlf(self.pending@) == strip_trailing_crlf(line),
                        forall|j: int|
                            0 <= j < self.pending@.len() ==> self.pending@[j] != NEWLINE,
                    decreases self.pending@.len(),
                {
                    let ghost before = self.pending@;
                    self.pending.pop();
                    proof {
                        assert(self.pending@ =~= before.drop_last());
                    }
                }
                let ghost content = strip_trailing_crlf(line);
                proof {
                    assert(self.pending@ == content);
                }
                if self.pending.len() > 0 {
                    let mut full: Vec<u8> = Vec::new();
                    core::mem::swap(&mut full, &mut self.pending);
                    frames.push(full);
                    proof {
                        let r = hybrid_scan(Seq::<u8>::empty(), s.skip(1));
                        assert(hybrid_scan(line, s) == (r.0, seq![content] + r.1));
                        assert(frame_views(frames@) =~= frame_views(frames_before).push(content));
                        assert(frame_views(frames_before) + (seq![content] + r.1) =~= frame_views(
                            frames@,
                        ) + r.1);
                    }
                } else {
                    proof {
                        assert(content.len() == 0);
                        assert(hybrid_scan(line, s) == hybrid_scan(Seq::<u8>::empty(), s.skip(1)));
                        assert(self.pending@ =~= Seq::<u8>::empty());
                    }
                }
            } else {
                let ghost line = self.pending@;
                self.pending.push(b);
                proof {
                    assert(hybrid_scan(line, s) == hybrid_scan(line.push(b), s.skip(1)));
                }
            }
            i = i + 1;
        }
        proof {
            assert(data@.skip(data@.len() as int) =~= Seq::<u8>::empty());
            assert(frame_views(frames@) + Seq::<Seq<u8>>::empty() =~= frame_views(frames@));
        }
        frames
    }

    /// A read timeout with a non-empty accumulation: the whole
    /// accumulation — a frame sent without a newline — is emitted as-is,
    /// with no trimming. An empty accumulation is an idle line: no frame.
    pub fn handle_timeout(&mut self) -> (frame: Option<Vec<u8>>)
        requires
            old(self).wf(),
        ensures
            final(self).wf(),
            final(self).pending@.len() == 0,
            match frame {
                Some(f) => f@ == old(self).pending@ && f@.len() > 0,
                None => old(self).pending@.len() == 0,
            },
    {
        if self.pending.len() == 0 {
            None
        } else {
            let mut out: Vec<u8> = Vec::new();
            core::mem::swap(&mut out, &mut self.pending);
            Some(out)
        }
    }
}

/// A framing policy, selected once at startup.
#[derive(Clone, Copy, Debug)]
pub enum Policy {
    FixedLength(usize),
    TimeoutDelimited,
    HybridNewlineTimeout,
}

impl Policy {
    /// A fixed frame length must be positive.
    pub open spec fn valid(self) -> bool {
        match self {
            Policy::FixedLength(n) => 1 <= n,
            _ => true,
        }
    }
}

/// Maps the frame-length configuration parameter to a policy: zero
/// selects the hybrid newline/timeout mode, a positive length selects
/// fixed-length mode.
pub fn policy_for_frame_length(len: usize) -> (p: Policy)
    ensures
        p.valid(),
        len == 0 ==> p is HybridNewlineTimeout,
        len > 0 ==> p == Policy::FixedLength(len),
{
    if len == 0 {
        Policy::HybridNewlineTimeout
    } else {
        Policy::FixedLength(len)
    }
}

/// A segmentation engine under one of the three policies.
pub enum Segmenter {
    Fixed(FixedLengthEngine),
    Timeout(TimeoutDelimitedEngine),
    Hybrid(HybridEngine),
}

impl Segmenter {
    pub open spec fn wf(self) -> bool {
        match self {
            Segmenter::Fixed(e) => e.wf(),
            Segmenter::Timeout(e) => true,
            Segmenter::Hybrid(e) => e.wf(),
        }
    }

    pub fn new(p: &Policy) -> (s: Segmenter)
        requires
            p.valid(),
        ensures
            s.wf(),
            match *p {
                Policy::FixedLength(n) => s matches Segmenter::Fixed(e) && e.n == n
                    && e.pending@.len() == 0,
                Policy::TimeoutDelimited => s matches Segmenter::Timeout(e) && e.pending@.len()
                    == 0,
                Policy::HybridNewlineTimeout => s matches Segmenter::Hybrid(e) && e.pending@.len()
                    == 0,
            },
    {
        match p {
            Policy::FixedLength(n) => Segmenter::Fixed(FixedLengthEngine::new(*n)),
            Policy::TimeoutDelimited => Segmenter::Timeout(TimeoutDelimitedEngine::new()),
            Policy::HybridNewlineTimeout => Segmenter::Hybrid(HybridEngine::new()),
        }
    }
}

/// What one step of the engine means: the exact relation between the
/// engine before the event, the event, the engine after it, and the
/// step's result. A fatal transport error yields no frames, leaves the
/// engine as it was, and is the one thing that ends the run; a timeout is
/// never fatal and drives frame-boundary detection; data is segmented per
/// the policy's walk.
pub open spec fn step_ok(pre: Segmenter, ev: ReadEvent, post: Segmenter, r: StepResult) -> bool {
    &&& r.stop == (ev is Fatal)
    &&& match ev {
        ReadEvent::Fatal => post == pre && r.frames@.len() == 0 && !r.discarded,
        ReadEvent::Timeout => match (pre, post) {
            (Segmenter::Fixed(e), Segmenter::Fixed(e2)) => {
                &&& e2.n == e.n
                &&& e2.pending@.len() == 0
                &&& r.frames@.len() == 0
                &&& r.discarded == (e.pending@.len() > 0)
            },
            (Segmenter::Timeout(e), Segmenter::Timeout(e2)) => {
                let kept = strip_trailing_spaces(e.pending@);
                &&& e2.pending@.len() == 0
                &&& !r.discarded
                &&& frame_views(r.frames@) == (if kept.len() > 0 {
                    seq![kept]
                } else {
                    Seq::<Seq<u8>>::empty()
                })
            },
            (Segmenter::Hybrid(e), Segmenter::Hybrid(e2)) => {
                &&& e2.pending@.len() == 0
                &&& !r.discarded
                &&& frame_views(r.frames@) == (if e.pending@.len() > 0 {
                    seq![e.pending@]
                } else {
                    Seq::<Seq<u8>>::empty()
                })
            },
            _ => false,
        },
        ReadEvent::Data(d) => {
            &&& !r.discarded
            &&& match (pre, post) {
                (Segmenter::Fixed(e), Segmenter::Fixed(e2)) => {
                    let w = fixed_step(e.pending@, e.n as nat, d@);
                    &&& e2.n == e.n
                    &&& e2.pending@ == w.0
                    &&& frame_views(r.frames@) == w.1
                },
                (Segmenter::Timeout(e), Segmenter::Timeout(e2)) => {
                    &&& e2.pending@ == e.pending@ + d@
                    &&& r.frames@.len() == 0
                },
                (Segmenter::Hybrid(e), Segmenter::Hybrid(e2)) => {
                    let w = hybrid_scan(e.pending@, d@);
                    &&& e2.pending@ == w.0
                    &&& frame_views(r.frames@) == w.1
                },
                _ => false,
            }
        },
    }
}

impl Segmenter {
    /// Feeds one read outcome into the engine. The relation between the
    /// engine before and after, the event, and the result is exactly
    /// `step_ok`: in particular, the run stops if and only if the event
    /// is a fatal transport error, and a fatal error yields no frames.
    pub fn on_event(&mut self, ev: ReadEvent) -> (r: StepResult)
        requires
            old(self).wf(),
        ensures
            final(self).wf(),
            step_ok(*old(self), ev, *final(self), r),
    {
        match ev {
            ReadEvent::Fatal => StepResult { frames: Vec::new(), discarded: false, stop: true },
            ReadEvent::Timeout => match self {
                Segmenter::Fixed(e) => {
                    let discarded = e.handle_timeout();
                    StepResult { frames: Vec::new(), discarded, stop: false }
                },
                Segmenter::Timeout(e) => {
                    let mut frames: Vec<Vec<u8>> = Vec::new();
                    let got = e.handle_timeout();
                    match got {
                        Some(f) => {
                            let ghost fv = f@;
                            frames.push(f);
                            proof {
                                assert(frame_views(frames@) =~= seq![fv]);
                            }
                        },
                        None => {
                            proof {
                                assert(frame_views(frames@) =~= Seq::<Seq<u8>>::empty());
                            }
                        },
                    }
                    StepResult { frames, discarded: false, stop: false }
                },
                Segmenter::Hybrid(e) => {
                    let mut frames: Vec<Vec<u8>> = Vec::new();
                    let got = e.handle_timeout();
                    match got {
                        Some(f) => {
                            let ghost fv = f@;
                            frames.push(f);
                            proof {
                                assert(frame_views(frames@) =~= seq![fv]);
                            }
                        },
                        None => {
                            proof {
                                assert(frame_views(frames@) =~= Seq::<Seq<u8>>::empty());
                            }
                        },
                    }
                    StepResult { frames, discarded: false, stop: false }
                },
            },
            ReadEvent::Data(d) => match self {
                Segmenter::Fixed(e) => {
                    let frames = e.push_bytes(d.as_slice());
                    StepResult { frames, discarded: false, stop: false }
                },
                Segmenter::Timeout(e) => {
                    e.push_bytes(d.as_slice());
                    let frames: Vec<Vec<u8>> = Vec::new();
                    StepResult { frames, discarded: false, stop: false }
                },
                Segmenter::Hybrid(e) => {
                    let frames = e.push_bytes(d.as_slice());
                    StepResult { frames, discarded: false, stop: false }
                },
            },
        }
    }
}

} // verus!
