//! Pure frame rendering: a space-separated uppercase hex form and an
//! escaped printable form, each total over any byte sequence, together
//! with decoders and proofs that both forms are lossless and injective.

use vstd::prelude::*;

verus! {

/// The ASCII space byte, used to separate hex byte pairs and treated as
/// idle-line padding by the framing policies.
pub const SPACE: u8 = 0x20;

/// The ASCII backslash byte, the escape lead-in of the escaped form.
pub const BACKSLASH: u8 = 0x5C;

/// A byte in the printable ASCII range, emitted literally by the escaped form.
pub open spec fn is_printable(b: u8) -> bool {
    0x20 <= b && b <= 0x7E
}

/// The ASCII code of the uppercase hex digit for a nibble value below 16.
pub open spec fn hex_digit(n: u8) -> u8 {
    if n < 10 {
        (0x30 + n) as u8
    } else {
        (0x37 + n) as u8
    }
}

/// A byte rendered as two uppercase hex digits.
pub open spec fn hex_pair(b: u8) -> Seq<u8> {
    seq![hex_digit(b / 16), hex_digit(b % 16)]
}

/// The hex rendering of a byte sequence: two uppercase hex digits per
/// byte, byte pairs separated by single spaces, in original order.
pub open spec fn hex_of(bs: Seq<u8>) -> Seq<u8>
    decreases bs.len(),
{
    if bs.len() == 0 {
        Seq::empty()
    } else if bs.len() == 1 {
        hex_pair(bs[0])
    } else {
        hex_pair(bs[0]) + seq![SPACE] + hex_of(bs.skip(1))
    }
}

/// A byte that can appear as a hex digit in the hex rendering.
pub open spec fn is_hex_digit(b: u8) -> bool {
    (0x30 <= b && b <= 0x39) || (0x41 <= b && b <= 0x46)
}

/// The nibble value of an uppercase hex digit byte.
pub open spec fn hex_val(b: u8) -> u8 {
    if b <= 0x39 {
        (b - 0x30) as u8
    } else {
        (b - 0x37) as u8
    }
}

/// The inverse of `hex_of`: parses a space-separated sequence of hex byte
/// pairs, `None` on any malformed input.
pub open spec fn unhex(s: Seq<u8>) -> Option<Seq<u8>>
    decreases s.len(),
{
    if s.len() == 0 {
        Some(Seq::empty())
    } else if s.len() >= 2 && is_hex_digit(s[0]) && is_hex_digit(s[1]) {
        let b = (hex_val(s[0]) * 16 + hex_val(s[1])) as u8;
        if s.len() == 2 {
            Some(seq![b])
        } else if s.len() >= 4 && s[2] == SPACE {
            match unhex(s.skip(3)) {
                Some(r) => Some(seq![b] + r),
                None => None,
            }
        } else {
            None
        }
    } else {
        None
    }
}

/// The escaped rendering of a single byte: printable bytes other than the
/// backslash stand for themselves, the backslash is doubled, and every
/// other byte becomes `\xNN` with two uppercase hex digits.
pub open spec fn escape_byte(b: u8) -> Seq<u8> {
    if b == BACKSLASH {
        seq![BACKSLASH, BACKSLASH]
    } else if is_printable(b) {
        seq![b]
    } else {
        seq![BACKSLASH, 0x78, hex_digit(b / 16), hex_digit(b % 16)]
    }
}

/// The escaped rendering of a byte sequence: the concatenation of the
/// escaped renderings of its bytes, in order.
pub open spec fn escaped_of(bs: Seq<u8>) -> Seq<u8>
    decreases bs.len(),
{
    if bs.len() == 0 {
        Seq::empty()
    } else {
        escape_byte(bs[0]) + escaped_of(bs.skip(1))
    }
}

/// The inverse of `escaped_of`: parses literal printable bytes, doubled
/// backslashes and `\xNN` escapes, `None` on any malformed input.
pub open spec fn unescape(s: Seq<u8>) -> Option<Seq<u8>>
    decreases s.len(),
{
    if s.len() == 0 {
        Some(Seq::empty())
    } else if s[0] != BACKSLASH {
        if is_printable(s[0]) {
            match unescape(s.skip(1)) {
                Some(r) => Some(seq![s[0]] + r),
                None => None,
            }
        } else {
            None
        }
    } else if s.len() >= 2 && s[1] == BACKSLASH {
        match unescape(s.skip(2)) {
            Some(r) => Some(seq![BACKSLASH] + r),
            None => None,
        }
    } else if s.len() >= 4 && s[1] == 0x78 && is_hex_digit(s[2]) && is_hex_digit(s[3]) {
        let b = (hex_val(s[2]) * 16 + hex_val(s[3])) as u8;
        match unescape(s.skip(4)) {
            Some(r) => Some(seq![b] + r),
            None => None,
        }
    } else {
        None
    }
}

/// The characters of an ASCII byte sequence, one per byte.
pub open spec fn chars_of(bs: Seq<u8>) -> Seq<char> {
    bs.map_values(|b: u8| b as char)
}

proof fn lemma_hex_digit_props(n: u8)
    requires
        n < 16,
    ensures
        is_hex_digit(hex_digit(n)),
        hex_val(hex_digit(n)) == n,
        is_printable(hex_digit(n)),
{
}

proof fn lemma_nibbles(b: u8)
    ensures
        b / 16 < 16,
        b % 16 < 16,
        (b / 16) * 16 + b % 16 == b,
{
    assert(b / 16 < 16 && b % 16 < 16 && (b / 16) * 16 + b % 16 == b) by (nonlinear_arith);
}

/// The length of the hex rendering: three bytes per source byte, less the
/// final separator.
pub proof fn lemma_hex_of_len(bs: Seq<u8>)
    ensures
        bs.len() == 0 ==> hex_of(bs).len() == 0,
        bs.len() > 0 ==> hex_of(bs).len() == 3 * bs.len() - 1,
    decreases bs.len(),
{
    if bs.len() > 1 {
        lemma_hex_of_len(bs.skip(1));
    }
}

/// Hex rendering is reversible: decoding the hex form of any byte
/// sequence yields exactly the original bytes.
pub proof fn lemma_unhex_hex_of(bs: Seq<u8>)
    ensures
        unhex(hex_of(bs)) == Some(bs),
    decreases bs.len(),
{
    if bs.len() == 0 {
        assert(bs =~= Seq::<u8>::empty());
    } else {
        let b = bs[0];
        lemma_nibbles(b);
        lemma_hex_digit_props(b / 16);
        lemma_hex_digit_props(b % 16);
        let s = hex_of(bs);
        if bs.len() == 1 {
            assert(s == hex_pair(b));
            assert(s.len() == 2 && s[0] == hex_digit(b / 16) && s[1] == hex_digit(b % 16));
            assert(unhex(s) == Some(seq![b]));
            assert(seq![b] =~= bs);
        } else {
            let rest = bs.skip(1);
            lemma_unhex_hex_of(rest);
            lemma_hex_of_len(rest);
            assert(s == hex_pair(b) + seq![SPACE] + hex_of(rest));
            assert(s.len() == 3 + hex_of(rest).len());
            assert(s[0] == hex_digit(b / 16) && s[1] == hex_digit(b % 16) && s[2] == SPACE);
            assert(s.skip(3) =~= hex_of(rest));
            assert(unhex(s) == Some(seq![b] + rest));
            assert(seq![b] + rest =~= bs);
        }
    }
}

/// Hex rendering is injective: distinct byte sequences have distinct hex forms.
pub proof fn lemma_hex_of_injective(a: Seq<u8>, b: Seq<u8>)
    requires
        hex_of(a) == hex_of(b),
    ensures
        a == b,
{
    lemma_unhex_hex_of(a);
    lemma_unhex_hex_of(b);
}

/// Every byte of the hex rendering is printable ASCII.
pub proof fn lemma_hex_of_printable(bs: Seq<u8>)
    ensures
        forall|i: int| 0 <= i < hex_of(bs).len() ==> is_printable(#[trigger] hex_of(bs)[i]),
    decreases bs.len(),
{
    if bs.len() > 0 {
        lemma_nibbles(bs[0]);
        lemma_hex_digit_props(bs[0] / 16);
        lemma_hex_digit_props(bs[0] % 16);
        if bs.len() > 1 {
            lemma_hex_of_printable(bs.skip(1));
            assert forall|i: int| 0 <= i < hex_of(bs).len() implies is_printable(
                #[trigger] hex_of(bs)[i],
            ) by {
                assert(hex_of(bs) == hex_pair(bs[0]) + seq![SPACE] + hex_of(bs.skip(1)));
                if i >= 3 {
                    assert(hex_of(bs)[i] == hex_of(bs.skip(1))[i - 3]);
                }
            }
        }
    }
}

/// Every byte of the escaped rendering of a single byte is printable ASCII.
proof fn lemma_escape_byte_printable(b: u8)
    ensures
        forall|i: int| 0 <= i < escape_byte(b).len() ==> is_printable(#[trigger] escape_byte(b)[i]),
{
    lemma_nibbles(b);
    lemma_hex_digit_props(b / 16);
    lemma_hex_digit_props(b % 16);
}

/// The escaped rendering never contains a byte outside the printable
/// ASCII range: control and non-ASCII bytes only appear escaped.
pub proof fn lemma_escaped_of_printable(bs: Seq<u8>)
    ensures
        forall|i: int| 0 <= i < escaped_of(bs).len() ==> is_printable(#[trigger] escaped_of(bs)[i]),
    decreases bs.len(),
{
    if bs.len() > 0 {
        lemma_escape_byte_printable(bs[0]);
        lemma_escaped_of_printable(bs.skip(1));
        assert forall|i: int| 0 <= i < escaped_of(bs).len() implies is_printable(
            #[trigger] escaped_of(bs)[i],
        ) by {
            assert(escaped_of(bs) == escape_byte(bs[0]) + escaped_of(bs.skip(1)));
            let e = escape_byte(bs[0]);
            if i < e.len() {
                assert(escaped_of(bs)[i] == e[i]);
            } else {
                assert(escaped_of(bs)[i] == escaped_of(bs.skip(1))[i - e.len()]);
            }
        }
    }
}

/// Escaped rendering is reversible: decoding the escaped form of any byte
/// sequence yields exactly the original bytes.
pub proof fn lemma_unescape_escaped_of(bs: Seq<u8>)
    ensures
        unescape(escaped_of(bs)) == Some(bs),
    decreases bs.len(),
{
    if bs.len() == 0 {
        assert(bs =~= Seq::<u8>::empty());
    } else {
        let b = bs[0];
        let rest = bs.skip(1);
        lemma_unescape_escaped_of(rest);
        let s = escaped_of(bs);
        assert(s == escape_byte(b) + escaped_of(rest));
        if b == BACKSLASH {
            assert(s.len() >= 2 && s[0] == BACKSLASH && s[1] == BACKSLASH);
            assert(s.skip(2) =~= escaped_of(rest));
            assert(unescape(s) == Some(seq![b] + rest));
        } else if is_printable(b) {
            assert(s[0] == b);
            assert(s.skip(1) =~= escaped_of(rest));
            assert(unescape(s) == Some(seq![b] + rest));
        } else {
            lemma_nibbles(b);
            lemma_hex_digit_props(b / 16);
            lemma_hex_digit_props(b % 16);
            assert(s.len() >= 4 && s[0] == BACKSLASH && s[1] == 0x78);
            assert(s[2] == hex_digit(b / 16) && s[3] == hex_digit(b % 16));
            assert(s.skip(4) =~= escaped_of(rest));
            assert(unescape(s) == Some(seq![b] + rest));
        }
        assert(seq![b] + rest =~= bs);
    }
}

/// Escaped rendering is injective: distinct byte sequences have distinct
/// escaped forms.
pub proof fn lemma_escaped_of_injective(a: Seq<u8>, b: Seq<u8>)
    requires
        escaped_of(a) == escaped_of(b),
    ensures
        a == b,
{
    lemma_unescape_escaped_of(a);
    lemma_unescape_escaped_of(b);
}

/// Appending a byte extends the hex rendering by a separator and one pair.
proof fn lemma_hex_of_push(s: Seq<u8>, b: u8)
    ensures
        s.len() == 0 ==> hex_of(s.push(b)) == hex_pair(b),
        s.len() > 0 ==> hex_of(s.push(b)) == hex_of(s) + seq![SPACE] + hex_pair(b),
    decreases s.len(),
{
    let p = s.push(b);
    if s.len() == 0 {
        assert(p.len() == 1 && p[0] == b);
    } else if s.len() == 1 {
        assert(p.len() == 2 && p[0] == s[0]);
        assert(p.skip(1) =~= seq![b]);
        assert(hex_of(p.skip(1)) == hex_pair(b));
        assert(hex_of(p) =~= hex_of(s) + seq![SPACE] + hex_pair(b));
    } else {
        lemma_hex_of_push(s.skip(1), b);
        assert(p.skip(1) =~= s.skip(1).push(b));
        assert(hex_of(p) == hex_pair(s[0]) + seq![SPACE] + hex_of(s.skip(1).push(b)));
        assert(hex_of(p) =~= hex_of(s) + seq![SPACE] + hex_pair(b));
    }
}

/// Appending a byte extends the escaped rendering by that byte's escape.
proof fn lemma_escaped_of_push(s: Seq<u8>, b: u8)
    ensures
        escaped_of(s.push(b)) == escaped_of(s) + escape_byte(b),
    decreases s.len(),
{
    let p = s.push(b);
    if s.len() == 0 {
        assert(p.len() == 1 && p[0] == b);
        assert(p.skip(1) =~= Seq::<u8>::empty());
        assert(escaped_of(p) == escape_byte(b) + escaped_of(p.skip(1)));
        assert(escaped_of(p.skip(1)) == Seq::<u8>::empty());
        assert(escaped_of(s) == Seq::<u8>::empty());
        assert(escape_byte(b) + Seq::<u8>::empty() =~= Seq::<u8>::empty() + escape_byte(b));
        assert(escaped_of(p) == escaped_of(s) + escape_byte(b));
    } else {
        lemma_escaped_of_push(s.skip(1), b);
        assert(p.skip(1) =~= s.skip(1).push(b));
        assert(p[0] == s[0]);
        assert(escaped_of(p) == escape_byte(s[0]) + escaped_of(s.skip(1).push(b)));
        assert(escaped_of(s) == escape_byte(s[0]) + escaped_of(s.skip(1)));
        vstd::seq_lib::lemma_concat_associative(
            escape_byte(s[0]),
            escaped_of(s.skip(1)),
            escape_byte(b),
        );
        assert(escaped_of(p) == escaped_of(s) + escape_byte(b));
    }
}

/// Whether a byte is an uppercase hex digit of the hex rendering.
fn is_hex_digit_byte(b: u8) -> (r: bool)
    ensures
        r == is_hex_digit(b),
{
    (0x30 <= b && b <= 0x39) || (0x41 <= b && b <= 0x46)
}

/// The nibble value of an uppercase hex digit byte.
fn hex_val_byte(b: u8) -> (r: u8)
    requires
        is_hex_digit(b),
    ensures
        r == hex_val(b),
{
    if b <= 0x39 {
        b - 0x30
    } else {
        b - 0x37
    }
}

/// Appends the two uppercase hex digits of a byte.
fn push_hex_pair(out: &mut Vec<u8>, b: u8)
    ensures
        final(out)@ == old(out)@ + hex_pair(b),
{
    proof {
        lemma_nibbles(b);
    }
    let hi = b / 16;
    let lo = b % 16;
    out.push(if hi < 10 { 0x30 + hi } else { 0x37 + hi });
    out.push(if lo < 10 { 0x30 + lo } else { 0x37 + lo });
    assert(out@ =~= old(out)@ + hex_pair(b));
}

/// The hex rendering of a frame as raw ASCII bytes.
pub fn hex_line_bytes(bytes: &[u8]) -> (out: Vec<u8>)
    ensures
        out@ == hex_of(bytes@),
{
    let mut out: Vec<u8> = Vec::new();
    let mut i: usize = 0;
    while i < bytes.len()
        invariant
            i <= bytes.len(),
            out@ == hex_of(bytes@.take(i as int)),
        decreases bytes.len() - i,
    {
        let b = bytes[i];
        let ghost prefix = bytes@.take(i as int);
        if i > 0 {
            out.push(SPACE);
        }
        push_hex_pair(&mut out, b);
        proof {
            lemma_hex_of_push(prefix, b);
            assert(bytes@.take(i + 1 as int) =~= prefix.push(b));
            if i == 0 {
                assert(out@ =~= hex_pair(b));
            } else {
                assert(out@ =~= hex_of(prefix) + seq![SPACE] + hex_pair(b));
            }
        }
        i = i + 1;
    }
    assert(bytes@.take(bytes@.len() as int) =~= bytes@);
    out
}

/// The escaped rendering of a frame as raw ASCII bytes.
pub fn escaped_line_bytes(bytes: &[u8]) -> (out: Vec<u8>)
    ensures
        out@ == escaped_of(bytes@),
{
    let mut out: Vec<u8> = Vec::new();
    let mut i: usize = 0;
    while i < bytes.len()
        invariant
            i <= bytes.len(),
            out@ == escaped_of(bytes@.take(i as int)),
        decreases bytes.len() - i,
    {
        let b = bytes[i];
        let ghost prefix = bytes@.take(i as int);
        if b == BACKSLASH {
            out.push(BACKSLASH);
            out.push(BACKSLASH);
        } else if 0x20 <= b && b <= 0x7E {
            out.push(b);
        } else {
            proof {
                lemma_nibbles(b);
            }
            out.push(BACKSLASH);
            out.push(0x78);
            push_hex_pair(&mut out, b);
        }
        proof {
            lemma_escaped_of_push(prefix, b);
            assert(bytes@.take(i + 1 as int) =~= prefix.push(b));
            assert(out@ =~= escaped_of(prefix) + escape_byte(b));
        }
        i = i + 1;
    }
    assert(bytes@.take(bytes@.len() as int) =~= bytes@);
    out
}

/// Relies on `String::from_utf8`: a byte vector that is entirely ASCII is
/// valid UTF-8 and decodes to one character per byte, each character
/// having the same code point as its byte.
#[verifier::external_body]
fn ascii_string_of(bytes: Vec<u8>) -> (s: String)
    requires
        forall|i: int| 0 <= i < bytes@.len() ==> bytes@[i] < 0x80,
    ensures
        s@ == chars_of(bytes@),
{
    match String::from_utf8(bytes) {
        Ok(s) => s,
        Err(_) => String::new(),
    }
}

/// The hex rendering of a frame: two uppercase hex digits per byte,
/// byte pairs separated by single spaces, in original order.
pub fn to_hex_string(bytes: &[u8]) -> (s: String)
    ensures
        s@ == chars_of(hex_of(bytes@)),
{
    let line = hex_line_bytes(bytes);
    proof {
        lemma_hex_of_printable(bytes@);
    }
    ascii_string_of(line)
}

/// The escaped rendering of a frame: printable ASCII bytes stand for
/// themselves, the backslash is doubled, every other byte appears as
/// `\xNN` with two uppercase hex digits.
pub fn to_escaped_string(bytes: &[u8]) -> (s: String)
    ensures
        s@ == chars_of(escaped_of(bytes@)),
{
    let line = escaped_line_bytes(bytes);
    proof {
        lemma_escaped_of_printable(bytes@);
    }
    ascii_string_of(line)
}

/// Lifts a parsed prefix in front of the outcome of parsing the rest.
spec fn opt_prepend(p: Seq<u8>, o: Option<Seq<u8>>) -> Option<Seq<u8>> {
    match o {
        Some(r) => Some(p + r),
        None => None,
    }
}

/// Decodes a hex rendering back to the original bytes, `None` on any
/// input that is not a space-separated sequence of uppercase hex pairs.
pub fn from_hex_bytes(data: &[u8]) -> (r: Option<Vec<u8>>)
    ensures
        match r {
            Some(v) => unhex(data@) == Some(v@),
            None => unhex(data@) is None,
        },
{
    let ghost whole = data@;
    let mut out: Vec<u8> = Vec::new();
    if data.len() == 0 {
        assert(whole =~= Seq::<u8>::empty());
        return Some(out);
    }
    let mut i: usize = 0;
    proof {
        assert(whole.skip(0) =~= whole);
        match unhex(whole) {
            Some(r) => {
                assert(Seq::<u8>::empty() + r =~= r);
            },
            None => {},
        }
    }
    loop
        invariant
            i < data.len(),
            data@ == whole,
            unhex(whole) == opt_prepend(out@, unhex(whole.skip(i as int))),
        decreases data.len() - i,
    {
        let ghost s = whole.skip(i as int);
        let ghost before = out@;
        if i + 1 >= data.len() {
            assert(s.len() == 1);
            assert(unhex(s) is None);
            return None;
        }
        let c0 = data[i];
        let c1 = data[i + 1];
        assert(s[0] == c0 && s[1] == c1);
        if !is_hex_digit_byte(c0) || !is_hex_digit_byte(c1) {
            assert(unhex(s) is None);
            return None;
        }
        let b = hex_val_byte(c0) * 16 + hex_val_byte(c1);
        out.push(b);
        if i + 2 == data.len() {
            assert(s.len() == 2);
            assert(unhex(s) == Some(seq![b]));
            assert(before + seq![b] =~= out@);
            return Some(out);
        }
        assert(s.len() >= 3);
        if data[i + 2] != SPACE {
            assert(s[2] != SPACE);
            assert(unhex(s) is None);
            return None;
        }
        if i + 3 >= data.len() {
            assert(s.len() == 3);
            assert(unhex(s) is None);
            return None;
        }
        assert(s.len() >= 4 && s[2] == SPACE);
        proof {
            assert(whole.skip(i + 3 as int) =~= s.skip(3));
            assert(unhex(s) == opt_prepend(seq![b], unhex(s.skip(3))));
            match unhex(s.skip(3)) {
                Some(rest) => {
                    assert(before + (seq![b] + rest) =~= out@ + rest);
                },
                None => {},
            }
        }
        i = i + 3;
    }
}

/// Decodes an escaped rendering back to the original bytes, `None` on any
/// input that is not a well-formed escaped form.
pub fn from_escaped_bytes(data: &[u8]) -> (r: Option<Vec<u8>>)
    ensures
        match r {
            Some(v) => unescape(data@) == Some(v@),
            None => unescape(data@) is None,
        },
{
    let ghost whole = data@;
    let mut out: Vec<u8> = Vec::new();
    let mut i: usize = 0;
    proof {
        assert(whole.skip(0) =~= whole);
        match unescape(whole) {
            Some(r) => {
                assert(Seq::<u8>::empty() + r =~= r);
            },
            None => {},
        }
    }
    while i < data.len()
        invariant
            i <= data.len(),
            data@ == whole,
            unescape(whole) == opt_prepend(out@, unescape(whole.skip(i as int))),
        decreases data.len() - i,
    {
        let ghost s = whole.skip(i as int);
        let ghost before = out@;
        let c = data[i];
        assert(s[0] == c);
        let step: usize;
        if c != BACKSLASH {
            if 0x20 <= c && c <= 0x7E {
                out.push(c);
                step = 1;
                assert(unescape(s) == opt_prepend(seq![c], unescape(s.skip(1))));
            } else {
                assert(unescape(s) is None);
                return None;
            }
        } else if i + 1 < data.len() && data[i + 1] == BACKSLASH {
            assert(s.len() >= 2 && s[1] == BACKSLASH);
            out.push(BACKSLASH);
            step = 2;
            assert(unescape(s) == opt_prepend(seq![BACKSLASH], unescape(s.skip(2))));
        } else if data.len() - i >= 4 && data[i + 1] == 0x78 && is_hex_digit_byte(data[i + 2])
            && is_hex_digit_byte(data[i + 3]) {
            assert(s.len() >= 4 && s[1] == 0x78 && is_hex_digit(s[2]) && is_hex_digit(s[3]));
            let b = hex_val_byte(data[i + 2]) * 16 + hex_val_byte(data[i + 3]);
            out.push(b);
            step = 4;
            assert(unescape(s) == opt_prepend(seq![b], unescape(s.skip(4))));
        } else {
            assert(s.len() >= 2 ==> s[1] != BACKSLASH);
            assert(s.len() >= 4 ==> !(s[1] == 0x78 && is_hex_digit(s[2]) && is_hex_digit(s[3])));
            assert(unescape(s) is None);
            return None;
        }
        proof {
            assert(whole.skip(i + step as int) =~= s.skip(step as int));
            let pushed = out@.skip(before.len() as int);
            assert(out@ =~= before + pushed);
            match unescape(s.skip(step as int)) {
                Some(rest) => {
                    assert(before + (pushed + rest) =~= out@ + rest);
                },
                None => {},
            }
        }
        i = i + step;
    }
    assert(whole.skip(i as int) =~= Seq::<u8>::empty());
    Some(out)
}

} // verus!
