//! Escaping of arbitrary bytes into printable ASCII, and the reverse.

use vstd::prelude::*;
use vstd::utf8::*;
use crate::text::{ascii_chars, is_ascii_bytes, lemma_ascii_decode, string_from_utf8, string_push};
use vstd::string::StringExecFns;

verus! {

/// The lowercase hexadecimal digit for a value below 16.
pub open spec fn hex_digit_lower(v: u8) -> u8 {
    if v < 10 { (0x30 + v) as u8 } else { (0x61 + v - 10) as u8 }
}

/// The escape sequence that stands for a byte, or `None` where the byte
/// stands for itself.
pub open spec fn spec_escape_byte(b: u8) -> Option<Seq<u8>> {
    if b == 0x09 {
        Some(seq![0x5cu8, 0x74u8])
    } else if b == 0x0d {
        Some(seq![0x5cu8, 0x72u8])
    } else if b == 0x0a {
        Some(seq![0x5cu8, 0x6eu8])
    } else if b == 0x20 {
        Some(seq![0x5cu8, 0x20u8])
    } else if b == 0x27 {
        Some(seq![0x5cu8, 0x27u8])
    } else if b == 0x22 {
        Some(seq![0x5cu8, 0x22u8])
    } else if b == 0x5c {
        Some(seq![0x5cu8, 0x5cu8])
    } else if 0x20 <= b < 0x7f {
        None
    } else {
        Some(seq![0x5cu8, 0x78u8, hex_digit_lower(b / 16), hex_digit_lower(b % 16)])
    }
}

/// What a byte becomes in escaped text.
pub open spec fn escaped_byte(b: u8) -> Seq<u8> {
    match spec_escape_byte(b) {
        Some(s) => s,
        None => seq![b],
    }
}

/// The escaped form of a byte string: each byte replaced by `escaped_byte`.
pub open spec fn spec_escape(bytes: Seq<u8>) -> Seq<u8>
    decreases bytes.len(),
{
    if bytes.len() == 0 {
        seq![]
    } else {
        escaped_byte(bytes[0]) + spec_escape(bytes.drop_first())
    }
}

/// A printable ASCII byte (space included).
pub open spec fn is_printable_ascii(b: u8) -> bool {
    0x20 <= b <= 0x7e
}

pub proof fn lemma_escape_push(a: Seq<u8>, x: u8)
    ensures
        spec_escape(a.push(x)) == spec_escape(a) + escaped_byte(x),
    decreases a.len(),
{
    if a.len() == 0 {
        assert(a.push(x).drop_first() =~= Seq::<u8>::empty());
        assert(spec_escape(a.push(x)) =~= escaped_byte(x) + spec_escape(Seq::<u8>::empty()));
    } else {
        assert(a.push(x).drop_first() =~= a.drop_first().push(x));
        lemma_escape_push(a.drop_first(), x);
        assert(spec_escape(a.push(x)) =~= escaped_byte(a[0]) + (spec_escape(a.drop_first()) + escaped_byte(x)));
    }
}

proof fn lemma_escaped_byte_printable(b: u8)
    ensures
        forall|i: int| 0 <= i < escaped_byte(b).len() ==> is_printable_ascii(#[trigger] escaped_byte(b)[i]),
        1 <= escaped_byte(b).len() <= 4,
{
    let e = escaped_byte(b);
    if spec_escape_byte(b) is None {
        assert(e =~= seq![b]);
    } else if !(b == 0x09 || b == 0x0d || b == 0x0a || b == 0x20 || b == 0x27 || b == 0x22 || b == 0x5c) {
        let hi = hex_digit_lower(b / 16);
        let lo = hex_digit_lower(b % 16);
        assert(is_printable_ascii(hi) && is_printable_ascii(lo));
        assert(e =~= seq![0x5cu8, 0x78u8, hi, lo]);
    }
}

/// Escaped text consists of printable ASCII only: no control bytes, no
/// byte at or above 0x7f.
pub proof fn law_escape_printable(bytes: Seq<u8>)
    ensures
        forall|i: int| 0 <= i < spec_escape(bytes).len() ==> is_printable_ascii(#[trigger] spec_escape(bytes)[i]),
    decreases bytes.len(),
{
    if bytes.len() > 0 {
        law_escape_printable(bytes.drop_first());
        lemma_escaped_byte_printable(bytes[0]);
        let e = escaped_byte(bytes[0]);
        let r = spec_escape(bytes.drop_first());
        assert forall|i: int| 0 <= i < spec_escape(bytes).len() implies is_printable_ascii(#[trigger] spec_escape(bytes)[i]) by {
            if i < e.len() {
                assert(spec_escape(bytes)[i] == e[i]);
            } else {
                assert(spec_escape(bytes)[i] == r[i - e.len()]);
            }
        }
    }
}

fn hex_digit(v: u8) -> (d: u8)
    requires
        v < 16,
    ensures
        d == hex_digit_lower(v),
{
    if v < 10 { 0x30 + v } else { 0x61 + v - 10 }
}

/// The escape sequence of one byte: `\t`, `\r`, `\n`, `\ `, `\'`, `\"` and
/// `\\` for those bytes, nothing for the other printable ASCII bytes, and
/// `\xNN` with two lowercase hex digits for every other byte.
pub fn escape_byte(b: u8) -> (r: Option<Vec<u8>>)
    ensures
        r matches Some(v) ==> spec_escape_byte(b) == Some(v@),
        r is None ==> spec_escape_byte(b) is None,
{
    if b == 0x09 {
        Some(vec![0x5c, 0x74])
    } else if b == 0x0d {
        Some(vec![0x5c, 0x72])
    } else if b == 0x0a {
        Some(vec![0x5c, 0x6e])
    } else if b == 0x20 {
        Some(vec![0x5c, 0x20])
    } else if b == 0x27 {
        Some(vec![0x5c, 0x27])
    } else if b == 0x22 {
        Some(vec![0x5c, 0x22])
    } else if b == 0x5c {
        Some(vec![0x5c, 0x5c])
    } else if 0x20 <= b && b < 0x7f {
        None
    } else {
        let v = vec![0x5c, 0x78, hex_digit(b / 16), hex_digit(b % 16)];
        assert(v@ =~= seq![0x5cu8, 0x78u8, hex_digit_lower(b / 16), hex_digit_lower(b % 16)]);
        Some(v)
    }
}

/// Escapes a byte string into printable ASCII text (see `escape_byte`).
pub fn escape(bytes: &[u8]) -> (s: String)
    ensures
        encode_utf8(s@) == spec_escape(bytes@),
        s@ == ascii_chars(spec_escape(bytes@)),
{
    let mut buf: Vec<u8> = Vec::new();
    let n = bytes.len();
    for i in 0..n
        invariant
            n == bytes@.len(),
            buf@ == spec_escape(bytes@.take(i as int)),
    {
        let b = bytes[i];
        proof {
            lemma_escape_push(bytes@.take(i as int), b);
            assert(bytes@.take(i as int).push(b) =~= bytes@.take(i + 1));
        }
        match escape_byte(b) {
            Some(seq) => {
                let mut seq = seq;
                buf.append(&mut seq);
            },
            None => buf.push(b),
        }
    }
    assert(bytes@.take(n as int) =~= bytes@);
    proof {
        law_escape_printable(bytes@);
        assert(is_ascii_bytes(buf@));
        lemma_ascii_decode(buf@);
    }
    match string_from_utf8(buf) {
        Some(s) => s,
        None => unreached(),
    }
}

} // verus!

verus! {

/// The failure of `unescape`, with a message that says what was wrong.
#[derive(Debug, PartialEq, Eq)]
pub enum UnescapeError {
    InvalidEscapeSequence(String),
}

/// The value of a hexadecimal digit (either case).
pub open spec fn hex_value(b: u8) -> Option<u8> {
    if 0x30 <= b <= 0x39 {
        Some((b - 0x30) as u8)
    } else if 0x41 <= b <= 0x46 {
        Some((b - 0x41 + 10) as u8)
    } else if 0x61 <= b <= 0x66 {
        Some((b - 0x61 + 10) as u8)
    } else {
        None
    }
}

/// What reading the two-byte text `d0 d1` as a base-16 `u8` gives: an
/// optional leading `+` followed by hexadecimal digits of either case.
pub open spec fn spec_parse_hex_pair(d0: u8, d1: u8) -> Option<u8> {
    if d0 == 0x2b {
        hex_value(d1)
    } else {
        match (hex_value(d0), hex_value(d1)) {
            (Some(h), Some(l)) => Some((h * 16 + l) as u8),
            _ => None,
        }
    }
}

/// The byte that a backslash followed by `c` stands for (other than `\x`).
pub open spec fn spec_unescape_char(c: u8) -> Option<u8> {
    if c == 0x74 {
        Some(0x09u8)
    } else if c == 0x72 {
        Some(0x0du8)
    } else if c == 0x6e {
        Some(0x0au8)
    } else if c == 0x20 || c == 0x27 || c == 0x22 || c == 0x5c {
        Some(c)
    } else {
        None
    }
}

/// The characters that lossy UTF-8 decoding gives for at most one byte.
pub open spec fn lossy_short(d: Seq<u8>) -> Seq<char> {
    if d.len() == 0 {
        seq![]
    } else if d[0] < 0x80 {
        seq![d[0] as char]
    } else {
        seq!['\u{FFFD}']
    }
}

/// `prefix` put in front of a successful result; an error is kept as is.
pub open spec fn prefix_with(prefix: Seq<u8>, r: Result<Seq<u8>, Seq<char>>) -> Result<Seq<u8>, Seq<char>> {
    match r {
        Ok(rest) => Ok(prefix + rest),
        Err(m) => Err(m),
    }
}

impl UnescapeError {
    /// The message the error is shown with: `invalid escape sequence: `
    /// followed by what was wrong.
    pub fn to_display_string(&self) -> (s: String)
        ensures
            match self {
                UnescapeError::InvalidEscapeSequence(m) => s@ == "invalid escape sequence: "@ + m@,
            },
    {
        match self {
            UnescapeError::InvalidEscapeSequence(m) => {
                let mut s = "invalid escape sequence: ".to_owned();
                s.append(m.as_str());
                s
            },
        }
    }
}

/// The bytes that escaped text stands for, or the message of the first
/// malformed escape sequence in it.
pub open spec fn spec_unescape(s: Seq<u8>) -> Result<Seq<u8>, Seq<char>>
    decreases s.len(),
{
    if s.len() == 0 {
        Ok(seq![])
    } else if s[0] != 0x5c {
        prefix_with(seq![s[0]], spec_unescape(s.drop_first()))
    } else if s.len() == 1 {
        Err("trailing backslash"@)
    } else if s[1] == 0x78 {
        if s.len() < 4 {
            Err("incomplete hex escape: \\x"@ + lossy_short(s.subrange(2, s.len() as int)))
        } else if !valid_utf8(s.subrange(2, 4)) {
            Err("invalid UTF-8 in hex digits"@)
        } else {
            match spec_parse_hex_pair(s[2], s[3]) {
                Some(v) => prefix_with(seq![v], spec_unescape(s.subrange(4, s.len() as int))),
                None => Err("invalid hex byte: \\x"@ + decode_utf8(s.subrange(2, 4))),
            }
        }
    } else {
        match spec_unescape_char(s[1]) {
            Some(c) => prefix_with(seq![c], spec_unescape(s.subrange(2, s.len() as int))),
            None => Err("unrecognized escape sequence: \\"@ + seq![s[1] as char]),
        }
    }
}

/// Unescaping succeeds but what it yields is not well-formed UTF-8, so it
/// cannot become a `String`.
pub open spec fn unescape_yields_non_utf8(s: Seq<u8>) -> bool {
    spec_unescape(s) matches Ok(out) && !valid_utf8(out)
}

fn hex_value_of(b: u8) -> (r: Option<u8>)
    ensures
        r == hex_value(b),
{
    if 0x30 <= b && b <= 0x39 {
        Some(b - 0x30)
    } else if 0x41 <= b && b <= 0x46 {
        Some(b - 0x41 + 10)
    } else if 0x61 <= b && b <= 0x66 {
        Some(b - 0x61 + 10)
    } else {
        None
    }
}

fn parse_hex_pair(d0: u8, d1: u8) -> (r: Option<u8>)
    ensures
        r == spec_parse_hex_pair(d0, d1),
{
    if d0 == 0x2b {
        hex_value_of(d1)
    } else {
        match (hex_value_of(d0), hex_value_of(d1)) {
            (Some(h), Some(l)) => Some(h * 16 + l),
            _ => None,
        }
    }
}

fn unescape_char(c: u8) -> (r: Option<u8>)
    ensures
        r == spec_unescape_char(c),
{
    if c == 0x74 {
        Some(0x09)
    } else if c == 0x72 {
        Some(0x0d)
    } else if c == 0x6e {
        Some(0x0a)
    } else if c == 0x20 || c == 0x27 || c == 0x22 || c == 0x5c {
        Some(c)
    } else {
        None
    }
}

fn invalid(message: String) -> (e: UnescapeError)
    ensures
        e == UnescapeError::InvalidEscapeSequence(message),
{
    UnescapeError::InvalidEscapeSequence(message)
}

/// Reverses `escape`: reads escaped text back into the bytes it stands for.
/// Fails, with a message, at the first backslash that starts no valid escape
/// sequence.
pub fn unescape_bytes(s: &[u8]) -> (r: Result<Vec<u8>, UnescapeError>)
    ensures
        match (r, spec_unescape(s@)) {
            (Ok(v), Ok(out)) => v@ == out,
            (Err(UnescapeError::InvalidEscapeSequence(m)), Err(msg)) => m@ == msg,
            _ => false,
        },
{
    let n = s.len();
    let mut buf: Vec<u8> = Vec::new();
    let mut i: usize = 0;
    assert(s@.subrange(0, n as int) =~= s@);
    while i < n
        invariant
            n == s@.len(),
            i <= n,
            spec_unescape(s@) == prefix_with(buf@, spec_unescape(s@.subrange(i as int, n as int))),
        decreases n - i,
    {
        let ghost t = s@.subrange(i as int, n as int);
        let b = s[i];
        if b != 0x5c {
            proof {
                assert(t.drop_first() =~= s@.subrange(i + 1, n as int));
                assert(buf@.push(b) =~= buf@ + seq![b]);
                match spec_unescape(t.drop_first()) {
                    Ok(x) => { assert(buf@ + (seq![b] + x) =~= buf@.push(b) + x); },
                    Err(_) => {},
                }
            }
            buf.push(b);
            i = i + 1;
            continue;
        }
        if i + 1 >= n {
            return Err(invalid("trailing backslash".to_owned()));
        }
        let c = s[i + 1];
        if c == 0x78 {
            if n - (i + 2) < 2 {
                let mut m = "incomplete hex escape: \\x".to_owned();
                let ghost head = m@;
                if i + 2 < n {
                    let d = s[i + 2];
                    if d < 0x80 {
                        string_push(&mut m, d as char);
                    } else {
                        string_push(&mut m, '\u{FFFD}');
                    }
                    assert(t.subrange(2, t.len() as int) =~= seq![d]);
                } else {
                    assert(t.subrange(2, t.len() as int) =~= Seq::<u8>::empty());
                    assert(m@ =~= head + lossy_short(t.subrange(2, t.len() as int)));
                }
                return Err(invalid(m));
            }
            let d0 = s[i + 2];
            let d1 = s[i + 3];
            assert(t.subrange(2, 4) =~= seq![d0, d1]);
            let digits = vec![d0, d1];
            assert(digits@ =~= seq![d0, d1]);
            match string_from_utf8(digits) {
                None => {
                    return Err(invalid("invalid UTF-8 in hex digits".to_owned()));
                },
                Some(text) => {
                    match parse_hex_pair(d0, d1) {
                        Some(v) => {
                            proof {
                                assert(t.subrange(4, t.len() as int) =~= s@.subrange(i + 4, n as int));
                                match spec_unescape(t.subrange(4, t.len() as int)) {
                                    Ok(x) => { assert(buf@ + (seq![v] + x) =~= buf@.push(v) + x); },
                                    Err(_) => {},
                                }
                            }
                            buf.push(v);
                            i = i + 4;
                        },
                        None => {
                            let mut m = "invalid hex byte: \\x".to_owned();
                            m.append(text.as_str());
                            return Err(invalid(m));
                        },
                    }
                },
            }
        } else {
            match unescape_char(c) {
                Some(v) => {
                    proof {
                        assert(t.subrange(2, t.len() as int) =~= s@.subrange(i + 2, n as int));
                        match spec_unescape(t.subrange(2, t.len() as int)) {
                            Ok(x) => { assert(buf@ + (seq![v] + x) =~= buf@.push(v) + x); },
                            Err(_) => {},
                        }
                    }
                    buf.push(v);
                    i = i + 2;
                },
                None => {
                    let mut m = "unrecognized escape sequence: \\".to_owned();
                    string_push(&mut m, c as char);
                    return Err(invalid(m));
                },
            }
        }
    }
    assert(s@.subrange(n as int, n as int) =~= Seq::<u8>::empty());
    assert(buf@ + Seq::<u8>::empty() =~= buf@);
    Ok(buf)
}

/// Reverses `escape` into a `String`. The unescaped bytes must form
/// well-formed UTF-8 (where they do not, there is no such `String`).
pub fn unescape(s: &[u8]) -> (r: Result<String, UnescapeError>)
    requires
        !unescape_yields_non_utf8(s@),
    ensures
        match (r, spec_unescape(s@)) {
            (Ok(text), Ok(out)) => encode_utf8(text@) == out && text@ == decode_utf8(out),
            (Err(UnescapeError::InvalidEscapeSequence(m)), Err(msg)) => m@ == msg,
            _ => false,
        },
{
    match unescape_bytes(s) {
        Ok(buf) => {
            let ghost out = buf@;
            match string_from_utf8(buf) {
                Some(text) => {
                    proof { decode_utf8_encode_utf8(out); }
                    Ok(text)
                },
                None => unreached(),
            }
        },
        Err(e) => Err(e),
    }
}

} // verus!

verus! {

proof fn lemma_hex_digit_roundtrip(v: u8)
    requires
        v < 16,
    ensures
        hex_value(hex_digit_lower(v)) == Some(v),
        hex_digit_lower(v) != 0x2b,
        hex_digit_lower(v) < 0x80,
{
}

proof fn lemma_unescape_escaped_byte(x: u8, t: Seq<u8>)
    ensures
        spec_unescape(escaped_byte(x) + t) == prefix_with(seq![x], spec_unescape(t)),
{
    let s = escaped_byte(x) + t;
    if spec_escape_byte(x) is None {
        assert(s[0] == x);
        assert(s.drop_first() =~= t);
    } else if x == 0x09 || x == 0x0d || x == 0x0a || x == 0x20 || x == 0x27 || x == 0x22 || x == 0x5c {
        assert(s[0] == 0x5c);
        assert(s.subrange(2, s.len() as int) =~= t);
    } else {
        let h = hex_digit_lower(x / 16);
        let l = hex_digit_lower(x % 16);
        lemma_hex_digit_roundtrip(x / 16);
        lemma_hex_digit_roundtrip(x % 16);
        assert(s[0] == 0x5c && s[1] == 0x78 && s[2] == h && s[3] == l);
        assert(s.subrange(2, 4) =~= seq![h, l]);
        assert(is_ascii_bytes(seq![h, l]));
        lemma_ascii_decode(seq![h, l]);
        assert(spec_parse_hex_pair(h, l) == Some(x));
        assert(s.subrange(4, s.len() as int) =~= t);
    }
}

/// Unescaping undoes escaping: for every byte string `b`, the escaped text of
/// `b` reads back as exactly `b`; where `b` is well-formed UTF-8 it also
/// reads back as a `String`.
pub proof fn law_unescape_inverts_escape(b: Seq<u8>)
    ensures
        spec_unescape(spec_escape(b)) == Ok::<Seq<u8>, Seq<char>>(b),
        valid_utf8(b) ==> !unescape_yields_non_utf8(spec_escape(b)),
    decreases b.len(),
{
    if b.len() == 0 {
        assert(spec_escape(b) =~= Seq::<u8>::empty());
        assert(b =~= Seq::<u8>::empty());
    } else {
        law_unescape_inverts_escape(b.drop_first());
        lemma_unescape_escaped_byte(b[0], spec_escape(b.drop_first()));
        assert(spec_escape(b) == escaped_byte(b[0]) + spec_escape(b.drop_first()));
        assert(seq![b[0]] + b.drop_first() =~= b);
    }
}

/// Distinct byte strings have distinct escaped forms.
pub proof fn law_escape_injective(a: Seq<u8>, b: Seq<u8>)
    requires
        spec_escape(a) == spec_escape(b),
    ensures
        a == b,
{
    law_unescape_inverts_escape(a);
    law_unescape_inverts_escape(b);
}

/// A printable ASCII byte that needs no escaping: anything from `!` to `~`
/// but the quote, the double quote and the backslash.
pub open spec fn is_plain_byte(b: u8) -> bool {
    0x21 <= b <= 0x7e && b != 0x22 && b != 0x27 && b != 0x5c
}

/// The value of a lowercase hex digit.
pub open spec fn lower_hex_value(c: u8) -> int {
    if 0x30 <= c <= 0x39 { c - 0x30 } else { c - 0x61 + 10 }
}

/// A lowercase hex digit.
pub open spec fn is_lower_hex_byte(c: u8) -> bool {
    (0x30 <= c <= 0x39) || (0x61 <= c <= 0x66)
}

/// What escaping does to one byte. A plain byte stands for itself. A tab,
/// carriage return, line feed, space, quote, double quote or backslash
/// becomes a backslash and `t`, `r`, `n`, the space, the quote, the double
/// quote or the backslash. Any other byte becomes `\x` and two lowercase hex
/// digits whose value is the byte.
pub proof fn law_escape_of_byte(b: u8)
    ensures
        is_plain_byte(b) ==> spec_escape_byte(b) is None && escaped_byte(b) == seq![b],
        b == 0x09 ==> escaped_byte(b) == seq![0x5cu8, 0x74u8],
        b == 0x0d ==> escaped_byte(b) == seq![0x5cu8, 0x72u8],
        b == 0x0a ==> escaped_byte(b) == seq![0x5cu8, 0x6eu8],
        b == 0x20 ==> escaped_byte(b) == seq![0x5cu8, 0x20u8],
        b == 0x27 ==> escaped_byte(b) == seq![0x5cu8, 0x27u8],
        b == 0x22 ==> escaped_byte(b) == seq![0x5cu8, 0x22u8],
        b == 0x5c ==> escaped_byte(b) == seq![0x5cu8, 0x5cu8],
        !is_plain_byte(b) && b != 0x09 && b != 0x0d && b != 0x0a && b != 0x20 && b != 0x27 && b != 0x22 && b != 0x5c
            ==> escaped_byte(b).len() == 4 && escaped_byte(b)[0] == 0x5c && escaped_byte(b)[1] == 0x78
                && is_lower_hex_byte(escaped_byte(b)[2]) && is_lower_hex_byte(escaped_byte(b)[3])
                && 16 * lower_hex_value(escaped_byte(b)[2]) + lower_hex_value(escaped_byte(b)[3]) == b,
{
    if !is_plain_byte(b) && b != 0x09 && b != 0x0d && b != 0x0a && b != 0x20 && b != 0x27 && b != 0x22 && b != 0x5c {
        let hi = hex_digit_lower(b / 16);
        let lo = hex_digit_lower(b % 16);
        assert(escaped_byte(b) =~= seq![0x5cu8, 0x78u8, hi, lo]);
        assert(lower_hex_value(hi) == b / 16);
        assert(lower_hex_value(lo) == b % 16);
    }
}

/// Text made only of plain bytes is its own escape.
pub proof fn law_plain_text_unchanged(bytes: Seq<u8>)
    requires
        forall|i: int| 0 <= i < bytes.len() ==> is_plain_byte(#[trigger] bytes[i]),
    ensures
        spec_escape(bytes) == bytes,
    decreases bytes.len(),
{
    if bytes.len() > 0 {
        law_escape_of_byte(bytes[0]);
        assert forall|i: int| 0 <= i < bytes.drop_first().len() implies is_plain_byte(#[trigger] bytes.drop_first()[i]) by {
            assert(bytes.drop_first()[i] == bytes[i + 1]);
        }
        law_plain_text_unchanged(bytes.drop_first());
        assert(spec_escape(bytes) =~= seq![bytes[0]] + bytes.drop_first());
        assert(seq![bytes[0]] + bytes.drop_first() =~= bytes);
    }
}

/// Escaping works byte by byte: the escape of two texts one after the other
/// is their escapes one after the other.
pub proof fn law_escape_concat(a: Seq<u8>, b: Seq<u8>)
    ensures
        spec_escape(a + b) == spec_escape(a) + spec_escape(b),
    decreases a.len(),
{
    if a.len() > 0 {
        law_escape_concat(a.drop_first(), b);
        assert((a + b).drop_first() =~= a.drop_first() + b);
        assert(spec_escape(a + b) =~= spec_escape(a) + spec_escape(b));
    } else {
        assert(a + b =~= b);
        assert(spec_escape(a) =~= Seq::<u8>::empty());
        assert(spec_escape(a) + spec_escape(b) =~= spec_escape(b));
    }
}

} // verus!
