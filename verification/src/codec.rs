//! The wire codec.
//!
//! A frame is one bridge message rendered as a JSON object, followed by the
//! five-character delimiter `/*1^/`. A read from the wire may carry several
//! concatenated frames; the decoder splits on the delimiter, drops empty
//! fragments, and decodes each fragment independently, discarding any
//! fragment that is not a well-formed rendering.
//!
//! The encoder and the decoder are both specified against the same
//! mathematical grammar (`json_of`, `parse_msg`), and the round trip is
//! proved: decoding an encoded frame yields exactly the encoded message.

use vstd::prelude::*;
use crate::message::{BridgeMessage, BridgeView};

verus! {

// ---------------------------------------------------------------------------
// The grammar, spec side: rendering
// ---------------------------------------------------------------------------

/// The framing delimiter, `/*1^/`.
pub open spec fn delim() -> Seq<char> {
    seq!['/', '*', '1', '^', '/']
}

/// One character of a JSON string body: quote and backslash take a leading
/// backslash, every other character stands for itself.
pub open spec fn esc_char(c: char) -> Seq<char> {
    if c == '"' || c == '\\' {
        seq!['\\', c]
    } else {
        seq![c]
    }
}

/// A string body with its quotes and backslashes escaped.
pub open spec fn escape(s: Seq<char>) -> Seq<char>
    decreases s.len(),
{
    if s.len() == 0 {
        Seq::empty()
    } else {
        esc_char(s[0]) + escape(s.drop_first())
    }
}

/// The decimal digit for a value below ten.
pub open spec fn dec_digit(n: nat) -> char {
    if n == 0 { '0' }
    else if n == 1 { '1' }
    else if n == 2 { '2' }
    else if n == 3 { '3' }
    else if n == 4 { '4' }
    else if n == 5 { '5' }
    else if n == 6 { '6' }
    else if n == 7 { '7' }
    else if n == 8 { '8' }
    else if n == 9 { '9' }
    else { ' ' }
}

/// Canonical decimal rendering of a number: no sign, no leading zero.
pub open spec fn dec_rep(n: nat) -> Seq<char>
    decreases n,
{
    if n < 10 {
        seq![dec_digit(n)]
    } else {
        dec_rep(n / 10) + seq![dec_digit(n % 10)]
    }
}

/// A signature byte vector as a comma-separated list of decimal numbers.
pub open spec fn bytes_rep(s: Seq<u8>) -> Seq<char>
    decreases s.len(),
{
    if s.len() == 0 {
        Seq::empty()
    } else if s.len() == 1 {
        dec_rep(s[0] as nat)
    } else {
        dec_rep(s[0] as nat) + seq![','] + bytes_rep(s.drop_first())
    }
}

/// An optional string field: `null`, or the escaped body in quotes.
pub open spec fn opt_str_rep(e: Option<Seq<char>>) -> Seq<char> {
    match e {
        None => "null"@,
        Some(s) => seq!['"'] + escape(s) + seq!['"'],
    }
}

/// An optional signature field: `null`, or the byte list in brackets.
pub open spec fn opt_sig_rep(e: Option<Seq<u8>>) -> Seq<char> {
    match e {
        None => "null"@,
        Some(b) => seq!['['] + bytes_rep(b) + seq![']'],
    }
}

/// The JSON rendering of a bridge message, fields in their declared order.
pub open spec fn json_of(v: BridgeView) -> Seq<char> {
    "{\"from_name\":\""@ + escape(v.from_name)
        + "\",\"from_group\":\""@ + escape(v.from_group)
        + "\",\"to_name\":\""@ + escape(v.to_name)
        + "\",\"to_group\":\""@ + escape(v.to_group)
        + "\",\"message\":\""@ + escape(v.message)
        + "\",\"error_msg\":"@ + opt_str_rep(v.error_msg)
        + ",\"sig\":"@ + opt_sig_rep(v.sig)
        + "}"@
}

/// One frame on the wire: the rendering plus the delimiter.
pub open spec fn frame_of(v: BridgeView) -> Seq<char> {
    json_of(v) + delim()
}

// ---------------------------------------------------------------------------
// The grammar, spec side: parsing
// ---------------------------------------------------------------------------

/// Consume an exact literal from the front, yielding the remainder.
pub open spec fn parse_lit(t: Seq<char>, lit: Seq<char>) -> Option<Seq<char>> {
    if lit.len() <= t.len() && t.subrange(0, lit.len() as int) == lit {
        Some(t.subrange(lit.len() as int, t.len() as int))
    } else {
        None
    }
}

/// Consume a JSON string body up to and including its closing quote,
/// undoing the escaping. Only the two escapes the encoder writes are
/// accepted; anything else fails.
pub open spec fn parse_jstring(t: Seq<char>) -> Option<(Seq<char>, Seq<char>)>
    decreases t.len(),
{
    if t.len() == 0 {
        None
    } else if t[0] == '"' {
        Some((Seq::empty(), t.drop_first()))
    } else if t[0] == '\\' {
        if t.len() >= 2 && (t[1] == '"' || t[1] == '\\') {
            match parse_jstring(t.subrange(2, t.len() as int)) {
                Some((s, r)) => Some((seq![t[1]] + s, r)),
                None => None,
            }
        } else {
            None
        }
    } else {
        match parse_jstring(t.drop_first()) {
            Some((s, r)) => Some((seq![t[0]] + s, r)),
            None => None,
        }
    }
}

pub open spec fn is_digit(c: char) -> bool {
    '0' <= c && c <= '9'
}

pub open spec fn digit_val(c: char) -> nat {
    (c as nat - '0' as nat) as nat
}

/// Consume a canonical decimal byte: one to three digits, no leading zero,
/// value at most 255, and the digit run must end within three characters.
pub open spec fn parse_u8(t: Seq<char>) -> Option<(u8, Seq<char>)> {
    if t.len() >= 1 && is_digit(t[0]) {
        if t[0] == '0' {
            if t.len() >= 2 && is_digit(t[1]) {
                None
            } else {
                Some((0u8, t.drop_first()))
            }
        } else {
            if t.len() >= 2 && is_digit(t[1]) {
                if t.len() >= 3 && is_digit(t[2]) {
                    if t.len() >= 4 && is_digit(t[3]) {
                        None
                    } else {
                        let n = digit_val(t[0]) * 100 + digit_val(t[1]) * 10 + digit_val(t[2]);
                        if n <= 255 {
                            Some((n as u8, t.subrange(3, t.len() as int)))
                        } else {
                            None
                        }
                    }
                } else {
                    Some(((digit_val(t[0]) * 10 + digit_val(t[1])) as u8, t.subrange(2, t.len() as int)))
                }
            } else {
                Some((digit_val(t[0]) as u8, t.drop_first()))
            }
        }
    } else {
        None
    }
}

/// After at least one byte of a list was read: a `]` ends the list, a comma
/// continues it with another byte.
pub open spec fn parse_bytes_rest(t: Seq<char>) -> Option<(Seq<u8>, Seq<char>)>
    decreases t.len(),
{
    if t.len() == 0 {
        None
    } else if t[0] == ']' {
        Some((Seq::empty(), t.drop_first()))
    } else if t[0] == ',' {
        match parse_u8(t.drop_first()) {
            Some((b, r)) => match parse_bytes_rest(r) {
                Some((bs, r2)) => Some((seq![b] + bs, r2)),
                None => None,
            },
            None => None,
        }
    } else {
        None
    }
}

/// A byte list after its opening bracket, up to and including the `]`.
pub open spec fn parse_bytes(t: Seq<char>) -> Option<(Seq<u8>, Seq<char>)> {
    if t.len() >= 1 && t[0] == ']' {
        Some((Seq::empty(), t.drop_first()))
    } else {
        match parse_u8(t) {
            Some((b, r)) => match parse_bytes_rest(r) {
                Some((bs, r2)) => Some((seq![b] + bs, r2)),
                None => None,
            },
            None => None,
        }
    }
}

/// A field key literal followed by a quoted string value.
pub open spec fn parse_field(t: Seq<char>, key: Seq<char>) -> Option<(Seq<char>, Seq<char>)> {
    match parse_lit(t, key) {
        Some(t1) => parse_jstring(t1),
        None => None,
    }
}

/// An optional string value: `null`, or a quoted string.
pub open spec fn parse_opt_str(t: Seq<char>) -> Option<(Option<Seq<char>>, Seq<char>)> {
    if t.len() >= 1 && t[0] == 'n' {
        match parse_lit(t, "null"@) {
            Some(r) => Some((None, r)),
            None => None,
        }
    } else if t.len() >= 1 && t[0] == '"' {
        match parse_jstring(t.drop_first()) {
            Some((s, r)) => Some((Some(s), r)),
            None => None,
        }
    } else {
        None
    }
}

/// An optional signature value: `null`, or a bracketed byte list.
pub open spec fn parse_opt_sig(t: Seq<char>) -> Option<(Option<Seq<u8>>, Seq<char>)> {
    if t.len() >= 1 && t[0] == 'n' {
        match parse_lit(t, "null"@) {
            Some(r) => Some((None, r)),
            None => None,
        }
    } else if t.len() >= 1 && t[0] == '[' {
        match parse_bytes(t.drop_first()) {
            Some((bs, r)) => Some((Some(bs), r)),
            None => None,
        }
    } else {
        None
    }
}

/// A whole bridge-message object, yielding the message and the remainder.
pub open spec fn parse_msg(t: Seq<char>) -> Option<(BridgeView, Seq<char>)> {
    match parse_field(t, "{\"from_name\":\""@) {
        Some((from_name, t1)) => match parse_field(t1, ",\"from_group\":\""@) {
            Some((from_group, t2)) => match parse_field(t2, ",\"to_name\":\""@) {
                Some((to_name, t3)) => match parse_field(t3, ",\"to_group\":\""@) {
                    Some((to_group, t4)) => match parse_field(t4, ",\"message\":\""@) {
                        Some((message, t5)) => match parse_lit(t5, ",\"error_msg\":"@) {
                            Some(t6) => match parse_opt_str(t6) {
                                Some((error_msg, t7)) => match parse_lit(t7, ",\"sig\":"@) {
                                    Some(t8) => match parse_opt_sig(t8) {
                                        Some((sig, t9)) => match parse_lit(t9, "}"@) {
                                            Some(t10) => Some((
                                                BridgeView {
                                                    from_name,
                                                    from_group,
                                                    to_name,
                                                    to_group,
                                                    message,
                                                    error_msg,
                                                    sig,
                                                },
                                                t10,
                                            )),
                                            None => None,
                                        },
                                        None => None,
                                    },
                                    None => None,
                                },
                                None => None,
                            },
                            None => None,
                        },
                        None => None,
                    },
                    None => None,
                },
                None => None,
            },
            None => None,
        },
        None => None,
    }
}

/// A fragment decodes to a message only when the object fills it exactly.
pub open spec fn parse_fragment(t: Seq<char>) -> Option<BridgeView> {
    match parse_msg(t) {
        Some((v, rest)) => if rest.len() == 0 { Some(v) } else { None },
        None => None,
    }
}

// ---------------------------------------------------------------------------
// Framing: splitting a read on the delimiter
// ---------------------------------------------------------------------------

/// Whether the delimiter occurs anywhere in `t`.
pub open spec fn contains_delim(t: Seq<char>) -> bool {
    exists|i: int| 0 <= i && i + 5 <= t.len() && #[trigger] t.subrange(i, i + 5) == delim()
}

/// The position of the leftmost delimiter occurrence, if any.
pub open spec fn find_delim(t: Seq<char>) -> Option<int>
    decreases t.len(),
{
    if t.len() < 5 {
        None
    } else if t.subrange(0, 5) == delim() {
        Some(0)
    } else {
        match find_delim(t.drop_first()) {
            Some(i) => Some(i + 1),
            None => None,
        }
    }
}

proof fn lemma_find_delim_bounds(t: Seq<char>)
    ensures
        match find_delim(t) {
            Some(i) => 0 <= i && i + 5 <= t.len(),
            None => true,
        },
    decreases t.len(),
{
    if t.len() >= 5 && !(t.subrange(0, 5) == delim()) {
        lemma_find_delim_bounds(t.drop_first());
    }
}

/// The pieces of a read, split on the delimiter, in order. A read with no
/// delimiter is one piece; a trailing delimiter leaves a final empty piece.
pub open spec fn split_frames(t: Seq<char>) -> Seq<Seq<char>>
    decreases t.len(),
    via split_frames_decreases
{
    match find_delim(t) {
        None => seq![t],
        Some(i) => seq![t.subrange(0, i)] + split_frames(t.subrange(i + 5, t.len() as int)),
    }
}

#[via_fn]
proof fn split_frames_decreases(t: Seq<char>) {
    lemma_find_delim_bounds(t);
}

/// The messages of a sequence of fragments: empty fragments are dropped,
/// fragments that do not decode are dropped, the rest decode in order.
pub open spec fn decode_frames(fs: Seq<Seq<char>>) -> Seq<BridgeView>
    decreases fs.len(),
{
    if fs.len() == 0 {
        Seq::empty()
    } else {
        let rest = decode_frames(fs.drop_first());
        if fs[0].len() == 0 {
            rest
        } else {
            match parse_fragment(fs[0]) {
                Some(v) => seq![v] + rest,
                None => rest,
            }
        }
    }
}

/// Everything a read decodes to: split on the delimiter, decode each piece.
pub open spec fn decode_wire(t: Seq<char>) -> Seq<BridgeView> {
    decode_frames(split_frames(t))
}

// ---------------------------------------------------------------------------
// Completeness: parsing a rendering succeeds and recovers the message
// ---------------------------------------------------------------------------

proof fn lemma_parse_lit_prefix(lit: Seq<char>, rest: Seq<char>)
    ensures
        parse_lit(lit + rest, lit) == Some(rest),
{
    let t = lit + rest;
    assert(t.subrange(0, lit.len() as int) =~= lit);
    assert(t.subrange(lit.len() as int, t.len() as int) =~= rest);
}

// The rendering, peeled one parsing step at a time: `j0` is the whole
// object followed by `rest`, and each later stage is what remains after one
// more field was consumed.
spec fn j9(v: BridgeView, rest: Seq<char>) -> Seq<char> {
    "}"@ + rest
}

spec fn j8(v: BridgeView, rest: Seq<char>) -> Seq<char> {
    opt_sig_rep(v.sig) + j9(v, rest)
}

spec fn j7(v: BridgeView, rest: Seq<char>) -> Seq<char> {
    ",\"sig\":"@ + j8(v, rest)
}

spec fn j6(v: BridgeView, rest: Seq<char>) -> Seq<char> {
    opt_str_rep(v.error_msg) + j7(v, rest)
}

spec fn j5(v: BridgeView, rest: Seq<char>) -> Seq<char> {
    ",\"error_msg\":"@ + j6(v, rest)
}

spec fn j4(v: BridgeView, rest: Seq<char>) -> Seq<char> {
    ",\"message\":\""@ + escape(v.message) + seq!['"'] + j5(v, rest)
}

spec fn j3(v: BridgeView, rest: Seq<char>) -> Seq<char> {
    ",\"to_group\":\""@ + escape(v.to_group) + seq!['"'] + j4(v, rest)
}

spec fn j2(v: BridgeView, rest: Seq<char>) -> Seq<char> {
    ",\"to_name\":\""@ + escape(v.to_name) + seq!['"'] + j3(v, rest)
}

spec fn j1(v: BridgeView, rest: Seq<char>) -> Seq<char> {
    ",\"from_group\":\""@ + escape(v.from_group) + seq!['"'] + j2(v, rest)
}

spec fn j0(v: BridgeView, rest: Seq<char>) -> Seq<char> {
    "{\"from_name\":\""@ + escape(v.from_name) + seq!['"'] + j1(v, rest)
}

#[verifier::rlimit(100)]
proof fn lemma_json_decomp(v: BridgeView, rest: Seq<char>)
    ensures
        json_of(v) + rest == j0(v, rest),
{
    reveal_strlit("\",\"from_group\":\"");
    reveal_strlit(",\"from_group\":\"");
    reveal_strlit("\",\"to_name\":\"");
    reveal_strlit(",\"to_name\":\"");
    reveal_strlit("\",\"to_group\":\"");
    reveal_strlit(",\"to_group\":\"");
    reveal_strlit("\",\"message\":\"");
    reveal_strlit(",\"message\":\"");
    reveal_strlit("\",\"error_msg\":");
    reveal_strlit(",\"error_msg\":");
    assert("\",\"from_group\":\""@ =~= seq!['"'] + ",\"from_group\":\""@);
    assert("\",\"to_name\":\""@ =~= seq!['"'] + ",\"to_name\":\""@);
    assert("\",\"to_group\":\""@ =~= seq!['"'] + ",\"to_group\":\""@);
    assert("\",\"message\":\""@ =~= seq!['"'] + ",\"message\":\""@);
    assert("\",\"error_msg\":"@ =~= seq!['"'] + ",\"error_msg\":"@);
    assert(json_of(v) + rest =~= j0(v, rest));
}

proof fn lemma_parse_jstring_escape(s: Seq<char>, rest: Seq<char>)
    ensures
        parse_jstring(escape(s) + seq!['"'] + rest) == Some((s, rest)),
    decreases s.len(),
{
    let t = escape(s) + seq!['"'] + rest;
    if s.len() == 0 {
        assert(t[0] == '"');
        assert(t.drop_first() =~= rest);
    } else {
        let c = s[0];
        let s1 = s.drop_first();
        assert(escape(s) == esc_char(c) + escape(s1));
        lemma_parse_jstring_escape(s1, rest);
        if c == '"' || c == '\\' {
            assert(t[0] == '\\');
            assert(t[1] == c);
            assert(t.len() >= 2);
            assert(t.subrange(2, t.len() as int) =~= escape(s1) + seq!['"'] + rest);
            assert(seq![c] + s1 =~= s);
        } else {
            assert(t[0] == c);
            assert(t.drop_first() =~= escape(s1) + seq!['"'] + rest);
            assert(seq![c] + s1 =~= s);
        }
    }
}

proof fn lemma_is_digit_dec_digit(n: nat)
    requires
        n < 10,
    ensures
        is_digit(dec_digit(n)),
        digit_val(dec_digit(n)) == n,
        dec_digit(n) == '0' <==> n == 0,
{
}

proof fn lemma_parse_u8_dec(n: u8, rest: Seq<char>)
    requires
        rest.len() >= 1,
        !is_digit(rest[0]),
    ensures
        parse_u8(dec_rep(n as nat) + rest) == Some((n, rest)),
{
    let t = dec_rep(n as nat) + rest;
    if n < 10 {
        assert(dec_rep(n as nat) == seq![dec_digit(n as nat)]);
        lemma_is_digit_dec_digit(n as nat);
        assert(t[0] == dec_digit(n as nat));
        assert(t[1] == rest[0]);
        assert(t.drop_first() =~= rest);
        if n == 0 {
            assert(t[0] == '0');
        } else {
            assert(t[0] != '0');
            assert(digit_val(t[0]) == n as nat);
        }
    } else if n < 100 {
        let hi = n as nat / 10;
        let lo = n as nat % 10;
        assert(hi * 10 + lo == n as nat) by (nonlinear_arith)
            requires hi == n as nat / 10 && lo == n as nat % 10,
        ;
        assert(1 <= hi < 10) by (nonlinear_arith)
            requires hi == n as nat / 10 && 10 <= n < 100,
        ;
        assert(lo < 10) by (nonlinear_arith)
            requires lo == n as nat % 10,
        ;
        assert(dec_rep(n as nat) == dec_rep(hi) + seq![dec_digit(lo)]);
        assert(dec_rep(hi) == seq![dec_digit(hi)]);
        lemma_is_digit_dec_digit(hi);
        lemma_is_digit_dec_digit(lo);
        assert(t[0] == dec_digit(hi));
        assert(t[1] == dec_digit(lo));
        assert(t[2] == rest[0]);
        assert(t[0] != '0');
        assert(digit_val(t[0]) * 10 + digit_val(t[1]) == n as nat);
        assert(t.subrange(2, t.len() as int) =~= rest);
    } else {
        let hi = n as nat / 100;
        let mid = (n as nat / 10) % 10;
        let lo = n as nat % 10;
        assert(n as nat / 10 / 10 == hi && (n as nat / 10) * 10 + lo == n as nat
            && n as nat / 10 == hi * 10 + mid && 1 <= hi < 10 && mid < 10 && lo < 10)
            by (nonlinear_arith)
            requires hi == n as nat / 100 && mid == (n as nat / 10) % 10 && lo == n as nat % 10
                && 100 <= n < 256,
        ;
        assert(hi * 100 + mid * 10 + lo == n as nat) by (nonlinear_arith)
            requires n as nat / 10 == hi * 10 + mid && (n as nat / 10) * 10 + lo == n as nat,
        ;
        assert(dec_rep(n as nat) == dec_rep(n as nat / 10) + seq![dec_digit(lo)]);
        assert(dec_rep(n as nat / 10) == dec_rep(hi) + seq![dec_digit(mid)]);
        assert(dec_rep(hi) == seq![dec_digit(hi)]);
        lemma_is_digit_dec_digit(hi);
        lemma_is_digit_dec_digit(mid);
        lemma_is_digit_dec_digit(lo);
        assert(t[0] == dec_digit(hi));
        assert(t[1] == dec_digit(mid));
        assert(t[2] == dec_digit(lo));
        assert(t[3] == rest[0]);
        assert(t[0] != '0');
        assert(digit_val(t[0]) * 100 + digit_val(t[1]) * 10 + digit_val(t[2]) == n as nat);
        assert(t.subrange(3, t.len() as int) =~= rest);
    }
}

/// The tail of a byte list rendering: a comma and a number per element.
spec fn rest_rep(bs: Seq<u8>) -> Seq<char>
    decreases bs.len(),
{
    if bs.len() == 0 {
        Seq::empty()
    } else {
        seq![','] + dec_rep(bs[0] as nat) + rest_rep(bs.drop_first())
    }
}

proof fn lemma_bytes_rep_decomp(bs: Seq<u8>)
    requires
        bs.len() >= 1,
    ensures
        bytes_rep(bs) == dec_rep(bs[0] as nat) + rest_rep(bs.drop_first()),
    decreases bs.len(),
{
    if bs.len() == 1 {
        assert(bytes_rep(bs) =~= dec_rep(bs[0] as nat) + rest_rep(bs.drop_first()));
    } else {
        lemma_bytes_rep_decomp(bs.drop_first());
        assert(bytes_rep(bs) =~= dec_rep(bs[0] as nat) + rest_rep(bs.drop_first()));
    }
}

proof fn lemma_dec_rep_digits(n: nat)
    ensures
        forall|i: int| 0 <= i < dec_rep(n).len() ==> is_digit(#[trigger] dec_rep(n)[i]),
    decreases n,
{
    if n < 10 {
        lemma_is_digit_dec_digit(n);
    } else {
        lemma_dec_rep_digits(n / 10);
        lemma_is_digit_dec_digit(n % 10);
        let hi = dec_rep(n / 10);
        assert forall|i: int| 0 <= i < dec_rep(n).len() implies is_digit(#[trigger] dec_rep(n)[i]) by {
            if i < hi.len() {
                assert(dec_rep(n)[i] == hi[i]);
            } else {
                assert(dec_rep(n)[i] == dec_digit(n % 10));
            }
        }
    }
}

proof fn lemma_parse_bytes_rest_rep(bs: Seq<u8>, rest: Seq<char>)
    ensures
        parse_bytes_rest(rest_rep(bs) + seq![']'] + rest) == Some((bs, rest)),
    decreases bs.len(),
{
    let t = rest_rep(bs) + seq![']'] + rest;
    if bs.len() == 0 {
        assert(t[0] == ']');
        assert(t.drop_first() =~= rest);
    } else {
        let b = bs[0];
        let bs1 = bs.drop_first();
        assert(t[0] == ',');
        let after_comma = dec_rep(b as nat) + (rest_rep(bs1) + seq![']'] + rest);
        assert(t.drop_first() =~= after_comma);
        let tail = rest_rep(bs1) + seq![']'] + rest;
        if bs1.len() == 0 {
            assert(tail[0] == ']');
        } else {
            assert(tail[0] == ',');
        }
        assert(!is_digit(tail[0]));
        lemma_parse_u8_dec(b, tail);
        lemma_parse_bytes_rest_rep(bs1, rest);
        assert(seq![b] + bs1 =~= bs);
    }
}

proof fn lemma_parse_bytes_rep(bs: Seq<u8>, rest: Seq<char>)
    ensures
        parse_bytes(bytes_rep(bs) + seq![']'] + rest) == Some((bs, rest)),
{
    let t = bytes_rep(bs) + seq![']'] + rest;
    if bs.len() == 0 {
        assert(t[0] == ']');
        assert(t.drop_first() =~= rest);
    } else {
        lemma_bytes_rep_decomp(bs);
        let b = bs[0];
        let bs1 = bs.drop_first();
        let tail = rest_rep(bs1) + seq![']'] + rest;
        assert(t =~= dec_rep(b as nat) + tail);
        lemma_dec_rep_digits(b as nat);
        assert(dec_rep(b as nat).len() >= 1);
        assert(t[0] == dec_rep(b as nat)[0]);
        assert(is_digit(t[0]));
        assert(t[0] != ']');
        if bs1.len() == 0 {
            assert(tail[0] == ']');
        } else {
            assert(tail[0] == ',');
        }
        assert(!is_digit(tail[0]));
        lemma_parse_u8_dec(b, tail);
        lemma_parse_bytes_rest_rep(bs1, rest);
        assert(seq![b] + bs1 =~= bs);
    }
}

proof fn lemma_parse_field_rep(key: Seq<char>, s: Seq<char>, rest: Seq<char>)
    ensures
        parse_field(key + escape(s) + seq!['"'] + rest, key) == Some((s, rest)),
{
    let tail = escape(s) + seq!['"'] + rest;
    assert(key + escape(s) + seq!['"'] + rest =~= key + tail);
    lemma_parse_lit_prefix(key, tail);
    lemma_parse_jstring_escape(s, rest);
}

proof fn lemma_parse_opt_str_rep(e: Option<Seq<char>>, rest: Seq<char>)
    requires
        rest.len() >= 1,
    ensures
        parse_opt_str(opt_str_rep(e) + rest) == Some((e, rest)),
{
    reveal_strlit("null");
    let t = opt_str_rep(e) + rest;
    match e {
        None => {
            assert(t[0] == 'n');
            assert(t =~= "null"@ + rest);
            lemma_parse_lit_prefix("null"@, rest);
        },
        Some(s) => {
            assert(t[0] == '"');
            assert(t[0] != 'n');
            assert(t.drop_first() =~= escape(s) + seq!['"'] + rest);
            lemma_parse_jstring_escape(s, rest);
        },
    }
}

proof fn lemma_parse_opt_sig_rep(e: Option<Seq<u8>>, rest: Seq<char>)
    requires
        rest.len() >= 1,
    ensures
        parse_opt_sig(opt_sig_rep(e) + rest) == Some((e, rest)),
{
    reveal_strlit("null");
    let t = opt_sig_rep(e) + rest;
    match e {
        None => {
            assert(t[0] == 'n');
            assert(t =~= "null"@ + rest);
            lemma_parse_lit_prefix("null"@, rest);
        },
        Some(bs) => {
            assert(t[0] == '[');
            assert(t[0] != 'n');
            assert(t.drop_first() =~= bytes_rep(bs) + seq![']'] + rest);
            lemma_parse_bytes_rep(bs, rest);
        },
    }
}

/// Parsing recovers exactly the rendered message, whatever follows the
/// object.
#[verifier::rlimit(100)]
pub proof fn lemma_parse_msg_json(v: BridgeView, rest: Seq<char>)
    ensures
        parse_msg(json_of(v) + rest) == Some((v, rest)),
{
    reveal_strlit("{\"from_name\":\"");
    reveal_strlit(",\"from_group\":\"");
    reveal_strlit(",\"to_name\":\"");
    reveal_strlit(",\"to_group\":\"");
    reveal_strlit(",\"message\":\"");
    reveal_strlit(",\"error_msg\":");
    reveal_strlit(",\"sig\":");
    reveal_strlit("}");

    let k1 = "{\"from_name\":\""@;
    let k2 = ",\"from_group\":\""@;
    let k3 = ",\"to_name\":\""@;
    let k4 = ",\"to_group\":\""@;
    let k5 = ",\"message\":\""@;
    let k6 = ",\"error_msg\":"@;
    let k7 = ",\"sig\":"@;
    let k8 = "}"@;

    lemma_json_decomp(v, rest);
    let t0 = j0(v, rest);
    let t1 = j1(v, rest);
    let t2 = j2(v, rest);
    let t3 = j3(v, rest);
    let t4 = j4(v, rest);
    let t5 = j5(v, rest);
    let t6 = j6(v, rest);
    let t7 = j7(v, rest);
    let t8 = j8(v, rest);
    let t9 = j9(v, rest);

    lemma_parse_field_rep(k1, v.from_name, t1);
    assert(t0 =~= k1 + escape(v.from_name) + seq!['"'] + t1);
    lemma_parse_field_rep(k2, v.from_group, t2);
    assert(t1 =~= k2 + escape(v.from_group) + seq!['"'] + t2);
    lemma_parse_field_rep(k3, v.to_name, t3);
    assert(t2 =~= k3 + escape(v.to_name) + seq!['"'] + t3);
    lemma_parse_field_rep(k4, v.to_group, t4);
    assert(t3 =~= k4 + escape(v.to_group) + seq!['"'] + t4);
    lemma_parse_field_rep(k5, v.message, t5);
    assert(t4 =~= k5 + escape(v.message) + seq!['"'] + t5);
    lemma_parse_lit_prefix(k6, t6);
    assert(t9.len() >= 1);
    assert(t7.len() >= 1);
    lemma_parse_opt_str_rep(v.error_msg, t7);
    lemma_parse_lit_prefix(k7, t8);
    lemma_parse_opt_sig_rep(v.sig, t9);
    lemma_parse_lit_prefix(k8, rest);

    assert(parse_msg(t0) == Some((v, rest)));
}

/// A rendered message, standing alone, decodes to itself.
pub proof fn lemma_parse_fragment_json(v: BridgeView)
    ensures
        parse_fragment(json_of(v)) == Some(v),
{
    lemma_parse_msg_json(v, Seq::empty());
    assert(json_of(v) + Seq::<char>::empty() =~= json_of(v));
}

// ---------------------------------------------------------------------------
// Soundness: whatever parses was a rendering
// ---------------------------------------------------------------------------

proof fn lemma_parse_lit_sound(t: Seq<char>, lit: Seq<char>)
    requires
        parse_lit(t, lit) is Some,
    ensures
        t == lit + parse_lit(t, lit).unwrap(),
{
    let r = parse_lit(t, lit).unwrap();
    assert(t =~= lit + r);
}

proof fn lemma_parse_jstring_sound(t: Seq<char>)
    requires
        parse_jstring(t) is Some,
    ensures
        t == escape(parse_jstring(t).unwrap().0) + seq!['"'] + parse_jstring(t).unwrap().1,
    decreases t.len(),
{
    let (s, r) = parse_jstring(t).unwrap();
    if t[0] == '"' {
        assert(t =~= escape(s) + seq!['"'] + r);
    } else if t[0] == '\\' {
        let t2 = t.subrange(2, t.len() as int);
        lemma_parse_jstring_sound(t2);
        let (s1, r1) = parse_jstring(t2).unwrap();
        assert(t2 == escape(s1) + seq!['"'] + r1);
        assert(s == seq![t[1]] + s1);
        assert(r == r1);
        assert(s[0] == t[1]);
        assert(s.drop_first() =~= s1);
        assert(esc_char(t[1]) == seq!['\\', t[1]]);
        assert(escape(s) == esc_char(t[1]) + escape(s1));
        assert(t =~= seq![t[0], t[1]] + t2);
        assert(t =~= escape(s) + seq!['"'] + r);
    } else {
        let t1 = t.drop_first();
        lemma_parse_jstring_sound(t1);
        let (s1, r1) = parse_jstring(t1).unwrap();
        assert(t1 == escape(s1) + seq!['"'] + r1);
        assert(s == seq![t[0]] + s1);
        assert(r == r1);
        assert(s[0] == t[0]);
        assert(s.drop_first() =~= s1);
        assert(esc_char(t[0]) == seq![t[0]]);
        assert(escape(s) == esc_char(t[0]) + escape(s1));
        assert(t =~= seq![t[0]] + t1);
        assert(t =~= escape(s) + seq!['"'] + r);
    }
}

proof fn lemma_dec_digit_val(c: char)
    requires
        is_digit(c),
    ensures
        dec_digit(digit_val(c)) == c,
        digit_val(c) < 10,
{
    if c == '0' { } else if c == '1' { } else if c == '2' { } else if c == '3' { }
    else if c == '4' { } else if c == '5' { } else if c == '6' { } else if c == '7' { }
    else if c == '8' { } else { assert(c == '9'); }
}

proof fn lemma_parse_u8_sound(t: Seq<char>)
    requires
        parse_u8(t) is Some,
    ensures
        t == dec_rep(parse_u8(t).unwrap().0 as nat) + parse_u8(t).unwrap().1,
{
    let (n, r) = parse_u8(t).unwrap();
    if t[0] == '0' {
        assert(n == 0);
        assert(dec_rep(0) == seq!['0']);
        assert(t =~= dec_rep(0) + r);
    } else if !(t.len() >= 2 && is_digit(t[1])) {
        lemma_dec_digit_val(t[0]);
        assert(n as nat == digit_val(t[0]));
        assert(dec_rep(n as nat) == seq![dec_digit(n as nat)]);
        assert(t =~= dec_rep(n as nat) + r);
    } else if !(t.len() >= 3 && is_digit(t[2])) {
        let d0 = digit_val(t[0]);
        let d1 = digit_val(t[1]);
        lemma_dec_digit_val(t[0]);
        lemma_dec_digit_val(t[1]);
        assert(1 <= d0) by {
            assert(t[0] != '0');
            assert(dec_digit(d0) == t[0]);
        }
        assert(n as nat == d0 * 10 + d1);
        assert(n as nat / 10 == d0 && n as nat % 10 == d1 && n as nat >= 10) by (nonlinear_arith)
            requires n as nat == d0 * 10 + d1 && 1 <= d0 < 10 && d1 < 10,
        ;
        assert(dec_rep(n as nat) == dec_rep(d0) + seq![dec_digit(d1)]);
        assert(dec_rep(d0) == seq![dec_digit(d0)]);
        assert(t =~= dec_rep(n as nat) + r);
    } else {
        let d0 = digit_val(t[0]);
        let d1 = digit_val(t[1]);
        let d2 = digit_val(t[2]);
        lemma_dec_digit_val(t[0]);
        lemma_dec_digit_val(t[1]);
        lemma_dec_digit_val(t[2]);
        assert(1 <= d0) by {
            assert(t[0] != '0');
            assert(dec_digit(d0) == t[0]);
        }
        assert(n as nat == d0 * 100 + d1 * 10 + d2);
        assert(n as nat / 10 == d0 * 10 + d1 && n as nat % 10 == d2 && n as nat >= 100
            && (d0 * 10 + d1) / 10 == d0 && (d0 * 10 + d1) % 10 == d1 && d0 * 10 + d1 >= 10)
            by (nonlinear_arith)
            requires n as nat == d0 * 100 + d1 * 10 + d2 && 1 <= d0 < 10 && d1 < 10 && d2 < 10,
        ;
        assert(dec_rep(n as nat) == dec_rep(d0 * 10 + d1) + seq![dec_digit(d2)]);
        assert(dec_rep(d0 * 10 + d1) == dec_rep(d0) + seq![dec_digit(d1)]);
        assert(dec_rep(d0) == seq![dec_digit(d0)]);
        assert(t =~= dec_rep(n as nat) + r);
    }
}

proof fn lemma_parse_u8_shrinks(t: Seq<char>)
    requires
        parse_u8(t) is Some,
    ensures
        parse_u8(t).unwrap().1.len() < t.len(),
{
}

#[verifier::rlimit(100)]
proof fn lemma_parse_bytes_rest_sound(t: Seq<char>)
    requires
        parse_bytes_rest(t) is Some,
    ensures
        t == rest_rep(parse_bytes_rest(t).unwrap().0) + seq![']']
            + parse_bytes_rest(t).unwrap().1,
    decreases t.len(),
{
    let (bs, r) = parse_bytes_rest(t).unwrap();
    if t[0] == ']' {
        assert(t =~= rest_rep(bs) + seq![']'] + r);
    } else {
        let t1 = t.drop_first();
        let (b, r1) = parse_u8(t1).unwrap();
        lemma_parse_u8_sound(t1);
        assert(t1 == dec_rep(b as nat) + r1);
        lemma_parse_u8_shrinks(t1);
        lemma_parse_bytes_rest_sound(r1);
        let (bs1, r2) = parse_bytes_rest(r1).unwrap();
        assert(r1 == rest_rep(bs1) + seq![']'] + r2);
        assert(bs == seq![b] + bs1);
        assert(r == r2);
        assert(bs[0] == b);
        assert(bs.drop_first() =~= bs1);
        assert(rest_rep(bs) == seq![','] + dec_rep(b as nat) + rest_rep(bs1));
        assert(t =~= seq![t[0]] + t1);
        assert(t =~= rest_rep(bs) + seq![']'] + r);
    }
}

proof fn lemma_parse_bytes_sound(t: Seq<char>)
    requires
        parse_bytes(t) is Some,
    ensures
        t == bytes_rep(parse_bytes(t).unwrap().0) + seq![']'] + parse_bytes(t).unwrap().1,
{
    let (bs, r) = parse_bytes(t).unwrap();
    if t.len() >= 1 && t[0] == ']' {
        assert(t =~= bytes_rep(bs) + seq![']'] + r);
    } else {
        let (b, r1) = parse_u8(t).unwrap();
        lemma_parse_u8_sound(t);
        lemma_parse_bytes_rest_sound(r1);
        let (bs1, _r2) = parse_bytes_rest(r1).unwrap();
        assert(bs == seq![b] + bs1);
        assert(bs[0] == b);
        assert(bs.drop_first() =~= bs1);
        lemma_bytes_rep_decomp(bs);
        assert(t =~= bytes_rep(bs) + seq![']'] + r);
    }
}

proof fn lemma_parse_field_sound(t: Seq<char>, key: Seq<char>)
    requires
        parse_field(t, key) is Some,
    ensures
        t == key + escape(parse_field(t, key).unwrap().0) + seq!['"']
            + parse_field(t, key).unwrap().1,
{
    let t1 = parse_lit(t, key).unwrap();
    lemma_parse_lit_sound(t, key);
    lemma_parse_jstring_sound(t1);
    let (s, r) = parse_jstring(t1).unwrap();
    assert(t =~= key + escape(s) + seq!['"'] + r);
}

proof fn lemma_parse_opt_str_sound(t: Seq<char>)
    requires
        parse_opt_str(t) is Some,
    ensures
        t == opt_str_rep(parse_opt_str(t).unwrap().0) + parse_opt_str(t).unwrap().1,
{
    let (e, r) = parse_opt_str(t).unwrap();
    if t[0] == 'n' {
        lemma_parse_lit_sound(t, "null"@);
    } else {
        assert(t[0] == '"');
        lemma_parse_jstring_sound(t.drop_first());
        let (s, r1) = parse_jstring(t.drop_first()).unwrap();
        assert(t.drop_first() == escape(s) + seq!['"'] + r1);
        assert(r == r1);
        assert(t =~= seq![t[0]] + t.drop_first());
        assert(t =~= seq!['"'] + escape(s) + seq!['"'] + r);
        assert(opt_str_rep(Some(s)) == seq!['"'] + escape(s) + seq!['"']);
        assert(t =~= opt_str_rep(Some(s)) + r);
    }
}

proof fn lemma_parse_opt_sig_sound(t: Seq<char>)
    requires
        parse_opt_sig(t) is Some,
    ensures
        t == opt_sig_rep(parse_opt_sig(t).unwrap().0) + parse_opt_sig(t).unwrap().1,
{
    let (e, r) = parse_opt_sig(t).unwrap();
    if t[0] == 'n' {
        lemma_parse_lit_sound(t, "null"@);
    } else {
        assert(t[0] == '[');
        lemma_parse_bytes_sound(t.drop_first());
        let (bs, r1) = parse_bytes(t.drop_first()).unwrap();
        assert(t.drop_first() == bytes_rep(bs) + seq![']'] + r1);
        assert(r == r1);
        assert(t =~= seq![t[0]] + t.drop_first());
        assert(t =~= seq!['['] + bytes_rep(bs) + seq![']'] + r);
        assert(opt_sig_rep(Some(bs)) == seq!['['] + bytes_rep(bs) + seq![']']);
        assert(t =~= opt_sig_rep(Some(bs)) + r);
    }
}

/// Whatever the object parser accepts was a rendering of what it returned.
#[verifier::rlimit(100)]
pub proof fn lemma_parse_msg_sound(t: Seq<char>)
    requires
        parse_msg(t) is Some,
    ensures
        t == json_of(parse_msg(t).unwrap().0) + parse_msg(t).unwrap().1,
{
    let k1 = "{\"from_name\":\""@;
    let k2 = ",\"from_group\":\""@;
    let k3 = ",\"to_name\":\""@;
    let k4 = ",\"to_group\":\""@;
    let k5 = ",\"message\":\""@;
    let k6 = ",\"error_msg\":"@;
    let k7 = ",\"sig\":"@;
    let k8 = "}"@;

    let (v, r) = parse_msg(t).unwrap();
    let (from_name, t1) = parse_field(t, k1).unwrap();
    let (from_group, t2) = parse_field(t1, k2).unwrap();
    let (to_name, t3) = parse_field(t2, k3).unwrap();
    let (to_group, t4) = parse_field(t3, k4).unwrap();
    let (message, t5) = parse_field(t4, k5).unwrap();
    let t6 = parse_lit(t5, k6).unwrap();
    let (error_msg, t7) = parse_opt_str(t6).unwrap();
    let t8 = parse_lit(t7, k7).unwrap();
    let (sig, t9) = parse_opt_sig(t8).unwrap();
    let t10 = parse_lit(t9, k8).unwrap();
    assert(r == t10);

    lemma_parse_lit_sound(t9, k8);
    assert(t9 == j9(v, r));
    lemma_parse_opt_sig_sound(t8);
    assert(t8 == opt_sig_rep(sig) + t9);
    assert(t8 == j8(v, r));
    lemma_parse_lit_sound(t7, k7);
    assert(t7 == j7(v, r));
    lemma_parse_opt_str_sound(t6);
    assert(t6 == j6(v, r));
    lemma_parse_lit_sound(t5, k6);
    assert(t5 == j5(v, r));
    lemma_parse_field_sound(t4, k5);
    assert(t4 == k5 + escape(message) + seq!['"'] + t5);
    assert(t4 == j4(v, r));
    lemma_parse_field_sound(t3, k4);
    assert(t3 == j3(v, r));
    lemma_parse_field_sound(t2, k3);
    assert(t2 == j2(v, r));
    lemma_parse_field_sound(t1, k2);
    assert(t1 == j1(v, r));
    lemma_parse_field_sound(t, k1);
    assert(t == j0(v, r));
    lemma_json_decomp(v, r);
}

/// Every fragment the decoder keeps is, character for character, the
/// rendering of the message it decodes to: a decoded fragment is never a
/// partial or mangled message.
pub proof fn lemma_parse_fragment_sound(t: Seq<char>)
    requires
        parse_fragment(t) is Some,
    ensures
        t == json_of(parse_fragment(t).unwrap()),
{
    lemma_parse_msg_sound(t);
    assert(t =~= json_of(parse_fragment(t).unwrap()) + Seq::<char>::empty());
    assert(json_of(parse_fragment(t).unwrap()) + Seq::<char>::empty()
        =~= json_of(parse_fragment(t).unwrap()));
}

// ---------------------------------------------------------------------------
// The framing round trip
// ---------------------------------------------------------------------------

/// `find_delim` finds exactly the leftmost occurrence.
proof fn lemma_find_delim_spec(t: Seq<char>)
    ensures
        match find_delim(t) {
            Some(i) => 0 <= i && i + 5 <= t.len() && t.subrange(i, i + 5) == delim()
                && forall|j: int| 0 <= j < i ==> #[trigger] t.subrange(j, j + 5) != delim(),
            None => forall|j: int| 0 <= j && j + 5 <= t.len()
                ==> #[trigger] t.subrange(j, j + 5) != delim(),
        },
    decreases t.len(),
{
    if t.len() < 5 {
    } else if t.subrange(0, 5) == delim() {
    } else {
        let t1 = t.drop_first();
        lemma_find_delim_spec(t1);
        assert forall|j: int| 1 <= j && j + 5 <= t.len()
            implies #[trigger] t.subrange(j, j + 5) == t1.subrange(j - 1, (j - 1) + 5) by {
            assert(t.subrange(j, j + 5) =~= t1.subrange(j - 1, (j - 1) + 5));
        }
    }
}

/// In `a`, then the delimiter, then anything, with no delimiter inside
/// `a` and `a` not ending in a delimiter character, the leftmost
/// occurrence is exactly at the end of `a`.
proof fn lemma_find_delim_append(a: Seq<char>, rest: Seq<char>)
    requires
        !contains_delim(a),
        a.len() == 0 || (a[a.len() - 1] != '/' && a[a.len() - 1] != '*'
            && a[a.len() - 1] != '1' && a[a.len() - 1] != '^'),
    ensures
        find_delim(a + delim() + rest) == Some(a.len() as int),
    decreases a.len(),
{
    let t = a + delim() + rest;
    if a.len() == 0 {
        assert(t.subrange(0, 5) =~= delim());
    } else {
        // the window at 0 is not the delimiter
        if a.len() >= 5 {
            assert(t.subrange(0, 5) =~= a.subrange(0, 5));
            assert(a.subrange(0int, 0int + 5) != delim());
        } else {
            // the window spans the boundary; the last character of `a` sits
            // at offset a.len() - 1 inside it, where the delimiter holds a
            // character the precondition rules out
            let k = a.len() - 1;
            if t.subrange(0, 5) == delim() {
                assert(t.subrange(0, 5)[k] == a[k]);
                assert(a[k] == delim()[k]);
                assert(false);
            }
        }
        // recurse on the tail
        let a1 = a.drop_first();
        assert(!contains_delim(a1)) by {
            if contains_delim(a1) {
                let j = choose|j: int| 0 <= j && j + 5 <= a1.len()
                    && #[trigger] a1.subrange(j, j + 5) == delim();
                assert(a.subrange(j + 1, (j + 1) + 5) =~= a1.subrange(j, j + 5));
                assert(0 <= j + 1 && (j + 1) + 5 <= a.len()
                    && a.subrange(j + 1, (j + 1) + 5) == delim());
            }
        }
        if a1.len() > 0 {
            assert(a1[a1.len() - 1] == a[a.len() - 1]);
        }
        lemma_find_delim_append(a1, rest);
        assert(t.drop_first() =~= a1 + delim() + rest);
    }
}

/// The rendering of a message never ends in a slash: it ends in `}`.
proof fn lemma_json_last(v: BridgeView)
    ensures
        json_of(v).len() >= 1,
        json_of(v)[json_of(v).len() - 1] == '}',
{
    reveal_strlit("}");
    let a = json_of(v);
    assert(a[a.len() - 1] == "}"@[0]);
}

/// Decoding one encoded frame yields exactly the encoded message.
///
/// This round trip holds whenever the rendered message does not itself
/// contain the framing delimiter; a payload that contains `/*1^/` is
/// mis-split by the delimiter scan, a known limitation of the framing.
pub proof fn lemma_frame_round_trip(v: BridgeView)
    requires
        !contains_delim(json_of(v)),
    ensures
        decode_wire(frame_of(v)) == seq![v],
{
    let a = json_of(v);
    let t = a + delim();
    lemma_json_last(v);
    lemma_find_delim_append(a, Seq::empty());
    assert(a + delim() + Seq::<char>::empty() =~= t);
    assert(find_delim(t) == Some(a.len() as int));
    let tail = t.subrange(a.len() as int + 5, t.len() as int);
    assert(tail =~= Seq::<char>::empty());
    assert(find_delim(tail) is None);
    assert(split_frames(tail) == seq![tail]);
    assert(t.subrange(0, a.len() as int) =~= a);
    assert(split_frames(t) == seq![a] + seq![tail]);
    lemma_parse_fragment_json(v);
    let fs = split_frames(t);
    assert(fs.len() == 2);
    assert(fs[0] == a);
    assert(fs[1] == tail);
    assert(fs.drop_first() =~= seq![tail]);
    assert(seq![tail][0] == tail);
    assert(seq![tail].drop_first() =~= Seq::<Seq<char>>::empty());
    assert(decode_frames(Seq::<Seq<char>>::empty()) == Seq::<BridgeView>::empty());
    assert(decode_frames(seq![tail]) == Seq::<BridgeView>::empty());
    assert(a.len() > 0);
    assert(decode_frames(fs) == seq![v] + decode_frames(fs.drop_first()));
    assert(seq![v] + Seq::<BridgeView>::empty() =~= seq![v]);
}


// ---------------------------------------------------------------------------
// The encoder
// ---------------------------------------------------------------------------

/// Relies on `String`'s `FromIterator<char>` implementation: collecting
/// characters yields a string holding exactly those characters, in order.
#[verifier::external_body]
pub(crate) fn chars_string(v: &Vec<char>) -> (r: String)
    ensures
        r@ == v@,
{
    v.iter().collect()
}

/// The characters of a string slice, as a vector.
pub(crate) fn str_chars(s: &str) -> (r: Vec<char>)
    ensures
        r@ == s@,
{
    let n = s.unicode_len();
    let mut r: Vec<char> = Vec::new();
    let mut i: usize = 0;
    while i < n
        invariant
            i <= n,
            n == s@.len(),
            r@ == s@.subrange(0, i as int),
        decreases n - i,
    {
        r.push(s.get_char(i));
        i = i + 1;
        proof {
            assert(r@ =~= s@.subrange(0, i as int));
        }
    }
    proof {
        assert(r@ =~= s@);
    }
    r
}

/// Append the characters of a literal.
fn push_lit(out: &mut Vec<char>, lit: &str)
    ensures
        final(out)@ == old(out)@ + lit@,
{
    let n = lit.unicode_len();
    let mut i: usize = 0;
    while i < n
        invariant
            i <= n,
            n == lit@.len(),
            out@ == old(out)@ + lit@.subrange(0, i as int),
        decreases n - i,
    {
        out.push(lit.get_char(i));
        i = i + 1;
        proof {
            assert(out@ =~= old(out)@ + lit@.subrange(0, i as int));
        }
    }
    proof {
        assert(out@ =~= old(out)@ + lit@);
    }
}

proof fn lemma_escape_snoc(s: Seq<char>, c: char)
    ensures
        escape(s.push(c)) == escape(s) + esc_char(c),
    decreases s.len(),
{
    if s.len() == 0 {
        assert(s.push(c) =~= seq![c]);
        assert(seq![c].drop_first() =~= Seq::<char>::empty());
        assert(escape(seq![c]) == esc_char(c) + escape(Seq::<char>::empty()));
        assert(esc_char(c) + Seq::<char>::empty() =~= esc_char(c));
        assert(escape(s) + esc_char(c) =~= esc_char(c));
    } else {
        lemma_escape_snoc(s.drop_first(), c);
        assert(s.push(c).drop_first() =~= s.drop_first().push(c));
        assert(s.push(c)[0] == s[0]);
        assert(escape(s.push(c)) == esc_char(s[0]) + escape(s.drop_first().push(c)));
        assert(escape(s) + esc_char(c) =~= esc_char(s[0]) + (escape(s.drop_first()) + esc_char(c)));
    }
}

/// Append a string body, escaped.
fn push_escaped(out: &mut Vec<char>, s: &str)
    ensures
        final(out)@ == old(out)@ + escape(s@),
{
    let n = s.unicode_len();
    let mut i: usize = 0;
    while i < n
        invariant
            i <= n,
            n == s@.len(),
            out@ == old(out)@ + escape(s@.subrange(0, i as int)),
        decreases n - i,
    {
        let c = s.get_char(i);
        if c == '"' || c == '\\' {
            out.push('\\');
        }
        out.push(c);
        i = i + 1;
        proof {
            lemma_escape_snoc(s@.subrange(0, i - 1), c);
            assert(s@.subrange(0, i - 1).push(c) =~= s@.subrange(0, i as int));
            assert(out@ =~= old(out)@ + escape(s@.subrange(0, i as int)));
        }
    }
    proof {
        assert(s@.subrange(0, n as int) =~= s@);
    }
}

proof fn lemma_dec_rep_u8(n: u8)
    ensures
        n < 10 ==> dec_rep(n as nat) == seq![dec_digit(n as nat)],
        10 <= n < 100 ==> dec_rep(n as nat)
            == seq![dec_digit(n as nat / 10), dec_digit(n as nat % 10)],
        100 <= n ==> dec_rep(n as nat) == seq![
            dec_digit(n as nat / 100),
            dec_digit((n as nat / 10) % 10),
            dec_digit(n as nat % 10),
        ],
{
    if n < 10 {
    } else if n < 100 {
        let hi = n as nat / 10;
        assert(1 <= hi < 10) by (nonlinear_arith)
            requires hi == n as nat / 10 && 10 <= n < 100,
        ;
        assert(dec_rep(n as nat) == dec_rep(hi) + seq![dec_digit(n as nat % 10)]);
        assert(dec_rep(hi) == seq![dec_digit(hi)]);
        assert(seq![dec_digit(hi)] + seq![dec_digit(n as nat % 10)]
            =~= seq![dec_digit(hi), dec_digit(n as nat % 10)]);
    } else {
        let hi = n as nat / 100;
        let mid = (n as nat / 10) % 10;
        assert(n as nat / 10 / 10 == hi && 1 <= hi < 10 && 10 <= n as nat / 10) by (nonlinear_arith)
            requires hi == n as nat / 100 && 100 <= n < 256,
        ;
        assert(dec_rep(n as nat) == dec_rep(n as nat / 10) + seq![dec_digit(n as nat % 10)]);
        assert(dec_rep(n as nat / 10) == dec_rep(hi) + seq![dec_digit(mid)]);
        assert(dec_rep(hi) == seq![dec_digit(hi)]);
        assert(dec_rep(hi) + seq![dec_digit(mid)] + seq![dec_digit(n as nat % 10)]
            =~= seq![dec_digit(hi), dec_digit(mid), dec_digit(n as nat % 10)]);
    }
}

/// The character for one digit value.
fn digit_char(d: u8) -> (c: char)
    requires
        d < 10,
    ensures
        c == dec_digit(d as nat),
{
    if d == 0 { '0' }
    else if d == 1 { '1' }
    else if d == 2 { '2' }
    else if d == 3 { '3' }
    else if d == 4 { '4' }
    else if d == 5 { '5' }
    else if d == 6 { '6' }
    else if d == 7 { '7' }
    else if d == 8 { '8' }
    else { '9' }
}

/// Append one byte in canonical decimal.
fn push_u8_dec(out: &mut Vec<char>, n: u8)
    ensures
        final(out)@ == old(out)@ + dec_rep(n as nat),
{
    proof {
        lemma_dec_rep_u8(n);
    }
    if n >= 100 {
        out.push(digit_char(n / 100));
        out.push(digit_char((n / 10) % 10));
        out.push(digit_char(n % 10));
        proof {
            assert(out@ =~= old(out)@ + dec_rep(n as nat));
        }
    } else if n >= 10 {
        out.push(digit_char(n / 10));
        out.push(digit_char(n % 10));
        proof {
            assert(out@ =~= old(out)@ + dec_rep(n as nat));
        }
    } else {
        out.push(digit_char(n));
        proof {
            assert(out@ =~= old(out)@ + dec_rep(n as nat));
        }
    }
}

proof fn lemma_rest_rep_snoc(bs: Seq<u8>, b: u8)
    ensures
        rest_rep(bs.push(b)) == rest_rep(bs) + seq![','] + dec_rep(b as nat),
    decreases bs.len(),
{
    if bs.len() == 0 {
        assert(bs.push(b) =~= seq![b]);
        assert(seq![b].drop_first() =~= Seq::<u8>::empty());
        assert(rest_rep(seq![b]) == seq![','] + dec_rep(b as nat) + rest_rep(Seq::<u8>::empty()));
        assert(seq![','] + dec_rep(b as nat) + Seq::<char>::empty()
            =~= rest_rep(bs) + seq![','] + dec_rep(b as nat));
    } else {
        lemma_rest_rep_snoc(bs.drop_first(), b);
        assert(bs.push(b).drop_first() =~= bs.drop_first().push(b));
        assert(bs.push(b)[0] == bs[0]);
        assert(rest_rep(bs.push(b))
            == seq![','] + dec_rep(bs[0] as nat) + rest_rep(bs.drop_first().push(b)));
        assert(rest_rep(bs) + seq![','] + dec_rep(b as nat)
            =~= seq![','] + dec_rep(bs[0] as nat)
                + (rest_rep(bs.drop_first()) + seq![','] + dec_rep(b as nat)));
    }
}

/// Append a signature byte list, comma separated.
fn push_bytes(out: &mut Vec<char>, v: &Vec<u8>)
    ensures
        final(out)@ == old(out)@ + bytes_rep(v@),
{
    if v.len() == 0 {
        proof {
            assert(old(out)@ + bytes_rep(v@) =~= out@);
        }
        return;
    }
    push_u8_dec(out, v[0]);
    let mut i: usize = 1;
    while i < v.len()
        invariant
            1 <= i <= v@.len(),
            out@ == old(out)@ + dec_rep(v@[0] as nat) + rest_rep(v@.subrange(1, i as int)),
        decreases v@.len() - i,
    {
        out.push(',');
        push_u8_dec(out, v[i]);
        i = i + 1;
        proof {
            lemma_rest_rep_snoc(v@.subrange(1, i - 1), v@[i - 1]);
            assert(v@.subrange(1, i - 1).push(v@[i - 1]) =~= v@.subrange(1, i as int));
            assert(out@ =~= old(out)@ + dec_rep(v@[0] as nat)
                + rest_rep(v@.subrange(1, i as int)));
        }
    }
    proof {
        lemma_bytes_rep_decomp(v@);
        assert(v@.subrange(1, v@.len() as int) =~= v@.drop_first());
        assert(out@ =~= old(out)@ + bytes_rep(v@));
    }
}

/// Render one message as its JSON object.
#[verifier::rlimit(100)]
pub fn encode_message(m: &BridgeMessage) -> (r: String)
    ensures
        r@ == json_of(m@),
{
    let mut out: Vec<char> = Vec::new();
    push_lit(&mut out, "{\"from_name\":\"");
    push_escaped(&mut out, m.from_name.as_str());
    push_lit(&mut out, "\",\"from_group\":\"");
    push_escaped(&mut out, m.from_group.as_str());
    push_lit(&mut out, "\",\"to_name\":\"");
    push_escaped(&mut out, m.to_name.as_str());
    push_lit(&mut out, "\",\"to_group\":\"");
    push_escaped(&mut out, m.to_group.as_str());
    push_lit(&mut out, "\",\"message\":\"");
    push_escaped(&mut out, m.message.as_str());
    push_lit(&mut out, "\",\"error_msg\":");
    match &m.error_msg {
        None => push_lit(&mut out, "null"),
        Some(e) => {
            out.push('"');
            push_escaped(&mut out, e.as_str());
            out.push('"');
        },
    }
    push_lit(&mut out, ",\"sig\":");
    match &m.sig {
        None => push_lit(&mut out, "null"),
        Some(v) => {
            out.push('[');
            push_bytes(&mut out, v);
            out.push(']');
        },
    }
    out.push('}');
    proof {
        reveal_strlit("}");
        assert("}"@ =~= seq!['}']);
        assert(out@ =~= json_of(m@));
    }
    chars_string(&out)
}

/// Render one message as a wire frame: the JSON object plus the delimiter.
pub fn encode_frame(m: &BridgeMessage) -> (r: String)
    ensures
        r@ == frame_of(m@),
{
    let mut out = str_chars(encode_message(m).as_str());
    push_lit(&mut out, "/*1^/");
    proof {
        reveal_strlit("/*1^/");
        assert("/*1^/"@ =~= delim());
    }
    chars_string(&out)
}


// ---------------------------------------------------------------------------
// The decoder
// ---------------------------------------------------------------------------

/// Whether a character is a decimal digit.
fn is_digit_char(c: char) -> (b: bool)
    ensures
        b == is_digit(c),
{
    let u = c as u32;
    48 <= u && u <= 57
}

/// The value of a digit character.
fn digit_of(c: char) -> (d: u8)
    requires
        is_digit(c),
    ensures
        d as nat == digit_val(c),
        d < 10,
{
    (c as u32 - 48) as u8
}

/// Consume a literal at `pos`, yielding the position after it.
fn take_lit(input: &Vec<char>, pos: usize, lit: &str) -> (r: Option<usize>)
    requires
        pos <= input.len(),
    ensures
        ({
            let t = input@.subrange(pos as int, input@.len() as int);
            match r {
                Some(p) => pos <= p && p <= input@.len()
                    && parse_lit(t, lit@)
                        == Some(input@.subrange(p as int, input@.len() as int)),
                None => parse_lit(t, lit@) is None,
            }
        }),
{
    let ghost t = input@.subrange(pos as int, input@.len() as int);
    let n = lit.unicode_len();
    if n > input.len() - pos {
        proof {
            assert(t.len() < lit@.len());
        }
        return None;
    }
    let mut i: usize = 0;
    while i < n
        invariant
            i <= n,
            n == lit@.len(),
            pos + n <= input.len(),
            t == input@.subrange(pos as int, input@.len() as int),
            forall|j: int| 0 <= j < i ==> input@[pos + j] == lit@[j],
        decreases n - i,
    {
        if input[pos + i] != lit.get_char(i) {
            proof {
                assert(t[i as int] == input@[pos + i]);
                if t.subrange(0, lit@.len() as int) == lit@ {
                    assert(t.subrange(0, lit@.len() as int)[i as int] == t[i as int]);
                }
            }
            return None;
        }
        i = i + 1;
    }
    proof {
        assert(t.subrange(0, lit@.len() as int) =~= lit@);
        assert(t.subrange(lit@.len() as int, t.len() as int)
            =~= input@.subrange(pos + n, input@.len() as int));
    }
    Some(pos + n)
}

/// Consume a JSON string body at `pos`, undoing the escaping.
fn take_jstring(input: &Vec<char>, pos: usize) -> (r: Option<(Vec<char>, usize)>)
    requires
        pos <= input.len(),
    ensures
        ({
            let t = input@.subrange(pos as int, input@.len() as int);
            match r {
                Some((s, p)) => pos <= p && p <= input@.len()
                    && parse_jstring(t)
                        == Some((s@, input@.subrange(p as int, input@.len() as int))),
                None => parse_jstring(t) is None,
            }
        }),
    decreases input@.len() - pos,
{
    let ghost t = input@.subrange(pos as int, input@.len() as int);
    if pos >= input.len() {
        return None;
    }
    let c = input[pos];
    proof {
        assert(t[0] == c);
    }
    if c == '"' {
        proof {
            assert(t.drop_first() =~= input@.subrange(pos + 1, input@.len() as int));
        }
        return Some((Vec::new(), pos + 1));
    }
    if c == '\\' {
        if pos + 1 < input.len() {
            let c2 = input[pos + 1];
            proof {
                assert(t[1] == c2);
            }
            if c2 == '"' || c2 == '\\' {
                proof {
                    assert(t.subrange(2, t.len() as int)
                        =~= input@.subrange(pos + 2, input@.len() as int));
                }
                match take_jstring(input, pos + 2) {
                    Some((mut s, p)) => {
                        s.insert(0, c2);
                        proof {
                            let (s1, _) = parse_jstring(
                                input@.subrange(pos + 2, input@.len() as int)).unwrap();
                            assert(s@ =~= seq![c2] + s1);
                        }
                        return Some((s, p));
                    },
                    None => {
                        return None;
                    },
                }
            } else {
                return None;
            }
        } else {
            proof {
                assert(t.len() < 2);
            }
            return None;
        }
    }
    proof {
        assert(t.drop_first() =~= input@.subrange(pos + 1, input@.len() as int));
    }
    match take_jstring(input, pos + 1) {
        Some((mut s, p)) => {
            s.insert(0, c);
            proof {
                let (s1, _) = parse_jstring(
                    input@.subrange(pos + 1, input@.len() as int)).unwrap();
                assert(s@ =~= seq![c] + s1);
            }
            Some((s, p))
        },
        None => None,
    }
}

/// Consume a canonical decimal byte at `pos`.
fn take_u8(input: &Vec<char>, pos: usize) -> (r: Option<(u8, usize)>)
    requires
        pos <= input.len(),
    ensures
        ({
            let t = input@.subrange(pos as int, input@.len() as int);
            match r {
                Some((n, p)) => pos < p && p <= input@.len()
                    && parse_u8(t)
                        == Some((n, input@.subrange(p as int, input@.len() as int))),
                None => parse_u8(t) is None,
            }
        }),
{
    let ghost t = input@.subrange(pos as int, input@.len() as int);
    if pos >= input.len() {
        return None;
    }
    let c0 = input[pos];
    proof {
        assert(t[0] == c0);
    }
    if !is_digit_char(c0) {
        return None;
    }
    let more1 = pos + 1 < input.len() && is_digit_char(input[pos + 1]);
    proof {
        if pos + 1 < input.len() {
            assert(t[1] == input@[pos + 1]);
        }
        assert(more1 == (t.len() >= 2 && is_digit(t[1])));
    }
    if c0 == '0' {
        if more1 {
            return None;
        }
        proof {
            assert(t.drop_first() =~= input@.subrange(pos + 1, input@.len() as int));
        }
        return Some((0, pos + 1));
    }
    let d0 = digit_of(c0);
    if !more1 {
        proof {
            assert(t.drop_first() =~= input@.subrange(pos + 1, input@.len() as int));
        }
        return Some((d0, pos + 1));
    }
    let d1 = digit_of(input[pos + 1]);
    let more2 = pos + 2 < input.len() && is_digit_char(input[pos + 2]);
    proof {
        if pos + 2 < input.len() {
            assert(t[2] == input@[pos + 2]);
        }
        assert(more2 == (t.len() >= 3 && is_digit(t[2])));
    }
    if !more2 {
        proof {
            assert(t.subrange(2, t.len() as int)
                =~= input@.subrange(pos + 2, input@.len() as int));
        }
        return Some((d0 * 10 + d1, pos + 2));
    }
    let d2 = digit_of(input[pos + 2]);
    let more3 = pos + 3 < input.len() && is_digit_char(input[pos + 3]);
    proof {
        if pos + 3 < input.len() {
            assert(t[3] == input@[pos + 3]);
        }
        assert(more3 == (t.len() >= 4 && is_digit(t[3])));
    }
    if more3 {
        return None;
    }
    let v: u32 = d0 as u32 * 100 + d1 as u32 * 10 + d2 as u32;
    if v <= 255 {
        proof {
            assert(t.subrange(3, t.len() as int)
                =~= input@.subrange(pos + 3, input@.len() as int));
        }
        Some((v as u8, pos + 3))
    } else {
        None
    }
}

/// Consume the continuation of a byte list: `]` or `,` and another byte.
fn take_bytes_rest(input: &Vec<char>, pos: usize) -> (r: Option<(Vec<u8>, usize)>)
    requires
        pos <= input.len(),
    ensures
        ({
            let t = input@.subrange(pos as int, input@.len() as int);
            match r {
                Some((bs, p)) => pos <= p && p <= input@.len()
                    && parse_bytes_rest(t)
                        == Some((bs@, input@.subrange(p as int, input@.len() as int))),
                None => parse_bytes_rest(t) is None,
            }
        }),
    decreases input@.len() - pos,
{
    let ghost t = input@.subrange(pos as int, input@.len() as int);
    if pos >= input.len() {
        return None;
    }
    let c = input[pos];
    proof {
        assert(t[0] == c);
    }
    if c == ']' {
        proof {
            assert(t.drop_first() =~= input@.subrange(pos + 1, input@.len() as int));
        }
        return Some((Vec::new(), pos + 1));
    }
    if c != ',' {
        return None;
    }
    proof {
        assert(t.drop_first() =~= input@.subrange(pos + 1, input@.len() as int));
    }
    match take_u8(input, pos + 1) {
        Some((b, p1)) => {
            match take_bytes_rest(input, p1) {
                Some((mut bs, p2)) => {
                    bs.insert(0, b);
                    proof {
                        let (bs1, _) = parse_bytes_rest(
                            input@.subrange(p1 as int, input@.len() as int)).unwrap();
                        assert(bs@ =~= seq![b] + bs1);
                    }
                    Some((bs, p2))
                },
                None => None,
            }
        },
        None => None,
    }
}

/// Consume a byte list after its opening bracket.
fn take_bytes(input: &Vec<char>, pos: usize) -> (r: Option<(Vec<u8>, usize)>)
    requires
        pos <= input.len(),
    ensures
        ({
            let t = input@.subrange(pos as int, input@.len() as int);
            match r {
                Some((bs, p)) => pos <= p && p <= input@.len()
                    && parse_bytes(t)
                        == Some((bs@, input@.subrange(p as int, input@.len() as int))),
                None => parse_bytes(t) is None,
            }
        }),
{
    let ghost t = input@.subrange(pos as int, input@.len() as int);
    if pos < input.len() && input[pos] == ']' {
        proof {
            assert(t[0] == ']');
            assert(t.drop_first() =~= input@.subrange(pos + 1, input@.len() as int));
        }
        return Some((Vec::new(), pos + 1));
    }
    proof {
        if t.len() >= 1 {
            assert(t[0] == input@[pos as int]);
        }
    }
    match take_u8(input, pos) {
        Some((b, p1)) => {
            match take_bytes_rest(input, p1) {
                Some((mut bs, p2)) => {
                    bs.insert(0, b);
                    proof {
                        let (bs1, _) = parse_bytes_rest(
                            input@.subrange(p1 as int, input@.len() as int)).unwrap();
                        assert(bs@ =~= seq![b] + bs1);
                    }
                    Some((bs, p2))
                },
                None => None,
            }
        },
        None => None,
    }
}

/// Consume an optional string value: `null` or a quoted string.
fn take_opt_str(input: &Vec<char>, pos: usize) -> (r: Option<(Option<Vec<char>>, usize)>)
    requires
        pos <= input.len(),
    ensures
        ({
            let t = input@.subrange(pos as int, input@.len() as int);
            match r {
                Some((e, p)) => pos <= p && p <= input@.len()
                    && parse_opt_str(t) is Some
                    && parse_opt_str(t).unwrap().1
                        == input@.subrange(p as int, input@.len() as int)
                    && (match e {
                        Some(s) => parse_opt_str(t).unwrap().0 == Some(s@),
                        None => parse_opt_str(t).unwrap().0 is None,
                    }),
                None => parse_opt_str(t) is None,
            }
        }),
{
    let ghost t = input@.subrange(pos as int, input@.len() as int);
    if pos >= input.len() {
        return None;
    }
    let c = input[pos];
    proof {
        assert(t[0] == c);
    }
    if c == 'n' {
        match take_lit(input, pos, "null") {
            Some(p) => {
                return Some((None, p));
            },
            None => {
                return None;
            },
        }
    }
    if c == '"' {
        proof {
            assert(t.drop_first() =~= input@.subrange(pos + 1, input@.len() as int));
        }
        match take_jstring(input, pos + 1) {
            Some((s, p)) => {
                return Some((Some(s), p));
            },
            None => {
                return None;
            },
        }
    }
    None
}

/// Consume an optional signature value: `null` or a bracketed byte list.
fn take_opt_sig(input: &Vec<char>, pos: usize) -> (r: Option<(Option<Vec<u8>>, usize)>)
    requires
        pos <= input.len(),
    ensures
        ({
            let t = input@.subrange(pos as int, input@.len() as int);
            match r {
                Some((e, p)) => pos <= p && p <= input@.len()
                    && parse_opt_sig(t) is Some
                    && parse_opt_sig(t).unwrap().1
                        == input@.subrange(p as int, input@.len() as int)
                    && (match e {
                        Some(bs) => parse_opt_sig(t).unwrap().0 == Some(bs@),
                        None => parse_opt_sig(t).unwrap().0 is None,
                    }),
                None => parse_opt_sig(t) is None,
            }
        }),
{
    let ghost t = input@.subrange(pos as int, input@.len() as int);
    if pos >= input.len() {
        return None;
    }
    let c = input[pos];
    proof {
        assert(t[0] == c);
    }
    if c == 'n' {
        match take_lit(input, pos, "null") {
            Some(p) => {
                return Some((None, p));
            },
            None => {
                return None;
            },
        }
    }
    if c == '[' {
        proof {
            assert(t.drop_first() =~= input@.subrange(pos + 1, input@.len() as int));
        }
        match take_bytes(input, pos + 1) {
            Some((bs, p)) => {
                return Some((Some(bs), p));
            },
            None => {
                return None;
            },
        }
    }
    None
}


/// Consume one whole bridge-message object at `pos`.
#[verifier::rlimit(100)]
fn take_msg(input: &Vec<char>, pos: usize) -> (r: Option<(BridgeMessage, usize)>)
    requires
        pos <= input.len(),
    ensures
        ({
            let t = input@.subrange(pos as int, input@.len() as int);
            match r {
                Some((m, p)) => pos <= p && p <= input@.len()
                    && parse_msg(t)
                        == Some((m@, input@.subrange(p as int, input@.len() as int))),
                None => parse_msg(t) is None,
            }
        }),
{
    let ghost t = input@.subrange(pos as int, input@.len() as int);
    let p0 = match take_lit(input, pos, "{\"from_name\":\"") {
        Some(p) => p,
        None => { return None; },
    };
    let (from_name, p1) = match take_jstring(input, p0) {
        Some(sp) => sp,
        None => { return None; },
    };
    let p1b = match take_lit(input, p1, ",\"from_group\":\"") {
        Some(p) => p,
        None => { return None; },
    };
    let (from_group, p2) = match take_jstring(input, p1b) {
        Some(sp) => sp,
        None => { return None; },
    };
    let p2b = match take_lit(input, p2, ",\"to_name\":\"") {
        Some(p) => p,
        None => { return None; },
    };
    let (to_name, p3) = match take_jstring(input, p2b) {
        Some(sp) => sp,
        None => { return None; },
    };
    let p3b = match take_lit(input, p3, ",\"to_group\":\"") {
        Some(p) => p,
        None => { return None; },
    };
    let (to_group, p4) = match take_jstring(input, p3b) {
        Some(sp) => sp,
        None => { return None; },
    };
    let p4b = match take_lit(input, p4, ",\"message\":\"") {
        Some(p) => p,
        None => { return None; },
    };
    let (message, p5) = match take_jstring(input, p4b) {
        Some(sp) => sp,
        None => { return None; },
    };
    let p6 = match take_lit(input, p5, ",\"error_msg\":") {
        Some(p) => p,
        None => { return None; },
    };
    let (error_msg, p7) = match take_opt_str(input, p6) {
        Some(ep) => ep,
        None => { return None; },
    };
    let p8 = match take_lit(input, p7, ",\"sig\":") {
        Some(p) => p,
        None => { return None; },
    };
    let (sig, p9) = match take_opt_sig(input, p8) {
        Some(ep) => ep,
        None => { return None; },
    };
    let p10 = match take_lit(input, p9, "}") {
        Some(p) => p,
        None => { return None; },
    };
    let m = BridgeMessage {
        from_name: chars_string(&from_name),
        from_group: chars_string(&from_group),
        to_name: chars_string(&to_name),
        to_group: chars_string(&to_group),
        message: chars_string(&message),
        error_msg: match error_msg {
            Some(e) => Some(chars_string(&e)),
            None => None,
        },
        sig,
    };
    proof {
        assert(parse_msg(t) is Some);
        assert(m@ == parse_msg(t).unwrap().0);
    }
    Some((m, p10))
}

/// Decode one fragment: it must hold exactly one rendered message.
fn decode_fragment(frag: &Vec<char>) -> (r: Option<BridgeMessage>)
    ensures
        match r {
            Some(m) => parse_fragment(frag@) == Some(m@),
            None => parse_fragment(frag@) is None,
        },
{
    proof {
        assert(frag@.subrange(0, frag@.len() as int) =~= frag@);
    }
    match take_msg(frag, 0) {
        Some((m, p)) => {
            if p == frag.len() {
                proof {
                    assert(frag@.subrange(p as int, frag@.len() as int).len() == 0);
                }
                Some(m)
            } else {
                proof {
                    assert(frag@.subrange(p as int, frag@.len() as int).len() > 0);
                }
                None
            }
        },
        None => None,
    }
}

/// Scan for the leftmost delimiter occurrence at or after `pos`.
fn find_delim_from(input: &Vec<char>, pos: usize) -> (r: Option<usize>)
    requires
        pos <= input.len(),
    ensures
        ({
            let t = input@.subrange(pos as int, input@.len() as int);
            match r {
                Some(j) => pos <= j && j + 5 <= input@.len()
                    && find_delim(t) == Some(j - pos),
                None => find_delim(t) is None,
            }
        }),
{
    let ghost t = input@.subrange(pos as int, input@.len() as int);
    proof {
        lemma_find_delim_spec(t);
    }
    if input.len() - pos < 5 {
        return None;
    }
    let mut j: usize = pos;
    while j <= input.len() - 5
        invariant
            pos <= j,
            j <= input.len(),
            pos + 5 <= input.len(),
            t == input@.subrange(pos as int, input@.len() as int),
            forall|k: int| pos <= k < j ==> #[trigger] input@.subrange(k, k + 5) != delim(),
        decreases input.len() - j,
    {
        if input[j] == '/' && input[j + 1] == '*' && input[j + 2] == '1'
            && input[j + 3] == '^' && input[j + 4] == '/' {
            proof {
                lemma_find_delim_spec(t);
                assert(input@.subrange(j as int, j as int + 5) =~= delim());
                // map the spec answer on `t` back to absolute positions
                assert forall|q: int| 0 <= q && q + 5 <= t.len()
                    implies #[trigger] t.subrange(q, q + 5)
                        == input@.subrange(pos + q, (pos + q) + 5) by {
                    assert(t.subrange(q, q + 5) =~= input@.subrange(pos + q, (pos + q) + 5));
                }
                match find_delim(t) {
                    Some(i) => {
                        if i < j - pos {
                            assert(t.subrange(i, i + 5) == delim());
                            assert(input@.subrange(pos + i, (pos + i) + 5) != delim());
                        }
                        if i > j - pos {
                            assert(t.subrange(j - pos, (j - pos) + 5) != delim());
                            assert(input@.subrange(pos + (j - pos), (pos + (j - pos)) + 5)
                                == input@.subrange(j as int, j as int + 5));
                        }
                        assert(i == j - pos);
                    },
                    None => {
                        assert(t.subrange(j - pos, (j - pos) + 5) != delim());
                        assert(input@.subrange(pos + (j - pos), (pos + (j - pos)) + 5)
                            == input@.subrange(j as int, j as int + 5));
                        assert(false);
                    },
                }
            }
            return Some(j);
        }
        proof {
            if input@.subrange(j as int, j as int + 5) == delim() {
                assert(input@.subrange(j as int, j as int + 5)[0] == input@[j as int]);
                assert(input@.subrange(j as int, j as int + 5)[1] == input@[j as int + 1]);
                assert(input@.subrange(j as int, j as int + 5)[2] == input@[j as int + 2]);
                assert(input@.subrange(j as int, j as int + 5)[3] == input@[j as int + 3]);
                assert(input@.subrange(j as int, j as int + 5)[4] == input@[j as int + 4]);
                assert(false);
            }
        }
        j = j + 1;
    }
    proof {
        lemma_find_delim_spec(t);
        assert forall|q: int| 0 <= q && q + 5 <= t.len()
            implies #[trigger] t.subrange(q, q + 5) != delim() by {
            assert(t.subrange(q, q + 5) =~= input@.subrange(pos + q, (pos + q) + 5));
            assert(pos <= pos + q < j);
        }
        assert(find_delim(t) is None);
    }
    None
}

/// Copy a range of characters.
pub(crate) fn copy_range(input: &Vec<char>, start: usize, end: usize) -> (r: Vec<char>)
    requires
        start <= end,
        end <= input.len(),
    ensures
        r@ == input@.subrange(start as int, end as int),
{
    let mut r: Vec<char> = Vec::new();
    let mut i: usize = start;
    while i < end
        invariant
            start <= i <= end,
            end <= input.len(),
            r@ == input@.subrange(start as int, i as int),
        decreases end - i,
    {
        r.push(input[i]);
        i = i + 1;
        proof {
            assert(r@ =~= input@.subrange(start as int, i as int));
        }
    }
    r
}

/// Decode every frame of the tail starting at `pos`.
fn decode_from(input: &Vec<char>, pos: usize) -> (r: Vec<BridgeMessage>)
    requires
        pos <= input.len(),
    ensures
        r.deep_view() == decode_frames(split_frames(
            input@.subrange(pos as int, input@.len() as int))),
    decreases input@.len() - pos,
{
    let ghost t = input@.subrange(pos as int, input@.len() as int);
    match find_delim_from(input, pos) {
        None => {
            let frag = copy_range(input, pos, input.len());
            proof {
                assert(frag@ =~= t);
                assert(split_frames(t) == seq![t]);
                assert(seq![t].drop_first() =~= Seq::<Seq<char>>::empty());
                assert(decode_frames(seq![t].drop_first()) == Seq::<BridgeView>::empty());
            }
            let mut out: Vec<BridgeMessage> = Vec::new();
            if frag.len() > 0 {
                match decode_fragment(&frag) {
                    Some(m) => {
                        out.push(m);
                        proof {
                            assert(out.deep_view() =~= seq![m@] + Seq::<BridgeView>::empty());
                        }
                    },
                    None => {},
                }
            }
            proof {
                assert(out.deep_view() =~= decode_frames(split_frames(t)));
            }
            out
        },
        Some(j) => {
            let ghost i = j - pos;
            let frag = copy_range(input, pos, j);
            proof {
                assert(frag@ =~= t.subrange(0, i as int));
                assert(input@.subrange(j as int + 5, input@.len() as int)
                    =~= t.subrange(i + 5, t.len() as int));
            }
            let mut rest = decode_from(input, j + 5);
            let ghost fs = split_frames(t);
            proof {
                assert(fs == seq![t.subrange(0, i as int)]
                    + split_frames(t.subrange(i + 5, t.len() as int)));
                assert(fs.len() >= 1);
                assert(fs[0] == frag@);
                assert(fs.drop_first() =~= split_frames(t.subrange(i + 5, t.len() as int)));
            }
            let mut out: Vec<BridgeMessage> = Vec::new();
            if frag.len() > 0 {
                match decode_fragment(&frag) {
                    Some(m) => {
                        out.push(m);
                    },
                    None => {},
                }
            }
            out.append(&mut rest);
            proof {
                assert(out.deep_view() =~= decode_frames(fs));
            }
            out
        },
    }
}

/// Split a read on the delimiter and decode each piece, dropping empty
/// pieces and pieces that do not decode.
pub fn parse_message_list(raw_msg: &str) -> (r: Vec<BridgeMessage>)
    ensures
        r.deep_view() == decode_wire(raw_msg@),
{
    let chars = str_chars(raw_msg);
    proof {
        assert(chars@.subrange(0, chars@.len() as int) =~= chars@);
    }
    decode_from(&chars, 0)
}


/// A whole outbound stream: each message's frame, in order.
pub open spec fn frames_of(vs: Seq<BridgeView>) -> Seq<char>
    decreases vs.len(),
{
    if vs.len() == 0 {
        Seq::empty()
    } else {
        frame_of(vs[0]) + frames_of(vs.drop_first())
    }
}

/// Decoding a whole stream of encoded frames yields exactly the encoded
/// messages, in the order they were written: framing preserves content
/// and order end to end.
///
/// As for one frame, this holds whenever no rendered message contains the
/// framing delimiter.
pub proof fn lemma_stream_round_trip(vs: Seq<BridgeView>)
    requires
        forall|i: int| 0 <= i < vs.len() ==> !contains_delim(json_of(#[trigger] vs[i])),
    ensures
        decode_wire(frames_of(vs)) == vs,
    decreases vs.len(),
{
    if vs.len() == 0 {
        let t = frames_of(vs);
        assert(t.len() == 0);
        assert(find_delim(t) is None);
        assert(split_frames(t) == seq![t]);
        assert(seq![t][0] == t);
        assert(seq![t].drop_first() =~= Seq::<Seq<char>>::empty());
        assert(decode_frames(seq![t]) == decode_frames(Seq::<Seq<char>>::empty()));
        assert(decode_wire(t) =~= vs);
    } else {
        let v0 = vs[0];
        let vs1 = vs.drop_first();
        let a = json_of(v0);
        let tail = frames_of(vs1);
        let t = frames_of(vs);
        assert(t == (a + delim()) + tail);
        assert(t =~= a + delim() + tail);
        lemma_json_last(v0);
        assert(!contains_delim(a));
        lemma_find_delim_append(a, tail);
        assert(find_delim(a + delim() + tail) == Some(a.len() as int));
        assert(find_delim(t) == Some(a.len() as int));
        assert(t.subrange(0, a.len() as int) =~= a);
        assert(t.subrange(a.len() as int + 5, t.len() as int) =~= tail);
        assert(split_frames(t) == seq![a] + split_frames(tail));
        assert forall|i: int| 0 <= i < vs1.len()
            implies !contains_delim(json_of(#[trigger] vs1[i])) by {
            assert(vs1[i] == vs[i + 1]);
        }
        lemma_stream_round_trip(vs1);
        lemma_parse_fragment_json(v0);
        let fs = split_frames(t);
        assert(fs[0] == a);
        assert(a.len() > 0);
        assert(fs.drop_first() =~= split_frames(tail));
        assert(decode_frames(fs) == seq![v0] + decode_frames(split_frames(tail)));
        assert(seq![v0] + vs1 =~= vs);
    }
}

} // verus!
