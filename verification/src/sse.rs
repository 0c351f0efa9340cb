//! Server-sent-event frames.
//!
//! Every event crosses the HTTP boundary as one text frame,
//! `data: <one-line JSON>\n\n`. The three JSON shapes are
//! `{"token":"…","index":n}`, `{"done":true,"total_tokens":n}` and
//! `{"error":"…"}`; idle streams are kept alive with the comment frame
//! `: keep-alive\n\n`. The functions here produce those frames byte for
//! byte, with string content escaped as JSON requires.

use vstd::prelude::*;
use vstd::string::StringSliceAdditionalSpecFns;
use vstd::utf8::encode_utf8;

use crate::events::{EventSpec, EventToServer};

verus! {

/// Decimal digits of `n`, most significant first.
pub open spec fn dec_digits(n: nat) -> Seq<u8>
    decreases n,
{
    if n < 10 {
        seq![(0x30 + n) as u8]
    } else {
        dec_digits(n / 10) + seq![(0x30 + n % 10) as u8]
    }
}

/// Decimal text of `i`: a leading minus sign for negatives, then digits.
pub open spec fn dec_int(i: int) -> Seq<u8> {
    if i < 0 {
        seq![0x2du8] + dec_digits((-i) as nat)
    } else {
        dec_digits(i as nat)
    }
}

/// Writes `n` in decimal.
pub fn format_u64(n: u64) -> (r: Vec<u8>)
    ensures
        r@ == dec_digits(n as nat),
    decreases n,
{
    let d: u8 = (n % 10) as u8 + 0x30;
    if n < 10 {
        let mut r: Vec<u8> = Vec::new();
        r.push(d);
        proof {
            assert(r@ =~= dec_digits(n as nat));
        }
        r
    } else {
        let mut r = format_u64(n / 10);
        r.push(d);
        proof {
            assert(r@ =~= dec_digits(n as nat));
        }
        r
    }
}

/// Writes `n` in decimal.
pub fn format_usize(n: usize) -> (r: Vec<u8>)
    ensures
        r@ == dec_digits(n as nat),
{
    format_u64(n as u64)
}

/// Writes `i` in decimal, with a minus sign when negative.
pub fn format_i32(i: i32) -> (r: Vec<u8>)
    ensures
        r@ == dec_int(i as int),
{
    let wide: i64 = i as i64;
    if wide < 0 {
        let mut r: Vec<u8> = Vec::new();
        r.push(0x2d);
        let digits = format_u64((-wide) as u64);
        let mut idx: usize = 0;
        while idx < digits.len()
            invariant
                0 <= idx <= digits@.len(),
                r@ == seq![0x2du8] + digits@.subrange(0, idx as int),
            decreases digits@.len() - idx,
        {
            r.push(digits[idx]);
            proof {
                assert(r@ =~= seq![0x2du8] + digits@.subrange(0, idx + 1));
            }
            idx += 1;
        }
        proof {
            assert(digits@.subrange(0, digits@.len() as int) =~= digits@);
        }
        r
    } else {
        format_u64(wide as u64)
    }
}

/// The lower-case hexadecimal digit for a value below 16.
pub open spec fn hex_digit(v: u8) -> u8 {
    if v < 10 {
        (0x30 + v) as u8
    } else {
        (0x61 + (v - 10)) as u8
    }
}

/// How one byte appears inside a JSON string: quote and backslash get a
/// backslash escape, the five short control escapes are used where JSON has
/// them, other control bytes become `\u00xx`, and everything else stands as
/// itself.
pub open spec fn escape_byte(b: u8) -> Seq<u8> {
    if b == 0x22 {
        seq![0x5cu8, 0x22u8]
    } else if b == 0x5c {
        seq![0x5cu8, 0x5cu8]
    } else if b == 0x08 {
        seq![0x5cu8, 0x62u8]
    } else if b == 0x09 {
        seq![0x5cu8, 0x74u8]
    } else if b == 0x0a {
        seq![0x5cu8, 0x6eu8]
    } else if b == 0x0c {
        seq![0x5cu8, 0x66u8]
    } else if b == 0x0d {
        seq![0x5cu8, 0x72u8]
    } else if b < 0x20 {
        seq![0x5cu8, 0x75u8, 0x30u8, 0x30u8, hex_digit(b / 16), hex_digit(b % 16)]
    } else {
        seq![b]
    }
}

/// The bytes of `s` escaped for a JSON string, in order.
pub open spec fn json_escape(s: Seq<u8>) -> Seq<u8>
    decreases s.len(),
{
    if s.len() == 0 {
        Seq::<u8>::empty()
    } else {
        json_escape(s.drop_last()) + escape_byte(s.last())
    }
}

/// Appends the JSON escaping of `s` to `out`.
pub fn append_escaped(out: &mut Vec<u8>, s: &Vec<u8>)
    ensures
        final(out)@ == old(out)@ + json_escape(s@),
{
    let ghost base = old(out)@;
    let mut i: usize = 0;
    proof {
        assert(s@.subrange(0, 0) =~= Seq::<u8>::empty());
        assert(base + json_escape(s@.subrange(0, 0)) =~= base);
    }
    while i < s.len()
        invariant
            0 <= i <= s@.len(),
            out@ == base + json_escape(s@.subrange(0, i as int)),
        decreases s@.len() - i,
    {
        let b = s[i];
        if b == 0x22 {
            out.push(0x5c);
            out.push(0x22);
        } else if b == 0x5c {
            out.push(0x5c);
            out.push(0x5c);
        } else if b == 0x08 {
            out.push(0x5c);
            out.push(0x62);
        } else if b == 0x09 {
            out.push(0x5c);
            out.push(0x74);
        } else if b == 0x0a {
            out.push(0x5c);
            out.push(0x6e);
        } else if b == 0x0c {
            out.push(0x5c);
            out.push(0x66);
        } else if b == 0x0d {
            out.push(0x5c);
            out.push(0x72);
        } else if b < 0x20 {
            out.push(0x5c);
            out.push(0x75);
            out.push(0x30);
            out.push(0x30);
            let hi = b / 16;
            let lo = b % 16;
            out.push(if hi < 10 {
                0x30 + hi
            } else {
                0x61 + (hi - 10)
            });
            out.push(if lo < 10 {
                0x30 + lo
            } else {
                0x61 + (lo - 10)
            });
        } else {
            out.push(b);
        }
        proof {
            let prefix = s@.subrange(0, i + 1);
            assert(prefix.drop_last() =~= s@.subrange(0, i as int));
            assert(prefix.last() == s@[i as int]);
            assert(out@ =~= base + json_escape(prefix));
        }
        i += 1;
    }
    proof {
        assert(s@.subrange(0, s@.len() as int) =~= s@);
    }
}

/// Appends the bytes of the literal text `s` to `out`.
pub fn append_lit(out: &mut Vec<u8>, s: &str)
    ensures
        final(out)@ == old(out)@ + encode_utf8(s@),
{
    let ghost base = old(out)@;
    let bytes = s.as_bytes();
    let mut i: usize = 0;
    while i < bytes.len()
        invariant
            0 <= i <= bytes@.len(),
            bytes@ == s.spec_bytes(),
            out@ == base + bytes@.subrange(0, i as int),
        decreases bytes@.len() - i,
    {
        out.push(bytes[i]);
        proof {
            assert(out@ =~= base + bytes@.subrange(0, i + 1));
        }
        i += 1;
    }
    proof {
        assert(bytes@.subrange(0, bytes@.len() as int) =~= bytes@);
    }
}

/// Appends the bytes of `s` to `out`.
pub fn append_bytes(out: &mut Vec<u8>, s: &Vec<u8>)
    ensures
        final(out)@ == old(out)@ + s@,
{
    let ghost base = old(out)@;
    let mut i: usize = 0;
    while i < s.len()
        invariant
            0 <= i <= s@.len(),
            out@ == base + s@.subrange(0, i as int),
        decreases s@.len() - i,
    {
        out.push(s[i]);
        proof {
            assert(out@ =~= base + s@.subrange(0, i + 1));
        }
        i += 1;
    }
    proof {
        assert(s@.subrange(0, s@.len() as int) =~= s@);
    }
}

/// The frame for one streamed token piece.
pub open spec fn token_frame_spec(piece: Seq<u8>, index: int) -> Seq<u8> {
    encode_utf8("data: {\"token\":\""@) + json_escape(piece) + encode_utf8("\",\"index\":"@)
        + dec_int(index) + encode_utf8("}\n\n"@)
}

/// The terminal frame reporting how many pieces were streamed.
pub open spec fn done_frame_spec(total_tokens: int) -> Seq<u8> {
    encode_utf8("data: {\"done\":true,\"total_tokens\":"@) + dec_int(total_tokens) + encode_utf8(
        "}\n\n"@,
    )
}

/// The frame carrying an error message.
pub open spec fn error_frame_spec(message: Seq<u8>) -> Seq<u8> {
    encode_utf8("data: {\"error\":\""@) + json_escape(message) + encode_utf8("\"}\n\n"@)
}

/// The comment frame sent on an idle stream.
pub open spec fn keep_alive_frame_spec() -> Seq<u8> {
    encode_utf8(": keep-alive\n\n"@)
}

/// Builds the frame for one streamed token piece.
pub fn token_frame(piece: &Vec<u8>, index: usize) -> (r: Vec<u8>)
    ensures
        r@ == token_frame_spec(piece@, index as int),
{
    let mut r: Vec<u8> = Vec::new();
    append_lit(&mut r, "data: {\"token\":\"");
    append_escaped(&mut r, piece);
    append_lit(&mut r, "\",\"index\":");
    let digits = format_usize(index);
    append_bytes(&mut r, &digits);
    append_lit(&mut r, "}\n\n");
    r
}

/// Builds the terminal frame reporting how many pieces were streamed.
pub fn done_frame(total_tokens: usize) -> (r: Vec<u8>)
    ensures
        r@ == done_frame_spec(total_tokens as int),
{
    let mut r: Vec<u8> = Vec::new();
    append_lit(&mut r, "data: {\"done\":true,\"total_tokens\":");
    let digits = format_usize(total_tokens);
    append_bytes(&mut r, &digits);
    append_lit(&mut r, "}\n\n");
    r
}

/// Builds the frame carrying an error message.
pub fn error_frame(message: &Vec<u8>) -> (r: Vec<u8>)
    ensures
        r@ == error_frame_spec(message@),
{
    let mut r: Vec<u8> = Vec::new();
    append_lit(&mut r, "data: {\"error\":\"");
    append_escaped(&mut r, message);
    append_lit(&mut r, "\"}\n\n");
    r
}

/// The frame one event crosses the HTTP boundary as.
pub open spec fn frame_spec(e: EventSpec) -> Seq<u8> {
    match e {
        EventSpec::Token { token, index } => token_frame_spec(token, index),
        EventSpec::Done { total_tokens } => done_frame_spec(total_tokens),
        EventSpec::Error { message } => error_frame_spec(message),
    }
}

/// Builds the frame for one event.
pub fn frame_for_event(e: &EventToServer) -> (r: Vec<u8>)
    ensures
        r@ == frame_spec(e@),
{
    match e {
        EventToServer::Token { token, index } => token_frame(token, *index),
        EventToServer::Done { total_tokens } => done_frame(*total_tokens),
        EventToServer::Error { message } => error_frame(message),
    }
}

/// One step of the streaming bridge: turns the event into its frame, and
/// appends a token event's bytes to the per-session reply buffer that is
/// persisted when the stream completes.
pub fn bridge_event(e: &EventToServer, buffer: &mut Vec<u8>) -> (frame: Vec<u8>)
    ensures
        frame@ == frame_spec(e@),
        final(buffer)@ == old(buffer)@ + crate::events::event_bytes(e@),
{
    if let EventToServer::Token { token, .. } = e {
        append_bytes(buffer, token);
    } else {
        proof {
            assert(old(buffer)@ + crate::events::event_bytes(e@) =~= old(buffer)@);
        }
    }
    frame_for_event(e)
}

/// Builds the comment frame sent on an idle stream.
pub fn keep_alive_frame() -> (r: Vec<u8>)
    ensures
        r@ == keep_alive_frame_spec(),
{
    let mut r: Vec<u8> = Vec::new();
    append_lit(&mut r, ": keep-alive\n\n");
    proof {
        assert(r@ =~= keep_alive_frame_spec());
    }
    r
}

} // verus!
