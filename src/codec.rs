//! The line form of an envelope.
//!
//! A line is a kind byte followed by fields, each closed by `;`:
//!   `t;` username, content, seconds, nanoseconds
//!   `f;` username, filename, payload, seconds, nanoseconds
//!   `j;` username, seconds, nanoseconds
//!   `l;` username, seconds, nanoseconds
//!   `s;` content, seconds, nanoseconds
//! A string field is its UTF-8 bytes with `\`, `;`, line feed and carriage
//! return escaped as `\\`, `\s`, `\n`, `\r`. The payload is two lowercase hex
//! digits per byte. A number is twenty decimal digits. A line therefore never
//! holds a line feed or a carriage return, and is valid UTF-8.
use vstd::prelude::*;
use vstd::utf8::*;
use crate::message::{Message, MessageView, Timestamp};

verus! {

broadcast use {encode_utf8_valid_utf8, encode_utf8_decode_utf8};

pub const SEP: u8 = 0x3b;

pub const ESC: u8 = 0x5c;

pub const LF: u8 = 0x0a;

pub const CR: u8 = 0x0d;

pub const TAG_TEXT: u8 = 0x74;

pub const TAG_FILE: u8 = 0x66;

pub const TAG_JOINED: u8 = 0x6a;

pub const TAG_LEFT: u8 = 0x6c;

pub const TAG_SYSTEM: u8 = 0x73;

/// Digits in a number field: enough for every `u64`.
pub const WIDTH: usize = 20;

/// A line could not be read as an envelope.
#[derive(Debug, Clone, Copy, PartialEq, Eq, Structural)]
pub struct MalformedEnvelope;

// ---------------------------------------------------------------- string fields

pub open spec fn escape_byte(b: u8) -> Seq<u8> {
    if b == ESC {
        seq![ESC, ESC]
    } else if b == SEP {
        seq![ESC, 0x73u8]
    } else if b == LF {
        seq![ESC, 0x6eu8]
    } else if b == CR {
        seq![ESC, 0x72u8]
    } else {
        seq![b]
    }
}

pub open spec fn escape(s: Seq<u8>) -> Seq<u8>
    decreases s.len(),
{
    if s.len() == 0 {
        seq![]
    } else {
        escape_byte(s[0]) + escape(s.drop_first())
    }
}

pub open spec fn unescape_code(c: u8) -> Option<u8> {
    if c == ESC {
        Some(ESC)
    } else if c == 0x73 {
        Some(SEP)
    } else if c == 0x6e {
        Some(LF)
    } else if c == 0x72 {
        Some(CR)
    } else {
        None
    }
}

/// Reads escaped bytes up to the closing `;`: the bytes read after `acc`, and
/// what follows the field.
pub open spec fn take_escaped(x: Seq<u8>, acc: Seq<u8>) -> Option<(Seq<u8>, Seq<u8>)>
    decreases x.len(),
{
    if x.len() == 0 {
        None
    } else if x[0] == SEP {
        Some((acc, x.drop_first()))
    } else if x[0] == LF || x[0] == CR {
        None
    } else if x[0] == ESC {
        if x.len() < 2 {
            None
        } else {
            match unescape_code(x[1]) {
                Some(b) => take_escaped(x.subrange(2, x.len() as int), acc.push(b)),
                None => None,
            }
        }
    } else {
        take_escaped(x.drop_first(), acc.push(x[0]))
    }
}

pub open spec fn string_field(s: Seq<char>) -> Seq<u8> {
    escape(encode_utf8(s)).push(SEP)
}

pub open spec fn take_string(x: Seq<u8>) -> Option<(Seq<char>, Seq<u8>)> {
    match take_escaped(x, seq![]) {
        Some((b, rest)) => if valid_utf8(b) {
            Some((decode_utf8(b), rest))
        } else {
            None
        },
        None => None,
    }
}

// ---------------------------------------------------------------- payload field

pub open spec fn hex_digit(n: int) -> u8 {
    if n < 10 {
        (0x30 + n) as u8
    } else {
        (0x61 + n - 10) as u8
    }
}

pub open spec fn hex_value(c: u8) -> Option<int> {
    if 0x30 <= c <= 0x39 {
        Some(c - 0x30)
    } else if 0x61 <= c <= 0x66 {
        Some(c - 0x61 + 10)
    } else {
        None
    }
}

pub open spec fn hex(s: Seq<u8>) -> Seq<u8>
    decreases s.len(),
{
    if s.len() == 0 {
        seq![]
    } else {
        seq![hex_digit(s[0] as int / 16), hex_digit(s[0] as int % 16)] + hex(s.drop_first())
    }
}

pub open spec fn payload_field(s: Seq<u8>) -> Seq<u8> {
    hex(s).push(SEP)
}

pub open spec fn take_hex(x: Seq<u8>, acc: Seq<u8>) -> Option<(Seq<u8>, Seq<u8>)>
    decreases x.len(),
{
    if x.len() == 0 {
        None
    } else if x[0] == SEP {
        Some((acc, x.drop_first()))
    } else if x.len() < 2 {
        None
    } else {
        match (hex_value(x[0]), hex_value(x[1])) {
            (Some(h), Some(l)) => take_hex(
                x.subrange(2, x.len() as int),
                acc.push((h * 16 + l) as u8),
            ),
            _ => None,
        }
    }
}

// ---------------------------------------------------------------- number fields

pub open spec fn pow10(w: nat) -> nat
    decreases w,
{
    if w == 0 {
        1
    } else {
        10 * pow10((w - 1) as nat)
    }
}

/// The last `w` decimal digits of `n`, most significant first.
pub open spec fn digits(n: nat, w: nat) -> Seq<u8>
    decreases w,
{
    if w == 0 {
        seq![]
    } else {
        digits(n / 10, (w - 1) as nat).push((0x30 + n % 10) as u8)
    }
}

pub open spec fn is_digit(c: u8) -> bool {
    0x30 <= c <= 0x39
}

pub open spec fn digits_value(s: Seq<u8>) -> nat
    decreases s.len(),
{
    if s.len() == 0 {
        0
    } else {
        digits_value(s.drop_last()) * 10 + (s.last() - 0x30) as nat
    }
}

pub open spec fn number_field(n: u64) -> Seq<u8> {
    digits(n as nat, WIDTH as nat).push(SEP)
}

pub open spec fn take_number(x: Seq<u8>) -> Option<(u64, Seq<u8>)> {
    if x.len() > WIDTH && (forall|i: int| 0 <= i < WIDTH ==> is_digit(#[trigger] x[i])) && x[WIDTH
        as int] == SEP && digits_value(x.subrange(0, WIDTH as int)) <= u64::MAX {
        Some(
            (
                digits_value(x.subrange(0, WIDTH as int)) as u64,
                x.subrange(WIDTH + 1, x.len() as int),
            ),
        )
    } else {
        None
    }
}

pub open spec fn stamp_fields(t: Timestamp) -> Seq<u8> {
    number_field(t.secs) + number_field(t.nanos as u64)
}

pub open spec fn take_stamp(x: Seq<u8>) -> Option<(Timestamp, Seq<u8>)> {
    match take_number(x) {
        Some((secs, r1)) => match take_number(r1) {
            Some((nanos, r2)) => if nanos <= u32::MAX {
                Some((Timestamp { secs, nanos: nanos as u32 }, r2))
            } else {
                None
            },
            None => None,
        },
        None => None,
    }
}

// ---------------------------------------------------------------- whole lines

/// The line that encodes `m`.
pub open spec fn line_of(m: MessageView) -> Seq<u8> {
    match m {
        MessageView::Text { username, content, timestamp } => seq![TAG_TEXT, SEP] + (
        string_field(username) + (string_field(content) + stamp_fields(timestamp))),
        MessageView::File { username, filename, data, timestamp, .. } => seq![TAG_FILE, SEP] + (
        string_field(username) + (string_field(filename) + (payload_field(data) + stamp_fields(
            timestamp,
        )))),
        MessageView::UserJoined { username, timestamp } => seq![TAG_JOINED, SEP] + (string_field(
            username,
        ) + stamp_fields(timestamp)),
        MessageView::UserLeft { username, timestamp } => seq![TAG_LEFT, SEP] + (string_field(
            username,
        ) + stamp_fields(timestamp)),
        MessageView::System { content, timestamp } => seq![TAG_SYSTEM, SEP] + (string_field(
            content,
        ) + stamp_fields(timestamp)),
    }
}

/// Reads the timestamp that closes a line; nothing may follow it.
pub open spec fn finish(x: Seq<u8>) -> Option<Timestamp> {
    match take_stamp(x) {
        Some((t, rest)) => if rest.len() == 0 {
            Some(t)
        } else {
            None
        },
        None => None,
    }
}

/// The envelope that a line holds, if it holds one.
pub open spec fn parse_line(x: Seq<u8>) -> Option<MessageView> {
    if x.len() < 2 || x[1] != SEP {
        None
    } else {
        let body = x.subrange(2, x.len() as int);
        let tag = x[0];
        if tag == TAG_TEXT {
            match take_string(body) {
                Some((username, r1)) => match take_string(r1) {
                    Some((content, r2)) => match finish(r2) {
                        Some(timestamp) => Some(MessageView::Text { username, content, timestamp }),
                        None => None,
                    },
                    None => None,
                },
                None => None,
            }
        } else if tag == TAG_FILE {
            match take_string(body) {
                Some((username, r1)) => match take_string(r1) {
                    Some((filename, r2)) => match take_hex(r2, seq![]) {
                        Some((data, r3)) => match finish(r3) {
                            Some(timestamp) => if data.len() > u64::MAX {
                                None
                            } else {
                                Some(
                                MessageView::File {
                                    username,
                                    filename,
                                    size: data.len() as u64,
                                    data,
                                    timestamp,
                                },
                            )
                            },
                            None => None,
                        },
                        None => None,
                    },
                    None => None,
                },
                None => None,
            }
        } else if tag == TAG_JOINED || tag == TAG_LEFT || tag == TAG_SYSTEM {
            match take_string(body) {
                Some((s, r1)) => match finish(r1) {
                    Some(timestamp) => if tag == TAG_JOINED {
                        Some(MessageView::UserJoined { username: s, timestamp })
                    } else if tag == TAG_LEFT {
                        Some(MessageView::UserLeft { username: s, timestamp })
                    } else {
                        Some(MessageView::System { content: s, timestamp })
                    },
                    None => None,
                },
                None => None,
            }
        } else {
            None
        }
    }
}


// ---------------------------------------------------------------- lemmas

proof fn lemma_escape_snoc(s: Seq<u8>, c: u8)
    ensures
        escape(s.push(c)) == escape(s) + escape_byte(c),
    decreases s.len(),
{
    if s.len() == 0 {
        assert(s.push(c).drop_first() =~= s);
        assert(escape(s.push(c)) =~= escape(s) + escape_byte(c));
    } else {
        lemma_escape_snoc(s.drop_first(), c);
        assert(s.push(c).drop_first() =~= s.drop_first().push(c));
        assert(escape(s.push(c)) =~= escape(s) + escape_byte(c));
    }
}

proof fn lemma_hex_snoc(s: Seq<u8>, c: u8)
    ensures
        hex(s.push(c)) == hex(s) + seq![hex_digit(c as int / 16), hex_digit(c as int % 16)],
    decreases s.len(),
{
    if s.len() == 0 {
        assert(s.push(c).drop_first() =~= s);
        assert(hex(s.push(c)) =~= hex(s) + seq![hex_digit(c as int / 16), hex_digit(c as int % 16)]);
    } else {
        lemma_hex_snoc(s.drop_first(), c);
        assert(s.push(c).drop_first() =~= s.drop_first().push(c));
        assert(hex(s.push(c)) =~= hex(s) + seq![hex_digit(c as int / 16), hex_digit(c as int % 16)]);
    }
}

proof fn lemma_take_escaped(v: Seq<u8>, rest: Seq<u8>, acc: Seq<u8>)
    ensures
        take_escaped(escape(v).push(SEP) + rest, acc) == Some((acc + v, rest)),
    decreases v.len(),
{
    let x = escape(v).push(SEP) + rest;
    if v.len() == 0 {
        assert(x.drop_first() =~= rest);
        assert(acc + v =~= acc);
    } else {
        let b = v[0];
        let tail = v.drop_first();
        let x2 = escape(tail).push(SEP) + rest;
        lemma_take_escaped(tail, rest, acc.push(b));
        assert(acc.push(b) + tail =~= acc + v);
        assert(x =~= escape_byte(b) + x2);
        if b == ESC || b == SEP || b == LF || b == CR {
            assert(x.subrange(2, x.len() as int) =~= x2);
        } else {
            assert(x.drop_first() =~= x2);
        }
    }
}

proof fn lemma_hex_digit(n: int)
    requires
        0 <= n < 16,
    ensures
        hex_value(hex_digit(n)) == Some(n),
        hex_digit(n) != SEP,
{
}

proof fn lemma_take_hex(v: Seq<u8>, rest: Seq<u8>, acc: Seq<u8>)
    ensures
        take_hex(hex(v).push(SEP) + rest, acc) == Some((acc + v, rest)),
    decreases v.len(),
{
    let x = hex(v).push(SEP) + rest;
    if v.len() == 0 {
        assert(x.drop_first() =~= rest);
        assert(acc + v =~= acc);
    } else {
        let b = v[0];
        let tail = v.drop_first();
        let x2 = hex(tail).push(SEP) + rest;
        lemma_take_hex(tail, rest, acc.push(b));
        lemma_hex_digit(b as int / 16);
        lemma_hex_digit(b as int % 16);
        assert(acc.push(b) + tail =~= acc + v);
        assert(x =~= seq![hex_digit(b as int / 16), hex_digit(b as int % 16)] + x2);
        assert(x.subrange(2, x.len() as int) =~= x2);
        assert((b as int / 16) * 16 + b as int % 16 == b);
    }
}

proof fn lemma_pow10_le(a: nat, b: nat)
    requires
        a <= b,
    ensures
        1 <= pow10(a) <= pow10(b),
    decreases b,
{
    if a < b {
        lemma_pow10_le(a, (b - 1) as nat);
    } else if a > 0 {
        lemma_pow10_le((a - 1) as nat, (a - 1) as nat);
    }
}

proof fn lemma_pow10_width()
    ensures
        pow10(WIDTH as nat) == 100_000_000_000_000_000_000nat,
        u64::MAX < pow10(WIDTH as nat),
{
    reveal_with_fuel(pow10, 21);
}

proof fn lemma_digits(n: nat, w: nat)
    requires
        n < pow10(w),
    ensures
        digits(n, w).len() == w,
        forall|i: int| 0 <= i < w ==> is_digit(#[trigger] digits(n, w)[i]),
        digits_value(digits(n, w)) == n,
    decreases w,
{
    if w > 0 {
        let p = pow10((w - 1) as nat);
        assert(n / 10 < p) by (nonlinear_arith)
            requires
                n < 10 * p,
        ;
        lemma_digits(n / 10, (w - 1) as nat);
        let d = digits(n, w);
        assert(d.drop_last() =~= digits(n / 10, (w - 1) as nat));
    }
}

proof fn lemma_take_number(n: u64, rest: Seq<u8>)
    ensures
        take_number(number_field(n) + rest) == Some((n, rest)),
{
    lemma_pow10_width();
    lemma_digits(n as nat, WIDTH as nat);
    let d = digits(n as nat, WIDTH as nat);
    let x = number_field(n) + rest;
    assert(x.subrange(0, WIDTH as int) =~= d);
    assert(x.subrange(WIDTH + 1, x.len() as int) =~= rest);
    assert forall|i: int| 0 <= i < WIDTH implies is_digit(#[trigger] x[i]) by {
        assert(x[i] == d[i]);
    }
}

proof fn lemma_take_string(s: Seq<char>, rest: Seq<u8>)
    ensures
        take_string(string_field(s) + rest) == Some((s, rest)),
{
    lemma_take_escaped(encode_utf8(s), rest, seq![]);
    assert(seq![] + encode_utf8(s) =~= encode_utf8(s));
}

proof fn lemma_take_stamp(t: Timestamp, rest: Seq<u8>)
    ensures
        take_stamp(stamp_fields(t) + rest) == Some((t, rest)),
{
    let r1 = number_field(t.nanos as u64) + rest;
    assert(stamp_fields(t) + rest =~= number_field(t.secs) + r1);
    lemma_take_number(t.secs, r1);
    lemma_take_number(t.nanos as u64, rest);
}

proof fn lemma_finish(t: Timestamp)
    ensures
        finish(stamp_fields(t)) == Some(t),
{
    lemma_take_stamp(t, seq![]);
    assert(stamp_fields(t) + seq![] =~= stamp_fields(t));
}

/// Decoding the encoding of a well-formed envelope gives back the same
/// envelope, field for field and byte for byte.
pub proof fn lemma_round_trip(m: MessageView)
    requires
        m.wf(),
    ensures
        parse_line(line_of(m)) == Some(m),
{
    let x = line_of(m);
    let body = x.subrange(2, x.len() as int);
    match m {
        MessageView::Text { username, content, timestamp } => {
            let r2 = stamp_fields(timestamp);
            let r1 = string_field(content) + r2;
            assert(body =~= string_field(username) + r1);
            lemma_take_string(username, r1);
            lemma_take_string(content, r2);
            lemma_finish(timestamp);
        },
        MessageView::File { username, filename, size, data, timestamp } => {
            let r3 = stamp_fields(timestamp);
            let r2 = payload_field(data) + r3;
            let r1 = string_field(filename) + r2;
            assert(body =~= string_field(username) + r1);
            lemma_take_string(username, r1);
            lemma_take_string(filename, r2);
            lemma_take_hex(data, r3, seq![]);
            assert(seq![] + data =~= data);
            lemma_finish(timestamp);
        },
        MessageView::UserJoined { username, timestamp } => {
            let r1 = stamp_fields(timestamp);
            assert(body =~= string_field(username) + r1);
            lemma_take_string(username, r1);
            lemma_finish(timestamp);
        },
        MessageView::UserLeft { username, timestamp } => {
            let r1 = stamp_fields(timestamp);
            assert(body =~= string_field(username) + r1);
            lemma_take_string(username, r1);
            lemma_finish(timestamp);
        },
        MessageView::System { content, timestamp } => {
            let r1 = stamp_fields(timestamp);
            assert(body =~= string_field(content) + r1);
            lemma_take_string(content, r1);
            lemma_finish(timestamp);
        },
    }
}

proof fn lemma_take_escaped_sound(x: Seq<u8>, acc: Seq<u8>)
    requires
        take_escaped(x, acc) is Some,
    ensures
        ({
            let w = (take_escaped(x, acc)->0).0;
            let rest = (take_escaped(x, acc)->0).1;
            &&& acc.len() <= w.len()
            &&& w.subrange(0, acc.len() as int) == acc
            &&& x == escape(w.subrange(acc.len() as int, w.len() as int)).push(SEP) + rest
        }),
    decreases x.len(),
{
    let w = (take_escaped(x, acc)->0).0;
    let rest = (take_escaped(x, acc)->0).1;
    let v = w.subrange(acc.len() as int, w.len() as int);
    if x[0] == SEP {
        assert(v =~= Seq::<u8>::empty());
        assert(x =~= escape(v).push(SEP) + rest);
    } else if x[0] == ESC {
        let b = unescape_code(x[1])->0;
        let x2 = x.subrange(2, x.len() as int);
        lemma_take_escaped_sound(x2, acc.push(b));
        let v2 = w.subrange(acc.len() as int + 1, w.len() as int);
        assert(w.subrange(0, acc.len() as int + 1) == acc.push(b));
        assert(w.subrange(0, acc.len() as int + 1)[acc.len() as int] == w[acc.len() as int]);
        assert(w.subrange(0, acc.len() as int) =~= w.subrange(0, acc.len() as int + 1).subrange(
            0,
            acc.len() as int,
        ));
        assert(v.drop_first() =~= v2);
        assert(v[0] == b);
        assert(escape_byte(b) =~= seq![x[0], x[1]]);
        assert(escape(v) == escape_byte(v[0]) + escape(v2));
        assert(x =~= seq![x[0], x[1]] + x2);
        assert(x =~= escape(v).push(SEP) + rest);
    } else {
        let x2 = x.drop_first();
        lemma_take_escaped_sound(x2, acc.push(x[0]));
        let v2 = w.subrange(acc.len() as int + 1, w.len() as int);
        assert(w.subrange(0, acc.len() as int + 1) == acc.push(x[0]));
        assert(w.subrange(0, acc.len() as int + 1)[acc.len() as int] == w[acc.len() as int]);
        assert(w.subrange(0, acc.len() as int) =~= w.subrange(0, acc.len() as int + 1).subrange(
            0,
            acc.len() as int,
        ));
        assert(v.drop_first() =~= v2);
        assert(v[0] == x[0]);
        assert(escape_byte(x[0]) =~= seq![x[0]]);
        assert(escape(v) == escape_byte(v[0]) + escape(v2));
        assert(x =~= seq![x[0]] + x2);
        assert(x =~= escape(v).push(SEP) + rest);
    }
}

proof fn lemma_hex_value(c: u8)
    requires
        hex_value(c) is Some,
    ensures
        0 <= hex_value(c)->0 < 16,
        hex_digit(hex_value(c)->0) == c,
{
}

proof fn lemma_take_hex_sound(x: Seq<u8>, acc: Seq<u8>)
    requires
        take_hex(x, acc) is Some,
    ensures
        ({
            let w = (take_hex(x, acc)->0).0;
            let rest = (take_hex(x, acc)->0).1;
            &&& acc.len() <= w.len()
            &&& w.subrange(0, acc.len() as int) == acc
            &&& x == hex(w.subrange(acc.len() as int, w.len() as int)).push(SEP) + rest
        }),
    decreases x.len(),
{
    let w = (take_hex(x, acc)->0).0;
    let rest = (take_hex(x, acc)->0).1;
    let v = w.subrange(acc.len() as int, w.len() as int);
    if x[0] == SEP {
        assert(v =~= Seq::<u8>::empty());
        assert(x =~= hex(v).push(SEP) + rest);
    } else {
        let h = hex_value(x[0])->0;
        let l = hex_value(x[1])->0;
        lemma_hex_value(x[0]);
        lemma_hex_value(x[1]);
        let b = (h * 16 + l) as u8;
        assert(b as int / 16 == h && b as int % 16 == l) by (nonlinear_arith)
            requires
                0 <= h < 16,
                0 <= l < 16,
                b == h * 16 + l,
        ;
        let x2 = x.subrange(2, x.len() as int);
        lemma_take_hex_sound(x2, acc.push(b));
        let v2 = w.subrange(acc.len() as int + 1, w.len() as int);
        assert(w.subrange(0, acc.len() as int + 1) == acc.push(b));
        assert(w.subrange(0, acc.len() as int + 1)[acc.len() as int] == w[acc.len() as int]);
        assert(w.subrange(0, acc.len() as int) =~= w.subrange(0, acc.len() as int + 1).subrange(
            0,
            acc.len() as int,
        ));
        assert(v.drop_first() =~= v2);
        assert(v[0] == b);
        assert(hex(v) == seq![hex_digit(b as int / 16), hex_digit(b as int % 16)] + hex(v2));
        assert(x =~= seq![x[0], x[1]] + x2);
        assert(x =~= hex(v).push(SEP) + rest);
    }
}

proof fn lemma_digits_sound(s: Seq<u8>, w: nat)
    requires
        s.len() == w,
        forall|i: int| 0 <= i < w ==> is_digit(#[trigger] s[i]),
    ensures
        digits(digits_value(s), w) == s,
    decreases w,
{
    if w > 0 {
        let t = s.drop_last();
        assert forall|i: int| 0 <= i < w - 1 implies is_digit(#[trigger] t[i]) by {
            assert(t[i] == s[i]);
        }
        lemma_digits_sound(t, (w - 1) as nat);
        let v = digits_value(t);
        let d = (s.last() - 0x30) as nat;
        assert(is_digit(s[w - 1]));
        assert((v * 10 + d) / 10 == v && (v * 10 + d) % 10 == d) by (nonlinear_arith)
            requires
                d < 10,
        ;
        assert(digits(digits_value(s), w) =~= s);
    }
}

proof fn lemma_take_number_sound(x: Seq<u8>)
    requires
        take_number(x) is Some,
    ensures
        x == number_field((take_number(x)->0).0) + (take_number(x)->0).1,
{
    let s = x.subrange(0, WIDTH as int);
    assert forall|i: int| 0 <= i < WIDTH implies is_digit(#[trigger] s[i]) by {
        assert(s[i] == x[i]);
    }
    lemma_digits_sound(s, WIDTH as nat);
    assert(x =~= number_field((take_number(x)->0).0) + (take_number(x)->0).1);
}

proof fn lemma_take_string_sound(x: Seq<u8>)
    requires
        take_string(x) is Some,
    ensures
        x == string_field((take_string(x)->0).0) + (take_string(x)->0).1,
{
    lemma_take_escaped_sound(x, seq![]);
    let w = (take_escaped(x, seq![])->0).0;
    assert(w.subrange(0, w.len() as int) =~= w);
    decode_utf8_encode_utf8(w);
}

proof fn lemma_take_stamp_sound(x: Seq<u8>)
    requires
        take_stamp(x) is Some,
    ensures
        x == stamp_fields((take_stamp(x)->0).0) + (take_stamp(x)->0).1,
{
    lemma_take_number_sound(x);
    let r1 = (take_number(x)->0).1;
    lemma_take_number_sound(r1);
    let t = (take_stamp(x)->0).0;
    assert(x =~= stamp_fields(t) + (take_stamp(x)->0).1);
}

proof fn lemma_finish_sound(x: Seq<u8>)
    requires
        finish(x) is Some,
    ensures
        x == stamp_fields(finish(x)->0),
{
    lemma_take_stamp_sound(x);
    assert(x =~= stamp_fields(finish(x)->0));
}

/// Only the encodings of well-formed envelopes parse, each to the envelope
/// it encodes.
proof fn lemma_parse_sound(x: Seq<u8>)
    requires
        parse_line(x) is Some,
    ensures
        line_of(parse_line(x)->0) == x,
        parse_line(x)->0.wf(),
{
    let body = x.subrange(2, x.len() as int);
    let tag = x[0];
    assert(x =~= seq![tag, SEP] + body);
    lemma_take_string_sound(body);
    let r1 = (take_string(body)->0).1;
    if tag == TAG_TEXT || tag == TAG_FILE {
        lemma_take_string_sound(r1);
        let r2 = (take_string(r1)->0).1;
        if tag == TAG_TEXT {
            lemma_finish_sound(r2);
        } else {
            lemma_take_hex_sound(r2, seq![]);
            let w = (take_hex(r2, seq![])->0).0;
            assert(w.subrange(0, w.len() as int) =~= w);
            lemma_finish_sound((take_hex(r2, seq![])->0).1);
        }
    } else {
        lemma_finish_sound(r1);
    }
    assert(line_of(parse_line(x)->0) =~= x);
}

// ---------------------------------------------------------------- encoding

pub(crate) fn utf8_bytes(s: &String) -> (r: &[u8])
    ensures
        r@ == encode_utf8(s@),
{
    s.as_str().as_bytes()
}

fn push_escaped(out: &mut Vec<u8>, b: &[u8])
    ensures
        final(out)@ == old(out)@ + escape(b@).push(SEP),
{
    let ghost start = out@;
    let mut i: usize = 0;
    while i < b.len()
        invariant
            i <= b@.len(),
            out@ == start + escape(b@.subrange(0, i as int)),
        decreases b@.len() - i,
    {
        let c = b[i];
        if c == ESC {
            out.push(ESC);
            out.push(ESC);
        } else if c == SEP {
            out.push(ESC);
            out.push(0x73);
        } else if c == LF {
            out.push(ESC);
            out.push(0x6e);
        } else if c == CR {
            out.push(ESC);
            out.push(0x72);
        } else {
            out.push(c);
        }
        proof {
            lemma_escape_snoc(b@.subrange(0, i as int), c);
            assert(b@.subrange(0, i + 1) =~= b@.subrange(0, i as int).push(c));
        }
        i += 1;
        assert(out@ =~= start + escape(b@.subrange(0, i as int)));
    }
    assert(b@.subrange(0, i as int) =~= b@);
    out.push(SEP);
    assert(out@ =~= start + escape(b@).push(SEP));
}

fn hex_digit_of(n: u8) -> (r: u8)
    requires
        n < 16,
    ensures
        r == hex_digit(n as int),
{
    if n < 10 {
        0x30 + n
    } else {
        0x61 + n - 10
    }
}

fn push_hex(out: &mut Vec<u8>, b: &[u8])
    ensures
        final(out)@ == old(out)@ + hex(b@).push(SEP),
{
    let ghost start = out@;
    let mut i: usize = 0;
    while i < b.len()
        invariant
            i <= b@.len(),
            out@ == start + hex(b@.subrange(0, i as int)),
        decreases b@.len() - i,
    {
        let c = b[i];
        out.push(hex_digit_of(c / 16));
        out.push(hex_digit_of(c % 16));
        proof {
            lemma_hex_snoc(b@.subrange(0, i as int), c);
            assert(b@.subrange(0, i + 1) =~= b@.subrange(0, i as int).push(c));
        }
        i += 1;
        assert(out@ =~= start + hex(b@.subrange(0, i as int)));
    }
    assert(b@.subrange(0, i as int) =~= b@);
    out.push(SEP);
    assert(out@ =~= start + hex(b@).push(SEP));
}

fn push_digits(out: &mut Vec<u8>, n: u64, w: usize)
    ensures
        final(out)@ == old(out)@ + digits(n as nat, w as nat),
    decreases w,
{
    if w > 0 {
        push_digits(out, n / 10, w - 1);
        out.push(0x30 + (n % 10) as u8);
        assert(out@ =~= old(out)@ + digits(n as nat, w as nat));
    }
}

fn push_number(out: &mut Vec<u8>, n: u64)
    ensures
        final(out)@ == old(out)@ + number_field(n),
{
    push_digits(out, n, WIDTH);
    out.push(SEP);
    assert(out@ =~= old(out)@ + number_field(n));
}

fn push_string(out: &mut Vec<u8>, s: &String)
    ensures
        final(out)@ == old(out)@ + string_field(s@),
{
    push_escaped(out, utf8_bytes(s));
}

fn push_stamp(out: &mut Vec<u8>, t: Timestamp)
    ensures
        final(out)@ == old(out)@ + stamp_fields(t),
{
    push_number(out, t.secs);
    push_number(out, t.nanos as u64);
    assert(out@ =~= old(out)@ + stamp_fields(t));
}

// ---------------------------------------------------------------- decoding

/// Relies on String::from_utf8: it succeeds exactly on valid UTF-8 and then
/// holds the characters those bytes encode.
#[verifier::external_body]
pub(crate) fn utf8_string(b: Vec<u8>) -> (r: Option<String>)
    ensures
        r is Some <==> valid_utf8(b@),
        r matches Some(s) ==> s@ == decode_utf8(b@),
{
    String::from_utf8(b).ok()
}

fn unescape_code_of(c: u8) -> (r: Option<u8>)
    ensures
        r == unescape_code(c),
{
    if c == ESC {
        Some(ESC)
    } else if c == 0x73 {
        Some(SEP)
    } else if c == 0x6e {
        Some(LF)
    } else if c == 0x72 {
        Some(CR)
    } else {
        None
    }
}

fn hex_value_of(c: u8) -> (r: Option<u8>)
    ensures
        r matches Some(v) ==> v < 16 && hex_value(c) == Some(v as int),
        r is None <==> hex_value(c) is None,
{
    if 0x30 <= c && c <= 0x39 {
        Some(c - 0x30)
    } else if 0x61 <= c && c <= 0x66 {
        Some(c - 0x61 + 10)
    } else {
        None
    }
}

pub open spec fn rest_of(line: Seq<u8>, pos: int) -> Seq<u8> {
    line.subrange(pos, line.len() as int)
}

fn read_escaped(line: &[u8], start: usize) -> (r: Option<(Vec<u8>, usize)>)
    requires
        start <= line@.len(),
    ensures
        match take_escaped(rest_of(line@, start as int), seq![]) {
            Some((v, rest)) => r matches Some((w, p)) && w@ == v && p <= line@.len() && rest
                == rest_of(line@, p as int),
            None => r is None,
        },
{
    let mut acc: Vec<u8> = Vec::new();
    let mut pos: usize = start;
    loop
        invariant
            start <= pos <= line@.len(),
            take_escaped(rest_of(line@, start as int), seq![]) == take_escaped(
                rest_of(line@, pos as int),
                acc@,
            ),
        decreases line@.len() - pos,
    {
        let ghost x = rest_of(line@, pos as int);
        if pos >= line.len() {
            return None;
        }
        let c = line[pos];
        assert(x[0] == c);
        if c == SEP {
            assert(x.drop_first() =~= rest_of(line@, pos + 1));
            return Some((acc, pos + 1));
        } else if c == LF || c == CR {
            return None;
        } else if c == ESC {
            if pos + 1 >= line.len() {
                return None;
            }
            let d = line[pos + 1];
            assert(x[1] == d);
            match unescape_code_of(d) {
                Some(b) => {
                    assert(x.subrange(2, x.len() as int) =~= rest_of(line@, pos + 2));
                    acc.push(b);
                    pos += 2;
                },
                None => {
                    return None;
                },
            }
        } else {
            assert(x.drop_first() =~= rest_of(line@, pos + 1));
            acc.push(c);
            pos += 1;
        }
    }
}

fn read_hex(line: &[u8], start: usize) -> (r: Option<(Vec<u8>, usize)>)
    requires
        start <= line@.len(),
    ensures
        match take_hex(rest_of(line@, start as int), seq![]) {
            Some((v, rest)) => r matches Some((w, p)) && w@ == v && p <= line@.len() && rest
                == rest_of(line@, p as int),
            None => r is None,
        },
{
    let mut acc: Vec<u8> = Vec::new();
    let mut pos: usize = start;
    loop
        invariant
            start <= pos <= line@.len(),
            take_hex(rest_of(line@, start as int), seq![]) == take_hex(
                rest_of(line@, pos as int),
                acc@,
            ),
        decreases line@.len() - pos,
    {
        let ghost x = rest_of(line@, pos as int);
        if pos >= line.len() {
            return None;
        }
        let c = line[pos];
        assert(x[0] == c);
        if c == SEP {
            assert(x.drop_first() =~= rest_of(line@, pos + 1));
            return Some((acc, pos + 1));
        }
        if pos + 1 >= line.len() {
            return None;
        }
        let d = line[pos + 1];
        assert(x[1] == d);
        match (hex_value_of(c), hex_value_of(d)) {
            (Some(h), Some(l)) => {
                assert(x.subrange(2, x.len() as int) =~= rest_of(line@, pos + 2));
                acc.push(h * 16 + l);
                pos += 2;
            },
            _ => {
                return None;
            },
        }
    }
}

fn read_number(line: &[u8], start: usize) -> (r: Option<(u64, usize)>)
    requires
        start <= line@.len(),
    ensures
        match take_number(rest_of(line@, start as int)) {
            Some((v, rest)) => r matches Some((w, p)) && w == v && p <= line@.len() && rest
                == rest_of(line@, p as int),
            None => r is None,
        },
{
    let ghost x = rest_of(line@, start as int);
    let n = line.len();
    if n - start <= WIDTH {
        return None;
    }
    proof {
        lemma_pow10_width();
    }
    let mut v: u128 = 0;
    let mut k: usize = 0;
    while k < WIDTH
        invariant
            k <= WIDTH,
            start + WIDTH < line@.len(),
            n == line@.len(),
            x == rest_of(line@, start as int),
            forall|i: int| 0 <= i < k ==> is_digit(#[trigger] x[i]),
            v == digits_value(x.subrange(0, k as int)),
            v < pow10(k as nat),
            pow10(WIDTH as nat) == 100_000_000_000_000_000_000nat,
        decreases WIDTH - k,
    {
        let c = line[start + k];
        assert(x[k as int] == c);
        if c < 0x30 || c > 0x39 {
            assert(!is_digit(x[k as int]));
            return None;
        }
        proof {
            assert(x.subrange(0, k + 1).drop_last() =~= x.subrange(0, k as int));
            lemma_pow10_le((k + 1) as nat, WIDTH as nat);
            let p = pow10(k as nat);
            let dv = (c - 0x30) as nat;
            assert(v * 10 + dv < 10 * p) by (nonlinear_arith)
                requires
                    v < p,
                    dv < 10,
            ;
        }
        v = v * 10 + (c - 0x30) as u128;
        k += 1;
    }
    if line[start + WIDTH] != SEP {
        return None;
    }
    if v > u64::MAX as u128 {
        return None;
    }
    assert(x.subrange(WIDTH + 1, x.len() as int) =~= rest_of(line@, start + WIDTH + 1));
    Some((v as u64, start + WIDTH + 1))
}

fn read_string(line: &[u8], start: usize) -> (r: Option<(String, usize)>)
    requires
        start <= line@.len(),
    ensures
        match take_string(rest_of(line@, start as int)) {
            Some((v, rest)) => r matches Some((w, p)) && w@ == v && p <= line@.len() && rest
                == rest_of(line@, p as int),
            None => r is None,
        },
{
    match read_escaped(line, start) {
        Some((b, p)) => match utf8_string(b) {
            Some(s) => Some((s, p)),
            None => None,
        },
        None => None,
    }
}

fn read_stamp(line: &[u8], start: usize) -> (r: Option<(Timestamp, usize)>)
    requires
        start <= line@.len(),
    ensures
        match take_stamp(rest_of(line@, start as int)) {
            Some((v, rest)) => r matches Some((w, p)) && w == v && p <= line@.len() && rest
                == rest_of(line@, p as int),
            None => r is None,
        },
{
    match read_number(line, start) {
        Some((secs, pos_a)) => match read_number(line, pos_a) {
            Some((nanos, pos_b)) => if nanos <= u32::MAX as u64 {
                Some((Timestamp { secs, nanos: nanos as u32 }, pos_b))
            } else {
                None
            },
            None => None,
        },
        None => None,
    }
}

fn read_finish(line: &[u8], start: usize) -> (r: Option<Timestamp>)
    requires
        start <= line@.len(),
    ensures
        r == finish(rest_of(line@, start as int)),
{
    match read_stamp(line, start) {
        Some((t, p)) => if p == line.len() {
            Some(t)
        } else {
            None
        },
        None => None,
    }
}

impl Message {
    /// The line form of this envelope, without the line terminator.
    pub fn encode(&self) -> (r: Vec<u8>)
        ensures
            r@ == line_of(self@),
    {
        let mut out: Vec<u8> = Vec::new();
        match self {
            Message::Text { username, content, timestamp } => {
                out.push(TAG_TEXT);
                out.push(SEP);
                push_string(&mut out, username);
                push_string(&mut out, content);
                push_stamp(&mut out, *timestamp);
            },
            Message::File { username, filename, data, timestamp, .. } => {
                out.push(TAG_FILE);
                out.push(SEP);
                push_string(&mut out, username);
                push_string(&mut out, filename);
                push_hex(&mut out, data.as_slice());
                push_stamp(&mut out, *timestamp);
            },
            Message::UserJoined { username, timestamp } => {
                out.push(TAG_JOINED);
                out.push(SEP);
                push_string(&mut out, username);
                push_stamp(&mut out, *timestamp);
            },
            Message::UserLeft { username, timestamp } => {
                out.push(TAG_LEFT);
                out.push(SEP);
                push_string(&mut out, username);
                push_stamp(&mut out, *timestamp);
            },
            Message::System { content, timestamp } => {
                out.push(TAG_SYSTEM);
                out.push(SEP);
                push_string(&mut out, content);
                push_stamp(&mut out, *timestamp);
            },
        }
        assert(out@ =~= line_of(self@));
        out
    }

    /// Reads one line (without its terminator) as an envelope. It succeeds
    /// exactly on the lines that encode a well-formed envelope, and returns
    /// that envelope.
    pub fn decode(line: &[u8]) -> (r: Result<Message, MalformedEnvelope>)
        ensures
            r is Ok <==> exists|m: MessageView| m.wf() && #[trigger] line_of(m) == line@,
            r matches Ok(e) ==> e@.wf() && line_of(e@) == line@,
    {
        let r = Message::parse(line);
        proof {
            match parse_line(line@) {
                Some(m) => {
                    lemma_parse_sound(line@);
                },
                None => {
                    assert forall|m: MessageView| m.wf() implies #[trigger] line_of(m) != line@ by {
                        lemma_round_trip(m);
                    }
                },
            }
        }
        r
    }

    pub(crate) fn parse(line: &[u8]) -> (r: Result<Message, MalformedEnvelope>)
        ensures
            match parse_line(line@) {
                Some(m) => r matches Ok(e) && e@ == m,
                None => r is Err,
            },
    {
        if line.len() < 2 || line[1] != SEP {
            return Err(MalformedEnvelope);
        }
        let tag = line[0];
        if tag == TAG_TEXT {
            let (username, pos_a) = match read_string(line, 2) {
                Some(f) => f,
                None => return Err(MalformedEnvelope),
            };
            let (content, pos_b) = match read_string(line, pos_a) {
                Some(f) => f,
                None => return Err(MalformedEnvelope),
            };
            match read_finish(line, pos_b) {
                Some(timestamp) => Ok(Message::Text { username, content, timestamp }),
                None => Err(MalformedEnvelope),
            }
        } else if tag == TAG_FILE {
            let (username, pos_a) = match read_string(line, 2) {
                Some(f) => f,
                None => return Err(MalformedEnvelope),
            };
            let (filename, pos_b) = match read_string(line, pos_a) {
                Some(f) => f,
                None => return Err(MalformedEnvelope),
            };
            let (data, pos_c) = match read_hex(line, pos_b) {
                Some(f) => f,
                None => return Err(MalformedEnvelope),
            };
            match read_finish(line, pos_c) {
                Some(timestamp) => {
                    let size = data.len() as u64;
                    Ok(Message::File { username, filename, size, data, timestamp })
                },
                None => Err(MalformedEnvelope),
            }
        } else if tag == TAG_JOINED || tag == TAG_LEFT || tag == TAG_SYSTEM {
            let (s, pos_a) = match read_string(line, 2) {
                Some(f) => f,
                None => return Err(MalformedEnvelope),
            };
            match read_finish(line, pos_a) {
                Some(timestamp) => if tag == TAG_JOINED {
                    Ok(Message::UserJoined { username: s, timestamp })
                } else if tag == TAG_LEFT {
                    Ok(Message::UserLeft { username: s, timestamp })
                } else {
                    Ok(Message::System { content: s, timestamp })
                },
                None => Err(MalformedEnvelope),
            }
        } else {
            Err(MalformedEnvelope)
        }
    }
}

} // verus!
