//! Mathematical definition of the wire format.
//!
//! Every framed message is one ASCII JSON document. This module defines, at
//! the specification level, the exact byte sequence that encodes a message or
//! a state payload, and a parser for those byte sequences. The executable
//! codec in `codec` is proved to match these definitions, and `roundtrip`
//! proves that parsing an encoding yields the original value.

use vstd::prelude::*;
use crate::structs::{MessageKind, MessageModel, StateModel};

verus! {

// ---------------------------------------------------------------------------
// Decimal numbers
// ---------------------------------------------------------------------------

pub open spec fn is_digit(b: u8) -> bool {
    0x30 <= b && b <= 0x39
}

/// The decimal digits of `n`, most significant first, no leading zeros.
pub open spec fn dec_digits(n: nat) -> Seq<u8>
    decreases n,
{
    if n < 10 {
        seq![(0x30 + n) as u8]
    } else {
        dec_digits(n / 10).push((0x30 + n % 10) as u8)
    }
}

/// The numeric value of a digit byte; zero on non-digits.
pub open spec fn digit_of(b: u8) -> nat {
    if is_digit(b) {
        (b - 0x30) as nat
    } else {
        0
    }
}

/// The value of a run of digit bytes, most significant first.
pub open spec fn digits_val(s: Seq<u8>) -> nat
    decreases s.len(),
{
    if s.len() == 0 {
        0
    } else {
        digits_val(s.drop_last()) * 10 + digit_of(s.last())
    }
}

/// The index just past the run of digit bytes that starts at `i`.
pub open spec fn digit_run_end(s: Seq<u8>, i: int) -> int
    decreases s.len() - i when 0 <= i <= s.len()
{
    if i < s.len() && is_digit(s[i]) {
        digit_run_end(s, i + 1)
    } else {
        i
    }
}

/// The digit run starting at `i` ends inside the sequence, covers only
/// digits, and stops at the first non-digit.
pub proof fn lemma_digit_run_props(s: Seq<u8>, i: int)
    requires
        0 <= i <= s.len(),
    ensures
        i <= digit_run_end(s, i) <= s.len(),
        forall|k: int| i <= k < digit_run_end(s, i) ==> is_digit(s[k]),
        digit_run_end(s, i) == s.len() || !is_digit(s[digit_run_end(s, i)]),
    decreases s.len() - i,
{
    if i < s.len() && is_digit(s[i]) {
        lemma_digit_run_props(s, i + 1);
    }
}

/// A stretch of digits followed by a non-digit is exactly the digit run.
pub proof fn lemma_digit_run_from(s: Seq<u8>, i: int, j: int)
    requires
        0 <= i <= j <= s.len(),
        forall|k: int| i <= k < j ==> is_digit(s[k]),
        j == s.len() || !is_digit(s[j]),
    ensures
        digit_run_end(s, i) == j,
    decreases j - i,
{
    if i < j {
        lemma_digit_run_from(s, i + 1, j);
    }
}

/// The value of a prefix of a digit run is at most the value of the run.
pub proof fn lemma_digits_val_prefix(s: Seq<u8>, k: int)
    requires
        0 <= k <= s.len(),
    ensures
        digits_val(s.take(k)) <= digits_val(s),
    decreases s.len() - k,
{
    if k < s.len() {
        assert(s.take(k + 1).drop_last() =~= s.take(k));
        assert(digits_val(s.take(k + 1)) == digits_val(s.take(k)) * 10 + digit_of(
            s.take(k + 1).last(),
        ));
        lemma_digits_val_prefix(s, k + 1);
    } else {
        assert(s.take(k) =~= s);
    }
}

/// Parses a decimal number at `i`: the value of the digit run, if the run is
/// non-empty and the value fits in a `u128`.
pub open spec fn parse_num(s: Seq<u8>, i: int) -> Option<(u128, int)> {
    if 0 <= i <= s.len() {
        let e = digit_run_end(s, i);
        if e == i {
            None
        } else {
            let v = digits_val(s.subrange(i, e));
            if v <= u128::MAX {
                Some((v as u128, e))
            } else {
                None
            }
        }
    } else {
        None
    }
}

// ---------------------------------------------------------------------------
// Hexadecimal (string escapes)
// ---------------------------------------------------------------------------

/// The lowercase hex digit byte for `d < 16`.
pub open spec fn hexd(d: nat) -> u8 {
    if d < 10 {
        (0x30 + d) as u8
    } else {
        (0x61 + (d - 10)) as u8
    }
}

/// `k` hex digit bytes of `v`, most significant first, zero padded.
pub open spec fn hex_fixed(v: nat, k: nat) -> Seq<u8>
    decreases k,
{
    if k == 0 {
        Seq::empty()
    } else {
        hex_fixed(v / 16, (k - 1) as nat).push(hexd(v % 16))
    }
}

pub open spec fn is_hexd(b: u8) -> bool {
    is_digit(b) || (0x61 <= b && b <= 0x66) || (0x41 <= b && b <= 0x46)
}

/// The numeric value of a hex digit byte; zero on others.
pub open spec fn hexv(b: u8) -> nat {
    if is_digit(b) {
        (b - 0x30) as nat
    } else if 0x61 <= b && b <= 0x66 {
        (b - 0x61 + 10) as nat
    } else if 0x41 <= b && b <= 0x46 {
        (b - 0x41 + 10) as nat
    } else {
        0
    }
}

/// Parses exactly four hex digit bytes at `i`.
pub open spec fn parse_hex4(s: Seq<u8>, i: int) -> Option<(u32, int)> {
    if 0 <= i && i + 4 <= s.len() && is_hexd(s[i]) && is_hexd(s[i + 1]) && is_hexd(s[i + 2])
        && is_hexd(s[i + 3]) {
        Some(
            (
                (hexv(s[i]) * 4096 + hexv(s[i + 1]) * 256 + hexv(s[i + 2]) * 16 + hexv(
                    s[i + 3],
                )) as u32,
                i + 4,
            ),
        )
    } else {
        None
    }
}

// ---------------------------------------------------------------------------
// Strings
// ---------------------------------------------------------------------------

/// The encoding of one character inside a JSON string. Printable ASCII other
/// than quote and backslash stands for itself; quote and backslash get a
/// backslash escape; everything else is escaped as `\uXXXX`, with a surrogate
/// pair for characters above the basic plane, so the output is pure ASCII.
pub open spec fn enc_char(c: char) -> Seq<u8> {
    let v = c as u32;
    if v == 0x22 {
        seq![0x5cu8, 0x22u8]
    } else if v == 0x5c {
        seq![0x5cu8, 0x5cu8]
    } else if 0x20 <= v && v <= 0x7e {
        seq![((c as u32) as u8)]
    } else if v <= 0xffff {
        seq![0x5cu8, 0x75u8] + hex_fixed(v as nat, 4)
    } else {
        seq![0x5cu8, 0x75u8] + hex_fixed((0xd800 + (v - 0x10000) / 0x400) as nat, 4)
            + seq![0x5cu8, 0x75u8] + hex_fixed((0xdc00 + (v - 0x10000) % 0x400) as nat, 4)
    }
}

/// The body of a JSON string: each character encoded in order.
pub open spec fn enc_str_body(t: Seq<char>) -> Seq<u8>
    decreases t.len(),
{
    if t.len() == 0 {
        Seq::empty()
    } else {
        enc_char(t[0]) + enc_str_body(t.drop_first())
    }
}

/// A JSON string: quote, body, quote.
pub open spec fn enc_string(t: Seq<char>) -> Seq<u8> {
    seq![0x22u8] + enc_str_body(t) + seq![0x22u8]
}

/// Appending one character to a string appends its encoding to the body.
pub proof fn lemma_enc_str_body_push(t: Seq<char>, c: char)
    ensures
        enc_str_body(t.push(c)) == enc_str_body(t) + enc_char(c),
    decreases t.len(),
{
    if t.len() == 0 {
        assert(t.push(c)[0] == c);
        assert(t.push(c).drop_first() =~= Seq::<char>::empty());
        assert(enc_str_body(t.push(c)) == enc_char(c) + enc_str_body(t.push(c).drop_first()));
        assert(enc_str_body(t.push(c).drop_first()) == Seq::<u8>::empty());
        assert(enc_str_body(t) == Seq::<u8>::empty());
        assert(enc_str_body(t.push(c)) =~= enc_str_body(t) + enc_char(c));
    } else {
        assert(t.push(c)[0] == t[0]);
        assert(t.push(c).drop_first() =~= t.drop_first().push(c));
        lemma_enc_str_body_push(t.drop_first(), c);
        assert(enc_str_body(t.push(c)) == enc_char(t[0]) + enc_str_body(t.drop_first().push(c)));
        assert(enc_str_body(t.push(c)) == enc_char(t[0]) + (enc_str_body(t.drop_first())
            + enc_char(c)));
        assert(enc_str_body(t) == enc_char(t[0]) + enc_str_body(t.drop_first()));
        assert(enc_str_body(t.push(c)) =~= enc_str_body(t) + enc_char(c));
    }
}

/// Parses one escape sequence, positioned just after the backslash.
pub open spec fn parse_escape(s: Seq<u8>, i: int) -> Option<(char, int)> {
    if i < 0 || i >= s.len() {
        None
    } else if s[i] == 0x22 {
        Some(((0x22u32 as char), i + 1))
    } else if s[i] == 0x5c {
        Some(((0x5cu32 as char), i + 1))
    } else if s[i] == 0x75 {
        match parse_hex4(s, i + 1) {
            None => None,
            Some((v, j)) => if 0xd800 <= v && v < 0xdc00 {
                if j + 2 <= s.len() && s[j] == 0x5c && s[j + 1] == 0x75 {
                    match parse_hex4(s, j + 2) {
                        None => None,
                        Some((w, k)) => if 0xdc00 <= w && w < 0xe000 {
                            Some(
                                ((((0x10000 + (v - 0xd800) * 0x400 + (w - 0xdc00)) as u32)
                                    as char), k),
                            )
                        } else {
                            None
                        },
                    }
                } else {
                    None
                }
            } else if 0xdc00 <= v && v < 0xe000 {
                None
            } else {
                Some((v as char, j))
            },
        }
    } else {
        None
    }
}

/// Parses string characters up to and including the closing quote.
pub open spec fn parse_str_chars(s: Seq<u8>, i: int) -> Option<(Seq<char>, int)>
    decreases s.len() - i when 0 <= i <= s.len()
{
    if i >= s.len() {
        None
    } else if s[i] == 0x22 {
        Some((Seq::empty(), i + 1))
    } else if s[i] == 0x5c {
        match parse_escape(s, i + 1) {
            None => None,
            Some((c, j)) => if i + 1 < j && j <= s.len() {
                match parse_str_chars(s, j) {
                    None => None,
                    Some((t, k)) => Some((seq![c] + t, k)),
                }
            } else {
                None
            },
        }
    } else if s[i] < 0x80 {
        match parse_str_chars(s, i + 1) {
            None => None,
            Some((t, k)) => Some((seq![(s[i] as u32) as char] + t, k)),
        }
    } else {
        None
    }
}

/// Parses a JSON string (opening quote at `i`).
pub open spec fn parse_string(s: Seq<u8>, i: int) -> Option<(Seq<char>, int)> {
    if 0 <= i && i < s.len() && s[i] == 0x22 {
        parse_str_chars(s, i + 1)
    } else {
        None
    }
}

/// The parse of the whole string body equals `done` plus the parse of the
/// rest, position for position: the loop invariant of the string decoder.
pub open spec fn str_chars_continues(s: Seq<u8>, start: int, j: int, done: Seq<char>) -> bool {
    match parse_str_chars(s, j) {
        Some(p) => parse_str_chars(s, start) == Some((done + p.0, p.1)),
        None => parse_str_chars(s, start) is None,
    }
}

// ---------------------------------------------------------------------------
// Byte arrays
// ---------------------------------------------------------------------------

/// The items of a byte array, decimal, comma separated.
pub open spec fn enc_bytes_items(p: Seq<u8>) -> Seq<u8>
    decreases p.len(),
{
    if p.len() == 0 {
        Seq::empty()
    } else if p.len() == 1 {
        dec_digits(p[0] as nat)
    } else {
        dec_digits(p[0] as nat) + seq![0x2cu8] + enc_bytes_items(p.drop_first())
    }
}

/// A JSON array of byte values.
pub open spec fn enc_bytes(p: Seq<u8>) -> Seq<u8> {
    seq![0x5bu8] + enc_bytes_items(p) + seq![0x5du8]
}

/// Parses the items of a non-empty byte array, consuming the closing bracket.
pub open spec fn parse_bytes_items(s: Seq<u8>, i: int) -> Option<(Seq<u8>, int)>
    decreases s.len() - i when 0 <= i <= s.len()
{
    match parse_num(s, i) {
        None => None,
        Some((v, j)) => if v > 255 {
            None
        } else if j < s.len() && s[j] == 0x5d {
            Some((seq![v as u8], j + 1))
        } else if j < s.len() && s[j] == 0x2c {
            if i < j + 1 && j + 1 <= s.len() {
                match parse_bytes_items(s, j + 1) {
                    None => None,
                    Some((t, k)) => Some((seq![v as u8] + t, k)),
                }
            } else {
                None
            }
        } else {
            None
        },
    }
}

/// Parses a JSON array of byte values (opening bracket at `i`).
pub open spec fn parse_bytes(s: Seq<u8>, i: int) -> Option<(Seq<u8>, int)> {
    if 0 <= i && i < s.len() && s[i] == 0x5b {
        if i + 1 < s.len() && s[i + 1] == 0x5d {
            Some((Seq::empty(), i + 2))
        } else {
            parse_bytes_items(s, i + 1)
        }
    } else {
        None
    }
}

/// Loop invariant of the byte-array decoder, in the style of
/// `str_chars_continues`.
pub open spec fn bytes_items_continues(s: Seq<u8>, start: int, j: int, done: Seq<u8>) -> bool {
    match parse_bytes_items(s, j) {
        Some(p) => parse_bytes_items(s, start) == Some((done + p.0, p.1)),
        None => parse_bytes_items(s, start) is None,
    }
}

// ---------------------------------------------------------------------------
// String arrays
// ---------------------------------------------------------------------------

/// The items of a string array, comma separated.
pub open spec fn enc_strs_items(v: Seq<Seq<char>>) -> Seq<u8>
    decreases v.len(),
{
    if v.len() == 0 {
        Seq::empty()
    } else if v.len() == 1 {
        enc_string(v[0])
    } else {
        enc_string(v[0]) + seq![0x2cu8] + enc_strs_items(v.drop_first())
    }
}

/// A JSON array of strings.
pub open spec fn enc_strs(v: Seq<Seq<char>>) -> Seq<u8> {
    seq![0x5bu8] + enc_strs_items(v) + seq![0x5du8]
}

/// Parses the items of a non-empty string array, consuming the closing
/// bracket.
pub open spec fn parse_strs_items(s: Seq<u8>, i: int) -> Option<(Seq<Seq<char>>, int)>
    decreases s.len() - i when 0 <= i <= s.len()
{
    match parse_string(s, i) {
        None => None,
        Some((t, j)) => if j < s.len() && s[j] == 0x5d {
            Some((seq![t], j + 1))
        } else if j < s.len() && s[j] == 0x2c {
            if i < j + 1 && j + 1 <= s.len() {
                match parse_strs_items(s, j + 1) {
                    None => None,
                    Some((u, k)) => Some((seq![t] + u, k)),
                }
            } else {
                None
            }
        } else {
            None
        },
    }
}

/// Parses a JSON array of strings (opening bracket at `i`).
pub open spec fn parse_strs(s: Seq<u8>, i: int) -> Option<(Seq<Seq<char>>, int)> {
    if 0 <= i && i < s.len() && s[i] == 0x5b {
        if i + 1 < s.len() && s[i + 1] == 0x5d {
            Some((Seq::empty(), i + 2))
        } else {
            parse_strs_items(s, i + 1)
        }
    } else {
        None
    }
}

/// Loop invariant of the string-array decoder, in the style of
/// `str_chars_continues`.
pub open spec fn strs_items_continues(s: Seq<u8>, start: int, j: int, done: Seq<Seq<char>>) -> bool {
    match parse_strs_items(s, j) {
        Some(p) => parse_strs_items(s, start) == Some((done + p.0, p.1)),
        None => parse_strs_items(s, start) is None,
    }
}

/// Total decoding of a whole document as a string array.
pub open spec fn spec_decode_strs(s: Seq<u8>) -> Option<Seq<Seq<char>>> {
    match parse_strs(s, 0) {
        Some((v, j)) => if j == s.len() {
            Some(v)
        } else {
            None
        },
        None => None,
    }
}

// ---------------------------------------------------------------------------
// Fixed literals
// ---------------------------------------------------------------------------

/// `s` holds the bytes of `lit` at position `i`.
pub open spec fn at_bytes(s: Seq<u8>, i: int, lit: Seq<u8>) -> bool {
    0 <= i && i + lit.len() <= s.len() && forall|k: int|
        0 <= k < lit.len() ==> s[i + k] == #[trigger] lit[k]
}

/// `{"id":`
pub open spec fn lit_id() -> Seq<u8> {
    seq![0x7bu8, 0x22u8, 0x69u8, 0x64u8, 0x22u8, 0x3au8]
}

/// `,"sender":`
pub open spec fn lit_sender() -> Seq<u8> {
    seq![0x2cu8, 0x22u8, 0x73u8, 0x65u8, 0x6eu8, 0x64u8, 0x65u8, 0x72u8, 0x22u8, 0x3au8]
}

/// `,"kind":`
pub open spec fn lit_kind() -> Seq<u8> {
    seq![0x2cu8, 0x22u8, 0x6bu8, 0x69u8, 0x6eu8, 0x64u8, 0x22u8, 0x3au8]
}

/// `,"payload":`
pub open spec fn lit_payload() -> Seq<u8> {
    seq![0x2cu8, 0x22u8, 0x70u8, 0x61u8, 0x79u8, 0x6cu8, 0x6fu8, 0x61u8, 0x64u8, 0x22u8, 0x3au8]
}

/// The quoted literal for each message kind.
pub open spec fn kind_lit(k: MessageKind) -> Seq<u8> {
    match k {
        MessageKind::Okay => seq![0x22u8, 0x4fu8, 0x6bu8, 0x22u8],
        MessageKind::State => seq![0x22u8, 0x53u8, 0x74u8, 0x61u8, 0x74u8, 0x65u8, 0x22u8],
        MessageKind::Distribute => seq![
            0x22u8, 0x44u8, 0x69u8, 0x73u8, 0x74u8, 0x72u8, 0x69u8, 0x62u8, 0x75u8, 0x74u8,
            0x65u8, 0x22u8,
        ],
        MessageKind::Error => seq![0x22u8, 0x45u8, 0x72u8, 0x72u8, 0x6fu8, 0x72u8, 0x22u8],
    }
}

/// Parses a message kind literal at `i`.
pub open spec fn parse_kind(s: Seq<u8>, i: int) -> Option<(MessageKind, int)> {
    if at_bytes(s, i, kind_lit(MessageKind::Okay)) {
        Some((MessageKind::Okay, i + 4))
    } else if at_bytes(s, i, kind_lit(MessageKind::State)) {
        Some((MessageKind::State, i + 7))
    } else if at_bytes(s, i, kind_lit(MessageKind::Distribute)) {
        Some((MessageKind::Distribute, i + 12))
    } else if at_bytes(s, i, kind_lit(MessageKind::Error)) {
        Some((MessageKind::Error, i + 7))
    } else {
        None
    }
}

// ---------------------------------------------------------------------------
// Messages
// ---------------------------------------------------------------------------

/// The encoding of a whole message:
/// `{"id":N,"sender":S,"kind":K,"payload":[..]}`.
pub open spec fn enc_message(m: MessageModel) -> Seq<u8> {
    lit_id() + dec_digits(m.id as nat) + lit_sender() + enc_string(m.sender) + lit_kind()
        + kind_lit(m.kind) + lit_payload() + enc_bytes(m.payload) + seq![0x7du8]
}

/// Parses a whole message document; the document must be consumed exactly.
pub open spec fn parse_message(s: Seq<u8>) -> Option<MessageModel> {
    if !at_bytes(s, 0, lit_id()) {
        None
    } else {
        match parse_num(s, 6) {
            None => None,
            Some((id, i1)) => if !at_bytes(s, i1, lit_sender()) {
                None
            } else {
                match parse_string(s, i1 + 10) {
                    None => None,
                    Some((sender, i2)) => if !at_bytes(s, i2, lit_kind()) {
                        None
                    } else {
                        match parse_kind(s, i2 + 8) {
                            None => None,
                            Some((kind, i3)) => if !at_bytes(s, i3, lit_payload()) {
                                None
                            } else {
                                match parse_bytes(s, i3 + 11) {
                                    None => None,
                                    Some((payload, i4)) => if i4 + 1 == s.len() && s[i4]
                                        == 0x7d {
                                        Some(MessageModel { id, sender, kind, payload })
                                    } else {
                                        None
                                    },
                                }
                            },
                        }
                    },
                }
            },
        }
    }
}

/// The sentinel a failed decode collapses to.
pub open spec fn err_message() -> MessageModel {
    MessageModel { id: 0, sender: Seq::empty(), kind: MessageKind::Error, payload: Seq::empty() }
}

/// Total decoding: the parsed message, or the error sentinel.
pub open spec fn spec_decode_message(s: Seq<u8>) -> MessageModel {
    match parse_message(s) {
        Some(m) => m,
        None => err_message(),
    }
}

// ---------------------------------------------------------------------------
// State payloads
// ---------------------------------------------------------------------------

/// `"Unknown"`
pub open spec fn lit_unknown() -> Seq<u8> {
    seq![0x22u8, 0x55u8, 0x6eu8, 0x6bu8, 0x6eu8, 0x6fu8, 0x77u8, 0x6eu8, 0x22u8]
}

/// `{"Ping":`
pub open spec fn lit_ping() -> Seq<u8> {
    seq![0x7bu8, 0x22u8, 0x50u8, 0x69u8, 0x6eu8, 0x67u8, 0x22u8, 0x3au8]
}

/// `{"ControlNodeStatus":`
pub open spec fn lit_control() -> Seq<u8> {
    seq![
        0x7bu8, 0x22u8, 0x43u8, 0x6fu8, 0x6eu8, 0x74u8, 0x72u8, 0x6fu8, 0x6cu8, 0x4eu8, 0x6fu8,
        0x64u8, 0x65u8, 0x53u8, 0x74u8, 0x61u8, 0x74u8, 0x75u8, 0x73u8, 0x22u8, 0x3au8,
    ]
}

/// `{"NodeList":`
pub open spec fn lit_nodelist() -> Seq<u8> {
    seq![
        0x7bu8, 0x22u8, 0x4eu8, 0x6fu8, 0x64u8, 0x65u8, 0x4cu8, 0x69u8, 0x73u8, 0x74u8, 0x22u8,
        0x3au8,
    ]
}

/// The encoding of a state payload, with the tag forms
/// `"Unknown"`, `{"Ping":S}`, `{"ControlNodeStatus":S}`, `{"NodeList":[..]}`.
pub open spec fn enc_state(st: StateModel) -> Seq<u8> {
    match st {
        StateModel::Unknown() => lit_unknown(),
        StateModel::Ping(h) => lit_ping() + enc_string(h) + seq![0x7du8],
        StateModel::ControlNodeStatus(a) => lit_control() + enc_string(a) + seq![0x7du8],
        StateModel::NodeList(v) => lit_nodelist() + enc_strs(v) + seq![0x7du8],
    }
}

/// Parses a whole state document; the document must be consumed exactly.
pub open spec fn parse_state(s: Seq<u8>) -> Option<StateModel> {
    if s.len() == lit_unknown().len() && at_bytes(s, 0, lit_unknown()) {
        Some(StateModel::Unknown())
    } else if at_bytes(s, 0, lit_ping()) {
        match parse_string(s, 8) {
            None => None,
            Some((h, j)) => if j + 1 == s.len() && s[j] == 0x7d {
                Some(StateModel::Ping(h))
            } else {
                None
            },
        }
    } else if at_bytes(s, 0, lit_control()) {
        match parse_string(s, 21) {
            None => None,
            Some((a, j)) => if j + 1 == s.len() && s[j] == 0x7d {
                Some(StateModel::ControlNodeStatus(a))
            } else {
                None
            },
        }
    } else if at_bytes(s, 0, lit_nodelist()) {
        match parse_strs(s, 12) {
            None => None,
            Some((v, j)) => if j + 1 == s.len() && s[j] == 0x7d {
                Some(StateModel::NodeList(v))
            } else {
                None
            },
        }
    } else {
        None
    }
}

/// Total decoding: the parsed state payload, or the `Unknown` sentinel.
pub open spec fn spec_decode_state(s: Seq<u8>) -> StateModel {
    match parse_state(s) {
        Some(st) => st,
        None => StateModel::Unknown(),
    }
}

} // verus!
