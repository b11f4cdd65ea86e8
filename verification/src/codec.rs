//! Executable wire codec: encoders and decoders for messages and state
//! payloads, proved against the byte-level definitions in `wire`.

use vstd::prelude::*;
use vstd::string::*;
use crate::structs::{Message, MessageKind, StateType};
use crate::wire::{
    at_bytes, dec_digits, digit_run_end, digits_val, enc_bytes, enc_bytes_items, enc_char,
    enc_message, enc_state, enc_str_body, enc_string, enc_strs, enc_strs_items, err_message,
    hex_fixed, hexd, hexv, is_digit, is_hexd, kind_lit, lemma_enc_str_body_push, lit_control,
    lit_id, lit_kind, lit_nodelist, lit_payload, lit_ping, lit_sender, lit_unknown, parse_bytes,
    parse_bytes_items, parse_escape, parse_hex4, parse_kind, parse_message, parse_num,
    parse_state, parse_str_chars, parse_string, parse_strs, parse_strs_items,
    spec_decode_message, spec_decode_state, spec_decode_strs, str_chars_continues,
    bytes_items_continues, strs_items_continues, lemma_digit_run_props, lemma_digit_run_from,
    lemma_digits_val_prefix, digit_of,
};
use crate::sys::push_char;

verus! {

// ---------------------------------------------------------------------------
// Encoders
// ---------------------------------------------------------------------------

fn push_u128(out: &mut Vec<u8>, n: u128)
    ensures
        final(out)@ == old(out)@ + dec_digits(n as nat),
    decreases n,
{
    if n < 10 {
        out.push(0x30 + n as u8);
        proof {
            assert(out@ =~= old(out)@ + dec_digits(n as nat));
        }
    } else {
        push_u128(out, n / 10);
        out.push(0x30 + (n % 10) as u8);
        proof {
            assert((n as nat) / 10 == (n / 10) as nat);
            assert(out@ =~= old(out)@ + dec_digits(n as nat));
        }
    }
}

fn hexd_e(d: u8) -> (r: u8)
    requires
        d < 16,
    ensures
        r == hexd(d as nat),
{
    if d < 10 {
        0x30 + d
    } else {
        0x61 + (d - 10)
    }
}

fn push_hex_fixed(out: &mut Vec<u8>, v: u32, k: u8)
    ensures
        final(out)@ == old(out)@ + hex_fixed(v as nat, k as nat),
    decreases k,
{
    if k > 0 {
        push_hex_fixed(out, v / 16, k - 1);
        out.push(hexd_e((v % 16) as u8));
        proof {
            assert((v as nat) / 16 == (v / 16) as nat);
            assert((v as nat) % 16 == (v % 16) as nat);
            assert(out@ =~= old(out)@ + hex_fixed(v as nat, k as nat));
        }
    } else {
        proof {
            assert(out@ =~= old(out)@ + hex_fixed(v as nat, 0));
        }
    }
}

fn push_char_enc(out: &mut Vec<u8>, c: char)
    ensures
        final(out)@ == old(out)@ + enc_char(c),
{
    let v = c as u32;
    if v == 0x22 {
        out.push(0x5c);
        out.push(0x22);
        proof {
            assert(out@ =~= old(out)@ + enc_char(c));
        }
    } else if v == 0x5c {
        out.push(0x5c);
        out.push(0x5c);
        proof {
            assert(out@ =~= old(out)@ + enc_char(c));
        }
    } else if 0x20 <= v && v <= 0x7e {
        out.push(v as u8);
        proof {
            assert(out@ =~= old(out)@ + enc_char(c));
        }
    } else if v <= 0xffff {
        out.push(0x5c);
        out.push(0x75);
        push_hex_fixed(out, v, 4);
        proof {
            assert(out@ =~= old(out)@ + enc_char(c));
        }
    } else {
        let x = v - 0x10000;
        out.push(0x5c);
        out.push(0x75);
        push_hex_fixed(out, 0xd800 + x / 0x400, 4);
        out.push(0x5c);
        out.push(0x75);
        push_hex_fixed(out, 0xdc00 + x % 0x400, 4);
        proof {
            assert(out@ =~= old(out)@ + enc_char(c));
        }
    }
}

fn push_string(out: &mut Vec<u8>, s: &str)
    ensures
        final(out)@ == old(out)@ + enc_string(s@),
{
    out.push(0x22);
    let n = s.unicode_len();
    let mut i: usize = 0;
    while i < n
        invariant
            n == s@.len(),
            i <= n,
            out@ == old(out)@ + seq![0x22u8] + enc_str_body(s@.take(i as int)),
        decreases n - i,
    {
        let c = s.get_char(i);
        push_char_enc(out, c);
        proof {
            lemma_enc_str_body_push(s@.take(i as int), c);
            assert(s@.take(i as int).push(c) =~= s@.take(i as int + 1));
        }
        i += 1;
    }
    out.push(0x22);
    proof {
        assert(s@.take(n as int) =~= s@);
        assert(out@ =~= old(out)@ + enc_string(s@));
    }
}

fn push_bytes_items(out: &mut Vec<u8>, p: &Vec<u8>, i: usize)
    requires
        i < p.len(),
    ensures
        final(out)@ == old(out)@ + enc_bytes_items(p@.skip(i as int)),
    decreases p.len() - i,
{
    push_u128(out, p[i] as u128);
    if i + 1 < p.len() {
        out.push(0x2c);
        push_bytes_items(out, p, i + 1);
        proof {
            assert(p@.skip(i as int).drop_first() =~= p@.skip(i as int + 1));
            assert(p@.skip(i as int)[0] == p@[i as int]);
            assert(out@ =~= old(out)@ + enc_bytes_items(p@.skip(i as int)));
        }
    } else {
        proof {
            assert(p@.skip(i as int).len() == 1);
            assert(p@.skip(i as int)[0] == p@[i as int]);
            assert(out@ =~= old(out)@ + enc_bytes_items(p@.skip(i as int)));
        }
    }
}

fn push_bytes(out: &mut Vec<u8>, p: &Vec<u8>)
    ensures
        final(out)@ == old(out)@ + enc_bytes(p@),
{
    out.push(0x5b);
    if p.len() > 0 {
        push_bytes_items(out, p, 0);
        proof {
            assert(p@.skip(0) =~= p@);
        }
    }
    out.push(0x5d);
    proof {
        assert(out@ =~= old(out)@ + enc_bytes(p@));
    }
}

fn push_strs_items(out: &mut Vec<u8>, v: &Vec<String>, i: usize)
    requires
        i < v.len(),
    ensures
        final(out)@ == old(out)@ + enc_strs_items(v.deep_view().skip(i as int)),
    decreases v.len() - i,
{
    push_string(out, v[i].as_str());
    proof {
        assert(v.deep_view().skip(i as int)[0] == v@[i as int]@);
    }
    if i + 1 < v.len() {
        out.push(0x2c);
        push_strs_items(out, v, i + 1);
        proof {
            assert(v.deep_view().skip(i as int).drop_first() =~= v.deep_view().skip(
                i as int + 1,
            ));
            assert(out@ =~= old(out)@ + enc_strs_items(v.deep_view().skip(i as int)));
        }
    } else {
        proof {
            assert(v.deep_view().skip(i as int).len() == 1);
            assert(out@ =~= old(out)@ + enc_strs_items(v.deep_view().skip(i as int)));
        }
    }
}

/// Encodes a list of strings as a JSON array of strings.
pub fn encode_string_array(v: &Vec<String>) -> (out: Vec<u8>)
    ensures
        out@ == enc_strs(v.deep_view()),
{
    let mut out: Vec<u8> = Vec::new();
    out.push(0x5b);
    if v.len() > 0 {
        push_strs_items(&mut out, v, 0);
        proof {
            assert(v.deep_view().skip(0) =~= v.deep_view());
        }
    }
    out.push(0x5d);
    proof {
        assert(out@ =~= enc_strs(v.deep_view()));
    }
    out
}

/// Encodes one message as its wire frame.
pub fn encode_message(m: &Message) -> (out: Vec<u8>)
    ensures
        out@ == enc_message(m@),
{
    let mut out: Vec<u8> = Vec::new();
    push_lit_id(&mut out);
    push_u128(&mut out, m.id);
    push_lit_sender(&mut out);
    push_string(&mut out, m.sender.as_str());
    push_lit_kind(&mut out);
    push_kind(&mut out, m.kind);
    push_lit_payload(&mut out);
    push_bytes(&mut out, &m.payload);
    out.push(0x7d);
    proof {
        assert(out@ =~= enc_message(m@));
    }
    out
}

/// Encodes one state payload as its JSON document.
pub fn encode_state(st: &StateType) -> (out: Vec<u8>)
    ensures
        out@ == enc_state(st@),
{
    let mut out: Vec<u8> = Vec::new();
    match st {
        StateType::Unknown() => {
            push_lit_unknown(&mut out);
            proof {
                assert(out@ =~= enc_state(st@));
            }
        },
        StateType::Ping(h) => {
            push_lit_ping(&mut out);
            push_string(&mut out, h.as_str());
            out.push(0x7d);
            proof {
                assert(out@ =~= enc_state(st@));
            }
        },
        StateType::ControlNodeStatus(a) => {
            push_lit_control(&mut out);
            push_string(&mut out, a.as_str());
            out.push(0x7d);
            proof {
                assert(out@ =~= enc_state(st@));
            }
        },
        StateType::NodeList(v) => {
            push_lit_nodelist(&mut out);
            push_strs_items_all(&mut out, v);
            out.push(0x7d);
            proof {
                assert(out@ =~= enc_state(st@));
            }
        },
    }
    out
}

fn push_strs_items_all(out: &mut Vec<u8>, v: &Vec<String>)
    ensures
        final(out)@ == old(out)@ + enc_strs(v.deep_view()),
{
    out.push(0x5b);
    if v.len() > 0 {
        push_strs_items(out, v, 0);
        proof {
            assert(v.deep_view().skip(0) =~= v.deep_view());
        }
    }
    out.push(0x5d);
    proof {
        assert(out@ =~= old(out)@ + enc_strs(v.deep_view()));
    }
}

// ---------------------------------------------------------------------------
// Fixed literal helpers
// ---------------------------------------------------------------------------

fn expect_lit_id(b: &Vec<u8>, i: usize) -> (r: bool)
    ensures
        r == at_bytes(b@, i as int, lit_id()),
{
    if i <= b.len() && b.len() - i >= 6 && b[i] == 0x7b && b[i + 1] == 0x22 && b[i + 2] == 0x69 && b[i + 3] == 0x64 && b[i + 4] == 0x22 && b[i + 5] == 0x3a {
        proof {
            assert forall|k: int| 0 <= k < 6 implies b@[i + k] == #[trigger] (lit_id())[k] by {
                if k == 0 { } else if k == 1 { } else if k == 2 { } else if k == 3 { } else if k == 4 { } else { }
            }
        }
        true
    } else {
        proof {
            if at_bytes(b@, i as int, lit_id()) {
                assert(b@[i as int + 0] == (lit_id())[0]);
                assert(b@[i as int + 1] == (lit_id())[1]);
                assert(b@[i as int + 2] == (lit_id())[2]);
                assert(b@[i as int + 3] == (lit_id())[3]);
                assert(b@[i as int + 4] == (lit_id())[4]);
                assert(b@[i as int + 5] == (lit_id())[5]);
                assert(false);
            }
        }
        false
    }
}

fn push_lit_id(out: &mut Vec<u8>)
    ensures
        final(out)@ == old(out)@ + lit_id(),
{
    out.push(0x7b);
    out.push(0x22);
    out.push(0x69);
    out.push(0x64);
    out.push(0x22);
    out.push(0x3a);
    proof {
        assert(out@ =~= old(out)@ + lit_id());
    }
}

fn expect_lit_sender(b: &Vec<u8>, i: usize) -> (r: bool)
    ensures
        r == at_bytes(b@, i as int, lit_sender()),
{
    if i <= b.len() && b.len() - i >= 10 && b[i] == 0x2c && b[i + 1] == 0x22 && b[i + 2] == 0x73 && b[i + 3] == 0x65 && b[i + 4] == 0x6e && b[i + 5] == 0x64 && b[i + 6] == 0x65 && b[i + 7] == 0x72 && b[i + 8] == 0x22 && b[i + 9] == 0x3a {
        proof {
            assert forall|k: int| 0 <= k < 10 implies b@[i + k] == #[trigger] (lit_sender())[k] by {
                if k == 0 { } else if k == 1 { } else if k == 2 { } else if k == 3 { } else if k == 4 { } else if k == 5 { } else if k == 6 { } else if k == 7 { } else if k == 8 { } else { }
            }
        }
        true
    } else {
        proof {
            if at_bytes(b@, i as int, lit_sender()) {
                assert(b@[i as int + 0] == (lit_sender())[0]);
                assert(b@[i as int + 1] == (lit_sender())[1]);
                assert(b@[i as int + 2] == (lit_sender())[2]);
                assert(b@[i as int + 3] == (lit_sender())[3]);
                assert(b@[i as int + 4] == (lit_sender())[4]);
                assert(b@[i as int + 5] == (lit_sender())[5]);
                assert(b@[i as int + 6] == (lit_sender())[6]);
                assert(b@[i as int + 7] == (lit_sender())[7]);
                assert(b@[i as int + 8] == (lit_sender())[8]);
                assert(b@[i as int + 9] == (lit_sender())[9]);
                assert(false);
            }
        }
        false
    }
}

fn push_lit_sender(out: &mut Vec<u8>)
    ensures
        final(out)@ == old(out)@ + lit_sender(),
{
    out.push(0x2c);
    out.push(0x22);
    out.push(0x73);
    out.push(0x65);
    out.push(0x6e);
    out.push(0x64);
    out.push(0x65);
    out.push(0x72);
    out.push(0x22);
    out.push(0x3a);
    proof {
        assert(out@ =~= old(out)@ + lit_sender());
    }
}

fn expect_lit_kind(b: &Vec<u8>, i: usize) -> (r: bool)
    ensures
        r == at_bytes(b@, i as int, lit_kind()),
{
    if i <= b.len() && b.len() - i >= 8 && b[i] == 0x2c && b[i + 1] == 0x22 && b[i + 2] == 0x6b && b[i + 3] == 0x69 && b[i + 4] == 0x6e && b[i + 5] == 0x64 && b[i + 6] == 0x22 && b[i + 7] == 0x3a {
        proof {
            assert forall|k: int| 0 <= k < 8 implies b@[i + k] == #[trigger] (lit_kind())[k] by {
                if k == 0 { } else if k == 1 { } else if k == 2 { } else if k == 3 { } else if k == 4 { } else if k == 5 { } else if k == 6 { } else { }
            }
        }
        true
    } else {
        proof {
            if at_bytes(b@, i as int, lit_kind()) {
                assert(b@[i as int + 0] == (lit_kind())[0]);
                assert(b@[i as int + 1] == (lit_kind())[1]);
                assert(b@[i as int + 2] == (lit_kind())[2]);
                assert(b@[i as int + 3] == (lit_kind())[3]);
                assert(b@[i as int + 4] == (lit_kind())[4]);
                assert(b@[i as int + 5] == (lit_kind())[5]);
                assert(b@[i as int + 6] == (lit_kind())[6]);
                assert(b@[i as int + 7] == (lit_kind())[7]);
                assert(false);
            }
        }
        false
    }
}

fn push_lit_kind(out: &mut Vec<u8>)
    ensures
        final(out)@ == old(out)@ + lit_kind(),
{
    out.push(0x2c);
    out.push(0x22);
    out.push(0x6b);
    out.push(0x69);
    out.push(0x6e);
    out.push(0x64);
    out.push(0x22);
    out.push(0x3a);
    proof {
        assert(out@ =~= old(out)@ + lit_kind());
    }
}

fn expect_lit_payload(b: &Vec<u8>, i: usize) -> (r: bool)
    ensures
        r == at_bytes(b@, i as int, lit_payload()),
{
    if i <= b.len() && b.len() - i >= 11 && b[i] == 0x2c && b[i + 1] == 0x22 && b[i + 2] == 0x70 && b[i + 3] == 0x61 && b[i + 4] == 0x79 && b[i + 5] == 0x6c && b[i + 6] == 0x6f && b[i + 7] == 0x61 && b[i + 8] == 0x64 && b[i + 9] == 0x22 && b[i + 10] == 0x3a {
        proof {
            assert forall|k: int| 0 <= k < 11 implies b@[i + k] == #[trigger] (lit_payload())[k] by {
                if k == 0 { } else if k == 1 { } else if k == 2 { } else if k == 3 { } else if k == 4 { } else if k == 5 { } else if k == 6 { } else if k == 7 { } else if k == 8 { } else if k == 9 { } else { }
            }
        }
        true
    } else {
        proof {
            if at_bytes(b@, i as int, lit_payload()) {
                assert(b@[i as int + 0] == (lit_payload())[0]);
                assert(b@[i as int + 1] == (lit_payload())[1]);
                assert(b@[i as int + 2] == (lit_payload())[2]);
                assert(b@[i as int + 3] == (lit_payload())[3]);
                assert(b@[i as int + 4] == (lit_payload())[4]);
                assert(b@[i as int + 5] == (lit_payload())[5]);
                assert(b@[i as int + 6] == (lit_payload())[6]);
                assert(b@[i as int + 7] == (lit_payload())[7]);
                assert(b@[i as int + 8] == (lit_payload())[8]);
                assert(b@[i as int + 9] == (lit_payload())[9]);
                assert(b@[i as int + 10] == (lit_payload())[10]);
                assert(false);
            }
        }
        false
    }
}

fn push_lit_payload(out: &mut Vec<u8>)
    ensures
        final(out)@ == old(out)@ + lit_payload(),
{
    out.push(0x2c);
    out.push(0x22);
    out.push(0x70);
    out.push(0x61);
    out.push(0x79);
    out.push(0x6c);
    out.push(0x6f);
    out.push(0x61);
    out.push(0x64);
    out.push(0x22);
    out.push(0x3a);
    proof {
        assert(out@ =~= old(out)@ + lit_payload());
    }
}

fn expect_lit_unknown(b: &Vec<u8>, i: usize) -> (r: bool)
    ensures
        r == at_bytes(b@, i as int, lit_unknown()),
{
    if i <= b.len() && b.len() - i >= 9 && b[i] == 0x22 && b[i + 1] == 0x55 && b[i + 2] == 0x6e && b[i + 3] == 0x6b && b[i + 4] == 0x6e && b[i + 5] == 0x6f && b[i + 6] == 0x77 && b[i + 7] == 0x6e && b[i + 8] == 0x22 {
        proof {
            assert forall|k: int| 0 <= k < 9 implies b@[i + k] == #[trigger] (lit_unknown())[k] by {
                if k == 0 { } else if k == 1 { } else if k == 2 { } else if k == 3 { } else if k == 4 { } else if k == 5 { } else if k == 6 { } else if k == 7 { } else { }
            }
        }
        true
    } else {
        proof {
            if at_bytes(b@, i as int, lit_unknown()) {
                assert(b@[i as int + 0] == (lit_unknown())[0]);
                assert(b@[i as int + 1] == (lit_unknown())[1]);
                assert(b@[i as int + 2] == (lit_unknown())[2]);
                assert(b@[i as int + 3] == (lit_unknown())[3]);
                assert(b@[i as int + 4] == (lit_unknown())[4]);
                assert(b@[i as int + 5] == (lit_unknown())[5]);
                assert(b@[i as int + 6] == (lit_unknown())[6]);
                assert(b@[i as int + 7] == (lit_unknown())[7]);
                assert(b@[i as int + 8] == (lit_unknown())[8]);
                assert(false);
            }
        }
        false
    }
}

fn push_lit_unknown(out: &mut Vec<u8>)
    ensures
        final(out)@ == old(out)@ + lit_unknown(),
{
    out.push(0x22);
    out.push(0x55);
    out.push(0x6e);
    out.push(0x6b);
    out.push(0x6e);
    out.push(0x6f);
    out.push(0x77);
    out.push(0x6e);
    out.push(0x22);
    proof {
        assert(out@ =~= old(out)@ + lit_unknown());
    }
}

fn expect_lit_ping(b: &Vec<u8>, i: usize) -> (r: bool)
    ensures
        r == at_bytes(b@, i as int, lit_ping()),
{
    if i <= b.len() && b.len() - i >= 8 && b[i] == 0x7b && b[i + 1] == 0x22 && b[i + 2] == 0x50 && b[i + 3] == 0x69 && b[i + 4] == 0x6e && b[i + 5] == 0x67 && b[i + 6] == 0x22 && b[i + 7] == 0x3a {
        proof {
            assert forall|k: int| 0 <= k < 8 implies b@[i + k] == #[trigger] (lit_ping())[k] by {
                if k == 0 { } else if k == 1 { } else if k == 2 { } else if k == 3 { } else if k == 4 { } else if k == 5 { } else if k == 6 { } else { }
            }
        }
        true
    } else {
        proof {
            if at_bytes(b@, i as int, lit_ping()) {
                assert(b@[i as int + 0] == (lit_ping())[0]);
                assert(b@[i as int + 1] == (lit_ping())[1]);
                assert(b@[i as int + 2] == (lit_ping())[2]);
                assert(b@[i as int + 3] == (lit_ping())[3]);
                assert(b@[i as int + 4] == (lit_ping())[4]);
                assert(b@[i as int + 5] == (lit_ping())[5]);
                assert(b@[i as int + 6] == (lit_ping())[6]);
                assert(b@[i as int + 7] == (lit_ping())[7]);
                assert(false);
            }
        }
        false
    }
}

fn push_lit_ping(out: &mut Vec<u8>)
    ensures
        final(out)@ == old(out)@ + lit_ping(),
{
    out.push(0x7b);
    out.push(0x22);
    out.push(0x50);
    out.push(0x69);
    out.push(0x6e);
    out.push(0x67);
    out.push(0x22);
    out.push(0x3a);
    proof {
        assert(out@ =~= old(out)@ + lit_ping());
    }
}

fn expect_lit_control(b: &Vec<u8>, i: usize) -> (r: bool)
    ensures
        r == at_bytes(b@, i as int, lit_control()),
{
    if i <= b.len() && b.len() - i >= 21 && b[i] == 0x7b && b[i + 1] == 0x22 && b[i + 2] == 0x43 && b[i + 3] == 0x6f && b[i + 4] == 0x6e && b[i + 5] == 0x74 && b[i + 6] == 0x72 && b[i + 7] == 0x6f && b[i + 8] == 0x6c && b[i + 9] == 0x4e && b[i + 10] == 0x6f && b[i + 11] == 0x64 && b[i + 12] == 0x65 && b[i + 13] == 0x53 && b[i + 14] == 0x74 && b[i + 15] == 0x61 && b[i + 16] == 0x74 && b[i + 17] == 0x75 && b[i + 18] == 0x73 && b[i + 19] == 0x22 && b[i + 20] == 0x3a {
        proof {
            assert forall|k: int| 0 <= k < 21 implies b@[i + k] == #[trigger] (lit_control())[k] by {
                if k == 0 { } else if k == 1 { } else if k == 2 { } else if k == 3 { } else if k == 4 { } else if k == 5 { } else if k == 6 { } else if k == 7 { } else if k == 8 { } else if k == 9 { } else if k == 10 { } else if k == 11 { } else if k == 12 { } else if k == 13 { } else if k == 14 { } else if k == 15 { } else if k == 16 { } else if k == 17 { } else if k == 18 { } else if k == 19 { } else { }
            }
        }
        true
    } else {
        proof {
            if at_bytes(b@, i as int, lit_control()) {
                assert(b@[i as int + 0] == (lit_control())[0]);
                assert(b@[i as int + 1] == (lit_control())[1]);
                assert(b@[i as int + 2] == (lit_control())[2]);
                assert(b@[i as int + 3] == (lit_control())[3]);
                assert(b@[i as int + 4] == (lit_control())[4]);
                assert(b@[i as int + 5] == (lit_control())[5]);
                assert(b@[i as int + 6] == (lit_control())[6]);
                assert(b@[i as int + 7] == (lit_control())[7]);
                assert(b@[i as int + 8] == (lit_control())[8]);
                assert(b@[i as int + 9] == (lit_control())[9]);
                assert(b@[i as int + 10] == (lit_control())[10]);
                assert(b@[i as int + 11] == (lit_control())[11]);
                assert(b@[i as int + 12] == (lit_control())[12]);
                assert(b@[i as int + 13] == (lit_control())[13]);
                assert(b@[i as int + 14] == (lit_control())[14]);
                assert(b@[i as int + 15] == (lit_control())[15]);
                assert(b@[i as int + 16] == (lit_control())[16]);
                assert(b@[i as int + 17] == (lit_control())[17]);
                assert(b@[i as int + 18] == (lit_control())[18]);
                assert(b@[i as int + 19] == (lit_control())[19]);
                assert(b@[i as int + 20] == (lit_control())[20]);
                assert(false);
            }
        }
        false
    }
}

fn push_lit_control(out: &mut Vec<u8>)
    ensures
        final(out)@ == old(out)@ + lit_control(),
{
    out.push(0x7b);
    out.push(0x22);
    out.push(0x43);
    out.push(0x6f);
    out.push(0x6e);
    out.push(0x74);
    out.push(0x72);
    out.push(0x6f);
    out.push(0x6c);
    out.push(0x4e);
    out.push(0x6f);
    out.push(0x64);
    out.push(0x65);
    out.push(0x53);
    out.push(0x74);
    out.push(0x61);
    out.push(0x74);
    out.push(0x75);
    out.push(0x73);
    out.push(0x22);
    out.push(0x3a);
    proof {
        assert(out@ =~= old(out)@ + lit_control());
    }
}

fn expect_lit_nodelist(b: &Vec<u8>, i: usize) -> (r: bool)
    ensures
        r == at_bytes(b@, i as int, lit_nodelist()),
{
    if i <= b.len() && b.len() - i >= 12 && b[i] == 0x7b && b[i + 1] == 0x22 && b[i + 2] == 0x4e && b[i + 3] == 0x6f && b[i + 4] == 0x64 && b[i + 5] == 0x65 && b[i + 6] == 0x4c && b[i + 7] == 0x69 && b[i + 8] == 0x73 && b[i + 9] == 0x74 && b[i + 10] == 0x22 && b[i + 11] == 0x3a {
        proof {
            assert forall|k: int| 0 <= k < 12 implies b@[i + k] == #[trigger] (lit_nodelist())[k] by {
                if k == 0 { } else if k == 1 { } else if k == 2 { } else if k == 3 { } else if k == 4 { } else if k == 5 { } else if k == 6 { } else if k == 7 { } else if k == 8 { } else if k == 9 { } else if k == 10 { } else { }
            }
        }
        true
    } else {
        proof {
            if at_bytes(b@, i as int, lit_nodelist()) {
                assert(b@[i as int + 0] == (lit_nodelist())[0]);
                assert(b@[i as int + 1] == (lit_nodelist())[1]);
                assert(b@[i as int + 2] == (lit_nodelist())[2]);
                assert(b@[i as int + 3] == (lit_nodelist())[3]);
                assert(b@[i as int + 4] == (lit_nodelist())[4]);
                assert(b@[i as int + 5] == (lit_nodelist())[5]);
                assert(b@[i as int + 6] == (lit_nodelist())[6]);
                assert(b@[i as int + 7] == (lit_nodelist())[7]);
                assert(b@[i as int + 8] == (lit_nodelist())[8]);
                assert(b@[i as int + 9] == (lit_nodelist())[9]);
                assert(b@[i as int + 10] == (lit_nodelist())[10]);
                assert(b@[i as int + 11] == (lit_nodelist())[11]);
                assert(false);
            }
        }
        false
    }
}

fn push_lit_nodelist(out: &mut Vec<u8>)
    ensures
        final(out)@ == old(out)@ + lit_nodelist(),
{
    out.push(0x7b);
    out.push(0x22);
    out.push(0x4e);
    out.push(0x6f);
    out.push(0x64);
    out.push(0x65);
    out.push(0x4c);
    out.push(0x69);
    out.push(0x73);
    out.push(0x74);
    out.push(0x22);
    out.push(0x3a);
    proof {
        assert(out@ =~= old(out)@ + lit_nodelist());
    }
}

fn expect_kind_okay(b: &Vec<u8>, i: usize) -> (r: bool)
    ensures
        r == at_bytes(b@, i as int, kind_lit(MessageKind::Okay)),
{
    if i <= b.len() && b.len() - i >= 4 && b[i] == 0x22 && b[i + 1] == 0x4f && b[i + 2] == 0x6b && b[i + 3] == 0x22 {
        proof {
            assert forall|k: int| 0 <= k < 4 implies b@[i + k] == #[trigger] (kind_lit(MessageKind::Okay))[k] by {
                if k == 0 { } else if k == 1 { } else if k == 2 { } else { }
            }
        }
        true
    } else {
        proof {
            if at_bytes(b@, i as int, kind_lit(MessageKind::Okay)) {
                assert(b@[i as int + 0] == (kind_lit(MessageKind::Okay))[0]);
                assert(b@[i as int + 1] == (kind_lit(MessageKind::Okay))[1]);
                assert(b@[i as int + 2] == (kind_lit(MessageKind::Okay))[2]);
                assert(b@[i as int + 3] == (kind_lit(MessageKind::Okay))[3]);
                assert(false);
            }
        }
        false
    }
}

fn expect_kind_state(b: &Vec<u8>, i: usize) -> (r: bool)
    ensures
        r == at_bytes(b@, i as int, kind_lit(MessageKind::State)),
{
    if i <= b.len() && b.len() - i >= 7 && b[i] == 0x22 && b[i + 1] == 0x53 && b[i + 2] == 0x74 && b[i + 3] == 0x61 && b[i + 4] == 0x74 && b[i + 5] == 0x65 && b[i + 6] == 0x22 {
        proof {
            assert forall|k: int| 0 <= k < 7 implies b@[i + k] == #[trigger] (kind_lit(MessageKind::State))[k] by {
                if k == 0 { } else if k == 1 { } else if k == 2 { } else if k == 3 { } else if k == 4 { } else if k == 5 { } else { }
            }
        }
        true
    } else {
        proof {
            if at_bytes(b@, i as int, kind_lit(MessageKind::State)) {
                assert(b@[i as int + 0] == (kind_lit(MessageKind::State))[0]);
                assert(b@[i as int + 1] == (kind_lit(MessageKind::State))[1]);
                assert(b@[i as int + 2] == (kind_lit(MessageKind::State))[2]);
                assert(b@[i as int + 3] == (kind_lit(MessageKind::State))[3]);
                assert(b@[i as int + 4] == (kind_lit(MessageKind::State))[4]);
                assert(b@[i as int + 5] == (kind_lit(MessageKind::State))[5]);
                assert(b@[i as int + 6] == (kind_lit(MessageKind::State))[6]);
                assert(false);
            }
        }
        false
    }
}

fn expect_kind_distribute(b: &Vec<u8>, i: usize) -> (r: bool)
    ensures
        r == at_bytes(b@, i as int, kind_lit(MessageKind::Distribute)),
{
    if i <= b.len() && b.len() - i >= 12 && b[i] == 0x22 && b[i + 1] == 0x44 && b[i + 2] == 0x69 && b[i + 3] == 0x73 && b[i + 4] == 0x74 && b[i + 5] == 0x72 && b[i + 6] == 0x69 && b[i + 7] == 0x62 && b[i + 8] == 0x75 && b[i + 9] == 0x74 && b[i + 10] == 0x65 && b[i + 11] == 0x22 {
        proof {
            assert forall|k: int| 0 <= k < 12 implies b@[i + k] == #[trigger] (kind_lit(MessageKind::Distribute))[k] by {
                if k == 0 { } else if k == 1 { } else if k == 2 { } else if k == 3 { } else if k == 4 { } else if k == 5 { } else if k == 6 { } else if k == 7 { } else if k == 8 { } else if k == 9 { } else if k == 10 { } else { }
            }
        }
        true
    } else {
        proof {
            if at_bytes(b@, i as int, kind_lit(MessageKind::Distribute)) {
                assert(b@[i as int + 0] == (kind_lit(MessageKind::Distribute))[0]);
                assert(b@[i as int + 1] == (kind_lit(MessageKind::Distribute))[1]);
                assert(b@[i as int + 2] == (kind_lit(MessageKind::Distribute))[2]);
                assert(b@[i as int + 3] == (kind_lit(MessageKind::Distribute))[3]);
                assert(b@[i as int + 4] == (kind_lit(MessageKind::Distribute))[4]);
                assert(b@[i as int + 5] == (kind_lit(MessageKind::Distribute))[5]);
                assert(b@[i as int + 6] == (kind_lit(MessageKind::Distribute))[6]);
                assert(b@[i as int + 7] == (kind_lit(MessageKind::Distribute))[7]);
                assert(b@[i as int + 8] == (kind_lit(MessageKind::Distribute))[8]);
                assert(b@[i as int + 9] == (kind_lit(MessageKind::Distribute))[9]);
                assert(b@[i as int + 10] == (kind_lit(MessageKind::Distribute))[10]);
                assert(b@[i as int + 11] == (kind_lit(MessageKind::Distribute))[11]);
                assert(false);
            }
        }
        false
    }
}

fn expect_kind_error(b: &Vec<u8>, i: usize) -> (r: bool)
    ensures
        r == at_bytes(b@, i as int, kind_lit(MessageKind::Error)),
{
    if i <= b.len() && b.len() - i >= 7 && b[i] == 0x22 && b[i + 1] == 0x45 && b[i + 2] == 0x72 && b[i + 3] == 0x72 && b[i + 4] == 0x6f && b[i + 5] == 0x72 && b[i + 6] == 0x22 {
        proof {
            assert forall|k: int| 0 <= k < 7 implies b@[i + k] == #[trigger] (kind_lit(MessageKind::Error))[k] by {
                if k == 0 { } else if k == 1 { } else if k == 2 { } else if k == 3 { } else if k == 4 { } else if k == 5 { } else { }
            }
        }
        true
    } else {
        proof {
            if at_bytes(b@, i as int, kind_lit(MessageKind::Error)) {
                assert(b@[i as int + 0] == (kind_lit(MessageKind::Error))[0]);
                assert(b@[i as int + 1] == (kind_lit(MessageKind::Error))[1]);
                assert(b@[i as int + 2] == (kind_lit(MessageKind::Error))[2]);
                assert(b@[i as int + 3] == (kind_lit(MessageKind::Error))[3]);
                assert(b@[i as int + 4] == (kind_lit(MessageKind::Error))[4]);
                assert(b@[i as int + 5] == (kind_lit(MessageKind::Error))[5]);
                assert(b@[i as int + 6] == (kind_lit(MessageKind::Error))[6]);
                assert(false);
            }
        }
        false
    }
}

fn push_kind(out: &mut Vec<u8>, k: MessageKind)
    ensures
        final(out)@ == old(out)@ + kind_lit(k),
{
    match k {
        MessageKind::Okay => {
            out.push(0x22);
            out.push(0x4f);
            out.push(0x6b);
            out.push(0x22);
        },
        MessageKind::State => {
            out.push(0x22);
            out.push(0x53);
            out.push(0x74);
            out.push(0x61);
            out.push(0x74);
            out.push(0x65);
            out.push(0x22);
        },
        MessageKind::Distribute => {
            out.push(0x22);
            out.push(0x44);
            out.push(0x69);
            out.push(0x73);
            out.push(0x74);
            out.push(0x72);
            out.push(0x69);
            out.push(0x62);
            out.push(0x75);
            out.push(0x74);
            out.push(0x65);
            out.push(0x22);
        },
        MessageKind::Error => {
            out.push(0x22);
            out.push(0x45);
            out.push(0x72);
            out.push(0x72);
            out.push(0x6f);
            out.push(0x72);
            out.push(0x22);
        },
    }
    proof {
        assert(out@ =~= old(out)@ + kind_lit(k));
    }
}


// ---------------------------------------------------------------------------
// Decoders
// ---------------------------------------------------------------------------

fn parse_num_at(b: &Vec<u8>, i: usize) -> (r: Option<(u128, usize)>)
    requires
        i <= b.len(),
    ensures
        match r {
            Some(p) => parse_num(b@, i as int) == Some((p.0, p.1 as int)) && i < p.1 <= b.len(),
            None => parse_num(b@, i as int) is None,
        },
{
    let len = b.len();
    let mut j = i;
    let mut acc: u128 = 0;
    while j < len && 0x30 <= b[j] && b[j] <= 0x39
        invariant
            i <= j <= len,
            len == b.len(),
            forall|k: int| i <= k < j ==> is_digit(b@[k]),
            acc == digits_val(b@.subrange(i as int, j as int)),
        decreases len - j,
    {
        let d = (b[j] - 0x30) as u128;
        let next = match acc.checked_mul(10) {
            Some(x) => x.checked_add(d),
            None => None,
        };
        match next {
            Some(x) => {
                acc = x;
            },
            None => {
                proof {
                    lemma_digit_run_props(b@, i as int);
                    let e = digit_run_end(b@, i as int);
                    assert(e >= j + 1);
                    lemma_digits_val_prefix(b@.subrange(i as int, e), j + 1 - i);
                    assert(b@.subrange(i as int, e).take(j + 1 - i) =~= b@.subrange(
                        i as int,
                        j as int + 1,
                    ));
                    assert(b@.subrange(i as int, j as int + 1).drop_last() =~= b@.subrange(
                        i as int,
                        j as int,
                    ));
                    assert(digits_val(b@.subrange(i as int, j as int + 1)) == acc * 10
                        + digit_of(b@[j as int]));
                    assert(digits_val(b@.subrange(i as int, e)) > u128::MAX);
                }
                return None;
            },
        }
        j += 1;
        proof {
            assert(b@.subrange(i as int, j as int).drop_last() =~= b@.subrange(
                i as int,
                j as int - 1,
            ));
            assert(b@.subrange(i as int, j as int).last() == b@[j as int - 1]);
        }
    }
    proof {
        lemma_digit_run_from(b@, i as int, j as int);
    }
    if j == i {
        None
    } else {
        Some((acc, j))
    }
}

fn hexv_e(x: u8) -> (r: Option<u8>)
    ensures
        match r {
            Some(d) => is_hexd(x) && d as nat == hexv(x) && d < 16,
            None => !is_hexd(x),
        },
{
    if 0x30 <= x && x <= 0x39 {
        Some(x - 0x30)
    } else if 0x61 <= x && x <= 0x66 {
        Some(x - 0x61 + 10)
    } else if 0x41 <= x && x <= 0x46 {
        Some(x - 0x41 + 10)
    } else {
        None
    }
}

fn parse_hex4_at(b: &Vec<u8>, i: usize) -> (r: Option<(u32, usize)>)
    requires
        i <= b.len(),
    ensures
        match r {
            Some(p) => parse_hex4(b@, i as int) == Some((p.0, p.1 as int)) && p.1 == i + 4
                && p.1 <= b.len(),
            None => parse_hex4(b@, i as int) is None,
        },
{
    if b.len() - i < 4 {
        return None;
    }
    let d0 = match hexv_e(b[i]) {
        Some(d) => d,
        None => {
            return None;
        },
    };
    let d1 = match hexv_e(b[i + 1]) {
        Some(d) => d,
        None => {
            return None;
        },
    };
    let d2 = match hexv_e(b[i + 2]) {
        Some(d) => d,
        None => {
            return None;
        },
    };
    let d3 = match hexv_e(b[i + 3]) {
        Some(d) => d,
        None => {
            return None;
        },
    };
    let v = (d0 as u32) * 4096 + (d1 as u32) * 256 + (d2 as u32) * 16 + (d3 as u32);
    Some((v, i + 4))
}

fn parse_escape_at(b: &Vec<u8>, i: usize) -> (r: Option<(char, usize)>)
    requires
        i <= b.len(),
    ensures
        match r {
            Some(p) => parse_escape(b@, i as int) == Some((p.0, p.1 as int)) && i < p.1
                <= b.len(),
            None => parse_escape(b@, i as int) is None,
        },
{
    if i == b.len() {
        return None;
    }
    let x = b[i];
    if x == 0x22 {
        match char::from_u32(0x22) {
            Some(c) => Some((c, i + 1)),
            None => None,
        }
    } else if x == 0x5c {
        match char::from_u32(0x5c) {
            Some(c) => Some((c, i + 1)),
            None => None,
        }
    } else if x == 0x75 {
        match parse_hex4_at(b, i + 1) {
            None => None,
            Some((v, j)) => {
                if 0xd800 <= v && v < 0xdc00 {
                    if b.len() - j >= 2 && b[j] == 0x5c && b[j + 1] == 0x75 {
                        match parse_hex4_at(b, j + 2) {
                            None => None,
                            Some((w, k)) => {
                                if 0xdc00 <= w && w < 0xe000 {
                                    let code = 0x10000 + (v - 0xd800) * 0x400 + (w - 0xdc00);
                                    match char::from_u32(code) {
                                        Some(c) => Some((c, k)),
                                        None => None,
                                    }
                                } else {
                                    None
                                }
                            },
                        }
                    } else {
                        None
                    }
                } else if 0xdc00 <= v && v < 0xe000 {
                    None
                } else {
                    match char::from_u32(v) {
                        Some(c) => Some((c, j)),
                        None => None,
                    }
                }
            },
        }
    } else {
        None
    }
}

#[verifier::loop_isolation(false)]
fn parse_string_at(b: &Vec<u8>, i: usize) -> (r: Option<(String, usize)>)
    requires
        i <= b.len(),
    ensures
        match r {
            Some(p) => parse_string(b@, i as int) == Some((p.0@, p.1 as int)) && i < p.1
                <= b.len(),
            None => parse_string(b@, i as int) is None,
        },
{
    if i == b.len() || b[i] != 0x22 {
        return None;
    }
    let mut out = String::new();
    let mut j = i + 1;
    proof {
        if parse_str_chars(b@, i as int + 1) is Some {
            let p = parse_str_chars(b@, i as int + 1).unwrap();
            assert(Seq::<char>::empty() + p.0 =~= p.0);
        }
    }
    loop
        invariant
            i + 1 <= j <= b.len(),
            str_chars_continues(b@, i as int + 1, j as int, out@),
        decreases b.len() - j,
    {
        if j == b.len() {
            return None;
        }
        let x = b[j];
        if x == 0x22 {
            proof {
                assert(parse_str_chars(b@, j as int) == Some(
                    (Seq::<char>::empty(), j as int + 1),
                ));
                assert(out@ + Seq::<char>::empty() =~= out@);
            }
            return Some((out, j + 1));
        } else if x == 0x5c {
            match parse_escape_at(b, j + 1) {
                None => {
                    return None;
                },
                Some((c, j2)) => {
                    let ghost out_old = out@;
                    push_char(&mut out, c);
                    proof {
                        if parse_str_chars(b@, j2 as int) is Some {
                            let p = parse_str_chars(b@, j2 as int).unwrap();
                            assert(parse_str_chars(b@, j as int) == Some(
                                (seq![c] + p.0, p.1),
                            ));
                            assert(out_old.push(c) + p.0 =~= out_old + (seq![c] + p.0));
                        }
                    }
                    j = j2;
                },
            }
        } else if x < 0x80 {
            let c = match char::from_u32(x as u32) {
                Some(c) => c,
                None => {
                    return None;
                },
            };
            let ghost out_old = out@;
            push_char(&mut out, c);
            proof {
                if parse_str_chars(b@, j as int + 1) is Some {
                    let p = parse_str_chars(b@, j as int + 1).unwrap();
                    assert(parse_str_chars(b@, j as int) == Some((seq![c] + p.0, p.1)));
                    assert(out_old.push(c) + p.0 =~= out_old + (seq![c] + p.0));
                }
            }
            j += 1;
        } else {
            return None;
        }
    }
}

#[verifier::loop_isolation(false)]
fn parse_bytes_at(b: &Vec<u8>, i: usize) -> (r: Option<(Vec<u8>, usize)>)
    requires
        i <= b.len(),
    ensures
        match r {
            Some(p) => parse_bytes(b@, i as int) == Some((p.0@, p.1 as int)) && i < p.1
                <= b.len(),
            None => parse_bytes(b@, i as int) is None,
        },
{
    if i == b.len() || b[i] != 0x5b {
        return None;
    }
    if b.len() - i >= 2 && b[i + 1] == 0x5d {
        return Some((Vec::new(), i + 2));
    }
    let mut out: Vec<u8> = Vec::new();
    let mut j = i + 1;
    proof {
        if parse_bytes_items(b@, i as int + 1) is Some {
            let p = parse_bytes_items(b@, i as int + 1).unwrap();
            assert(Seq::<u8>::empty() + p.0 =~= p.0);
        }
    }
    loop
        invariant
            i + 1 <= j <= b.len(),
            bytes_items_continues(b@, i as int + 1, j as int, out@),
        decreases b.len() - j,
    {
        match parse_num_at(b, j) {
            None => {
                return None;
            },
            Some((v, j2)) => {
                if v > 255 {
                    return None;
                }
                let x = v as u8;
                if j2 == b.len() {
                    return None;
                }
                let t = b[j2];
                if t == 0x5d {
                    let ghost out_old = out@;
                    out.push(x);
                    proof {
                        assert(parse_bytes_items(b@, j as int) == Some(
                            (seq![x], j2 as int + 1),
                        ));
                        assert(out_old.push(x) =~= out_old + seq![x]);
                    }
                    return Some((out, j2 + 1));
                } else if t == 0x2c {
                    let ghost out_old = out@;
                    out.push(x);
                    proof {
                        if parse_bytes_items(b@, j2 as int + 1) is Some {
                            let p = parse_bytes_items(b@, j2 as int + 1).unwrap();
                            assert(parse_bytes_items(b@, j as int) == Some(
                                (seq![x] + p.0, p.1),
                            ));
                            assert(out_old.push(x) + p.0 =~= out_old + (seq![x] + p.0));
                        }
                    }
                    j = j2 + 1;
                } else {
                    return None;
                }
            },
        }
    }
}

#[verifier::loop_isolation(false)]
fn parse_strs_at(b: &Vec<u8>, i: usize) -> (r: Option<(Vec<String>, usize)>)
    requires
        i <= b.len(),
    ensures
        match r {
            Some(p) => parse_strs(b@, i as int) == Some((p.0.deep_view(), p.1 as int)) && i
                < p.1 <= b.len(),
            None => parse_strs(b@, i as int) is None,
        },
{
    if i == b.len() || b[i] != 0x5b {
        return None;
    }
    if b.len() - i >= 2 && b[i + 1] == 0x5d {
        let out: Vec<String> = Vec::new();
        proof {
            assert(out.deep_view() =~= Seq::<Seq<char>>::empty());
        }
        return Some((out, i + 2));
    }
    let mut out: Vec<String> = Vec::new();
    let mut j = i + 1;
    proof {
        assert(out.deep_view() =~= Seq::<Seq<char>>::empty());
        if parse_strs_items(b@, i as int + 1) is Some {
            let p = parse_strs_items(b@, i as int + 1).unwrap();
            assert(Seq::<Seq<char>>::empty() + p.0 =~= p.0);
        }
    }
    loop
        invariant
            i + 1 <= j <= b.len(),
            strs_items_continues(b@, i as int + 1, j as int, out.deep_view()),
        decreases b.len() - j,
    {
        match parse_string_at(b, j) {
            None => {
                return None;
            },
            Some((s, j2)) => {
                if j2 == b.len() {
                    return None;
                }
                let t = b[j2];
                if t == 0x5d {
                    let ghost out_old = out.deep_view();
                    let ghost sv = s@;
                    out.push(s);
                    proof {
                        assert(out.deep_view() =~= out_old.push(sv));
                        assert(parse_strs_items(b@, j as int) == Some(
                            (seq![sv], j2 as int + 1),
                        ));
                        assert(out_old.push(sv) =~= out_old + seq![sv]);
                    }
                    return Some((out, j2 + 1));
                } else if t == 0x2c {
                    let ghost out_old = out.deep_view();
                    let ghost sv = s@;
                    out.push(s);
                    proof {
                        assert(out.deep_view() =~= out_old.push(sv));
                        if parse_strs_items(b@, j2 as int + 1) is Some {
                            let p = parse_strs_items(b@, j2 as int + 1).unwrap();
                            assert(parse_strs_items(b@, j as int) == Some(
                                (seq![sv] + p.0, p.1),
                            ));
                            assert(out_old.push(sv) + p.0 =~= out_old + (seq![sv] + p.0));
                        }
                    }
                    j = j2 + 1;
                } else {
                    return None;
                }
            },
        }
    }
}

fn parse_kind_at(b: &Vec<u8>, i: usize) -> (r: Option<(MessageKind, usize)>)
    ensures
        match r {
            Some(p) => parse_kind(b@, i as int) == Some((p.0, p.1 as int)) && i < p.1
                <= b.len(),
            None => parse_kind(b@, i as int) is None,
        },
{
    if expect_kind_okay(b, i) {
        proof {
            assert(kind_lit(MessageKind::Okay).len() == 4);
            assert(i + 4 <= b.len());
        }
        Some((MessageKind::Okay, i + 4))
    } else if expect_kind_state(b, i) {
        proof {
            assert(kind_lit(MessageKind::State).len() == 7);
            assert(i + 7 <= b.len());
        }
        Some((MessageKind::State, i + 7))
    } else if expect_kind_distribute(b, i) {
        proof {
            assert(kind_lit(MessageKind::Distribute).len() == 12);
            assert(i + 12 <= b.len());
        }
        Some((MessageKind::Distribute, i + 12))
    } else if expect_kind_error(b, i) {
        proof {
            assert(kind_lit(MessageKind::Error).len() == 7);
            assert(i + 7 <= b.len());
        }
        Some((MessageKind::Error, i + 7))
    } else {
        None
    }
}

fn parse_message_at(b: &Vec<u8>) -> (r: Option<Message>)
    ensures
        match r {
            Some(m) => parse_message(b@) == Some(m@),
            None => parse_message(b@) is None,
        },
{
    if !expect_lit_id(b, 0) {
        return None;
    }
    let (id, i1) = match parse_num_at(b, 6) {
        Some(p) => p,
        None => {
            return None;
        },
    };
    if !expect_lit_sender(b, i1) {
        return None;
    }
    let (sender, i2) = match parse_string_at(b, i1 + 10) {
        Some(p) => p,
        None => {
            return None;
        },
    };
    if !expect_lit_kind(b, i2) {
        return None;
    }
    let (kind, i3) = match parse_kind_at(b, i2 + 8) {
        Some(p) => p,
        None => {
            return None;
        },
    };
    if !expect_lit_payload(b, i3) {
        return None;
    }
    let (payload, i4) = match parse_bytes_at(b, i3 + 11) {
        Some(p) => p,
        None => {
            return None;
        },
    };
    if b.len() - i4 == 1 && b[i4] == 0x7d {
        Some(Message { id, sender, kind, payload })
    } else {
        None
    }
}

/// Decodes one framed message. Malformed bytes collapse to the error
/// sentinel: `id` zero, empty sender, kind `Error`, empty payload.
pub fn decode_message(b: &Vec<u8>) -> (m: Message)
    ensures
        m@ == spec_decode_message(b@),
        parse_message(b@) is None ==> m.kind == MessageKind::Error,
{
    match parse_message_at(b) {
        Some(m) => m,
        None => Message {
            id: 0,
            sender: String::new(),
            kind: MessageKind::Error,
            payload: Vec::new(),
        },
    }
}

#[verifier::rlimit(60)]
fn parse_state_at(b: &Vec<u8>) -> (r: Option<StateType>)
    ensures
        match r {
            Some(st) => parse_state(b@) == Some(st@),
            None => parse_state(b@) is None,
        },
{
    if b.len() == 9 && expect_lit_unknown(b, 0) {
        return Some(StateType::Unknown());
    }
    if expect_lit_ping(b, 0) {
        let (h, j) = match parse_string_at(b, 8) {
            Some(p) => p,
            None => {
                return None;
            },
        };
        if b.len() - j == 1 && b[j] == 0x7d {
            return Some(StateType::Ping(h));
        }
        return None;
    }
    if expect_lit_control(b, 0) {
        let (a, j) = match parse_string_at(b, 21) {
            Some(p) => p,
            None => {
                return None;
            },
        };
        if b.len() - j == 1 && b[j] == 0x7d {
            return Some(StateType::ControlNodeStatus(a));
        }
        return None;
    }
    if expect_lit_nodelist(b, 0) {
        let (v, j) = match parse_strs_at(b, 12) {
            Some(p) => p,
            None => {
                return None;
            },
        };
        if b.len() - j == 1 && b[j] == 0x7d {
            return Some(StateType::NodeList(v));
        }
        return None;
    }
    None
}

/// Decodes one state payload. Malformed bytes collapse to `Unknown`.
pub fn decode_state(b: &Vec<u8>) -> (st: StateType)
    ensures
        st@ == spec_decode_state(b@),
{
    match parse_state_at(b) {
        Some(st) => st,
        None => StateType::Unknown(),
    }
}

/// Decodes a whole document as a JSON array of strings, as the persisted
/// peer list is stored.
pub fn decode_string_array(b: &Vec<u8>) -> (r: Option<Vec<String>>)
    ensures
        match r {
            Some(v) => spec_decode_strs(b@) == Some(v.deep_view()),
            None => spec_decode_strs(b@) is None,
        },
{
    match parse_strs_at(b, 0) {
        Some((v, j)) => if j == b.len() {
            Some(v)
        } else {
            None
        },
        None => None,
    }
}

/// Decoding bytes into the library's structured values.
pub trait ConvertVecToStruct: View<V = Seq<u8>> {
    /// Decodes one framed message; malformed bytes collapse to the error
    /// message rather than failing.
    fn to_message_struct(&self) -> (m: Message)
        ensures
            m@ == spec_decode_message(self@),
    ;

    /// Decodes one state payload; malformed bytes collapse to `Unknown`.
    fn to_state_struct(&self) -> (st: StateType)
        ensures
            st@ == spec_decode_state(self@),
    ;
}

impl ConvertVecToStruct for Vec<u8> {
    fn to_message_struct(&self) -> (m: Message) {
        decode_message(self)
    }

    fn to_state_struct(&self) -> (st: StateType) {
        decode_state(self)
    }
}

impl Message {
    /// Encodes the message as its wire frame.
    pub fn to_byte_array(&self) -> (out: Vec<u8>)
        ensures
            out@ == enc_message(self@),
    {
        encode_message(self)
    }
}

impl StateType {
    /// Encodes the state payload as its JSON document.
    pub fn to_byte_array(&self) -> (out: Vec<u8>)
        ensures
            out@ == enc_state(self@),
    {
        encode_state(self)
    }
}

} // verus!
