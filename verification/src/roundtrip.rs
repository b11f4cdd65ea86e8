//! Round-trip proofs for the wire codec: parsing the encoding of a value
//! yields that value back, for whole messages and for state payloads.

use vstd::prelude::*;
use vstd::arithmetic::div_mod::{lemma_div_denominator, lemma_fundamental_div_mod};
use vstd::arithmetic::mul::lemma_mul_inequality;
use crate::structs::{MessageKind, MessageModel, StateModel};
use crate::wire::{
    at_bytes, dec_digits, digit_of, digit_run_end, digits_val, enc_bytes, enc_bytes_items,
    enc_char, enc_message, enc_state, enc_str_body, enc_string, enc_strs, enc_strs_items,
    hex_fixed, hexd, hexv, is_digit, is_hexd, kind_lit, lemma_digit_run_from, lit_control,
    lit_id, lit_kind, lit_nodelist, lit_payload, lit_ping, lit_sender, lit_unknown, parse_bytes,
    parse_bytes_items, parse_escape, parse_hex4, parse_kind, parse_message, parse_num,
    parse_state, parse_str_chars, parse_string, parse_strs, parse_strs_items,
    spec_decode_message, spec_decode_state,
};

verus! {

/// A literal seen across a concatenation splits into its two parts.
pub proof fn lemma_at_bytes_split(s: Seq<u8>, i: int, x: Seq<u8>, y: Seq<u8>)
    requires
        at_bytes(s, i, x + y),
    ensures
        at_bytes(s, i, x),
        at_bytes(s, i + x.len(), y),
{
    assert forall|k: int| 0 <= k < x.len() implies s[i + k] == #[trigger] x[k] by {
        assert((x + y)[k] == x[k]);
        assert(s[i + k] == (x + y)[k]);
    }
    assert forall|k: int| 0 <= k < y.len() implies s[i + x.len() + k] == #[trigger] y[k] by {
        assert((x + y)[x.len() + k] == y[k]);
        assert(s[i + (x.len() + k)] == (x + y)[x.len() + k]);
        assert(i + (x.len() + k) == i + x.len() + k);
    }
}


/// One byte of a literal seen through `at_bytes`.
pub proof fn lemma_at_bytes_index(s: Seq<u8>, i: int, lit: Seq<u8>, k: int)
    requires
        at_bytes(s, i, lit),
        0 <= k < lit.len(),
    ensures
        s[i + k] == lit[k],
{
}

/// The decimal digits of `n` are digit bytes whose value is `n`.
pub proof fn lemma_dec_digits_props(n: nat)
    ensures
        dec_digits(n).len() >= 1,
        forall|k: int| 0 <= k < dec_digits(n).len() ==> is_digit(#[trigger] dec_digits(n)[k]),
        digits_val(dec_digits(n)) == n,
    decreases n,
{
    if n < 10 {
        assert(digits_val(dec_digits(n).drop_last()) == 0) by {
            assert(dec_digits(n).drop_last() =~= Seq::<u8>::empty());
        }
    } else {
        lemma_dec_digits_props(n / 10);
        let d = (0x30 + n % 10) as u8;
        assert(dec_digits(n) == dec_digits(n / 10).push(d));
        assert(dec_digits(n).drop_last() =~= dec_digits(n / 10));
        assert(dec_digits(n).last() == d);
        assert(n % 10 < 10);
        assert(is_digit(d));
        assert(digit_of(d) == n % 10);
        assert(digits_val(dec_digits(n)) == (n / 10) * 10 + n % 10);
        lemma_fundamental_div_mod(n as int, 10);
        assert forall|k: int|
            0 <= k < dec_digits(n).len() implies is_digit(#[trigger] dec_digits(n)[k]) by {
            if k < dec_digits(n / 10).len() {
                assert(dec_digits(n)[k] == dec_digits(n / 10)[k]);
            } else {
                assert(dec_digits(n)[k] == d);
            }
        }
    }
}

/// A decimal encoding at `i`, followed by a non-digit, parses to its value.
pub proof fn lemma_parse_num_enc(s: Seq<u8>, i: int, n: u128, j: int)
    requires
        at_bytes(s, i, dec_digits(n as nat)),
        j == i + dec_digits(n as nat).len(),
        j == s.len() || !is_digit(s[j]),
    ensures
        parse_num(s, i) == Some((n, j)),
{
    lemma_dec_digits_props(n as nat);
    assert forall|k: int| i <= k < j implies is_digit(s[k]) by {
        assert(s[i + (k - i)] == dec_digits(n as nat)[k - i]);
    }
    lemma_digit_run_from(s, i, j);
    assert(digit_run_end(s, i) == j);
    assert(s.subrange(i, j) =~= dec_digits(n as nat)) by {
        assert forall|k: int| 0 <= k < j - i implies s.subrange(i, j)[k] == dec_digits(
            n as nat,
        )[k] by {
            assert(s[i + k] == dec_digits(n as nat)[k]);
        }
    }
    assert(digits_val(s.subrange(i, j)) == n as nat);
}

/// A hex digit byte decodes to the nibble it encodes.
proof fn lemma_hexd_val(d: nat)
    requires
        d < 16,
    ensures
        is_hexd(hexd(d)),
        hexv(hexd(d)) == d,
{
}

/// `hex_fixed` always yields exactly `k` bytes.
pub proof fn lemma_hex_fixed_len(v: nat, k: nat)
    ensures
        hex_fixed(v, k).len() == k,
    decreases k,
{
    if k > 0 {
        lemma_hex_fixed_len(v / 16, (k - 1) as nat);
    }
}

/// Four hex digits of `v < 0x10000` parse back to `v`.
pub proof fn lemma_parse_hex4_enc(s: Seq<u8>, i: int, v: nat)
    requires
        v < 0x10000,
        at_bytes(s, i, hex_fixed(v, 4)),
    ensures
        parse_hex4(s, i) == Some(((v as u32), i + 4)),
{
    let h = hex_fixed(v, 4);
    assert(h == hex_fixed(v / 16, 3).push(hexd(v % 16)));
    assert(hex_fixed(v / 16, 3) == hex_fixed(v / 16 / 16, 2).push(hexd(v / 16 % 16)));
    assert(hex_fixed(v / 16 / 16, 2) == hex_fixed(v / 16 / 16 / 16, 1).push(
        hexd(v / 16 / 16 % 16),
    ));
    assert(hex_fixed(v / 16 / 16 / 16, 1) == hex_fixed(v / 16 / 16 / 16 / 16, 0).push(
        hexd(v / 16 / 16 / 16 % 16),
    ));
    assert(hex_fixed(v / 16 / 16 / 16 / 16, 0) == Seq::<u8>::empty());
    lemma_div_denominator(v as int, 16, 16);
    assert(v / 16 / 16 == v / 256);
    lemma_div_denominator(v as int, 256, 16);
    assert(v / 256 / 16 == v / 4096);
    let a = v / 4096;
    let b = v / 256 % 16;
    let c = v / 16 % 16;
    let d = v % 16;
    assert(a < 16) by {
        if a >= 16 {
            lemma_mul_inequality(16, a as int, 4096);
            lemma_fundamental_div_mod(v as int, 4096);
            assert(v >= 4096 * a >= 16 * 4096);
        }
    }
    assert(v / 16 / 16 / 16 % 16 == a % 16);
    vstd::arithmetic::div_mod::lemma_small_mod(a, 16);
    assert(h[0] == hexd(a) && h[1] == hexd(b) && h[2] == hexd(c) && h[3] == hexd(d));
    lemma_hexd_val(a);
    lemma_hexd_val(b);
    lemma_hexd_val(c);
    lemma_hexd_val(d);
    assert(s[i] == h[0] && s[i + 1] == h[1] && s[i + 2] == h[2] && s[i + 3] == h[3]) by {
        assert(s[i + 0] == h[0]);
        assert(s[i + 1] == h[1]);
        assert(s[i + 2] == h[2]);
        assert(s[i + 3] == h[3]);
    }
    // recombine the nibbles
    lemma_fundamental_div_mod(v as int, 16);
    lemma_fundamental_div_mod(v as int / 16, 16);
    lemma_fundamental_div_mod(v as int / 256, 16);
    assert(v == 16 * (v / 16) + v % 16);
    assert(v / 16 == 16 * (v / 256) + v / 16 % 16);
    assert(v / 256 == 16 * (v / 4096) + v / 256 % 16);
    assert(v as int == a * 4096 + b * 256 + c * 16 + d);
    assert(hexv(s[i]) * 4096 + hexv(s[i + 1]) * 256 + hexv(s[i + 2]) * 16 + hexv(s[i + 3])
        == v);
}


/// The encoded body of `t` followed by a closing quote parses back to `t`.
#[verifier::rlimit(60)]
pub proof fn lemma_parse_str_chars_enc(s: Seq<u8>, i: int, t: Seq<char>, j: int)
    requires
        at_bytes(s, i, enc_str_body(t) + seq![0x22u8]),
        j == i + enc_str_body(t).len() + 1,
    ensures
        parse_str_chars(s, i) == Some((t, j)),
    decreases t.len(),
{
    broadcast use vstd::utf8::char_is_scalar, vstd::utf8::char_u32_cast;

    if t.len() == 0 {
        assert(enc_str_body(t) + seq![0x22u8] =~= seq![0x22u8]);
        lemma_at_bytes_index(s, i, seq![0x22u8], 0);
        assert(s[i] == 0x22u8);
        assert(i < s.len());
        assert(t =~= Seq::<char>::empty());
        assert(parse_str_chars(s, i) == Some((t, i + 1)));
    } else {
        let c = t[0];
        let t1 = t.drop_first();
        let ec = enc_char(c);
        let rest = enc_str_body(t1) + seq![0x22u8];
        assert(enc_str_body(t) == ec + enc_str_body(t1));
        assert(enc_str_body(t) + seq![0x22u8] =~= ec + rest);
        lemma_at_bytes_split(s, i, ec, rest);
        let i1 = i + ec.len();
        assert(rest.len() >= 1);
        assert(i1 < s.len());
        lemma_parse_str_chars_enc(s, i1, t1, j);
        assert(seq![c] + t1 =~= t);
        let v = c as u32;
        if v == 0x22 {
            assert(ec =~= seq![0x5cu8, 0x22u8]);
            lemma_at_bytes_index(s, i, ec, 0);
            lemma_at_bytes_index(s, i, ec, 1);
            assert(s[i] == 0x5c && s[i + 1] == 0x22);
            vstd::utf8::char_u32_cast(c, 0x22u32);
            assert((0x22u32 as char) == c);
            assert(parse_escape(s, i + 1) == Some((c, i + 2)));
            assert(i + 2 == i1);
            assert(parse_str_chars(s, i) == Some((t, j)));
        } else if v == 0x5c {
            assert(ec =~= seq![0x5cu8, 0x5cu8]);
            lemma_at_bytes_index(s, i, ec, 0);
            lemma_at_bytes_index(s, i, ec, 1);
            assert(s[i] == 0x5c && s[i + 1] == 0x5c);
            vstd::utf8::char_u32_cast(c, 0x5cu32);
            assert((0x5cu32 as char) == c);
            assert(parse_escape(s, i + 1) == Some((c, i + 2)));
            assert(i + 2 == i1);
            assert(parse_str_chars(s, i) == Some((t, j)));
        } else if 0x20 <= v && v <= 0x7e {
            assert(ec =~= seq![((c as u32) as u8)]);
            lemma_at_bytes_index(s, i, ec, 0);
            assert(s[i] == (c as u32) as u8);
            assert(s[i] as u32 == v);
            assert(s[i] != 0x22 && s[i] != 0x5c && s[i] < 0x80);
            vstd::utf8::char_u32_cast(c, s[i] as u32);
            assert((s[i] as u32) as char == c);
            assert(i + 1 == i1);
            assert(parse_str_chars(s, i) == Some((t, j)));
        } else if v <= 0xffff {
            lemma_hex_fixed_len(v as nat, 4);
            assert(ec =~= seq![0x5cu8, 0x75u8] + hex_fixed(v as nat, 4));
            assert(ec.len() == 6);
            lemma_at_bytes_split(s, i, seq![0x5cu8, 0x75u8], hex_fixed(v as nat, 4));
            lemma_at_bytes_index(s, i, seq![0x5cu8, 0x75u8], 0);
            lemma_at_bytes_index(s, i, seq![0x5cu8, 0x75u8], 1);
            assert(s[i] == 0x5c && s[i + 1] == 0x75);
            lemma_parse_hex4_enc(s, i + 2, v as nat);
            assert((v as nat) as u32 == v);
            assert(parse_hex4(s, i + 1 + 1) == Some((v, i + 6)));
            vstd::utf8::char_is_scalar(c);
            assert(vstd::utf8::is_scalar(v));
            assert(!(0xd800 <= v && v < 0xdc00) && !(0xdc00 <= v && v < 0xe000));
            vstd::utf8::char_u32_cast(c, v);
            assert((v as char) == c);
            assert(parse_escape(s, i + 1) == Some((c, i + 6)));
            assert(i + 6 == i1);
            assert(parse_str_chars(s, i) == Some((t, j)));
        } else {
            vstd::utf8::char_is_scalar(c);
            assert(vstd::utf8::is_scalar(v));
            let x = (v - 0x10000) as int;
            assert(0 <= x <= 0xfffff);
            let hi = 0xd800 + x / 0x400;
            let lo = 0xdc00 + x % 0x400;
            assert(x / 0x400 < 0x400) by {
                if x / 0x400 >= 0x400 {
                    lemma_mul_inequality(0x400, x / 0x400, 0x400);
                    lemma_fundamental_div_mod(x, 0x400);
                }
            }
            assert(0 <= x % 0x400 < 0x400);
            assert(0xd800 <= hi < 0xdc00);
            assert(0xdc00 <= lo < 0xe000);
            lemma_hex_fixed_len(hi as nat, 4);
            lemma_hex_fixed_len(lo as nat, 4);
            assert((seq![0x5cu8, 0x75u8] + hex_fixed(hi as nat, 4)).len() == 6);
            assert(ec.len() == 12);
            assert(ec =~= (seq![0x5cu8, 0x75u8] + hex_fixed(hi as nat, 4)) + (seq![
                0x5cu8,
                0x75u8,
            ] + hex_fixed(lo as nat, 4)));
            lemma_at_bytes_split(
                s,
                i,
                seq![0x5cu8, 0x75u8] + hex_fixed(hi as nat, 4),
                seq![0x5cu8, 0x75u8] + hex_fixed(lo as nat, 4),
            );
            lemma_at_bytes_split(s, i, seq![0x5cu8, 0x75u8], hex_fixed(hi as nat, 4));
            lemma_at_bytes_split(s, i + 6, seq![0x5cu8, 0x75u8], hex_fixed(lo as nat, 4));
            lemma_at_bytes_index(s, i, seq![0x5cu8, 0x75u8], 0);
            lemma_at_bytes_index(s, i, seq![0x5cu8, 0x75u8], 1);
            lemma_at_bytes_index(s, i + 6, seq![0x5cu8, 0x75u8], 0);
            lemma_at_bytes_index(s, i + 6, seq![0x5cu8, 0x75u8], 1);
            assert(s[i] == 0x5c && s[i + 1] == 0x75);
            assert(s[i + 6] == 0x5c && s[i + 6 + 1] == 0x75);
            lemma_parse_hex4_enc(s, i + 2, hi as nat);
            lemma_parse_hex4_enc(s, i + 8, lo as nat);
            let w1 = (hi as nat) as u32;
            let w2 = (lo as nat) as u32;
            assert(w1 == hi && w2 == lo);
            assert(parse_hex4(s, i + 1 + 1) == Some((w1, i + 6)));
            assert(0xd800 <= w1 && w1 < 0xdc00);
            assert(i + 6 + 2 <= s.len());
            assert(parse_hex4(s, i + 6 + 2) == Some((w2, i + 12)));
            assert(0xdc00 <= w2 && w2 < 0xe000);
            lemma_fundamental_div_mod(x, 0x400);
            assert(0x10000 + (w1 - 0xd800) * 0x400 + (w2 - 0xdc00) == v);
            assert(((0x10000 + (w1 - 0xd800) * 0x400 + (w2 - 0xdc00)) as u32) == v);
            vstd::utf8::char_u32_cast(c, v);
            assert((v as char) == c);
            assert(parse_escape(s, i + 1) == Some((c, i + 12)));
            assert(i + 12 == i1);
            assert(parse_str_chars(s, i) == Some((t, j)));
        }
    }
}

/// A JSON string encoding parses back to the string.
pub proof fn lemma_parse_string_enc(s: Seq<u8>, i: int, t: Seq<char>, j: int)
    requires
        at_bytes(s, i, enc_string(t)),
        j == i + enc_string(t).len(),
    ensures
        parse_string(s, i) == Some((t, j)),
{
    assert(enc_string(t) =~= seq![0x22u8] + (enc_str_body(t) + seq![0x22u8]));
    lemma_at_bytes_split(s, i, seq![0x22u8], enc_str_body(t) + seq![0x22u8]);
    lemma_at_bytes_index(s, i, seq![0x22u8], 0);
    assert(s[i + 0] == 0x22);
    assert(i < s.len());
    lemma_parse_str_chars_enc(s, i + 1, t, j);
}


/// A non-empty encoded byte-array body, with its closing bracket, parses
/// back to the items.
pub proof fn lemma_parse_bytes_items_enc(s: Seq<u8>, i: int, p: Seq<u8>, j: int)
    requires
        p.len() >= 1,
        at_bytes(s, i, enc_bytes_items(p) + seq![0x5du8]),
        j == i + enc_bytes_items(p).len() + 1,
    ensures
        parse_bytes_items(s, i) == Some((p, j)),
    decreases p.len(),
{
    let v = p[0];
    let dv = dec_digits(v as nat);
    lemma_dec_digits_props(v as nat);
    if p.len() == 1 {
        assert(enc_bytes_items(p) == dv);
        assert(enc_bytes_items(p) + seq![0x5du8] =~= dv + seq![0x5du8]);
        lemma_at_bytes_split(s, i, dv, seq![0x5du8]);
        let j2 = i + dv.len();
        lemma_at_bytes_index(s, j2, seq![0x5du8], 0);
        assert(s[j2] == 0x5d);
        assert(j2 < s.len());
        lemma_parse_num_enc(s, i, v as u128, j2);
        assert((v as u128) <= 255);
        assert(((v as u128) as u8) == v);
        assert(seq![v] =~= p);
        assert(parse_bytes_items(s, i) == Some((p, j2 + 1)));
    } else {
        let p1 = p.drop_first();
        assert(enc_bytes_items(p) == dv + seq![0x2cu8] + enc_bytes_items(p1));
        assert(enc_bytes_items(p) + seq![0x5du8] =~= dv + (seq![0x2cu8] + (enc_bytes_items(p1)
            + seq![0x5du8])));
        lemma_at_bytes_split(s, i, dv, seq![0x2cu8] + (enc_bytes_items(p1) + seq![0x5du8]));
        let j2 = i + dv.len();
        lemma_at_bytes_split(s, j2, seq![0x2cu8], enc_bytes_items(p1) + seq![0x5du8]);
        lemma_at_bytes_index(s, j2, seq![0x2cu8], 0);
        assert(s[j2] == 0x2c);
        assert(j2 < s.len());
        lemma_parse_num_enc(s, i, v as u128, j2);
        lemma_parse_bytes_items_enc(s, j2 + 1, p1, j);
        assert((v as u128) <= 255);
        assert(((v as u128) as u8) == v);
        assert(seq![v] + p1 =~= p);
        assert(parse_bytes_items(s, i) == Some((p, j)));
    }
}

/// An encoded byte array parses back to the bytes.
pub proof fn lemma_parse_bytes_enc(s: Seq<u8>, i: int, p: Seq<u8>, j: int)
    requires
        at_bytes(s, i, enc_bytes(p)),
        j == i + enc_bytes(p).len(),
    ensures
        parse_bytes(s, i) == Some((p, j)),
{
    assert(enc_bytes(p) =~= seq![0x5bu8] + (enc_bytes_items(p) + seq![0x5du8]));
    lemma_at_bytes_split(s, i, seq![0x5bu8], enc_bytes_items(p) + seq![0x5du8]);
    lemma_at_bytes_index(s, i, seq![0x5bu8], 0);
    assert(s[i] == 0x5b);
    assert(i < s.len());
    if p.len() == 0 {
        assert(enc_bytes_items(p) + seq![0x5du8] =~= seq![0x5du8]);
        lemma_at_bytes_index(s, i + 1, seq![0x5du8], 0);
        assert(s[i + 1] == 0x5d);
        assert(i + 1 < s.len());
        assert(p =~= Seq::<u8>::empty());
        assert(parse_bytes(s, i) == Some((p, i + 2)));
    } else {
        lemma_dec_digits_props(p[0] as nat);
        lemma_at_bytes_index(s, i + 1, enc_bytes_items(p) + seq![0x5du8], 0);
        assert((enc_bytes_items(p) + seq![0x5du8])[0] == dec_digits(p[0] as nat)[0]) by {
            if p.len() == 1 {
                assert(enc_bytes_items(p) == dec_digits(p[0] as nat));
            } else {
                assert(enc_bytes_items(p) == dec_digits(p[0] as nat) + seq![0x2cu8]
                    + enc_bytes_items(p.drop_first()));
            }
        }
        assert(is_digit(s[i + 1]));
        assert(s[i + 1] != 0x5d);
        lemma_parse_bytes_items_enc(s, i + 1, p, j);
        assert(parse_bytes(s, i) == Some((p, j)));
    }
}

/// A non-empty encoded string-array body, with its closing bracket, parses
/// back to the items.
pub proof fn lemma_parse_strs_items_enc(s: Seq<u8>, i: int, v: Seq<Seq<char>>, j: int)
    requires
        v.len() >= 1,
        at_bytes(s, i, enc_strs_items(v) + seq![0x5du8]),
        j == i + enc_strs_items(v).len() + 1,
    ensures
        parse_strs_items(s, i) == Some((v, j)),
    decreases v.len(),
{
    let e0 = enc_string(v[0]);
    if v.len() == 1 {
        assert(enc_strs_items(v) == e0);
        assert(enc_strs_items(v) + seq![0x5du8] =~= e0 + seq![0x5du8]);
        lemma_at_bytes_split(s, i, e0, seq![0x5du8]);
        let j2 = i + e0.len();
        lemma_at_bytes_index(s, j2, seq![0x5du8], 0);
        assert(s[j2] == 0x5d);
        assert(j2 < s.len());
        lemma_parse_string_enc(s, i, v[0], j2);
        assert(seq![v[0]] =~= v);
        assert(parse_strs_items(s, i) == Some((v, j2 + 1)));
    } else {
        let v1 = v.drop_first();
        assert(enc_strs_items(v) == e0 + seq![0x2cu8] + enc_strs_items(v1));
        assert(enc_strs_items(v) + seq![0x5du8] =~= e0 + (seq![0x2cu8] + (enc_strs_items(v1)
            + seq![0x5du8])));
        lemma_at_bytes_split(s, i, e0, seq![0x2cu8] + (enc_strs_items(v1) + seq![0x5du8]));
        let j2 = i + e0.len();
        lemma_at_bytes_split(s, j2, seq![0x2cu8], enc_strs_items(v1) + seq![0x5du8]);
        lemma_at_bytes_index(s, j2, seq![0x2cu8], 0);
        assert(s[j2] == 0x2c);
        assert(j2 < s.len());
        lemma_parse_string_enc(s, i, v[0], j2);
        lemma_parse_strs_items_enc(s, j2 + 1, v1, j);
        assert(seq![v[0]] + v1 =~= v);
        assert(parse_strs_items(s, i) == Some((v, j)));
    }
}

/// An encoded string array parses back to the strings.
pub proof fn lemma_parse_strs_enc(s: Seq<u8>, i: int, v: Seq<Seq<char>>, j: int)
    requires
        at_bytes(s, i, enc_strs(v)),
        j == i + enc_strs(v).len(),
    ensures
        parse_strs(s, i) == Some((v, j)),
{
    assert(enc_strs(v) =~= seq![0x5bu8] + (enc_strs_items(v) + seq![0x5du8]));
    lemma_at_bytes_split(s, i, seq![0x5bu8], enc_strs_items(v) + seq![0x5du8]);
    lemma_at_bytes_index(s, i, seq![0x5bu8], 0);
    assert(s[i] == 0x5b);
    assert(i < s.len());
    if v.len() == 0 {
        assert(enc_strs_items(v) + seq![0x5du8] =~= seq![0x5du8]);
        lemma_at_bytes_index(s, i + 1, seq![0x5du8], 0);
        assert(s[i + 1] == 0x5d);
        assert(i + 1 < s.len());
        assert(v =~= Seq::<Seq<char>>::empty());
        assert(parse_strs(s, i) == Some((v, i + 2)));
    } else {
        lemma_at_bytes_index(s, i + 1, enc_strs_items(v) + seq![0x5du8], 0);
        assert((enc_strs_items(v) + seq![0x5du8])[0] == 0x22) by {
            let e0 = enc_string(v[0]);
            assert(e0[0] == 0x22);
            if v.len() == 1 {
                assert(enc_strs_items(v) == e0);
            } else {
                assert(enc_strs_items(v) == e0 + seq![0x2cu8] + enc_strs_items(
                    v.drop_first(),
                ));
            }
        }
        assert(s[i + 1] == 0x22);
        assert(s[i + 1] != 0x5d);
        lemma_parse_strs_items_enc(s, i + 1, v, j);
        assert(parse_strs(s, i) == Some((v, j)));
    }
}

/// An encoded kind literal parses back to the kind.
pub proof fn lemma_parse_kind_enc(s: Seq<u8>, i: int, k: MessageKind)
    requires
        at_bytes(s, i, kind_lit(k)),
    ensures
        parse_kind(s, i) == Some((k, i + kind_lit(k).len())),
{
    lemma_at_bytes_index(s, i, kind_lit(k), 1);
    match k {
        MessageKind::Okay => {
        },
        MessageKind::State => {
            assert(!at_bytes(s, i, kind_lit(MessageKind::Okay))) by {
                if at_bytes(s, i, kind_lit(MessageKind::Okay)) {
                    lemma_at_bytes_index(s, i, kind_lit(MessageKind::Okay), 1);
                }
            }
        },
        MessageKind::Distribute => {
            assert(!at_bytes(s, i, kind_lit(MessageKind::Okay))) by {
                if at_bytes(s, i, kind_lit(MessageKind::Okay)) {
                    lemma_at_bytes_index(s, i, kind_lit(MessageKind::Okay), 1);
                }
            }
            assert(!at_bytes(s, i, kind_lit(MessageKind::State))) by {
                if at_bytes(s, i, kind_lit(MessageKind::State)) {
                    lemma_at_bytes_index(s, i, kind_lit(MessageKind::State), 1);
                }
            }
        },
        MessageKind::Error => {
            assert(!at_bytes(s, i, kind_lit(MessageKind::Okay))) by {
                if at_bytes(s, i, kind_lit(MessageKind::Okay)) {
                    lemma_at_bytes_index(s, i, kind_lit(MessageKind::Okay), 1);
                }
            }
            assert(!at_bytes(s, i, kind_lit(MessageKind::State))) by {
                if at_bytes(s, i, kind_lit(MessageKind::State)) {
                    lemma_at_bytes_index(s, i, kind_lit(MessageKind::State), 1);
                }
            }
            assert(!at_bytes(s, i, kind_lit(MessageKind::Distribute))) by {
                if at_bytes(s, i, kind_lit(MessageKind::Distribute)) {
                    lemma_at_bytes_index(s, i, kind_lit(MessageKind::Distribute), 1);
                }
            }
        },
    }
}

// Positions of the parts inside an encoded message.
pub open spec fn msg_q2(m: MessageModel) -> int {
    6 + dec_digits(m.id as nat).len() as int
}

pub open spec fn msg_q3(m: MessageModel) -> int {
    msg_q2(m) + 10
}

pub open spec fn msg_q4(m: MessageModel) -> int {
    msg_q3(m) + enc_string(m.sender).len() as int
}

pub open spec fn msg_q5(m: MessageModel) -> int {
    msg_q4(m) + 8
}

pub open spec fn msg_q6(m: MessageModel) -> int {
    msg_q5(m) + kind_lit(m.kind).len() as int
}

pub open spec fn msg_q7(m: MessageModel) -> int {
    msg_q6(m) + 11
}

pub open spec fn msg_q8(m: MessageModel) -> int {
    msg_q7(m) + enc_bytes(m.payload).len() as int
}

/// Where each part of an encoded message lies.
#[verifier::rlimit(100)]
proof fn lemma_message_layout(m: MessageModel)
    ensures
        at_bytes(enc_message(m), 0, lit_id()),
        at_bytes(enc_message(m), 6, dec_digits(m.id as nat)),
        at_bytes(enc_message(m), msg_q2(m), lit_sender()),
        at_bytes(enc_message(m), msg_q3(m), enc_string(m.sender)),
        at_bytes(enc_message(m), msg_q4(m), lit_kind()),
        at_bytes(enc_message(m), msg_q5(m), kind_lit(m.kind)),
        at_bytes(enc_message(m), msg_q6(m), lit_payload()),
        at_bytes(enc_message(m), msg_q7(m), enc_bytes(m.payload)),
        enc_message(m).len() == msg_q8(m) + 1,
        enc_message(m)[msg_q8(m)] == 0x7d,
{
    let s = enc_message(m);
    let dv = dec_digits(m.id as nat);
    let es = enc_string(m.sender);
    let kl = kind_lit(m.kind);
    let eb = enc_bytes(m.payload);
    assert(at_bytes(s, 0, s)) by {
        assert forall|k: int| 0 <= k < s.len() implies s[0 + k] == #[trigger] s[k] by {}
    }
    assert(s =~= lit_id() + (dv + (lit_sender() + (es + (lit_kind() + (kl + (lit_payload() + (eb
        + seq![0x7du8]))))))));
    lemma_at_bytes_split(s, 0, lit_id(), dv + (lit_sender() + (es + (lit_kind() + (kl
        + (lit_payload() + (eb + seq![0x7du8])))))));
    lemma_at_bytes_split(s, 6, dv, lit_sender() + (es + (lit_kind() + (kl + (lit_payload() + (eb
        + seq![0x7du8]))))));
    lemma_at_bytes_split(s, msg_q2(m), lit_sender(), es + (lit_kind() + (kl + (lit_payload()
        + (eb + seq![0x7du8])))));
    lemma_at_bytes_split(s, msg_q3(m), es, lit_kind() + (kl + (lit_payload() + (eb
        + seq![0x7du8]))));
    lemma_at_bytes_split(s, msg_q4(m), lit_kind(), kl + (lit_payload() + (eb + seq![0x7du8])));
    lemma_at_bytes_split(s, msg_q5(m), kl, lit_payload() + (eb + seq![0x7du8]));
    lemma_at_bytes_split(s, msg_q6(m), lit_payload(), eb + seq![0x7du8]);
    lemma_at_bytes_split(s, msg_q7(m), eb, seq![0x7du8]);
    lemma_at_bytes_index(s, msg_q8(m), seq![0x7du8], 0);
}

/// Parsing the encoding of a whole message yields exactly that message.
#[verifier::rlimit(100)]
pub proof fn lemma_message_roundtrip(m: MessageModel)
    ensures
        parse_message(enc_message(m)) == Some(m),
{
    let s = enc_message(m);
    lemma_message_layout(m);
    lemma_at_bytes_index(s, msg_q2(m), lit_sender(), 0);
    assert(s[msg_q2(m)] == 0x2c);
    assert(!is_digit(s[msg_q2(m)]));
    lemma_parse_num_enc(s, 6, m.id, msg_q2(m));
    lemma_parse_string_enc(s, msg_q3(m), m.sender, msg_q4(m));
    lemma_parse_kind_enc(s, msg_q5(m), m.kind);
    lemma_parse_bytes_enc(s, msg_q7(m), m.payload, msg_q8(m));
    assert(parse_message(s) == Some(MessageModel {
        id: m.id,
        sender: m.sender,
        kind: m.kind,
        payload: m.payload,
    }));
    assert(MessageModel { id: m.id, sender: m.sender, kind: m.kind, payload: m.payload } == m);
}

/// Round trip: decoding the encoding of any message yields the message, and
/// a failed parse is reported as the error sentinel, never as a panic.
pub proof fn lemma_decode_encode_message(m: MessageModel)
    ensures
        spec_decode_message(enc_message(m)) == m,
{
    lemma_message_roundtrip(m);
}

/// The `Ping` case of the state round trip.
#[verifier::rlimit(60)]
proof fn lemma_state_roundtrip_ping(h: Seq<char>)
    ensures
        parse_state(enc_state(StateModel::Ping(h))) == Some(StateModel::Ping(h)),
{
    let s = enc_state(StateModel::Ping(h));
    assert(at_bytes(s, 0, s)) by {
        assert forall|k: int| 0 <= k < s.len() implies s[0 + k] == #[trigger] s[k] by {}
    }
    let eh = enc_string(h);
    assert(s =~= lit_ping() + (eh + seq![0x7du8]));
    lemma_at_bytes_split(s, 0, lit_ping(), eh + seq![0x7du8]);
    lemma_at_bytes_split(s, 8, eh, seq![0x7du8]);
    let j = 8 + eh.len() as int;
    lemma_at_bytes_index(s, j, seq![0x7du8], 0);
    assert(s[j] == 0x7d);
    assert(j + 1 == s.len());
    assert(eh.len() >= 2);
    assert(s.len() != lit_unknown().len());
    lemma_parse_string_enc(s, 8, h, j);
    assert(parse_state(s) == Some(StateModel::Ping(h)));
}

/// The `ControlNodeStatus` case of the state round trip.
#[verifier::rlimit(60)]
proof fn lemma_state_roundtrip_control(a: Seq<char>)
    ensures
        parse_state(enc_state(StateModel::ControlNodeStatus(a))) == Some(
            StateModel::ControlNodeStatus(a),
        ),
{
    let s = enc_state(StateModel::ControlNodeStatus(a));
    assert(at_bytes(s, 0, s)) by {
        assert forall|k: int| 0 <= k < s.len() implies s[0 + k] == #[trigger] s[k] by {}
    }
    let ea = enc_string(a);
    assert(s =~= lit_control() + (ea + seq![0x7du8]));
    lemma_at_bytes_split(s, 0, lit_control(), ea + seq![0x7du8]);
    lemma_at_bytes_split(s, 21, ea, seq![0x7du8]);
    let j = 21 + ea.len() as int;
    lemma_at_bytes_index(s, j, seq![0x7du8], 0);
    assert(s[j] == 0x7d);
    assert(j + 1 == s.len());
    assert(ea.len() >= 2);
    assert(s.len() != lit_unknown().len());
    assert(!at_bytes(s, 0, lit_ping())) by {
        if at_bytes(s, 0, lit_ping()) {
            lemma_at_bytes_index(s, 0, lit_ping(), 2);
            lemma_at_bytes_index(s, 0, lit_control(), 2);
        }
    }
    lemma_parse_string_enc(s, 21, a, j);
    assert(parse_state(s) == Some(StateModel::ControlNodeStatus(a)));
}

/// The `NodeList` case of the state round trip.
#[verifier::rlimit(60)]
proof fn lemma_state_roundtrip_nodelist(v: Seq<Seq<char>>)
    ensures
        parse_state(enc_state(StateModel::NodeList(v))) == Some(StateModel::NodeList(v)),
{
    let s = enc_state(StateModel::NodeList(v));
    assert(at_bytes(s, 0, s)) by {
        assert forall|k: int| 0 <= k < s.len() implies s[0 + k] == #[trigger] s[k] by {}
    }
    let ev = enc_strs(v);
    assert(s =~= lit_nodelist() + (ev + seq![0x7du8]));
    lemma_at_bytes_split(s, 0, lit_nodelist(), ev + seq![0x7du8]);
    lemma_at_bytes_split(s, 12, ev, seq![0x7du8]);
    let j = 12 + ev.len() as int;
    lemma_at_bytes_index(s, j, seq![0x7du8], 0);
    assert(s[j] == 0x7d);
    assert(j + 1 == s.len());
    assert(ev.len() >= 2);
    assert(s.len() != lit_unknown().len());
    assert(!at_bytes(s, 0, lit_ping())) by {
        if at_bytes(s, 0, lit_ping()) {
            lemma_at_bytes_index(s, 0, lit_ping(), 2);
            lemma_at_bytes_index(s, 0, lit_nodelist(), 2);
        }
    }
    assert(!at_bytes(s, 0, lit_control())) by {
        if at_bytes(s, 0, lit_control()) {
            lemma_at_bytes_index(s, 0, lit_control(), 2);
            lemma_at_bytes_index(s, 0, lit_nodelist(), 2);
        }
    }
    lemma_parse_strs_enc(s, 12, v, j);
    assert(parse_state(s) == Some(StateModel::NodeList(v)));
}

/// Parsing the encoding of a state payload yields exactly that payload.
pub proof fn lemma_state_roundtrip(st: StateModel)
    ensures
        parse_state(enc_state(st)) == Some(st),
{
    match st {
        StateModel::Unknown() => {
            let s = enc_state(st);
            assert(at_bytes(s, 0, s)) by {
                assert forall|k: int| 0 <= k < s.len() implies s[0 + k] == #[trigger] s[k] by {}
            }
            assert(s.len() == lit_unknown().len());
        },
        StateModel::Ping(h) => {
            lemma_state_roundtrip_ping(h);
        },
        StateModel::ControlNodeStatus(a) => {
            lemma_state_roundtrip_control(a);
        },
        StateModel::NodeList(v) => {
            lemma_state_roundtrip_nodelist(v);
        },
    }
}

/// Round trip: decoding the encoding of any state payload yields it back.
pub proof fn lemma_decode_encode_state(st: StateModel)
    ensures
        spec_decode_state(enc_state(st)) == st,
{
    lemma_state_roundtrip(st);
}

} // verus!
