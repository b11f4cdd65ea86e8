//! The few outside calls the library trusts: the md5 digest behind the
//! membership fingerprint, and two small standard-library operations that
//! vstd gives no specification.

use vstd::prelude::*;

verus! {

/// The lowercase hex rendering of the md5 digest of `data`: a function of the
/// input bytes alone.
pub uninterp spec fn md5_hex_of(data: Seq<u8>) -> Seq<char>;

/// Relies on md5::compute and the LowerHex rendering of its digest: 32
/// lowercase hex characters, determined by the input bytes alone.
#[verifier::external_body]
pub(crate) fn md5_hex(data: &Vec<u8>) -> (r: String)
    ensures
        r@ == md5_hex_of(data@),
        r@.len() == 32,
{
    format!("{:x}", md5::compute(data.as_slice()))
}

/// Relies on String::push: appends one character at the end.
#[verifier::external_body]
pub(crate) fn push_char(s: &mut String, c: char)
    ensures
        final(s)@ == old(s)@.push(c),
{
    s.push(c);
}

/// Relies on char::from_u32: the character with that code point for every
/// Unicode scalar value, and None on surrogates and values above the range.
pub assume_specification[ char::from_u32 ](v: u32) -> (r: Option<char>)
    ensures
        ((0xd800 <= v && v < 0xe000) || v > 0x10ffff) ==> r is None,
        !((0xd800 <= v && v < 0xe000) || v > 0x10ffff) ==> r == Some(v as char),
;

} // verus!
