//! UTF-16 names and labels.

use vstd::prelude::*;

verus! {

pub open spec fn is_high(u: u16) -> bool {
    0xd800 <= u < 0xdc00
}

pub open spec fn is_low(u: u16) -> bool {
    0xdc00 <= u < 0xe000
}

/// The UTF-16 code units of one character.
pub open spec fn char_units(c: char) -> Seq<u16> {
    let n = c as u32;
    if n < 0x1_0000 {
        seq![n as u16]
    } else {
        let m = n - 0x1_0000;
        seq![(0xd800 + m / 0x400) as u16, (0xdc00 + m % 0x400) as u16]
    }
}

/// The UTF-16 encoding of a string.
pub open spec fn encode_utf16(s: Seq<char>) -> Seq<u16>
    decreases s.len(),
{
    if s.len() == 0 {
        Seq::empty()
    } else {
        char_units(s[0]) + encode_utf16(s.skip(1))
    }
}

/// The string that UTF-16 code units spell; every surrogate without its
/// partner becomes U+FFFD.
pub open spec fn decode_utf16(u: Seq<u16>) -> Seq<char>
    decreases u.len(),
{
    if u.len() == 0 {
        Seq::empty()
    } else if is_high(u[0]) && u.len() > 1 && is_low(u[1]) {
        seq![((0x1_0000 + (u[0] - 0xd800) * 0x400 + (u[1] - 0xdc00)) as u32) as char]
            + decode_utf16(u.skip(2))
    } else if is_high(u[0]) || is_low(u[0]) {
        seq!['\u{fffd}'] + decode_utf16(u.skip(1))
    } else {
        seq![(u[0] as u32) as char] + decode_utf16(u.skip(1))
    }
}

/// `str::encode_utf16`, collected: the UTF-16 code units of the string.
#[verifier::external_body]
pub(crate) fn utf16_units(s: &str) -> (r: Vec<u16>)
    ensures
        r@ == encode_utf16(s@),
{
    s.encode_utf16().collect()
}

/// `String::from_utf16_lossy` decodes code units and puts U+FFFD for every
/// surrogate that stands alone.
pub assume_specification[ String::from_utf16_lossy ](v: &[u16]) -> (r: String)
    ensures
        r@ == decode_utf16(v@),
;

/// Decoding undoes encoding.
pub proof fn law_utf16_round_trip(s: Seq<char>)
    ensures
        decode_utf16(encode_utf16(s)) == s,
    decreases s.len(),
{
    if s.len() > 0 {
        let c = s[0];
        vstd::utf8::char_is_scalar(c);
        let n = c as u32;
        let rest = encode_utf16(s.skip(1));
        law_utf16_round_trip(s.skip(1));
        let u = char_units(c) + rest;
        if n < 0x1_0000 {
            assert(u[0] == n as u16);
            assert(u.skip(1) =~= rest);
            vstd::utf8::char_u32_cast(c, u[0] as u32);
        } else {
            let m = n - 0x1_0000;
            assert(m < 0x10_0000);
            assert(u[0] == 0xd800 + m / 0x400);
            assert(u[1] == 0xdc00 + m % 0x400);
            assert(u.skip(2) =~= rest);
            vstd::utf8::char_u32_cast(
                c,
                (0x1_0000 + (u[0] - 0xd800) * 0x400 + (u[1] - 0xdc00)) as u32,
            );
        }
        assert(s =~= seq![c] + s.skip(1));
    }
}

/// A decoded name takes as many code units as it was decoded from, whatever
/// the units were.
pub proof fn lemma_decode_keeps_length(u: Seq<u16>)
    ensures
        encode_utf16(decode_utf16(u)).len() == u.len(),
    decreases u.len(),
{
    if u.len() > 0 {
        if is_high(u[0]) && u.len() > 1 && is_low(u[1]) {
            lemma_decode_keeps_length(u.skip(2));
            let c = ((0x1_0000 + (u[0] - 0xd800) * 0x400 + (u[1] - 0xdc00)) as u32) as char;
            let d = seq![c] + decode_utf16(u.skip(2));
            assert(d.skip(1) =~= decode_utf16(u.skip(2)));
        } else {
            lemma_decode_keeps_length(u.skip(1));
            let c = if is_high(u[0]) || is_low(u[0]) { '\u{fffd}' } else { (u[0] as u32) as char };
            let d = seq![c] + decode_utf16(u.skip(1));
            assert(d.skip(1) =~= decode_utf16(u.skip(1)));
        }
    }
}

/// Different names have different encodings.
pub proof fn law_encoding_is_injective(a: Seq<char>, b: Seq<char>)
    requires
        encode_utf16(a) == encode_utf16(b),
    ensures
        a == b,
{
    law_utf16_round_trip(a);
    law_utf16_round_trip(b);
}

} // verus!
