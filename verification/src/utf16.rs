//! UTF-16 decoding of pooled string data.
//!
//! A pooled UTF-16 string is a sequence of 16-bit code units. Units outside
//! the surrogate range stand for themselves; a high surrogate followed by a
//! low surrogate encodes one supplementary code point; anything else is an
//! unpaired surrogate and rejects the whole string.
use vstd::prelude::*;
use vstd::utf8::char_u32_cast;
use vstd::utf8::char_is_scalar;
use vstd::utf8::is_scalar;

use crate::error::DecodeError;

verus! {

/// A unit in the surrogate range `0xD800 ..= 0xDFFF` never stands alone.
pub open spec fn is_surrogate(u: u16) -> bool {
    0xD800 <= u <= 0xDFFF
}

/// A high (leading) surrogate.
pub open spec fn is_high_surrogate(u: u16) -> bool {
    0xD800 <= u <= 0xDBFF
}

/// A low (trailing) surrogate.
pub open spec fn is_low_surrogate(u: u16) -> bool {
    0xDC00 <= u <= 0xDFFF
}

/// The scalar value encoded by a surrogate pair.
pub open spec fn surrogate_scalar(hi: u16, lo: u16) -> u32
    recommends
        is_high_surrogate(hi),
        is_low_surrogate(lo),
{
    (0x10000 + (hi - 0xD800) * 0x400 + (lo - 0xDC00)) as u32
}

/// True when `s` is a well-formed UTF-16 code-unit sequence: every surrogate
/// is part of a high/low pair.
pub open spec fn valid_utf16(s: Seq<u16>) -> bool
    decreases s.len(),
{
    if s.len() == 0 {
        true
    } else if !is_surrogate(s[0]) {
        valid_utf16(s.skip(1))
    } else if is_high_surrogate(s[0]) && s.len() >= 2 && is_low_surrogate(s[1]) {
        valid_utf16(s.skip(2))
    } else {
        false
    }
}

/// The character sequence encoded by `s`; meaningful when `valid_utf16(s)`.
pub open spec fn decode_utf16(s: Seq<u16>) -> Seq<char>
    recommends
        valid_utf16(s),
    decreases s.len(),
{
    if s.len() == 0 {
        Seq::empty()
    } else if !is_surrogate(s[0]) {
        seq![(s[0] as u32) as char] + decode_utf16(s.skip(1))
    } else if is_high_surrogate(s[0]) && s.len() >= 2 && is_low_surrogate(s[1]) {
        seq![surrogate_scalar(s[0], s[1]) as char] + decode_utf16(s.skip(2))
    } else {
        Seq::empty()
    }
}

/// The UTF-16 code units encoding `chars`: one unit per character of the
/// basic plane, a surrogate pair per supplementary character.
pub open spec fn encode_utf16(chars: Seq<char>) -> Seq<u16>
    decreases chars.len(),
{
    if chars.len() == 0 {
        Seq::empty()
    } else {
        encode_utf16_char(chars[0]) + encode_utf16(chars.skip(1))
    }
}

/// The UTF-16 encoding of one character.
pub open spec fn encode_utf16_char(c: char) -> Seq<u16> {
    let u = c as u32;
    if u < 0x10000 {
        seq![u as u16]
    } else {
        seq![
            (0xD800 + (u - 0x10000) / 0x400) as u16,
            (0xDC00 + (u - 0x10000) % 0x400) as u16,
        ]
    }
}

/// Relies on `char::from_u32`: it returns `Some` exactly on Unicode scalar
/// values (at most `0x10FFFF` and not a surrogate), and the returned
/// character casts back to its argument.
pub assume_specification[ char::from_u32 ](u: u32) -> (r: Option<char>)
    ensures
        r is Some <==> is_scalar(u),
        r is Some ==> r->0 as u32 == u,
;

/// Relies on `String::push`: it appends exactly the given character.
pub assume_specification[ String::push ](s: &mut String, c: char)
    ensures
        final(s)@ == old(s)@.push(c),
;

/// Decodes a UTF-16 code-unit sequence, failing `InvalidEncoding` on any
/// unpaired surrogate.
pub fn utf16_to_string(units: &Vec<u16>) -> (r: Result<String, DecodeError>)
    ensures
        r is Ok <==> valid_utf16(units@),
        r is Ok ==> r->Ok_0@ == decode_utf16(units@),
        r is Err ==> r == Err::<String, DecodeError>(DecodeError::InvalidEncoding),
{
    let mut out = String::new();
    let mut i: usize = 0;
    proof {
        assert(units@.skip(0) =~= units@);
        assert(out@ + decode_utf16(units@) =~= decode_utf16(units@));
    }
    while i < units.len()
        invariant
            i <= units@.len(),
            valid_utf16(units@) <==> valid_utf16(units@.skip(i as int)),
            valid_utf16(units@.skip(i as int)) ==> decode_utf16(units@) == out@ + decode_utf16(
                units@.skip(i as int),
            ),
        decreases units@.len() - i,
    {
        let ghost rest = units@.skip(i as int);
        let ghost out0 = out@;
        let u = units[i];
        assert(rest[0] == u);
        if u < 0xD800 || u > 0xDFFF {
            assert(is_scalar(u as u32));
            let c = char::from_u32(u as u32).unwrap();
            proof {
                char_u32_cast(c, u as u32);
                assert(rest.skip(1) =~= units@.skip(i as int + 1));
            }
            out.push(c);
            proof {
                let rest1 = units@.skip(i as int + 1);
                assert(out0 + (seq![c] + decode_utf16(rest1)) =~= out0.push(c) + decode_utf16(
                    rest1,
                ));
            }
            i = i + 1;
        } else if u <= 0xDBFF && i + 1 < units.len() && units[i + 1] >= 0xDC00 && units[i + 1]
            <= 0xDFFF {
            let lo = units[i + 1];
            assert(rest.len() >= 2 && rest[1] == lo);
            let scalar = 0x10000 + (((u - 0xD800) as u32) * 0x400) + ((lo - 0xDC00) as u32);
            assert(scalar == surrogate_scalar(u, lo));
            assert(is_scalar(scalar));
            let c = char::from_u32(scalar).unwrap();
            proof {
                char_u32_cast(c, scalar);
                assert(rest.skip(2) =~= units@.skip(i as int + 2));
            }
            out.push(c);
            proof {
                let rest2 = units@.skip(i as int + 2);
                assert(out0 + (seq![c] + decode_utf16(rest2)) =~= out0.push(c) + decode_utf16(
                    rest2,
                ));
            }
            i = i + 2;
        } else {
            assert(!valid_utf16(units@.skip(i as int)));
            return Err(DecodeError::InvalidEncoding);
        }
    }
    assert(units@.skip(i as int) =~= Seq::<u16>::empty());
    Ok(out)
}

/// Round trip: the encoding of any character sequence is well-formed UTF-16
/// and decodes back to the identical sequence.
pub proof fn lemma_utf16_round_trip(chars: Seq<char>)
    ensures
        valid_utf16(encode_utf16(chars)),
        decode_utf16(encode_utf16(chars)) == chars,
    decreases chars.len(),
{
    if chars.len() == 0 {
        assert(encode_utf16(chars) =~= Seq::<u16>::empty());
        assert(decode_utf16(encode_utf16(chars)) =~= chars);
    } else {
        let c = chars[0];
        let u = c as u32;
        let e = encode_utf16(chars);
        let rest = encode_utf16(chars.skip(1));
        lemma_utf16_round_trip(chars.skip(1));
        char_is_scalar(c);
        char_u32_cast(c, u);
        if u < 0x10000 {
            assert(!is_surrogate((u as u16))) by {
                assert(is_scalar(u));
            }
            assert(e =~= seq![u as u16] + rest);
            assert(e.skip(1) =~= rest);
            assert((u as u16) as u32 == u);
            assert(decode_utf16(e) =~= seq![c] + decode_utf16(rest));
            assert(seq![c] + chars.skip(1) =~= chars);
        } else {
            let hi = (0xD800 + (u - 0x10000) / 0x400) as u16;
            let lo = (0xDC00 + (u - 0x10000) % 0x400) as u16;
            assert(u <= 0x10FFFF) by {
                assert(is_scalar(u));
            }
            assert((u - 0x10000) / 0x400 <= 0x3FF) by {
                assert(u - 0x10000 <= 0xFFFFF);
            }
            assert((u - 0x10000) % 0x400 <= 0x3FF);
            assert(is_high_surrogate(hi));
            assert(is_low_surrogate(lo));
            assert(e =~= seq![hi, lo] + rest);
            assert(e.skip(2) =~= rest);
            assert(surrogate_scalar(hi, lo) == u) by {
                vstd::arithmetic::div_mod::lemma_fundamental_div_mod((u - 0x10000) as int, 0x400);
            }
            assert(decode_utf16(e) =~= seq![c] + decode_utf16(rest));
            assert(seq![c] + chars.skip(1) =~= chars);
        }
    }
}

} // verus!
