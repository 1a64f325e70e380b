//! String value codecs: conversions between `String` values and the plain
//! byte and code-unit sequences that the wire carries.
//!
//! UTF-8 is modelled by `vstd::utf8`; UTF-16 is modelled here, with a verified
//! transcoder between the two.

use vstd::prelude::*;
use vstd::utf8::*;

verus! {

/// The UTF-16 code units of one Unicode scalar value.
pub open spec fn utf16_of_scalar(u: u32) -> Seq<u16>
    recommends
        is_scalar(u),
{
    if u < 0x10000 {
        seq![u as u16]
    } else {
        seq![
            (0xD800 + (((u - 0x10000) as u32) >> 10)) as u16,
            (0xDC00 + (((u - 0x10000) as u32) & 0x3FF)) as u16,
        ]
    }
}

/// The UTF-16 code units of a character sequence.
pub open spec fn utf16_of(chars: Seq<char>) -> Seq<u16>
    decreases chars.len(),
{
    if chars.len() == 0 {
        seq![]
    } else {
        utf16_of_scalar(chars[0] as u32) + utf16_of(chars.drop_first())
    }
}

/// Whether a code unit is a high (leading) surrogate.
pub open spec fn is_high_surrogate(u: u16) -> bool {
    0xD800 <= u < 0xDC00
}

/// Whether a code unit is a low (trailing) surrogate.
pub open spec fn is_low_surrogate(u: u16) -> bool {
    0xDC00 <= u < 0xE000
}

/// The scalar value a surrogate pair denotes.
pub open spec fn scalar_of_pair(hi: u16, lo: u16) -> u32
    recommends
        is_high_surrogate(hi),
        is_low_surrogate(lo),
{
    (0x10000 + (((hi - 0xD800) as u32) << 10u32) + ((lo - 0xDC00) as u32)) as u32
}

/// The characters a UTF-16 code-unit sequence encodes, or `None` if the
/// sequence is ill-formed (an unpaired surrogate).
pub open spec fn utf16_decode(units: Seq<u16>) -> Option<Seq<char>>
    decreases units.len(),
{
    if units.len() == 0 {
        Some(seq![])
    } else if is_high_surrogate(units[0]) {
        if units.len() >= 2 && is_low_surrogate(units[1]) {
            match utf16_decode(units.skip(2)) {
                Some(rest) => Some(seq![scalar_of_pair(units[0], units[1]) as char] + rest),
                None => None,
            }
        } else {
            None
        }
    } else if is_low_surrogate(units[0]) {
        None
    } else {
        match utf16_decode(units.drop_first()) {
            Some(rest) => Some(seq![(units[0] as u32) as char] + rest),
            None => None,
        }
    }
}

/// Law: decoding the UTF-16 encoding of any character sequence yields that
/// sequence back.
pub proof fn lemma_utf16_round_trip(chars: Seq<char>)
    ensures
        utf16_decode(utf16_of(chars)) == Some(chars),
    decreases chars.len(),
{
    if chars.len() == 0 {
        assert(utf16_of(chars) =~= Seq::<u16>::empty());
    } else {
        let c = chars[0];
        let u = c as u32;
        char_is_scalar(c);
        char_u32_cast(c, u);
        let rest = chars.drop_first();
        lemma_utf16_round_trip(rest);
        let units = utf16_of(chars);
        if u < 0x10000 {
            let unit = u as u16;
            assert(unit as u32 == u && !is_high_surrogate(unit) && !is_low_surrogate(unit))
                by (bit_vector)
                requires
                    u < 0x10000 && !(0xD800 <= u <= 0xDFFF) && unit == u as u16,
            ;
            assert(units =~= seq![unit] + utf16_of(rest));
            assert(units.drop_first() =~= utf16_of(rest));
            assert(seq![c] + rest =~= chars);
        } else {
            let hi = (0xD800 + (((u - 0x10000) as u32) >> 10)) as u16;
            let lo = (0xDC00 + (((u - 0x10000) as u32) & 0x3FF)) as u16;
            assert(is_high_surrogate(hi) && is_low_surrogate(lo) && scalar_of_pair(hi, lo) == u)
                by (bit_vector)
                requires
                    0x10000 <= u <= 0x10FFFF && hi == (0xD800 + (((u - 0x10000) as u32) >> 10))
                        as u16 && lo == (0xDC00 + (((u - 0x10000) as u32) & 0x3FF)) as u16,
            ;
            assert(units =~= seq![hi, lo] + utf16_of(rest));
            assert(units.skip(2) =~= utf16_of(rest));
            assert(seq![c] + rest =~= chars);
        }
    }
}

/// UTF-16 encoding distributes over appending one character.
pub proof fn lemma_utf16_of_snoc(chars: Seq<char>, c: char)
    ensures
        utf16_of(chars.push(c)) == utf16_of(chars) + utf16_of_scalar(c as u32),
    decreases chars.len(),
{
    if chars.len() == 0 {
        assert(chars.push(c)[0] == c);
        assert(chars =~= Seq::<char>::empty());
        assert(chars.push(c).drop_first() =~= Seq::<char>::empty());
        assert(utf16_of(Seq::<char>::empty()) =~= Seq::<u16>::empty());
        assert(utf16_of(chars.push(c)) =~= utf16_of(chars) + utf16_of_scalar(c as u32));
    } else {
        lemma_utf16_of_snoc(chars.drop_first(), c);
        assert(chars.push(c)[0] == chars[0]);
        assert(chars.push(c).drop_first() =~= chars.drop_first().push(c));
        assert(utf16_of(chars.push(c)) == utf16_of_scalar(chars[0] as u32) + (utf16_of(
            chars.drop_first(),
        ) + utf16_of_scalar(c as u32)));
        assert(utf16_of(chars.push(c)) =~= utf16_of(chars) + utf16_of_scalar(c as u32));
    }
}

/// UTF-8 encoding distributes over appending one character.
pub proof fn lemma_encode_utf8_snoc(chars: Seq<char>, c: char)
    ensures
        encode_utf8(chars.push(c)) == encode_utf8(chars) + encode_scalar(c as u32),
    decreases chars.len(),
{
    if chars.len() == 0 {
        assert(chars.push(c)[0] == c);
        assert(chars =~= Seq::<char>::empty());
        assert(chars.push(c).drop_first() =~= Seq::<char>::empty());
        assert(encode_utf8(Seq::<char>::empty()) =~= Seq::<u8>::empty());
        assert(encode_utf8(chars.push(c)) =~= encode_utf8(chars) + encode_scalar(c as u32));
    } else {
        lemma_encode_utf8_snoc(chars.drop_first(), c);
        assert(chars.push(c)[0] == chars[0]);
        assert(chars.push(c).drop_first() =~= chars.drop_first().push(c));
        assert(encode_utf8(chars.push(c)) == encode_scalar(chars[0] as u32) + (encode_utf8(
            chars.drop_first(),
        ) + encode_scalar(c as u32)));
        assert(encode_utf8(chars.push(c)) =~= encode_utf8(chars) + encode_scalar(c as u32));
    }
}

/// Relies on `String::from_utf8`: it succeeds exactly on well-formed UTF-8
/// input, and then yields the string those bytes encode.
#[verifier::external_body]
pub(crate) fn string_from_utf8(bytes: Vec<u8>) -> (r: Option<String>)
    ensures
        r is Some <==> valid_utf8(bytes@),
        r matches Some(s) ==> s@ == decode_utf8(bytes@),
{
    match String::from_utf8(bytes) {
        Ok(s) => Some(s),
        Err(_) => None,
    }
}

/// Appends the UTF-8 encoding of one scalar value.
fn push_scalar_utf8(out: &mut Vec<u8>, u: u32)
    requires
        is_scalar(u),
    ensures
        final(out)@ == old(out)@ + encode_scalar(u),
{
    if u <= 0x7F {
        out.push((u & 0x7F) as u8);
    } else if u <= 0x7FF {
        out.push(0xC0 | ((u >> 6) & 0x1F) as u8);
        out.push(0x80 | (u & 0x3F) as u8);
    } else if u <= 0xFFFF {
        out.push(0xE0 | ((u >> 12) & 0x0F) as u8);
        out.push(0x80 | ((u >> 6) & 0x3F) as u8);
        out.push(0x80 | (u & 0x3F) as u8);
    } else {
        out.push(0xF0 | ((u >> 18) & 0x7) as u8);
        out.push(0x80 | ((u >> 12) & 0x3F) as u8);
        out.push(0x80 | ((u >> 6) & 0x3F) as u8);
        out.push(0x80 | (u & 0x3F) as u8);
    }
    assert(out@ =~= old(out)@ + encode_scalar(u));
}

/// Converts a string to its UTF-16 code units.
pub fn utf16_units(s: &str) -> (r: Vec<u16>)
    ensures
        r@ == utf16_of(s@),
{
    let n = s.unicode_len();
    let mut out: Vec<u16> = Vec::new();
    let mut i: usize = 0;
    while i < n
        invariant
            i <= n,
            n == s@.len(),
            out@ == utf16_of(s@.take(i as int)),
        decreases n - i,
    {
        let c = s.get_char(i);
        let u = c as u32;
        proof {
            char_is_scalar(c);
            lemma_utf16_of_snoc(s@.take(i as int), c);
            assert(s@.take(i + 1) =~= s@.take(i as int).push(c));
        }
        if u < 0x10000 {
            out.push(u as u16);
            assert(out@ =~= utf16_of(s@.take(i + 1)));
        } else {
            proof {
                assert(0xD800 + (((u - 0x10000) as u32) >> 10) < 0x10000 && 0xDC00 + (((u
                    - 0x10000) as u32) & 0x3FF) < 0x10000) by (bit_vector)
                    requires
                        0x10000 <= u <= 0x10FFFF,
                ;
            }
            out.push((0xD800 + ((u - 0x10000) >> 10)) as u16);
            out.push((0xDC00 + ((u - 0x10000) & 0x3FF)) as u16);
            assert(out@ =~= utf16_of(s@.take(i + 1)));
        }
        i = i + 1;
    }
    proof {
        assert(s@.take(n as int) =~= s@);
    }
    out
}

/// Builds the string whose UTF-16 encoding is the given code units; `None`
/// exactly when the units are ill-formed.
pub fn string_from_utf16_units(units: &Vec<u16>) -> (r: Option<String>)
    ensures
        r is Some <==> utf16_decode(units@) is Some,
        r matches Some(s) ==> Some(s@) == utf16_decode(units@),
{
    broadcast use vstd::utf8::encode_utf8_valid_utf8, vstd::utf8::encode_utf8_decode_utf8;

    let n = units.len();
    let mut bytes: Vec<u8> = Vec::new();
    let ghost mut chars: Seq<char> = seq![];
    let mut i: usize = 0;
    proof {
        assert(units@.skip(0) =~= units@);
        match utf16_decode(units@) {
            Some(all) => {
                assert(chars + all =~= all);
            },
            None => {},
        }
    }
    while i < n
        invariant
            i <= n,
            n == units@.len(),
            bytes@ == encode_utf8(chars),
            utf16_decode(units@) == (match utf16_decode(units@.skip(i as int)) {
                Some(rest) => Some(chars + rest),
                None => None::<Seq<char>>,
            }),
        decreases n - i,
    {
        let u0 = units[i];
        if 0xD800 <= u0 && u0 < 0xDC00 {
            if i + 1 >= n {
                proof {
                    assert(units@.skip(i as int).len() < 2);
                    assert(utf16_decode(units@.skip(i as int)) is None);
                }
                return None;
            }
            let u1 = units[i + 1];
            if !(0xDC00 <= u1 && u1 < 0xE000) {
                proof {
                    assert(units@.skip(i as int)[1] == u1);
                    assert(utf16_decode(units@.skip(i as int)) is None);
                }
                return None;
            }
            proof {
                assert(((u0 - 0xD800) as u32) << 10u32 <= 0xFFC00) by (bit_vector)
                    requires
                        0xD800 <= u0 < 0xDC00,
                ;
            }
            let scalar = 0x10000 + (((u0 - 0xD800) as u32) << 10u32) + ((u1 - 0xDC00) as u32);
            proof {
                assert(is_scalar(scalar) && scalar == scalar_of_pair(u0, u1)) by (bit_vector)
                    requires
                        0xD800 <= u0 < 0xDC00 && 0xDC00 <= u1 < 0xE000 && scalar == (0x10000 + ((
                        (u0 - 0xD800) as u32) << 10u32) + ((u1 - 0xDC00) as u32)) as u32,
                ;
            }
            let ghost c = scalar as char;
            proof {
                lemma_encode_utf8_snoc(chars, c);
                assert(units@.skip(i as int)[0] == u0 && units@.skip(i as int)[1] == u1);
                assert(units@.skip(i as int).skip(2) =~= units@.skip(i + 2));
                assert((c as u32) == scalar);
            }
            push_scalar_utf8(&mut bytes, scalar);
            proof {
                let oldchars = chars;
                chars = chars.push(c);
                assert(oldchars + seq![c] =~= chars);
                assert(bytes@ == encode_utf8(chars));
                match utf16_decode(units@.skip(i + 2)) {
                    Some(rest) => {
                        assert(oldchars + (seq![c] + rest) =~= chars + rest);
                    },
                    None => {},
                }
            }
            i = i + 2;
        } else if 0xDC00 <= u0 && u0 < 0xE000 {
            proof {
                assert(units@.skip(i as int)[0] == u0);
                assert(utf16_decode(units@.skip(i as int)) is None);
            }
            return None;
        } else {
            let scalar = u0 as u32;
            proof {
                assert(is_scalar(scalar)) by (bit_vector)
                    requires
                        scalar == u0 as u32 && !(0xD800 <= u0 < 0xDC00) && !(0xDC00 <= u0
                            < 0xE000),
                ;
            }
            let ghost c = scalar as char;
            proof {
                lemma_encode_utf8_snoc(chars, c);
                assert(units@.skip(i as int)[0] == u0);
                assert(units@.skip(i as int).drop_first() =~= units@.skip(i + 1));
                assert((c as u32) == scalar);
            }
            push_scalar_utf8(&mut bytes, scalar);
            proof {
                let oldchars = chars;
                chars = chars.push(c);
                assert(oldchars + seq![c] =~= chars);
                assert(bytes@ == encode_utf8(chars));
                match utf16_decode(units@.skip(i + 1)) {
                    Some(rest) => {
                        assert(oldchars + (seq![c] + rest) =~= chars + rest);
                    },
                    None => {},
                }
            }
            i = i + 1;
        }
    }
    proof {
        assert(units@.skip(n as int) =~= Seq::<u16>::empty());
        assert(chars + seq![] =~= chars);
        assert(utf16_decode(units@) == Some(chars));
    }
    let r = string_from_utf8(bytes);
    proof {
        assert(valid_utf8(encode_utf8(chars)));
        assert(decode_utf8(encode_utf8(chars)) == chars);
    }
    r
}

} // verus!
