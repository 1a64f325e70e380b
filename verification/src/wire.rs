//! Byte-level wire primitives: little-endian integers, length-prefixed
//! strings, identifiers, and a cursor that reads them.
//!
//! Every reader method is specified against a `dec_*` spec function over the
//! byte sequence, and every writer helper appends exactly the bytes that the
//! matching spec function describes, so decode-of-encode facts compose.

use vstd::prelude::*;
use vstd::utf8::*;
use vstd::string::StrSliceExecFns;
use crate::save::{Color, Uuid};
use crate::strings::{
    lemma_utf16_round_trip, string_from_utf8, string_from_utf16_units, utf16_decode, utf16_of,
    utf16_units,
};

verus! {

// ----------------------------------------------------------------------
// Little-endian integer layouts.
// ----------------------------------------------------------------------

/// The 16-bit value of two little-endian bytes.
pub open spec fn le_u16(b0: u8, b1: u8) -> u16 {
    (b0 + 256 * b1) as u16
}

/// The 32-bit value of four little-endian bytes.
pub open spec fn le_u32(b0: u8, b1: u8, b2: u8, b3: u8) -> u32 {
    (b0 + 0x100 * b1 + 0x10000 * b2 + 0x1000000 * b3) as u32
}

/// The two little-endian bytes of a 16-bit value.
pub open spec fn u16_le_bytes(v: u16) -> Seq<u8> {
    seq![(v & 0xFF) as u8, ((v >> 8) & 0xFF) as u8]
}

/// The four little-endian bytes of a 32-bit value.
pub open spec fn u32_le_bytes(v: u32) -> Seq<u8> {
    seq![
        (v & 0xFF) as u8,
        ((v >> 8) & 0xFF) as u8,
        ((v >> 16) & 0xFF) as u8,
        ((v >> 24) & 0xFF) as u8,
    ]
}

/// The four little-endian bytes of a signed 32-bit value.
pub open spec fn i32_le_bytes(v: i32) -> Seq<u8> {
    u32_le_bytes(v as u32)
}

/// Reassembling the bytes of a 16-bit value yields the value.
pub proof fn lemma_le_u16_round(v: u16)
    ensures
        le_u16(u16_le_bytes(v)[0], u16_le_bytes(v)[1]) == v,
{
    let b0 = (v & 0xFF) as u8;
    let b1 = ((v >> 8) & 0xFF) as u8;
    assert((b0 + 256 * b1) as u16 == v) by (bit_vector)
        requires
            b0 == (v & 0xFF) as u8 && b1 == ((v >> 8) & 0xFF) as u8,
    ;
}

/// Reassembling the bytes of a 32-bit value yields the value.
pub proof fn lemma_le_u32_round(v: u32)
    ensures
        le_u32(u32_le_bytes(v)[0], u32_le_bytes(v)[1], u32_le_bytes(v)[2], u32_le_bytes(v)[3])
            == v,
{
    let b0 = (v & 0xFF) as u8;
    let b1 = ((v >> 8) & 0xFF) as u8;
    let b2 = ((v >> 16) & 0xFF) as u8;
    let b3 = ((v >> 24) & 0xFF) as u8;
    assert((b0 + 0x100 * b1 + 0x10000 * b2 + 0x1000000 * b3) as u32 == v) by (bit_vector)
        requires
            b0 == (v & 0xFF) as u8 && b1 == ((v >> 8) & 0xFF) as u8 && b2 == ((v >> 16) & 0xFF)
                as u8 && b3 == ((v >> 24) & 0xFF) as u8,
    ;
}

/// Reassembling the bytes of a signed 32-bit value yields the value.
pub proof fn lemma_le_i32_round(v: i32)
    ensures
        le_u32(
            i32_le_bytes(v)[0],
            i32_le_bytes(v)[1],
            i32_le_bytes(v)[2],
            i32_le_bytes(v)[3],
        ) as i32 == v,
{
    lemma_le_u32_round(v as u32);
    assert((v as u32) as i32 == v) by (bit_vector);
}

// ----------------------------------------------------------------------
// Byte-level decode functions.
// ----------------------------------------------------------------------

/// Decodes one byte at `pos`.
pub open spec fn dec_u8_b(bytes: Seq<u8>, pos: int) -> Option<(u8, int)> {
    if 0 <= pos && pos + 1 <= bytes.len() {
        Some((bytes[pos], pos + 1))
    } else {
        None
    }
}

/// Decodes `n` raw bytes at `pos`.
pub open spec fn dec_bytes_b(bytes: Seq<u8>, pos: int, n: int) -> Option<(Seq<u8>, int)> {
    if 0 <= pos && 0 <= n && pos + n <= bytes.len() {
        Some((bytes.subrange(pos, pos + n), pos + n))
    } else {
        None
    }
}

/// Decodes a little-endian 16-bit value at `pos`.
pub open spec fn dec_u16_b(bytes: Seq<u8>, pos: int) -> Option<(u16, int)> {
    if 0 <= pos && pos + 2 <= bytes.len() {
        Some((le_u16(bytes[pos], bytes[pos + 1]), pos + 2))
    } else {
        None
    }
}

/// Decodes a little-endian 32-bit value at `pos`.
pub open spec fn dec_u32_b(bytes: Seq<u8>, pos: int) -> Option<(u32, int)> {
    if 0 <= pos && pos + 4 <= bytes.len() {
        Some((le_u32(bytes[pos], bytes[pos + 1], bytes[pos + 2], bytes[pos + 3]), pos + 4))
    } else {
        None
    }
}

/// Decodes a little-endian signed 32-bit value at `pos`.
pub open spec fn dec_i32_b(bytes: Seq<u8>, pos: int) -> Option<(i32, int)> {
    match dec_u32_b(bytes, pos) {
        Some((v, p)) => Some((v as i32, p)),
        None => None,
    }
}

/// The little-endian bytes of a sequence of 16-bit code units.
pub open spec fn u16s_le_bytes(units: Seq<u16>) -> Seq<u8> {
    Seq::new(
        units.len() * 2,
        |i: int|
            if i % 2 == 0 {
                (units[i / 2] & 0xFF) as u8
            } else {
                ((units[i / 2] >> 8) & 0xFF) as u8
            },
    )
}

/// Decodes `n` little-endian 16-bit code units at `pos`.
pub open spec fn dec_u16s_b(bytes: Seq<u8>, pos: int, n: int) -> Option<(Seq<u16>, int)> {
    if 0 <= pos && 0 <= n && pos + 2 * n <= bytes.len() {
        Some((Seq::new(n as nat, |j: int| le_u16(bytes[pos + 2 * j], bytes[pos + 2 * j + 1])),
            pos + 2 * n))
    } else {
        None
    }
}

/// Decodes a length-prefixed string at `pos`.
///
/// A zero prefix is the empty string; a positive prefix `L` is `L - 1` bytes
/// of UTF-8 then one terminator byte; a negative prefix `L` is `-L` UTF-16LE
/// code units then one terminator byte.
pub open spec fn dec_string_b(bytes: Seq<u8>, pos: int) -> Option<(Seq<char>, int)> {
    match dec_i32_b(bytes, pos) {
        None => None,
        Some((l, p)) => {
            if l == 0 {
                Some((seq![], p))
            } else if l > 0 {
                match dec_bytes_b(bytes, p, l - 1) {
                    None => None,
                    Some((payload, p2)) => match dec_u8_b(bytes, p2) {
                        None => None,
                        Some((_, p3)) => {
                            if valid_utf8(payload) {
                                Some((decode_utf8(payload), p3))
                            } else {
                                None
                            }
                        },
                    },
                }
            } else {
                match dec_u16s_b(bytes, p, -(l as int)) {
                    None => None,
                    Some((units, p2)) => match dec_u8_b(bytes, p2) {
                        None => None,
                        Some((_, p3)) => match utf16_decode(units) {
                            Some(chars) => Some((chars, p3)),
                            None => None,
                        },
                    },
                }
            }
        },
    }
}

/// The wire form of a string: its length prefix, payload and terminator.
///
/// The empty string is the bare prefix 0. A string of ASCII characters is
/// written with prefix `len + 1`, its bytes, and a terminator. Any other
/// string is written with prefix `-(number of UTF-16 code units)`, the
/// little-endian code units, and a terminator.
pub open spec fn str_wire(s: Seq<char>) -> Seq<u8> {
    if s.len() == 0 {
        i32_le_bytes(0)
    } else if is_ascii_chars(s) {
        i32_le_bytes((s.len() + 1) as i32) + encode_utf8(s) + seq![0u8]
    } else {
        i32_le_bytes((-(utf16_of(s).len() as int)) as i32) + u16s_le_bytes(utf16_of(s))
            + seq![0u8]
    }
}

/// Whether a string is small enough for its wire length prefix.
pub open spec fn str_fits(s: Seq<char>) -> bool {
    if is_ascii_chars(s) {
        s.len() + 1 <= 0x7FFF_FFFF
    } else {
        utf16_of(s).len() <= 0x8000_0000
    }
}

/// The UTF-16 encoding of a non-empty string is non-empty.
pub proof fn lemma_utf16_of_len(chars: Seq<char>)
    ensures
        utf16_of(chars).len() >= chars.len(),
    decreases chars.len(),
{
    if chars.len() > 0 {
        lemma_utf16_of_len(chars.drop_first());
    }
}

/// Law: decoding an encoded string, wherever it stands in a buffer, yields
/// the original string and consumes exactly its wire bytes.
pub proof fn lemma_string_round_trip(pre: Seq<u8>, s: Seq<char>, rest: Seq<u8>)
    requires
        str_fits(s),
    ensures
        dec_string_b(pre + str_wire(s) + rest, pre.len() as int) == Some(
            (s, pre.len() + str_wire(s).len() as int),
        ),
{
    broadcast use vstd::utf8::encode_utf8_valid_utf8, vstd::utf8::encode_utf8_decode_utf8, vstd::utf8::is_ascii_chars_encode_utf8;

    let bytes = pre + str_wire(s) + rest;
    let pos = pre.len() as int;
    let w = str_wire(s);
    assert(forall|k: int| 0 <= k < w.len() ==> bytes[pos + k] == w[k]);
    if s.len() == 0 {
        lemma_le_i32_round(0);
        assert(dec_i32_b(bytes, pos) == Some((0i32, pos + 4)));
    } else if is_ascii_chars(s) {
        let n = s.len() as int;
        is_ascii_chars_encode_utf8(s);
        assert(encode_utf8(s).len() == n);
        let l = (n + 1) as i32;
        lemma_le_i32_round(l);
        assert(dec_i32_b(bytes, pos) == Some((l, pos + 4)));
        assert(l > 0);
        assert(bytes.subrange(pos + 4, pos + 4 + n) =~= encode_utf8(s));
        assert(dec_bytes_b(bytes, pos + 4, n) == Some((encode_utf8(s), pos + 4 + n)));
        assert(dec_u8_b(bytes, pos + 4 + n) == Some((w[4 + n], pos + 4 + n + 1)));
        assert(valid_utf8(encode_utf8(s)));
        assert(decode_utf8(encode_utf8(s)) == s);
        assert(w.len() == 4 + n + 1);
    } else {
        let units = utf16_of(s);
        let n = units.len() as int;
        lemma_utf16_of_len(s);
        let l = (-n) as i32;
        lemma_le_i32_round(l);
        assert(dec_i32_b(bytes, pos) == Some((l, pos + 4)));
        assert(l < 0 && -(l as int) == n);
        assert(pos + 4 + 2 * n <= bytes.len());
        let got = Seq::new(n as nat, |j: int| le_u16(bytes[pos + 4 + 2 * j], bytes[pos + 4 + 2
            * j + 1]));
        assert forall|j: int| 0 <= j < n implies got[j] == units[j] by {
            assert(bytes[pos + 4 + 2 * j] == u16s_le_bytes(units)[2 * j]);
            assert(bytes[pos + 4 + 2 * j + 1] == u16s_le_bytes(units)[2 * j + 1]);
            assert((2 * j) % 2 == 0 && (2 * j) / 2 == j && (2 * j + 1) % 2 == 1 && (2 * j + 1)
                / 2 == j);
            lemma_le_u16_round(units[j]);
        }
        assert(got =~= units);
        assert(dec_u16s_b(bytes, pos + 4, n) == Some((units, pos + 4 + 2 * n)));
        assert(dec_u8_b(bytes, pos + 4 + 2 * n) == Some((w[4 + 2 * n], pos + 4 + 2 * n + 1)));
        lemma_utf16_round_trip(s);
        assert(w.len() == 4 + 2 * n + 1);
    }
}

// ----------------------------------------------------------------------
// Identifier layout.
// ----------------------------------------------------------------------

/// The wire bytes of an identifier: each four-byte word of the canonical
/// bytes is reversed, so that reading words little-endian and re-serialising
/// them big-endian yields the canonical order.
pub open spec fn uuid_wire(canonical: Seq<u8>) -> Seq<u8>
    recommends
        canonical.len() == 16,
{
    seq![
        canonical[3],
        canonical[2],
        canonical[1],
        canonical[0],
        canonical[7],
        canonical[6],
        canonical[5],
        canonical[4],
        canonical[11],
        canonical[10],
        canonical[9],
        canonical[8],
        canonical[15],
        canonical[14],
        canonical[13],
        canonical[12],
    ]
}

/// Decodes an identifier at `pos`.
pub open spec fn dec_uuid_b(bytes: Seq<u8>, pos: int) -> Option<(Seq<u8>, int)> {
    if 0 <= pos && pos + 16 <= bytes.len() {
        Some((uuid_wire(bytes.subrange(pos, pos + 16)), pos + 16))
    } else {
        None
    }
}

/// Law: the word-reversal layout is an involution, so an identifier written
/// and read back is unchanged.
pub proof fn lemma_uuid_round_trip(canonical: Seq<u8>)
    requires
        canonical.len() == 16,
    ensures
        uuid_wire(uuid_wire(canonical)) == canonical,
{
    assert(uuid_wire(uuid_wire(canonical)) =~= canonical);
}

// ----------------------------------------------------------------------
// Writers: helpers that append wire forms to a byte buffer.
// ----------------------------------------------------------------------

/// Appends one byte.
pub fn put_u8(out: &mut Vec<u8>, v: u8)
    ensures
        final(out)@ == old(out)@ + seq![v],
{
    out.push(v);
    assert(out@ =~= old(out)@ + seq![v]);
}

/// Appends a 16-bit value, little-endian.
pub fn put_u16_le(out: &mut Vec<u8>, v: u16)
    ensures
        final(out)@ == old(out)@ + u16_le_bytes(v),
{
    out.push((v & 0xFF) as u8);
    out.push(((v >> 8) & 0xFF) as u8);
    assert(out@ =~= old(out)@ + u16_le_bytes(v));
}

/// Appends a 32-bit value, little-endian.
pub fn put_u32_le(out: &mut Vec<u8>, v: u32)
    ensures
        final(out)@ == old(out)@ + u32_le_bytes(v),
{
    out.push((v & 0xFF) as u8);
    out.push(((v >> 8) & 0xFF) as u8);
    out.push(((v >> 16) & 0xFF) as u8);
    out.push(((v >> 24) & 0xFF) as u8);
    assert(out@ =~= old(out)@ + u32_le_bytes(v));
}

/// Appends a signed 32-bit value, little-endian.
pub fn put_i32_le(out: &mut Vec<u8>, v: i32)
    ensures
        final(out)@ == old(out)@ + i32_le_bytes(v),
{
    put_u32_le(out, v as u32);
}

/// Appends raw bytes.
pub fn put_bytes(out: &mut Vec<u8>, data: &Vec<u8>)
    ensures
        final(out)@ == old(out)@ + data@,
{
    let n = data.len();
    let mut k: usize = 0;
    while k < n
        invariant
            k <= n,
            n == data@.len(),
            out@ == old(out)@ + data@.take(k as int),
        decreases n - k,
    {
        out.push(data[k]);
        assert(out@ =~= old(out)@ + data@.take(k + 1));
        k = k + 1;
    }
    assert(data@.take(n as int) =~= data@);
}

/// Appends an identifier in its wire layout.
pub fn put_uuid(out: &mut Vec<u8>, id: &Uuid)
    ensures
        final(out)@ == old(out)@ + uuid_wire(id.bytes@),
{
    let b = &id.bytes;
    out.push(b[3]);
    out.push(b[2]);
    out.push(b[1]);
    out.push(b[0]);
    out.push(b[7]);
    out.push(b[6]);
    out.push(b[5]);
    out.push(b[4]);
    out.push(b[11]);
    out.push(b[10]);
    out.push(b[9]);
    out.push(b[8]);
    out.push(b[15]);
    out.push(b[14]);
    out.push(b[13]);
    out.push(b[12]);
    assert(out@ =~= old(out)@ + uuid_wire(id.bytes@));
}

/// Appends a string in its wire form; fails (appending nothing) exactly when
/// the string is too long for its length prefix.
pub fn put_string(out: &mut Vec<u8>, s: &str) -> (ok: bool)
    ensures
        ok <==> str_fits(s@),
        ok ==> final(out)@ == old(out)@ + str_wire(s@),
        !ok ==> final(out)@ == old(out)@,
{
    if s.is_empty() {
        put_i32_le(out, 0);
        return true;
    }
    if s.is_ascii() {
        let bytes = s.as_bytes_vec();
        proof {
            vstd::utf8::is_ascii_chars_encode_utf8(s@);
        }
        if bytes.len() >= 0x7FFF_FFFF {
            return false;
        }
        let l = (bytes.len() + 1) as i32;
        put_i32_le(out, l);
        put_bytes(out, &bytes);
        put_u8(out, 0);
        assert(out@ =~= old(out)@ + str_wire(s@));
        true
    } else {
        let units = utf16_units(s);
        if units.len() > 0x8000_0000usize {
            return false;
        }
        let l = (-(units.len() as i64)) as i32;
        proof {
            assert(l as int == -(units@.len() as int));
        }
        put_i32_le(out, l);
        let ghost base = out@;
        let n = units.len();
        let mut j: usize = 0;
        while j < n
            invariant
                j <= n,
                n == units@.len(),
                out@ == base + u16s_le_bytes(units@.take(j as int)),
            decreases n - j,
        {
            put_u16_le(out, units[j]);
            assert(out@ =~= base + u16s_le_bytes(units@.take(j + 1)));
            j = j + 1;
        }
        assert(units@.take(n as int) =~= units@);
        put_u8(out, 0);
        assert(out@ =~= old(out)@ + str_wire(s@));
        true
    }
}

// ----------------------------------------------------------------------
// The reading cursor.
// ----------------------------------------------------------------------

/// A cursor over an owned byte buffer.
pub struct ByteCursor {
    bytes: Vec<u8>,
    pos: usize,
}

impl ByteCursor {
    /// The bytes the cursor reads.
    pub closed spec fn data(&self) -> Seq<u8> {
        self.bytes@
    }

    /// The current read position.
    pub closed spec fn position(&self) -> int {
        self.pos as int
    }

    /// The cursor is well formed: its position lies within its buffer.
    pub closed spec fn wf(&self) -> bool {
        self.pos <= self.bytes@.len() && self.bytes@.len() <= usize::MAX as int
    }

    /// Builds a cursor at the start of a buffer.
    pub fn new(bytes: Vec<u8>) -> (r: ByteCursor)
        ensures
            r.data() == bytes@,
            r.position() == 0,
            r.wf(),
    {
        let n = bytes.len();
        proof {
            assert(bytes@.len() == n as int);
        }
        ByteCursor { bytes, pos: 0 }
    }

    /// How many bytes remain unread.
    pub fn remaining(&self) -> (r: usize)
        requires
            self.wf(),
        ensures
            r == self.data().len() - self.position(),
    {
        self.bytes.len() - self.pos
    }

    /// Advances past `n` bytes without copying them; fails (not moving) when
    /// fewer than `n` bytes remain.
    pub fn skip(&mut self, n: usize) -> (r: bool)
        requires
            old(self).wf(),
        ensures
            final(self).wf(),
            final(self).data() == old(self).data(),
            r <==> old(self).position() + n <= old(self).data().len(),
            r ==> final(self).position() == old(self).position() + n,
            !r ==> final(self).position() == old(self).position(),
    {
        if n <= self.bytes.len() - self.pos {
            self.pos = self.pos + n;
            true
        } else {
            false
        }
    }

    /// Advances past up to `n` bytes, stopping at the end of the buffer.
    pub fn skip_clamped(&mut self, n: u64)
        requires
            old(self).wf(),
        ensures
            final(self).wf(),
            final(self).data() == old(self).data(),
            final(self).position() == (if old(self).position() + n <= old(self).data().len() {
                old(self).position() + n
            } else {
                old(self).data().len() as int
            }),
    {
        let rem = self.bytes.len() - self.pos;
        if n <= rem as u64 {
            self.pos = self.pos + (n as usize);
        } else {
            self.pos = self.bytes.len();
        }
    }

    /// Reads one byte.
    pub fn read_u8(&mut self) -> (r: Option<u8>)
        requires
            old(self).wf(),
        ensures
            final(self).wf(),
            final(self).data() == old(self).data(),
            match dec_u8_b(old(self).data(), old(self).position()) {
                Some((v, p)) => r == Some(v) && final(self).position() == p,
                None => r is None && final(self).position() == old(self).position(),
            },
    {
        if self.pos < self.bytes.len() {
            let v = self.bytes[self.pos];
            self.pos = self.pos + 1;
            Some(v)
        } else {
            None
        }
    }

    /// Reads `n` raw bytes.
    pub fn read_bytes(&mut self, n: usize) -> (r: Option<Vec<u8>>)
        requires
            old(self).wf(),
        ensures
            final(self).wf(),
            final(self).data() == old(self).data(),
            match dec_bytes_b(old(self).data(), old(self).position(), n as int) {
                Some((v, p)) => r matches Some(out) && out@ == v && final(self).position() == p,
                None => r is None && final(self).position() == old(self).position(),
            },
    {
        if n <= self.bytes.len() - self.pos {
            let mut out: Vec<u8> = Vec::new();
            let mut k: usize = 0;
            while k < n
                invariant
                    k <= n,
                    self.wf(),
                    self.pos + n <= self.bytes@.len(),
                    out@ == self.bytes@.subrange(self.pos as int, self.pos + k),
                decreases n - k,
            {
                out.push(self.bytes[self.pos + k]);
                assert(out@ =~= self.bytes@.subrange(self.pos as int, self.pos + k + 1));
                k = k + 1;
            }
            self.pos = self.pos + n;
            Some(out)
        } else {
            None
        }
    }

    /// Reads a little-endian 16-bit value.
    pub fn read_u16(&mut self) -> (r: Option<u16>)
        requires
            old(self).wf(),
        ensures
            final(self).wf(),
            final(self).data() == old(self).data(),
            match dec_u16_b(old(self).data(), old(self).position()) {
                Some((v, p)) => r == Some(v) && final(self).position() == p,
                None => r is None && final(self).position() == old(self).position(),
            },
    {
        if 2 <= self.bytes.len() - self.pos {
            let b0 = self.bytes[self.pos];
            let b1 = self.bytes[self.pos + 1];
            self.pos = self.pos + 2;
            Some(b0 as u16 + 256 * (b1 as u16))
        } else {
            None
        }
    }

    /// Reads a little-endian 32-bit value.
    pub fn read_u32(&mut self) -> (r: Option<u32>)
        requires
            old(self).wf(),
        ensures
            final(self).wf(),
            final(self).data() == old(self).data(),
            match dec_u32_b(old(self).data(), old(self).position()) {
                Some((v, p)) => r == Some(v) && final(self).position() == p,
                None => r is None && final(self).position() == old(self).position(),
            },
    {
        if 4 <= self.bytes.len() - self.pos {
            let b0 = self.bytes[self.pos] as u32;
            let b1 = self.bytes[self.pos + 1] as u32;
            let b2 = self.bytes[self.pos + 2] as u32;
            let b3 = self.bytes[self.pos + 3] as u32;
            self.pos = self.pos + 4;
            Some(b0 + 0x100 * b1 + 0x10000 * b2 + 0x1000000 * b3)
        } else {
            None
        }
    }

    /// Reads a little-endian signed 32-bit value.
    pub fn read_i32(&mut self) -> (r: Option<i32>)
        requires
            old(self).wf(),
        ensures
            final(self).wf(),
            final(self).data() == old(self).data(),
            match dec_i32_b(old(self).data(), old(self).position()) {
                Some((v, p)) => r == Some(v) && final(self).position() == p,
                None => r is None && final(self).position() == old(self).position(),
            },
    {
        match self.read_u32() {
            Some(v) => Some(v as i32),
            None => None,
        }
    }

    /// Reads an identifier.
    pub fn read_uuid(&mut self) -> (r: Option<Uuid>)
        requires
            old(self).wf(),
        ensures
            final(self).wf(),
            final(self).data() == old(self).data(),
            match dec_uuid_b(old(self).data(), old(self).position()) {
                Some((v, p)) => r matches Some(u) && u.bytes@ == v && final(self).position()
                    == p,
                None => r is None && final(self).position() == old(self).position(),
            },
    {
        match self.read_bytes(16) {
            Some(w) => {
                let b = [
                    w[3],
                    w[2],
                    w[1],
                    w[0],
                    w[7],
                    w[6],
                    w[5],
                    w[4],
                    w[11],
                    w[10],
                    w[9],
                    w[8],
                    w[15],
                    w[14],
                    w[13],
                    w[12],
                ];
                let u = Uuid { bytes: b };
                proof {
                    let sub = old(self).data().subrange(
                        old(self).position(),
                        old(self).position() + 16,
                    );
                    assert(u.bytes@ =~= uuid_wire(sub));
                }
                Some(u)
            },
            None => None,
        }
    }

    /// Reads a length-prefixed string.
    pub fn read_string(&mut self) -> (r: Option<String>)
        requires
            old(self).wf(),
        ensures
            final(self).wf(),
            final(self).data() == old(self).data(),
            match dec_string_b(old(self).data(), old(self).position()) {
                Some((v, p)) => r matches Some(s) && s@ == v && final(self).position() == p,
                None => r is None,
            },
    {
        let l = match self.read_i32() {
            Some(l) => l,
            None => {
                return None;
            },
        };
        if l == 0 {
            Some(String::new())
        } else if l > 0 {
            let payload = match self.read_bytes((l - 1) as usize) {
                Some(p) => p,
                None => {
                    return None;
                },
            };
            match self.read_u8() {
                Some(_) => {},
                None => {
                    return None;
                },
            }
            string_from_utf8(payload)
        } else {
            let n = (-(l as i64)) as usize;
            proof {
                assert(n as int == -(l as int)) by (bit_vector)
                    requires
                        l < 0 && n == (-(l as i64)) as usize,
                ;
            }
            let units = match self.read_u16s(n) {
                Some(u) => u,
                None => {
                    return None;
                },
            };
            match self.read_u8() {
                Some(_) => {},
                None => {
                    return None;
                },
            }
            string_from_utf16_units(&units)
        }
    }

    /// Reads `n` little-endian 16-bit code units.
    pub fn read_u16s(&mut self, n: usize) -> (r: Option<Vec<u16>>)
        requires
            old(self).wf(),
        ensures
            final(self).wf(),
            final(self).data() == old(self).data(),
            match dec_u16s_b(old(self).data(), old(self).position(), n as int) {
                Some((v, p)) => r matches Some(out) && out@ == v && final(self).position() == p,
                None => r is None && final(self).position() == old(self).position(),
            },
    {
        if n <= (self.bytes.len() - self.pos) / 2 {
            let ghost target = dec_u16s_b(self.bytes@, self.pos as int, n as int).unwrap().0;
            let mut out: Vec<u16> = Vec::new();
            let mut j: usize = 0;
            while j < n
                invariant
                    j <= n,
                    self.wf(),
                    self.pos + 2 * n <= self.bytes@.len(),
                    target == dec_u16s_b(self.bytes@, self.pos as int, n as int).unwrap().0,
                    dec_u16s_b(self.bytes@, self.pos as int, n as int) is Some,
                    out@ == target.take(j as int),
                decreases n - j,
            {
                let b0 = self.bytes[self.pos + 2 * j];
                let b1 = self.bytes[self.pos + 2 * j + 1];
                out.push(b0 as u16 + 256 * (b1 as u16));
                assert(out@ =~= target.take(j + 1));
                j = j + 1;
            }
            assert(target.take(n as int) =~= target);
            self.pos = self.pos + 2 * n;
            Some(out)
        } else {
            None
        }
    }
}

} // verus!
