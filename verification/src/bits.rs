//! Bit-stream primitives: reading and writing bit sequences that are packed
//! LSB-first into bytes, as the brick and component sections use them.
//!
//! A bit stream is modelled as a `Seq<bool>`. The cursor reads against
//! `dec_*` spec functions over that sequence; the sink appends exactly the
//! bits that the matching `enc_*` forms describe.

use vstd::prelude::*;
use vstd::arithmetic::power2::pow2;
use crate::wire::{i32_le_bytes, le_u16, le_u32, lemma_le_i32_round, lemma_le_u16_round,
    lemma_utf16_of_len, str_fits, str_wire, u16s_le_bytes};
use crate::strings::{lemma_utf16_round_trip, string_from_utf8, string_from_utf16_units,
    utf16_decode, utf16_of};
use vstd::utf8::{decode_utf8, encode_utf8, is_ascii_chars, is_ascii_chars_encode_utf8, valid_utf8};

verus! {

// ----------------------------------------------------------------------
// The bit model.
// ----------------------------------------------------------------------

/// Bit `i` of a byte, LSB first.
pub open spec fn bit_of_byte(b: u8, i: int) -> bool
    recommends
        0 <= i < 8,
{
    (b >> (i as u8)) & 1 == 1
}

/// The eight bits of a byte, LSB first.
pub open spec fn byte_bits(b: u8) -> Seq<bool> {
    Seq::new(8, |i: int| bit_of_byte(b, i))
}

/// The bits of a byte sequence, each byte LSB first.
pub open spec fn stream_bits(bytes: Seq<u8>) -> Seq<bool> {
    Seq::new(bytes.len() * 8, |i: int| bit_of_byte(bytes[i / 8], i % 8))
}

/// The value of a bit sequence read LSB first.
pub open spec fn bits_val(s: Seq<bool>) -> nat
    decreases s.len(),
{
    if s.len() == 0 {
        0
    } else {
        (if s[0] {
            1nat
        } else {
            0nat
        }) + 2 * bits_val(s.drop_first())
    }
}

/// Appending a bit adds its place value.
pub proof fn lemma_bits_val_snoc(s: Seq<bool>, b: bool)
    ensures
        bits_val(s.push(b)) == bits_val(s) + (if b {
            pow2(s.len())
        } else {
            0
        }),
    decreases s.len(),
{
    if s.len() == 0 {
        assert(s.push(b)[0] == b);
        assert(s.push(b).drop_first() =~= Seq::<bool>::empty());
        assert(bits_val(Seq::<bool>::empty()) == 0);
        assert(pow2(0) == 1) by {
            vstd::arithmetic::power2::lemma2_to64();
        }
    } else {
        vstd::arithmetic::power2::lemma_pow2_unfold(s.len());
        lemma_bits_val_snoc(s.drop_first(), b);
        assert(s.push(b)[0] == s[0]);
        assert(s.push(b).drop_first() =~= s.drop_first().push(b));
    }
}

/// A bit sequence's value is below the place value just past its end.
pub proof fn lemma_bits_val_bound(s: Seq<bool>)
    ensures
        bits_val(s) < pow2(s.len()),
    decreases s.len(),
{
    if s.len() == 0 {
        assert(pow2(0) == 1) by {
            vstd::arithmetic::power2::lemma2_to64();
        }
    } else {
        lemma_bits_val_bound(s.drop_first());
        vstd::arithmetic::power2::lemma_pow2_unfold(s.len());
    }
}

/// The value of a byte's bits is the byte.
pub proof fn lemma_bits_val_byte(b: u8)
    ensures
        bits_val(byte_bits(b)) == b,
{
    let s0 = Seq::<bool>::empty();
    let s1 = s0.push(bit_of_byte(b, 0));
    let s2 = s1.push(bit_of_byte(b, 1));
    let s3 = s2.push(bit_of_byte(b, 2));
    let s4 = s3.push(bit_of_byte(b, 3));
    let s5 = s4.push(bit_of_byte(b, 4));
    let s6 = s5.push(bit_of_byte(b, 5));
    let s7 = s6.push(bit_of_byte(b, 6));
    let s8 = s7.push(bit_of_byte(b, 7));
    assert(byte_bits(b) =~= s8);
    lemma_bits_val_snoc(s0, bit_of_byte(b, 0));
    lemma_bits_val_snoc(s1, bit_of_byte(b, 1));
    lemma_bits_val_snoc(s2, bit_of_byte(b, 2));
    lemma_bits_val_snoc(s3, bit_of_byte(b, 3));
    lemma_bits_val_snoc(s4, bit_of_byte(b, 4));
    lemma_bits_val_snoc(s5, bit_of_byte(b, 5));
    lemma_bits_val_snoc(s6, bit_of_byte(b, 6));
    lemma_bits_val_snoc(s7, bit_of_byte(b, 7));
    vstd::arithmetic::power2::lemma2_to64();
    let c0: nat = if bit_of_byte(b, 0) {
        1
    } else {
        0
    };
    let c1: nat = if bit_of_byte(b, 1) {
        2
    } else {
        0
    };
    let c2: nat = if bit_of_byte(b, 2) {
        4
    } else {
        0
    };
    let c3: nat = if bit_of_byte(b, 3) {
        8
    } else {
        0
    };
    let c4: nat = if bit_of_byte(b, 4) {
        16
    } else {
        0
    };
    let c5: nat = if bit_of_byte(b, 5) {
        32
    } else {
        0
    };
    let c6: nat = if bit_of_byte(b, 6) {
        64
    } else {
        0
    };
    let c7: nat = if bit_of_byte(b, 7) {
        128
    } else {
        0
    };
    assert(bits_val(s8) == c0 + c1 + c2 + c3 + c4 + c5 + c6 + c7);
    assert((if (b >> 0u8) & 1 == 1 {
        1u8 as nat
    } else {
        0
    }) + (if (b >> 1u8) & 1 == 1 {
        2u8 as nat
    } else {
        0
    }) + (if (b >> 2u8) & 1 == 1 {
        4u8 as nat
    } else {
        0
    }) + (if (b >> 3u8) & 1 == 1 {
        8u8 as nat
    } else {
        0
    }) + (if (b >> 4u8) & 1 == 1 {
        16u8 as nat
    } else {
        0
    }) + (if (b >> 5u8) & 1 == 1 {
        32u8 as nat
    } else {
        0
    }) + (if (b >> 6u8) & 1 == 1 {
        64u8 as nat
    } else {
        0
    }) + (if (b >> 7u8) & 1 == 1 {
        128u8 as nat
    } else {
        0
    }) == b) by (bit_vector);
}

/// Bits of a one-byte sequence are the byte's bits.
pub proof fn lemma_stream_bits_single(b: u8)
    ensures
        stream_bits(seq![b]) == byte_bits(b),
{
    assert(stream_bits(seq![b]) =~= byte_bits(b));
}

/// Bits of concatenated byte sequences are the concatenated bits.
pub proof fn lemma_stream_bits_concat(a: Seq<u8>, b: Seq<u8>)
    ensures
        stream_bits(a + b) == stream_bits(a) + stream_bits(b),
{
    let lhs = stream_bits(a + b);
    let rhs = stream_bits(a) + stream_bits(b);
    assert(lhs.len() == rhs.len());
    assert forall|i: int| 0 <= i < lhs.len() implies lhs[i] == rhs[i] by {
        if i < a.len() * 8 {
            assert(i / 8 < a.len() && 0 <= i / 8) by (nonlinear_arith)
                requires
                    0 <= i < a.len() * 8,
            ;
            assert((a + b)[i / 8] == a[i / 8]);
        } else {
            let j = i - a.len() * 8;
            assert(i / 8 == a.len() + j / 8 && i % 8 == j % 8) by (nonlinear_arith)
                requires
                    i == a.len() * 8 + j && 0 <= j,
            ;
            assert((a + b)[i / 8] == b[j / 8]);
        }
    }
    assert(lhs =~= rhs);
}

/// Appending one byte appends its bits.
pub proof fn lemma_stream_bits_push(bytes: Seq<u8>, b: u8)
    ensures
        stream_bits(bytes.push(b)) == stream_bits(bytes) + byte_bits(b),
{
    assert(bytes.push(b) =~= bytes + seq![b]);
    lemma_stream_bits_concat(bytes, seq![b]);
    lemma_stream_bits_single(b);
}

/// A whole byte of the stream, extracted as bits.
pub proof fn lemma_stream_bits_byte_at(bytes: Seq<u8>, k: int)
    requires
        0 <= k < bytes.len(),
    ensures
        stream_bits(bytes).subrange(8 * k, 8 * k + 8) == byte_bits(bytes[k]),
{
    let sub = stream_bits(bytes).subrange(8 * k, 8 * k + 8);
    assert forall|i: int| 0 <= i < 8 implies sub[i] == byte_bits(bytes[k])[i] by {
        assert((8 * k + i) / 8 == k && (8 * k + i) % 8 == i) by (nonlinear_arith)
            requires
                0 <= i < 8 && 0 <= k,
        ;
    }
    assert(sub =~= byte_bits(bytes[k]));
}

// ----------------------------------------------------------------------
// Bit-level decode functions.
// ----------------------------------------------------------------------

/// Decodes one bit at `pos`.
pub open spec fn dec_bit(bits: Seq<bool>, pos: int) -> Option<(bool, int)> {
    if 0 <= pos && pos + 1 <= bits.len() {
        Some((bits[pos], pos + 1))
    } else {
        None
    }
}

/// Decodes `n` bytes at bit position `pos`, each byte LSB first.
pub open spec fn dec_bytes_bits(bits: Seq<bool>, pos: int, n: int) -> Option<(Seq<u8>, int)> {
    if 0 <= pos && 0 <= n && pos + 8 * n <= bits.len() {
        Some((Seq::new(n as nat, |k: int| bits_val(bits.subrange(pos + 8 * k, pos + 8 * k + 8))
            as u8), pos + 8 * n))
    } else {
        None
    }
}

/// Decodes one byte at bit position `pos`.
pub open spec fn dec_u8_bits(bits: Seq<bool>, pos: int) -> Option<(u8, int)> {
    match dec_bytes_bits(bits, pos, 1) {
        Some((w, p)) => Some((w[0], p)),
        None => None,
    }
}

/// Decodes a little-endian 32-bit value at bit position `pos`.
pub open spec fn dec_u32_bits(bits: Seq<bool>, pos: int) -> Option<(u32, int)> {
    match dec_bytes_bits(bits, pos, 4) {
        Some((w, p)) => Some((le_u32(w[0], w[1], w[2], w[3]), p)),
        None => None,
    }
}

/// Decodes a little-endian signed 32-bit value at bit position `pos`.
pub open spec fn dec_i32_bits(bits: Seq<bool>, pos: int) -> Option<(i32, int)> {
    match dec_u32_bits(bits, pos) {
        Some((v, p)) => Some((v as i32, p)),
        None => None,
    }
}

/// The 16-bit code units packed little-endian in a byte sequence.
pub open spec fn units_of_bytes(w: Seq<u8>, n: int) -> Seq<u16> {
    Seq::new(
        n as nat,
        |j: int| le_u16(w[2 * j], w[2 * j + 1]),
    )
}

/// Decodes `n` little-endian 16-bit code units at bit position `pos`.
pub open spec fn dec_u16s_bits(bits: Seq<bool>, pos: int, n: int) -> Option<(Seq<u16>, int)> {
    match dec_bytes_bits(bits, pos, 2 * n) {
        Some((w, p)) => Some((units_of_bytes(w, n), p)),
        None => None,
    }
}

/// The next byte-aligned bit position at or after `pos`.
pub open spec fn align8(pos: int) -> int {
    ((pos + 7) / 8) * 8
}

// ----------------------------------------------------------------------
// The reading cursor.
// ----------------------------------------------------------------------

/// A cursor that reads a byte buffer bit by bit, LSB first in each byte.
pub struct BitCursor {
    bytes: Vec<u8>,
    pos: u64,
}

impl BitCursor {
    /// The bit stream the cursor reads.
    pub closed spec fn bits(&self) -> Seq<bool> {
        stream_bits(self.bytes@)
    }

    /// The current bit position.
    pub closed spec fn position(&self) -> int {
        self.pos as int
    }

    /// The cursor is well formed: its position lies within the stream, whose
    /// byte length fits a 32-bit size field.
    pub closed spec fn wf(&self) -> bool {
        self.pos <= self.bytes@.len() * 8 && self.bytes@.len() <= 0x7FFF_FFFF
    }

    /// Builds a cursor at the start of a buffer.
    pub fn new(bytes: Vec<u8>) -> (r: BitCursor)
        requires
            bytes@.len() <= 0x7FFF_FFFF,
        ensures
            r.bits() == stream_bits(bytes@),
            r.position() == 0,
            r.wf(),
    {
        BitCursor { bytes, pos: 0 }
    }

    /// A well-formed cursor's position lies within its stream.
    pub proof fn lemma_wf_bounds(&self)
        requires
            self.wf(),
        ensures
            0 <= self.position() <= self.bits().len(),
    {
        assert(self.bits().len() == self.bytes@.len() * 8);
    }

    /// Whether the cursor stands at the end of the stream.
    pub fn at_end(&self) -> (r: bool)
        requires
            self.wf(),
        ensures
            r == (self.position() == self.bits().len()),
    {
        proof {
            assert(self.bytes@.len() * 8 == self.bits().len());
        }
        self.pos >= (self.bytes.len() as u64) * 8
    }

    /// Reads one bit.
    pub fn read_bit(&mut self) -> (r: Option<bool>)
        requires
            old(self).wf(),
        ensures
            final(self).wf(),
            final(self).bits() == old(self).bits(),
            match dec_bit(old(self).bits(), old(self).position()) {
                Some((v, p)) => r == Some(v) && final(self).position() == p,
                None => r is None && final(self).position() == old(self).position(),
            },
    {
        proof {
            assert(self.bytes@.len() * 8 == self.bits().len());
        }
        if self.pos < (self.bytes.len() as u64) * 8 {
            proof {
                assert(self.pos as int / 8 < self.bytes@.len()) by (nonlinear_arith)
                    requires
                        self.pos < self.bytes@.len() * 8 && 0 <= self.pos,
                ;
            }
            let byte = self.bytes[(self.pos / 8) as usize];
            let k = (self.pos % 8) as u8;
            let b = (byte >> k) & 1 == 1;
            proof {
                assert(self.bits()[self.pos as int] == bit_of_byte(
                    self.bytes@[self.pos as int / 8],
                    self.pos as int % 8,
                ));
            }
            self.pos = self.pos + 1;
            Some(b)
        } else {
            None
        }
    }

    /// Reads one byte, bit by bit.
    pub fn read_u8(&mut self) -> (r: Option<u8>)
        requires
            old(self).wf(),
        ensures
            final(self).wf(),
            final(self).bits() == old(self).bits(),
            match dec_u8_bits(old(self).bits(), old(self).position()) {
                Some((v, p)) => r == Some(v) && final(self).position() == p,
                None => r is None,
            },
    {
        proof {
            assert(self.bytes@.len() * 8 == self.bits().len());
        }
        if 8 <= (self.bytes.len() as u64) * 8 - self.pos {
            let ghost bits = self.bits();
            let ghost pos0 = self.position();
            let mut v: u8 = 0;
            let mut k: usize = 0;
            proof {
                vstd::arithmetic::power2::lemma2_to64();
                assert(bits.subrange(pos0, pos0) =~= Seq::<bool>::empty());
            }
            while k < 8
                invariant
                    k <= 8,
                    self.wf(),
                    self.bits() == bits,
                    0 <= pos0,
                    pos0 + 8 <= bits.len(),
                    self.position() == pos0 + k,
                    v == bits_val(bits.subrange(pos0, pos0 + k)),
                    v < pow2(k as nat),
                decreases 8 - k,
            {
                let b = match self.read_bit() {
                    Some(b) => b,
                    None => {
                        proof {
                            assert(false);
                        }
                        false
                    },
                };
                let kb = k as u8;
                proof {
                    assert(dec_bit(bits, pos0 + k) is Some);
                    assert(b == bits[pos0 + k]);
                    lemma_bits_val_snoc(bits.subrange(pos0, pos0 + k), b);
                    let su = bits.subrange(pos0, pos0 + k).push(b);
                    let sv = bits.subrange(pos0, pos0 + k + 1);
                    assert(su.len() == k + 1 && sv.len() == k + 1);
                    assert forall|i: int| 0 <= i < k + 1 implies su[i] == sv[i] by {
                        if i < k {
                            assert(su[i] == bits[pos0 + i]);
                        } else {
                            assert(su[i] == b);
                        }
                        assert(sv[i] == bits[pos0 + i]);
                    }
                    assert(su =~= sv);
                    vstd::arithmetic::power2::lemma2_to64();
                    vstd::arithmetic::power2::lemma_pow2_unfold((k + 1) as nat);
                    vstd::arithmetic::power2::lemma_pow2_strictly_increases(k as nat, 8);
                    vstd::bits::lemma_u8_shl_is_mul(1u8, kb);
                    assert(v | (1u8 << kb) == v + (1u8 << kb)) by (bit_vector)
                        requires
                            v < (1u8 << kb) && kb < 8,
                    ;
                }
                if b {
                    v = v | (1u8 << kb);
                }
                k = k + 1;
            }
            proof {
                lemma_bits_val_bound(bits.subrange(pos0, pos0 + 8));
                assert(pow2(8) == 256) by {
                    vstd::arithmetic::power2::lemma2_to64();
                }
                let w = dec_bytes_bits(bits, pos0, 1).unwrap().0;
                assert(w[0] == bits_val(bits.subrange(pos0 + 8 * 0, pos0 + 8 * 0 + 8)) as u8);
                assert(bits.subrange(pos0 + 8 * 0, pos0 + 8 * 0 + 8) =~= bits.subrange(
                    pos0,
                    pos0 + 8,
                ));
            }
            Some(v)
        } else {
            None
        }
    }

    /// Reads `n` bytes, bit by bit.
    pub fn read_bytes(&mut self, n: usize) -> (r: Option<Vec<u8>>)
        requires
            old(self).wf(),
        ensures
            final(self).wf(),
            final(self).bits() == old(self).bits(),
            match dec_bytes_bits(old(self).bits(), old(self).position(), n as int) {
                Some((v, p)) => r matches Some(out) && out@ == v && final(self).position() == p,
                None => r is None,
            },
    {
        proof {
            assert(self.bytes@.len() * 8 == self.bits().len());
        }
        if (n as u64) <= ((self.bytes.len() as u64) * 8 - self.pos) / 8 {
            let ghost bits = self.bits();
            let ghost pos0 = self.position();
            let ghost target = dec_bytes_bits(bits, pos0, n as int).unwrap().0;
            let mut out: Vec<u8> = Vec::new();
            let mut k: usize = 0;
            while k < n
                invariant
                    k <= n,
                    self.wf(),
                    self.bits() == bits,
                    pos0 + 8 * n <= bits.len(),
                    self.position() == pos0 + 8 * k,
                    dec_bytes_bits(bits, pos0, n as int) is Some,
                    target == dec_bytes_bits(bits, pos0, n as int).unwrap().0,
                    out@ == target.take(k as int),
                decreases n - k,
            {
                let b = match self.read_u8() {
                    Some(b) => b,
                    None => {
                        proof {
                            assert(false);
                        }
                        0
                    },
                };
                proof {
                    assert(target[k as int] == bits_val(bits.subrange(pos0 + 8 * (k as int),
                        pos0 + 8 * (k as int) + 8)) as u8);
                }
                out.push(b);
                assert(out@ =~= target.take(k + 1));
                k = k + 1;
            }
            assert(target.take(n as int) =~= target);
            Some(out)
        } else {
            None
        }
    }

    /// Reads a little-endian 32-bit value, bit by bit.
    pub fn read_u32_le(&mut self) -> (r: Option<u32>)
        requires
            old(self).wf(),
        ensures
            final(self).wf(),
            final(self).bits() == old(self).bits(),
            match dec_u32_bits(old(self).bits(), old(self).position()) {
                Some((v, p)) => r == Some(v) && final(self).position() == p,
                None => r is None,
            },
    {
        match self.read_bytes(4) {
            Some(w) => Some(
                w[0] as u32 + 0x100 * (w[1] as u32) + 0x10000 * (w[2] as u32) + 0x1000000 * (
                w[3] as u32),
            ),
            None => None,
        }
    }

    /// Reads a little-endian signed 32-bit value, bit by bit.
    pub fn read_i32_le(&mut self) -> (r: Option<i32>)
        requires
            old(self).wf(),
        ensures
            final(self).wf(),
            final(self).bits() == old(self).bits(),
            match dec_i32_bits(old(self).bits(), old(self).position()) {
                Some((v, p)) => r == Some(v) && final(self).position() == p,
                None => r is None,
            },
    {
        match self.read_u32_le() {
            Some(v) => Some(v as i32),
            None => None,
        }
    }

    /// Reads the next seven bits as a value, LSB first.
    fn read_bits7(&mut self) -> (r: Option<u8>)
        requires
            old(self).wf(),
        ensures
            final(self).wf(),
            final(self).bits() == old(self).bits(),
            old(self).position() + 7 <= old(self).bits().len() ==> r == Some(
                bits_val(
                    old(self).bits().subrange(old(self).position(), old(self).position() + 7),
                ) as u8,
            ) && final(self).position() == old(self).position() + 7,
            old(self).position() + 7 > old(self).bits().len() ==> r is None,
    {
        proof {
            assert(self.bytes@.len() * 8 == self.bits().len());
        }
        if 7 <= (self.bytes.len() as u64) * 8 - self.pos {
            let ghost bits = self.bits();
            let ghost pos0 = self.position();
            let mut v: u8 = 0;
            let mut k: usize = 0;
            proof {
                vstd::arithmetic::power2::lemma2_to64();
                assert(bits.subrange(pos0, pos0) =~= Seq::<bool>::empty());
            }
            while k < 7
                invariant
                    k <= 7,
                    self.wf(),
                    self.bits() == bits,
                    0 <= pos0,
                    pos0 + 7 <= bits.len(),
                    self.position() == pos0 + k,
                    v == bits_val(bits.subrange(pos0, pos0 + k)),
                    v < pow2(k as nat),
                decreases 7 - k,
            {
                let b = match self.read_bit() {
                    Some(b) => b,
                    None => {
                        proof {
                            assert(false);
                        }
                        false
                    },
                };
                let kb = k as u8;
                proof {
                    assert(b == bits[pos0 + k]);
                    lemma_bits_val_snoc(bits.subrange(pos0, pos0 + k), b);
                    let su = bits.subrange(pos0, pos0 + k).push(b);
                    let sv = bits.subrange(pos0, pos0 + k + 1);
                    assert forall|i: int| 0 <= i < k + 1 implies su[i] == sv[i] by {
                        if i < k {
                            assert(su[i] == bits[pos0 + i]);
                        } else {
                            assert(su[i] == b);
                        }
                        assert(sv[i] == bits[pos0 + i]);
                    }
                    assert(su =~= sv);
                    vstd::arithmetic::power2::lemma2_to64();
                    vstd::arithmetic::power2::lemma_pow2_unfold((k + 1) as nat);
                    vstd::arithmetic::power2::lemma_pow2_strictly_increases(k as nat, 8);
                    vstd::bits::lemma_u8_shl_is_mul(1u8, kb);
                    assert(v | (1u8 << kb) == v + (1u8 << kb)) by (bit_vector)
                        requires
                            v < (1u8 << kb) && kb < 8,
                    ;
                }
                if b {
                    v = v | (1u8 << kb);
                }
                k = k + 1;
            }
            Some(v)
        } else {
            None
        }
    }

    /// Reads a variable-width unsigned value with width bound `max`.
    pub fn read_uint(&mut self, max: u32) -> (r: Option<u32>)
        requires
            old(self).wf(),
        ensures
            final(self).wf(),
            final(self).bits() == old(self).bits(),
            match dec_uint(old(self).bits(), old(self).position(), max) {
                Some((v, p)) => r == Some(v) && final(self).position() == p,
                None => r is None,
            },
    {
        let ghost bits = self.bits();
        let ghost pos0 = self.position();
        let mut value: u32 = 0;
        let mut i: u32 = 0;
        while i < 32
            invariant_except_break
                i <= 32,
                self.wf(),
                self.bits() == bits,
                bits == old(self).bits(),
                pos0 == old(self).position(),
                dec_uint_rec(bits, pos0, max, 0, 0) == dec_uint_rec(
                    bits,
                    self.position(),
                    max,
                    value,
                    i as nat,
                ),
            ensures
                dec_uint_rec(bits, pos0, max, 0, 0) == Some((value, self.position())),
                self.wf(),
                self.bits() == bits,
            decreases 32 - i,
        {
            proof {
                assert((1u64 << i) <= 0x1_0000_0000u64) by (bit_vector)
                    requires
                        i < 32,
                ;
            }
            let mask = 1u64 << i;
            if (value as u64) + mask >= (max as u64) {
                break;
            }
            let b = match self.read_bit() {
                Some(b) => b,
                None => {
                    return None;
                },
            };
            if b {
                value = value | (1u32 << i);
            }
            i = i + 1;
        }
        Some(value)
    }

    /// Reads a packed unsigned value.
    #[verifier::loop_isolation(false)]
    pub fn read_uint_packed(&mut self) -> (r: Option<u32>)
        requires
            old(self).wf(),
        ensures
            final(self).wf(),
            final(self).bits() == old(self).bits(),
            match dec_uint_packed(old(self).bits(), old(self).position()) {
                Some((v, p)) => r == Some(v) && final(self).position() == p,
                None => r is None,
            },
    {
        let ghost bits = self.bits();
        let ghost pos0 = self.position();
        let mut value: u32 = 0;
        let mut i: u32 = 0;
        let mut done = false;
        while !done && i < 5
            invariant
                i <= 5,
                self.wf(),
                self.bits() == bits,
                bits == old(self).bits(),
                pos0 == old(self).position(),
                !done ==> dec_uint_packed_rec(bits, pos0, 0, 0) == dec_uint_packed_rec(
                    bits,
                    self.position(),
                    value,
                    i as nat,
                ),
                done ==> dec_uint_packed_rec(bits, pos0, 0, 0) == Some(
                    (value, self.position()),
                ),
            decreases 5 - i, (if done { 0int } else { 1int }),
        {
            let ghost posa = self.position();
            let ghost va = value;
            let has_next = match self.read_bit() {
                Some(b) => b,
                None => {
                    return None;
                },
            };
            let part = match self.read_bits7() {
                Some(p) => p,
                None => {
                    return None;
                },
            };
            proof {
                lemma_bits_val_bound(bits.subrange(posa + 1, posa + 8));
                assert(pow2(7) == 128) by {
                    vstd::arithmetic::power2::lemma2_to64();
                }
                assert(part as u32 == bits_val(bits.subrange(posa + 1, posa + 8)) as u32);
            }
            value = value | ((part as u32) << (7 * i));
            proof {
                assert(dec_uint_packed_rec(bits, posa, va, i as nat) == (if has_next {
                    dec_uint_packed_rec(bits, posa + 8, value, (i + 1) as nat)
                } else {
                    Some((value, posa + 8))
                }));
            }
            if !has_next {
                done = true;
            } else {
                i = i + 1;
            }
        }
        proof {
            if !done {
                assert(dec_uint_packed_rec(bits, self.position(), value, 5) == Some(
                    (value, self.position()),
                ));
            }
        }
        Some(value)
    }

    /// Reads a packed signed value.
    pub fn read_int_packed(&mut self) -> (r: Option<i32>)
        requires
            old(self).wf(),
        ensures
            final(self).wf(),
            final(self).bits() == old(self).bits(),
            match dec_int_packed(old(self).bits(), old(self).position()) {
                Some((v, p)) => r == Some(v) && final(self).position() == p,
                None => r is None,
            },
    {
        match self.read_uint_packed() {
            Some(u) => {
                if u & 1 != 0 {
                    Some((u >> 1) as i32)
                } else {
                    proof {
                        assert((u >> 1u32) <= 0x7FFF_FFFF) by (bit_vector);
                    }
                    Some(0i32 - ((u >> 1) as i32))
                }
            },
            None => None,
        }
    }

    /// Reads a length-prefixed string, bit by bit.
    #[verifier::loop_isolation(false)]
    pub fn read_string(&mut self) -> (r: Option<String>)
        requires
            old(self).wf(),
        ensures
            final(self).wf(),
            final(self).bits() == old(self).bits(),
            match dec_string_bits(old(self).bits(), old(self).position()) {
                Some((v, p)) => r matches Some(s) && s@ == v && final(self).position() == p,
                None => r is None,
            },
    {
        let l = match self.read_i32_le() {
            Some(l) => l,
            None => {
                return None;
            },
        };
        if l == 0 {
            Some(String::new())
        } else if l > 0 {
            let payload = match self.read_bytes((l - 1) as usize) {
                Some(p) => p,
                None => {
                    return None;
                },
            };
            match self.read_bytes(1) {
                Some(_) => {},
                None => {
                    return None;
                },
            }
            string_from_utf8(payload)
        } else {
            let n = (-(l as i64)) as usize;
            proof {
                assert(n as int == -(l as int)) by (bit_vector)
                    requires
                        l < 0 && n == (-(l as i64)) as usize,
                ;
            }
            proof {
                assert(self.bytes@.len() * 8 == self.bits().len());
            }
            let rem = (self.bytes.len() as u64) * 8 - self.pos;
            if (n as u64) > rem / 16 {
                proof {
                    assert(self.position() + 8 * (2 * (n as int)) > self.bits().len());
                }
                return None;
            }
            let w = match self.read_bytes(2 * n) {
                Some(w) => w,
                None => {
                    return None;
                },
            };
            let ghost target = units_of_bytes(w@, n as int);
            let mut units: Vec<u16> = Vec::new();
            let mut j: usize = 0;
            while j < n
                invariant
                    j <= n,
                    w@.len() == 2 * n,
                    target == units_of_bytes(w@, n as int),
                    units@ == target.take(j as int),
                decreases n - j,
            {
                let b0 = w[2 * j];
                let b1 = w[2 * j + 1];
                units.push(b0 as u16 + 256 * (b1 as u16));
                assert(units@ =~= target.take(j + 1));
                j = j + 1;
            }
            assert(target.take(n as int) =~= target);
            match self.read_bytes(1) {
                Some(_) => {},
                None => {
                    return None;
                },
            }
            string_from_utf16_units(&units)
        }
    }

    /// Advances to the next byte boundary.
    pub fn byte_align(&mut self)
        requires
            old(self).wf(),
        ensures
            final(self).wf(),
            final(self).bits() == old(self).bits(),
            final(self).position() == align8(old(self).position()),
    {
        let rem = self.pos % 8;
        if rem != 0 {
            proof {
                assert(self.bytes@.len() * 8 % 8 == 0) by (nonlinear_arith);
                assert(self.pos + (8 - rem) <= self.bytes@.len() * 8 && (self.pos + (8 - rem))
                    as int == align8(self.pos as int)) by (nonlinear_arith)
                    requires
                        rem == self.pos % 8 && rem != 0 && self.pos <= self.bytes@.len() * 8,
                ;
            }
            self.pos = self.pos + (8 - rem);
        } else {
            proof {
                assert(align8(self.pos as int) == self.pos as int) by (nonlinear_arith)
                    requires
                        self.pos % 8 == 0,
                ;
            }
        }
    }
}

// ----------------------------------------------------------------------
// The writing sink.
// ----------------------------------------------------------------------

/// A sink that packs written bits LSB-first into bytes.
pub struct BitSink {
    bytes: Vec<u8>,
    cur: u8,
    n: u8,
}

impl BitSink {
    /// The bits written so far.
    pub closed spec fn bits(&self) -> Seq<bool> {
        stream_bits(self.bytes@) + byte_bits(self.cur).take(self.n as int)
    }

    /// The sink is well formed: a partial byte holds fewer than eight bits,
    /// all above its fill level zero.
    pub closed spec fn wf(&self) -> bool {
        self.n < 8 && (self.cur as nat) < pow2(self.n as nat)
    }

    /// Builds an empty sink.
    pub fn new() -> (r: BitSink)
        ensures
            r.wf(),
            r.bits() == Seq::<bool>::empty(),
    {
        let r = BitSink { bytes: Vec::new(), cur: 0, n: 0 };
        proof {
            vstd::arithmetic::power2::lemma2_to64();
            assert(r.bits() =~= Seq::<bool>::empty());
        }
        r
    }

    /// Appends one bit.
    pub fn write_bit(&mut self, b: bool)
        requires
            old(self).wf(),
        ensures
            final(self).wf(),
            final(self).bits() == old(self).bits().push(b),
    {
        let oc = self.cur;
        let on = self.n;
        proof {
            vstd::arithmetic::power2::lemma2_to64();
            vstd::arithmetic::power2::lemma_pow2_strictly_increases(on as nat, 8);
            vstd::bits::lemma_u8_shl_is_mul(1u8, on);
            vstd::arithmetic::power2::lemma_pow2_unfold((on + 1) as nat);
        }
        let cur2 = if b {
            proof {
                assert(oc | (1u8 << on) == oc + (1u8 << on)) by (bit_vector)
                    requires
                        oc < (1u8 << on) && on < 8,
                ;
            }
            oc | (1u8 << on)
        } else {
            oc
        };
        if self.n == 7 {
            let ghost oldbits = self.bits();
            self.bytes.push(cur2);
            self.cur = 0;
            self.n = 0;
            proof {
                lemma_stream_bits_push(old(self).bytes@, cur2);
                assert forall|i: int| 0 <= i < 8 implies #[trigger] byte_bits(cur2)[i]
                    == oldbits.push(b)[old(self).bytes@.len() * 8 + i] by {
                    let iu = i as u8;
                    if i < 7 {
                        assert((cur2 >> iu) & 1 == (oc >> iu) & 1) by (bit_vector)
                            requires
                                iu < 7 && on == 7 && oc < (1u8 << on) && (cur2 == oc || cur2
                                    == oc | (1u8 << on)),
                        ;
                        assert(bit_of_byte(cur2, i) == bit_of_byte(oc, i));
                    } else {
                        assert(((cur2 >> 7u8) & 1 == 1) == (cur2 != oc)) by (bit_vector)
                            requires
                                on == 7 && oc < (1u8 << on) && (cur2 == oc || cur2 == oc | (1u8
                                    << on)),
                        ;
                        assert(bit_of_byte(cur2, 7) == (cur2 != oc));
                    }
                }
                assert(self.bits() =~= oldbits.push(b));
            }
        } else {
            let ghost oldbits = self.bits();
            self.cur = cur2;
            self.n = self.n + 1;
            proof {
                assert forall|i: int| 0 <= i <= on implies #[trigger] byte_bits(cur2)[i]
                    == oldbits.push(b)[old(self).bytes@.len() * 8 + i] by {
                    let iu = i as u8;
                    if i < on {
                        assert((cur2 >> iu) & 1 == (oc >> iu) & 1) by (bit_vector)
                            requires
                                iu < on && on < 8 && oc < (1u8 << on) && (cur2 == oc || cur2
                                    == oc | (1u8 << on)),
                        ;
                        assert(bit_of_byte(cur2, i) == bit_of_byte(oc, i));
                    } else {
                        assert(((cur2 >> on) & 1 == 1) == (cur2 != oc)) by (bit_vector)
                            requires
                                on < 8 && oc < (1u8 << on) && (cur2 == oc || cur2 == oc | (1u8
                                    << on)),
                        ;
                        assert(bit_of_byte(cur2, on as int) == (cur2 != oc));
                    }
                }
                assert(self.bits() =~= oldbits.push(b));
            }
        }
    }

    /// Appends one byte, LSB first.
    pub fn write_u8(&mut self, v: u8)
        requires
            old(self).wf(),
        ensures
            final(self).wf(),
            final(self).bits() == old(self).bits() + byte_bits(v),
    {
        let ghost base = self.bits();
        let mut k: u8 = 0;
        while k < 8
            invariant
                k <= 8,
                self.wf(),
                self.bits() == base + byte_bits(v).take(k as int),
            decreases 8 - k,
        {
            self.write_bit((v >> k) & 1 == 1);
            assert(self.bits() =~= base + byte_bits(v).take(k + 1));
            k = k + 1;
        }
        assert(byte_bits(v).take(8) =~= byte_bits(v));
    }

    /// Appends raw bytes, each LSB first.
    pub fn write_bytes(&mut self, data: &Vec<u8>)
        requires
            old(self).wf(),
        ensures
            final(self).wf(),
            final(self).bits() == old(self).bits() + stream_bits(data@),
    {
        let ghost base = self.bits();
        let n = data.len();
        let mut k: usize = 0;
        proof {
            assert(stream_bits(data@.take(0)) =~= Seq::<bool>::empty());
            assert(base + stream_bits(data@.take(0)) =~= base);
        }
        while k < n
            invariant
                k <= n,
                n == data@.len(),
                self.wf(),
                self.bits() == base + stream_bits(data@.take(k as int)),
            decreases n - k,
        {
            self.write_u8(data[k]);
            proof {
                lemma_stream_bits_push(data@.take(k as int), data@[k as int]);
                assert(data@.take(k as int).push(data@[k as int]) =~= data@.take(k + 1));
                assert(self.bits() =~= base + stream_bits(data@.take(k + 1)));
            }
            k = k + 1;
        }
        assert(data@.take(n as int) =~= data@);
    }

    /// Appends a little-endian signed 32-bit value, bit by bit.
    pub fn write_i32_le(&mut self, v: i32)
        requires
            old(self).wf(),
        ensures
            final(self).wf(),
            final(self).bits() == old(self).bits() + stream_bits(i32_le_bytes(v)),
    {
        let mut tmp: Vec<u8> = Vec::new();
        crate::wire::put_i32_le(&mut tmp, v);
        proof {
            assert(tmp@ =~= i32_le_bytes(v));
        }
        self.write_bytes(&tmp);
    }

    /// Appends a string in its wire form, bit by bit; fails (appending
    /// nothing) exactly when the string is too long for its length prefix.
    pub fn write_string(&mut self, s: &str) -> (ok: bool)
        requires
            old(self).wf(),
        ensures
            final(self).wf(),
            ok <==> str_fits(s@),
            ok ==> final(self).bits() == old(self).bits() + stream_bits(str_wire(s@)),
            !ok ==> final(self).bits() == old(self).bits(),
    {
        let mut tmp: Vec<u8> = Vec::new();
        let ok = crate::wire::put_string(&mut tmp, s);
        if ok {
            proof {
                assert(tmp@ =~= str_wire(s@));
            }
            self.write_bytes(&tmp);
            true
        } else {
            false
        }
    }

    /// Writes a value below `max` variable-width; `max` may be as small as 1.
    pub(crate) fn write_uint_w(&mut self, v: u32, max: u32)
        requires
            old(self).wf(),
            v < max,
        ensures
            final(self).wf(),
            final(self).bits() == old(self).bits() + enc_uint(v, max),
    {
        let ghost base = self.bits();
        let ghost mut prefix: Seq<bool> = seq![];
        let mut nv: u32 = 0;
        let mut i: u32 = 0;
        proof {
            assert(low_bits32(v, 0) == 0) by (bit_vector);
            assert(base + prefix =~= base);
            assert(prefix + enc_uint_rec(v, max, 0) =~= enc_uint_rec(v, max, 0));
        }
        while i < 32
            invariant_except_break
                i <= 32,
                self.wf(),
                self.bits() == base + prefix,
                nv == low_bits32(v, i as nat),
                enc_uint(v, max) == prefix + enc_uint_rec(v, max, i as nat),
                v < max,
            ensures
                self.wf(),
                self.bits() == base + enc_uint(v, max),
            decreases 32 - i,
        {
            proof {
                assert((1u64 << i) <= 0x1_0000_0000u64) by (bit_vector)
                    requires
                        i < 32,
                ;
            }
            let mask = 1u64 << i;
            if (nv as u64) + mask >= (max as u64) {
                proof {
                    assert(enc_uint_rec(v, max, i as nat) =~= Seq::<bool>::empty());
                    assert(prefix + Seq::<bool>::empty() =~= prefix);
                }
                break;
            }
            let b = (v >> i) & 1 == 1;
            self.write_bit(b);
            proof {
                assert(enc_uint_rec(v, max, i as nat) == seq![b] + enc_uint_rec(
                    v,
                    max,
                    (i + 1) as nat,
                ));
                let oldprefix = prefix;
                prefix = prefix.push(b);
                assert(oldprefix + (seq![b] + enc_uint_rec(v, max, (i + 1) as nat)) =~= prefix
                    + enc_uint_rec(v, max, (i + 1) as nat));
                assert(base + oldprefix + seq![b] =~= base + prefix);
                let iu = i as u64;
                let low2 = low_bits32(v, (i + 1) as nat);
                let nv2 = if b {
                    nv | (1u32 << i)
                } else {
                    nv
                };
                assert(nv2 == low2) by (bit_vector)
                    requires
                        iu < 32 && nv == v & (((1u64 << iu) - 1) as u32) && low2 == v & (((1u64
                            << (iu + 1)) - 1) as u32) && nv2 == (if (v >> (iu as u32)) & 1 == 1 {
                            nv | (1u32 << (iu as u32))
                        } else {
                            nv
                        }),
                ;
            }
            if b {
                nv = nv | (1u32 << i);
            }
            i = i + 1;
        }
        proof {
            if i == 32 {
                assert(enc_uint_rec(v, max, 32) =~= Seq::<bool>::empty());
            }
        }
    }

    /// Writes a value variable-width with width bound `max`; fails (writing
    /// nothing) exactly when the value is not below `max`.
    pub fn write_uint(&mut self, v: u32, max: u32) -> (ok: bool)
        requires
            old(self).wf(),
            max >= 2,
        ensures
            final(self).wf(),
            ok <==> v < max,
            ok ==> final(self).bits() == old(self).bits() + enc_uint(v, max),
            !ok ==> final(self).bits() == old(self).bits(),
    {
        if v >= max {
            return false;
        }
        self.write_uint_w(v, max);
        true
    }

    /// Writes a packed unsigned value.
    pub fn write_uint_packed(&mut self, v: u32)
        requires
            old(self).wf(),
        ensures
            final(self).wf(),
            final(self).bits() == old(self).bits() + enc_uint_packed(v),
    {
        let ghost base = self.bits();
        let ghost mut prefix: Seq<bool> = seq![];
        let ghost mut g: nat = 0;
        let mut rem = v;
        proof {
            assert(v >> 0u32 == v) by (bit_vector);
            assert(base + prefix =~= base);
            assert(prefix + enc_uint_packed_rec(v, 5) =~= enc_uint_packed_rec(v, 5));
        }
        loop
            invariant_except_break
                self.wf(),
                g <= 4,
                rem == v >> ((7 * g) as u32),
                self.bits() == base + prefix,
                enc_uint_packed(v) == prefix + enc_uint_packed_rec(rem, (5 - g) as nat),
            ensures
                self.wf(),
                self.bits() == base + enc_uint_packed(v),
            decreases 4 - g,
        {
            let src = (rem & 0x7F) as u8;
            let ghost rem0 = rem;
            rem = rem >> 7;
            let cont = rem != 0;
            self.write_bit(cont);
            let ghost mid = self.bits();
            let mut k: u8 = 0;
            while k < 7
                invariant
                    k <= 7,
                    self.wf(),
                    self.bits() == mid + bits7(src).take(k as int),
                decreases 7 - k,
            {
                self.write_bit((src >> k) & 1 == 1);
                assert(self.bits() =~= mid + bits7(src).take(k + 1));
                k = k + 1;
            }
            proof {
                assert(bits7(src).take(7) =~= bits7(src));
                let etail: Seq<bool> = if cont {
                    enc_uint_packed_rec(rem, (5 - g - 1) as nat)
                } else {
                    seq![]
                };
                assert(enc_uint_packed_rec(rem0, (5 - g) as nat) == seq![cont] + bits7(src)
                    + etail);
                let oldprefix = prefix;
                prefix = prefix + seq![cont] + bits7(src);
                assert(base + oldprefix + seq![cont] + bits7(src) =~= base + prefix);
                assert(oldprefix + (seq![cont] + bits7(src) + etail) =~= prefix + etail);
                if !cont {
                    assert(prefix + etail =~= prefix);
                }
            }
            if !cont {
                break;
            }
            proof {
                let gu = g as u32;
                assert(gu < 4) by (bit_vector)
                    requires
                        gu <= 4 && (v >> (7 * gu)) >> 7u32 != 0 && rem0 == v >> (7 * gu) && rem0
                            >> 7u32 != 0,
                ;
                assert(g < 4);
                assert((v >> (7 * gu)) >> 7u32 == v >> (7 * gu + 7)) by (bit_vector)
                    requires
                        gu <= 4,
                ;
                g = g + 1;
                assert((7 * g) as u32 == 7 * gu + 7);
            }
        }
    }

    /// Writes a packed signed value; the value must be above `i32::MIN`.
    pub fn write_int_packed(&mut self, v: i32)
        requires
            old(self).wf(),
            v != i32::MIN,
        ensures
            final(self).wf(),
            final(self).bits() == old(self).bits() + enc_int_packed(v),
    {
        let u = if v >= 0 {
            ((v as u32) << 1u32) | 1
        } else {
            proof {
                assert((-(v as i64)) as u32 == (-(v as int)) as u32);
            }
            ((-(v as i64)) as u32) << 1u32
        };
        proof {
            assert(u == sign_mag(v));
        }
        self.write_uint_packed(u);
    }

    /// Appends zero bits up to the next byte boundary.
    pub fn byte_align(&mut self)
        requires
            old(self).wf(),
        ensures
            final(self).wf(),
            final(self).bits() == old(self).bits() + Seq::new(
                (align8(old(self).bits().len() as int) - old(self).bits().len()) as nat,
                |i: int| false,
            ),
            final(self).bits().len() == align8(old(self).bits().len() as int),
    {
        let ghost base = self.bits();
        let ghost target = align8(base.len() as int);
        proof {
            assert(stream_bits(self.bytes@).len() == self.bytes@.len() * 8);
            assert(base.len() == self.bytes@.len() * 8 + self.n);
            assert(self.bytes@.len() * 8 % 8 == 0) by (nonlinear_arith);
            assert(base.len() % 8 == self.n as int % 8) by (nonlinear_arith)
                requires
                    base.len() == self.bytes@.len() * 8 + self.n && self.bytes@.len() * 8 % 8
                        == 0 && 0 <= self.n < 8,
            ;
            if self.n == 0 {
                assert(target == base.len()) by (nonlinear_arith)
                    requires
                        target == align8(base.len() as int) && base.len() % 8 == 0,
                ;
            } else {
                assert(target == base.len() + 8 - self.n) by (nonlinear_arith)
                    requires
                        target == align8(base.len() as int) && base.len() % 8 == self.n as int
                            % 8 && 0 < self.n < 8,
                ;
            }
        }
        while self.n != 0
            invariant
                self.wf(),
                self.bits().len() <= target,
                self.n != 0 ==> target == self.bits().len() + 8 - self.n,
                self.n == 0 ==> target == self.bits().len(),
                self.bits() == base + Seq::new((self.bits().len() - base.len()) as nat,
                    |i: int| false),
            decreases (8 - self.n) as int % 8,
        {
            let ghost before = self.bits();
            self.write_bit(false);
            proof {
                assert(stream_bits(self.bytes@).len() == self.bytes@.len() * 8);
                assert(self.bits().len() == before.len() + 1);
                assert(self.bits() =~= base + Seq::new((self.bits().len() - base.len()) as nat,
                    |i: int| false));
                if self.n != 0 {
                    assert(self.bits().len() % 8 != 0) by (nonlinear_arith)
                        requires
                            self.bits().len() == self.bytes@.len() * 8 + self.n && 0 < self.n
                                < 8 && self.bytes@.len() * 8 % 8 == 0,
                    ;
                }
            }
        }
    }

    /// Returns the bytes written; the sink must stand at a byte boundary.
    pub fn into_bytes(self) -> (r: Vec<u8>)
        requires
            self.wf(),
            self.bits().len() % 8 == 0,
        ensures
            stream_bits(r@) == self.bits(),
            r@.len() * 8 == self.bits().len(),
    {
        proof {
            assert(stream_bits(self.bytes@).len() == self.bytes@.len() * 8);
            assert(self.bytes@.len() * 8 % 8 == 0) by (nonlinear_arith);
            assert(self.n as int % 8 == 0) by (nonlinear_arith)
                requires
                    (self.bytes@.len() * 8 + self.n) % 8 == 0 && self.bytes@.len() * 8 % 8 == 0
                        && 0 <= self.n < 8,
            ;
            assert(self.bits() =~= stream_bits(self.bytes@));
        }
        self.bytes
    }
}


// ----------------------------------------------------------------------
// Variable-width unsigned values (`read_uint` / `write_uint`).
// ----------------------------------------------------------------------

/// The low `i` bits of a 32-bit value.
pub open spec fn low_bits32(v: u32, i: nat) -> u32 {
    v & (((1u64 << (i as u64)) - 1) as u32)
}

/// The bits a variable-width write emits from bit index `i` on: one bit per
/// step while the value written so far, plus the next place value, is still
/// below `max`.
pub open spec fn enc_uint_rec(v: u32, max: u32, i: nat) -> Seq<bool>
    decreases 32 - i,
{
    if i >= 32 {
        seq![]
    } else if low_bits32(v, i) as int + ((1u64 << (i as u64)) as int) >= max as int {
        seq![]
    } else {
        seq![(v >> (i as u32)) & 1 == 1] + enc_uint_rec(v, max, i + 1)
    }
}

/// The bits of a value below `max`, written LSB first with width bound `max`.
pub open spec fn enc_uint(v: u32, max: u32) -> Seq<bool> {
    enc_uint_rec(v, max, 0)
}

/// One step of the variable-width read: accumulate bits while the value so
/// far, plus the next place value, is still below `max`.
pub open spec fn dec_uint_rec(bits: Seq<bool>, pos: int, max: u32, value: u32, i: nat) -> Option<
    (u32, int),
>
    decreases 32 - i,
{
    if i >= 32 {
        Some((value, pos))
    } else if value as int + ((1u64 << (i as u64)) as int) >= max as int {
        Some((value, pos))
    } else if pos < 0 || pos >= bits.len() {
        None
    } else {
        dec_uint_rec(
            bits,
            pos + 1,
            max,
            if bits[pos] {
                value | (1u32 << (i as u32))
            } else {
                value
            },
            i + 1,
        )
    }
}

/// Decodes a variable-width unsigned value with width bound `max`.
pub open spec fn dec_uint(bits: Seq<bool>, pos: int, max: u32) -> Option<(u32, int)> {
    dec_uint_rec(bits, pos, max, 0, 0)
}

proof fn lemma_uint_rt_rec(bits: Seq<bool>, pos: int, v: u32, max: u32, i: nat)
    requires
        i <= 32,
        v < max,
        0 <= pos,
        pos + enc_uint_rec(v, max, i).len() <= bits.len(),
        bits.subrange(pos, pos + enc_uint_rec(v, max, i).len() as int) == enc_uint_rec(
            v,
            max,
            i,
        ),
    ensures
        dec_uint_rec(bits, pos, max, low_bits32(v, i), i) == Some(
            (v, pos + enc_uint_rec(v, max, i).len() as int),
        ),
    decreases 32 - i,
{
    let iu = i as u64;
    let low = low_bits32(v, i);
    assert((low as u64) == (v as u64) & (((1u64 << iu) - 1) as u64)) by (bit_vector)
        requires
            low == v & (((1u64 << iu) - 1) as u32) && iu <= 32,
    ;
    if i >= 32 {
        assert((v as u64) == (v as u64) & (((1u64 << 32u64) - 1) as u64)) by (bit_vector);
        assert(low == v);
    } else if low as int + ((1u64 << iu) as int) >= max as int {
        assert((v as u64) == (v as u64) & (((1u64 << iu) - 1) as u64)) by (bit_vector)
            requires
                iu < 32 && (v as u64) < (max as u64) && (max as u64) <= ((v as u64) & (((1u64
                    << iu) - 1) as u64)) + (1u64 << iu),
        ;
        assert(low == v);
    } else {
        let b = (v >> (i as u32)) & 1 == 1;
        let e = enc_uint_rec(v, max, i);
        let e2 = enc_uint_rec(v, max, i + 1);
        assert(e == seq![b] + e2);
        assert(bits[pos] == (seq![b] + e2)[0]);
        assert(bits[pos] == b);
        let value2 = if b {
            low | (1u32 << (i as u32))
        } else {
            low
        };
        let low2 = low_bits32(v, i + 1);
        assert((i + 1) as u64 == iu + 1);
        assert(value2 == low2) by (bit_vector)
            requires
                iu < 32 && low == v & (((1u64 << iu) - 1) as u32) && low2 == v & (((1u64 << (iu
                    + 1)) - 1) as u32) && value2 == (if (v >> (iu as u32)) & 1 == 1 {
                    low | (1u32 << (iu as u32))
                } else {
                    low
                }),
        ;
        assert(bits.subrange(pos + 1, pos + 1 + e2.len() as int) =~= e2) by {
            assert(forall|k: int|
                0 <= k < e2.len() ==> bits.subrange(pos, pos + e.len() as int)[k + 1] == e2[k]);
        }
        lemma_uint_rt_rec(bits, pos + 1, v, max, i + 1);
    }
}

/// Law: a value below `max`, written variable-width and read back with the
/// same bound, is unchanged, wherever it stands in a stream.
pub proof fn lemma_uint_round_trip(pre: Seq<bool>, v: u32, max: u32, rest: Seq<bool>)
    requires
        v < max,
    ensures
        dec_uint(pre + enc_uint(v, max) + rest, pre.len() as int, max) == Some(
            (v, pre.len() + enc_uint(v, max).len() as int),
        ),
{
    let e = enc_uint(v, max);
    let bits = pre + e + rest;
    assert(bits.subrange(pre.len() as int, pre.len() + e.len() as int) =~= e);
    assert(low_bits32(v, 0) == 0) by (bit_vector);
    lemma_uint_rt_rec(bits, pre.len() as int, v, max, 0);
}

// ----------------------------------------------------------------------
// Packed unsigned and signed values.
// ----------------------------------------------------------------------

/// The seven low bits of a byte.
pub open spec fn bits7(x: u8) -> Seq<bool> {
    byte_bits(x).take(7)
}

/// The value of a byte's low seven bits.
pub proof fn lemma_bits_val_low7(x: u8)
    requires
        x < 128,
    ensures
        bits_val(bits7(x)) == x,
{
    lemma_bits_val_byte(x);
    assert(byte_bits(x) =~= bits7(x).push(bit_of_byte(x, 7)));
    lemma_bits_val_snoc(bits7(x), bit_of_byte(x, 7));
    assert((x >> 7u8) & 1 != 1) by (bit_vector)
        requires
            x < 128,
    ;
}

/// The packed encoding of an unsigned value: groups of one continuation bit
/// and seven payload bits, LSB first, up to five groups.
pub open spec fn enc_uint_packed_rec(v: u32, fuel: nat) -> Seq<bool>
    decreases fuel,
{
    if fuel == 0 {
        seq![]
    } else {
        seq![v >> 7u32 != 0] + bits7((v & 0x7F) as u8) + (if v >> 7u32 != 0 {
            enc_uint_packed_rec(v >> 7u32, (fuel - 1) as nat)
        } else {
            seq![]
        })
    }
}

/// The packed encoding of an unsigned value.
pub open spec fn enc_uint_packed(v: u32) -> Seq<bool> {
    enc_uint_packed_rec(v, 5)
}

/// One step of the packed read: up to five groups of a continuation bit and
/// seven payload bits, each group shifted seven places higher.
pub open spec fn dec_uint_packed_rec(bits: Seq<bool>, pos: int, value: u32, i: nat) -> Option<
    (u32, int),
>
    decreases 5 - i,
{
    if i >= 5 {
        Some((value, pos))
    } else {
        match dec_bit(bits, pos) {
            None => None,
            Some((has_next, p1)) => {
                if p1 + 7 <= bits.len() {
                    let part = bits_val(bits.subrange(p1, p1 + 7)) as u32;
                    let value2 = value | (part << ((7 * i) as u32));
                    if has_next {
                        dec_uint_packed_rec(bits, p1 + 7, value2, i + 1)
                    } else {
                        Some((value2, p1 + 7))
                    }
                } else {
                    None
                }
            },
        }
    }
}

/// Decodes a packed unsigned value.
pub open spec fn dec_uint_packed(bits: Seq<bool>, pos: int) -> Option<(u32, int)> {
    dec_uint_packed_rec(bits, pos, 0, 0)
}

proof fn lemma_uint_packed_rt_rec(bits: Seq<bool>, pos: int, v: u32, i: nat, acc: u32)
    requires
        i <= 4,
        0 <= pos,
        acc == low_bits32(v, 7 * i),
        pos + enc_uint_packed_rec(v >> ((7 * i) as u32), (5 - i) as nat).len() <= bits.len(),
        bits.subrange(
            pos,
            pos + enc_uint_packed_rec(v >> ((7 * i) as u32), (5 - i) as nat).len() as int,
        ) == enc_uint_packed_rec(v >> ((7 * i) as u32), (5 - i) as nat),
    ensures
        dec_uint_packed_rec(bits, pos, acc, i) == Some(
            (v, pos + enc_uint_packed_rec(v >> ((7 * i) as u32), (5 - i) as nat).len() as int),
        ),
    decreases 5 - i,
{
    let s = (7 * i) as u32;
    let vrem = v >> s;
    let e = enc_uint_packed_rec(vrem, (5 - i) as nat);
    let cont = vrem >> 7u32 != 0;
    let part = (vrem & 0x7F) as u8;
    let etail = if cont {
        enc_uint_packed_rec(vrem >> 7u32, (5 - i - 1) as nat)
    } else {
        seq![]
    };
    assert(e == seq![cont] + bits7(part) + etail);
    assert(e.len() == 8 + etail.len());
    assert(bits.subrange(pos, pos + e.len() as int)[0] == bits[pos]);
    assert(e[0] == cont);
    assert(bits[pos] == cont);
    assert(bits.subrange(pos + 1, pos + 8) =~= bits7(part)) by {
        assert(forall|k: int|
            0 <= k < 7 ==> bits.subrange(pos, pos + e.len() as int)[k + 1] == bits7(part)[k]);
    }
    assert(part < 128) by (bit_vector)
        requires
            part == (vrem & 0x7F) as u8,
    ;
    lemma_bits_val_low7(part);
    let value2 = acc | ((part as u32) << s);
    let low2 = low_bits32(v, 7 * (i + 1));
    assert((7 * (i + 1)) as u64 == (s as u64) + 7);
    assert(value2 == low2) by (bit_vector)
        requires
            s <= 28 && acc == v & (((1u64 << (s as u64)) - 1) as u32) && part == ((v >> s)
                & 0x7F) as u8 && value2 == acc | ((part as u32) << s) && low2 == v & (((1u64
                << ((s as u64) + 7)) - 1) as u32),
    ;
    assert(value2 == low_bits32(v, 7 * (i + 1)));
    if cont {
        let iu32 = i as u32;
        assert(iu32 < 4) by (bit_vector)
            requires
                s == 7 * iu32 && iu32 <= 4 && (v >> s) >> 7u32 != 0,
        ;
        assert(i < 4);
        assert((v >> s) >> 7u32 == v >> (s + 7)) by (bit_vector)
            requires
                s <= 28,
        ;
        assert((7 * (i + 1)) as u32 == s + 7);
        assert(bits.subrange(pos + 8, pos + 8 + etail.len() as int) =~= etail) by {
            assert(forall|k: int|
                0 <= k < etail.len() ==> bits.subrange(pos, pos + e.len() as int)[k + 8]
                    == etail[k]);
        }
        lemma_uint_packed_rt_rec(bits, pos + 8, v, i + 1, value2);
    } else {
        assert(value2 == v) by (bit_vector)
            requires
                s <= 28 && acc == v & (((1u64 << (s as u64)) - 1) as u32) && part == ((v >> s)
                    & 0x7F) as u8 && value2 == acc | ((part as u32) << s) && (v >> s) >> 7u32
                    == 0,
        ;
    }
}

/// Law: any 32-bit value, written packed and read back, is unchanged,
/// wherever it stands in a stream.
pub proof fn lemma_uint_packed_round_trip(pre: Seq<bool>, v: u32, rest: Seq<bool>)
    ensures
        dec_uint_packed(pre + enc_uint_packed(v) + rest, pre.len() as int) == Some(
            (v, pre.len() + enc_uint_packed(v).len() as int),
        ),
{
    let e = enc_uint_packed(v);
    let bits = pre + e + rest;
    assert(bits.subrange(pre.len() as int, pre.len() + e.len() as int) =~= e);
    assert(low_bits32(v, 0) == 0) by (bit_vector);
    assert(v >> 0u32 == v) by (bit_vector);
    lemma_uint_packed_rt_rec(bits, pre.len() as int, v, 0, 0);
}

/// The sign-and-magnitude form a signed value is packed as: the magnitude
/// shifted up one bit, with a low bit of 1 exactly for non-negative values.
pub open spec fn sign_mag(v: i32) -> u32
    recommends
        v != i32::MIN,
{
    if v >= 0 {
        ((v as u32) << 1u32) | 1
    } else {
        ((-(v as int)) as u32) << 1u32
    }
}

/// The packed encoding of a signed value.
pub open spec fn enc_int_packed(v: i32) -> Seq<bool>
    recommends
        v != i32::MIN,
{
    enc_uint_packed(sign_mag(v))
}

/// Decodes a packed signed value: the low bit is the sign, the rest the
/// magnitude.
pub open spec fn dec_int_packed(bits: Seq<bool>, pos: int) -> Option<(i32, int)> {
    match dec_uint_packed(bits, pos) {
        Some((u, p)) => Some(
            (
                if u & 1 != 0 {
                    (u >> 1u32) as i32
                } else {
                    (0 - ((u >> 1u32) as int)) as i32
                },
                p,
            ),
        ),
        None => None,
    }
}

/// Law: any signed value above `i32::MIN`, written packed and read back, is
/// unchanged, wherever it stands in a stream.
pub proof fn lemma_int_packed_round_trip(pre: Seq<bool>, v: i32, rest: Seq<bool>)
    requires
        v != i32::MIN,
    ensures
        dec_int_packed(pre + enc_int_packed(v) + rest, pre.len() as int) == Some(
            (v, pre.len() + enc_int_packed(v).len() as int),
        ),
{
    let u = sign_mag(v);
    lemma_uint_packed_round_trip(pre, u, rest);
    if v >= 0 {
        assert(u & 1 != 0 && (u >> 1u32) as int == v as int) by (bit_vector)
            requires
                u == ((v as u32) << 1u32) | 1 && v >= 0,
        ;
    } else {
        let m = (-(v as int)) as u32;
        assert(m <= 0x7FFF_FFFFu32);
        assert(u & 1 == 0 && (u >> 1u32) == m) by (bit_vector)
            requires
                u == m << 1u32 && m <= 0x7FFF_FFFFu32,
        ;
    }
}

// ----------------------------------------------------------------------
// Embedded byte runs and strings on the bit stream.
// ----------------------------------------------------------------------

/// A run of whole bytes embedded in a bit stream decodes to those bytes.
pub proof fn lemma_bytes_bits_embed(bits: Seq<bool>, pos: int, w: Seq<u8>)
    requires
        0 <= pos,
        pos + 8 * w.len() <= bits.len(),
        bits.subrange(pos, pos + 8 * w.len() as int) == stream_bits(w),
    ensures
        dec_bytes_bits(bits, pos, w.len() as int) == Some((w, pos + 8 * w.len() as int)),
{
    let n = w.len() as int;
    let got = dec_bytes_bits(bits, pos, n).unwrap().0;
    assert forall|k: int| 0 <= k < n implies got[k] == w[k] by {
        lemma_stream_bits_byte_at(w, k);
        let sub1 = bits.subrange(pos + 8 * k, pos + 8 * k + 8);
        let sub2 = stream_bits(w).subrange(8 * k, 8 * k + 8);
        assert forall|j: int| 0 <= j < 8 implies sub1[j] == sub2[j] by {
            assert(sub1[j] == bits.subrange(pos, pos + 8 * n)[8 * k + j]);
            assert(sub2[j] == stream_bits(w)[8 * k + j]);
        }
        assert(sub1 =~= sub2);
        lemma_bits_val_byte(w[k]);
    }
    assert(got =~= w);
}

/// Decodes a length-prefixed string at bit position `pos`, with the same
/// layout as the byte-level form.
pub open spec fn dec_string_bits(bits: Seq<bool>, pos: int) -> Option<(Seq<char>, int)> {
    match dec_i32_bits(bits, pos) {
        None => None,
        Some((l, p)) => {
            if l == 0 {
                Some((seq![], p))
            } else if l > 0 {
                match dec_bytes_bits(bits, p, l - 1) {
                    None => None,
                    Some((payload, p2)) => match dec_bytes_bits(bits, p2, 1) {
                        None => None,
                        Some((_, p3)) => {
                            if valid_utf8(payload) {
                                Some((decode_utf8(payload), p3))
                            } else {
                                None
                            }
                        },
                    },
                }
            } else {
                match dec_bytes_bits(bits, p, 2 * -(l as int)) {
                    None => None,
                    Some((w, p2)) => {
                        let units = units_of_bytes(w, -(l as int));
                        match dec_bytes_bits(bits, p2, 1) {
                            None => None,
                            Some((_, p3)) => match utf16_decode(units) {
                                Some(chars) => Some((chars, p3)),
                                None => None,
                            },
                        }
                    },
                }
            }
        },
    }
}

/// A slice of a byte run embedded in a bit stream decodes to that slice.
pub proof fn lemma_bytes_bits_embed_piece(bits: Seq<bool>, pos: int, w: Seq<u8>, a: int, b: int)
    requires
        0 <= a <= b <= w.len(),
        0 <= pos,
        pos + 8 * w.len() <= bits.len(),
        bits.subrange(pos, pos + (8 * w.len()) as int) == stream_bits(w),
    ensures
        dec_bytes_bits(bits, pos + 8 * a, b - a) == Some((w.subrange(a, b), pos + 8 * b)),
{
    lemma_stream_bits_concat(w.subrange(0, a), w.subrange(a, b));
    lemma_stream_bits_concat(w.subrange(0, a) + w.subrange(a, b), w.subrange(b, w.len() as int));
    assert(w.subrange(0, a) + w.subrange(a, b) + w.subrange(b, w.len() as int) =~= w);
    assert(stream_bits(w) == stream_bits(w.subrange(0, a)) + stream_bits(w.subrange(a, b))
        + stream_bits(w.subrange(b, w.len() as int)));
    let sub1 = bits.subrange(pos + 8 * a, pos + 8 * a + 8 * (b - a));
    let sub2 = stream_bits(w.subrange(a, b));
    assert forall|j: int| 0 <= j < 8 * (b - a) implies sub1[j] == sub2[j] by {
        assert(sub1[j] == bits.subrange(pos, pos + (8 * w.len()) as int)[8 * a + j]);
        assert(stream_bits(w)[8 * a + j] == sub2[j]);
    }
    assert(sub1 =~= sub2);
    lemma_bytes_bits_embed(bits, pos + 8 * a, w.subrange(a, b));
}

/// The statement of the string law on bit streams: a string's wire bytes,
/// embedded anywhere in a stream, decode to the original string.
pub open spec fn string_bits_round_trip(pre: Seq<bool>, s: Seq<char>, rest: Seq<bool>) -> bool {
    dec_string_bits(pre + stream_bits(str_wire(s)) + rest, pre.len() as int) == Some(
        (s, pre.len() + 8 * (str_wire(s).len() as int)),
    )
}

/// Law for the empty string.
proof fn lemma_string_bits_rt_empty(pre: Seq<bool>, s: Seq<char>, rest: Seq<bool>)
    requires
        s.len() == 0,
    ensures
        string_bits_round_trip(pre, s, rest),
{
    let w = str_wire(s);
    let bits = pre + stream_bits(w) + rest;
    let pos = pre.len() as int;
    assert(bits.subrange(pos, pos + (8 * w.len()) as int) =~= stream_bits(w));
    lemma_le_i32_round(0);
    lemma_bytes_bits_embed_piece(bits, pos, w, 0, 4);
    assert(w.subrange(0, 4) =~= i32_le_bytes(0));
    assert(dec_i32_bits(bits, pos) == Some((0i32, pos + 32)));
    assert(s =~= Seq::<char>::empty());
    assert(w.len() == 4);
}

/// Law for strings of ASCII characters.
#[verifier::rlimit(60)]
proof fn lemma_string_bits_rt_ascii(pre: Seq<bool>, s: Seq<char>, rest: Seq<bool>)
    requires
        str_fits(s),
        s.len() > 0,
        is_ascii_chars(s),
    ensures
        string_bits_round_trip(pre, s, rest),
{
    let w = str_wire(s);
    let bits = pre + stream_bits(w) + rest;
    let pos = pre.len() as int;
    assert(bits.subrange(pos, pos + (8 * w.len()) as int) =~= stream_bits(w));
    let n = s.len() as int;
    is_ascii_chars_encode_utf8(s);
    let l = (n + 1) as i32;
    lemma_le_i32_round(l);
    lemma_bytes_bits_embed_piece(bits, pos, w, 0, 4);
    assert(w.subrange(0, 4) =~= i32_le_bytes(l));
    assert(dec_i32_bits(bits, pos) == Some((l, pos + 32)));
    lemma_bytes_bits_embed_piece(bits, pos, w, 4, 4 + n);
    assert(w.subrange(4, 4 + n) =~= encode_utf8(s));
    vstd::utf8::encode_utf8_valid_utf8(s);
    vstd::utf8::encode_utf8_decode_utf8(s);
    lemma_bytes_bits_embed_piece(bits, pos, w, 4 + n, 5 + n);
    assert(pos + 32 + 8 * n == pos + 8 * (4 + n));
    assert(w.len() == 5 + n);
}

/// Extracting code units from their little-endian bytes yields the units.
proof fn lemma_u16s_from_bytes(units: Seq<u16>)
    ensures
        units_of_bytes(u16s_le_bytes(units), units.len() as int) == units,
{
    let ub = u16s_le_bytes(units);
    let got = units_of_bytes(ub, units.len() as int);
    assert forall|j: int| 0 <= j < units.len() implies got[j] == units[j] by {
        assert((2 * j) % 2 == 0 && (2 * j) / 2 == j && (2 * j + 1) % 2 == 1 && (2 * j + 1) / 2
            == j);
        lemma_le_u16_round(units[j]);
    }
    assert(got =~= units);
}

/// Assembles a decoded wide string from its decoded pieces.
proof fn lemma_string_bits_wide_pieces(
    bits: Seq<bool>,
    pos: int,
    l: i32,
    ub: Seq<u8>,
    units: Seq<u16>,
    s: Seq<char>,
    n: int,
)
    requires
        n >= 1,
        l as int == -n,
        dec_i32_bits(bits, pos) == Some((l, pos + 32)),
        dec_bytes_bits(bits, pos + 32, 2 * n) == Some((ub, pos + 32 + 16 * n)),
        units_of_bytes(ub, n) == units,
        dec_bytes_bits(bits, pos + 32 + 16 * n, 1) is Some,
        utf16_decode(units) == Some(s),
    ensures
        dec_string_bits(bits, pos) == Some((s, pos + 40 + 16 * n)),
{
    assert(2 * -(l as int) == 2 * n);
    assert(dec_bytes_bits(bits, pos + 32 + 16 * n, 1).unwrap().1 == pos + 40 + 16 * n);
}

/// Law for strings holding a character outside ASCII.
#[verifier::rlimit(100)]
#[verifier::spinoff_prover]
proof fn lemma_string_bits_rt_wide(pre: Seq<bool>, s: Seq<char>, rest: Seq<bool>)
    requires
        str_fits(s),
        s.len() > 0,
        !is_ascii_chars(s),
    ensures
        string_bits_round_trip(pre, s, rest),
{
    let w = str_wire(s);
    let bits = pre + stream_bits(w) + rest;
    let pos = pre.len() as int;
    assert(bits.subrange(pos, pos + (8 * w.len()) as int) =~= stream_bits(w));
    let units = utf16_of(s);
    let n = units.len() as int;
    lemma_utf16_of_len(s);
    let l = (-n) as i32;
    lemma_le_i32_round(l);
    lemma_bytes_bits_embed_piece(bits, pos, w, 0, 4);
    assert(w.subrange(0, 4) =~= i32_le_bytes(l));
    assert(dec_i32_bits(bits, pos) == Some((l, pos + 32)));
    let ub = u16s_le_bytes(units);
    lemma_bytes_bits_embed_piece(bits, pos, w, 4, 4 + 2 * n);
    assert(w.subrange(4, 4 + 2 * n) =~= ub);
    assert(dec_bytes_bits(bits, pos + 32, 2 * n) == Some((ub, pos + 32 + 16 * n)));
    lemma_u16s_from_bytes(units);
    lemma_bytes_bits_embed_piece(bits, pos, w, 4 + 2 * n, 5 + 2 * n);
    assert(dec_bytes_bits(bits, pos + 32 + 16 * n, 1) is Some);
    lemma_utf16_round_trip(s);
    lemma_string_bits_wide_pieces(bits, pos, l, ub, units, s, n);
    assert(w.len() == 5 + 2 * n);
    assert(pos + 40 + 16 * n == pos + 8 * (w.len() as int));
}

/// Law: a string's wire bytes, embedded anywhere in a bit stream, decode to
/// the original string.
pub proof fn lemma_string_bits_round_trip(pre: Seq<bool>, s: Seq<char>, rest: Seq<bool>)
    requires
        str_fits(s),
    ensures
        string_bits_round_trip(pre, s, rest),
{
    if s.len() == 0 {
        lemma_string_bits_rt_empty(pre, s, rest);
    } else if is_ascii_chars(s) {
        lemma_string_bits_rt_ascii(pre, s, rest);
    } else {
        lemma_string_bits_rt_wide(pre, s, rest);
    }
}

} // verus!
