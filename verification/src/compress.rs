//! Compressed-section framing: two little-endian 32-bit size headers, then
//! either the raw payload or a zlib stream that inflates to it.

use vstd::prelude::*;
use crate::wire::{dec_bytes_b, dec_i32_b, i32_le_bytes, put_bytes, put_i32_le, ByteCursor};

verus! {

/// The bytes a zlib decoder can yield from a stream before the stream ends
/// or turns out malformed.
pub uninterp spec fn zlib_stream(data: Seq<u8>) -> Seq<u8>;

/// The zlib stream that deflating a byte sequence at the default level yields.
pub uninterp spec fn zlib_deflated(data: Seq<u8>) -> Seq<u8>;

/// Relies on flate2's `write::ZlibEncoder` at the default compression level:
/// the stream it produces depends on the input bytes alone, inflating that
/// stream yields the input back, and a zlib stream is never empty (it always
/// carries its two header bytes and its checksum). Writing into a `Vec` sink
/// cannot fail.
#[verifier::external_body]
fn zlib_compress(data: &Vec<u8>) -> (r: Vec<u8>)
    ensures
        r@ == zlib_deflated(data@),
        zlib_stream(r@) == data@,
        r@.len() > 0,
{
    let mut enc = flate2::write::ZlibEncoder::new(Vec::new(), flate2::Compression::default());
    std::io::Write::write_all(&mut enc, &data[..]).expect("writing to a Vec cannot fail");
    enc.finish().expect("writing to a Vec cannot fail")
}

/// Relies on flate2's `read::ZlibDecoder`: reading `n` bytes exactly
/// succeeds when the decoder can yield at least `n` bytes, and then it hands
/// out the first `n` of them.
#[verifier::external_body]
fn zlib_decompress(data: &Vec<u8>, n: usize) -> (r: Option<Vec<u8>>)
    ensures
        r is Some <==> n <= zlib_stream(data@).len(),
        r matches Some(v) ==> v@ == zlib_stream(data@).take(n as int),
{
    let mut out = vec![0u8; n];
    match std::io::Read::read_exact(&mut flate2::read::ZlibDecoder::new(&data[..]), &mut out) {
        Ok(()) => Some(out),
        Err(_) => None,
    }
}

/// The framed form of a section payload: the uncompressed size, then either
/// a zero size and the raw bytes, or the deflated size and the deflated
/// bytes — the deflated form only when it is strictly smaller.
pub open spec fn framed(payload: Seq<u8>, compress: bool) -> Seq<u8> {
    let z = zlib_deflated(payload);
    if compress && 0 < z.len() < payload.len() {
        i32_le_bytes(payload.len() as i32) + i32_le_bytes(z.len() as i32) + z
    } else {
        i32_le_bytes(payload.len() as i32) + i32_le_bytes(0) + payload
    }
}

/// Decodes a framed section at `pos`: the payload and the end position.
/// Negative sizes, a deflated size above the raw size, or a stream that
/// inflates short, are malformed.
pub open spec fn dec_compressed(bytes: Seq<u8>, pos: int) -> Option<(Seq<u8>, int)> {
    match dec_i32_b(bytes, pos) {
        None => None,
        Some((ulen, p1)) => match dec_i32_b(bytes, p1) {
            None => None,
            Some((clen, p2)) => {
                if ulen < 0 || clen < 0 || clen > ulen {
                    None
                } else if clen == 0 {
                    dec_bytes_b(bytes, p2, ulen as int)
                } else {
                    match dec_bytes_b(bytes, p2, clen as int) {
                        None => None,
                        Some((cbytes, p3)) => {
                            let d = zlib_stream(cbytes);
                            if ulen <= d.len() {
                                Some((d.take(ulen as int), p3))
                            } else {
                                None
                            }
                        },
                    }
                }
            },
        },
    }
}

/// Frames a section payload onto a buffer; fails (appending nothing) exactly
/// when the payload is too long for its size field. On success, decoding the
/// frame wherever it stands yields the payload back.
pub fn write_compressed(out: &mut Vec<u8>, payload: &Vec<u8>, compress: bool) -> (ok: bool)
    ensures
        ok <==> payload@.len() <= 0x7FFF_FFFF,
        ok ==> final(out)@ == old(out)@ + framed(payload@, compress),
        !ok ==> final(out)@ == old(out)@,
        ok ==> forall|rest: Seq<u8>|
            dec_compressed(#[trigger] (final(out)@ + rest), old(out)@.len() as int) == Some(
                (payload@, final(out)@.len() as int),
            ),
{
    let n = payload.len();
    if n > 0x7FFF_FFFF {
        return false;
    }
    let ghost base = out@;
    if compress {
        let z = zlib_compress(payload);
        if 0 < z.len() && z.len() < n {
            put_i32_le(out, n as i32);
            put_i32_le(out, z.len() as i32);
            put_bytes(out, &z);
            proof {
                assert(out@ =~= base + framed(payload@, compress));
                lemma_dec_framed_deflated(base, payload@, z@, out@);
            }
        } else {
            put_i32_le(out, n as i32);
            put_i32_le(out, 0);
            put_bytes(out, payload);
            proof {
                assert(out@ =~= base + framed(payload@, compress));
                lemma_dec_framed_raw(base, payload@, out@);
            }
        }
    } else {
        put_i32_le(out, n as i32);
        put_i32_le(out, 0);
        put_bytes(out, payload);
        proof {
            assert(out@ =~= base + framed(payload@, compress));
            lemma_dec_framed_raw(base, payload@, out@);
        }
    }
    true
}

/// A raw frame decodes to its payload, wherever it stands.
proof fn lemma_dec_framed_raw(base: Seq<u8>, payload: Seq<u8>, whole: Seq<u8>)
    requires
        payload.len() <= 0x7FFF_FFFF,
        whole == base + i32_le_bytes(payload.len() as i32) + i32_le_bytes(0) + payload,
    ensures
        forall|rest: Seq<u8>|
            dec_compressed(#[trigger] (whole + rest), base.len() as int) == Some(
                (payload, whole.len() as int),
            ),
{
    let ulen = payload.len() as i32;
    assert forall|rest: Seq<u8>|
        dec_compressed(#[trigger] (whole + rest), base.len() as int) == Some(
            (payload, whole.len() as int),
        ) by {
        let bytes = whole + rest;
        let pos = base.len() as int;
        crate::wire::lemma_le_i32_round(ulen);
        crate::wire::lemma_le_i32_round(0);
        assert(bytes.subrange(pos, pos + 4) =~= i32_le_bytes(ulen));
        assert(dec_i32_b(bytes, pos) == Some((ulen, pos + 4)));
        assert(bytes.subrange(pos + 4, pos + 8) =~= i32_le_bytes(0));
        assert(dec_i32_b(bytes, pos + 4) == Some((0i32, pos + 8)));
        assert(bytes.subrange(pos + 8, pos + 8 + ulen as int) =~= payload);
        assert(dec_bytes_b(bytes, pos + 8, ulen as int) == Some(
            (payload, pos + 8 + ulen as int),
        ));
    }
}

/// A deflated frame decodes to the bytes its stream inflates to, wherever it
/// stands.
proof fn lemma_dec_framed_deflated(base: Seq<u8>, payload: Seq<u8>, z: Seq<u8>, whole: Seq<u8>)
    requires
        payload.len() <= 0x7FFF_FFFF,
        0 < z.len() < payload.len(),
        zlib_stream(z) == payload,
        whole == base + i32_le_bytes(payload.len() as i32) + i32_le_bytes(z.len() as i32) + z,
    ensures
        forall|rest: Seq<u8>|
            dec_compressed(#[trigger] (whole + rest), base.len() as int) == Some(
                (payload, whole.len() as int),
            ),
{
    let ulen = payload.len() as i32;
    let clen = z.len() as i32;
    assert forall|rest: Seq<u8>|
        dec_compressed(#[trigger] (whole + rest), base.len() as int) == Some(
            (payload, whole.len() as int),
        ) by {
        let bytes = whole + rest;
        let pos = base.len() as int;
        crate::wire::lemma_le_i32_round(ulen);
        crate::wire::lemma_le_i32_round(clen);
        assert(bytes.subrange(pos, pos + 4) =~= i32_le_bytes(ulen));
        assert(dec_i32_b(bytes, pos) == Some((ulen, pos + 4)));
        assert(bytes.subrange(pos + 4, pos + 8) =~= i32_le_bytes(clen));
        assert(dec_i32_b(bytes, pos + 4) == Some((clen, pos + 8)));
        assert(bytes.subrange(pos + 8, pos + 8 + clen as int) =~= z);
        assert(dec_bytes_b(bytes, pos + 8, clen as int) == Some((z, pos + 8 + clen as int)));
        assert(payload.take(ulen as int) =~= payload);
    }
}

/// How reading a framed section can fail.
#[derive(Debug, Clone, Copy, PartialEq, Eq, Structural)]
pub enum SectionError {
    /// The buffer or the zlib stream ended before the frame's payload.
    Short,
    /// The size fields are impossible: a negative size, or a deflated size
    /// above the raw size.
    BadSizes,
}

/// Whether a frame's two size fields are readable but impossible.
pub open spec fn frame_bad_sizes(bytes: Seq<u8>, pos: int) -> bool {
    match dec_i32_b(bytes, pos) {
        Some((ulen, p1)) => match dec_i32_b(bytes, p1) {
            Some((clen, _)) => ulen < 0 || clen < 0 || clen > ulen,
            None => false,
        },
        None => false,
    }
}

/// Reads a framed section from a cursor, yielding its payload; impossible
/// sizes and a short source fail apart.
pub fn read_compressed(cur: &mut ByteCursor) -> (r: Result<Vec<u8>, SectionError>)
    requires
        old(cur).wf(),
    ensures
        final(cur).wf(),
        final(cur).data() == old(cur).data(),
        match dec_compressed(old(cur).data(), old(cur).position()) {
            Some((v, p)) => r matches Ok(out) && out@ == v && final(cur).position() == p,
            None => r is Err,
        },
        r == Err::<Vec<u8>, SectionError>(SectionError::BadSizes) <==> frame_bad_sizes(
            old(cur).data(),
            old(cur).position(),
        ),
{
    let ulen = match cur.read_i32() {
        Some(v) => v,
        None => {
            return Err(SectionError::Short);
        },
    };
    let clen = match cur.read_i32() {
        Some(v) => v,
        None => {
            return Err(SectionError::Short);
        },
    };
    if ulen < 0 || clen < 0 || clen > ulen {
        return Err(SectionError::BadSizes);
    }
    if clen == 0 {
        match cur.read_bytes(ulen as usize) {
            Some(v) => Ok(v),
            None => Err(SectionError::Short),
        }
    } else {
        let cbytes = match cur.read_bytes(clen as usize) {
            Some(v) => v,
            None => {
                return Err(SectionError::Short);
            },
        };
        match zlib_decompress(&cbytes, ulen as usize) {
            Some(v) => Ok(v),
            None => Err(SectionError::Short),
        }
    }
}

} // verus!
