//! Save reading: a version-aware parser that enforces the section order.

use vstd::prelude::*;
use vstd::string::StringSliceAdditionalSpecFns;
use crate::compress::{dec_compressed, read_compressed};
use crate::save::{
    BrickOwner, BrickOwnerV, Color, Header1, Header1V, Header2, Header2V, Preview, PreviewV,
    User, UserV, Uuid,
};
use crate::wire::{
    dec_bytes_b, dec_i32_b, dec_string_b, dec_u16_b, dec_u32_b, dec_u8_b, dec_uuid_b,
    ByteCursor,
};
use crate::bits::{
    align8, dec_bit, dec_bytes_bits, dec_i32_bits, dec_int_packed, dec_string_bits,
    dec_u32_bits, dec_uint, dec_uint_packed, stream_bits, BitCursor,
};
use crate::save::{Brick, BrickColor, BrickV, Collision, Component, ComponentV, Direction,
    PropertyValues, Rotation, SaveData, SaveDataV, Size, UnrealType, UnrealTypeV};

verus! {

/// A read error.
#[derive(Debug, Clone, Copy, PartialEq, Eq, Structural)]
pub enum ReadError {
    /// The byte source ended before the field being read.
    Eof,
    /// The magic bytes are not `BRS`.
    BadHeader,
    /// A field of the first header violates an invariant.
    InvalidDataHeader1,
    /// A field of the second header violates an invariant.
    InvalidDataHeader2,
    /// Sections must be read in order: first header, second header, preview,
    /// bricks.
    BadSectionReadOrder,
    /// A compressed section carries impossible sizes or a bad stream.
    InvalidCompression,
    /// A malformed string or an unknown property type name.
    InvalidData,
}

/// Decodes a user: a name, then an identifier.
pub open spec fn dec_user_b(bytes: Seq<u8>, pos: int) -> Option<(UserV, int)> {
    match dec_string_b(bytes, pos) {
        None => None,
        Some((name, p1)) => match dec_uuid_b(bytes, p1) {
            None => None,
            Some((id, p2)) => Some((UserV { name, id }, p2)),
        },
    }
}

/// Decodes the fixed prelude of a save file: the magic bytes, the container
/// version, and (in versions 8 and up) the game version.
pub open spec fn dec_prelude(bytes: Seq<u8>) -> Option<((u16, i32), int)> {
    if bytes.len() >= 3 && bytes.subrange(0, 3) == crate::spec_magic() {
        match dec_u16_b(bytes, 3) {
            None => None,
            Some((version, p1)) => {
                if version >= 8 {
                    match dec_i32_b(bytes, p1) {
                        None => None,
                        Some((gv, p2)) => Some(((version, gv), p2)),
                    }
                } else {
                    Some(((version, 0i32), p1))
                }
            },
        }
    } else {
        None
    }
}

/// Decodes the first header's fields from a decompressed section, with the
/// trailing brick count as it stands on the wire.
pub open spec fn dec_header1_raw(bytes: Seq<u8>, version: u16) -> Option<(Header1V, i32, int)> {
    match dec_string_b(bytes, 0) {
        None => None,
        Some((map, p1)) => match dec_string_b(bytes, p1) {
            None => None,
            Some((author_name, p2)) => match dec_string_b(bytes, p2) {
                None => None,
                Some((description, p3)) => match dec_uuid_b(bytes, p3) {
                    None => None,
                    Some((author_id, p4)) => match (if version >= 8 {
                        match dec_user_b(bytes, p4) {
                            None => None,
                            Some((u, p5)) => Some((Some(u), p5)),
                        }
                    } else {
                        Some((None::<UserV>, p4))
                    }) {
                        None => None,
                        Some((host, p5)) => match (if version >= 4 {
                            dec_bytes_b(bytes, p5, 8)
                        } else {
                            Some((Seq::new(8, |i: int| 0u8), p5))
                        }) {
                            None => None,
                            Some((save_time, p6)) => match dec_i32_b(bytes, p6) {
                                None => None,
                                Some((count, p7)) => Some(
                                    (
                                        Header1V {
                                            map,
                                            description,
                                            author: UserV {
                                                name: author_name,
                                                id: author_id,
                                            },
                                            host,
                                            save_time,
                                            brick_count: 0,
                                        },
                                        count,
                                        p7,
                                    ),
                                ),
                            },
                        },
                    },
                },
            },
        },
    }
}

/// Decodes the first header from a decompressed section; a negative brick
/// count is malformed.
pub open spec fn dec_header1(bytes: Seq<u8>, version: u16) -> Option<(Header1V, int)> {
    match dec_header1_raw(bytes, version) {
        Some((h, count, p)) => {
            if count >= 0 {
                Some((Header1V { brick_count: count as u32, ..h }, p))
            } else {
                None
            }
        },
        None => None,
    }
}

/// Decodes `n` strings.
pub open spec fn dec_strings_n(bytes: Seq<u8>, pos: int, n: nat) -> Option<
    (Seq<Seq<char>>, int),
>
    decreases n,
{
    if n == 0 {
        Some((seq![], pos))
    } else {
        match dec_string_b(bytes, pos) {
            None => None,
            Some((s, p1)) => match dec_strings_n(bytes, p1, (n - 1) as nat) {
                None => None,
                Some((rest, p2)) => Some((seq![s] + rest, p2)),
            },
        }
    }
}

/// Decodes a length-prefixed array of strings; a negative count is empty.
pub open spec fn dec_string_array_b(bytes: Seq<u8>, pos: int) -> Option<(Seq<Seq<char>>, int)> {
    match dec_i32_b(bytes, pos) {
        None => None,
        Some((l, p1)) => dec_strings_n(bytes, p1, (if l >= 0 {
            l as int
        } else {
            0
        }) as nat),
    }
}

/// Decodes a length-prefixed array of colors, each four wire bytes BGRA.
pub open spec fn dec_colors_b(bytes: Seq<u8>, pos: int) -> Option<(Seq<Color>, int)> {
    match dec_i32_b(bytes, pos) {
        None => None,
        Some((l, p1)) => {
            let n: int = if l >= 0 {
                l as int
            } else {
                0
            };
            if p1 + 4 * n <= bytes.len() {
                Some(
                    (
                        Seq::new(
                            n as nat,
                            |i: int|
                                Color {
                                    r: bytes[p1 + 4 * i + 2],
                                    g: bytes[p1 + 4 * i + 1],
                                    b: bytes[p1 + 4 * i],
                                    a: bytes[p1 + 4 * i + 3],
                                },
                        ),
                        p1 + 4 * n,
                    ),
                )
            } else {
                None
            }
        },
    }
}

/// Decodes one brick owner: an identifier, a name, and (in versions 8 and
/// up) a brick count.
pub open spec fn dec_owner_b(bytes: Seq<u8>, pos: int, version: u16) -> Option<
    (BrickOwnerV, int),
> {
    match dec_uuid_b(bytes, pos) {
        None => None,
        Some((id, p1)) => match dec_string_b(bytes, p1) {
            None => None,
            Some((name, p2)) => {
                if version >= 8 {
                    match dec_i32_b(bytes, p2) {
                        None => None,
                        Some((bricks, p3)) => Some(
                            (BrickOwnerV { name, id, bricks: bricks as u32 }, p3),
                        ),
                    }
                } else {
                    Some((BrickOwnerV { name, id, bricks: 0 }, p2))
                }
            },
        },
    }
}

/// Decodes `n` brick owners.
pub open spec fn dec_owners_n(bytes: Seq<u8>, pos: int, n: nat, version: u16) -> Option<
    (Seq<BrickOwnerV>, int),
>
    decreases n,
{
    if n == 0 {
        Some((seq![], pos))
    } else {
        match dec_owner_b(bytes, pos, version) {
            None => None,
            Some((o, p1)) => match dec_owners_n(bytes, p1, (n - 1) as nat, version) {
                None => None,
                Some((rest, p2)) => Some((seq![o] + rest, p2)),
            },
        }
    }
}

/// Decodes a length-prefixed array of brick owners; a negative count is
/// empty.
pub open spec fn dec_owner_array_b(bytes: Seq<u8>, pos: int, version: u16) -> Option<
    (Seq<BrickOwnerV>, int),
> {
    match dec_i32_b(bytes, pos) {
        None => None,
        Some((l, p1)) => dec_owners_n(bytes, p1, (if l >= 0 {
            l as int
        } else {
            0
        }) as nat, version),
    }
}

/// The material palette that versions before 2 imply.
pub open spec fn default_materials() -> Seq<Seq<char>> {
    seq!["BMC_Hologram"@, "BMC_Plastic"@, "BMC_Glow"@, "BMC_Metallic"@, "BMC_Glass"@]
}

/// Decodes the second header from a decompressed section.
pub open spec fn dec_header2(bytes: Seq<u8>, version: u16) -> Option<(Header2V, int)> {
    match dec_string_array_b(bytes, 0) {
        None => None,
        Some((mods, p1)) => match dec_string_array_b(bytes, p1) {
            None => None,
            Some((brick_assets, p2)) => match dec_colors_b(bytes, p2) {
                None => None,
                Some((colors, p3)) => match (if version >= 2 {
                    dec_string_array_b(bytes, p3)
                } else {
                    Some((default_materials(), p3))
                }) {
                    None => None,
                    Some((materials, p4)) => match (if version >= 3 {
                        dec_owner_array_b(bytes, p4, version)
                    } else {
                        Some((Seq::<BrickOwnerV>::empty(), p4))
                    }) {
                        None => None,
                        Some((brick_owners, p5)) => match (if version >= 9 {
                            dec_string_array_b(bytes, p5)
                        } else {
                            Some((Seq::<Seq<char>>::empty(), p5))
                        }) {
                            None => None,
                            Some((physical_materials, p6)) => Some(
                                (
                                    Header2V {
                                        mods,
                                        brick_assets,
                                        colors,
                                        materials,
                                        brick_owners,
                                        physical_materials,
                                    },
                                    p6,
                                ),
                            ),
                        },
                    },
                },
            },
        },
    }
}

/// Decodes the preview: a type byte, then (when the byte is not zero) a
/// length-prefixed run of bytes. A negative length is malformed.
pub open spec fn dec_preview(bytes: Seq<u8>, pos: int) -> Option<(PreviewV, int)> {
    match crate::wire::dec_u8_b(bytes, pos) {
        None => None,
        Some((t, p1)) => {
            if t == 0 {
                Some((PreviewV::Absent, p1))
            } else {
                match dec_i32_b(bytes, p1) {
                    None => None,
                    Some((l, p2)) => {
                        if l < 0 {
                            None
                        } else {
                            match dec_bytes_b(bytes, p2, l as int) {
                                None => None,
                                Some((data, p3)) => Some(
                                    (
                                        if t == 1 {
                                            PreviewV::PNG(data)
                                        } else if t == 2 {
                                            PreviewV::JPEG(data)
                                        } else {
                                            PreviewV::Unknown(t, data)
                                        },
                                        p3,
                                    ),
                                ),
                            }
                        }
                    },
                }
            }
        },
    }
}

/// Skipping the preview: its end position. A stored negative length skips to
/// the end of the buffer.
pub open spec fn dec_skip_preview(bytes: Seq<u8>, pos: int) -> Option<int> {
    match dec_u8_b(bytes, pos) {
        None => None,
        Some((t, p1)) => {
            if t == 0 {
                Some(p1)
            } else {
                match dec_i32_b(bytes, p1) {
                    None => None,
                    Some((l, p2)) => Some(
                        if p2 + (l as u64) <= bytes.len() {
                            p2 + (l as u64)
                        } else {
                            bytes.len() as int
                        },
                    ),
                }
            }
        },
    }
}

/// Skipping a framed section: its end position, without inflating anything.
pub open spec fn dec_skip_compressed(bytes: Seq<u8>, pos: int) -> Option<int> {
    match dec_i32_b(bytes, pos) {
        None => None,
        Some((ulen, p1)) => match dec_i32_b(bytes, p1) {
            None => None,
            Some((clen, p2)) => {
                if ulen < 0 || clen < 0 || clen > ulen {
                    None
                } else {
                    let n: int = if clen == 0 {
                        ulen as int
                    } else {
                        clen as int
                    };
                    if p2 + n <= bytes.len() {
                        Some(p2 + n)
                    } else {
                        None
                    }
                }
            },
        },
    }
}

/// Maps a framing failure to the reader's error: impossible sizes are a
/// compression error, a short source is an end-of-input error.
fn section_error(e: crate::compress::SectionError) -> (r: ReadError)
    ensures
        r == (match e {
            crate::compress::SectionError::BadSizes => ReadError::InvalidCompression,
            crate::compress::SectionError::Short => ReadError::Eof,
        }),
{
    match e {
        crate::compress::SectionError::BadSizes => ReadError::InvalidCompression,
        crate::compress::SectionError::Short => ReadError::Eof,
    }
}

/// Reads one user: a name, then an identifier.
fn read_user(cur: &mut ByteCursor) -> (r: Option<User>)
    requires
        old(cur).wf(),
    ensures
        final(cur).wf(),
        final(cur).data() == old(cur).data(),
        match dec_user_b(old(cur).data(), old(cur).position()) {
            Some((v, p)) => r matches Some(u) && u@ == v && final(cur).position() == p,
            None => r is None,
        },
{
    let name = match cur.read_string() {
        Some(s) => s,
        None => {
            return None;
        },
    };
    let id = match cur.read_uuid() {
        Some(u) => u,
        None => {
            return None;
        },
    };
    Some(User { name, id })
}

/// Reads a length-prefixed array of strings.
fn read_string_array(cur: &mut ByteCursor) -> (r: Option<Vec<String>>)
    requires
        old(cur).wf(),
    ensures
        final(cur).wf(),
        final(cur).data() == old(cur).data(),
        match dec_string_array_b(old(cur).data(), old(cur).position()) {
            Some((v, p)) => r matches Some(out) && out@.map_values(|s: String| s@) == v
                && final(cur).position() == p,
            None => r is None,
        },
{
    let ghost data = old(cur).data();
    let l = match cur.read_i32() {
        Some(v) => v,
        None => {
            return None;
        },
    };
    let n: usize = if l >= 0 {
        l as usize
    } else {
        0
    };
    let mut out: Vec<String> = Vec::new();
    let mut k: usize = 0;
    while k < n
        invariant
            k <= n,
            cur.wf(),
            cur.data() == data,
            data == old(cur).data(),
            dec_string_array_b(data, old(cur).position()) == dec_strings_n(
                data,
                old(cur).position() + 4,
                n as nat,
            ),
            dec_strings_n(data, old(cur).position() + 4, n as nat) == (match dec_strings_n(
                data,
                cur.position(),
                (n - k) as nat,
            ) {
                Some((rest, p)) => Some((out@.map_values(|s: String| s@) + rest, p)),
                None => None::<(Seq<Seq<char>>, int)>,
            }),
        decreases n - k,
    {
        let s = match cur.read_string() {
            Some(s) => s,
            None => {
                return None;
            },
        };
        let ghost pre = out@.map_values(|s: String| s@);
        out.push(s);
        proof {
            assert(out@.map_values(|s: String| s@) =~= pre + seq![s@]);
            match dec_strings_n(data, cur.position(), (n - k - 1) as nat) {
                Some((rest, p)) => {
                    assert(pre + (seq![s@] + rest) =~= (pre + seq![s@]) + rest);
                },
                None => {},
            }
        }
        k = k + 1;
    }
    proof {
        let fin = out@.map_values(|s: String| s@);
        assert(fin + seq![] =~= fin);
    }
    Some(out)
}

/// Reads a length-prefixed array of colors.
fn read_colors(cur: &mut ByteCursor) -> (r: Option<Vec<Color>>)
    requires
        old(cur).wf(),
    ensures
        final(cur).wf(),
        final(cur).data() == old(cur).data(),
        match dec_colors_b(old(cur).data(), old(cur).position()) {
            Some((v, p)) => r matches Some(out) && out@ == v && final(cur).position() == p,
            None => r is None,
        },
{
    let ghost data = old(cur).data();
    let l = match cur.read_i32() {
        Some(v) => v,
        None => {
            return None;
        },
    };
    let n: usize = if l >= 0 {
        l as usize
    } else {
        0
    };
    let ghost target = match dec_colors_b(data, old(cur).position()) {
        Some((v, p)) => v,
        None => Seq::<Color>::empty(),
    };
    let avail = cur.remaining();
    if n > avail / 4 {
        proof {
            assert(dec_colors_b(data, old(cur).position()) is None);
        }
        return None;
    }
    let bytes = match cur.read_bytes(4 * n) {
        Some(b) => b,
        None => {
            return None;
        },
    };
    let mut out: Vec<Color> = Vec::new();
    let mut k: usize = 0;
    while k < n
        invariant
            k <= n,
            4 * n <= usize::MAX as int,
            bytes@.len() == 4 * n,
            dec_colors_b(data, old(cur).position()) matches Some((v, _)) && v.len() == n
                && (forall|i: int|
                0 <= i < n ==> #[trigger] v[i] == Color {
                    r: bytes@[4 * i + 2],
                    g: bytes@[4 * i + 1],
                    b: bytes@[4 * i],
                    a: bytes@[4 * i + 3],
                }) && target == v,
            out@ == target.take(k as int),
        decreases n - k,
    {
        let c = Color {
            r: bytes[4 * k + 2],
            g: bytes[4 * k + 1],
            b: bytes[4 * k],
            a: bytes[4 * k + 3],
        };
        out.push(c);
        assert(out@ =~= target.take(k + 1));
        k = k + 1;
    }
    assert(target.take(n as int) =~= target);
    Some(out)
}

/// Reads a length-prefixed array of brick owners.
fn read_owners(cur: &mut ByteCursor, version: u16) -> (r: Option<Vec<BrickOwner>>)
    requires
        old(cur).wf(),
    ensures
        final(cur).wf(),
        final(cur).data() == old(cur).data(),
        match dec_owner_array_b(old(cur).data(), old(cur).position(), version) {
            Some((v, p)) => r matches Some(out) && out@.map_values(|o: BrickOwner| o@) == v
                && final(cur).position() == p,
            None => r is None,
        },
{
    let ghost data = old(cur).data();
    let l = match cur.read_i32() {
        Some(v) => v,
        None => {
            return None;
        },
    };
    let n: usize = if l >= 0 {
        l as usize
    } else {
        0
    };
    let mut out: Vec<BrickOwner> = Vec::new();
    let mut k: usize = 0;
    while k < n
        invariant
            k <= n,
            cur.wf(),
            cur.data() == data,
            data == old(cur).data(),
            dec_owner_array_b(data, old(cur).position(), version) == dec_owners_n(
                data,
                old(cur).position() + 4,
                n as nat,
                version,
            ),
            dec_owners_n(data, old(cur).position() + 4, n as nat, version) == (
            match dec_owners_n(data, cur.position(), (n - k) as nat, version) {
                Some((rest, p)) => Some((out@.map_values(|o: BrickOwner| o@) + rest, p)),
                None => None::<(Seq<BrickOwnerV>, int)>,
            }),
        decreases n - k,
    {
        let id = match cur.read_uuid() {
            Some(u) => u,
            None => {
                return None;
            },
        };
        let name = match cur.read_string() {
            Some(s) => s,
            None => {
                return None;
            },
        };
        let bricks: u32 = if version >= 8 {
            match cur.read_i32() {
                Some(v) => v as u32,
                None => {
                    return None;
                },
            }
        } else {
            0
        };
        let o = BrickOwner { name, id, bricks };
        let ghost pre = out@.map_values(|o: BrickOwner| o@);
        out.push(o);
        proof {
            assert(out@.map_values(|o: BrickOwner| o@) =~= pre + seq![o@]);
            match dec_owners_n(data, cur.position(), (n - k - 1) as nat, version) {
                Some((rest, p)) => {
                    assert(pre + (seq![o@] + rest) =~= (pre + seq![o@]) + rest);
                },
                None => {},
            }
        }
        k = k + 1;
    }
    proof {
        let fin = out@.map_values(|o: BrickOwner| o@);
        assert(fin + seq![] =~= fin);
    }
    Some(out)
}

/// A save reader over an owned byte buffer, enforcing the section order.
pub struct SaveReader {
    cur: ByteCursor,
    /// The container version of the save.
    pub version: u16,
    /// The game version the save was saved on.
    pub game_version: i32,
    header1_read: bool,
    header2_read: bool,
    preview_read: bool,
}

impl SaveReader {
    /// The bytes the reader parses.
    pub closed spec fn data(&self) -> Seq<u8> {
        self.cur.data()
    }

    /// The current read position.
    pub closed spec fn position(&self) -> int {
        self.cur.position()
    }

    /// The reader is well formed.
    pub closed spec fn wf(&self) -> bool {
        self.cur.wf()
    }

    /// The container version, in specifications.
    pub closed spec fn spec_version(&self) -> u16 {
        self.version
    }

    /// The game version, in specifications.
    pub closed spec fn spec_game_version(&self) -> i32 {
        self.game_version
    }

    /// Whether the first header was consumed.
    pub closed spec fn h1_read(&self) -> bool {
        self.header1_read
    }

    /// Whether the second header was consumed.
    pub closed spec fn h2_read(&self) -> bool {
        self.header2_read
    }

    /// Whether the preview was consumed (or absent by construction).
    pub closed spec fn pv_read(&self) -> bool {
        self.preview_read
    }

    /// Builds a reader over a save file's bytes, consuming its prelude.
    /// Fails with `BadHeader` exactly when the magic bytes are present but
    /// wrong, and with `Eof` when the prelude is cut short.
    pub fn new(bytes: Vec<u8>) -> (r: Result<SaveReader, ReadError>)
        ensures
            match dec_prelude(bytes@) {
                Some(((version, gv), p)) => r matches Ok(rd) && rd.wf() && rd.data() == bytes@
                    && rd.position() == p && rd.spec_version() == version
                    && rd.spec_game_version() == gv && !rd.h1_read() && !rd.h2_read()
                    && rd.pv_read() == (version < 8),
                None => r is Err,
            },
            r is Err ==> (r == Err::<SaveReader, ReadError>(ReadError::BadHeader) || r == Err::<
                SaveReader,
                ReadError,
            >(ReadError::Eof)),
            (r == Err::<SaveReader, ReadError>(ReadError::BadHeader)) <==> (bytes@.len() >= 3
                && bytes@.subrange(0, 3) != crate::spec_magic()),
    {
        let mut cur = ByteCursor::new(bytes);
        let magic = match cur.read_bytes(3) {
            Some(m) => m,
            None => {
                return Err(ReadError::Eof);
            },
        };
        if !(magic[0] == 0x42 && magic[1] == 0x52 && magic[2] == 0x53) {
            proof {
                assert(magic@ == bytes@.subrange(0, 3));
                assert(magic@ != crate::spec_magic());
            }
            return Err(ReadError::BadHeader);
        }
        proof {
            assert(magic@ =~= crate::spec_magic());
        }
        let version = match cur.read_u16() {
            Some(v) => v,
            None => {
                return Err(ReadError::Eof);
            },
        };
        let game_version: i32 = if version >= 8 {
            match cur.read_i32() {
                Some(v) => v,
                None => {
                    return Err(ReadError::Eof);
                },
            }
        } else {
            0
        };
        Ok(
            SaveReader {
                cur,
                version,
                game_version,
                header1_read: false,
                header2_read: false,
                preview_read: version < 8,
            },
        )
    }

    /// Skips the first header without inflating it.
    pub fn skip_header1(&mut self) -> (r: Result<(), ReadError>)
        requires
            old(self).wf(),
        ensures
            final(self).wf(),
            final(self).data() == old(self).data(),
            final(self).spec_version() == old(self).spec_version(),
            final(self).spec_game_version() == old(self).spec_game_version(),
            final(self).h2_read() == old(self).h2_read(),
            final(self).pv_read() == old(self).pv_read(),
            match dec_skip_compressed(old(self).data(), old(self).position()) {
                Some(end) => r is Ok && final(self).position() == end && final(self).h1_read(),
                None => r is Err,
            },
    {
        match self.skip_section() {
            Ok(()) => {
                self.header1_read = true;
                Ok(())
            },
            Err(e) => Err(e),
        }
    }

    /// Skips the second header without inflating it.
    pub fn skip_header2(&mut self) -> (r: Result<(), ReadError>)
        requires
            old(self).wf(),
        ensures
            final(self).wf(),
            final(self).data() == old(self).data(),
            final(self).spec_version() == old(self).spec_version(),
            final(self).spec_game_version() == old(self).spec_game_version(),
            final(self).h1_read() == old(self).h1_read(),
            final(self).pv_read() == old(self).pv_read(),
            match dec_skip_compressed(old(self).data(), old(self).position()) {
                Some(end) => r is Ok && final(self).position() == end && final(self).h2_read(),
                None => r is Err,
            },
    {
        match self.skip_section() {
            Ok(()) => {
                self.header2_read = true;
                Ok(())
            },
            Err(e) => Err(e),
        }
    }

    /// Skips one framed section.
    fn skip_section(&mut self) -> (r: Result<(), ReadError>)
        requires
            old(self).wf(),
        ensures
            final(self).wf(),
            final(self).data() == old(self).data(),
            final(self).spec_version() == old(self).spec_version(),
            final(self).spec_game_version() == old(self).spec_game_version(),
            final(self).h1_read() == old(self).h1_read(),
            final(self).h2_read() == old(self).h2_read(),
            final(self).pv_read() == old(self).pv_read(),
            match dec_skip_compressed(old(self).data(), old(self).position()) {
                Some(end) => r is Ok && final(self).position() == end,
                None => r is Err,
            },
    {
        let ulen = match self.cur.read_i32() {
            Some(v) => v,
            None => {
                return Err(ReadError::Eof);
            },
        };
        let clen = match self.cur.read_i32() {
            Some(v) => v,
            None => {
                return Err(ReadError::Eof);
            },
        };
        if ulen < 0 || clen < 0 || clen > ulen {
            return Err(ReadError::InvalidCompression);
        }
        let n: usize = if clen == 0 {
            ulen as usize
        } else {
            clen as usize
        };
        if self.cur.skip(n) {
            Ok(())
        } else {
            Err(ReadError::Eof)
        }
    }

    /// Reads the first header.
    #[verifier::rlimit(100)]
    #[verifier::spinoff_prover]
    pub fn read_header1(&mut self) -> (r: Result<Header1, ReadError>)
        requires
            old(self).wf(),
        ensures
            final(self).wf(),
            final(self).data() == old(self).data(),
            final(self).spec_version() == old(self).spec_version(),
            final(self).spec_game_version() == old(self).spec_game_version(),
            final(self).h2_read() == old(self).h2_read(),
            final(self).pv_read() == old(self).pv_read(),
            match dec_compressed(old(self).data(), old(self).position()) {
                Some((payload, p)) => match dec_header1(payload, old(self).spec_version()) {
                    Some((hv, _)) => r matches Ok(h) && h@ == hv && final(self).position() == p
                        && final(self).h1_read(),
                    None => r is Err,
                },
                None => r is Err,
            },
            (r == Err::<Header1, ReadError>(ReadError::InvalidDataHeader1)) <==> (
            match dec_compressed(old(self).data(), old(self).position()) {
                Some((payload, _)) => match dec_header1_raw(payload, old(
                    self,
                ).spec_version()) {
                    Some((_, count, _)) => count < 0,
                    None => false,
                },
                None => false,
            }),
    {
        let payload = match read_compressed(&mut self.cur) {
            Ok(p) => p,
            Err(e) => {
                return Err(section_error(e));
            },
        };
        let mut c = ByteCursor::new(payload);
        let map = match c.read_string() {
            Some(s) => s,
            None => {
                return Err(ReadError::InvalidData);
            },
        };
        let author_name = match c.read_string() {
            Some(s) => s,
            None => {
                return Err(ReadError::InvalidData);
            },
        };
        let description = match c.read_string() {
            Some(s) => s,
            None => {
                return Err(ReadError::InvalidData);
            },
        };
        let author_id = match c.read_uuid() {
            Some(u) => u,
            None => {
                return Err(ReadError::Eof);
            },
        };
        let host: Option<User> = if self.version >= 8 {
            match read_user(&mut c) {
                Some(u) => Some(u),
                None => {
                    return Err(ReadError::InvalidData);
                },
            }
        } else {
            None
        };
        let save_time: [u8; 8] = if self.version >= 4 {
            match c.read_bytes(8) {
                Some(v) => {
                    let st = [v[0], v[1], v[2], v[3], v[4], v[5], v[6], v[7]];
                    proof {
                        assert(st@ =~= v@);
                    }
                    st
                },
                None => {
                    return Err(ReadError::Eof);
                },
            }
        } else {
            let st = [0u8; 8];
            proof {
                assert(st@ =~= Seq::new(8, |i: int| 0u8));
            }
            st
        };
        let count = match c.read_i32() {
            Some(v) => v,
            None => {
                return Err(ReadError::Eof);
            },
        };
        if count < 0 {
            return Err(ReadError::InvalidDataHeader1);
        }
        self.header1_read = true;
        let h = Header1 {
            map,
            description,
            author: User { name: author_name, id: author_id },
            host,
            save_time,
            brick_count: count as u32,
        };
        Ok(h)
    }

    /// Reads the second header; the first header must have been consumed.
    #[verifier::rlimit(100)]
    #[verifier::spinoff_prover]
    pub fn read_header2(&mut self) -> (r: Result<Header2, ReadError>)
        requires
            old(self).wf(),
        ensures
            final(self).wf(),
            final(self).data() == old(self).data(),
            final(self).spec_version() == old(self).spec_version(),
            final(self).spec_game_version() == old(self).spec_game_version(),
            !old(self).h1_read() ==> r == Err::<Header2, ReadError>(
                ReadError::BadSectionReadOrder,
            ) && *final(self) == *old(self),
            old(self).h1_read() ==> final(self).h1_read() && final(self).pv_read() == old(self).pv_read() && (match dec_compressed(old(self).data(), old(self).position()) {
                Some((payload, p)) => match dec_header2(payload, old(self).spec_version()) {
                    Some((hv, _)) => r matches Ok(h) && h@ == hv && final(self).position() == p
                        && final(self).h2_read(),
                    None => r is Err,
                },
                None => r is Err,
            }),
    {
        if !self.header1_read {
            return Err(ReadError::BadSectionReadOrder);
        }
        let payload = match read_compressed(&mut self.cur) {
            Ok(p) => p,
            Err(e) => {
                return Err(section_error(e));
            },
        };
        let mut c = ByteCursor::new(payload);
        let mods = match read_string_array(&mut c) {
            Some(v) => v,
            None => {
                return Err(ReadError::InvalidData);
            },
        };
        let brick_assets = match read_string_array(&mut c) {
            Some(v) => v,
            None => {
                return Err(ReadError::InvalidData);
            },
        };
        let colors = match read_colors(&mut c) {
            Some(v) => v,
            None => {
                return Err(ReadError::Eof);
            },
        };
        let materials: Vec<String> = if self.version >= 2 {
            match read_string_array(&mut c) {
                Some(v) => v,
                None => {
                    return Err(ReadError::InvalidData);
                },
            }
        } else {
            let mut v: Vec<String> = Vec::new();
            v.push("BMC_Hologram".to_owned());
            v.push("BMC_Plastic".to_owned());
            v.push("BMC_Glow".to_owned());
            v.push("BMC_Metallic".to_owned());
            v.push("BMC_Glass".to_owned());
            proof {
                assert(v@.map_values(|s: String| s@) =~= default_materials());
            }
            v
        };
        let brick_owners: Vec<BrickOwner> = if self.version >= 3 {
            match read_owners(&mut c, self.version) {
                Some(v) => v,
                None => {
                    return Err(ReadError::InvalidData);
                },
            }
        } else {
            let v: Vec<BrickOwner> = Vec::new();
            proof {
                assert(v@.map_values(|o: BrickOwner| o@) =~= Seq::<BrickOwnerV>::empty());
            }
            v
        };
        let physical_materials: Vec<String> = if self.version >= 9 {
            match read_string_array(&mut c) {
                Some(v) => v,
                None => {
                    return Err(ReadError::InvalidData);
                },
            }
        } else {
            let v: Vec<String> = Vec::new();
            proof {
                assert(v@.map_values(|s: String| s@) =~= Seq::<Seq<char>>::empty());
            }
            v
        };
        self.header2_read = true;
        Ok(
            Header2 {
                mods,
                brick_assets,
                colors,
                materials,
                brick_owners,
                physical_materials,
            },
        )
    }

    /// Reads the preview; the second header must have been consumed. In
    /// versions before 8 there is no preview and nothing is consumed.
    pub fn read_preview(&mut self) -> (r: Result<Preview, ReadError>)
        requires
            old(self).wf(),
        ensures
            final(self).wf(),
            final(self).data() == old(self).data(),
            final(self).spec_version() == old(self).spec_version(),
            final(self).spec_game_version() == old(self).spec_game_version(),
            !old(self).h2_read() ==> r == Err::<Preview, ReadError>(
                ReadError::BadSectionReadOrder,
            ) && *final(self) == *old(self),
            old(self).h2_read() && old(self).spec_version() < 8 ==> (r matches Ok(p) && p
                is Absent) && *final(self) == *old(self),
            old(self).h2_read() && old(self).spec_version() >= 8 ==> final(self).h1_read()
                == old(self).h1_read() && final(self).h2_read() && (match dec_preview(
                old(self).data(),
                old(self).position(),
            ) {
                Some((pv, p)) => r matches Ok(v) && v@ == pv && final(self).position() == p
                    && final(self).pv_read(),
                None => r is Err,
            }),
    {
        if !self.header2_read {
            return Err(ReadError::BadSectionReadOrder);
        }
        if self.version < 8 {
            return Ok(Preview::Absent);
        }
        let t = match self.cur.read_u8() {
            Some(t) => t,
            None => {
                return Err(ReadError::Eof);
            },
        };
        let preview = if t == 0 {
            Preview::Absent
        } else {
            let l = match self.cur.read_i32() {
                Some(l) => l,
                None => {
                    return Err(ReadError::Eof);
                },
            };
            if l < 0 {
                return Err(ReadError::InvalidData);
            }
            let data = match self.cur.read_bytes(l as usize) {
                Some(d) => d,
                None => {
                    return Err(ReadError::Eof);
                },
            };
            if t == 1 {
                Preview::PNG(data)
            } else if t == 2 {
                Preview::JPEG(data)
            } else {
                Preview::Unknown(t, data)
            }
        };
        self.preview_read = true;
        Ok(preview)
    }

    /// Skips the preview; the second header must have been consumed. A
    /// stored length that runs past the end of the buffer skips to the end.
    pub fn skip_preview(&mut self) -> (r: Result<(), ReadError>)
        requires
            old(self).wf(),
        ensures
            final(self).wf(),
            final(self).data() == old(self).data(),
            final(self).spec_version() == old(self).spec_version(),
            final(self).spec_game_version() == old(self).spec_game_version(),
            !old(self).h2_read() ==> r == Err::<(), ReadError>(ReadError::BadSectionReadOrder)
                && *final(self) == *old(self),
            old(self).h2_read() ==> final(self).h1_read() == old(self).h1_read() && final(self).h2_read(),
            old(self).h2_read() && old(self).spec_version() < 8 ==> r is Ok && *final(self)
                == *old(self),
            old(self).h2_read() && old(self).spec_version() >= 8 ==> (match dec_skip_preview(
                old(self).data(),
                old(self).position(),
            ) {
                Some(end) => r is Ok && final(self).position() == end && final(self).pv_read(),
                None => r == Err::<(), ReadError>(ReadError::Eof),
            }),
    {
        if !self.header2_read {
            return Err(ReadError::BadSectionReadOrder);
        }
        if self.version < 8 {
            return Ok(());
        }
        let t = match self.cur.read_u8() {
            Some(t) => t,
            None => {
                return Err(ReadError::Eof);
            },
        };
        if t != 0 {
            let l = match self.cur.read_i32() {
                Some(l) => l,
                None => {
                    return Err(ReadError::Eof);
                },
            };
            self.cur.skip_clamped(l as u64);
        }
        self.preview_read = true;
        Ok(())
    }
}



/// The width bound `read_uint` uses for a palette: its length, floored at 2.
pub open spec fn width_of(n: nat) -> u32 {
    if n < 2 {
        2
    } else {
        n as u32
    }
}

/// Decodes one brick from the brick bit stream.
#[verifier::opaque]
pub open spec fn dec_brick(
    bits: Seq<bool>,
    pos: int,
    version: u16,
    nassets: u32,
    nmats: u32,
    nphys: u32,
    ncolors: u32,
) -> Option<(BrickV, int)> {
    match dec_uint(bits, pos, nassets) {
        None => None,
        Some((asset, p1)) => match dec_bit(bits, p1) {
            None => None,
            Some((proc_bit, p2)) => match (if proc_bit {
                match dec_uint_packed(bits, p2) {
                    None => None,
                    Some((x, q1)) => match dec_uint_packed(bits, q1) {
                        None => None,
                        Some((y, q2)) => match dec_uint_packed(bits, q2) {
                            None => None,
                            Some((z, q3)) => Some((Size::Procedural(x, y, z), q3)),
                        },
                    },
                }
            } else {
                Some((Size::Empty, p2))
            }) {
                None => None,
                Some((size, p3)) => match dec_int_packed(bits, p3) {
                    None => None,
                    Some((px, p4)) => match dec_int_packed(bits, p4) {
                        None => None,
                        Some((py, p5)) => match dec_int_packed(bits, p5) {
                            None => None,
                            Some((pz, p6)) => match dec_uint(bits, p6, 24) {
                                None => None,
                                Some((orientation, p7)) => match (if version >= 10 {
                                    match dec_bit(bits, p7) {
                                        None => None,
                                        Some((c1, r1)) => match dec_bit(bits, r1) {
                                            None => None,
                                            Some((c2, r2)) => match dec_bit(bits, r2) {
                                                None => None,
                                                Some((c3, r3)) => match dec_bit(bits, r3) {
                                                    None => None,
                                                    Some((c4, r4)) => Some(
                                                        (
                                                            Collision {
                                                                player: c1,
                                                                weapon: c2,
                                                                interaction: c3,
                                                                tool: c4,
                                                            },
                                                            r4,
                                                        ),
                                                    ),
                                                },
                                            },
                                        },
                                    }
                                } else {
                                    match dec_bit(bits, p7) {
                                        None => None,
                                        Some((c, r1)) => Some(
                                            (
                                                Collision {
                                                    player: c,
                                                    weapon: c,
                                                    interaction: c,
                                                    tool: c,
                                                },
                                                r1,
                                            ),
                                        ),
                                    }
                                }) {
                                    None => None,
                                    Some((collision, p8)) => match dec_bit(bits, p8) {
                                        None => None,
                                        Some((visibility, p9)) => match (if version >= 8 {
                                            dec_uint(bits, p9, nmats)
                                        } else {
                                            match dec_bit(bits, p9) {
                                                None => None,
                                                Some((mb, r1)) => {
                                                    if mb {
                                                        dec_uint_packed(bits, r1)
                                                    } else {
                                                        Some((1u32, r1))
                                                    }
                                                },
                                            }
                                        }) {
                                            None => None,
                                            Some((material_index, p10)) => match (if version
                                                >= 9 {
                                                dec_uint(bits, p10, nphys)
                                            } else {
                                                Some((0u32, p10))
                                            }) {
                                                None => None,
                                                Some((physical_index, p11)) => match (
                                                if version >= 9 {
                                                    dec_uint(bits, p11, 11)
                                                } else {
                                                    Some((5u32, p11))
                                                }) {
                                                    None => None,
                                                    Some((material_intensity, p12)) => match
                                                        dec_brick_color(
                                                        bits,
                                                        p12,
                                                        version,
                                                        ncolors,
                                                    ) {
                                                        None => None,
                                                        Some((color, p13)) => match (
                                                        if version >= 3 {
                                                            dec_uint_packed(bits, p13)
                                                        } else {
                                                            Some((0u32, p13))
                                                        }) {
                                                            None => None,
                                                            Some((owner_index, p14)) => Some(
                                                                (
                                                                    BrickV {
                                                                        asset_name_index: asset,
                                                                        size,
                                                                        position: (px, py, pz),
                                                                        direction: dir_of(
                                                                            orientation,
                                                                        ),
                                                                        rotation: rot_of(
                                                                            orientation,
                                                                        ),
                                                                        collision,
                                                                        visibility,
                                                                        material_index,
                                                                        physical_index,
                                                                        material_intensity,
                                                                        color,
                                                                        owner_index,
                                                                        components: seq![],
                                                                    },
                                                                    p14,
                                                                ),
                                                            ),
                                                        },
                                                    },
                                                },
                                            },
                                        },
                                    },
                                },
                            },
                        },
                    },
                },
            },
        },
    }
}

/// The direction a wire orientation denotes.
pub open spec fn dir_of(orientation: u32) -> Direction {
    match Direction::spec_from_u8((((orientation >> 2u32) % 6) as u8)) {
        Some(d) => d,
        None => Direction::XPositive,
    }
}

/// The rotation a wire orientation denotes.
pub open spec fn rot_of(orientation: u32) -> Rotation {
    match Rotation::spec_from_u8((orientation & 3) as u8) {
        Some(r) => r,
        None => Rotation::Deg0,
    }
}

/// Decodes a brick's color: either a unique color or a palette index.
pub open spec fn dec_brick_color(bits: Seq<bool>, pos: int, version: u16, ncolors: u32) -> Option<
    (BrickColor, int),
> {
    match dec_bit(bits, pos) {
        None => None,
        Some((unique, p1)) => {
            if unique {
                if version >= 9 {
                    match dec_bytes_bits(bits, p1, 3) {
                        None => None,
                        Some((w, p2)) => Some(
                            (
                                BrickColor::Unique(
                                    Color { r: w[0], g: w[1], b: w[2], a: 255 },
                                ),
                                p2,
                            ),
                        ),
                    }
                } else {
                    match dec_bytes_bits(bits, p1, 4) {
                        None => None,
                        Some((w, p2)) => Some(
                            (
                                BrickColor::Unique(
                                    Color { r: w[2], g: w[1], b: w[0], a: w[3] },
                                ),
                                p2,
                            ),
                        ),
                    }
                }
            } else {
                match dec_uint(bits, p1, ncolors) {
                    None => None,
                    Some((i, p2)) => Some((BrickColor::Index(i), p2)),
                }
            }
        },
    }
}

/// Decodes up to `remaining` bricks: byte-align, stop at the count or the
/// end of the stream, else one brick and recurse.
pub open spec fn dec_bricks(
    bits: Seq<bool>,
    pos: int,
    remaining: nat,
    version: u16,
    nassets: u32,
    nmats: u32,
    nphys: u32,
    ncolors: u32,
) -> Option<(Seq<BrickV>, int)>
    decreases remaining,
{
    let p = align8(pos);
    if remaining == 0 || p >= bits.len() {
        Some((seq![], p))
    } else {
        match dec_brick(bits, p, version, nassets, nmats, nphys, ncolors) {
            None => None,
            Some((b, p2)) => match dec_bricks(
                bits,
                p2,
                (remaining - 1) as nat,
                version,
                nassets,
                nmats,
                nphys,
                ncolors,
            ) {
                None => None,
                Some((rest, p3)) => Some((seq![b] + rest, p3)),
            },
        }
    }
}


/// Reads one brick from the brick bit stream.
#[verifier::rlimit(100)]
#[verifier::spinoff_prover]
fn read_brick(
    cur: &mut BitCursor,
    version: u16,
    nassets: u32,
    nmats: u32,
    nphys: u32,
    ncolors: u32,
) -> (r: Option<Brick>)
    requires
        old(cur).wf(),
    ensures
        final(cur).wf(),
        final(cur).bits() == old(cur).bits(),
        match dec_brick(old(cur).bits(), old(cur).position(), version, nassets, nmats, nphys,
            ncolors) {
            Some((bv, p)) => r matches Some(b) && b@ == bv && final(cur).position() == p,
            None => r is None,
        },
{
    proof {
        reveal(dec_brick);
    }
    let asset_name_index = match cur.read_uint(nassets) {
        Some(v) => v,
        None => {
            return None;
        },
    };
    let proc_bit = match cur.read_bit() {
        Some(b) => b,
        None => {
            return None;
        },
    };
    let size = if proc_bit {
        let x = match cur.read_uint_packed() {
            Some(v) => v,
            None => {
                return None;
            },
        };
        let y = match cur.read_uint_packed() {
            Some(v) => v,
            None => {
                return None;
            },
        };
        let z = match cur.read_uint_packed() {
            Some(v) => v,
            None => {
                return None;
            },
        };
        Size::Procedural(x, y, z)
    } else {
        Size::Empty
    };
    let px = match cur.read_int_packed() {
        Some(v) => v,
        None => {
            return None;
        },
    };
    let py = match cur.read_int_packed() {
        Some(v) => v,
        None => {
            return None;
        },
    };
    let pz = match cur.read_int_packed() {
        Some(v) => v,
        None => {
            return None;
        },
    };
    let orientation = match cur.read_uint(24) {
        Some(v) => v,
        None => {
            return None;
        },
    };
    let direction = match Direction::from_u8(((orientation >> 2) % 6) as u8) {
        Some(d) => d,
        None => {
            proof {
                assert(false);
            }
            Direction::XPositive
        },
    };
    proof {
        assert((orientation & 3) < 4) by (bit_vector);
    }
    let rotation = match Rotation::from_u8((orientation & 3) as u8) {
        Some(d) => d,
        None => {
            proof {
                assert(false);
            }
            Rotation::Deg0
        },
    };
    let collision = if version >= 10 {
        let c1 = match cur.read_bit() {
            Some(b) => b,
            None => {
                return None;
            },
        };
        let c2 = match cur.read_bit() {
            Some(b) => b,
            None => {
                return None;
            },
        };
        let c3 = match cur.read_bit() {
            Some(b) => b,
            None => {
                return None;
            },
        };
        let c4 = match cur.read_bit() {
            Some(b) => b,
            None => {
                return None;
            },
        };
        Collision { player: c1, weapon: c2, interaction: c3, tool: c4 }
    } else {
        let c = match cur.read_bit() {
            Some(b) => b,
            None => {
                return None;
            },
        };
        Collision::for_all(c)
    };
    let visibility = match cur.read_bit() {
        Some(b) => b,
        None => {
            return None;
        },
    };
    let material_index = if version >= 8 {
        match cur.read_uint(nmats) {
            Some(v) => v,
            None => {
                return None;
            },
        }
    } else {
        let mb = match cur.read_bit() {
            Some(b) => b,
            None => {
                return None;
            },
        };
        if mb {
            match cur.read_uint_packed() {
                Some(v) => v,
                None => {
                    return None;
                },
            }
        } else {
            1
        }
    };
    let physical_index = if version >= 9 {
        match cur.read_uint(nphys) {
            Some(v) => v,
            None => {
                return None;
            },
        }
    } else {
        0
    };
    let material_intensity = if version >= 9 {
        match cur.read_uint(11) {
            Some(v) => v,
            None => {
                return None;
            },
        }
    } else {
        5
    };
    let unique = match cur.read_bit() {
        Some(b) => b,
        None => {
            return None;
        },
    };
    let color = if unique {
        if version >= 9 {
            let w = match cur.read_bytes(3) {
                Some(w) => w,
                None => {
                    return None;
                },
            };
            BrickColor::Unique(Color { r: w[0], g: w[1], b: w[2], a: 255 })
        } else {
            let w = match cur.read_bytes(4) {
                Some(w) => w,
                None => {
                    return None;
                },
            };
            BrickColor::Unique(Color { r: w[2], g: w[1], b: w[0], a: w[3] })
        }
    } else {
        match cur.read_uint(ncolors) {
            Some(i) => BrickColor::Index(i),
            None => {
                return None;
            },
        }
    };
    let owner_index = if version >= 3 {
        match cur.read_uint_packed() {
            Some(v) => v,
            None => {
                return None;
            },
        }
    } else {
        0
    };
    let b = Brick {
        asset_name_index,
        size,
        position: (px, py, pz),
        direction,
        rotation,
        collision,
        visibility,
        material_index,
        physical_index,
        material_intensity,
        color,
        owner_index,
        components: Vec::new(),
    };
    proof {
        assert(b@.components =~= Seq::<(Seq<char>, Seq<(Seq<char>, crate::save::UnrealTypeV)>)>::empty());
    }
    Some(b)
}


/// Decodes `n` variable-width values with width bound `width`.
pub open spec fn dec_uints_n(bits: Seq<bool>, pos: int, n: nat, width: u32) -> Option<
    (Seq<u32>, int),
>
    decreases n,
{
    if n == 0 {
        Some((seq![], pos))
    } else {
        match dec_uint(bits, pos, width) {
            None => None,
            Some((v, p1)) => match dec_uints_n(bits, p1, (n - 1) as nat, width) {
                None => None,
                Some((rest, p2)) => Some((seq![v] + rest, p2)),
            },
        }
    }
}

/// Decodes `n` pairs of strings.
pub open spec fn dec_string_pairs_n(bits: Seq<bool>, pos: int, n: nat) -> Option<
    (Seq<(Seq<char>, Seq<char>)>, int),
>
    decreases n,
{
    if n == 0 {
        Some((seq![], pos))
    } else {
        match dec_string_bits(bits, pos) {
            None => None,
            Some((a, p1)) => match dec_string_bits(bits, p1) {
                None => None,
                Some((b, p2)) => match dec_string_pairs_n(bits, p2, (n - 1) as nat) {
                    None => None,
                    Some((rest, p3)) => Some((seq![(a, b)] + rest, p3)),
                },
            },
        }
    }
}

/// Decodes one property value, guided by its declared type name; an unknown
/// name is malformed.
pub open spec fn dec_unreal(bits: Seq<bool>, pos: int, t: Seq<char>) -> Option<
    (UnrealTypeV, int),
> {
    if t == "Class"@ || t == "Object"@ {
        match dec_string_bits(bits, pos) {
            None => None,
            Some((s, p)) => Some((UnrealTypeV::Class(s), p)),
        }
    } else if t == "String"@ {
        match dec_string_bits(bits, pos) {
            None => None,
            Some((s, p)) => Some((UnrealTypeV::String(s), p)),
        }
    } else if t == "Boolean"@ {
        match dec_i32_bits(bits, pos) {
            None => None,
            Some((v, p)) => Some((UnrealTypeV::Boolean(v != 0), p)),
        }
    } else if t == "Float"@ {
        match dec_u32_bits(bits, pos) {
            None => None,
            Some((v, p)) => Some((UnrealTypeV::Float(v), p)),
        }
    } else if t == "Color"@ {
        match dec_bytes_bits(bits, pos, 4) {
            None => None,
            Some((w, p)) => Some(
                (UnrealTypeV::Color(Color { r: w[2], g: w[1], b: w[0], a: w[3] }), p),
            ),
        }
    } else if t == "Byte"@ {
        match dec_bytes_bits(bits, pos, 1) {
            None => None,
            Some((w, p)) => Some((UnrealTypeV::Byte(w[0]), p)),
        }
    } else if t == "Rotator"@ {
        match dec_u32_bits(bits, pos) {
            None => None,
            Some((x, p1)) => match dec_u32_bits(bits, p1) {
                None => None,
                Some((y, p2)) => match dec_u32_bits(bits, p2) {
                    None => None,
                    Some((z, p3)) => Some((UnrealTypeV::Rotator(x, y, z), p3)),
                },
            },
        }
    } else {
        None
    }
}

/// Decodes one property table: one value for each declared property, in
/// declaration order.
pub open spec fn dec_table(bits: Seq<bool>, pos: int, props: Seq<(Seq<char>, Seq<char>)>) -> Option<
    (Seq<(Seq<char>, UnrealTypeV)>, int),
>
    decreases props.len(),
{
    if props.len() == 0 {
        Some((seq![], pos))
    } else {
        match dec_unreal(bits, pos, props[0].1) {
            None => None,
            Some((v, p1)) => match dec_table(bits, p1, props.drop_first()) {
                None => None,
                Some((rest, p2)) => Some((seq![(props[0].0, v)] + rest, p2)),
            },
        }
    }
}

/// Adds one component's table to one brick.
pub open spec fn add_table(
    bricks: Seq<BrickV>,
    i: int,
    name: Seq<char>,
    table: Seq<(Seq<char>, UnrealTypeV)>,
) -> Seq<BrickV>
    recommends
        0 <= i < bricks.len(),
{
    bricks.update(i, BrickV { components: bricks[i].components.push((name, table)), ..bricks[i] })
}

/// Whether a brick already carries a table under `name`.
pub open spec fn brick_has_table(b: BrickV, name: Seq<char>) -> bool {
    exists|j: int| 0 <= j < b.components.len() && (#[trigger] b.components[j]).0 == name
}

/// Decodes one property table per referenced brick, in reference order,
/// attaching each to its brick; an index out of range, or a brick already
/// carrying a table under this name, is malformed — so each brick's tables
/// keep unique names.
pub open spec fn dec_tables(
    bits: Seq<bool>,
    pos: int,
    indices: Seq<u32>,
    props: Seq<(Seq<char>, Seq<char>)>,
    name: Seq<char>,
    bricks: Seq<BrickV>,
) -> Option<(Seq<BrickV>, int)>
    decreases indices.len(),
{
    if indices.len() == 0 {
        Some((bricks, pos))
    } else if indices[0] >= bricks.len() || brick_has_table(
        bricks[indices[0] as int],
        name,
    ) {
        None
    } else {
        match dec_table(bits, pos, props) {
            None => None,
            Some((table, p1)) => dec_tables(
                bits,
                p1,
                indices.drop_first(),
                props,
                name,
                add_table(bricks, indices[0] as int, name, table),
            ),
        }
    }
}

/// Decodes one component: its name, its framed inner bit stream, and the
/// property tables it attaches to bricks.
#[verifier::opaque]
pub open spec fn dec_component(bytes: Seq<u8>, pos: int, bcwidth: u32, bricks: Seq<BrickV>) -> Option<
    ((Seq<char>, ComponentV), Seq<BrickV>, int),
> {
    match dec_string_b(bytes, pos) {
        None => None,
        Some((name, p1)) => match dec_i32_b(bytes, p1) {
            None => None,
            Some((blen, p2)) => {
                if blen < 0 {
                    None
                } else {
                    match dec_bytes_b(bytes, p2, blen as int) {
                        None => None,
                        Some((sub, p3)) => {
                            let bits = stream_bits(sub);
                            match dec_i32_bits(bits, 0) {
                                None => None,
                                Some((cversion, q1)) => match dec_i32_bits(bits, q1) {
                                    None => None,
                                    Some((icount, q2)) => match dec_uints_n(bits, q2, (
                                    if icount >= 0 {
                                        icount as int
                                    } else {
                                        0
                                    }) as nat, bcwidth) {
                                        None => None,
                                        Some((indices, q3)) => match dec_i32_bits(bits, q3) {
                                            None => None,
                                            Some((pcount, q4)) => match dec_string_pairs_n(
                                                bits,
                                                q4,
                                                (if pcount >= 0 {
                                                    pcount as int
                                                } else {
                                                    0
                                                }) as nat,
                                            ) {
                                                None => None,
                                                Some((props, q5)) => match dec_tables(
                                                    bits,
                                                    q5,
                                                    indices,
                                                    props,
                                                    name,
                                                    bricks,
                                                ) {
                                                    None => None,
                                                    Some((bricks2, _)) => Some(
                                                        (
                                                            (
                                                                name,
                                                                ComponentV {
                                                                    version: cversion,
                                                                    brick_indices: indices,
                                                                    properties: props,
                                                                },
                                                            ),
                                                            bricks2,
                                                            p3,
                                                        ),
                                                    ),
                                                },
                                            },
                                        },
                                    },
                                },
                            }
                        },
                    }
                }
            },
        },
    }
}

/// Decodes `n` components in order, threading the brick updates through; a
/// component name repeating one in `seen` is malformed — so the component
/// table keeps unique names.
pub open spec fn dec_components_n(
    bytes: Seq<u8>,
    pos: int,
    n: nat,
    bcwidth: u32,
    bricks: Seq<BrickV>,
    seen: Seq<Seq<char>>,
) -> Option<(Seq<(Seq<char>, ComponentV)>, Seq<BrickV>, int)>
    decreases n,
{
    if n == 0 {
        Some((seq![], bricks, pos))
    } else {
        match dec_component(bytes, pos, bcwidth, bricks) {
            None => None,
            Some((c, bricks2, p1)) => {
                if seen.contains(c.0) {
                    None
                } else {
                    match dec_components_n(
                        bytes,
                        p1,
                        (n - 1) as nat,
                        bcwidth,
                        bricks2,
                        seen.push(c.0),
                    ) {
                        None => None,
                        Some((rest, bricks3, p2)) => Some((seq![c] + rest, bricks3, p2)),
                    }
                }
            },
        }
    }
}

/// Decodes the components section: a count, then that many components, their
/// names unique.
pub open spec fn dec_components(bytes: Seq<u8>, bcwidth: u32, bricks: Seq<BrickV>) -> Option<
    (Seq<(Seq<char>, ComponentV)>, Seq<BrickV>, int),
> {
    match dec_i32_b(bytes, 0) {
        None => None,
        Some((l, p1)) => dec_components_n(bytes, p1, (if l >= 0 {
            l as int
        } else {
            0
        }) as nat, bcwidth, bricks, seq![]),
    }
}

/// Whether two strings hold the same characters.
pub(crate) fn str_eq(a: &str, b: &str) -> (r: bool)
    ensures
        r == (a@ == b@),
{
    broadcast use vstd::utf8::encode_utf8_decode_utf8;

    let ab = a.as_bytes();
    let bb = b.as_bytes();
    if ab.len() != bb.len() {
        proof {
            if a@ == b@ {
                assert(ab@ == bb@);
            }
        }
        return false;
    }
    let n = ab.len();
    let mut i: usize = 0;
    while i < n
        invariant
            i <= n,
            n == ab@.len() && n == bb@.len(),
            ab@ == a.spec_bytes() && bb@ == b.spec_bytes(),
            forall|j: int| 0 <= j < i ==> ab@[j] == bb@[j],
        decreases n - i,
    {
        if *vstd::slice::slice_index_get(ab, i) != *vstd::slice::slice_index_get(bb, i) {
            proof {
                if a@ == b@ {
                    assert(ab@ == bb@);
                }
            }
            return false;
        }
        i = i + 1;
    }
    proof {
        assert(ab@ =~= bb@);
        assert(vstd::utf8::decode_utf8(vstd::utf8::encode_utf8(a@)) == a@);
        assert(vstd::utf8::decode_utf8(vstd::utf8::encode_utf8(b@)) == b@);
    }
    true
}

/// Reads one property value, guided by its declared type name.
fn read_unreal(cur: &mut BitCursor, t: &str) -> (r: Option<UnrealType>)
    requires
        old(cur).wf(),
    ensures
        final(cur).wf(),
        final(cur).bits() == old(cur).bits(),
        match dec_unreal(old(cur).bits(), old(cur).position(), t@) {
            Some((v, p)) => r matches Some(u) && u@ == v && final(cur).position() == p,
            None => r is None,
        },
{
    if str_eq(t, "Class") || str_eq(t, "Object") {
        match cur.read_string() {
            Some(s) => Some(UnrealType::Class(s)),
            None => None,
        }
    } else if str_eq(t, "String") {
        match cur.read_string() {
            Some(s) => Some(UnrealType::String(s)),
            None => None,
        }
    } else if str_eq(t, "Boolean") {
        match cur.read_i32_le() {
            Some(v) => Some(UnrealType::Boolean(v != 0)),
            None => None,
        }
    } else if str_eq(t, "Float") {
        match cur.read_u32_le() {
            Some(v) => Some(UnrealType::Float(v)),
            None => None,
        }
    } else if str_eq(t, "Color") {
        match cur.read_bytes(4) {
            Some(w) => Some(
                UnrealType::Color(Color { r: w[2], g: w[1], b: w[0], a: w[3] }),
            ),
            None => None,
        }
    } else if str_eq(t, "Byte") {
        match cur.read_bytes(1) {
            Some(w) => Some(UnrealType::Byte(w[0])),
            None => None,
        }
    } else if str_eq(t, "Rotator") {
        let x = match cur.read_u32_le() {
            Some(v) => v,
            None => {
                return None;
            },
        };
        let y = match cur.read_u32_le() {
            Some(v) => v,
            None => {
                return None;
            },
        };
        let z = match cur.read_u32_le() {
            Some(v) => v,
            None => {
                return None;
            },
        };
        Some(UnrealType::Rotator(x, y, z))
    } else {
        None
    }
}

/// Reads one property table: one value per declared property, in order.
fn read_table(cur: &mut BitCursor, props: &Vec<(String, String)>) -> (r: Option<
    PropertyValues,
>)
    requires
        old(cur).wf(),
    ensures
        final(cur).wf(),
        final(cur).bits() == old(cur).bits(),
        match dec_table(old(cur).bits(), old(cur).position(), props@.map_values(
            |q: (String, String)| (q.0@, q.1@),
        )) {
            Some((v, p)) => r matches Some(out) && crate::save::props_view(out@) == v && final(cur).position() == p,
            None => r is None,
        },
{
    let ghost pv = props@.map_values(|q: (String, String)| (q.0@, q.1@));
    let ghost bits = old(cur).bits();
    let n = props.len();
    let mut out: Vec<(String, UnrealType)> = Vec::new();
    let mut k: usize = 0;
    proof {
        assert(pv.skip(0) =~= pv);
        match dec_table(bits, old(cur).position(), pv) {
            Some((rest, p)) => {
                assert(crate::save::props_view(out@) + rest =~= rest);
            },
            None => {},
        }
    }
    while k < n
        invariant
            k <= n,
            cur.wf(),
            cur.bits() == bits,
            bits == old(cur).bits(),
            n == props@.len(),
            pv == props@.map_values(|q: (String, String)| (q.0@, q.1@)),
            dec_table(bits, old(cur).position(), pv) == (match dec_table(
                bits,
                cur.position(),
                pv.skip(k as int),
            ) {
                Some((rest, p)) => Some((crate::save::props_view(out@) + rest, p)),
                None => None::<(Seq<(Seq<char>, UnrealTypeV)>, int)>,
            }),
        decreases n - k,
    {
        proof {
            assert(pv.skip(k as int)[0] == (props@[k as int].0@, props@[k as int].1@));
            assert(pv.skip(k as int).drop_first() =~= pv.skip(k + 1));
        }
        let pref = &props[k];
        let v = match read_unreal(cur, pref.1.as_str()) {
            Some(v) => v,
            None => {
                return None;
            },
        };
        let name = pref.0.clone();
        let ghost pre = crate::save::props_view(out@);
        out.push((name, v));
        proof {
            assert(crate::save::props_view(out@) =~= pre + seq![(props@[k as int].0@, v@)]);
            match dec_table(bits, cur.position(), pv.skip(k + 1)) {
                Some((rest, p)) => {
                    assert(pre + (seq![(props@[k as int].0@, v@)] + rest) =~= (pre + seq![
                        (props@[k as int].0@, v@),
                    ]) + rest);
                },
                None => {},
            }
        }
        k = k + 1;
    }
    proof {
        assert(pv.skip(n as int) =~= Seq::<(Seq<char>, Seq<char>)>::empty());
        let fin = crate::save::props_view(out@);
        assert(fin + seq![] =~= fin);
    }
    Some(out)
}


/// The `read_uint` width for a palette length.
pub(crate) fn width2(n: usize) -> (r: u32)
    ensures
        r == width_of(n as nat),
{
    if n < 2 {
        2
    } else {
        #[verifier::truncate] (n as u32)
    }
}

/// A decoded frame's payload fits its 32-bit size field.
proof fn lemma_dec_compressed_payload_len(bytes: Seq<u8>, pos: int)
    ensures
        match dec_compressed(bytes, pos) {
            Some((v, _)) => v.len() <= 0x7FFF_FFFF,
            None => true,
        },
{
}

/// Decodes the brick and component sections together: the framed brick bit
/// stream, then (in versions 8 and up) the framed component section, whose
/// tables attach to the bricks.
pub open spec fn dec_brick_section(
    bytes: Seq<u8>,
    pos: int,
    version: u16,
    count: u32,
    h2: Header2V,
) -> Option<((Seq<BrickV>, Seq<(Seq<char>, ComponentV)>), int)> {
    match dec_compressed(bytes, pos) {
        None => None,
        Some((payload, p)) => match dec_bricks(
            stream_bits(payload),
            0,
            count as nat,
            version,
            width_of(h2.brick_assets.len()),
            width_of(h2.materials.len()),
            width_of(h2.physical_materials.len()),
            h2.colors.len() as u32,
        ) {
            None => None,
            Some((bricks0, _)) => {
                if version >= 8 {
                    match dec_compressed(bytes, p) {
                        None => None,
                        Some((cpay, p2)) => match dec_components(
                            cpay,
                            width_of(bricks0.len()),
                            bricks0,
                        ) {
                            None => None,
                            Some((comps, bricks1, _)) => Some(((bricks1, comps), p2)),
                        },
                    }
                } else {
                    Some(((bricks0, seq![]), p))
                }
            },
        },
    }
}



/// Alignment facts: the next byte boundary is within seven bits ahead.
proof fn lemma_align8_facts(pos: int)
    requires
        0 <= pos,
    ensures
        pos <= align8(pos) < pos + 8,
        align8(pos) % 8 == 0,
        align8(align8(pos)) == align8(pos),
{
    assert(pos <= ((pos + 7) / 8) * 8 < pos + 8 && (((pos + 7) / 8) * 8) % 8 == 0 && ((((pos
        + 7) / 8) * 8 + 7) / 8) * 8 == ((pos + 7) / 8) * 8) by (nonlinear_arith)
        requires
            0 <= pos,
    ;
}

/// The views of a vector of bricks.
pub open spec fn bricks_view(bricks: Seq<Brick>) -> Seq<BrickV> {
    bricks.map_values(|b: Brick| b@)
}

/// The views of a component table.
pub open spec fn comps_view(comps: Seq<(String, Component)>) -> Seq<(Seq<char>, ComponentV)> {
    comps.map_values(|c: (String, Component)| (c.0@, c.1@))
}

/// The names of a component table, in order.
pub open spec fn comp_names(comps: Seq<(String, Component)>) -> Seq<Seq<char>> {
    comps.map_values(|c: (String, Component)| c.0@)
}

/// Whether a brick already carries a table under `name`.
fn has_table_exec(brick: &Brick, name: &str) -> (r: bool)
    ensures
        r == brick_has_table(brick@, name@),
{
    let n = brick.components.len();
    let mut k: usize = 0;
    while k < n
        invariant
            k <= n,
            n == brick.components@.len(),
            forall|j: int| 0 <= j < k ==> (#[trigger] brick@.components[j]).0 != name@,
        decreases n - k,
    {
        proof {
            assert(brick@.components[k as int].0 == brick.components@[k as int].0@);
        }
        if str_eq(brick.components[k].0.as_str(), name) {
            proof {
                assert(brick_has_table(brick@, name@));
            }
            return true;
        }
        k = k + 1;
    }
    proof {
        assert(!brick_has_table(brick@, name@));
    }
    false
}

/// Whether a name already stands in the component table.
fn name_among(comps: &Vec<(String, Component)>, name: &str) -> (r: bool)
    ensures
        r == comp_names(comps@).contains(name@),
{
    let n = comps.len();
    let mut k: usize = 0;
    while k < n
        invariant
            k <= n,
            n == comps@.len(),
            forall|j: int| 0 <= j < k ==> #[trigger] comp_names(comps@)[j] != name@,
        decreases n - k,
    {
        proof {
            assert(comp_names(comps@)[k as int] == comps@[k as int].0@);
        }
        if str_eq(comps[k].0.as_str(), name) {
            proof {
                assert(comp_names(comps@).contains(name@));
            }
            return true;
        }
        k = k + 1;
    }
    proof {
        if comp_names(comps@).contains(name@) {
            let j = choose|j: int|
                0 <= j < comp_names(comps@).len() && comp_names(comps@)[j] == name@;
        }
    }
    false
}

/// Reads one component from the component section, attaching its property
/// tables to the bricks they decorate.
#[verifier::rlimit(100)]
#[verifier::spinoff_prover]
fn read_component(c: &mut ByteCursor, bcwidth: u32, bricks: &mut Vec<Brick>) -> (r: Result<
    (String, Component),
    ReadError,
>)
    requires
        old(c).wf(),
    ensures
        final(c).wf(),
        final(c).data() == old(c).data(),
        match dec_component(old(c).data(), old(c).position(), bcwidth, bricks_view(
            old(bricks)@,
        )) {
            Some((cv, bricks2, p)) => r matches Ok(nc) && (nc.0@, nc.1@) == cv && bricks_view(
                final(bricks)@,
            ) == bricks2 && final(c).position() == p,
            None => r is Err,
        },
{
    proof {
        reveal(dec_component);
    }
    let ghost bricks00 = bricks_view(old(bricks)@);
    let name = match c.read_string() {
        Some(s) => s,
        None => {
            return Err(ReadError::InvalidData);
        },
    };
    let blen = match c.read_i32() {
        Some(v) => v,
        None => {
            return Err(ReadError::Eof);
        },
    };
    if blen < 0 {
        return Err(ReadError::InvalidData);
    }
    let sub = match c.read_bytes(blen as usize) {
        Some(v) => v,
        None => {
            return Err(ReadError::Eof);
        },
    };
    proof {
        assert(sub@.len() <= 0x7FFF_FFFF);
    }
    let mut ib = BitCursor::new(sub);
    let ghost ibits = ib.bits();
    let cversion = match ib.read_i32_le() {
        Some(v) => v,
        None => {
            return Err(ReadError::Eof);
        },
    };
    let icount = match ib.read_i32_le() {
        Some(v) => v,
        None => {
            return Err(ReadError::Eof);
        },
    };
    let ni: usize = if icount >= 0 {
        icount as usize
    } else {
        0
    };
    let ghost qi = ib.position();
    let mut indices: Vec<u32> = Vec::new();
    let mut j: usize = 0;
    proof {
        reveal(dec_component);
        if dec_uints_n(ibits, qi, ni as nat, bcwidth) is None {
            assert(dec_component(old(c).data(), old(c).position(), bcwidth, bricks00)
                is None);
        }
        match dec_uints_n(ibits, qi, ni as nat, bcwidth) {
            Some((rest, p)) => {
                assert(indices@ + rest =~= rest);
            },
            None => {},
        }
    }
    while j < ni
        invariant
            j <= ni,
            ib.wf(),
            ib.bits() == ibits,
            c.wf(),
            c.data() == old(c).data(),
            bricks00 == bricks_view(old(bricks)@),
            dec_uints_n(ibits, qi, ni as nat, bcwidth) is None ==> dec_component(
                old(c).data(),
                old(c).position(),
                bcwidth,
                bricks00,
            ) is None,
            dec_uints_n(ibits, qi, ni as nat, bcwidth) == (match dec_uints_n(
                ibits,
                ib.position(),
                (ni - j) as nat,
                bcwidth,
            ) {
                Some((rest, p)) => Some((indices@ + rest, p)),
                None => None::<(Seq<u32>, int)>,
            }),
        decreases ni - j,
    {
        let u = match ib.read_uint(bcwidth) {
            Some(u) => u,
            None => {
                proof {
                    assert(dec_uints_n(ibits, qi, ni as nat, bcwidth) is None);
                }
                return Err(ReadError::Eof);
            },
        };
        let ghost pre = indices@;
        indices.push(u);
        proof {
            assert(indices@ =~= pre + seq![u]);
            match dec_uints_n(ibits, ib.position(), (ni - j - 1) as nat, bcwidth) {
                Some((rest, p)) => {
                    assert(pre + (seq![u] + rest) =~= (pre + seq![u]) + rest);
                },
                None => {},
            }
        }
        j = j + 1;
    }
    proof {
        assert(indices@ + Seq::<u32>::empty() =~= indices@);
    }
    let pcount = match ib.read_i32_le() {
        Some(v) => v,
        None => {
            return Err(ReadError::Eof);
        },
    };
    let np: usize = if pcount >= 0 {
        pcount as usize
    } else {
        0
    };
    let ghost qp = ib.position();
    let mut props: Vec<(String, String)> = Vec::new();
    let mut j2: usize = 0;
    proof {
        reveal(dec_component);
        if dec_string_pairs_n(ibits, qp, np as nat) is None {
            assert(dec_component(old(c).data(), old(c).position(), bcwidth, bricks00)
                is None);
        }
        match dec_string_pairs_n(ibits, qp, np as nat) {
            Some((rest, p)) => {
                assert(props@.map_values(|q: (String, String)| (q.0@, q.1@)) + rest =~= rest);
            },
            None => {},
        }
    }
    while j2 < np
        invariant
            j2 <= np,
            ib.wf(),
            ib.bits() == ibits,
            c.wf(),
            c.data() == old(c).data(),
            bricks00 == bricks_view(old(bricks)@),
            dec_string_pairs_n(ibits, qp, np as nat) is None ==> dec_component(
                old(c).data(),
                old(c).position(),
                bcwidth,
                bricks00,
            ) is None,
            dec_string_pairs_n(ibits, qp, np as nat) == (match dec_string_pairs_n(
                ibits,
                ib.position(),
                (np - j2) as nat,
            ) {
                Some((rest, p)) => Some((props@.map_values(
                    |q: (String, String)| (q.0@, q.1@),
                ) + rest, p)),
                None => None::<(Seq<(Seq<char>, Seq<char>)>, int)>,
            }),
        decreases np - j2,
    {
        let a = match ib.read_string() {
            Some(s) => s,
            None => {
                proof {
                    assert(dec_string_pairs_n(ibits, qp, np as nat) is None);
                }
                return Err(ReadError::InvalidData);
            },
        };
        let bstr = match ib.read_string() {
            Some(s) => s,
            None => {
                proof {
                    assert(dec_string_pairs_n(ibits, qp, np as nat) is None);
                }
                return Err(ReadError::InvalidData);
            },
        };
        let ghost pre = props@.map_values(|q: (String, String)| (q.0@, q.1@));
        props.push((a, bstr));
        proof {
            assert(props@.map_values(|q: (String, String)| (q.0@, q.1@)) =~= pre + seq![
                (props@.last().0@, props@.last().1@),
            ]);
            match dec_string_pairs_n(ibits, ib.position(), (np - j2 - 1) as nat) {
                Some((rest, p)) => {
                    assert(pre + (seq![(props@.last().0@, props@.last().1@)] + rest) =~= (pre
                        + seq![(props@.last().0@, props@.last().1@)]) + rest);
                },
                None => {},
            }
        }
        j2 = j2 + 1;
    }
    let ghost pv = props@.map_values(|q: (String, String)| (q.0@, q.1@));
    proof {
        assert(pv + Seq::<(Seq<char>, Seq<char>)>::empty() =~= pv);
    }
    let ghost qt = ib.position();
    let ni2 = indices.len();
    let mut j3: usize = 0;
    let ghost pfin = c.position();
    let ghost decres = dec_component(old(c).data(), old(c).position(), bcwidth, bricks00);
    proof {
        reveal(dec_component);
        assert(decres == (match dec_tables(ibits, qt, indices@, pv, name@, bricks00) {
            Some((b2, _)) => Some(
                (
                    (
                        name@,
                        ComponentV {
                            version: cversion,
                            brick_indices: indices@,
                            properties: pv,
                        },
                    ),
                    b2,
                    pfin,
                ),
            ),
            None => None::<((Seq<char>, ComponentV), Seq<BrickV>, int)>,
        }));
    }
    proof {
        assert(indices@.skip(0) =~= indices@);
    }
    while j3 < ni2
        invariant
            j3 <= ni2,
            ib.wf(),
            ib.bits() == ibits,
            c.wf(),
            c.data() == old(c).data(),
            bricks00 == bricks_view(old(bricks)@),
            ni2 == indices@.len(),
            pv == props@.map_values(|q: (String, String)| (q.0@, q.1@)),
            decres == (match dec_tables(ibits, qt, indices@, pv, name@, bricks00) {
                Some((b2, _)) => Some(
                    (
                        (
                            name@,
                            ComponentV {
                                version: cversion,
                                brick_indices: indices@,
                                properties: pv,
                            },
                        ),
                        b2,
                        pfin,
                    ),
                ),
                None => None::<((Seq<char>, ComponentV), Seq<BrickV>, int)>,
            }),
            decres == dec_component(old(c).data(), old(c).position(), bcwidth, bricks00),
            dec_tables(ibits, qt, indices@, pv, name@, bricks00) == dec_tables(
                ibits,
                ib.position(),
                indices@.skip(j3 as int),
                pv,
                name@,
                bricks_view(bricks@),
            ),
        decreases ni2 - j3,
    {
        proof {
            assert(indices@.skip(j3 as int)[0] == indices@[j3 as int]);
            assert(indices@.skip(j3 as int).drop_first() =~= indices@.skip(j3 + 1));
        }
        let idx = indices[j3];
        if idx as usize >= bricks.len() {
            return Err(ReadError::InvalidData);
        }
        if has_table_exec(&bricks[idx as usize], name.as_str()) {
            proof {
                assert(brick_has_table(bricks_view(bricks@)[idx as int], name@));
                assert(dec_tables(ibits, ib.position(), indices@.skip(j3 as int), pv, name@,
                    bricks_view(bricks@)) is None);
            }
            return Err(ReadError::InvalidData);
        }
        let table = match read_table(&mut ib, &props) {
            Some(t) => t,
            None => {
                return Err(ReadError::InvalidData);
            },
        };
        let ghost brpre = bricks_view(bricks@);
        let name2 = name.clone();
        let bref = &mut bricks[idx as usize];
        bref.components.push((name2, table));
        proof {
            assert(bricks_view(bricks@) =~= add_table(brpre, idx as int, name@,
                crate::save::props_view(table@))) by {
                assert(bricks@[idx as int]@.components =~= brpre[idx as int].components.push(
                    (name@, crate::save::props_view(table@)),
                ));
                assert forall|x: int| 0 <= x < bricks@.len() implies bricks_view(bricks@)[x]
                    == add_table(brpre, idx as int, name@, crate::save::props_view(table@))[x]
                    by {}
            }
        }
        j3 = j3 + 1;
    }
    proof {
        assert(indices@.skip(ni2 as int) =~= Seq::<u32>::empty());
    }
    Ok((name, Component { version: cversion, brick_indices: indices, properties: props }))
}


/// Law: decoding a whole file is decoding its prelude, then its sections.
pub proof fn lemma_dec_save_split(bytes: Seq<u8>)
    ensures
        dec_save(bytes) == (match dec_prelude(bytes) {
            Some(((version, gv), p)) => dec_save_from(bytes, p, version, gv),
            None => None::<SaveDataV>,
        }),
{
}

/// Decodes an entire save file.
pub open spec fn dec_save(bytes: Seq<u8>) -> Option<SaveDataV> {
    match dec_prelude(bytes) {
        None => None,
        Some(((version, gv), p0)) => match dec_compressed(bytes, p0) {
            None => None,
            Some((pl1, p1)) => match dec_header1(pl1, version) {
                None => None,
                Some((h1, _)) => match dec_compressed(bytes, p1) {
                    None => None,
                    Some((pl2, p2)) => match dec_header2(pl2, version) {
                        None => None,
                        Some((h2, _)) => match (if version >= 8 {
                            dec_preview(bytes, p2)
                        } else {
                            Some((PreviewV::Absent, p2))
                        }) {
                            None => None,
                            Some((pv, p3)) => match dec_brick_section(
                                bytes,
                                p3,
                                version,
                                h1.brick_count,
                                h2,
                            ) {
                                None => None,
                                Some(((bricks, comps), _)) => Some(
                                    SaveDataV {
                                        version,
                                        game_version: gv,
                                        header1: h1,
                                        header2: h2,
                                        preview: pv,
                                        bricks,
                                        components: comps,
                                    },
                                ),
                            },
                        },
                    },
                },
            },
        },
    }
}

impl SaveReader {
    /// Reads the brick and component sections; the preview (and so both
    /// headers before it) must have been consumed.
    #[verifier::rlimit(100)]
    #[verifier::spinoff_prover]
    pub fn read_bricks(&mut self, header1: &Header1, header2: &Header2) -> (r: Result<
        (Vec<Brick>, Vec<(String, Component)>),
        ReadError,
    >)
        requires
            old(self).wf(),
        ensures
            final(self).wf(),
            final(self).data() == old(self).data(),
            final(self).spec_version() == old(self).spec_version(),
            final(self).spec_game_version() == old(self).spec_game_version(),
            final(self).h1_read() == old(self).h1_read(),
            final(self).h2_read() == old(self).h2_read(),
            final(self).pv_read() == old(self).pv_read(),
            (!old(self).pv_read() || !old(self).h2_read()) ==> r == Err::<
                (Vec<Brick>, Vec<(String, Component)>),
                ReadError,
            >(ReadError::BadSectionReadOrder) && *final(self) == *old(self),
            old(self).pv_read() && old(self).h2_read() ==> (match dec_brick_section(
                old(self).data(),
                old(self).position(),
                old(self).spec_version(),
                header1.brick_count,
                header2@,
            ) {
                Some(((bv, cv), p)) => r matches Ok(bc) && bricks_view(bc.0@) == bv
                    && comps_view(bc.1@) == cv && final(self).position() == p,
                None => r is Err,
            }),
    {
        if !self.preview_read || !self.header2_read {
            return Err(ReadError::BadSectionReadOrder);
        }
        let v = self.version;
        let payload = match read_compressed(&mut self.cur) {
            Ok(p) => p,
            Err(e) => {
                return Err(section_error(e));
            },
        };
        proof {
            lemma_dec_compressed_payload_len(old(self).data(), old(self).position());
        }
        let ghost pl = payload@;
        let ghost psec = self.position();
        let nassets = width2(header2.brick_assets.len());
        let nmats = width2(header2.materials.len());
        let nphys = width2(header2.physical_materials.len());
        let ncolors = #[verifier::truncate] (header2.colors.len() as u32);
        let count = header1.brick_count;
        let mut bits = BitCursor::new(payload);
        let ghost b = bits.bits();
        let mut bricks: Vec<Brick> = Vec::new();
        proof {
            assert(bricks_view(bricks@) =~= Seq::<BrickV>::empty());
            match dec_bricks(b, 0, count as nat, v, nassets, nmats, nphys, ncolors) {
                Some((rest, p)) => {
                    assert(bricks_view(bricks@) + rest =~= rest);
                },
                None => {},
            }
        }
        loop
            invariant_except_break
                bits.wf(),
                bits.bits() == b,
                bricks@.len() <= count,
                self.wf(),
                self.data() == old(self).data(),
                self.spec_version() == old(self).spec_version(),
                self.spec_game_version() == old(self).spec_game_version(),
                self.h1_read() == old(self).h1_read(),
                self.h2_read() == old(self).h2_read(),
                self.pv_read() == old(self).pv_read(),
                old(self).pv_read() && old(self).h2_read(),
                v == old(self).spec_version(),
                count == header1.brick_count,
                dec_compressed(old(self).data(), old(self).position()) == Some((pl, psec)),
                self.position() == psec,
                b == stream_bits(pl),
                nassets == width_of(header2@.brick_assets.len()),
                nmats == width_of(header2@.materials.len()),
                nphys == width_of(header2@.physical_materials.len()),
                ncolors == header2@.colors.len() as u32,
                dec_bricks(b, 0, count as nat, v, nassets, nmats, nphys, ncolors) == (
                match dec_bricks(b, bits.position(), (count - bricks@.len()) as nat, v,
                    nassets, nmats, nphys, ncolors) {
                    Some((rest, p)) => Some((bricks_view(bricks@) + rest, p)),
                    None => None::<(Seq<BrickV>, int)>,
                }),
            ensures
                bits.wf(),
                dec_bricks(b, 0, count as nat, v, nassets, nmats, nphys, ncolors) == Some(
                    (bricks_view(bricks@), bits.position()),
                ),
            decreases count - bricks@.len(),
        {
            let ghost pose = bits.position();
            let ghost rem = (count - bricks@.len()) as nat;
            proof {
                bits.lemma_wf_bounds();
            }
            bits.byte_align();
            proof {
                lemma_align8_facts(pose);
                bits.lemma_wf_bounds();
            }
            let ghost posb = bits.position();
            if bricks.len() >= count as usize || bits.at_end() {
                proof {
                    assert(dec_bricks(b, pose, rem, v, nassets, nmats, nphys, ncolors)
                        == Some((Seq::<BrickV>::empty(), posb)));
                    assert(bricks_view(bricks@) + Seq::<BrickV>::empty() =~= bricks_view(
                        bricks@,
                    ));
                }
                break;
            }
            let brick = match read_brick(&mut bits, v, nassets, nmats, nphys, ncolors) {
                Some(br) => br,
                None => {
                    proof {
                        assert(dec_bricks(b, pose, rem, v, nassets, nmats, nphys, ncolors)
                            is None);
                    }
                    return Err(ReadError::Eof);
                },
            };
            let ghost pre = bricks_view(bricks@);
            bricks.push(brick);
            proof {
                assert(bricks_view(bricks@) =~= pre + seq![brick@]);
                assert(dec_bricks(b, pose, rem, v, nassets, nmats, nphys, ncolors) == (
                match dec_bricks(b, bits.position(), (rem - 1) as nat, v, nassets, nmats,
                    nphys, ncolors) {
                    Some((rest, p)) => Some((seq![brick@] + rest, p)),
                    None => None::<(Seq<BrickV>, int)>,
                }));
                match dec_bricks(b, bits.position(), (rem - 1) as nat, v, nassets, nmats,
                    nphys, ncolors) {
                    Some((rest, p)) => {
                        assert(pre + (seq![brick@] + rest) =~= (pre + seq![brick@]) + rest);
                    },
                    None => {},
                }
            }
        }
        let mut components: Vec<(String, Component)> = Vec::new();
        if v < 8 {
            proof {
                assert(comps_view(components@) =~= Seq::<(Seq<char>, ComponentV)>::empty());
            }
            return Ok((bricks, components));
        }
        let cpayload = match read_compressed(&mut self.cur) {
            Ok(p) => p,
            Err(e) => {
                return Err(section_error(e));
            },
        };
        proof {
            lemma_dec_compressed_payload_len(old(self).data(), psec);
        }
        let ghost cpl = cpayload@;
        let ghost pend = self.position();
        let ghost bricks0 = bricks_view(bricks@);
        let bcwidth = width2(bricks.len());
        let mut c = ByteCursor::new(cpayload);
        let l = match c.read_i32() {
            Some(l) => l,
            None => {
                return Err(ReadError::Eof);
            },
        };
        let n: usize = if l >= 0 {
            l as usize
        } else {
            0
        };
        let mut k: usize = 0;
        proof {
            assert(comps_view(components@) =~= Seq::<(Seq<char>, ComponentV)>::empty());
            assert(comp_names(components@) =~= Seq::<Seq<char>>::empty());
            match dec_components_n(cpl, c.position(), n as nat, bcwidth, bricks0, seq![]) {
                Some((crest, bfin, p)) => {
                    assert(comps_view(components@) + crest =~= crest);
                },
                None => {},
            }
        }
        while k < n
            invariant
                k <= n,
                c.wf(),
                c.data() == cpl,
                self.wf(),
                self.data() == old(self).data(),
                self.spec_version() == old(self).spec_version(),
                self.spec_game_version() == old(self).spec_game_version(),
                self.h1_read() == old(self).h1_read(),
                self.h2_read() == old(self).h2_read(),
                self.pv_read() == old(self).pv_read(),
                old(self).pv_read() && old(self).h2_read(),
                self.position() == pend,
                v == old(self).spec_version(),
                v >= 8,
                bcwidth == width_of(bricks0.len()),
                dec_brick_section(old(self).data(), old(self).position(), v,
                    header1.brick_count, header2@) == (match dec_components(cpl, bcwidth,
                    bricks0) {
                    Some((comps, bricks1, _)) => Some(((bricks1, comps), pend)),
                    None => None::<((Seq<BrickV>, Seq<(Seq<char>, ComponentV)>), int)>,
                }),
                dec_components(cpl, bcwidth, bricks0) == (match dec_components_n(cpl,
                    c.position(), (n - k) as nat, bcwidth, bricks_view(bricks@), comp_names(
                    components@,
                )) {
                    Some((crest, bfin, p)) => Some(
                        (comps_view(components@) + crest, bfin, p),
                    ),
                    None => None::<(Seq<(Seq<char>, ComponentV)>, Seq<BrickV>, int)>,
                }),
            decreases n - k,
        {
            let nc = match read_component(&mut c, bcwidth, &mut bricks) {
                Ok(nc) => nc,
                Err(e) => {
                    return Err(e);
                },
            };
            if name_among(&components, nc.0.as_str()) {
                proof {
                    assert(comp_names(components@).contains(nc.0@));
                }
                return Err(ReadError::InvalidData);
            }
            let ghost prec = comps_view(components@);
            let ghost pren = comp_names(components@);
            components.push(nc);
            proof {
                assert(comps_view(components@) =~= prec + seq![
                    (components@.last().0@, components@.last().1@),
                ]);
                assert(comp_names(components@) =~= pren.push(components@.last().0@));
                match dec_components_n(cpl, c.position(), (n - k - 1) as nat, bcwidth,
                    bricks_view(bricks@), comp_names(components@)) {
                    Some((crest, bfin, p)) => {
                        assert(prec + (seq![(components@.last().0@, components@.last().1@)]
                            + crest) =~= (prec + seq![
                            (components@.last().0@, components@.last().1@),
                        ]) + crest);
                    },
                    None => {},
                }
            }
            k = k + 1;
        }
        proof {
            assert(comps_view(components@) + Seq::<(Seq<char>, ComponentV)>::empty()
                =~= comps_view(components@));
        }
        Ok((bricks, components))
    }

    /// Reads every part of a save, passing over the preview without keeping
    /// it.
    pub fn read_all_skip_preview(&mut self) -> (r: Result<SaveData, ReadError>)
        requires
            old(self).wf(),
            !old(self).h1_read(),
            !old(self).h2_read(),
            old(self).pv_read() == (old(self).spec_version() < 8),
        ensures
            final(self).wf(),
            match dec_save_from_skip(old(self).data(), old(self).position(), old(
                self,
            ).spec_version(), old(self).spec_game_version()) {
                Some(sv) => r matches Ok(s) && s@ == sv,
                None => r is Err,
            },
    {
        let header1 = match self.read_header1() {
            Ok(h) => h,
            Err(e) => {
                return Err(e);
            },
        };
        let header2 = match self.read_header2() {
            Ok(h) => h,
            Err(e) => {
                return Err(e);
            },
        };
        match self.skip_preview() {
            Ok(()) => {},
            Err(e) => {
                return Err(e);
            },
        }
        let bc = match self.read_bricks(&header1, &header2) {
            Ok(bc) => bc,
            Err(e) => {
                return Err(e);
            },
        };
        let (bricks, components) = bc;
        Ok(
            SaveData {
                version: self.version,
                game_version: self.game_version,
                header1,
                header2,
                preview: Preview::Absent,
                bricks,
                components,
            },
        )
    }

    /// Reads every part of a save.
    pub fn read_all(&mut self) -> (r: Result<SaveData, ReadError>)
        requires
            old(self).wf(),
            !old(self).h1_read(),
            !old(self).h2_read(),
            old(self).pv_read() == (old(self).spec_version() < 8),
        ensures
            final(self).wf(),
            match dec_save_from(old(self).data(), old(self).position(), old(
                self,
            ).spec_version(), old(self).spec_game_version()) {
                Some(sv) => r matches Ok(s) && s@ == sv,
                None => r is Err,
            },
    {
        let header1 = match self.read_header1() {
            Ok(h) => h,
            Err(e) => {
                return Err(e);
            },
        };
        let header2 = match self.read_header2() {
            Ok(h) => h,
            Err(e) => {
                return Err(e);
            },
        };
        let preview = match self.read_preview() {
            Ok(p) => p,
            Err(e) => {
                return Err(e);
            },
        };
        let bc = match self.read_bricks(&header1, &header2) {
            Ok(bc) => bc,
            Err(e) => {
                return Err(e);
            },
        };
        let (bricks, components) = bc;
        Ok(
            SaveData {
                version: self.version,
                game_version: self.game_version,
                header1,
                header2,
                preview,
                bricks,
                components,
            },
        )
    }
}

/// Decodes a save's sections from a position just past the prelude, passing
/// over the preview without keeping it.
pub open spec fn dec_save_from_skip(bytes: Seq<u8>, pos: int, version: u16, gv: i32) -> Option<
    SaveDataV,
> {
    match dec_compressed(bytes, pos) {
        None => None,
        Some((pl1, p1)) => match dec_header1(pl1, version) {
            None => None,
            Some((h1, _)) => match dec_compressed(bytes, p1) {
                None => None,
                Some((pl2, p2)) => match dec_header2(pl2, version) {
                    None => None,
                    Some((h2, _)) => match (if version >= 8 {
                        dec_skip_preview(bytes, p2)
                    } else {
                        Some(p2)
                    }) {
                        None => None,
                        Some(p3) => match dec_brick_section(
                            bytes,
                            p3,
                            version,
                            h1.brick_count,
                            h2,
                        ) {
                            None => None,
                            Some(((bricks, comps), _)) => Some(
                                SaveDataV {
                                    version,
                                    game_version: gv,
                                    header1: h1,
                                    header2: h2,
                                    preview: PreviewV::Absent,
                                    bricks,
                                    components: comps,
                                },
                            ),
                        },
                    },
                },
            },
        },
    }
}

/// Decodes a save's sections from a position just past the prelude.
pub open spec fn dec_save_from(bytes: Seq<u8>, pos: int, version: u16, gv: i32) -> Option<
    SaveDataV,
> {
    match dec_compressed(bytes, pos) {
        None => None,
        Some((pl1, p1)) => match dec_header1(pl1, version) {
            None => None,
            Some((h1, _)) => match dec_compressed(bytes, p1) {
                None => None,
                Some((pl2, p2)) => match dec_header2(pl2, version) {
                    None => None,
                    Some((h2, _)) => match (if version >= 8 {
                        dec_preview(bytes, p2)
                    } else {
                        Some((PreviewV::Absent, p2))
                    }) {
                        None => None,
                        Some((pv, p3)) => match dec_brick_section(
                            bytes,
                            p3,
                            version,
                            h1.brick_count,
                            h2,
                        ) {
                            None => None,
                            Some(((bricks, comps), _)) => Some(
                                SaveDataV {
                                    version,
                                    game_version: gv,
                                    header1: h1,
                                    header2: h2,
                                    preview: pv,
                                    bricks,
                                    components: comps,
                                },
                            ),
                        },
                    },
                },
            },
        },
    }
}

} // verus!
