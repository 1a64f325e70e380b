//! Save writing: emits a save at the current container version, re-deriving
//! counts and packing widths from the data.

use vstd::prelude::*;
use crate::bits::{align8, enc_int_packed, enc_uint, enc_uint_packed, stream_bits, BitSink};
use crate::compress::{framed, write_compressed};
use crate::read::width_of;
use crate::save::{
    Brick, BrickColor, BrickV, ComponentV, Header1V, Header2V, Preview, PreviewV, SaveData,
    SaveDataV, Size, UnrealType, UnrealTypeV,
};
use crate::read::bricks_view;
use crate::wire::{
    i32_le_bytes, put_bytes, put_i32_le, put_string, put_u16_le, put_u32_le, put_u8, put_uuid,
    str_fits, str_wire, u16_le_bytes, u32_le_bytes, uuid_wire,
};

verus! {

/// A write error.
#[derive(Debug, Clone, Copy, PartialEq, Eq, Structural)]
pub enum WriteError {
    /// A brick's property table is missing a key its component declares.
    ComponentBrickError,
    /// A string, a palette, or a section is too long for its size field, or
    /// an index does not fit its packing width.
    TooLarge,
}

/// The wire form of the first header's contents: when the host is absent the
/// author stands in for it, and the count is the authoritative brick count.
pub open spec fn enc_header1(h: Header1V, count: i32) -> Seq<u8> {
    let host = match h.host {
        Some(u) => u,
        None => h.author,
    };
    str_wire(h.map) + str_wire(h.author.name) + str_wire(h.description) + uuid_wire(
        h.author.id,
    ) + str_wire(host.name) + uuid_wire(host.id) + h.save_time + i32_le_bytes(count)
}

/// The wire form of a string array: a count, then each string.
pub open spec fn enc_strs(xs: Seq<Seq<char>>) -> Seq<u8>
    decreases xs.len(),
{
    if xs.len() == 0 {
        seq![]
    } else {
        str_wire(xs[0]) + enc_strs(xs.drop_first())
    }
}

/// The wire form of a length-prefixed string array.
pub open spec fn enc_str_array(xs: Seq<Seq<char>>) -> Seq<u8> {
    i32_le_bytes(xs.len() as i32) + enc_strs(xs)
}

/// The wire form of the color palette: a count, then four bytes BGRA each.
pub open spec fn enc_colors(cs: Seq<crate::save::Color>) -> Seq<u8> {
    i32_le_bytes(cs.len() as i32) + Seq::new(
        cs.len() * 4,
        |i: int|
            {
                let c = cs[i / 4];
                if i % 4 == 0 {
                    c.b
                } else if i % 4 == 1 {
                    c.g
                } else if i % 4 == 2 {
                    c.r
                } else {
                    c.a
                }
            },
    )
}

/// The wire form of one brick owner.
pub open spec fn enc_owner(o: crate::save::BrickOwnerV) -> Seq<u8> {
    uuid_wire(o.id) + str_wire(o.name) + i32_le_bytes(o.bricks as i32)
}

/// The wire form of the brick owners.
pub open spec fn enc_owners(os: Seq<crate::save::BrickOwnerV>) -> Seq<u8>
    decreases os.len(),
{
    if os.len() == 0 {
        seq![]
    } else {
        enc_owner(os[0]) + enc_owners(os.drop_first())
    }
}

/// The wire form of the second header's contents.
pub open spec fn enc_header2(h: Header2V) -> Seq<u8> {
    enc_str_array(h.mods) + enc_str_array(h.brick_assets) + enc_colors(h.colors)
        + enc_str_array(h.materials) + (i32_le_bytes(h.brick_owners.len() as i32) + enc_owners(
        h.brick_owners,
    )) + enc_str_array(h.physical_materials)
}

/// The wire form of the preview.
pub open spec fn enc_preview(p: PreviewV) -> Seq<u8> {
    match p {
        PreviewV::Absent => seq![0u8],
        PreviewV::PNG(b) => seq![1u8] + i32_le_bytes(b.len() as i32) + b,
        PreviewV::JPEG(b) => seq![2u8] + i32_le_bytes(b.len() as i32) + b,
        PreviewV::Unknown(t, b) => seq![t] + i32_le_bytes(b.len() as i32) + b,
    }
}

/// The wire orientation of a brick: its direction shifted up two bits, with
/// its rotation in the low bits.
pub open spec fn orientation_of(b: BrickV) -> u32 {
    ((b.direction.spec_as_u8() as u32) << 2u32) | (b.rotation.spec_as_u8() as u32)
}

/// Whether a brick's indices fit the packing widths its palettes give, and
/// its position fits the sign-and-magnitude packing.
pub open spec fn brick_ok(b: BrickV, nassets: u32, nmats: u32, nphys: u32, ncolors: u32) -> bool {
    &&& b.asset_name_index < nassets
    &&& b.position.0 != i32::MIN && b.position.1 != i32::MIN && b.position.2 != i32::MIN
    &&& b.material_index < nmats
    &&& b.physical_index < nphys
    &&& b.material_intensity < 11
    &&& match b.color {
        BrickColor::Index(i) => i < ncolors,
        BrickColor::Unique(_) => true,
    }
}

/// The bits one brick writes, in field order.
pub open spec fn enc_brick(b: BrickV, nassets: u32, nmats: u32, nphys: u32, ncolors: u32) -> Seq<
    bool,
> {
    enc_uint(b.asset_name_index, nassets) + (match b.size {
        Size::Procedural(x, y, z) => seq![true] + enc_uint_packed(x) + enc_uint_packed(y)
            + enc_uint_packed(z),
        Size::Empty => seq![false],
    }) + enc_int_packed(b.position.0) + enc_int_packed(b.position.1) + enc_int_packed(
        b.position.2,
    ) + enc_uint(orientation_of(b), 24) + seq![
        b.collision.player,
        b.collision.weapon,
        b.collision.interaction,
        b.collision.tool,
        b.visibility,
    ] + enc_uint(b.material_index, nmats) + enc_uint(b.physical_index, nphys) + enc_uint(
        b.material_intensity,
        11,
    ) + (match b.color {
        BrickColor::Index(i) => seq![false] + enc_uint(i, ncolors),
        BrickColor::Unique(c) => seq![true] + stream_bits(seq![c.r, c.g, c.b]),
    }) + enc_uint_packed(b.owner_index)
}

/// Zero bits from a position up to the next byte boundary.
pub open spec fn pad8(n: int) -> Seq<bool> {
    Seq::new((align8(n) - n) as nat, |i: int| false)
}

/// The brick stream from brick `i` on: each brick byte-aligned, then a final
/// alignment.
pub open spec fn enc_bricks_from(
    bricks: Seq<BrickV>,
    i: nat,
    prefix: Seq<bool>,
    nassets: u32,
    nmats: u32,
    nphys: u32,
    ncolors: u32,
) -> Seq<bool>
    decreases bricks.len() - i,
{
    if i >= bricks.len() {
        prefix + pad8(prefix.len() as int)
    } else {
        enc_bricks_from(
            bricks,
            i + 1,
            prefix + pad8(prefix.len() as int) + enc_brick(bricks[i as int], nassets, nmats,
                nphys, ncolors),
            nassets,
            nmats,
            nphys,
            ncolors,
        )
    }
}

/// The whole brick stream's bits.
pub open spec fn enc_bricks(
    bricks: Seq<BrickV>,
    nassets: u32,
    nmats: u32,
    nphys: u32,
    ncolors: u32,
) -> Seq<bool> {
    enc_bricks_from(bricks, 0, seq![], nassets, nmats, nphys, ncolors)
}

/// The bytes of a byte-aligned bit stream.
pub open spec fn bytes_of_bits(bits: Seq<bool>) -> Seq<u8>
    recommends
        bits.len() % 8 == 0,
{
    Seq::new(
        bits.len() / 8,
        |k: int| crate::bits::bits_val(bits.subrange(8 * k, 8 * k + 8)) as u8,
    )
}

/// The bytes of a byte sequence's bits are the bytes.
pub proof fn lemma_bytes_of_stream(w: Seq<u8>)
    ensures
        bytes_of_bits(stream_bits(w)) == w,
{
    let got = bytes_of_bits(stream_bits(w));
    assert(stream_bits(w).len() == w.len() * 8);
    assert(w.len() * 8 / 8 == w.len()) by (nonlinear_arith);
    assert forall|k: int| 0 <= k < w.len() implies got[k] == w[k] by {
        crate::bits::lemma_stream_bits_byte_at(w, k);
        crate::bits::lemma_bits_val_byte(w[k]);
    }
    assert(got =~= w);
}

/// Whether every brick fits its packing widths and the stream fits its size
/// field.
pub open spec fn bricks_writable(s: SaveDataV) -> bool {
    let nassets = width_of(s.header2.brick_assets.len());
    let nmats = width_of(s.header2.materials.len());
    let nphys = width_of(s.header2.physical_materials.len());
    let ncolors = s.header2.colors.len() as u32;
    &&& nassets >= 2 && nmats >= 2 && nphys >= 2
    &&& forall|i: int|
        0 <= i < s.bricks.len() ==> brick_ok(#[trigger] s.bricks[i], nassets, nmats, nphys,
            ncolors)
    &&& enc_bricks(s.bricks, nassets, nmats, nphys, ncolors).len() <= 8 * 0x7FFF_FFFF
}

/// The brick stream of a save, at its palettes' widths.
pub open spec fn enc_bricks_of(s: SaveDataV) -> Seq<bool> {
    enc_bricks(
        s.bricks,
        width_of(s.header2.brick_assets.len()),
        width_of(s.header2.materials.len()),
        width_of(s.header2.physical_materials.len()),
        s.header2.colors.len() as u32,
    )
}

/// Appends a string array; fails exactly when the count or a string does not
/// fit its size field.
fn put_str_array(out: &mut Vec<u8>, xs: &Vec<String>) -> (ok: bool)
    ensures
        ok ==> final(out)@ == old(out)@ + enc_str_array(xs@.map_values(|s: String| s@)),
        ok <==> xs@.len() <= 0x7FFF_FFFF && (forall|i: int|
            0 <= i < xs@.len() ==> str_fits(#[trigger] xs@[i]@)),
{
    let ghost xv = xs@.map_values(|s: String| s@);
    if xs.len() > 0x7FFF_FFFF {
        return false;
    }
    let ghost base = out@;
    put_i32_le(out, xs.len() as i32);
    let n = xs.len();
    let mut k: usize = 0;
    proof {
        assert(enc_strs(xv.take(0)) =~= Seq::<u8>::empty());
        assert(out@ + enc_strs(xv.take(0)) =~= out@);
    }
    while k < n
        invariant
            k <= n,
            n == xs@.len(),
            xv == xs@.map_values(|s: String| s@),
            forall|i: int| 0 <= i < k ==> str_fits(#[trigger] xs@[i]@),
            out@ == base + i32_le_bytes(n as i32) + enc_strs(xv.take(k as int)),
        decreases n - k,
    {
        let sref = &xs[k];
        let ok = put_string(out, sref.as_str());
        if !ok {
            return false;
        }
        proof {
            lemma_enc_strs_snoc(xv.take(k as int), xv[k as int]);
            assert(xv.take(k as int).push(xv[k as int]) =~= xv.take(k + 1));
            assert(base + i32_le_bytes(n as i32) + enc_strs(xv.take(k as int)) + str_wire(
                xv[k as int],
            ) =~= base + i32_le_bytes(n as i32) + (enc_strs(xv.take(k as int)) + str_wire(
                xv[k as int],
            )));
        }
        k = k + 1;
    }
    proof {
        assert(xv.take(n as int) =~= xv);
        assert(base + i32_le_bytes(n as i32) + enc_strs(xv) =~= base + enc_str_array(xv));
    }
    true
}

/// String-array encoding distributes over appending one string.
proof fn lemma_enc_strs_snoc(xs: Seq<Seq<char>>, x: Seq<char>)
    ensures
        enc_strs(xs.push(x)) == enc_strs(xs) + str_wire(x),
    decreases xs.len(),
{
    if xs.len() == 0 {
        assert(xs.push(x)[0] == x);
        assert(xs.push(x).drop_first() =~= Seq::<Seq<char>>::empty());
        assert(enc_strs(Seq::<Seq<char>>::empty()) =~= Seq::<u8>::empty());
        assert(enc_strs(xs.push(x)) =~= enc_strs(xs) + str_wire(x));
    } else {
        lemma_enc_strs_snoc(xs.drop_first(), x);
        assert(xs.push(x)[0] == xs[0]);
        assert(xs.push(x).drop_first() =~= xs.drop_first().push(x));
        assert(enc_strs(xs.push(x)) == str_wire(xs[0]) + (enc_strs(xs.drop_first())
            + str_wire(x)));
        assert(enc_strs(xs.push(x)) =~= enc_strs(xs) + str_wire(x));
    }
}

/// Owner encoding distributes over appending one owner.
proof fn lemma_enc_owners_snoc(os: Seq<crate::save::BrickOwnerV>, o: crate::save::BrickOwnerV)
    ensures
        enc_owners(os.push(o)) == enc_owners(os) + enc_owner(o),
    decreases os.len(),
{
    if os.len() == 0 {
        assert(os.push(o)[0] == o);
        assert(os.push(o).drop_first() =~= Seq::<crate::save::BrickOwnerV>::empty());
        assert(enc_owners(Seq::<crate::save::BrickOwnerV>::empty()) =~= Seq::<u8>::empty());
        assert(enc_owners(os.push(o)) =~= enc_owners(os) + enc_owner(o));
    } else {
        lemma_enc_owners_snoc(os.drop_first(), o);
        assert(os.push(o)[0] == os[0]);
        assert(os.push(o).drop_first() =~= os.drop_first().push(o));
        assert(enc_owners(os.push(o)) == enc_owner(os[0]) + (enc_owners(os.drop_first())
            + enc_owner(o)));
        assert(enc_owners(os.push(o)) =~= enc_owners(os) + enc_owner(o));
    }
}


/// Clones one property value, preserving its view.
fn clone_unreal(u: &UnrealType) -> (r: UnrealType)
    ensures
        r@ == u@,
{
    match u {
        UnrealType::Class(s) => UnrealType::Class(s.clone()),
        UnrealType::String(s) => UnrealType::String(s.clone()),
        UnrealType::Boolean(b) => UnrealType::Boolean(*b),
        UnrealType::Float(f) => UnrealType::Float(*f),
        UnrealType::Color(c) => UnrealType::Color(*c),
        UnrealType::Byte(b) => UnrealType::Byte(*b),
        UnrealType::Rotator(x, y, z) => UnrealType::Rotator(*x, *y, *z),
    }
}

/// Clones a property table, preserving its view.
fn clone_props(p: &crate::save::PropertyValues) -> (r: crate::save::PropertyValues)
    ensures
        crate::save::props_view(r@) == crate::save::props_view(p@),
{
    let n = p.len();
    let mut out: crate::save::PropertyValues = Vec::new();
    let mut k: usize = 0;
    while k < n
        invariant
            k <= n,
            n == p@.len(),
            out@.len() == k,
            crate::save::props_view(out@) == crate::save::props_view(p@).take(k as int),
        decreases n - k,
    {
        let q = &p[k];
        let name = q.0.clone();
        let v = clone_unreal(&q.1);
        out.push((name, v));
        proof {
            assert(crate::save::props_view(out@) =~= crate::save::props_view(p@).take(k + 1));
        }
        k = k + 1;
    }
    proof {
        assert(crate::save::props_view(p@).take(n as int) =~= crate::save::props_view(p@));
    }
    out
}

/// Writes one property value onto the inner bit stream; fails exactly when a
/// string is too long for its prefix.
fn write_unreal(sink: &mut BitSink, u: &UnrealType) -> (ok: bool)
    requires
        old(sink).wf(),
    ensures
        final(sink).wf(),
        ok <==> unreal_fits(u@),
        ok ==> final(sink).bits() == old(sink).bits() + enc_unreal(u@),
{
    match u {
        UnrealType::Class(s) => sink.write_string(s.as_str()),
        UnrealType::String(s) => sink.write_string(s.as_str()),
        UnrealType::Boolean(b) => {
            sink.write_i32_le(
                if *b {
                    1
                } else {
                    0
                },
            );
            true
        },
        UnrealType::Float(f) => {
            let mut tmp: Vec<u8> = Vec::new();
            put_u32_le(&mut tmp, *f);
            proof {
                assert(tmp@ =~= u32_le_bytes(*f));
            }
            sink.write_bytes(&tmp);
            true
        },
        UnrealType::Color(c) => {
            let mut tmp: Vec<u8> = Vec::new();
            put_u8(&mut tmp, c.b);
            put_u8(&mut tmp, c.g);
            put_u8(&mut tmp, c.r);
            put_u8(&mut tmp, c.a);
            proof {
                assert(tmp@ =~= seq![c.b, c.g, c.r, c.a]);
            }
            sink.write_bytes(&tmp);
            true
        },
        UnrealType::Byte(b) => {
            let mut tmp: Vec<u8> = Vec::new();
            put_u8(&mut tmp, *b);
            proof {
                assert(tmp@ =~= seq![*b]);
            }
            sink.write_bytes(&tmp);
            true
        },
        UnrealType::Rotator(x, y, z) => {
            let mut tmp: Vec<u8> = Vec::new();
            put_u32_le(&mut tmp, *x);
            put_u32_le(&mut tmp, *y);
            put_u32_le(&mut tmp, *z);
            proof {
                assert(tmp@ =~= u32_le_bytes(*x) + u32_le_bytes(*y) + u32_le_bytes(*z));
            }
            sink.write_bytes(&tmp);
            true
        },
    }
}

/// Finds the first property with the given name in a table.
fn find_prop<'a>(table: &'a crate::save::PropertyValues, name: &str) -> (r: Option<
    &'a UnrealType,
>)
    ensures
        match lookup_value(crate::save::props_view(table@), name@) {
            Some(v) => r matches Some(u) && u@ == v,
            None => r is None,
        },
{
    let ghost pv = crate::save::props_view(table@);
    let n = table.len();
    let mut k: usize = 0;
    proof {
        assert(pv.skip(0) =~= pv);
    }
    while k < n
        invariant
            k <= n,
            n == table@.len(),
            pv == crate::save::props_view(table@),
            lookup_value(pv, name@) == lookup_value(pv.skip(k as int), name@),
        decreases n - k,
    {
        proof {
            assert(pv.skip(k as int)[0] == (table@[k as int].0@, table@[k as int].1@));
            assert(pv.skip(k as int).drop_first() =~= pv.skip(k + 1));
        }
        let q = &table[k];
        if crate::read::str_eq(q.0.as_str(), name) {
            return Some(&q.1);
        }
        k = k + 1;
    }
    proof {
        assert(pv.skip(n as int) =~= Seq::<(Seq<char>, UnrealTypeV)>::empty());
    }
    None
}

/// The head of a brick's bit encoding: its asset index through its
/// orientation.
pub open spec fn enc_brick_head(b: BrickV, nassets: u32) -> Seq<bool> {
    enc_uint(b.asset_name_index, nassets) + (match b.size {
        Size::Procedural(x, y, z) => seq![true] + enc_uint_packed(x) + enc_uint_packed(y)
            + enc_uint_packed(z),
        Size::Empty => seq![false],
    }) + enc_int_packed(b.position.0) + enc_int_packed(b.position.1) + enc_int_packed(
        b.position.2,
    ) + enc_uint(orientation_of(b), 24)
}

/// The tail of a brick's bit encoding: its collision flags through its owner.
pub open spec fn enc_brick_tail(b: BrickV, nmats: u32, nphys: u32, ncolors: u32) -> Seq<bool> {
    seq![
        b.collision.player,
        b.collision.weapon,
        b.collision.interaction,
        b.collision.tool,
        b.visibility,
    ] + enc_uint(b.material_index, nmats) + enc_uint(b.physical_index, nphys) + enc_uint(
        b.material_intensity,
        11,
    ) + (match b.color {
        BrickColor::Index(i) => seq![false] + enc_uint(i, ncolors),
        BrickColor::Unique(c) => seq![true] + stream_bits(seq![c.r, c.g, c.b]),
    }) + enc_uint_packed(b.owner_index)
}

/// A brick's encoding is its head, then its tail.
#[verifier::spinoff_prover]
proof fn lemma_enc_brick_parts(bb: BrickV, nassets: u32, nmats: u32, nphys: u32, ncolors: u32)
    ensures
        enc_brick(bb, nassets, nmats, nphys, ncolors) == enc_brick_head(bb, nassets)
            + enc_brick_tail(bb, nmats, nphys, ncolors),
{
    assert(enc_brick(bb, nassets, nmats, nphys, ncolors) =~= enc_brick_head(bb, nassets)
        + enc_brick_tail(bb, nmats, nphys, ncolors));
}

/// Writes a brick's head fields; fails exactly when the asset index does not
/// fit its width or a position is the lowest 32-bit value.
#[verifier::rlimit(100)]
#[verifier::spinoff_prover]
fn write_brick_head(sink: &mut BitSink, brick: &Brick, nassets: u32) -> (ok: bool)
    requires
        old(sink).wf(),
        nassets >= 2,
    ensures
        final(sink).wf(),
        ok <==> (brick@.asset_name_index < nassets && brick@.position.0 != i32::MIN
            && brick@.position.1 != i32::MIN && brick@.position.2 != i32::MIN),
        ok ==> final(sink).bits() == old(sink).bits() + enc_brick_head(brick@, nassets),
{
    let ghost b0 = sink.bits();
    let ghost bb = brick@;
    let ghost mut done: Seq<bool> = seq![];
    if !sink.write_uint(brick.asset_name_index, nassets) {
        return false;
    }
    proof {
        done = enc_uint(bb.asset_name_index, nassets);
        assert(sink.bits() =~= b0 + done);
    }
    match brick.size {
        Size::Procedural(x, y, z) => {
            sink.write_bit(true);
            sink.write_uint_packed(x);
            sink.write_uint_packed(y);
            sink.write_uint_packed(z);
        },
        Size::Empty => {
            sink.write_bit(false);
        },
    }
    proof {
        let e2: Seq<bool> = match bb.size {
            Size::Procedural(x, y, z) => seq![true] + enc_uint_packed(x) + enc_uint_packed(y)
                + enc_uint_packed(z),
            Size::Empty => seq![false],
        };
        assert(sink.bits() =~= (b0 + done) + e2);
        done = done + e2;
        assert(sink.bits() =~= b0 + done);
    }
    let (px, py, pz) = brick.position;
    if px == i32::MIN || py == i32::MIN || pz == i32::MIN {
        return false;
    }
    sink.write_int_packed(px);
    sink.write_int_packed(py);
    sink.write_int_packed(pz);
    proof {
        assert(sink.bits() =~= (b0 + done) + enc_int_packed(px) + enc_int_packed(py)
            + enc_int_packed(pz));
        done = done + enc_int_packed(px) + enc_int_packed(py) + enc_int_packed(pz);
        assert(sink.bits() =~= b0 + done);
    }
    let d8 = brick.direction.as_u8();
    let r8 = brick.rotation.as_u8();
    let orientation = ((d8 as u32) << 2) | (r8 as u32);
    proof {
        assert(orientation < 24) by (bit_vector)
            requires
                d8 <= 5 && r8 <= 3 && orientation == ((d8 as u32) << 2) | (r8 as u32),
        ;
        assert(orientation == orientation_of(bb));
    }
    if !sink.write_uint(orientation, 24) {
        proof {
            assert(false);
        }
        return false;
    }
    proof {
        assert(sink.bits() =~= (b0 + done) + enc_uint(orientation_of(bb), 24));
        done = done + enc_uint(orientation_of(bb), 24);
        assert(sink.bits() =~= b0 + done);
        assert(done =~= enc_brick_head(bb, nassets));
    }
    true
}

/// Writes a brick's tail fields; fails exactly when an index does not fit
/// its packing width.
#[verifier::rlimit(100)]
#[verifier::spinoff_prover]
fn write_brick_tail(
    sink: &mut BitSink,
    brick: &Brick,
    nmats: u32,
    nphys: u32,
    ncolors: u32,
) -> (ok: bool)
    requires
        old(sink).wf(),
        nmats >= 2,
        nphys >= 2,
    ensures
        final(sink).wf(),
        ok <==> (brick@.material_index < nmats && brick@.physical_index < nphys
            && brick@.material_intensity < 11 && (match brick@.color {
            BrickColor::Index(i) => i < ncolors,
            BrickColor::Unique(_) => true,
        })),
        ok ==> final(sink).bits() == old(sink).bits() + enc_brick_tail(brick@, nmats, nphys,
            ncolors),
{
    let ghost b0 = sink.bits();
    let ghost bb = brick@;
    let ghost mut done: Seq<bool> = seq![];
    sink.write_bit(brick.collision.player);
    sink.write_bit(brick.collision.weapon);
    sink.write_bit(brick.collision.interaction);
    sink.write_bit(brick.collision.tool);
    sink.write_bit(brick.visibility);
    proof {
        done = seq![
            bb.collision.player,
            bb.collision.weapon,
            bb.collision.interaction,
            bb.collision.tool,
            bb.visibility,
        ];
        assert(sink.bits() =~= b0 + done);
    }
    if !sink.write_uint(brick.material_index, nmats) {
        return false;
    }
    if !sink.write_uint(brick.physical_index, nphys) {
        return false;
    }
    if !sink.write_uint(brick.material_intensity, 11) {
        return false;
    }
    proof {
        assert(sink.bits() =~= (b0 + done) + enc_uint(bb.material_index, nmats) + enc_uint(
            bb.physical_index,
            nphys,
        ) + enc_uint(bb.material_intensity, 11));
        done = done + enc_uint(bb.material_index, nmats) + enc_uint(bb.physical_index, nphys)
            + enc_uint(bb.material_intensity, 11);
        assert(sink.bits() =~= b0 + done);
    }
    match brick.color {
        BrickColor::Index(i) => {
            sink.write_bit(false);
            if i >= ncolors {
                return false;
            }
            sink.write_uint_w(i, ncolors);
        },
        BrickColor::Unique(c) => {
            sink.write_bit(true);
            let mut tmp: Vec<u8> = Vec::new();
            put_u8(&mut tmp, c.r);
            put_u8(&mut tmp, c.g);
            put_u8(&mut tmp, c.b);
            proof {
                assert(tmp@ =~= seq![c.r, c.g, c.b]);
            }
            sink.write_bytes(&tmp);
        },
    }
    proof {
        let e11: Seq<bool> = match bb.color {
            BrickColor::Index(i) => seq![false] + enc_uint(i, ncolors),
            BrickColor::Unique(c) => seq![true] + stream_bits(seq![c.r, c.g, c.b]),
        };
        assert(sink.bits() =~= (b0 + done) + e11);
        done = done + e11;
        assert(sink.bits() =~= b0 + done);
    }
    sink.write_uint_packed(brick.owner_index);
    proof {
        assert(sink.bits() =~= (b0 + done) + enc_uint_packed(bb.owner_index));
        done = done + enc_uint_packed(bb.owner_index);
        assert(sink.bits() =~= b0 + done);
        assert(done =~= enc_brick_tail(bb, nmats, nphys, ncolors));
    }
    true
}

/// Writes one brick onto the brick bit stream; fails exactly when an index
/// does not fit its packing width or a position is the lowest 32-bit value.
fn write_brick(
    sink: &mut BitSink,
    brick: &Brick,
    nassets: u32,
    nmats: u32,
    nphys: u32,
    ncolors: u32,
) -> (ok: bool)
    requires
        old(sink).wf(),
        nassets >= 2,
        nmats >= 2,
        nphys >= 2,
    ensures
        final(sink).wf(),
        ok <==> brick_ok(brick@, nassets, nmats, nphys, ncolors),
        ok ==> final(sink).bits() == old(sink).bits() + enc_brick(brick@, nassets, nmats,
            nphys, ncolors),
{
    if !write_brick_head(sink, brick, nassets) {
        return false;
    }
    if !write_brick_tail(sink, brick, nmats, nphys, ncolors) {
        return false;
    }
    proof {
        lemma_enc_brick_parts(brick@, nassets, nmats, nphys, ncolors);
        assert(sink.bits() =~= old(sink).bits() + enc_brick(brick@, nassets, nmats, nphys,
            ncolors));
    }
    true
}

/// A save writer: holds the data to write and whether to compress sections.
pub struct SaveWriter {
    data: SaveData,
    compressed: bool,
}

/// The shape of a written save: the magic bytes, the current version, the
/// game version, and then — each framed by the compressed-section rule — the
/// two headers, the preview, the brick stream and the component section,
/// every payload a fixed function of the data.
pub open spec fn written_form(bytes: Seq<u8>, s: SaveDataV, compressed: bool) -> bool {
    bytes == crate::spec_magic() + u16_le_bytes(crate::SAVE_VERSION) + i32_le_bytes(
        s.game_version,
    ) + framed(enc_header1(s.header1, s.bricks.len() as i32), compressed) + framed(
        enc_header2(s.header2),
        compressed,
    ) + enc_preview(s.preview) + framed(bytes_of_bits(enc_bricks_of(s)), compressed) + framed(
        enc_components(s),
        compressed,
    )
}

/// Whether the first header's strings fit their length prefixes.
pub open spec fn header1_fits(h: Header1V) -> bool {
    &&& str_fits(h.map)
    &&& str_fits(h.author.name)
    &&& str_fits(h.description)
    &&& str_fits(
        match h.host {
            Some(u) => u.name,
            None => h.author.name,
        },
    )
}

/// Whether the second header's palettes and strings fit their size fields.
pub open spec fn header2_fits(h: Header2V) -> bool {
    &&& h.mods.len() <= 0x7FFF_FFFF && (forall|i: int|
        0 <= i < h.mods.len() ==> str_fits(#[trigger] h.mods[i]))
    &&& h.brick_assets.len() <= 0x7FFF_FFFF && (forall|i: int|
        0 <= i < h.brick_assets.len() ==> str_fits(#[trigger] h.brick_assets[i]))
    &&& h.colors.len() <= 0x7FFF_FFFF
    &&& h.materials.len() <= 0x7FFF_FFFF && (forall|i: int|
        0 <= i < h.materials.len() ==> str_fits(#[trigger] h.materials[i]))
    &&& h.brick_owners.len() <= 0x7FFF_FFFF && (forall|i: int|
        0 <= i < h.brick_owners.len() ==> str_fits((#[trigger] h.brick_owners[i]).name))
    &&& h.physical_materials.len() <= 0x7FFF_FFFF && (forall|i: int|
        0 <= i < h.physical_materials.len() ==> str_fits(#[trigger] h.physical_materials[i]))
}

/// Whether the preview fits its size field; the reserved type byte zero is
/// not a storable unknown preview.
pub open spec fn preview_fits(p: PreviewV) -> bool {
    match p {
        PreviewV::Absent => true,
        PreviewV::PNG(b) => b.len() <= 0x7FFF_FFFF,
        PreviewV::JPEG(b) => b.len() <= 0x7FFF_FFFF,
        PreviewV::Unknown(t, b) => t != 0 && b.len() <= 0x7FFF_FFFF,
    }
}

/// Whether a save fits every size field the wire imposes: every string and
/// palette fits, every brick fits its packing widths, every component fits,
/// and each section's payload fits its 32-bit size field.
pub open spec fn writable_sizes(s: SaveDataV) -> bool {
    &&& s.bricks.len() <= 0x7FFF_FFFF
    &&& header1_fits(s.header1)
    &&& enc_header1(s.header1, s.bricks.len() as i32).len() <= 0x7FFF_FFFF
    &&& header2_fits(s.header2)
    &&& enc_header2(s.header2).len() <= 0x7FFF_FFFF
    &&& preview_fits(s.preview)
    &&& bricks_writable(s)
    &&& components_writable(s)
}

/// Whether writing a save must succeed: it fits every size field and no
/// declared property is missing.
pub open spec fn writable(s: SaveDataV) -> bool {
    writable_sizes(s) && !missing_property(s)
}

impl SaveWriter {
    /// The data the writer will emit.
    pub closed spec fn spec_data(&self) -> SaveDataV {
        self.data@
    }

    /// Whether sections are compressed.
    pub closed spec fn spec_compressed(&self) -> bool {
        self.compressed
    }

    /// Builds a writer that compresses its sections.
    pub fn new(data: SaveData) -> (r: SaveWriter)
        ensures
            r.spec_data() == data@,
            r.spec_compressed(),
    {
        SaveWriter { data, compressed: true }
    }

    /// Builds a writer that emits every section raw.
    pub fn uncompressed(data: SaveData) -> (r: SaveWriter)
        ensures
            r.spec_data() == data@,
            !r.spec_compressed(),
    {
        SaveWriter { data, compressed: false }
    }

    /// Writes the save, consuming the writer; yields the file's bytes. The
    /// output is a fixed function of the data; writing fails with the
    /// missing-property error exactly when a brick lacks a declared
    /// property, and succeeds on every save that fits its size fields.
    #[verifier::rlimit(100)]
    #[verifier::spinoff_prover]
    pub fn write(self) -> (r: Result<Vec<u8>, WriteError>)
        ensures
            r matches Ok(out) ==> written_form(out@, self.spec_data(),
                self.spec_compressed()) && !missing_property(self.spec_data()),
            r == Err::<Vec<u8>, WriteError>(WriteError::ComponentBrickError)
                ==> missing_property(self.spec_data()),
            r is Err ==> r == Err::<Vec<u8>, WriteError>(WriteError::ComponentBrickError) || r
                == Err::<Vec<u8>, WriteError>(WriteError::TooLarge),
            writable(self.spec_data()) ==> r is Ok,
            writable_sizes(self.spec_data()) ==> (r == Err::<Vec<u8>, WriteError>(
                WriteError::ComponentBrickError,
            ) <==> missing_property(self.spec_data())),
    {
        let SaveWriter { data, compressed } = self;
        let mut out: Vec<u8> = Vec::new();
        let magic = crate::magic_bytes();
        put_u8(&mut out, magic[0]);
        put_u8(&mut out, magic[1]);
        put_u8(&mut out, magic[2]);
        put_u16_le(&mut out, crate::SAVE_VERSION);
        put_i32_le(&mut out, data.game_version);
        proof {
            assert(out@ =~= crate::spec_magic() + u16_le_bytes(crate::SAVE_VERSION)
                + i32_le_bytes(data.game_version));
        }
        if data.bricks.len() > 0x7FFF_FFFF {
            return Err(WriteError::TooLarge);
        }
        let s1 = match section_header1(&data.header1, data.bricks.len() as i32) {
            Ok(v) => v,
            Err(e) => {
                return Err(e);
            },
        };
        if !write_compressed(&mut out, &s1, compressed) {
            return Err(WriteError::TooLarge);
        }
        let s2 = match section_header2(&data.header2) {
            Ok(v) => v,
            Err(e) => {
                return Err(e);
            },
        };
        if !write_compressed(&mut out, &s2, compressed) {
            return Err(WriteError::TooLarge);
        }
        if !put_preview(&mut out, &data.preview) {
            return Err(WriteError::TooLarge);
        }
        let sb = match section_bricks(&data) {
            Ok(v) => v,
            Err(e) => {
                return Err(e);
            },
        };
        proof {
            lemma_bytes_of_stream(sb@);
            assert(sb@ == bytes_of_bits(enc_bricks_of(data@)));
        }
        if !write_compressed(&mut out, &sb, compressed) {
            return Err(WriteError::TooLarge);
        }
        let sc = match section_components(&data) {
            Ok(v) => v,
            Err(e) => {
                return Err(e);
            },
        };
        if !write_compressed(&mut out, &sc, compressed) {
            proof {
                assert(false);
            }
            return Err(WriteError::TooLarge);
        }
        proof {
            assert(written_form(out@, self.spec_data(), self.spec_compressed())) by {
                assert(out@ =~= crate::spec_magic() + u16_le_bytes(crate::SAVE_VERSION)
                    + i32_le_bytes(data.game_version) + framed(
                    enc_header1(data.header1@, data.bricks@.len() as i32),
                    compressed,
                ) + framed(enc_header2(data.header2@), compressed) + enc_preview(
                    data.preview@,
                ) + framed(bytes_of_bits(enc_bricks_of(data@)), compressed) + framed(
                    enc_components(data@),
                    compressed,
                ));
            }
        }
        Ok(out)
    }
}



/// Appends the preview: its type byte, then (when the byte is not zero) a
/// length-prefixed run of bytes. Fails when the bytes are too long for the
/// prefix, or when an unknown preview carries the reserved type byte zero.
fn put_preview(out: &mut Vec<u8>, p: &Preview) -> (ok: bool)
    ensures
        ok <==> preview_fits(p@),
        ok ==> final(out)@ == old(out)@ + enc_preview(p@),
{
    match p {
        Preview::Absent => {
            put_u8(out, 0);
            assert(final(out)@ =~= old(out)@ + enc_preview(p@));
            true
        },
        Preview::PNG(b) => {
            if b.len() > 0x7FFF_FFFF {
                return false;
            }
            put_u8(out, 1);
            put_i32_le(out, b.len() as i32);
            put_bytes(out, b);
            assert(out@ =~= old(out)@ + enc_preview(p@));
            true
        },
        Preview::JPEG(b) => {
            if b.len() > 0x7FFF_FFFF {
                return false;
            }
            put_u8(out, 2);
            put_i32_le(out, b.len() as i32);
            put_bytes(out, b);
            assert(out@ =~= old(out)@ + enc_preview(p@));
            true
        },
        Preview::Unknown(t, b) => {
            if *t == 0 || b.len() > 0x7FFF_FFFF {
                return false;
            }
            put_u8(out, *t);
            put_i32_le(out, b.len() as i32);
            put_bytes(out, b);
            assert(out@ =~= old(out)@ + enc_preview(p@));
            true
        },
    }
}

/// Builds the first header's section bytes.
fn section_header1(h1: &crate::save::Header1, count: i32) -> (r: Result<Vec<u8>, WriteError>)
    ensures
        r matches Ok(v) ==> v@ == enc_header1(h1@, count),
        r is Err ==> r == Err::<Vec<u8>, WriteError>(WriteError::TooLarge),
        r is Ok <==> header1_fits(h1@),
{
    let mut s1: Vec<u8> = Vec::new();
    if !put_string(&mut s1, h1.map.as_str()) {
        return Err(WriteError::TooLarge);
    }
    if !put_string(&mut s1, h1.author.name.as_str()) {
        return Err(WriteError::TooLarge);
    }
    if !put_string(&mut s1, h1.description.as_str()) {
        return Err(WriteError::TooLarge);
    }
    put_uuid(&mut s1, &h1.author.id);
    match &h1.host {
        Some(h) => {
            if !put_string(&mut s1, h.name.as_str()) {
                return Err(WriteError::TooLarge);
            }
            put_uuid(&mut s1, &h.id);
        },
        None => {
            if !put_string(&mut s1, h1.author.name.as_str()) {
                return Err(WriteError::TooLarge);
            }
            put_uuid(&mut s1, &h1.author.id);
        },
    }
    let st = &h1.save_time;
    let mut stv: Vec<u8> = Vec::new();
    stv.push(st[0]);
    stv.push(st[1]);
    stv.push(st[2]);
    stv.push(st[3]);
    stv.push(st[4]);
    stv.push(st[5]);
    stv.push(st[6]);
    stv.push(st[7]);
    proof {
        assert(stv@ =~= h1.save_time@);
    }
    put_bytes(&mut s1, &stv);
    put_i32_le(&mut s1, count);
    proof {
        assert(s1@ =~= enc_header1(h1@, count));
    }
    Ok(s1)
}

/// Fitting is the same seen through the string views.
proof fn lemma_strs_fit_view(xs: Seq<String>, xv: Seq<Seq<char>>)
    requires
        xv == xs.map_values(|s: String| s@),
    ensures
        xv.len() == xs.len(),
        (forall|i: int| 0 <= i < xs.len() ==> str_fits(#[trigger] xs[i]@)) <==> (forall|i: int|
            0 <= i < xv.len() ==> str_fits(#[trigger] xv[i])),
{
    assert forall|i: int| 0 <= i < xs.len() implies #[trigger] xv[i] == xs[i]@ by {}
    if forall|i: int| 0 <= i < xs.len() ==> str_fits(#[trigger] xs[i]@) {
        assert forall|i: int| 0 <= i < xv.len() implies str_fits(#[trigger] xv[i]) by {
            assert(xv[i] == xs[i]@);
        }
    }
    if forall|i: int| 0 <= i < xv.len() ==> str_fits(#[trigger] xv[i]) {
        assert forall|i: int| 0 <= i < xs.len() implies str_fits(#[trigger] xs[i]@) by {
            assert(xv[i] == xs[i]@);
        }
    }
}

/// Builds the second header's section bytes.
#[verifier::rlimit(100)]
#[verifier::spinoff_prover]
fn section_header2(h2: &crate::save::Header2) -> (r: Result<Vec<u8>, WriteError>)
    ensures
        r matches Ok(v) ==> v@ == enc_header2(h2@),
        r is Err ==> r == Err::<Vec<u8>, WriteError>(WriteError::TooLarge),
        r is Ok <==> header2_fits(h2@),
{
    let mut s2: Vec<u8> = Vec::new();
    proof {
        lemma_strs_fit_view(h2.mods@, h2@.mods);
    }
    if !put_str_array(&mut s2, &h2.mods) {
        return Err(WriteError::TooLarge);
    }
    proof {
        lemma_strs_fit_view(h2.brick_assets@, h2@.brick_assets);
    }
    if !put_str_array(&mut s2, &h2.brick_assets) {
        return Err(WriteError::TooLarge);
    }
    if h2.colors.len() > 0x7FFF_FFFF {
        return Err(WriteError::TooLarge);
    }
    put_i32_le(&mut s2, h2.colors.len() as i32);
    let nc = h2.colors.len();
    let ghost cv = h2.colors@;
    let ghost cbody = Seq::new(
        cv.len() * 4,
        |i: int|
            {
                let c = cv[i / 4];
                if i % 4 == 0 {
                    c.b
                } else if i % 4 == 1 {
                    c.g
                } else if i % 4 == 2 {
                    c.r
                } else {
                    c.a
                }
            },
    );
    let ghost cbase = s2@;
    let mut ci: usize = 0;
    proof {
        assert(s2@ =~= cbase + cbody.take(0));
    }
    while ci < nc
        invariant
            ci <= nc,
            nc == cv.len(),
            cbody == Seq::new(
                cv.len() * 4,
                |i: int|
                    {
                        let c = cv[i / 4];
                        if i % 4 == 0 {
                            c.b
                        } else if i % 4 == 1 {
                            c.g
                        } else if i % 4 == 2 {
                            c.r
                        } else {
                            c.a
                        }
                    },
            ),
            cv == h2.colors@,
            s2@ == cbase + cbody.take(4 * ci),
        decreases nc - ci,
    {
        let c = &h2.colors[ci];
        put_u8(&mut s2, c.b);
        put_u8(&mut s2, c.g);
        put_u8(&mut s2, c.r);
        put_u8(&mut s2, c.a);
        proof {
            assert forall|x: int| 0 <= x < 4 * (ci + 1) implies #[trigger] cbody[x] == (cbase
                + cbody.take(4 * ci) + seq![c.b, c.g, c.r, c.a])[cbase.len() + x] by {
                if x >= 4 * ci {
                    assert(x / 4 == ci && (x == 4 * ci || x == 4 * ci + 1 || x == 4 * ci + 2
                        || x == 4 * ci + 3)) by (nonlinear_arith)
                        requires
                            4 * ci <= x < 4 * (ci + 1) && 0 <= ci,
                    ;
                } else {
                    assert(cbody.take(4 * ci)[x] == cbody[x]);
                }
            }
            assert(s2@ =~= cbase + cbody.take(4 * (ci + 1)));
        }
        ci = ci + 1;
    }
    proof {
        assert(cbody.take((4 * nc) as int) =~= cbody);
    }
    proof {
        lemma_strs_fit_view(h2.materials@, h2@.materials);
    }
    if !put_str_array(&mut s2, &h2.materials) {
        return Err(WriteError::TooLarge);
    }
    if h2.brick_owners.len() > 0x7FFF_FFFF {
        return Err(WriteError::TooLarge);
    }
    put_i32_le(&mut s2, h2.brick_owners.len() as i32);
    let no = h2.brick_owners.len();
    let ghost ov = h2.brick_owners@.map_values(|o: crate::save::BrickOwner| o@);
    let ghost obase = s2@;
    let mut oi: usize = 0;
    proof {
        assert(enc_owners(ov.take(0)) =~= Seq::<u8>::empty());
        assert(s2@ =~= obase + enc_owners(ov.take(0)));
    }
    while oi < no
        invariant
            oi <= no,
            no == h2.brick_owners@.len(),
            ov == h2.brick_owners@.map_values(|o: crate::save::BrickOwner| o@),
            ov == h2@.brick_owners,
            forall|i: int| 0 <= i < oi ==> str_fits((#[trigger] ov[i]).name),
            s2@ == obase + enc_owners(ov.take(oi as int)),
        decreases no - oi,
    {
        let o = &h2.brick_owners[oi];
        put_uuid(&mut s2, &o.id);
        if !put_string(&mut s2, o.name.as_str()) {
            proof {
                assert(!str_fits(h2@.brick_owners[oi as int].name));
            }
            return Err(WriteError::TooLarge);
        }
        put_i32_le(&mut s2, o.bricks as i32);
        proof {
            lemma_enc_owners_snoc(ov.take(oi as int), ov[oi as int]);
            assert(ov.take(oi as int).push(ov[oi as int]) =~= ov.take(oi + 1));
            assert(s2@ =~= obase + enc_owners(ov.take(oi + 1)));
        }
        oi = oi + 1;
    }
    proof {
        assert(ov.take(no as int) =~= ov);
    }
    proof {
        lemma_strs_fit_view(h2.physical_materials@, h2@.physical_materials);
    }
    if !put_str_array(&mut s2, &h2.physical_materials) {
        return Err(WriteError::TooLarge);
    }
    proof {
        assert(s2@ =~= enc_header2(h2@));
    }
    Ok(s2)
}

/// Builds the brick section's bytes: each brick byte-aligned on the bit
/// stream, then a final alignment. Succeeds exactly when every brick fits
/// its packing widths and the stream fits its size field.
fn section_bricks(data: &SaveData) -> (r: Result<Vec<u8>, WriteError>)
    requires
        data.bricks@.len() <= 0x7FFF_FFFF,
    ensures
        r is Ok <==> bricks_writable(data@),
        r matches Ok(sb) ==> sb@.len() <= 0x7FFF_FFFF && stream_bits(sb@) == enc_bricks_of(
            data@,
        ),
        r is Err ==> r == Err::<Vec<u8>, WriteError>(WriteError::TooLarge),
{
    let nassets = crate::read::width2(data.header2.brick_assets.len());
    let nmats = crate::read::width2(data.header2.materials.len());
    let nphys = crate::read::width2(data.header2.physical_materials.len());
    if nassets < 2 || nmats < 2 || nphys < 2 {
        return Err(WriteError::TooLarge);
    }
    let ncolors = #[verifier::truncate] (data.header2.colors.len() as u32);
    let nbricks = data.bricks.len();
    let ghost bv = bricks_view(data.bricks@);
    let mut sink = BitSink::new();
    proof {
        assert(sink.bits() =~= Seq::<bool>::empty());
    }
    let mut bi: usize = 0;
    while bi < nbricks
        invariant
            bi <= nbricks,
            nbricks == data.bricks@.len(),
            bv == bricks_view(data.bricks@),
            nassets == width_of(data.header2@.brick_assets.len()),
            nmats == width_of(data.header2@.materials.len()),
            nphys == width_of(data.header2@.physical_materials.len()),
            ncolors == data.header2@.colors.len() as u32,
            sink.wf(),
            nassets >= 2,
            nmats >= 2,
            nphys >= 2,
            forall|x: int|
                0 <= x < bi ==> brick_ok(#[trigger] bv[x], nassets, nmats, nphys, ncolors),
            enc_bricks(bv, nassets, nmats, nphys, ncolors) == enc_bricks_from(bv, bi as nat,
                sink.bits(), nassets, nmats, nphys, ncolors),
        decreases nbricks - bi,
    {
        sink.byte_align();
        let brick = &data.bricks[bi];
        proof {
            assert(bv[bi as int] == brick@);
        }
        if !write_brick(&mut sink, brick, nassets, nmats, nphys, ncolors) {
            return Err(WriteError::TooLarge);
        }
        bi = bi + 1;
    }
    sink.byte_align();
    let sb = sink.into_bytes();
    proof {
        assert(enc_bricks(bv, nassets, nmats, nphys, ncolors) == stream_bits(sb@));
    }
    if sb.len() > 0x7FFF_FFFF {
        proof {
            assert(enc_bricks_of(data@).len() > 8 * 0x7FFF_FFFF);
        }
        return Err(WriteError::TooLarge);
    }
    Ok(sb)
}

/// The first property table under `name` among a brick's component entries.
pub open spec fn lookup_table(
    entries: Seq<(Seq<char>, Seq<(Seq<char>, UnrealTypeV)>)>,
    name: Seq<char>,
) -> Option<Seq<(Seq<char>, UnrealTypeV)>>
    decreases entries.len(),
{
    if entries.len() == 0 {
        None
    } else if entries[0].0 == name {
        Some(entries[0].1)
    } else {
        lookup_table(entries.drop_first(), name)
    }
}

/// The bricks from index `i` on that carry a table under `name`, each with
/// its index and its table, in brick order.
pub open spec fn collect_tables(bricks: Seq<BrickV>, i: nat, name: Seq<char>) -> Seq<
    (int, Seq<(Seq<char>, UnrealTypeV)>),
>
    decreases bricks.len() - i,
{
    if i >= bricks.len() {
        seq![]
    } else {
        (match lookup_table(bricks[i as int].components, name) {
            Some(t) => seq![(i as int, t)],
            None => seq![],
        }) + collect_tables(bricks, i + 1, name)
    }
}

/// The first value under `name` in a property table.
pub open spec fn lookup_value(
    table: Seq<(Seq<char>, UnrealTypeV)>,
    name: Seq<char>,
) -> Option<UnrealTypeV>
    decreases table.len(),
{
    if table.len() == 0 {
        None
    } else if table[0].0 == name {
        Some(table[0].1)
    } else {
        lookup_value(table.drop_first(), name)
    }
}

/// The bits one property value writes.
pub open spec fn enc_unreal(u: UnrealTypeV) -> Seq<bool> {
    match u {
        UnrealTypeV::Class(c) => stream_bits(str_wire(c)),
        UnrealTypeV::String(c) => stream_bits(str_wire(c)),
        UnrealTypeV::Boolean(b) => stream_bits(i32_le_bytes(
            if b {
                1
            } else {
                0
            },
        )),
        UnrealTypeV::Float(f) => stream_bits(u32_le_bytes(f)),
        UnrealTypeV::Color(c) => stream_bits(seq![c.b, c.g, c.r, c.a]),
        UnrealTypeV::Byte(b) => stream_bits(seq![b]),
        UnrealTypeV::Rotator(x, y, z) => stream_bits(u32_le_bytes(x) + u32_le_bytes(y)
            + u32_le_bytes(z)),
    }
}

/// Whether a property value fits its wire form.
pub open spec fn unreal_fits(u: UnrealTypeV) -> bool {
    match u {
        UnrealTypeV::Class(c) => str_fits(c),
        UnrealTypeV::String(c) => str_fits(c),
        _ => true,
    }
}

/// The bits one table writes: one value per declared property, in order.
pub open spec fn enc_table_bits(
    table: Seq<(Seq<char>, UnrealTypeV)>,
    props: Seq<(Seq<char>, Seq<char>)>,
) -> Seq<bool>
    decreases props.len(),
{
    if props.len() == 0 {
        seq![]
    } else {
        (match lookup_value(table, props[0].0) {
            Some(v) => enc_unreal(v),
            None => seq![],
        }) + enc_table_bits(table, props.drop_first())
    }
}

/// Whether a table lacks a declared property.
pub open spec fn missing_in(
    table: Seq<(Seq<char>, UnrealTypeV)>,
    props: Seq<(Seq<char>, Seq<char>)>,
) -> bool {
    exists|j: int| 0 <= j < props.len() && lookup_value(table, #[trigger] props[j].0) is None
}

/// Whether some brick carries a table, under a declared component's name,
/// that lacks a property the component declares — the writer's one logical
/// failure.
pub open spec fn missing_property(s: SaveDataV) -> bool {
    exists|k: int, j: int|
        #![trigger collect_tables(s.bricks, 0, s.components[k].0)[j]]
        0 <= k < s.components.len() && 0 <= j < collect_tables(
            s.bricks,
            0,
            s.components[k].0,
        ).len() && missing_in(
            collect_tables(s.bricks, 0, s.components[k].0)[j].1,
            s.components[k].1.properties,
        )
}

/// The bits of the referenced brick indices, variable-width.
pub open spec fn enc_idx_bits(
    entries: Seq<(int, Seq<(Seq<char>, UnrealTypeV)>)>,
    bcwidth: u32,
) -> Seq<bool>
    decreases entries.len(),
{
    if entries.len() == 0 {
        seq![]
    } else {
        enc_uint(entries[0].0 as u32, bcwidth) + enc_idx_bits(entries.drop_first(), bcwidth)
    }
}

/// The bits of the declared property names and type names.
pub open spec fn enc_props_bits(props: Seq<(Seq<char>, Seq<char>)>) -> Seq<bool>
    decreases props.len(),
{
    if props.len() == 0 {
        seq![]
    } else {
        stream_bits(str_wire(props[0].0)) + stream_bits(str_wire(props[0].1)) + enc_props_bits(
            props.drop_first(),
        )
    }
}

/// The bits of the per-brick tables, one table per referenced brick.
pub open spec fn enc_tables_bits(
    entries: Seq<(int, Seq<(Seq<char>, UnrealTypeV)>)>,
    props: Seq<(Seq<char>, Seq<char>)>,
) -> Seq<bool>
    decreases entries.len(),
{
    if entries.len() == 0 {
        seq![]
    } else {
        enc_table_bits(entries[0].1, props) + enc_tables_bits(entries.drop_first(), props)
    }
}

/// The inner bit stream of one component: version, indices, declared
/// properties, then the value tables.
pub open spec fn enc_component_bits(
    version: i32,
    entries: Seq<(int, Seq<(Seq<char>, UnrealTypeV)>)>,
    props: Seq<(Seq<char>, Seq<char>)>,
    bcwidth: u32,
) -> Seq<bool> {
    stream_bits(i32_le_bytes(version)) + stream_bits(i32_le_bytes(entries.len() as i32))
        + enc_idx_bits(entries, bcwidth) + stream_bits(i32_le_bytes(props.len() as i32))
        + enc_props_bits(props) + enc_tables_bits(entries, props)
}

/// The byte-aligned bytes of one component's inner stream.
pub open spec fn inner_bytes_of(
    c: ComponentV,
    entries: Seq<(int, Seq<(Seq<char>, UnrealTypeV)>)>,
    bcwidth: u32,
) -> Seq<u8> {
    let bits = enc_component_bits(c.version, entries, c.properties, bcwidth);
    bytes_of_bits(bits + pad8(bits.len() as int))
}

/// The wire bytes of one component: its name, its inner stream's byte
/// length, then the byte-aligned inner stream.
pub open spec fn enc_component(
    name: Seq<char>,
    c: ComponentV,
    bricks: Seq<BrickV>,
    bcwidth: u32,
) -> Seq<u8> {
    let ib = inner_bytes_of(c, collect_tables(bricks, 0, name), bcwidth);
    str_wire(name) + i32_le_bytes(ib.len() as i32) + ib
}

/// The wire bytes of the components from index `k` on.
pub open spec fn enc_components_list(
    comps: Seq<(Seq<char>, ComponentV)>,
    k: nat,
    bricks: Seq<BrickV>,
    bcwidth: u32,
) -> Seq<u8>
    decreases comps.len() - k,
{
    if k >= comps.len() {
        seq![]
    } else {
        enc_component(comps[k as int].0, comps[k as int].1, bricks, bcwidth)
            + enc_components_list(comps, k + 1, bricks, bcwidth)
    }
}

/// The component section's bytes: a count, then each declared component; a
/// component referenced by no brick carries an empty index list.
pub open spec fn enc_components(s: SaveDataV) -> Seq<u8> {
    i32_le_bytes(s.components.len() as i32) + enc_components_list(
        s.components,
        0,
        s.bricks,
        width_of(s.bricks.len()),
    )
}

/// Whether every component's strings and values fit their wire forms and the
/// section fits its size fields.
pub open spec fn components_writable(s: SaveDataV) -> bool {
    &&& s.components.len() <= 0x7FFF_FFFF
    &&& (forall|k: int|
        0 <= k < s.components.len() ==> str_fits(#[trigger] s.components[k].0))
    &&& (forall|k: int|
        0 <= k < s.components.len() ==> (#[trigger] s.components[k].1).properties.len()
            <= 0x7FFF_FFFF)
    &&& (forall|k: int, p: int|
        0 <= k < s.components.len() && 0 <= p < s.components[k].1.properties.len() ==> str_fits(
            (#[trigger] s.components[k].1.properties[p]).0,
        ) && str_fits(s.components[k].1.properties[p].1))
    &&& (forall|k: int, j: int, p: int|
        #![trigger collect_tables(s.bricks, 0, s.components[k].0)[j],
            s.components[k].1.properties[p]]
        (0 <= k < s.components.len() && 0 <= j < collect_tables(
            s.bricks,
            0,
            s.components[k].0,
        ).len() && 0 <= p < s.components[k].1.properties.len()) ==> (match lookup_value(
            collect_tables(s.bricks, 0, s.components[k].0)[j].1,
            s.components[k].1.properties[p].0,
        ) {
            Some(v) => unreal_fits(v),
            None => true,
        }))
    &&& (forall|k: int|
        0 <= k < s.components.len() ==> inner_bytes_of(
            s.components[k].1,
            collect_tables(s.bricks, 0, #[trigger] s.components[k].0),
            width_of(s.bricks.len()),
        ).len() <= 0x7FFF_FFFF)
    &&& enc_components(s).len() <= 0x7FFF_FFFF
}

/// Collects, in brick order, the bricks that carry a table under `name`.
fn collect_entries(bricks: &Vec<Brick>, name: &str) -> (r: Vec<
    (u32, crate::save::PropertyValues),
>)
    requires
        bricks@.len() <= 0x7FFF_FFFF,
    ensures
        r@.map_values(
            |e: (u32, crate::save::PropertyValues)|
                (e.0 as int, crate::save::props_view(e.1@)),
        ) == collect_tables(bricks_view(bricks@), 0, name@),
        forall|j: int| 0 <= j < r@.len() ==> (#[trigger] r@[j]).0 < bricks@.len(),
{
    let ghost bv = bricks_view(bricks@);
    let nbricks = bricks.len();
    let mut out: Vec<(u32, crate::save::PropertyValues)> = Vec::new();
    let ghost viewf = |e: (u32, crate::save::PropertyValues)|
        (e.0 as int, crate::save::props_view(e.1@));
    let mut bi: usize = 0;
    proof {
        assert(out@.map_values(viewf) =~= Seq::<
            (int, Seq<(Seq<char>, UnrealTypeV)>),
        >::empty());
        assert(Seq::<(int, Seq<(Seq<char>, UnrealTypeV)>)>::empty() + collect_tables(bv, 0,
            name@) =~= collect_tables(bv, 0, name@));
    }
    while bi < nbricks
        invariant
            bi <= nbricks,
            nbricks == bricks@.len(),
            nbricks <= 0x7FFF_FFFF,
            bv == bricks_view(bricks@),
            viewf == (|e: (u32, crate::save::PropertyValues)|
                (e.0 as int, crate::save::props_view(e.1@))),
            forall|j: int| 0 <= j < out@.len() ==> (#[trigger] out@[j]).0 < bricks@.len(),
            collect_tables(bv, 0, name@) == out@.map_values(viewf) + collect_tables(bv,
                bi as nat, name@),
        decreases nbricks - bi,
    {
        let brick = &bricks[bi];
        proof {
            assert(bv[bi as int] == brick@);
        }
        match find_table(brick, name) {
            Some(tab) => {
                let table = clone_props(tab);
                let ghost pre = out@.map_values(viewf);
                out.push((bi as u32, table));
                proof {
                    assert(out@.map_values(viewf) =~= pre + seq![
                        (bi as int, crate::save::props_view(table@)),
                    ]);
                    match collect_tables(bv, (bi + 1) as nat, name@) {
                        rest => {
                            assert(pre + (seq![(bi as int, crate::save::props_view(table@))]
                                + rest) =~= (pre + seq![
                                (bi as int, crate::save::props_view(table@)),
                            ]) + rest);
                        },
                    }
                }
            },
            None => {},
        }
        bi = bi + 1;
    }
    proof {
        assert(collect_tables(bv, nbricks as nat, name@) =~= Seq::<
            (int, Seq<(Seq<char>, UnrealTypeV)>),
        >::empty());
        assert(out@.map_values(viewf) + Seq::<(int, Seq<(Seq<char>, UnrealTypeV)>)>::empty()
            =~= out@.map_values(viewf));
    }
    out
}

/// The first table under `name` among a brick's component entries.
fn find_table<'a>(brick: &'a Brick, name: &str) -> (r: Option<
    &'a crate::save::PropertyValues,
>)
    ensures
        match lookup_table(brick@.components, name@) {
            Some(t) => r matches Some(tab) && crate::save::props_view(tab@) == t,
            None => r is None,
        },
{
    let ghost ev = brick@.components;
    let n = brick.components.len();
    let mut k: usize = 0;
    proof {
        assert(ev.skip(0) =~= ev);
    }
    while k < n
        invariant
            k <= n,
            n == brick.components@.len(),
            ev == brick@.components,
            lookup_table(ev, name@) == lookup_table(ev.skip(k as int), name@),
        decreases n - k,
    {
        proof {
            assert(ev.skip(k as int)[0] == (brick.components@[k as int].0@,
                crate::save::props_view(brick.components@[k as int].1@)));
            assert(ev.skip(k as int).drop_first() =~= ev.skip(k + 1));
        }
        let q = &brick.components[k];
        if crate::read::str_eq(q.0.as_str(), name) {
            return Some(&q.1);
        }
        k = k + 1;
    }
    proof {
        assert(ev.skip(n as int) =~= Seq::<
            (Seq<char>, Seq<(Seq<char>, UnrealTypeV)>),
        >::empty());
    }
    None
}

/// Builds one component's inner byte-aligned stream: its version, the
/// indices of the bricks that carry it, its declared properties, and one
/// value table per carrying brick.
#[verifier::rlimit(100)]
#[verifier::spinoff_prover]
fn inner_component(
    c: &crate::save::Component,
    entries: &Vec<(u32, crate::save::PropertyValues)>,
    bcwidth: u32,
    Ghost(ev): Ghost<Seq<(int, Seq<(Seq<char>, UnrealTypeV)>)>>,
) -> (r: Result<Vec<u8>, WriteError>)
    requires
        bcwidth >= 2,
        entries@.len() <= 0x7FFF_FFFF,
        ev == entries@.map_values(
            |e: (u32, crate::save::PropertyValues)|
                (e.0 as int, crate::save::props_view(e.1@)),
        ),
        forall|j: int| 0 <= j < ev.len() ==> 0 <= (#[trigger] ev[j]).0 < bcwidth,
    ensures
        r matches Ok(ib) ==> inner_bytes_ok(ib@, c@, ev, bcwidth),
        r == Err::<Vec<u8>, WriteError>(WriteError::ComponentBrickError) ==> exists|j: int|
            0 <= j < ev.len() && missing_in(#[trigger] ev[j].1, c@.properties),
        r is Err ==> r == Err::<Vec<u8>, WriteError>(WriteError::ComponentBrickError) || r
            == Err::<Vec<u8>, WriteError>(WriteError::TooLarge),
        r is Ok ==> forall|j: int|
            0 <= j < ev.len() ==> !missing_in(#[trigger] ev[j].1, c@.properties),
        inner_sizes_ok(c@, ev, bcwidth) ==> (r is Ok || r == Err::<Vec<u8>, WriteError>(
            WriteError::ComponentBrickError,
        )),
        inner_writable(c@, ev, bcwidth) ==> r is Ok,
{
    let ghost pv = c@.properties;
    let mut inner = BitSink::new();
    proof {
        assert(inner.bits() =~= Seq::<bool>::empty());
    }
    inner.write_i32_le(c.version);
    let nn = entries.len();
    inner.write_i32_le(nn as i32);
    let ghost seg0 = stream_bits(i32_le_bytes(c.version)) + stream_bits(i32_le_bytes(
        nn as i32,
    ));
    proof {
        assert(inner.bits() =~= seg0);
    }
    // the indices of the bricks that carry this component
    let mut q: usize = 0;
    let ghost mut done: Seq<bool> = seq![];
    proof {
        assert(ev.skip(0) =~= ev);
        assert(inner.bits() =~= seg0 + done);
        assert(done + enc_idx_bits(ev.skip(0), bcwidth) =~= enc_idx_bits(ev, bcwidth));
    }
    while q < nn
        invariant
            q <= nn,
            nn == entries@.len(),
            inner.wf(),
            bcwidth >= 2,
            ev == entries@.map_values(
                |e: (u32, crate::save::PropertyValues)|
                    (e.0 as int, crate::save::props_view(e.1@)),
            ),
            forall|j: int| 0 <= j < ev.len() ==> 0 <= (#[trigger] ev[j]).0 < bcwidth,
            inner.bits() == seg0 + done,
            enc_idx_bits(ev, bcwidth) == done + enc_idx_bits(ev.skip(q as int), bcwidth),
        decreases nn - q,
    {
        proof {
            assert(ev[q as int] == (entries@[q as int].0 as int, crate::save::props_view(
                entries@[q as int].1@,
            )));
            assert(ev.skip(q as int)[0] == ev[q as int]);
            assert(ev.skip(q as int).drop_first() =~= ev.skip(q + 1));
        }
        let idx = entries[q].0;
        if !inner.write_uint(idx, bcwidth) {
            proof {
                assert(false);
            }
            return Err(WriteError::TooLarge);
        }
        proof {
            let olddone = done;
            done = done + enc_uint(idx, bcwidth);
            assert(seg0 + olddone + enc_uint(idx, bcwidth) =~= seg0 + done);
            assert(olddone + (enc_uint(idx, bcwidth) + enc_idx_bits(ev.skip(q + 1), bcwidth))
                =~= done + enc_idx_bits(ev.skip(q + 1), bcwidth));
        }
        q = q + 1;
    }
    let ghost seg1 = seg0 + enc_idx_bits(ev, bcwidth);
    proof {
        assert(enc_idx_bits(ev.skip(nn as int), bcwidth) =~= Seq::<bool>::empty());
        assert(done + Seq::<bool>::empty() =~= done);
        assert(inner.bits() =~= seg1);
    }
    // the declared properties
    let np = c.properties.len();
    if np > 0x7FFF_FFFF {
        return Err(WriteError::TooLarge);
    }
    inner.write_i32_le(np as i32);
    let ghost seg2 = seg1 + stream_bits(i32_le_bytes(np as i32));
    let mut pj: usize = 0;
    let ghost mut pdone: Seq<bool> = seq![];
    proof {
        assert(pv.skip(0) =~= pv);
        assert(inner.bits() =~= seg2 + pdone);
        assert(pdone + enc_props_bits(pv.skip(0)) =~= enc_props_bits(pv));
    }
    while pj < np
        invariant
            pj <= np,
            np == c.properties@.len(),
            pv == c@.properties,
            inner.wf(),
            inner.bits() == seg2 + pdone,
            enc_props_bits(pv) == pdone + enc_props_bits(pv.skip(pj as int)),
        decreases np - pj,
    {
        proof {
            assert(pv.skip(pj as int)[0] == (c.properties@[pj as int].0@,
                c.properties@[pj as int].1@));
            assert(pv.skip(pj as int).drop_first() =~= pv.skip(pj + 1));
        }
        let pq = &c.properties[pj];
        if !inner.write_string(pq.0.as_str()) {
            return Err(WriteError::TooLarge);
        }
        if !inner.write_string(pq.1.as_str()) {
            return Err(WriteError::TooLarge);
        }
        proof {
            let olddone = pdone;
            pdone = pdone + stream_bits(str_wire(pv[pj as int].0)) + stream_bits(str_wire(
                pv[pj as int].1,
            ));
            assert(seg2 + olddone + stream_bits(str_wire(pv[pj as int].0)) + stream_bits(
                str_wire(pv[pj as int].1),
            ) =~= seg2 + pdone);
            assert(olddone + (stream_bits(str_wire(pv[pj as int].0)) + stream_bits(str_wire(
                pv[pj as int].1,
            )) + enc_props_bits(pv.skip(pj + 1))) =~= pdone + enc_props_bits(pv.skip(pj + 1)));
        }
        pj = pj + 1;
    }
    let ghost seg3 = seg2 + enc_props_bits(pv);
    proof {
        assert(enc_props_bits(pv.skip(np as int)) =~= Seq::<bool>::empty());
        assert(pdone + Seq::<bool>::empty() =~= pdone);
        assert(inner.bits() =~= seg3);
    }
    // one value table per carrying brick, in brick order
    let mut q2: usize = 0;
    let ghost mut tdone: Seq<bool> = seq![];
    proof {
        assert(ev.skip(0) =~= ev);
        assert(inner.bits() =~= seg3 + tdone);
        assert(tdone + enc_tables_bits(ev.skip(0), pv) =~= enc_tables_bits(ev, pv));
    }
    while q2 < nn
        invariant
            q2 <= nn,
            nn == entries@.len(),
            pv == c@.properties,
            np == c.properties@.len(),
            inner.wf(),
            ev == entries@.map_values(
                |e: (u32, crate::save::PropertyValues)|
                    (e.0 as int, crate::save::props_view(e.1@)),
            ),
            forall|j: int| 0 <= j < q2 ==> !missing_in((#[trigger] ev[j]).1, pv),
            inner.bits() == seg3 + tdone,
            enc_tables_bits(ev, pv) == tdone + enc_tables_bits(ev.skip(q2 as int), pv),
        decreases nn - q2,
    {
        proof {
            assert(ev[q2 as int] == (entries@[q2 as int].0 as int, crate::save::props_view(
                entries@[q2 as int].1@,
            )));
            assert(ev.skip(q2 as int)[0] == ev[q2 as int]);
            assert(ev.skip(q2 as int).drop_first() =~= ev.skip(q2 + 1));
        }
        let ghost table = ev[q2 as int].1;
        let mut pj2: usize = 0;
        let ghost mut vdone: Seq<bool> = seq![];
        proof {
            assert(pv.skip(0) =~= pv);
            assert(inner.bits() =~= (seg3 + tdone) + vdone);
            assert(vdone + enc_table_bits(table, pv.skip(0)) =~= enc_table_bits(table, pv));
        }
        while pj2 < np
            invariant
                pj2 <= np,
                np == c.properties@.len(),
                nn == entries@.len(),
                q2 < nn,
                pv == c@.properties,
                inner.wf(),
                ev == entries@.map_values(
                    |e: (u32, crate::save::PropertyValues)|
                        (e.0 as int, crate::save::props_view(e.1@)),
                ),
                table == ev[q2 as int].1,
                forall|p: int|
                    0 <= p < pj2 ==> lookup_value(table, (#[trigger] pv[p]).0) is Some,
                inner.bits() == (seg3 + tdone) + vdone,
                enc_table_bits(table, pv) == vdone + enc_table_bits(
                    table,
                    pv.skip(pj2 as int),
                ),
            decreases np - pj2,
        {
            proof {
                assert(pv.skip(pj2 as int)[0] == (c.properties@[pj2 as int].0@,
                    c.properties@[pj2 as int].1@));
                assert(pv.skip(pj2 as int).drop_first() =~= pv.skip(pj2 + 1));
            }
            let pname = &c.properties[pj2].0;
            let v = match find_prop(&entries[q2].1, pname.as_str()) {
                Some(v) => v,
                None => {
                    proof {
                        assert(lookup_value(table, pv[pj2 as int].0) is None);
                        assert(missing_in(table, pv));
                    }
                    return Err(WriteError::ComponentBrickError);
                },
            };
            if !write_unreal(&mut inner, v) {
                return Err(WriteError::TooLarge);
            }
            proof {
                let olddone = vdone;
                vdone = vdone + enc_unreal(v@);
                assert((seg3 + tdone) + olddone + enc_unreal(v@) =~= (seg3 + tdone) + vdone);
                assert(olddone + (enc_unreal(v@) + enc_table_bits(table, pv.skip(pj2 + 1)))
                    =~= vdone + enc_table_bits(table, pv.skip(pj2 + 1)));
            }
            pj2 = pj2 + 1;
        }
        proof {
            assert(enc_table_bits(table, pv.skip(np as int)) =~= Seq::<bool>::empty());
            assert(vdone + Seq::<bool>::empty() =~= vdone);
            assert(!missing_in(table, pv)) by {
                if missing_in(table, pv) {
                    let p = choose|p: int|
                        0 <= p < pv.len() && lookup_value(table, #[trigger] pv[p].0) is None;
                    assert(lookup_value(table, pv[p].0) is Some);
                }
            }
            let oldt = tdone;
            tdone = tdone + enc_table_bits(table, pv);
            assert((seg3 + oldt) + enc_table_bits(table, pv) =~= seg3 + tdone);
            assert(oldt + (enc_table_bits(table, pv) + enc_tables_bits(ev.skip(q2 + 1), pv))
                =~= tdone + enc_tables_bits(ev.skip(q2 + 1), pv));
        }
        q2 = q2 + 1;
    }
    proof {
        assert(enc_tables_bits(ev.skip(nn as int), pv) =~= Seq::<bool>::empty());
        assert(tdone + Seq::<bool>::empty() =~= tdone);
        assert(inner.bits() =~= enc_component_bits(c.version, ev, pv, bcwidth));
    }
    let ghost allbits = inner.bits();
    inner.byte_align();
    proof {
        assert(inner.bits() =~= allbits + pad8(allbits.len() as int));
    }
    let ib = inner.into_bytes();
    proof {
        lemma_bytes_of_stream(ib@);
    }
    if ib.len() > 0x7FFF_FFFF {
        return Err(WriteError::TooLarge);
    }
    Ok(ib)
}

/// What a well-built inner stream looks like.
pub open spec fn inner_bytes_ok(
    ib: Seq<u8>,
    c: ComponentV,
    ev: Seq<(int, Seq<(Seq<char>, UnrealTypeV)>)>,
    bcwidth: u32,
) -> bool {
    ib == inner_bytes_of(c, ev, bcwidth) && ib.len() <= 0x7FFF_FFFF
}

/// When one component's inner stream fits every size field: its declared
/// properties fit, every stored value fits, and the aligned stream fits its
/// byte-length field.
pub open spec fn inner_sizes_ok(
    c: ComponentV,
    ev: Seq<(int, Seq<(Seq<char>, UnrealTypeV)>)>,
    bcwidth: u32,
) -> bool {
    &&& c.properties.len() <= 0x7FFF_FFFF
    &&& (forall|p: int|
        0 <= p < c.properties.len() ==> str_fits((#[trigger] c.properties[p]).0) && str_fits(
            c.properties[p].1,
        ))
    &&& (forall|j: int, p: int|
        0 <= j < ev.len() && 0 <= p < c.properties.len() ==> (match lookup_value(
            #[trigger] ev[j].1,
            #[trigger] c.properties[p].0,
        ) {
            Some(v) => unreal_fits(v),
            None => true,
        }))
    &&& inner_bytes_of(c, ev, bcwidth).len() <= 0x7FFF_FFFF
}

/// When one component's inner stream must build: its sizes fit and no table
/// lacks a declared property.
pub open spec fn inner_writable(
    c: ComponentV,
    ev: Seq<(int, Seq<(Seq<char>, UnrealTypeV)>)>,
    bcwidth: u32,
) -> bool {
    &&& inner_sizes_ok(c, ev, bcwidth)
    &&& (forall|j: int| 0 <= j < ev.len() ==> !missing_in(#[trigger] ev[j].1, c.properties))
}

/// Emits one component onto the section: its name, then its framed inner
/// stream.
#[verifier::rlimit(100)]
#[verifier::spinoff_prover]
fn emit_component(sc: &mut Vec<u8>, data: &SaveData, ki: usize, bcwidth: u32) -> (r: Result<
    (),
    WriteError,
>)
    requires
        data.bricks@.len() <= 0x7FFF_FFFF,
        ki < data.components@.len(),
        bcwidth == width_of(data@.bricks.len()),
        bcwidth >= 2,
    ensures
        r is Ok ==> final(sc)@ == old(sc)@ + enc_component(
            data@.components[ki as int].0,
            data@.components[ki as int].1,
            data@.bricks,
            bcwidth,
        ),
        r is Ok ==> forall|j: int|
            0 <= j < collect_tables(data@.bricks, 0, data@.components[ki as int].0).len()
                ==> !missing_in(
                #[trigger] collect_tables(data@.bricks, 0, data@.components[ki as int].0)[j].1,
                data@.components[ki as int].1.properties,
            ),
        r == Err::<(), WriteError>(WriteError::ComponentBrickError) ==> missing_property(
            data@,
        ),
        r is Err ==> r == Err::<(), WriteError>(WriteError::ComponentBrickError) || r == Err::<
            (),
            WriteError,
        >(WriteError::TooLarge),
        components_writable(data@) ==> (r is Ok || r == Err::<(), WriteError>(
            WriteError::ComponentBrickError,
        )),
        (components_writable(data@) && !missing_property(data@)) ==> r is Ok,
{
    let ghost compsv = data@.components;
    let ghost bricksv = data@.bricks;
    let centry = &data.components[ki];
    proof {
        assert(compsv[ki as int] == (data.components@[ki as int].0@,
            data.components@[ki as int].1@));
    }
    if !put_string(sc, centry.0.as_str()) {
        return Err(WriteError::TooLarge);
    }
    let entries = collect_entries(&data.bricks, centry.0.as_str());
    let ghost ev = entries@.map_values(
        |e: (u32, crate::save::PropertyValues)|
            (e.0 as int, crate::save::props_view(e.1@)),
    );
    if entries.len() > 0x7FFF_FFFF {
        proof {
            lemma_collect_bounded(bricksv, 0, compsv[ki as int].0);
            assert(false);
        }
        return Err(WriteError::TooLarge);
    }
    proof {
        assert forall|j: int| 0 <= j < ev.len() implies 0 <= (#[trigger] ev[j]).0
            < bcwidth by {
            lemma_collect_indices(bricksv, 0, compsv[ki as int].0);
            assert(ev == collect_tables(bricksv, 0, compsv[ki as int].0));
            assert(ev[j].0 < bricksv.len());
        }
    }
    let ib = match inner_component(&centry.1, &entries, bcwidth, Ghost(ev)) {
        Ok(ib) => ib,
        Err(e) => {
            proof {
                if e == WriteError::ComponentBrickError {
                    assert(missing_property(data@)) by {
                        let j = choose|j: int|
                            0 <= j < ev.len() && missing_in(#[trigger] ev[j].1,
                                compsv[ki as int].1.properties);
                        assert(0 <= ki < compsv.len() && 0 <= j < collect_tables(bricksv, 0,
                            compsv[ki as int].0).len() && missing_in(
                            collect_tables(bricksv, 0, compsv[ki as int].0)[j].1,
                            compsv[ki as int].1.properties,
                        ));
                    }
                } else {
                    assert(!components_writable(data@)) by {
                        if components_writable(data@) {
                            assert(inner_sizes_ok(compsv[ki as int].1, ev, bcwidth));
                        }
                    }
                }
            }
            return Err(e);
        },
    };
    put_i32_le(sc, ib.len() as i32);
    put_bytes(sc, &ib);
    proof {
        assert(enc_component(compsv[ki as int].0, compsv[ki as int].1, bricksv, bcwidth) =~=
            str_wire(compsv[ki as int].0) + i32_le_bytes(ib@.len() as i32) + ib@);
        assert(final(sc)@ =~= old(sc)@ + enc_component(compsv[ki as int].0,
            compsv[ki as int].1, bricksv, bcwidth));
    }
    Ok(())
}

/// Builds the component section's bytes.
#[verifier::rlimit(100)]
#[verifier::spinoff_prover]
fn section_components(data: &SaveData) -> (r: Result<Vec<u8>, WriteError>)
    requires
        data.bricks@.len() <= 0x7FFF_FFFF,
    ensures
        r matches Ok(sc) ==> sc@ == enc_components(data@) && !missing_property(data@)
            && sc@.len() <= 0x7FFF_FFFF,
        r == Err::<Vec<u8>, WriteError>(WriteError::ComponentBrickError) ==> missing_property(
            data@,
        ),
        r is Err ==> r == Err::<Vec<u8>, WriteError>(WriteError::ComponentBrickError) || r
            == Err::<Vec<u8>, WriteError>(WriteError::TooLarge),
        components_writable(data@) && !missing_property(data@) ==> r is Ok,
        components_writable(data@) && missing_property(data@) ==> r == Err::<
            Vec<u8>,
            WriteError,
        >(WriteError::ComponentBrickError),
{
    let mut sc: Vec<u8> = Vec::new();
    if data.components.len() > 0x7FFF_FFFF {
        return Err(WriteError::TooLarge);
    }
    put_i32_le(&mut sc, data.components.len() as i32);
    let ncomps = data.components.len();
    let bcwidth = crate::read::width2(data.bricks.len());
    if bcwidth < 2 {
        proof {
            assert(false);
        }
        return Err(WriteError::TooLarge);
    }
    let ghost compsv = data@.components;
    let ghost bricksv = data@.bricks;
    let ghost prefix = i32_le_bytes(ncomps as i32);
    let mut ki: usize = 0;
    proof {
        assert(sc@ =~= prefix);
    }
    while ki < ncomps
        invariant
            ki <= ncomps,
            ncomps == data.components@.len(),
            data.bricks@.len() <= 0x7FFF_FFFF,
            bcwidth == width_of(data@.bricks.len()),
            bcwidth >= 2,
            compsv == data@.components,
            bricksv == data@.bricks,
            prefix == i32_le_bytes(ncomps as i32),
            prefix + enc_components_list(compsv, 0, bricksv, bcwidth) == sc@
                + enc_components_list(compsv, ki as nat, bricksv, bcwidth),
            forall|k: int, j: int|
                #![trigger collect_tables(bricksv, 0, compsv[k].0)[j]]
                0 <= k < ki && 0 <= j < collect_tables(bricksv, 0, compsv[k].0).len()
                    ==> !missing_in(
                    collect_tables(bricksv, 0, compsv[k].0)[j].1,
                    compsv[k].1.properties,
                ),
        decreases ncomps - ki,
    {
        match emit_component(&mut sc, data, ki, bcwidth) {
            Ok(()) => {},
            Err(e) => {
                return Err(e);
            },
        }
        proof {
            assert(enc_components_list(compsv, ki as nat, bricksv, bcwidth) == enc_component(
                compsv[ki as int].0,
                compsv[ki as int].1,
                bricksv,
                bcwidth,
            ) + enc_components_list(compsv, (ki + 1) as nat, bricksv, bcwidth));
        }
        ki = ki + 1;
    }
    proof {
        assert(enc_components_list(compsv, ncomps as nat, bricksv, bcwidth) =~= Seq::<
            u8,
        >::empty());
        assert(sc@ + Seq::<u8>::empty() =~= sc@);
        assert(sc@ =~= enc_components(data@));
    }
    if sc.len() > 0x7FFF_FFFF {
        return Err(WriteError::TooLarge);
    }
    proof {
        assert(!missing_property(data@)) by {
            if missing_property(data@) {
                let (k, j) = choose|k: int, j: int|
                    #![trigger collect_tables(bricksv, 0, compsv[k].0)[j]]
                    0 <= k < compsv.len() && 0 <= j < collect_tables(
                        bricksv,
                        0,
                        compsv[k].0,
                    ).len() && missing_in(
                        collect_tables(bricksv, 0, compsv[k].0)[j].1,
                        compsv[k].1.properties,
                    );
                assert(!missing_in(collect_tables(bricksv, 0, compsv[k].0)[j].1,
                    compsv[k].1.properties));
            }
        }
    }
    Ok(sc)
}

/// Collected entries are no more numerous than the bricks.
proof fn lemma_collect_bounded(bricks: Seq<BrickV>, i: nat, name: Seq<char>)
    ensures
        collect_tables(bricks, i, name).len() <= bricks.len() - i || i > bricks.len(),
    decreases bricks.len() - i,
{
    if i < bricks.len() {
        lemma_collect_bounded(bricks, i + 1, name);
    }
}

/// Collected entries carry indices within the brick list.
proof fn lemma_collect_indices(bricks: Seq<BrickV>, i: nat, name: Seq<char>)
    ensures
        forall|j: int|
            0 <= j < collect_tables(bricks, i, name).len() ==> i <= (
            #[trigger] collect_tables(bricks, i, name)[j]).0 < bricks.len(),
    decreases bricks.len() - i,
{
    if i < bricks.len() {
        lemma_collect_indices(bricks, (i + 1) as nat, name);
        let cur = collect_tables(bricks, i, name);
        let rest = collect_tables(bricks, (i + 1) as nat, name);
        assert forall|j: int| 0 <= j < cur.len() implies i <= (#[trigger] cur[j]).0
            < bricks.len() by {
            match lookup_table(bricks[i as int].components, name) {
                Some(t) => {
                    if j > 0 {
                        assert(cur[j] == rest[j - 1]);
                    }
                },
                None => {
                    assert(cur[j] == rest[j]);
                },
            }
        }
    }
}

} // verus!
