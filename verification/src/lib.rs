//! A verified codec for Brickadia `.brs` save files.
//!
//! The library decodes and encodes the binary container (headers, palette,
//! bricks, per-brick components) and offers a sparse octree index over brick
//! bounding volumes.

pub mod bits;
pub mod compress;
pub mod octree;
pub mod read;
pub mod save;
pub mod strings;
pub mod wire;
pub mod write;

use vstd::prelude::*;

verus! {

/// The container version this library writes.
pub const SAVE_VERSION: u16 = 10;

/// The three magic bytes that begin every save file.
pub open spec fn spec_magic() -> Seq<u8> {
    seq![0x42u8, 0x52u8, 0x53u8]
}

/// Returns the magic bytes `B`, `R`, `S` that begin every save file.
pub fn magic_bytes() -> (r: [u8; 3])
    ensures
        r@ == spec_magic(),
{
    let r = [0x42u8, 0x52u8, 0x53u8];
    proof {
        assert(r@ =~= spec_magic());
    }
    r
}

} // verus!
