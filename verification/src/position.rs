//! Bit-packed block coordinates, wire angles, and 128-bit identifiers.
//!
//! A block position packs three signed coordinates into one 64-bit word as
//! `x:26 bits | z:26 bits | y:12 bits`, each field two's-complement: decode
//! sign-extends each field from its width, encode masks each coordinate to
//! its width, so the coding is lossy outside the widths and exact within
//! them.  An angle travels as one byte of 256ths of a half-turn.  An
//! identifier is 16 raw bytes.
use crate::numbers::{be_bytes, fixed_dec, lemma_be_bytes_len, lemma_fixed_round, lemma_pow256_val_16,
    pow256, read_be, write_be};
use crate::packet::{
    remaining_of, PacketRead, PacketReadable, PacketReadableError, PacketWritable,
    PacketWritableError, PacketWrite, RoundTrip,
};
use vstd::arithmetic::div_mod::lemma_fundamental_div_mod_converse;
use vstd::prelude::*;

verus! {

/// A 3D integer block coordinate.  `x` and `z` carry 26 significant bits,
/// `y` twelve.
#[derive(Clone, Copy, Debug, PartialEq, Eq, Structural)]
pub struct BlockPosition {
    pub x: i32,
    pub y: i16,
    pub z: i32,
}

impl DeepView for BlockPosition {
    type V = BlockPosition;

    open spec fn deep_view(&self) -> BlockPosition {
        *self
    }
}

/// A field value sign-extended from `width`-bit two's complement, where
/// `half` is `2^(width-1)` and `full` is `2^width`.
pub open spec fn sign_extend(field: int, half: int, full: int) -> int {
    if field >= half {
        field - full
    } else {
        field
    }
}

/// The 64-bit word a position packs into.
pub open spec fn block_position_word(p: BlockPosition) -> int {
    (p.x % 0x4000000) * 0x4000000000 + (p.z % 0x4000000) * 0x1000 + (p.y % 0x1000)
}

/// The position a 64-bit word unpacks to.
pub open spec fn block_position_of_word(val: int) -> BlockPosition {
    BlockPosition {
        x: sign_extend(val / 0x4000000000, 0x2000000, 0x4000000) as i32,
        y: sign_extend(val % 0x1000, 0x800, 0x1000) as i16,
        z: sign_extend((val / 0x1000) % 0x4000000, 0x2000000, 0x4000000) as i32,
    }
}

/// Whether every coordinate fits its bit width: exactly the positions the
/// lossy packing keeps.
pub open spec fn block_position_in_range(p: BlockPosition) -> bool {
    &&& -0x2000000 <= p.x < 0x2000000
    &&& -0x800 <= p.y < 0x800
    &&& -0x2000000 <= p.z < 0x2000000
}

impl PacketReadable for BlockPosition {
    open spec fn dec(s: Seq<u8>) -> Result<(BlockPosition, int), PacketReadableError> {
        match fixed_dec(s, 8) {
            Ok((val, n)) => Ok((block_position_of_word(val as int), n)),
            Err(e) => Err(e),
        }
    }

    fn read<R: PacketRead>(read: &mut R) -> (r: Result<Self, PacketReadableError>) {
        let val = match read_be(read, 8) {
            Ok(v) => {
                proof {
                    crate::numbers::lemma_pow256_val_8();
                }
                v as u64
            },
            Err(e) => {
                return Err(e);
            },
        };
        let xf = val / 0x4000000000;
        let zf = (val / 0x1000) % 0x4000000;
        let yf = val % 0x1000;
        let x: i32 = if xf >= 0x2000000 {
            (xf as i32) - 0x4000000
        } else {
            xf as i32
        };
        let z: i32 = if zf >= 0x2000000 {
            (zf as i32) - 0x4000000
        } else {
            zf as i32
        };
        let y16: i16 = if yf >= 0x800 {
            ((yf as i32) - 0x1000) as i16
        } else {
            yf as i16
        };
        Ok(BlockPosition { x, y: y16, z })
    }
}

impl PacketWritable for BlockPosition {
    open spec fn enc(&self) -> Seq<u8> {
        be_bytes(block_position_word(*self) as nat, 8)
    }

    open spec fn encodable(&self) -> bool {
        true
    }

    fn write<W: PacketWrite>(&self, write: &mut W) -> (r: Result<(), PacketWritableError>) {
        let xm: u64 = if self.x >= 0 {
            (self.x as u64) % 0x4000000
        } else {
            (((self.x as i64) + 0x100000000) as u64) % 0x4000000
        };
        let zm: u64 = if self.z >= 0 {
            (self.z as u64) % 0x4000000
        } else {
            (((self.z as i64) + 0x100000000) as u64) % 0x4000000
        };
        let ym: u64 = if self.y >= 0 {
            (self.y as u64) % 0x1000
        } else {
            (((self.y as i32) + 0x10000) as u64) % 0x1000
        };
        proof {
            lemma_mask_shifted(self.x as int, 0x4000000, 0x40);
            lemma_mask_shifted(self.z as int, 0x4000000, 0x40);
            lemma_mask_shifted(self.y as int, 0x1000, 0x10);
            assert(xm == self.x % 0x4000000 && zm == self.z % 0x4000000 && ym == self.y % 0x1000);
            lemma_word_bound(xm as int, zm as int, ym as int);
            crate::numbers::lemma_pow256_val_8();
        }
        let val: u64 = xm * 0x4000000000 + zm * 0x1000 + ym;
        write_be(write, val as u128, 8)
    }
}

/// Pushing a value up by a multiple of the field size does not change its
/// residue: how a negative coordinate is masked through its unsigned form.
proof fn lemma_mask_shifted(x: int, size: int, factor: int)
    requires
        size > 0,
        factor > 0,
    ensures
        (x + size * factor) % size == x % size,
{
    vstd::arithmetic::div_mod::lemma_mod_multiples_vanish(factor, x, size);
}

/// The packed word of in-range fields stays under `2^64`.
proof fn lemma_word_bound(xm: int, zm: int, ym: int)
    requires
        0 <= xm < 0x4000000,
        0 <= zm < 0x4000000,
        0 <= ym < 0x1000,
    ensures
        0 <= xm * 0x4000000000 + zm * 0x1000 + ym < 0x10000000000000000,
{
    assert(xm * 0x4000000000 <= 0x3ffffff * 0x4000000000 && 0 <= xm * 0x4000000000)
        by (nonlinear_arith)
        requires
            0 <= xm <= 0x3ffffff,
    ;
    assert(zm * 0x1000 <= 0x3ffffff * 0x1000 && 0 <= zm * 0x1000) by (nonlinear_arith)
        requires
            0 <= zm <= 0x3ffffff,
    ;
}

/// Unpacking the packed word recovers each field.
proof fn lemma_unpack(xm: int, zm: int, ym: int)
    requires
        0 <= xm < 0x4000000,
        0 <= zm < 0x4000000,
        0 <= ym < 0x1000,
    ensures
        (xm * 0x4000000000 + zm * 0x1000 + ym) / 0x4000000000 == xm,
        ((xm * 0x4000000000 + zm * 0x1000 + ym) / 0x1000) % 0x4000000 == zm,
        (xm * 0x4000000000 + zm * 0x1000 + ym) % 0x1000 == ym,
{
    let val = xm * 0x4000000000 + zm * 0x1000 + ym;
    assert(zm * 0x1000 + ym < 0x4000000000 && 0 <= zm * 0x1000 + ym) by (nonlinear_arith)
        requires
            0 <= zm < 0x4000000,
            0 <= ym < 0x1000,
    ;
    lemma_fundamental_div_mod_converse(val, 0x4000000000, xm, zm * 0x1000 + ym);
    assert(xm * 0x4000000000 + zm * 0x1000 + ym == (xm * 0x4000000 + zm) * 0x1000 + ym)
        by (nonlinear_arith);
    assert(0 <= xm * 0x4000000 + zm) by (nonlinear_arith)
        requires
            0 <= xm && 0 <= zm,
    ;
    lemma_fundamental_div_mod_converse(val, 0x1000, xm * 0x4000000 + zm, ym);
    lemma_fundamental_div_mod_converse(xm * 0x4000000 + zm, 0x4000000, xm, zm);
}

/// Round trip of the bit packing, for every position within the field
/// widths: the packing is lossy by design, so a coordinate outside its width
/// decodes to its masked, sign-extended residue instead of itself.
pub proof fn lemma_block_position_round(p: BlockPosition, tail: Seq<u8>)
    requires
        block_position_in_range(p),
    ensures
        BlockPosition::dec(p.enc() + tail) == Ok::<_, PacketReadableError>(
            (p, p.enc().len() as int),
        ),
{
    lemma_pow256_val_8_pub();
    let xm = p.x as int % 0x4000000;
    let zm = p.z as int % 0x4000000;
    let ym = p.y as int % 0x1000;
    lemma_mask_of_signed(p.x as int, 0x2000000);
    lemma_mask_of_signed(p.z as int, 0x2000000);
    lemma_mask_of_signed(p.y as int, 0x800);
    let val = block_position_word(p);
    lemma_word_bound(xm, zm, ym);
    lemma_unpack(xm, zm, ym);
    lemma_be_bytes_len(val as nat, 8);
    lemma_fixed_round(val as nat, 8, tail);
}

/// Reducing an in-range signed value modulo its field's size leaves the
/// value, shifted up by the size when it is negative: the sign extension's
/// exact inverse.
proof fn lemma_mask_of_signed(x: int, half: int)
    requires
        half > 0,
        -half <= x < half,
    ensures
        0 <= x % (2 * half) < 2 * half,
        x >= 0 ==> x % (2 * half) == x,
        x < 0 ==> x % (2 * half) == x + 2 * half,
{
    if x >= 0 {
        lemma_fundamental_div_mod_converse(x, 2 * half, 0, x);
    } else {
        lemma_fundamental_div_mod_converse(x, 2 * half, -1, x + 2 * half);
    }
}

/// `256^8` named for use in this module's proofs.
proof fn lemma_pow256_val_8_pub()
    ensures
        pow256(8) == 0x10000000000000000,
{
    crate::numbers::lemma_pow256_val_8();
}

/// A rotation as 256ths of a half-turn: the wire form of an angle, kept
/// exact.  Turning it into radians (a factor of pi over 256) is floating
/// point work for the application layer.
#[derive(Clone, Copy, Debug, PartialEq, Eq, Structural)]
pub struct Angle(pub u8);

impl DeepView for Angle {
    type V = Angle;

    open spec fn deep_view(&self) -> Angle {
        *self
    }
}

impl PacketReadable for Angle {
    open spec fn dec(s: Seq<u8>) -> Result<(Angle, int), PacketReadableError> {
        match u8::dec(s) {
            Ok((v, n)) => Ok((Angle(v), n)),
            Err(e) => Err(e),
        }
    }

    fn read<R: PacketRead>(read: &mut R) -> (r: Result<Self, PacketReadableError>) {
        match u8::read(read) {
            Ok(v) => Ok(Angle(v)),
            Err(e) => Err(e),
        }
    }
}

impl PacketWritable for Angle {
    open spec fn enc(&self) -> Seq<u8> {
        seq![self.0]
    }

    open spec fn encodable(&self) -> bool {
        true
    }

    fn write<W: PacketWrite>(&self, write: &mut W) -> (r: Result<(), PacketWritableError>) {
        write.write_byte(self.0)
    }
}

impl RoundTrip for Angle {
    proof fn round_trip(&self, tail: Seq<u8>) {
        assert((self.enc() + tail)[0] == self.0);
    }
}

/// A 128-bit identifier, travelling as 16 raw bytes, most significant first.
#[derive(Clone, Copy, Debug, PartialEq, Eq, Structural)]
pub struct Uuid(pub u128);

impl DeepView for Uuid {
    type V = Uuid;

    open spec fn deep_view(&self) -> Uuid {
        *self
    }
}

impl PacketReadable for Uuid {
    open spec fn dec(s: Seq<u8>) -> Result<(Uuid, int), PacketReadableError> {
        match fixed_dec(s, 16) {
            Ok((v, n)) => Ok((Uuid(v as u128), n)),
            Err(e) => Err(e),
        }
    }

    fn read<R: PacketRead>(read: &mut R) -> (r: Result<Self, PacketReadableError>) {
        match read_be(read, 16) {
            Ok(v) => {
                proof {
                    lemma_pow256_val_16();
                }
                Ok(Uuid(v))
            },
            Err(e) => Err(e),
        }
    }
}

impl PacketWritable for Uuid {
    open spec fn enc(&self) -> Seq<u8> {
        be_bytes(self.0 as nat, 16)
    }

    open spec fn encodable(&self) -> bool {
        true
    }

    fn write<W: PacketWrite>(&self, write: &mut W) -> (r: Result<(), PacketWritableError>) {
        proof {
            lemma_pow256_val_16();
        }
        write_be(write, self.0, 16)
    }
}

impl RoundTrip for Uuid {
    proof fn round_trip(&self, tail: Seq<u8>) {
        lemma_pow256_val_16();
        lemma_be_bytes_len(self.0 as nat, 16);
        lemma_fixed_round(self.0 as nat, 16, tail);
    }
}

} // verus!
