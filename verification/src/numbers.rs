//! Fixed-width integer and boolean codecs.
//!
//! Integers travel as big-endian byte strings, one byte per eight bits of the
//! type's width.  A boolean travels as one byte: decode reads any nonzero
//! byte as true, encode always emits `0` or `1`.
use crate::packet::{
    PacketRead, PacketReadable, PacketReadableError, PacketWritable, PacketWritableError,
    PacketWrite, RoundTrip,
};
use crate::packet::remaining_of;
use vstd::prelude::*;

verus! {

/// `256^n`, the number of values a big-endian string of `n` bytes can carry.
pub open spec fn pow256(n: nat) -> nat
    decreases n,
{
    if n == 0 {
        1
    } else {
        256 * pow256((n - 1) as nat)
    }
}

/// The big-endian encoding of `x` in exactly `n` bytes (high byte first).
pub open spec fn be_bytes(x: nat, n: nat) -> Seq<u8>
    decreases n,
{
    if n == 0 {
        Seq::empty()
    } else {
        be_bytes(x / 256, (n - 1) as nat).push((x % 256) as u8)
    }
}

/// The value of a big-endian byte string.
pub open spec fn be_val(s: Seq<u8>) -> nat
    decreases s.len(),
{
    if s.len() == 0 {
        0
    } else {
        (be_val(s.drop_last()) * 256 + s.last()) as nat
    }
}

/// The decoder every fixed-width codec shares: take the first `n` bytes as a
/// big-endian value, or fail when fewer remain.
pub open spec fn fixed_dec(s: Seq<u8>, n: nat) -> Result<(nat, int), PacketReadableError> {
    if n <= s.len() {
        Ok((be_val(s.take(n as int)), n as int))
    } else {
        Err(PacketReadableError::BytesExceeded)
    }
}

pub proof fn lemma_be_bytes_len(x: nat, n: nat)
    ensures
        be_bytes(x, n).len() == n,
    decreases n,
{
    if n > 0 {
        lemma_be_bytes_len(x / 256, (n - 1) as nat);
    }
}

pub proof fn lemma_be_val_bound(s: Seq<u8>)
    ensures
        be_val(s) < pow256(s.len()),
    decreases s.len(),
{
    if s.len() > 0 {
        lemma_be_val_bound(s.drop_last());
        assert(be_val(s.drop_last()) * 256 + s.last() < 256 * pow256((s.len() - 1) as nat)) by {
            let v = be_val(s.drop_last());
            let p = pow256((s.len() - 1) as nat);
            assert(v <= p - 1);
            assert(v * 256 <= (p - 1) * 256) by (nonlinear_arith)
                requires
                    v <= p - 1,
            ;
        }
    }
}

/// Decoding a big-endian encoding yields the encoded value back.
pub proof fn lemma_be_round(x: nat, n: nat)
    requires
        x < pow256(n),
    ensures
        be_val(be_bytes(x, n)) == x,
    decreases n,
{
    if n == 0 {
    } else {
        assert(x / 256 < pow256((n - 1) as nat)) by (nonlinear_arith)
            requires
                x < pow256(n),
                pow256(n) == 256 * pow256((n - 1) as nat),
        ;
        lemma_be_round(x / 256, (n - 1) as nat);
        lemma_be_bytes_len(x / 256, (n - 1) as nat);
        let s = be_bytes(x, n);
        assert(s.drop_last() =~= be_bytes(x / 256, (n - 1) as nat));
        assert(x == (x / 256) * 256 + x % 256) by (nonlinear_arith);
    }
}

/// The round-trip fact all fixed-width codecs instantiate: a fresh `n`-byte
/// encoding at the head of a stream decodes to the encoded value and
/// consumes exactly `n` bytes.
pub proof fn lemma_fixed_round(x: nat, n: nat, tail: Seq<u8>)
    requires
        x < pow256(n),
    ensures
        fixed_dec(be_bytes(x, n) + tail, n) == Ok::<_, PacketReadableError>((x, n as int)),
{
    lemma_be_bytes_len(x, n);
    assert((be_bytes(x, n) + tail).take(n as int) =~= be_bytes(x, n));
    lemma_be_round(x, n);
}

/// Read `n` bytes as one big-endian value.
pub fn read_be<R: PacketRead>(read: &mut R, n: usize) -> (r: Result<u128, PacketReadableError>)
    requires
        old(read).wf(),
        n <= 16,
    ensures
        final(read).wf(),
        final(read).data() == old(read).data(),
        old(read).pos() <= final(read).pos() <= old(read).data().len(),
        remaining_of(*old(read)).len() == old(read).data().len() - old(read).pos(),
        match r {
            Ok(v) => {
                &&& old(read).pos() + n <= old(read).data().len()
                &&& final(read).pos() == old(read).pos() + n
                &&& v == be_val(remaining_of(*old(read)).take(n as int))
                &&& v < pow256(n as nat)
            },
            Err(e) => {
                &&& e == PacketReadableError::BytesExceeded
                &&& old(read).pos() + n > old(read).data().len()
            },
        },
    decreases n,
{
    proof {
        read.wf_bounds();
    }
    let ghost d0 = read.data();
    let ghost p0 = read.pos();
    let ghost rem = remaining_of(*read);
    if n == 0 {
        assert(rem.take(0) =~= Seq::<u8>::empty());
        return Ok(0);
    }
    let hi = match read_be(read, n - 1) {
        Ok(v) => v,
        Err(e) => {
            return Err(e);
        },
    };
    let b = match read.take_byte() {
        Ok(b) => b,
        Err(e) => {
            return Err(e);
        },
    };
    proof {
        assert(read.pos() == p0 + n && p0 + n <= d0.len());
        let t = rem.take(n as int);
        assert(rem.len() == d0.len() - p0);
        assert(t.drop_last() =~= rem.take(n - 1));
        assert(t.last() == rem[n - 1] && rem[n - 1] == d0[p0 + (n - 1)]);
        assert(b == d0[p0 + (n - 1)]);
        assert(pow256((n - 1) as nat) * 256 == 256 * pow256((n - 1) as nat)) by (nonlinear_arith);
        assert(hi * 256 + b < 256 * pow256((n - 1) as nat)) by (nonlinear_arith)
            requires
                hi < pow256((n - 1) as nat),
                b < 256,
        ;
        assert(pow256(n as nat) <= pow256(16)) by {
            lemma_pow256_increases(n as nat, 16);
        }
        assert(pow256(16) == 0x100000000000000000000000000000000) by {
            reveal_with_fuel(pow256, 17);
        }
    }
    Ok(hi * 256 + (b as u128))
}

pub proof fn lemma_pow256_increases(a: nat, b: nat)
    requires
        a <= b,
    ensures
        pow256(a) <= pow256(b),
    decreases b,
{
    if a < b {
        lemma_pow256_increases(a, (b - 1) as nat);
        assert(pow256((b - 1) as nat) <= 256 * pow256((b - 1) as nat)) by (nonlinear_arith)
            requires
                pow256((b - 1) as nat) >= 0,
        ;
    }
}

/// Write `x` as `n` big-endian bytes.
pub fn write_be<W: PacketWrite>(write: &mut W, x: u128, n: usize) -> (r: Result<
    (),
    PacketWritableError,
>)
    requires
        x < pow256(n as nat),
    ensures
        r is Ok,
        final(write).contents() == old(write).contents() + be_bytes(x as nat, n as nat),
    decreases n,
{
    if n == 0 {
        assert(final(write).contents() =~= old(write).contents() + be_bytes(x as nat, 0));
        return Ok(());
    }
    proof {
        assert(x / 256 < pow256((n - 1) as nat) && (x as nat) / 256 == ((x / 256) as nat) && (
        x as nat) % 256 == ((x % 256) as nat)) by (nonlinear_arith)
            requires
                x < pow256(n as nat),
                pow256(n as nat) == 256 * pow256((n - 1) as nat),
        ;
    }
    let r = write_be(write, x / 256, n - 1);
    match r {
        Ok(()) => (),
        Err(e) => {
            return Err(e);
        },
    }
    let r2 = write.write_byte((x % 256) as u8);
    match r2 {
        Ok(()) => (),
        Err(e) => {
            return Err(e);
        },
    }
    assert(final(write).contents() =~= old(write).contents() + be_bytes(x as nat, n as nat));
    Ok(())
}

impl PacketReadable for u8 {
    open spec fn dec(s: Seq<u8>) -> Result<(u8, int), PacketReadableError> {
        if s.len() >= 1 {
            Ok((s[0], 1))
        } else {
            Err(PacketReadableError::BytesExceeded)
        }
    }

    fn read<R: PacketRead>(read: &mut R) -> (r: Result<Self, PacketReadableError>) {
        proof {
            read.wf_bounds();
        }
        let ghost d0 = read.data();
        let ghost p0 = read.pos();
        let ghost rem = remaining_of(*read);
        let r = read.take_byte();
        proof {
            if r is Ok {
                assert(rem[0] == d0[p0]);
            }
        }
        r
    }
}

impl PacketWritable for u8 {
    open spec fn enc(&self) -> Seq<u8> {
        seq![*self]
    }

    open spec fn encodable(&self) -> bool {
        true
    }

    fn write<W: PacketWrite>(&self, write: &mut W) -> (r: Result<(), PacketWritableError>) {
        write.write_byte(*self)
    }
}

impl RoundTrip for u8 {
    proof fn round_trip(&self, tail: Seq<u8>) {
        assert((self.enc() + tail)[0] == *self);
    }
}

impl PacketReadable for i8 {
    open spec fn dec(s: Seq<u8>) -> Result<(i8, int), PacketReadableError> {
        match u8::dec(s) {
            Ok((v, n)) => Ok(((v as i8), n)),
            Err(e) => Err(e),
        }
    }

    fn read<R: PacketRead>(read: &mut R) -> (r: Result<Self, PacketReadableError>) {
        match u8::read(read) {
            Ok(v) => Ok(v as i8),
            Err(e) => Err(e),
        }
    }
}

impl PacketWritable for i8 {
    open spec fn enc(&self) -> Seq<u8> {
        seq![(*self as u8)]
    }

    open spec fn encodable(&self) -> bool {
        true
    }

    fn write<W: PacketWrite>(&self, write: &mut W) -> (r: Result<(), PacketWritableError>) {
        write.write_byte(*self as u8)
    }
}

impl RoundTrip for i8 {
    proof fn round_trip(&self, tail: Seq<u8>) {
        assert((self.enc() + tail)[0] == (*self as u8));
        assert((*self as u8) as i8 == *self) by (bit_vector);
    }
}

impl PacketReadable for bool {
    open spec fn dec(s: Seq<u8>) -> Result<(bool, int), PacketReadableError> {
        match u8::dec(s) {
            Ok((v, n)) => Ok(((v != 0), n)),
            Err(e) => Err(e),
        }
    }

    fn read<R: PacketRead>(read: &mut R) -> (r: Result<Self, PacketReadableError>) {
        match u8::read(read) {
            Ok(v) => Ok(v != 0),
            Err(e) => Err(e),
        }
    }
}

impl PacketWritable for bool {
    open spec fn enc(&self) -> Seq<u8> {
        if *self {
            seq![1u8]
        } else {
            seq![0u8]
        }
    }

    open spec fn encodable(&self) -> bool {
        true
    }

    fn write<W: PacketWrite>(&self, write: &mut W) -> (r: Result<(), PacketWritableError>) {
        write.write_byte(
            if *self {
                1
            } else {
                0
            },
        )
    }
}

impl RoundTrip for bool {
    proof fn round_trip(&self, tail: Seq<u8>) {
        assert((self.enc() + tail)[0] == self.enc()[0]);
    }
}


pub proof fn lemma_pow256_val_2()
    ensures
        pow256(2) == 0x10000,
{
    reveal_with_fuel(pow256, 3);
}

pub proof fn lemma_pow256_val_4()
    ensures
        pow256(4) == 0x100000000,
{
    reveal_with_fuel(pow256, 5);
}

pub proof fn lemma_pow256_val_8()
    ensures
        pow256(8) == 0x10000000000000000,
{
    reveal_with_fuel(pow256, 9);
}

pub proof fn lemma_pow256_val_16()
    ensures
        pow256(16) == 0x100000000000000000000000000000000,
{
    reveal_with_fuel(pow256, 17);
}

impl PacketReadable for u16 {
    open spec fn dec(s: Seq<u8>) -> Result<(u16, int), PacketReadableError> {
        match fixed_dec(s, 2) {
            Ok((x, n)) => Ok(((x as u16), n)),
            Err(e) => Err(e),
        }
    }

    fn read<R: PacketRead>(read: &mut R) -> (r: Result<Self, PacketReadableError>) {
        match read_be(read, 2) {
            Ok(v) => {
                proof {
                    lemma_pow256_val_2();
                }
                Ok(v as u16)
            },
            Err(e) => Err(e),
        }
    }
}

impl PacketWritable for u16 {
    open spec fn enc(&self) -> Seq<u8> {
        be_bytes(*self as nat, 2)
    }

    open spec fn encodable(&self) -> bool {
        true
    }

    fn write<W: PacketWrite>(&self, write: &mut W) -> (r: Result<(), PacketWritableError>) {
        proof {
            lemma_pow256_val_2();
        }
        write_be(write, *self as u128, 2)
    }
}

impl RoundTrip for u16 {
    proof fn round_trip(&self, tail: Seq<u8>) {
        lemma_pow256_val_2();
        lemma_be_bytes_len(*self as nat, 2);
        lemma_fixed_round(*self as nat, 2, tail);
    }
}

impl PacketReadable for i16 {
    open spec fn dec(s: Seq<u8>) -> Result<(i16, int), PacketReadableError> {
        match fixed_dec(s, 2) {
            Ok((x, n)) => Ok((((x as u16) as i16), n)),
            Err(e) => Err(e),
        }
    }

    fn read<R: PacketRead>(read: &mut R) -> (r: Result<Self, PacketReadableError>) {
        match read_be(read, 2) {
            Ok(v) => {
                proof {
                    lemma_pow256_val_2();
                }
                Ok((v as u16) as i16)
            },
            Err(e) => Err(e),
        }
    }
}

impl PacketWritable for i16 {
    open spec fn enc(&self) -> Seq<u8> {
        be_bytes((*self as u16) as nat, 2)
    }

    open spec fn encodable(&self) -> bool {
        true
    }

    fn write<W: PacketWrite>(&self, write: &mut W) -> (r: Result<(), PacketWritableError>) {
        proof {
            lemma_pow256_val_2();
        }
        write_be(write, (*self as u16) as u128, 2)
    }
}

impl RoundTrip for i16 {
    proof fn round_trip(&self, tail: Seq<u8>) {
        lemma_pow256_val_2();
        lemma_be_bytes_len((*self as u16) as nat, 2);
        lemma_fixed_round((*self as u16) as nat, 2, tail);
        let v = *self;
        assert((v as u16) as i16 == v) by (bit_vector);
    }
}

impl PacketReadable for u32 {
    open spec fn dec(s: Seq<u8>) -> Result<(u32, int), PacketReadableError> {
        match fixed_dec(s, 4) {
            Ok((x, n)) => Ok(((x as u32), n)),
            Err(e) => Err(e),
        }
    }

    fn read<R: PacketRead>(read: &mut R) -> (r: Result<Self, PacketReadableError>) {
        match read_be(read, 4) {
            Ok(v) => {
                proof {
                    lemma_pow256_val_4();
                }
                Ok(v as u32)
            },
            Err(e) => Err(e),
        }
    }
}

impl PacketWritable for u32 {
    open spec fn enc(&self) -> Seq<u8> {
        be_bytes(*self as nat, 4)
    }

    open spec fn encodable(&self) -> bool {
        true
    }

    fn write<W: PacketWrite>(&self, write: &mut W) -> (r: Result<(), PacketWritableError>) {
        proof {
            lemma_pow256_val_4();
        }
        write_be(write, *self as u128, 4)
    }
}

impl RoundTrip for u32 {
    proof fn round_trip(&self, tail: Seq<u8>) {
        lemma_pow256_val_4();
        lemma_be_bytes_len(*self as nat, 4);
        lemma_fixed_round(*self as nat, 4, tail);
    }
}

impl PacketReadable for i32 {
    open spec fn dec(s: Seq<u8>) -> Result<(i32, int), PacketReadableError> {
        match fixed_dec(s, 4) {
            Ok((x, n)) => Ok((((x as u32) as i32), n)),
            Err(e) => Err(e),
        }
    }

    fn read<R: PacketRead>(read: &mut R) -> (r: Result<Self, PacketReadableError>) {
        match read_be(read, 4) {
            Ok(v) => {
                proof {
                    lemma_pow256_val_4();
                }
                Ok((v as u32) as i32)
            },
            Err(e) => Err(e),
        }
    }
}

impl PacketWritable for i32 {
    open spec fn enc(&self) -> Seq<u8> {
        be_bytes((*self as u32) as nat, 4)
    }

    open spec fn encodable(&self) -> bool {
        true
    }

    fn write<W: PacketWrite>(&self, write: &mut W) -> (r: Result<(), PacketWritableError>) {
        proof {
            lemma_pow256_val_4();
        }
        write_be(write, (*self as u32) as u128, 4)
    }
}

impl RoundTrip for i32 {
    proof fn round_trip(&self, tail: Seq<u8>) {
        lemma_pow256_val_4();
        lemma_be_bytes_len((*self as u32) as nat, 4);
        lemma_fixed_round((*self as u32) as nat, 4, tail);
        let v = *self;
        assert((v as u32) as i32 == v) by (bit_vector);
    }
}

impl PacketReadable for u64 {
    open spec fn dec(s: Seq<u8>) -> Result<(u64, int), PacketReadableError> {
        match fixed_dec(s, 8) {
            Ok((x, n)) => Ok(((x as u64), n)),
            Err(e) => Err(e),
        }
    }

    fn read<R: PacketRead>(read: &mut R) -> (r: Result<Self, PacketReadableError>) {
        match read_be(read, 8) {
            Ok(v) => {
                proof {
                    lemma_pow256_val_8();
                }
                Ok(v as u64)
            },
            Err(e) => Err(e),
        }
    }
}

impl PacketWritable for u64 {
    open spec fn enc(&self) -> Seq<u8> {
        be_bytes(*self as nat, 8)
    }

    open spec fn encodable(&self) -> bool {
        true
    }

    fn write<W: PacketWrite>(&self, write: &mut W) -> (r: Result<(), PacketWritableError>) {
        proof {
            lemma_pow256_val_8();
        }
        write_be(write, *self as u128, 8)
    }
}

impl RoundTrip for u64 {
    proof fn round_trip(&self, tail: Seq<u8>) {
        lemma_pow256_val_8();
        lemma_be_bytes_len(*self as nat, 8);
        lemma_fixed_round(*self as nat, 8, tail);
    }
}

impl PacketReadable for i64 {
    open spec fn dec(s: Seq<u8>) -> Result<(i64, int), PacketReadableError> {
        match fixed_dec(s, 8) {
            Ok((x, n)) => Ok((((x as u64) as i64), n)),
            Err(e) => Err(e),
        }
    }

    fn read<R: PacketRead>(read: &mut R) -> (r: Result<Self, PacketReadableError>) {
        match read_be(read, 8) {
            Ok(v) => {
                proof {
                    lemma_pow256_val_8();
                }
                Ok((v as u64) as i64)
            },
            Err(e) => Err(e),
        }
    }
}

impl PacketWritable for i64 {
    open spec fn enc(&self) -> Seq<u8> {
        be_bytes((*self as u64) as nat, 8)
    }

    open spec fn encodable(&self) -> bool {
        true
    }

    fn write<W: PacketWrite>(&self, write: &mut W) -> (r: Result<(), PacketWritableError>) {
        proof {
            lemma_pow256_val_8();
        }
        write_be(write, (*self as u64) as u128, 8)
    }
}

impl RoundTrip for i64 {
    proof fn round_trip(&self, tail: Seq<u8>) {
        lemma_pow256_val_8();
        lemma_be_bytes_len((*self as u64) as nat, 8);
        lemma_fixed_round((*self as u64) as nat, 8, tail);
        let v = *self;
        assert((v as u64) as i64 == v) by (bit_vector);
    }
}

impl PacketReadable for u128 {
    open spec fn dec(s: Seq<u8>) -> Result<(u128, int), PacketReadableError> {
        match fixed_dec(s, 16) {
            Ok((x, n)) => Ok(((x as u128), n)),
            Err(e) => Err(e),
        }
    }

    fn read<R: PacketRead>(read: &mut R) -> (r: Result<Self, PacketReadableError>) {
        match read_be(read, 16) {
            Ok(v) => {
                proof {
                    lemma_pow256_val_16();
                }
                Ok(v as u128)
            },
            Err(e) => Err(e),
        }
    }
}

impl PacketWritable for u128 {
    open spec fn enc(&self) -> Seq<u8> {
        be_bytes(*self as nat, 16)
    }

    open spec fn encodable(&self) -> bool {
        true
    }

    fn write<W: PacketWrite>(&self, write: &mut W) -> (r: Result<(), PacketWritableError>) {
        proof {
            lemma_pow256_val_16();
        }
        write_be(write, *self as u128, 16)
    }
}

impl RoundTrip for u128 {
    proof fn round_trip(&self, tail: Seq<u8>) {
        lemma_pow256_val_16();
        lemma_be_bytes_len(*self as nat, 16);
        lemma_fixed_round(*self as nat, 16, tail);
    }
}

impl PacketReadable for i128 {
    open spec fn dec(s: Seq<u8>) -> Result<(i128, int), PacketReadableError> {
        match fixed_dec(s, 16) {
            Ok((x, n)) => Ok((((x as u128) as i128), n)),
            Err(e) => Err(e),
        }
    }

    fn read<R: PacketRead>(read: &mut R) -> (r: Result<Self, PacketReadableError>) {
        match read_be(read, 16) {
            Ok(v) => {
                proof {
                    lemma_pow256_val_16();
                }
                Ok((v as u128) as i128)
            },
            Err(e) => Err(e),
        }
    }
}

impl PacketWritable for i128 {
    open spec fn enc(&self) -> Seq<u8> {
        be_bytes((*self as u128) as nat, 16)
    }

    open spec fn encodable(&self) -> bool {
        true
    }

    fn write<W: PacketWrite>(&self, write: &mut W) -> (r: Result<(), PacketWritableError>) {
        proof {
            lemma_pow256_val_16();
        }
        write_be(write, (*self as u128) as u128, 16)
    }
}

impl RoundTrip for i128 {
    proof fn round_trip(&self, tail: Seq<u8>) {
        lemma_pow256_val_16();
        lemma_be_bytes_len((*self as u128) as nat, 16);
        lemma_fixed_round((*self as u128) as nat, 16, tail);
        let v = *self;
        assert((v as u128) as i128 == v) by (bit_vector);
    }
}

} // verus!
