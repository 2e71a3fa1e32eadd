//! Variable-length integer codecs (VarInt and VarLong).
//!
//! A value travels as little-endian groups of seven bits; the high bit of
//! each byte says whether another group follows.  A VarInt carries 32 bits in
//! at most five bytes, a VarLong 64 bits in at most ten.  Decoding fails with
//! `BadVarNum` when the groups would run past the target's bit width, and the
//! signed target is the unsigned accumulator's bit pattern, with no zig-zag
//! transform.
use crate::packet::{
    remaining_of, PacketRead, PacketReadable, PacketReadableError, PacketVariantReadable,
    PacketVariantWritable, PacketWritable, PacketWritableError, PacketWrite, RoundTrip,
    VariantRoundTrip,
};
use vstd::prelude::*;

verus! {

/// `128^n`, the number of values `n` seven-bit groups can carry.
pub open spec fn pow128(n: nat) -> nat
    decreases n,
{
    if n == 0 {
        1
    } else {
        128 * pow128((n - 1) as nat)
    }
}

/// The seven-bit-group decoder: reads groups while the continuation bit is
/// set, failing with `BadVarNum` once more than `max` groups would be needed
/// and with `BytesExceeded` when the bytes run out first.
pub open spec fn var_dec(s: Seq<u8>, max: nat) -> Result<(nat, int), PacketReadableError>
    decreases max,
{
    if max == 0 {
        Err(PacketReadableError::BadVarNum)
    } else if s.len() == 0 {
        Err(PacketReadableError::BytesExceeded)
    } else if s[0] < 128 {
        Ok((s[0] as nat, 1))
    } else {
        match var_dec(s.skip(1), (max - 1) as nat) {
            Ok((v, n)) => Ok((((s[0] - 128) + 128 * v) as nat, n + 1)),
            Err(e) => Err(e),
        }
    }
}

/// The seven-bit-group encoding of `x`.
pub open spec fn var_enc(x: nat) -> Seq<u8>
    decreases x,
{
    if x < 128 {
        seq![x as u8]
    } else {
        seq![(x % 128 + 128) as u8] + var_enc(x / 128)
    }
}

pub proof fn lemma_pow128_increases(a: nat, b: nat)
    requires
        a <= b,
    ensures
        pow128(a) <= pow128(b),
    decreases b,
{
    if a < b {
        lemma_pow128_increases(a, (b - 1) as nat);
        assert(pow128((b - 1) as nat) <= 128 * pow128((b - 1) as nat)) by (nonlinear_arith)
            requires
                pow128((b - 1) as nat) >= 0,
        ;
    }
}

pub proof fn lemma_pow128_val_5()
    ensures
        pow128(5) == 0x800000000,
{
    reveal_with_fuel(pow128, 6);
}

pub proof fn lemma_pow128_val_10()
    ensures
        pow128(10) == 0x400000000000000000,
{
    reveal_with_fuel(pow128, 11);
}

/// An encoding never takes more groups than the value's width demands.
pub proof fn lemma_var_enc_len(x: nat, k: nat)
    requires
        x < pow128(k),
        1 <= k,
    ensures
        1 <= var_enc(x).len() <= k,
    decreases k,
{
    if x < 128 {
    } else {
        assert(pow128(1) == 128) by {
            reveal_with_fuel(pow128, 2);
        }
        if k == 1 {
            assert(false);
        }
        assert(x / 128 < pow128((k - 1) as nat)) by (nonlinear_arith)
            requires
                x < pow128(k),
                pow128(k) == 128 * pow128((k - 1) as nat),
        ;
        lemma_var_enc_len(x / 128, (k - 1) as nat);
    }
}

/// Round trip of the seven-bit-group coding: a fresh encoding at the head of
/// a stream decodes to the encoded value, whatever follows it.
pub proof fn lemma_var_round(x: nat, max: nat, tail: Seq<u8>)
    requires
        x < pow128(max),
        1 <= max,
    ensures
        var_dec(var_enc(x) + tail, max) == Ok::<_, PacketReadableError>(
            (x, var_enc(x).len() as int),
        ),
    decreases x,
{
    let s = var_enc(x) + tail;
    if x < 128 {
        assert(s[0] == x as u8);
    } else {
        assert(pow128(1) == 128) by {
            reveal_with_fuel(pow128, 2);
        }
        if max == 1 {
            assert(false);
        }
        assert(x / 128 < pow128((max - 1) as nat) && x / 128 < x && x % 128 + 128 < 256 && x == (x
            / 128) * 128 + x % 128) by (nonlinear_arith)
            requires
                x >= 128,
                x < pow128(max),
                pow128(max) == 128 * pow128((max - 1) as nat),
        ;
        lemma_var_round(x / 128, (max - 1) as nat, tail);
        assert(s[0] == (x % 128 + 128) as u8);
        assert(s.skip(1) =~= var_enc(x / 128) + tail);
    }
}

/// The seven-bit-group decoder fails only for want of bytes or width.
pub proof fn lemma_var_dec_errors(s: Seq<u8>, max: nat)
    ensures
        var_dec(s, max) matches Err(e) ==> e == PacketReadableError::BadVarNum || e
            == PacketReadableError::BytesExceeded,
    decreases max,
{
    if max > 0 && s.len() > 0 && s[0] >= 128 {
        lemma_var_dec_errors(s.skip(1), (max - 1) as nat);
    }
}

/// Read at most `max` seven-bit groups as one unsigned accumulator, together
/// with the number of bytes consumed.
#[verifier::loop_isolation(false)]
pub fn read_var<R: PacketRead>(read: &mut R, max: usize) -> (r: Result<
    (u128, usize),
    PacketReadableError,
>)
    requires
        old(read).wf(),
        1 <= max <= 10,
    ensures
        final(read).wf(),
        final(read).data() == old(read).data(),
        old(read).pos() <= final(read).pos() <= old(read).data().len(),
        match r {
            Ok((raw, n)) => {
                &&& var_dec(remaining_of(*old(read)), max as nat) == Ok::<
                    _,
                    PacketReadableError,
                >((raw as nat, n as int))
                &&& final(read).pos() == old(read).pos() + n
                &&& raw < pow128(max as nat)
                &&& 1 <= n <= max
            },
            Err(e) => var_dec(remaining_of(*old(read)), max as nat) == Err::<(nat, int), _>(e),
        },
{
    proof {
        read.wf_bounds();
        lemma_pow128_val_10();
    }
    let ghost d0 = read.data();
    let ghost p0 = read.pos();
    let ghost rem = remaining_of(*read);
    let mut raw: u128 = 0;
    let mut mult: u128 = 1;
    let mut idx: usize = 0;
    proof {
        assert(rem.skip(0) =~= rem);
    }
    loop
        invariant
            read.wf(),
            read.data() == d0,
            read.pos() == p0 + idx,
            0 <= p0,
            p0 + idx <= d0.len(),
            rem == d0.skip(p0),
            0 <= idx < max <= 10,
            mult == pow128(idx as nat),
            1 <= mult,
            raw < mult,
            mult <= pow128(9),
            pow128(9) == 0x8000000000000000,
            pow128(10) == 0x400000000000000000,
            match var_dec(rem.skip(idx as int), (max - idx) as nat) {
                Ok((v, n)) => var_dec(rem, max as nat) == Ok::<_, PacketReadableError>(
                    ((raw + mult * v) as nat, n + idx),
                ),
                Err(e) => var_dec(rem, max as nat) == Err::<(nat, int), _>(e),
            },
        decreases max - idx,
    {
        proof {
            assert(pow128(9) == 0x8000000000000000) by {
                reveal_with_fuel(pow128, 10);
            }
        }
        let b = match read.take_byte() {
            Ok(b) => b,
            Err(e) => {
                proof {
                    assert(rem.skip(idx as int).len() == 0);
                }
                return Err(e);
            },
        };
        proof {
            assert(rem.skip(idx as int)[0] == d0[p0 + idx]);
        }
        if b < 128 {
            proof {
                assert(raw + mult * (b as nat) < mult * 128) by (nonlinear_arith)
                    requires
                        raw < mult,
                        b < 128,
                        mult >= 1,
                ;
                assert(mult * 128 == 128 * mult && 128 * pow128(idx as nat) == pow128(
                    (idx + 1) as nat,
                ));
                lemma_pow128_increases((idx + 1) as nat, max as nat);
            }
            return Ok((raw + mult * (b as u128), idx + 1));
        }
        let ghost idx0 = idx;
        let ghost raw0 = raw;
        let ghost mult0 = mult;
        proof {
            assert(mult * ((b - 128) as u128) <= mult * 127 && raw + mult * 127 < mult * 128)
                by (nonlinear_arith)
                requires
                    raw < mult,
                    128 <= b <= 255,
                    mult >= 1,
            ;
            assert(mult * 128 == 128 * mult && 128 * pow128(idx as nat) == pow128(
                (idx + 1) as nat,
            ));
            lemma_pow128_increases((idx + 1) as nat, 10);
        }
        raw = raw + mult * ((b - 128) as u128);
        mult = mult * 128;
        idx = idx + 1;
        if idx == max {
            return Err(PacketReadableError::BadVarNum);
        }
        proof {
            assert(rem.skip(idx0 as int).skip(1) =~= rem.skip(idx as int));
            lemma_var_step(rem.skip(idx0 as int), (max - idx0) as nat, b, raw0 as nat, mult0 as nat);
            lemma_pow128_increases(idx as nat, 9);
        }
    }
}

/// One continuation step of the decoder: with a continuation byte `b` at the
/// head of `s`, scaling the inner decode's value into a running accumulator
/// absorbs the step exactly.
proof fn lemma_var_step(s: Seq<u8>, k: nat, b: u8, raw0: nat, mult0: nat)
    requires
        k >= 1,
        s.len() > 0,
        s[0] == b,
        b >= 128,
    ensures
        match var_dec(s.skip(1), (k - 1) as nat) {
            Ok((v, n)) => {
                &&& var_dec(s, k) == Ok::<_, PacketReadableError>(
                    (((b - 128) + 128 * v) as nat, n + 1),
                )
                &&& raw0 + mult0 * (((b - 128) + 128 * v) as nat) == (raw0 + mult0 * ((b
                    - 128) as nat)) + (mult0 * 128) * v
            },
            Err(e) => var_dec(s, k) == Err::<(nat, int), _>(e),
        },
{
    let inner = var_dec(s.skip(1), (k - 1) as nat);
    if inner is Ok {
        let (v, n) = inner->Ok_0;
        assert(raw0 + mult0 * (((b - 128) + 128 * v) as nat) == (raw0 + mult0 * ((b
            - 128) as nat)) + (mult0 * 128) * v) by (nonlinear_arith)
            requires
                b >= 128,
                v >= 0,
        ;
    }
}

/// Write `x` as seven-bit groups.
#[verifier::loop_isolation(false)]
pub fn write_var<W: PacketWrite>(write: &mut W, x: u128) -> (r: Result<(), PacketWritableError>)
    ensures
        r is Ok,
        final(write).contents() == old(write).contents() + var_enc(x as nat),
{
    let ghost c0 = write.contents();
    let mut value: u128 = x;
    loop
        invariant
            c0 + var_enc(x as nat) == write.contents() + var_enc(value as nat),
        decreases value,
    {
        if value < 128 {
            let r = write.write_byte(value as u8);
            match r {
                Ok(()) => (),
                Err(e) => {
                    return Err(e);
                },
            }
            assert(write.contents() =~= c0 + var_enc(x as nat));
            return Ok(());
        }
        let ghost v0 = value;
        let r = write.write_byte((value % 128 + 128) as u8);
        match r {
            Ok(()) => (),
            Err(e) => {
                return Err(e);
            },
        }
        value = value / 128;
        proof {
            assert(var_enc(v0 as nat) == seq![(v0 % 128 + 128) as u8] + var_enc(value as nat));
            assert(c0 + var_enc(x as nat) =~= write.contents() + var_enc(value as nat));
            assert(value < v0) by (nonlinear_arith)
                requires
                    v0 >= 128,
                    value == v0 / 128,
            ;
        }
    }
}

/// A 32-bit integer under the seven-bit-group wire form; also usable as a
/// strategy marker for a plain `i32` field.
#[derive(Clone, Copy, Debug, PartialEq, Eq, Structural)]
pub struct VarInt(pub i32);

/// A 64-bit integer under the seven-bit-group wire form; also usable as a
/// strategy marker for a plain `i64` field.
#[derive(Clone, Copy, Debug, PartialEq, Eq, Structural)]
pub struct VarLong(pub i64);

impl DeepView for VarInt {
    type V = VarInt;

    open spec fn deep_view(&self) -> VarInt {
        *self
    }
}

impl DeepView for VarLong {
    type V = VarLong;

    open spec fn deep_view(&self) -> VarLong {
        *self
    }
}

/// The decoded 32-bit value: the accumulator's low 32 bits, reinterpreted.
pub open spec fn var_int_dec(s: Seq<u8>) -> Result<(i32, int), PacketReadableError> {
    match var_dec(s, 5) {
        Ok((x, n)) => Ok(((((x % 0x100000000) as u32) as i32), n)),
        Err(e) => Err(e),
    }
}

/// The decoded 64-bit value: the accumulator's low 64 bits, reinterpreted.
pub open spec fn var_long_dec(s: Seq<u8>) -> Result<(i64, int), PacketReadableError> {
    match var_dec(s, 10) {
        Ok((x, n)) => Ok(((((x % 0x10000000000000000) as u64) as i64), n)),
        Err(e) => Err(e),
    }
}

impl PacketVariantReadable<i32> for VarInt {
    open spec fn dec_variant(s: Seq<u8>) -> Result<(i32, int), PacketReadableError> {
        var_int_dec(s)
    }

    fn read_variant<R: PacketRead>(read: &mut R) -> (r: Result<i32, PacketReadableError>) {
        let ghost rem = remaining_of(*read);
        match read_var(read, 5) {
            Ok((raw, n)) => {
                #[verifier::truncate]
                let v = raw as u32;
                proof {
                    assert(((raw as u32) as u128) == raw % 0x100000000) by (bit_vector);
                    assert(v == raw as u32);
                    assert(v as nat == (raw as nat) % 0x100000000);
                    assert(var_int_dec(rem) == Ok::<_, PacketReadableError>((v as i32, n as int)));
                    assert(<VarInt as PacketVariantReadable<i32>>::dec_variant(rem)
                        == var_int_dec(rem));
                    assert(rem == remaining_of(*old(read)));
                }
                Ok(v as i32)
            },
            Err(e) => Err(e),
        }
    }
}

impl PacketVariantWritable<i32> for VarInt {
    open spec fn enc_variant(object: &i32) -> Seq<u8> {
        var_enc((*object as u32) as nat)
    }

    open spec fn encodable_variant(object: &i32) -> bool {
        true
    }

    fn write_variant<W: PacketWrite>(object: &i32, write: &mut W) -> (r: Result<
        (),
        PacketWritableError,
    >) {
        let r = write_var(write, (*object as u32) as u128);
        proof {
            assert(((*object as u32) as u128) as nat == ((*object as u32) as nat));
            assert(<VarInt as PacketVariantWritable<i32>>::encodable_variant(object));
            assert(<VarInt as PacketVariantWritable<i32>>::enc_variant(object) == var_enc(
                (*object as u32) as nat,
            ));
        }
        r
    }
}

impl VariantRoundTrip<i32> for VarInt {
    proof fn round_trip_variant(object: &i32, tail: Seq<u8>) {
        let x = (*object as u32) as nat;
        lemma_pow128_val_5();
        lemma_var_round(x, 5, tail);
        let v = *object;
        assert((v as u32) as i32 == v) by (bit_vector);
    }
}

impl PacketVariantReadable<i64> for VarLong {
    open spec fn dec_variant(s: Seq<u8>) -> Result<(i64, int), PacketReadableError> {
        var_long_dec(s)
    }

    fn read_variant<R: PacketRead>(read: &mut R) -> (r: Result<i64, PacketReadableError>) {
        let ghost rem = remaining_of(*read);
        match read_var(read, 10) {
            Ok((raw, n)) => {
                #[verifier::truncate]
                let v = raw as u64;
                proof {
                    assert(((raw as u64) as u128) == raw % 0x10000000000000000) by (bit_vector);
                    assert(v == raw as u64);
                    assert(v as nat == (raw as nat) % 0x10000000000000000);
                    assert(var_long_dec(rem) == Ok::<_, PacketReadableError>((v as i64, n as int)));
                }
                Ok(v as i64)
            },
            Err(e) => Err(e),
        }
    }
}

impl PacketVariantWritable<i64> for VarLong {
    open spec fn enc_variant(object: &i64) -> Seq<u8> {
        var_enc((*object as u64) as nat)
    }

    open spec fn encodable_variant(object: &i64) -> bool {
        true
    }

    fn write_variant<W: PacketWrite>(object: &i64, write: &mut W) -> (r: Result<
        (),
        PacketWritableError,
    >) {
        let r = write_var(write, (*object as u64) as u128);
        proof {
            assert(((*object as u64) as u128) as nat == ((*object as u64) as nat));
            assert(<VarLong as PacketVariantWritable<i64>>::encodable_variant(object));
            assert(<VarLong as PacketVariantWritable<i64>>::enc_variant(object) == var_enc(
                (*object as u64) as nat,
            ));
        }
        r
    }
}

impl VariantRoundTrip<i64> for VarLong {
    proof fn round_trip_variant(object: &i64, tail: Seq<u8>) {
        let x = (*object as u64) as nat;
        lemma_pow128_val_10();
        lemma_var_round(x, 10, tail);
        let v = *object;
        assert((v as u64) as i64 == v) by (bit_vector);
    }
}

impl PacketReadable for VarInt {
    open spec fn dec(s: Seq<u8>) -> Result<(VarInt, int), PacketReadableError> {
        match var_int_dec(s) {
            Ok((v, n)) => Ok((VarInt(v), n)),
            Err(e) => Err(e),
        }
    }

    fn read<R: PacketRead>(read: &mut R) -> (r: Result<Self, PacketReadableError>) {
        match <VarInt as PacketVariantReadable<i32>>::read_variant(read) {
            Ok(v) => Ok(VarInt(v)),
            Err(e) => Err(e),
        }
    }
}

impl PacketWritable for VarInt {
    open spec fn enc(&self) -> Seq<u8> {
        var_enc((self.0 as u32) as nat)
    }

    open spec fn encodable(&self) -> bool {
        true
    }

    fn write<W: PacketWrite>(&self, write: &mut W) -> (r: Result<(), PacketWritableError>) {
        <VarInt as PacketVariantWritable<i32>>::write_variant(&self.0, write)
    }
}

impl RoundTrip for VarInt {
    proof fn round_trip(&self, tail: Seq<u8>) {
        <VarInt as VariantRoundTrip<i32>>::round_trip_variant(&self.0, tail);
    }
}

impl PacketReadable for VarLong {
    open spec fn dec(s: Seq<u8>) -> Result<(VarLong, int), PacketReadableError> {
        match var_long_dec(s) {
            Ok((v, n)) => Ok((VarLong(v), n)),
            Err(e) => Err(e),
        }
    }

    fn read<R: PacketRead>(read: &mut R) -> (r: Result<Self, PacketReadableError>) {
        match <VarLong as PacketVariantReadable<i64>>::read_variant(read) {
            Ok(v) => Ok(VarLong(v)),
            Err(e) => Err(e),
        }
    }
}

impl PacketWritable for VarLong {
    open spec fn enc(&self) -> Seq<u8> {
        var_enc((self.0 as u64) as nat)
    }

    open spec fn encodable(&self) -> bool {
        true
    }

    fn write<W: PacketWrite>(&self, write: &mut W) -> (r: Result<(), PacketWritableError>) {
        <VarLong as PacketVariantWritable<i64>>::write_variant(&self.0, write)
    }
}

impl RoundTrip for VarLong {
    proof fn round_trip(&self, tail: Seq<u8>) {
        <VarLong as VariantRoundTrip<i64>>::round_trip_variant(&self.0, tail);
    }
}

} // verus!
