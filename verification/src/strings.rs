//! Length-prefixed UTF-8 string codec.
//!
//! A string travels as a VarInt byte length followed by that many UTF-8
//! bytes.  Decoding rejects lengths over the context's ceiling
//! (`BadStringLimit`) before touching the bytes, and rejects bytes that are
//! not UTF-8 (`BadUtf8`); encoding rejects oversized strings before writing
//! anything, never truncating silently.
use crate::packet::{
    remaining_of, PacketRead, PacketReadable, PacketReadableError, PacketVariantReadable,
    PacketWritable, PacketWritableError, PacketWrite, RoundTrip,
};
use crate::varnum::{lemma_pow128_val_5, lemma_var_enc_len, lemma_var_round, var_enc, var_int_dec, VarInt};
use vstd::prelude::*;
use vstd::string::StrSliceExecFns;
use vstd::string::StringSliceAdditionalSpecFns;
use vstd::utf8::{decode_utf8, encode_utf8, valid_utf8};

verus! {

/// The byte ceiling for general strings.
pub const STRING_LIMIT: i32 = 32767;

/// The byte ceiling for chat and other large document payloads.
pub const CHAT_LIMIT: i32 = 262144;

/// The decoder of a VarInt-length-prefixed byte span under a ceiling:
/// `BadStringLimit` when the prefix exceeds `limit`, `BytesExceeded` when the
/// span runs past the source.
pub open spec fn bytes_dec(s: Seq<u8>, limit: int) -> Result<(Seq<u8>, int), PacketReadableError> {
    match var_int_dec(s) {
        Ok((l, n)) => if l > limit {
            Err(PacketReadableError::BadStringLimit)
        } else if l < 0 || s.len() < n + l {
            Err(PacketReadableError::BytesExceeded)
        } else {
            Ok((s.subrange(n, n + l), n + l))
        },
        Err(e) => Err(e),
    }
}

/// The decoder of a length-prefixed UTF-8 string under a ceiling.
pub open spec fn string_dec(s: Seq<u8>, limit: int) -> Result<
    (Seq<char>, int),
    PacketReadableError,
> {
    match bytes_dec(s, limit) {
        Ok((b, n)) => if valid_utf8(b) {
            Ok((decode_utf8(b), n))
        } else {
            Err(PacketReadableError::BadUtf8)
        },
        Err(e) => Err(e),
    }
}

/// Relies on `std::str::from_utf8`: it returns `Ok` exactly on valid UTF-8
/// input, and the returned string slice views the given bytes.
#[verifier::external_body]
fn utf8_from_bytes(bytes: &[u8]) -> (r: Option<&str>)
    ensures
        r is Some <==> valid_utf8(bytes@),
        r matches Some(s) ==> s@ == decode_utf8(bytes@) && s.spec_bytes() == bytes@,
{
    std::str::from_utf8(bytes).ok()
}

/// Read a VarInt length prefix bounded by `limit`, then that many raw bytes.
pub fn read_bytes_with_limit<R: PacketRead>(read: &mut R, limit: i32) -> (r: Result<
    Vec<u8>,
    PacketReadableError,
>)
    requires
        old(read).wf(),
    ensures
        final(read).wf(),
        final(read).data() == old(read).data(),
        old(read).pos() <= final(read).pos() <= old(read).data().len(),
        match r {
            Ok(v) => bytes_dec(remaining_of(*old(read)), limit as int) == Ok::<
                _,
                PacketReadableError,
            >((v@, final(read).pos() - old(read).pos())),
            Err(e) => bytes_dec(remaining_of(*old(read)), limit as int) == Err::<
                (Seq<u8>, int),
                _,
            >(e),
        },
{
    proof {
        read.wf_bounds();
    }
    let ghost d0 = read.data();
    let ghost p0 = read.pos();
    let ghost rem = remaining_of(*read);
    let length = match <VarInt as PacketVariantReadable<i32>>::read_variant(read) {
        Ok(l) => l,
        Err(e) => {
            return Err(e);
        },
    };
    let ghost n = read.pos() - p0;
    if length > limit {
        return Err(PacketReadableError::BadStringLimit);
    }
    if length < 0 {
        return Err(PacketReadableError::BytesExceeded);
    }
    match read.take_vec(length as usize) {
        Ok(v) => {
            proof {
                assert(rem.subrange(n, n + length) =~= d0.subrange(p0 + n, p0 + n + length));
            }
            Ok(v)
        },
        Err(e) => Err(e),
    }
}

/// Read a length-prefixed UTF-8 string bounded by `limit`.
pub fn read_string_with_limit<R: PacketRead>(read: &mut R, limit: i32) -> (r: Result<
    String,
    PacketReadableError,
>)
    requires
        old(read).wf(),
    ensures
        final(read).wf(),
        final(read).data() == old(read).data(),
        old(read).pos() <= final(read).pos() <= old(read).data().len(),
        match r {
            Ok(v) => string_dec(remaining_of(*old(read)), limit as int) == Ok::<
                _,
                PacketReadableError,
            >((v@, final(read).pos() - old(read).pos())),
            Err(e) => string_dec(remaining_of(*old(read)), limit as int) == Err::<
                (Seq<char>, int),
                _,
            >(e),
        },
{
    let bytes = match read_bytes_with_limit(read, limit) {
        Ok(v) => v,
        Err(e) => {
            return Err(e);
        },
    };
    match utf8_from_bytes(bytes.as_slice()) {
        Some(s) => Ok(s.to_owned()),
        None => Err(PacketReadableError::BadUtf8),
    }
}

impl PacketReadable for String {
    open spec fn dec(s: Seq<u8>) -> Result<(Seq<char>, int), PacketReadableError> {
        string_dec(s, STRING_LIMIT as int)
    }

    fn read<R: PacketRead>(read: &mut R) -> (r: Result<Self, PacketReadableError>) {
        read_string_with_limit(read, STRING_LIMIT)
    }
}

/// The encoding of a UTF-8 byte string under the general ceiling: the VarInt
/// byte length, then the bytes.
pub open spec fn string_enc(b: Seq<u8>) -> Seq<u8> {
    var_enc(b.len()) + b
}

impl PacketWritable for String {
    open spec fn enc(&self) -> Seq<u8> {
        string_enc(encode_utf8(self@))
    }

    open spec fn encodable(&self) -> bool {
        encode_utf8(self@).len() <= STRING_LIMIT as int
    }

    fn write<W: PacketWrite>(&self, write: &mut W) -> (r: Result<(), PacketWritableError>) {
        write_str_with_limit(self.as_str(), write)
    }
}

/// Write a string as a VarInt byte length and its UTF-8 bytes, rejecting one
/// over the general ceiling before writing anything.
pub fn write_str_with_limit<W: PacketWrite>(s: &str, write: &mut W) -> (r: Result<
    (),
    PacketWritableError,
>)
    ensures
        match r {
            Ok(()) => s.spec_bytes().len() <= STRING_LIMIT as int && final(write).contents()
                == old(write).contents() + string_enc(s.spec_bytes()),
            Err(e) => s.spec_bytes().len() > STRING_LIMIT as int && final(write).contents() == old(
                write,
            ).contents(),
        },
{
    let ghost c0 = write.contents();
    let bytes = s.as_bytes_vec();
    let len = bytes.len();
    if len > 32767 {
        return Err(PacketWritableError::TooBig);
    }
    let r = crate::varnum::write_var(write, len as u128);
    match r {
        Ok(()) => (),
        Err(e) => {
            return Err(e);
        },
    }
    let r2 = write.write_bytes_owned(bytes);
    match r2 {
        Ok(()) => (),
        Err(e) => {
            return Err(e);
        },
    }
    assert(write.contents() =~= c0 + string_enc(s.spec_bytes()));
    Ok(())
}

impl PacketWritable for &str {
    open spec fn enc(&self) -> Seq<u8> {
        string_enc(self.spec_bytes())
    }

    open spec fn encodable(&self) -> bool {
        self.spec_bytes().len() <= STRING_LIMIT as int
    }

    fn write<W: PacketWrite>(&self, write: &mut W) -> (r: Result<(), PacketWritableError>) {
        write_str_with_limit(self, write)
    }
}

/// Round trip of the byte-span coding under any ceiling the length respects.
pub proof fn lemma_string_round(b: Seq<u8>, limit: int, tail: Seq<u8>)
    requires
        0 <= b.len() <= limit,
        limit <= 0x7fffffff,
    ensures
        bytes_dec(string_enc(b) + tail, limit) == Ok::<_, PacketReadableError>(
            (b, string_enc(b).len() as int),
        ),
{
    let l = b.len();
    lemma_pow128_val_5();
    lemma_var_round(l, 5, tail + b);
    let prefix = var_enc(l);
    lemma_var_enc_len(l, 5);
    assert(string_enc(b) + tail =~= prefix + (b + tail));
    lemma_var_round(l, 5, b + tail);
    let s = string_enc(b) + tail;
    let n = prefix.len() as int;
    assert(var_int_dec(s) == Ok::<_, PacketReadableError>((l as i32, n))) by {
        assert((l as u32) as i32 == l as i32);
    }
    assert(s.subrange(n, n + l as int) =~= b);
}

impl RoundTrip for String {
    proof fn round_trip(&self, tail: Seq<u8>) {
        broadcast use vstd::utf8::encode_utf8_valid_utf8, vstd::utf8::encode_utf8_decode_utf8;

        lemma_string_round(encode_utf8(self@), STRING_LIMIT as int, tail);
    }
}

} // verus!
