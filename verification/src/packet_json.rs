//! The embedded JSON document codec.
//!
//! A JSON document travels like a string: a VarInt byte length under the
//! general ceiling, then the document's bytes.  The framing and the ceiling
//! are this module's logic; turning bytes into a document and back is the
//! external JSON library's, named here so the contracts can speak of it.
//! Note that the serializer and the deserializer do not agree on every
//! document: the parser enforces a nesting-depth limit the renderer does not,
//! so nothing here claims that a rendered document parses back.
use crate::packet::{
    remaining_of, PacketRead, PacketReadable, PacketReadableError, PacketWritableError,
    PacketWrite,
};
use crate::strings::{bytes_dec, read_bytes_with_limit, string_enc, STRING_LIMIT};
use crate::varnum::write_var;
use vstd::prelude::*;

verus! {

/// Strategy: an embedded JSON document.
pub struct ProtocolJson;

#[verifier::external_type_specification]
#[verifier::external_body]
pub struct ExJsonValue(serde_json::Value);

/// The document the external parser reads from a byte string, when it reads
/// one; a function of the bytes alone.
pub uninterp spec fn json_parse(b: Seq<u8>) -> Option<serde_json::Value>;

/// Whether the bytes parse as one JSON document.
pub open spec fn json_parses(b: Seq<u8>) -> bool {
    json_parse(b) is Some
}

/// The byte rendering the external serializer gives a document; a function of
/// the document alone.
pub uninterp spec fn json_render(value: serde_json::Value) -> Seq<u8>;

/// Relies on `serde_json::from_slice::<Value>`: whether the bytes parse, and
/// to which document, depends on the bytes alone.
#[verifier::external_body]
fn json_value_from_bytes(bytes: &[u8]) -> (r: Option<serde_json::Value>)
    ensures
        r == json_parse(bytes@),
{
    serde_json::from_slice(bytes).ok()
}

/// Relies on `serde_json::to_vec::<Value>`: the rendering is a function of
/// the document alone.
#[verifier::external_body]
fn json_value_to_bytes(value: &serde_json::Value) -> (r: Option<Vec<u8>>)
    ensures
        r matches Some(b) ==> b@ == json_render(*value),
{
    serde_json::to_vec(value).ok()
}

/// Write an already-rendered document as a VarInt byte length and its bytes,
/// rejecting one over the general ceiling before writing anything.
pub fn write_document_bytes<W: PacketWrite>(bytes: &Vec<u8>, write: &mut W) -> (r: Result<
    (),
    PacketWritableError,
>)
    ensures
        match r {
            Ok(()) => bytes@.len() <= STRING_LIMIT as int && final(write).contents() == old(
                write,
            ).contents() + string_enc(bytes@),
            Err(e) => e == PacketWritableError::TooBig && bytes@.len() > STRING_LIMIT as int
                && final(write).contents() == old(write).contents(),
        },
{
    let ghost c0 = write.contents();
    if bytes.len() > 32767 {
        return Err(PacketWritableError::TooBig);
    }
    let r = write_var(write, bytes.len() as u128);
    match r {
        Ok(()) => (),
        Err(e) => {
            proof {
                assert(false);
            }
            return Err(e);
        },
    }
    let r2 = write.write_bytes(bytes.as_slice());
    match r2 {
        Ok(()) => (),
        Err(e) => {
            proof {
                assert(false);
            }
            return Err(e);
        },
    }
    assert(write.contents() =~= c0 + string_enc(bytes@));
    Ok(())
}

impl ProtocolJson {
    /// Read a length-prefixed JSON document under the general ceiling: the
    /// returned document is exactly what the external parser reads from the
    /// framed span.
    pub fn read_value<R: PacketRead>(read: &mut R) -> (r: Result<
        serde_json::Value,
        PacketReadableError,
    >)
        requires
            old(read).wf(),
        ensures
            final(read).wf(),
            final(read).data() == old(read).data(),
            old(read).pos() <= final(read).pos() <= old(read).data().len(),
            match r {
                Ok(v) => (match bytes_dec(remaining_of(*old(read)), STRING_LIMIT as int) {
                    Ok((b, n)) => json_parse(b) == Some(v) && final(read).pos() == old(read).pos()
                        + n,
                    Err(e) => false,
                }),
                Err(e) => if e == PacketReadableError::BadJson {
                    match bytes_dec(remaining_of(*old(read)), STRING_LIMIT as int) {
                        Ok((b, n)) => !json_parses(b),
                        Err(ee) => false,
                    }
                } else {
                    bytes_dec(remaining_of(*old(read)), STRING_LIMIT as int) == Err::<
                        (Seq<u8>, int),
                        _,
                    >(e)
                },
            },
    {
        let bytes = match read_bytes_with_limit(read, STRING_LIMIT) {
            Ok(b) => b,
            Err(e) => {
                proof {
                    crate::varnum::lemma_var_dec_errors(remaining_of(*old(read)), 5);
                }
                return Err(e);
            },
        };
        match json_value_from_bytes(bytes.as_slice()) {
            Some(v) => Ok(v),
            None => Err(PacketReadableError::BadJson),
        }
    }

    /// Render a document and write it as a VarInt byte length and its bytes,
    /// rejecting a rendering over the general ceiling before writing
    /// anything.  The library does not assume the external serializer cannot
    /// fail: should it refuse a document, nothing is written.
    pub fn write_value<W: PacketWrite>(value: &serde_json::Value, write: &mut W) -> (r: Result<
        (),
        PacketWritableError,
    >)
        ensures
            match r {
                Ok(()) => json_render(*value).len() <= STRING_LIMIT as int
                    && final(write).contents() == old(write).contents() + string_enc(
                    json_render(*value),
                ),
                Err(e) => final(write).contents() == old(write).contents() && (e
                    == PacketWritableError::TooBig ==> json_render(*value).len()
                    > STRING_LIMIT as int),
            },
    {
        let bytes = match json_value_to_bytes(value) {
            Some(b) => b,
            None => {
                return Err(PacketWritableError::BadJson);
            },
        };
        write_document_bytes(&bytes, write)
    }
}

} // verus!
