//! The streaming read queue: an unbounded byte stream in, discrete frames
//! out.
//!
//! The application layer feeds raw socket bytes in as they arrive; the queue
//! extracts the VarInt length prefix and hands out exactly one frame's bytes
//! at a time, so that all later decoding is bounded to a single frame.  It
//! never asks the transport for anything: when the buffered bytes do not yet
//! hold a whole frame it reports that and waits to be fed again.
use crate::packet::{PacketRead, PacketReadableError, SlicePacketRead};
use crate::varnum::{var_int_dec, VarInt};
use vstd::prelude::*;

verus! {

/// What one scan of the buffered bytes yields: a complete frame and the
/// bytes after it, or nothing yet.
pub open spec fn frame_split(buf: Seq<u8>) -> Result<
    Option<(Seq<u8>, Seq<u8>)>,
    PacketReadableError,
> {
    match var_int_dec(buf) {
        Ok((len, n)) => if len < 0 {
            Err(PacketReadableError::BadVarNum)
        } else if buf.len() >= n + len {
            Ok(Some((buf.subrange(n, n + len), buf.skip(n + len))))
        } else {
            Ok(None)
        },
        Err(PacketReadableError::BytesExceeded) => Ok(None),
        Err(e) => Err(e),
    }
}

/// Buffered socket bytes, not yet handed out as frames.
pub struct ReadStreamQueue {
    pub buffer: Vec<u8>,
}

impl ReadStreamQueue {
    pub fn new() -> (r: Self)
        ensures
            r.buffer@.len() == 0,
    {
        ReadStreamQueue { buffer: Vec::new() }
    }

    /// Feed bytes that arrived on the transport.
    pub fn push_bytes(&mut self, bytes: &[u8])
        ensures
            final(self).buffer@ == old(self).buffer@ + bytes@,
    {
        self.buffer.extend_from_slice(bytes);
    }

    /// Extract the next frame: read the VarInt length prefix and, when that
    /// many bytes have arrived, hand them out and drop them from the buffer.
    /// `Ok(None)` means more bytes are needed and nothing was consumed; a
    /// malformed length prefix is an error that ends the connection.
    pub fn next_packet(&mut self) -> (r: Result<Option<Vec<u8>>, PacketReadableError>)
        ensures
            match r {
                Ok(Some(frame)) => (match frame_split(old(self).buffer@) {
                    Ok(Some((f, rest))) => frame@ == f && final(self).buffer@ == rest,
                    _ => false,
                }),
                Ok(None) => frame_split(old(self).buffer@) == Ok::<
                    Option<(Seq<u8>, Seq<u8>)>,
                    PacketReadableError,
                >(None) && final(self).buffer@ == old(self).buffer@,
                Err(e) => frame_split(old(self).buffer@) == Err::<
                    Option<(Seq<u8>, Seq<u8>)>,
                    _,
                >(e) && final(self).buffer@ == old(self).buffer@,
            },
    {
        let ghost buf = self.buffer@;
        let pair = {
            let mut cursor = SlicePacketRead::new(self.buffer.as_slice());
            proof {
                assert(buf.skip(0) =~= buf);
            }
            let length = match <VarInt as crate::packet::PacketVariantReadable<
                i32,
            >>::read_variant(&mut cursor) {
                Ok(l) => l,
                Err(e) => {
                    if e == PacketReadableError::BytesExceeded {
                        proof {
                            crate::varnum::lemma_var_dec_errors(buf, 5);
                        }
                        return Ok(None);
                    }
                    proof {
                        crate::varnum::lemma_var_dec_errors(buf, 5);
                    }
                    return Err(e);
                },
            };
            if length < 0 {
                return Err(PacketReadableError::BadVarNum);
            }
            if !cursor.is_available(length as usize) {
                return Ok(None);
            }
            let ghost n = cursor.pos();
            let frame_slice = match cursor.take_slice(length as usize) {
                Ok(s) => s,
                Err(e) => {
                    proof {
                        assert(false);
                    }
                    return Err(e);
                },
            };
            let rest_len = cursor.available();
            let rest_slice = match cursor.take_slice(rest_len) {
                Ok(s) => s,
                Err(e) => {
                    proof {
                        assert(false);
                    }
                    return Err(e);
                },
            };
            proof {
                assert(frame_slice@ =~= buf.subrange(n, n + length));
                assert(rest_slice@ =~= buf.skip(n + length));
            }
            (vstd::slice::slice_to_vec(frame_slice), vstd::slice::slice_to_vec(rest_slice))
        };
        let (frame, rest) = pair;
        self.buffer = rest;
        Ok(Some(frame))
    }

    /// Give the unconsumed bytes back, ending the queue's life.
    pub fn close(self) -> (r: Vec<u8>)
        ensures
            r@ == self.buffer@,
    {
        self.buffer
    }
}

} // verus!
