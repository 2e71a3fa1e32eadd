//! The outgoing side of a connection: framing helpers and the bounded,
//! ordered message queue that carries payloads and the close signal to the
//! write task.
//!
//! Messages leave in exactly the order they were accepted, one at a time;
//! once the queue holds its capacity, a further enqueue is refused with the
//! message handed back, so a slow consumer holds the producers back instead
//! of dropping or reordering anything.
use crate::packet::{
    PacketVariantWritable, PacketWritable, PacketWritableError, PacketWrite,
};
use crate::packet_default::{Packet, PacketVariant};
use crate::read::frame_split;
use crate::varnum::{lemma_pow128_val_5, lemma_var_enc_len, lemma_var_round, var_enc, var_int_dec,
    write_var};
use vstd::prelude::*;

verus! {

/// What the write task can be asked to do: send a byte payload, or shut the
/// transport down.
#[derive(Debug, Clone, PartialEq, Eq)]
pub enum WriteMessage {
    Close,
    Bytes(Vec<u8>),
}

/// What one enqueue does to a bounded queue: appended when below capacity,
/// refused otherwise.
pub open spec fn spec_try_send(q: Seq<WriteMessage>, capacity: nat, msg: WriteMessage) -> (
    Seq<WriteMessage>,
    bool,
) {
    if q.len() < capacity {
        (q.push(msg), true)
    } else {
        (q, false)
    }
}

/// The queue after enqueuing `msgs` in order.
pub open spec fn spec_send_all(
    q: Seq<WriteMessage>,
    capacity: nat,
    msgs: Seq<WriteMessage>,
) -> Seq<WriteMessage>
    decreases msgs.len(),
{
    if msgs.len() == 0 {
        q
    } else {
        spec_send_all(spec_try_send(q, capacity, msgs[0]).0, capacity, msgs.skip(1))
    }
}

/// The bounded, ordered outgoing-message queue of one connection.
pub struct OutgoingQueue {
    pub messages: Vec<WriteMessage>,
    pub capacity: usize,
}

impl OutgoingQueue {
    pub fn new(capacity: usize) -> (r: Self)
        ensures
            r.messages@.len() == 0,
            r.capacity == capacity,
    {
        OutgoingQueue { messages: Vec::new(), capacity }
    }

    /// Enqueue a message, or hand it back when the queue is full.
    pub fn try_send(&mut self, msg: WriteMessage) -> (r: Result<(), WriteMessage>)
        ensures
            final(self).capacity == old(self).capacity,
            match r {
                Ok(()) => old(self).messages@.len() < old(self).capacity && final(self).messages@
                    == old(self).messages@.push(msg),
                Err(back) => old(self).messages@.len() >= old(self).capacity
                    && final(self).messages@ == old(self).messages@ && back == msg,
            },
            (final(self).messages@, r is Ok) == spec_try_send(
                old(self).messages@,
                old(self).capacity as nat,
                msg,
            ),
    {
        if self.messages.len() < self.capacity {
            self.messages.push(msg);
            Ok(())
        } else {
            Err(msg)
        }
    }

    /// Dequeue the oldest message, when there is one.
    pub fn recv(&mut self) -> (r: Option<WriteMessage>)
        ensures
            final(self).capacity == old(self).capacity,
            match r {
                Some(msg) => old(self).messages@.len() > 0 && msg == old(self).messages@[0]
                    && final(self).messages@ == old(self).messages@.skip(1),
                None => old(self).messages@.len() == 0 && final(self).messages@ == old(self).messages@,
            },
    {
        if self.messages.len() == 0 {
            None
        } else {
            let msg = self.messages.remove(0);
            proof {
                assert(final(self).messages@ =~= old(self).messages@.skip(1));
            }
            Some(msg)
        }
    }

    pub fn len(&self) -> (r: usize)
        ensures
            r == self.messages@.len(),
    {
        self.messages.len()
    }
}

/// Filling an empty bounded queue to its capacity accepts every message in
/// order, and the next enqueue is refused with the queue unchanged: the
/// sender is suspended, nothing is dropped or reordered.
pub proof fn lemma_backpressure(capacity: nat, msgs: Seq<WriteMessage>, extra: WriteMessage)
    requires
        msgs.len() == capacity,
    ensures
        spec_send_all(Seq::empty(), capacity, msgs) == msgs,
        spec_try_send(spec_send_all(Seq::empty(), capacity, msgs), capacity, extra) == (
            msgs,
            false,
        ),
{
    lemma_send_all_accepts(Seq::empty(), capacity, msgs);
    assert(Seq::<WriteMessage>::empty() + msgs =~= msgs);
}

/// Enqueuing a fitting batch appends it whole, in order.
proof fn lemma_send_all_accepts(q: Seq<WriteMessage>, capacity: nat, msgs: Seq<WriteMessage>)
    requires
        q.len() + msgs.len() <= capacity,
    ensures
        spec_send_all(q, capacity, msgs) == q + msgs,
    decreases msgs.len(),
{
    if msgs.len() == 0 {
        assert(q + msgs =~= q);
    } else {
        lemma_send_all_accepts(q.push(msgs[0]), capacity, msgs.skip(1));
        assert(q.push(msgs[0]) + msgs.skip(1) =~= q + msgs);
    }
}

/// Put the frame length before a payload: the wire frame is the VarInt byte
/// count of everything that follows it.
pub fn prefix_length(bytes: &mut Vec<u8>) -> (r: Result<(), PacketWritableError>)
    ensures
        match r {
            Ok(()) => old(bytes)@.len() <= i32::MAX && final(bytes)@ == var_enc(
                old(bytes)@.len() as nat,
            ) + old(bytes)@,
            Err(e) => old(bytes)@.len() > i32::MAX && final(bytes)@ == old(bytes)@,
        },
{
    if bytes.len() > 0x7fffffff {
        return Err(PacketWritableError::TooBig);
    }
    let mut framed: Vec<u8> = Vec::new();
    let r = write_var(&mut framed, bytes.len() as u128);
    match r {
        Ok(()) => (),
        Err(e) => {
            proof {
                assert(false);
            }
            return Err(e);
        },
    }
    framed.append(bytes);
    *bytes = framed;
    Ok(())
}

/// A frame built by [`prefix_length`] splits back into exactly the payload
/// it framed, and leaves exactly what followed it: what one side frames, the
/// other side's stream queue hands out unchanged.
pub proof fn lemma_frame_round(body: Seq<u8>, rest: Seq<u8>)
    requires
        body.len() <= i32::MAX,
    ensures
        frame_split(var_enc(body.len()) + body + rest) == Ok::<
            Option<(Seq<u8>, Seq<u8>)>,
            crate::packet::PacketReadableError,
        >(Some((body, rest))),
{
    let len = body.len();
    lemma_pow128_val_5();
    lemma_var_round(len, 5, body + rest);
    lemma_var_enc_len(len, 5);
    let prefix = var_enc(len);
    let buf = prefix + body + rest;
    assert(buf =~= prefix + (body + rest));
    let n = prefix.len() as int;
    assert(var_int_dec(buf) == Ok::<_, crate::packet::PacketReadableError>((len as i32, n))) by {
        assert((len as u32) as i32 == len as i32);
    }
    assert(buf.subrange(n, n + len as int) =~= body);
    assert(buf.skip(n + len as int) =~= rest);
}

/// Encode a packet under its envelope and frame it: VarInt frame length,
/// VarInt packet identifier, payload bytes.
pub fn prepare_object<T: PacketWritable + Packet>(object: &T) -> (r: Result<
    Vec<u8>,
    PacketWritableError,
>)
    ensures
        match r {
            Ok(v) => {
                let body = PacketVariant::enc_variant(object);
                object.encodable() && body.len() <= i32::MAX && v@ == var_enc(body.len() as nat)
                    + body
            },
            Err(e) => !object.encodable() || PacketVariant::enc_variant(object).len() > i32::MAX,
        },
{
    let mut body: Vec<u8> = Vec::new();
    let rw = <PacketVariant as PacketVariantWritable<T>>::write_variant(object, &mut body);
    match rw {
        Ok(()) => (),
        Err(e) => {
            return Err(e);
        },
    }
    let rp = prefix_length(&mut body);
    match rp {
        Ok(()) => Ok(body),
        Err(e) => Err(e),
    }
}

} // verus!
