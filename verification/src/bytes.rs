//! Owning byte queues: a frame-bounded input queue over an owned buffer and
//! growable output queues.
//!
//! These are the owned counterparts of the borrowing cursor: a prepared
//! frame's bytes with a read offset, bounded to the frame's length, and
//! append-only byte destinations.  They implement the same source and sink
//! capabilities, so every codec works on them unchanged.
use crate::packet::{PacketRead, PacketReadableError, PacketWritableError, PacketWrite};
use vstd::prelude::*;

verus! {

/// The ways an owning input queue can fail.
#[derive(Debug, Clone, Copy, PartialEq, Eq, Structural)]
pub enum InputByteQueueError {
    /// The queue's frame has fewer bytes left than were asked for: the first
    /// field is the offset asked from, the second the frame's length.
    NoBytesLeft(usize, usize),
}

/// An owned, offset-tracked byte source.
pub trait InputByteQueue {
    /// The frame's bytes.
    spec fn frame(&self) -> Seq<u8>;

    /// The number of bytes consumed so far.
    spec fn consumed(&self) -> int;

    spec fn queue_wf(&self) -> bool;

    fn take_byte(&mut self) -> (r: Result<u8, InputByteQueueError>)
        requires
            old(self).queue_wf(),
        ensures
            final(self).queue_wf(),
            final(self).frame() == old(self).frame(),
            match r {
                Ok(b) => old(self).consumed() < old(self).frame().len() && final(self).consumed()
                    == old(self).consumed() + 1 && b == old(self).frame()[old(self).consumed()],
                Err(e) => old(self).consumed() == old(self).frame().len() && final(self).consumed()
                    == old(self).consumed(),
            },
    ;

    fn take_vec(&mut self, count: usize) -> (r: Result<Vec<u8>, InputByteQueueError>)
        requires
            old(self).queue_wf(),
        ensures
            final(self).queue_wf(),
            final(self).frame() == old(self).frame(),
            match r {
                Ok(v) => old(self).consumed() + count <= old(self).frame().len()
                    && final(self).consumed() == old(self).consumed() + count && v@ == old(
                    self,
                ).frame().subrange(old(self).consumed(), old(self).consumed() + count),
                Err(e) => old(self).consumed() + count > old(self).frame().len()
                    && final(self).consumed() == old(self).consumed(),
            },
    ;

    fn has_bytes(&self, count: usize) -> (r: bool)
        requires
            self.queue_wf(),
        ensures
            r == (self.consumed() + count <= self.frame().len()),
    ;

    fn remaining_bytes(&self) -> (r: usize)
        requires
            self.queue_wf(),
        ensures
            r == self.frame().len() - self.consumed(),
    ;
}

/// An append-only byte destination.
pub trait OutputByteQueue {
    /// Everything appended so far.
    spec fn queued(&self) -> Seq<u8>;

    fn put_byte(&mut self, byte: u8)
        ensures
            final(self).queued() == old(self).queued().push(byte),
    ;

    fn put_bytes(&mut self, bytes: &[u8])
        ensures
            final(self).queued() == old(self).queued() + bytes@,
    ;
}

/// One frame's bytes, owned, with a read offset bounded to the frame length.
pub struct BytesInputQueue {
    pub offset: usize,
    pub length: usize,
    pub bytes: Vec<u8>,
}

impl BytesInputQueue {
    /// Bound a queue to the first `length` bytes of an owned buffer.
    pub fn new(length: usize, bytes: Vec<u8>) -> (r: BytesInputQueue)
        requires
            length <= bytes@.len(),
        ensures
            r.wf(),
            r.data() == bytes@.take(length as int),
            r.pos() == 0,
    {
        BytesInputQueue { offset: 0, length, bytes }
    }

    /// Bound a queue to the whole of an owned buffer.
    pub fn new_without_slice(bytes: Vec<u8>) -> (r: BytesInputQueue)
        ensures
            r.wf(),
            r.data() == bytes@,
            r.pos() == 0,
    {
        let length = bytes.len();
        proof {
            assert(bytes@.take(length as int) =~= bytes@);
        }
        BytesInputQueue::new(length, bytes)
    }
}

impl PacketRead for BytesInputQueue {
    open spec fn data(&self) -> Seq<u8> {
        self.bytes@.take(self.length as int)
    }

    open spec fn pos(&self) -> int {
        self.offset as int
    }

    open spec fn wf(&self) -> bool {
        self.offset <= self.length <= self.bytes@.len()
    }

    proof fn wf_bounds(&self) {
    }

    fn take_byte(&mut self) -> (r: Result<u8, PacketReadableError>) {
        if self.offset == self.length {
            Err(PacketReadableError::BytesExceeded)
        } else {
            let byte = self.bytes[self.offset];
            self.offset = self.offset + 1;
            Ok(byte)
        }
    }

    fn take_vec(&mut self, length: usize) -> (r: Result<Vec<u8>, PacketReadableError>) {
        if length <= self.length - self.offset {
            let slice = vstd::slice::slice_subrange(
                self.bytes.as_slice(),
                self.offset,
                self.offset + length,
            );
            let v = vstd::slice::slice_to_vec(slice);
            proof {
                assert(v@ =~= self.data().subrange(self.pos(), self.pos() + length));
            }
            self.offset = self.offset + length;
            Ok(v)
        } else {
            Err(PacketReadableError::BytesExceeded)
        }
    }

    fn rollback(&mut self, length: usize) -> (r: Result<(), PacketReadableError>) {
        if self.offset < length {
            Err(PacketReadableError::BadRollback)
        } else {
            self.offset = self.offset - length;
            Ok(())
        }
    }

    fn available(&self) -> (r: usize) {
        self.length - self.offset
    }

    fn is_available(&self, bytes: usize) -> (r: bool) {
        self.available() >= bytes
    }
}

impl InputByteQueue for BytesInputQueue {
    open spec fn frame(&self) -> Seq<u8> {
        self.bytes@.take(self.length as int)
    }

    open spec fn consumed(&self) -> int {
        self.offset as int
    }

    open spec fn queue_wf(&self) -> bool {
        self.wf()
    }

    fn take_byte(&mut self) -> (r: Result<u8, InputByteQueueError>) {
        match <Self as PacketRead>::take_byte(self) {
            Ok(b) => Ok(b),
            Err(_) => Err(InputByteQueueError::NoBytesLeft(self.offset, self.length)),
        }
    }

    fn take_vec(&mut self, count: usize) -> (r: Result<Vec<u8>, InputByteQueueError>) {
        match <Self as PacketRead>::take_vec(self, count) {
            Ok(v) => Ok(v),
            Err(_) => Err(InputByteQueueError::NoBytesLeft(self.offset, self.length)),
        }
    }

    fn has_bytes(&self, count: usize) -> (r: bool) {
        <Self as PacketRead>::is_available(self, count)
    }

    fn remaining_bytes(&self) -> (r: usize) {
        <Self as PacketRead>::available(self)
    }
}

/// A growable output queue over an owned byte vector.
#[derive(Debug)]
pub struct BytesOutputQueue {
    pub bytes: Vec<u8>,
}

impl BytesOutputQueue {
    pub fn new() -> (r: BytesOutputQueue)
        ensures
            r.bytes@.len() == 0,
    {
        BytesOutputQueue { bytes: Vec::new() }
    }

    /// Hand the gathered bytes out.
    pub fn get_bytes(self) -> (r: Vec<u8>)
        ensures
            r@ == self.bytes@,
    {
        self.bytes
    }

    /// Hand the gathered bytes out as a plain vector.
    pub fn get_bytes_vec(self) -> (r: Vec<u8>)
        ensures
            r@ == self.bytes@,
    {
        self.bytes
    }
}

impl OutputByteQueue for BytesOutputQueue {
    open spec fn queued(&self) -> Seq<u8> {
        self.bytes@
    }

    fn put_byte(&mut self, byte: u8) {
        self.bytes.push(byte);
    }

    fn put_bytes(&mut self, bytes: &[u8]) {
        self.bytes.extend_from_slice(bytes);
    }
}

impl PacketWrite for BytesOutputQueue {
    open spec fn contents(&self) -> Seq<u8> {
        self.bytes@
    }

    fn write_byte(&mut self, byte: u8) -> (r: Result<(), PacketWritableError>) {
        self.bytes.push(byte);
        Ok(())
    }

    fn write_bytes(&mut self, bytes: &[u8]) -> (r: Result<(), PacketWritableError>) {
        self.bytes.extend_from_slice(bytes);
        Ok(())
    }

    fn write_bytes_owned(&mut self, bytes: Vec<u8>) -> (r: Result<(), PacketWritableError>) {
        let mut moved = bytes;
        self.bytes.append(&mut moved);
        Ok(())
    }
}

/// A growable output destination holding plain packet bytes.
#[derive(Debug)]
pub struct OutputPacketBytesVec {
    pub data: Vec<u8>,
}

impl OutputPacketBytesVec {
    pub fn new() -> (r: OutputPacketBytesVec)
        ensures
            r.data@.len() == 0,
    {
        OutputPacketBytesVec { data: Vec::new() }
    }
}

impl PacketWrite for OutputPacketBytesVec {
    open spec fn contents(&self) -> Seq<u8> {
        self.data@
    }

    fn write_byte(&mut self, byte: u8) -> (r: Result<(), PacketWritableError>) {
        self.data.push(byte);
        Ok(())
    }

    fn write_bytes(&mut self, bytes: &[u8]) -> (r: Result<(), PacketWritableError>) {
        self.data.extend_from_slice(bytes);
        Ok(())
    }

    fn write_bytes_owned(&mut self, bytes: Vec<u8>) -> (r: Result<(), PacketWritableError>) {
        let mut moved = bytes;
        self.data.append(&mut moved);
        Ok(())
    }
}

/// A prepared frame's bytes with a read offset.
#[derive(Debug)]
pub struct InputPacketBytesPrepared {
    pub data: Vec<u8>,
    pub offset: usize,
}

impl InputPacketBytesPrepared {
    /// Take a whole buffer as one prepared frame.
    pub fn from_vec(data: Vec<u8>) -> (r: InputPacketBytesPrepared)
        ensures
            r.wf(),
            r.data() == data@,
            r.pos() == 0,
    {
        InputPacketBytesPrepared { data, offset: 0 }
    }
}

impl PacketRead for InputPacketBytesPrepared {
    open spec fn data(&self) -> Seq<u8> {
        self.data@
    }

    open spec fn pos(&self) -> int {
        self.offset as int
    }

    open spec fn wf(&self) -> bool {
        self.offset <= self.data@.len()
    }

    proof fn wf_bounds(&self) {
        broadcast use vstd::std_specs::vec::axiom_spec_len;

        assert(vstd::std_specs::vec::spec_vec_len(&self.data) == self.data@.len());
    }

    fn take_byte(&mut self) -> (r: Result<u8, PacketReadableError>) {
        if self.offset == self.data.len() {
            Err(PacketReadableError::BytesExceeded)
        } else {
            let byte = self.data[self.offset];
            self.offset = self.offset + 1;
            Ok(byte)
        }
    }

    fn take_vec(&mut self, length: usize) -> (r: Result<Vec<u8>, PacketReadableError>) {
        if length <= self.data.len() - self.offset {
            let slice = vstd::slice::slice_subrange(
                self.data.as_slice(),
                self.offset,
                self.offset + length,
            );
            let v = vstd::slice::slice_to_vec(slice);
            self.offset = self.offset + length;
            Ok(v)
        } else {
            Err(PacketReadableError::BytesExceeded)
        }
    }

    fn rollback(&mut self, length: usize) -> (r: Result<(), PacketReadableError>) {
        if self.offset < length {
            Err(PacketReadableError::BadRollback)
        } else {
            self.offset = self.offset - length;
            Ok(())
        }
    }

    fn available(&self) -> (r: usize) {
        self.data.len() - self.offset
    }

    fn is_available(&self, bytes: usize) -> (r: bool) {
        self.available() >= bytes
    }
}

} // verus!
