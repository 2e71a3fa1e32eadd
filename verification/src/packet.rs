//! Core capabilities of the wire codec: byte sources, byte sinks, and the
//! `Decodable`/`Encodable` capability pair together with their strategy
//! (variant) counterparts.
//!
//! Every decodable type states its behaviour against a specification-level
//! decoder `dec` over the remaining bytes of the source; every encodable type
//! against a specification-level encoder `enc`.  The `RoundTrip` traits oblige
//! each codec to prove that decoding an encoding yields the value back.
use vstd::prelude::*;

verus! {

/// The ways a decode can fail.  Each variant is a distinct, diagnosable
/// condition; a frame decode aborts on the first of them.
#[derive(Clone, Copy, Debug, PartialEq, Eq, Structural)]
pub enum PacketReadableError {
    /// The source has fewer bytes than the decoder asked for.
    BytesExceeded,
    /// A variable-length integer ran past the bit width of its target.
    BadVarNum,
    /// A length prefix exceeded the context's byte ceiling.
    BadStringLimit,
    /// The bytes of a string were not valid UTF-8.
    BadUtf8,
    /// An embedded document was not a well-formed JSON value.
    BadJson,
    /// An embedded document carried an unknown NBT tag.
    BadNbtTag,
    /// A packet id matched no payload type of the current direction and state.
    BadPacketId,
    /// A wire discriminant matched no variant of the target enumeration.
    BadEnumValue,
    /// A rollback asked for more bytes than were consumed.
    BadRollback,
}

/// The ways an encode can fail.
#[derive(Clone, Copy, Debug, PartialEq, Eq, Structural)]
pub enum PacketWritableError {
    /// The value's encoding would exceed the context's byte ceiling.
    TooBig,
    /// The value could not be rendered as a JSON document.
    BadJson,
}

/// A read-only, offset-tracked byte source bounded to one frame.
pub trait PacketRead {
    /// The full byte content the source ranges over.
    spec fn data(&self) -> Seq<u8>;

    /// The number of bytes consumed so far.
    spec fn pos(&self) -> int;

    /// Basic well-formedness, preserved by every operation.
    spec fn wf(&self) -> bool;

    proof fn wf_bounds(&self)
        requires
            self.wf(),
        ensures
            0 <= self.pos() <= self.data().len(),
            self.data().len() <= usize::MAX,
    ;

    /// Consume and return the next byte; fail without consuming when none is
    /// left.
    fn take_byte(&mut self) -> (r: Result<u8, PacketReadableError>)
        requires
            old(self).wf(),
        ensures
            final(self).wf(),
            final(self).data() == old(self).data(),
            match r {
                Ok(b) => old(self).pos() < old(self).data().len() && final(self).pos() == old(
                    self,
                ).pos() + 1 && b == old(self).data()[old(self).pos()],
                Err(e) => e == PacketReadableError::BytesExceeded && final(self).pos() == old(
                    self,
                ).pos() && final(self).pos() == old(self).data().len(),
            },
    ;

    /// Consume the next `length` bytes into an owned buffer; fail without
    /// consuming when fewer are left.
    fn take_vec(&mut self, length: usize) -> (r: Result<Vec<u8>, PacketReadableError>)
        requires
            old(self).wf(),
        ensures
            final(self).wf(),
            final(self).data() == old(self).data(),
            match r {
                Ok(v) => old(self).pos() + length <= old(self).data().len() && final(self).pos()
                    == old(self).pos() + length && v@ == old(self).data().subrange(
                    old(self).pos(),
                    old(self).pos() + length,
                ),
                Err(e) => e == PacketReadableError::BytesExceeded && final(self).pos() == old(
                    self,
                ).pos() && old(self).pos() + length > old(self).data().len(),
            },
    ;

    /// Move the offset back by `length` bytes, failing when fewer than
    /// `length` were consumed.
    fn rollback(&mut self, length: usize) -> (r: Result<(), PacketReadableError>)
        requires
            old(self).wf(),
        ensures
            final(self).wf(),
            final(self).data() == old(self).data(),
            match r {
                Ok(()) => length <= old(self).pos() && final(self).pos() == old(self).pos()
                    - length,
                Err(e) => e == PacketReadableError::BadRollback && final(self).pos() == old(
                    self,
                ).pos() && length > old(self).pos(),
            },
    ;

    /// The number of bytes not yet consumed.
    fn available(&self) -> (r: usize)
        requires
            self.wf(),
        ensures
            r == self.data().len() - self.pos(),
    ;

    /// Whether at least `bytes` bytes are not yet consumed.
    fn is_available(&self, bytes: usize) -> (r: bool)
        requires
            self.wf(),
        ensures
            r == (self.pos() + bytes <= self.data().len()),
    ;
}

/// An append-only byte destination.
pub trait PacketWrite {
    /// Everything appended so far.
    spec fn contents(&self) -> Seq<u8>;

    fn write_byte(&mut self, byte: u8) -> (r: Result<(), PacketWritableError>)
        ensures
            r is Ok,
            final(self).contents() == old(self).contents().push(byte),
    ;

    fn write_bytes(&mut self, bytes: &[u8]) -> (r: Result<(), PacketWritableError>)
        ensures
            r is Ok,
            final(self).contents() == old(self).contents() + bytes@,
    ;

    fn write_bytes_owned(&mut self, bytes: Vec<u8>) -> (r: Result<(), PacketWritableError>)
        ensures
            r is Ok,
            final(self).contents() == old(self).contents() + bytes@,
    ;
}

/// The bytes a source has not yet consumed.
pub open spec fn remaining_of<R: PacketRead>(read: R) -> Seq<u8> {
    read.data().skip(read.pos())
}

/// A type that can decode itself from any byte source.
///
/// `dec` is the type's specification-level decoder: applied to the remaining
/// bytes of the source, it yields either the decoded value (as its abstract
/// `DeepView`) together with the exact number of bytes consumed, or the error
/// the decode fails with.
pub trait PacketReadable: Sized + DeepView {
    spec fn dec(s: Seq<u8>) -> Result<(Self::V, int), PacketReadableError>;

    fn read<R: PacketRead>(read: &mut R) -> (r: Result<Self, PacketReadableError>)
        requires
            old(read).wf(),
        ensures
            final(read).wf(),
            final(read).data() == old(read).data(),
            old(read).pos() <= final(read).pos() <= old(read).data().len(),
            match r {
                Ok(v) => Self::dec(remaining_of(*old(read))) == Ok::<_, PacketReadableError>(
                    (v.deep_view(), final(read).pos() - old(read).pos()),
                ),
                Err(e) => Self::dec(remaining_of(*old(read))) == Err::<(Self::V, int), _>(e),
            },
    ;
}

/// A type that can encode itself into any byte sink.
///
/// `enc` is the encoding as a byte sequence; `encodable` says on which values
/// the encode succeeds.
pub trait PacketWritable {
    spec fn enc(&self) -> Seq<u8>;

    spec fn encodable(&self) -> bool;

    fn write<W: PacketWrite>(&self, write: &mut W) -> (r: Result<(), PacketWritableError>)
        ensures
            match r {
                Ok(()) => self.encodable() && final(write).contents() == old(write).contents()
                    + self.enc(),
                Err(e) => !self.encodable(),
            },
    ;
}

/// An external decoding strategy: the marker type `Self` decodes a logical
/// value of type `T`, letting one logical type carry several wire forms.
pub trait PacketVariantReadable<T: DeepView> {
    spec fn dec_variant(s: Seq<u8>) -> Result<(T::V, int), PacketReadableError>;

    fn read_variant<R: PacketRead>(read: &mut R) -> (r: Result<T, PacketReadableError>)
        requires
            old(read).wf(),
        ensures
            final(read).wf(),
            final(read).data() == old(read).data(),
            old(read).pos() <= final(read).pos() <= old(read).data().len(),
            match r {
                Ok(v) => Self::dec_variant(remaining_of(*old(read))) == Ok::<_, PacketReadableError>(
                    (v.deep_view(), final(read).pos() - old(read).pos()),
                ),
                Err(e) => Self::dec_variant(remaining_of(*old(read))) == Err::<(T::V, int), _>(e),
            },
    ;
}

/// An external encoding strategy, dual to [`PacketVariantReadable`].
pub trait PacketVariantWritable<T: ?Sized> {
    spec fn enc_variant(object: &T) -> Seq<u8>;

    spec fn encodable_variant(object: &T) -> bool;

    fn write_variant<W: PacketWrite>(object: &T, write: &mut W) -> (r: Result<
        (),
        PacketWritableError,
    >)
        ensures
            match r {
                Ok(()) => Self::encodable_variant(object) && final(write).contents() == old(
                    write,
                ).contents() + Self::enc_variant(object),
                Err(e) => !Self::encodable_variant(object),
            },
    ;
}

/// Every self-decodable type is its own identity strategy.
impl<T: PacketReadable> PacketVariantReadable<T> for T {
    open spec fn dec_variant(s: Seq<u8>) -> Result<(T::V, int), PacketReadableError> {
        T::dec(s)
    }

    fn read_variant<R: PacketRead>(read: &mut R) -> (r: Result<T, PacketReadableError>) {
        T::read(read)
    }
}

/// Every self-encodable type is its own identity strategy.
impl<T: PacketWritable> PacketVariantWritable<T> for T {
    open spec fn enc_variant(object: &T) -> Seq<u8> {
        object.enc()
    }

    open spec fn encodable_variant(object: &T) -> bool {
        object.encodable()
    }

    fn write_variant<W: PacketWrite>(object: &T, write: &mut W) -> (r: Result<
        (),
        PacketWritableError,
    >) {
        object.write(write)
    }
}

/// The round-trip law for self-describing codecs: decoding an encoding yields
/// the encoded value and consumes exactly the encoding, whatever follows it.
pub trait RoundTrip: PacketReadable + PacketWritable {
    proof fn round_trip(&self, tail: Seq<u8>)
        requires
            self.encodable(),
        ensures
            Self::dec(self.enc() + tail) == Ok::<_, PacketReadableError>(
                (self.deep_view(), self.enc().len() as int),
            ),
    ;
}

/// The round-trip law for strategy codecs.
pub trait VariantRoundTrip<T: DeepView>: PacketVariantReadable<T> + PacketVariantWritable<T> {
    proof fn round_trip_variant(object: &T, tail: Seq<u8>)
        requires
            Self::encodable_variant(object),
        ensures
            Self::dec_variant(Self::enc_variant(object) + tail) == Ok::<_, PacketReadableError>(
                (object.deep_view(), Self::enc_variant(object).len() as int),
            ),
    ;
}

/// A byte cursor over a borrowed slice; the source used for every in-memory
/// frame decode.  The offset never exceeds the buffer's length.
pub struct SlicePacketRead<'a> {
    pub bytes: &'a [u8],
    pub offset: usize,
}

impl<'a> SlicePacketRead<'a> {
    pub fn new(bytes: &'a [u8]) -> (r: Self)
        ensures
            r.wf(),
            r.data() == bytes@,
            r.pos() == 0,
    {
        SlicePacketRead { bytes, offset: 0 }
    }

    /// Consume the next `length` bytes as a slice borrowing the cursor's
    /// buffer; fail without consuming when fewer are left.
    pub fn take_slice(&mut self, length: usize) -> (r: Result<&'a [u8], PacketReadableError>)
        requires
            old(self).wf(),
        ensures
            final(self).wf(),
            final(self).data() == old(self).data(),
            match r {
                Ok(v) => old(self).pos() + length <= old(self).data().len() && final(self).pos()
                    == old(self).pos() + length && v@ == old(self).data().subrange(
                    old(self).pos(),
                    old(self).pos() + length,
                ),
                Err(e) => e == PacketReadableError::BytesExceeded && final(self).pos() == old(
                    self,
                ).pos() && old(self).pos() + length > old(self).data().len(),
            },
    {
        if length <= self.bytes.len() - self.offset {
            let previous_offset = self.offset;
            self.offset = self.offset + length;
            Ok(vstd::slice::slice_subrange(self.bytes, previous_offset, self.offset))
        } else {
            Err(PacketReadableError::BytesExceeded)
        }
    }
}

impl<'a> PacketRead for SlicePacketRead<'a> {
    open spec fn data(&self) -> Seq<u8> {
        self.bytes@
    }

    open spec fn pos(&self) -> int {
        self.offset as int
    }

    open spec fn wf(&self) -> bool {
        self.offset <= self.bytes@.len()
    }

    proof fn wf_bounds(&self) {
        broadcast use vstd::slice::axiom_spec_len;

        assert(vstd::slice::spec_slice_len(self.bytes) == self.bytes@.len());
    }

    fn take_byte(&mut self) -> (r: Result<u8, PacketReadableError>) {
        if self.offset == self.bytes.len() {
            Err(PacketReadableError::BytesExceeded)
        } else {
            let byte = self.bytes[self.offset];
            self.offset = self.offset + 1;
            Ok(byte)
        }
    }

    fn take_vec(&mut self, length: usize) -> (r: Result<Vec<u8>, PacketReadableError>) {
        match self.take_slice(length) {
            Ok(slice) => Ok(vstd::slice::slice_to_vec(slice)),
            Err(e) => Err(e),
        }
    }

    fn rollback(&mut self, length: usize) -> (r: Result<(), PacketReadableError>) {
        if self.offset < length {
            Err(PacketReadableError::BadRollback)
        } else {
            self.offset = self.offset - length;
            Ok(())
        }
    }

    fn available(&self) -> (r: usize) {
        self.bytes.len() - self.offset
    }

    fn is_available(&self, bytes: usize) -> (r: bool) {
        self.available() >= bytes
    }
}

/// The canonical byte sink: a growable byte vector.
impl PacketWrite for Vec<u8> {
    open spec fn contents(&self) -> Seq<u8> {
        self@
    }

    fn write_byte(&mut self, byte: u8) -> (r: Result<(), PacketWritableError>) {
        self.push(byte);
        Ok(())
    }

    fn write_bytes(&mut self, bytes: &[u8]) -> (r: Result<(), PacketWritableError>) {
        self.extend_from_slice(bytes);
        Ok(())
    }

    fn write_bytes_owned(&mut self, bytes: Vec<u8>) -> (r: Result<(), PacketWritableError>) {
        let mut moved = bytes;
        self.append(&mut moved);
        Ok(())
    }
}

} // verus!
