//! Owned array values and document containers: the value-level counterparts
//! of the array and document strategies, for fields that want to own their
//! decoded contents.
use crate::packet::{
    PacketRead, PacketReadable, PacketReadableError, PacketVariantReadable,
    PacketVariantWritable, PacketWritable, PacketWritableError, PacketWrite,
};
use crate::packet_types::{
    all_encodable, dec_until_empty, enc_elems, LengthProvidedSlice, PacketLength,
    RemainingSlice,
};
use crate::varnum::VarInt;
use vstd::prelude::*;

verus! {

/// A decoded document value together with nothing else: a plain container
/// marking a field as an embedded JSON document.
pub struct ProtocolJson<T> {
    pub value: T,
}

impl<T> ProtocolJson<T> {
    pub fn new(value: T) -> (r: ProtocolJson<T>)
        ensures
            r.value == value,
    {
        ProtocolJson { value }
    }

    pub fn get(&self) -> (r: &T)
        ensures
            r == self.value,
    {
        &self.value
    }
}

/// A plain container marking a field as an embedded NBT document.
pub struct ProtocolNbt<T> {
    pub value: T,
}

impl<T> ProtocolNbt<T> {
    pub fn new(value: T) -> (r: ProtocolNbt<T>)
        ensures
            r.value == value,
    {
        ProtocolNbt { value }
    }

    pub fn get(&self) -> (r: &T)
        ensures
            r == self.value,
    {
        &self.value
    }
}

/// An owned array that decodes elements until its frame runs out and encodes
/// them back to back with no prefix.
#[derive(Debug, Clone, PartialEq)]
pub struct RemainingBytesArray<T> {
    pub result: Vec<T>,
}

impl<T> RemainingBytesArray<T> {
    pub fn new(result: Vec<T>) -> (r: RemainingBytesArray<T>)
        ensures
            r.result == result,
    {
        RemainingBytesArray { result }
    }
}

impl<T: DeepView> DeepView for RemainingBytesArray<T> {
    type V = Seq<T::V>;

    open spec fn deep_view(&self) -> Seq<T::V> {
        self.result.deep_view()
    }
}

impl<T: PacketReadable> PacketReadable for RemainingBytesArray<T> {
    open spec fn dec(s: Seq<u8>) -> Result<(Seq<T::V>, int), PacketReadableError> {
        dec_until_empty::<T, T>(s)
    }

    fn read<R: PacketRead>(read: &mut R) -> (r: Result<Self, PacketReadableError>) {
        match <RemainingSlice<T, T> as PacketVariantReadable<Vec<T>>>::read_variant(read) {
            Ok(v) => Ok(RemainingBytesArray { result: v }),
            Err(e) => Err(e),
        }
    }
}

impl<T: PacketWritable> PacketWritable for RemainingBytesArray<T> {
    open spec fn enc(&self) -> Seq<u8> {
        enc_elems::<T, T>(self.result@)
    }

    open spec fn encodable(&self) -> bool {
        all_encodable::<T, T>(self.result@)
    }

    fn write<W: PacketWrite>(&self, write: &mut W) -> (r: Result<(), PacketWritableError>) {
        <RemainingSlice<T, T> as PacketVariantWritable<Vec<T>>>::write_variant(&self.result, write)
    }
}

/// An owned array that decodes a leading element count of type `L`, then that
/// many elements, and encodes the count before the elements.
#[derive(Debug, PartialEq)]
pub struct LengthProvidedArray<T, L> {
    pub result: Vec<T>,
    pub size: core::marker::PhantomData<L>,
}

impl<T, L> LengthProvidedArray<T, L> {
    pub fn new(result: Vec<T>) -> (r: LengthProvidedArray<T, L>)
        ensures
            r.result == result,
    {
        LengthProvidedArray { result, size: core::marker::PhantomData }
    }
}

impl<T: DeepView, L> DeepView for LengthProvidedArray<T, L> {
    type V = Seq<T::V>;

    open spec fn deep_view(&self) -> Seq<T::V> {
        self.result.deep_view()
    }
}

impl<T: PacketReadable, L: PacketReadable + PacketLength> PacketReadable for LengthProvidedArray<
    T,
    L,
> {
    open spec fn dec(s: Seq<u8>) -> Result<(Seq<T::V>, int), PacketReadableError> {
        <LengthProvidedSlice<L, T, L, T> as PacketVariantReadable<Vec<T>>>::dec_variant(s)
    }

    fn read<R: PacketRead>(read: &mut R) -> (r: Result<Self, PacketReadableError>) {
        match <LengthProvidedSlice<L, T, L, T> as PacketVariantReadable<Vec<T>>>::read_variant(
            read,
        ) {
            Ok(v) => Ok(LengthProvidedArray { result: v, size: core::marker::PhantomData }),
            Err(e) => Err(e),
        }
    }
}

impl<T: PacketWritable, L: PacketWritable + PacketLength> PacketWritable for LengthProvidedArray<
    T,
    L,
> {
    open spec fn enc(&self) -> Seq<u8> {
        <LengthProvidedSlice<L, T, L, T> as PacketVariantWritable<Vec<T>>>::enc_variant(
            &self.result,
        )
    }

    open spec fn encodable(&self) -> bool {
        <LengthProvidedSlice<L, T, L, T> as PacketVariantWritable<Vec<T>>>::encodable_variant(
            &self.result,
        )
    }

    fn write<W: PacketWrite>(&self, write: &mut W) -> (r: Result<(), PacketWritableError>) {
        <LengthProvidedSlice<L, T, L, T> as PacketVariantWritable<Vec<T>>>::write_variant(
            &self.result,
            write,
        )
    }
}

/// An integer type usable as an element count.
pub trait SizeNumber: Sized {
    spec fn spec_size(self) -> int;

    fn as_size(self) -> (r: usize)
        requires
            0 <= self.spec_size() <= usize::MAX,
        ensures
            r == self.spec_size(),
    ;

    fn new_from_size(size: usize) -> (r: Self)
        ensures
            0 <= size <= Self::spec_size_max() ==> r.spec_size() == size,
    ;

    spec fn spec_size_max() -> int;
}

impl<T: PacketLength> SizeNumber for T {
    open spec fn spec_size(self) -> int {
        self.spec_length()
    }

    open spec fn spec_size_max() -> int {
        T::max_length()
    }

    fn as_size(self) -> (r: usize) {
        self.into_length()
    }

    fn new_from_size(size: usize) -> (r: Self) {
        if T::fits_length(size) {
            proof {
                T::length_round(size as int);
            }
            T::from_length(size)
        } else {
            proof {
                T::max_length_nonneg();
                T::length_round(0);
            }
            let r = T::from_length(0);
            r
        }
    }
}

impl PacketLength for VarInt {
    open spec fn spec_length(self) -> int {
        self.0 as int
    }

    open spec fn spec_from(length: int) -> VarInt {
        VarInt(length as i32)
    }

    open spec fn max_length() -> int {
        i32::MAX as int
    }

    proof fn max_length_nonneg() {
    }

    proof fn length_deep(self) {
    }

    proof fn length_round(length: int) {
    }

    fn into_length(self) -> (r: usize) {
        self.0 as usize
    }

    fn length_fits(&self) -> (r: bool) {
        self.0 >= 0
    }

    fn from_length(length: usize) -> (r: VarInt) {
        VarInt(length as i32)
    }

    fn fits_length(length: usize) -> (r: bool) {
        length as u64 <= i32::MAX as u64
    }
}

/// An owned array read back from a remaining-bytes field.
pub struct ReadRemainingBytesArray<T> {
    pub value: Vec<T>,
}

impl<T> ReadRemainingBytesArray<T> {
    pub fn new(value: Vec<T>) -> (r: Self)
        ensures
            r.value == value,
    {
        Self { value }
    }
}

/// A borrowed array about to be written as a remaining-bytes field.
pub struct WriteRemainingBytesArray<'a, T> {
    pub value: &'a Vec<T>,
}

impl<'a, T> WriteRemainingBytesArray<'a, T> {
    pub fn new(value: &'a Vec<T>) -> (r: Self)
        ensures
            r.value == value,
    {
        Self { value }
    }
}

/// An owned array read back from a length-prefixed field.
pub struct ReadLengthProvidedArray<T, S> {
    pub value: Vec<T>,
    pub size: core::marker::PhantomData<S>,
}

impl<T, S> ReadLengthProvidedArray<T, S> {
    pub fn new(value: Vec<T>) -> (r: Self)
        ensures
            r.value == value,
    {
        Self { value, size: core::marker::PhantomData }
    }
}

/// A borrowed array about to be written as a length-prefixed field.
pub struct WriteLengthProvidedArray<'a, T, S> {
    pub value: &'a Vec<T>,
    pub size: core::marker::PhantomData<S>,
}

impl<'a, T, S> WriteLengthProvidedArray<'a, T, S> {
    pub fn new(value: &'a Vec<T>) -> (r: Self)
        ensures
            r.value == value,
    {
        Self { value, size: core::marker::PhantomData }
    }
}

} // verus!
