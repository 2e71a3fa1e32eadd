//! Array and container codecs: remaining-bytes spans, remaining-element
//! slices, and length-prefixed spans and slices with a pluggable length type.
//!
//! The remaining codecs consume the source to its end and so belong only at
//! the tail of a packet; the length-provided codecs carry their own element
//! count and can stand anywhere.  The length integer's type is a parameter:
//! different sub-protocols prefix with different widths.
use crate::packet::{
    remaining_of, PacketRead, PacketReadable, PacketReadableError, PacketVariantReadable,
    PacketVariantWritable, PacketWritable, PacketWritableError, PacketWrite, RoundTrip,
    VariantRoundTrip,
};
use vstd::prelude::*;

verus! {

/// Marker for every array strategy.
pub trait ProtocolArray {
}

/// Strategy: consume every remaining byte as one raw span.
pub struct RemainingBytesSlice;

/// Strategy: decode elements of strategy `Value` until the source is empty.
pub struct RemainingSlice<Value, ValueInner>(
    pub core::marker::PhantomData<Value>,
    pub core::marker::PhantomData<ValueInner>,
);

/// Strategy: a length of type `LengthInner` (decoded by strategy `Length`),
/// then that many raw bytes.
pub struct LengthProvidedBytesSlice<Length, LengthInner>(
    pub core::marker::PhantomData<Length>,
    pub core::marker::PhantomData<LengthInner>,
);

/// Strategy: a length of type `LengthInner`, then that many elements of
/// strategy `Value`.
pub struct LengthProvidedSlice<Length, Value, LengthInner, ValueInner>(
    pub core::marker::PhantomData<Length>,
    pub core::marker::PhantomData<Value>,
    pub core::marker::PhantomData<LengthInner>,
    pub core::marker::PhantomData<ValueInner>,
);

impl ProtocolArray for RemainingBytesSlice {

}

impl<Value, ValueInner> ProtocolArray for RemainingSlice<Value, ValueInner> {

}

impl<Length, LengthInner> ProtocolArray for LengthProvidedBytesSlice<Length, LengthInner> {

}

impl<Length, Value, LengthInner, ValueInner> ProtocolArray for LengthProvidedSlice<
    Length,
    Value,
    LengthInner,
    ValueInner,
> {

}

/// An integer type usable as a pluggable length prefix.
pub trait PacketLength: Sized + DeepView<V = Self> {
    /// The length the value denotes.
    spec fn spec_length(self) -> int;

    /// The value denoting a given length.
    spec fn spec_from(length: int) -> Self;

    /// The largest length the type can denote.
    spec fn max_length() -> int;

    /// The type can denote some length.
    proof fn max_length_nonneg()
        ensures
            Self::max_length() >= 0,
    ;

    /// A length value is its own abstraction.
    proof fn length_deep(self)
        ensures
            self.deep_view() == self,
    ;

    /// Denoting a representable length and reading it back is the identity.
    proof fn length_round(length: int)
        requires
            0 <= length <= Self::max_length(),
        ensures
            Self::spec_from(length).spec_length() == length,
    ;

    fn into_length(self) -> (r: usize)
        requires
            0 <= self.spec_length() <= usize::MAX,
        ensures
            r == self.spec_length(),
    ;

    fn length_fits(&self) -> (r: bool)
        ensures
            r == (0 <= self.spec_length() <= usize::MAX),
    ;

    fn from_length(length: usize) -> (r: Self)
        requires
            length <= Self::max_length(),
        ensures
            r == Self::spec_from(length as int),
    ;

    fn fits_length(length: usize) -> (r: bool)
        ensures
            r == (length <= Self::max_length()),
    ;
}

impl PacketVariantReadable<Vec<u8>> for RemainingBytesSlice {
    open spec fn dec_variant(s: Seq<u8>) -> Result<(Seq<u8>, int), PacketReadableError> {
        Ok((s, s.len() as int))
    }

    fn read_variant<R: PacketRead>(read: &mut R) -> (r: Result<Vec<u8>, PacketReadableError>) {
        proof {
            read.wf_bounds();
        }
        let ghost rem = remaining_of(*read);
        let n = read.available();
        match read.take_vec(n) {
            Ok(v) => {
                proof {
                    assert(v@ =~= rem);
                    assert(v.deep_view() =~= v@);
                }
                Ok(v)
            },
            Err(e) => {
                proof {
                    assert(false);
                }
                Err(e)
            },
        }
    }
}

impl PacketVariantWritable<Vec<u8>> for RemainingBytesSlice {
    open spec fn enc_variant(object: &Vec<u8>) -> Seq<u8> {
        object@
    }

    open spec fn encodable_variant(object: &Vec<u8>) -> bool {
        true
    }

    fn write_variant<W: PacketWrite>(object: &Vec<u8>, write: &mut W) -> (r: Result<
        (),
        PacketWritableError,
    >) {
        write.write_bytes(object.as_slice())
    }
}

/// Round trip of the remaining-bytes span: exact when the span is the whole
/// rest of the frame, which is the only place the strategy is used.
pub proof fn lemma_remaining_bytes_round(object: &Vec<u8>)
    ensures
        RemainingBytesSlice::dec_variant(RemainingBytesSlice::enc_variant(object)) == Ok::<
            _,
            PacketReadableError,
        >((object.deep_view(), object@.len() as int)),
{
    assert(object.deep_view() =~= object@);
}

impl<L: PacketVariantReadable<LI>, LI: PacketLength> PacketVariantReadable<
    Vec<u8>,
> for LengthProvidedBytesSlice<L, LI> {
    open spec fn dec_variant(s: Seq<u8>) -> Result<(Seq<u8>, int), PacketReadableError> {
        match L::dec_variant(s) {
            Ok((li, n)) => {
                let l = li.spec_length();
                if l < 0 || s.len() < n + l {
                    Err(PacketReadableError::BytesExceeded)
                } else {
                    Ok((s.subrange(n, n + l), n + l))
                }
            },
            Err(e) => Err(e),
        }
    }

    fn read_variant<R: PacketRead>(read: &mut R) -> (r: Result<Vec<u8>, PacketReadableError>) {
        proof {
            read.wf_bounds();
        }
        let ghost d0 = read.data();
        let ghost p0 = read.pos();
        let ghost rem = remaining_of(*read);
        let li = match L::read_variant(read) {
            Ok(li) => li,
            Err(e) => {
                return Err(e);
            },
        };
        proof {
            li.length_deep();
        }
        let ghost n = read.pos() - p0;
        if !li.length_fits() {
            return Err(PacketReadableError::BytesExceeded);
        }
        let length = li.into_length();
        match read.take_vec(length) {
            Ok(v) => {
                proof {
                    assert(rem.subrange(n, n + length) =~= d0.subrange(p0 + n, p0 + n + length));
                    assert(v.deep_view() =~= v@);
                }
                Ok(v)
            },
            Err(e) => Err(e),
        }
    }
}

impl<L: PacketVariantWritable<LI>, LI: PacketLength> PacketVariantWritable<
    Vec<u8>,
> for LengthProvidedBytesSlice<L, LI> {
    open spec fn enc_variant(object: &Vec<u8>) -> Seq<u8> {
        L::enc_variant(&LI::spec_from(object@.len() as int)) + object@
    }

    open spec fn encodable_variant(object: &Vec<u8>) -> bool {
        object@.len() <= LI::max_length() && L::encodable_variant(
            &LI::spec_from(object@.len() as int),
        )
    }

    fn write_variant<W: PacketWrite>(object: &Vec<u8>, write: &mut W) -> (r: Result<
        (),
        PacketWritableError,
    >) {
        let ghost c0 = write.contents();
        if !LI::fits_length(object.len()) {
            return Err(PacketWritableError::TooBig);
        }
        let li = LI::from_length(object.len());
        let r = L::write_variant(&li, write);
        match r {
            Ok(()) => (),
            Err(e) => {
                return Err(e);
            },
        }
        let r2 = write.write_bytes(object.as_slice());
        match r2 {
            Ok(()) => (),
            Err(e) => {
                return Err(e);
            },
        }
        assert(write.contents() =~= c0 + Self::enc_variant(object));
        Ok(())
    }
}

impl<
    L: VariantRoundTrip<LI>,
    LI: PacketLength,
> VariantRoundTrip<Vec<u8>> for LengthProvidedBytesSlice<L, LI> {
    proof fn round_trip_variant(object: &Vec<u8>, tail: Seq<u8>) {
        let len = object@.len() as int;
        let li = LI::spec_from(len);
        let prefix = L::enc_variant(&li);
        L::round_trip_variant(&li, object@ + tail);
        LI::length_round(len);
        li.length_deep();
        let s = Self::enc_variant(object) + tail;
        assert(s =~= prefix + (object@ + tail));
        let n = prefix.len() as int;
        assert(L::dec_variant(s) == Ok::<_, PacketReadableError>((li, n)));
        assert(s.subrange(n, n + len) =~= object@);
        assert(object.deep_view() =~= object@);
    }
}


impl PacketLength for u8 {
    open spec fn spec_length(self) -> int {
        self as int
    }

    open spec fn spec_from(length: int) -> u8 {
        length as u8
    }

    open spec fn max_length() -> int {
        u8::MAX as int
    }

    proof fn max_length_nonneg() {
    }

    proof fn length_deep(self) {
    }

    proof fn length_round(length: int) {
    }

    fn into_length(self) -> (r: usize) {
        self as usize
    }

    fn length_fits(&self) -> (r: bool) {
        true
    }

    fn from_length(length: usize) -> (r: u8) {
        length as u8
    }

    fn fits_length(length: usize) -> (r: bool) {
        length <= u8::MAX as usize
    }
}

impl PacketLength for i8 {
    open spec fn spec_length(self) -> int {
        self as int
    }

    open spec fn spec_from(length: int) -> i8 {
        length as i8
    }

    open spec fn max_length() -> int {
        i8::MAX as int
    }

    proof fn max_length_nonneg() {
    }

    proof fn length_deep(self) {
    }

    proof fn length_round(length: int) {
    }

    fn into_length(self) -> (r: usize) {
        self as usize
    }

    fn length_fits(&self) -> (r: bool) {
        *self >= 0
    }

    fn from_length(length: usize) -> (r: i8) {
        length as i8
    }

    fn fits_length(length: usize) -> (r: bool) {
        length <= i8::MAX as usize
    }
}

impl PacketLength for u16 {
    open spec fn spec_length(self) -> int {
        self as int
    }

    open spec fn spec_from(length: int) -> u16 {
        length as u16
    }

    open spec fn max_length() -> int {
        u16::MAX as int
    }

    proof fn max_length_nonneg() {
    }

    proof fn length_deep(self) {
    }

    proof fn length_round(length: int) {
    }

    fn into_length(self) -> (r: usize) {
        self as usize
    }

    fn length_fits(&self) -> (r: bool) {
        true
    }

    fn from_length(length: usize) -> (r: u16) {
        length as u16
    }

    fn fits_length(length: usize) -> (r: bool) {
        length <= u16::MAX as usize
    }
}

impl PacketLength for i16 {
    open spec fn spec_length(self) -> int {
        self as int
    }

    open spec fn spec_from(length: int) -> i16 {
        length as i16
    }

    open spec fn max_length() -> int {
        i16::MAX as int
    }

    proof fn max_length_nonneg() {
    }

    proof fn length_deep(self) {
    }

    proof fn length_round(length: int) {
    }

    fn into_length(self) -> (r: usize) {
        self as usize
    }

    fn length_fits(&self) -> (r: bool) {
        *self >= 0
    }

    fn from_length(length: usize) -> (r: i16) {
        length as i16
    }

    fn fits_length(length: usize) -> (r: bool) {
        length <= i16::MAX as usize
    }
}

impl PacketLength for u32 {
    open spec fn spec_length(self) -> int {
        self as int
    }

    open spec fn spec_from(length: int) -> u32 {
        length as u32
    }

    open spec fn max_length() -> int {
        u32::MAX as int
    }

    proof fn max_length_nonneg() {
    }

    proof fn length_deep(self) {
    }

    proof fn length_round(length: int) {
    }

    fn into_length(self) -> (r: usize) {
        self as usize
    }

    fn length_fits(&self) -> (r: bool) {
        *self as u64 <= usize::MAX as u64
    }

    fn from_length(length: usize) -> (r: u32) {
        length as u32
    }

    fn fits_length(length: usize) -> (r: bool) {
        length <= u32::MAX as usize || usize::MAX as u64 <= u32::MAX as u64
    }
}

impl PacketLength for i32 {
    open spec fn spec_length(self) -> int {
        self as int
    }

    open spec fn spec_from(length: int) -> i32 {
        length as i32
    }

    open spec fn max_length() -> int {
        i32::MAX as int
    }

    proof fn max_length_nonneg() {
    }

    proof fn length_deep(self) {
    }

    proof fn length_round(length: int) {
    }

    fn into_length(self) -> (r: usize) {
        self as usize
    }

    fn length_fits(&self) -> (r: bool) {
        *self >= 0
    }

    fn from_length(length: usize) -> (r: i32) {
        length as i32
    }

    fn fits_length(length: usize) -> (r: bool) {
        length as u64 <= i32::MAX as u64
    }
}

impl PacketLength for u64 {
    open spec fn spec_length(self) -> int {
        self as int
    }

    open spec fn spec_from(length: int) -> u64 {
        length as u64
    }

    open spec fn max_length() -> int {
        u64::MAX as int
    }

    proof fn max_length_nonneg() {
    }

    proof fn length_deep(self) {
    }

    proof fn length_round(length: int) {
    }

    fn into_length(self) -> (r: usize) {
        self as usize
    }

    fn length_fits(&self) -> (r: bool) {
        *self <= usize::MAX as u64
    }

    fn from_length(length: usize) -> (r: u64) {
        length as u64
    }

    fn fits_length(length: usize) -> (r: bool) {
        true
    }
}

impl PacketLength for i64 {
    open spec fn spec_length(self) -> int {
        self as int
    }

    open spec fn spec_from(length: int) -> i64 {
        length as i64
    }

    open spec fn max_length() -> int {
        i64::MAX as int
    }

    proof fn max_length_nonneg() {
    }

    proof fn length_deep(self) {
    }

    proof fn length_round(length: int) {
    }

    fn into_length(self) -> (r: usize) {
        self as usize
    }

    fn length_fits(&self) -> (r: bool) {
        *self >= 0 && *self as u64 <= usize::MAX as u64
    }

    fn from_length(length: usize) -> (r: i64) {
        length as i64
    }

    fn fits_length(length: usize) -> (r: bool) {
        length as u64 <= i64::MAX as u64
    }
}


/// The abstractions of a sequence of elements.
pub open spec fn deep_seq<T: DeepView>(vs: Seq<T>) -> Seq<T::V> {
    vs.map_values(|v: T| v.deep_view())
}

/// The concatenated encodings of a sequence of elements under strategy `S`.
pub open spec fn enc_elems<S: PacketVariantWritable<T>, T>(vs: Seq<T>) -> Seq<u8>
    decreases vs.len(),
{
    if vs.len() == 0 {
        Seq::empty()
    } else {
        S::enc_variant(&vs[0]) + enc_elems::<S, T>(vs.skip(1))
    }
}

/// Whether every element of a sequence is encodable under strategy `S`.
pub open spec fn all_encodable<S: PacketVariantWritable<T>, T>(vs: Seq<T>) -> bool
    decreases vs.len(),
{
    vs.len() == 0 || (S::encodable_variant(&vs[0]) && all_encodable::<S, T>(vs.skip(1)))
}

/// Whether every element's encoding under `S` takes at least one byte.
pub open spec fn all_nonempty_enc<S: PacketVariantWritable<T>, T>(vs: Seq<T>) -> bool
    decreases vs.len(),
{
    vs.len() == 0 || (S::enc_variant(&vs[0]).len() >= 1 && all_nonempty_enc::<S, T>(vs.skip(1)))
}

/// Decode elements under strategy `S` until the bytes run out.  No decode is
/// ascribed to an element that would consume nothing: reading it back to back
/// would never finish.
pub open spec fn dec_until_empty<S: PacketVariantReadable<T>, T: DeepView>(s: Seq<u8>) -> Result<
    (Seq<T::V>, int),
    PacketReadableError,
>
    decreases s.len(),
{
    if s.len() == 0 {
        Ok((Seq::empty(), 0))
    } else {
        match S::dec_variant(s) {
            Ok((v, n)) => if 1 <= n <= s.len() {
                match dec_until_empty::<S, T>(s.skip(n)) {
                    Ok((vs, m)) => Ok((seq![v] + vs, n + m)),
                    Err(e) => Err(e),
                }
            } else {
                Err(PacketReadableError::BytesExceeded)
            },
            Err(e) => Err(e),
        }
    }
}

/// Decode exactly `k` elements under strategy `S`.
pub open spec fn dec_count<S: PacketVariantReadable<T>, T: DeepView>(s: Seq<u8>, k: nat) -> Result<
    (Seq<T::V>, int),
    PacketReadableError,
>
    decreases k,
{
    if k == 0 {
        Ok((Seq::empty(), 0))
    } else {
        match S::dec_variant(s) {
            Ok((v, n)) => if 0 <= n <= s.len() {
                match dec_count::<S, T>(s.skip(n), (k - 1) as nat) {
                    Ok((vs, m)) => Ok((seq![v] + vs, n + m)),
                    Err(e) => Err(e),
                }
            } else {
                Err(PacketReadableError::BytesExceeded)
            },
            Err(e) => Err(e),
        }
    }
}

/// One decoded element at the head of `s` folds into the until-empty decode.
pub proof fn lemma_until_empty_step<S: PacketVariantReadable<T>, T: DeepView>(
    s: Seq<u8>,
    n: int,
    v: T::V,
)
    requires
        s.len() > 0,
        0 <= n <= s.len(),
        S::dec_variant(s) == Ok::<_, PacketReadableError>((v, n)),
    ensures
        match dec_until_empty::<S, T>(s.skip(n)) {
            Ok((vs, m)) => dec_until_empty::<S, T>(s) == Ok::<_, PacketReadableError>(
                (seq![v] + vs, n + m),
            ),
            Err(e) => dec_until_empty::<S, T>(s) == Err::<(Seq<T::V>, int), _>(e),
        },
{
    if n == 0 {
        assert(s.skip(0) =~= s);
        assert(dec_until_empty::<S, T>(s) == Err::<(Seq<T::V>, int), _>(
            PacketReadableError::BytesExceeded,
        ));
    }
}

/// One decoded element at the head of `s` folds into the counted decode.
pub proof fn lemma_count_step<S: PacketVariantReadable<T>, T: DeepView>(
    s: Seq<u8>,
    k: nat,
    n: int,
    v: T::V,
)
    requires
        k >= 1,
        0 <= n <= s.len(),
        S::dec_variant(s) == Ok::<_, PacketReadableError>((v, n)),
    ensures
        match dec_count::<S, T>(s.skip(n), (k - 1) as nat) {
            Ok((vs, m)) => dec_count::<S, T>(s, k) == Ok::<_, PacketReadableError>(
                (seq![v] + vs, n + m),
            ),
            Err(e) => dec_count::<S, T>(s, k) == Err::<(Seq<T::V>, int), _>(e),
        },
{
}

/// Appending one element extends the concatenated encoding by its encoding.
pub proof fn lemma_enc_elems_snoc<S: PacketVariantWritable<T>, T>(vs: Seq<T>, i: int)
    requires
        0 <= i < vs.len(),
    ensures
        enc_elems::<S, T>(vs.take(i + 1)) == enc_elems::<S, T>(vs.take(i)) + S::enc_variant(
            &vs[i],
        ),
    decreases i,
{
    if i == 0 {
        assert(vs.take(1).skip(1) =~= Seq::<T>::empty());
        assert(vs.take(0) =~= Seq::<T>::empty());
        assert(vs.take(1)[0] == vs[0]);
        assert(S::enc_variant(&vs[0]) + Seq::<u8>::empty() =~= S::enc_variant(&vs[0]));
        assert(Seq::<u8>::empty() + S::enc_variant(&vs[0]) =~= S::enc_variant(&vs[0]));
    } else {
        lemma_enc_elems_snoc::<S, T>(vs.skip(1), i - 1);
        assert(vs.take(i + 1).skip(1) =~= vs.skip(1).take(i));
        assert(vs.take(i).skip(1) =~= vs.skip(1).take(i - 1));
        assert(vs.take(i + 1)[0] == vs[0] && vs.take(i)[0] == vs[0]);
        assert(vs.skip(1)[i - 1] == vs[i]);
        assert(S::enc_variant(&vs[0]) + (enc_elems::<S, T>(vs.skip(1).take(i - 1))
            + S::enc_variant(&vs[i])) =~= (S::enc_variant(&vs[0]) + enc_elems::<S, T>(
            vs.skip(1).take(i - 1),
        )) + S::enc_variant(&vs[i]));
    }
}

/// A proven-encodable element extends an all-encodable prefix.
pub proof fn lemma_all_encodable_snoc<S: PacketVariantWritable<T>, T>(vs: Seq<T>, i: int)
    requires
        0 <= i < vs.len(),
        all_encodable::<S, T>(vs.take(i)),
        S::encodable_variant(&vs[i]),
    ensures
        all_encodable::<S, T>(vs.take(i + 1)),
    decreases i,
{
    if i == 0 {
        assert(vs.take(1).skip(1) =~= Seq::<T>::empty());
        assert(vs.take(1)[0] == vs[0]);
        assert(all_encodable::<S, T>(vs.take(1).skip(1)));
        assert(S::encodable_variant(&vs.take(1)[0]));
    } else {
        assert(vs.take(i)[0] == vs[0]);
        assert(vs.take(i).skip(1) =~= vs.skip(1).take(i - 1));
        assert(S::encodable_variant(&vs.take(i)[0]));
        assert(all_encodable::<S, T>(vs.skip(1).take(i - 1)));
        assert(vs.skip(1)[i - 1] == vs[i]);
        lemma_all_encodable_snoc::<S, T>(vs.skip(1), i - 1);
        assert(all_encodable::<S, T>(vs.skip(1).take(i)));
        assert(vs.take(i + 1)[0] == vs[0]);
        assert(S::encodable_variant(&vs.take(i + 1)[0]));
        assert(vs.take(i + 1).skip(1) =~= vs.skip(1).take(i));
        assert(all_encodable::<S, T>(vs.take(i + 1).skip(1)));
    }
}

/// Every element of an all-encodable sequence is encodable.
pub proof fn lemma_all_encodable_index<S: PacketVariantWritable<T>, T>(vs: Seq<T>, i: int)
    requires
        0 <= i < vs.len(),
        all_encodable::<S, T>(vs),
    ensures
        S::encodable_variant(&vs[i]),
    decreases i,
{
    if i > 0 {
        lemma_all_encodable_index::<S, T>(vs.skip(1), i - 1);
        assert(vs.skip(1)[i - 1] == vs[i]);
    }
}

impl<V: PacketVariantReadable<VI>, VI: DeepView> PacketVariantReadable<Vec<VI>> for RemainingSlice<
    V,
    VI,
> {
    open spec fn dec_variant(s: Seq<u8>) -> Result<(Seq<VI::V>, int), PacketReadableError> {
        dec_until_empty::<V, VI>(s)
    }

    #[verifier::loop_isolation(false)]
    fn read_variant<R: PacketRead>(read: &mut R) -> (r: Result<Vec<VI>, PacketReadableError>) {
        proof {
            read.wf_bounds();
        }
        let ghost d0 = read.data();
        let ghost p0 = read.pos();
        let ghost rem = remaining_of(*read);
        let mut result: Vec<VI> = Vec::new();
        loop
            invariant
                read.wf(),
                read.data() == d0,
                p0 <= read.pos() <= d0.len(),
                match dec_until_empty::<V, VI>(remaining_of(*read)) {
                    Ok((vs, m)) => dec_until_empty::<V, VI>(rem) == Ok::<_, PacketReadableError>(
                        (result.deep_view() + vs, (read.pos() - p0) + m),
                    ),
                    Err(e) => dec_until_empty::<V, VI>(rem) == Err::<(Seq<VI::V>, int), _>(e),
                },
            decreases d0.len() - read.pos(),
        {
            if read.available() == 0 {
                proof {
                    assert(remaining_of(*read).len() == 0);
                    assert(result.deep_view() + Seq::<VI::V>::empty() =~= result.deep_view());
                }
                return Ok(result);
            }
            let ghost rem_cur = remaining_of(*read);
            let ghost res0 = result.deep_view();
            let ghost p_cur = read.pos();
            let avail = read.available();
            let v = match V::read_variant(read) {
                Ok(v) => v,
                Err(e) => {
                    return Err(e);
                },
            };
            if read.available() == avail {
                proof {
                    assert(remaining_of(*read) =~= rem_cur);
                    assert(dec_until_empty::<V, VI>(rem_cur) == Err::<(Seq<VI::V>, int), _>(
                        PacketReadableError::BytesExceeded,
                    ));
                }
                return Err(PacketReadableError::BytesExceeded);
            }
            result.push(v);
            proof {
                let n = read.pos() - p_cur;
                assert(remaining_of(*read) =~= rem_cur.skip(n));
                assert(result.deep_view() =~= res0 + seq![v.deep_view()]);
                lemma_until_empty_step::<V, VI>(rem_cur, n, v.deep_view());
                if dec_until_empty::<V, VI>(rem_cur.skip(n)) is Ok {
                    let (vs, m) = dec_until_empty::<V, VI>(rem_cur.skip(n))->Ok_0;
                    assert(res0 + (seq![v.deep_view()] + vs) =~= (res0 + seq![v.deep_view()])
                        + vs);
                }
            }
        }
    }
}

impl<V: PacketVariantWritable<VI>, VI> PacketVariantWritable<Vec<VI>> for RemainingSlice<V, VI> {
    open spec fn enc_variant(object: &Vec<VI>) -> Seq<u8> {
        enc_elems::<V, VI>(object@)
    }

    open spec fn encodable_variant(object: &Vec<VI>) -> bool {
        all_encodable::<V, VI>(object@)
    }

    #[verifier::loop_isolation(false)]
    fn write_variant<W: PacketWrite>(object: &Vec<VI>, write: &mut W) -> (r: Result<
        (),
        PacketWritableError,
    >) {
        let ghost c0 = write.contents();
        let mut i: usize = 0;
        while i < object.len()
            invariant
                0 <= i <= object@.len(),
                write.contents() == c0 + enc_elems::<V, VI>(object@.take(i as int)),
                all_encodable::<V, VI>(object@.take(i as int)),
            decreases object@.len() - i,
        {
            let r = V::write_variant(&object[i], write);
            proof {
                lemma_enc_elems_snoc::<V, VI>(object@, i as int);
                if r is Ok {
                    lemma_all_encodable_snoc::<V, VI>(object@, i as int);
                }
            }
            match r {
                Ok(()) => (),
                Err(e) => {
                    proof {
                        if all_encodable::<V, VI>(object@) {
                            lemma_all_encodable_index::<V, VI>(object@, i as int);
                        }
                    }
                    return Err(e);
                },
            }
            proof {
                assert((c0 + enc_elems::<V, VI>(object@.take(i as int))) + V::enc_variant(
                    &object@[i as int],
                ) =~= c0 + (enc_elems::<V, VI>(object@.take(i as int)) + V::enc_variant(
                    &object@[i as int],
                )));
            }
            i = i + 1;
        }
        proof {
            assert(object@.take(object@.len() as int) =~= object@);
        }
        Ok(())
    }
}

/// Round trip of the remaining-element slice, at the tail of a frame: an
/// encoding of elements, each taking at least one byte, decodes back to the
/// same elements and consumes the whole span.
pub proof fn lemma_remaining_slice_round<V: VariantRoundTrip<VI>, VI: DeepView>(vs: Seq<VI>)
    requires
        all_encodable::<V, VI>(vs),
        all_nonempty_enc::<V, VI>(vs),
    ensures
        dec_until_empty::<V, VI>(enc_elems::<V, VI>(vs)) == Ok::<_, PacketReadableError>(
            (deep_seq(vs), enc_elems::<V, VI>(vs).len() as int),
        ),
    decreases vs.len(),
{
    if vs.len() == 0 {
        assert(deep_seq(vs) =~= Seq::<VI::V>::empty());
    } else {
        let head = &vs[0];
        let rest = vs.skip(1);
        let tail_bytes = enc_elems::<V, VI>(rest);
        V::round_trip_variant(head, tail_bytes);
        lemma_remaining_slice_round::<V, VI>(rest);
        let s = enc_elems::<V, VI>(vs);
        let n = V::enc_variant(head).len() as int;
        assert(s.skip(n) =~= tail_bytes);
        assert(seq![head.deep_view()] + deep_seq(rest) =~= deep_seq(vs));
    }
}


/// Round trip of a counted element sequence: an encoding of `vs` decodes
/// back to `vs` under its own count, whatever follows it.
pub proof fn lemma_count_round<V: VariantRoundTrip<VI>, VI: DeepView>(vs: Seq<VI>, tail: Seq<u8>)
    requires
        all_encodable::<V, VI>(vs),
    ensures
        dec_count::<V, VI>(enc_elems::<V, VI>(vs) + tail, vs.len()) == Ok::<
            _,
            PacketReadableError,
        >((deep_seq(vs), enc_elems::<V, VI>(vs).len() as int)),
    decreases vs.len(),
{
    if vs.len() == 0 {
        assert(deep_seq(vs) =~= Seq::<VI::V>::empty());
    } else {
        let head = &vs[0];
        let rest = vs.skip(1);
        let tail_bytes = enc_elems::<V, VI>(rest) + tail;
        V::round_trip_variant(head, tail_bytes);
        lemma_count_round::<V, VI>(rest, tail);
        let s = enc_elems::<V, VI>(vs) + tail;
        let n = V::enc_variant(head).len() as int;
        assert(s =~= V::enc_variant(head) + tail_bytes);
        assert(s.skip(n) =~= tail_bytes);
        assert(seq![head.deep_view()] + deep_seq(rest) =~= deep_seq(vs));
    }
}

impl<
    L: PacketVariantReadable<LI>,
    V: PacketVariantReadable<VI>,
    LI: PacketLength,
    VI: DeepView,
> PacketVariantReadable<Vec<VI>> for LengthProvidedSlice<L, V, LI, VI> {
    open spec fn dec_variant(s: Seq<u8>) -> Result<(Seq<VI::V>, int), PacketReadableError> {
        match L::dec_variant(s) {
            Ok((li, n)) => {
                let l = li.spec_length();
                if l < 0 || l > usize::MAX {
                    Err(PacketReadableError::BytesExceeded)
                } else {
                    match dec_count::<V, VI>(s.skip(n), l as nat) {
                        Ok((vs, m)) => Ok((vs, n + m)),
                        Err(e) => Err(e),
                    }
                }
            },
            Err(e) => Err(e),
        }
    }

    #[verifier::loop_isolation(false)]
    fn read_variant<R: PacketRead>(read: &mut R) -> (r: Result<Vec<VI>, PacketReadableError>) {
        proof {
            read.wf_bounds();
        }
        let ghost d0 = read.data();
        let ghost p0 = read.pos();
        let ghost rem = remaining_of(*read);
        let li = match L::read_variant(read) {
            Ok(li) => li,
            Err(e) => {
                return Err(e);
            },
        };
        proof {
            li.length_deep();
        }
        if !li.length_fits() {
            return Err(PacketReadableError::BytesExceeded);
        }
        let count = li.into_length();
        let ghost s1 = remaining_of(*read);
        let ghost p1 = read.pos();
        proof {
            assert(s1 =~= rem.skip(p1 - p0));
        }
        let mut result: Vec<VI> = Vec::new();
        let mut i: usize = 0;
        while i < count
            invariant
                read.wf(),
                read.data() == d0,
                p1 <= read.pos() <= d0.len(),
                0 <= i <= count,
                result@.len() == i,
                match dec_count::<V, VI>(remaining_of(*read), (count - i) as nat) {
                    Ok((vs, m)) => dec_count::<V, VI>(s1, count as nat) == Ok::<
                        _,
                        PacketReadableError,
                    >((result.deep_view() + vs, (read.pos() - p1) + m)),
                    Err(e) => dec_count::<V, VI>(s1, count as nat) == Err::<
                        (Seq<VI::V>, int),
                        _,
                    >(e),
                },
            decreases count - i,
        {
            let ghost rem_cur = remaining_of(*read);
            let ghost res0 = result.deep_view();
            let ghost p_cur = read.pos();
            let v = match V::read_variant(read) {
                Ok(v) => v,
                Err(e) => {
                    return Err(e);
                },
            };
            result.push(v);
            i = i + 1;
            proof {
                let n = read.pos() - p_cur;
                assert(remaining_of(*read) =~= rem_cur.skip(n));
                assert(result.deep_view() =~= res0 + seq![v.deep_view()]);
                lemma_count_step::<V, VI>(rem_cur, (count - (i - 1)) as nat, n, v.deep_view());
                if dec_count::<V, VI>(rem_cur.skip(n), (count - i) as nat) is Ok {
                    let (vs, m) = dec_count::<V, VI>(rem_cur.skip(n), (count - i) as nat)->Ok_0;
                    assert(res0 + (seq![v.deep_view()] + vs) =~= (res0 + seq![v.deep_view()])
                        + vs);
                }
            }
        }
        proof {
            assert(result.deep_view() + Seq::<VI::V>::empty() =~= result.deep_view());
        }
        Ok(result)
    }
}

impl<
    L: PacketVariantWritable<LI>,
    V: PacketVariantWritable<VI>,
    LI: PacketLength,
    VI,
> PacketVariantWritable<Vec<VI>> for LengthProvidedSlice<L, V, LI, VI> {
    open spec fn enc_variant(object: &Vec<VI>) -> Seq<u8> {
        L::enc_variant(&LI::spec_from(object@.len() as int)) + enc_elems::<V, VI>(object@)
    }

    open spec fn encodable_variant(object: &Vec<VI>) -> bool {
        &&& object@.len() <= LI::max_length()
        &&& L::encodable_variant(&LI::spec_from(object@.len() as int))
        &&& all_encodable::<V, VI>(object@)
    }

    #[verifier::loop_isolation(false)]
    fn write_variant<W: PacketWrite>(object: &Vec<VI>, write: &mut W) -> (r: Result<
        (),
        PacketWritableError,
    >) {
        let ghost c0 = write.contents();
        if !LI::fits_length(object.len()) {
            return Err(PacketWritableError::TooBig);
        }
        let li = LI::from_length(object.len());
        let rl = L::write_variant(&li, write);
        match rl {
            Ok(()) => (),
            Err(e) => {
                return Err(e);
            },
        }
        let ghost c1 = write.contents();
        let mut i: usize = 0;
        while i < object.len()
            invariant
                0 <= i <= object@.len(),
                write.contents() == c1 + enc_elems::<V, VI>(object@.take(i as int)),
                all_encodable::<V, VI>(object@.take(i as int)),
            decreases object@.len() - i,
        {
            let r = V::write_variant(&object[i], write);
            proof {
                lemma_enc_elems_snoc::<V, VI>(object@, i as int);
                if r is Ok {
                    lemma_all_encodable_snoc::<V, VI>(object@, i as int);
                }
            }
            match r {
                Ok(()) => (),
                Err(e) => {
                    proof {
                        if all_encodable::<V, VI>(object@) {
                            lemma_all_encodable_index::<V, VI>(object@, i as int);
                        }
                    }
                    return Err(e);
                },
            }
            proof {
                assert((c1 + enc_elems::<V, VI>(object@.take(i as int))) + V::enc_variant(
                    &object@[i as int],
                ) =~= c1 + (enc_elems::<V, VI>(object@.take(i as int)) + V::enc_variant(
                    &object@[i as int],
                )));
            }
            i = i + 1;
        }
        proof {
            assert(object@.take(object@.len() as int) =~= object@);
            assert(write.contents() =~= c0 + Self::enc_variant(object));
        }
        Ok(())
    }
}

impl<
    L: VariantRoundTrip<LI>,
    V: VariantRoundTrip<VI>,
    LI: PacketLength,
    VI: DeepView,
> VariantRoundTrip<Vec<VI>> for LengthProvidedSlice<L, V, LI, VI> {
    proof fn round_trip_variant(object: &Vec<VI>, tail: Seq<u8>) {
        broadcast use vstd::std_specs::vec::axiom_spec_len;

        assert(vstd::std_specs::vec::spec_vec_len(object) == object@.len());
        let len = object@.len() as int;
        let li = LI::spec_from(len);
        let prefix = L::enc_variant(&li);
        let body = enc_elems::<V, VI>(object@);
        L::round_trip_variant(&li, body + tail);
        LI::length_round(len);
        li.length_deep();
        lemma_count_round::<V, VI>(object@, tail);
        let s = Self::enc_variant(object) + tail;
        assert(s =~= prefix + (body + tail));
        let n = prefix.len() as int;
        assert(L::dec_variant(s) == Ok::<_, PacketReadableError>((li, n)));
        assert(s.skip(n) =~= body + tail);
        assert(object.deep_view() =~= deep_seq(object@));
    }
}


/// An optional field travels as a boolean presence flag, then the value when
/// the flag is set.
impl<T: PacketReadable> PacketReadable for Option<T> {
    open spec fn dec(s: Seq<u8>) -> Result<(Option<T::V>, int), PacketReadableError> {
        match bool::dec(s) {
            Ok((present, n)) => if present {
                match T::dec(s.skip(n)) {
                    Ok((v, m)) => Ok((Some(v), n + m)),
                    Err(e) => Err(e),
                }
            } else {
                Ok((None, n))
            },
            Err(e) => Err(e),
        }
    }

    fn read<R: PacketRead>(read: &mut R) -> (r: Result<Self, PacketReadableError>) {
        proof {
            read.wf_bounds();
        }
        let ghost rem = remaining_of(*read);
        let ghost p0 = read.pos();
        let present = match bool::read(read) {
            Ok(b) => b,
            Err(e) => {
                return Err(e);
            },
        };
        proof {
            assert(remaining_of(*read) =~= rem.skip(read.pos() - p0));
        }
        if present {
            match T::read(read) {
                Ok(v) => Ok(Some(v)),
                Err(e) => Err(e),
            }
        } else {
            Ok(None)
        }
    }
}

impl<T: PacketWritable> PacketWritable for Option<T> {
    open spec fn enc(&self) -> Seq<u8> {
        match self {
            Some(v) => seq![1u8] + v.enc(),
            None => seq![0u8],
        }
    }

    open spec fn encodable(&self) -> bool {
        match self {
            Some(v) => v.encodable(),
            None => true,
        }
    }

    fn write<W: PacketWrite>(&self, write: &mut W) -> (r: Result<(), PacketWritableError>) {
        let ghost c0 = write.contents();
        match self {
            Some(v) => {
                let rb = write.write_byte(1);
                match rb {
                    Ok(()) => (),
                    Err(e) => {
                        proof {
                            assert(false);
                        }
                        return Err(e);
                    },
                }
                let rv = v.write(write);
                match rv {
                    Ok(()) => {
                        proof {
                            assert(write.contents() =~= c0 + self.enc());
                        }
                        Ok(())
                    },
                    Err(e) => Err(e),
                }
            },
            None => {
                let rb = write.write_byte(0);
                match rb {
                    Ok(()) => (),
                    Err(e) => {
                        proof {
                            assert(false);
                        }
                        return Err(e);
                    },
                }
                proof {
                    assert(write.contents() =~= c0 + self.enc());
                }
                Ok(())
            },
        }
    }
}

impl<T: RoundTrip> RoundTrip for Option<T> {
    proof fn round_trip(&self, tail: Seq<u8>) {
        let s = self.enc() + tail;
        match self {
            Some(v) => {
                assert(s[0] == 1u8);
                assert(s.skip(1) =~= v.enc() + tail);
                v.round_trip(tail);
                assert(self.deep_view() == Some(v.deep_view()));
            },
            None => {
                assert(s[0] == 0u8);
            },
        }
    }
}

} // verus!
