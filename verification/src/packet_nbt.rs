//! The NBT document codec's byte-length pre-scan.
//!
//! NBT is a self-describing, tag-prefixed recursive binary format.  To hand
//! an embedded document to an external deserializer, the codec must find the
//! exact byte span of one document without building a tree: scan the root tag
//! byte, skip the two-byte name length and the name, then skip the value by
//! tag-specific rules, roll the cursor back, and re-read exactly that many
//! bytes.  A list's or array's non-positive count means an empty body, kept
//! from the wire format's practice; an unknown tag fails the decode.
//!
//! The codec hands the document out as its exact byte span and takes one
//! back as bytes: an NBT tree's rendering depends on a hash map's iteration
//! order, so no contract could name it, and the span is all the wire cares
//! about.  Turning spans into trees is the application layer's.
use crate::numbers::be_val;
use crate::packet::{
    remaining_of, PacketRead, PacketReadable, PacketReadableError, PacketVariantReadable,
    PacketVariantWritable, PacketWritableError, PacketWrite,
};
use vstd::prelude::*;

verus! {

/// The signed 32-bit count at the head of `s`.
pub open spec fn nbt_i32(s: Seq<u8>) -> int {
    ((be_val(s.take(4)) as u32) as i32) as int
}

/// The byte length of one NBT value of type `tag` at the head of `s`.
pub open spec fn nbt_value_len(tag: u8, s: Seq<u8>) -> Result<nat, PacketReadableError>
    decreases s.len(), 3int,
{
    if tag == 0 {
        Ok(0)
    } else if tag == 1 {
        if s.len() >= 1 {
            Ok(1)
        } else {
            Err(PacketReadableError::BytesExceeded)
        }
    } else if tag == 2 {
        if s.len() >= 2 {
            Ok(2)
        } else {
            Err(PacketReadableError::BytesExceeded)
        }
    } else if tag == 3 || tag == 5 {
        if s.len() >= 4 {
            Ok(4)
        } else {
            Err(PacketReadableError::BytesExceeded)
        }
    } else if tag == 4 || tag == 6 {
        if s.len() >= 8 {
            Ok(8)
        } else {
            Err(PacketReadableError::BytesExceeded)
        }
    } else if tag == 7 || tag == 11 || tag == 12 {
        let scale: int = if tag == 7 {
            1
        } else if tag == 11 {
            4
        } else {
            8
        };
        if s.len() < 4 {
            Err(PacketReadableError::BytesExceeded)
        } else {
            let n = nbt_i32(s);
            if n <= 0 {
                Ok(4)
            } else if s.len() >= 4 + n * scale {
                Ok((4 + n * scale) as nat)
            } else {
                Err(PacketReadableError::BytesExceeded)
            }
        }
    } else if tag == 8 {
        if s.len() < 2 {
            Err(PacketReadableError::BytesExceeded)
        } else {
            let n = be_val(s.take(2));
            if s.len() >= 2 + n {
                Ok((2 + n) as nat)
            } else {
                Err(PacketReadableError::BytesExceeded)
            }
        }
    } else if tag == 9 {
        if s.len() < 5 {
            Err(PacketReadableError::BytesExceeded)
        } else {
            let etag = s[0];
            let c = nbt_i32(s.skip(1));
            if c <= 0 {
                Ok(5)
            } else {
                match nbt_list_len(etag, c as nat, s.skip(5)) {
                    Ok(m) => Ok((5 + m) as nat),
                    Err(e) => Err(e),
                }
            }
        }
    } else if tag == 10 {
        nbt_compound_len(s)
    } else {
        Err(PacketReadableError::BadNbtTag)
    }
}

/// The byte length of `count` back-to-back NBT values of type `tag`.
pub open spec fn nbt_list_len(tag: u8, count: nat, s: Seq<u8>) -> Result<nat, PacketReadableError>
    decreases s.len(), count + 4int,
{
    if count == 0 {
        Ok(0)
    } else {
        match nbt_value_len(tag, s) {
            Ok(n) => if n > s.len() {
                Err(PacketReadableError::BytesExceeded)
            } else {
                match nbt_list_len(tag, (count - 1) as nat, s.skip(n as int)) {
                    Ok(m) => Ok((n + m) as nat),
                    Err(e) => Err(e),
                }
            },
            Err(e) => Err(e),
        }
    }
}

/// The byte length of a compound body: `(tag, name, value)` entries up to and
/// including the terminating zero tag.
pub open spec fn nbt_compound_len(s: Seq<u8>) -> Result<nat, PacketReadableError>
    decreases s.len(), 0int,
{
    if s.len() < 1 {
        Err(PacketReadableError::BytesExceeded)
    } else if s[0] == 0 {
        Ok(1)
    } else if s.len() < 3 {
        Err(PacketReadableError::BytesExceeded)
    } else {
        let nl = be_val(s.subrange(1, 3));
        if s.len() < 3 + nl {
            Err(PacketReadableError::BytesExceeded)
        } else {
            match nbt_value_len(s[0], s.skip(3 + nl as int)) {
                Ok(vn) => if 3 + nl + vn > s.len() {
                    Err(PacketReadableError::BytesExceeded)
                } else {
                    match nbt_compound_len(s.skip(3 + nl as int + vn as int)) {
                        Ok(m) => Ok((3 + nl + vn + m) as nat),
                        Err(e) => Err(e),
                    }
                },
                Err(e) => Err(e),
            }
        }
    }
}

/// The byte length of one whole document at the head of `s`: the root tag
/// byte, and, when it is not the empty document's zero tag, the two-byte name
/// length, the name, and the root value.
pub open spec fn nbt_doc_len(s: Seq<u8>) -> Result<nat, PacketReadableError> {
    if s.len() < 1 {
        Err(PacketReadableError::BytesExceeded)
    } else if s[0] == 0 {
        Ok(1)
    } else if s.len() < 3 {
        Err(PacketReadableError::BytesExceeded)
    } else {
        let nl = be_val(s.subrange(1, 3));
        if s.len() < 3 + nl {
            Err(PacketReadableError::BytesExceeded)
        } else {
            match nbt_value_len(s[0], s.skip(3 + nl as int)) {
                Ok(vn) => Ok((3 + nl + vn) as nat),
                Err(e) => Err(e),
            }
        }
    }
}


/// Consume exactly `n` bytes, or fail without consuming when fewer remain.
pub fn skip_bytes<R: PacketRead>(read: &mut R, n: u64) -> (r: Result<(), PacketReadableError>)
    requires
        old(read).wf(),
    ensures
        final(read).wf(),
        final(read).data() == old(read).data(),
        match r {
            Ok(()) => old(read).pos() + n <= old(read).data().len() && final(read).pos() == old(
                read,
            ).pos() + n,
            Err(e) => e == PacketReadableError::BytesExceeded && old(read).pos() + n > old(
                read,
            ).data().len() && final(read).pos() == old(read).pos(),
        },
{
    proof {
        read.wf_bounds();
    }
    let avail = read.available();
    if n > avail as u64 {
        return Err(PacketReadableError::BytesExceeded);
    }
    match read.take_vec(n as usize) {
        Ok(_) => Ok(()),
        Err(e) => {
            proof {
                assert(false);
            }
            Err(e)
        },
    }
}

/// The executable 32-bit read and the pre-scan's count agree.
proof fn lemma_nbt_i32_agrees(s: Seq<u8>, n: i32)
    requires
        i32::dec(s) == Ok::<(i32, int), PacketReadableError>((n, 4)),
    ensures
        s.len() >= 4,
        nbt_i32(s) == n as int,
{
}

/// One `(tag, name, value)` entry folds into a compound body's length.
proof fn lemma_compound_step(s: Seq<u8>, nl: nat, vn: nat)
    requires
        s.len() >= 3,
        s[0] != 0,
        be_val(s.subrange(1, 3)) == nl,
        3 + nl <= s.len(),
        nbt_value_len(s[0], s.skip(3 + nl as int)) == Ok::<nat, PacketReadableError>(vn),
        3 + nl + vn <= s.len(),
    ensures
        match nbt_compound_len(s.skip(3 + nl as int + vn as int)) {
            Ok(m) => nbt_compound_len(s) == Ok::<nat, PacketReadableError>(
                (3 + nl + vn + m) as nat,
            ),
            Err(e) => nbt_compound_len(s) == Err::<nat, _>(e),
        },
{
}

/// One skipped value folds into a list body's length.
proof fn lemma_list_step(tag: u8, count: nat, s: Seq<u8>, n: nat)
    requires
        count >= 1,
        nbt_value_len(tag, s) == Ok::<nat, PacketReadableError>(n),
        n <= s.len(),
    ensures
        match nbt_list_len(tag, (count - 1) as nat, s.skip(n as int)) {
            Ok(m) => nbt_list_len(tag, count, s) == Ok::<nat, PacketReadableError>((n + m) as nat),
            Err(e) => nbt_list_len(tag, count, s) == Err::<nat, _>(e),
        },
{
}

/// Skip one NBT value of type `tag`, leaving the cursor right past it.
pub fn skip_value<R: PacketRead>(tag: u8, read: &mut R) -> (r: Result<(), PacketReadableError>)
    requires
        old(read).wf(),
    ensures
        final(read).wf(),
        final(read).data() == old(read).data(),
        old(read).pos() <= final(read).pos() <= old(read).data().len(),
        match r {
            Ok(()) => nbt_value_len(tag, remaining_of(*old(read))) == Ok::<
                nat,
                PacketReadableError,
            >((final(read).pos() - old(read).pos()) as nat),
            Err(e) => nbt_value_len(tag, remaining_of(*old(read))) == Err::<nat, _>(e),
        },
    decreases old(read).data().len() - old(read).pos(), 3int,
{
    proof {
        read.wf_bounds();
    }
    let ghost rem = remaining_of(*read);
    let ghost p0 = read.pos();
    if tag == 0 {
        Ok(())
    } else if tag == 1 {
        skip_bytes(read, 1)
    } else if tag == 2 {
        skip_bytes(read, 2)
    } else if tag == 3 || tag == 5 {
        skip_bytes(read, 4)
    } else if tag == 4 || tag == 6 {
        skip_bytes(read, 8)
    } else if tag == 7 || tag == 11 || tag == 12 {
        let scale: u64 = if tag == 7 {
            1
        } else if tag == 11 {
            4
        } else {
            8
        };
        let n = match i32::read(read) {
            Ok(n) => n,
            Err(e) => {
                return Err(e);
            },
        };
        proof {
            lemma_nbt_i32_agrees(rem, n);
        }
        if n <= 0 {
            return Ok(());
        }
        skip_bytes(read, (n as u64) * scale)
    } else if tag == 8 {
        let n = match u16::read(read) {
            Ok(n) => n,
            Err(e) => {
                return Err(e);
            },
        };
        proof {
            crate::numbers::lemma_be_val_bound(rem.take(2));
            crate::numbers::lemma_pow256_val_2();
        }
        skip_bytes(read, n as u64)
    } else if tag == 9 {
        let etag = match u8::read(read) {
            Ok(b) => b,
            Err(e) => {
                return Err(e);
            },
        };
        let ghost rem1 = remaining_of(*read);
        proof {
            assert(rem1 =~= rem.skip(1));
        }
        let c = match i32::read(read) {
            Ok(c) => c,
            Err(e) => {
                return Err(e);
            },
        };
        proof {
            lemma_nbt_i32_agrees(rem1, c);
            assert(remaining_of(*read) =~= rem.skip(5));
        }
        if c <= 0 {
            return Ok(());
        }
        skip_tag(etag, c as u32, read)
    } else if tag == 10 {
        skip_compound(read)
    } else {
        Err(PacketReadableError::BadNbtTag)
    }
}

/// Skip `count` back-to-back NBT values of type `tag`.
#[verifier::loop_isolation(false)]
pub fn skip_tag<R: PacketRead>(tag: u8, count: u32, read: &mut R) -> (r: Result<
    (),
    PacketReadableError,
>)
    requires
        old(read).wf(),
    ensures
        final(read).wf(),
        final(read).data() == old(read).data(),
        old(read).pos() <= final(read).pos() <= old(read).data().len(),
        match r {
            Ok(()) => nbt_list_len(tag, count as nat, remaining_of(*old(read))) == Ok::<
                nat,
                PacketReadableError,
            >((final(read).pos() - old(read).pos()) as nat),
            Err(e) => nbt_list_len(tag, count as nat, remaining_of(*old(read))) == Err::<nat, _>(
                e,
            ),
        },
    decreases old(read).data().len() - old(read).pos(), count + 4int,
{
    proof {
        read.wf_bounds();
    }
    let ghost d0 = read.data();
    let ghost p0 = read.pos();
    let ghost rem = remaining_of(*read);
    let mut i: u32 = 0;
    while i < count
        invariant
            read.wf(),
            read.data() == d0,
            p0 <= read.pos() <= d0.len(),
            0 <= i <= count,
            match nbt_list_len(tag, (count - i) as nat, remaining_of(*read)) {
                Ok(m) => nbt_list_len(tag, count as nat, rem) == Ok::<nat, PacketReadableError>(
                    ((read.pos() - p0) + m) as nat,
                ),
                Err(e) => nbt_list_len(tag, count as nat, rem) == Err::<nat, _>(e),
            },
        decreases count - i,
    {
        let ghost rem_cur = remaining_of(*read);
        let ghost p_cur = read.pos();
        match skip_value(tag, read) {
            Ok(()) => (),
            Err(e) => {
                return Err(e);
            },
        }
        i = i + 1;
        proof {
            let n = read.pos() - p_cur;
            assert(remaining_of(*read) =~= rem_cur.skip(n));
            lemma_list_step(tag, (count - (i - 1)) as nat, rem_cur, n as nat);
        }
    }
    Ok(())
}

/// Skip a compound body: `(tag, name, value)` entries up to and including the
/// terminating zero tag.
#[verifier::loop_isolation(false)]
pub fn skip_compound<R: PacketRead>(read: &mut R) -> (r: Result<(), PacketReadableError>)
    requires
        old(read).wf(),
    ensures
        final(read).wf(),
        final(read).data() == old(read).data(),
        old(read).pos() <= final(read).pos() <= old(read).data().len(),
        match r {
            Ok(()) => nbt_compound_len(remaining_of(*old(read))) == Ok::<
                nat,
                PacketReadableError,
            >((final(read).pos() - old(read).pos()) as nat),
            Err(e) => nbt_compound_len(remaining_of(*old(read))) == Err::<nat, _>(e),
        },
    decreases old(read).data().len() - old(read).pos(), 0int,
{
    proof {
        read.wf_bounds();
    }
    let ghost d0 = read.data();
    let ghost p0 = read.pos();
    let ghost rem = remaining_of(*read);
    loop
        invariant
            read.wf(),
            read.data() == d0,
            p0 <= read.pos() <= d0.len(),
            match nbt_compound_len(remaining_of(*read)) {
                Ok(m) => nbt_compound_len(rem) == Ok::<nat, PacketReadableError>(
                    ((read.pos() - p0) + m) as nat,
                ),
                Err(e) => nbt_compound_len(rem) == Err::<nat, _>(e),
            },
        decreases d0.len() - read.pos(),
    {
        let ghost rem_cur = remaining_of(*read);
        let ghost p_cur = read.pos();
        let tag = match u8::read(read) {
            Ok(b) => b,
            Err(e) => {
                return Err(e);
            },
        };
        proof {
            assert(rem_cur[0] == tag);
        }
        if tag == 0 {
            return Ok(());
        }
        let ghost rem1 = remaining_of(*read);
        proof {
            assert(rem1 =~= rem_cur.skip(1));
        }
        let nl = match u16::read(read) {
            Ok(n) => n,
            Err(e) => {
                return Err(e);
            },
        };
        proof {
            crate::numbers::lemma_be_val_bound(rem1.take(2));
            crate::numbers::lemma_pow256_val_2();
            assert(rem1.take(2) =~= rem_cur.subrange(1, 3));
            assert(remaining_of(*read) =~= rem_cur.skip(3));
        }
        match skip_bytes(read, nl as u64) {
            Ok(()) => (),
            Err(e) => {
                return Err(e);
            },
        }
        proof {
            assert(remaining_of(*read) =~= rem_cur.skip(3 + nl as int));
        }
        let ghost p_val = read.pos();
        match skip_value(tag, read) {
            Ok(()) => (),
            Err(e) => {
                return Err(e);
            },
        }
        proof {
            let vn = read.pos() - p_val;
            assert(remaining_of(*read) =~= rem_cur.skip(3 + nl as int + vn));
            lemma_compound_step(rem_cur, nl as nat, vn as nat);
        }
    }
}

/// Determine one embedded document's byte length without materialising it:
/// scan forward over the document, then roll the cursor back to where it
/// stood.
pub fn read_nbt_length<R: PacketRead>(read: &mut R) -> (r: Result<usize, PacketReadableError>)
    requires
        old(read).wf(),
    ensures
        final(read).wf(),
        final(read).data() == old(read).data(),
        match r {
            Ok(n) => nbt_doc_len(remaining_of(*old(read))) == Ok::<nat, PacketReadableError>(
                n as nat,
            ) && final(read).pos() == old(read).pos(),
            Err(e) => nbt_doc_len(remaining_of(*old(read))) == Err::<nat, _>(e) && old(read).pos()
                <= final(read).pos() <= old(read).data().len(),
        },
{
    proof {
        read.wf_bounds();
    }
    let ghost d0 = read.data();
    let ghost p0 = read.pos();
    let ghost rem = remaining_of(*read);
    let avail0 = read.available();
    let tag = match u8::read(read) {
        Ok(b) => b,
        Err(e) => {
            return Err(e);
        },
    };
    proof {
        assert(rem[0] == tag);
    }
    if tag != 0 {
        let ghost rem1 = remaining_of(*read);
        proof {
            assert(rem1 =~= rem.skip(1));
        }
        let nl = match u16::read(read) {
            Ok(n) => n,
            Err(e) => {
                return Err(e);
            },
        };
        proof {
            crate::numbers::lemma_be_val_bound(rem1.take(2));
            crate::numbers::lemma_pow256_val_2();
            assert(rem1.take(2) =~= rem.subrange(1, 3));
            assert(remaining_of(*read) =~= rem.skip(3));
        }
        match skip_bytes(read, nl as u64) {
            Ok(()) => (),
            Err(e) => {
                return Err(e);
            },
        }
        proof {
            assert(remaining_of(*read) =~= rem.skip(3 + nl as int));
        }
        match skip_value(tag, read) {
            Ok(()) => (),
            Err(e) => {
                return Err(e);
            },
        }
    }
    let avail1 = read.available();
    let total = avail0 - avail1;
    match read.rollback(total) {
        Ok(()) => Ok(total),
        Err(e) => {
            proof {
                assert(false);
            }
            Err(e)
        },
    }
}

/// Strategy: an embedded NBT document, handed on as its exact byte span.
pub struct ProtocolNbt;

impl PacketVariantReadable<Vec<u8>> for ProtocolNbt {
    open spec fn dec_variant(s: Seq<u8>) -> Result<(Seq<u8>, int), PacketReadableError> {
        match nbt_doc_len(s) {
            Ok(n) => Ok((s.take(n as int), n as int)),
            Err(e) => Err(e),
        }
    }

    fn read_variant<R: PacketRead>(read: &mut R) -> (r: Result<Vec<u8>, PacketReadableError>) {
        proof {
            read.wf_bounds();
        }
        let ghost rem = remaining_of(*read);
        let length = match read_nbt_length(read) {
            Ok(n) => n,
            Err(e) => {
                return Err(e);
            },
        };
        match read.take_vec(length) {
            Ok(v) => {
                proof {
                    assert(v@ =~= rem.take(length as int));
                    assert(v.deep_view() =~= v@);
                }
                Ok(v)
            },
            Err(e) => {
                proof {
                    lemma_nbt_doc_len_bounded(rem);
                }
                Err(e)
            },
        }
    }
}

/// A document's pre-scanned length never runs past the bytes scanned.
pub proof fn lemma_nbt_doc_len_bounded(s: Seq<u8>)
    ensures
        nbt_doc_len(s) matches Ok(n) ==> n <= s.len(),
{
    if nbt_doc_len(s) is Ok && s.len() >= 3 && s[0] != 0 {
        let nl = be_val(s.subrange(1, 3));
        lemma_nbt_value_len_bounded(s[0], s.skip(3 + nl as int));
    }
}

/// A value's pre-scanned length never runs past the bytes scanned.
pub proof fn lemma_nbt_value_len_bounded(tag: u8, s: Seq<u8>)
    ensures
        nbt_value_len(tag, s) matches Ok(n) ==> n <= s.len(),
    decreases s.len(), 3int,
{
    if tag == 9 && s.len() >= 5 {
        let c = nbt_i32(s.skip(1));
        if c > 0 {
            lemma_nbt_list_len_bounded(s[0], c as nat, s.skip(5));
        }
    }
    if tag == 10 {
        lemma_nbt_compound_len_bounded(s);
    }
}

/// A list body's pre-scanned length never runs past the bytes scanned.
pub proof fn lemma_nbt_list_len_bounded(tag: u8, count: nat, s: Seq<u8>)
    ensures
        nbt_list_len(tag, count, s) matches Ok(n) ==> n <= s.len(),
    decreases s.len(), count + 4int,
{
    if count > 0 {
        lemma_nbt_value_len_bounded(tag, s);
        match nbt_value_len(tag, s) {
            Ok(n) => {
                if n <= s.len() {
                    lemma_nbt_list_len_bounded(tag, (count - 1) as nat, s.skip(n as int));
                }
            },
            Err(_) => (),
        }
    }
}

/// A compound body's pre-scanned length never runs past the bytes scanned.
pub proof fn lemma_nbt_compound_len_bounded(s: Seq<u8>)
    ensures
        nbt_compound_len(s) matches Ok(n) ==> n <= s.len(),
    decreases s.len(), 0int,
{
    if s.len() >= 3 && s[0] != 0 {
        let nl = be_val(s.subrange(1, 3));
        if 3 + nl <= s.len() {
            lemma_nbt_value_len_bounded(s[0], s.skip(3 + nl as int));
            match nbt_value_len(s[0], s.skip(3 + nl as int)) {
                Ok(vn) => {
                    if 3 + nl + vn <= s.len() {
                        lemma_nbt_compound_len_bounded(s.skip(3 + nl as int + vn as int));
                    }
                },
                Err(_) => (),
            }
        }
    }
}

impl PacketVariantWritable<Vec<u8>> for ProtocolNbt {
    open spec fn enc_variant(object: &Vec<u8>) -> Seq<u8> {
        object@
    }

    open spec fn encodable_variant(object: &Vec<u8>) -> bool {
        true
    }

    fn write_variant<W: PacketWrite>(object: &Vec<u8>, write: &mut W) -> (r: Result<
        (),
        PacketWritableError,
    >) {
        write.write_bytes(object.as_slice())
    }
}


/// A value's pre-scanned length reads only the span it reports: whatever
/// follows that span, the scan of the span alone gives the same length.
pub proof fn lemma_nbt_value_stable(tag: u8, s: Seq<u8>, t: Seq<u8>, n: nat)
    requires
        nbt_value_len(tag, s) == Ok::<nat, PacketReadableError>(n),
    ensures
        nbt_value_len(tag, s.take(n as int) + t) == Ok::<nat, PacketReadableError>(n),
    decreases s.len(), 3int,
{
    lemma_nbt_value_len_bounded(tag, s);
    let s2 = s.take(n as int) + t;
    assert(s2.len() == n + t.len());
    if tag == 0 {
    } else if tag == 1 || tag == 2 || tag == 3 || tag == 4 || tag == 5 || tag == 6 {
    } else if tag == 7 || tag == 11 || tag == 12 {
        assert(s2.take(4) =~= s.take(4));
        assert(s2.take(4).take(4) =~= s.take(4));
        lemma_nbt_i32_take(s, s2);
    } else if tag == 8 {
        assert(s2.take(2) =~= s.take(2));
    } else if tag == 9 {
        assert(s2[0] == s[0]);
        assert(s2.skip(1).take(4) =~= s.skip(1).take(4));
        lemma_nbt_i32_take(s.skip(1), s2.skip(1));
        let c = nbt_i32(s.skip(1));
        if c > 0 {
            let m = (n - 5) as nat;
            assert(s2.skip(5) =~= s.skip(5).take(m as int) + t);
            lemma_nbt_list_stable(s[0], c as nat, s.skip(5), t, m);
        }
    } else if tag == 10 {
        lemma_nbt_compound_stable(s, t, n);
    }
}

/// Two byte strings agreeing on their first four bytes carry the same count.
proof fn lemma_nbt_i32_take(a: Seq<u8>, b: Seq<u8>)
    requires
        a.take(4) =~= b.take(4),
    ensures
        nbt_i32(a) == nbt_i32(b),
{
    assert(a.take(4) == b.take(4));
}

/// A list body's pre-scanned length reads only the span it reports.
pub proof fn lemma_nbt_list_stable(tag: u8, count: nat, s: Seq<u8>, t: Seq<u8>, n: nat)
    requires
        nbt_list_len(tag, count, s) == Ok::<nat, PacketReadableError>(n),
    ensures
        nbt_list_len(tag, count, s.take(n as int) + t) == Ok::<nat, PacketReadableError>(n),
    decreases s.len(), count + 4int,
{
    let s2 = s.take(n as int) + t;
    if count == 0 {
    } else {
        lemma_nbt_list_len_bounded(tag, count, s);
        let k = nbt_value_len(tag, s)->Ok_0;
        lemma_nbt_value_len_bounded(tag, s);
        let m = (n - k) as nat;
        let t2 = s.skip(k as int).take(m as int) + t;
        lemma_nbt_value_stable(tag, s, t2, k);
        assert(s2 =~= s.take(k as int) + t2);
        lemma_nbt_list_stable(tag, (count - 1) as nat, s.skip(k as int), t, m);
        assert(s2.skip(k as int) =~= s.skip(k as int).take(m as int) + t);
    }
}

/// A compound body's pre-scanned length reads only the span it reports.
pub proof fn lemma_nbt_compound_stable(s: Seq<u8>, t: Seq<u8>, n: nat)
    requires
        nbt_compound_len(s) == Ok::<nat, PacketReadableError>(n),
    ensures
        nbt_compound_len(s.take(n as int) + t) == Ok::<nat, PacketReadableError>(n),
    decreases s.len(), 0int,
{
    let s2 = s.take(n as int) + t;
    if s[0] == 0 {
        assert(n == 1);
        assert(s2[0] == s[0]);
    } else {
        lemma_nbt_compound_len_bounded(s);
        assert(s2[0] == s[0]);
        let nl = be_val(s.subrange(1, 3));
        assert(s2.subrange(1, 3) =~= s.subrange(1, 3));
        let vn = nbt_value_len(s[0], s.skip(3 + nl as int))->Ok_0;
        lemma_nbt_value_len_bounded(s[0], s.skip(3 + nl as int));
        let m = (n - 3 - nl - vn) as nat;
        let t2 = s.skip(3 + nl as int + vn as int).take(m as int) + t;
        lemma_nbt_value_stable(s[0], s.skip(3 + nl as int), t2, vn);
        assert(s2.skip(3 + nl as int) =~= s.skip(3 + nl as int).take(vn as int) + t2);
        lemma_nbt_compound_stable(s.skip(3 + nl as int + vn as int), t, m);
        assert(s2.skip(3 + nl as int + vn as int) =~= s.skip(3 + nl as int + vn as int).take(
            m as int,
        ) + t);
    }
}

/// The pre-scan is insensitive to what follows the document: a complete
/// document followed by arbitrary trailing bytes scans to exactly its own
/// span, so decoding an embedded document consumes the document and nothing
/// after it.
pub proof fn lemma_nbt_span_independent(doc: Seq<u8>, trailing: Seq<u8>)
    requires
        nbt_doc_len(doc) == Ok::<nat, PacketReadableError>(doc.len()),
    ensures
        nbt_doc_len(doc + trailing) == Ok::<nat, PacketReadableError>(doc.len()),
{
    let s2 = doc + trailing;
    assert(s2[0] == doc[0]);
    if doc[0] == 0 {
    } else {
        let nl = be_val(doc.subrange(1, 3));
        assert(s2.subrange(1, 3) =~= doc.subrange(1, 3));
        let vn = nbt_value_len(doc[0], doc.skip(3 + nl as int))->Ok_0;
        lemma_nbt_value_len_bounded(doc[0], doc.skip(3 + nl as int));
        assert(vn == doc.len() - 3 - nl);
        lemma_nbt_value_stable(doc[0], doc.skip(3 + nl as int), trailing, vn);
        assert(doc.skip(3 + nl as int).take(vn as int) =~= doc.skip(3 + nl as int));
        assert(s2.skip(3 + nl as int) =~= doc.skip(3 + nl as int) + trailing);
    }
}

} // verus!
