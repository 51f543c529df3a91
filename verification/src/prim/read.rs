use vstd::prelude::*;
use vstd::bytes::*;
use vstd::slice::*;
use vstd::string::*;
use vstd::utf8::*;

use std::ops::Range;

use fst::raw::Fst;

use crate::error::{fails_with, ErrorKind, FormatError};
use crate::prim::varint::{self, varint_decode};

verus! {

#[verifier::external_type_specification]
#[verifier::external_body]
#[verifier::reject_recursive_types(D)]
pub struct ExFst<D>(Fst<D>);

/// The version field of the bytes of a finite state transducer: the
/// little endian `u64` of its first eight bytes.
pub open spec fn fst_version(d: Seq<u8>) -> u64 {
    spec_u64_from_le_bytes(d.subrange(0, 8))
}

/// Where the fields at the end of a finite state transducer end: versions
/// after the second follow them with a four byte checksum.
pub open spec fn fst_end(d: Seq<u8>) -> int {
    if fst_version(d) <= 2 {
        d.len() as int
    } else {
        d.len() - 4
    }
}

/// The root address field of a finite state transducer.
pub open spec fn fst_root_field(d: Seq<u8>) -> u64 {
    spec_u64_from_le_bytes(d.subrange(fst_end(d) - 8, fst_end(d)))
}

/// The field that counts the keys of a finite state transducer.
pub open spec fn fst_count_field(d: Seq<u8>) -> u64 {
    spec_u64_from_le_bytes(d.subrange(fst_end(d) - 16, fst_end(d) - 8))
}

/// Whether `d` is long enough to hold a finite state transducer and has a
/// version that `fst` reads.
pub open spec fn fst_header_ok(d: Seq<u8>) -> bool {
    d.len() >= 36 && 1 <= fst_version(d) <= 3
}

/// Whether `fst::raw::Fst::new` accepts `d`: a readable header, and a root
/// address of `0` only for the transducer without keys, whose size is fixed.
pub open spec fn fst_accepts(d: Seq<u8>) -> bool {
    &&& fst_header_ok(d)
    &&& !(fst_root_field(d) == 0 && d.len() != (if fst_version(d) <= 2 { 32int } else { 36int }))
}

/// Calls `fst::raw::Fst::new` on `data`. Trusted, from its source: it
/// refuses fewer than 36 bytes, a version outside `1..=3`, and a root
/// address of `0` unless the bytes have the size of a transducer without
/// keys; everything else it accepts. It converts the root address and the
/// key count to a `usize` and panics where one does not fit, which is
/// excluded here. Its error displays as "FST error".
#[verifier::external_body]
fn fst_new<'b>(data: &'b [u8]) -> (r: Result<Fst<&'b [u8]>, String>)
    requires
        fst_header_ok(data@) ==> fst_root_field(data@) <= usize::MAX && fst_count_field(data@) <= usize::MAX,
    ensures
        r is Ok <==> fst_accepts(data@),
        r matches Err(s) ==> s@ == "FST error"@,
{
    match Fst::new(data) {
        Ok(f) => Ok(f),
        Err(e) => Err(e.to_string()),
    }
}

/// The text of the error that `std::str::from_utf8` returns for `bytes`,
/// which its position and length in `bytes` determine.
pub uninterp spec fn utf8_error_text(bytes: Seq<u8>) -> Seq<char>;

/// Calls `std::str::from_utf8` on `bytes`. Trusted: the call succeeds
/// exactly when the bytes are valid UTF-8, and the string returned is made
/// of those bytes. The text of its error is named, not stated.
#[verifier::external_body]
fn str_from_utf8<'b>(bytes: &'b [u8]) -> (r: Result<&'b str, String>)
    ensures
        r is Ok <==> valid_utf8(bytes@),
        r matches Ok(s) ==> s.spec_bytes() == bytes@,
        r matches Err(t) ==> t@ == utf8_error_text(bytes@),
{
    match std::str::from_utf8(bytes) {
        Ok(s) => Ok(s),
        Err(e) => Err(e.to_string()),
    }
}

/// Convert the given u64 to a usize. If the u64 is too big, then an error
/// is returned.
fn to_usize(n: u64) -> (r: Result<usize, FormatError>)
    ensures
        n <= usize::MAX ==> r == Ok::<usize, FormatError>(n as usize),
        n > usize::MAX ==> fails_with(r, ErrorKind::UsizeOverflow { n }, Seq::empty()),
{
    if n > usize::MAX as u64 {
        return Err(FormatError::from_kind(ErrorKind::UsizeOverflow { n }));
    }
    Ok(n as usize)
}

/// A cursor wraps a slice of bytes and associates it with a position into
/// that slice.
///
/// The cursor then provides convenience methods for reading from that byte
/// slice while automatically incrementing the position. In particular, a
/// cursor provides panic safe routines for deserializing structures from a
/// byte slice. That is, callers may freely provide positions and inputs
/// generated from untrusted external data and rely on the cursor to return
/// an error instead of panicking if the position or input is invalid.
///
/// If necessary, callers can move the cursor backwards to a previous
/// position.
#[derive(Clone, Copy, Debug)]
pub struct Cursor<'a> {
    bytes: &'a [u8],
    pos: usize,
}

impl<'a> Cursor<'a> {
    #[verifier::type_invariant]
    spec fn inv(self) -> bool {
        &&& self.pos <= self.bytes@.len()
        &&& self.bytes@.len() <= usize::MAX
    }

    /// All the bytes of this cursor, consumed or not.
    pub closed spec fn data(&self) -> Seq<u8> {
        self.bytes@
    }

    /// The absolute position of this cursor in its bytes.
    pub closed spec fn position(&self) -> int {
        self.pos as int
    }

    /// The bytes of this cursor from its position on.
    pub open spec fn rest(&self) -> Seq<u8> {
        self.data().subrange(self.position(), self.data().len() as int)
    }

    /// Create a new cursor for a byte slice.
    pub fn new(bytes: &'a [u8]) -> (c: Cursor<'a>)
        ensures
            c.data() == bytes@,
            c.position() == 0,
    {
        // A slice never holds more than `usize::MAX` bytes.
        let _len = bytes.len();
        Cursor { bytes, pos: 0 }
    }

    /// Return the remaining bytes in this cursor. That is, all bytes in this
    /// cursor starting from the cursor's current position.
    pub fn as_slice(&self) -> (s: &'a [u8])
        ensures
            s@ == self.rest(),
            0 <= self.position() <= self.data().len(),
    {
        proof {
            use_type_invariant(self);
        }
        slice_subrange(self.bytes, self.pos, self.bytes.len())
    }

    /// Returns the number of bytes remaining in this cursor.
    pub fn len(&self) -> (n: usize)
        ensures
            n == self.data().len() - self.position(),
            0 <= self.position() <= self.data().len(),
            self.data().len() <= usize::MAX,
    {
        proof {
            use_type_invariant(self);
        }
        self.as_slice().len()
    }

    /// Returns true if and only if this cursor has been completely consumed.
    pub fn is_empty(&self) -> (b: bool)
        ensures
            b == (self.position() == self.data().len()),
            0 <= self.position() <= self.data().len(),
    {
        self.len() == 0
    }

    /// Return the current position of this cursor.
    pub fn pos(&self) -> (p: usize)
        ensures
            p == self.position(),
            p <= self.data().len(),
            self.data().len() <= usize::MAX,
    {
        proof {
            use_type_invariant(self);
        }
        self.pos
    }

    /// Explicitly set the absolute position of this cursor.
    ///
    /// Note that this is only necessary for special cases. Namely, all of
    /// the `read` methods on a cursor will automatically increment the
    /// position for you.
    ///
    /// This returns an error if the given position is out of bounds. It will
    /// never panic. The error reports the number of unconsumed bytes.
    pub fn set_pos(&mut self, pos: usize) -> (r: Result<(), FormatError>)
        ensures
            final(self).data() == old(self).data(),
            r is Ok <==> pos <= old(self).data().len(),
            r is Ok ==> final(self).position() == pos,
            r is Err ==> final(self).position() == old(self).position() && fails_with(
                r,
                ErrorKind::PositionOutOfBounds { pos, len: (old(self).data().len() - old(self).position()) as usize },
                Seq::empty(),
            ),
    {
        if pos > self.bytes.len() {
            return Err(FormatError::from_kind(ErrorKind::PositionOutOfBounds { pos, len: self.len() }));
        }
        self.pos = pos;
        Ok(())
    }

    /// Explicitly set the absolute position of this cursor, counting
    /// backwards from the end of the underlying bytes.
    ///
    /// This returns an error if the given position is out of bounds. It will
    /// never panic.
    pub fn set_pos_rev(&mut self, rpos: usize) -> (r: Result<(), FormatError>)
        ensures
            final(self).data() == old(self).data(),
            r is Ok <==> rpos <= old(self).data().len(),
            r is Ok ==> final(self).position() == old(self).data().len() - rpos,
            r is Err ==> final(self).position() == old(self).position() && fails_with(
                r,
                ErrorKind::ReversePositionOutOfBounds { rpos, len: old(self).data().len() as usize },
                Seq::empty(),
            ),
    {
        let len = self.bytes.len();
        match len.checked_sub(rpos) {
            Some(pos) => self.set_pos(pos),
            None => Err(FormatError::from_kind(ErrorKind::ReversePositionOutOfBounds { rpos, len })),
        }
    }

    /// Increment this cursor's position by the number of bytes given.
    ///
    /// If this would set the position of the cursor beyond the end of the
    /// underlying bytes, then this returns an error.
    pub fn inc(&mut self, amount: usize) -> (r: Result<(), FormatError>)
        ensures
            final(self).data() == old(self).data(),
            r is Ok <==> old(self).position() + amount <= old(self).data().len(),
            r is Ok ==> final(self).position() == old(self).position() + amount,
            r is Err ==> final(self).position() == old(self).position() && (
                if old(self).position() + amount > usize::MAX {
                    fails_with(r, ErrorKind::IncrementOverflow { amount }, Seq::empty())
                } else {
                    fails_with(r, ErrorKind::PositionOutOfBounds {
                        pos: (old(self).position() + amount) as usize,
                        len: (old(self).data().len() - old(self).position()) as usize,
                    }, Seq::empty())
                }),
    {
        proof {
            use_type_invariant(&*self);
        }
        match self.pos().checked_add(amount) {
            Some(new) => self.set_pos(new),
            None => Err(FormatError::from_kind(ErrorKind::IncrementOverflow { amount })),
        }
    }

    /// Return a new cursor whose position is `0`, where `0` corresponds to
    /// the current position of this cursor: it holds the unconsumed bytes
    /// of this cursor.
    pub fn zero(&self) -> (c: Cursor<'a>)
        ensures
            c.data() == self.rest(),
            c.position() == 0,
    {
        proof {
            use_type_invariant(self);
        }
        Cursor { bytes: self.as_slice(), pos: 0 }
    }

    /// Return a sub-range of this cursor.
    ///
    /// The range given should be in terms of the unconsumed bytes in this
    /// cursor. The position of this cursor remains unchanged and independent
    /// of the position of the cursor returned. The returned cursor has the
    /// same absolute positions as this one: it holds the same bytes up to
    /// the end of the range, and its position is the beginning of the
    /// range.
    ///
    /// To consume a range of bytes, use `read_range`.
    ///
    /// If the given range is not valid, then this returns an error.
    pub fn range(&self, r: Range<usize>) -> (res: Result<Cursor<'a>, FormatError>)
        ensures
            res is Ok <==> r.start <= r.end && self.position() + r.end <= self.data().len(),
            res matches Ok(c) ==> c.data() == self.data().subrange(0, self.position() + r.end)
                && c.position() == self.position() + r.start,
            res is Err ==> fails_with(res, ErrorKind::InvalidCursorRange { start: r.start, end: r.end }, Seq::empty()),
    {
        let remaining = self.len();
        if r.start > r.end || r.end > remaining {
            return Err(FormatError::from_kind(ErrorKind::InvalidCursorRange { start: r.start, end: r.end }));
        }
        let end = self.pos + r.end;
        Ok(Cursor { bytes: slice_subrange(self.bytes, 0, end), pos: self.pos + r.start })
    }

    /// Like range, but advance the position of this cursor past the range
    /// returned. The cursor returned will be positioned at the beginning of
    /// the range (i.e., the position before consuming the range).
    pub fn read_range(&mut self, r: Range<usize>) -> (res: Result<Cursor<'a>, FormatError>)
        ensures
            final(self).data() == old(self).data(),
            res is Ok <==> r.start <= r.end && old(self).position() + r.end <= old(self).data().len(),
            res matches Ok(c) ==> c.data() == old(self).data().subrange(0, old(self).position() + r.end)
                && c.position() == old(self).position() + r.start
                && final(self).position() == old(self).position() + r.end,
            res is Err ==> final(self).position() == old(self).position()
                && fails_with(res, ErrorKind::InvalidCursorRange { start: r.start, end: r.end }, Seq::empty()),
    {
        let end = r.end;
        let cursor = self.range(r)?;
        self.inc(end)?;
        Ok(cursor)
    }

    /// Read a slice of bytes from this cursor corresponding to the given
    /// range, and advance the position of this cursor past that range.
    ///
    /// (This is like `read_range`, except it returns raw bytes instead of
    /// another cursor.)
    pub fn read_slice(&mut self, r: Range<usize>) -> (res: Result<&'a [u8], FormatError>)
        ensures
            final(self).data() == old(self).data(),
            res is Ok <==> r.start <= r.end && old(self).position() + r.end <= old(self).data().len(),
            res matches Ok(s) ==> s@ == old(self).data().subrange(
                old(self).position() + r.start,
                old(self).position() + r.end,
            ) && final(self).position() == old(self).position() + r.end,
            res is Err ==> final(self).position() == old(self).position()
                && fails_with(res, ErrorKind::InvalidSliceRange { start: r.start, end: r.end }, Seq::empty()),
    {
        let remaining = self.len();
        if r.start > r.end || r.end > remaining {
            return Err(FormatError::from_kind(ErrorKind::InvalidSliceRange { start: r.start, end: r.end }));
        }
        let bytes = slice_subrange(self.bytes, self.pos + r.start, self.pos + r.end);
        self.inc(r.end)?;
        Ok(bytes)
    }

    /// Read a 16-bit little endian integer.
    pub fn read_u16_le(&mut self) -> (res: Result<u16, FormatError>)
        ensures
            final(self).data() == old(self).data(),
            res is Ok <==> old(self).position() + 2 <= old(self).data().len(),
            res matches Ok(n) ==> n == spec_u16_from_le_bytes(
                old(self).data().subrange(old(self).position(), old(self).position() + 2),
            ) && final(self).position() == old(self).position() + 2,
            res is Err ==> final(self).position() == old(self).position()
                && fails_with(res, ErrorKind::InvalidSliceRange { start: 0, end: 2 }, Seq::empty()),
    {
        let bytes = self.read_slice(0..2)?;
        Ok(u16_from_le_bytes(bytes))
    }

    /// Read a 32-bit little endian integer.
    pub fn read_u32_le(&mut self) -> (res: Result<u32, FormatError>)
        ensures
            final(self).data() == old(self).data(),
            res is Ok <==> old(self).position() + 4 <= old(self).data().len(),
            res matches Ok(n) ==> n == spec_u32_from_le_bytes(
                old(self).data().subrange(old(self).position(), old(self).position() + 4),
            ) && final(self).position() == old(self).position() + 4,
            res is Err ==> final(self).position() == old(self).position()
                && fails_with(res, ErrorKind::InvalidSliceRange { start: 0, end: 4 }, Seq::empty()),
    {
        let bytes = self.read_slice(0..4)?;
        Ok(u32_from_le_bytes(bytes))
    }

    /// Read a 64-bit little endian integer.
    pub fn read_u64_le(&mut self) -> (res: Result<u64, FormatError>)
        ensures
            final(self).data() == old(self).data(),
            res is Ok <==> old(self).position() + 8 <= old(self).data().len(),
            res matches Ok(n) ==> n == spec_u64_from_le_bytes(
                old(self).data().subrange(old(self).position(), old(self).position() + 8),
            ) && final(self).position() == old(self).position() + 8,
            res is Err ==> final(self).position() == old(self).position()
                && fails_with(res, ErrorKind::InvalidSliceRange { start: 0, end: 8 }, Seq::empty()),
    {
        let bytes = self.read_slice(0..8)?;
        Ok(u64_from_le_bytes(bytes))
    }

    /// Read a 64-bit little endian integer as a usize. If the integer doesn't
    /// fit in a usize, then return an error; the eight bytes are consumed
    /// all the same.
    pub fn read_usize_le(&mut self) -> (res: Result<usize, FormatError>)
        ensures
            final(self).data() == old(self).data(),
            ({
                let n = spec_u64_from_le_bytes(
                    old(self).data().subrange(old(self).position(), old(self).position() + 8),
                );
                if old(self).position() + 8 > old(self).data().len() {
                    &&& final(self).position() == old(self).position()
                    &&& fails_with(res, ErrorKind::InvalidSliceRange { start: 0, end: 8 }, Seq::empty())
                } else {
                    &&& final(self).position() == old(self).position() + 8
                    &&& n <= usize::MAX ==> res == Ok::<usize, FormatError>(n as usize)
                    &&& n > usize::MAX ==> fails_with(res, ErrorKind::UsizeOverflow { n }, Seq::empty())
                }
            }),
    {
        let bytes = self.read_slice(0..8)?;
        to_usize(u64_from_le_bytes(bytes))
    }

    /// Read a variable length u64.
    ///
    /// The format of the integer matches Google's protocol buffer varint.
    ///
    /// See: https://developers.google.com/protocol-buffers/docs/encoding#varints
    pub fn read_varu64(&mut self) -> (res: Result<u64, FormatError>)
        ensures
            final(self).data() == old(self).data(),
            match varint_decode(old(self).rest()) {
                Ok((v, k)) => res == Ok::<u64, FormatError>(v)
                    && final(self).position() == old(self).position() + k,
                Err(kind) => fails_with(res, kind, Seq::empty())
                    && final(self).position() == old(self).position(),
            },
    {
        let (n, nread) = varint::read_u64(self.as_slice())?;
        proof {
            varint::lemma_decode_len(old(self).rest());
        }
        self.inc(nread)?;
        Ok(n)
    }

    /// Read a variable length usize; the varint is consumed even when its
    /// value does not fit in a usize.
    ///
    /// The format of the integer matches Google's protocol buffer varint.
    ///
    /// See: https://developers.google.com/protocol-buffers/docs/encoding#varints
    pub fn read_varusize(&mut self) -> (res: Result<usize, FormatError>)
        ensures
            final(self).data() == old(self).data(),
            match varint_decode(old(self).rest()) {
                Ok((v, k)) => final(self).position() == old(self).position() + k
                    && (v <= usize::MAX ==> res == Ok::<usize, FormatError>(v as usize))
                    && (v > usize::MAX ==> fails_with(res, ErrorKind::UsizeOverflow { n: v }, Seq::empty())),
                Err(kind) => fails_with(res, kind, Seq::empty())
                    && final(self).position() == old(self).position(),
            },
    {
        match self.read_varu64() {
            Ok(n) => to_usize(n),
            Err(e) => Err(e),
        }
    }

    /// Read a length prefixed byte string. The length prefix should be a
    /// varint.
    pub fn read_prefixed_bytes(&mut self) -> (res: Result<&'a [u8], FormatError>)
        ensures
            final(self).data() == old(self).data(),
            match varint_decode(old(self).rest()) {
                Ok((v, k)) => if v > usize::MAX {
                    &&& final(self).position() == old(self).position() + k
                    &&& fails_with(res, ErrorKind::UsizeOverflow { n: v }, Seq::empty())
                } else if k + v > old(self).rest().len() {
                    &&& final(self).position() == old(self).position() + k
                    &&& fails_with(res, ErrorKind::InvalidSliceRange { start: 0, end: v as usize }, Seq::empty())
                } else {
                    &&& final(self).position() == old(self).position() + k + v
                    &&& res matches Ok(s) && s@ == old(self).rest().subrange(k as int, k + v)
                },
                Err(kind) => fails_with(res, kind, Seq::empty())
                    && final(self).position() == old(self).position(),
            },
    {
        proof {
            use_type_invariant(&*self);
        }
        let ghost rest = old(self).rest();
        let ghost p = old(self).position();
        let len = self.read_varusize()?;
        proof {
            varint::lemma_decode_len(rest);
        }
        let r = self.read_slice(0..len);
        proof {
            if let Ok((v, k)) = varint_decode(rest) {
                if k + v <= rest.len() {
                    assert(old(self).data().subrange(p + k, p + k + v) =~= rest.subrange(k as int, k + v));
                }
            }
        }
        r
    }

    /// Read a length prefixed UTF-8 encoded string, where the length prefix
    /// is a varint. This returns an error if the bytes are invalid UTF-8.
    pub fn read_prefixed_str(&mut self) -> (res: Result<&'a str, FormatError>)
        ensures
            final(self).data() == old(self).data(),
            match varint_decode(old(self).rest()) {
                Ok((v, k)) => if v > usize::MAX {
                    &&& final(self).position() == old(self).position() + k
                    &&& fails_with(res, ErrorKind::UsizeOverflow { n: v }, Seq::empty())
                } else if k + v > old(self).rest().len() {
                    &&& final(self).position() == old(self).position() + k
                    &&& fails_with(res, ErrorKind::InvalidSliceRange { start: 0, end: v as usize }, Seq::empty())
                } else {
                    let bytes = old(self).rest().subrange(k as int, k + v);
                    &&& final(self).position() == old(self).position() + k + v
                    &&& valid_utf8(bytes) ==> (res matches Ok(s) && s.spec_bytes() == bytes)
                    &&& !valid_utf8(bytes) ==> (res matches Err(e) && e.error_kind() == ErrorKind::InvalidUtf8
                        && e.message_chain() == seq![utf8_error_text(bytes), "invalid UTF-8 in fixed length string"@])
                },
                Err(kind) => fails_with(res, kind, Seq::empty())
                    && final(self).position() == old(self).position(),
            },
    {
        let bytes = self.read_prefixed_bytes()?;
        match str_from_utf8(bytes) {
            Ok(s) => Ok(s),
            Err(detail) => Err(FormatError::msg(ErrorKind::InvalidUtf8, detail).context(
                "invalid UTF-8 in fixed length string".to_owned(),
            )),
        }
    }

    /// Interpret the remaining bytes in this cursor as an FST and return it,
    /// consuming them all.
    ///
    /// A root address or key count that does not fit in a `usize` is an
    /// error.
    pub fn read_fst(&mut self) -> (res: Result<Fst<&'a [u8]>, FormatError>)
        ensures
            final(self).data() == old(self).data(),
            ({
                let d = old(self).rest();
                let context = seq!["could not read FST"@];
                if fst_header_ok(d) && fst_root_field(d) > usize::MAX {
                    fails_with(res, ErrorKind::UsizeOverflow { n: fst_root_field(d) }, context)
                } else if fst_header_ok(d) && fst_count_field(d) > usize::MAX {
                    fails_with(res, ErrorKind::UsizeOverflow { n: fst_count_field(d) }, context)
                } else if fst_accepts(d) {
                    res is Ok
                } else {
                    fails_with(res, ErrorKind::InvalidFst, context)
                }
            }),
            res is Ok ==> final(self).position() == old(self).data().len(),
            res is Err ==> final(self).position() == old(self).position(),
    {
        let bytes = self.as_slice();
        let n = bytes.len();
        if n >= 36 {
            let version = u64_from_le_bytes(slice_subrange(bytes, 0, 8));
            if 1 <= version && version <= 3 {
                let end = if version <= 2 { n } else { n - 4 };
                let root = u64_from_le_bytes(slice_subrange(bytes, end - 8, end));
                let count = u64_from_le_bytes(slice_subrange(bytes, end - 16, end - 8));
                assert(version == fst_version(bytes@));
                assert(end == fst_end(bytes@));
                assert(root == fst_root_field(bytes@));
                assert(count == fst_count_field(bytes@));
                if root > usize::MAX as u64 {
                    let e = FormatError::from_kind(ErrorKind::UsizeOverflow { n: root }).context(
                        "could not read FST".to_owned(),
                    );
                    assert(e.message_chain() =~= seq![(ErrorKind::UsizeOverflow { n: root }).text()] + seq![
                        "could not read FST"@,
                    ]);
                    return Err(e);
                }
                if count > usize::MAX as u64 {
                    let e = FormatError::from_kind(ErrorKind::UsizeOverflow { n: count }).context(
                        "could not read FST".to_owned(),
                    );
                    assert(e.message_chain() =~= seq![(ErrorKind::UsizeOverflow { n: count }).text()] + seq![
                        "could not read FST"@,
                    ]);
                    return Err(e);
                }
            }
        }
        proof {
            reveal_strlit("FST error");
        }
        let fst = match fst_new(bytes) {
            Ok(f) => f,
            Err(detail) => {
                let e = FormatError::msg(ErrorKind::InvalidFst, detail).context("could not read FST".to_owned());
                assert(e.message_chain() =~= seq![ErrorKind::InvalidFst.text()] + seq!["could not read FST"@]);
                return Err(e);
            },
        };
        self.inc(n)?;
        Ok(fst)
    }
}

} // verus!
