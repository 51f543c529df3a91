use vstd::prelude::*;
use vstd::bytes::*;
use vstd::string::*;

use crate::error::{fails_with, ErrorKind, FormatContext, FormatError};
use crate::prim::varint::{self, varint_encode};

verus! {

/// Wraps a byte buffer and records the current position in it.
///
/// The position recorded always corresponds to the position that the next
/// byte would be written to. It starts at `0` whatever the buffer held when
/// the cursor was created, and grows by the number of bytes written through
/// the cursor. Writing fails, leaving the position unchanged, when the new
/// position would not fit in a `usize`.
pub struct Cursor {
    wtr: Vec<u8>,
    pos: usize,
}

impl Cursor {
    /// Everything the underlying buffer holds.
    pub closed spec fn buffer(&self) -> Seq<u8> {
        self.wtr@
    }

    /// The position at which the next byte will be written.
    pub closed spec fn position(&self) -> usize {
        self.pos
    }

    /// Create a new cursor for the given buffer.
    pub fn new(wtr: Vec<u8>) -> (c: Cursor)
        ensures
            c.buffer() == wtr@,
            c.position() == 0,
    {
        Cursor { wtr, pos: 0 }
    }

    /// Return the current position of this writer.
    pub fn pos(&self) -> (p: usize)
        ensures
            p == self.position(),
    {
        self.pos
    }

    /// Unwrap the cursor and return the inner buffer.
    pub fn into_inner(self) -> (w: Vec<u8>)
        ensures
            w@ == self.buffer(),
    {
        self.wtr
    }

    /// Return a reference to the inner buffer.
    pub fn get_ref(&self) -> (w: &Vec<u8>)
        ensures
            w@ == self.buffer(),
    {
        &self.wtr
    }

    /// Return a mutable reference to the inner buffer.
    ///
    /// Note that care must be taken when mutating the inner buffer since it
    /// could cause the position of this cursor to become incorrect.
    pub fn get_mut(&mut self) -> (w: &mut Vec<u8>)
        ensures
            (*w)@ == old(self).buffer(),
            final(self).buffer() == (*final(w))@,
            final(self).position() == old(self).position(),
    {
        &mut self.wtr
    }

    /// Append `bytes` to the buffer and advance the position past them.
    ///
    /// The bytes always reach the buffer; if the new position would overflow
    /// a `usize`, then the position stays where it was and an error is
    /// returned.
    pub fn write_all(&mut self, bytes: &[u8]) -> (r: Result<(), FormatError>)
        ensures
            final(self).buffer() == old(self).buffer() + bytes@,
            r is Ok <==> old(self).position() + bytes@.len() <= usize::MAX,
            r is Ok ==> final(self).position() == old(self).position() + bytes@.len(),
            r is Err ==> final(self).position() == old(self).position() && fails_with(
                r,
                ErrorKind::PositionOverflow { pos: old(self).position(), amount: bytes@.len() as usize },
                Seq::empty(),
            ),
    {
        let ghost old_buf = self.wtr@;
        let mut i: usize = 0;
        while i < bytes.len()
            invariant
                i <= bytes@.len(),
                self.wtr@ == old_buf + bytes@.take(i as int),
                self.pos == old(self).pos,
            decreases bytes.len() - i,
        {
            self.wtr.push(bytes[i]);
            proof {
                assert(bytes@.take(i + 1) =~= bytes@.take(i as int).push(bytes@[i as int]));
            }
            i = i + 1;
        }
        assert(bytes@.take(i as int) =~= bytes@);
        match self.pos.checked_add(bytes.len()) {
            None => Err(FormatError::from_kind(ErrorKind::PositionOverflow { pos: self.pos, amount: bytes.len() })),
            Some(new) => {
                self.pos = new;
                Ok(())
            },
        }
    }

    /// Write a 32-bit little endian integer.
    pub fn write_u32_le(&mut self, n: u32) -> (r: Result<(), FormatError>)
        ensures
            final(self).buffer() == old(self).buffer() + spec_u32_to_le_bytes(n),
            r is Ok <==> old(self).position() + 4 <= usize::MAX,
            r is Ok ==> final(self).position() == old(self).position() + 4,
            r is Err ==> final(self).position() == old(self).position() && fails_with(
                r,
                ErrorKind::PositionOverflow { pos: old(self).position(), amount: 4 },
                seq!["failed to write a u32LE"@],
            ),
    {
        let bytes = u32_to_le_bytes(n);
        self.write_all(bytes.as_slice()).context("failed to write a u32LE".to_owned())
    }

    /// Write a 64-bit little endian integer.
    pub fn write_u64_le(&mut self, n: u64) -> (r: Result<(), FormatError>)
        ensures
            final(self).buffer() == old(self).buffer() + spec_u64_to_le_bytes(n),
            r is Ok <==> old(self).position() + 8 <= usize::MAX,
            r is Ok ==> final(self).position() == old(self).position() + 8,
            r is Err ==> final(self).position() == old(self).position() && fails_with(
                r,
                ErrorKind::PositionOverflow { pos: old(self).position(), amount: 8 },
                seq!["failed to write a u64LE"@],
            ),
    {
        let bytes = u64_to_le_bytes(n);
        self.write_all(bytes.as_slice()).context("failed to write a u64LE".to_owned())
    }

    /// Writes a usize as a 64-bit little endian integer.
    pub fn write_usize_le(&mut self, n: usize) -> (r: Result<(), FormatError>)
        ensures
            final(self).buffer() == old(self).buffer() + spec_u64_to_le_bytes(n as u64),
            r is Ok <==> old(self).position() + 8 <= usize::MAX,
            r is Ok ==> final(self).position() == old(self).position() + 8,
            r is Err ==> final(self).position() == old(self).position() && fails_with(
                r,
                ErrorKind::PositionOverflow { pos: old(self).position(), amount: 8 },
                seq!["failed to write a u64LE"@],
            ),
    {
        self.write_u64_le(n as u64)
    }

    /// Writes a variable length u64.
    ///
    /// The format of the integer matches Google's protocol buffer varint.
    ///
    /// See: https://developers.google.com/protocol-buffers/docs/encoding#varints
    pub fn write_varu64(&mut self, n: u64) -> (r: Result<(), FormatError>)
        ensures
            r is Ok <==> old(self).position() + varint_encode(n).len() <= usize::MAX,
            r is Ok ==> final(self).buffer() == old(self).buffer() + varint_encode(n)
                && final(self).position() == old(self).position() + varint_encode(n).len(),
            r is Err ==> {
                let written = (usize::MAX - old(self).position() + 1) as int;
                &&& fails_with(r, ErrorKind::PositionOverflow { pos: usize::MAX, amount: 1 }, seq![
                    if written == varint_encode(n).len() {
                        "failed to write final varint byte"@
                    } else {
                        "failed to write varint continuation byte"@
                    },
                ])
                &&& final(self).buffer() == old(self).buffer() + varint_encode(n).take(written)
                &&& final(self).position() == usize::MAX
            },
    {
        varint::write_u64(self, n)?;
        Ok(())
    }

    /// Writes a variable length usize.
    ///
    /// The format of the integer matches Google's protocol buffer varint.
    ///
    /// See: https://developers.google.com/protocol-buffers/docs/encoding#varints
    pub fn write_varusize(&mut self, n: usize) -> (r: Result<(), FormatError>)
        ensures
            r is Ok <==> old(self).position() + varint_encode(n as u64).len() <= usize::MAX,
            r is Ok ==> final(self).buffer() == old(self).buffer() + varint_encode(n as u64)
                && final(self).position() == old(self).position() + varint_encode(n as u64).len(),
            r is Err ==> {
                let written = (usize::MAX - old(self).position() + 1) as int;
                &&& fails_with(r, ErrorKind::PositionOverflow { pos: usize::MAX, amount: 1 }, seq![
                    if written == varint_encode(n as u64).len() {
                        "failed to write final varint byte"@
                    } else {
                        "failed to write varint continuation byte"@
                    },
                ])
                &&& final(self).buffer() == old(self).buffer() + varint_encode(n as u64).take(written)
                &&& final(self).position() == usize::MAX
            },
    {
        self.write_varu64(n as u64)
    }

    /// Writes a length prefixed byte string. The length prefix is written as
    /// a varint.
    pub fn write_prefixed_bytes(&mut self, bytes: &[u8]) -> (r: Result<(), FormatError>)
        ensures
            r is Ok <==> old(self).position() + varint_encode(bytes@.len() as u64).len() + bytes@.len()
                <= usize::MAX,
            r is Ok ==> final(self).buffer() == old(self).buffer() + prefixed(bytes@)
                && final(self).position() == old(self).position() + prefixed(bytes@).len(),
            r matches Err(e) ==> e.error_kind() is PositionOverflow && {
                let enc = varint_encode(bytes@.len() as u64);
                let p = old(self).position();
                if p + enc.len() > usize::MAX {
                    let written = (usize::MAX - p + 1) as int;
                    &&& fails_with(r, ErrorKind::PositionOverflow { pos: usize::MAX, amount: 1 }, seq![
                        if written == enc.len() {
                            "failed to write final varint byte"@
                        } else {
                            "failed to write varint continuation byte"@
                        },
                    ])
                    &&& final(self).buffer() == old(self).buffer() + enc.take(written)
                    &&& final(self).position() == usize::MAX
                } else {
                    &&& fails_with(r, ErrorKind::PositionOverflow { pos: (p + enc.len()) as usize, amount: bytes@.len() as usize },
                        seq!["failed to write prefixed bytes"@])
                    &&& final(self).buffer() == old(self).buffer() + prefixed(bytes@)
                    &&& final(self).position() == p + enc.len()
                }
            },
    {
        self.write_varusize(bytes.len())?;
        let r = self.write_all(bytes).context("failed to write prefixed bytes".to_owned());
        assert(old(self).buffer() + varint_encode(bytes@.len() as u64) + bytes@ =~= old(self).buffer() + prefixed(bytes@));
        r
    }

    /// Writes a length prefixed UTF-8 string. The length prefix is written
    /// as a varint.
    pub fn write_prefixed_str(&mut self, string: &str) -> (r: Result<(), FormatError>)
        ensures
            r is Ok <==> old(self).position() + prefixed(string.spec_bytes()).len() <= usize::MAX,
            r is Ok ==> final(self).buffer() == old(self).buffer() + prefixed(string.spec_bytes())
                && final(self).position() == old(self).position() + prefixed(string.spec_bytes()).len(),
            r matches Err(e) ==> e.error_kind() is PositionOverflow && {
                let enc = varint_encode(string.spec_bytes().len() as u64);
                let p = old(self).position();
                if p + enc.len() > usize::MAX {
                    let written = (usize::MAX - p + 1) as int;
                    &&& fails_with(r, ErrorKind::PositionOverflow { pos: usize::MAX, amount: 1 }, seq![
                        if written == enc.len() {
                            "failed to write final varint byte"@
                        } else {
                            "failed to write varint continuation byte"@
                        },
                    ])
                    &&& final(self).buffer() == old(self).buffer() + enc.take(written)
                    &&& final(self).position() == usize::MAX
                } else {
                    &&& fails_with(r, ErrorKind::PositionOverflow { pos: (p + enc.len()) as usize, amount: string.spec_bytes().len() as usize },
                        seq!["failed to write prefixed bytes"@])
                    &&& final(self).buffer() == old(self).buffer() + prefixed(string.spec_bytes())
                    &&& final(self).position() == p + enc.len()
                }
            },
    {
        self.write_prefixed_bytes(string.as_bytes())
    }

    /// Clear this cursor's buffer and reset its position.
    pub fn clear(&mut self)
        ensures
            final(self).buffer() == Seq::<u8>::empty(),
            final(self).position() == 0,
    {
        self.wtr.clear();
        self.pos = 0;
    }
}

/// The encoding of a length prefixed byte string: the length as a varint,
/// then the bytes.
pub open spec fn prefixed(bytes: Seq<u8>) -> Seq<u8> {
    varint_encode(bytes.len() as u64) + bytes
}

} // verus!
