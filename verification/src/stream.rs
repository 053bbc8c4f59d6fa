//! A finite byte sequence with a cursor, the source that every scan reads.

use vstd::prelude::*;
use crate::bytes::{byte_is_eol, is_eol};
use crate::error::XrefError;

verus! {

/// The index of the first line terminator at or after `start`, or the end of
/// `data` if none follows.
pub open spec fn line_end(data: Seq<u8>, start: int) -> int
    decreases data.len() - start,
{
    if 0 <= start < data.len() && !is_eol(data[start]) {
        line_end(data, start + 1)
    } else {
        start
    }
}

/// The line that starts at `start`, without its terminator. Empty at and
/// past the end of `data`.
pub open spec fn line_at(data: Seq<u8>, start: int) -> Seq<u8> {
    if 0 <= start < data.len() {
        data.subrange(start, line_end(data, start))
    } else {
        Seq::empty()
    }
}

/// Where the line after the one at `start` begins: behind the terminator,
/// which is a line feed, a carriage return, or a carriage return and a line
/// feed taken as one. At and past the end of `data` nothing moves.
pub open spec fn next_line_start(data: Seq<u8>, start: int) -> int {
    let end = line_end(data, start);
    if 0 <= end < data.len() {
        if data[end] == 13 && end + 1 < data.len() && data[end + 1] == 10 {
            end + 2
        } else {
            end + 1
        }
    } else {
        end
    }
}

/// What a [`ByteStream`] is to a contract: its bytes and where its cursor stands.
pub struct StreamView {
    pub data: Seq<u8>,
    pub cursor: nat,
}

/// An in-memory byte source with a cursor.
///
/// The cursor is the index of the byte that the next read returns. It may
/// stand at or past the end of the bytes; a read there finds nothing.
pub struct ByteStream {
    bytes: Vec<u8>,
    pos: u64,
}

impl View for ByteStream {
    type V = StreamView;

    closed spec fn view(&self) -> StreamView {
        StreamView { data: self.bytes@, cursor: self.pos as nat }
    }
}

impl ByteStream {
    /// A stream over `bytes` with the cursor on the first byte.
    pub fn new(bytes: Vec<u8>) -> (s: Self)
        ensures
            s@.data == bytes@,
            s@.cursor == 0,
    {
        ByteStream { bytes, pos: 0 }
    }

    /// A stream holds no more bytes than `usize::MAX`.
    pub proof fn lemma_len_fits(&self)
        ensures
            self@.data.len() <= usize::MAX,
    {
        assert(self.bytes.len() == self.bytes@.len());
    }

    /// The number of bytes in the stream.
    pub fn len(&self) -> (n: usize)
        ensures
            n == self@.data.len(),
    {
        self.bytes.len()
    }

    /// Where the cursor stands.
    pub fn position(&self) -> (p: u64)
        ensures
            p == self@.cursor,
    {
        self.pos
    }

    /// The byte at `index`, if the stream has one there.
    pub fn get(&self, index: u64) -> (b: Option<u8>)
        ensures
            b == if index < self@.data.len() {
                Some(self@.data[index as int])
            } else {
                None
            },
    {
        if index < self.bytes.len() as u64 {
            Some(self.bytes[index as usize])
        } else {
            None
        }
    }

    /// Reads the line at the cursor, without its terminator, and moves the
    /// cursor to the start of the next line. At and past the end of the
    /// stream the line is empty and the cursor stays.
    pub fn read_line(&mut self) -> (line: Vec<u8>)
        ensures
            final(self)@.data == old(self)@.data,
            line@ == line_at(old(self)@.data, old(self)@.cursor as int),
            final(self)@.cursor == next_line_start(old(self)@.data, old(self)@.cursor as int),
    {
        let len: usize = self.bytes.len();
        let mut line: Vec<u8> = Vec::new();
        if self.pos >= len as u64 {
            return line;
        }
        let start: usize = self.pos as usize;
        let mut i: usize = start;
        assert(line@ =~= self.bytes@.subrange(start as int, i as int));
        while i < len && !byte_is_eol(self.bytes[i])
            invariant
                self.bytes@ == old(self).bytes@,
                start == old(self).pos,
                len == self.bytes@.len(),
                start <= i <= len,
                line@ == self.bytes@.subrange(start as int, i as int),
                line_end(self.bytes@, start as int) == line_end(self.bytes@, i as int),
            decreases len - i,
        {
            line.push(self.bytes[i]);
            assert(line@ =~= self.bytes@.subrange(start as int, i as int + 1));
            i = i + 1;
        }
        if i < len {
            if self.bytes[i] == 13 && i + 1 < len && self.bytes[i + 1] == 10 {
                i = i + 2;
            } else {
                i = i + 1;
            }
        }
        self.pos = i as u64;
        line
    }

    /// Moves the cursor to `offset`, counted from the first byte. Any offset
    /// is accepted, also one past the end.
    pub fn seek_from_start(&mut self, offset: u64)
        ensures
            final(self)@.data == old(self)@.data,
            final(self)@.cursor == offset,
    {
        self.pos = offset;
    }

    /// Moves the cursor to `offset` counted from the end of the bytes and
    /// returns the new position. Fails, leaving the cursor where it was,
    /// exactly when the target lies before byte 0 or beyond `u64::MAX`.
    pub fn seek_from_end(&mut self, offset: i64) -> (r: Result<u64, XrefError>)
        ensures
            final(self)@.data == old(self)@.data,
            match r {
                Ok(p) => {
                    &&& p == old(self)@.data.len() + offset
                    &&& final(self)@.cursor == p
                },
                Err(e) => {
                    &&& e == XrefError::IoFailure
                    &&& !(0 <= old(self)@.data.len() + offset <= u64::MAX)
                    &&& final(self)@.cursor == old(self)@.cursor
                },
            },
    {
        let len: u64 = self.bytes.len() as u64;
        if offset >= 0 {
            let up: u64 = offset as u64;
            if up > u64::MAX - len {
                return Err(XrefError::IoFailure);
            }
            self.pos = len + up;
        } else {
            let down: u64 = (-(offset + 1)) as u64 + 1;
            if down > len {
                return Err(XrefError::IoFailure);
            }
            self.pos = len - down;
        }
        Ok(self.pos)
    }
}

} // verus!
