use vstd::prelude::*;

use crate::utils::clone_bytes;

verus! {

/// The mathematical state of a byte source: the backing bytes and the
/// `start <= pos <= end` triplet delimiting the logical range and the cursor.
pub ghost struct StreamV {
    pub data: Seq<u8>,
    pub start: int,
    pub pos: int,
    pub end: int,
}

impl StreamV {
    pub open spec fn wf(&self) -> bool {
        0 <= self.start <= self.end <= self.data.len() && self.start <= self.pos <= self.end
            && self.end <= usize::MAX
    }
}

/// What `peek_byte` returns: the byte at the cursor, or nothing at the end
/// of the range. The cursor never moves.
pub open spec fn spec_peek_byte(s: StreamV) -> Option<u8> {
    if s.pos < s.end {
        Some(s.data[s.pos])
    } else {
        None
    }
}

/// What `get_byte` returns together with the cursor after the call:
/// the byte at the cursor and `pos + 1`, or nothing and an unmoved cursor.
pub open spec fn spec_get_byte(s: StreamV) -> (Option<u8>, int) {
    if s.pos < s.end {
        (Some(s.data[s.pos]), s.pos + 1)
    } else {
        (None, s.pos)
    }
}

/// The bytes `peek_bytes(len)` hands out: the slice from the cursor to
/// whichever of `pos + len` and `end` is nearer, or nothing when the cursor
/// has reached the end.
pub open spec fn spec_peek_bytes(s: StreamV, len: nat) -> Option<Seq<u8>> {
    if s.pos < s.end {
        Some(s.data.subrange(s.pos, if s.pos + len <= s.end { s.pos + len } else { s.end }))
    } else {
        None
    }
}

/// A big-endian 16-bit read of two bytes.
pub open spec fn spec_be16(b0: u8, b1: u8) -> u16 {
    (b0 as u16) << 8 | (b1 as u16)
}

/// A big-endian 32-bit read of four bytes, reinterpreted as a signed value.
pub open spec fn spec_be32(b0: u8, b1: u8, b2: u8, b3: u8) -> i32 {
    ((b0 as u32) << 24 | (b1 as u32) << 16 | (b2 as u32) << 8 | (b3 as u32)) as i32
}

/// A random-access byte source over a contiguous logical range
/// `[start, end)` with a movable cursor `pos` in `[start, end]`.
#[derive(Debug, Clone)]
pub struct Stream {
    data: Vec<u8>,
    start: usize,
    pos: usize,
    end: usize,
}

impl View for Stream {
    type V = StreamV;

    closed spec fn view(&self) -> StreamV {
        StreamV {
            data: self.data@,
            start: self.start as int,
            pos: self.pos as int,
            end: self.end as int,
        }
    }
}

impl Stream {
    pub open spec fn wf(&self) -> bool {
        self@.wf()
    }

    /// A stream over a whole buffer: `start = pos = 0`, `end` its length.
    pub fn from_vec(source: Vec<u8>) -> (s: Stream)
        ensures
            s@.data == source@,
            s@.start == 0,
            s@.pos == 0,
            s@.end == source@.len(),
            s.wf(),
    {
        Stream::from(source)
    }

    pub fn from(source: Vec<u8>) -> (s: Stream)
        ensures
            s@.data == source@,
            s@.start == 0,
            s@.pos == 0,
            s@.end == source@.len(),
            s.wf(),
    {
        let end = source.len();
        Stream { data: source, start: 0, pos: 0, end }
    }

    /// An independent view over the same backing bytes, with its own
    /// `pos = start = new_start` and the outer end.
    pub fn new_sub(&self, start: usize) -> (s: Stream)
        requires
            self.wf(),
            start <= self@.end,
        ensures
            s@.data == self@.data,
            s@.start == start as int,
            s@.pos == start as int,
            s@.end == self@.end,
            s.wf(),
    {
        let data = clone_bytes(&self.data);
        Stream { data, start, pos: start, end: self.end }
    }

    pub fn len(&self) -> (n: usize)
        requires
            self.wf(),
        ensures
            n == self@.end - self@.start,
    {
        self.end - self.start
    }

    pub fn start(&self) -> (n: usize)
        ensures
            n == self@.start,
    {
        self.start
    }

    pub fn end(&self) -> (n: usize)
        ensures
            n == self@.end,
    {
        self.end
    }

    pub fn pos(&self) -> (n: usize)
        ensures
            n == self@.pos,
    {
        self.pos
    }

    /// Returns the byte at the cursor without advancing it.
    pub fn peek_byte(&self) -> (r: Option<u8>)
        requires
            self.wf(),
        ensures
            r == spec_peek_byte(self@),
    {
        if self.pos < self.end {
            Some(self.data[self.pos])
        } else {
            None
        }
    }

    /// Returns the byte at the cursor and advances it by one; at the end of
    /// the range it returns nothing and the cursor stays.
    pub fn get_byte(&mut self) -> (r: Option<u8>)
        requires
            old(self).wf(),
        ensures
            r == spec_get_byte(old(self)@).0,
            final(self)@.pos == spec_get_byte(old(self)@).1,
            final(self)@.data == old(self)@.data,
            final(self)@.start == old(self)@.start,
            final(self)@.end == old(self)@.end,
            final(self).wf(),
    {
        let byte = self.peek_byte();
        if byte.is_some() {
            self.pos = self.pos + 1;
        }
        byte
    }

    /// A big-endian 16-bit read; fails when fewer than two bytes remain,
    /// having consumed the bytes that were there.
    pub fn get_uint16(&mut self) -> (r: Option<u16>)
        requires
            old(self).wf(),
        ensures
            final(self)@.data == old(self)@.data,
            final(self)@.start == old(self)@.start,
            final(self)@.end == old(self)@.end,
            final(self).wf(),
            old(self)@.pos + 2 <= final(self)@.end ==> r == Some(
                spec_be16(old(self)@.data[old(self)@.pos], old(self)@.data[old(self)@.pos + 1]),
            ) && final(self)@.pos == old(self)@.pos + 2,
            old(self)@.pos + 2 > final(self)@.end ==> r is None && final(self)@.pos == final(self)@.end,
    {
        let b0 = match self.get_byte() {
            Some(b) => b,
            None => {
                return None;
            },
        };
        let b1 = match self.get_byte() {
            Some(b) => b,
            None => {
                return None;
            },
        };
        Some((b0 as u16) << 8u16 | (b1 as u16))
    }

    /// A big-endian 32-bit read; fails when fewer than four bytes remain,
    /// having consumed the bytes that were there.
    pub fn get_int32(&mut self) -> (r: Option<i32>)
        requires
            old(self).wf(),
        ensures
            final(self)@.data == old(self)@.data,
            final(self)@.start == old(self)@.start,
            final(self)@.end == old(self)@.end,
            final(self).wf(),
            old(self)@.pos + 4 <= final(self)@.end ==> r == Some(
                spec_be32(
                    old(self)@.data[old(self)@.pos],
                    old(self)@.data[old(self)@.pos + 1],
                    old(self)@.data[old(self)@.pos + 2],
                    old(self)@.data[old(self)@.pos + 3],
                ),
            ) && final(self)@.pos == old(self)@.pos + 4,
            old(self)@.pos + 4 > final(self)@.end ==> r is None && final(self)@.pos == final(self)@.end,
    {
        let b0 = match self.get_byte() {
            Some(b) => b,
            None => {
                return None;
            },
        };
        let b1 = match self.get_byte() {
            Some(b) => b,
            None => {
                return None;
            },
        };
        let b2 = match self.get_byte() {
            Some(b) => b,
            None => {
                return None;
            },
        };
        let b3 = match self.get_byte() {
            Some(b) => b,
            None => {
                return None;
            },
        };
        let u: u32 = (b0 as u32) << 24u32 | (b1 as u32) << 16u32 | (b2 as u32) << 8u32 | (
        b3 as u32);
        Some(#[verifier::truncate] (u as i32))
    }

    /// Returns up to `len` bytes from the cursor without advancing it,
    /// truncated if the end is nearer; nothing at the end of the range.
    pub fn peek_bytes(&self, len: usize) -> (r: Option<Vec<u8>>)
        requires
            self.wf(),
        ensures
            match r {
                Some(bytes) => spec_peek_bytes(self@, len as nat) == Some(bytes@),
                None => spec_peek_bytes(self@, len as nat) is None,
            },
    {
        if self.pos >= self.end {
            return None;
        }
        let e: usize = if len > self.end - self.pos {
            self.end
        } else {
            self.pos + len
        };
        let mut bytes: Vec<u8> = Vec::new();
        let mut i: usize = self.pos;
        while i < e
            invariant
                self.pos <= i <= e <= self@.end <= self@.data.len(),
                self.wf(),
                bytes@ == self@.data.subrange(self@.pos, i as int),
            decreases e - i,
        {
            bytes.push(self.data[i]);
            i = i + 1;
            proof {
                assert(bytes@ =~= self@.data.subrange(self@.pos, i as int));
            }
        }
        Some(bytes)
    }

    /// Returns up to `len` bytes and advances the cursor by as many bytes as
    /// were returned.
    pub fn get_bytes(&mut self, len: usize) -> (r: Option<Vec<u8>>)
        requires
            old(self).wf(),
        ensures
            final(self)@.data == old(self)@.data,
            final(self)@.start == old(self)@.start,
            final(self)@.end == old(self)@.end,
            final(self).wf(),
            match r {
                Some(bytes) => spec_peek_bytes(old(self)@, len as nat) == Some(bytes@)
                    && final(self)@.pos == old(self)@.pos + bytes@.len(),
                None => spec_peek_bytes(old(self)@, len as nat) is None && final(self)@.pos == old(
                    self,
                )@.pos,
            },
    {
        let bytes = self.peek_bytes(len)?;
        let n = bytes.len();
        self.pos = self.pos + n;
        Some(bytes)
    }

    /// The bytes in `[begin, end)` clipped to the stream's own range,
    /// without moving the cursor; nothing when the clipped range is empty.
    pub fn get_byte_range(&self, begin: usize, end: usize) -> (r: Option<Vec<u8>>)
        requires
            self.wf(),
        ensures
            ({
                let e = if end > self@.end {
                    self@.end
                } else {
                    end as int
                };
                match r {
                    Some(bytes) => begin < e && bytes@ == self@.data.subrange(begin as int, e),
                    None => begin >= e,
                }
            }),
    {
        let e: usize = if end > self.end {
            self.end
        } else {
            end
        };
        if begin >= e {
            return None;
        }
        let mut bytes: Vec<u8> = Vec::new();
        let mut i: usize = begin;
        while i < e
            invariant
                begin <= i <= e <= self@.end <= self@.data.len(),
                self.wf(),
                bytes@ == self@.data.subrange(begin as int, i as int),
            decreases e - i,
        {
            bytes.push(self.data[i]);
            i = i + 1;
            proof {
                assert(bytes@ =~= self@.data.subrange(begin as int, i as int));
            }
        }
        Some(bytes)
    }

    /// Kept for symmetry with seekable sources: re-synchronising a cursor is
    /// a no-op on an in-memory range.
    pub fn rollback_pos(&mut self)
        requires
            old(self).wf(),
        ensures
            final(self)@ == old(self)@,
            final(self).wf(),
    {
        let p = self.pos;
        self.set_pos(p);
    }

    /// Moves the cursor to the absolute position `pos`.
    pub fn set_pos(&mut self, pos: usize)
        requires
            old(self).wf(),
            old(self)@.start <= pos as int <= old(self)@.end,
        ensures
            final(self)@.pos == pos as int,
            final(self)@.data == old(self)@.data,
            final(self)@.start == old(self)@.start,
            final(self)@.end == old(self)@.end,
            final(self).wf(),
    {
        self.pos = pos;
    }

    /// Moves the cursor by `n` bytes, forwards or backwards.
    pub fn seek_pos(&mut self, n: i64)
        requires
            old(self).wf(),
            old(self)@.start <= old(self)@.pos + n <= old(self)@.end,
        ensures
            final(self)@.pos == old(self)@.pos + n,
            final(self)@.data == old(self)@.data,
            final(self)@.start == old(self)@.start,
            final(self)@.end == old(self)@.end,
            final(self).wf(),
    {
        let p: i128 = self.pos as i128 + n as i128;
        self.pos = p as usize;
    }

    /// Moves the cursor by `n` bytes, forwards or backwards.
    pub fn skip(&mut self, n: i64)
        requires
            old(self).wf(),
            old(self)@.start <= old(self)@.pos + n <= old(self)@.end,
        ensures
            final(self)@.pos == old(self)@.pos + n,
            final(self)@.data == old(self)@.data,
            final(self)@.start == old(self)@.start,
            final(self)@.end == old(self)@.end,
            final(self).wf(),
    {
        self.seek_pos(n)
    }

    /// Moves the cursor back to the start of the range.
    pub fn reset(&mut self)
        requires
            old(self).wf(),
        ensures
            final(self)@.pos == final(self)@.start,
            final(self)@.data == old(self)@.data,
            final(self)@.start == old(self)@.start,
            final(self)@.end == old(self)@.end,
            final(self).wf(),
    {
        self.pos = self.start;
    }

    /// Shrinks the range from the left so that it begins at the cursor.
    pub fn move_start(&mut self)
        requires
            old(self).wf(),
        ensures
            final(self)@.start == old(self)@.pos,
            final(self)@.pos == old(self)@.pos,
            final(self)@.data == old(self)@.data,
            final(self)@.end == old(self)@.end,
            final(self).wf(),
    {
        self.start = self.pos;
    }
}

/// For any byte source, peeking and then getting yield the same byte, and
/// the get leaves the cursor one past where it was; at the end of the range
/// both read nothing and the cursor stays.
pub proof fn lemma_peek_then_get(s: StreamV)
    requires
        s.wf(),
    ensures
        spec_peek_byte(s) == spec_get_byte(s).0,
        s.pos < s.end ==> spec_peek_byte(s) == Some(s.data[s.pos]) && spec_get_byte(s).1 == s.pos
            + 1,
        s.pos == s.end ==> spec_peek_byte(s) is None && spec_get_byte(s).1 == s.pos,
{
}

} // verus!
