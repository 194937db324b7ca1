//! Bounds-checked big-endian reading cursor over a borrowed byte slice.

use vstd::prelude::*;
use vstd::slice::slice_to_vec;

use crate::errors::{ParseError, ParseErrorKind};
use crate::tag::TableTag;

verus! {

/// The big-endian `u16` spelled by `s[i]` and `s[i + 1]`.
pub open spec fn be16_at(s: Seq<u8>, i: int) -> u16
    recommends
        0 <= i,
        i + 2 <= s.len(),
{
    (s[i] * 0x100 + s[i + 1]) as u16
}

/// The big-endian `u32` spelled by the four bytes starting at `s[i]`.
pub open spec fn be32_at(s: Seq<u8>, i: int) -> u32
    recommends
        0 <= i,
        i + 4 <= s.len(),
{
    (s[i] * 0x100_0000 + s[i + 1] * 0x1_0000 + s[i + 2] * 0x100 + s[i + 3]) as u32
}


/// The two big-endian bytes of `v`.
pub open spec fn u16_bytes(v: u16) -> Seq<u8> {
    seq![(v / 0x100) as u8, (v % 0x100) as u8]
}

/// The four big-endian bytes of `v`.
pub open spec fn u32_bytes(v: u32) -> Seq<u8> {
    seq![
        (v / 0x100_0000) as u8,
        ((v / 0x1_0000) % 0x100) as u8,
        ((v / 0x100) % 0x100) as u8,
        (v % 0x100) as u8,
    ]
}

/// Serializing the `u16` read at `s[i..i + 2]` gives those two bytes back.
pub proof fn lemma_u16_bytes_roundtrip(s: Seq<u8>, i: int)
    requires
        0 <= i,
        i + 2 <= s.len(),
    ensures
        u16_bytes(be16_at(s, i)) =~= s.subrange(i, i + 2),
{
    assert((s[i] * 0x100 + s[i + 1]) / 0x100 == s[i]);
    assert((s[i] * 0x100 + s[i + 1]) % 0x100 == s[i + 1]);
}

/// Serializing the `u32` read at `s[i..i + 4]` gives those four bytes back.
pub proof fn lemma_u32_bytes_roundtrip(s: Seq<u8>, i: int)
    requires
        0 <= i,
        i + 4 <= s.len(),
    ensures
        u32_bytes(be32_at(s, i)) =~= s.subrange(i, i + 4),
{
    let v = s[i] * 0x100_0000 + s[i + 1] * 0x1_0000 + s[i + 2] * 0x100 + s[i + 3];
    assert(v / 0x100_0000 == s[i]) by (nonlinear_arith)
        requires
            v == s[i] * 0x100_0000 + s[i + 1] * 0x1_0000 + s[i + 2] * 0x100 + s[i + 3],
            0 <= s[i] < 0x100,
            0 <= s[i + 1] < 0x100,
            0 <= s[i + 2] < 0x100,
            0 <= s[i + 3] < 0x100,
    ;
    assert((v / 0x1_0000) % 0x100 == s[i + 1]) by (nonlinear_arith)
        requires
            v == s[i] * 0x100_0000 + s[i + 1] * 0x1_0000 + s[i + 2] * 0x100 + s[i + 3],
            0 <= s[i] < 0x100,
            0 <= s[i + 1] < 0x100,
            0 <= s[i + 2] < 0x100,
            0 <= s[i + 3] < 0x100,
    ;
    assert((v / 0x100) % 0x100 == s[i + 2]) by (nonlinear_arith)
        requires
            v == s[i] * 0x100_0000 + s[i + 1] * 0x1_0000 + s[i + 2] * 0x100 + s[i + 3],
            0 <= s[i] < 0x100,
            0 <= s[i + 1] < 0x100,
            0 <= s[i + 2] < 0x100,
            0 <= s[i + 3] < 0x100,
    ;
    assert(v % 0x100 == s[i + 3]) by (nonlinear_arith)
        requires
            v == s[i] * 0x100_0000 + s[i + 1] * 0x1_0000 + s[i + 2] * 0x100 + s[i + 3],
            0 <= s[i + 3] < 0x100,
    ;
}

/// Reading cursor: a window `[pos, end)` into a borrowed slice, together with
/// the absolute offset of the slice start (for error reporting) and the table
/// the data belongs to (for error context).
#[derive(Debug, Clone, Copy)]
pub(crate) struct Cursor<'a> {
    pub(crate) bytes: &'a [u8],
    pub(crate) pos: usize,
    pub(crate) end: usize,
    pub(crate) off0: usize,
    pub(crate) table: Option<TableTag>,
}

impl<'a> Cursor<'a> {
    /// The cursor's window is inside the slice and error offsets cannot overflow.
    pub(crate) open spec fn wf(self) -> bool {
        self.pos <= self.end <= self.bytes@.len() && self.off0 + self.bytes@.len()
            <= usize::MAX
    }

    /// Bytes of the window that have not been consumed yet.
    pub(crate) open spec fn window(self) -> Seq<u8> {
        self.bytes@.subrange(self.pos as int, self.end as int)
    }

    pub(crate) open spec fn remaining(self) -> int {
        self.end - self.pos
    }

    /// Absolute offset (in the underlying font data) of the current position.
    pub(crate) open spec fn offset(self) -> int {
        self.off0 + self.pos
    }

    pub(crate) fn new(bytes: &'a [u8]) -> (r: Self)
        ensures
            r.wf(),
            r.bytes@ == bytes@,
            r.pos == 0,
            r.end == bytes@.len(),
            r.off0 == 0,
            r.table is None,
    {
        let end = bytes.len();
        Cursor { bytes, pos: 0, end, off0: 0, table: None }
    }

    pub(crate) fn err(&self, kind: ParseErrorKind) -> (r: ParseError)
        requires
            self.wf(),
        ensures
            r.kind == kind,
            r.offset == self.offset(),
            r.table == self.table,
    {
        ParseError { kind, offset: self.off0 + self.pos, table: self.table }
    }

    pub(crate) fn skip(&mut self, n: usize) -> (r: Result<(), ParseError>)
        requires
            old(self).wf(),
        ensures
            final(self).wf(),
            final(self).bytes@ == old(self).bytes@,
            final(self).end == old(self).end,
            final(self).off0 == old(self).off0,
            final(self).table == old(self).table,
            match r {
                Ok(()) => n <= old(self).remaining() && final(self).pos == old(self).pos + n,
                Err(e) => {
                    &&& n > old(self).remaining()
                    &&& final(self).pos == old(self).pos
                    &&& e.kind == ParseErrorKind::UnexpectedEof
                    &&& e.offset == old(self).offset()
                    &&& e.table == old(self).table
                },
            },
    {
        if n > self.end - self.pos {
            Err(self.err(ParseErrorKind::UnexpectedEof))
        } else {
            self.pos = self.pos + n;
            Ok(())
        }
    }

    pub(crate) fn read_u16(&mut self) -> (r: Result<u16, ParseError>)
        requires
            old(self).wf(),
        ensures
            final(self).wf(),
            final(self).bytes@ == old(self).bytes@,
            final(self).end == old(self).end,
            final(self).off0 == old(self).off0,
            final(self).table == old(self).table,
            match r {
                Ok(v) => old(self).remaining() >= 2 && final(self).pos == old(self).pos + 2 && v
                    == be16_at(old(self).bytes@, old(self).pos as int),
                Err(e) => {
                    &&& old(self).remaining() < 2
                    &&& final(self).pos == old(self).pos
                    &&& e.kind == ParseErrorKind::UnexpectedEof
                    &&& e.offset == old(self).offset()
                    &&& e.table == old(self).table
                },
            },
    {
        if self.end - self.pos < 2 {
            Err(self.err(ParseErrorKind::UnexpectedEof))
        } else {
            let b0 = self.bytes[self.pos];
            let b1 = self.bytes[self.pos + 1];
            self.pos = self.pos + 2;
            Ok((b0 as u16) * 0x100 + (b1 as u16))
        }
    }

    pub(crate) fn read_u32(&mut self) -> (r: Result<u32, ParseError>)
        requires
            old(self).wf(),
        ensures
            final(self).wf(),
            final(self).bytes@ == old(self).bytes@,
            final(self).end == old(self).end,
            final(self).off0 == old(self).off0,
            final(self).table == old(self).table,
            match r {
                Ok(v) => old(self).remaining() >= 4 && final(self).pos == old(self).pos + 4 && v
                    == be32_at(old(self).bytes@, old(self).pos as int),
                Err(e) => {
                    &&& old(self).remaining() < 4
                    &&& final(self).pos == old(self).pos
                    &&& e.kind == ParseErrorKind::UnexpectedEof
                    &&& e.offset == old(self).offset()
                    &&& e.table == old(self).table
                },
            },
    {
        if self.end - self.pos < 4 {
            Err(self.err(ParseErrorKind::UnexpectedEof))
        } else {
            let b0 = self.bytes[self.pos];
            let b1 = self.bytes[self.pos + 1];
            let b2 = self.bytes[self.pos + 2];
            let b3 = self.bytes[self.pos + 3];
            self.pos = self.pos + 4;
            Ok((b0 as u32) * 0x100_0000 + (b1 as u32) * 0x1_0000 + (b2 as u32) * 0x100 + (
            b3 as u32))
        }
    }

    /// Copies the next `n` bytes into an owned buffer and advances past them.
    pub(crate) fn read_vec(&mut self, n: usize) -> (r: Result<Vec<u8>, ParseError>)
        requires
            old(self).wf(),
        ensures
            final(self).wf(),
            final(self).bytes@ == old(self).bytes@,
            final(self).end == old(self).end,
            final(self).off0 == old(self).off0,
            final(self).table == old(self).table,
            match r {
                Ok(v) => {
                    &&& n <= old(self).remaining()
                    &&& final(self).pos == old(self).pos + n
                    &&& v@ == old(self).bytes@.subrange(
                        old(self).pos as int,
                        old(self).pos + n,
                    )
                },
                Err(e) => {
                    &&& n > old(self).remaining()
                    &&& final(self).pos == old(self).pos
                    &&& e.kind == ParseErrorKind::UnexpectedEof
                    &&& e.offset == old(self).offset()
                    &&& e.table == old(self).table
                },
            },
    {
        if n > self.end - self.pos {
            Err(self.err(ParseErrorKind::UnexpectedEof))
        } else {
            let part = &self.bytes[self.pos..self.pos + n];
            self.pos = self.pos + n;
            Ok(slice_to_vec(part))
        }
    }

    /// Copies everything that remains in the window, without advancing.
    pub(crate) fn rest_vec(&self) -> (r: Vec<u8>)
        requires
            self.wf(),
        ensures
            r@ == self.window(),
    {
        slice_to_vec(&self.bytes[self.pos..self.end])
    }

    /// A sub-cursor over `start..end` of the remaining window, as counted from
    /// the current position. Fails when the range does not fit.
    pub(crate) fn range(&self, start: usize, end: usize) -> (r: Result<Cursor<'a>, ParseError>)
        requires
            self.wf(),
        ensures
            match r {
                Ok(c) => {
                    &&& start <= end && end <= self.remaining()
                    &&& c.wf()
                    &&& c.bytes@ == self.bytes@
                    &&& c.pos == self.pos + start
                    &&& c.end == self.pos + end
                    &&& c.off0 == self.off0
                    &&& c.table == self.table
                },
                Err(e) => {
                    &&& !(start <= end && end <= self.remaining())
                    &&& e.kind == (ParseErrorKind::RangeOutOfBounds {
                        start,
                        end,
                        len: (self.end - self.pos) as usize,
                    })
                    &&& e.offset == self.offset()
                    &&& e.table == self.table
                },
            },
    {
        if start > end || end > self.end - self.pos {
            Err(
                self.err(
                    ParseErrorKind::RangeOutOfBounds { start, end, len: self.end - self.pos },
                ),
            )
        } else {
            Ok(
                Cursor {
                    bytes: self.bytes,
                    pos: self.pos + start,
                    end: self.pos + end,
                    off0: self.off0,
                    table: self.table,
                },
            )
        }
    }

    /// Splits off the next `n` bytes as a prefix cursor and advances past them.
    pub(crate) fn split_at(&mut self, n: usize) -> (r: Result<Cursor<'a>, ParseError>)
        requires
            old(self).wf(),
        ensures
            final(self).wf(),
            final(self).bytes@ == old(self).bytes@,
            final(self).end == old(self).end,
            final(self).off0 == old(self).off0,
            final(self).table == old(self).table,
            match r {
                Ok(c) => {
                    &&& n <= old(self).remaining()
                    &&& final(self).pos == old(self).pos + n
                    &&& c.wf()
                    &&& c.bytes@ == old(self).bytes@
                    &&& c.pos == old(self).pos
                    &&& c.end == old(self).pos + n
                    &&& c.off0 == old(self).off0
                    &&& c.table == old(self).table
                },
                Err(e) => {
                    &&& n > old(self).remaining()
                    &&& final(self).pos == old(self).pos
                    &&& e.kind == (ParseErrorKind::RangeOutOfBounds {
                        start: 0,
                        end: n,
                        len: (old(self).end - old(self).pos) as usize,
                    })
                    &&& e.offset == old(self).offset()
                    &&& e.table == old(self).table
                },
            },
    {
        let prefix = self.range(0, n)?;
        self.pos = self.pos + n;
        Ok(prefix)
    }
}

} // verus!
