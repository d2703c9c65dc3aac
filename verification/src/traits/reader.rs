//! Byte-stream capability the decoder reads through.
//!
//! A reader exposes a cursor over a byte stream with forward, backward and
//! peeking access plus fixed-width little-endian reads. Seeking clamps
//! backward moves at the stream start; the cursor may sit past the stream
//! end, where reads yield nothing.

use vstd::prelude::*;

use crate::error::Error;

verus! {

/// A position to seek to, relative to start, end, or the cursor.
#[derive(Debug, Clone, Copy, PartialEq, Eq)]
pub enum SeekFrom {
    Start(u64),
    End(i64),
    Current(i64),
}

/// Where a seek lands: absolute positions go as given; moves past the
/// start stop at 0; relative moves forward stop at the stream end.
pub open spec fn seek_pos(len: int, cur: int, from: SeekFrom) -> int {
    match from {
        SeekFrom::Start(o) => o as int,
        SeekFrom::End(o) => if o < 0 {
            if len + o >= 0 {
                len + o
            } else {
                0
            }
        } else {
            len + o
        },
        SeekFrom::Current(o) => if o < 0 {
            if cur + o >= 0 {
                cur + o
            } else {
                0
            }
        } else {
            if cur + o <= len {
                cur + o
            } else {
                len
            }
        },
    }
}

/// A seek request the platform can represent.
pub open spec fn seek_fits(len: int, cur: int, from: SeekFrom) -> bool {
    match from {
        SeekFrom::Start(o) => o <= usize::MAX,
        SeekFrom::End(o) => o > i64::MIN && len + o <= usize::MAX,
        SeekFrom::Current(o) => o > i64::MIN && cur + o <= usize::MAX,
    }
}

/// Cursor access over a byte stream, as the reverse decoder needs it.
pub trait Reader: Sized {
    /// The bytes behind this reader.
    spec fn data(&self) -> Seq<u8>;

    /// The cursor, counted from the stream start.
    spec fn cursor(&self) -> int;

    /// The cursor is a machine offset.
    proof fn lemma_cursor_bounds(&self)
        ensures
            0 <= self.cursor() <= usize::MAX,
            self.data().len() <= usize::MAX,
    ;

    /// The byte under the cursor, advancing past it; nothing at or past
    /// the stream end.
    fn next(&mut self) -> (r: Result<Option<u8>, Error>)
        ensures
            final(self).data() == old(self).data(),
            r matches Ok(o) ==> if 0 <= old(self).cursor() < old(self).data().len() {
                o == Some(old(self).data()[old(self).cursor()]) && final(self).cursor() == old(
                    self,
                ).cursor() + 1
            } else {
                o is None && final(self).cursor() == old(self).cursor()
            },
            r is Ok,
    ;

    /// Steps back one byte and returns the byte at the new position;
    /// nothing when already at the start.
    fn prev(&mut self) -> (r: Result<Option<u8>, Error>)
        ensures
            final(self).data() == old(self).data(),
            r matches Ok(o) ==> if 0 < old(self).cursor() <= old(self).data().len() {
                o == Some(old(self).data()[old(self).cursor() - 1]) && final(self).cursor()
                    == old(self).cursor() - 1
            } else {
                o is None && final(self).cursor() == old(self).cursor() - if old(self).cursor()
                    > 0 {
                    1int
                } else {
                    0int
                }
            },
            r is Ok,
    ;

    /// The byte under the cursor without moving it.
    fn peek(&mut self) -> (r: Result<Option<u8>, Error>)
        ensures
            final(self).data() == old(self).data(),
            final(self).cursor() == old(self).cursor(),
            r matches Ok(o) ==> o == if 0 <= old(self).cursor() < old(self).data().len() {
                Some(old(self).data()[old(self).cursor()])
            } else {
                Option::<u8>::None
            },
            r is Ok,
    ;

    /// Moves the cursor and reports where it landed.
    fn seek(&mut self, pos: SeekFrom) -> (r: Result<u64, Error>)
        requires
            seek_fits(old(self).data().len() as int, old(self).cursor(), pos),
        ensures
            final(self).data() == old(self).data(),
            final(self).cursor() == seek_pos(
                old(self).data().len() as int,
                old(self).cursor(),
                pos,
            ),
            r matches Ok(p) && p as int == final(self).cursor(),
    ;

    /// The cursor, counted from the stream start.
    fn stream_position(&mut self) -> (r: Result<u64, Error>)
        ensures
            final(self).data() == old(self).data(),
            final(self).cursor() == old(self).cursor(),
            r matches Ok(p) && p as int == old(self).cursor(),
    ;

    /// Reads one byte at the cursor, advancing past it.
    fn read_u8(&mut self) -> (r: Result<u8, Error>)
        ensures
            final(self).data() == old(self).data(),
            r matches Ok(v) ==> old(self).cursor() + 1 <= old(self).data().len() && final(self).cursor() == old(self).cursor() + 1 && v == old(self).data()[old(self).cursor()],
            r matches Err(e) ==> old(self).cursor() + 1 > old(self).data().len() && final(self).cursor()
                == old(self).cursor() && crate::error::spec_classify(e.spec_code())
                == crate::error::Category::Eof,
    ;

    /// Reads two little-endian bytes at the cursor, advancing past them.
    fn read_u16(&mut self) -> (r: Result<u16, Error>)
        ensures
            final(self).data() == old(self).data(),
            r matches Ok(v) ==> old(self).cursor() + 2 <= old(self).data().len() && final(self).cursor() == old(self).cursor() + 2 && v == vstd::bytes::spec_u16_from_le_bytes(
                old(self).data().subrange(old(self).cursor(), old(self).cursor() + 2),
            ),
            r matches Err(e) ==> old(self).cursor() + 2 > old(self).data().len() && final(self).cursor()
                == old(self).cursor() && crate::error::spec_classify(e.spec_code())
                == crate::error::Category::Eof,
    ;

    /// Reads four little-endian bytes at the cursor, advancing past them.
    fn read_u32(&mut self) -> (r: Result<u32, Error>)
        ensures
            final(self).data() == old(self).data(),
            r matches Ok(v) ==> old(self).cursor() + 4 <= old(self).data().len() && final(self).cursor() == old(self).cursor() + 4 && v == vstd::bytes::spec_u32_from_le_bytes(
                old(self).data().subrange(old(self).cursor(), old(self).cursor() + 4),
            ),
            r matches Err(e) ==> old(self).cursor() + 4 > old(self).data().len() && final(self).cursor()
                == old(self).cursor() && crate::error::spec_classify(e.spec_code())
                == crate::error::Category::Eof,
    ;

    /// Reads eight little-endian bytes at the cursor, advancing past them.
    fn read_u64(&mut self) -> (r: Result<u64, Error>)
        ensures
            final(self).data() == old(self).data(),
            r matches Ok(v) ==> old(self).cursor() + 8 <= old(self).data().len() && final(self).cursor() == old(self).cursor() + 8 && v == vstd::bytes::spec_u64_from_le_bytes(
                old(self).data().subrange(old(self).cursor(), old(self).cursor() + 8),
            ),
            r matches Err(e) ==> old(self).cursor() + 8 > old(self).data().len() && final(self).cursor()
                == old(self).cursor() && crate::error::spec_classify(e.spec_code())
                == crate::error::Category::Eof,
    ;
}

/// A reader over a borrowed byte slice; zero-copy.
pub struct SliceReader<'a> {
    pub(crate) slice: &'a [u8],
    pub(crate) pos: usize,
}

impl<'a> SliceReader<'a> {
    /// A reader over `slice`, cursor at the start.
    pub fn new(slice: &'a [u8]) -> (r: Self)
        ensures
            r.data() == slice@,
            r.cursor() == 0,
    {
        Self { slice, pos: 0 }
    }

    /// The underlying slice back.
    pub fn into_inner(self) -> (s: &'a [u8])
        ensures
            s@ == self.data(),
    {
        self.slice
    }

    /// A borrow of the underlying bytes.
    pub(crate) fn borrowed(&self) -> (s: &'a [u8])
        ensures
            s@ == self.data(),
    {
        self.slice
    }

    /// The cursor as an index.
    pub(crate) fn position(&self) -> (p: usize)
        ensures
            p as int == self.cursor(),
    {
        self.pos
    }

    /// Puts the cursor at `p`.
    pub(crate) fn set_position(&mut self, p: usize)
        ensures
            final(self).data() == old(self).data(),
            final(self).cursor() == p as int,
    {
        self.pos = p;
    }
}

/// A reader over a borrowed byte vector; zero-copy.
pub struct VecReader<'a> {
    pub(crate) vec: &'a Vec<u8>,
    pub(crate) pos: usize,
}

impl<'a> VecReader<'a> {
    /// A reader over `vec`, cursor at the start.
    pub fn new(vec: &'a Vec<u8>) -> (r: Self)
        ensures
            r.data() == vec@,
            r.cursor() == 0,
    {
        Self { vec, pos: 0 }
    }

    /// The underlying vector back.
    pub fn into_inner(self) -> (v: &'a Vec<u8>)
        ensures
            v@ == self.data(),
    {
        self.vec
    }

    /// A borrow of the underlying bytes.
    pub(crate) fn borrowed(&self) -> (v: &'a Vec<u8>)
        ensures
            v@ == self.data(),
    {
        self.vec
    }

    /// The cursor as an index.
    pub(crate) fn position(&self) -> (p: usize)
        ensures
            p as int == self.cursor(),
    {
        self.pos
    }

    /// Puts the cursor at `p`.
    pub(crate) fn set_position(&mut self, p: usize)
        ensures
            final(self).data() == old(self).data(),
            final(self).cursor() == p as int,
    {
        self.pos = p;
    }
}

/// Shared seek arithmetic over a slice of known length.
fn seek_index(len: usize, cur: usize, pos: SeekFrom) -> (p: usize)
    requires
        seek_fits(len as int, cur as int, pos),
    ensures
        p as int == seek_pos(len as int, cur as int, pos),
{
    match pos {
        SeekFrom::Start(o) => o as usize,
        SeekFrom::End(o) => {
            if o < 0 {
                let back = (-o) as u64;
                if len as u64 >= back {
                    len - (back as usize)
                } else {
                    0
                }
            } else {
                len + (o as usize)
            }
        },
        SeekFrom::Current(o) => {
            if o < 0 {
                let back = (-o) as u64;
                if cur as u64 >= back {
                    cur - (back as usize)
                } else {
                    0
                }
            } else {
                let fwd = cur + (o as usize);
                if fwd <= len {
                    fwd
                } else {
                    len
                }
            }
        },
    }
}

impl<'a> Reader for SliceReader<'a> {
    closed spec fn data(&self) -> Seq<u8> {
        self.slice@
    }

    closed spec fn cursor(&self) -> int {
        self.pos as int
    }

    proof fn lemma_cursor_bounds(&self) {
        assert(vstd::slice::spec_slice_len(self.slice) == self.slice@.len());
    }

    fn next(&mut self) -> (r: Result<Option<u8>, Error>) {
        if self.pos >= self.slice.len() {
            return Ok(None);
        }
        let b = self.slice[self.pos];
        self.pos = self.pos + 1;
        Ok(Some(b))
    }

    fn prev(&mut self) -> (r: Result<Option<u8>, Error>) {
        if self.pos == 0 {
            return Ok(None);
        }
        self.pos = self.pos - 1;
        if self.pos < self.slice.len() {
            Ok(Some(self.slice[self.pos]))
        } else {
            Ok(None)
        }
    }

    fn peek(&mut self) -> (r: Result<Option<u8>, Error>) {
        if self.pos >= self.slice.len() {
            return Ok(None);
        }
        Ok(Some(self.slice[self.pos]))
    }

    fn seek(&mut self, pos: SeekFrom) -> (r: Result<u64, Error>) {
        self.pos = seek_index(self.slice.len(), self.pos, pos);
        Ok(self.pos as u64)
    }

    fn stream_position(&mut self) -> (r: Result<u64, Error>) {
        Ok(self.pos as u64)
    }

    fn read_u8(&mut self) -> (r: Result<u8, Error>) {
        if self.pos >= self.slice.len() {
            return Err(Error::new(crate::error::ErrorCode::Eof, self.pos));
        }
        let b = self.slice[self.pos];
        self.pos = self.pos + 1;
        Ok(b)
    }

    fn read_u16(&mut self) -> (r: Result<u16, Error>) {
        let n = self.slice.len();
        if self.pos > n || n - self.pos < 2 {
            return Err(Error::new(crate::error::ErrorCode::Eof, self.pos));
        }
        let v = vstd::bytes::u16_from_le_bytes(
            vstd::slice::slice_subrange(self.slice, self.pos, self.pos + 2),
        );
        self.pos = self.pos + 2;
        Ok(v)
    }

    fn read_u32(&mut self) -> (r: Result<u32, Error>) {
        let n = self.slice.len();
        if self.pos > n || n - self.pos < 4 {
            return Err(Error::new(crate::error::ErrorCode::Eof, self.pos));
        }
        let v = vstd::bytes::u32_from_le_bytes(
            vstd::slice::slice_subrange(self.slice, self.pos, self.pos + 4),
        );
        self.pos = self.pos + 4;
        Ok(v)
    }

    fn read_u64(&mut self) -> (r: Result<u64, Error>) {
        let n = self.slice.len();
        if self.pos > n || n - self.pos < 8 {
            return Err(Error::new(crate::error::ErrorCode::Eof, self.pos));
        }
        let v = vstd::bytes::u64_from_le_bytes(
            vstd::slice::slice_subrange(self.slice, self.pos, self.pos + 8),
        );
        self.pos = self.pos + 8;
        Ok(v)
    }
}

impl<'a> Reader for VecReader<'a> {
    closed spec fn data(&self) -> Seq<u8> {
        self.vec@
    }

    closed spec fn cursor(&self) -> int {
        self.pos as int
    }

    proof fn lemma_cursor_bounds(&self) {
        assert(self.vec.len() == self.vec@.len());
    }

    fn next(&mut self) -> (r: Result<Option<u8>, Error>) {
        if self.pos >= self.vec.len() {
            return Ok(None);
        }
        let b = self.vec[self.pos];
        self.pos = self.pos + 1;
        Ok(Some(b))
    }

    fn prev(&mut self) -> (r: Result<Option<u8>, Error>) {
        if self.pos == 0 {
            return Ok(None);
        }
        self.pos = self.pos - 1;
        if self.pos < self.vec.len() {
            Ok(Some(self.vec[self.pos]))
        } else {
            Ok(None)
        }
    }

    fn peek(&mut self) -> (r: Result<Option<u8>, Error>) {
        if self.pos >= self.vec.len() {
            return Ok(None);
        }
        Ok(Some(self.vec[self.pos]))
    }

    fn seek(&mut self, pos: SeekFrom) -> (r: Result<u64, Error>) {
        self.pos = seek_index(self.vec.len(), self.pos, pos);
        Ok(self.pos as u64)
    }

    fn stream_position(&mut self) -> (r: Result<u64, Error>) {
        Ok(self.pos as u64)
    }

    fn read_u8(&mut self) -> (r: Result<u8, Error>) {
        if self.pos >= self.vec.len() {
            return Err(Error::new(crate::error::ErrorCode::Eof, self.pos));
        }
        let b = self.vec[self.pos];
        self.pos = self.pos + 1;
        Ok(b)
    }

    fn read_u16(&mut self) -> (r: Result<u16, Error>) {
        let n = self.vec.len();
        if self.pos > n || n - self.pos < 2 {
            return Err(Error::new(crate::error::ErrorCode::Eof, self.pos));
        }
        let v = vstd::bytes::u16_from_le_bytes(
            vstd::slice::slice_subrange(self.vec.as_slice(), self.pos, self.pos + 2),
        );
        self.pos = self.pos + 2;
        Ok(v)
    }

    fn read_u32(&mut self) -> (r: Result<u32, Error>) {
        let n = self.vec.len();
        if self.pos > n || n - self.pos < 4 {
            return Err(Error::new(crate::error::ErrorCode::Eof, self.pos));
        }
        let v = vstd::bytes::u32_from_le_bytes(
            vstd::slice::slice_subrange(self.vec.as_slice(), self.pos, self.pos + 4),
        );
        self.pos = self.pos + 4;
        Ok(v)
    }

    fn read_u64(&mut self) -> (r: Result<u64, Error>) {
        let n = self.vec.len();
        if self.pos > n || n - self.pos < 8 {
            return Err(Error::new(crate::error::ErrorCode::Eof, self.pos));
        }
        let v = vstd::bytes::u64_from_le_bytes(
            vstd::slice::slice_subrange(self.vec.as_slice(), self.pos, self.pos + 8),
        );
        self.pos = self.pos + 8;
        Ok(v)
    }
}

} // verus!
