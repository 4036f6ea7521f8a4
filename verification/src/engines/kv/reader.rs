//! Readers that track the offset they read at, for positioned reads.

use vstd::prelude::*;
use vstd::utf8::*;
use crate::engines::kv::codec::string_from_utf8;
use crate::error::KVSError;

verus! {

/// The offset just after the first newline at or after `pos`, or the end of
/// the bytes where there is none.
pub open spec fn line_end(bytes: Seq<u8>, pos: int) -> int
    decreases bytes.len() - pos,
{
    if pos < 0 || pos >= bytes.len() {
        bytes.len() as int
    } else if bytes[pos] == 0x0a {
        pos + 1
    } else {
        line_end(bytes, pos + 1)
    }
}

/// The line that starts at `pos`, its newline included.
pub open spec fn line_at(bytes: Seq<u8>, pos: int) -> Seq<u8> {
    if 0 <= pos <= bytes.len() {
        bytes.subrange(pos, line_end(bytes, pos))
    } else {
        Seq::empty()
    }
}

/// A line ends after its start and within the bytes.
pub proof fn lemma_line_end_bounds(bytes: Seq<u8>, pos: int)
    requires
        0 <= pos <= bytes.len(),
    ensures
        pos <= line_end(bytes, pos) <= bytes.len(),
        pos < bytes.len() ==> pos < line_end(bytes, pos),
    decreases bytes.len() - pos,
{
    if pos < bytes.len() && bytes[pos] != 0x0a {
        lemma_line_end_bounds(bytes, pos + 1);
    }
}

/// Where the first newline at or after `pos` is at `end - 1`, the line that
/// starts at `pos` ends at `end`.
pub proof fn lemma_line_end_is(bytes: Seq<u8>, pos: int, end: int)
    requires
        0 <= pos < end <= bytes.len(),
        bytes[end - 1] == 0x0a,
        forall|i: int| pos <= i < end - 1 ==> bytes[i] != 0x0a,
    ensures
        line_end(bytes, pos) == end,
    decreases end - pos,
{
    if pos < end - 1 {
        lemma_line_end_is(bytes, pos + 1, end);
    }
}

/// A reader over a byte source that tracks its offset.
#[derive(Debug)]
pub struct BufReaderWithPos<'a> {
    reader: &'a [u8],
    pos: u64,
}

impl<'a> BufReaderWithPos<'a> {
    /// The bytes of the source.
    pub closed spec fn source(&self) -> Seq<u8> {
        self.reader@
    }

    /// The offset of the next read.
    pub closed spec fn position(&self) -> nat {
        self.pos as nat
    }

    /// A reader at the start of `inner`.
    pub fn new(inner: &'a [u8]) -> (r: Result<BufReaderWithPos<'a>, KVSError>)
        ensures
            r is Ok,
            r.unwrap().source() == inner@,
            r.unwrap().position() == 0,
    {
        Ok(BufReaderWithPos { reader: inner, pos: 0 })
    }

    /// A reader at the start of `inner`.
    pub fn over(inner: &'a [u8]) -> (r: BufReaderWithPos<'a>)
        ensures
            r.source() == inner@,
            r.position() == 0,
    {
        BufReaderWithPos { reader: inner, pos: 0 }
    }

    /// Moves to the offset `pos`, which may lie past the end.
    pub fn seek(&mut self, pos: u64) -> (r: Result<u64, KVSError>)
        ensures
            r == Ok::<u64, KVSError>(pos),
            final(self).source() == old(self).source(),
            final(self).position() == pos,
    {
        self.pos = pos;
        Ok(pos)
    }

    /// The offset of the next read.
    pub fn pos(&self) -> (p: u64)
        ensures
            p == self.position(),
    {
        self.pos
    }

    /// Reads the line at the current offset, newline included, and moves
    /// past it. At or past the end the line is empty.
    pub fn read_line(&mut self) -> (line: Vec<u8>)
        ensures
            final(self).source() == old(self).source(),
            line@ == line_at(old(self).source(), old(self).position() as int),
            final(self).position() == old(self).position() + line@.len(),
    {
        let mut line: Vec<u8> = Vec::new();
        if self.pos >= self.reader.len() as u64 {
            proof {
                let p = self.pos as int;
                if p == self.reader@.len() {
                    assert(self.reader@.subrange(p, p) =~= Seq::<u8>::empty());
                }
            }
            return line;
        }
        let start: usize = self.pos as usize;
        let mut i: usize = start;
        let ghost bytes = self.reader@;
        assert(bytes.subrange(start as int, i as int) =~= Seq::<u8>::empty());
        while i < self.reader.len()
            invariant_except_break
                line_end(bytes, start as int) == line_end(bytes, i as int),
            invariant
                start <= i <= self.reader.len(),
                bytes == self.reader@,
                line@ == bytes.subrange(start as int, i as int),
            ensures
                i == line_end(bytes, start as int),
            decreases self.reader.len() - i,
        {
            let b: u8 = self.reader[i];
            line.push(b);
            assert(line@ =~= bytes.subrange(start as int, i + 1));
            i = i + 1;
            if b == 0x0a {
                break;
            }
        }
        self.pos = i as u64;
        line
    }

    /// Reads `size` bytes at the current offset and moves past them, or
    /// fails with `Corrupt` and stays where fewer are left.
    pub fn read_exact(&mut self, size: usize) -> (r: Result<Vec<u8>, KVSError>)
        ensures
            final(self).source() == old(self).source(),
            old(self).position() + size <= old(self).source().len() ==> r is Ok
                && r.unwrap()@ == old(self).source().subrange(
                old(self).position() as int,
                old(self).position() + size,
            ) && final(self).position() == old(self).position() + size,
            old(self).position() + size > old(self).source().len() ==> r == Err::<
                Vec<u8>,
                KVSError,
            >(KVSError::Corrupt) && final(self).position() == old(self).position(),
    {
        let len = self.reader.len();
        if self.pos > len as u64 || size > len - self.pos as usize {
            return Err(KVSError::Corrupt);
        }
        let start: usize = self.pos as usize;
        let mut out: Vec<u8> = Vec::new();
        let mut i: usize = 0;
        let ghost bytes = self.reader@;
        assert(bytes.subrange(start as int, start as int) =~= Seq::<u8>::empty());
        while i < size
            invariant
                i <= size,
                start + size <= self.reader.len(),
                bytes == self.reader@,
                out@ == bytes.subrange(start as int, start + i),
            decreases size - i,
        {
            out.push(self.reader[start + i]);
            assert(out@ =~= bytes.subrange(start as int, start + i + 1));
            i = i + 1;
        }
        self.pos = (start + size) as u64;
        Ok(out)
    }
}

/// The reader of the operation log.
#[derive(Debug)]
pub struct LogReader<'a> {
    reader: BufReaderWithPos<'a>,
}

impl<'a> LogReader<'a> {
    /// The bytes of the log.
    pub closed spec fn source(&self) -> Seq<u8> {
        self.reader.source()
    }

    /// The offset of the next read.
    pub closed spec fn position(&self) -> nat {
        self.reader.position()
    }

    /// A reader at the start of the log.
    pub fn new(inner: &'a [u8]) -> (r: Result<LogReader<'a>, KVSError>)
        ensures
            r is Ok,
            r.unwrap().source() == inner@,
            r.unwrap().position() == 0,
    {
        let reader = BufReaderWithPos::new(inner)?;
        Ok(LogReader { reader })
    }

    /// Reads the line that starts at `pos`.
    pub fn read_line_at(&mut self, pos: u64) -> (line: Vec<u8>)
        ensures
            final(self).source() == old(self).source(),
            line@ == line_at(old(self).source(), pos as int),
            final(self).position() == pos + line@.len(),
    {
        let _ = self.reader.seek(pos);
        self.reader.read_line()
    }
}

/// The reader of the value log.
#[derive(Debug)]
pub struct VLogReader<'a> {
    reader: BufReaderWithPos<'a>,
}

impl<'a> VLogReader<'a> {
    /// The bytes of the value log.
    pub closed spec fn source(&self) -> Seq<u8> {
        self.reader.source()
    }

    /// A reader of the value log.
    pub fn new(inner: &'a [u8]) -> (r: Result<VLogReader<'a>, KVSError>)
        ensures
            r is Ok,
            r.unwrap().source() == inner@,
    {
        Ok(VLogReader::over(inner))
    }

    /// A reader of the value log.
    pub fn over(inner: &'a [u8]) -> (r: VLogReader<'a>)
        ensures
            r.source() == inner@,
    {
        VLogReader { reader: BufReaderWithPos::over(inner) }
    }

    /// The value of `size` bytes that starts at `pos`. Fails with `Corrupt`
    /// where the log is shorter or the bytes are not UTF-8.
    pub fn get_value(&mut self, pos: u64, size: usize) -> (r: Result<String, KVSError>)
        ensures
            final(self).source() == old(self).source(),
            match r {
                Ok(value) => pos + size <= old(self).source().len() && valid_utf8(
                    old(self).source().subrange(pos as int, pos + size),
                ) && value@ == decode_utf8(old(self).source().subrange(pos as int, pos + size)),
                Err(e) => e == KVSError::Corrupt && !(pos + size <= old(self).source().len()
                    && valid_utf8(old(self).source().subrange(pos as int, pos + size))),
            },
    {
        let _ = self.reader.seek(pos);
        let bytes = self.reader.read_exact(size)?;
        match string_from_utf8(bytes) {
            Some(value) => Ok(value),
            None => Err(KVSError::Corrupt),
        }
    }
}

} // verus!
