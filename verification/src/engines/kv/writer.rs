//! Writers that know the offset at which each byte lands.
//!
//! The sink is held in memory: the bytes written so far are the content of
//! the file that the writer stands for, and the position is its length.

use vstd::prelude::*;
use crate::error::KVSError;

verus! {

/// A writer that appends to a byte sink and reports its position.
#[derive(Debug)]
pub struct BufWriterWithPos {
    writer: Vec<u8>,
    pos: u64,
}

impl View for BufWriterWithPos {
    type V = Seq<u8>;

    /// Every byte written so far, in order.
    closed spec fn view(&self) -> Seq<u8> {
        self.writer@
    }
}

impl BufWriterWithPos {
    /// The position is the number of bytes in the sink.
    pub closed spec fn wf(&self) -> bool {
        self.pos == self.writer@.len()
    }

    /// The offset at which the next byte will land.
    pub closed spec fn position(&self) -> nat {
        self.pos as nat
    }

    /// For a well-formed writer the position is the length of what was written.
    pub proof fn lemma_position(&self)
        requires
            self.wf(),
        ensures
            self.position() == self@.len(),
            self@.len() <= u64::MAX,
    {
    }

    /// A writer that appends to what `inner` already holds.
    pub fn new(inner: Vec<u8>) -> (r: Result<BufWriterWithPos, KVSError>)
        ensures
            r is Ok,
            r.unwrap().wf(),
            r.unwrap()@ == inner@,
    {
        Ok(BufWriterWithPos::over(inner))
    }

    /// A writer that appends to what `inner` already holds.
    pub fn over(inner: Vec<u8>) -> (w: BufWriterWithPos)
        ensures
            w.wf(),
            w@ == inner@,
    {
        let pos = inner.len() as u64;
        BufWriterWithPos { writer: inner, pos }
    }

    /// Appends `buf` and returns how many bytes were taken, which is all of
    /// them. The bytes reside at the position the writer had before the call.
    pub fn write(&mut self, buf: &[u8]) -> (r: Result<usize, KVSError>)
        requires
            old(self).wf(),
        ensures
            final(self).wf(),
            r == Ok::<usize, KVSError>(buf@.len() as usize),
            final(self)@ == old(self)@ + buf@,
            final(self).position() == old(self).position() + buf@.len(),
    {
        self.writer.extend_from_slice(buf);
        self.pos = self.writer.len() as u64;
        Ok(buf.len())
    }

    /// Hands the buffered bytes to the sink. Nothing is buffered, so nothing
    /// changes.
    pub fn flush(&mut self) -> (r: Result<(), KVSError>)
        ensures
            r is Ok,
            *final(self) == *old(self),
    {
        Ok(())
    }

    /// The offset at which the next byte will land.
    pub fn pos(&self) -> (p: u64)
        ensures
            p == self.position(),
    {
        self.pos
    }

    /// Every byte written so far.
    pub fn as_slice(&self) -> (s: &[u8])
        ensures
            s@ == self@,
    {
        self.writer.as_slice()
    }

    /// Gives the sink back.
    pub fn into_inner(self) -> (v: Vec<u8>)
        ensures
            v@ == self@,
    {
        self.writer
    }
}

/// The writer of the operation log.
#[derive(Debug)]
pub struct LogWriter {
    writer: BufWriterWithPos,
}

impl View for LogWriter {
    type V = Seq<u8>;

    closed spec fn view(&self) -> Seq<u8> {
        self.writer@
    }
}

impl LogWriter {
    /// The position is the number of bytes written.
    pub closed spec fn wf(&self) -> bool {
        self.writer.wf()
    }

    /// The offset at which the next record will start.
    pub closed spec fn position(&self) -> nat {
        self.writer.position()
    }

    /// For a well-formed writer the position is the length of what was written.
    pub proof fn lemma_position(&self)
        requires
            self.wf(),
        ensures
            self.position() == self@.len(),
    {
        self.writer.lemma_position();
    }

    /// A writer that appends to what the log already holds.
    pub fn new(inner: Vec<u8>) -> (r: Result<LogWriter, KVSError>)
        ensures
            r is Ok,
            r.unwrap().wf(),
            r.unwrap()@ == inner@,
    {
        Ok(LogWriter::over(inner))
    }

    /// A writer that appends to what the log already holds.
    pub fn over(inner: Vec<u8>) -> (w: LogWriter)
        ensures
            w.wf(),
            w@ == inner@,
    {
        LogWriter { writer: BufWriterWithPos::over(inner) }
    }

    /// Appends one record and flushes. A short write is `Corrupt`; the sink
    /// takes every byte, so the record is always written whole.
    pub fn add_record(&mut self, buf: &[u8]) -> (r: Result<(), KVSError>)
        requires
            old(self).wf(),
        ensures
            final(self).wf(),
            r is Ok,
            final(self)@ == old(self)@ + buf@,
            final(self).position() == old(self).position() + buf@.len(),
    {
        let n = self.writer.write(buf)?;
        self.writer.flush()?;
        if n != buf.len() {
            return Err(KVSError::Corrupt);
        }
        Ok(())
    }

    /// Records are written whole by `add_record`; nothing is left to emit.
    pub fn emit_physical_record(&mut self)
        ensures
            *final(self) == *old(self),
    {
    }

    /// The offset at which the next record will start.
    pub fn pos(&self) -> (p: u64)
        ensures
            p == self.position(),
    {
        self.writer.pos()
    }

    /// Every byte written so far.
    pub fn as_slice(&self) -> (s: &[u8])
        ensures
            s@ == self@,
    {
        self.writer.as_slice()
    }
}

/// The writer of the value log.
#[derive(Debug)]
pub struct VLogWriter {
    writer: BufWriterWithPos,
}

impl View for VLogWriter {
    type V = Seq<u8>;

    closed spec fn view(&self) -> Seq<u8> {
        self.writer@
    }
}

impl VLogWriter {
    /// The position is the number of bytes written.
    pub closed spec fn wf(&self) -> bool {
        self.writer.wf()
    }

    /// The offset at which the next value will start.
    pub closed spec fn position(&self) -> nat {
        self.writer.position()
    }

    /// For a well-formed writer the position is the length of what was written.
    pub proof fn lemma_position(&self)
        requires
            self.wf(),
        ensures
            self.position() == self@.len(),
            self@.len() <= u64::MAX,
    {
        self.writer.lemma_position();
    }

    /// A writer that appends to what the value log already holds.
    pub fn new(inner: Vec<u8>) -> (r: Result<VLogWriter, KVSError>)
        ensures
            r is Ok,
            r.unwrap().wf(),
            r.unwrap()@ == inner@,
    {
        Ok(VLogWriter::over(inner))
    }

    /// A writer that appends to what the value log already holds.
    pub fn over(inner: Vec<u8>) -> (w: VLogWriter)
        ensures
            w.wf(),
            w@ == inner@,
    {
        VLogWriter { writer: BufWriterWithPos::over(inner) }
    }

    /// Appends one value and flushes. A short write is `Corrupt`; the sink
    /// takes every byte, so the value is always written whole.
    pub fn add_record(&mut self, buf: &[u8]) -> (r: Result<(), KVSError>)
        requires
            old(self).wf(),
        ensures
            final(self).wf(),
            r is Ok,
            final(self)@ == old(self)@ + buf@,
            final(self).position() == old(self).position() + buf@.len(),
    {
        let n = self.writer.write(buf)?;
        self.writer.flush()?;
        if n != buf.len() {
            return Err(KVSError::Corrupt);
        }
        Ok(())
    }

    /// Values are written whole by `add_record`; nothing is left to emit.
    pub fn emit_physical_record(&mut self)
        ensures
            *final(self) == *old(self),
    {
    }

    /// The offset at which the next value will start.
    pub fn pos(&self) -> (p: u64)
        ensures
            p == self.position(),
    {
        self.writer.pos()
    }

    /// Every byte written so far.
    pub fn as_slice(&self) -> (s: &[u8])
        ensures
            s@ == self@,
    {
        self.writer.as_slice()
    }
}

} // verus!
