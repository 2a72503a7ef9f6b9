//! The append-only writer of one segment.
use vstd::prelude::*;

verus! {

/// An append-only, buffered writer over one segment. It counts its
/// position in the segment and holds what was written until a flush hands
/// it on.
pub struct KvWriter {
    pos: u64,
    buffer: Vec<u8>,
}

/// How many of `wanted` bytes a writer at `pos` takes: all of them, unless
/// the position would pass the largest offset a segment can have.
pub open spec fn taken(pos: u64, wanted: int) -> int {
    if pos + wanted <= u64::MAX {
        wanted
    } else {
        u64::MAX - pos
    }
}

impl KvWriter {
    /// The position: the length of the segment when the writer was opened,
    /// plus the number of bytes written through the writer since.
    pub closed spec fn spec_pos(&self) -> u64 {
        self.pos
    }

    /// The position: the length of the segment when the writer was opened,
    /// plus the number of bytes written through the writer since.
    #[verifier::when_used_as_spec(spec_pos)]
    pub fn pos(&self) -> (pos: u64)
        ensures
            pos == self.pos(),
    {
        self.pos
    }

    /// The bytes written and not yet flushed.
    pub closed spec fn pending(&self) -> Seq<u8> {
        self.buffer@
    }

    /// Opens a writer at the end of a segment that is `len` bytes long.
    pub fn new(len: u64) -> (writer: KvWriter)
        ensures
            writer.pos() == len,
            writer.pending() == Seq::<u8>::empty(),
    {
        KvWriter { pos: len, buffer: Vec::new() }
    }

    /// Writes `bytes`, or as many of them as fit below the largest offset,
    /// and returns how many were written. The position advances by exactly
    /// that number.
    pub fn write(&mut self, bytes: &[u8]) -> (written: usize)
        ensures
            written == taken(old(self).pos(), bytes@.len() as int),
            final(self).pos() == old(self).pos() + written,
            final(self).pending() == old(self).pending() + bytes@.subrange(0, written as int),
    {
        let room: u64 = u64::MAX - self.pos;
        let count: usize = if bytes.len() as u64 <= room {
            bytes.len()
        } else {
            room as usize
        };
        let mut done: usize = 0;
        while done < count
            invariant
                done <= count <= bytes@.len(),
                self.pos == old(self).pos(),
                self.buffer@ == old(self).buffer@ + bytes@.subrange(0, done as int),
            decreases count - done,
        {
            self.buffer.push(bytes[done]);
            done = done + 1;
            assert(bytes@.subrange(0, done as int) =~= bytes@.subrange(0, done - 1).push(
                bytes@[done - 1],
            ));
        }
        self.pos = self.pos + count as u64;
        count
    }

    /// Hands out what was written since the last flush, for the segment to
    /// take in.
    pub fn flush(&mut self) -> (out: Vec<u8>)
        ensures
            out@ == old(self).pending(),
            final(self).pending() == Seq::<u8>::empty(),
            final(self).pos() == old(self).pos(),
    {
        let mut out: Vec<u8> = Vec::new();
        out.append(&mut self.buffer);
        out
    }
}

} // verus!
