//! The random-access reader of one segment.
use vstd::prelude::*;

verus! {

/// Where a seek is measured from.
#[derive(Clone, Copy, Debug)]
pub enum SeekFrom {
    /// From the start of the segment.
    Start(u64),
    /// From the end of the segment.
    End(i64),
    /// From the current position.
    Current(i64),
}

/// A random-access reader over one segment: the bytes of the segment as
/// they stand, and a position in them.
pub struct KvReader {
    pos: u64,
    data: Vec<u8>,
}

/// The position that a seek asks for.
pub open spec fn seek_target(len: int, pos: int, to: SeekFrom) -> int {
    match to {
        SeekFrom::Start(offset) => offset as int,
        SeekFrom::End(delta) => len + delta,
        SeekFrom::Current(delta) => pos + delta,
    }
}

/// How many bytes a read of `count` at `pos` returns from a segment of
/// `len` bytes.
pub open spec fn readable(len: int, pos: int, count: int) -> int {
    if pos >= len {
        0
    } else if count <= len - pos {
        count
    } else {
        len - pos
    }
}

/// What a read of `count` at `pos` returns from a segment that holds
/// `bytes`: the bytes from `pos` on, as many as are readable.
pub open spec fn read_out(bytes: Seq<u8>, pos: int, count: int) -> Seq<u8> {
    if pos >= bytes.len() {
        Seq::empty()
    } else {
        bytes.subrange(pos, pos + readable(bytes.len() as int, pos, count))
    }
}

impl KvReader {
    /// The position: the offset of the next byte that a read returns.
    pub closed spec fn spec_pos(&self) -> u64 {
        self.pos
    }

    /// The position: the offset of the next byte that a read returns.
    #[verifier::when_used_as_spec(spec_pos)]
    pub fn pos(&self) -> (pos: u64)
        ensures
            pos == self.pos(),
    {
        self.pos
    }

    /// The bytes of the segment.
    pub closed spec fn bytes(&self) -> Seq<u8> {
        self.data@
    }

    /// Opens a reader at the start of a segment that holds `data`.
    pub fn new(data: Vec<u8>) -> (reader: KvReader)
        ensures
            reader.pos() == 0,
            reader.bytes() == data@,
    {
        KvReader { pos: 0, data }
    }

    /// The length of the segment.
    pub fn len(&self) -> (len: usize)
        ensures
            len == self.bytes().len(),
    {
        self.data.len()
    }

    /// Moves the position. A target before the start of the segment, or
    /// past the largest offset, is refused and leaves the position as it
    /// was; a target past the end of the segment is accepted.
    pub fn seek(&mut self, to: SeekFrom) -> (r: Option<u64>)
        ensures
            final(self).bytes() == old(self).bytes(),
            ({
                let target = seek_target(
                    old(self).bytes().len() as int,
                    old(self).pos() as int,
                    to,
                );
                if 0 <= target <= u64::MAX {
                    r == Some(target as u64) && final(self).pos() == target
                } else {
                    r is None && final(self).pos() == old(self).pos()
                }
            }),
    {
        let target: i128 = match to {
            SeekFrom::Start(offset) => offset as i128,
            SeekFrom::End(delta) => self.data.len() as i128 + delta as i128,
            SeekFrom::Current(delta) => self.pos as i128 + delta as i128,
        };
        if 0 <= target && target <= u64::MAX as i128 {
            self.pos = target as u64;
            Some(self.pos)
        } else {
            None
        }
    }

    /// Reads up to `count` bytes from the position on, and moves the
    /// position past them. After a seek to `p`, a read of `n` returns the
    /// `n` bytes from offset `p` on, provided they are within the segment.
    pub fn read(&mut self, count: u64) -> (out: Vec<u8>)
        ensures
            final(self).bytes() == old(self).bytes(),
            out@ == read_out(old(self).bytes(), old(self).pos() as int, count as int),
            final(self).pos() == old(self).pos() + out@.len(),
    {
        let mut out: Vec<u8> = Vec::new();
        let len: usize = self.data.len();
        if self.pos >= len as u64 {
            return out;
        }
        let start: usize = self.pos as usize;
        let size: usize = if count <= (len - start) as u64 {
            count as usize
        } else {
            len - start
        };
        let mut done: usize = 0;
        while done < size
            invariant
                done <= size,
                start + size <= len,
                len == self.data@.len(),
                out@ == self.data@.subrange(start as int, start + done),
            decreases size - done,
        {
            out.push(self.data[start + done]);
            done = done + 1;
            assert(self.data@.subrange(start as int, start + done) =~= self.data@.subrange(
                start as int,
                start + done - 1,
            ).push(self.data@[start + done - 1]));
        }
        self.pos = self.pos + size as u64;
        out
    }

    /// Takes in bytes that were appended to the segment. The segment still
    /// has a length that the machine can hold.
    pub fn extend(&mut self, more: Vec<u8>)
        ensures
            final(self).bytes() == old(self).bytes() + more@,
            final(self).bytes().len() <= usize::MAX,
            final(self).pos() == old(self).pos(),
    {
        let mut more = more;
        self.data.append(&mut more);
        assert(self.data@.len() == self.data.len());
    }
}

} // verus!
