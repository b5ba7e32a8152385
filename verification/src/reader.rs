use vstd::prelude::*;
use crate::fault::CatError;
use crate::manifest::OutputFile;
use crate::words::be_word_at;
use crate::words::be_word_from;
use crate::words::spec_align_up;
use crate::words::word_at;
use crate::words::word_from;

verus! {

/// The largest archive the codec accepts: every offset and size field of the
/// format is a 32-bit word, so nothing larger can be addressed.
pub const MAX_ARCHIVE_LEN: u64 = 0xFFFF_FFFF;

/// The largest cursor position the reader ever takes: an absolute child
/// offset or container end is at most the archive length plus two 32-bit
/// fields.
pub const MAX_POS: u64 = 0x7_FFFF_FFFF;

/// Walks an archive held in memory and yields its manifest tree together
/// with the payload files to write out.
pub struct CatFileReader {
    /// The whole archive.
    pub data: Vec<u8>,
    /// The read cursor: an absolute byte position.
    pub pos: u64,
    /// The files that unpacking has asked to be written, in the order they
    /// were found.
    pub outputs: Vec<OutputFile>,
}

impl CatFileReader {
    /// The reader stays inside the bounds its arithmetic relies on.
    pub open spec fn wf(self) -> bool {
        &&& self.data@.len() <= MAX_ARCHIVE_LEN
        &&& self.pos <= MAX_POS
    }

    /// The cursor moved, everything else stayed.
    pub open spec fn only_pos_changed(self, old: Self) -> bool {
        &&& self.data == old.data
        &&& self.outputs == old.outputs
    }

    pub fn new(data: Vec<u8>) -> (r: Self)
        requires
            data@.len() <= MAX_ARCHIVE_LEN,
        ensures
            r.wf(),
            r.data == data,
            r.pos == 0,
            r.outputs@ == Seq::<OutputFile>::empty(),
    {
        CatFileReader { data, pos: 0, outputs: Vec::new() }
    }

    /// The current absolute cursor position.
    pub fn get_offset(&self) -> (r: u64)
        ensures
            r == self.pos,
    {
        self.pos
    }

    /// Moves the cursor to the absolute position `p`.
    pub fn seek(&mut self, p: u64)
        requires
            old(self).wf(),
            p <= MAX_POS,
        ensures
            final(self).wf(),
            final(self).only_pos_changed(*old(self)),
            final(self).pos == p,
    {
        self.pos = p;
    }

    /// Reads the little-endian word under the cursor and advances past it.
    pub fn read_u32(&mut self) -> (r: Result<u32, CatError>)
        requires
            old(self).wf(),
        ensures
            final(self).wf(),
            final(self).only_pos_changed(*old(self)),
            old(self).pos + 4 <= old(self).data@.len() ==> {
                &&& r == Ok::<u32, CatError>(word_at(old(self).data@, old(self).pos as int))
                &&& final(self).pos == old(self).pos + 4
            },
            old(self).pos + 4 > old(self).data@.len() ==> {
                &&& r == Err::<u32, CatError>(CatError::Io(old(self).pos))
                &&& final(self).pos == old(self).pos
            },
    {
        if self.pos + 4 <= self.data.len() as u64 {
            let v = word_from(&self.data, self.pos as usize);
            self.pos = self.pos + 4;
            Ok(v)
        } else {
            Err(CatError::Io(self.pos))
        }
    }

    /// Reads the little-endian word under the cursor without moving it.
    pub fn peek_u32(&self) -> (r: Result<u32, CatError>)
        requires
            self.wf(),
        ensures
            self.pos + 4 <= self.data@.len() ==> r == Ok::<u32, CatError>(
                word_at(self.data@, self.pos as int),
            ),
            self.pos + 4 > self.data@.len() ==> r == Err::<u32, CatError>(
                CatError::Io(self.pos),
            ),
    {
        if self.pos + 4 <= self.data.len() as u64 {
            Ok(word_from(&self.data, self.pos as usize))
        } else {
            Err(CatError::Io(self.pos))
        }
    }

    /// Reads the big-endian word under the cursor without moving it.
    pub fn peek_u32_be(&self) -> (r: Result<u32, CatError>)
        requires
            self.wf(),
        ensures
            self.pos + 4 <= self.data@.len() ==> r == Ok::<u32, CatError>(
                be_word_at(self.data@, self.pos as int),
            ),
            self.pos + 4 > self.data@.len() ==> r == Err::<u32, CatError>(
                CatError::Io(self.pos),
            ),
    {
        if self.pos + 4 <= self.data.len() as u64 {
            Ok(be_word_from(&self.data, self.pos as usize))
        } else {
            Err(CatError::Io(self.pos))
        }
    }

    /// Advances the cursor to the next multiple of `alignment`.
    pub fn align(&mut self, alignment: u32)
        requires
            old(self).wf(),
            alignment > 0,
            old(self).pos + alignment <= MAX_POS,
        ensures
            final(self).wf(),
            final(self).only_pos_changed(*old(self)),
            final(self).pos == spec_align_up(old(self).pos as int, alignment as int),
    {
        let a = alignment as u64;
        if self.pos % a != 0 {
            self.pos = self.pos + (a - self.pos % a);
        }
    }

    /// Copies `count` bytes starting at absolute position `from`.
    pub fn read_bytes_at(&self, from: u64, count: u64) -> (r: Result<Vec<u8>, CatError>)
        requires
            self.wf(),
        ensures
            from + count <= self.data@.len() ==> {
                &&& r matches Ok(v)
                &&& (r matches Ok(v) ==> v@ == self.data@.subrange(
                    from as int,
                    from as int + count as int,
                ))
            },
            from + count > self.data@.len() ==> r == Err::<Vec<u8>, CatError>(
                CatError::Io(from),
            ),
    {
        let len = self.data.len() as u64;
        if from <= len && count <= len - from {
            let mut v: Vec<u8> = Vec::new();
            let mut i: u64 = 0;
            while i < count
                invariant
                    0 <= i <= count,
                    from + count <= self.data@.len(),
                    self.data@.len() <= MAX_ARCHIVE_LEN,
                    v@ == self.data@.subrange(from as int, from as int + i as int),
                decreases count - i,
            {
                v.push(self.data[(from + i) as usize]);
                i = i + 1;
                proof {
                    assert(v@ =~= self.data@.subrange(from as int, from as int + i as int));
                }
            }
            Ok(v)
        } else {
            Err(CatError::Io(from))
        }
    }
}

} // verus!
