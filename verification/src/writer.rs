use vstd::prelude::*;
use vstd::bytes::spec_u32_to_le_bytes;
use crate::fault::CatError;
use crate::fault::ManifestFault;
use crate::manifest::ChildData;
use crate::texture::ImageData;
use crate::words::le_bytes_of;
use crate::words::lemma_align_up;
use crate::words::lemma_word_at_of_le_bytes;
use crate::words::spec_align_up;
use crate::words::word_at;

verus! {

/// The largest output the packer will grow: every offset and size field of
/// the format is a 32-bit word.
pub const MAX_OUTPUT_LEN: u64 = 0xFFFF_FF00;

/// One payload handed to the packer: the file a manifest entry names,
/// already read in.
pub struct StoredFile {
    /// The name the manifest uses for it.
    pub name: String,
    /// What the file holds.
    pub data: FileData,
}

/// The contents of a stored file.
pub enum FileData {
    /// Raw payload bytes.
    Raw(Vec<u8>),
    /// A decoded image, for a texture to re-encode.
    Image(ImageData),
}

/// `new` carries every byte `old` did, in place, with more possibly appended.
pub open spec fn bytes_extends(new: Seq<u8>, old: Seq<u8>) -> bool {
    &&& new.len() >= old.len()
    &&& forall|i: int| 0 <= i < old.len() ==> new[i] == #[trigger] old[i]
}

/// The output has only grown, and every byte below `start` is as it was:
/// a container writes and patches nothing before its own first byte.
pub open spec fn grows_from(new: Seq<u8>, old: Seq<u8>, start: int) -> bool {
    &&& new.len() >= old.len()
    &&& forall|i: int| 0 <= i < start && i < old.len() ==> new[i] == #[trigger] old[i]
}

pub proof fn lemma_grows_refl(s: Seq<u8>, cutoff: int)
    ensures
        grows_from(s, s, cutoff),
{
}

/// Builds an archive byte stream from a manifest tree and the payload files
/// it names.
pub struct CatFileWriter {
    /// The archive bytes written so far.
    pub output: Vec<u8>,
}

impl CatFileWriter {
    /// The writer stays below the largest archive the format can address.
    pub open spec fn wf(self) -> bool {
        self.output@.len() <= MAX_OUTPUT_LEN
    }

    pub fn new() -> (r: Self)
        ensures
            r.wf(),
            r.output@ == Seq::<u8>::empty(),
    {
        CatFileWriter { output: Vec::new() }
    }

    /// The current absolute write position: the end of the output.
    pub fn get_offset(&self) -> (r: u64)
        requires
            self.wf(),
        ensures
            r == self.output@.len(),
    {
        self.output.len() as u64
    }

    /// Appends the little-endian bytes of `v`.
    pub fn write_u32(&mut self, v: u32) -> (r: Result<(), CatError>)
        requires
            old(self).wf(),
        ensures
            final(self).wf(),
            r is Ok ==> {
                &&& final(self).output@ == old(self).output@ + spec_u32_to_le_bytes(v)
                &&& final(self).output@.len() == old(self).output@.len() + 4
                &&& word_at(final(self).output@, old(self).output@.len() as int) == v
            },
            r is Err ==> final(self).output == old(self).output && r == Err::<(), CatError>(
                CatError::ManifestError(ManifestFault::TooLarge),
            ),
            old(self).output@.len() + 4 <= MAX_OUTPUT_LEN ==> r is Ok,
    {
        if self.output.len() as u64 + 4 > MAX_OUTPUT_LEN {
            return Err(CatError::ManifestError(ManifestFault::TooLarge));
        }
        let ghost old_out = self.output@;
        let mut bytes = le_bytes_of(v);
        self.output.append(&mut bytes);
        proof {
            lemma_word_at_of_le_bytes(self.output@, old_out.len() as int, v);
        }
        Ok(())
    }

    /// Appends `count` copies of the byte `b`.
    pub fn write_u8_n(&mut self, b: u8, count: u64) -> (r: Result<(), CatError>)
        requires
            old(self).wf(),
        ensures
            final(self).wf(),
            r is Ok ==> {
                &&& final(self).output@ == old(self).output@ + Seq::new(count as nat, |i: int| b)
                &&& final(self).output@.len() == old(self).output@.len() + count
            },
            r is Err ==> final(self).output == old(self).output && r == Err::<(), CatError>(
                CatError::ManifestError(ManifestFault::TooLarge),
            ),
            old(self).output@.len() + count <= MAX_OUTPUT_LEN ==> r is Ok,
    {
        if count > MAX_OUTPUT_LEN || self.output.len() as u64 > MAX_OUTPUT_LEN - count {
            return Err(CatError::ManifestError(ManifestFault::TooLarge));
        }
        let ghost old_out = self.output@;
        let mut i: u64 = 0;
        while i < count
            invariant
                0 <= i <= count,
                old_out.len() + count <= MAX_OUTPUT_LEN,
                self.output@ =~= old_out + Seq::new(i as nat, |j: int| b),
            decreases count - i,
        {
            self.output.push(b);
            i = i + 1;
            proof {
                assert(self.output@ =~= old_out + Seq::new(i as nat, |j: int| b));
            }
        }
        Ok(())
    }

    /// Appends the bytes of `payload`.
    pub fn write_bytes(&mut self, payload: &Vec<u8>) -> (r: Result<(), CatError>)
        requires
            old(self).wf(),
        ensures
            final(self).wf(),
            r is Ok ==> {
                &&& final(self).output@ == old(self).output@ + payload@
                &&& final(self).output@.len() == old(self).output@.len() + payload@.len()
            },
            r is Err ==> final(self).output == old(self).output && r == Err::<(), CatError>(
                CatError::ManifestError(ManifestFault::TooLarge),
            ),
            old(self).output@.len() + payload@.len() <= MAX_OUTPUT_LEN ==> r is Ok,
    {
        let count = payload.len();
        if count as u64 > MAX_OUTPUT_LEN || self.output.len() as u64 > MAX_OUTPUT_LEN - count as u64 {
            return Err(CatError::ManifestError(ManifestFault::TooLarge));
        }
        let ghost old_out = self.output@;
        let mut i: usize = 0;
        while i < count
            invariant
                0 <= i <= count,
                count == payload@.len(),
                old_out.len() + count <= MAX_OUTPUT_LEN,
                self.output@ =~= old_out + payload@.subrange(0, i as int),
            decreases count - i,
        {
            self.output.push(payload[i]);
            i = i + 1;
            proof {
                assert(self.output@ =~= old_out + payload@.subrange(0, i as int));
            }
        }
        proof {
            assert(payload@.subrange(0, payload@.len() as int) =~= payload@);
        }
        Ok(())
    }

    /// Pads the output with zero bytes up to the next multiple of
    /// `alignment`. Every padding byte is exactly zero.
    pub fn align(&mut self, alignment: u32) -> (r: Result<(), CatError>)
        requires
            old(self).wf(),
            alignment > 0,
        ensures
            final(self).wf(),
            r is Ok ==> {
                &&& final(self).output@.len() == spec_align_up(
                    old(self).output@.len() as int,
                    alignment as int,
                )
                &&& final(self).output@ == old(self).output@ + Seq::new(
                    (final(self).output@.len() - old(self).output@.len()) as nat,
                    |i: int| 0u8,
                )
            },
            r is Err ==> final(self).output == old(self).output && r == Err::<(), CatError>(
                CatError::ManifestError(ManifestFault::TooLarge),
            ),
            old(self).output@.len() + alignment <= MAX_OUTPUT_LEN ==> r is Ok,
    {
        let len = self.output.len() as u64;
        let a = alignment as u64;
        if len % a == 0 {
            proof {
                assert(self.output@ =~= self.output@ + Seq::new(0nat, |i: int| 0u8));
            }
            return Ok(());
        }
        let pad = a - len % a;
        proof {
            lemma_align_up(len as int, a as int);
        }
        self.write_u8_n(0, pad)
    }

    /// Overwrites the four bytes at `pos` with the little-endian bytes of
    /// `value`, leaving everything else in place.
    pub fn write_at(&mut self, pos: u64, value: u32)
        requires
            old(self).wf(),
            pos + 4 <= old(self).output@.len(),
        ensures
            final(self).wf(),
            final(self).output@.len() == old(self).output@.len(),
            word_at(final(self).output@, pos as int) == value,
            forall|j: int|
                0 <= j < old(self).output@.len() && !(pos <= j < pos + 4)
                    ==> final(self).output@[j] == #[trigger] old(self).output@[j],
    {
        let bytes = le_bytes_of(value);
        let p = pos as usize;
        self.output.set(p, bytes[0]);
        self.output.set(p + 1, bytes[1]);
        self.output.set(p + 2, bytes[2]);
        self.output.set(p + 3, bytes[3]);
        proof {
            assert(self.output@.subrange(pos as int, pos as int + 4) =~= spec_u32_to_le_bytes(
                value,
            ));
            lemma_word_at_of_le_bytes(self.output@, pos as int, value);
        }
    }

    /// Patches the child table at `pos`: the children's relative offsets, in
    /// order, then their sizes.
    #[verifier::loop_isolation(false)]
    #[verifier::rlimit(100)]
    pub fn update_child_table(&mut self, pos: u64, children: &Vec<ChildData>) -> (r: Result<
        (),
        CatError,
    >)
        requires
            old(self).wf(),
            pos + 8 * children@.len() <= old(self).output@.len(),
        ensures
            final(self).wf(),
            final(self).output@.len() == old(self).output@.len(),
            forall|j: int|
                0 <= j < old(self).output@.len() && !(pos <= j < pos + 8 * children@.len())
                    ==> final(self).output@[j] == #[trigger] old(self).output@[j],
            r is Err ==> r == Err::<(), CatError>(
                CatError::ManifestError(ManifestFault::TooLarge),
            ),
            (forall|i: int|
                0 <= i < children@.len() ==> (#[trigger] children@[i]).offset <= u32::MAX && (
                #[trigger] children@[i]).size <= u32::MAX) ==> r is Ok,
            r is Ok ==> {
                &&& forall|i: int|
                    0 <= i < children@.len() ==> (#[trigger] children@[i]).offset <= u32::MAX
                        && children@[i].size <= u32::MAX
                &&& forall|i: int|
                    0 <= i < children@.len() ==> word_at(final(self).output@, pos + 4 * i) == (
                    #[trigger] children@[i]).offset as u32
                &&& forall|i: int|
                    0 <= i < children@.len() ==> word_at(
                        final(self).output@,
                        pos + 4 * children@.len() + 4 * i,
                    ) == (#[trigger] children@[i]).size as u32
            },
    {
        let ghost orig = *old(self);
        let n = children.len();
        let mut i: usize = 0;
        while i < n
            invariant
                0 <= i <= n,
                n == children@.len(),
                self.wf(),
                pos + 8 * n <= self.output@.len(),
                self.output@.len() == orig.output@.len(),
                forall|k: int|
                    0 <= k < i as int ==> word_at(self.output@, pos + 4 * k) == (
                    #[trigger] children@[k]).offset as u32,
                forall|k: int|
                    0 <= k < i as int ==> #[trigger] children@[k].offset <= u32::MAX,
                forall|j: int|
                    0 <= j < self.output@.len() && !(pos <= j < pos + 4 * i) ==> self.output@[j]
                        == #[trigger] orig.output@[j],
            decreases n - i,
        {
            let c = ChildData { offset: children[i].offset, size: children[i].size };
            if c.offset > u32::MAX as u64 {
                return Err(CatError::ManifestError(ManifestFault::TooLarge));
            }
            let ghost before = self.output@;
            self.write_at(pos + 4 * i as u64, c.offset as u32);
            proof {
                assert forall|k: int| 0 <= k < i as int implies word_at(self.output@, pos + 4 * k)
                    == (#[trigger] children@[k]).offset as u32 by {
                    crate::words::lemma_word_at_same(before, self.output@, pos + 4 * k);
                }
            }
            i = i + 1;
        }
        let ghost mid = self.output@;
        let mut k2: usize = 0;
        while k2 < n
            invariant
                0 <= k2 <= n,
                n == children@.len(),
                self.wf(),
                pos + 8 * n <= self.output@.len(),
                self.output@.len() == orig.output@.len(),
                forall|k: int|
                    0 <= k < n as int ==> word_at(self.output@, pos + 4 * k) == (
                    #[trigger] children@[k]).offset as u32,
                forall|k: int|
                    0 <= k < k2 as int ==> word_at(self.output@, pos + 4 * n + 4 * k) == (
                    #[trigger] children@[k]).size as u32,
                forall|k: int|
                    0 <= k < k2 as int ==> #[trigger] children@[k].size <= u32::MAX,
                forall|k: int|
                    0 <= k < n as int ==> #[trigger] children@[k].offset <= u32::MAX,
                forall|j: int|
                    0 <= j < self.output@.len() && !(pos <= j < pos + 4 * n + 4 * k2)
                        ==> self.output@[j] == #[trigger] orig.output@[j],
            decreases n - k2,
        {
            let c = ChildData { offset: children[k2].offset, size: children[k2].size };
            if c.size > u32::MAX as u64 {
                return Err(CatError::ManifestError(ManifestFault::TooLarge));
            }
            let ghost before = self.output@;
            self.write_at(pos + 4 * n as u64 + 4 * k2 as u64, c.size as u32);
            proof {
                assert forall|k: int| 0 <= k < n as int implies word_at(self.output@, pos + 4 * k)
                    == (#[trigger] children@[k]).offset as u32 by {
                    crate::words::lemma_word_at_same(before, self.output@, pos + 4 * k);
                }
                assert forall|k: int| 0 <= k < k2 as int implies word_at(
                    self.output@,
                    pos + 4 * n + 4 * k,
                ) == (#[trigger] children@[k]).size as u32 by {
                    crate::words::lemma_word_at_same(before, self.output@, pos + 4 * n + 4 * k);
                }
            }
            k2 = k2 + 1;
        }
        Ok(())
    }
}

} // verus!
