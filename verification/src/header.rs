use vstd::prelude::*;
use crate::fault::CatError;
use crate::fault::HeaderFault;
use crate::manifest::ChildData;
use crate::manifest::ContainerHeader;
use crate::reader::CatFileReader;
use crate::words::spec_align_up;
use crate::words::word_at;

verus! {

/// The largest container start at which a header read may begin: the cursor
/// arithmetic of the read stays below the reader's position bound.
pub const MAX_HEADER_START: u64 = 0x2_FFFF_FFFF;

/// A decoded container header, as the byte layout spells it: the raw table
/// words together with the positions the decoder derives from them.
pub ghost struct HeaderShape {
    pub version: u32,
    pub format: u32,
    /// The header size after the zero remap.
    pub size: u32,
    pub content_size: u32,
    pub alignment: u32,
    /// The raw child offsets, each relative to `byte_zero`.
    pub child_off: Seq<u32>,
    /// The raw child sizes.
    pub child_size: Seq<u32>,
    /// Where the container starts.
    pub start: int,
    /// The position just after the padded first header part: child offsets
    /// count from here.
    pub byte_zero: int,
    /// The cursor position after the child table, aligned to `alignment`.
    pub end_pos: int,
}

/// The position of the first whole-word read at or after `tb` that runs past
/// `len`.
pub open spec fn first_short_read(len: int, tb: int) -> int {
    if tb > len {
        tb
    } else {
        tb + 4 * ((len - tb) / 4)
    }
}

/// What reading a container header at `start` yields: the decoded fields, or
/// the first fault the byte layout shows. Reads past `data` fail with `Io` at
/// the position of the first word that does not fit; each malformed field
/// fails at the position of its first byte.
pub open spec fn spec_read_header(data: Seq<u8>, start: int) -> Result<HeaderShape, CatError> {
    let len = data.len() as int;
    if start + 4 > len {
        Err(CatError::Io(start as u64))
    } else if word_at(data, start) != 1 {
        Err(CatError::MalformedHeader(start as u64, HeaderFault::BadMagic))
    } else if start + 8 > len {
        Err(CatError::Io((start + 4) as u64))
    } else if word_at(data, start + 4) >= 3 {
        Err(CatError::MalformedHeader((start + 4) as u64, HeaderFault::BadVersion))
    } else if start + 12 > len {
        Err(CatError::Io((start + 8) as u64))
    } else if word_at(data, start + 8) != 0 {
        Err(CatError::MalformedHeader((start + 8) as u64, HeaderFault::ReservedWord))
    } else if start + 16 > len {
        Err(CatError::Io((start + 12) as u64))
    } else if remap_header_size(word_at(data, start + 12)) < 32 {
        Err(CatError::MalformedHeader((start + 12) as u64, HeaderFault::HeaderSizeTooSmall))
    } else if start + 20 > len {
        Err(CatError::Io((start + 16) as u64))
    } else {
        let size = remap_header_size(word_at(data, start + 12));
        let bz = start + size;
        if bz + 4 > len {
            Err(CatError::Io(bz as u64))
        } else if word_at(data, bz) != 0 {
            Err(CatError::MalformedHeader(bz as u64, HeaderFault::ReservedWord))
        } else if bz + 8 > len {
            Err(CatError::Io((bz + 4) as u64))
        } else if bz + 12 > len {
            Err(CatError::Io((bz + 8) as u64))
        } else if bz + 16 > len {
            Err(CatError::Io((bz + 12) as u64))
        } else if word_at(data, bz + 12) == 0 {
            Err(CatError::MalformedHeader((bz + 12) as u64, HeaderFault::AlignmentZero))
        } else if bz + 20 > len {
            Err(CatError::Io((bz + 16) as u64))
        } else if word_at(data, bz + 16) != 0 {
            Err(CatError::MalformedHeader((bz + 16) as u64, HeaderFault::ReservedWord))
        } else if bz + 20 + 8 * (word_at(data, bz + 4) as int) > len {
            Err(CatError::Io(first_short_read(len, bz + 20) as u64))
        } else {
            let count = word_at(data, bz + 4) as int;
            let tb = bz + 20;
            Ok(HeaderShape {
                version: word_at(data, start + 4),
                format: word_at(data, bz + 8),
                size,
                content_size: word_at(data, start + 16),
                alignment: word_at(data, bz + 12),
                child_off: Seq::new(count as nat, |i: int| word_at(data, tb + 4 * i)),
                child_size: Seq::new(
                    count as nat,
                    |i: int| word_at(data, tb + 4 * count + 4 * i),
                ),
                start,
                byte_zero: bz,
                end_pos: spec_align_up(tb + 8 * count, word_at(data, bz + 12) as int),
            })
        }
    }
}

/// A header-size word of zero stands for 256; every other value stands for
/// itself.
pub open spec fn remap_header_size(raw: u32) -> u32 {
    if raw == 0 {
        256
    } else {
        raw
    }
}

/// The decoded header `h` carries exactly the fields of the shape `sh`, with
/// each child offset made absolute from `byte_zero`.
pub open spec fn header_matches(h: ContainerHeader, sh: HeaderShape) -> bool {
    &&& h.version == sh.version
    &&& h.format == sh.format
    &&& h.size == sh.size
    &&& h.content_size == sh.content_size
    &&& h.alignment == sh.alignment
    &&& h.children@.len() == sh.child_off.len()
    &&& sh.child_size.len() == sh.child_off.len()
    &&& forall|i: int|
        0 <= i < h.children@.len() ==> (#[trigger] h.children@[i]).offset == sh.byte_zero
            + sh.child_off[i]
    &&& forall|i: int|
        0 <= i < h.children@.len() ==> (#[trigger] h.children@[i]).size == sh.child_size[i]
}

impl CatFileReader {
    /// Reads the two-part container header under the cursor and leaves the
    /// cursor aligned just past the child table.
    pub fn read_header(&mut self) -> (r: Result<ContainerHeader, CatError>)
        requires
            old(self).wf(),
            old(self).pos <= MAX_HEADER_START,
        ensures
            final(self).wf(),
            final(self).only_pos_changed(*old(self)),
            spec_read_header(old(self).data@, old(self).pos as int) matches Ok(sh) ==> {
                &&& r matches Ok(h) && header_matches(h, sh)
                &&& final(self).pos == sh.end_pos
            },
            spec_read_header(old(self).data@, old(self).pos as int) matches Err(e) ==> r
                == Err::<ContainerHeader, CatError>(e),
    {
        let start = self.pos;
        let w0 = match self.read_u32() {
            Ok(v) => v,
            Err(e) => return Err(e),
        };
        if w0 != 1 {
            return Err(CatError::MalformedHeader(start, HeaderFault::BadMagic));
        }
        let version = match self.read_u32() {
            Ok(v) => v,
            Err(e) => return Err(e),
        };
        if version >= 3 {
            return Err(CatError::MalformedHeader(start + 4, HeaderFault::BadVersion));
        }
        let w2 = match self.read_u32() {
            Ok(v) => v,
            Err(e) => return Err(e),
        };
        if w2 != 0 {
            return Err(CatError::MalformedHeader(start + 8, HeaderFault::ReservedWord));
        }
        let raw_size = match self.read_u32() {
            Ok(v) => v,
            Err(e) => return Err(e),
        };
        let size = if raw_size == 0 { 256 } else { raw_size };
        if size < 32 {
            return Err(CatError::MalformedHeader(start + 12, HeaderFault::HeaderSizeTooSmall));
        }
        let content_size = match self.read_u32() {
            Ok(v) => v,
            Err(e) => return Err(e),
        };

        // The first part is padded with zeros up to `size` bytes from the
        // container start; the second part begins right after, and child
        // offsets count from there.
        let byte_zero = start + size as u64;
        self.seek(byte_zero);

        let w5 = match self.read_u32() {
            Ok(v) => v,
            Err(e) => return Err(e),
        };
        if w5 != 0 {
            return Err(CatError::MalformedHeader(byte_zero, HeaderFault::ReservedWord));
        }
        let child_count = match self.read_u32() {
            Ok(v) => v,
            Err(e) => return Err(e),
        };
        let format = match self.read_u32() {
            Ok(v) => v,
            Err(e) => return Err(e),
        };
        let alignment = match self.read_u32() {
            Ok(v) => v,
            Err(e) => return Err(e),
        };
        if alignment == 0 {
            return Err(CatError::MalformedHeader(byte_zero + 12, HeaderFault::AlignmentZero));
        }
        let w9 = match self.read_u32() {
            Ok(v) => v,
            Err(e) => return Err(e),
        };
        if w9 != 0 {
            return Err(CatError::MalformedHeader(byte_zero + 16, HeaderFault::ReservedWord));
        }

        let table_base = byte_zero + 20;
        let len = self.data.len() as u64;
        if 8 * (child_count as u64) > len || table_base + 8 * (child_count as u64) > len {
            // The first word of the table that does not fit is where the
            // failing read would have happened.
            let fail_at = if table_base > len {
                table_base
            } else {
                table_base + 4 * ((len - table_base) / 4)
            };
            return Err(CatError::Io(fail_at));
        }

        let ghost tb = table_base as int;
        let ghost orig = *self;
        let ghost gdata = self.data@;
        let mut offs: Vec<u32> = Vec::new();
        let mut i: u32 = 0;
        while i < child_count
            invariant
                0 <= i <= child_count,
                self.wf(),
                self.data == orig.data,
                self.outputs == orig.outputs,
                self.data@ == gdata,
                self.pos == tb + 4 * i,
                tb + 8 * child_count <= self.data@.len(),
                offs@.len() == i as int,
                forall|j: int| 0 <= j < i as int ==> offs@[j] == word_at(gdata, tb + 4 * j),
            decreases child_count - i,
        {
            let w = match self.read_u32() {
                Ok(v) => v,
                Err(e) => {
                    proof {
                        assert(false);
                    }
                    return Err(e);
                },
            };
            offs.push(w);
            i = i + 1;
        }
        let mut szs: Vec<u32> = Vec::new();
        let mut i2: u32 = 0;
        while i2 < child_count
            invariant
                0 <= i2 <= child_count,
                self.wf(),
                self.data == orig.data,
                self.outputs == orig.outputs,
                self.data@ == gdata,
                self.pos == tb + 4 * child_count + 4 * i2,
                tb + 8 * child_count <= self.data@.len(),
                szs@.len() == i2 as int,
                forall|j: int|
                    0 <= j < i2 as int ==> szs@[j] == word_at(
                        gdata,
                        tb + 4 * child_count + 4 * j,
                    ),
            decreases child_count - i2,
        {
            let w = match self.read_u32() {
                Ok(v) => v,
                Err(e) => {
                    proof {
                        assert(false);
                    }
                    return Err(e);
                },
            };
            szs.push(w);
            i2 = i2 + 1;
        }

        self.align(alignment);

        let mut children: Vec<ChildData> = Vec::new();
        let mut k: u32 = 0;
        while k < child_count
            invariant
                0 <= k <= child_count,
                offs@.len() == child_count as int,
                szs@.len() == child_count as int,
                byte_zero <= MAX_HEADER_START + 0x1_0000_0000,
                children@.len() == k as int,
                forall|j: int|
                    0 <= j < k as int ==> (#[trigger] children@[j]).offset == byte_zero + offs@[j],
                forall|j: int| 0 <= j < k as int ==> (#[trigger] children@[j]).size == szs@[j],
            decreases child_count - k,
        {
            children.push(
                ChildData {
                    offset: byte_zero + offs[k as usize] as u64,
                    size: szs[k as usize] as u64,
                },
            );
            k = k + 1;
        }

        let header = ContainerHeader { version, format, size, content_size, alignment, children };
        proof {
            let sh = spec_read_header(gdata, start as int).unwrap();
            assert(header.children@.len() == sh.child_off.len());
            assert forall|j: int| 0 <= j < header.children@.len() implies (
                #[trigger] header.children@[j]).offset == sh.byte_zero + sh.child_off[j] by {
                assert(offs@[j] == word_at(gdata, tb + 4 * j));
            }
            assert forall|j: int| 0 <= j < header.children@.len() implies (
                #[trigger] header.children@[j]).size == sh.child_size[j] by {
                assert(szs@[j] == word_at(gdata, tb + 4 * (child_count as int) + 4 * j));
            }
        }
        Ok(header)
    }
}

/// Every accepted header is in range: the alignment is positive, the header
/// size is at least 32, the version is below 3, and child offsets count from
/// the byte right after the padded first part. A raw header-size word of zero
/// is accepted as if it were 256; any other accepted word stands for itself.
pub proof fn lemma_header_accepted_ranges(data: Seq<u8>, start: int)
    requires
        0 <= start,
        spec_read_header(data, start) is Ok,
    ensures
        ({
            let sh = spec_read_header(data, start).unwrap();
            &&& sh.alignment > 0
            &&& sh.size >= 32
            &&& sh.version < 3
            &&& sh.byte_zero == start + sh.size
            &&& (word_at(data, start + 12) == 0 ==> sh.size == 256)
            &&& (word_at(data, start + 12) != 0 ==> sh.size == word_at(data, start + 12))
            &&& sh.byte_zero + 20 + 8 * sh.child_off.len() <= data.len()
            &&& sh.child_off.len() == sh.child_size.len()
            &&& sh.byte_zero + 20 + 8 * sh.child_off.len() <= sh.end_pos < sh.byte_zero + 20 + 8
                * sh.child_off.len() + sh.alignment
        }),
{
    let sh = spec_read_header(data, start).unwrap();
    crate::words::lemma_align_up(
        sh.byte_zero + 20 + 8 * sh.child_off.len(),
        sh.alignment as int,
    );
}

/// Headers seen in the wild carry a raw size word of 0, 32, 64 or 256; each
/// such accepted header has its size in {32, 64, 256}. The decoder itself
/// accepts any size of at least 32, so the premise names the observed words.
pub proof fn lemma_header_size_observed(data: Seq<u8>, start: int)
    requires
        spec_read_header(data, start) is Ok,
        word_at(data, start + 12) == 0 || word_at(data, start + 12) == 32 || word_at(
            data,
            start + 12,
        ) == 64 || word_at(data, start + 12) == 256,
    ensures
        ({
            let sh = spec_read_header(data, start).unwrap();
            sh.size == 32 || sh.size == 64 || sh.size == 256
        }),
{
}

/// Every absolute child offset is `byte_zero` plus its raw table word, and so
/// never lands before the end of the header.
pub proof fn lemma_child_offsets_lower_bound(data: Seq<u8>, start: int)
    requires
        spec_read_header(data, start) is Ok,
    ensures
        ({
            let sh = spec_read_header(data, start).unwrap();
            forall|i: int|
                0 <= i < sh.child_off.len() ==> start + sh.size <= sh.byte_zero
                    + #[trigger] sh.child_off[i]
        }),
{
}

/// A child table that keeps each child inside the declared content and lets
/// the children ascend places every child between the end of the header and
/// the end of the container, with adjacent children not overlapping. The
/// decoder does not reject a table that breaks these bounds, so they are
/// stated of tables that keep them.
pub proof fn lemma_children_within_container(data: Seq<u8>, start: int)
    requires
        spec_read_header(data, start) is Ok,
        ({
            let sh = spec_read_header(data, start).unwrap();
            forall|i: int|
                0 <= i < sh.child_off.len() ==> #[trigger] sh.child_off[i] + sh.child_size[i]
                    <= sh.content_size
        }),
    ensures
        ({
            let sh = spec_read_header(data, start).unwrap();
            forall|i: int|
                0 <= i < sh.child_off.len() ==> {
                    &&& start + sh.size <= sh.byte_zero + #[trigger] sh.child_off[i]
                    &&& sh.byte_zero + sh.child_off[i] + sh.child_size[i] <= start + sh.size
                        + sh.content_size
                }
        }),
{
}

/// Adjacent children of a table whose entries ascend do not overlap: each
/// ends at or before the next begins, in absolute positions too.
pub proof fn lemma_adjacent_children_disjoint(data: Seq<u8>, start: int)
    requires
        spec_read_header(data, start) is Ok,
        ({
            let sh = spec_read_header(data, start).unwrap();
            forall|i: int|
                0 <= i < sh.child_off.len() - 1 ==> #[trigger] sh.child_off[i] + sh.child_size[i]
                    <= sh.child_off[i + 1]
        }),
    ensures
        ({
            let sh = spec_read_header(data, start).unwrap();
            forall|i: int|
                0 <= i < sh.child_off.len() - 1 ==> sh.byte_zero + #[trigger] sh.child_off[i]
                    + sh.child_size[i] <= sh.byte_zero + sh.child_off[i + 1]
        }),
{
}

/// Emitting then parsing a container header gives back what was emitted: any
/// byte stream that carries the emitter's layout — the sentinel, a version
/// below 3, the zeroed reserved words, a size of at least 32, and the second
/// part's words right at `start + size` — decodes to a header with exactly
/// those fields, and with each child offset and size read from the table that
/// follows.
pub proof fn lemma_emitted_header_parses(data: Seq<u8>, start: int)
    requires
        0 <= start,
        start + 20 <= data.len(),
        word_at(data, start) == 1,
        word_at(data, start + 4) < 3,
        word_at(data, start + 8) == 0,
        word_at(data, start + 12) >= 32,
        ({
            let size = word_at(data, start + 12) as int;
            &&& start + size + 20 + 8 * (word_at(data, start + size + 4) as int) <= data.len()
            &&& word_at(data, start + size) == 0
            &&& word_at(data, start + size + 12) != 0
            &&& word_at(data, start + size + 16) == 0
        }),
    ensures
        spec_read_header(data, start) matches Ok(sh) && {
            let size = word_at(data, start + 12) as int;
            let bz = start + size;
            let tb = bz + 20;
            &&& sh.version == word_at(data, start + 4)
            &&& sh.size == word_at(data, start + 12)
            &&& sh.content_size == word_at(data, start + 16)
            &&& sh.format == word_at(data, bz + 8)
            &&& sh.alignment == word_at(data, bz + 12)
            &&& sh.byte_zero == bz
            &&& sh.child_off.len() == word_at(data, bz + 4)
            &&& forall|i: int|
                0 <= i < sh.child_off.len() ==> #[trigger] sh.child_off[i] == word_at(
                    data,
                    tb + 4 * i,
                )
            &&& forall|i: int|
                0 <= i < sh.child_size.len() ==> #[trigger] sh.child_size[i] == word_at(
                    data,
                    tb + 4 * (sh.child_off.len() as int) + 4 * i,
                )
        },
{
}

} // verus!
