use vstd::prelude::*;
use crate::fault::CatError;
use crate::fault::HeaderFault;
use crate::header::first_short_read;
use crate::manifest::ChildData;
use crate::reader::CatFileReader;
use crate::words::word_at;

verus! {

/// The largest file-block start at which a block read may begin.
pub const MAX_BLOCK_START: u64 = 0x3_FFFF_FFFF;

/// A decoded file-block header: the three fixed words and the relative
/// offset table.
pub ghost struct BlockShape {
    pub header_len: u32,
    pub count: u32,
    pub content_len: u32,
    /// The offsets of the payloads, each relative to the end of the block
    /// header.
    pub rel_off: Seq<u32>,
    /// Where the block starts.
    pub start: int,
    /// The cursor position just past the offset table.
    pub end_pos: int,
}

/// The raw relative offset of payload `i` of the block at `start`.
pub open spec fn block_rel_off(data: Seq<u8>, start: int, i: int) -> u32 {
    word_at(data, start + 12 + 4 * i)
}

/// The offset table describes payloads that lie one after another inside the
/// declared content: offsets never descend, and the last payload ends at or
/// after its start.
pub open spec fn block_table_ok(
    data: Seq<u8>,
    start: int,
    count: int,
    header_len: int,
    content_len: int,
) -> bool {
    &&& forall|i: int|
        0 <= i < count - 1 ==> #[trigger] block_rel_off(data, start, i) <= block_rel_off(
            data,
            start,
            i + 1,
        )
    &&& count > 0 ==> header_len + block_rel_off(data, start, count - 1) <= content_len
}

/// The absolute start of payload `i` of the block `bs`.
pub open spec fn block_child_offset(bs: BlockShape, i: int) -> int {
    bs.start + bs.header_len + bs.rel_off[i]
}

/// The byte length of payload `i` of the block `bs`: each payload runs to the
/// start of the next, and the last to the end of the declared content.
pub open spec fn block_child_size(bs: BlockShape, i: int) -> int {
    if i < bs.count - 1 {
        block_child_offset(bs, i + 1) - block_child_offset(bs, i)
    } else {
        bs.start + bs.content_len - block_child_offset(bs, i)
    }
}

/// What reading a file-block at `start` yields: the decoded table, or the
/// first fault the byte layout shows. A first word above 0xFF is no block
/// header; a block whose first word differs from `(count + 3) * 4`, whose
/// offsets descend, or whose last payload overruns the declared content is
/// malformed, reported at the block start.
pub open spec fn spec_read_block(data: Seq<u8>, start: int) -> Result<BlockShape, CatError> {
    let len = data.len() as int;
    if start + 4 > len {
        Err(CatError::Io(start as u64))
    } else if word_at(data, start) > 0xFF {
        Err(CatError::FileBlockWithoutHeader(start as u64))
    } else if start + 8 > len {
        Err(CatError::Io((start + 4) as u64))
    } else if start + 12 > len {
        Err(CatError::Io((start + 8) as u64))
    } else if word_at(data, start) != (word_at(data, start + 4) + 3) * 4 {
        Err(CatError::MalformedHeader(start as u64, HeaderFault::BadBlockLength))
    } else if start + 12 + 4 * (word_at(data, start + 4) as int) > len {
        Err(CatError::Io(first_short_read(len, start + 12) as u64))
    } else if !block_table_ok(
        data,
        start,
        word_at(data, start + 4) as int,
        word_at(data, start) as int,
        word_at(data, start + 8) as int,
    ) {
        Err(CatError::MalformedHeader(start as u64, HeaderFault::DescendingOffsets))
    } else {
        let count = word_at(data, start + 4) as int;
        Ok(BlockShape {
            header_len: word_at(data, start),
            count: word_at(data, start + 4),
            content_len: word_at(data, start + 8),
            rel_off: Seq::new(count as nat, |i: int| block_rel_off(data, start, i)),
            start,
            end_pos: start + 12 + 4 * count,
        })
    }
}

/// The decoded children carry exactly the absolute offsets and sizes the
/// block shape derives.
pub open spec fn block_children_match(children: Seq<ChildData>, bs: BlockShape) -> bool {
    &&& children.len() == bs.count
    &&& forall|i: int|
        0 <= i < children.len() ==> (#[trigger] children[i]).offset == block_child_offset(bs, i)
    &&& forall|i: int|
        0 <= i < children.len() ==> (#[trigger] children[i]).size == block_child_size(bs, i)
}

impl CatFileReader {
    /// Reads the file-block header at absolute position `offset` and returns
    /// the absolute position and size of each packed payload. The cursor is
    /// left just past the offset table.
    #[verifier::rlimit(100)]
    #[verifier::loop_isolation(false)]
    pub fn unpack_block(&mut self, offset: u64) -> (r: Result<Vec<ChildData>, CatError>)
        requires
            old(self).wf(),
            offset <= MAX_BLOCK_START,
        ensures
            final(self).wf(),
            final(self).only_pos_changed(*old(self)),
            spec_read_block(old(self).data@, offset as int) matches Ok(bs) ==> {
                &&& r matches Ok(children) && block_children_match(children@, bs)
                &&& final(self).pos == bs.end_pos
            },
            spec_read_block(old(self).data@, offset as int) matches Err(e) ==> r == Err::<
                Vec<ChildData>,
                CatError,
            >(e),
            spec_read_block(old(self).data@, offset as int) matches Err(e) && e is
                FileBlockWithoutHeader ==> final(self).pos == offset,
    {
        let ghost orig = *self;
        self.seek(offset);
        let first = match self.peek_u32() {
            Ok(v) => v,
            Err(e) => return Err(e),
        };
        if first > 0xFF {
            return Err(CatError::FileBlockWithoutHeader(offset));
        }
        let header_len = match self.read_u32() {
            Ok(v) => v,
            Err(e) => return Err(e),
        };
        let count = match self.read_u32() {
            Ok(v) => v,
            Err(e) => return Err(e),
        };
        let content_len = match self.read_u32() {
            Ok(v) => v,
            Err(e) => return Err(e),
        };
        if (header_len as u64) != ((count as u64) + 3) * 4 {
            return Err(CatError::MalformedHeader(offset, HeaderFault::BadBlockLength));
        }

        let table_base = offset + 12;
        let len = self.data.len() as u64;
        if 4 * (count as u64) > len || table_base + 4 * (count as u64) > len {
            let fail_at = if table_base > len {
                table_base
            } else {
                table_base + 4 * ((len - table_base) / 4)
            };
            return Err(CatError::Io(fail_at));
        }

        let ghost tb = table_base as int;
        let ghost gdata = self.data@;
        let mut rels: Vec<u32> = Vec::new();
        let mut i: u32 = 0;
        while i < count
            invariant
                0 <= i <= count,
                self.wf(),
                self.data == orig.data,
                self.outputs == orig.outputs,
                self.data@ == gdata,
                tb == offset + 12,
                offset <= MAX_BLOCK_START,
                self.pos == tb + 4 * i,
                tb + 4 * count <= self.data@.len(),
                rels@.len() == i as int,
                forall|j: int|
                    0 <= j < i as int ==> rels@[j] == block_rel_off(gdata, offset as int, j),
            decreases count - i,
        {
            let w = match self.read_u32() {
                Ok(v) => v,
                Err(e) => {
                    proof {
                        assert(false);
                    }
                    return Err(e);
                },
            };
            rels.push(w);
            i = i + 1;
        }

        // Reject a table whose payloads would descend or overrun the content.
        let mut k: u32 = 0;
        while k + 1 < count
            invariant
                0 <= k,
                count > 0 ==> k < count,
                count == 0 ==> k == 0,
                self.wf(),
                self.data == orig.data,
                self.outputs == orig.outputs,
                self.data@ == gdata,
                tb == offset + 12,
                offset <= MAX_BLOCK_START,
                self.pos == tb + 4 * count,
                rels@.len() == count as int,
                forall|j: int|
                    0 <= j < rels@.len() ==> rels@[j] == block_rel_off(gdata, offset as int, j),
                forall|j: int| 0 <= j < k as int ==> #[trigger] block_rel_off(
                    gdata,
                    offset as int,
                    j,
                ) <= block_rel_off(gdata, offset as int, j + 1),
            decreases count - k,
        {
            if rels[k as usize] > rels[(k + 1) as usize] {
                return Err(CatError::MalformedHeader(offset, HeaderFault::DescendingOffsets));
            }
            k = k + 1;
        }
        if count > 0 {
            if (header_len as u64) + (rels[(count - 1) as usize] as u64) > content_len as u64 {
                return Err(CatError::MalformedHeader(offset, HeaderFault::DescendingOffsets));
            }
        }
        proof {
            assert(block_table_ok(
                gdata,
                offset as int,
                count as int,
                header_len as int,
                content_len as int,
            ));
        }

        let base = offset + header_len as u64;
        let block_end = offset + content_len as u64;
        let mut children: Vec<ChildData> = Vec::new();
        let mut c: u32 = 0;
        while c < count
            invariant
                0 <= c <= count,
                self.wf(),
                self.data == orig.data,
                self.outputs == orig.outputs,
                self.data@ == gdata,
                tb == offset + 12,
                self.pos == tb + 4 * count,
                offset <= MAX_BLOCK_START,
                rels@.len() == count as int,
                forall|j: int|
                    0 <= j < rels@.len() ==> rels@[j] == block_rel_off(gdata, offset as int, j),
                forall|j: int| 0 <= j < count - 1 ==> #[trigger] block_rel_off(
                    gdata,
                    offset as int,
                    j,
                ) <= block_rel_off(gdata, offset as int, j + 1),
                count > 0 ==> header_len + block_rel_off(gdata, offset as int, count - 1)
                    <= content_len,
                base == offset + header_len as u64,
                block_end == offset + content_len as u64,
                children@.len() == c as int,
                forall|j: int|
                    0 <= j < c as int ==> (#[trigger] children@[j]).offset == base + rels@[j],
                forall|j: int|
                    0 <= j < c as int && j < count - 1 ==> (#[trigger] children@[j]).size
                        == rels@[j + 1] - rels@[j],
                forall|j: int|
                    0 <= j < c as int && j == count - 1 ==> (#[trigger] children@[j]).size
                        == content_len - header_len - rels@[j],
            decreases count - c,
        {
            let off_c = base + rels[c as usize] as u64;
            let size_c = if c + 1 < count {
                proof {
                    assert(block_rel_off(gdata, offset as int, c as int) <= block_rel_off(
                        gdata,
                        offset as int,
                        c as int + 1,
                    ));
                }
                (base + rels[(c + 1) as usize] as u64) - off_c
            } else {
                block_end - off_c
            };
            children.push(ChildData { offset: off_c, size: size_c });
            c = c + 1;
        }
        proof {
            let bs = spec_read_block(gdata, offset as int).unwrap();
            assert(bs.count == count && bs.header_len == header_len && bs.content_len
                == content_len && bs.start == offset as int);
            assert(forall|j: int| 0 <= j < count as int ==> bs.rel_off[j] == rels@[j]);
            assert forall|j: int| 0 <= j < children@.len() implies (
                #[trigger] children@[j]).offset == block_child_offset(bs, j) by {
                assert(rels@[j] == bs.rel_off[j]);
            }
            assert forall|j: int| 0 <= j < children@.len() implies (
                #[trigger] children@[j]).size == block_child_size(bs, j) by {
                assert(rels@[j] == bs.rel_off[j]);
                if j < count as int - 1 {
                    assert(rels@[j + 1] == bs.rel_off[j + 1]);
                }
            }
            assert(block_children_match(children@, bs));
        }
        Ok(children)
    }
}

/// The sum of the sizes of the first `k` payloads of the block `bs`.
pub open spec fn block_sizes_sum(bs: BlockShape, k: int) -> int
    decreases k,
{
    if k <= 0 {
        0
    } else {
        block_sizes_sum(bs, k - 1) + block_child_size(bs, k - 1)
    }
}

/// The first `k` payload sizes of a decoded block telescope: they sum to the
/// distance from the first payload to the start of payload `k`.
proof fn lemma_block_sizes_telescope(bs: BlockShape, k: int)
    requires
        bs.count > 0,
        bs.rel_off.len() == bs.count,
        0 <= k < bs.count,
    ensures
        block_sizes_sum(bs, k) == block_child_offset(bs, k) - block_child_offset(bs, 0),
    decreases k,
{
    if k > 0 {
        lemma_block_sizes_telescope(bs, k - 1);
    }
}

/// For every decoded file-block with at least one payload: the first payload
/// starts at the block start plus the header length plus its own relative
/// offset, and the payload sizes sum to the content length less the header
/// length less that same first offset. With the usual first relative offset
/// of zero this reads: the first payload starts right after the block header,
/// and the sizes sum to `content_length - header_length`.
pub proof fn lemma_block_sizes(data: Seq<u8>, start: int)
    requires
        spec_read_block(data, start) is Ok,
        spec_read_block(data, start).unwrap().count > 0,
    ensures
        ({
            let bs = spec_read_block(data, start).unwrap();
            &&& block_child_offset(bs, 0) == start + bs.header_len + bs.rel_off[0]
            &&& (bs.rel_off[0] == 0 ==> block_child_offset(bs, 0) == start + bs.header_len)
            &&& block_sizes_sum(bs, bs.count as int) == bs.content_len - bs.header_len
                - bs.rel_off[0]
        }),
{
    let bs = spec_read_block(data, start).unwrap();
    lemma_block_sizes_telescope(bs, bs.count as int - 1);
    assert(block_sizes_sum(bs, bs.count as int) == block_sizes_sum(bs, bs.count as int - 1)
        + block_child_size(bs, bs.count as int - 1));
}

/// Emitting then parsing a file-block gives back what was emitted: any byte
/// stream whose three header words carry the emitter's layout — a first word
/// of `(count + 3) * 4` at most 0xFF, and an offset table that never descends
/// and keeps its last payload inside the declared content — decodes to a
/// block with exactly those fields.
pub proof fn lemma_emitted_block_parses(data: Seq<u8>, start: int)
    requires
        0 <= start,
        start + 12 <= data.len(),
        word_at(data, start) <= 0xFF,
        word_at(data, start) == (word_at(data, start + 4) + 3) * 4,
        start + 12 + 4 * (word_at(data, start + 4) as int) <= data.len(),
        block_table_ok(
            data,
            start,
            word_at(data, start + 4) as int,
            word_at(data, start) as int,
            word_at(data, start + 8) as int,
        ),
    ensures
        spec_read_block(data, start) matches Ok(bs) && {
            &&& bs.header_len == word_at(data, start)
            &&& bs.count == word_at(data, start + 4)
            &&& bs.content_len == word_at(data, start + 8)
            &&& forall|i: int|
                0 <= i < bs.count ==> #[trigger] bs.rel_off[i] == block_rel_off(data, start, i)
        },
{
}

} // verus!
