use vstd::prelude::*;
use crate::block::block_child_offset;
use crate::block::block_children_match;
use crate::block::block_child_size;
use crate::block::spec_read_block;
use crate::block::BlockShape;
use crate::fault::CatError;
use crate::fault::HeaderFault;
use crate::fault::PayloadKind;
use crate::header::spec_read_header;
use crate::header::MAX_HEADER_START;
use crate::magic::magic_kind;
use crate::magic::push_extension;
use crate::magic::spec_extension_bytes;
use crate::magic::spec_magic_kind;
use crate::magic::MagicKind;
use crate::magic::GNF;
use crate::manifest::extends;
use crate::manifest::lemma_extends_push;
use crate::manifest::lemma_extends_refl;
use crate::manifest::lemma_extends_trans;
use crate::manifest::ArchiveEntry;
use crate::manifest::ChildData;
use crate::manifest::Container;
use crate::manifest::ContainerHeader;
use crate::manifest::OutputData;
use crate::manifest::OutputFile;
use crate::names::names_of;
use crate::names::string_bytes;
use crate::reader::CatFileReader;
use crate::texture::decode_dds_image;
use crate::texture::dds_image_of;
use crate::texture::spec_texture_descriptor;
use crate::texture::texture_format_of_dds;
use crate::texture::ImageData;
use crate::texture::Texture;
use crate::textfmt::hex_name;
use crate::textfmt::hex_name_bytes;
use crate::textfmt::name_with_extension;
use crate::textfmt::named_file_bytes;
use crate::textfmt::png_ext;
use crate::textfmt::texture_filename;
use crate::textfmt::texture_name_bytes;
use crate::words::be_word_at;
use crate::words::word_at;

verus! {

/// A magic kind that rewrites a listed name's extension: the four recognised
/// opaque payload kinds.
pub open spec fn overriding_kind(k: MagicKind) -> bool {
    k == MagicKind::Tmd0 || k == MagicKind::Tmo1 || k == MagicKind::A001 || k == MagicKind::Ddv
}

/// The file name a named payload is stored under: the listed name, with the
/// magic table's extension where the payload's leading word is recognised.
pub open spec fn spec_named_filename(data: Seq<u8>, name: Seq<u8>, off: int) -> Seq<u8> {
    let k = spec_magic_kind(be_word_at(data, off));
    if overriding_kind(k) {
        named_file_bytes(name, spec_extension_bytes(k))
    } else {
        name
    }
}

/// Every payload child of a name-list container can be handled: its leading
/// word is readable and is not the refused GNF magic, and its whole span lies
/// inside the input.
pub open spec fn format1_children_ok(d: Seq<u8>, children: Seq<ChildData>) -> bool {
    forall|i: int|
        1 <= i < children.len() ==> {
            let c = #[trigger] children[i];
            &&& c.offset + 4 <= d.len()
            &&& spec_magic_kind(be_word_at(d, c.offset as int)) != MagicKind::Gnf
            &&& c.offset + c.size <= d.len()
        }
}

/// The bytes of payload `i` of the file-block `bs` inside `d`.
pub open spec fn block_payload(d: Seq<u8>, bs: BlockShape, i: int) -> Seq<u8> {
    d.subrange(block_child_offset(bs, i), block_child_offset(bs, i) + block_child_size(bs, i))
}

/// Every listed texture of an atlas decodes: one file-block payload per
/// name, each inside the input, each decoding to an image with a recordable
/// descriptor.
pub open spec fn atlas_payloads_ok(d: Seq<u8>, bs: BlockShape, count: int) -> bool {
    forall|i: int|
        0 <= i < count ==> {
            &&& 0 <= #[trigger] block_child_offset(bs, i)
            &&& block_child_offset(bs, i) + block_child_size(bs, i) <= d.len()
            &&& dds_image_of(block_payload(d, bs, i)) is Some
            &&& spec_texture_descriptor(block_payload(d, bs, i)) is Ok
        }
}

/// A texture atlas at `off` in `d` unpacks in full: its sub-container is a
/// plain two-child container, the name table decodes, the image block is a
/// well-formed file-block not led by the GNF magic, and every listed texture
/// decodes.
pub open spec fn ok_atlas(d: Seq<u8>, off: int) -> bool {
    spec_read_header(d, off) matches Ok(sh) && ({
        let so = sh.byte_zero + sh.child_off[0];
        let ss = sh.child_size[0] as int;
        let io = sh.byte_zero + sh.child_off[1];
        let tbl = d.subrange(so, so + ss);
        &&& sh.format == 0
        &&& sh.child_off.len() == 2
        &&& so + ss <= d.len()
        &&& crate::names::all_names_valid(tbl, 0)
        &&& io + 4 <= d.len()
        &&& be_word_at(d, io) != GNF
        &&& spec_read_block(d, io) matches Ok(bs) && ({
            &&& names_of(tbl, 0).len() <= bs.count
            &&& atlas_payloads_ok(d, bs, names_of(tbl, 0).len() as int)
        })
    })
}

/// The texture atlas at `off` carries the refused GNF magic: its
/// sub-container parses as a plain two-child container, its name table
/// decodes, and its image block leads with the GNF word.
pub open spec fn atlas_gnf(d: Seq<u8>, off: int) -> bool {
    spec_read_header(d, off) matches Ok(sh2) && ({
        let so = sh2.byte_zero + sh2.child_off[0];
        let ss = sh2.child_size[0] as int;
        let io = sh2.byte_zero + sh2.child_off[1];
        &&& sh2.format == 0
        &&& sh2.child_off.len() == 2
        &&& so + ss <= d.len()
        &&& crate::names::all_names_valid(d.subrange(so, so + ss), 0)
        &&& io + 4 <= d.len()
        &&& be_word_at(d, io) == GNF
    })
}

/// A bare texture stream unpacks in full: a well-formed file-block at the
/// start of the input whose every payload decodes to an image with a
/// recordable descriptor.
pub open spec fn ok_gxt(d: Seq<u8>) -> bool {
    spec_read_block(d, 0) matches Ok(bs) && atlas_payloads_ok(d, bs, bs.count as int)
}

/// The textures and recorded images that unpacking an atlas yields, stated
/// of each position: the listed name, the file name spelled from the decoded
/// width and height, the probed descriptor, and the decoded image itself.
pub open spec fn atlas_textures_match(
    d: Seq<u8>,
    bs: BlockShape,
    names: Seq<Seq<u8>>,
    ts: Seq<crate::texture::Texture>,
    outs: Seq<OutputFile>,
    base: int,
) -> bool {
    forall|i: int|
        0 <= i < ts.len() ==> ({
            let pb = #[trigger] block_payload(d, bs, i);
            &&& string_bytes(ts[i].name) == names[i]
            &&& dds_image_of(pb) matches Some(whd) && ({
                &&& string_bytes(ts[i].filename) == texture_name_bytes(
                    names[i],
                    whd.0 as int,
                    whd.1 as int,
                )
                &&& Ok::<crate::texture::TextureFormat, CatError>(ts[i].format)
                    == spec_texture_descriptor(pb)
                &&& ({
                    let f = outs[base + i];
                    &&& string_bytes(f.name) == texture_name_bytes(
                        names[i],
                        whd.0 as int,
                        whd.1 as int,
                    )
                    &&& f.contents matches OutputData::Png(img) && img.width == whd.0
                        && img.height == whd.1 && img.rgba@ == whd.2
                })
            })
        })
}

/// A name-list container's payload decodes in full: the name table is in
/// bounds and valid, it lists a name for every payload, and every payload's
/// leading word is readable and is not the refused GNF magic.
pub open spec fn ok_list(d: Seq<u8>, sh: crate::header::HeaderShape) -> bool {
    &&& sh.child_off.len() >= 1
    &&& ({
        let so = sh.byte_zero + sh.child_off[0];
        let ss = sh.child_size[0] as int;
        let tbl = d.subrange(so, so + ss);
        &&& so + ss <= d.len()
        &&& crate::names::all_names_valid(tbl, 0)
        &&& names_of(tbl, 0).len() >= sh.child_off.len() - 1
    })
    &&& forall|i: int|
        1 <= i < sh.child_off.len() ==> ({
            let off = sh.byte_zero + #[trigger] sh.child_off[i];
            &&& off + 4 <= d.len()
            &&& spec_magic_kind(be_word_at(d, off)) != MagicKind::Gnf
            &&& off + sh.child_size[i] <= d.len()
        })
}

/// A packed pair decodes in full: a plain two-child container at `p` whose
/// children both lie inside the input.
pub open spec fn ok_pair(d: Seq<u8>, p: int) -> bool {
    spec_read_header(d, p) matches Ok(nsh) && ({
        &&& nsh.format == 0
        &&& nsh.child_off.len() == 2
        &&& nsh.byte_zero + nsh.child_off[0] + nsh.child_size[0] <= d.len()
        &&& nsh.byte_zero + nsh.child_off[1] + nsh.child_size[1] <= d.len()
    })
}

/// A container tree at `start` unpacks in full: the header parses, the
/// format has a decoder, and every child the walker visits decodes in turn —
/// nested containers recursively, leaves, name lists, atlases and pairs by
/// their own conditions.
pub open spec fn ok_tree(d: Seq<u8>, start: int) -> bool
    decreases d.len() - start,
    when 0 <= start <= d.len()
    via ok_tree_decreases
{
    spec_read_header(d, start) matches Ok(sh) && ({
        let bz = sh.byte_zero;
        &&& sh.format != 6
        &&& (sh.format == 0 ==> forall|i: int|
            0 <= i < sh.child_off.len() ==> ({
                let off = bz + #[trigger] sh.child_off[i];
                &&& off + 4 <= d.len()
                &&& (word_at(d, off) == 1 ==> ok_tree(d, off))
                &&& (word_at(d, off) != 1 ==> spec_magic_kind(be_word_at(d, off))
                    != MagicKind::Gnf && off + sh.child_size[i] <= d.len())
            }))
        &&& ((sh.format == 1 || sh.format == 3 || sh.format == 4 || sh.format == 7) ==> ok_list(
            d,
            sh,
        ))
        &&& (sh.format == 2 ==> forall|i: int|
            0 <= i < sh.child_off.len() ==> ok_atlas(d, bz + #[trigger] sh.child_off[i]))
        &&& (sh.format == 8 ==> sh.child_off.len() == 1 && ok_pair(d, sh.end_pos))
        &&& ((sh.format == 5 || sh.format > 8) ==> forall|i: int|
            0 <= i < sh.child_off.len() ==> bz + #[trigger] sh.child_off[i] + sh.child_size[i]
                <= d.len())
    })
}

#[via_fn]
proof fn ok_tree_decreases(d: Seq<u8>, start: int) {
    if spec_read_header(d, start) is Ok {
        crate::header::lemma_header_accepted_ranges(d, start);
    }
}

impl CatFileReader {
    /// Records the payload `[child.offset, child.offset + child.size)` for
    /// extraction under `name`.
    pub fn extract_file(&mut self, child: &ChildData, name: String) -> (r: Result<(), CatError>)
        requires
            old(self).wf(),
        ensures
            final(self).wf(),
            final(self).data == old(self).data,
            final(self).pos == old(self).pos,
            extends(final(self).outputs@, old(self).outputs@),
            child.offset + child.size > old(self).data@.len() ==> r == Err::<(), CatError>(
                CatError::Io(child.offset),
            ) && final(self).outputs == old(self).outputs,
            child.offset + child.size <= old(self).data@.len() ==> r is Ok && {
                &&& final(self).outputs@.len() == old(self).outputs@.len() + 1
                &&& ({
                    let f = final(self).outputs@.last();
                    &&& f.name == name
                    &&& f.contents matches OutputData::Raw(v) && v@ == old(self).data@.subrange(
                        child.offset as int,
                        child.offset as int + child.size as int,
                    )
                })
            },
    {
        let bytes = match self.read_bytes_at(child.offset, child.size) {
            Ok(v) => v,
            Err(e) => {
                proof {
                    lemma_extends_refl(self.outputs@);
                }
                return Err(e);
            },
        };
        let f = OutputFile { name, contents: OutputData::Raw(bytes) };
        proof {
            lemma_extends_push(self.outputs@, f);
        }
        self.outputs.push(f);
        Ok(())
    }

    /// Records a decoded texture for extraction under `name` as a lossless
    /// image file.
    pub fn record_png(&mut self, name: String, img: ImageData)
        requires
            old(self).wf(),
        ensures
            final(self).wf(),
            final(self).data == old(self).data,
            final(self).pos == old(self).pos,
            extends(final(self).outputs@, old(self).outputs@),
            final(self).outputs@.len() == old(self).outputs@.len() + 1,
            ({
                let f = final(self).outputs@.last();
                &&& f.name == name
                &&& f.contents matches OutputData::Png(i) && i == img
            }),
    {
        let f = OutputFile { name, contents: OutputData::Png(img) };
        proof {
            lemma_extends_push(self.outputs@, f);
        }
        self.outputs.push(f);
    }

    /// Unpacks the archive: a stream led by the container sentinel word 1 is
    /// walked as a container tree; anything else is read as a bare file-block
    /// of textures.
    pub fn unpack(&mut self) -> (r: Result<ArchiveEntry, CatError>)
        requires
            old(self).wf(),
            old(self).pos <= old(self).data@.len(),
        ensures
            final(self).wf(),
            final(self).data == old(self).data,
            extends(final(self).outputs@, old(self).outputs@),
            old(self).pos + 4 > old(self).data@.len() ==> r == Err::<ArchiveEntry, CatError>(
                CatError::Io(old(self).pos),
            ),
            old(self).pos + 4 <= old(self).data@.len() && word_at(
                old(self).data@,
                old(self).pos as int,
            ) == 1 ==> {
                &&& spec_read_header(old(self).data@, old(self).pos as int) matches Err(e) ==> r
                    == Err::<ArchiveEntry, CatError>(e)
                &&& (spec_read_header(old(self).data@, old(self).pos as int) matches Ok(sh)
                    && sh.format == 6) ==> r == Err::<ArchiveEntry, CatError>(
                    CatError::UnrecognisedVariant(6),
                )
                &&& r matches Ok(entry) ==> {
                    &&& spec_read_header(old(self).data@, old(self).pos as int) matches Ok(sh)
                    &&& entry matches ArchiveEntry::Container(c) && c.version == sh.version
                        && c.format == sh.format && c.size == sh.size && c.alignment
                        == sh.alignment
                    &&& final(self).pos == old(self).pos + sh.size + sh.content_size
                }
                &&& ok_tree(old(self).data@, old(self).pos as int) ==> r is Ok
                &&& (spec_read_header(old(self).data@, old(self).pos as int) matches Ok(sh)
                    && sh.format == 2 && sh.child_off.len() >= 1 && atlas_gnf(
                    old(self).data@,
                    sh.byte_zero + sh.child_off[0],
                )) ==> r == Err::<ArchiveEntry, CatError>(
                    CatError::UnsupportedPayload(PayloadKind::Gnf),
                )
            },
            old(self).pos + 4 <= old(self).data@.len() && word_at(
                old(self).data@,
                old(self).pos as int,
            ) != 1 ==> {
                &&& spec_read_block(old(self).data@, 0) matches Err(e) ==> r == Err::<
                    ArchiveEntry,
                    CatError,
                >(e)
                &&& r matches Ok(entry) ==> entry is Textures
                &&& ok_gxt(old(self).data@) ==> r is Ok
            },
    {
        let value = match self.peek_u32() {
            Ok(v) => v,
            Err(e) => {
                proof {
                    lemma_extends_refl(self.outputs@);
                }
                return Err(e);
            },
        };
        if value == 1 {
            self.unpack_container()
        } else {
            self.unpack_gxt()
        }
    }

    /// Walks one container at the cursor, returning its manifest node and
    /// leaving the cursor exactly at the container's end.
    #[verifier::loop_isolation(false)]
    #[verifier::rlimit(100)]
    pub fn unpack_container(&mut self) -> (r: Result<ArchiveEntry, CatError>)
        requires
            old(self).wf(),
            old(self).pos <= old(self).data@.len(),
        ensures
            final(self).wf(),
            final(self).data == old(self).data,
            extends(final(self).outputs@, old(self).outputs@),
            spec_read_header(old(self).data@, old(self).pos as int) matches Err(e) ==> r == Err::<
                ArchiveEntry,
                CatError,
            >(e),
            (spec_read_header(old(self).data@, old(self).pos as int) matches Ok(sh) && sh.format
                == 6) ==> r == Err::<ArchiveEntry, CatError>(CatError::UnrecognisedVariant(6)),
            r matches Ok(entry) ==> {
                &&& spec_read_header(old(self).data@, old(self).pos as int) matches Ok(sh)
                &&& entry matches ArchiveEntry::Container(c) && c.version == sh.version
                    && c.format == sh.format && c.size == sh.size && c.alignment == sh.alignment
                &&& final(self).pos == old(self).pos + sh.size + sh.content_size
            },
            ok_tree(old(self).data@, old(self).pos as int) ==> r is Ok,
            spec_read_header(old(self).data@, old(self).pos as int) matches Ok(sh) && sh.format
                == 2 && sh.child_off.len() >= 1 && atlas_gnf(
                old(self).data@,
                sh.byte_zero + sh.child_off[0],
            ) ==> r == Err::<ArchiveEntry, CatError>(
                CatError::UnsupportedPayload(PayloadKind::Gnf),
            ),
            r matches Ok(entry) ==> entry matches ArchiveEntry::Container(c) && ({
                let d = old(self).data@;
                spec_read_header(d, old(self).pos as int) matches Ok(sh) && ({
                    let bz = sh.byte_zero;
                    &&& (sh.format == 0 ==> c.children@.len() == sh.child_off.len() && forall|
                        i: int,
                    |
                        0 <= i < sh.child_off.len() ==> ({
                            let off = bz + #[trigger] sh.child_off[i];
                            &&& (word_at(d, off) == 1 ==> c.children@[i] is Container)
                            &&& (word_at(d, off) != 1 ==> {
                                &&& c.children@[i] matches ArchiveEntry::File(n)
                                    && string_bytes(n) == hex_name_bytes(
                                    off,
                                    spec_extension_bytes(spec_magic_kind(be_word_at(d, off))),
                                )
                                &&& exists|o: int|
                                    old(self).outputs@.len() <= o
                                        < final(self).outputs@.len() && ({
                                        let f = #[trigger] final(self).outputs@[o];
                                        &&& string_bytes(f.name) == hex_name_bytes(
                                            off,
                                            spec_extension_bytes(
                                                spec_magic_kind(be_word_at(d, off)),
                                            ),
                                        )
                                        &&& f.contents matches OutputData::Raw(v) && v@
                                            == d.subrange(off, off + sh.child_size[i])
                                    })
                            })
                        }))
                    &&& ((sh.format == 1 || sh.format == 3 || sh.format == 4 || sh.format == 7)
                        ==> c.children@.len() == 1 && c.children@[0] is Files)
                    &&& (sh.format == 2 ==> c.children@.len() == sh.child_off.len() && forall|
                        i: int,
                    | 0 <= i < c.children@.len() ==> (#[trigger] c.children@[i]) is Textures)
                    &&& (sh.format == 8 ==> c.children@.len() == 1 && c.children@[0] is Files)
                    &&& ((sh.format == 5 || sh.format > 8) ==> c.children@.len() == 0)
                })
            }),
        decreases old(self).data@.len() - old(self).pos,
    {
        let ghost orig = *old(self);
        let start = self.pos;
        proof {
            lemma_extends_refl(self.outputs@);
        }
        let header = match self.read_header() {
            Ok(h) => h,
            Err(e) => return Err(e),
        };
        proof {
            crate::header::lemma_header_accepted_ranges(orig.data@, start as int);
        }
        let container_end = start + header.size as u64 + header.content_size as u64;

        let mut children: Vec<ArchiveEntry> = Vec::new();

        if header.format == 0 {
            {
                // Each child is either a nested container, marked by the
                // sentinel word, or an opaque leaf classified by the magic
                // table.
                let ghost gsh = spec_read_header(orig.data@, start as int).unwrap();
                let mut k: usize = 0;
                while k < header.children.len()
                    invariant
                        0 <= k <= header.children@.len(),
                        self.wf(),
                        self.data == orig.data,
                        extends(self.outputs@, orig.outputs@),
                        children@.len() == k as int,
                        forall|i: int|
                            0 <= i < k as int ==> ({
                                let off = gsh.byte_zero + #[trigger] gsh.child_off[i];
                                &&& (word_at(orig.data@, off) == 1 ==> children@[i] is Container)
                                &&& (word_at(orig.data@, off) != 1 ==> {
                                    &&& children@[i] matches ArchiveEntry::File(n)
                                        && string_bytes(n) == hex_name_bytes(
                                        off,
                                        spec_extension_bytes(
                                            spec_magic_kind(be_word_at(orig.data@, off)),
                                        ),
                                    )
                                    &&& exists|o: int|
                                        orig.outputs@.len() <= o < self.outputs@.len() && ({
                                            let f = #[trigger] self.outputs@[o];
                                            &&& string_bytes(f.name) == hex_name_bytes(
                                                off,
                                                spec_extension_bytes(
                                                    spec_magic_kind(
                                                        be_word_at(orig.data@, off),
                                                    ),
                                                ),
                                            )
                                            &&& f.contents matches OutputData::Raw(v) && v@
                                                == orig.data@.subrange(
                                                off,
                                                off + gsh.child_size[i],
                                            )
                                        })
                                })
                            }),
                    decreases header.children.len() - k,
                {
                    let ghost mid = self.outputs@;
                    let child = ChildData {
                        offset: header.children[k].offset,
                        size: header.children[k].size,
                    };
                    self.seek(child.offset);
                    let val = match self.peek_u32() {
                        Ok(v) => v,
                        Err(e) => {
                            proof {
                                lemma_extends_trans(self.outputs@, mid, orig.outputs@);
                            }
                            return Err(e);
                        },
                    };
                    if val == 1 {
                        let entry = match self.unpack_container() {
                            Ok(e) => e,
                            Err(e) => {
                                proof {
                                    lemma_extends_trans(self.outputs@, mid, orig.outputs@);
                                }
                                return Err(e);
                            },
                        };
                        children.push(entry);
                    } else {
                        let be = match self.peek_u32_be() {
                            Ok(v) => v,
                            Err(e) => {
                                proof {
                                    lemma_extends_trans(self.outputs@, mid, orig.outputs@);
                                }
                                return Err(e);
                            },
                        };
                        let kind = magic_kind(be);
                        if kind == MagicKind::Gnf {
                            proof {
                                lemma_extends_trans(self.outputs@, mid, orig.outputs@);
                            }
                            return Err(CatError::UnsupportedPayload(PayloadKind::Gnf));
                        }
                        let mut ext: Vec<u8> = Vec::new();
                        push_extension(kind, &mut ext);
                        proof {
                            crate::magic::lemma_extension_ascii(kind);
                        }
                        let filename = hex_name(child.offset, &ext);
                        let stored = filename.clone();
                        match self.extract_file(&child, stored) {
                            Ok(()) => {},
                            Err(e) => {
                                proof {
                                    lemma_extends_trans(self.outputs@, mid, orig.outputs@);
                                }
                                return Err(e);
                            },
                        }
                        children.push(ArchiveEntry::File(filename));
                    }
                    proof {
                        lemma_extends_trans(self.outputs@, mid, orig.outputs@);
                    }
                    k = k + 1;
                }
            }
        } else if header.format == 1 || header.format == 3 || header.format == 4 || header.format
            == 7 {
            let entry = match self.unpack_format_1(&header) {
                Ok(e) => e,
                Err(e) => return Err(e),
            };
            children.push(entry);
        } else if header.format == 2 {
            let mut k: usize = 0;
            while k < header.children.len()
                invariant
                    0 <= k <= header.children@.len(),
                    self.wf(),
                    self.data == orig.data,
                    extends(self.outputs@, orig.outputs@),
                    children@.len() == k as int,
                    forall|i: int|
                        0 <= i < k as int ==> (#[trigger] children@[i]) is Textures,
                    k > 0 && header.children@.len() >= 1 ==> !atlas_gnf(
                        orig.data@,
                        spec_read_header(orig.data@, start as int).unwrap().byte_zero
                            + spec_read_header(orig.data@, start as int).unwrap().child_off[0],
                    ),
                    forall|i: int|
                        0 <= i < header.children@.len() ==> (
                        #[trigger] header.children@[i]).offset <= MAX_HEADER_START,
                decreases header.children.len() - k,
            {
                let ghost mid = self.outputs@;
                let child = ChildData {
                    offset: header.children[k].offset,
                    size: header.children[k].size,
                };
                let entry = match self.unpack_format_2(&child) {
                    Ok(e) => e,
                    Err(e) => {
                        proof {
                            lemma_extends_trans(self.outputs@, mid, orig.outputs@);
                        }
                        return Err(e);
                    },
                };
                children.push(entry);
                proof {
                    lemma_extends_trans(self.outputs@, mid, orig.outputs@);
                }
                k = k + 1;
            }
        } else if header.format == 6 {
            return Err(CatError::UnrecognisedVariant(6));
        } else if header.format == 8 {
            if header.children.len() != 1 {
                return Err(
                    CatError::MalformedHeader(start, HeaderFault::WrongChildCount),
                );
            }
            let entry = match self.unpack_format_8() {
                Ok(e) => e,
                Err(e) => return Err(e),
            };
            children.push(entry);
        } else {
            // An unknown format: extract the children verbatim, each under
            // its numbered file, and record no manifest children.
            let mut k: usize = 0;
            while k < header.children.len()
                invariant
                    self.wf(),
                    self.data == orig.data,
                    extends(self.outputs@, orig.outputs@),
                decreases header.children.len() - k,
            {
                let ghost mid = self.outputs@;
                let child = ChildData {
                    offset: header.children[k].offset,
                    size: header.children[k].size,
                };
                let filename = crate::textfmt::child_bin_name(k as u64);
                match self.extract_file(&child, filename) {
                    Ok(()) => {},
                    Err(e) => {
                        proof {
                            lemma_extends_trans(self.outputs@, mid, orig.outputs@);
                        }
                        return Err(e);
                    },
                }
                proof {
                    lemma_extends_trans(self.outputs@, mid, orig.outputs@);
                }
                k = k + 1;
            }
        }

        self.seek(container_end);

        Ok(
            ArchiveEntry::Container(
                Container {
                    version: header.version,
                    format: header.format,
                    size: header.size,
                    alignment: header.alignment,
                    children,
                },
            ),
        )
    }

    /// Unpacks a name-list container: the first child is the table of names,
    /// each further child a payload stored under its listed name, with the
    /// extension the magic table assigns where its leading word is
    /// recognised.
    #[verifier::loop_isolation(false)]
    #[verifier::rlimit(100)]
    pub fn unpack_format_1(&mut self, header: &ContainerHeader) -> (r: Result<
        ArchiveEntry,
        CatError,
    >)
        requires
            old(self).wf(),
            forall|i: int|
                0 <= i < header.children@.len() ==> (#[trigger] header.children@[i]).offset
                    <= MAX_HEADER_START,
        ensures
            final(self).wf(),
            final(self).data == old(self).data,
            extends(final(self).outputs@, old(self).outputs@),
            r matches Ok(entry) ==> {
                &&& header.children@.len() >= 1
                &&& entry matches ArchiveEntry::Files(fs) && ({
                let d = old(self).data@;
                let c0 = header.children@[0];
                let tbl = d.subrange(c0.offset as int, c0.offset as int + c0.size as int);
                let names = names_of(tbl, 0);
                &&& fs@.len() == header.children@.len() - 1
                &&& names.len() >= fs@.len()
                &&& forall|i: int|
                    0 <= i < fs@.len() ==> string_bytes(#[trigger] fs@[i])
                        == spec_named_filename(d, names[i], header.children@[i + 1].offset as int)
            })
            },
            r matches Ok(entry) ==> {
                &&& entry matches ArchiveEntry::Files(fs) && ({
                let d = old(self).data@;
                &&& final(self).outputs@.len() == old(self).outputs@.len() + fs@.len()
                &&& forall|i: int|
                    0 <= i < fs@.len() ==> ({
                        let f = final(self).outputs@[old(self).outputs@.len() + i];
                        let c = header.children@[i + 1];
                        &&& string_bytes(f.name) == string_bytes(#[trigger] fs@[i])
                        &&& f.contents matches OutputData::Raw(v) && v@ == d.subrange(
                            c.offset as int,
                            c.offset as int + c.size as int,
                        )
                    })
            })
            },
            ({
                let d = old(self).data@;
                &&& header.children@.len() >= 1
                &&& ({
                    let c0 = header.children@[0];
                    let tbl = d.subrange(c0.offset as int, c0.offset as int + c0.size as int);
                    &&& c0.offset + c0.size <= d.len()
                    &&& crate::names::all_names_valid(tbl, 0)
                    &&& names_of(tbl, 0).len() >= header.children@.len() - 1
                })
                &&& format1_children_ok(d, header.children@)
            }) ==> r is Ok,
    {
        let ghost orig = *old(self);
        proof {
            lemma_extends_refl(self.outputs@);
        }
        if header.children.len() == 0 {
            return Err(CatError::MalformedHeader(self.pos, HeaderFault::WrongChildCount));
        }
        let c0 = ChildData { offset: header.children[0].offset, size: header.children[0].size };
        let names = match self.read_strings(c0.offset, c0.size) {
            Ok(n) => n,
            Err(e) => return Err(e),
        };
        if names.len() < header.children.len() - 1 {
            return Err(CatError::MalformedHeader(c0.offset, HeaderFault::BadStringTable));
        }
        let ghost tbl = orig.data@.subrange(c0.offset as int, c0.offset as int + c0.size as int);
        let ghost gnames = names_of(tbl, 0);

        let mut files: Vec<String> = Vec::new();
        let mut k: usize = 1;
        while k < header.children.len()
            invariant
                1 <= k <= header.children@.len(),
                self.wf(),
                self.data == orig.data,
                extends(self.outputs@, orig.outputs@),
                files@.len() == k - 1,
                forall|i: int|
                    0 <= i < files@.len() ==> string_bytes(#[trigger] files@[i])
                        == spec_named_filename(
                        orig.data@,
                        gnames[i],
                        header.children@[i + 1].offset as int,
                    ),
                self.outputs@.len() == orig.outputs@.len() + files@.len(),
                forall|i: int|
                    0 <= i < files@.len() ==> ({
                        let f = self.outputs@[orig.outputs@.len() + i];
                        let c = header.children@[i + 1];
                        &&& string_bytes(f.name) == string_bytes(#[trigger] files@[i])
                        &&& f.contents matches OutputData::Raw(v) && v@ == orig.data@.subrange(
                            c.offset as int,
                            c.offset as int + c.size as int,
                        )
                    }),
            decreases header.children@.len() - k,
        {
            let ghost mid = self.outputs@;
            let child = ChildData {
                offset: header.children[k].offset,
                size: header.children[k].size,
            };
            self.seek(child.offset);
            let be = match self.peek_u32_be() {
                Ok(v) => v,
                Err(e) => {
                    proof {
                        lemma_extends_trans(self.outputs@, mid, orig.outputs@);
                    }
                    return Err(e);
                },
            };
            let kind = magic_kind(be);
            if kind == MagicKind::Gnf {
                proof {
                    lemma_extends_trans(self.outputs@, mid, orig.outputs@);
                }
                return Err(CatError::UnsupportedPayload(PayloadKind::Gnf));
            }
            let filename = if kind == MagicKind::Tmd0 || kind == MagicKind::Tmo1 || kind
                == MagicKind::A001 || kind == MagicKind::Ddv {
                let mut ext: Vec<u8> = Vec::new();
                push_extension(kind, &mut ext);
                proof {
                    crate::magic::lemma_extension_ascii(kind);
                }
                name_with_extension(&names[k - 1], &ext)
            } else {
                names[k - 1].clone()
            };
            let stored = filename.clone();
            let ghost pre_files = files@;
            match self.extract_file(&child, stored) {
                Ok(()) => {},
                Err(e) => {
                    proof {
                        lemma_extends_trans(self.outputs@, mid, orig.outputs@);
                    }
                    return Err(e);
                },
            }
            files.push(filename);
            proof {
                lemma_extends_trans(self.outputs@, mid, orig.outputs@);
                assert forall|i: int| 0 <= i < files@.len() implies ({
                    let f = self.outputs@[orig.outputs@.len() + i];
                    let c = header.children@[i + 1];
                    &&& string_bytes(f.name) == string_bytes(#[trigger] files@[i])
                    &&& f.contents matches OutputData::Raw(v) && v@ == orig.data@.subrange(
                        c.offset as int,
                        c.offset as int + c.size as int,
                    )
                }) by {
                    if i < files@.len() - 1 {
                        assert(files@[i] == pre_files[i]);
                        assert(self.outputs@[orig.outputs@.len() + i] == mid[orig.outputs@.len()
                            + i]);
                    } else {
                        assert(self.outputs@[orig.outputs@.len() + i] == self.outputs@.last());
                        assert(files@[i] == filename);
                    }
                }
            }
            k = k + 1;
        }
        Ok(ArchiveEntry::Files(files))
    }

    /// Unpacks one texture atlas of a texture-block container: a nested
    /// plain container holding a name table and a file-block of DDS
    /// payloads, each decoded to an image. A payload block led by the GNF
    /// magic is refused.
    #[verifier::loop_isolation(false)]
    #[verifier::rlimit(100)]
    pub fn unpack_format_2(&mut self, data_child: &ChildData) -> (r: Result<
        ArchiveEntry,
        CatError,
    >)
        requires
            old(self).wf(),
            data_child.offset <= MAX_HEADER_START,
        ensures
            final(self).wf(),
            final(self).data == old(self).data,
            extends(final(self).outputs@, old(self).outputs@),
            r matches Ok(entry) ==> entry is Textures,
            atlas_gnf(old(self).data@, data_child.offset as int) ==> r == Err::<
                ArchiveEntry,
                CatError,
            >(CatError::UnsupportedPayload(PayloadKind::Gnf)) && final(self).outputs == old(
                self,
            ).outputs,
            spec_read_header(old(self).data@, data_child.offset as int) matches Ok(sh) ==> {
                &&& sh.format != 0 ==> r == Err::<ArchiveEntry, CatError>(
                    CatError::MalformedHeader(data_child.offset, HeaderFault::WrongFormat),
                )
                &&& sh.format == 0 && sh.child_off.len() != 2 ==> r == Err::<
                    ArchiveEntry,
                    CatError,
                >(CatError::MalformedHeader(data_child.offset, HeaderFault::WrongChildCount))
            },
            ok_atlas(old(self).data@, data_child.offset as int) ==> r is Ok,
            r matches Ok(entry) ==> entry matches ArchiveEntry::Textures(ts) && ({
                let d = old(self).data@;
                &&& spec_read_header(d, data_child.offset as int) matches Ok(sh) && ({
                    let so = sh.byte_zero + sh.child_off[0];
                    let ss = sh.child_size[0] as int;
                    let io = sh.byte_zero + sh.child_off[1];
                    let tbl = d.subrange(so, so + ss);
                    &&& sh.format == 0
                    &&& sh.child_off.len() == 2
                    &&& spec_read_block(d, io) matches Ok(bs) && ({
                        let names = names_of(tbl, 0);
                        &&& ts@.len() == names.len()
                        &&& final(self).outputs@.len() == old(self).outputs@.len() + names.len()
                        &&& atlas_textures_match(
                            d,
                            bs,
                            names,
                            ts@,
                            final(self).outputs@,
                            old(self).outputs@.len() as int,
                        )
                    })
                })
            }),
    {
        let ghost orig = *old(self);
        proof {
            lemma_extends_refl(self.outputs@);
        }
        self.seek(data_child.offset);
        let header = match self.read_header() {
            Ok(h) => h,
            Err(e) => return Err(e),
        };
        proof {
            crate::header::lemma_header_accepted_ranges(orig.data@, data_child.offset as int);
        }
        if header.format != 0 {
            return Err(CatError::MalformedHeader(data_child.offset, HeaderFault::WrongFormat));
        }
        if header.children.len() != 2 {
            return Err(
                CatError::MalformedHeader(data_child.offset, HeaderFault::WrongChildCount),
            );
        }
        let strings = ChildData {
            offset: header.children[0].offset,
            size: header.children[0].size,
        };
        let images = ChildData {
            offset: header.children[1].offset,
            size: header.children[1].size,
        };
        let names = match self.read_strings(strings.offset, strings.size) {
            Ok(n) => n,
            Err(e) => return Err(e),
        };

        self.seek(images.offset);
        let magic = match self.peek_u32_be() {
            Ok(v) => v,
            Err(e) => return Err(e),
        };
        if magic == GNF {
            return Err(CatError::UnsupportedPayload(PayloadKind::Gnf));
        }

        let images_data = match self.unpack_block(images.offset) {
            Ok(v) => v,
            Err(e) => return Err(e),
        };

        let ghost gd = orig.data@;
        let ghost gbs = spec_read_block(gd, images.offset as int).unwrap();
        let ghost gnames = names_of(
            gd.subrange(
                strings.offset as int,
                strings.offset as int + strings.size as int,
            ),
            0,
        );
        let mut textures: Vec<Texture> = Vec::new();
        let mut id: usize = 0;
        while id < names.len()
            invariant
                0 <= id <= names@.len(),
                self.wf(),
                self.data == orig.data,
                extends(self.outputs@, orig.outputs@),
                textures@.len() == id as int,
                self.outputs@.len() == orig.outputs@.len() + id as int,
                atlas_textures_match(
                    gd,
                    gbs,
                    gnames,
                    textures@,
                    self.outputs@,
                    orig.outputs@.len() as int,
                ),
            decreases names@.len() - id,
        {
            let ghost mid = self.outputs@;
            if id >= images_data.len() {
                proof {
                    lemma_extends_trans(self.outputs@, mid, orig.outputs@);
                }
                return Err(
                    CatError::MalformedHeader(images.offset, HeaderFault::WrongChildCount),
                );
            }
            let image = ChildData {
                offset: images_data[id].offset,
                size: images_data[id].size,
            };
            let buffer = match self.read_bytes_at(image.offset, image.size) {
                Ok(v) => v,
                Err(e) => {
                    proof {
                        lemma_extends_trans(self.outputs@, mid, orig.outputs@);
                    }
                    return Err(e);
                },
            };
            let img = match decode_dds_image(&buffer) {
                Ok(i) => i,
                Err(e) => {
                    proof {
                        lemma_extends_trans(self.outputs@, mid, orig.outputs@);
                    }
                    return Err(e);
                },
            };
            let format = match texture_format_of_dds(&buffer) {
                Ok(f) => f,
                Err(e) => {
                    proof {
                        lemma_extends_trans(self.outputs@, mid, orig.outputs@);
                    }
                    return Err(e);
                },
            };
            let filename = texture_filename(&names[id], img.width, img.height);
            let ghost gimg = img;
            let ghost pre_textures = textures@;
            self.record_png(filename.clone(), img);
            textures.push(Texture { name: names[id].clone(), format, filename });
            proof {
                lemma_extends_trans(self.outputs@, mid, orig.outputs@);
                assert(block_children_match(images_data@, gbs));
                assert(buffer@ == block_payload(gd, gbs, id as int));
                assert forall|i: int| 0 <= i < textures@.len() implies ({
                    let pb = #[trigger] block_payload(gd, gbs, i);
                    &&& string_bytes(textures@[i].name) == gnames[i]
                    &&& dds_image_of(pb) matches Some(whd) && ({
                        &&& string_bytes(textures@[i].filename) == texture_name_bytes(
                            gnames[i],
                            whd.0 as int,
                            whd.1 as int,
                        )
                        &&& Ok::<crate::texture::TextureFormat, CatError>(textures@[i].format)
                            == spec_texture_descriptor(pb)
                        &&& ({
                            let f = self.outputs@[orig.outputs@.len() + i];
                            &&& string_bytes(f.name) == texture_name_bytes(
                                gnames[i],
                                whd.0 as int,
                                whd.1 as int,
                            )
                            &&& f.contents matches OutputData::Png(im) && im.width == whd.0
                                && im.height == whd.1 && im.rgba@ == whd.2
                        })
                    })
                }) by {
                    if i < textures@.len() - 1 {
                        assert(textures@[i] == pre_textures[i]);
                        assert(self.outputs@[orig.outputs@.len() + i] == mid[orig.outputs@.len()
                            + i]);
                    } else {
                        assert(self.outputs@[orig.outputs@.len() + i] == self.outputs@.last());
                        assert(dds_image_of(buffer@) == Some((gimg.width, gimg.height, gimg.rgba@)));
                    }
                }
            }
            id = id + 1;
        }
        Ok(ArchiveEntry::Textures(textures))
    }

    /// Unpacks a packed-pair container: a nested plain container with two
    /// opaque children, each extracted verbatim under the hexadecimal
    /// spelling of its offset.
    #[verifier::rlimit(100)]
    pub fn unpack_format_8(&mut self) -> (r: Result<ArchiveEntry, CatError>)
        requires
            old(self).wf(),
            old(self).pos <= MAX_HEADER_START,
        ensures
            final(self).wf(),
            final(self).data == old(self).data,
            extends(final(self).outputs@, old(self).outputs@),
            r matches Ok(entry) ==> entry is Files,
            spec_read_header(old(self).data@, old(self).pos as int) matches Err(e) ==> r == Err::<
                ArchiveEntry,
                CatError,
            >(e),
            spec_read_header(old(self).data@, old(self).pos as int) matches Ok(sh) ==> {
                &&& sh.format != 0 ==> r == Err::<ArchiveEntry, CatError>(
                    CatError::MalformedHeader(old(self).pos, HeaderFault::WrongFormat),
                )
                &&& sh.format == 0 && sh.child_off.len() != 2 ==> r == Err::<
                    ArchiveEntry,
                    CatError,
                >(CatError::MalformedHeader(old(self).pos, HeaderFault::WrongChildCount))
                &&& sh.format == 0 && sh.child_off.len() == 2 ==> ({
                    let d = old(self).data@;
                    let o0 = sh.byte_zero + sh.child_off[0];
                    let s0 = sh.child_size[0] as int;
                    let o1 = sh.byte_zero + sh.child_off[1];
                    let s1 = sh.child_size[1] as int;
                    &&& o0 + s0 > d.len() ==> r == Err::<ArchiveEntry, CatError>(
                        CatError::Io((o0) as u64),
                    )
                    &&& o0 + s0 <= d.len() && o1 + s1 > d.len() ==> r == Err::<
                        ArchiveEntry,
                        CatError,
                    >(CatError::Io((o1) as u64))
                    &&& o0 + s0 <= d.len() && o1 + s1 <= d.len() ==> {
                        &&& r matches Ok(entry) && entry matches ArchiveEntry::Files(fs) && ({
                        let ext = spec_extension_bytes(MagicKind::Unknown);
                        &&& fs@.len() == 2
                        &&& string_bytes(fs@[0]) == hex_name_bytes(o0, ext)
                        &&& string_bytes(fs@[1]) == hex_name_bytes(o1, ext)
                        &&& final(self).outputs@.len() == old(self).outputs@.len() + 2
                        &&& ({
                            let f0 = final(self).outputs@[old(self).outputs@.len() as int];
                            &&& string_bytes(f0.name) == hex_name_bytes(o0, ext)
                            &&& f0.contents matches OutputData::Raw(v) && v@ == d.subrange(
                                o0,
                                o0 + s0,
                            )
                        })
                        &&& ({
                            let f1 = final(self).outputs@[old(self).outputs@.len() as int + 1];
                            &&& string_bytes(f1.name) == hex_name_bytes(o1, ext)
                            &&& f1.contents matches OutputData::Raw(v) && v@ == d.subrange(
                                o1,
                                o1 + s1,
                            )
                        })
                    })
                    }
                })
            },
    {
        let ghost orig = *old(self);
        let start = self.pos;
        proof {
            lemma_extends_refl(self.outputs@);
        }
        let header = match self.read_header() {
            Ok(h) => h,
            Err(e) => return Err(e),
        };
        if header.format != 0 {
            return Err(CatError::MalformedHeader(start, HeaderFault::WrongFormat));
        }
        if header.children.len() != 2 {
            return Err(CatError::MalformedHeader(start, HeaderFault::WrongChildCount));
        }
        let strings = ChildData {
            offset: header.children[0].offset,
            size: header.children[0].size,
        };
        let files = ChildData {
            offset: header.children[1].offset,
            size: header.children[1].size,
        };
        let mut ext: Vec<u8> = Vec::new();
        push_extension(MagicKind::Unknown, &mut ext);
        proof {
            crate::magic::lemma_extension_ascii(MagicKind::Unknown);
        }
        let name0 = hex_name(strings.offset, &ext);
        let name1 = hex_name(files.offset, &ext);
        let ghost mid0 = self.outputs@;
        match self.extract_file(&strings, name0.clone()) {
            Ok(()) => {},
            Err(e) => {
                proof {
                    lemma_extends_trans(self.outputs@, mid0, orig.outputs@);
                }
                return Err(e);
            },
        }
        let ghost mid1 = self.outputs@;
        match self.extract_file(&files, name1.clone()) {
            Ok(()) => {},
            Err(e) => {
                proof {
                    lemma_extends_trans(self.outputs@, mid1, mid0);
                    lemma_extends_trans(self.outputs@, mid0, orig.outputs@);
                }
                return Err(e);
            },
        }
        proof {
            lemma_extends_trans(self.outputs@, mid1, mid0);
            lemma_extends_trans(self.outputs@, mid0, orig.outputs@);
        }
        let mut children: Vec<String> = Vec::new();
        children.push(name0);
        children.push(name1);
        Ok(ArchiveEntry::Files(children))
    }

    /// Unpacks a bare texture stream: a file-block at the start of the input
    /// whose payloads are DDS textures, each stored under the hexadecimal
    /// spelling of its offset.
    #[verifier::loop_isolation(false)]
    #[verifier::rlimit(100)]
    pub fn unpack_gxt(&mut self) -> (r: Result<ArchiveEntry, CatError>)
        requires
            old(self).wf(),
        ensures
            final(self).wf(),
            final(self).data == old(self).data,
            extends(final(self).outputs@, old(self).outputs@),
            spec_read_block(old(self).data@, 0) matches Err(e) ==> r == Err::<
                ArchiveEntry,
                CatError,
            >(e),
            r matches Ok(entry) ==> entry is Textures,
            ok_gxt(old(self).data@) ==> r is Ok,
            r matches Ok(entry) ==> entry matches ArchiveEntry::Textures(ts) && ({
                let d = old(self).data@;
                spec_read_block(d, 0) matches Ok(bs) && ({
                    &&& ts@.len() == bs.count
                    &&& final(self).outputs@.len() == old(self).outputs@.len() + bs.count
                    &&& forall|i: int|
                        0 <= i < ts@.len() ==> ({
                            let pb = #[trigger] block_payload(d, bs, i);
                            &&& string_bytes(ts@[i].name) == Seq::<u8>::empty()
                            &&& dds_image_of(pb) matches Some(whd) && ({
                                &&& string_bytes(ts@[i].filename) == hex_name_bytes(
                                    block_child_offset(bs, i),
                                    png_ext(),
                                )
                                &&& Ok::<crate::texture::TextureFormat, CatError>(ts@[i].format)
                                    == spec_texture_descriptor(pb)
                                &&& ({
                                    let f = final(self).outputs@[old(self).outputs@.len() + i];
                                    &&& string_bytes(f.name) == hex_name_bytes(
                                        block_child_offset(bs, i),
                                        png_ext(),
                                    )
                                    &&& f.contents matches OutputData::Png(im) && im.width
                                        == whd.0 && im.height == whd.1 && im.rgba@ == whd.2
                                })
                            })
                        })
                })
            }),
    {
        let ghost orig = *old(self);
        proof {
            lemma_extends_refl(self.outputs@);
        }
        let images_data = match self.unpack_block(0) {
            Ok(v) => v,
            Err(e) => return Err(e),
        };
        let ghost gd = orig.data@;
        let ghost gbs = spec_read_block(gd, 0).unwrap();
        let mut textures: Vec<Texture> = Vec::new();
        let mut id: usize = 0;
        while id < images_data.len()
            invariant
                0 <= id <= images_data@.len(),
                self.wf(),
                self.data == orig.data,
                extends(self.outputs@, orig.outputs@),
                textures@.len() == id as int,
                self.outputs@.len() == orig.outputs@.len() + id as int,
                forall|i: int|
                    0 <= i < textures@.len() ==> ({
                        let pb = #[trigger] block_payload(gd, gbs, i);
                        &&& string_bytes(textures@[i].name) == Seq::<u8>::empty()
                        &&& dds_image_of(pb) matches Some(whd) && ({
                            &&& string_bytes(textures@[i].filename) == hex_name_bytes(
                                block_child_offset(gbs, i),
                                png_ext(),
                            )
                            &&& Ok::<crate::texture::TextureFormat, CatError>(
                                textures@[i].format,
                            ) == spec_texture_descriptor(pb)
                            &&& ({
                                let f = self.outputs@[orig.outputs@.len() + i];
                                &&& string_bytes(f.name) == hex_name_bytes(
                                    block_child_offset(gbs, i),
                                    png_ext(),
                                )
                                &&& f.contents matches OutputData::Png(im) && im.width == whd.0
                                    && im.height == whd.1 && im.rgba@ == whd.2
                            })
                        })
                    }),
            decreases images_data@.len() - id,
        {
            let ghost mid = self.outputs@;
            let image = ChildData {
                offset: images_data[id].offset,
                size: images_data[id].size,
            };
            let buffer = match self.read_bytes_at(image.offset, image.size) {
                Ok(v) => v,
                Err(e) => {
                    proof {
                        lemma_extends_trans(self.outputs@, mid, orig.outputs@);
                    }
                    return Err(e);
                },
            };
            let img = match decode_dds_image(&buffer) {
                Ok(i) => i,
                Err(e) => {
                    proof {
                        lemma_extends_trans(self.outputs@, mid, orig.outputs@);
                    }
                    return Err(e);
                },
            };
            let format = match texture_format_of_dds(&buffer) {
                Ok(f) => f,
                Err(e) => {
                    proof {
                        lemma_extends_trans(self.outputs@, mid, orig.outputs@);
                    }
                    return Err(e);
                },
            };
            let pext = crate::textfmt::png_ext_vec();
            let filename = hex_name(image.offset, &pext);
            let ghost gimg = img;
            let ghost pre_textures = textures@;
            self.record_png(filename.clone(), img);
            textures.push(Texture { name: String::new(), format, filename });
            proof {
                lemma_extends_trans(self.outputs@, mid, orig.outputs@);
                assert(block_children_match(images_data@, gbs));
                assert(buffer@ == block_payload(gd, gbs, id as int));
                assert forall|i: int| 0 <= i < textures@.len() implies ({
                    let pb = #[trigger] block_payload(gd, gbs, i);
                    &&& string_bytes(textures@[i].name) == Seq::<u8>::empty()
                    &&& dds_image_of(pb) matches Some(whd) && ({
                        &&& string_bytes(textures@[i].filename) == hex_name_bytes(
                            block_child_offset(gbs, i),
                            png_ext(),
                        )
                        &&& Ok::<crate::texture::TextureFormat, CatError>(textures@[i].format)
                            == spec_texture_descriptor(pb)
                        &&& ({
                            let f = self.outputs@[orig.outputs@.len() + i];
                            &&& string_bytes(f.name) == hex_name_bytes(
                                block_child_offset(gbs, i),
                                png_ext(),
                            )
                            &&& f.contents matches OutputData::Png(im) && im.width == whd.0
                                && im.height == whd.1 && im.rgba@ == whd.2
                        })
                    })
                }) by {
                    if i < textures@.len() - 1 {
                        assert(textures@[i] == pre_textures[i]);
                        assert(self.outputs@[orig.outputs@.len() + i] == mid[orig.outputs@.len()
                            + i]);
                    } else {
                        assert(self.outputs@[orig.outputs@.len() + i] == self.outputs@.last());
                        assert(dds_image_of(buffer@) == Some((gimg.width, gimg.height, gimg.rgba@)));
                    }
                }
            }
            id = id + 1;
        }
        Ok(ArchiveEntry::Textures(textures))
    }
}

} // verus!
