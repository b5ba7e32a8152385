use vstd::prelude::*;
use crate::fault::CatError;
use crate::fault::ManifestFault;
use crate::manifest::ArchiveEntry;
use crate::names::clean_segment;
use crate::names::find_nl;
use crate::names::is_blank;
use crate::names::lemma_find_nl_bounds;
use crate::names::names_of;
use crate::names::trim_commas;
use crate::names::trim_end_bytes;
use crate::names::trim_start_bytes;
use crate::manifest::ChildData;
use crate::manifest::Container;
use crate::texture::dds_from_image;
use crate::texture::Texture;
use crate::header::spec_read_header;
use crate::words::spec_align_up;
use crate::words::word_at;
use crate::writer::bytes_extends;
use crate::writer::grows_from;
use crate::writer::CatFileWriter;
use crate::writer::FileData;
use crate::writer::StoredFile;
use crate::writer::MAX_OUTPUT_LEN;

verus! {

/// The position of the stored file carrying `name`, when one does.
pub fn find_file(files: &Vec<StoredFile>, name: &String) -> (r: Option<usize>)
    ensures
        r matches Some(i) ==> i < files@.len() && files@[i as int].name@ == name@,
        r is None ==> forall|i: int| 0 <= i < files@.len() ==> (#[trigger] files@[i]).name@
            != name@,
    decreases files@.len(),
{
    let mut i: usize = 0;
    while i < files.len()
        invariant
            0 <= i <= files@.len(),
            forall|j: int| 0 <= j < i as int ==> (#[trigger] files@[j]).name@ != name@,
        decreases files@.len() - i,
    {
        if files[i].name.eq(name) {
            return Some(i);
        }
        i = i + 1;
    }
    None
}

/// A stored file with the given name exists, and every stored file carrying
/// that name holds raw bytes.
pub open spec fn raw_present(files: Seq<StoredFile>, n: Seq<char>) -> bool {
    &&& exists|j: int| 0 <= j < files.len() && (#[trigger] files[j]).name@ == n
    &&& forall|j: int|
        0 <= j < files.len() && (#[trigger] files[j]).name@ == n ==> files[j].data is Raw
}

/// A stored file with the given name exists, and every stored file carrying
/// that name holds an image.
pub open spec fn image_present(files: Seq<StoredFile>, n: Seq<char>) -> bool {
    &&& exists|j: int| 0 <= j < files.len() && (#[trigger] files[j]).name@ == n
    &&& forall|j: int|
        0 <= j < files.len() && (#[trigger] files[j]).name@ == n ==> files[j].data is Image
}

/// Every file the manifest entry names is stored with the right kind of
/// contents: raw bytes for listed files, an image for each texture.
pub open spec fn entry_files_present(e: ArchiveEntry, files: Seq<StoredFile>) -> bool
    decreases e,
{
    match e {
        ArchiveEntry::Container(c) => forall|i: int|
            0 <= i < c.children@.len() ==> entry_files_present(#[trigger] c.children@[i], files),
        ArchiveEntry::Textures(ts) => forall|i: int|
            0 <= i < ts@.len() ==> image_present(files, (#[trigger] ts@[i]).filename@),
        ArchiveEntry::File(n) => raw_present(files, n@),
        ArchiveEntry::Files(ns) => forall|i: int|
            0 <= i < ns@.len() ==> raw_present(files, (#[trigger] ns@[i])@),
    }
}

/// The manifest tree has the shape the packer emits: header fields in range,
/// a format the packer handles, the child variants that format takes, and
/// names the table codec can store and give back.
pub open spec fn tree_shape_ok(c: Container) -> bool
    decreases c,
{
    &&& c.version < 3
    &&& c.size >= 32
    &&& c.alignment > 0
    &&& (c.format == 0 || c.format == 1 || c.format == 2 || c.format == 8)
    &&& (c.format == 0 ==> forall|i: int|
        0 <= i < c.children@.len() ==> {
            &&& ((#[trigger] c.children@[i]) is Container || c.children@[i] is File)
            &&& (c.children@[i] is Container ==> tree_shape_ok(c.children@[i]->Container_0))
        })
    &&& (c.format == 1 ==> c.children@.len() == 1 && c.children@[0] is Files && forall|i: int|
        0 <= i < c.children@[0]->Files_0@.len() ==> crate::pack::storable_name(
            crate::names::string_bytes(#[trigger] c.children@[0]->Files_0@[i]),
        ))
    &&& (c.format == 2 ==> forall|i: int|
        0 <= i < c.children@.len() ==> {
            &&& (#[trigger] c.children@[i]) is Textures
            &&& forall|t: int|
                0 <= t < c.children@[i]->Textures_0@.len() ==> crate::pack::storable_name(
                    crate::names::string_bytes(
                        (#[trigger] c.children@[i]->Textures_0@[t]).name,
                    ),
                )
        })
    &&& (c.format == 8 ==> c.children@.len() == 1 && c.children@[0] is Files
        && c.children@[0]->Files_0@.len() == 2)
}

/// A present manifest keeps every child present.
pub proof fn lemma_files_present_child(c: Container, files: Seq<StoredFile>, i: int)
    requires
        entry_files_present(ArchiveEntry::Container(c), files),
        0 <= i < c.children@.len(),
    ensures
        entry_files_present(c.children@[i], files),
{
    assert(ArchiveEntry::Container(c)->Container_0 == c);
}

/// A present file list keeps every listed name present as raw bytes.
pub proof fn lemma_files_present_name(e: ArchiveEntry, files: Seq<StoredFile>, i: int)
    requires
        entry_files_present(e, files),
        e is Files,
        0 <= i < e->Files_0@.len(),
    ensures
        raw_present(files, e->Files_0@[i]@),
{
}

/// A shapely name-list container lists only storable names.
pub proof fn lemma_shape_list_name(c: Container, i: int)
    requires
        tree_shape_ok(c),
        c.format == 1,
        0 <= i < c.children@[0]->Files_0@.len(),
    ensures
        storable_name(crate::names::string_bytes(c.children@[0]->Files_0@[i])),
{
}

/// A present texture block keeps every texture's image present.
pub proof fn lemma_textures_present_name(e: ArchiveEntry, files: Seq<StoredFile>, i: int)
    requires
        entry_files_present(e, files),
        e is Textures,
        0 <= i < e->Textures_0@.len(),
    ensures
        image_present(files, e->Textures_0@[i].filename@),
{
}

/// A shapely plain container keeps every nested container shapely.
pub proof fn lemma_shape_child(c: Container, i: int)
    requires
        tree_shape_ok(c),
        c.format == 0,
        0 <= i < c.children@.len(),
        c.children@[i] is Container,
    ensures
        tree_shape_ok(c.children@[i]->Container_0),
{
}

/// A texture block anywhere below a child is a texture block below the
/// parent.
pub proof fn lemma_has_textures_child(c: Container, i: int)
    requires
        0 <= i < c.children@.len(),
        c.children@[i] is Container,
        tree_has_textures(c.children@[i]->Container_0),
    ensures
        tree_has_textures(c),
{
}

/// A shapely texture-block container lists only storable texture names.
pub proof fn lemma_shape_texture_name(c: Container, i: int, t: int)
    requires
        tree_shape_ok(c),
        c.format == 2,
        0 <= i < c.children@.len(),
        0 <= t < c.children@[i]->Textures_0@.len(),
    ensures
        c.children@[i] is Textures,
        storable_name(crate::names::string_bytes(c.children@[i]->Textures_0@[t].name)),
{
}

/// The manifest tree holds at least one texture block, whose re-encoding
/// rests on the external encoder.
pub open spec fn tree_has_textures(c: Container) -> bool
    decreases c,
{
    exists|i: int|
        0 <= i < c.children@.len() && ((#[trigger] c.children@[i]) is Textures || (
        c.children@[i] is Container && tree_has_textures(c.children@[i]->Container_0)))
}

/// Checks that a name can be stored in a name table and read back: non-empty,
/// holding no line feed, not led by a blank, not ended by a comma.
#[verifier::loop_isolation(false)]
pub fn check_storable_name(name: &String) -> (r: bool)
    ensures
        r == storable_name(crate::names::string_bytes(*name)),
{
    let nb: &str = name;
    let bytes: &[u8] = nb.as_bytes();
    proof {
        assert(bytes@ == crate::names::string_bytes(*name));
    }
    let n = bytes.len();
    if n == 0 {
        return false;
    }
    if bytes[0] == 0x20 || bytes[0] == 0x09 || bytes[0] == 0x0D {
        return false;
    }
    if bytes[n - 1] == 0x2C {
        return false;
    }
    let mut i: usize = 0;
    while i < n
        invariant
            0 <= i <= n,
            n == bytes@.len(),
            forall|j: int| 0 <= j < i as int ==> #[trigger] bytes@[j] != 0x0A,
        decreases n - i,
    {
        if bytes[i] == 0x0A {
            return false;
        }
        i = i + 1;
    }
    true
}

/// The ASCII bytes of a name table: each name followed by a comma and a line
/// break.
pub open spec fn joined_names(names: Seq<Seq<u8>>) -> Seq<u8>
    decreases names.len(),
{
    if names.len() == 0 {
        Seq::empty()
    } else {
        names[0] + seq![0x2Cu8, 0x0Du8, 0x0Au8] + joined_names(names.drop_first())
    }
}

/// Adding one name to the table appends it, with its separator, at the end.
pub proof fn lemma_joined_names_snoc(names: Seq<Seq<u8>>, k: int)
    requires
        0 <= k < names.len(),
    ensures
        joined_names(names.take(k + 1)) == joined_names(names.take(k)) + names[k] + seq![
            0x2Cu8,
            0x0Du8,
            0x0Au8,
        ],
    decreases k,
{
    let sep = seq![0x2Cu8, 0x0Du8, 0x0Au8];
    if k == 0 {
        assert(names.take(1) =~= seq![names[0]]);
        assert(names.take(1).drop_first() =~= Seq::<Seq<u8>>::empty());
        assert(names.take(0) =~= Seq::<Seq<u8>>::empty());
        assert(names.take(1)[0] == names[0]);
        assert(joined_names(Seq::<Seq<u8>>::empty()) =~= Seq::<u8>::empty());
        assert(names[0] + sep + Seq::<u8>::empty() =~= names[0] + sep);
        assert(joined_names(names.take(1)) =~= names[0] + sep);
        assert(joined_names(names.take(0)) + names[0] + sep =~= names[0] + sep);
    } else {
        let d = names.drop_first();
        lemma_joined_names_snoc(d, k - 1);
        assert(names.take(k + 1).drop_first() =~= d.take(k));
        assert(names.take(k).drop_first() =~= d.take(k - 1));
        assert(names.take(k + 1)[0] == names[0]);
        assert(names.take(k)[0] == names[0]);
        assert(joined_names(names.take(k + 1)) == names[0] + sep + joined_names(d.take(k)));
        assert(joined_names(names.take(k)) == names[0] + sep + joined_names(d.take(k - 1)));
        assert(d[k - 1] == names[k]);
        assert(names[0] + sep + (joined_names(d.take(k - 1)) + names[k] + sep) =~= (names[0] + sep
            + joined_names(d.take(k - 1))) + names[k] + sep);
    }
}

/// Builds the name table of the given names: each followed by `,\r\n`.
pub fn build_name_table(names: &Vec<String>) -> (r: Vec<u8>)
    ensures
        r@ == joined_names(names@.map_values(|s: String| crate::names::string_bytes(s))),
{
    let ghost model = names@.map_values(|s: String| crate::names::string_bytes(s));
    let mut out: Vec<u8> = Vec::new();
    let mut i: usize = 0;
    while i < names.len()
        invariant
            0 <= i <= names@.len(),
            model == names@.map_values(|s: String| crate::names::string_bytes(s)),
            model.len() == names@.len(),
            out@ == joined_names(model.take(i as int)),
        decreases names@.len() - i,
    {
        let ghost pre = out@;
        let nb: &str = &names[i];
        let bytes: &[u8] = nb.as_bytes();
        out.extend_from_slice(bytes);
        out.push(0x2C);
        out.push(0x0D);
        out.push(0x0A);
        proof {
            assert(out@ =~= pre + model[i as int] + seq![0x2Cu8, 0x0Du8, 0x0Au8]);
            lemma_joined_names_snoc(model, i as int);
        }
        i = i + 1;
    }
    proof {
        assert(model.take(names@.len() as int) =~= model);
    }
    out
}

/// The fixed words of an emitted container header, as `write_header` places
/// them at `start`: the sentinel, version, reserved and size words of part
/// one, and the words of part two right at `start + size`. The content size
/// at `start + 16` and the child table are placeholders until patched.
pub open spec fn header_layout(
    out: Seq<u8>,
    start: int,
    version: u32,
    format: u32,
    size: u32,
    alignment: u32,
    children_count: u32,
) -> bool {
    &&& crate::words::word_at(out, start) == 1
    &&& crate::words::word_at(out, start + 4) == version
    &&& crate::words::word_at(out, start + 8) == 0
    &&& crate::words::word_at(out, start + 12) == size
    &&& crate::words::word_at(out, start + size) == 0
    &&& crate::words::word_at(out, start + size + 4) == children_count
    &&& crate::words::word_at(out, start + size + 8) == format
    &&& crate::words::word_at(out, start + size + 12) == alignment
    &&& crate::words::word_at(out, start + size + 16) == 0
}

/// How many entries the emitted child table of a container holds: a
/// name-list container's table covers the name table itself plus one entry
/// per listed file; every other format has one entry per manifest child.
pub open spec fn spec_table_entries(container: Container) -> int {
    if container.format == 1 && container.children@.len() == 1
        && container.children@[0] is Files {
        1 + container.children@[0]->Files_0@.len() as int
    } else {
        container.children@.len() as int
    }
}

/// A stored raw file carrying `name` provides exactly the `sz` bytes placed
/// at `base + rel` of the output.
pub open spec fn payload_recorded(
    out: Seq<u8>,
    files: Seq<StoredFile>,
    name: String,
    base: int,
    rel: int,
    sz: int,
) -> bool {
    exists|f: int|
        0 <= f < files.len() && (#[trigger] files[f]).name@ == name@ && files[f].data is Raw
            && ({
            let b = files[f].data->Raw_0;
            &&& sz == b@.len()
            &&& base + rel + b@.len() <= out.len()
            &&& out.subrange(base + rel, base + rel + b@.len() as int) == b@
        })
}

/// A stored image carrying the texture's file name re-encodes successfully,
/// and exactly those DDS bytes sit at `base + rel` of the output.
pub open spec fn texture_payload_recorded(
    out: Seq<u8>,
    files: Seq<StoredFile>,
    tex: Texture,
    base: int,
    rel: int,
) -> bool {
    exists|f: int|
        0 <= f < files.len() && (#[trigger] files[f]).name@ == tex.filename@ && files[f].data
            is Image && ({
            let img = files[f].data->Image_0;
            let enc = crate::texture::spec_dds_from_image(
                img.width,
                img.height,
                img.rgba@,
                tex.format,
            );
            &&& enc is Ok
            &&& base + rel + enc.unwrap().len() <= out.len()
            &&& out.subrange(base + rel, base + rel + enc.unwrap().len() as int)
                == enc.unwrap()
        })
}

/// Every fact the atlas emitter has established — the nested header words,
/// the name-table bytes, the file-block words and relative offsets, and the
/// recorded payloads — survives a mutation that only touches the content
/// word, the nested child table, or appends.
proof fn carry_atlas_facts(
    a: Seq<u8>,
    b: Seq<u8>,
    begin: int,
    ts: int,
    table: Seq<u8>,
    ib: int,
    n: int,
    files: Seq<StoredFile>,
    texs: Seq<Texture>,
    rels: Seq<u32>,
)
    requires
        0 <= begin,
        begin + 292 <= a.len(),
        b.len() >= a.len(),
        ts == spec_align_up(begin + 292, 256),
        ib == spec_align_up(ts + table.len(), 256),
        ib + 12 + 4 * n <= a.len(),
        rels.len() == n,
        texs.len() == n,
        n >= 0,
        header_layout(a, begin, 1, 0, 256, 256, 2),
        forall|j: int| ts <= j < ts + table.len() ==> #[trigger] a[j] == table[j - ts],
        word_at(a, ib) == 12 + 4 * n,
        word_at(a, ib + 4) == n,
        forall|i: int|
            0 <= i < n ==> #[trigger] word_at(a, ib + 12 + 4 * i) == rels[i],
        forall|i: int|
            0 <= i < n ==> texture_payload_recorded(
                a,
                files,
                texs[i],
                ib + 12 + 4 * n,
                (#[trigger] rels[i]) as int,
            ),
        forall|j: int|
            begin <= j < begin + 16 && j < a.len() ==> b[j] == #[trigger] a[j],
        forall|j: int|
            begin + 256 <= j < begin + 276 && j < a.len() ==> b[j] == #[trigger] a[j],
        forall|j: int| begin + 292 <= j < a.len() ==> b[j] == #[trigger] a[j],
    ensures
        header_layout(b, begin, 1, 0, 256, 256, 2),
        forall|j: int| ts <= j < ts + table.len() ==> #[trigger] b[j] == table[j - ts],
        word_at(b, ib) == 12 + 4 * n,
        word_at(b, ib + 4) == n,
        forall|i: int|
            0 <= i < n ==> #[trigger] word_at(b, ib + 12 + 4 * i) == rels[i],
        forall|i: int|
            0 <= i < n ==> texture_payload_recorded(
                b,
                files,
                texs[i],
                ib + 12 + 4 * n,
                (#[trigger] rels[i]) as int,
            ),
{
    crate::words::lemma_align_up(begin + 292, 256);
    crate::words::lemma_align_up(ts + table.len() as int, 256);
    lemma_layout_kept(a, b, begin);
    assert forall|j: int| ts <= j < ts + table.len() implies #[trigger] b[j] == table[j - ts] by {
        assert(a[j] == table[j - ts]);
        assert(b[j] == a[j]);
    }
    crate::words::lemma_word_at_same(a, b, ib);
    crate::words::lemma_word_at_same(a, b, ib + 4);
    assert forall|i: int| 0 <= i < n implies #[trigger] word_at(b, ib + 12 + 4 * i) == rels[i] by {
        crate::words::lemma_word_at_same(a, b, ib + 12 + 4 * i);
    }
    lemma_texture_payloads_kept(a, b, files, texs, rels, ib + 12 + 4 * n, begin + 292);
}

/// Recorded texture payloads survive a mutation that leaves every byte from
/// `lo` up in place.
proof fn lemma_texture_payloads_kept(
    a: Seq<u8>,
    b: Seq<u8>,
    files: Seq<StoredFile>,
    ts: Seq<Texture>,
    rels: Seq<u32>,
    base: int,
    lo: int,
)
    requires
        rels.len() == ts.len(),
        b.len() >= a.len(),
        0 <= lo,
        base >= lo,
        forall|j: int| lo <= j < a.len() ==> #[trigger] b[j] == a[j],
        forall|i: int|
            0 <= i < rels.len() ==> texture_payload_recorded(
                a,
                files,
                ts[i],
                base,
                (#[trigger] rels[i]) as int,
            ),
    ensures
        forall|i: int|
            0 <= i < rels.len() ==> texture_payload_recorded(
                b,
                files,
                ts[i],
                base,
                (#[trigger] rels[i]) as int,
            ),
{
    assert forall|i: int| 0 <= i < rels.len() implies texture_payload_recorded(
        b,
        files,
        ts[i],
        base,
        (#[trigger] rels[i]) as int,
    ) by {
        let o = base + rels[i] as int;
        assert(texture_payload_recorded(a, files, ts[i], base, rels[i] as int));
        let f = choose|f: int|
            0 <= f < files.len() && (#[trigger] files[f]).name@ == ts[i].filename@ && files[f].data
                is Image && ({
                let im = files[f].data->Image_0;
                let enc = crate::texture::spec_dds_from_image(
                    im.width,
                    im.height,
                    im.rgba@,
                    ts[i].format,
                );
                &&& enc is Ok
                &&& base + rels[i] as int + enc.unwrap().len() <= a.len()
                &&& a.subrange(
                    base + rels[i] as int,
                    base + rels[i] as int + enc.unwrap().len() as int,
                ) == enc.unwrap()
            });
        let im = files[f].data->Image_0;
        let enc = crate::texture::spec_dds_from_image(im.width, im.height, im.rgba@, ts[i].format);
        assert(0 <= f < files.len() && files[f].name@ == ts[i].filename@ && files[f].data
            is Image);
        assert(enc is Ok);
        assert(o + enc.unwrap().len() <= a.len());
        assert(a.subrange(o, o + enc.unwrap().len() as int) == enc.unwrap());
        assert forall|j: int| o <= j < o + enc.unwrap().len() implies b[j] == #[trigger] a[j] by {
            assert(lo <= j < a.len());
        }
        assert(b.subrange(o, o + enc.unwrap().len() as int) =~= a.subrange(
            o,
            o + enc.unwrap().len() as int,
        ));
    }
}

/// The nested header's fixed words survive a mutation that leaves the bytes
/// under them in place.
proof fn lemma_layout_kept(a: Seq<u8>, b: Seq<u8>, begin: int)
    requires
        0 <= begin,
        begin + 292 <= a.len(),
        b.len() >= a.len(),
        header_layout(a, begin, 1, 0, 256, 256, 2),
        forall|j: int|
            begin <= j < begin + 16 && j < a.len() ==> b[j] == #[trigger] a[j],
        forall|j: int|
            begin + 256 <= j < begin + 276 && j < a.len() ==> b[j] == #[trigger] a[j],
    ensures
        header_layout(b, begin, 1, 0, 256, 256, 2),
{
    crate::words::lemma_word_at_same(a, b, begin);
    crate::words::lemma_word_at_same(a, b, begin + 4);
    crate::words::lemma_word_at_same(a, b, begin + 8);
    crate::words::lemma_word_at_same(a, b, begin + 12);
    crate::words::lemma_word_at_same(a, b, begin + 256);
    crate::words::lemma_word_at_same(a, b, begin + 260);
    crate::words::lemma_word_at_same(a, b, begin + 264);
    crate::words::lemma_word_at_same(a, b, begin + 268);
    crate::words::lemma_word_at_same(a, b, begin + 272);
}

impl CatFileWriter {
    /// Writes both parts of a container header at the current end of the
    /// output: the fixed words of part one, zeros up to `size`, the fixed
    /// words of part two, a zeroed child table of `children_count` entries,
    /// and alignment padding. The content size and the child table are
    /// patched by the caller once the children have been written.
    #[verifier::rlimit(100)]
    pub fn write_header(
        &mut self,
        version: u32,
        format: u32,
        size: u32,
        alignment: u32,
        children_count: u32,
    ) -> (r: Result<(), CatError>)
        requires
            old(self).wf(),
            size >= 32,
            alignment > 0,
        ensures
            final(self).wf(),
            bytes_extends(final(self).output@, old(self).output@),
            r is Err ==> r == Err::<(), CatError>(
                CatError::ManifestError(ManifestFault::TooLarge),
            ),
            r is Ok ==> {
                &&& final(self).output@.len() == spec_align_up(
                    old(self).output@.len() + size + 20 + 8 * children_count,
                    alignment as int,
                )
                &&& final(self).output@.len() >= old(self).output@.len() + size + 20 + 8
                    * children_count
                &&& header_layout(
                    final(self).output@,
                    old(self).output@.len() as int,
                    version,
                    format,
                    size,
                    alignment,
                    children_count,
                )
                &&& ({
                    let begin = old(self).output@.len() as int;
                    let out = final(self).output@;
                    &&& (forall|j: int|
                        begin + 20 <= j < begin + size ==> #[trigger] out[j] == 0)
                    &&& (forall|j: int|
                        begin + size + 20 <= j < begin + size + 20 + 8 * children_count
                            ==> #[trigger] out[j] == 0)
                    &&& (forall|j: int|
                        begin + size + 20 + 8 * children_count <= j < out.len()
                            ==> #[trigger] out[j] == 0)
                })
            },
            old(self).output@.len() + size + 20 + 8 * children_count + alignment
                <= MAX_OUTPUT_LEN ==> r is Ok,
    {
        let ghost start = self.output@.len() as int;
        let ghost t0 = self.output@;
        match self.write_u32(1) {
            Ok(()) => {},
            Err(e) => return Err(e),
        }
        let ghost t1 = self.output@;
        match self.write_u32(version) {
            Ok(()) => {},
            Err(e) => return Err(e),
        }
        proof {
            crate::words::lemma_word_at_same(t1, self.output@, start);
        }
        let ghost t2 = self.output@;
        match self.write_u32(0) {
            Ok(()) => {},
            Err(e) => return Err(e),
        }
        proof {
            crate::words::lemma_word_at_same(t2, self.output@, start);
            crate::words::lemma_word_at_same(t2, self.output@, start + 4);
        }
        let ghost t3 = self.output@;
        match self.write_u32(size) {
            Ok(()) => {},
            Err(e) => return Err(e),
        }
        proof {
            crate::words::lemma_word_at_same(t3, self.output@, start);
            crate::words::lemma_word_at_same(t3, self.output@, start + 4);
            crate::words::lemma_word_at_same(t3, self.output@, start + 8);
        }
        let ghost t4 = self.output@;
        match self.write_u32(0) {
            Ok(()) => {},
            Err(e) => return Err(e),
        }
        proof {
            crate::words::lemma_word_at_same(t4, self.output@, start);
            crate::words::lemma_word_at_same(t4, self.output@, start + 4);
            crate::words::lemma_word_at_same(t4, self.output@, start + 8);
            crate::words::lemma_word_at_same(t4, self.output@, start + 12);
        }
        let ghost t5 = self.output@;
        match self.write_u8_n(0, size as u64 - 20) {
            Ok(()) => {},
            Err(e) => return Err(e),
        }
        proof {
            crate::words::lemma_word_at_same(t5, self.output@, start);
            crate::words::lemma_word_at_same(t5, self.output@, start + 4);
            crate::words::lemma_word_at_same(t5, self.output@, start + 8);
            crate::words::lemma_word_at_same(t5, self.output@, start + 12);
        }
        let ghost t6 = self.output@;
        match self.write_u32(0) {
            Ok(()) => {},
            Err(e) => return Err(e),
        }
        proof {
            crate::words::lemma_word_at_same(t6, self.output@, start);
            crate::words::lemma_word_at_same(t6, self.output@, start + 4);
            crate::words::lemma_word_at_same(t6, self.output@, start + 8);
            crate::words::lemma_word_at_same(t6, self.output@, start + 12);
        }
        let ghost t7 = self.output@;
        match self.write_u32(children_count) {
            Ok(()) => {},
            Err(e) => return Err(e),
        }
        proof {
            crate::words::lemma_word_at_same(t7, self.output@, start);
            crate::words::lemma_word_at_same(t7, self.output@, start + 4);
            crate::words::lemma_word_at_same(t7, self.output@, start + 8);
            crate::words::lemma_word_at_same(t7, self.output@, start + 12);
            crate::words::lemma_word_at_same(t7, self.output@, start + size);
        }
        let ghost t8 = self.output@;
        match self.write_u32(format) {
            Ok(()) => {},
            Err(e) => return Err(e),
        }
        proof {
            crate::words::lemma_word_at_same(t8, self.output@, start);
            crate::words::lemma_word_at_same(t8, self.output@, start + 4);
            crate::words::lemma_word_at_same(t8, self.output@, start + 8);
            crate::words::lemma_word_at_same(t8, self.output@, start + 12);
            crate::words::lemma_word_at_same(t8, self.output@, start + size);
            crate::words::lemma_word_at_same(t8, self.output@, start + size + 4);
        }
        let ghost t9 = self.output@;
        match self.write_u32(alignment) {
            Ok(()) => {},
            Err(e) => return Err(e),
        }
        proof {
            crate::words::lemma_word_at_same(t9, self.output@, start);
            crate::words::lemma_word_at_same(t9, self.output@, start + 4);
            crate::words::lemma_word_at_same(t9, self.output@, start + 8);
            crate::words::lemma_word_at_same(t9, self.output@, start + 12);
            crate::words::lemma_word_at_same(t9, self.output@, start + size);
            crate::words::lemma_word_at_same(t9, self.output@, start + size + 4);
            crate::words::lemma_word_at_same(t9, self.output@, start + size + 8);
        }
        let ghost t10 = self.output@;
        match self.write_u32(0) {
            Ok(()) => {},
            Err(e) => return Err(e),
        }
        proof {
            crate::words::lemma_word_at_same(t10, self.output@, start);
            crate::words::lemma_word_at_same(t10, self.output@, start + 4);
            crate::words::lemma_word_at_same(t10, self.output@, start + 8);
            crate::words::lemma_word_at_same(t10, self.output@, start + 12);
            crate::words::lemma_word_at_same(t10, self.output@, start + size);
            crate::words::lemma_word_at_same(t10, self.output@, start + size + 4);
            crate::words::lemma_word_at_same(t10, self.output@, start + size + 8);
            crate::words::lemma_word_at_same(t10, self.output@, start + size + 12);
        }
        let ghost t11 = self.output@;
        match self.write_u8_n(0, 8 * children_count as u64) {
            Ok(()) => {},
            Err(e) => return Err(e),
        }
        proof {
            crate::words::lemma_word_at_same(t11, self.output@, start);
            crate::words::lemma_word_at_same(t11, self.output@, start + 4);
            crate::words::lemma_word_at_same(t11, self.output@, start + 8);
            crate::words::lemma_word_at_same(t11, self.output@, start + 12);
            crate::words::lemma_word_at_same(t11, self.output@, start + size);
            crate::words::lemma_word_at_same(t11, self.output@, start + size + 4);
            crate::words::lemma_word_at_same(t11, self.output@, start + size + 8);
            crate::words::lemma_word_at_same(t11, self.output@, start + size + 12);
            crate::words::lemma_word_at_same(t11, self.output@, start + size + 16);
        }
        let ghost t12 = self.output@;
        match self.align(alignment) {
            Ok(()) => {},
            Err(e) => return Err(e),
        }
        proof {
            crate::words::lemma_word_at_same(t12, self.output@, start);
            crate::words::lemma_word_at_same(t12, self.output@, start + 4);
            crate::words::lemma_word_at_same(t12, self.output@, start + 8);
            crate::words::lemma_word_at_same(t12, self.output@, start + 12);
            crate::words::lemma_word_at_same(t12, self.output@, start + size);
            crate::words::lemma_word_at_same(t12, self.output@, start + size + 4);
            crate::words::lemma_word_at_same(t12, self.output@, start + size + 8);
            crate::words::lemma_word_at_same(t12, self.output@, start + size + 12);
            crate::words::lemma_word_at_same(t12, self.output@, start + size + 16);
        }
        proof {
            assert(header_layout(
                self.output@,
                start,
                version,
                format,
                size,
                alignment,
                children_count,
            ));
        }
        Ok(())
    }

    /// Packs the manifest tree into an archive byte stream. The root must be
    /// a container.
    pub fn pack(&mut self, entry: &ArchiveEntry, files: &Vec<StoredFile>) -> (r: Result<
        (),
        CatError,
    >)
        requires
            old(self).wf(),
        ensures
            final(self).wf(),
            grows_from(final(self).output@, old(self).output@, old(self).output@.len() as int),
            !(entry is Container) ==> r == Err::<(), CatError>(
                CatError::ManifestError(ManifestFault::UnsupportedEntry),
            ),
            r == Err::<(), CatError>(CatError::ManifestError(ManifestFault::MissingFile))
                ==> !entry_files_present(*entry, files@),
            (*entry matches ArchiveEntry::Container(c) && tree_shape_ok(c)
                && entry_files_present(*entry, files@)) ==> (r is Ok || r == Err::<(), CatError>(
                CatError::ManifestError(ManifestFault::TooLarge),
            ) || (*entry matches ArchiveEntry::Container(c2) && tree_has_textures(c2) && r
                == Err::<(), CatError>(
                CatError::ManifestError(ManifestFault::UnsupportedTexture),
            ))),
    {
        match entry {
            ArchiveEntry::Container(container) => {
                proof {
                    assert(ArchiveEntry::Container(*container) == *entry);
                }
                self.pack_container(container, files)
            },
            _ => Err(CatError::ManifestError(ManifestFault::UnsupportedEntry)),
        }
    }

    /// Packs one container: its header, its children in manifest order, and
    /// the patched content size and child table.
    #[verifier::loop_isolation(false)]
    #[verifier::rlimit(100)]
    pub fn pack_container(&mut self, container: &Container, files: &Vec<StoredFile>) -> (r:
        Result<(), CatError>)
        requires
            old(self).wf(),
        ensures
            final(self).wf(),
            grows_from(final(self).output@, old(self).output@, old(self).output@.len() as int),
            (container.version >= 3 || container.size < 32 || container.alignment == 0) ==> r
                == Err::<(), CatError>(CatError::ManifestError(ManifestFault::BadHeaderField)),
            (container.version < 3 && container.size >= 32 && container.alignment > 0 && !(
            container.format == 0 || container.format == 1 || container.format == 2
                || container.format == 8)) ==> r == Err::<(), CatError>(
                CatError::UnrecognisedVariant(container.format),
            ),
            r is Ok ==> ({
                let begin = old(self).output@.len() as int;
                let out = final(self).output@;
                &&& out.len() >= begin + container.size + 20 + 8 * spec_table_entries(
                    *container,
                )
                &&& crate::words::word_at(out, begin) == 1
                &&& crate::words::word_at(out, begin + 4) == container.version
                &&& crate::words::word_at(out, begin + 8) == 0
                &&& crate::words::word_at(out, begin + 12) == container.size
                &&& crate::words::word_at(out, begin + 16) == out.len() - begin - container.size
                &&& crate::words::word_at(out, begin + container.size) == 0
                &&& crate::words::word_at(out, begin + container.size + 4)
                    == spec_table_entries(*container)
                &&& crate::words::word_at(out, begin + container.size + 8) == container.format
                &&& crate::words::word_at(out, begin + container.size + 12)
                    == container.alignment
                &&& crate::words::word_at(out, begin + container.size + 16) == 0
            }),
            r == Err::<(), CatError>(CatError::ManifestError(ManifestFault::TooLarge))
                ==> spec_table_entries(*container) > 0xFFFF || old(self).output@.len()
                + container.size + 20 + 8 * spec_table_entries(*container) + container.alignment
                > MAX_OUTPUT_LEN || final(self).output@.len() > old(self).output@.len(),
            r == Err::<(), CatError>(CatError::ManifestError(ManifestFault::MissingFile))
                ==> !entry_files_present(ArchiveEntry::Container(*container), files@),
            r == Err::<(), CatError>(CatError::ManifestError(ManifestFault::BadName))
                ==> !tree_shape_ok(*container),
            (tree_shape_ok(*container) && entry_files_present(
                ArchiveEntry::Container(*container),
                files@,
            )) ==> (r is Ok || r == Err::<(), CatError>(
                CatError::ManifestError(ManifestFault::TooLarge),
            ) || (tree_has_textures(*container) && r == Err::<(), CatError>(
                CatError::ManifestError(ManifestFault::UnsupportedTexture),
            ))),
        decreases *container,
    {
        if container.version >= 3 || container.size < 32 || container.alignment == 0 {
            return Err(CatError::ManifestError(ManifestFault::BadHeaderField));
        }
        if !(container.format == 0 || container.format == 1 || container.format == 2
            || container.format == 8) {
            return Err(CatError::UnrecognisedVariant(container.format));
        }

        let start = self.get_offset();
        let size = container.size;

        // How many entries the header's child table needs.
        let children_count: u64 = if container.format == 1 {
            if container.children.len() != 1 {
                return Err(CatError::ManifestError(ManifestFault::WrongChildCount));
            }
            match &container.children[0] {
                ArchiveEntry::Files(list) => {
                    if list.len() > 0xFFFE {
                        proof {
                            assert(container.children@[0]->Files_0 == *list);
                        }
                        return Err(CatError::ManifestError(ManifestFault::TooLarge));
                    }
                    list.len() as u64 + 1
                },
                _ => {
                    return Err(CatError::ManifestError(ManifestFault::UnsupportedEntry));
                },
            }
        } else {
            container.children.len() as u64
        };
        proof {
            assert(children_count as int == spec_table_entries(*container));
        }
        if children_count > 0xFFFF {
            return Err(CatError::ManifestError(ManifestFault::TooLarge));
        }
        match self.write_header(
            container.version,
            container.format,
            size,
            container.alignment,
            children_count as u32,
        ) {
            Ok(()) => {},
            Err(e) => return Err(e),
        }
        let ghost table_need = start + size + 20 + 8 * children_count;
        let ghost emitted = self.output@;

        if container.format == 0 {
            let mut children_data: Vec<ChildData> = Vec::new();
            let mut k: usize = 0;
            while k < container.children.len()
                invariant
                    0 <= k <= container.children@.len(),
                    self.wf(),
                    grows_from(self.output@, old(self).output@, start + container.size + 20),
                    grows_from(self.output@, emitted, start + container.size + 20),
                    self.output@.len() >= table_need,
                    children_data@.len() == k as int,
                    forall|i: int|
                        0 <= i < k as int ==> (#[trigger] children_data@[i]).offset <= u32::MAX
                            && (#[trigger] children_data@[i]).size <= u32::MAX,
                decreases container.children@.len() - k,
            {
                let ghost mid = self.output@;
                let child_start = self.get_offset();
                let rel = child_start - start - size as u64;
                match &container.children[k] {
                    ArchiveEntry::Container(c2) => {
                        proof {
                            assert(decreases_to!(*container => container.children));
                            assert(decreases_to!(container.children => container.children@));
                            assert(decreases_to!(container.children@ =>
                                container.children@[k as int]));
                            assert(decreases_to!(container.children@[k as int] =>
                                container.children@[k as int]->Container_0));
                            assert(container.children@[k as int]->Container_0 == *c2);
                        }
                        match self.pack_container(c2, files) {
                            Ok(()) => {},
                            Err(e) => {
                                proof {
                                    if e == CatError::ManifestError(ManifestFault::MissingFile) {
                                        assert(!entry_files_present(
                                            ArchiveEntry::Container(*container),
                                            files@,
                                        )) by {
                                            if entry_files_present(
                                                ArchiveEntry::Container(*container),
                                                files@,
                                            ) {
                                                lemma_files_present_child(
                                                    *container,
                                                    files@,
                                                    k as int,
                                                );
                                            }
                                        }
                                    }
                                    if e == CatError::ManifestError(ManifestFault::BadName) {
                                        assert(!tree_shape_ok(*container)) by {
                                            if tree_shape_ok(*container) {
                                                lemma_shape_child(*container, k as int);
                                            }
                                        }
                                    }
                                    if tree_shape_ok(*container) && entry_files_present(
                                        ArchiveEntry::Container(*container),
                                        files@,
                                    ) {
                                        lemma_shape_child(*container, k as int);
                                        lemma_files_present_child(*container, files@, k as int);
                                        if tree_has_textures(*c2) {
                                            lemma_has_textures_child(*container, k as int);
                                        }
                                    }
                                }
                                return Err(e);
                            },
                        }
                    },
                    ArchiveEntry::File(name) => {
                        proof {
                            assert(container.children@[k as int]->File_0 == *name);
                        }
                        let idx = match find_file(files, name) {
                            Some(i) => i,
                            None => {
                                proof {
                                    assert(!raw_present(files@, name@)) by {
                                        if raw_present(files@, name@) {
                                            let j = choose|j: int|
                                                0 <= j < files@.len() && (
                                                #[trigger] files@[j]).name@ == name@;
                                            assert(files@[j].name@ != name@);
                                        }
                                    }
                                    assert(!entry_files_present(
                                        ArchiveEntry::Container(*container),
                                        files@,
                                    )) by {
                                        if entry_files_present(
                                            ArchiveEntry::Container(*container),
                                            files@,
                                        ) {
                                            lemma_files_present_child(
                                                *container,
                                                files@,
                                                k as int,
                                            );
                                        }
                                    }
                                }
                                return Err(
                                    CatError::ManifestError(ManifestFault::MissingFile),
                                );
                            },
                        };
                        let payload = match &files[idx].data {
                            FileData::Raw(bytes) => bytes,
                            FileData::Image(_) => {
                                proof {
                                    assert(!entry_files_present(
                                        ArchiveEntry::Container(*container),
                                        files@,
                                    )) by {
                                        if entry_files_present(
                                            ArchiveEntry::Container(*container),
                                            files@,
                                        ) {
                                            lemma_files_present_child(
                                                *container,
                                                files@,
                                                k as int,
                                            );
                                            assert(files@[idx as int].data is Raw);
                                        }
                                    }
                                }
                                return Err(
                                    CatError::ManifestError(ManifestFault::UnsupportedEntry),
                                );
                            },
                        };
                        match self.write_bytes(payload) {
                            Ok(()) => {},
                            Err(e) => return Err(e),
                        }
                    },
                    _ => {
                        return Err(CatError::ManifestError(ManifestFault::UnsupportedEntry));
                    },
                }
                let child_size = self.get_offset() - child_start;
                match self.align(container.alignment) {
                    Ok(()) => {},
                    Err(e) => return Err(e),
                }
                children_data.push(ChildData { offset: rel, size: child_size });
                k = k + 1;
            }
            match self.update_child_table(start + size as u64 + 20, &children_data) {
                Ok(()) => {},
                Err(e) => return Err(e),
            }
        } else if container.format == 1 {
            match self.pack_format_1(start, container, files) {
                Ok(()) => {},
                Err(e) => return Err(e),
            }
        } else if container.format == 2 {
            match self.pack_format_2(start, container, files) {
                Ok(()) => {},
                Err(e) => return Err(e),
            }
        } else {
            match self.pack_format_8(start, container, files) {
                Ok(()) => {},
                Err(e) => return Err(e),
            }
        }

        proof {
            assert(grows_from(self.output@, emitted, start + size as int + 20));
            crate::words::lemma_word_at_same(emitted, self.output@, start as int);
            crate::words::lemma_word_at_same(emitted, self.output@, start as int + 4);
            crate::words::lemma_word_at_same(emitted, self.output@, start as int + 8);
            crate::words::lemma_word_at_same(emitted, self.output@, start as int + 12);
            crate::words::lemma_word_at_same(emitted, self.output@, start + size as int);
            crate::words::lemma_word_at_same(emitted, self.output@, start + size as int + 4);
            crate::words::lemma_word_at_same(emitted, self.output@, start + size as int + 8);
            crate::words::lemma_word_at_same(emitted, self.output@, start + size as int + 12);
            crate::words::lemma_word_at_same(emitted, self.output@, start + size as int + 16);
        }
        let ghost before_patch = self.output@;
        let end = self.get_offset();
        self.write_at(start + 16, (end - start - size as u64) as u32);
        proof {
            crate::words::lemma_word_at_same(before_patch, self.output@, start as int);
            crate::words::lemma_word_at_same(before_patch, self.output@, start as int + 4);
            crate::words::lemma_word_at_same(before_patch, self.output@, start as int + 8);
            crate::words::lemma_word_at_same(before_patch, self.output@, start as int + 12);
            crate::words::lemma_word_at_same(before_patch, self.output@, start + size as int);
            crate::words::lemma_word_at_same(before_patch, self.output@, start + size as int + 4);
            crate::words::lemma_word_at_same(before_patch, self.output@, start + size as int + 8);
            crate::words::lemma_word_at_same(
                before_patch,
                self.output@,
                start + size as int + 12,
            );
            crate::words::lemma_word_at_same(
                before_patch,
                self.output@,
                start + size as int + 16,
            );
        }
        Ok(())
    }

    /// Packs a name-list container's payload: the name table, then each
    /// listed file, with the child table patched to match.
    #[verifier::loop_isolation(false)]
    #[verifier::rlimit(100)]
    fn pack_format_1(
        &mut self,
        start: u64,
        container: &Container,
        files: &Vec<StoredFile>,
    ) -> (r: Result<(), CatError>)
        requires
            old(self).wf(),
            container.size >= 32,
            container.alignment > 0,
            container.format == 1,
            container.children@.len() == 1,
            container.children@[0] is Files,
            start + container.size + 20 + 8 * (1 + container.children@[0]->Files_0@.len())
                <= old(self).output@.len(),
        ensures
            final(self).wf(),
            grows_from(
                final(self).output@,
                old(self).output@,
                start + container.size + 20,
            ),
            r matches Err(e) ==> e is ManifestError,
            r == Err::<(), CatError>(CatError::ManifestError(ManifestFault::MissingFile))
                ==> !entry_files_present(ArchiveEntry::Container(*container), files@),
            r == Err::<(), CatError>(CatError::ManifestError(ManifestFault::BadName))
                ==> !tree_shape_ok(*container),
            (tree_shape_ok(*container) && entry_files_present(
                ArchiveEntry::Container(*container),
                files@,
            ) && container.format == 1) ==> (r is Ok || r == Err::<(), CatError>(
                CatError::ManifestError(ManifestFault::TooLarge),
            )),
            r is Ok ==> ({
                let table = joined_names(
                    container.children@[0]->Files_0@.map_values(
                        |s: String| crate::names::string_bytes(s),
                    ),
                );
                final(self).output@.subrange(
                    old(self).output@.len() as int,
                    old(self).output@.len() as int + table.len() as int,
                ) == table
            }),
            r is Ok ==> ({
                let out = final(self).output@;
                let begin = old(self).output@.len() as int;
                let names = container.children@[0]->Files_0@;
                let tcount = 1 + names.len() as int;
                let tp = start + container.size + 20;
                let table = joined_names(
                    names.map_values(|s: String| crate::names::string_bytes(s)),
                );
                &&& word_at(out, tp) == begin - start - container.size
                &&& word_at(out, tp + 4 * tcount) == table.len()
                &&& (forall|i: int|
                    0 <= i < names.len() ==> payload_recorded(
                        out,
                        files@,
                        names[i],
                        start + container.size,
                        #[trigger] word_at(out, tp + 4 * (i + 1)) as int,
                        word_at(out, tp + 4 * tcount + 4 * (i + 1)) as int,
                    ))
            }),
    {
        let size = container.size;
        let list = match &container.children[0] {
            ArchiveEntry::Files(list) => list,
            _ => {
                return Err(CatError::ManifestError(ManifestFault::UnsupportedEntry));
            },
        };
        let ghost table_need = start + size + 20 + 8 * (1 + list@.len());

        // A name the table cannot store would not survive a round trip:
        // refuse it rather than pack it silently.
        let mut v: usize = 0;
        while v < list.len()
            invariant
                0 <= v <= list@.len(),
                self.output == old(self).output,
                forall|i: int|
                    0 <= i < v as int ==> crate::pack::storable_name(
                        crate::names::string_bytes(#[trigger] list@[i]),
                    ),
            decreases list@.len() - v,
        {
            if !check_storable_name(&list[v]) {
                proof {
                    crate::writer::lemma_grows_refl(self.output@, start + size as int + 20);
                    assert(container.children@[0]->Files_0 == *list);
                    assert(!tree_shape_ok(*container)) by {
                        if tree_shape_ok(*container) {
                            lemma_shape_list_name(*container, v as int);
                        }
                    }
                }
                return Err(CatError::ManifestError(ManifestFault::BadName));
            }
            v = v + 1;
        }
        let mut children_data: Vec<ChildData> = Vec::new();

        let table = build_name_table(list);
        let table_start = self.get_offset();
        let ghost tstart = table_start as int;
        match self.write_bytes(&table) {
            Ok(()) => {},
            Err(e) => return Err(e),
        }
        proof {
            assert(forall|j: int|
                tstart <= j < tstart + table@.len() ==> #[trigger] self.output@[j] == table@[j
                    - tstart]);
        }
        children_data.push(
            ChildData { offset: table_start - start - size as u64, size: table.len() as u64 },
        );
        match self.align(container.alignment) {
            Ok(()) => {},
            Err(e) => return Err(e),
        }

        let mut k: usize = 0;
        while k < list.len()
            invariant
                0 <= k <= list@.len(),
                self.wf(),
                grows_from(self.output@, old(self).output@, start + container.size + 20),
                self.output@.len() >= table_need,
                self.output@.len() >= tstart + table@.len(),
                list@.len() > 0 ==> table@.len() > 0,
                list@.len() > 0 ==> self.output@.len() > old(self).output@.len(),
                forall|j: int|
                    tstart <= j < tstart + table@.len() ==> #[trigger] self.output@[j] == table@[
                        j - tstart],
                children_data@.len() == k as int + 1,
                children_data@[0].offset == tstart - start - size as u64,
                children_data@[0].size == table@.len(),
                forall|i: int|
                    0 <= i < children_data@.len() ==> (#[trigger] children_data@[i]).offset
                        <= u32::MAX && (#[trigger] children_data@[i]).size <= u32::MAX,
                forall|i: int|
                    1 <= i < children_data@.len() ==> (#[trigger] children_data@[i]).offset >= 20
                        + 8 * (1 + list@.len()),
                forall|i: int|
                    1 <= i < children_data@.len() ==> payload_recorded(
                        self.output@,
                        files@,
                        list@[i - 1],
                        start + size as int,
                        (#[trigger] children_data@[i]).offset as int,
                        children_data@[i].size as int,
                    ),
            decreases list@.len() - k,
        {
            let ghost pre_iter = self.output@;
            let ghost pre_children = children_data@;
            let idx = match find_file(files, &list[k]) {
                Some(i) => i,
                None => {
                    proof {
                        assert(container.children@[0]->Files_0 == *list);
                        assert(!raw_present(files@, list@[k as int]@)) by {
                            if raw_present(files@, list@[k as int]@) {
                                let j = choose|j: int|
                                    0 <= j < files@.len() && (#[trigger] files@[j]).name@
                                        == list@[k as int]@;
                                assert(files@[j].name@ != list@[k as int]@);
                            }
                        }
                        assert(!entry_files_present(
                            ArchiveEntry::Container(*container),
                            files@,
                        )) by {
                            if entry_files_present(ArchiveEntry::Container(*container), files@) {
                                lemma_files_present_child(*container, files@, 0);
                                lemma_files_present_name(
                                    container.children@[0],
                                    files@,
                                    k as int,
                                );
                            }
                        }
                    }
                    return Err(CatError::ManifestError(ManifestFault::MissingFile));
                },
            };
            let payload = match &files[idx].data {
                FileData::Raw(bytes) => bytes,
                FileData::Image(_) => {
                    proof {
                        assert(container.children@[0]->Files_0 == *list);
                        assert(!entry_files_present(
                            ArchiveEntry::Container(*container),
                            files@,
                        )) by {
                            if entry_files_present(ArchiveEntry::Container(*container), files@) {
                                lemma_files_present_child(*container, files@, 0);
                                lemma_files_present_name(
                                    container.children@[0],
                                    files@,
                                    k as int,
                                );
                                assert(files@[idx as int].data is Raw);
                            }
                        }
                    }
                    return Err(CatError::ManifestError(ManifestFault::UnsupportedEntry));
                },
            };
            let file_start = self.get_offset();
            match self.write_bytes(payload) {
                Ok(()) => {},
                Err(e) => return Err(e),
            }
            proof {
                assert(self.output@.subrange(
                    file_start as int,
                    file_start as int + payload@.len() as int,
                ) =~= payload@);
            }
            children_data.push(
                ChildData {
                    offset: file_start - start - size as u64,
                    size: payload.len() as u64,
                },
            );
            match self.align(container.alignment) {
                Ok(()) => {},
                Err(e) => return Err(e),
            }
            proof {
                assert(files@[idx as int].data->Raw_0 == *payload);
                assert forall|i: int| 1 <= i < children_data@.len() implies payload_recorded(
                    self.output@,
                    files@,
                    list@[i - 1],
                    start + size as int,
                    (#[trigger] children_data@[i]).offset as int,
                    children_data@[i].size as int,
                ) by {
                    let o = start + size as int + children_data@[i].offset as int;
                    if i < children_data@.len() - 1 {
                        assert(children_data@[i] == pre_children[i]);
                        assert(payload_recorded(
                            pre_iter,
                            files@,
                            list@[i - 1],
                            start + size as int,
                            pre_children[i].offset as int,
                            pre_children[i].size as int,
                        ));
                        let f = choose|f: int|
                            0 <= f < files@.len() && (#[trigger] files@[f]).name@ == list@[i
                                - 1]@ && files@[f].data is Raw && ({
                                let b = files@[f].data->Raw_0;
                                &&& pre_children[i].size as int == b@.len()
                                &&& o + b@.len() <= pre_iter.len()
                                &&& pre_iter.subrange(o, o + b@.len() as int) == b@
                            });
                        let b = files@[f].data->Raw_0;
                        assert(self.output@.subrange(o, o + b@.len() as int)
                            =~= pre_iter.subrange(o, o + b@.len() as int));
                    } else {
                        assert(children_data@[i].offset == file_start - start - size as u64);
                        let b = files@[idx as int].data->Raw_0;
                        assert(self.output@.subrange(o, o + b@.len() as int) =~= payload@);
                    }
                }
            }
            k = k + 1;
        }

        let ghost before_update = self.output@;
        match self.update_child_table(start + size as u64 + 20, &children_data) {
            Ok(()) => {},
            Err(e) => return Err(e),
        }
        proof {
            assert forall|j: int|
                tstart <= j < tstart + table@.len() implies #[trigger] self.output@[j] == table@[
                j - tstart] by {
                assert(self.output@[j] == before_update[j]);
            }
            assert(self.output@.subrange(tstart, tstart + table@.len() as int) =~= table@);
            // Tie the patched table words to the recorded payloads and the
            // name table.
            let tcount = 1 + list@.len() as int;
            let tp = start + size as int + 20;
            assert(children_data@[0].offset <= u32::MAX && children_data@[0].size <= u32::MAX);
            assert(word_at(self.output@, tp) == tstart - start - size);
            assert(word_at(self.output@, tp + 4 * tcount) == table@.len());
            assert forall|i: int| 0 <= i < list@.len() implies payload_recorded(
                self.output@,
                files@,
                list@[i],
                start + size as int,
                #[trigger] word_at(self.output@, tp + 4 * (i + 1)) as int,
                word_at(self.output@, tp + 4 * tcount + 4 * (i + 1)) as int,
            ) by {
                assert(word_at(self.output@, tp + 4 * (i + 1)) == children_data@[i + 1].offset
                    as u32);
                assert(word_at(self.output@, tp + 4 * tcount + 4 * (i + 1)) == children_data@[i
                    + 1].size as u32);
                let o = start + size as int + children_data@[i + 1].offset as int;
                assert(payload_recorded(
                    before_update,
                    files@,
                    list@[i],
                    start + size as int,
                    children_data@[i + 1].offset as int,
                    children_data@[i + 1].size as int,
                ));
                let f = choose|f: int|
                    0 <= f < files@.len() && (#[trigger] files@[f]).name@ == list@[i]@
                        && files@[f].data is Raw && ({
                        let b = files@[f].data->Raw_0;
                        &&& children_data@[i + 1].size as int == b@.len()
                        &&& o + b@.len() <= before_update.len()
                        &&& before_update.subrange(o, o + b@.len() as int) == b@
                    });
                let b = files@[f].data->Raw_0;
                assert forall|j: int| o <= j < o + b@.len() implies #[trigger] self.output@[j]
                    == before_update[j] by {
                    assert(children_data@[i + 1].offset >= 20 + 8 * tcount);
                }
                assert(self.output@.subrange(o, o + b@.len() as int) =~= before_update.subrange(
                    o,
                    o + b@.len() as int,
                ));
            }
        }
        Ok(())
    }

    /// Packs a texture-block container's payload: one nested plain container
    /// per atlas, each holding a name table and a file-block of re-encoded
    /// DDS payloads.
    #[verifier::loop_isolation(false)]
    #[verifier::rlimit(100)]
    fn pack_format_2(
        &mut self,
        start: u64,
        container: &Container,
        files: &Vec<StoredFile>,
    ) -> (r: Result<(), CatError>)
        requires
            old(self).wf(),
            container.size >= 32,
            container.alignment > 0,
            container.format == 2,
            start + container.size + 20 + 8 * container.children@.len()
                <= old(self).output@.len(),
        ensures
            final(self).wf(),
            grows_from(
                final(self).output@,
                old(self).output@,
                start + container.size + 20,
            ),
            r matches Err(e) ==> e is ManifestError,
            r == Err::<(), CatError>(CatError::ManifestError(ManifestFault::MissingFile))
                ==> !entry_files_present(ArchiveEntry::Container(*container), files@),
            r == Err::<(), CatError>(CatError::ManifestError(ManifestFault::BadName))
                ==> !tree_shape_ok(*container),
            (tree_shape_ok(*container) && entry_files_present(
                ArchiveEntry::Container(*container),
                files@,
            )) ==> (r is Ok || r == Err::<(), CatError>(
                CatError::ManifestError(ManifestFault::TooLarge),
            ) || r == Err::<(), CatError>(
                CatError::ManifestError(ManifestFault::UnsupportedTexture),
            )),
            r == Err::<(), CatError>(
                CatError::ManifestError(ManifestFault::UnsupportedTexture),
            ) ==> exists|i: int|
                0 <= i < container.children@.len() && (#[trigger] container.children@[i])
                    is Textures,
            r == Err::<(), CatError>(CatError::ManifestError(ManifestFault::TooLarge))
                ==> final(self).output@.len() > old(self).output@.len() || old(
                self,
            ).output@.len() + 548 > MAX_OUTPUT_LEN || exists|i: int|
                0 <= i < container.children@.len() && (#[trigger] container.children@[i])
                    is Textures && container.children@[i]->Textures_0@.len() > 0xFFFF,
            r is Ok ==> ({
                let out = final(self).output@;
                let tp = start + container.size + 20;
                forall|i: int|
                    0 <= i < container.children@.len() ==> header_layout(
                        out,
                        start + container.size + #[trigger] word_at(out, tp + 4 * i) as int,
                        1,
                        0,
                        256,
                        256,
                        2,
                    )
            }),
    {
        let size = container.size;
        let ghost table_need = start + size + 20 + 8 * container.children@.len();
        let mut outer: Vec<ChildData> = Vec::new();
        let mut k: usize = 0;
        while k < container.children.len()
            invariant
                0 <= k <= container.children@.len(),
                self.wf(),
                grows_from(self.output@, old(self).output@, start + container.size + 20),
                self.output@.len() >= table_need,
                outer@.len() == k as int,
                forall|i: int|
                    0 <= i < outer@.len() ==> (#[trigger] outer@[i]).offset <= u32::MAX && (
                    #[trigger] outer@[i]).size <= u32::MAX,
                forall|i: int|
                    0 <= i < outer@.len() ==> (#[trigger] outer@[i]).offset >= 20 + 8
                        * container.children@.len(),
                forall|i: int|
                    0 <= i < outer@.len() ==> start + container.size + (
                    #[trigger] outer@[i]).offset + 292 <= self.output@.len(),
                forall|i: int|
                    0 <= i < outer@.len() ==> header_layout(
                        self.output@,
                        start + container.size + (#[trigger] outer@[i]).offset as int,
                        1,
                        0,
                        256,
                        256,
                        2,
                    ),
            decreases container.children@.len() - k,
        {
            let textures = match &container.children[k] {
                ArchiveEntry::Textures(t) => t,
                _ => {
                    return Err(CatError::ManifestError(ManifestFault::UnsupportedEntry));
                },
            };
            proof {
                assert(container.children@[k as int]->Textures_0 == *textures);
            }
            let ghost pre_child = self.output@;
            let child_start = self.get_offset();
            match self.pack_atlas(child_start, textures, files) {
                Ok(()) => {},
                Err(e) => {
                    proof {
                        if e == CatError::ManifestError(ManifestFault::MissingFile) {
                            assert(!entry_files_present(
                                ArchiveEntry::Container(*container),
                                files@,
                            )) by {
                                if entry_files_present(
                                    ArchiveEntry::Container(*container),
                                    files@,
                                ) {
                                    lemma_files_present_child(*container, files@, k as int);
                                }
                            }
                        }
                        if e == CatError::ManifestError(ManifestFault::BadName) {
                            assert(!tree_shape_ok(*container)) by {
                                if tree_shape_ok(*container) {
                                    assert forall|t: int|
                                        0 <= t < textures@.len() implies storable_name(
                                        crate::names::string_bytes(
                                            (#[trigger] textures@[t]).name,
                                        ),
                                    ) by {
                                        lemma_shape_texture_name(*container, k as int, t);
                                    }
                                }
                            }
                        }
                        if tree_shape_ok(*container) && entry_files_present(
                            ArchiveEntry::Container(*container),
                            files@,
                        ) {
                            lemma_files_present_child(*container, files@, k as int);
                            assert forall|t: int|
                                0 <= t < textures@.len() implies storable_name(
                                crate::names::string_bytes((#[trigger] textures@[t]).name),
                            ) by {
                                lemma_shape_texture_name(*container, k as int, t);
                            }
                        }
                    }
                    return Err(e);
                },
            }
            outer.push(
                ChildData {
                    offset: child_start - start - size as u64,
                    size: self.get_offset() - child_start,
                },
            );
            proof {
                assert forall|i: int| 0 <= i < outer@.len() implies header_layout(
                    self.output@,
                    start + container.size + (#[trigger] outer@[i]).offset as int,
                    1,
                    0,
                    256,
                    256,
                    2,
                ) by {
                    let b = start + container.size + outer@[i].offset as int;
                    if i < outer@.len() - 1 {
                        lemma_layout_kept(pre_child, self.output@, b);
                    } else {
                        assert(b == child_start as int);
                    }
                }
            }
            k = k + 1;
        }
        let ghost before_outer_table = self.output@;
        match self.update_child_table(start + size as u64 + 20, &outer) {
            Ok(()) => {},
            Err(e) => return Err(e),
        }
        proof {
            assert forall|i: int| 0 <= i < outer@.len() implies header_layout(
                self.output@,
                start + container.size + (#[trigger] outer@[i]).offset as int,
                1,
                0,
                256,
                256,
                2,
            ) by {
                lemma_layout_kept(
                    before_outer_table,
                    self.output@,
                    start + container.size + outer@[i].offset as int,
                );
            }
            assert forall|i: int|
                0 <= i < container.children@.len() implies header_layout(
                self.output@,
                start + container.size + #[trigger] word_at(
                    self.output@,
                    start + container.size + 20 + 4 * i,
                ) as int,
                1,
                0,
                256,
                256,
                2,
            ) by {
                assert(word_at(self.output@, start + container.size + 20 + 4 * i) == outer@[i
                    ].offset as u32);
            }
        }
        Ok(())
    }

    /// Packs one texture atlas: a nested plain container with a name table
    /// and a file-block whose payloads are the textures re-encoded to DDS,
    /// with every placeholder patched once the payload positions are known.
    #[verifier::loop_isolation(false)]
    #[verifier::rlimit(100)]
    fn pack_atlas(
        &mut self,
        child_start: u64,
        textures: &Vec<Texture>,
        files: &Vec<StoredFile>,
    ) -> (r: Result<(), CatError>)
        requires
            old(self).wf(),
            child_start == old(self).output@.len(),
        ensures
            final(self).wf(),
            grows_from(final(self).output@, old(self).output@, child_start as int),
            r matches Err(e) ==> e is ManifestError,
            r == Err::<(), CatError>(CatError::ManifestError(ManifestFault::MissingFile))
                ==> !entry_files_present(ArchiveEntry::Textures(*textures), files@),
            r == Err::<(), CatError>(CatError::ManifestError(ManifestFault::BadName)) ==> !(
            forall|t: int|
                0 <= t < textures@.len() ==> storable_name(
                    crate::names::string_bytes((#[trigger] textures@[t]).name),
                )),
            ((forall|t: int|
                0 <= t < textures@.len() ==> storable_name(
                    crate::names::string_bytes((#[trigger] textures@[t]).name),
                )) && entry_files_present(ArchiveEntry::Textures(*textures), files@)) ==> (r is Ok
                || r == Err::<(), CatError>(CatError::ManifestError(ManifestFault::TooLarge)) || r
                == Err::<(), CatError>(
                CatError::ManifestError(ManifestFault::UnsupportedTexture),
            )),
            r == Err::<(), CatError>(CatError::ManifestError(ManifestFault::TooLarge))
                ==> final(self).output@.len() > old(self).output@.len() || old(
                self,
            ).output@.len() + 548 > MAX_OUTPUT_LEN || textures@.len() > 0xFFFF,
            r is Ok ==> ({
                let out = final(self).output@;
                let begin = old(self).output@.len() as int;
                let n = textures@.len() as int;
                let table = joined_names(
                    textures@.map_values(|t: Texture| crate::names::string_bytes(t.name)),
                );
                let ts = spec_align_up(begin + 292, 256);
                let ib = spec_align_up(ts + table.len(), 256);
                &&& out.len() >= begin + 292
                &&& header_layout(out, begin, 1, 0, 256, 256, 2)
                &&& word_at(out, begin + 16) == out.len() - begin - 256
                &&& out.subrange(ts, ts + table.len() as int) == table
                &&& word_at(out, begin + 276) == ts - begin - 256
                &&& word_at(out, begin + 284) == table.len()
                &&& word_at(out, begin + 280) == ib - begin - 256
                &&& word_at(out, ib) == 12 + 4 * n
                &&& word_at(out, ib + 4) == n
                &&& word_at(out, begin + 288) == word_at(out, ib + 8)
                &&& (forall|i: int|
                    0 <= i < n ==> texture_payload_recorded(
                        out,
                        files@,
                        textures@[i],
                        ib + 12 + 4 * n,
                        #[trigger] word_at(out, ib + 12 + 4 * i) as int,
                    ))
            }),
    {
        if textures.len() > 0xFFFF {
            return Err(CatError::ManifestError(ManifestFault::TooLarge));
        }
        // A name the table cannot store would not survive a round trip:
        // refuse it rather than pack it silently.
        let mut v: usize = 0;
        while v < textures.len()
            invariant
                0 <= v <= textures@.len(),
                self.output == old(self).output,
                forall|t: int|
                    0 <= t < v as int ==> storable_name(
                        crate::names::string_bytes((#[trigger] textures@[t]).name),
                    ),
            decreases textures@.len() - v,
        {
            if !check_storable_name(&textures[v].name) {
                proof {
                    crate::writer::lemma_grows_refl(self.output@, child_start as int);
                }
                return Err(CatError::ManifestError(ManifestFault::BadName));
            }
            v = v + 1;
        }
        let count = textures.len() as u32;
        match self.write_header(1, 0, 256, 256, 2) {
            Ok(()) => {},
            Err(e) => return Err(e),
        }
        let ghost after_hdr = self.output@;
        let ghost table_need = child_start + 256 + 20 + 16;
        proof {
            assert(grows_from(self.output@, old(self).output@, child_start as int));
        }
        let mut sub: Vec<ChildData> = Vec::new();

        let mut names: Vec<String> = Vec::new();
        let mut i: usize = 0;
        while i < textures.len()
            invariant
                0 <= i <= textures@.len(),
                names@.len() == i as int,
                forall|j: int| 0 <= j < i as int ==> names@[j] == (#[trigger] textures@[j]).name,
            decreases textures@.len() - i,
        {
            names.push(textures[i].name.clone());
            i = i + 1;
        }
        let table = build_name_table(&names);
        proof {
            assert(names@.map_values(|s: String| crate::names::string_bytes(s))
                =~= textures@.map_values(|t: Texture| crate::names::string_bytes(t.name)));
        }
        let table_start = self.get_offset();
        let ghost tstart = table_start as int;
        match self.write_bytes(&table) {
            Ok(()) => {},
            Err(e) => return Err(e),
        }
        proof {
            assert(tstart == spec_align_up(child_start as int + 292, 256));
            assert(forall|j: int|
                tstart <= j < tstart + table@.len() ==> #[trigger] self.output@[j] == table@[j
                    - tstart]);
        }
        sub.push(
            ChildData { offset: table_start - child_start - 256, size: table.len() as u64 },
        );
        match self.align(256) {
            Ok(()) => {},
            Err(e) => return Err(e),
        }

        // The file-block: its header, a zeroed offset table, then each
        // texture re-encoded to DDS.
        proof {
            assert(grows_from(self.output@, old(self).output@, child_start as int));
        }
        let ib_start = self.get_offset();
        match self.write_u32((count + 3) * 4) {
            Ok(()) => {},
            Err(e) => return Err(e),
        }
        let ghost s_blk1 = self.output@;
        match self.write_u32(count) {
            Ok(()) => {},
            Err(e) => return Err(e),
        }
        let ghost s_blk2 = self.output@;
        match self.write_u32(0) {
            Ok(()) => {},
            Err(e) => return Err(e),
        }
        match self.write_u8_n(0, 4 * count as u64) {
            Ok(()) => {},
            Err(e) => return Err(e),
        }
        let header_len = (count as u64 + 3) * 4;
        proof {
            assert(grows_from(self.output@, old(self).output@, child_start as int));
            lemma_layout_kept(after_hdr, self.output@, child_start as int);
            crate::words::lemma_word_at_same(s_blk1, self.output@, ib_start as int);
            crate::words::lemma_word_at_same(s_blk2, self.output@, ib_start as int + 4);
            assert(word_at(self.output@, ib_start as int) == 12 + 4 * count as int);
            assert(word_at(self.output@, ib_start as int + 4) == count);
            assert(forall|j: int|
                tstart <= j < tstart + table@.len() ==> #[trigger] self.output@[j] == table@[j
                    - tstart]);
        }

        let mut rels: Vec<u32> = Vec::new();
        let mut t: usize = 0;
        while t < textures.len()
            invariant
                0 <= t <= textures@.len(),
                textures@.len() <= 0xFFFF,
                self.wf(),
                grows_from(self.output@, old(self).output@, child_start as int),
                ib_start + header_len <= self.output@.len(),
                header_len == (textures@.len() + 3) * 4 || header_len == (count + 3) * 4,
                count == textures@.len(),
                header_len == (count + 3) * 4,
                ib_start + 12 + 4 * count <= self.output@.len(),
                rels@.len() == t as int,
                child_start == old(self).output@.len(),
                tstart == spec_align_up(child_start as int + 292, 256),
                ib_start == spec_align_up(tstart + table@.len(), 256),
                header_layout(self.output@, child_start as int, 1, 0, 256, 256, 2),
                forall|j: int|
                    tstart <= j < tstart + table@.len() ==> #[trigger] self.output@[j] == table@[
                        j - tstart],
                word_at(self.output@, ib_start as int) == 12 + 4 * count,
                word_at(self.output@, ib_start as int + 4) == count,
                forall|i: int|
                    0 <= i < rels@.len() ==> texture_payload_recorded(
                        self.output@,
                        files@,
                        textures@[i],
                        ib_start as int + header_len as int,
                        (#[trigger] rels@[i]) as int,
                    ),
            decreases textures@.len() - t,
        {
            let ghost pre_iter = self.output@;
            let ghost pre_rels = rels@;
            let idx = match find_file(files, &textures[t].filename) {
                Some(i) => i,
                None => {
                    proof {
                        assert(!image_present(files@, textures@[t as int].filename@)) by {
                            if image_present(files@, textures@[t as int].filename@) {
                                let j = choose|j: int|
                                    0 <= j < files@.len() && (#[trigger] files@[j]).name@
                                        == textures@[t as int].filename@;
                                assert(files@[j].name@ != textures@[t as int].filename@);
                            }
                        }
                        assert(!entry_files_present(
                            ArchiveEntry::Textures(*textures),
                            files@,
                        )) by {
                            if entry_files_present(ArchiveEntry::Textures(*textures), files@) {
                                lemma_textures_present_name(
                                    ArchiveEntry::Textures(*textures),
                                    files@,
                                    t as int,
                                );
                            }
                        }
                    }
                    return Err(CatError::ManifestError(ManifestFault::MissingFile));
                },
            };
            let img = match &files[idx].data {
                FileData::Image(img) => img,
                FileData::Raw(_) => {
                    proof {
                        assert(!entry_files_present(
                            ArchiveEntry::Textures(*textures),
                            files@,
                        )) by {
                            if entry_files_present(ArchiveEntry::Textures(*textures), files@) {
                                lemma_textures_present_name(
                                    ArchiveEntry::Textures(*textures),
                                    files@,
                                    t as int,
                                );
                                assert(files@[idx as int].data is Image);
                            }
                        }
                    }
                    return Err(CatError::ManifestError(ManifestFault::UnsupportedEntry));
                },
            };
            let bytes = match dds_from_image(img, &textures[t].format) {
                Ok(b) => b,
                Err(e) => return Err(e),
            };
            let here = self.get_offset();
            let rel = here - ib_start - header_len;
            if rel > u32::MAX as u64 {
                return Err(CatError::ManifestError(ManifestFault::TooLarge));
            }
            match self.write_bytes(&bytes) {
                Ok(()) => {},
                Err(e) => return Err(e),
            }
            proof {
                assert(self.output@.subrange(
                    here as int,
                    here as int + bytes@.len() as int,
                ) =~= bytes@);
            }
            rels.push(rel as u32);
            proof {
                lemma_layout_kept(pre_iter, self.output@, child_start as int);
                crate::words::lemma_word_at_same(pre_iter, self.output@, ib_start as int);
                crate::words::lemma_word_at_same(pre_iter, self.output@, ib_start as int + 4);
                assert(forall|j: int|
                    tstart <= j < tstart + table@.len() ==> #[trigger] self.output@[j]
                        == table@[j - tstart]);
                assert(files@[idx as int].data->Image_0 == *img);
                assert forall|i: int| 0 <= i < rels@.len() implies texture_payload_recorded(
                    self.output@,
                    files@,
                    textures@[i],
                    ib_start as int + header_len as int,
                    (#[trigger] rels@[i]) as int,
                ) by {
                    let o = ib_start as int + header_len as int + rels@[i] as int;
                    if i < rels@.len() - 1 {
                        assert(rels@[i] == pre_rels[i]);
                        assert(texture_payload_recorded(
                            pre_iter,
                            files@,
                            textures@[i],
                            ib_start as int + header_len as int,
                            pre_rels[i] as int,
                        ));
                        let f = choose|f: int|
                            0 <= f < files@.len() && (#[trigger] files@[f]).name@
                                == textures@[i].filename@ && files@[f].data is Image && ({
                                let im = files@[f].data->Image_0;
                                let enc = crate::texture::spec_dds_from_image(
                                    im.width,
                                    im.height,
                                    im.rgba@,
                                    textures@[i].format,
                                );
                                &&& enc is Ok
                                &&& o + enc.unwrap().len() <= pre_iter.len()
                                &&& pre_iter.subrange(o, o + enc.unwrap().len() as int)
                                    == enc.unwrap()
                            });
                        let im = files@[f].data->Image_0;
                        let enc = crate::texture::spec_dds_from_image(
                            im.width,
                            im.height,
                            im.rgba@,
                            textures@[i].format,
                        );
                        assert(self.output@.subrange(o, o + enc.unwrap().len() as int)
                            =~= pre_iter.subrange(o, o + enc.unwrap().len() as int));
                    } else {
                        let enc = crate::texture::spec_dds_from_image(
                            img.width,
                            img.height,
                            img.rgba@,
                            textures@[i].format,
                        );
                        assert(enc == Ok::<Seq<u8>, CatError>(bytes@));
                        assert(self.output@.subrange(o, o + bytes@.len() as int) =~= bytes@);
                    }
                }
            }
            t = t + 1;
        }

        // Patch the block's content length and relative offsets.
        let content_len = self.get_offset() - ib_start;
        let ghost before_content = self.output@;
        self.write_at(ib_start + 8, content_len as u32);
        proof {
            assert(grows_from(self.output@, old(self).output@, child_start as int));
            crate::words::lemma_align_up(tstart + table@.len() as int, 256);
            lemma_layout_kept(before_content, self.output@, child_start as int);
            crate::words::lemma_word_at_same(before_content, self.output@, ib_start as int);
            crate::words::lemma_word_at_same(
                before_content,
                self.output@,
                ib_start as int + 4,
            );
            assert forall|j: int|
                tstart <= j < tstart + table@.len() implies #[trigger] self.output@[j] == table@[
                j - tstart] by {
                assert(before_content[j] == table@[j - tstart]);
                assert(self.output@[j] == before_content[j]);
            }
            assert forall|i: int| 0 <= i < rels@.len() implies texture_payload_recorded(
                self.output@,
                files@,
                textures@[i],
                ib_start as int + header_len as int,
                (#[trigger] rels@[i]) as int,
            ) by {
                let o = ib_start as int + header_len as int + rels@[i] as int;
                assert(texture_payload_recorded(
                    before_content,
                    files@,
                    textures@[i],
                    ib_start as int + header_len as int,
                    rels@[i] as int,
                ));
                let f = choose|f: int|
                    0 <= f < files@.len() && (#[trigger] files@[f]).name@
                        == textures@[i].filename@ && files@[f].data is Image && ({
                        let im = files@[f].data->Image_0;
                        let enc = crate::texture::spec_dds_from_image(
                            im.width,
                            im.height,
                            im.rgba@,
                            textures@[i].format,
                        );
                        &&& enc is Ok
                        &&& o + enc.unwrap().len() <= before_content.len()
                        &&& before_content.subrange(o, o + enc.unwrap().len() as int)
                            == enc.unwrap()
                    });
                let im = files@[f].data->Image_0;
                let enc = crate::texture::spec_dds_from_image(
                    im.width,
                    im.height,
                    im.rgba@,
                    textures@[i].format,
                );
                assert(self.output@.subrange(o, o + enc.unwrap().len() as int)
                    =~= before_content.subrange(o, o + enc.unwrap().len() as int));
            }
        }
        let mut p: usize = 0;
        while p < rels.len()
            invariant
                0 <= p <= rels@.len(),
                rels@.len() == count,
                self.wf(),
                grows_from(self.output@, old(self).output@, child_start as int),
                self.output@.len() >= ib_start + 12 + 4 * count,
                self.output@.len() >= table_need,
                self.output@.len() == before_content.len(),
                child_start == old(self).output@.len(),
                header_layout(self.output@, child_start as int, 1, 0, 256, 256, 2),
                forall|j: int|
                    tstart <= j < tstart + table@.len() ==> #[trigger] self.output@[j] == table@[
                        j - tstart],
                word_at(self.output@, ib_start as int) == 12 + 4 * count,
                word_at(self.output@, ib_start as int + 4) == count,
                word_at(self.output@, ib_start as int + 8) == content_len as u32,
                forall|i: int|
                    0 <= i < p as int ==> #[trigger] word_at(
                        self.output@,
                        ib_start as int + 12 + 4 * i,
                    ) == rels@[i],
                forall|i: int|
                    0 <= i < rels@.len() ==> texture_payload_recorded(
                        self.output@,
                        files@,
                        textures@[i],
                        ib_start as int + header_len as int,
                        (#[trigger] rels@[i]) as int,
                    ),
            decreases rels@.len() - p,
        {
            let ghost pre_patch = self.output@;
            self.write_at(ib_start + 12 + 4 * p as u64, rels[p]);
            proof {
                crate::words::lemma_align_up(tstart + table@.len() as int, 256);
                lemma_layout_kept(pre_patch, self.output@, child_start as int);
                crate::words::lemma_word_at_same(pre_patch, self.output@, ib_start as int);
                crate::words::lemma_word_at_same(pre_patch, self.output@, ib_start as int + 4);
                crate::words::lemma_word_at_same(pre_patch, self.output@, ib_start as int + 8);
                assert forall|j: int|
                    tstart <= j < tstart + table@.len() implies #[trigger] self.output@[j]
                        == table@[j - tstart] by {
                    assert(pre_patch[j] == table@[j - tstart]);
                    assert(self.output@[j] == pre_patch[j]);
                }
                assert forall|i: int| 0 <= i < p as int implies #[trigger] word_at(
                    self.output@,
                    ib_start as int + 12 + 4 * i,
                ) == rels@[i] by {
                    crate::words::lemma_word_at_same(
                        pre_patch,
                        self.output@,
                        ib_start as int + 12 + 4 * i,
                    );
                }
                assert forall|i: int| 0 <= i < rels@.len() implies texture_payload_recorded(
                    self.output@,
                    files@,
                    textures@[i],
                    ib_start as int + header_len as int,
                    (#[trigger] rels@[i]) as int,
                ) by {
                    let o = ib_start as int + header_len as int + rels@[i] as int;
                    assert(texture_payload_recorded(
                        pre_patch,
                        files@,
                        textures@[i],
                        ib_start as int + header_len as int,
                        rels@[i] as int,
                    ));
                    let f = choose|f: int|
                        0 <= f < files@.len() && (#[trigger] files@[f]).name@
                            == textures@[i].filename@ && files@[f].data is Image && ({
                            let im = files@[f].data->Image_0;
                            let enc = crate::texture::spec_dds_from_image(
                                im.width,
                                im.height,
                                im.rgba@,
                                textures@[i].format,
                            );
                            &&& enc is Ok
                            &&& o + enc.unwrap().len() <= pre_patch.len()
                            &&& pre_patch.subrange(o, o + enc.unwrap().len() as int)
                                == enc.unwrap()
                        });
                    let im = files@[f].data->Image_0;
                    let enc = crate::texture::spec_dds_from_image(
                        im.width,
                        im.height,
                        im.rgba@,
                        textures@[i].format,
                    );
                    assert(self.output@.subrange(o, o + enc.unwrap().len() as int)
                        =~= pre_patch.subrange(o, o + enc.unwrap().len() as int));
                }
            }
            p = p + 1;
        }
        let ghost s_patched = self.output@;
        match self.align(256) {
            Ok(()) => {},
            Err(e) => return Err(e),
        }
        proof {
            assert(grows_from(self.output@, s_patched, child_start as int));
            assert(grows_from(self.output@, old(self).output@, child_start as int));
            carry_atlas_facts(
                s_patched,
                self.output@,
                child_start as int,
                tstart,
                table@,
                ib_start as int,
                count as int,
                files@,
                textures@,
                rels@,
            );
            crate::words::lemma_word_at_same(s_patched, self.output@, ib_start as int + 8);
        }

        sub.push(ChildData { offset: ib_start - child_start - 256, size: content_len });

        // Patch the nested container's content size and child table.
        let ghost s_aligned = self.output@;
        let end = self.get_offset();
        self.write_at(child_start + 16, (end - child_start - 256) as u32);
        proof {
            assert(grows_from(self.output@, s_aligned, child_start as int));
            assert(grows_from(self.output@, old(self).output@, child_start as int));
            carry_atlas_facts(
                s_aligned,
                self.output@,
                child_start as int,
                tstart,
                table@,
                ib_start as int,
                count as int,
                files@,
                textures@,
                rels@,
            );
            crate::words::lemma_word_at_same(s_aligned, self.output@, ib_start as int + 8);
        }
        let ghost s_content = self.output@;
        match self.update_child_table(child_start + 256 + 20, &sub) {
            Ok(()) => {},
            Err(e) => return Err(e),
        }
        proof {
            assert(grows_from(self.output@, old(self).output@, child_start as int));
            carry_atlas_facts(
                s_content,
                self.output@,
                child_start as int,
                tstart,
                table@,
                ib_start as int,
                count as int,
                files@,
                textures@,
                rels@,
            );
            crate::words::lemma_word_at_same(s_content, self.output@, child_start as int + 16);
            crate::words::lemma_word_at_same(s_content, self.output@, ib_start as int + 8);
            assert(sub@.len() == 2 && sub@[0].offset == tstart - child_start - 256
                && sub@[0].size == table@.len() && sub@[1].offset == ib_start - child_start - 256
                && sub@[1].size == content_len);
            assert(word_at(self.output@, child_start as int + 276) == tstart - child_start
                - 256);
            assert(word_at(self.output@, child_start as int + 284) == table@.len());
            assert(word_at(self.output@, child_start as int + 280) == ib_start - child_start
                - 256);
            assert(word_at(self.output@, child_start as int + 288) == content_len as u32);
            assert(word_at(self.output@, ib_start as int + 8) == content_len as u32);
            assert(self.output@.subrange(tstart, tstart + table@.len() as int) =~= table@);
        }
        Ok(())
    }

    /// Packs a packed-pair container's payload: a nested plain container
    /// whose two children are the listed files, stored verbatim.
    #[verifier::loop_isolation(false)]
    #[verifier::rlimit(100)]
    fn pack_format_8(
        &mut self,
        start: u64,
        container: &Container,
        files: &Vec<StoredFile>,
    ) -> (r: Result<(), CatError>)
        requires
            old(self).wf(),
            container.size >= 32,
            container.alignment > 0,
            container.format == 8,
            start + container.size + 20 + 8 * container.children@.len()
                <= old(self).output@.len(),
        ensures
            final(self).wf(),
            grows_from(
                final(self).output@,
                old(self).output@,
                start + container.size + 20,
            ),
            r matches Err(e) ==> e is ManifestError,
            r == Err::<(), CatError>(CatError::ManifestError(ManifestFault::MissingFile))
                ==> !entry_files_present(ArchiveEntry::Container(*container), files@),
            r != Err::<(), CatError>(CatError::ManifestError(ManifestFault::BadName)),
            (tree_shape_ok(*container) && entry_files_present(
                ArchiveEntry::Container(*container),
                files@,
            )) ==> (r is Ok || r == Err::<(), CatError>(
                CatError::ManifestError(ManifestFault::TooLarge),
            )),
            r == Err::<(), CatError>(CatError::ManifestError(ManifestFault::TooLarge))
                ==> final(self).output@.len() > old(self).output@.len() || old(
                self,
            ).output@.len() + 548 > MAX_OUTPUT_LEN,
            r is Ok ==> ({
                let out = final(self).output@;
                let begin = old(self).output@.len() as int;
                let names = container.children@[0]->Files_0@;
                &&& out.len() >= begin + 292
                &&& header_layout(out, begin, 1, 0, 256, 256, 2)
                &&& word_at(out, begin + 16) == out.len() - begin - 256
                &&& (forall|i: int|
                    0 <= i < 2 ==> payload_recorded(
                        out,
                        files@,
                        names[i],
                        begin + 256,
                        #[trigger] word_at(out, begin + 276 + 4 * i) as int,
                        word_at(out, begin + 284 + 4 * i) as int,
                    ))
                &&& word_at(out, start + container.size + 20) == begin - start - container.size
                &&& word_at(out, start + container.size + 24) == out.len() - begin
            }),
    {
        let size = container.size;
        if container.children.len() != 1 {
            return Err(CatError::ManifestError(ManifestFault::WrongChildCount));
        }
        let list = match &container.children[0] {
            ArchiveEntry::Files(list) => list,
            _ => {
                return Err(CatError::ManifestError(ManifestFault::UnsupportedEntry));
            },
        };
        proof {
            assert(container.children@[0]->Files_0 == *list);
        }
        if list.len() != 2 {
            return Err(CatError::ManifestError(ManifestFault::WrongChildCount));
        }
        let ghost table_need = start + size + 20 + 8;

        let child_start = self.get_offset();
        match self.write_header(1, 0, 256, 256, 2) {
            Ok(()) => {},
            Err(e) => return Err(e),
        }
        proof {
            assert(header_layout(self.output@, child_start as int, 1, 0, 256, 256, 2));
        }
        let mut sub: Vec<ChildData> = Vec::new();
        let mut k: usize = 0;
        while k < 2
            invariant
                0 <= k <= 2,
                list@.len() == 2,
                self.wf(),
                grows_from(self.output@, old(self).output@, start + container.size + 20),
                self.output@.len() >= table_need,
                self.output@.len() >= child_start + 256 + 20 + 16,
                child_start >= start,
                child_start == old(self).output@.len(),
                header_layout(self.output@, child_start as int, 1, 0, 256, 256, 2),
                sub@.len() == k as int,
                forall|i: int|
                    0 <= i < sub@.len() ==> (#[trigger] sub@[i]).offset <= u32::MAX && (
                    #[trigger] sub@[i]).size <= u32::MAX,
                forall|i: int|
                    0 <= i < sub@.len() ==> (#[trigger] sub@[i]).offset >= 36,
                forall|i: int|
                    0 <= i < sub@.len() ==> payload_recorded(
                        self.output@,
                        files@,
                        list@[i],
                        child_start as int + 256,
                        (#[trigger] sub@[i]).offset as int,
                        sub@[i].size as int,
                    ),
            decreases 2 - k,
        {
            let ghost pre_iter = self.output@;
            let ghost pre_sub = sub@;
            let idx = match find_file(files, &list[k]) {
                Some(i) => i,
                None => {
                    proof {
                        assert(!raw_present(files@, list@[k as int]@)) by {
                            if raw_present(files@, list@[k as int]@) {
                                let j = choose|j: int|
                                    0 <= j < files@.len() && (#[trigger] files@[j]).name@
                                        == list@[k as int]@;
                                assert(files@[j].name@ != list@[k as int]@);
                            }
                        }
                        assert(!entry_files_present(
                            ArchiveEntry::Container(*container),
                            files@,
                        )) by {
                            if entry_files_present(ArchiveEntry::Container(*container), files@) {
                                lemma_files_present_child(*container, files@, 0);
                                lemma_files_present_name(
                                    container.children@[0],
                                    files@,
                                    k as int,
                                );
                            }
                        }
                    }
                    return Err(CatError::ManifestError(ManifestFault::MissingFile));
                },
            };
            let payload = match &files[idx].data {
                FileData::Raw(bytes) => bytes,
                FileData::Image(_) => {
                    proof {
                        assert(!entry_files_present(
                            ArchiveEntry::Container(*container),
                            files@,
                        )) by {
                            if entry_files_present(ArchiveEntry::Container(*container), files@) {
                                lemma_files_present_child(*container, files@, 0);
                                lemma_files_present_name(
                                    container.children@[0],
                                    files@,
                                    k as int,
                                );
                                assert(files@[idx as int].data is Raw);
                            }
                        }
                    }
                    return Err(CatError::ManifestError(ManifestFault::UnsupportedEntry));
                },
            };
            let file_start = self.get_offset();
            let ghost before_payload = self.output@;
            match self.write_bytes(payload) {
                Ok(()) => {},
                Err(e) => return Err(e),
            }
            proof {
                assert(self.output@.subrange(
                    file_start as int,
                    file_start as int + payload@.len() as int,
                ) =~= payload@);
            }
            sub.push(
                ChildData {
                    offset: file_start - child_start - 256,
                    size: payload.len() as u64,
                },
            );
            match self.align(container.alignment) {
                Ok(()) => {},
                Err(e) => return Err(e),
            }
            proof {
                lemma_layout_kept(pre_iter, self.output@, child_start as int);
                assert(files@[idx as int].data->Raw_0 == *payload);
                assert forall|i: int| 0 <= i < sub@.len() implies payload_recorded(
                    self.output@,
                    files@,
                    list@[i],
                    child_start as int + 256,
                    (#[trigger] sub@[i]).offset as int,
                    sub@[i].size as int,
                ) by {
                    let o = child_start as int + 256 + sub@[i].offset as int;
                    if i < sub@.len() - 1 {
                        assert(sub@[i] == pre_sub[i]);
                        assert(payload_recorded(
                            pre_iter,
                            files@,
                            list@[i],
                            child_start as int + 256,
                            pre_sub[i].offset as int,
                            pre_sub[i].size as int,
                        ));
                        let f = choose|f: int|
                            0 <= f < files@.len() && (#[trigger] files@[f]).name@ == list@[i]@
                                && files@[f].data is Raw && ({
                                let b = files@[f].data->Raw_0;
                                &&& pre_sub[i].size as int == b@.len()
                                &&& o + b@.len() <= pre_iter.len()
                                &&& pre_iter.subrange(o, o + b@.len() as int) == b@
                            });
                        let b = files@[f].data->Raw_0;
                        assert(self.output@.subrange(o, o + b@.len() as int) =~= pre_iter.subrange(
                            o,
                            o + b@.len() as int,
                        ));
                    } else {
                        assert(sub@[i].offset == file_start - child_start - 256);
                        let b = files@[idx as int].data->Raw_0;
                        assert(self.output@.subrange(o, o + b@.len() as int) =~= payload@);
                    }
                }
            }
            k = k + 1;
        }

        let end = self.get_offset();
        let ghost before_patch = self.output@;
        self.write_at(child_start + 16, (end - child_start - 256) as u32);
        proof {
            lemma_layout_kept(before_patch, self.output@, child_start as int);
        }
        let ghost before_sub = self.output@;
        match self.update_child_table(child_start + 256 + 20, &sub) {
            Ok(()) => {},
            Err(e) => return Err(e),
        }
        proof {
            lemma_layout_kept(before_sub, self.output@, child_start as int);
            crate::words::lemma_word_at_same(before_sub, self.output@, child_start as int + 16);
        }
        let outer_off = child_start - start - size as u64;
        let outer_size = end - child_start;
        let mut outer: Vec<ChildData> = Vec::new();
        outer.push(ChildData { offset: outer_off, size: outer_size });
        let ghost before_outer = self.output@;
        match self.update_child_table(start + size as u64 + 20, &outer) {
            Ok(()) => {},
            Err(e) => return Err(e),
        }
        proof {
            lemma_layout_kept(before_outer, self.output@, child_start as int);
            crate::words::lemma_word_at_same(
                before_outer,
                self.output@,
                child_start as int + 16,
            );
            let w = spec_table_entries(*container);
            assert forall|i: int| 0 <= i < 2 implies {
                &&& #[trigger] word_at(self.output@, child_start as int + 276 + 4 * i)
                    == word_at(before_outer, child_start as int + 276 + 4 * i)
                &&& word_at(self.output@, child_start as int + 284 + 4 * i) == word_at(
                    before_outer,
                    child_start as int + 284 + 4 * i,
                )
            } by {
                crate::words::lemma_word_at_same(
                    before_outer,
                    self.output@,
                    child_start as int + 276 + 4 * i,
                );
                crate::words::lemma_word_at_same(
                    before_outer,
                    self.output@,
                    child_start as int + 284 + 4 * i,
                );
            }
            // Tie the patched table words to the recorded payloads.
            let names = container.children@[0]->Files_0@;
            assert forall|i: int| 0 <= i < 2 implies payload_recorded(
                self.output@,
                files@,
                names[i],
                child_start as int + 256,
                word_at(self.output@, child_start as int + 276 + 4 * i) as int,
                word_at(self.output@, child_start as int + 284 + 4 * i) as int,
            ) by {
                assert(word_at(self.output@, child_start as int + 276 + 4 * i) == sub@[i].offset
                    as u32);
                assert(word_at(self.output@, child_start as int + 284 + 4 * i) == sub@[i].size
                    as u32);
                assert(names[i] == list@[i]);
                let o = child_start as int + 256 + sub@[i].offset as int;
                assert(payload_recorded(
                    before_patch,
                    files@,
                    list@[i],
                    child_start as int + 256,
                    sub@[i].offset as int,
                    sub@[i].size as int,
                ));
                let f = choose|f: int|
                    0 <= f < files@.len() && (#[trigger] files@[f]).name@ == list@[i]@
                        && files@[f].data is Raw && ({
                        let b = files@[f].data->Raw_0;
                        &&& sub@[i].size as int == b@.len()
                        &&& o + b@.len() <= before_patch.len()
                        &&& before_patch.subrange(o, o + b@.len() as int) == b@
                    });
                let b = files@[f].data->Raw_0;
                assert forall|j: int| o <= j < o + b@.len() implies #[trigger] self.output@[j]
                    == before_patch[j] by {
                    assert(self.output@[j] == before_outer[j]);
                    assert(before_outer[j] == before_sub[j]);
                    assert(before_sub[j] == before_patch[j]);
                }
                assert(self.output@.subrange(o, o + b@.len() as int) =~= before_patch.subrange(
                    o,
                    o + b@.len() as int,
                ));
            }
            assert(self.output@.len() >= child_start + 292);
            assert(header_layout(self.output@, child_start as int, 1, 0, 256, 256, 2));
            assert(word_at(self.output@, child_start as int + 16) == self.output@.len()
                - child_start - 256);
            assert(outer@.len() == 1 && outer@[0].offset == child_start - start - size as u64
                && outer@[0].size == end - child_start);
            assert(word_at(self.output@, start + size as int + 20) == child_start - start
                - size);
            assert(word_at(self.output@, start + size as int + 24) == self.output@.len()
                - child_start);
        }
        Ok(())
    }
}

/// A name the table can store and give back: non-empty, holding no line
/// break, not led by a blank, and not ended by a comma. Cleaning strips
/// leading blanks and trailing commas and splits at line breaks, so names
/// outside this set do not survive a round trip.
pub open spec fn storable_name(n: Seq<u8>) -> bool {
    &&& n.len() > 0
    &&& forall|j: int| 0 <= j < n.len() ==> #[trigger] n[j] != 0x0A
    &&& !is_blank(n[0])
    &&& n.last() != 0x2C
}

/// Cleaning a stored name with its trailing comma and carriage return gives
/// the name back.
proof fn lemma_clean_stored_name(n: Seq<u8>)
    requires
        storable_name(n),
    ensures
        clean_segment(n + seq![0x2Cu8, 0x0Du8]) == n,
{
    let t = n + seq![0x2Cu8, 0x0Du8];
    assert(t[0] == n[0]);
    assert(trim_start_bytes(t) == t);
    assert(t.last() == 0x0D && is_blank(t.last()));
    assert(t.drop_last() =~= n + seq![0x2Cu8]);
    let t1 = n + seq![0x2Cu8];
    assert(t1.last() == 0x2C && !is_blank(t1.last()));
    assert(trim_end_bytes(t) == trim_end_bytes(t1));
    assert(trim_end_bytes(t1) == t1);
    assert(t1.drop_last() =~= n);
    assert(trim_commas(t1) == trim_commas(n));
    assert(n.last() != 0x2C);
    assert(trim_commas(n) == n);
}

/// The first line feed seen from `b + i` in `s` sits where the first line
/// feed seen from `i` sits in the tail of `s` that starts at `b`.
proof fn lemma_find_nl_sub(s: Seq<u8>, b: int, i: int)
    requires
        0 <= b,
        0 <= i,
        b + i <= s.len(),
    ensures
        find_nl(s, b + i) == b + find_nl(s.subrange(b, s.len() as int), i),
    decreases s.len() - b - i,
{
    let t = s.subrange(b, s.len() as int);
    if b + i >= s.len() {
    } else if s[b + i] == 0x0A {
        assert(t[i] == 0x0A);
    } else {
        assert(t[i] != 0x0A);
        lemma_find_nl_sub(s, b, i + 1);
    }
}

/// The names listed from `b + i` in `s` are the names listed from `i` in the
/// tail of `s` that starts at `b`.
proof fn lemma_names_of_sub(s: Seq<u8>, b: int, i: int)
    requires
        0 <= b,
        0 <= i,
        b + i <= s.len(),
    ensures
        names_of(s, b + i) =~~= names_of(s.subrange(b, s.len() as int), i),
    decreases s.len() - b - i,
{
    let t = s.subrange(b, s.len() as int);
    lemma_find_nl_sub(s, b, i);
    lemma_find_nl_bounds(s, b + i);
    let k = find_nl(s, b + i);
    let kt = find_nl(t, i);
    assert(k == b + kt);
    assert(s.subrange(b + i, k) =~= t.subrange(i, kt));
    if k < s.len() {
        lemma_names_of_sub(s, b, kt + 1);
        assert(names_of(s, b + i) =~~= names_of(t, i));
    }
}

/// Unpacking a packed name table yields exactly the names that were packed:
/// for any list of storable names, splitting and cleaning the joined table
/// gives the list back.
pub proof fn lemma_name_table_round_trip(names: Seq<Seq<u8>>)
    requires
        forall|i: int| 0 <= i < names.len() ==> storable_name(#[trigger] names[i]),
    ensures
        names_of(joined_names(names), 0) == names,
    decreases names.len(),
{
    let s = joined_names(names);
    if names.len() == 0 {
        assert(s =~= Seq::<u8>::empty());
        assert(find_nl(s, 0) == 0);
        assert(s.subrange(0, 0) =~= Seq::<u8>::empty());
        assert(trim_start_bytes(Seq::<u8>::empty()) =~= Seq::<u8>::empty());
        assert(trim_end_bytes(Seq::<u8>::empty()) =~= Seq::<u8>::empty());
        assert(trim_commas(Seq::<u8>::empty()) =~= Seq::<u8>::empty());
        assert(clean_segment(s.subrange(0, 0)).len() == 0);
        assert(names_of(s, 0) =~~= names);
    } else {
        let n0 = names[0];
        let sep = seq![0x2Cu8, 0x0Du8, 0x0Au8];
        let rest = joined_names(names.drop_first());
        assert(s == n0 + sep + rest);
        let k = n0.len() as int + 2;
        assert(s.len() == n0.len() + 3 + rest.len());
        assert forall|j: int| 0 <= j < k implies s[j] != 0x0A by {
            if j < n0.len() {
                assert(s[j] == n0[j]);
            } else if j == n0.len() {
                assert(s[j] == 0x2C);
            } else {
                assert(s[j] == 0x0D);
            }
        }
        assert(s[k] == 0x0A);
        lemma_find_nl_first(s, 0, k);
        assert(find_nl(s, 0) == k);
        assert(s.subrange(0, k) =~= n0 + seq![0x2Cu8, 0x0Du8]);
        lemma_clean_stored_name(n0);
        assert(clean_segment(s.subrange(0, k)) == n0);
        assert(n0.len() > 0);
        assert(k < s.len());
        lemma_names_of_sub(s, k + 1, 0);
        assert(s.subrange(k + 1, s.len() as int) =~= rest);
        lemma_name_table_round_trip(names.drop_first());
        assert(names_of(s, k + 1) =~~= names.drop_first());
        assert(names_of(s, 0) =~~= seq![n0] + names.drop_first());
        assert(seq![n0] + names.drop_first() =~~= names);
    }
}

/// The first line feed at or after `i` is the first position `k` at or after
/// `i` that carries one.
proof fn lemma_find_nl_first(s: Seq<u8>, i: int, k: int)
    requires
        0 <= i <= k < s.len(),
        forall|j: int| i <= j < k ==> #[trigger] s[j] != 0x0A,
        s[k] == 0x0A,
    ensures
        find_nl(s, i) == k,
    decreases k - i,
{
    if i < k {
        lemma_find_nl_first(s, i + 1, k);
    }
}

/// A packed container's header parses back to the container it was packed
/// from: bytes carrying the words that `pack_container` ensures of its
/// output decode, at the container's start, to a header with exactly the
/// container's version, format, size and alignment, a content size spanning
/// to `end`, and one child-table entry per emitted child.
pub proof fn lemma_packed_container_header_parses(
    out: Seq<u8>,
    begin: int,
    c: Container,
    end: int,
)
    requires
        0 <= begin,
        c.version < 3,
        c.size >= 32,
        c.alignment > 0,
        0 <= spec_table_entries(c) <= 0xFFFF,
        begin + c.size + 20 + 8 * spec_table_entries(c) <= out.len(),
        word_at(out, begin) == 1,
        word_at(out, begin + 4) == c.version,
        word_at(out, begin + 8) == 0,
        word_at(out, begin + 12) == c.size,
        word_at(out, begin + 16) == end - begin - c.size,
        word_at(out, begin + c.size) == 0,
        word_at(out, begin + c.size + 4) == spec_table_entries(c),
        word_at(out, begin + c.size + 8) == c.format,
        word_at(out, begin + c.size + 12) == c.alignment,
        word_at(out, begin + c.size + 16) == 0,
    ensures
        spec_read_header(out, begin) matches Ok(sh) && {
            &&& sh.version == c.version
            &&& sh.format == c.format
            &&& sh.size == c.size
            &&& sh.alignment == c.alignment
            &&& sh.content_size == end - begin - c.size
            &&& sh.child_off.len() == spec_table_entries(c)
        },
{
    crate::header::lemma_emitted_header_parses(out, begin);
}

} // verus!
