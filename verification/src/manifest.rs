use vstd::prelude::*;
use crate::texture::ImageData;
use crate::texture::Texture;

verus! {

/// Absolute position and byte length of one child of a container or
/// file-block.
#[derive(Clone, Copy, Debug, PartialEq, Eq, Structural)]
pub struct ChildData {
    pub offset: u64,
    pub size: u64,
}

/// A decoded container header: the fields of both fixed-layout parts and the
/// absolute child table.
#[derive(Clone, Debug)]
pub struct ContainerHeader {
    pub version: u32,
    pub format: u32,
    pub size: u32,
    pub content_size: u32,
    pub alignment: u32,
    pub children: Vec<ChildData>,
}

/// A container node of the manifest tree.
pub struct Container {
    pub version: u32,
    pub format: u32,
    pub size: u32,
    pub alignment: u32,
    pub children: Vec<ArchiveEntry>,
}

/// One node of the manifest tree.
pub enum ArchiveEntry {
    /// A nested container with its own children.
    Container(Container),
    /// A decoded texture block.
    Textures(Vec<Texture>),
    /// A single opaque payload stored under the named file.
    File(String),
    /// A named list of raw payloads.
    Files(Vec<String>),
}

/// The bytes of one file that unpacking asks to be written out.
#[derive(Clone, Debug)]
pub enum OutputData {
    /// Raw payload bytes, stored verbatim.
    Raw(Vec<u8>),
    /// A decoded texture surface, to be stored as a lossless image file.
    Png(ImageData),
}

/// One file that unpacking asks to be written out, named relative to the
/// extraction root.
#[derive(Clone, Debug)]
pub struct OutputFile {
    pub name: String,
    pub contents: OutputData,
}

/// `new` carries everything `old` did, in place, with more possibly appended.
pub open spec fn extends(new: Seq<OutputFile>, old: Seq<OutputFile>) -> bool {
    &&& new.len() >= old.len()
    &&& forall|i: int| 0 <= i < old.len() ==> new[i] == #[trigger] old[i]
}

pub proof fn lemma_extends_refl(s: Seq<OutputFile>)
    ensures
        extends(s, s),
{
}

pub proof fn lemma_extends_push(s: Seq<OutputFile>, f: OutputFile)
    ensures
        extends(s.push(f), s),
{
}

pub proof fn lemma_extends_trans(c: Seq<OutputFile>, b: Seq<OutputFile>, a: Seq<OutputFile>)
    requires
        extends(c, b),
        extends(b, a),
    ensures
        extends(c, a),
{
}

} // verus!
