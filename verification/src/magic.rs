use vstd::prelude::*;

verus! {

/// The big-endian magic of an opaque payload blob (`a001`).
pub const A001: u32 = 0x61303031;

/// The big-endian magic of a PlayStation GNF texture (`GNF `), which the
/// codec refuses.
pub const GNF: u32 = 0x474E4620;

/// The big-endian magic of an opaque model blob (`tmd0`).
pub const TMD0: u32 = 0x746D6430;

/// The big-endian magic of an opaque animation blob (`tmo1`).
pub const TMO1: u32 = 0x746D6F31;

/// The big-endian magic of an opaque DDS payload (`DDv `).
pub const DDV: u32 = 0x44447620;

/// The big-endian spelling of the little-endian container sentinel word 1.
pub const CONTAINER_MAGIC_BE: u32 = 0x01000000;

/// How the magic table classifies the first word of a payload, read
/// big-endian.
#[derive(Clone, Copy, Debug, PartialEq, Eq, Structural)]
pub enum MagicKind {
    /// A nested container: rewind and recurse.
    Container,
    /// A model blob, stored under `.tmd0`.
    Tmd0,
    /// An animation blob, stored under `.tmo1`.
    Tmo1,
    /// An opaque payload, stored under `.a001`.
    A001,
    /// A DDS payload, stored verbatim under `.dds`.
    Ddv,
    /// A GNF texture: refused.
    Gnf,
    /// Anything else, stored verbatim under `.bin`.
    Unknown,
}

/// The classification of the big-endian word `m` by the magic table.
pub open spec fn spec_magic_kind(m: u32) -> MagicKind {
    if m == CONTAINER_MAGIC_BE {
        MagicKind::Container
    } else if m == TMD0 {
        MagicKind::Tmd0
    } else if m == TMO1 {
        MagicKind::Tmo1
    } else if m == A001 {
        MagicKind::A001
    } else if m == DDV {
        MagicKind::Ddv
    } else if m == GNF {
        MagicKind::Gnf
    } else {
        MagicKind::Unknown
    }
}

/// Classifies a payload by the big-endian word at its start.
pub fn magic_kind(m: u32) -> (r: MagicKind)
    ensures
        r == spec_magic_kind(m),
{
    if m == CONTAINER_MAGIC_BE {
        MagicKind::Container
    } else if m == TMD0 {
        MagicKind::Tmd0
    } else if m == TMO1 {
        MagicKind::Tmo1
    } else if m == A001 {
        MagicKind::A001
    } else if m == DDV {
        MagicKind::Ddv
    } else if m == GNF {
        MagicKind::Gnf
    } else {
        MagicKind::Unknown
    }
}

/// The file extension the magic table assigns to an opaque payload of the
/// given kind, with its leading dot, as ASCII bytes. A nested container and a
/// refused GNF texture are never stored, so they get the fallback too.
pub open spec fn spec_extension_bytes(k: MagicKind) -> Seq<u8> {
    match k {
        MagicKind::Tmd0 => seq![0x2Eu8, 0x74u8, 0x6Du8, 0x64u8, 0x30u8],
        MagicKind::Tmo1 => seq![0x2Eu8, 0x74u8, 0x6Du8, 0x6Fu8, 0x31u8],
        MagicKind::A001 => seq![0x2Eu8, 0x61u8, 0x30u8, 0x30u8, 0x31u8],
        MagicKind::Ddv => seq![0x2Eu8, 0x64u8, 0x64u8, 0x73u8],
        _ => seq![0x2Eu8, 0x62u8, 0x69u8, 0x6Eu8],
    }
}

/// Appends the extension of the given kind, dot included.
pub fn push_extension(k: MagicKind, out: &mut Vec<u8>)
    ensures
        final(out)@ == old(out)@ + spec_extension_bytes(k),
{
    out.push(0x2E);
    match k {
        MagicKind::Tmd0 => {
            out.push(0x74);
            out.push(0x6D);
            out.push(0x64);
            out.push(0x30);
        },
        MagicKind::Tmo1 => {
            out.push(0x74);
            out.push(0x6D);
            out.push(0x6F);
            out.push(0x31);
        },
        MagicKind::A001 => {
            out.push(0x61);
            out.push(0x30);
            out.push(0x30);
            out.push(0x31);
        },
        MagicKind::Ddv => {
            out.push(0x64);
            out.push(0x64);
            out.push(0x73);
        },
        _ => {
            out.push(0x62);
            out.push(0x69);
            out.push(0x6E);
        },
    }
    proof {
        assert(final(out)@ =~= old(out)@ + spec_extension_bytes(k));
    }
}

/// Every extension byte is plain ASCII.
pub proof fn lemma_extension_ascii(k: MagicKind)
    ensures
        forall|i: int|
            0 <= i < spec_extension_bytes(k).len() ==> #[trigger] spec_extension_bytes(k)[i]
                < 0x80,
{
    let e = spec_extension_bytes(k);
    assert forall|i: int| 0 <= i < e.len() implies #[trigger] e[i] < 0x80 by {
        match k {
            MagicKind::Tmd0 => {
                assert(e =~= seq![0x2Eu8, 0x74u8, 0x6Du8, 0x64u8, 0x30u8]);
            },
            MagicKind::Tmo1 => {
                assert(e =~= seq![0x2Eu8, 0x74u8, 0x6Du8, 0x6Fu8, 0x31u8]);
            },
            MagicKind::A001 => {
                assert(e =~= seq![0x2Eu8, 0x61u8, 0x30u8, 0x30u8, 0x31u8]);
            },
            MagicKind::Ddv => {
                assert(e =~= seq![0x2Eu8, 0x64u8, 0x64u8, 0x73u8]);
            },
            _ => {
                assert(e =~= seq![0x2Eu8, 0x62u8, 0x69u8, 0x6Eu8]);
            },
        }
    }
}

} // verus!
