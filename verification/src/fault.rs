use vstd::prelude::*;

verus! {

/// The precise reason a container header or file-block header was rejected.
#[derive(Clone, Copy, Debug, PartialEq, Eq, Structural)]
pub enum HeaderFault {
    /// The first word of the container was not the sentinel 1.
    BadMagic,
    /// A word that must be zero held another value.
    ReservedWord,
    /// The version word was 3 or more.
    BadVersion,
    /// The header-size word was below 32 after the zero remap.
    HeaderSizeTooSmall,
    /// The alignment word was zero.
    AlignmentZero,
    /// A file-block's first word did not equal `(count + 3) * 4`.
    BadBlockLength,
    /// A file-block's relative offsets were not non-decreasing, or its last
    /// payload would end before it starts.
    DescendingOffsets,
    /// A nested container did not have the format its position demands.
    WrongFormat,
    /// A nested container did not have the child count its position demands.
    WrongChildCount,
    /// A name table was not valid UTF-8 or listed fewer names than there
    /// are payloads.
    BadStringTable,
}

/// A payload kind the codec refuses to decode.
#[derive(Clone, Copy, Debug, PartialEq, Eq, Structural)]
pub enum PayloadKind {
    /// A texture block carrying the PlayStation GNF magic.
    Gnf,
    /// A DDS payload whose header names no format the manifest can record.
    UnknownTexture,
}

/// The precise reason a manifest could not be packed.
#[derive(Clone, Copy, Debug, PartialEq, Eq, Structural)]
pub enum ManifestFault {
    /// An entry variant that the packer does not accept at this position.
    UnsupportedEntry,
    /// A container held a different number of children than its format allows.
    WrongChildCount,
    /// A header field (version, size or alignment) was outside the accepted
    /// range.
    BadHeaderField,
    /// The output would grow past the largest archive the format can address.
    TooLarge,
    /// A named payload was not found among the supplied files.
    MissingFile,
    /// A name cannot be stored in a name table (empty, or holding a comma,
    /// line break or surrounding blank).
    BadName,
    /// A texture could not be re-encoded with its recorded descriptor.
    UnsupportedTexture,
}

/// Every way unpacking or packing an archive can fail.
///
/// Positions are absolute byte offsets into the archive, measured from its
/// first byte; each names the first byte of the offending field, or of the
/// read that ran past the end of the input.
#[derive(Clone, Copy, Debug, PartialEq, Eq, Structural)]
pub enum CatError {
    /// A container or file-block header violated the layout rules.
    MalformedHeader(u64, HeaderFault),
    /// A container carried a format number with no decoder.
    UnrecognisedVariant(u32),
    /// A payload of a kind the codec refuses.
    UnsupportedPayload(PayloadKind),
    /// The first word at a file-block position exceeds 0xFF.
    FileBlockWithoutHeader(u64),
    /// The manifest handed to the packer does not fit the format.
    ManifestError(ManifestFault),
    /// A read ran past the end of the input bytes.
    Io(u64),
}

} // verus!
