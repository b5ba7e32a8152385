use catpack::fault::{CatError, HeaderFault, PayloadKind};
use catpack::manifest::ArchiveEntry;
use catpack::reader::CatFileReader;

fn unwrap_err(r: Result<ArchiveEntry, CatError>, what: &str) -> CatError {
    match r {
        Err(e) => e,
        Ok(_) => panic!("{}", what),
    }
}

fn w32(v: &mut Vec<u8>, x: u32) {
    v.extend_from_slice(&x.to_le_bytes());
}

fn pad_to(v: &mut Vec<u8>, n: usize) {
    while v.len() < n {
        v.push(0);
    }
}

/// Part one of a container header, padded to `size` bytes.
fn part_one(v: &mut Vec<u8>, version: u32, raw_size: u32, content: u32, actual_size: usize) {
    let start = v.len();
    w32(v, 1);
    w32(v, version);
    w32(v, 0);
    w32(v, raw_size);
    w32(v, content);
    pad_to(v, start + actual_size);
}

/// Part two of a container header with the given child table.
fn part_two(v: &mut Vec<u8>, count: u32, format: u32, alignment: u32, table: &[(u32, u32)]) {
    w32(v, 0);
    w32(v, count);
    w32(v, format);
    w32(v, alignment);
    w32(v, 0);
    for (off, _) in table {
        w32(v, *off);
    }
    for (_, size) in table {
        w32(v, *size);
    }
}

#[test]
fn header_with_zero_size_is_accepted_as_256() {
    // A container whose header-size word is zero but whose actual header is
    // 256 bytes decodes with size 256.
    let mut v = Vec::new();
    part_one(&mut v, 1, 0, 520, 256);
    part_two(&mut v, 1, 0, 256, &[(256, 8)]);
    pad_to(&mut v, 512);
    w32(&mut v, 0x12345678);
    w32(&mut v, 0);
    pad_to(&mut v, 776);
    let mut reader = CatFileReader::new(v);
    let entry = reader.unpack().expect("zero header size must be remapped");
    match entry {
        ArchiveEntry::Container(c) => {
            assert_eq!(c.size, 256);
            assert_eq!(c.version, 1);
        },
        _ => panic!("expected a container"),
    }
}

#[test]
fn oversize_child_table_is_read_past_header_end() {
    // The header declares 20 children but is only 64 bytes: the table runs
    // past the declared header end and is still consumed.
    let mut v = Vec::new();
    part_one(&mut v, 1, 64, 1000, 64);
    let table: Vec<(u32, u32)> = (0..20).map(|_| (0u32, 0u32)).collect();
    part_two(&mut v, 20, 5, 16, &table);
    pad_to(&mut v, 1064);
    let mut reader = CatFileReader::new(v);
    let entry = reader.unpack().expect("an oversize child table must be accepted");
    match entry {
        ArchiveEntry::Container(c) => {
            assert_eq!(c.format, 5);
            assert_eq!(c.size, 64);
        },
        _ => panic!("expected a container"),
    }
}

#[test]
fn format_six_is_an_unrecognised_variant() {
    let mut v = Vec::new();
    part_one(&mut v, 1, 256, 256, 256);
    part_two(&mut v, 2, 6, 256, &[(256, 4), (260, 4)]);
    pad_to(&mut v, 612);
    let mut reader = CatFileReader::new(v);
    let err = unwrap_err(reader.unpack(), "format 6 must be refused");
    assert_eq!(err, CatError::UnrecognisedVariant(6));
}

#[test]
fn first_word_above_ff_is_no_file_block() {
    // Input that does not start with the container sentinel is read as a bare
    // file-block; a first word above 0xFF is rejected.
    let mut v = Vec::new();
    w32(&mut v, 0x12345678);
    w32(&mut v, 0);
    w32(&mut v, 0);
    let mut reader = CatFileReader::new(v);
    let err = unwrap_err(reader.unpack(), "a large first word is no block header");
    assert_eq!(err, CatError::FileBlockWithoutHeader(0));
}

#[test]
fn reserved_word_violation_is_malformed() {
    let mut v = Vec::new();
    w32(&mut v, 1);
    w32(&mut v, 1);
    w32(&mut v, 7); // reserved word must be zero
    w32(&mut v, 64);
    w32(&mut v, 0);
    pad_to(&mut v, 128);
    let mut reader = CatFileReader::new(v);
    let err = unwrap_err(reader.unpack(), "a non-zero reserved word is malformed");
    assert_eq!(err, CatError::MalformedHeader(8, HeaderFault::ReservedWord));
}

#[test]
fn version_three_is_malformed() {
    let mut v = Vec::new();
    w32(&mut v, 1);
    w32(&mut v, 3);
    w32(&mut v, 0);
    w32(&mut v, 64);
    w32(&mut v, 0);
    pad_to(&mut v, 128);
    let mut reader = CatFileReader::new(v);
    let err = unwrap_err(reader.unpack(), "version 3 is outside the format");
    assert_eq!(err, CatError::MalformedHeader(4, HeaderFault::BadVersion));
}

#[test]
fn small_header_size_is_malformed() {
    let mut v = Vec::new();
    w32(&mut v, 1);
    w32(&mut v, 1);
    w32(&mut v, 0);
    w32(&mut v, 16); // below the 32-byte floor
    w32(&mut v, 0);
    pad_to(&mut v, 128);
    let mut reader = CatFileReader::new(v);
    let err = unwrap_err(reader.unpack(), "a header below 32 bytes is malformed");
    assert_eq!(err, CatError::MalformedHeader(12, HeaderFault::HeaderSizeTooSmall));
}

#[test]
fn zero_alignment_is_malformed() {
    let mut v = Vec::new();
    part_one(&mut v, 1, 64, 64, 64);
    part_two(&mut v, 0, 0, 0, &[]);
    pad_to(&mut v, 128);
    let mut reader = CatFileReader::new(v);
    let err = unwrap_err(reader.unpack(), "alignment zero is malformed");
    assert_eq!(err, CatError::MalformedHeader(64 + 12, HeaderFault::AlignmentZero));
}

#[test]
fn truncated_header_is_an_input_fault() {
    let mut v = Vec::new();
    w32(&mut v, 1);
    w32(&mut v, 1);
    let mut reader = CatFileReader::new(v);
    let err = unwrap_err(reader.unpack(), "a truncated header cannot be read");
    assert_eq!(err, CatError::Io(8));
}

#[test]
fn gnf_magic_in_texture_block_is_refused() {
    // A texture-block container whose image payload leads with the GNF magic
    // fails with the dedicated error.
    let mut v = Vec::new();
    part_one(&mut v, 1, 256, 0, 256);
    part_two(&mut v, 1, 2, 256, &[(256, 600)]);
    pad_to(&mut v, 512);
    // The nested atlas container: its offsets count from its own byte zero
    // at 768, so its name table sits at 1024 and its image block at 1280.
    part_one(&mut v, 1, 256, 0, 256);
    part_two(&mut v, 2, 0, 256, &[(256, 7), (512, 4)]);
    pad_to(&mut v, 1024);
    v.extend_from_slice(b"tex0,\r\n");
    pad_to(&mut v, 1280);
    v.extend_from_slice(b"GNF ");
    pad_to(&mut v, 2048);
    let mut reader = CatFileReader::new(v);
    let err = unwrap_err(reader.unpack(), "GNF textures are not supported");
    assert_eq!(err, CatError::UnsupportedPayload(PayloadKind::Gnf));
}
