use catpack::manifest::{ArchiveEntry, Container, OutputData};
use catpack::reader::CatFileReader;
use catpack::writer::{CatFileWriter, FileData, StoredFile};

fn w32(v: &mut Vec<u8>, x: u32) {
    v.extend_from_slice(&x.to_le_bytes());
}

fn pad_to(v: &mut Vec<u8>, n: usize) {
    while v.len() < n {
        v.push(0);
    }
}

fn part_one(v: &mut Vec<u8>, version: u32, raw_size: u32, content: u32, actual_size: usize) {
    let start = v.len();
    w32(v, 1);
    w32(v, version);
    w32(v, 0);
    w32(v, raw_size);
    w32(v, content);
    pad_to(v, start + actual_size);
}

fn part_two(v: &mut Vec<u8>, count: u32, format: u32, alignment: u32, table: &[(u32, u32)]) {
    w32(v, 0);
    w32(v, count);
    w32(v, format);
    w32(v, alignment);
    w32(v, 0);
    for (off, _) in table {
        w32(v, *off);
    }
    for (_, size) in table {
        w32(v, *size);
    }
}

/// The 64-byte blob of the minimal plain-format archive.
fn blob64() -> Vec<u8> {
    let mut b = Vec::new();
    w32(&mut b, 0x12345678);
    for i in 0..60u8 {
        b.push(i);
    }
    b
}

/// The minimal plain-format archive: one container with a single opaque
/// 64-byte child.
fn minimal_archive() -> Vec<u8> {
    let mut v = Vec::new();
    part_one(&mut v, 1, 256, 512, 256);
    part_two(&mut v, 1, 0, 256, &[(256, 64)]);
    pad_to(&mut v, 512);
    v.extend_from_slice(&blob64());
    pad_to(&mut v, 768);
    v
}

#[test]
fn minimal_format_zero_unpacks_to_one_file() {
    let mut reader = CatFileReader::new(minimal_archive());
    let entry = reader.unpack().expect("the minimal archive must unpack");
    match &entry {
        ArchiveEntry::Container(c) => {
            assert_eq!(c.version, 1);
            assert_eq!(c.format, 0);
            assert_eq!(c.size, 256);
            assert_eq!(c.alignment, 256);
            assert_eq!(c.children.len(), 1);
            match &c.children[0] {
                ArchiveEntry::File(name) => assert_eq!(name.as_str(), "0x200.bin"),
                _ => panic!("the child must be a single opaque file"),
            }
        },
        _ => panic!("expected a container"),
    }
    assert_eq!(reader.outputs.len(), 1);
    assert_eq!(reader.outputs[0].name.as_str(), "0x200.bin");
    match &reader.outputs[0].contents {
        OutputData::Raw(bytes) => {
            assert_eq!(bytes.len(), 64);
            assert_eq!(&bytes[0..4], &0x12345678u32.to_le_bytes());
            assert_eq!(bytes.as_slice(), blob64().as_slice());
        },
        _ => panic!("the payload must be stored verbatim"),
    }
}

#[test]
fn minimal_format_zero_repacks_byte_for_byte() {
    let input = minimal_archive();
    let mut reader = CatFileReader::new(input.clone());
    let entry = reader.unpack().expect("the minimal archive must unpack");
    let files = vec![StoredFile { name: "0x200.bin".to_string(), data: FileData::Raw(blob64()) }];
    let mut writer = CatFileWriter::new();
    writer.pack(&entry, &files).expect("the manifest must pack");
    assert_eq!(writer.output, input);
}

#[test]
fn name_list_container_unpacks_with_extensions() {
    // A name-list container: the table lists two names, and both payloads
    // lead with the animation magic, so both files gain its extension.
    let mut v = Vec::new();
    part_one(&mut v, 1, 256, 776, 256);
    part_two(&mut v, 3, 1, 256, &[(256, 18), (512, 8), (768, 8)]);
    pad_to(&mut v, 512);
    v.extend_from_slice(b"anim_a,\r\nanim_b,\r\n");
    pad_to(&mut v, 768);
    v.extend_from_slice(b"tmo1");
    w32(&mut v, 7);
    pad_to(&mut v, 1024);
    v.extend_from_slice(b"tmo1");
    w32(&mut v, 9);
    let mut reader = CatFileReader::new(v);
    let entry = reader.unpack().expect("the name list must unpack");
    match &entry {
        ArchiveEntry::Container(c) => {
            assert_eq!(c.format, 1);
            assert_eq!(c.children.len(), 1);
            match &c.children[0] {
                ArchiveEntry::Files(files) => {
                    assert_eq!(files.len(), 2);
                    assert_eq!(files[0].as_str(), "anim_a.tmo1");
                    assert_eq!(files[1].as_str(), "anim_b.tmo1");
                },
                _ => panic!("a name-list container holds one file list"),
            }
        },
        _ => panic!("expected a container"),
    }
    assert_eq!(reader.outputs.len(), 2);
    match &reader.outputs[0].contents {
        OutputData::Raw(bytes) => {
            assert_eq!(bytes.len(), 8);
            assert_eq!(&bytes[0..4], b"tmo1");
        },
        _ => panic!("payloads are stored verbatim"),
    }
}

#[test]
fn packed_pair_container_unpacks_to_two_files() {
    let mut v = Vec::new();
    part_one(&mut v, 1, 256, 788, 256);
    part_two(&mut v, 1, 8, 256, &[(256, 532)]);
    pad_to(&mut v, 512);
    part_one(&mut v, 1, 256, 276, 256);
    part_two(&mut v, 2, 0, 256, &[(256, 4), (272, 4)]);
    pad_to(&mut v, 1024);
    w32(&mut v, 0xAABBCCDD);
    pad_to(&mut v, 1040);
    w32(&mut v, 0x11223344);
    pad_to(&mut v, 1044);
    let mut reader = CatFileReader::new(v);
    let entry = reader.unpack().expect("the packed pair must unpack");
    match &entry {
        ArchiveEntry::Container(c) => {
            assert_eq!(c.format, 8);
            match &c.children[0] {
                ArchiveEntry::Files(files) => {
                    assert_eq!(files.len(), 2);
                    assert_eq!(files[0].as_str(), "0x400.bin");
                    assert_eq!(files[1].as_str(), "0x410.bin");
                },
                _ => panic!("a packed pair holds one file list"),
            }
        },
        _ => panic!("expected a container"),
    }
    assert_eq!(reader.outputs.len(), 2);
}

#[test]
fn name_list_round_trip_is_structural() {
    // Packing a file-list manifest and unpacking the result gives the same
    // names back: the listed names already carry their extensions, so the
    // magic rewrite leaves them alone.
    let mut payload_a = Vec::new();
    payload_a.extend_from_slice(b"tmo1");
    w32(&mut payload_a, 5);
    let mut payload_b = Vec::new();
    w32(&mut payload_b, 0xABCDEF01u32.swap_bytes());
    w32(&mut payload_b, 6);

    let manifest = ArchiveEntry::Container(Container {
        version: 1,
        format: 1,
        size: 256,
        alignment: 256,
        children: vec![ArchiveEntry::Files(vec!["a.tmo1".to_string(), "b.bin".to_string()])],
    });
    let files = vec![
        StoredFile { name: "a.tmo1".to_string(), data: FileData::Raw(payload_a.clone()) },
        StoredFile { name: "b.bin".to_string(), data: FileData::Raw(payload_b.clone()) },
    ];
    let mut writer = CatFileWriter::new();
    writer.pack(&manifest, &files).expect("the file list must pack");
    let packed = writer.output.clone();

    let mut reader = CatFileReader::new(packed.clone());
    let entry = reader.unpack().expect("the packed file list must unpack");
    match &entry {
        ArchiveEntry::Container(c) => {
            assert_eq!(c.version, 1);
            assert_eq!(c.format, 1);
            assert_eq!(c.size, 256);
            assert_eq!(c.alignment, 256);
            match &c.children[0] {
                ArchiveEntry::Files(names) => {
                    assert_eq!(names.len(), 2);
                    assert_eq!(names[0].as_str(), "a.tmo1");
                    assert_eq!(names[1].as_str(), "b.bin");
                },
                _ => panic!("a name-list container holds one file list"),
            }
        },
        _ => panic!("expected a container"),
    }
    match &reader.outputs[0].contents {
        OutputData::Raw(bytes) => assert_eq!(bytes.as_slice(), payload_a.as_slice()),
        _ => panic!("payloads are stored verbatim"),
    }

    // And packing what came out reproduces the bytes.
    let mut writer2 = CatFileWriter::new();
    writer2.pack(&entry, &files).expect("the unpacked manifest must pack again");
    assert_eq!(writer2.output, packed);
}

#[test]
fn repacked_padding_is_zero() {
    // Every alignment padding byte in packed output is exactly zero: the
    // payload ends at 512 + 64 and the rest of the container is padding.
    let input = minimal_archive();
    let mut reader = CatFileReader::new(input);
    let entry = reader.unpack().expect("the minimal archive must unpack");
    let files = vec![StoredFile { name: "0x200.bin".to_string(), data: FileData::Raw(blob64()) }];
    let mut writer = CatFileWriter::new();
    writer.pack(&entry, &files).expect("the manifest must pack");
    for i in 576..768 {
        assert_eq!(writer.output[i], 0);
    }
}

#[test]
fn nested_containers_recurse() {
    // A wide container holding one narrow container, which holds one opaque
    // leaf: the walker recurses exactly where the sentinel word appears.
    let mut v = Vec::new();
    part_one(&mut v, 1, 256, 356, 256);
    part_two(&mut v, 1, 0, 256, &[(256, 100)]);
    pad_to(&mut v, 512);
    // The nested narrow container: byte zero at 576, leaf at 608.
    part_one(&mut v, 2, 64, 36, 64);
    part_two(&mut v, 1, 0, 16, &[(32, 4)]);
    pad_to(&mut v, 608);
    w32(&mut v, 0x0000BEEF);
    pad_to(&mut v, 612);
    let mut reader = CatFileReader::new(v);
    let entry = reader.unpack().expect("nested containers must unpack");
    match &entry {
        ArchiveEntry::Container(outer) => {
            assert_eq!(outer.size, 256);
            assert_eq!(outer.alignment, 256);
            assert_eq!(outer.children.len(), 1);
            match &outer.children[0] {
                ArchiveEntry::Container(inner) => {
                    assert_eq!(inner.version, 2);
                    assert_eq!(inner.size, 64);
                    assert_eq!(inner.alignment, 16);
                    assert_eq!(inner.children.len(), 1);
                    match &inner.children[0] {
                        ArchiveEntry::File(name) => assert_eq!(name.as_str(), "0x260.bin"),
                        _ => panic!("the leaf is a single opaque file"),
                    }
                },
                _ => panic!("the child must be a nested container"),
            }
        },
        _ => panic!("expected a container"),
    }
    assert_eq!(reader.outputs.len(), 1);
}

#[test]
fn unstorable_name_is_refused_by_the_packer() {
    // A name ending in a comma would be clipped by the next unpack: the
    // packer refuses it instead of packing it silently.
    let manifest = ArchiveEntry::Container(Container {
        version: 1,
        format: 1,
        size: 256,
        alignment: 256,
        children: vec![ArchiveEntry::Files(vec!["bad,".to_string()])],
    });
    let files = vec![StoredFile { name: "bad,".to_string(), data: FileData::Raw(vec![1, 2]) }];
    let mut writer = CatFileWriter::new();
    let err = match writer.pack(&manifest, &files) {
        Err(e) => e,
        Ok(()) => panic!("an unstorable name must be refused"),
    };
    assert_eq!(
        err,
        catpack::fault::CatError::ManifestError(catpack::fault::ManifestFault::BadName)
    );
}

#[test]
fn missing_file_is_reported() {
    let manifest = ArchiveEntry::Container(Container {
        version: 1,
        format: 1,
        size: 256,
        alignment: 256,
        children: vec![ArchiveEntry::Files(vec!["a.bin".to_string()])],
    });
    let files: Vec<StoredFile> = Vec::new();
    let mut writer = CatFileWriter::new();
    let err = match writer.pack(&manifest, &files) {
        Err(e) => e,
        Ok(()) => panic!("a missing payload file must be reported"),
    };
    assert_eq!(
        err,
        catpack::fault::CatError::ManifestError(catpack::fault::ManifestFault::MissingFile)
    );
}
