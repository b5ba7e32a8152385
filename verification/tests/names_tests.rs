use catpack::fault::{CatError, HeaderFault};
use catpack::manifest::{ArchiveEntry, OutputData};
use catpack::reader::CatFileReader;

fn w32(v: &mut Vec<u8>, x: u32) {
    v.extend_from_slice(&x.to_le_bytes());
}

fn pad_to(v: &mut Vec<u8>, n: usize) {
    while v.len() < n {
        v.push(0);
    }
}

fn part_one(v: &mut Vec<u8>, version: u32, raw_size: u32, content: u32, actual_size: usize) {
    let start = v.len();
    w32(v, 1);
    w32(v, version);
    w32(v, 0);
    w32(v, raw_size);
    w32(v, content);
    pad_to(v, start + actual_size);
}

fn part_two(v: &mut Vec<u8>, count: u32, format: u32, alignment: u32, table: &[(u32, u32)]) {
    w32(v, 0);
    w32(v, count);
    w32(v, format);
    w32(v, alignment);
    w32(v, 0);
    for (off, _) in table {
        w32(v, *off);
    }
    for (_, size) in table {
        w32(v, *size);
    }
}

#[test]
fn name_table_trims_blanks_and_commas_and_drops_empties() {
    let table = b"  alpha ,\r\n,\r\nbeta,,,\r\ngamma";
    let mut reader = CatFileReader::new(table.to_vec());
    let names = reader
        .read_strings(0, table.len() as u64)
        .expect("a plain name table must decode");
    assert_eq!(names.len(), 3);
    assert_eq!(names[0].as_str(), "alpha ");
    assert_eq!(names[1].as_str(), "beta");
    assert_eq!(names[2].as_str(), "gamma");
}

#[test]
fn name_table_past_the_input_is_an_input_fault() {
    let mut reader = CatFileReader::new(b"abc".to_vec());
    let err = match reader.read_strings(1, 10) {
        Err(e) => e,
        Ok(_) => panic!("a table past the input cannot be read"),
    };
    assert_eq!(err, CatError::Io(1));
}

#[test]
fn invalid_utf8_name_is_a_bad_string_table() {
    let table = vec![0xFFu8, 0xFE, 0x2C, 0x0D, 0x0A];
    let mut reader = CatFileReader::new(table);
    let err = match reader.read_strings(0, 5) {
        Err(e) => e,
        Ok(_) => panic!("an invalid name must be refused"),
    };
    assert_eq!(err, CatError::MalformedHeader(0, HeaderFault::BadStringTable));
}

#[test]
fn unknown_format_extracts_children_verbatim() {
    // A container with an unhandled format keeps no manifest children; its
    // payloads are still extracted under numbered names.
    let mut v = Vec::new();
    part_one(&mut v, 1, 64, 1000, 64);
    part_two(&mut v, 2, 9, 16, &[(64, 4), (80, 4)]);
    pad_to(&mut v, 128);
    w32(&mut v, 0xAABB0011);
    pad_to(&mut v, 144);
    w32(&mut v, 0xCCDD2233);
    pad_to(&mut v, 1064);
    let mut reader = CatFileReader::new(v);
    let entry = reader.unpack().expect("an unknown format is tolerated");
    match &entry {
        ArchiveEntry::Container(c) => {
            assert_eq!(c.format, 9);
            assert_eq!(c.children.len(), 0);
        },
        _ => panic!("expected a container"),
    }
    assert_eq!(reader.outputs.len(), 2);
    assert_eq!(reader.outputs[0].name.as_str(), "child-0.bin");
    assert_eq!(reader.outputs[1].name.as_str(), "child-1.bin");
    match &reader.outputs[0].contents {
        OutputData::Raw(bytes) => assert_eq!(bytes.as_slice(), &0xAABB0011u32.to_le_bytes()),
        _ => panic!("children are stored verbatim"),
    }
}
