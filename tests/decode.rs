use macho_reader::commands::{
    classify, read_command, read_segment32, read_segment64, Command, Requirement, LC_SEGMENT,
    LC_SEGMENT_64,
};
use macho_reader::cursor::{ByteCursor, DecodeError};
use macho_reader::macho::{read_macho, read_magic, MH_MAGIC_64};
use macho_reader::records::{FromRead, Header, LoadCommand, Section32, SegmentCommand32};

fn put32(out: &mut Vec<u8>, x: u32) {
    out.extend_from_slice(&x.to_le_bytes());
}

fn put64(out: &mut Vec<u8>, x: u64) {
    out.extend_from_slice(&x.to_le_bytes());
}

fn header(count: u32, size: u32) -> Vec<u8> {
    let mut out = Vec::new();
    for x in [7u32, 3, 2, count, size, 0x85] {
        put32(&mut out, x);
    }
    out
}

fn segment32(name: [u8; 16], sections: u32) -> Vec<u8> {
    let mut out = name.to_vec();
    for x in [0x1000u32, 0x2000, 0x300, 0x400, 7, 5, sections, 0x4] {
        put32(&mut out, x);
    }
    out
}

fn section32(name: [u8; 16], seg: [u8; 16], k: u32) -> Vec<u8> {
    let mut out = name.to_vec();
    out.extend_from_slice(&seg);
    for x in [0x1000 + k, 0x10 + k, 0x200 + k, 4, 0, 0, 0x8000_0400, 11 + k, 22 + k] {
        put32(&mut out, x);
    }
    out
}

fn segment64(sections: u32) -> Vec<u8> {
    let mut out = b"__TEXT\0\0\0\0\0\0\0\0\0\0".to_vec();
    for x in [0x1_0000_0000u64, 0x4000, 0, 0x4000] {
        put64(&mut out, x);
    }
    for x in [5u32, 5, sections, 0] {
        put32(&mut out, x);
    }
    out
}

fn section64(k: u32) -> Vec<u8> {
    let mut out = b"__text\0\0\0\0\0\0\0\0\0\0".to_vec();
    out.extend_from_slice(b"__TEXT\0\0\0\0\0\0\0\0\0\0");
    put64(&mut out, 0x1_0000_0f00 + k as u64);
    put64(&mut out, 0x80 + k as u64);
    for x in [0xf00u32 + k, 4, 0, 0, 0x8000_0400, 1, 2, 3] {
        put32(&mut out, x);
    }
    out
}

fn prefix(tag: u32, size: u32) -> Vec<u8> {
    let mut out = Vec::new();
    put32(&mut out, tag);
    put32(&mut out, size);
    out
}

#[test]
fn one_segment64_without_sections() {
    let mut data = header(1, 72);
    put32(&mut data, 0);
    data.extend(prefix(LC_SEGMENT_64, 72));
    data.extend(segment64(0));
    let end = data.len();
    let mut cursor = ByteCursor::new(data);
    let m = read_macho(&mut cursor, true).unwrap();
    assert_eq!(m.header.load_commands_count, 1);
    assert_eq!(m.commands.len(), 1);
    match &m.commands[0] {
        Command::Segment64(s) => {
            assert_eq!(&s.segment.name[..6], b"__TEXT");
            assert_eq!(s.segment.address, 0x1_0000_0000);
            assert_eq!(s.segment.address_size, 0x4000);
            assert_eq!(s.segment.sections_count, 0);
            assert!(s.sections.is_empty());
        }
        other => panic!("expected a 64-bit segment, got {:?}", other),
    }
    assert_eq!(cursor.position(), end);
}

#[test]
fn unknown_required_command_is_skipped() {
    let mut data = prefix(0x8000_0099, 16);
    data.extend([0xde, 0xad, 0xbe, 0xef, 1, 2, 3, 4]);
    let mut cursor = ByteCursor::new(data);
    let c = read_command(&mut cursor).unwrap();
    assert_eq!(cursor.position(), 16);
    match c {
        Command::Unknown(u) => {
            assert_eq!(u.cmd_type, 0x8000_0099);
            assert_eq!(u.size, 16);
            assert_eq!(u.requirement, Requirement::Required);
        }
        other => panic!("expected an unknown command, got {:?}", other),
    }
}

#[test]
fn unknown_skip_ignores_payload() {
    for payload in [[0u8; 8], [0xff; 8], [0x19, 0, 0, 0, 0x48, 0, 0, 0]] {
        let mut data = prefix(0x26, 16);
        data.extend(payload);
        data.extend(prefix(0x2, 8));
        let mut cursor = ByteCursor::new(data);
        let first = read_command(&mut cursor).unwrap();
        assert_eq!(cursor.position(), 16);
        match first {
            Command::Unknown(u) => assert_eq!(u.requirement, Requirement::Optional),
            other => panic!("expected an unknown command, got {:?}", other),
        }
        let second = read_command(&mut cursor).unwrap();
        assert!(matches!(second, Command::Unknown(u) if u.cmd_type == 2 && u.size == 8));
        assert_eq!(cursor.position(), 24);
    }
}

#[test]
fn classification_follows_top_bit() {
    assert_eq!(classify(0x8000_0099), Requirement::Required);
    assert_eq!(classify(0x8000_0000), Requirement::Required);
    assert_eq!(classify(0xffff_ffff), Requirement::Required);
    assert_eq!(classify(0x7fff_ffff), Requirement::Optional);
    assert_eq!(classify(0), Requirement::Optional);
    assert_eq!(classify(LC_SEGMENT), Requirement::Optional);
    assert_eq!(classify(LC_SEGMENT_64), Requirement::Optional);
    assert_eq!(classify(0x8000_0019), Requirement::Required);
}

#[test]
fn segment32_round_trip() {
    let name = [0xff, 0x00, b'_', b'_', 0xc3, 0x28, 0x80, 1, 2, 3, 4, 5, 6, 7, 8, 0xfe];
    let seg = [b'_', b'_', b'D', b'A', b'T', b'A', 0, 0, 0, 0, 0, 0, 0, 0, 0, 0x99];
    let mut data = segment32(name, 2);
    data.extend(section32([0xaa; 16], seg, 0));
    data.extend(section32(*b"__data\0\0\0\0\0\0\0\0\0\0", seg, 1));
    let end = data.len();
    assert_eq!(end, 48 + 2 * 68);
    let mut cursor = ByteCursor::new(data);
    let s = read_segment32(&mut cursor).unwrap();
    assert_eq!(cursor.position(), end);
    let expected = SegmentCommand32 {
        name,
        address: 0x1000,
        address_size: 0x2000,
        file_offset: 0x300,
        size: 0x400,
        max_protect: 7,
        init_protect: 5,
        sections_count: 2,
        flags: 4,
    };
    assert_eq!(s.segment, expected);
    assert_eq!(s.sections.len(), 2);
    let first = Section32 {
        name: [0xaa; 16],
        segment_name: seg,
        section_addr: 0x1000,
        section_size: 0x10,
        file_offset: 0x200,
        alignment: 4,
        reloc_file_offset: 0,
        reloc_count: 0,
        flag_type: 0x8000_0400,
        reserved: [11, 22],
    };
    assert_eq!(s.sections[0], first);
    assert_eq!(&s.sections[1].name[..6], b"__data");
    assert_eq!(s.sections[1].section_addr, 0x1001);
    assert_eq!(s.sections[1].reserved, [12, 23]);
}

#[test]
fn segment64_with_sections() {
    let mut data = segment64(2);
    data.extend(section64(0));
    data.extend(section64(1));
    let mut cursor = ByteCursor::new(data);
    let s = read_segment64(&mut cursor).unwrap();
    assert_eq!(cursor.position(), 64 + 2 * 80);
    assert_eq!(s.sections.len(), 2);
    assert_eq!(s.sections[1].section_addr, 0x1_0000_0f01);
    assert_eq!(s.sections[1].section_size, 0x81);
    assert_eq!(s.sections[1].file_offset, 0xf01);
    assert_eq!(s.sections[1].flag_type, 0x8000_0400);
    assert_eq!(s.sections[1].reserved, [1, 2, 3]);
}

#[test]
fn truncated_header() {
    for is64 in [false, true] {
        let mut cursor = ByteCursor::new(vec![0u8; 10]);
        assert_eq!(read_macho(&mut cursor, is64).unwrap_err(), DecodeError::TruncatedInput);
    }
    // Enough for the 32-bit header, not for the reserved word of the 64-bit one.
    let mut data = header(0, 0);
    data.extend([0, 0]);
    let mut cursor = ByteCursor::new(data.clone());
    assert_eq!(read_macho(&mut cursor, true).unwrap_err(), DecodeError::TruncatedInput);
    let mut cursor = ByteCursor::new(data);
    assert_eq!(read_macho(&mut cursor, false).unwrap().commands.len(), 0);
}

#[test]
fn empty_input() {
    let mut cursor = ByteCursor::new(Vec::new());
    assert_eq!(read_magic(&mut cursor), Err(DecodeError::TruncatedInput));
    assert_eq!(read_command(&mut cursor).unwrap_err(), DecodeError::TruncatedInput);
    assert_eq!(read_macho(&mut cursor, false).unwrap_err(), DecodeError::TruncatedInput);
}

#[test]
fn size_below_prefix_is_malformed() {
    let mut data = prefix(0x2, 7);
    data.extend([0u8; 16]);
    let mut cursor = ByteCursor::new(data);
    assert_eq!(read_command(&mut cursor).unwrap_err(), DecodeError::MalformedRecord);
    let mut cursor = ByteCursor::new(prefix(LC_SEGMENT, 0));
    assert_eq!(read_command(&mut cursor).unwrap_err(), DecodeError::MalformedRecord);
}

#[test]
fn unknown_payload_truncated() {
    let mut data = prefix(0x2, 24);
    data.extend([0u8; 15]);
    let mut cursor = ByteCursor::new(data);
    assert_eq!(read_command(&mut cursor).unwrap_err(), DecodeError::TruncatedInput);
}

#[test]
fn segment_size_mismatch() {
    let mut data = prefix(LC_SEGMENT, 56 + 68 + 4);
    data.extend(segment32([0; 16], 1));
    data.extend(section32([0; 16], [0; 16], 0));
    data.extend([0u8; 4]);
    let mut cursor = ByteCursor::new(data);
    assert_eq!(read_command(&mut cursor).unwrap_err(), DecodeError::SizeMismatch);
}

#[test]
fn segment_sections_truncated() {
    let mut data = prefix(LC_SEGMENT, 56 + 2 * 68);
    data.extend(segment32([0; 16], 2));
    data.extend(section32([0; 16], [0; 16], 0));
    let mut cursor = ByteCursor::new(data);
    assert_eq!(read_command(&mut cursor).unwrap_err(), DecodeError::TruncatedInput);
}

#[test]
fn commands_end_to_end() {
    let mut body = prefix(LC_SEGMENT, 56 + 68);
    body.extend(segment32(*b"__TEXT\0\0\0\0\0\0\0\0\0\0", 1));
    body.extend(section32([1; 16], [2; 16], 0));
    body.extend(prefix(0x8000_0022, 48));
    body.extend([0x55u8; 40]);
    body.extend(prefix(0x1b, 24));
    body.extend([0x66u8; 16]);
    let mut data = header(3, body.len() as u32);
    data.extend(body);
    data.extend([0xeeu8; 5]);
    let mut cursor = ByteCursor::new(data);
    let m = read_macho(&mut cursor, false).unwrap();
    assert_eq!(m.header.cpu_type, 7);
    assert_eq!(m.header.cpu_subtype, 3);
    assert_eq!(m.header.file_type, 2);
    assert_eq!(m.header.size_load_command, 124 + 48 + 24);
    assert_eq!(m.header.flags, 0x85);
    assert_eq!(m.commands.len(), 3);
    assert!(matches!(&m.commands[0], Command::Segment32(s) if s.sections.len() == 1));
    assert!(matches!(m.commands[1], Command::Unknown(u) if u.requirement == Requirement::Required));
    assert!(matches!(m.commands[2], Command::Unknown(u) if u.requirement == Requirement::Optional));
    assert_eq!(cursor.position(), 24 + 124 + 48 + 24);
    assert_eq!(cursor.remaining(), 5);
}

#[test]
fn first_failure_stops_decoding() {
    let mut data = header(3, 0);
    data.extend(prefix(0x2, 8));
    data.extend(prefix(0x3, 4));
    data.extend(prefix(0x4, 8));
    let mut cursor = ByteCursor::new(data);
    assert_eq!(read_macho(&mut cursor, false).unwrap_err(), DecodeError::MalformedRecord);
}

#[test]
fn fewer_commands_than_declared() {
    let mut data = header(2, 8);
    data.extend(prefix(0x2, 8));
    let mut cursor = ByteCursor::new(data);
    assert_eq!(read_macho(&mut cursor, false).unwrap_err(), DecodeError::TruncatedInput);
}

#[test]
fn magic_is_little_endian() {
    let mut cursor = ByteCursor::new(vec![0xcf, 0xfa, 0xed, 0xfe, 9]);
    assert_eq!(read_magic(&mut cursor), Ok(MH_MAGIC_64));
    assert_eq!(cursor.position(), 4);
    let mut cursor = ByteCursor::new(vec![0xcf, 0xfa, 0xed]);
    assert_eq!(read_magic(&mut cursor), Err(DecodeError::TruncatedInput));
    assert_eq!(cursor.position(), 0);
}

#[test]
fn record_reads_are_atomic() {
    let mut cursor = ByteCursor::new(vec![1u8; 23]);
    assert_eq!(Header::read(&mut cursor).unwrap_err(), DecodeError::TruncatedInput);
    assert_eq!(cursor.position(), 0);
    let mut cursor = ByteCursor::new(vec![1, 0, 0, 0, 0x10, 0x20, 0, 0]);
    let c = LoadCommand::read(&mut cursor).unwrap();
    assert_eq!(c, LoadCommand { cmd_type: 1, size: 0x2010 });
}

#[test]
fn cursor_reads_and_skips() {
    let mut cursor = ByteCursor::new(vec![1, 2, 3, 4, 5]);
    assert_eq!(cursor.read_exact(2), Ok(vec![1, 2]));
    assert_eq!(cursor.skip(4), Err(DecodeError::TruncatedInput));
    assert_eq!(cursor.position(), 2);
    assert_eq!(cursor.skip(2), Ok(()));
    assert_eq!(cursor.read_exact(1), Ok(vec![5]));
    assert_eq!(cursor.read_exact(0), Ok(vec![]));
    assert_eq!(cursor.read_u32(), Err(DecodeError::TruncatedInput));
}

#[test]
fn u64_fields_little_endian() {
    let mut cursor = ByteCursor::new(vec![0x01, 0x02, 0x03, 0x04, 0x05, 0x06, 0x07, 0x08]);
    assert_eq!(cursor.read_u32(), Ok(0x0403_0201));
    let mut data = segment64(0);
    data[16..24].copy_from_slice(&[0x01, 0x02, 0x03, 0x04, 0x05, 0x06, 0x07, 0x08]);
    let mut cursor = ByteCursor::new(data);
    let s = read_segment64(&mut cursor).unwrap();
    assert_eq!(s.segment.address, 0x0807_0605_0403_0201);
}
