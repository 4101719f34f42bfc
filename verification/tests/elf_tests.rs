use flow_disasm::disassembly::ConstructionError;
use flow_disasm::disassembly::Disassembly;
use flow_disasm::elf::fits;
use flow_disasm::elf::has_header;
use flow_disasm::elf::has_name;
use flow_disasm::elf::is_readable;
use flow_disasm::elf::parse;
use flow_disasm::elf::read_table;
use flow_disasm::elf::SectionTable;
use flow_disasm::image::Image;
use flow_disasm::image::MalformedImageError;

const NAMES: &[u8] = b"\0.text\0.shstrtab\0";

fn put16(b: &mut Vec<u8>, at: usize, v: u16) {
    b[at..at + 2].copy_from_slice(&v.to_le_bytes());
}

fn put32(b: &mut Vec<u8>, at: usize, v: u32) {
    b[at..at + 4].copy_from_slice(&v.to_le_bytes());
}

fn put64(b: &mut Vec<u8>, at: usize, v: u64) {
    b[at..at + 8].copy_from_slice(&v.to_le_bytes());
}

fn section64(b: &mut Vec<u8>, name: u32, kind: u32, address: u64, offset: u64, size: u64) {
    let at = b.len();
    b.resize(at + 64, 0);
    put32(b, at, name);
    put32(b, at + 4, kind);
    put64(b, at + 16, address);
    put64(b, at + 24, offset);
    put64(b, at + 32, size);
}

fn section32(b: &mut Vec<u8>, name: u32, kind: u32, address: u32, offset: u32, size: u32) {
    let at = b.len();
    b.resize(at + 40, 0);
    put32(b, at, name);
    put32(b, at + 4, kind);
    put32(b, at + 12, address);
    put32(b, at + 16, offset);
    put32(b, at + 20, size);
}

fn elf64_named(entry: u64, code: &[u8], names: &[u8]) -> Vec<u8> {
    let mut b = vec![0u8; 64];
    b[..7].copy_from_slice(&[0x7f, b'E', b'L', b'F', 2, 1, 1]);
    put16(&mut b, 16, 2);
    put16(&mut b, 18, 0x3e);
    put32(&mut b, 20, 1);
    put64(&mut b, 24, entry);
    put16(&mut b, 52, 64);
    put16(&mut b, 58, 64);
    put16(&mut b, 60, 3);
    put16(&mut b, 62, 2);
    b.extend_from_slice(code);
    let names_at = b.len() as u64;
    b.extend_from_slice(names);
    while b.len() % 8 != 0 {
        b.push(0);
    }
    let table_at = b.len() as u64;
    put64(&mut b, 40, table_at);
    section64(&mut b, 0, 0, 0, 0, 0);
    section64(&mut b, 1, 1, 0x40, 0x40, code.len() as u64);
    section64(&mut b, 7, 3, 0, names_at, names.len() as u64);
    b
}

fn elf64(entry: u64, code: &[u8]) -> Vec<u8> {
    elf64_named(entry, code, NAMES)
}

fn elf32(entry: u32, code: &[u8]) -> Vec<u8> {
    let mut b = vec![0u8; 52];
    b[..7].copy_from_slice(&[0x7f, b'E', b'L', b'F', 1, 1, 1]);
    put16(&mut b, 16, 2);
    put16(&mut b, 18, 3);
    put32(&mut b, 20, 1);
    put32(&mut b, 24, entry);
    put16(&mut b, 40, 52);
    put16(&mut b, 46, 40);
    put16(&mut b, 48, 3);
    put16(&mut b, 50, 2);
    b.extend_from_slice(code);
    let names_at = b.len() as u32;
    b.extend_from_slice(NAMES);
    while b.len() % 4 != 0 {
        b.push(0);
    }
    let table_at = b.len() as u32;
    put32(&mut b, 32, table_at);
    section32(&mut b, 0, 0, 0, 0, 0);
    section32(&mut b, 1, 1, 0x34, 0x34, code.len() as u32);
    section32(&mut b, 7, 3, 0, names_at, NAMES.len() as u32);
    b
}

fn table_at(b: &[u8]) -> usize {
    u64::from_le_bytes(b[40..48].try_into().unwrap()) as usize
}

fn refused(bytes: Vec<u8>) -> bool {
    !is_readable(&bytes)
        && parse(&bytes).is_none()
        && matches!(Image::load(bytes.clone()), Err(MalformedImageError))
        && matches!(
            Disassembly::new(String::from("image"), bytes),
            Err(ConstructionError::MalformedImage)
        )
}

#[test]
fn parse_reads_entry_point_and_sections() {
    let bytes = elf64(0x40, &[0x90, 0xc3]);
    assert!(is_readable(&bytes));
    let layout = parse(&bytes).unwrap();
    assert_eq!(layout.entry_point, 0x40);
    assert_eq!(layout.sections.len(), 3);
    assert_eq!(layout.sections[0].name, None);
    assert_eq!(layout.sections[1].name, Some(String::from(".text")));
    assert_eq!(layout.sections[1].address, 0x40);
    assert_eq!(layout.sections[1].size, 2);
    assert_eq!(layout.sections[2].name, Some(String::from(".shstrtab")));
    assert_eq!(layout.sections[2].address, 0);
    assert_eq!(layout.sections[2].size, 17);
}

#[test]
fn parse_reads_an_image_of_the_32_bit_class() {
    let bytes = elf32(0x34, &[0xc3, 0x90, 0x90, 0x90]);
    assert!(is_readable(&bytes));
    let layout = parse(&bytes).unwrap();
    assert_eq!(layout.entry_point, 0x34);
    assert_eq!(layout.sections.len(), 3);
    assert_eq!(layout.sections[1].name, Some(String::from(".text")));
    assert_eq!(layout.sections[1].address, 0x34);
    assert_eq!(layout.sections[1].size, 4);
    let image = Image::load(bytes).unwrap();
    assert_eq!(image.code_bounds(), (0x34, 0x38));
}

#[test]
fn parse_reads_an_image_at_any_place_in_memory() {
    let bytes = elf64(0x40, &[0xc3]);
    let mut shifted = vec![0u8; 3];
    shifted.extend_from_slice(&bytes);
    for start in 0..3 {
        let mut copy = vec![0u8; start];
        copy.extend_from_slice(&bytes);
        let layout = parse(&copy[start..]).unwrap();
        assert_eq!(layout.entry_point, 0x40);
        assert_eq!(layout.sections.len(), 3);
    }
    assert!(parse(&shifted[3..]).is_some());
}

#[test]
fn load_takes_bounds_and_entry_point_from_the_bytes() {
    let bytes = elf64(0x41, &[0x90, 0x90, 0xc3]);
    let image = Image::load(bytes.clone()).unwrap();
    assert_eq!(image.entry_point(), 0x41);
    assert_eq!(image.code_bounds(), (0x40, 0x43));
    assert_eq!(image.bytes_from(0), &bytes[..]);
}

#[test]
fn image_of_a_single_ret_gives_one_line() {
    let mut d = Disassembly::new(String::from("ret.elf"), elf64(0x40, &[0xc3])).unwrap();
    assert_eq!(d.file(), "ret.elf");
    assert_eq!(d.entry_point(), 0x40);
    assert_eq!(d.code_bounds(), (0x40, 0x41));
    assert_eq!(d.pending(), &vec![0x40]);
    assert!(d.is_target(0x40));
    assert!(d.disassemble());
    assert_eq!(d.emit_instructions(), vec!["0x40: ret"]);
}

#[test]
fn image_with_a_jump_over_a_gap_gives_two_runs() {
    let mut code = vec![0xeb, 0x08];
    code.extend_from_slice(&[0x06; 8]);
    code.extend_from_slice(&[0x90, 0xc3]);
    let mut d = Disassembly::new(String::from("jmp.elf"), elf64(0x40, &code)).unwrap();
    assert!(d.disassemble());
    assert_eq!(d.emit_instructions(), vec!["0x40: jmp 0x4a", "0x4a: nop", "0x4b: ret"]);
}

#[test]
fn empty_and_short_files_are_malformed() {
    assert!(refused(vec![]));
    assert!(refused(vec![0x7f, b'E', b'L', b'F']));
    let bytes = elf64(0x40, &[0xc3]);
    assert!(refused(bytes[..15].to_vec()));
    assert!(refused(bytes[..16].to_vec()));
    assert!(refused(bytes[..63].to_vec()));
    assert!(refused(elf32(0x34, &[0xc3])[..51].to_vec()));
}

#[test]
fn truncated_file_is_malformed() {
    let bytes = elf64(0x40, &[0x90, 0xc3]);
    for len in [64, 65, 80, table_at(&bytes), table_at(&bytes) + 64, bytes.len() - 1] {
        assert!(refused(bytes[..len].to_vec()));
    }
    assert!(!refused(bytes));
}

#[test]
fn wrong_magic_number_is_malformed() {
    for at in 0..4 {
        let mut bytes = elf64(0x40, &[0xc3]);
        bytes[at] ^= 1;
        assert!(refused(bytes));
    }
}

#[test]
fn unknown_class_is_malformed() {
    for class in [0u8, 3, 0xff] {
        let mut bytes = elf64(0x40, &[0xc3]);
        bytes[4] = class;
        assert!(refused(bytes));
    }
}

#[test]
fn section_table_behind_the_file_is_malformed() {
    let mut bytes = elf64(0x40, &[0xc3]);
    let len = bytes.len() as u64;
    put64(&mut bytes, 40, len);
    assert!(refused(bytes.clone()));
    put64(&mut bytes, 40, u64::MAX - 7);
    assert!(refused(bytes.clone()));
    put64(&mut bytes, 40, len - 64);
    assert!(refused(bytes));
}

#[test]
fn misaligned_section_table_is_malformed() {
    let mut bytes = elf64(0x40, &[0xc3]);
    let at = table_at(&bytes);
    let table = bytes.split_off(at);
    bytes.extend_from_slice(&[0; 4]);
    bytes.extend_from_slice(&table);
    put64(&mut bytes, 40, at as u64 + 4);
    assert!(refused(bytes));
}

#[test]
fn small_or_odd_section_entries_are_malformed() {
    for size in [0u16, 8, 40, 56, 63, 65, 68] {
        let mut bytes = elf64(0x40, &[0xc3]);
        put16(&mut bytes, 58, size);
        assert!(refused(bytes));
    }
}

#[test]
fn larger_section_entries_are_read() {
    let mut bytes = elf64(0x40, &[0xc3]);
    let at = table_at(&bytes);
    let table = bytes.split_off(at);
    for entry in table.chunks(64) {
        bytes.extend_from_slice(entry);
        bytes.extend_from_slice(&[0; 8]);
    }
    put16(&mut bytes, 58, 72);
    let layout = parse(&bytes).unwrap();
    assert_eq!(layout.sections.len(), 3);
    assert_eq!(layout.sections[1].name, Some(String::from(".text")));
    assert_eq!(layout.sections[2].size, 17);
}

#[test]
fn too_many_sections_are_malformed() {
    for count in [4u16, 0xff00, 0xff01, 0xffff] {
        let mut bytes = elf64(0x40, &[0xc3]);
        put16(&mut bytes, 60, count);
        assert!(refused(bytes));
    }
}

#[test]
fn name_section_outside_the_table_is_malformed() {
    for index in [3u16, 0xff00, 0xffff] {
        let mut bytes = elf64(0x40, &[0xc3]);
        put16(&mut bytes, 62, index);
        assert!(refused(bytes));
    }
}

#[test]
fn name_table_behind_the_file_is_malformed() {
    let mut bytes = elf64(0x40, &[0xc3]);
    let at = table_at(&bytes) + 2 * 64 + 24;
    let len = bytes.len() as u64;
    put64(&mut bytes, at, len + 1);
    assert!(refused(bytes.clone()));
    put64(&mut bytes, at, u64::MAX);
    assert!(refused(bytes));
}

#[test]
fn name_behind_the_file_is_malformed() {
    let mut bytes = elf64(0x40, &[0xc3]);
    let at = table_at(&bytes) + 64;
    let len = bytes.len() as u32;
    put32(&mut bytes, at, len);
    assert!(refused(bytes.clone()));
    put32(&mut bytes, at, u32::MAX);
    assert!(refused(bytes));
}

#[test]
fn name_without_end_is_malformed() {
    let mut bytes = elf64(0x40, &[0x90; 8])[..72].to_vec();
    put64(&mut bytes, 40, 72);
    put16(&mut bytes, 60, 1);
    put16(&mut bytes, 62, 0);
    section64(&mut bytes, 0, 1, 0x40, 136, 3);
    bytes.extend_from_slice(b"abc");
    assert!(refused(bytes.clone()));
    bytes.push(0);
    let layout = parse(&bytes).unwrap();
    assert_eq!(layout.sections.len(), 1);
    assert_eq!(layout.sections[0].name, Some(String::from("abc")));
}

#[test]
fn name_that_is_no_utf8_is_malformed() {
    let bytes = elf64_named(0x40, &[0xc3], b"\0.te\xfft\0.shstrtab\0\0");
    assert!(refused(bytes));
    let cut = elf64_named(0x40, &[0xc3], b"\0.tex\xc3\0.shstrtab\0\0");
    assert!(refused(cut));
}

#[test]
fn name_in_utf8_is_read() {
    let bytes = elf64_named(0x40, &[0xc3], "\0.t\u{e9}xt\0.shstrtab\0".as_bytes());
    let layout = parse(&bytes).unwrap();
    assert_eq!(layout.sections[1].name, Some(String::from(".t\u{e9}xt")));
    assert_eq!(Image::load(bytes).unwrap().code_bounds(), (0, 0));
}

#[test]
fn image_without_sections_has_no_code_region() {
    let mut bytes = elf64(0x40, &[0x90, 0xc3]);
    put16(&mut bytes, 60, 0);
    assert!(is_readable(&bytes));
    let layout = parse(&bytes).unwrap();
    assert_eq!(layout.entry_point, 0x40);
    assert!(layout.sections.is_empty());
    let mut d = Disassembly::new(String::from("image"), bytes).unwrap();
    assert_eq!(d.code_bounds(), (0, 0));
    assert!(d.disassemble());
    let lines = d.emit_instructions();
    assert_eq!(lines[0], "0x40: nop");
    assert_eq!(lines[1], "0x41: ret");
}

#[test]
fn image_with_code_section_beyond_the_address_space_is_malformed() {
    let mut bytes = elf64(0x40, &[0xc3]);
    let at = table_at(&bytes) + 64;
    put64(&mut bytes, at + 16, u64::MAX);
    put64(&mut bytes, at + 32, 2);
    assert!(is_readable(&bytes));
    assert!(parse(&bytes).is_some());
    assert!(matches!(Image::load(bytes.clone()), Err(MalformedImageError)));
    assert!(matches!(
        Disassembly::new(String::from("image"), bytes),
        Err(ConstructionError::MalformedImage)
    ));
}

#[test]
fn section_of_unknown_type_has_no_name() {
    let mut bytes = elf64(0x40, &[0xc3]);
    let at = table_at(&bytes) + 64;
    put32(&mut bytes, at + 4, 12);
    let layout = parse(&bytes).unwrap();
    assert_eq!(layout.sections[1].name, None);
    assert_eq!(layout.sections[1].address, 0x40);
    assert_eq!(Image::load(bytes).unwrap().code_bounds(), (0, 0));
}

#[test]
fn header_and_table_are_read_least_significant_byte_first() {
    let bytes = elf64(0x40, &[0xc3]);
    assert!(has_header(&bytes));
    assert!(!has_header(&bytes[..63]));
    assert!(!has_header(&[]));
    let t = read_table(&bytes);
    assert_eq!(
        t,
        SectionTable {
            wide: true,
            offset: table_at(&bytes) as u64,
            entry_size: 64,
            count: 3,
            names: 2
        }
    );
    assert!(fits(&bytes, &t));
    assert!(!fits(&bytes[..bytes.len() - 1], &t));
    assert!(!fits(&bytes, &SectionTable { names: 3, ..t }));
    assert!(!fits(&bytes, &SectionTable { entry_size: 60, ..t }));
    let mut odd = bytes.clone();
    put64(&mut odd, 40, 0x0102_0304_0506_0708);
    put16(&mut odd, 58, 0x1234);
    assert_eq!(read_table(&odd).offset, 0x0102_0304_0506_0708);
    assert_eq!(read_table(&odd).entry_size, 0x1234);
    let small = elf32(0x34, &[0xc3]);
    let s = read_table(&small);
    assert!(!s.wide);
    assert_eq!((s.entry_size, s.count, s.names), (40, 3, 2));
    assert!(fits(&small, &s));
}

#[test]
fn has_name_asks_for_an_end_and_for_utf8() {
    let bytes = b"ab\0cd\0\xff\0ef";
    assert!(has_name(bytes, 0));
    assert!(has_name(bytes, 1));
    assert!(has_name(bytes, 2));
    assert!(has_name(bytes, 3));
    assert!(has_name(bytes, 5));
    assert!(!has_name(bytes, 6));
    assert!(has_name(bytes, 7));
    assert!(!has_name(bytes, 8));
    assert!(!has_name(bytes, 9));
    assert!(!has_name(bytes, 10));
    assert!(!has_name(bytes, 11));
    assert!(!has_name(bytes, usize::MAX));
    assert!(!has_name(b"", 0));
}
