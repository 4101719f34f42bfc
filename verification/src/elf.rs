//! Reading the layout of an ELF image: a check on the bytes that the
//! headers, the section table and the section names lie where they say,
//! and the call into `xmas_elf` for an image that passes it.

use std::rc::Rc;
use vstd::prelude::*;
use vstd::slice::slice_subrange;
use vstd::utf8::valid_utf8;
use xmas_elf::ElfFile;

use crate::image::ImageLayout;
use crate::image::LayoutView;
use crate::image::Section;

verus! {

/// The unsigned 16-bit number at offset `at`, least significant byte first.
pub open spec fn le16(b: Seq<u8>, at: int) -> u16 {
    (b[at] as int + 0x100 * (b[at + 1] as int)) as u16
}

/// The unsigned 32-bit number at offset `at`, least significant byte first.
pub open spec fn le32(b: Seq<u8>, at: int) -> u32 {
    (le16(b, at) as int + 0x1_0000 * (le16(b, at + 2) as int)) as u32
}

/// The unsigned 64-bit number at offset `at`, least significant byte first.
pub open spec fn le64(b: Seq<u8>, at: int) -> u64 {
    (le32(b, at) as int + 0x1_0000_0000 * (le32(b, at + 4) as int)) as u64
}

/// What the file header says of the section table.
#[derive(Clone, Copy, Debug, PartialEq, Eq, Structural)]
pub struct SectionTable {
    /// Whether the image is of the 64-bit class.
    pub wide: bool,
    /// Offset of the table in the file.
    pub offset: u64,
    /// Size of one entry of the table.
    pub entry_size: u16,
    /// Number of entries.
    pub count: u16,
    /// Index of the entry of the section that holds the section names.
    pub names: u16,
}

/// True when the bytes begin with a whole file header: the magic number,
/// the class of a 32-bit or of a 64-bit image, and the fields of that class.
pub open spec fn header_present(b: Seq<u8>) -> bool {
    &&& b.len() >= 16
    &&& b[0] == 0x7f
    &&& b[1] == 0x45
    &&& b[2] == 0x4c
    &&& b[3] == 0x46
    &&& (b[4] == 1 || b[4] == 2)
    &&& b.len() >= (if b[4] == 2 {
        64int
    } else {
        52int
    })
}

/// The section table as the file header describes it.
pub open spec fn table_of(b: Seq<u8>) -> SectionTable {
    if b[4] == 2 {
        SectionTable {
            wide: true,
            offset: le64(b, 40),
            entry_size: le16(b, 58),
            count: le16(b, 60),
            names: le16(b, 62),
        }
    } else {
        SectionTable {
            wide: false,
            offset: le32(b, 32) as u64,
            entry_size: le16(b, 46),
            count: le16(b, 48),
            names: le16(b, 50),
        }
    }
}

/// The size of a section header of the image's class.
pub open spec fn header_bytes(t: SectionTable) -> int {
    if t.wide {
        64
    } else {
        40
    }
}

/// The alignment of a section header of the image's class.
pub open spec fn word(t: SectionTable) -> int {
    if t.wide {
        8
    } else {
        4
    }
}

/// True when the whole section table lies in the file, each entry is
/// large enough for a section header and aligned as one, the number of
/// entries is below the reserved indices, and the section of the names is
/// one of the table.
pub open spec fn table_fits(b: Seq<u8>, t: SectionTable) -> bool {
    &&& t.count <= 0xff00
    &&& t.entry_size >= header_bytes(t)
    &&& t.entry_size as int % word(t) == 0
    &&& t.offset as int % word(t) == 0
    &&& t.offset + t.count * t.entry_size <= b.len()
    &&& t.names < t.count
}

/// Offset of the section header with index `i`.
pub open spec fn section_at(t: SectionTable, i: int) -> int {
    t.offset + i * t.entry_size
}

/// Offset in the file of the section that holds the section names.
pub open spec fn name_table_at(b: Seq<u8>, t: SectionTable) -> int {
    if t.wide {
        le64(b, section_at(t, t.names as int) + 24) as int
    } else {
        le32(b, section_at(t, t.names as int) + 16) as int
    }
}

/// Offset in the file of the name of the section with index `i`.
pub open spec fn name_at(b: Seq<u8>, t: SectionTable, i: int) -> int {
    name_table_at(b, t) + le32(b, section_at(t, i))
}

/// True when the first zero byte at or behind offset `at` lies at `end`.
pub open spec fn is_name_end(b: Seq<u8>, at: int, end: int) -> bool {
    &&& 0 <= at <= end < b.len()
    &&& b[end] == 0
    &&& forall|j: int| at <= j < end ==> b[j] != 0
}

/// True when a name stands at offset `at`: a zero byte ends it within the
/// file, and the bytes before that are UTF-8.
pub open spec fn name_present(b: Seq<u8>, at: int) -> bool {
    exists|end: int| is_name_end(b, at, end) && valid_utf8(b.subrange(at, end))
}

/// True when the layout of the image can be read: the file header is
/// whole and, where it announces sections, the section table fits, the
/// section of the names begins in the file, and every section has a name
/// there.
pub open spec fn readable(b: Seq<u8>) -> bool {
    &&& header_present(b)
    &&& table_of(b).count > 0 ==> {
        &&& table_fits(b, table_of(b))
        &&& name_table_at(b, table_of(b)) <= b.len()
        &&& forall|i: int|
            0 <= i < table_of(b).count ==> name_present(b, #[trigger] name_at(b, table_of(b), i))
    }
}

/// The layout that `xmas_elf` reads out of `bytes`: the entry point of the
/// file header, and of each entry of the section table the name, the
/// address and the size; `None` where `ElfFile::new` refuses the bytes.
pub uninterp spec fn parsed(bytes: Seq<u8>) -> Option<LayoutView>;

/// The layout of an image: what `xmas_elf` reads out of bytes that are
/// readable, and none for any other bytes.
pub open spec fn layout_of(bytes: Seq<u8>) -> Option<LayoutView> {
    if readable(bytes) {
        parsed(bytes)
    } else {
        None
    }
}

/// Calls `core::str::from_utf8` and tells whether it accepts the bytes,
/// which it does exactly for well-formed UTF-8.
#[verifier::external_body]
fn utf8_ok(bytes: &[u8]) -> (ok: bool)
    ensures
        ok == valid_utf8(bytes@),
{
    core::str::from_utf8(bytes).is_ok()
}

/// Calls `ElfFile::new`, walks `ElfFile::section_iter`, and copies out the
/// entry point (`HeaderPt2::entry_point`) and of each section the name
/// (`SectionHeader::get_name`, `None` where it gives an error), the
/// address and the size. `None` stands for an error of `ElfFile::new`.
///
/// `xmas_elf` reads headers in place and stops the process where one is
/// cut short, misaligned or has a reserved index, and where a name has no
/// end or is no UTF-8; `readable` leaves those bytes out. It also insists
/// that the buffer itself starts at a multiple of eight, so the bytes are
/// handed over in a reference-counted slice, which lies behind two
/// counters of machine word size. The fields are read in the byte order
/// of the machine, which `readable` takes to be little-endian.
#[verifier::external_body]
pub(crate) fn read_layout(bytes: &[u8]) -> (layout: Option<ImageLayout>)
    requires
        readable(bytes@),
    ensures
        layout is Some == parsed(bytes@) is Some,
        layout matches Some(l) ==> parsed(bytes@) == Some(l@),
{
    let aligned: Rc<[u8]> = Rc::from(bytes);
    let elf = ElfFile::new(&aligned).ok()?;
    let section = |s: xmas_elf::sections::SectionHeader| Section {
        name: s.get_name(&elf).ok().map(String::from),
        address: s.address(),
        size: s.size(),
    };
    let sections = elf.section_iter().map(section).collect();
    Some(ImageLayout { entry_point: elf.header.pt2.entry_point(), sections })
}

fn read16(bytes: &[u8], at: usize) -> (v: u16)
    requires
        at + 2 <= bytes@.len(),
    ensures
        v == le16(bytes@, at as int),
{
    bytes[at] as u16 + 0x100 * (bytes[at + 1] as u16)
}

fn read32(bytes: &[u8], at: usize) -> (v: u32)
    requires
        at + 4 <= bytes@.len(),
    ensures
        v == le32(bytes@, at as int),
{
    let len = bytes.len();
    read16(bytes, at) as u32 + 0x1_0000 * (read16(bytes, at + 2) as u32)
}

fn read64(bytes: &[u8], at: usize) -> (v: u64)
    requires
        at + 8 <= bytes@.len(),
    ensures
        v == le64(bytes@, at as int),
{
    let len = bytes.len();
    read32(bytes, at) as u64 + 0x1_0000_0000 * (read32(bytes, at + 4) as u64)
}

/// Whether the bytes begin with a whole file header.
pub fn has_header(bytes: &[u8]) -> (present: bool)
    ensures
        present == header_present(bytes@),
{
    bytes.len() >= 16 && bytes[0] == 0x7f && bytes[1] == 0x45 && bytes[2] == 0x4c && bytes[3] == 0x46
        && (bytes[4] == 1 || bytes[4] == 2) && bytes.len() >= (if bytes[4] == 2 {
        64
    } else {
        52
    })
}

/// Reads what the file header says of the section table.
pub fn read_table(bytes: &[u8]) -> (table: SectionTable)
    requires
        header_present(bytes@),
    ensures
        table == table_of(bytes@),
{
    if bytes[4] == 2 {
        SectionTable {
            wide: true,
            offset: read64(bytes, 40),
            entry_size: read16(bytes, 58),
            count: read16(bytes, 60),
            names: read16(bytes, 62),
        }
    } else {
        SectionTable {
            wide: false,
            offset: read32(bytes, 32) as u64,
            entry_size: read16(bytes, 46),
            count: read16(bytes, 48),
            names: read16(bytes, 50),
        }
    }
}

/// Whether the section table lies in the file as `table_fits` asks.
pub fn fits(bytes: &[u8], t: &SectionTable) -> (ok: bool)
    ensures
        ok == table_fits(bytes@, *t),
{
    let header: u16 = if t.wide {
        64
    } else {
        40
    };
    let word: u16 = if t.wide {
        8
    } else {
        4
    };
    assert(t.count * t.entry_size <= 0xffff * 0xffff) by (nonlinear_arith)
        requires
            t.count <= 0xffff,
            t.entry_size <= 0xffff,
    ;
    let span: u64 = (t.count as u64) * (t.entry_size as u64);
    let len = bytes.len() as u64;
    t.count <= 0xff00 && t.entry_size >= header && t.entry_size % word == 0 && t.offset % (word as u64)
        == 0 && t.offset <= len && span <= len - t.offset && t.names < t.count
}

/// Whether a name stands at offset `at`.
pub fn has_name(bytes: &[u8], at: usize) -> (present: bool)
    ensures
        present == name_present(bytes@, at as int),
{
    let len = bytes.len();
    if at >= len {
        return false;
    }
    let mut end: usize = at;
    while end < len && bytes[end] != 0
        invariant
            at <= end <= len,
            len == bytes@.len(),
            forall|j: int| at <= j < end ==> bytes@[j] != 0,
        decreases len - end,
    {
        end += 1;
    }
    if end == len {
        assert forall|e: int| !is_name_end(bytes@, at as int, e) by {}
        return false;
    }
    assert(is_name_end(bytes@, at as int, end as int));
    assert forall|e: int| is_name_end(bytes@, at as int, e) implies e == end by {
        if e < end {
            assert(bytes@[e] != 0);
        } else if end < e {
            assert(bytes@[end as int] != 0);
        }
    }
    utf8_ok(slice_subrange(bytes, at, end))
}

/// Whether the layout of the image can be read.
pub fn is_readable(bytes: &[u8]) -> (ok: bool)
    ensures
        ok == readable(bytes@),
{
    if !has_header(bytes) {
        return false;
    }
    let t = read_table(bytes);
    if t.count == 0 {
        return true;
    }
    if !fits(bytes, &t) {
        return false;
    }
    let len = bytes.len() as u64;
    let entry = t.entry_size as u64;
    proof {
        lemma_section_in_table(bytes@, t, t.names as int);
    }
    let names_header = t.offset + (t.names as u64) * entry;
    assert(names_header == section_at(t, t.names as int));
    let names: u64 = if t.wide {
        read64(bytes, (names_header + 24) as usize)
    } else {
        read32(bytes, (names_header + 16) as usize) as u64
    };
    if names > len {
        return false;
    }
    let mut i: u16 = 0;
    while i < t.count
        invariant
            i <= t.count,
            t == table_of(bytes@),
            header_present(bytes@),
            table_fits(bytes@, t),
            len == bytes@.len(),
            bytes@.len() <= usize::MAX,
            entry == t.entry_size,
            names == name_table_at(bytes@, t),
            names <= len,
            forall|j: int| 0 <= j < i ==> name_present(bytes@, #[trigger] name_at(bytes@, t, j)),
        decreases t.count - i,
    {
        proof {
            lemma_section_in_table(bytes@, t, i as int);
        }
        let header = t.offset + (i as u64) * entry;
        assert(header == section_at(t, i as int));
        let name = read32(bytes, header as usize) as u64;
        assert(names + name == name_at(bytes@, t, i as int));
        if name > len - names || !has_name(bytes, (names + name) as usize) {
            assert(!name_present(bytes@, name_at(bytes@, t, i as int))) by {
                if name > len - names {
                    assert forall|e: int| !is_name_end(bytes@, name_at(bytes@, t, i as int), e) by {}
                }
            }
            return false;
        }
        i += 1;
    }
    true
}

/// The header of a section of a table that fits lies in the file.
proof fn lemma_section_in_table(b: Seq<u8>, t: SectionTable, i: int)
    requires
        table_fits(b, t),
        0 <= i < t.count,
    ensures
        i * t.entry_size <= 0xffff * 0xffff,
        0 <= section_at(t, i),
        section_at(t, i) + header_bytes(t) <= b.len(),
        section_at(t, i) + t.entry_size <= b.len(),
{
    assert(i * t.entry_size + t.entry_size <= t.count * t.entry_size) by (nonlinear_arith)
        requires
            0 <= i < t.count,
            t.entry_size >= 0,
    ;
    assert(0 <= i * t.entry_size <= 0xffff * 0xffff) by (nonlinear_arith)
        requires
            0 <= i <= 0xffff,
            0 <= t.entry_size <= 0xffff,
    ;
}

/// Reads the layout of the image in `bytes`: the entry point and the
/// section table. There is none exactly where the bytes are not readable
/// or `xmas_elf` refuses them.
pub fn parse(bytes: &[u8]) -> (layout: Option<ImageLayout>)
    ensures
        match layout {
            Some(l) => layout_of(bytes@) == Some(l@),
            None => layout_of(bytes@) is None,
        },
{
    if is_readable(bytes) {
        read_layout(bytes)
    } else {
        None
    }
}

} // verus!
