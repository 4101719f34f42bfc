//! The image under exploration: its bytes, its entry point, and the bounds
//! of its code region, derived once from the section table.

use vstd::prelude::*;
use vstd::slice::slice_subrange;
use vstd::string::StringExecFns;

use crate::elf::layout_of;
use crate::elf::parse;

verus! {

/// One entry of the section table of an executable.
#[derive(Clone, Debug)]
pub struct Section {
    /// The name, where the table gives one that can be read.
    pub name: Option<String>,
    /// Address of the first byte of the section.
    pub address: u64,
    /// Size of the section in bytes.
    pub size: u64,
}

/// What the header and the section table of an executable say of it.
#[derive(Clone, Debug)]
pub struct ImageLayout {
    /// Address at which execution starts.
    pub entry_point: u64,
    /// The sections, in table order.
    pub sections: Vec<Section>,
}

/// The bytes hold no layout that can be read, or the layout names a code
/// section that does not fit into the address space.
#[derive(Clone, Copy, Debug, PartialEq, Eq, Structural)]
pub struct MalformedImageError;

/// Mathematical model of [`Section`].
pub struct SectionView {
    pub name: Option<Seq<char>>,
    pub address: u64,
    pub size: u64,
}

impl View for Section {
    type V = SectionView;

    open spec fn view(&self) -> SectionView {
        SectionView {
            name: match self.name {
                Some(n) => Some(n@),
                None => None,
            },
            address: self.address,
            size: self.size,
        }
    }
}

/// Mathematical model of [`ImageLayout`].
pub struct LayoutView {
    pub entry_point: u64,
    pub sections: Seq<SectionView>,
}

impl View for ImageLayout {
    type V = LayoutView;

    open spec fn view(&self) -> LayoutView {
        LayoutView { entry_point: self.entry_point, sections: sections_view(self.sections@) }
    }
}

/// The models of the sections of a table, in order.
pub open spec fn sections_view(sections: Seq<Section>) -> Seq<SectionView> {
    Seq::new(sections.len(), |i: int| sections[i]@)
}

/// True for a section that carries the standard name of the code section.
pub open spec fn is_code_section(section: SectionView) -> bool {
    section.name == Some(".text"@)
}

/// True when `index` is the position of the first code section of the table.
pub open spec fn is_first_code_section(sections: Seq<SectionView>, index: int) -> bool {
    &&& 0 <= index < sections.len()
    &&& is_code_section(sections[index])
    &&& forall|j: int| 0 <= j < index ==> !is_code_section(#[trigger] sections[j])
}

/// The code region of a table: from the address of the first code section
/// up to its end, `(0, 0)` where the table has no code section, and
/// `None` where the end of the first code section is no 64-bit address.
pub open spec fn bounds_of(sections: Seq<SectionView>) -> Option<(u64, u64)> {
    if exists|i: int| is_first_code_section(sections, i) {
        let i = choose|i: int| is_first_code_section(sections, i);
        if sections[i].address + sections[i].size <= u64::MAX {
            Some((sections[i].address, (sections[i].address + sections[i].size) as u64))
        } else {
            None
        }
    } else {
        Some((0u64, 0u64))
    }
}

/// The bytes of `code` from offset `address` to the end; none where
/// `address` lies behind the end.
pub open spec fn code_from(code: Seq<u8>, address: u64) -> Seq<u8> {
    if address <= code.len() {
        code.skip(address as int)
    } else {
        Seq::empty()
    }
}

/// Two positions that are both the first code section are the same position.
pub proof fn lemma_first_code_section_unique(sections: Seq<SectionView>, i: int, j: int)
    requires
        is_first_code_section(sections, i),
        is_first_code_section(sections, j),
    ensures
        i == j,
{
    if i < j {
        assert(!is_code_section(sections[i]));
    } else if j < i {
        assert(!is_code_section(sections[j]));
    }
}

/// Finds the code region of a section table.
pub fn code_bounds(sections: &Vec<Section>) -> (bounds: Result<(u64, u64), MalformedImageError>)
    ensures
        match bounds {
            Ok(b) => bounds_of(sections_view(sections@)) == Some(b),
            Err(_) => bounds_of(sections_view(sections@)) is None,
        },
{
    let wanted = String::from_str(".text");
    let ghost table = sections_view(sections@);
    let mut i: usize = 0;
    while i < sections.len()
        invariant
            i <= sections.len(),
            wanted@ == ".text"@,
            table == sections_view(sections@),
            forall|j: int| 0 <= j < i ==> !is_code_section(#[trigger] table[j]),
        decreases sections.len() - i,
    {
        let section = &sections[i];
        let named = match &section.name {
            Some(n) => *n == wanted,
            None => false,
        };
        assert(named == is_code_section(table[i as int]));
        if named {
            proof {
                assert(is_first_code_section(table, i as int));
                let k = choose|k: int| is_first_code_section(table, k);
                lemma_first_code_section_unique(table, i as int, k);
            }
            return match section.address.checked_add(section.size) {
                Some(end) => Ok((section.address, end)),
                None => Err(MalformedImageError),
            };
        }
        i += 1;
    }
    proof {
        assert forall|k: int| !is_first_code_section(table, k) by {
            if is_first_code_section(table, k) {
                assert(!is_code_section(table[k]));
            }
        }
    }
    Ok((0, 0))
}

/// An image: the raw bytes, the entry point and the code region.
pub struct Image {
    bytes: Vec<u8>,
    entry_point: u64,
    min_insn_addr: u64,
    max_insn_addr: u64,
}

/// Mathematical model of [`Image`].
pub struct ImageView {
    pub code: Seq<u8>,
    pub entry_point: u64,
    pub min_insn_addr: u64,
    pub max_insn_addr: u64,
}

impl View for Image {
    type V = ImageView;

    closed spec fn view(&self) -> ImageView {
        ImageView {
            code: self.bytes@,
            entry_point: self.entry_point,
            min_insn_addr: self.min_insn_addr,
            max_insn_addr: self.max_insn_addr,
        }
    }
}

impl Image {
    /// Builds the image of `bytes` from a layout that is given. Fails
    /// exactly when the code section of the layout has no end in the
    /// address space.
    pub fn from_layout(bytes: Vec<u8>, layout: &ImageLayout) -> (image: Result<Image, MalformedImageError>)
        ensures
            match image {
                Ok(img) => {
                    &&& img@.code == bytes@
                    &&& img@.entry_point == layout.entry_point
                    &&& bounds_of(layout@.sections) == Some((img@.min_insn_addr, img@.max_insn_addr))
                },
                Err(_) => bounds_of(layout@.sections) is None,
            },
    {
        match code_bounds(&layout.sections) {
            Ok((low, high)) => Ok(
                Image {
                    bytes,
                    entry_point: layout.entry_point,
                    min_insn_addr: low,
                    max_insn_addr: high,
                },
            ),
            Err(e) => Err(e),
        }
    }

    /// Builds the image of `bytes` from the layout that the bytes hold.
    /// Fails exactly when no layout can be read out of the bytes, or its
    /// code section has no end in the address space.
    pub fn load(bytes: Vec<u8>) -> (image: Result<Image, MalformedImageError>)
        ensures
            match image {
                Ok(img) => {
                    &&& layout_of(bytes@) matches Some(l)
                    &&& img@.code == bytes@
                    &&& img@.entry_point == l.entry_point
                    &&& bounds_of(l.sections) == Some((img@.min_insn_addr, img@.max_insn_addr))
                },
                Err(_) => layout_of(bytes@) is None || bounds_of(layout_of(bytes@)->Some_0.sections)
                    is None,
            },
    {
        match parse(bytes.as_slice()) {
            Some(layout) => Self::from_layout(bytes, &layout),
            None => Err(MalformedImageError),
        }
    }

    /// The code region: the lowest instruction address, and the address
    /// behind the highest.
    pub fn code_bounds(&self) -> (bounds: (u64, u64))
        ensures
            bounds == (self@.min_insn_addr, self@.max_insn_addr),
    {
        (self.min_insn_addr, self.max_insn_addr)
    }

    /// The address at which execution starts.
    pub fn entry_point(&self) -> (entry: u64)
        ensures
            entry == self@.entry_point,
    {
        self.entry_point
    }

    /// The raw bytes from `address` to the end of the buffer. Their
    /// addresses are 64-bit numbers: the last byte lies below `u64::MAX`.
    pub fn bytes_from(&self, address: u64) -> (code: &[u8])
        ensures
            code@ == code_from(self@.code, address),
            address + code@.len() <= u64::MAX,
    {
        let len = self.bytes.len();
        if address <= len as u64 {
            slice_subrange(self.bytes.as_slice(), address as usize, len)
        } else {
            slice_subrange(self.bytes.as_slice(), len, len)
        }
    }
}

} // verus!
