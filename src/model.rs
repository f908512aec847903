//! Plain-value model of a relocatable object file.

use vstd::prelude::*;

verus! {

/// Where a relocation points.
#[derive(Clone, Copy, Debug, PartialEq, Eq, Structural)]
pub enum RelocTarget {
    /// A symbol, by its position in the module's symbol table.
    Symbol(usize),
    /// A section, by its position in the module's section table.
    Section(usize),
    /// An absolute address, with neither symbol nor section behind it.
    Absolute,
}

/// One relocation of a section.
#[derive(Clone, Copy, Debug, PartialEq, Eq, Structural)]
pub struct Relocation {
    /// Byte offset of the patched field within the section's data.
    pub offset: u64,
    pub target: RelocTarget,
    /// Width of the patched field in bits.
    pub size_bits: u8,
    pub addend: i64,
    /// The patched value is relative to the address of the field.
    pub pc_relative: bool,
}

impl Relocation {
    /// Width of the patched field in bytes.
    pub open spec fn width(self) -> int {
        self.size_bits as int / 8
    }
}

/// One entry of a module's symbol table.
#[derive(Clone, Debug)]
pub struct SymbolEntry {
    pub name: Vec<u8>,
    pub address: u64,
    /// Position of the defining section in the module's section table.
    pub section: Option<usize>,
    pub defined: bool,
    pub global: bool,
}

/// What a section holds, as far as the library tells kinds apart.
#[derive(Clone, Copy, Debug, PartialEq, Eq, Structural)]
pub enum SectionKind {
    Text,
    Data,
    ReadOnlyData,
    Other,
}

/// One section of a module, with its relocations in the order of the file.
#[derive(Clone, Debug)]
pub struct Section {
    pub name: Vec<u8>,
    pub kind: SectionKind,
    pub address: u64,
    /// Alignment of the section in bytes.
    pub align: u64,
    pub data: Vec<u8>,
    pub relocations: Vec<Relocation>,
}

/// One parsed object file.
#[derive(Clone, Debug)]
pub struct ObjectModule {
    pub sections: Vec<Section>,
    pub symbols: Vec<SymbolEntry>,
    /// Names that the file makes visible to other files.
    pub exports: Vec<Vec<u8>>,
    /// Names that the file references but does not define.
    pub imports: Vec<Vec<u8>>,
}

/// A relocation is well formed in a section of `data_len` bytes when its field
/// starts inside the data and its target is in range.
pub open spec fn reloc_wf(r: Relocation, data_len: int, n_symbols: int, n_sections: int) -> bool {
    &&& r.offset < data_len
    &&& match r.target {
        RelocTarget::Symbol(i) => i < n_symbols,
        RelocTarget::Section(s) => s < n_sections,
        RelocTarget::Absolute => true,
    }
}

impl Section {
    pub open spec fn wf(&self, n_symbols: int, n_sections: int) -> bool {
        &&& self.address + self.data.len() <= u64::MAX
        &&& forall|j: int|
            0 <= j < self.relocations.len() ==> reloc_wf(
                #[trigger] self.relocations[j],
                self.data.len() as int,
                n_symbols,
                n_sections,
            )
    }
}

impl ObjectModule {
    /// A symbol's section is in range and its address lies within that
    /// section's data (its end included).
    pub open spec fn symbol_wf(&self, i: int) -> bool {
        match self.symbols[i].section {
            Some(s) => {
                &&& s < self.sections.len()
                &&& self.sections[s as int].address <= self.symbols[i].address
                &&& self.symbols[i].address <= self.sections[s as int].address
                    + self.sections[s as int].data.len()
            },
            None => true,
        }
    }

    /// Every index in the module is in range: the invariant of a loaded module.
    pub open spec fn wf(&self) -> bool {
        &&& forall|s: int|
            0 <= s < self.sections.len() ==> (#[trigger] self.sections[s]).wf(
                self.symbols.len() as int,
                self.sections.len() as int,
            )
        &&& forall|i: int| 0 <= i < self.symbols.len() ==> #[trigger] self.symbol_wf(i)
    }

    /// Symbol `i` is defined in section `s`.
    pub open spec fn in_section(&self, s: int, i: int) -> bool {
        0 <= i < self.symbols.len() && self.symbols[i].section == Some(s as usize)
    }

    /// Offset of symbol `i` within section `s`.
    pub open spec fn sym_offset(&self, s: int, i: int) -> int {
        self.symbols[i].address - self.sections[s].address
    }

    /// The order in which a section's symbols are laid out: by address, and by
    /// table position between symbols at one address.
    pub open spec fn sym_before(&self, i: int, j: int) -> bool {
        self.symbols[i].address < self.symbols[j].address || (self.symbols[i].address
            == self.symbols[j].address && i < j)
    }

    /// Symbol `i` of section `s` claims offset `o`: it starts at or before `o`,
    /// and every other symbol of the section that does so comes before it.
    pub open spec fn claims(&self, s: int, i: int, o: int) -> bool {
        &&& self.in_section(s, i)
        &&& self.sym_offset(s, i) <= o
        &&& forall|j: int|
            #![trigger self.in_section(s, j)]
            self.in_section(s, j) && j != i && self.sym_offset(s, j) <= o ==> self.sym_before(j, i)
    }
}

} // verus!
