//! Reading an object file into the plain-value model.

use vstd::prelude::*;
use object::{Object, ObjectSection, ObjectSymbol};
use crate::model::{ObjectModule, RelocTarget, Relocation, Section, SectionKind, SymbolEntry};
use crate::slices::copy_range;

verus! {

#[verifier::external_type_specification]
#[verifier::external_body]
pub struct ExReadError(object::Error);

/// A section as the object file lists it, under the file's own index.
#[derive(Clone, Debug)]
pub struct RawSection {
    pub index: usize,
    pub name: Vec<u8>,
    pub kind: SectionKind,
    pub address: u64,
    pub align: u64,
    pub data: Vec<u8>,
}

/// A relocation target under the file's own indices.
#[derive(Clone, Copy, Debug, PartialEq, Eq, Structural)]
pub enum RawTarget {
    Symbol(usize),
    Section(usize),
    Absolute,
}

/// A relocation as the object file lists it.
#[derive(Clone, Copy, Debug, PartialEq, Eq, Structural)]
pub struct RawRelocation {
    pub offset: u64,
    pub target: RawTarget,
    pub size_bits: u8,
    pub addend: i64,
    pub pc_relative: bool,
}

/// A symbol as the object file lists it, under the file's own indices.
#[derive(Clone, Debug)]
pub struct RawSymbol {
    pub index: usize,
    pub name: Vec<u8>,
    pub address: u64,
    pub section: Option<usize>,
    pub defined: bool,
    pub global: bool,
}

/// The architecture an object file is built for, as far as this library
/// tells them apart.
#[derive(Clone, Copy, Debug, PartialEq, Eq, Structural)]
pub enum Arch {
    Aarch64,
    X86_64,
    Other,
}

/// What `object` reads as the architecture of the object file in `bytes`.
pub uninterp spec fn arch_of(bytes: Seq<u8>) -> Option<Arch>;

/// Whether `object` reads the object file in `bytes` as relocatable.
pub uninterp spec fn relocatable_of(bytes: Seq<u8>) -> Option<bool>;

/// The sections that `object` reads from the object file in `bytes`.
pub uninterp spec fn sections_of(bytes: Seq<u8>) -> Option<Seq<RawSection>>;

/// The relocation lists that `object` reads from the object file in `bytes`.
pub uninterp spec fn relocations_of(bytes: Seq<u8>) -> Option<Seq<Vec<RawRelocation>>>;

/// The symbols that `object` reads from the object file in `bytes`.
pub uninterp spec fn symbols_of(bytes: Seq<u8>) -> Option<Seq<RawSymbol>>;

/// The export names that `object` reads from the object file in `bytes`.
pub uninterp spec fn exports_of(bytes: Seq<u8>) -> Option<Seq<Vec<u8>>>;

/// The import names that `object` reads from the object file in `bytes`.
pub uninterp spec fn imports_of(bytes: Seq<u8>) -> Option<Seq<Vec<u8>>>;

/// Relies on `object::File::parse` and `object::Object::architecture`: the
/// architecture of the object file in `bytes`.
#[verifier::external_body]
fn file_architecture(bytes: &[u8]) -> (r: Result<Arch, object::Error>)
    ensures
        r is Ok <==> arch_of(bytes@) is Some,
        r matches Ok(a) ==> Some(a) == arch_of(bytes@),
{
    Ok(match object::File::parse(bytes)?.architecture() {
        object::Architecture::Aarch64 => Arch::Aarch64,
        object::Architecture::X86_64 => Arch::X86_64,
        _ => Arch::Other,
    })
}

/// Relies on `object::File::parse` and `object::Object::kind`: whether the
/// object file in `bytes` is relocatable.
#[verifier::external_body]
fn file_is_relocatable(bytes: &[u8]) -> (r: Result<bool, object::Error>)
    ensures
        r is Ok <==> relocatable_of(bytes@) is Some,
        r matches Ok(b) ==> Some(b) == relocatable_of(bytes@),
{
    Ok(match object::File::parse(bytes)?.kind() {
        object::ObjectKind::Relocatable => true,
        _ => false,
    })
}

/// Relies on `object::File::parse`, `object::Object::sections` and the
/// section accessors: the sections of the object file in `bytes`, in its
/// order, with index, name, address and data.
#[verifier::external_body]
fn file_sections(bytes: &[u8]) -> (r: Result<Vec<RawSection>, object::Error>)
    ensures
        r is Ok <==> sections_of(bytes@) is Some,
        r matches Ok(v) ==> Some(v@) == sections_of(bytes@),
{
    let mut out = Vec::new();
    for s in object::File::parse(bytes)?.sections() {
        let kind = match s.kind() {
            object::SectionKind::Text => SectionKind::Text,
            object::SectionKind::Data => SectionKind::Data,
            object::SectionKind::ReadOnlyData => SectionKind::ReadOnlyData,
            _ => SectionKind::Other,
        };
        let (index, name, address, align) = (s.index().0, s.name_bytes()?.to_vec(), s.address(), s.align());
        out.push(RawSection { index, name, kind, address, align, data: s.data()?.to_vec() });
    }
    Ok(out)
}

/// Relies on `object::File::parse` and `object::ObjectSection::relocations`:
/// for each section of the object file in `bytes`, in its order, its
/// relocations in the order the file lists them.
#[verifier::external_body]
fn file_relocations(bytes: &[u8]) -> (r: Result<Vec<Vec<RawRelocation>>, object::Error>)
    ensures
        r is Ok <==> relocations_of(bytes@) is Some,
        r matches Ok(v) ==> Some(v@) == relocations_of(bytes@),
{
    let mut out = Vec::new();
    for s in object::File::parse(bytes)?.sections() {
        let mut rels = Vec::new();
        for (offset, r) in s.relocations() {
            let target = match r.target() {
                object::RelocationTarget::Symbol(i) => RawTarget::Symbol(i.0),
                object::RelocationTarget::Section(i) => RawTarget::Section(i.0),
                _ => RawTarget::Absolute,
            };
            let pc_relative = matches!(r.kind(), object::RelocationKind::Relative);
            rels.push(RawRelocation { offset, target, size_bits: r.size(), addend: r.addend(), pc_relative });
        }
        out.push(rels);
    }
    Ok(out)
}

/// Relies on `object::File::parse`, `object::Object::symbols` and the symbol
/// accessors: the symbols of the object file in `bytes` with index, name,
/// address, section index and flags.
#[verifier::external_body]
fn file_symbols(bytes: &[u8]) -> (r: Result<Vec<RawSymbol>, object::Error>)
    ensures
        r is Ok <==> symbols_of(bytes@) is Some,
        r matches Ok(v) ==> Some(v@) == symbols_of(bytes@),
{
    let mut out = Vec::new();
    for s in object::File::parse(bytes)?.symbols() {
        out.push(RawSymbol {
            index: s.index().0,
            name: s.name_bytes()?.to_vec(),
            address: s.address(),
            section: s.section_index().map(|i| i.0),
            defined: s.is_definition(),
            global: s.is_global(),
        });
    }
    Ok(out)
}

/// Relies on `object::File::parse` and `object::Object::exports`: the names
/// that the object file in `bytes` exports.
#[verifier::external_body]
fn file_exports(bytes: &[u8]) -> (r: Result<Vec<Vec<u8>>, object::Error>)
    ensures
        r is Ok <==> exports_of(bytes@) is Some,
        r matches Ok(v) ==> Some(v@) == exports_of(bytes@),
{
    let mut out = Vec::new();
    for e in object::File::parse(bytes)?.exports()? {
        out.push(e.name().to_vec());
    }
    Ok(out)
}

/// Relies on `object::File::parse` and `object::Object::imports`: the names
/// that the object file in `bytes` imports.
#[verifier::external_body]
fn file_imports(bytes: &[u8]) -> (r: Result<Vec<Vec<u8>>, object::Error>)
    ensures
        r is Ok <==> imports_of(bytes@) is Some,
        r matches Ok(v) ==> Some(v@) == imports_of(bytes@),
{
    let mut out = Vec::new();
    for i in object::File::parse(bytes)?.imports()? {
        out.push(i.name().to_vec());
    }
    Ok(out)
}

/// Error of reading an object file.
#[derive(Clone, Copy, Debug, PartialEq, Eq, Structural)]
pub enum ParseError {
    /// The bytes are not an object file of a known format.
    NotObject,
    /// The object file is not relocatable.
    NotRelocatable,
    /// The object file is built for another architecture.
    WrongArchitecture,
    /// An index or an offset in the file's tables is out of range.
    Malformed,
}

/// `p` is the first position in `secs` of the section with file index `i`.
pub open spec fn section_at(secs: Seq<RawSection>, i: usize, p: int) -> bool {
    &&& 0 <= p < secs.len()
    &&& secs[p].index == i
    &&& forall|q: int| 0 <= q < p ==> #[trigger] secs[q].index != i
}

/// `p` is the first position in `syms` of the symbol with file index `i`.
pub open spec fn symbol_at(syms: Seq<RawSymbol>, i: usize, p: int) -> bool {
    &&& 0 <= p < syms.len()
    &&& syms[p].index == i
    &&& forall|q: int| 0 <= q < p ==> #[trigger] syms[q].index != i
}

/// Raw target `t` becomes target `u` once file indices become positions.
pub open spec fn maps_target(secs: Seq<RawSection>, syms: Seq<RawSymbol>, t: RawTarget, u: RelocTarget) -> bool {
    match (t, u) {
        (RawTarget::Symbol(i), RelocTarget::Symbol(p)) => symbol_at(syms, i, p as int),
        (RawTarget::Section(i), RelocTarget::Section(p)) => section_at(secs, i, p as int),
        (RawTarget::Absolute, RelocTarget::Absolute) => true,
        _ => false,
    }
}

/// Raw target `t` names a symbol or section that the tables hold.
pub open spec fn target_known(secs: Seq<RawSection>, syms: Seq<RawSymbol>, t: RawTarget) -> bool {
    match t {
        RawTarget::Symbol(i) => exists|p: int| 0 <= p < syms.len() && #[trigger] syms[p].index == i,
        RawTarget::Section(i) => exists|p: int| 0 <= p < secs.len() && #[trigger] secs[p].index == i,
        RawTarget::Absolute => true,
    }
}

/// The raw symbol `y` lies in a section that the tables hold, within its data.
pub open spec fn raw_symbol_ok(secs: Seq<RawSection>, y: RawSymbol) -> bool {
    match y.section {
        Some(i) => exists|p: int|
            #[trigger] section_at(secs, i, p) && secs[p].address <= y.address <= secs[p].address + secs[p].data.len(),
        None => true,
    }
}

/// The raw tables of an object file are consistent: one relocation list per
/// section, every offset inside its section's data, every index known, every
/// symbol inside its section.
pub open spec fn tables_ok(secs: Seq<RawSection>, rels: Seq<Vec<RawRelocation>>, syms: Seq<RawSymbol>) -> bool {
    &&& rels.len() == secs.len()
    &&& forall|s: int| 0 <= s < secs.len() ==> #[trigger] secs[s].address + secs[s].data.len() <= u64::MAX
    &&& forall|s: int, j: int|
        0 <= s < secs.len() && 0 <= j < rels[s].len() ==> (#[trigger] rels[s][j]).offset < secs[s].data.len()
            && target_known(secs, syms, rels[s][j].target)
    &&& forall|k: int| 0 <= k < syms.len() ==> raw_symbol_ok(secs, #[trigger] syms[k])
}

/// `m` holds the raw tables with file indices turned into positions.
pub open spec fn assembled_from(
    m: ObjectModule,
    secs: Seq<RawSection>,
    rels: Seq<Vec<RawRelocation>>,
    syms: Seq<RawSymbol>,
    exports: Seq<Vec<u8>>,
    imports: Seq<Vec<u8>>,
) -> bool {
    &&& m.sections.len() == secs.len()
    &&& forall|s: int|
        #![trigger m.sections[s]]
        0 <= s < secs.len() ==> {
            &&& m.sections[s].name@ == secs[s].name@
            &&& m.sections[s].address == secs[s].address
            &&& m.sections[s].kind == secs[s].kind
            &&& m.sections[s].align == secs[s].align
            &&& m.sections[s].data@ == secs[s].data@
            &&& m.sections[s].relocations.len() == rels[s].len()
            &&& forall|j: int|
                0 <= j < rels[s].len() ==> {
                    let r = #[trigger] m.sections[s].relocations[j];
                    &&& r.offset == rels[s][j].offset
                    &&& r.size_bits == rels[s][j].size_bits
                    &&& r.addend == rels[s][j].addend
                    &&& r.pc_relative == rels[s][j].pc_relative
                    &&& maps_target(secs, syms, rels[s][j].target, r.target)
                }
        }
    &&& m.symbols.len() == syms.len()
    &&& forall|k: int|
        #![trigger m.symbols[k]]
        0 <= k < syms.len() ==> {
            &&& m.symbols[k].name@ == syms[k].name@
            &&& m.symbols[k].address == syms[k].address
            &&& m.symbols[k].defined == syms[k].defined
            &&& m.symbols[k].global == syms[k].global
            &&& match (syms[k].section, m.symbols[k].section) {
                (Some(i), Some(p)) => section_at(secs, i, p as int),
                (None, None) => true,
                _ => false,
            }
        }
    &&& m.exports.len() == exports.len()
    &&& forall|k: int| 0 <= k < exports.len() ==> (#[trigger] m.exports[k])@ == exports[k]@
    &&& m.imports.len() == imports.len()
    &&& forall|k: int| 0 <= k < imports.len() ==> (#[trigger] m.imports[k])@ == imports[k]@
}

/// The first position of the section with file index `i`.
pub fn find_raw_section(secs: &Vec<RawSection>, i: usize) -> (r: Option<usize>)
    ensures
        match r {
            Some(p) => section_at(secs@, i, p as int),
            None => forall|p: int| 0 <= p < secs.len() ==> #[trigger] secs@[p].index != i,
        },
{
    let mut p: usize = 0;
    while p < secs.len()
        invariant
            p <= secs.len(),
            forall|q: int| 0 <= q < p ==> #[trigger] secs@[q].index != i,
        decreases secs.len() - p,
    {
        if secs[p].index == i {
            return Some(p);
        }
        p += 1;
    }
    None
}

/// The first position of the symbol with file index `i`.
pub fn find_raw_symbol(syms: &Vec<RawSymbol>, i: usize) -> (r: Option<usize>)
    ensures
        match r {
            Some(p) => symbol_at(syms@, i, p as int),
            None => forall|p: int| 0 <= p < syms.len() ==> #[trigger] syms@[p].index != i,
        },
{
    let mut p: usize = 0;
    while p < syms.len()
        invariant
            p <= syms.len(),
            forall|q: int| 0 <= q < p ==> #[trigger] syms@[q].index != i,
        decreases syms.len() - p,
    {
        if syms[p].index == i {
            return Some(p);
        }
        p += 1;
    }
    None
}

/// A file index has one first position.
proof fn lemma_section_at_unique(secs: Seq<RawSection>, i: usize, p: int, q: int)
    requires
        section_at(secs, i, p),
        section_at(secs, i, q),
    ensures
        p == q,
{
}

/// A copy of each byte string of `v`.
fn copy_names(v: &Vec<Vec<u8>>) -> (r: Vec<Vec<u8>>)
    ensures
        r.len() == v.len(),
        forall|k: int| 0 <= k < v.len() ==> (#[trigger] r[k])@ == v[k]@,
{
    let mut r: Vec<Vec<u8>> = Vec::new();
    let mut k: usize = 0;
    while k < v.len()
        invariant
            k <= v.len(),
            r.len() == k,
            forall|q: int| 0 <= q < k ==> (#[trigger] r[q])@ == v[q]@,
        decreases v.len() - k,
    {
        r.push(copy_range(&v[k], 0, v[k].len()));
        assert(v[k as int]@.subrange(0, v[k as int].len() as int) =~= v[k as int]@);
        k += 1;
    }
    r
}

/// The symbol table with section indices turned into positions.
fn convert_symbols(secs: &Vec<RawSection>, syms: &Vec<RawSymbol>) -> (r: Result<Vec<SymbolEntry>, ParseError>)
    ensures
        r is Ok <==> forall|k: int| 0 <= k < syms.len() ==> raw_symbol_ok(secs@, #[trigger] syms@[k]),
        r matches Err(e) ==> e == ParseError::Malformed,
        r matches Ok(v) ==> v.len() == syms.len() && forall|k: int|
            #![trigger v[k]]
            0 <= k < syms.len() ==> {
                &&& v[k].name@ == syms[k].name@
                &&& v[k].address == syms[k].address
                &&& v[k].defined == syms[k].defined
                &&& v[k].global == syms[k].global
                &&& match (syms[k].section, v[k].section) {
                    (Some(i), Some(p)) => section_at(secs@, i, p as int),
                    (None, None) => true,
                    _ => false,
                }
            },
{
    let mut v: Vec<SymbolEntry> = Vec::new();
    let mut k: usize = 0;
    while k < syms.len()
        invariant
            k <= syms.len(),
            v.len() == k,
            forall|q: int| 0 <= q < k ==> raw_symbol_ok(secs@, #[trigger] syms@[q]),
            forall|q: int|
                #![trigger v[q]]
                0 <= q < k ==> {
                    &&& v[q].name@ == syms[q].name@
                    &&& v[q].address == syms[q].address
                    &&& v[q].defined == syms[q].defined
                    &&& v[q].global == syms[q].global
                    &&& match (syms[q].section, v[q].section) {
                        (Some(i), Some(p)) => section_at(secs@, i, p as int),
                        (None, None) => true,
                        _ => false,
                    }
                },
        decreases syms.len() - k,
    {
        let y = &syms[k];
        let section = match y.section {
            Some(i) => match find_raw_section(secs, i) {
                Some(p) => {
                    let sec = &secs[p];
                    if y.address < sec.address || y.address - sec.address > sec.data.len() as u64 {
                        proof {
                            assert forall|p2: int| !(#[trigger] section_at(secs@, i, p2) && secs@[p2].address <= y.address <= secs@[p2].address + secs@[p2].data.len()) by {
                                if section_at(secs@, i, p2) {
                                    lemma_section_at_unique(secs@, i, p as int, p2);
                                }
                            }
                        }
                        return Err(ParseError::Malformed);
                    }
                    Some(p)
                },
                None => {
                    proof {
                        assert forall|p2: int| !#[trigger] section_at(secs@, i, p2) by {
                            if section_at(secs@, i, p2) {
                                assert(secs@[p2].index == i);
                            }
                        }
                    }
                    return Err(ParseError::Malformed);
                },
            },
            None => None,
        };
        proof {
            match section {
                Some(p) => {
                    assert(section_at(secs@, y.section.unwrap(), p as int));
                },
                None => {},
            }
        }
        v.push(SymbolEntry {
            name: copy_range(&y.name, 0, y.name.len()),
            address: y.address,
            section,
            defined: y.defined,
            global: y.global,
        });
        assert(y.name@.subrange(0, y.name.len() as int) =~= y.name@);
        k += 1;
    }
    Ok(v)
}

/// The relocations of one section with indices turned into positions.
fn convert_relocations(secs: &Vec<RawSection>, syms: &Vec<RawSymbol>, rels: &Vec<RawRelocation>, data_len: usize) -> (r: Result<Vec<Relocation>, ParseError>)
    ensures
        r is Ok <==> forall|j: int|
            0 <= j < rels.len() ==> (#[trigger] rels@[j]).offset < data_len && target_known(secs@, syms@, rels@[j].target),
        r matches Err(e) ==> e == ParseError::Malformed,
        r matches Ok(v) ==> v.len() == rels.len() && forall|j: int|
            0 <= j < rels.len() ==> {
                let x = #[trigger] v[j];
                &&& x.offset == rels[j].offset
                &&& x.size_bits == rels[j].size_bits
                &&& x.addend == rels[j].addend
                &&& x.pc_relative == rels[j].pc_relative
                &&& maps_target(secs@, syms@, rels[j].target, x.target)
            },
{
    let mut v: Vec<Relocation> = Vec::new();
    let mut j: usize = 0;
    while j < rels.len()
        invariant
            j <= rels.len(),
            v.len() == j,
            forall|q: int| 0 <= q < j ==> (#[trigger] rels@[q]).offset < data_len && target_known(secs@, syms@, rels@[q].target),
            forall|q: int|
                0 <= q < j ==> {
                    let x = #[trigger] v[q];
                    &&& x.offset == rels[q].offset
                    &&& x.size_bits == rels[q].size_bits
                    &&& x.addend == rels[q].addend
                    &&& x.pc_relative == rels[q].pc_relative
                    &&& maps_target(secs@, syms@, rels[q].target, x.target)
                },
        decreases rels.len() - j,
    {
        let rr = rels[j];
        if rr.offset >= data_len as u64 {
            return Err(ParseError::Malformed);
        }
        let target = match rr.target {
            RawTarget::Symbol(i) => match find_raw_symbol(syms, i) {
                Some(p) => RelocTarget::Symbol(p),
                None => {
                    return Err(ParseError::Malformed);
                },
            },
            RawTarget::Section(i) => match find_raw_section(secs, i) {
                Some(p) => RelocTarget::Section(p),
                None => {
                    return Err(ParseError::Malformed);
                },
            },
            RawTarget::Absolute => RelocTarget::Absolute,
        };
        v.push(Relocation { offset: rr.offset, target, size_bits: rr.size_bits, addend: rr.addend, pc_relative: rr.pc_relative });
        j += 1;
    }
    Ok(v)
}

/// Builds a module from the raw tables of an object file: file indices
/// become positions in the tables. Fails exactly when the tables are not
/// consistent.
pub fn assemble_module(
    secs: &Vec<RawSection>,
    rels: &Vec<Vec<RawRelocation>>,
    syms: &Vec<RawSymbol>,
    exports: &Vec<Vec<u8>>,
    imports: &Vec<Vec<u8>>,
) -> (r: Result<ObjectModule, ParseError>)
    ensures
        r is Ok <==> tables_ok(secs@, rels@, syms@),
        r matches Ok(m) ==> m.wf() && assembled_from(m, secs@, rels@, syms@, exports@, imports@),
        r matches Err(e) ==> e == ParseError::Malformed,
{
    if rels.len() != secs.len() {
        return Err(ParseError::Malformed);
    }
    let symbols = match convert_symbols(secs, syms) {
        Ok(v) => v,
        Err(e) => {
            return Err(e);
        },
    };
    let mut sections: Vec<Section> = Vec::new();
    let mut s: usize = 0;
    while s < secs.len()
        invariant
            s <= secs.len() == rels.len(),
            sections.len() == s,
            forall|q: int| 0 <= q < s ==> #[trigger] secs@[q].address + secs@[q].data.len() <= u64::MAX,
            forall|q: int, j: int|
                0 <= q < s && 0 <= j < rels@[q].len() ==> (#[trigger] rels@[q]@[j]).offset < secs@[q].data.len()
                    && target_known(secs@, syms@, rels@[q]@[j].target),
            forall|q: int|
                #![trigger sections[q]]
                0 <= q < s ==> {
                    &&& sections[q].name@ == secs[q].name@
                    &&& sections[q].address == secs[q].address
                    &&& sections[q].kind == secs[q].kind
                    &&& sections[q].align == secs[q].align
                    &&& sections[q].data@ == secs[q].data@
                    &&& sections[q].relocations.len() == rels[q].len()
                    &&& forall|j: int|
                        0 <= j < rels[q].len() ==> {
                            let x = #[trigger] sections[q].relocations[j];
                            &&& x.offset == rels[q][j].offset
                            &&& x.size_bits == rels[q][j].size_bits
                            &&& x.addend == rels[q][j].addend
                            &&& x.pc_relative == rels[q][j].pc_relative
                            &&& maps_target(secs@, syms@, rels[q][j].target, x.target)
                        }
                },
        decreases secs.len() - s,
    {
        let raw = &secs[s];
        if raw.address as u128 + raw.data.len() as u128 > u64::MAX as u128 {
            return Err(ParseError::Malformed);
        }
        let relocations = match convert_relocations(secs, syms, &rels[s], raw.data.len()) {
            Ok(v) => v,
            Err(e) => {
                proof {
                    let j = choose|j: int|
                        0 <= j < rels@[s as int].len() && !((#[trigger] rels@[s as int]@[j]).offset < secs@[s as int].data.len()
                            && target_known(secs@, syms@, rels@[s as int]@[j].target));
                }
                return Err(e);
            },
        };
        sections.push(Section {
            name: copy_range(&raw.name, 0, raw.name.len()),
            kind: raw.kind,
            address: raw.address,
            align: raw.align,
            data: copy_range(&raw.data, 0, raw.data.len()),
            relocations,
        });
        assert(raw.name@.subrange(0, raw.name.len() as int) =~= raw.name@);
        assert(raw.data@.subrange(0, raw.data.len() as int) =~= raw.data@);
        s += 1;
    }
    let exported = copy_names(exports);
    let imported = copy_names(imports);
    let m = ObjectModule { sections, symbols, exports: exported, imports: imported };
    proof {
        assert forall|q: int| 0 <= q < m.sections.len() implies (#[trigger] m.sections[q]).wf(
            m.symbols.len() as int,
            m.sections.len() as int,
        ) by {
            assert forall|j: int| 0 <= j < m.sections[q].relocations.len() implies crate::model::reloc_wf(
                #[trigger] m.sections[q].relocations[j],
                m.sections[q].data.len() as int,
                m.symbols.len() as int,
                m.sections.len() as int,
            ) by {
                assert(rels@[q]@[j].offset < secs@[q].data.len());
                assert(maps_target(secs@, syms@, rels[q][j].target, m.sections[q].relocations[j].target));
            }
        }
        assert forall|k: int| 0 <= k < m.symbols.len() implies #[trigger] m.symbol_wf(k) by {
            assert(raw_symbol_ok(secs@, syms@[k]));
            match syms@[k].section {
                Some(i) => {
                    let p2 = choose|p2: int|
                        #[trigger] section_at(secs@, i, p2) && secs@[p2].address <= syms@[k].address <= secs@[p2].address
                            + secs@[p2].data.len();
                    let p = m.symbols[k].section.unwrap() as int;
                    assert(section_at(secs@, i, p));
                    lemma_section_at_unique(secs@, i, p, p2);
                    assert(m.sections[p].data@ == secs[p].data@);
                },
                None => {},
            }
        }
    }
    Ok(m)
}

/// The tables that `object` reads from `bytes` are all there and consistent.
pub open spec fn tables_read_ok(b: Seq<u8>) -> bool {
    &&& sections_of(b) is Some
    &&& relocations_of(b) is Some
    &&& symbols_of(b) is Some
    &&& exports_of(b) is Some
    &&& imports_of(b) is Some
    &&& tables_ok(sections_of(b)->Some_0, relocations_of(b)->Some_0, symbols_of(b)->Some_0)
}

/// `load` succeeds on `b` for `arch`.
pub open spec fn load_ok(b: Seq<u8>, arch: Arch) -> bool {
    &&& arch_of(b) == Some(arch)
    &&& relocatable_of(b) == Some(true)
    &&& tables_read_ok(b)
}

/// The error that `load` gives on `b` for `arch` when it fails.
pub open spec fn load_error(b: Seq<u8>, arch: Arch) -> ParseError {
    if arch_of(b) is None {
        ParseError::NotObject
    } else if arch_of(b) != Some(arch) {
        ParseError::WrongArchitecture
    } else if relocatable_of(b) is None {
        ParseError::NotObject
    } else if relocatable_of(b) == Some(false) {
        ParseError::NotRelocatable
    } else {
        ParseError::Malformed
    }
}

/// `m` is the module assembled from the tables that `object` reads from `b`.
pub open spec fn loaded_from(m: ObjectModule, b: Seq<u8>) -> bool {
    assembled_from(
        m,
        sections_of(b)->Some_0,
        relocations_of(b)->Some_0,
        symbols_of(b)->Some_0,
        exports_of(b)->Some_0,
        imports_of(b)->Some_0,
    )
}

/// Reads the relocatable object file in `bytes`, built for `arch`.
///
/// Fails when the bytes are not an object file of a known format, when the
/// file is not relocatable or is built for another architecture, and when
/// its tables are not consistent: no partial module comes out.
pub fn load(bytes: &[u8], arch: Arch) -> (r: Result<ObjectModule, ParseError>)
    ensures
        r is Ok <==> load_ok(bytes@, arch),
        r matches Ok(m) ==> m.wf() && loaded_from(m, bytes@),
        r matches Err(e) ==> e == load_error(bytes@, arch),
{
    let found: Arch = match file_architecture(bytes) {
        Ok(a) => a,
        Err(_) => {
            return Err(ParseError::NotObject);
        },
    };
    if found != arch {
        assert(arch_of(bytes@) != Some(arch));
        return Err(ParseError::WrongArchitecture);
    }
    match file_is_relocatable(bytes) {
        Ok(true) => {},
        Ok(false) => {
            return Err(ParseError::NotRelocatable);
        },
        Err(_) => {
            return Err(ParseError::NotObject);
        },
    }
    let secs = match file_sections(bytes) {
        Ok(v) => v,
        Err(_) => {
            return Err(ParseError::Malformed);
        },
    };
    let rels = match file_relocations(bytes) {
        Ok(v) => v,
        Err(_) => {
            return Err(ParseError::Malformed);
        },
    };
    let syms = match file_symbols(bytes) {
        Ok(v) => v,
        Err(_) => {
            return Err(ParseError::Malformed);
        },
    };
    let exports = match file_exports(bytes) {
        Ok(v) => v,
        Err(_) => {
            return Err(ParseError::Malformed);
        },
    };
    let imports = match file_imports(bytes) {
        Ok(v) => v,
        Err(_) => {
            return Err(ParseError::Malformed);
        },
    };
    assemble_module(&secs, &rels, &syms, &exports, &imports)
}

/// The symbol table of the object file or executable in `bytes`, under the
/// file's own indices.
pub fn host_symbols(bytes: &[u8]) -> (r: Result<Vec<RawSymbol>, ParseError>)
    ensures
        r is Ok <==> symbols_of(bytes@) is Some,
        r matches Ok(v) ==> Some(v@) == symbols_of(bytes@),
        r matches Err(e) ==> e == ParseError::NotObject,
{
    match file_symbols(bytes) {
        Ok(v) => Ok(v),
        Err(_) => Err(ParseError::NotObject),
    }
}

/// `name` has the extension `o`: it ends in `.o` after a non-empty stem.
pub open spec fn is_object_file_name(name: Seq<u8>) -> bool {
    name.len() >= 3 && name[name.len() - 2] == 0x2e && name[name.len() - 1] == 0x6f
}

/// Whether `name` has the extension `o`.
pub fn has_object_extension(name: &Vec<u8>) -> (r: bool)
    ensures
        r == is_object_file_name(name@),
{
    let n = name.len();
    n >= 3 && name[n - 2] == 0x2e && name[n - 1] == 0x6f
}

/// One file of a build directory: its name and its bytes.
#[derive(Clone, Debug)]
pub struct BuildFile {
    pub file_name: Vec<u8>,
    pub bytes: Vec<u8>,
}

/// The object files of one build that could be read, and the names of
/// those that could not.
pub struct LoadedBuild {
    pub modules: Vec<crate::snapshot::NamedModule>,
    pub failed: Vec<Vec<u8>>,
    /// For each module, the position of its file in the input.
    pub module_files: Ghost<Seq<int>>,
    /// For each failure, the position of its file in the input.
    pub failed_files: Ghost<Seq<int>>,
}

/// `r` is what `load_build` gives for the first `n` of `files`: each `.o`
/// file among them that loads is a module, loaded from its bytes, and each
/// other `.o` file is a failure; other files appear in neither list.
pub open spec fn build_loaded(files: Seq<BuildFile>, arch: Arch, n: int, r: LoadedBuild) -> bool {
    let src = r.module_files@;
    let fsrc = r.failed_files@;
    &&& src.len() == r.modules.len()
    &&& fsrc.len() == r.failed.len()
    &&& forall|q: int|
        0 <= q < r.modules.len() ==> {
            let k = #[trigger] src[q];
            &&& 0 <= k < n
            &&& r.modules[q].file_name@ == files[k].file_name@
            &&& is_object_file_name(files[k].file_name@)
            &&& load_ok(files[k].bytes@, arch)
            &&& r.modules[q].module.wf()
            &&& loaded_from(r.modules[q].module, files[k].bytes@)
        }
    &&& forall|q: int|
        0 <= q < r.failed.len() ==> {
            let k = #[trigger] fsrc[q];
            &&& 0 <= k < n
            &&& r.failed[q]@ == files[k].file_name@
            &&& is_object_file_name(files[k].file_name@)
            &&& !load_ok(files[k].bytes@, arch)
        }
    &&& forall|k: int|
        0 <= k < n && #[trigger] is_object_file_name(files[k].file_name@) ==> if load_ok(files[k].bytes@, arch) {
            exists|q: int| 0 <= q < src.len() && #[trigger] src[q] == k
        } else {
            exists|q: int| 0 <= q < fsrc.len() && #[trigger] fsrc[q] == k
        }
}

/// Reads the object files of one build, given as named files. Files whose
/// name does not end in `.o` are skipped; a file that fails to read is
/// skipped too, and its name listed, so that the rest can go on.
pub fn load_build(files: &Vec<BuildFile>, arch: Arch) -> (r: LoadedBuild)
    ensures
        build_loaded(files@, arch, files.len() as int, r),
        crate::snapshot::all_wf(r.modules@),
{
    let mut r = LoadedBuild {
        modules: Vec::new(),
        failed: Vec::new(),
        module_files: Ghost(Seq::empty()),
        failed_files: Ghost(Seq::empty()),
    };
    let mut k: usize = 0;
    while k < files.len()
        invariant
            k <= files.len(),
            build_loaded(files@, arch, k as int, r),
        decreases files.len() - k,
    {
        let f = &files[k];
        let ghost prev_src = r.module_files@;
        let ghost prev_fsrc = r.failed_files@;
        let ghost prev_m = r.modules@;
        let ghost prev_f = r.failed@;
        if has_object_extension(&f.file_name) {
            let name = copy_range(&f.file_name, 0, f.file_name.len());
            assert(f.file_name@.subrange(0, f.file_name.len() as int) =~= f.file_name@);
            match load(f.bytes.as_slice(), arch) {
                Ok(module) => {
                    r.modules.push(crate::snapshot::NamedModule { file_name: name, module });
                    r.module_files = Ghost(prev_src.push(k as int));
                    proof {
                        assert forall|q: int| 0 <= q < r.modules.len() implies {
                            let j = #[trigger] r.module_files@[q];
                            &&& 0 <= j < k + 1
                            &&& r.modules[q].file_name@ == files@[j].file_name@
                            &&& is_object_file_name(files@[j].file_name@)
                            &&& load_ok(files@[j].bytes@, arch)
                            &&& r.modules[q].module.wf()
                            &&& loaded_from(r.modules[q].module, files@[j].bytes@)
                        } by {
                            if q < prev_m.len() {
                                assert(r.modules@[q] == prev_m[q]);
                                assert(r.module_files@[q] == prev_src[q]);
                            }
                        }
                        assert(r.module_files@[prev_src.len() as int] == k);
                    }
                },
                Err(_) => {
                    r.failed.push(name);
                    r.failed_files = Ghost(prev_fsrc.push(k as int));
                    proof {
                        assert forall|q: int| 0 <= q < r.failed.len() implies {
                            let j = #[trigger] r.failed_files@[q];
                            &&& 0 <= j < k + 1
                            &&& r.failed[q]@ == files@[j].file_name@
                            &&& is_object_file_name(files@[j].file_name@)
                            &&& !load_ok(files@[j].bytes@, arch)
                        } by {
                            if q < prev_f.len() {
                                assert(r.failed@[q] == prev_f[q]);
                                assert(r.failed_files@[q] == prev_fsrc[q]);
                            }
                        }
                        assert(r.failed_files@[prev_fsrc.len() as int] == k);
                    }
                },
            }
        }
        proof {
            assert forall|j: int|
                0 <= j < k + 1 && #[trigger] is_object_file_name(files@[j].file_name@) implies if load_ok(files@[j].bytes@, arch) {
                exists|q: int| 0 <= q < r.module_files@.len() && #[trigger] r.module_files@[q] == j
            } else {
                exists|q: int| 0 <= q < r.failed_files@.len() && #[trigger] r.failed_files@[q] == j
            } by {
                if j < k {
                    if load_ok(files@[j].bytes@, arch) {
                        let q = choose|q: int| 0 <= q < prev_src.len() && #[trigger] prev_src[q] == j;
                        assert(r.module_files@[q] == prev_src[q]);
                    } else {
                        let q = choose|q: int| 0 <= q < prev_fsrc.len() && #[trigger] prev_fsrc[q] == j;
                        assert(r.failed_files@[q] == prev_fsrc[q]);
                    }
                }
            }
        }
        k += 1;
    }
    proof {
        assert forall|q: int| 0 <= q < r.modules.len() implies (#[trigger] r.modules@[q]).module.wf() by {
            assert(build_loaded(files@, arch, files.len() as int, r));
            let j = r.module_files@[q];
            assert(r.modules[q].module.wf());
        }
    }
    r
}

} // verus!
