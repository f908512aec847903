//! A stub object whose symbols jump to fixed live addresses.

use vstd::prelude::*;
use crate::slices::copy_range;
use object::write::{Object, Symbol, SymbolSection};

verus! {

/// Length in bytes of one trampoline: five 32-bit instructions.
pub const TRAMPOLINE_LEN: u64 = 20;

/// Alignment of the stub's code section, in bytes.
pub const CODE_ALIGN: u64 = 4;

/// Bits `16 * k .. 16 * k + 16` of `addr`.
pub open spec fn chunk(addr: u64, k: nat) -> int {
    (addr as int / pow2_16(k)) % 0x10000
}

/// `2^(16 * k)` for the four 16-bit chunks of a 64-bit value.
pub open spec fn pow2_16(k: nat) -> int {
    if k == 0 {
        1
    } else if k == 1 {
        0x10000
    } else if k == 2 {
        0x100000000
    } else {
        0x1000000000000
    }
}

/// The four bytes of the 32-bit word `w`, least significant first.
pub open spec fn le32(w: int) -> Seq<u8> {
    seq![(w % 0x100) as u8, ((w / 0x100) % 0x100) as u8, ((w / 0x10000) % 0x100) as u8, ((w / 0x1000000) % 0x100) as u8]
}

/// The arm64 trampoline to `addr`: `movz x9, #c0`, `movk x9, #c1, lsl #16`,
/// `movk x9, #c2, lsl #32`, `movk x9, #c3, lsl #48`, `br x9`, where `ck` is
/// the `k`-th 16-bit chunk of `addr`. The immediate of a move sits at bit 5.
pub open spec fn trampoline(addr: u64) -> Seq<u8> {
    le32(0xD2800009 + chunk(addr, 0) * 32) + le32(0xF2A00009 + chunk(addr, 1) * 32) + le32(0xF2C00009 + chunk(
        addr,
        2,
    ) * 32) + le32(0xF2E00009 + chunk(addr, 3) * 32) + le32(0xD61F0120)
}

/// The name a symbol is exported under: without the leading `_` that the
/// object format adds back when it writes the symbol.
pub open spec fn export_name(n: Seq<u8>) -> Seq<u8> {
    if n.len() > 0 && n[0] == 0x5f {
        n.subrange(1, n.len() as int)
    } else {
        n
    }
}

/// The text of a stub for `imports`: their trampolines one after another.
pub open spec fn stub_code(imports: Seq<(Vec<u8>, u64)>) -> Seq<u8>
    decreases imports.len(),
{
    if imports.len() == 0 {
        Seq::empty()
    } else {
        stub_code(imports.drop_last()) + trampoline(imports.last().1)
    }
}

/// Appends the little-endian bytes of the 32-bit word `w` to `out`.
fn push_word(out: &mut Vec<u8>, w: u32)
    ensures
        final(out)@ == old(out)@ + le32(w as int),
{
    out.push((w % 0x100) as u8);
    out.push(((w / 0x100) % 0x100) as u8);
    out.push(((w / 0x10000) % 0x100) as u8);
    out.push(((w / 0x1000000) % 0x100) as u8);
    assert(final(out)@ =~= old(out)@ + le32(w as int));
}

/// Appends the trampoline to `addr` to `out`.
pub fn push_trampoline(out: &mut Vec<u8>, addr: u64)
    ensures
        final(out)@ == old(out)@ + trampoline(addr),
{
    let c0 = addr % 0x10000;
    let c1 = (addr / 0x10000) % 0x10000;
    let c2 = (addr / 0x100000000) % 0x10000;
    let c3 = (addr / 0x1000000000000) % 0x10000;
    let ghost start = out@;
    push_word(out, 0xD2800009 + (c0 as u32) * 32);
    push_word(out, 0xF2A00009 + (c1 as u32) * 32);
    push_word(out, 0xF2C00009 + (c2 as u32) * 32);
    push_word(out, 0xF2E00009 + (c3 as u32) * 32);
    push_word(out, 0xD61F0120);
    assert(out@ =~= start + trampoline(addr));
}

/// The name of `n` that a stub exports.
pub fn stub_symbol_name(n: &Vec<u8>) -> (r: Vec<u8>)
    ensures
        r@ == export_name(n@),
{
    if n.len() > 0 && n[0] == 0x5f {
        copy_range(n, 1, n.len())
    } else {
        let r = copy_range(n, 0, n.len());
        assert(n@.subrange(0, n.len() as int) =~= n@);
        r
    }
}

/// The layout of a stub for `imports`: its code, the trampolines one after
/// another, and for each import its exported name and the offset of its
/// trampoline in the code.
pub fn stub_layout(imports: &Vec<(Vec<u8>, u64)>) -> (r: (Vec<u8>, Vec<(Vec<u8>, u64)>))
    requires
        imports.len() * 20 <= u64::MAX,
    ensures
        r.0@ == stub_code(imports@),
        r.0.len() == imports.len() * 20,
        r.1.len() == imports.len(),
        forall|k: int|
            0 <= k < imports.len() ==> (#[trigger] r.1[k]).0@ == export_name(imports[k].0@) && r.1[k].1 == k * 20,
{
    let mut code: Vec<u8> = Vec::new();
    let mut symbols: Vec<(Vec<u8>, u64)> = Vec::new();
    let mut k: usize = 0;
    while k < imports.len()
        invariant
            imports.len() * 20 <= u64::MAX,
            k <= imports.len(),
            code@ == stub_code(imports@.subrange(0, k as int)),
            code.len() == k * 20,
            symbols.len() == k,
            forall|q: int|
                0 <= q < k ==> (#[trigger] symbols[q]).0@ == export_name(imports[q].0@) && symbols[q].1 == q * 20,
        decreases imports.len() - k,
    {
        let offset = (k as u64) * TRAMPOLINE_LEN;
        push_trampoline(&mut code, imports[k].1);
        let name = stub_symbol_name(&imports[k].0);
        symbols.push((name, offset));
        proof {
            let pre = imports@.subrange(0, k as int);
            let post = imports@.subrange(0, k + 1);
            assert(post.drop_last() =~= pre);
            assert(trampoline(imports[k as int].1).len() == 20);
        }
        k += 1;
    }
    assert(imports@.subrange(0, imports.len() as int) =~= imports@);
    (code, symbols)
}

/// Error of stub emission.
#[derive(Clone, Copy, Debug, PartialEq, Eq, Structural)]
pub enum StubError {
    /// The stub's code would not fit in a 64-bit offset.
    TooLarge,
    /// A symbol name holds a zero byte, which no symbol table can store.
    BadName,
    /// The object writer refused the object.
    Write,
}

/// The bytes that the object writer produces for a little-endian arm64
/// Mach-O object with one text section `section` of segment `segment`, holding `code`
/// aligned to `align`, and one dynamically visible text symbol per
/// `(name, offset, size)` of `symbols`; `None` when the writer refuses.
pub uninterp spec fn written_object(segment: Seq<u8>, section: Seq<u8>, code: Seq<u8>, align: u64, symbols: Seq<(Seq<u8>, u64, u64)>) -> Option<Seq<u8>>;

/// The values of a list of `(name, offset, size)` symbols.
pub open spec fn symbol_values(symbols: Seq<(Vec<u8>, u64, u64)>) -> Seq<(Seq<u8>, u64, u64)> {
    Seq::new(symbols.len(), |k: int| (symbols[k].0@, symbols[k].1, symbols[k].2))
}

/// Relies on `object::write::Object` (`new`, `add_section`,
/// `append_section_data`, `add_symbol`, `write`): a fresh section gets its
/// data at offset 0, so each symbol's value is its offset in `code`.
#[verifier::external_body]
fn write_stub_object(segment: &Vec<u8>, section: &Vec<u8>, code: &Vec<u8>, align: u64, symbols: &Vec<(Vec<u8>, u64, u64)>) -> (r: Option<Vec<u8>>)
    requires
        align == CODE_ALIGN,
        forall|k: int| 0 <= k < symbols.len() ==> !(#[trigger] symbols[k]).0@.contains(0u8),
    ensures
        r is Some <==> written_object(segment@, section@, code@, align, symbol_values(symbols@)) is Some,
        r matches Some(b) ==> Some(b@) == written_object(segment@, section@, code@, align, symbol_values(symbols@)),
{
    let mut obj = Object::new(object::BinaryFormat::MachO, object::Architecture::Aarch64, object::Endianness::Little);
    let sec = obj.add_section(segment.clone(), section.clone(), object::SectionKind::Text);
    obj.append_section_data(sec, code, align);
    for (name, value, size) in symbols {
        let (kind, scope, flags) = (object::SymbolKind::Text, object::SymbolScope::Dynamic, object::SymbolFlags::None);
        obj.add_symbol(Symbol { name: name.clone(), value: *value, size: *size, kind, scope, weak: false, section: SymbolSection::Section(sec), flags });
    }
    obj.write().ok()
}

/// Name of the stub's code section.
pub fn text_section_name() -> (r: Vec<u8>)
    ensures
        r@ == text_name(),
{
    vec![0x5f, 0x5f, 0x74, 0x65, 0x78, 0x74]
}

/// `__text`, the name of the stub's code section.
pub open spec fn text_name() -> Seq<u8> {
    seq![0x5fu8, 0x5f, 0x74, 0x65, 0x78, 0x74]
}

/// Name of the segment of the stub's code section.
pub fn text_segment_name() -> (r: Vec<u8>)
    ensures
        r@ == text_segment(),
{
    vec![0x5f, 0x5f, 0x54, 0x45, 0x58, 0x54]
}

/// `__TEXT`, the segment of the stub's code section.
pub open spec fn text_segment() -> Seq<u8> {
    seq![0x5fu8, 0x5f, 0x54, 0x45, 0x58, 0x54]
}

/// The symbols of a stub for `imports`: each import's exported name, at the
/// offset of its trampoline, one trampoline long.
pub open spec fn stub_symbols(imports: Seq<(Vec<u8>, u64)>) -> Seq<(Seq<u8>, u64, u64)> {
    Seq::new(imports.len(), |k: int| (export_name(imports[k].0@), (k * 20) as u64, TRAMPOLINE_LEN))
}

/// Some import's exported name holds a zero byte.
pub open spec fn has_bad_name(imports: Seq<(Vec<u8>, u64)>) -> bool {
    exists|k: int| 0 <= k < imports.len() && export_name(#[trigger] imports[k].0@).contains(0u8)
}

/// Whether `v` holds a zero byte.
pub fn has_zero_byte(v: &Vec<u8>) -> (r: bool)
    ensures
        r == v@.contains(0u8),
{
    let mut i: usize = 0;
    while i < v.len()
        invariant
            i <= v.len(),
            forall|k: int| 0 <= k < i ==> v@[k] != 0u8,
        decreases v.len() - i,
    {
        if v[i] == 0 {
            assert(v@[i as int] == 0u8);
            return true;
        }
        i += 1;
    }
    false
}

/// Whether some name of `v` holds a zero byte.
fn any_zero_name(v: &Vec<(Vec<u8>, u64)>) -> (r: bool)
    ensures
        r == exists|k: int| 0 <= k < v.len() && (#[trigger] v@[k]).0@.contains(0u8),
{
    let mut k: usize = 0;
    while k < v.len()
        invariant
            k <= v.len(),
            forall|q: int| 0 <= q < k ==> !(#[trigger] v@[q]).0@.contains(0u8),
        decreases v.len() - k,
    {
        if has_zero_byte(&v[k].0) {
            return true;
        }
        k += 1;
    }
    false
}

/// The `(name, offset, size)` entries of a stub's symbols, one trampoline
/// long each.
fn stub_entries(symbols: &Vec<(Vec<u8>, u64)>) -> (r: Vec<(Vec<u8>, u64, u64)>)
    ensures
        r.len() == symbols.len(),
        forall|q: int|
            0 <= q < symbols.len() ==> (#[trigger] r@[q]).0@ == symbols@[q].0@ && r@[q].1 == symbols@[q].1 && r@[q].2
                == TRAMPOLINE_LEN,
{
    let mut entries: Vec<(Vec<u8>, u64, u64)> = Vec::new();
    let mut k: usize = 0;
    while k < symbols.len()
        invariant
            k <= symbols.len(),
            entries.len() == k,
            forall|q: int|
                0 <= q < k ==> (#[trigger] entries@[q]).0@ == symbols@[q].0@ && entries@[q].1 == symbols@[q].1
                    && entries@[q].2 == TRAMPOLINE_LEN,
        decreases symbols.len() - k,
    {
        let name = copy_range(&symbols[k].0, 0, symbols[k].0.len());
        assert(symbols@[k as int].0@.subrange(0, symbols@[k as int].0.len() as int) =~= symbols@[k as int].0@);
        entries.push((name, symbols[k].1, TRAMPOLINE_LEN));
        k += 1;
    }
    entries
}

/// Builds a Mach-O arm64 object that exports, for each `(name, addr)` of
/// `imports`, a symbol named `name` without its leading `_`, whose code is
/// the trampoline to `addr`. The trampolines lie one after another in the
/// section `__TEXT,__text`, in the order of `imports`.
pub fn build_stub(imports: &Vec<(Vec<u8>, u64)>) -> (r: Result<Vec<u8>, StubError>)
    ensures
        imports.len() * 20 > u64::MAX ==> r == Err::<Vec<u8>, StubError>(StubError::TooLarge),
        imports.len() * 20 <= u64::MAX ==> (r == Err::<Vec<u8>, StubError>(StubError::BadName) <==> has_bad_name(imports@)),
        imports.len() * 20 <= u64::MAX && !has_bad_name(imports@) ==> (r is Ok <==> written_object(
            text_segment(),
            text_name(),
            stub_code(imports@),
            CODE_ALIGN,
            stub_symbols(imports@),
        ) is Some),
        r matches Ok(b) ==> Some(b@) == written_object(text_segment(), text_name(), stub_code(imports@), CODE_ALIGN, stub_symbols(imports@)),
        r matches Err(e) ==> e == StubError::TooLarge || e == StubError::BadName || e == StubError::Write,
{
    if imports.len() as u64 > u64::MAX / TRAMPOLINE_LEN {
        return Err(StubError::TooLarge);
    }
    let (code, symbols) = stub_layout(imports);
    if any_zero_name(&symbols) {
        proof {
            let k = choose|k: int| 0 <= k < symbols.len() && (#[trigger] symbols@[k]).0@.contains(0u8);
            assert(export_name(imports@[k].0@).contains(0u8));
        }
        return Err(StubError::BadName);
    }
    assert(!has_bad_name(imports@)) by {
        assert forall|q: int| 0 <= q < imports.len() implies !export_name(#[trigger] imports@[q].0@).contains(0u8) by {
            assert(symbols@[q].0@ == export_name(imports@[q].0@));
        }
    }
    let entries = stub_entries(&symbols);
    assert(symbol_values(entries@) =~= stub_symbols(imports@)) by {
        assert forall|q: int| 0 <= q < imports.len() implies symbol_values(entries@)[q] == stub_symbols(imports@)[q] by {
            assert(entries@[q].0@ == symbols@[q].0@);
        }
    }
    assert forall|q: int| 0 <= q < entries.len() implies !(#[trigger] entries@[q]).0@.contains(0u8) by {
        assert(entries@[q].0@ == symbols@[q].0@);
    }
    match write_stub_object(&text_segment_name(), &text_section_name(), &code, CODE_ALIGN, &entries) {
        Some(bytes) => Ok(bytes),
        None => Err(StubError::Write),
    }
}

} // verus!
