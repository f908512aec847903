//! Cutting a section into per-symbol slices.

use vstd::prelude::*;
use crate::model::{reloc_wf, ObjectModule, Relocation};

verus! {

/// One symbol's bytes within a section, with the relocations that fall in them.
#[derive(Clone, Debug)]
pub struct SymbolSlice {
    /// Position of the symbol in the module's symbol table.
    pub symbol: usize,
    pub name: Vec<u8>,
    pub global: bool,
    /// Offset of the slice within the section's data.
    pub offset: u64,
    pub data: Vec<u8>,
    /// The section's relocations whose offset falls in the slice, in section order.
    pub relocations: Vec<Relocation>,
}

/// Error of slice extraction.
#[derive(Clone, Copy, Debug, PartialEq, Eq, Structural)]
pub enum ExtractError {
    /// A relocation lies before the section's first symbol, so no slice claims it.
    UnclaimedRelocation,
}

/// The relocations of `rels` whose offset falls in `[start, end)`.
pub open spec fn relocs_in(rels: Seq<Relocation>, start: int, end: int) -> Seq<Relocation> {
    rels.filter(|r: Relocation| start <= r.offset && r.offset < end)
}

/// Some symbol of section `s` starts at or before offset `o`.
pub open spec fn offset_claimed(m: ObjectModule, s: int, o: int) -> bool {
    exists|i: int| #[trigger] m.in_section(s, i) && m.sym_offset(s, i) <= o
}

/// Section `s` has a relocation that no symbol of the section claims.
pub open spec fn has_unclaimed(m: ObjectModule, s: int) -> bool {
    exists|j: int|
        0 <= j < m.sections[s].relocations.len() && !offset_claimed(
            m,
            s,
            #[trigger] m.sections[s].relocations[j].offset as int,
        )
}

/// Section `s` has data and at least one symbol.
pub open spec fn has_content(m: ObjectModule, s: int) -> bool {
    m.sections[s].data.len() > 0 && exists|i: int| #[trigger] m.in_section(s, i)
}

/// Where slice `k` of `v` ends: at the next slice's start, or at the end of
/// the section's data for the last one.
pub open spec fn slice_end(v: Seq<SymbolSlice>, k: int, data_len: int) -> int {
    if k + 1 < v.len() {
        v[k + 1].offset as int
    } else {
        data_len
    }
}

/// `v` is the slicing of section `s` of `m`: one slice per symbol of the
/// section, in layout order, each from its symbol's offset to the next one.
#[verifier::opaque]
pub open spec fn is_slicing(m: ObjectModule, s: int, v: Seq<SymbolSlice>) -> bool {
    let sec = m.sections[s];
    &&& forall|k: int| 0 <= k < v.len() ==> m.in_section(s, #[trigger] v[k].symbol as int)
    &&& forall|k1: int, k2: int|
        0 <= k1 < k2 < v.len() ==> m.sym_before(v[k1].symbol as int, v[k2].symbol as int)
    &&& forall|i: int| m.in_section(s, i) ==> exists|k: int| 0 <= k < v.len() && #[trigger] v[k].symbol == i
    &&& forall|k: int|
        #![trigger v[k]]
        0 <= k < v.len() ==> {
            let sym = m.symbols[v[k].symbol as int];
            &&& v[k].offset == m.sym_offset(s, v[k].symbol as int)
            &&& v[k].name@ == sym.name@
            &&& v[k].global == sym.global
            &&& v[k].data@ == sec.data@.subrange(v[k].offset as int, slice_end(v, k, sec.data.len() as int))
            &&& v[k].relocations@ == relocs_in(
                sec.relocations@,
                v[k].offset as int,
                slice_end(v, k, sec.data.len() as int),
            )
        }
}

/// `v` is what slicing section `s` of `m` gives: its slicing when the section
/// has data and symbols, and nothing otherwise.
pub open spec fn slices_of(m: ObjectModule, s: int, v: Seq<SymbolSlice>) -> bool {
    if has_content(m, s) {
        is_slicing(m, s, v)
    } else {
        v.len() == 0
    }
}

/// A copy of `data[start..end]`.
pub fn copy_range(data: &Vec<u8>, start: usize, end: usize) -> (r: Vec<u8>)
    requires
        start <= end <= data.len(),
    ensures
        r@ == data@.subrange(start as int, end as int),
{
    let mut r: Vec<u8> = Vec::new();
    let mut i: usize = start;
    while i < end
        invariant
            start <= i <= end <= data.len(),
            r@ == data@.subrange(start as int, i as int),
        decreases end - i,
    {
        r.push(data[i]);
        i += 1;
    }
    r
}

/// The symbols defined in section `s`, in layout order.
pub fn sorted_section_symbols(m: &ObjectModule, s: usize) -> (r: Vec<usize>)
    requires
        m.wf(),
        s < m.sections.len(),
    ensures
        forall|k: int| 0 <= k < r.len() ==> m.in_section(s as int, #[trigger] r[k] as int),
        forall|k1: int, k2: int| 0 <= k1 < k2 < r.len() ==> m.sym_before(r[k1] as int, r[k2] as int),
        forall|i: int| m.in_section(s as int, i) ==> exists|k: int| 0 <= k < r.len() && #[trigger] r[k] == i,
{
    let mut r: Vec<usize> = Vec::new();
    let mut i: usize = 0;
    while i < m.symbols.len()
        invariant
            i <= m.symbols.len(),
            forall|k: int| 0 <= k < r.len() ==> m.in_section(s as int, #[trigger] r[k] as int) && r[k] < i,
            forall|k1: int, k2: int| 0 <= k1 < k2 < r.len() ==> m.sym_before(r[k1] as int, r[k2] as int),
            forall|j: int| 0 <= j < i && m.in_section(s as int, j) ==> exists|k: int| 0 <= k < r.len() && #[trigger] r[k] == j,
        decreases m.symbols.len() - i,
    {
        let here = match m.symbols[i].section {
            Some(t) => t == s,
            None => false,
        };
        if here {
            let addr = m.symbols[i].address;
            let mut p: usize = 0;
            while p < r.len() && m.symbols[r[p]].address <= addr
                invariant
                    p <= r.len(),
                    forall|k: int| 0 <= k < r.len() ==> m.in_section(s as int, #[trigger] r[k] as int) && r[k] < i,
                    forall|k: int| 0 <= k < p ==> m.sym_before(#[trigger] r[k] as int, i as int),
                    addr == m.symbols[i as int].address,
                decreases r.len() - p,
            {
                p += 1;
            }
            assert(forall|k: int| p <= k < r.len() ==> m.sym_before(i as int, #[trigger] r[k] as int)) by {
                if p < r.len() {
                    assert forall|k: int| p <= k < r.len() implies m.sym_before(i as int, #[trigger] r[k] as int) by {
                        if k > p {
                            assert(m.sym_before(r[p as int] as int, r[k] as int));
                        }
                    }
                }
            }
            let ghost old_r = r@;
            r.insert(p, i);
            assert(forall|k: int| 0 <= k < p ==> r[k] == old_r[k]);
            assert(forall|k: int| p < k < r.len() ==> r[k] == old_r[k - 1]);
            assert forall|j: int| 0 <= j <= i && m.in_section(s as int, j) implies exists|k: int|
                0 <= k < r.len() && #[trigger] r[k] == j by {
                if j == i {
                    assert(r[p as int] == j);
                } else {
                    let k0 = choose|k: int| 0 <= k < old_r.len() && old_r[k] == j;
                    if k0 < p {
                        assert(r[k0] == j);
                    } else {
                        assert(r[k0 + 1] == j);
                    }
                }
            }
        }
        i += 1;
    }
    r
}

/// The relocations of `rels` whose offset falls in `[start, end)`, in order.
pub fn collect_relocs_in(rels: &Vec<Relocation>, start: u64, end: u64) -> (r: Vec<Relocation>)
    ensures
        r@ == relocs_in(rels@, start as int, end as int),
{
    let mut r: Vec<Relocation> = Vec::new();
    let mut j: usize = 0;
    while j < rels.len()
        invariant
            j <= rels.len(),
            r@ == relocs_in(rels@.subrange(0, j as int), start as int, end as int),
        decreases rels.len() - j,
    {
        let rel = rels[j];
        proof {
            let pre = rels@.subrange(0, j as int + 1);
            assert(pre.drop_last() =~= rels@.subrange(0, j as int));
            reveal(Seq::filter);
        }
        if start <= rel.offset && rel.offset < end {
            r.push(rel);
        }
        j += 1;
    }
    assert(rels@.subrange(0, rels.len() as int) =~= rels@);
    r
}

/// The slices of section `s` for the symbols of `order`, its symbols in layout order.
fn build_slices(m: &ObjectModule, s: usize, order: &Vec<usize>) -> (v: Vec<SymbolSlice>)
    requires
        m.wf(),
        s < m.sections.len(),
        forall|q: int| 0 <= q < order.len() ==> m.in_section(s as int, #[trigger] order[q] as int),
        forall|k1: int, k2: int| 0 <= k1 < k2 < order.len() ==> m.sym_before(order[k1] as int, order[k2] as int),
    ensures
        v.len() == order.len(),
        forall|q: int| 0 <= q < v.len() ==> (#[trigger] v[q]).symbol == order[q],
        forall|q: int|
            #![trigger v[q]]
            0 <= q < v.len() ==> {
                let sec = m.sections[s as int];
                let sym = m.symbols[v[q].symbol as int];
                let end = if q + 1 < order.len() {
                    m.sym_offset(s as int, order[q + 1] as int)
                } else {
                    sec.data.len() as int
                };
                &&& v[q].offset == m.sym_offset(s as int, v[q].symbol as int)
                &&& v[q].name@ == sym.name@
                &&& v[q].global == sym.global
                &&& v[q].offset <= end <= sec.data.len()
                &&& v[q].data@ == sec.data@.subrange(v[q].offset as int, end)
                &&& v[q].relocations@ == relocs_in(sec.relocations@, v[q].offset as int, end)
            },
{
    let sec = &m.sections[s];
    let mut v: Vec<SymbolSlice> = Vec::new();
    let mut k: usize = 0;
    while k < order.len()
        invariant
            m.wf(),
            s < m.sections.len(),
            sec == m.sections[s as int],
            k <= order.len(),
            v.len() == k,
            forall|q: int| 0 <= q < order.len() ==> m.in_section(s as int, #[trigger] order[q] as int),
            forall|k1: int, k2: int| 0 <= k1 < k2 < order.len() ==> m.sym_before(order[k1] as int, order[k2] as int),
            forall|q: int| 0 <= q < k ==> (#[trigger] v[q]).symbol == order[q],
            forall|q: int|
                #![trigger v[q]]
                0 <= q < k ==> {
                    let sym = m.symbols[v[q].symbol as int];
                    let end = if q + 1 < order.len() {
                        m.sym_offset(s as int, order[q + 1] as int)
                    } else {
                        sec.data.len() as int
                    };
                    &&& v[q].offset == m.sym_offset(s as int, v[q].symbol as int)
                    &&& v[q].name@ == sym.name@
                    &&& v[q].global == sym.global
                    &&& v[q].offset <= end <= sec.data.len()
                    &&& v[q].data@ == sec.data@.subrange(v[q].offset as int, end)
                    &&& v[q].relocations@ == relocs_in(sec.relocations@, v[q].offset as int, end)
                },
        decreases order.len() - k,
    {
        let i = order[k];
        assert(m.in_section(s as int, i as int));
        assert(m.symbol_wf(i as int));
        let start = m.symbols[i].address - sec.address;
        let end = if k + 1 < order.len() {
            assert(m.in_section(s as int, order[k + 1] as int));
            assert(m.symbol_wf(order[k + 1] as int));
            assert(m.sym_before(order[k as int] as int, order[k + 1] as int));
            m.symbols[order[k + 1]].address - sec.address
        } else {
            sec.data.len() as u64
        };
        let data = copy_range(&sec.data, start as usize, end as usize);
        let relocations = collect_relocs_in(&sec.relocations, start, end);
        let slice = SymbolSlice {
            symbol: i,
            name: copy_range(&m.symbols[i].name, 0, m.symbols[i].name.len()),
            global: m.symbols[i].global,
            offset: start,
            data,
            relocations,
        };
        assert(m.symbols[i as int].name@.subrange(0, m.symbols[i as int].name.len() as int) =~= m.symbols[i as int].name@);
        v.push(slice);
        k += 1;
    }
    v
}

/// Cuts section `s` of `m` into one slice per symbol of the section.
///
/// A section without data or without symbols gives no slices. Otherwise every
/// relocation of the section must fall in some symbol's slice; one that lies
/// before the first symbol is an error.
pub fn extract(m: &ObjectModule, s: usize) -> (r: Result<Vec<SymbolSlice>, ExtractError>)
    requires
        m.wf(),
        s < m.sections.len(),
    ensures
        r is Err <==> has_content(*m, s as int) && has_unclaimed(*m, s as int),
        r matches Ok(v) ==> slices_of(*m, s as int, v@),
{
    let sec = &m.sections[s];
    let order = sorted_section_symbols(m, s);
    if sec.data.len() == 0 || order.len() == 0 {
        proof {
            if order.len() == 0 && sec.data.len() > 0 {
                assert(!has_content(*m, s as int)) by {
                    if exists|i: int| #[trigger] m.in_section(s as int, i) {
                        let i = choose|i: int| #[trigger] m.in_section(s as int, i);
                        let k = choose|k: int| 0 <= k < order.len() && #[trigger] order[k] == i;
                    }
                }
            }
        }
        return Ok(Vec::new());
    }
    assert(m.in_section(s as int, order[0] as int));
    assert(m.symbol_wf(order[0] as int));
    let first = m.symbols[order[0]].address - sec.address;
    // The first symbol has the lowest offset of the section.
    assert forall|i: int| m.in_section(s as int, i) implies first <= #[trigger] m.sym_offset(s as int, i) by {
        let k = choose|k: int| 0 <= k < order.len() && #[trigger] order[k] == i;
        if k > 0 {
            assert(m.sym_before(order[0] as int, order[k] as int));
        }
    }
    let mut j: usize = 0;
    while j < sec.relocations.len()
        invariant
            j <= sec.relocations.len(),
            forall|q: int| 0 <= q < j ==> first <= (#[trigger] sec.relocations[q]).offset,
            forall|i: int| m.in_section(s as int, i) ==> first <= #[trigger] m.sym_offset(s as int, i),
            m.in_section(s as int, order[0] as int),
            sec.data.len() > 0,
            sec == m.sections[s as int],
        decreases sec.relocations.len() - j,
    {
        if sec.relocations[j].offset < first {
            assert(!offset_claimed(*m, s as int, sec.relocations[j as int].offset as int)) by {
                if offset_claimed(*m, s as int, sec.relocations[j as int].offset as int) {
                    let i = choose|i: int|
                        #[trigger] m.in_section(s as int, i) && m.sym_offset(s as int, i)
                            <= sec.relocations[j as int].offset;
                    assert(first <= m.sym_offset(s as int, i));
                }
            }
            assert(has_content(*m, s as int));
            return Err(ExtractError::UnclaimedRelocation);
        }
        j += 1;
    }
    assert(!has_unclaimed(*m, s as int)) by {
        assert forall|q: int| 0 <= q < sec.relocations.len() implies offset_claimed(
            *m,
            s as int,
            #[trigger] sec.relocations[q].offset as int,
        ) by {
            assert(m.in_section(s as int, order[0] as int));
        }
    }
    let v = build_slices(m, s, &order);
    proof {
        reveal(is_slicing);
        assert forall|q: int| 0 <= q < v.len() implies slice_end(v@, q, sec.data.len() as int) == (if q + 1
            < order.len() {
            m.sym_offset(s as int, order[q + 1] as int)
        } else {
            sec.data.len() as int
        }) by {
            if q + 1 < v.len() {
                assert(v[q + 1].symbol == order[q + 1]);
            }
        }
        assert forall|i: int| m.in_section(s as int, i) implies exists|q: int|
            0 <= q < v.len() && #[trigger] v[q].symbol == i by {
            let q = choose|q: int| 0 <= q < order.len() && #[trigger] order[q] == i;
            assert(v[q].symbol == order[q]);
        }
        assert forall|k1: int, k2: int| 0 <= k1 < k2 < v.len() implies m.sym_before(
            v[k1].symbol as int,
            v[k2].symbol as int,
        ) by {
            assert(v[k1].symbol == order[k1]);
            assert(v[k2].symbol == order[k2]);
        }
        assert(m.in_section(s as int, order[0] as int));
    }
    Ok(v)
}

/// The symbols of section `s`, as a set of table positions.
pub open spec fn section_symbols(m: ObjectModule, s: int) -> Set<int> {
    Set::new(|i: int| m.in_section(s, i))
}

/// Slice `k` of `v` holds offset `o`.
pub open spec fn slice_holds(v: Seq<SymbolSlice>, k: int, data_len: int, o: int) -> bool {
    v[k].offset <= o < slice_end(v, k, data_len)
}

proof fn lemma_slice_offsets_ordered(m: ObjectModule, s: int, v: Seq<SymbolSlice>, k1: int, k2: int)
    requires
        m.wf(),
        0 <= s < m.sections.len(),
        is_slicing(m, s, v),
        0 <= k1 <= k2 < v.len(),
    ensures
        v[k1].offset <= v[k2].offset,
        v[k1].offset <= slice_end(v, k1, m.sections[s].data.len() as int) <= m.sections[s].data.len(),
{
    reveal(is_slicing);
    assert(m.in_section(s, v[k1].symbol as int));
    assert(m.in_section(s, v[k2].symbol as int));
    assert(m.symbol_wf(v[k1].symbol as int));
    if k1 < k2 {
        assert(m.sym_before(v[k1].symbol as int, v[k2].symbol as int));
    }
    if k1 + 1 < v.len() {
        assert(m.in_section(s, v[k1 + 1].symbol as int));
        assert(m.symbol_wf(v[k1 + 1].symbol as int));
        assert(m.sym_before(v[k1].symbol as int, v[k1 + 1].symbol as int));
    }
}

proof fn lemma_some_slice_holds(m: ObjectModule, s: int, v: Seq<SymbolSlice>, o: int, k: int)
    requires
        m.wf(),
        0 <= s < m.sections.len(),
        is_slicing(m, s, v),
        0 <= k < v.len(),
        v[k].offset <= o < m.sections[s].data.len(),
    ensures
        exists|q: int| 0 <= q < v.len() && #[trigger] slice_holds(v, q, m.sections[s].data.len() as int, o),
    decreases v.len() - k,
{
    reveal(is_slicing);
    let len = m.sections[s].data.len() as int;
    if o < slice_end(v, k, len) {
        assert(slice_holds(v, k, len, o));
    } else {
        lemma_some_slice_holds(m, s, v, o, k + 1);
    }
}

proof fn lemma_slice_count(m: ObjectModule, s: int, v: Seq<SymbolSlice>)
    requires
        m.wf(),
        0 <= s < m.sections.len(),
        is_slicing(m, s, v),
    ensures
        v.len() == section_symbols(m, s).len(),
{
    reveal(is_slicing);
    // One slice per symbol.
    let syms = v.map_values(|x: SymbolSlice| x.symbol as int);
    assert forall|a: int, b: int| 0 <= a < syms.len() && 0 <= b < syms.len() && a != b implies syms[a]
        != syms[b] by {
        if a < b {
            assert(m.sym_before(v[a].symbol as int, v[b].symbol as int));
        } else {
            assert(m.sym_before(v[b].symbol as int, v[a].symbol as int));
        }
    }
    assert(syms.to_set() =~= section_symbols(m, s)) by {
        assert forall|i: int| section_symbols(m, s).contains(i) implies syms.to_set().contains(i) by {
            let k = choose|k: int| 0 <= k < v.len() && #[trigger] v[k].symbol == i;
            assert(syms[k] == i);
        }
        assert forall|i: int| syms.to_set().contains(i) implies section_symbols(m, s).contains(i) by {
            let k = choose|k: int| 0 <= k < syms.len() && syms[k] == i;
            assert(m.in_section(s, v[k].symbol as int));
        }
    }
    syms.unique_seq_to_set();
}

proof fn lemma_reloc_held(m: ObjectModule, s: int, v: Seq<SymbolSlice>, j: int)
    requires
        m.wf(),
        0 <= s < m.sections.len(),
        is_slicing(m, s, v),
        v.len() > 0,
        0 <= j < m.sections[s].relocations.len(),
        v[0].offset <= m.sections[s].relocations[j].offset,
    ensures
        exists|k: int|
            0 <= k < v.len() && #[trigger] slice_holds(
                v,
                k,
                m.sections[s].data.len() as int,
                m.sections[s].relocations[j].offset as int,
            ) && v[k].relocations@.contains(m.sections[s].relocations[j]),
{
    reveal(is_slicing);
    let sec = m.sections[s];
    let len = sec.data.len() as int;
    assert(sec.wf(m.symbols.len() as int, m.sections.len() as int));
    assert(reloc_wf(sec.relocations[j], len, m.symbols.len() as int, m.sections.len() as int));
    lemma_some_slice_holds(m, s, v, sec.relocations[j].offset as int, 0);
    let k = choose|k: int| 0 <= k < v.len() && #[trigger] slice_holds(v, k, len, sec.relocations[j].offset as int);
    let pred = |r: Relocation| v[k].offset <= r.offset && r.offset < slice_end(v, k, len);
    broadcast use vstd::seq_lib::group_filter_ensures;
    assert(sec.relocations@[j] == sec.relocations[j]);
    assert(pred(sec.relocations@[j]));
    assert(relocs_in(sec.relocations@, v[k].offset as int, slice_end(v, k, len)) == sec.relocations@.filter(pred));
}

proof fn lemma_first_slice_at_start(m: ObjectModule, s: int, v: Seq<SymbolSlice>)
    requires
        m.wf(),
        0 <= s < m.sections.len(),
        exists|i: int| #[trigger] m.in_section(s, i) && m.sym_offset(s, i) == 0,
        is_slicing(m, s, v),
    ensures
        v.len() > 0,
        v[0].offset == 0,
{
    reveal(is_slicing);
    let z = choose|i: int| #[trigger] m.in_section(s, i) && m.sym_offset(s, i) == 0;
    let kz = choose|k: int| 0 <= k < v.len() && #[trigger] v[k].symbol == z;
    lemma_slice_offsets_ordered(m, s, v, 0, kz);
    assert(m.in_section(s, v[0].symbol as int));
    assert(m.symbol_wf(v[0].symbol as int));
}

proof fn lemma_slice_lengths(m: ObjectModule, s: int, v: Seq<SymbolSlice>)
    requires
        m.wf(),
        0 <= s < m.sections.len(),
        is_slicing(m, s, v),
    ensures
        forall|k: int|
            0 <= k < v.len() ==> #[trigger] v[k].offset + v[k].data.len() == slice_end(
                v,
                k,
                m.sections[s].data.len() as int,
            ),
{
    reveal(is_slicing);
    assert forall|k: int| 0 <= k < v.len() implies #[trigger] v[k].offset + v[k].data.len() == slice_end(
        v,
        k,
        m.sections[s].data.len() as int,
    ) by {
        lemma_slice_offsets_ordered(m, s, v, k, k);
    }
}

proof fn lemma_slices_disjoint(m: ObjectModule, s: int, v: Seq<SymbolSlice>)
    requires
        m.wf(),
        0 <= s < m.sections.len(),
        is_slicing(m, s, v),
    ensures
        forall|o: int, k1: int, k2: int|
            0 <= k1 < v.len() && 0 <= k2 < v.len() && slice_holds(v, k1, m.sections[s].data.len() as int, o)
                && slice_holds(v, k2, m.sections[s].data.len() as int, o) ==> k1 == k2,
{
    reveal(is_slicing);
    let len = m.sections[s].data.len() as int;
    assert forall|o: int, k1: int, k2: int|
        0 <= k1 < v.len() && 0 <= k2 < v.len() && slice_holds(v, k1, len, o) && slice_holds(v, k2, len, o)
        implies k1 == k2 by {
        if k1 < k2 {
            lemma_slice_offsets_ordered(m, s, v, k1 + 1, k2);
        } else if k2 < k1 {
            lemma_slice_offsets_ordered(m, s, v, k2 + 1, k1);
        }
    }
}

/// Every relocation of a section that slices without error falls in exactly
/// one slice, whose relocation list holds it: none is left over.
pub proof fn lemma_relocations_consumed(m: ObjectModule, s: int, v: Seq<SymbolSlice>)
    requires
        m.wf(),
        0 <= s < m.sections.len(),
        has_content(m, s),
        !has_unclaimed(m, s),
        is_slicing(m, s, v),
    ensures
        forall|j: int|
            #![trigger m.sections[s].relocations[j]]
            0 <= j < m.sections[s].relocations.len() ==> exists|k: int|
                0 <= k < v.len() && #[trigger] slice_holds(
                    v,
                    k,
                    m.sections[s].data.len() as int,
                    m.sections[s].relocations[j].offset as int,
                ) && v[k].relocations@.contains(m.sections[s].relocations[j]),
        forall|o: int, k1: int, k2: int|
            0 <= k1 < v.len() && 0 <= k2 < v.len() && slice_holds(v, k1, m.sections[s].data.len() as int, o)
                && slice_holds(v, k2, m.sections[s].data.len() as int, o) ==> k1 == k2,
{
    let sec = m.sections[s];
    lemma_slicing_order(m, s, v);
    let i0 = choose|i: int| #[trigger] m.in_section(s, i);
    let k0 = choose|k: int| 0 <= k < v.len() && #[trigger] v[k].symbol == i0;
    assert forall|j: int| #![trigger sec.relocations[j]] 0 <= j < sec.relocations.len() implies exists|k: int|
        0 <= k < v.len() && #[trigger] slice_holds(v, k, sec.data.len() as int, sec.relocations[j].offset as int)
            && v[k].relocations@.contains(sec.relocations[j]) by {
        assert(offset_claimed(m, s, sec.relocations[j].offset as int));
        let i = choose|i: int| #[trigger] m.in_section(s, i) && m.sym_offset(s, i) <= sec.relocations[j].offset;
        let k = choose|k: int| 0 <= k < v.len() && #[trigger] v[k].symbol == i;
        lemma_slice_offsets_ordered(m, s, v, 0, k);
        reveal(is_slicing);
        lemma_reloc_held(m, s, v, j);
    }
    lemma_slices_disjoint(m, s, v);
}

/// Slicing a section with data and symbols gives one slice per symbol of the
/// section; the first starts at the lowest symbol, each ends where the next
/// begins and the last at the end of the data, and no two slices share a byte.
pub proof fn lemma_slicing_covers(m: ObjectModule, s: int, v: Seq<SymbolSlice>)
    requires
        m.wf(),
        0 <= s < m.sections.len(),
        has_content(m, s),
        is_slicing(m, s, v),
    ensures
        v.len() == section_symbols(m, s).len(),
        v.len() > 0,
        forall|i: int| #[trigger] m.in_section(s, i) ==> v[0].offset <= m.sym_offset(s, i),
        forall|k: int|
            0 <= k < v.len() ==> #[trigger] v[k].offset + v[k].data.len() == slice_end(
                v,
                k,
                m.sections[s].data.len() as int,
            ),
        v[v.len() - 1].offset + v[v.len() - 1].data.len() == m.sections[s].data.len(),
        forall|o: int, k1: int, k2: int|
            0 <= k1 < v.len() && 0 <= k2 < v.len() && slice_holds(v, k1, m.sections[s].data.len() as int, o)
                && slice_holds(v, k2, m.sections[s].data.len() as int, o) ==> k1 == k2,
{
    lemma_slice_count(m, s, v);
    lemma_slicing_order(m, s, v);
    let i0 = choose|i: int| #[trigger] m.in_section(s, i);
    let k0 = choose|k: int| 0 <= k < v.len() && #[trigger] v[k].symbol == i0;
    assert forall|i: int| #[trigger] m.in_section(s, i) implies v[0].offset <= m.sym_offset(s, i) by {
        let k = choose|k: int| 0 <= k < v.len() && #[trigger] v[k].symbol == i;
        lemma_slice_offsets_ordered(m, s, v, 0, k);
        reveal(is_slicing);
    }
    lemma_slice_lengths(m, s, v);
    lemma_slices_disjoint(m, s, v);
}

/// Slicing a section whose lowest symbol sits at its start partitions the
/// section: there is one slice per symbol of the section; the first starts at
/// offset 0, each one ends where the next begins and the last at the end of
/// the data; and each relocation of the section falls in exactly one slice,
/// whose relocation list holds it.
pub proof fn lemma_slicing_partitions(m: ObjectModule, s: int, v: Seq<SymbolSlice>)
    requires
        m.wf(),
        0 <= s < m.sections.len(),
        has_content(m, s),
        exists|i: int| #[trigger] m.in_section(s, i) && m.sym_offset(s, i) == 0,
        is_slicing(m, s, v),
    ensures
        v.len() == section_symbols(m, s).len(),
        v[0].offset == 0,
        forall|k: int|
            0 <= k < v.len() ==> #[trigger] v[k].offset + v[k].data.len() == slice_end(
                v,
                k,
                m.sections[s].data.len() as int,
            ),
        v[v.len() - 1].offset + v[v.len() - 1].data.len() == m.sections[s].data.len(),
        forall|j: int|
            #![trigger m.sections[s].relocations[j]]
            0 <= j < m.sections[s].relocations.len() ==> exists|k: int|
                0 <= k < v.len() && #[trigger] slice_holds(
                    v,
                    k,
                    m.sections[s].data.len() as int,
                    m.sections[s].relocations[j].offset as int,
                ) && v[k].relocations@.contains(m.sections[s].relocations[j]),
        forall|o: int, k1: int, k2: int|
            0 <= k1 < v.len() && 0 <= k2 < v.len() && slice_holds(v, k1, m.sections[s].data.len() as int, o)
                && slice_holds(v, k2, m.sections[s].data.len() as int, o) ==> k1 == k2,
{
    let sec = m.sections[s];
    let len = sec.data.len() as int;
    lemma_slice_count(m, s, v);
    lemma_first_slice_at_start(m, s, v);
    lemma_slice_lengths(m, s, v);
    assert forall|j: int| #![trigger sec.relocations[j]] 0 <= j < sec.relocations.len() implies exists|k: int|
        0 <= k < v.len() && #[trigger] slice_holds(v, k, len, sec.relocations[j].offset as int)
            && v[k].relocations@.contains(sec.relocations[j]) by {
        lemma_reloc_held(m, s, v, j);
    }
    lemma_slices_disjoint(m, s, v);
}

/// The relocations of each slice of a slicing lie within the slice.
pub proof fn lemma_slice_relocs_inside(m: ObjectModule, s: int, v: Seq<SymbolSlice>, k: int)
    requires
        slices_of(m, s, v),
        0 <= k < v.len(),
    ensures
        forall|x: int| 0 <= x < v[k].relocations.len() ==> v[k].offset <= (#[trigger] v[k].relocations[x]).offset,
{
    reveal(is_slicing);
    broadcast use vstd::seq_lib::group_filter_ensures;
    let sec = m.sections[s];
    let end = slice_end(v, k, sec.data.len() as int);
    let pred = |r: Relocation| v[k].offset <= r.offset && r.offset < end;
    assert(v[k].relocations@ == sec.relocations@.filter(pred));
    assert forall|x: int| 0 <= x < v[k].relocations.len() implies v[k].offset <= (#[trigger] v[k].relocations[x]).offset by {
        assert(pred(v[k].relocations@[x]));
    }
}

/// Each slice of a slicing belongs to a symbol of the table.
pub proof fn lemma_slice_symbol_in_range(m: ObjectModule, s: int, v: Seq<SymbolSlice>, k: int)
    requires
        slices_of(m, s, v),
        0 <= k < v.len(),
    ensures
        m.in_section(s, v[k].symbol as int),
        v[k].symbol < m.symbols.len(),
{
    reveal(is_slicing);
}

/// Two slicings agree slice by slice on everything they hold.
pub open spec fn same_slices(v1: Seq<SymbolSlice>, v2: Seq<SymbolSlice>) -> bool {
    &&& v1.len() == v2.len()
    &&& forall|k: int|
        #![trigger v1[k], v2[k]]
        0 <= k < v1.len() ==> {
            &&& v1[k].symbol == v2[k].symbol
            &&& v1[k].offset == v2[k].offset
            &&& v1[k].name@ == v2[k].name@
            &&& v1[k].global == v2[k].global
            &&& v1[k].data@ == v2[k].data@
            &&& v1[k].relocations@ == v2[k].relocations@
        }
}

/// The symbols of a slicing are those of its section, in layout order.
pub open spec fn slicing_order(m: ObjectModule, s: int, v: Seq<SymbolSlice>) -> bool {
    &&& forall|k: int| 0 <= k < v.len() ==> m.in_section(s, #[trigger] v[k].symbol as int)
    &&& forall|k1: int, k2: int|
        0 <= k1 < k2 < v.len() ==> m.sym_before(v[k1].symbol as int, v[k2].symbol as int)
    &&& forall|i: int| m.in_section(s, i) ==> exists|k: int| 0 <= k < v.len() && #[trigger] v[k].symbol == i
}

proof fn lemma_slicing_order(m: ObjectModule, s: int, v: Seq<SymbolSlice>)
    requires
        is_slicing(m, s, v),
    ensures
        slicing_order(m, s, v),
{
    reveal(is_slicing);
}

proof fn lemma_symbols_agree(m: ObjectModule, s: int, v1: Seq<SymbolSlice>, v2: Seq<SymbolSlice>, k: int)
    requires
        slicing_order(m, s, v1),
        slicing_order(m, s, v2),
        v1.len() == v2.len(),
        0 <= k < v1.len(),
    ensures
        forall|j: int| 0 <= j <= k ==> v1[j].symbol == v2[j].symbol,
    decreases k,
{
    if k > 0 {
        lemma_symbols_agree(m, s, v1, v2, k - 1);
    }
    let a = v1[k].symbol as int;
    let b = v2[k].symbol as int;
    if a != b {
        assert(m.in_section(s, a));
        assert(m.in_section(s, b));
        let q = choose|q: int| 0 <= q < v2.len() && #[trigger] v2[q].symbol == a;
        let p = choose|p: int| 0 <= p < v1.len() && #[trigger] v1[p].symbol == b;
        if q < k {
            assert(v1[q].symbol == v2[q].symbol);
            assert(m.sym_before(v1[q].symbol as int, v1[k].symbol as int));
        } else if p < k {
            assert(v1[p].symbol == v2[p].symbol);
            assert(m.sym_before(v2[p].symbol as int, v2[k].symbol as int));
        } else {
            assert(q > k && p > k);
            assert(m.sym_before(b, a));
            assert(m.sym_before(a, b));
        }
    }
}

/// A section has one slicing: two slicings of it agree slice by slice.
pub proof fn lemma_slicing_unique(m: ObjectModule, s: int, v1: Seq<SymbolSlice>, v2: Seq<SymbolSlice>)
    requires
        m.wf(),
        0 <= s < m.sections.len(),
        slices_of(m, s, v1),
        slices_of(m, s, v2),
    ensures
        same_slices(v1, v2),
{
    if has_content(m, s) {
        lemma_slice_count(m, s, v1);
        lemma_slice_count(m, s, v2);
        lemma_slicing_order(m, s, v1);
        lemma_slicing_order(m, s, v2);
        if v1.len() > 0 {
            lemma_symbols_agree(m, s, v1, v2, v1.len() - 1);
        }
        reveal(is_slicing);
        assert forall|k: int| 0 <= k < v1.len() implies #[trigger] v1[k].offset == v2[k].offset && slice_end(
            v1,
            k,
            m.sections[s].data.len() as int,
        ) == slice_end(v2, k, m.sections[s].data.len() as int) by {
            if k + 1 < v1.len() {
                assert(v1[k + 1].symbol == v2[k + 1].symbol);
            }
        }
    }
}

} // verus!
