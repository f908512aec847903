//! The symbol dependency graph of one module.

use vstd::prelude::*;
use crate::model::{reloc_wf, ObjectModule, RelocTarget, Relocation};

verus! {

/// Error of graph building: the module's relocations break an invariant that
/// compiler output keeps.
#[derive(Clone, Copy, Debug, PartialEq, Eq, Structural)]
pub enum GraphError {
    /// A relocation lies before every symbol of its section.
    UnclaimedRelocation,
    /// A relocation without a symbol target sits too close to the end of its
    /// section's data to hold a pointer.
    PointerOutOfBounds,
    /// The pointer stored at a relocation without a symbol target is the
    /// address of no defined symbol.
    UnresolvedAddress,
}

/// Dependencies of a module's symbols, by symbol table position: `deps[p]`
/// lists the symbols that `p` references, `parents[c]` those that reference `c`.
#[derive(Clone, Debug)]
pub struct SymbolGraph {
    pub deps: Vec<Vec<usize>>,
    pub parents: Vec<Vec<usize>>,
}

/// The little-endian 64-bit value stored at offset `o` of `d`.
pub open spec fn le_u64(d: Seq<u8>, o: int) -> int {
    d[o] + d[o + 1] * 0x100 + d[o + 2] * 0x10000 + d[o + 3] * 0x1000000 + d[o + 4] * 0x100000000
        + d[o + 5] * 0x10000000000 + d[o + 6] * 0x1000000000000 + d[o + 7] * 0x100000000000000
}

/// Symbol `t` is the last defined symbol of the table at address `a`.
pub open spec fn last_defined_at(m: ObjectModule, a: int, t: int) -> bool {
    &&& 0 <= t < m.symbols.len()
    &&& m.symbols[t].defined
    &&& m.symbols[t].address == a
    &&& forall|u: int|
        #![trigger m.symbols[u]]
        t < u < m.symbols.len() ==> !(m.symbols[u].defined && m.symbols[u].address == a)
}

/// Some defined symbol has address `a`.
pub open spec fn defined_at(m: ObjectModule, a: int) -> bool {
    exists|t: int| 0 <= t < m.symbols.len() && #[trigger] m.symbols[t].defined && m.symbols[t].address == a
}

/// Relocation `r` of section `s` refers to symbol `t`: its target symbol, or
/// else the symbol whose address is the pointer stored at the relocation.
pub open spec fn resolves_to(m: ObjectModule, s: int, r: Relocation, t: int) -> bool {
    match r.target {
        RelocTarget::Symbol(i) => t == i,
        _ => {
            &&& r.offset + 8 <= m.sections[s].data.len()
            &&& last_defined_at(m, le_u64(m.sections[s].data@, r.offset as int), t)
        },
    }
}

/// Relocation `r` of section `s` refers to some symbol.
pub open spec fn resolvable(m: ObjectModule, s: int, r: Relocation) -> bool {
    match r.target {
        RelocTarget::Symbol(_) => true,
        _ => {
            &&& r.offset + 8 <= m.sections[s].data.len()
            &&& defined_at(m, le_u64(m.sections[s].data@, r.offset as int))
        },
    }
}

/// Relocation `j` of section `s` is claimed by a symbol and refers to one.
pub open spec fn reloc_ok(m: ObjectModule, s: int, j: int) -> bool {
    &&& exists|p: int| #[trigger] m.claims(s, p, m.sections[s].relocations[j].offset as int)
    &&& resolvable(m, s, m.sections[s].relocations[j])
}

/// Every relocation of a section with symbols is claimed and refers to a
/// symbol.
pub open spec fn relocs_ok(m: ObjectModule) -> bool {
    forall|s: int, j: int|
        0 <= s < m.sections.len() && has_symbols(m, s) && 0 <= j < m.sections[s].relocations.len() ==> #[trigger] reloc_ok(
            m,
            s,
            j,
        )
}

/// Some symbol is defined in section `s`. A section without symbols slices
/// into nothing, and its relocations belong to no symbol.
pub open spec fn has_symbols(m: ObjectModule, s: int) -> bool {
    exists|i: int| #[trigger] m.in_section(s, i)
}

/// Whether some symbol is defined in section `s`.
pub fn section_has_symbols(m: &ObjectModule, s: usize) -> (r: bool)
    ensures
        r == has_symbols(*m, s as int),
{
    let mut i: usize = 0;
    while i < m.symbols.len()
        invariant
            i <= m.symbols.len(),
            forall|k: int| 0 <= k < i ==> !#[trigger] m.in_section(s as int, k),
        decreases m.symbols.len() - i,
    {
        let here = match m.symbols[i].section {
            Some(t) => t == s,
            None => false,
        };
        if here {
            assert(m.in_section(s as int, i as int));
            return true;
        }
        i += 1;
    }
    false
}

/// Relocation `j` of section `s` lies in symbol `p` and refers to symbol `c`.
pub open spec fn reloc_edge(m: ObjectModule, s: int, j: int, p: int, c: int) -> bool {
    &&& 0 <= s < m.sections.len()
    &&& 0 <= j < m.sections[s].relocations.len()
    &&& m.claims(s, p, m.sections[s].relocations[j].offset as int)
    &&& resolves_to(m, s, m.sections[s].relocations[j], c)
}

/// Symbol `p` references symbol `c` through one of its relocations.
pub open spec fn references(m: ObjectModule, p: int, c: int) -> bool {
    exists|s: int, j: int| #[trigger] reloc_edge(m, s, j, p, c)
}

/// `parents` is the transpose of `deps`.
pub open spec fn is_transpose(deps: Seq<Vec<usize>>, parents: Seq<Vec<usize>>) -> bool {
    &&& parents.len() == deps.len()
    &&& forall|c: int, k: int| 0 <= c < parents.len() && 0 <= k < parents[c].len() ==> parents[c][k] < deps.len()
    &&& forall|c: int, p: int|
        0 <= c < parents.len() && 0 <= p < deps.len() ==> (parents[c]@.contains(p as usize)
            <==> deps[p]@.contains(c as usize))
}

impl SymbolGraph {
    /// The graph of module `m`: `deps` holds exactly the references of each
    /// symbol, and `parents` is its transpose.
    #[verifier::opaque]
    pub open spec fn is_graph_of(&self, m: ObjectModule) -> bool {
        &&& self.deps.len() == m.symbols.len()
        &&& forall|p: int, c: int|
            0 <= p < m.symbols.len() && 0 <= c < m.symbols.len() ==> (self.deps[p]@.contains(c as usize)
                <==> references(m, p, c))
        &&& forall|p: int, k: int|
            0 <= p < self.deps.len() && 0 <= k < self.deps[p].len() ==> self.deps[p][k] < m.symbols.len()
        &&& is_transpose(self.deps@, self.parents@)
    }
}

/// Whether `v` holds `x`.
pub fn contains_index(v: &Vec<usize>, x: usize) -> (r: bool)
    ensures
        r == v@.contains(x),
{
    let mut i: usize = 0;
    while i < v.len()
        invariant
            i <= v.len(),
            forall|k: int| 0 <= k < i ==> v[k] != x,
        decreases v.len() - i,
    {
        if v[i] == x {
            return true;
        }
        i += 1;
    }
    false
}

/// The little-endian 64-bit value stored at offset `o` of `d`.
pub fn read_le_u64(d: &Vec<u8>, o: usize) -> (r: u64)
    requires
        o + 8 <= d.len(),
    ensures
        r == le_u64(d@, o as int),
{
    d[o] as u64 + d[o + 1] as u64 * 0x100 + d[o + 2] as u64 * 0x10000 + d[o + 3] as u64 * 0x1000000
        + d[o + 4] as u64 * 0x100000000 + d[o + 5] as u64 * 0x10000000000 + d[o + 6] as u64
        * 0x1000000000000 + d[o + 7] as u64 * 0x100000000000000
}

/// The last defined symbol of `m` at address `a`, if any.
pub fn last_defined_symbol_at(m: &ObjectModule, a: u64) -> (r: Option<usize>)
    ensures
        match r {
            Some(t) => last_defined_at(*m, a as int, t as int),
            None => !defined_at(*m, a as int),
        },
{
    let mut found: Option<usize> = None;
    let mut i: usize = 0;
    while i < m.symbols.len()
        invariant
            i <= m.symbols.len(),
            match found {
                Some(t) => t < i && m.symbols[t as int].defined && m.symbols[t as int].address == a
                    && forall|u: int|
                    #![trigger m.symbols[u]]
                    t < u < i ==> !(m.symbols[u].defined && m.symbols[u].address == a),
                None => forall|u: int|
                    #![trigger m.symbols[u]]
                    0 <= u < i ==> !(m.symbols[u].defined && m.symbols[u].address == a),
            },
        decreases m.symbols.len() - i,
    {
        if m.symbols[i].defined && m.symbols[i].address == a {
            found = Some(i);
        }
        i += 1;
    }
    found
}

/// The symbol of section `s` that claims offset `o`, if any.
pub fn claimer(m: &ObjectModule, s: usize, o: u64) -> (r: Option<usize>)
    requires
        m.wf(),
        s < m.sections.len(),
    ensures
        match r {
            Some(p) => m.claims(s as int, p as int, o as int),
            None => forall|p: int| !#[trigger] m.claims(s as int, p, o as int),
        },
{
    let base = m.sections[s].address;
    let mut best: Option<usize> = None;
    let mut i: usize = 0;
    while i < m.symbols.len()
        invariant
            m.wf(),
            s < m.sections.len(),
            base == m.sections[s as int].address,
            i <= m.symbols.len(),
            match best {
                Some(p) => p < i && m.in_section(s as int, p as int) && m.sym_offset(s as int, p as int) <= o
                    && forall|j: int|
                    #![trigger m.in_section(s as int, j)]
                    0 <= j < i && m.in_section(s as int, j) && j != p && m.sym_offset(s as int, j) <= o
                        ==> m.sym_before(j, p as int),
                None => forall|j: int|
                    #![trigger m.in_section(s as int, j)]
                    0 <= j < i && m.in_section(s as int, j) ==> m.sym_offset(s as int, j) > o,
            },
        decreases m.symbols.len() - i,
    {
        let here = match m.symbols[i].section {
            Some(t) => t == s,
            None => false,
        };
        if here {
            assert(m.symbol_wf(i as int));
            let off = m.symbols[i].address - base;
            if off <= o {
                let take = match best {
                    Some(p) => m.symbols[p].address <= m.symbols[i].address,
                    None => true,
                };
                if take {
                    best = Some(i);
                }
            }
        }
        i += 1;
    }
    proof {
        match best {
            Some(p) => {
                assert(m.claims(s as int, p as int, o as int));
            },
            None => {
                assert forall|p: int| !#[trigger] m.claims(s as int, p, o as int) by {
                    if m.claims(s as int, p, o as int) {
                        assert(m.in_section(s as int, p));
                    }
                }
            },
        }
    }
    best
}

/// Relocation `(s, j)` lies before relocation `(s2, j2)` in the module's
/// order: by section, then by position in the section.
pub open spec fn reloc_before(s: int, j: int, s2: int, j2: int) -> bool {
    s < s2 || (s == s2 && j < j2)
}

/// A relocation before `(s, j)` lies in symbol `p` and refers to symbol `c`.
pub open spec fn edge_before(m: ObjectModule, s: int, j: int, p: int, c: int) -> bool {
    exists|s2: int, j2: int| reloc_before(s2, j2, s, j) && #[trigger] reloc_edge(m, s2, j2, p, c)
}

/// `deps` records exactly the edges of the relocations before `(s, j)`.
pub open spec fn deps_upto(m: ObjectModule, deps: Seq<Vec<usize>>, s: int, j: int) -> bool {
    &&& deps.len() == m.symbols.len()
    &&& forall|p: int, k: int| 0 <= p < deps.len() && 0 <= k < deps[p].len() ==> deps[p][k] < m.symbols.len()
    &&& forall|p: int, c: int|
        0 <= p < m.symbols.len() && 0 <= c < m.symbols.len() ==> (deps[p]@.contains(c as usize)
            <==> edge_before(m, s, j, p, c))
}

/// One relocation lies in one symbol and refers to one symbol.
proof fn lemma_edge_unique(m: ObjectModule, s: int, j: int, p: int, c: int, p2: int, c2: int)
    requires
        reloc_edge(m, s, j, p, c),
        reloc_edge(m, s, j, p2, c2),
    ensures
        p == p2,
        c == c2,
{
    let o = m.sections[s].relocations[j].offset as int;
    if p != p2 {
        assert(m.in_section(s, p2));
        assert(m.in_section(s, p));
        assert(m.sym_before(p2, p));
        assert(m.sym_before(p, p2));
    }
    let r = m.sections[s].relocations[j];
    match r.target {
        RelocTarget::Symbol(_) => {},
        _ => {
            let a = le_u64(m.sections[s].data@, r.offset as int);
            if c < c2 {
                assert(m.symbols[c2].defined);
            } else if c2 < c {
                assert(m.symbols[c].defined);
            }
        },
    }
}

/// The symbol that relocation `j` of section `s` refers to.
pub fn resolve(m: &ObjectModule, s: usize, j: usize) -> (r: Result<usize, GraphError>)
    requires
        m.wf(),
        s < m.sections.len(),
        j < m.sections[s as int].relocations.len(),
    ensures
        match r {
            Ok(t) => t < m.symbols.len() && resolves_to(*m, s as int, m.sections[s as int].relocations[j as int], t as int),
            Err(e) => !resolvable(*m, s as int, m.sections[s as int].relocations[j as int]) && (e
                == GraphError::PointerOutOfBounds || e == GraphError::UnresolvedAddress),
        },
{
    let sec = &m.sections[s];
    let rel = sec.relocations[j];
    assert(sec.wf(m.symbols.len() as int, m.sections.len() as int));
    assert(reloc_wf(sec.relocations[j as int], sec.data.len() as int, m.symbols.len() as int, m.sections.len() as int));
    match rel.target {
        RelocTarget::Symbol(i) => Ok(i),
        _ => {
            if rel.offset > sec.data.len() as u64 || sec.data.len() as u64 - rel.offset < 8 {
                return Err(GraphError::PointerOutOfBounds);
            }
            let a = read_le_u64(&sec.data, rel.offset as usize);
            match last_defined_symbol_at(m, a) {
                Some(t) => Ok(t),
                None => Err(GraphError::UnresolvedAddress),
            }
        },
    }
}

/// A section without symbols adds no edge.
proof fn lemma_symbolless_section_adds_nothing(m: ObjectModule, deps: Seq<Vec<usize>>, s: int)
    requires
        0 <= s < m.sections.len(),
        !has_symbols(m, s),
        deps_upto(m, deps, s, 0),
    ensures
        deps_upto(m, deps, s + 1, 0),
{
    assert forall|p2: int, c2: int|
        0 <= p2 < m.symbols.len() && 0 <= c2 < m.symbols.len() implies (deps[p2]@.contains(c2 as usize)
            <==> #[trigger] edge_before(m, s + 1, 0, p2, c2)) by {
        if edge_before(m, s + 1, 0, p2, c2) {
            let (s3, j3) = choose|s3: int, j3: int| reloc_before(s3, j3, s + 1, 0) && #[trigger] reloc_edge(m, s3, j3, p2, c2);
            if s3 == s {
                assert(m.in_section(s, p2));
            }
            assert(reloc_before(s3, j3, s, 0));
        }
        if edge_before(m, s, 0, p2, c2) {
            let (s3, j3) = choose|s3: int, j3: int| reloc_before(s3, j3, s, 0) && #[trigger] reloc_edge(m, s3, j3, p2, c2);
            assert(reloc_before(s3, j3, s + 1, 0));
        }
        assert(deps[p2]@.contains(c2 as usize) <==> edge_before(m, s, 0, p2, c2));
    }
}

/// Adds to `deps` the edges of the relocations of section `s`.
fn add_section_edges(m: &ObjectModule, s: usize, deps: &mut Vec<Vec<usize>>) -> (r: Result<(), GraphError>)
    requires
        m.wf(),
        s < m.sections.len(),
        deps_upto(*m, old(deps)@, s as int, 0),
    ensures
        r is Ok ==> deps_upto(*m, final(deps)@, s as int + 1, 0),
        r is Ok ==> forall|j: int| 0 <= j < m.sections[s as int].relocations.len() ==> #[trigger] reloc_ok(*m, s as int, j),
        r is Err ==> exists|j: int| 0 <= j < m.sections[s as int].relocations.len() && !#[trigger] reloc_ok(*m, s as int, j),
{
    let n = m.sections[s].relocations.len();
    let mut j: usize = 0;
    while j < n
        invariant
            m.wf(),
            s < m.sections.len(),
            n == m.sections[s as int].relocations.len(),
            j <= n,
            deps_upto(*m, deps@, s as int, j as int),
            forall|q: int| 0 <= q < j ==> #[trigger] reloc_ok(*m, s as int, q),
        decreases n - j,
    {
        let o = m.sections[s].relocations[j].offset;
        let p = match claimer(m, s, o) {
            Some(p) => p,
            None => {
                assert(!reloc_ok(*m, s as int, j as int));
                return Err(GraphError::UnclaimedRelocation);
            },
        };
        let c = match resolve(m, s, j) {
            Ok(c) => c,
            Err(e) => {
                assert(!reloc_ok(*m, s as int, j as int));
                return Err(e);
            },
        };
        assert(m.in_section(s as int, p as int));
        assert(reloc_edge(*m, s as int, j as int, p as int, c as int));
        assert(reloc_ok(*m, s as int, j as int));
        let ghost before = deps@;
        if !contains_index(&deps[p], c) {
            deps[p].push(c);
        }
        proof {
            assert forall|p2: int, c2: int|
                0 <= p2 < m.symbols.len() && 0 <= c2 < m.symbols.len() implies (deps@[p2]@.contains(c2 as usize)
                    <==> #[trigger] edge_before(*m, s as int, j + 1, p2, c2)) by {
                if edge_before(*m, s as int, j + 1, p2, c2) {
                    let (s3, j3) = choose|s3: int, j3: int| reloc_before(s3, j3, s as int, j + 1) && #[trigger] reloc_edge(*m, s3, j3, p2, c2);
                    if s3 == s && j3 == j {
                        lemma_edge_unique(*m, s as int, j as int, p as int, c as int, p2, c2);
                        if p2 == p {
                            if !before[p2]@.contains(c2 as usize) {
                                assert(deps@[p2]@[deps@[p2].len() - 1] == c2);
                            }
                        }
                    } else {
                        assert(edge_before(*m, s as int, j as int, p2, c2));
                        if p2 == p {
                            let k = choose|k: int| 0 <= k < before[p2].len() && before[p2]@[k] == c2;
                            assert(deps@[p2]@[k] == c2);
                        }
                    }
                }
                if deps@[p2]@.contains(c2 as usize) {
                    if p2 == p && c2 == c {
                        assert(reloc_before(s as int, j as int, s as int, j + 1));
                    } else {
                        if p2 == p {
                            let k = choose|k: int| 0 <= k < deps@[p2].len() && deps@[p2]@[k] == c2;
                            assert(before[p2]@[k] == c2);
                        }
                        assert(edge_before(*m, s as int, j as int, p2, c2));
                        let (s3, j3) = choose|s3: int, j3: int| reloc_before(s3, j3, s as int, j as int) && #[trigger] reloc_edge(*m, s3, j3, p2, c2);
                        assert(reloc_before(s3, j3, s as int, j + 1));
                    }
                }
            }
        }
        j += 1;
    }
    proof {
        assert forall|p2: int, c2: int|
            0 <= p2 < m.symbols.len() && 0 <= c2 < m.symbols.len() implies (#[trigger] edge_before(*m, s as int, n as int, p2, c2)
                <==> edge_before(*m, s as int + 1, 0, p2, c2)) by {
            if edge_before(*m, s as int + 1, 0, p2, c2) {
                let (s3, j3) = choose|s3: int, j3: int| reloc_before(s3, j3, s as int + 1, 0) && #[trigger] reloc_edge(*m, s3, j3, p2, c2);
                assert(reloc_before(s3, j3, s as int, n as int));
            }
            if edge_before(*m, s as int, n as int, p2, c2) {
                let (s3, j3) = choose|s3: int, j3: int| reloc_before(s3, j3, s as int, n as int) && #[trigger] reloc_edge(*m, s3, j3, p2, c2);
                assert(reloc_before(s3, j3, s as int + 1, 0));
            }
        }
        assert forall|p2: int, c2: int|
            0 <= p2 < m.symbols.len() && 0 <= c2 < m.symbols.len() implies (deps@[p2]@.contains(c2 as usize)
                <==> #[trigger] edge_before(*m, s as int + 1, 0, p2, c2)) by {
            assert(deps@[p2]@.contains(c2 as usize) <==> edge_before(*m, s as int, n as int, p2, c2));
        }
    }
    Ok(())
}

proof fn lemma_push_contains(s: Seq<usize>, x: usize, y: usize)
    ensures
        s.push(x).contains(y) <==> (s.contains(y) || y == x),
{
    if s.contains(y) {
        let k = choose|k: int| 0 <= k < s.len() && s[k] == y;
        assert(s.push(x)[k] == y);
    }
    if y == x {
        assert(s.push(x)[s.len() as int] == x);
    }
    if s.push(x).contains(y) {
        let k = choose|k: int| 0 <= k < s.push(x).len() && s.push(x)[k] == y;
        if k < s.len() {
            assert(s[k] == y);
        }
    }
}

/// The transpose of `deps`: entry `c` lists every `p` whose entry in `deps` holds `c`.
pub fn invert_deps(deps: &Vec<Vec<usize>>) -> (parents: Vec<Vec<usize>>)
    requires
        forall|p: int, k: int| 0 <= p < deps.len() && 0 <= k < deps[p].len() ==> deps[p][k] < deps.len(),
    ensures
        is_transpose(deps@, parents@),
{
    let n = deps.len();
    let mut parents: Vec<Vec<usize>> = Vec::new();
    let mut i: usize = 0;
    while i < n
        invariant
            i <= n == deps.len(),
            parents.len() == i,
            forall|c: int| 0 <= c < i ==> parents[c].len() == 0,
            forall|c: int, k: int| 0 <= c < parents.len() && 0 <= k < parents[c].len() ==> parents[c][k] < n,
        decreases n - i,
    {
        parents.push(Vec::new());
        i += 1;
    }
    let mut p: usize = 0;
    while p < n
        invariant
            n == deps.len(),
            forall|p: int, k: int| 0 <= p < deps.len() && 0 <= k < deps[p].len() ==> deps[p][k] < deps.len(),
            p <= n,
            parents.len() == n,
            forall|c: int, k: int| 0 <= c < parents.len() && 0 <= k < parents[c].len() ==> parents[c][k] < n,
            forall|c: int, q: int|
                0 <= c < n && 0 <= q < n ==> (#[trigger] parents[c]@.contains(q as usize) <==> (q < p
                    && deps[q]@.contains(c as usize))),
        decreases n - p,
    {
        let mut k: usize = 0;
        assert(deps[p as int]@.subrange(0, 0) =~= Seq::<usize>::empty());
        assert forall|c: int| 0 <= c < n implies !#[trigger] parents[c]@.contains(p) by {
            assert(parents[c]@.contains((p as int) as usize) <==> (p < p && deps[p as int]@.contains(c as usize)));
        }
        while k < deps[p].len()
            invariant
                n == deps.len(),
                forall|p: int, k: int| 0 <= p < deps.len() && 0 <= k < deps[p].len() ==> deps[p][k] < deps.len(),
                p < n,
                k <= deps[p as int].len(),
                parents.len() == n,
                forall|c: int, k: int| 0 <= c < parents.len() && 0 <= k < parents[c].len() ==> parents[c][k] < n,
                forall|c: int, q: int|
                    0 <= c < n && 0 <= q < n && q != p ==> (#[trigger] parents[c]@.contains(q as usize) <==> (q < p
                        && deps[q]@.contains(c as usize))),
                forall|c: int|
                    0 <= c < n ==> (#[trigger] parents[c]@.contains(p) <==> deps[p as int]@.subrange(
                        0,
                        k as int,
                    ).contains(c as usize)),
            decreases deps[p as int].len() - k,
        {
            let c = deps[p][k];
            let ghost before = parents@;
            parents[c].push(p);
            proof {
                assert forall|c2: int, k2: int| 0 <= c2 < parents.len() && 0 <= k2 < parents[c2].len() implies parents[c2][k2] < n by {
                    if c2 != c as int {
                        assert(parents[c2] == before[c2]);
                    } else if k2 < before[c2].len() {
                        assert(parents[c2][k2] == before[c2][k2]);
                    }
                }
                let pre = deps[p as int]@.subrange(0, k as int);
                let post = deps[p as int]@.subrange(0, k + 1);
                assert(post =~= pre.push(c));
                assert forall|c2: int, q: int| 0 <= c2 < n && 0 <= q < n && q != p implies (
                #[trigger] parents[c2]@.contains(q as usize) <==> (q < p && deps[q]@.contains(c2 as usize))) by {
                    assert(before[c2]@.contains(q as usize) <==> (q < p && deps[q]@.contains(c2 as usize)));
                    if c2 == c {
                        assert(parents[c2]@ =~= before[c2]@.push(p));
                        lemma_push_contains(before[c2]@, p, q as usize);
                    } else {
                        assert(parents[c2]@ =~= before[c2]@);
                    }
                }
                assert forall|c2: int| 0 <= c2 < n implies (#[trigger] parents[c2]@.contains(p) <==> post.contains(
                    c2 as usize,
                )) by {
                    assert(before[c2]@.contains(p) <==> pre.contains(c2 as usize));
                    lemma_push_contains(pre, c, c2 as usize);
                    if c2 == c {
                        assert(parents[c2]@ =~= before[c2]@.push(p));
                        lemma_push_contains(before[c2]@, p, p);
                    } else {
                        assert(parents[c2]@ =~= before[c2]@);
                    }
                }
            }
            k += 1;
        }
        assert(deps[p as int]@.subrange(0, deps[p as int].len() as int) =~= deps[p as int]@);
        assert forall|c: int, q: int|
            0 <= c < n && 0 <= q < n implies (#[trigger] parents[c]@.contains(q as usize) <==> (q < p + 1
                && deps[q]@.contains(c as usize))) by {
            if q == p {
                assert(parents[c]@.contains(p) <==> deps[p as int]@.contains(c as usize));
            }
        }
        p += 1;
    }
    parents
}

/// Builds the dependency graph of `m`: for every relocation, an edge from the
/// symbol whose slice holds it to the symbol it refers to, and the transpose
/// of those edges. A section without symbols adds no edge. Fails when, in a
/// section with symbols, some relocation is claimed by no symbol or refers to
/// none.
pub fn build_graph(m: &ObjectModule) -> (r: Result<SymbolGraph, GraphError>)
    requires
        m.wf(),
    ensures
        r is Ok <==> relocs_ok(*m),
        r matches Ok(g) ==> g.is_graph_of(*m),
{
    let n = m.symbols.len();
    let mut deps: Vec<Vec<usize>> = Vec::new();
    let mut i: usize = 0;
    while i < n
        invariant
            i <= n == m.symbols.len(),
            deps.len() == i,
            forall|c: int| 0 <= c < i ==> deps[c].len() == 0,
        decreases n - i,
    {
        deps.push(Vec::new());
        i += 1;
    }
    let mut s: usize = 0;
    while s < m.sections.len()
        invariant
            m.wf(),
            s <= m.sections.len(),
            deps_upto(*m, deps@, s as int, 0),
            forall|s2: int, j: int|
                0 <= s2 < s && has_symbols(*m, s2) && 0 <= j < m.sections[s2].relocations.len() ==> #[trigger] reloc_ok(
                    *m,
                    s2,
                    j,
                ),
        decreases m.sections.len() - s,
    {
        if section_has_symbols(m, s) {
            match add_section_edges(m, s, &mut deps) {
                Ok(()) => {},
                Err(e) => {
                    return Err(e);
                },
            }
        } else {
            proof {
                lemma_symbolless_section_adds_nothing(*m, deps@, s as int);
            }
        }
        s += 1;
    }
    let parents = invert_deps(&deps);
    let g = SymbolGraph { deps, parents };
    proof {
        reveal(SymbolGraph::is_graph_of);
        assert forall|p: int, c: int| 0 <= p < m.symbols.len() && 0 <= c < m.symbols.len() implies (
        g.deps[p]@.contains(c as usize) <==> references(*m, p, c)) by {
            if references(*m, p, c) {
                let (s3, j3) = choose|s3: int, j3: int| #[trigger] reloc_edge(*m, s3, j3, p, c);
                assert(reloc_before(s3, j3, m.sections.len() as int, 0));
                assert(edge_before(*m, m.sections.len() as int, 0, p, c));
            }
            if g.deps[p]@.contains(c as usize) {
                assert(edge_before(*m, m.sections.len() as int, 0, p, c));
                let (s3, j3) = choose|s3: int, j3: int| reloc_before(s3, j3, m.sections.len() as int, 0) && #[trigger] reloc_edge(*m, s3, j3, p, c);
                assert(reloc_edge(*m, s3, j3, p, c));
            }
        }
    }
    Ok(g)
}

/// In the graph of any module, `parents` is the transpose of `deps`: `b` is a
/// parent of `a` exactly when `a` is a dependency of `b`.
pub proof fn lemma_graph_inversion(m: ObjectModule, g: SymbolGraph, a: int, b: int)
    requires
        g.is_graph_of(m),
        0 <= a < m.symbols.len(),
        0 <= b < m.symbols.len(),
    ensures
        g.parents[a]@.contains(b as usize) <==> g.deps[b]@.contains(a as usize),
{
    reveal(SymbolGraph::is_graph_of);
}

/// The graph of a module has one parent list per symbol, and each entry is a
/// symbol of the module.
pub proof fn lemma_graph_parents_in_range(m: ObjectModule, g: SymbolGraph)
    requires
        g.is_graph_of(m),
    ensures
        g.parents.len() == m.symbols.len(),
        forall|c: int, k: int| 0 <= c < g.parents.len() && 0 <= k < g.parents[c].len() ==> g.parents[c][k] < m.symbols.len(),
{
    reveal(SymbolGraph::is_graph_of);
}

} // verus!
