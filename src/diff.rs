//! Diffing two builds of a set of object files.

use vstd::prelude::*;
use crate::compare::{bytes_eq, compare, lemma_compare_reflexive, target_name, unchanged};
use crate::graph::{build_graph, relocs_ok, GraphError, SymbolGraph};
use crate::model::ObjectModule;
use crate::slices::{copy_range, extract, has_content, has_unclaimed, lemma_slicing_unique, slices_of, ExtractError, SymbolSlice};
use crate::walk::{collect_ancestors, lemma_reached_is_seen, reaches};

verus! {

/// Which sections take part in change detection: those whose name is one of
/// `section_names` or starts with one of `section_prefixes`.
#[derive(Clone, Debug)]
pub struct DiffConfig {
    pub section_names: Vec<Vec<u8>>,
    pub section_prefixes: Vec<Vec<u8>>,
}

/// Error that aborts a diff pass: an object file breaks an invariant of
/// compiler output.
#[derive(Clone, Copy, Debug, PartialEq, Eq, Structural)]
pub enum DiffError {
    /// A relocation lies before every symbol of its section.
    UnclaimedRelocation,
    /// A relocation without a symbol target is too close to the end of its
    /// section to hold a pointer.
    PointerOutOfBounds,
    /// A relocation without a symbol target holds the address of no symbol.
    UnresolvedAddress,
}

/// `p` is a prefix of `n`.
pub open spec fn is_prefix(p: Seq<u8>, n: Seq<u8>) -> bool {
    p.len() <= n.len() && n.subrange(0, p.len() as int) == p
}

/// A section named `name` takes part in change detection.
pub open spec fn section_selected(cfg: DiffConfig, name: Seq<u8>) -> bool {
    ||| exists|k: int| 0 <= k < cfg.section_names.len() && #[trigger] cfg.section_names[k]@ == name
    ||| exists|k: int| 0 <= k < cfg.section_prefixes.len() && is_prefix(#[trigger] cfg.section_prefixes[k]@, name)
}

/// Section `s` of the new module has a counterpart in the old module: the
/// old section at the same position, under the same name.
pub open spec fn has_counterpart(om: ObjectModule, nm: ObjectModule, s: int) -> bool {
    &&& 0 <= s < om.sections.len()
    &&& s < nm.sections.len()
    &&& om.sections[s].name@ == nm.sections[s].name@
}

/// Slice `q` is the first slice of `v` named `name`.
pub open spec fn first_slice_named(v: Seq<SymbolSlice>, name: Seq<u8>, q: int) -> bool {
    &&& 0 <= q < v.len()
    &&& v[q].name@ == name
    &&& forall|u: int| 0 <= u < q ==> #[trigger] v[u].name@ != name
}

/// Section `s` of the new module `nm` has a counterpart in the old module
/// `om`, which slices into `vo`, and slice `sl` of the new section either has
/// no namesake in `vo` or differs from its first namesake.
pub open spec fn differs_from_old(om: ObjectModule, nm: ObjectModule, s: int, sl: SymbolSlice, vo: Seq<SymbolSlice>) -> bool {
    &&& has_counterpart(om, nm, s)
    &&& slices_of(om, s, vo)
    &&& ((forall|q: int| 0 <= q < vo.len() ==> #[trigger] vo[q].name@ != sl.name@) || exists|q: int|
        #[trigger] first_slice_named(vo, sl.name@, q) && !unchanged(om, nm, vo[q], sl))
}

/// Slice `sl` of section `s` of the new module counts as changed: the section
/// has no counterpart in the old module, or the slice differs from the old
/// slice of the same name, or has none.
pub open spec fn slice_changed(om: ObjectModule, nm: ObjectModule, s: int, sl: SymbolSlice) -> bool {
    ||| !has_counterpart(om, nm, s)
    ||| exists|vo: Seq<SymbolSlice>| #[trigger] differs_from_old(om, nm, s, sl, vo)
}

/// Slice `k` of `vn`, the slicing of the selected section `s` of the new
/// module, belongs to symbol `i` and counts as changed.
pub open spec fn flag_witness(
    cfg: DiffConfig,
    om: ObjectModule,
    nm: ObjectModule,
    i: int,
    s: int,
    vn: Seq<SymbolSlice>,
    k: int,
) -> bool {
    &&& 0 <= s < nm.sections.len()
    &&& section_selected(cfg, nm.sections[s].name@)
    &&& slices_of(nm, s, vn)
    &&& 0 <= k < vn.len()
    &&& vn[k].symbol == i
    &&& slice_changed(om, nm, s, vn[k])
}

/// The masked comparison flags symbol `i` of the new module as changed.
pub open spec fn flagged(cfg: DiffConfig, om: ObjectModule, nm: ObjectModule, i: int) -> bool {
    exists|s: int, vn: Seq<SymbolSlice>, k: int| #[trigger] flag_witness(cfg, om, nm, i, s, vn, k)
}

/// Two slices that hold the same values.
pub open spec fn same_slice(a: SymbolSlice, b: SymbolSlice) -> bool {
    &&& a.symbol == b.symbol
    &&& a.offset == b.offset
    &&& a.name@ == b.name@
    &&& a.global == b.global
    &&& a.data@ == b.data@
    &&& a.relocations@ == b.relocations@
}

proof fn lemma_unchanged_by_values(om: ObjectModule, nm: ObjectModule, a: SymbolSlice, a2: SymbolSlice, b: SymbolSlice, b2: SymbolSlice)
    requires
        same_slice(a, a2),
        same_slice(b, b2),
    ensures
        unchanged(om, nm, a, b) == unchanged(om, nm, a2, b2),
{
    assert(a.relocations.len() == a2.relocations.len());
    assert(forall|x: int| 0 <= x < a.relocations.len() ==> a.relocations[x] == a2.relocations[x]);
    assert(forall|x: int| 0 <= x < b.relocations.len() ==> b.relocations[x] == b2.relocations[x]);
    assert(forall|i: int| 0 <= i < a.data.len() ==> a.data[i] == a2.data[i]);
    assert(forall|i: int| 0 <= i < b.data.len() ==> b.data[i] == b2.data[i]);
    if unchanged(om, nm, a, b) {
        assert(forall|x: int| 0 <= x < a2.relocations.len() ==> #[trigger] crate::compare::pair_matches(om, nm, a2, b2, x) == crate::compare::pair_matches(om, nm, a, b, x));
        assert forall|i: int| 0 <= i < a2.data.len() && !crate::compare::masked(a2, i) implies a2.data[i] == b2.data[i] by {
            if crate::compare::masked(a, i) {
                let x = choose|x: int| 0 <= x < a.relocations.len() && #[trigger] crate::compare::masks(a, x, i);
                assert(crate::compare::masks(a2, x, i));
            }
        }
    }
    if unchanged(om, nm, a2, b2) {
        assert(forall|x: int| 0 <= x < a.relocations.len() ==> #[trigger] crate::compare::pair_matches(om, nm, a, b, x) == crate::compare::pair_matches(om, nm, a2, b2, x));
        assert forall|i: int| 0 <= i < a.data.len() && !crate::compare::masked(a, i) implies a.data[i] == b.data[i] by {
            if crate::compare::masked(a2, i) {
                let x = choose|x: int| 0 <= x < a2.relocations.len() && #[trigger] crate::compare::masks(a2, x, i);
                assert(crate::compare::masks(a, x, i));
            }
        }
    }
}

/// A slice that equals its first namesake in the slicing of the counterpart
/// section of the old module does not count as changed.
proof fn lemma_not_changed(om: ObjectModule, nm: ObjectModule, s: int, sl: SymbolSlice, vo: Seq<SymbolSlice>, q: int)
    requires
        om.wf(),
        has_counterpart(om, nm, s),
        slices_of(om, s, vo),
        first_slice_named(vo, sl.name@, q),
        unchanged(om, nm, vo[q], sl),
    ensures
        !slice_changed(om, nm, s, sl),
{
    if exists|vo2: Seq<SymbolSlice>| #[trigger] differs_from_old(om, nm, s, sl, vo2) {
        let vo2 = choose|vo2: Seq<SymbolSlice>| #[trigger] differs_from_old(om, nm, s, sl, vo2);
        crate::slices::lemma_slicing_unique(om, s, vo, vo2);
        assert(vo2[q].name@ == sl.name@);
        let q2 = choose|q2: int| #[trigger] first_slice_named(vo2, sl.name@, q2) && !unchanged(om, nm, vo2[q2], sl);
        if q2 < q {
            assert(vo[q2].name@ != sl.name@);
        } else if q2 > q {
            assert(vo2[q].name@ != sl.name@);
        }
        lemma_unchanged_by_values(om, nm, vo[q], vo2[q], sl, sl);
    }
}

/// Whether a slice counts as changed depends on the values it holds only.
proof fn lemma_changed_by_values(om: ObjectModule, nm: ObjectModule, s: int, a: SymbolSlice, b: SymbolSlice)
    requires
        same_slice(a, b),
    ensures
        slice_changed(om, nm, s, a) ==> slice_changed(om, nm, s, b),
{
    if slice_changed(om, nm, s, a) {
        if exists|vo: Seq<SymbolSlice>| #[trigger] differs_from_old(om, nm, s, a, vo) {
            let vo = choose|vo: Seq<SymbolSlice>| #[trigger] differs_from_old(om, nm, s, a, vo);
            if exists|q: int| #[trigger] first_slice_named(vo, a.name@, q) && !unchanged(om, nm, vo[q], a) {
                let q = choose|q: int| #[trigger] first_slice_named(vo, a.name@, q) && !unchanged(om, nm, vo[q], a);
                lemma_unchanged_by_values(om, nm, vo[q], vo[q], a, b);
                assert(first_slice_named(vo, b.name@, q));
            }
            assert(differs_from_old(om, nm, s, b, vo));
        }
    }
}

/// Slicing section `s` of `m` succeeds: no relocation of it lies before its
/// first symbol.
pub open spec fn slicing_ok(m: ObjectModule, s: int) -> bool {
    !(has_content(m, s) && has_unclaimed(m, s))
}

/// Section `s` of the new module, and its counterpart in the old module if
/// it has one, both slice without error.
pub open spec fn section_pair_ok(om: ObjectModule, nm: ObjectModule, s: int) -> bool {
    &&& slicing_ok(nm, s)
    &&& has_counterpart(om, nm, s) ==> slicing_ok(om, s)
}

/// Every selected section of the new module slices without error, and so
/// does its counterpart in the old module.
pub open spec fn sections_ok(cfg: DiffConfig, om: ObjectModule, nm: ObjectModule) -> bool {
    forall|s: int|
        0 <= s < nm.sections.len() && #[trigger] section_selected(cfg, nm.sections[s].name@) ==> section_pair_ok(om, nm, s)
}

/// Whether `p` is a prefix of `n`.
pub fn starts_with(n: &Vec<u8>, p: &Vec<u8>) -> (r: bool)
    ensures
        r == is_prefix(p@, n@),
{
    if p.len() > n.len() {
        return false;
    }
    let mut i: usize = 0;
    while i < p.len()
        invariant
            p.len() <= n.len(),
            i <= p.len(),
            forall|k: int| 0 <= k < i ==> n[k] == p[k],
        decreases p.len() - i,
    {
        if n[i] != p[i] {
            assert(n@.subrange(0, p.len() as int)[i as int] != p@[i as int]);
            return false;
        }
        i += 1;
    }
    assert(n@.subrange(0, p.len() as int) =~= p@);
    true
}

/// Whether a section named `name` takes part in change detection.
pub fn is_selected(cfg: &DiffConfig, name: &Vec<u8>) -> (r: bool)
    ensures
        r == section_selected(*cfg, name@),
{
    let mut k: usize = 0;
    while k < cfg.section_names.len()
        invariant
            k <= cfg.section_names.len(),
            forall|q: int| 0 <= q < k ==> cfg.section_names[q]@ != name@,
        decreases cfg.section_names.len() - k,
    {
        if bytes_eq(&cfg.section_names[k], name) {
            return true;
        }
        k += 1;
    }
    let mut k: usize = 0;
    while k < cfg.section_prefixes.len()
        invariant
            k <= cfg.section_prefixes.len(),
            forall|q: int| 0 <= q < cfg.section_names.len() ==> #[trigger] cfg.section_names[q]@ != name@,
            forall|q: int| 0 <= q < k ==> !is_prefix(#[trigger] cfg.section_prefixes[q]@, name@),
        decreases cfg.section_prefixes.len() - k,
    {
        if starts_with(name, &cfg.section_prefixes[k]) {
            return true;
        }
        k += 1;
    }
    false
}

/// The first slice of `v` named `name`, if any.
pub fn find_slice(v: &Vec<SymbolSlice>, name: &Vec<u8>) -> (r: Option<usize>)
    ensures
        match r {
            Some(q) => first_slice_named(v@, name@, q as int),
            None => forall|q: int| 0 <= q < v.len() ==> #[trigger] v@[q].name@ != name@,
        },
{
    let mut q: usize = 0;
    while q < v.len()
        invariant
            q <= v.len(),
            forall|u: int| 0 <= u < q ==> #[trigger] v@[u].name@ != name@,
        decreases v.len() - q,
    {
        if bytes_eq(&v[q].name, name) {
            return Some(q);
        }
        q += 1;
    }
    None
}

fn extract_error(e: ExtractError) -> (r: DiffError)
    ensures
        r == DiffError::UnclaimedRelocation,
{
    match e {
        ExtractError::UnclaimedRelocation => DiffError::UnclaimedRelocation,
    }
}

/// Appends to `changed` the symbols of section `s` of `new_module` that count as
/// changed against `old_module`.
fn section_changes(
    old_module: &ObjectModule,
    new_module: &ObjectModule,
    s: usize,
    changed: &mut Vec<usize>,
    cfg: &DiffConfig,
) -> (r: Result<(), DiffError>)
    requires
        old_module.wf(),
        new_module.wf(),
        s < new_module.sections.len(),
        section_selected(*cfg, new_module.sections[s as int].name@),
        forall|k: int| 0 <= k < old(changed).len() ==> #[trigger] old(changed)[k] < new_module.symbols.len(),
        forall|k: int| 0 <= k < old(changed).len() ==> flagged(*cfg, *old_module, *new_module, #[trigger] old(changed)[k] as int),
    ensures
        r is Ok <==> section_pair_ok(*old_module, *new_module, s as int),
        r is Ok ==> forall|k: int| 0 <= k < final(changed).len() ==> #[trigger] final(changed)[k] < new_module.symbols.len(),
        r is Ok ==> forall|k: int|
            0 <= k < final(changed).len() ==> flagged(*cfg, *old_module, *new_module, #[trigger] final(changed)[k] as int),
        r is Ok ==> forall|x: usize| old(changed)@.contains(x) ==> #[trigger] final(changed)@.contains(x),
        r is Ok ==> forall|v: Seq<SymbolSlice>, k: int|
            #![trigger slices_of(*new_module, s as int, v), v[k]]
            slices_of(*new_module, s as int, v) && 0 <= k < v.len() && slice_changed(*old_module, *new_module, s as int, v[k])
                ==> final(changed)@.contains(v[k].symbol),
{
    let ghost start = changed@;
    let secname = &new_module.sections[s].name;
    let vn = match extract(new_module, s) {
        Ok(v) => v,
        Err(e) => {
            return Err(extract_error(e));
        },
    };
    let paired = s < old_module.sections.len() && bytes_eq(&old_module.sections[s].name, secname);
    let vo = if paired {
        match extract(old_module, s) {
            Ok(v) => v,
            Err(e) => {
                return Err(extract_error(e));
            },
        }
    } else {
        Vec::new()
    };
    let mut k: usize = 0;
    while k < vn.len()
        invariant
            new_module.wf(),
            s < new_module.sections.len(),
            secname@ == new_module.sections[s as int].name@,
            section_selected(*cfg, new_module.sections[s as int].name@),
            slices_of(*new_module, s as int, vn@),
            paired == has_counterpart(*old_module, *new_module, s as int),
            paired ==> slices_of(*old_module, s as int, vo@),
            k <= vn.len(),
            forall|q: int| 0 <= q < changed.len() ==> #[trigger] changed[q] < new_module.symbols.len(),
            forall|q: int| 0 <= q < changed.len() ==> flagged(*cfg, *old_module, *new_module, #[trigger] changed[q] as int),
            old_module.wf(),
            forall|x: usize| start.contains(x) ==> #[trigger] changed@.contains(x),
            forall|q: int|
                0 <= q < k && slice_changed(*old_module, *new_module, s as int, #[trigger] vn@[q]) ==> changed@.contains(
                    vn@[q].symbol,
                ),
        decreases vn.len() - k,
    {
        let sl = &vn[k];
        let ghost before = changed@;
        let differs = if !paired {
            true
        } else {
            match find_slice(&vo, &sl.name) {
                None => true,
                Some(q) => !compare(old_module, new_module, &vo[q], sl),
            }
        };
        if differs {
            proof {
                crate::slices::lemma_slice_symbol_in_range(*new_module, s as int, vn@, k as int);
                if paired {
                    assert(differs_from_old(*old_module, *new_module, s as int, vn@[k as int], vo@));
                }
                assert(slice_changed(*old_module, *new_module, s as int, vn@[k as int]));
                assert(flag_witness(*cfg, *old_module, *new_module, sl.symbol as int, s as int, vn@, k as int));
            }
            changed.push(sl.symbol);
            proof {
                assert(changed@[changed.len() - 1] == sl.symbol);
            }
        } else {
            proof {
                let q = choose|q: int| #[trigger] first_slice_named(vo@, sl.name@, q) && unchanged(*old_module, *new_module, vo@[q], *sl);
                lemma_not_changed(*old_module, *new_module, s as int, *sl, vo@, q);
            }
        }
        proof {
            assert forall|x: usize| before.contains(x) implies #[trigger] changed@.contains(x) by {
                let i = choose|i: int| 0 <= i < before.len() && before[i] == x;
                assert(changed@[i] == x);
            }
        }
        k += 1;
    }
    proof {
        assert forall|v: Seq<SymbolSlice>, k2: int|
            #![trigger slices_of(*new_module, s as int, v), v[k2]]
            slices_of(*new_module, s as int, v) && 0 <= k2 < v.len() && slice_changed(*old_module, *new_module, s as int, v[k2])
                implies changed@.contains(v[k2].symbol) by {
            crate::slices::lemma_slicing_unique(*new_module, s as int, v, vn@);
            lemma_changed_by_values(*old_module, *new_module, s as int, v[k2], vn@[k2]);
        }
    }
    Ok(())
}

/// The symbols of `new_module` that the masked comparison flags as changed against
/// `old_module`, over the sections that `cfg` selects.
pub fn changed_symbols(cfg: &DiffConfig, old_module: &ObjectModule, new_module: &ObjectModule) -> (r: Result<Vec<usize>, DiffError>)
    requires
        old_module.wf(),
        new_module.wf(),
    ensures
        r matches Ok(v) ==> forall|k: int| 0 <= k < v.len() ==> #[trigger] v[k] < new_module.symbols.len(),
        r matches Ok(v) ==> forall|k: int| 0 <= k < v.len() ==> flagged(*cfg, *old_module, *new_module, #[trigger] v[k] as int),
        r matches Ok(v) ==> forall|i: int| #[trigger] flagged(*cfg, *old_module, *new_module, i) ==> v@.contains(i as usize),
        r is Ok <==> sections_ok(*cfg, *old_module, *new_module),
{
    let mut changed: Vec<usize> = Vec::new();
    let mut s: usize = 0;
    while s < new_module.sections.len()
        invariant
            old_module.wf(),
            new_module.wf(),
            s <= new_module.sections.len(),
            forall|q: int| 0 <= q < changed.len() ==> #[trigger] changed[q] < new_module.symbols.len(),
            forall|q: int| 0 <= q < changed.len() ==> flagged(*cfg, *old_module, *new_module, #[trigger] changed[q] as int),
            forall|s2: int|
                0 <= s2 < s && #[trigger] section_selected(*cfg, new_module.sections[s2].name@) ==> section_pair_ok(
                    *old_module,
                    *new_module,
                    s2,
                ),
            forall|s2: int, v: Seq<SymbolSlice>, k: int|
                #![trigger slices_of(*new_module, s2, v), v[k]]
                0 <= s2 < s && section_selected(*cfg, new_module.sections[s2].name@) && slices_of(*new_module, s2, v) && 0 <= k
                    < v.len() && slice_changed(*old_module, *new_module, s2, v[k])
                    ==> changed@.contains(v[k].symbol),
        decreases new_module.sections.len() - s,
    {
        if is_selected(cfg, &new_module.sections[s].name) {
            match section_changes(old_module, new_module, s, &mut changed, cfg) {
                Ok(()) => {},
                Err(e) => {
                    assert(!section_pair_ok(*old_module, *new_module, s as int));
                    return Err(e);
                },
            }
        }
        s += 1;
    }
    proof {
        assert forall|i: int| #[trigger] flagged(*cfg, *old_module, *new_module, i) implies changed@.contains(i as usize) by {
            let (s2, vn, k) = choose|s2: int, vn: Seq<SymbolSlice>, k: int| #[trigger] flag_witness(*cfg, *old_module, *new_module, i, s2, vn, k);
            assert(slices_of(*new_module, s2, vn));
            assert(vn[k].symbol == i);
        }
    }
    Ok(changed)
}

/// A name reserved for compiler-private temporaries: it starts with `l`.
pub open spec fn is_private_name(n: Seq<u8>) -> bool {
    n.len() > 0 && n[0] == 0x6c
}

/// The name of a symbol of file `file` in structures shared across files:
/// private names get the file's name appended after `_`, others stay as they are.
pub open spec fn qualified(n: Seq<u8>, file: Seq<u8>) -> Seq<u8> {
    if is_private_name(n) {
        n + seq![0x5fu8] + file
    } else {
        n
    }
}

/// Symbol `v` of `m` is reached from the changed symbols and is published:
/// it changed itself, or it is not compiler-private.
pub open spec fn published(m: ObjectModule, changed: Seq<usize>, parents: Seq<Vec<usize>>, v: int) -> bool {
    &&& 0 <= v < m.symbols.len()
    &&& reaches(parents, changed, v)
    &&& (changed.contains(v as usize) || !is_private_name(m.symbols[v].name@))
}

/// `n` is the qualified name of a published symbol of `m`.
pub open spec fn names_published(m: ObjectModule, changed: Seq<usize>, parents: Seq<Vec<usize>>, file: Seq<u8>, n: Seq<u8>) -> bool {
    exists|v: int| published(m, changed, parents, v) && n == qualified(#[trigger] m.symbols[v].name@, file)
}

/// Edge `e` names, by qualified names, a parent edge of `parents`.
pub open spec fn edge_of_graph(m: ObjectModule, parents: Seq<Vec<usize>>, file: Seq<u8>, e: (Vec<u8>, Vec<u8>)) -> bool {
    exists|c: int, p: int|
        0 <= c < m.symbols.len() && 0 <= p < m.symbols.len() && #[trigger] parents[c]@.contains(p as usize)
            && e.0@ == qualified(m.symbols[c].name@, file) && e.1@ == qualified(m.symbols[p].name@, file)
}

/// `edges` holds the edge from `a` to `b`.
pub open spec fn has_edge(edges: Seq<(Vec<u8>, Vec<u8>)>, a: Seq<u8>, b: Seq<u8>) -> bool {
    exists|e: int| 0 <= e < edges.len() && #[trigger] edges[e].0@ == a && edges[e].1@ == b
}

/// The outcome of diffing one file present in both builds.
#[derive(Clone, Debug)]
pub struct FileDiff {
    /// Symbols of the new module that the masked comparison flags.
    pub changed: Vec<usize>,
    /// The dependency graph of the new module.
    pub graph: SymbolGraph,
    /// Qualified names of the published symbols reached from `changed`.
    pub names: Vec<Vec<u8>>,
    /// Every parent edge of the graph as (child, parent), by qualified name.
    pub parent_edges: Vec<(Vec<u8>, Vec<u8>)>,
}

impl FileDiff {
    /// This is the diff of file `file` between modules `om` and `nm`.
    #[verifier::opaque]
    pub open spec fn is_diff_of(&self, cfg: DiffConfig, om: ObjectModule, nm: ObjectModule, file: Seq<u8>) -> bool {
        let n = nm.symbols.len();
        let parents = self.graph.parents@;
        &&& self.graph.is_graph_of(nm)
        &&& forall|k: int| 0 <= k < self.changed.len() ==> #[trigger] self.changed[k] < n
        &&& forall|k: int| 0 <= k < self.changed.len() ==> flagged(cfg, om, nm, #[trigger] self.changed[k] as int)
        &&& forall|i: int| #[trigger] flagged(cfg, om, nm, i) ==> self.changed@.contains(i as usize)
        &&& forall|k: int|
            0 <= k < self.names.len() ==> names_published(nm, self.changed@, parents, file, #[trigger] self.names[k]@)
        &&& forall|v: int|
            #![trigger published(nm, self.changed@, parents, v)]
            published(nm, self.changed@, parents, v) ==> exists|k: int|
                0 <= k < self.names.len() && #[trigger] self.names[k]@ == qualified(nm.symbols[v].name@, file)
        &&& forall|e: int|
            0 <= e < self.parent_edges.len() ==> edge_of_graph(
                nm,
                parents,
                file,
                #[trigger] self.parent_edges[e],
            )
        &&& forall|c: int, p: int|
            0 <= c < n && 0 <= p < n && #[trigger] parents[c]@.contains(p as usize) ==> has_edge(
                self.parent_edges@,
                qualified(nm.symbols[c].name@, file),
                qualified(nm.symbols[p].name@, file),
            )
    }
}

/// The name of a symbol of file `file` in structures shared across files.
pub fn qualify(n: &Vec<u8>, file: &Vec<u8>) -> (r: Vec<u8>)
    ensures
        r@ == qualified(n@, file@),
{
    let mut r = copy_range(n, 0, n.len());
    assert(n@.subrange(0, n.len() as int) =~= n@);
    if n.len() > 0 && n[0] == 0x6c {
        r.push(0x5f);
        let mut i: usize = 0;
        while i < file.len()
            invariant
                i <= file.len(),
                r@ == n@ + seq![0x5fu8] + file@.subrange(0, i as int),
            decreases file.len() - i,
        {
            r.push(file[i]);
            i += 1;
            assert(r@ =~= n@ + seq![0x5fu8] + file@.subrange(0, i as int));
        }
        assert(file@.subrange(0, file.len() as int) =~= file@);
    }
    r
}

fn graph_error(e: GraphError) -> (r: DiffError)
    ensures
        e == GraphError::UnclaimedRelocation ==> r == DiffError::UnclaimedRelocation,
        e == GraphError::PointerOutOfBounds ==> r == DiffError::PointerOutOfBounds,
        e == GraphError::UnresolvedAddress ==> r == DiffError::UnresolvedAddress,
{
    match e {
        GraphError::UnclaimedRelocation => DiffError::UnclaimedRelocation,
        GraphError::PointerOutOfBounds => DiffError::PointerOutOfBounds,
        GraphError::UnresolvedAddress => DiffError::UnresolvedAddress,
    }
}

/// The qualified names of the published symbols flagged in `seen`.
fn published_names(m: &ObjectModule, file: &Vec<u8>, changed: &Vec<usize>, seen: &Vec<bool>, parents: Ghost<Seq<Vec<usize>>>) -> (names: Vec<Vec<u8>>)
    requires
        seen.len() == m.symbols.len(),
        forall|v: int| 0 <= v < seen.len() ==> (seen[v] <==> reaches(parents@, changed@, v)),
    ensures
        forall|k: int| 0 <= k < names.len() ==> names_published(*m, changed@, parents@, file@, #[trigger] names[k]@),
        forall|v: int|
            #![trigger published(*m, changed@, parents@, v)]
            published(*m, changed@, parents@, v) ==> exists|k: int|
                0 <= k < names.len() && #[trigger] names[k]@ == qualified(m.symbols[v].name@, file@),
{
    let mut names: Vec<Vec<u8>> = Vec::new();
    let mut v: usize = 0;
    while v < seen.len()
        invariant
            seen.len() == m.symbols.len(),
            forall|v: int| 0 <= v < seen.len() ==> (seen[v] <==> reaches(parents@, changed@, v)),
            v <= seen.len(),
            forall|k: int| 0 <= k < names.len() ==> names_published(*m, changed@, parents@, file@, #[trigger] names[k]@),
            forall|u: int|
                #![trigger published(*m, changed@, parents@, u)]
                0 <= u < v && published(*m, changed@, parents@, u) ==> exists|k: int|
                    0 <= k < names.len() && #[trigger] names[k]@ == qualified(m.symbols[u].name@, file@),
        decreases seen.len() - v,
    {
        let name = &m.symbols[v].name;
        let private = name.len() > 0 && name[0] == 0x6c;
        if seen[v] && (!private || crate::graph::contains_index(changed, v)) {
            let ghost before = names@;
            let q = qualify(name, file);
            names.push(q);
            proof {
                assert(published(*m, changed@, parents@, v as int));
                assert(names[names.len() - 1]@ == qualified(m.symbols[v as int].name@, file@));
                assert(names_published(*m, changed@, parents@, file@, names[names.len() - 1]@));
                assert forall|k: int| 0 <= k < names.len() implies names_published(*m, changed@, parents@, file@, #[trigger] names[k]@) by {
                    if k < before.len() {
                        assert(names[k] == before[k]);
                    }
                }
                assert forall|u: int|
                    #![trigger published(*m, changed@, parents@, u)]
                    0 <= u < v + 1 && published(*m, changed@, parents@, u) implies exists|k: int|
                        0 <= k < names.len() && #[trigger] names[k]@ == qualified(m.symbols[u].name@, file@) by {
                    if u < v {
                        let k = choose|k: int| 0 <= k < before.len() && #[trigger] before[k]@ == qualified(m.symbols[u].name@, file@);
                        assert(names[k] == before[k]);
                    } else {
                        assert(names[names.len() - 1]@ == qualified(m.symbols[u].name@, file@));
                    }
                }
            }
        }
        v += 1;
    }
    names
}

/// Every parent edge of `parents`, as (child, parent) by qualified name.
fn qualified_edges(m: &ObjectModule, file: &Vec<u8>, parents: &Vec<Vec<usize>>) -> (edges: Vec<(Vec<u8>, Vec<u8>)>)
    requires
        parents.len() == m.symbols.len(),
        forall|c: int, k: int| 0 <= c < parents.len() && 0 <= k < parents[c].len() ==> parents[c][k] < m.symbols.len(),
    ensures
        forall|e: int| 0 <= e < edges.len() ==> edge_of_graph(*m, parents@, file@, #[trigger] edges[e]),
        forall|c: int, p: int|
            0 <= c < m.symbols.len() && 0 <= p < m.symbols.len() && #[trigger] parents@[c]@.contains(p as usize)
                ==> has_edge(edges@, qualified(m.symbols[c].name@, file@), qualified(m.symbols[p].name@, file@)),
{
    let n = parents.len();
    let mut edges: Vec<(Vec<u8>, Vec<u8>)> = Vec::new();
    let mut c: usize = 0;
    while c < n
        invariant
            n == parents.len() == m.symbols.len(),
            forall|c: int, k: int| 0 <= c < parents.len() && 0 <= k < parents[c].len() ==> parents[c][k] < m.symbols.len(),
            c <= n,
            forall|e: int| 0 <= e < edges.len() ==> edge_of_graph(*m, parents@, file@, #[trigger] edges[e]),
            forall|c2: int, p: int|
                0 <= c2 < c && 0 <= p < n && #[trigger] parents@[c2]@.contains(p as usize) ==> has_edge(
                    edges@,
                    qualified(m.symbols[c2].name@, file@),
                    qualified(m.symbols[p].name@, file@),
                ),
        decreases n - c,
    {
        let child = qualify(&m.symbols[c].name, file);
        let mut k: usize = 0;
        while k < parents[c].len()
            invariant
                n == parents.len() == m.symbols.len(),
                forall|c: int, k: int| 0 <= c < parents.len() && 0 <= k < parents[c].len() ==> parents[c][k] < m.symbols.len(),
                c < n,
                k <= parents[c as int].len(),
                child@ == qualified(m.symbols[c as int].name@, file@),
                forall|e: int| 0 <= e < edges.len() ==> edge_of_graph(*m, parents@, file@, #[trigger] edges[e]),
                forall|c2: int, p: int|
                    0 <= c2 < c && 0 <= p < n && #[trigger] parents@[c2]@.contains(p as usize) ==> has_edge(
                        edges@,
                        qualified(m.symbols[c2].name@, file@),
                        qualified(m.symbols[p].name@, file@),
                    ),
                forall|q: int| 0 <= q < k ==> has_edge(
                    edges@,
                    qualified(m.symbols[c as int].name@, file@),
                    qualified(m.symbols[#[trigger] parents[c as int][q] as int].name@, file@),
                ),
            decreases parents[c as int].len() - k,
        {
            let p = parents[c][k];
            let parent = qualify(&m.symbols[p].name, file);
            let ghost before = edges@;
            let child_copy = copy_range(&child, 0, child.len());
            assert(child@.subrange(0, child.len() as int) =~= child@);
            edges.push((child_copy, parent));
            proof {
                assert(parents@[c as int]@[k as int] == p);
                assert(parents@[c as int]@.contains((p as int) as usize));
                assert(edge_of_graph(*m, parents@, file@, edges[edges.len() - 1]));
                assert forall|e: int| 0 <= e < edges.len() implies edge_of_graph(*m, parents@, file@, #[trigger] edges[e]) by {
                    if e < before.len() {
                        assert(edges[e] == before[e]);
                    }
                }
                assert forall|c2: int, p2: int|
                    0 <= c2 < c && 0 <= p2 < n && #[trigger] parents@[c2]@.contains(p2 as usize) implies has_edge(
                        edges@,
                        qualified(m.symbols[c2].name@, file@),
                        qualified(m.symbols[p2].name@, file@),
                    ) by {
                    let e = choose|e: int| 0 <= e < before.len() && #[trigger] before[e].0@ == qualified(m.symbols[c2].name@, file@) && before[e].1@ == qualified(m.symbols[p2].name@, file@);
                    assert(edges@[e] == before[e]);
                }
                assert forall|q: int| 0 <= q < k + 1 implies has_edge(
                    edges@,
                    qualified(m.symbols[c as int].name@, file@),
                    qualified(m.symbols[#[trigger] parents[c as int][q] as int].name@, file@),
                ) by {
                    if q < k {
                        let pq = parents[c as int][q] as int;
                        let e = choose|e: int| 0 <= e < before.len() && #[trigger] before[e].0@ == qualified(m.symbols[c as int].name@, file@) && before[e].1@ == qualified(m.symbols[pq].name@, file@);
                        assert(edges@[e] == before[e]);
                    } else {
                        assert(edges@[edges.len() - 1].0@ == qualified(m.symbols[c as int].name@, file@));
                    }
                }
            }
            k += 1;
        }
        proof {
            assert forall|c2: int, p: int|
                0 <= c2 < c + 1 && 0 <= p < n && #[trigger] parents@[c2]@.contains(p as usize) implies has_edge(
                    edges@,
                    qualified(m.symbols[c2].name@, file@),
                    qualified(m.symbols[p].name@, file@),
                ) by {
                if c2 == c {
                    let q = choose|q: int| 0 <= q < parents@[c2].len() && parents@[c2]@[q] == p as usize;
                    assert(parents[c as int][q] == p);
                }
            }
        }
        c += 1;
    }
    edges
}

/// Diffs one file present in both builds: flags the changed symbols of the
/// new module, builds its graph, and collects the published symbols that the
/// changes reach through parent edges, with all parent edges by qualified name.
pub fn diff_module_pair(cfg: &DiffConfig, file: &Vec<u8>, old_module: &ObjectModule, new_module: &ObjectModule) -> (r: Result<FileDiff, DiffError>)
    requires
        old_module.wf(),
        new_module.wf(),
    ensures
        r matches Ok(d) ==> d.is_diff_of(*cfg, *old_module, *new_module, file@),
        r is Ok <==> sections_ok(*cfg, *old_module, *new_module) && relocs_ok(*new_module),
{
    let changed = match changed_symbols(cfg, old_module, new_module) {
        Ok(v) => v,
        Err(e) => {
            return Err(e);
        },
    };
    let graph = match build_graph(new_module) {
        Ok(g) => g,
        Err(e) => {
            return Err(graph_error(e));
        },
    };
    proof {
        crate::graph::lemma_graph_parents_in_range(*new_module, graph);
    }
    let seen = collect_ancestors(&graph.parents, &changed);
    proof {
        assert forall|v: int| 0 <= v < seen.len() implies (seen[v] <==> reaches(graph.parents@, changed@, v)) by {
            if reaches(graph.parents@, changed@, v) {
                lemma_reached_is_seen(graph.parents@, changed@, seen@, v);
            }
        }
    }
    let names = published_names(new_module, file, &changed, &seen, Ghost(graph.parents@));
    let parent_edges = qualified_edges(new_module, file, &graph.parents);
    proof {
        assert forall|v: int| #[trigger] published(*new_module, changed@, graph.parents@, v) implies exists|k: int|
            0 <= k < names.len() && #[trigger] names[k]@ == qualified(new_module.symbols[v].name@, file@) by {
        }
    }
    let d = FileDiff { changed, graph, names, parent_edges };
    reveal(FileDiff::is_diff_of);
    assert(d.graph.is_graph_of(*new_module));
    assert(forall|k: int| 0 <= k < d.changed.len() ==> flagged(*cfg, *old_module, *new_module, #[trigger] d.changed[k] as int));
    assert(forall|k: int| 0 <= k < d.names.len() ==> names_published(*new_module, d.changed@, d.graph.parents@, file@, #[trigger] d.names[k]@));
    assert(forall|e: int| 0 <= e < d.parent_edges.len() ==> edge_of_graph(*new_module, d.graph.parents@, file@, #[trigger] d.parent_edges[e]));
    Ok(d)
}

/// The slices `v` of a module `m` compare unchanged with themselves one by
/// one: their names are distinct, and their relocations all name symbols.
pub open spec fn slices_self_comparable(m: ObjectModule, v: Seq<SymbolSlice>) -> bool {
    &&& forall|k1: int, k2: int| 0 <= k1 < k2 < v.len() ==> v[k1].name@ != v[k2].name@
    &&& forall|k: int, x: int|
        0 <= k < v.len() && 0 <= x < v[k].relocations.len() ==> target_name(m, (#[trigger] v[k].relocations[x]).target) is Some
}

/// Module `m` diffs cleanly against itself: the slices of each selected
/// section compare unchanged with themselves.
pub open spec fn self_comparable(cfg: DiffConfig, m: ObjectModule) -> bool {
    forall|s: int, v: Seq<SymbolSlice>|
        0 <= s < m.sections.len() && section_selected(cfg, m.sections[s].name@) && #[trigger] slices_of(m, s, v)
            ==> slices_self_comparable(m, v)
}

/// Diffing a module against itself flags no symbol, when the module diffs
/// cleanly against itself.
pub proof fn lemma_identical_module_unflagged(cfg: DiffConfig, m: ObjectModule, i: int)
    requires
        m.wf(),
        self_comparable(cfg, m),
    ensures
        !flagged(cfg, m, m, i),
{
    if flagged(cfg, m, m, i) {
        let (s, vn, k) = choose|s: int, vn: Seq<SymbolSlice>, k: int| #[trigger] flag_witness(cfg, m, m, i, s, vn, k);
        assert(slices_self_comparable(m, vn));
        assert(has_counterpart(m, m, s));
        let vo = choose|vo: Seq<SymbolSlice>| #[trigger] differs_from_old(m, m, s, vn[k], vo);
        lemma_slicing_unique(m, s, vo, vn);
        assert(vo[k].name@ == vn[k].name@);
        let q = choose|q: int| #[trigger] first_slice_named(vo, vn[k].name@, q) && !unchanged(m, m, vo[q], vn[k]);
        if q < k {
            assert(vo[q].name@ == vn[q].name@);
            assert(vn[q].name@ != vn[k].name@);
        } else if q > k {
            assert(vo[k].name@ != vn[k].name@);
        }
        assert forall|x: int| 0 <= x < vn[k].relocations.len() implies target_name(
            m,
            (#[trigger] vn[k].relocations[x]).target,
        ) is Some by {}
        crate::slices::lemma_slice_relocs_inside(m, s, vn, k);
        lemma_compare_reflexive(m, vn[k]);
        assert(vo[k].relocations@ == vn[k].relocations@);
        assert(vo[k].data@ == vn[k].data@);
        lemma_unchanged_by_values(m, m, vn[k], vo[k], vn[k], vn[k]);
    }
}


/// Two modules with the same symbol table whose sections at the same
/// positions hold the same values slice those sections alike.
proof fn lemma_slicing_of_same_section(om: ObjectModule, nm: ObjectModule, s: int, v: Seq<SymbolSlice>)
    requires
        om.symbols@ == nm.symbols@,
        0 <= s < nm.sections.len(),
        s < om.sections.len(),
        om.sections[s] == nm.sections[s],
        crate::slices::is_slicing(om, s, v),
    ensures
        crate::slices::is_slicing(nm, s, v),
{
    reveal(crate::slices::is_slicing);
    assert forall|i: int| #[trigger] nm.in_section(s, i) implies om.in_section(s, i) && exists|k: int|
        0 <= k < v.len() && #[trigger] v[k].symbol == i by {
        assert(om.symbols[i] == nm.symbols[i]);
    }
    assert forall|k: int| 0 <= k < v.len() implies nm.in_section(s, #[trigger] v[k].symbol as int) && om.symbols[v[k].symbol as int] == nm.symbols[v[k].symbol as int] by {
        assert(om.in_section(s, v[k].symbol as int));
    }
    assert forall|k1: int, k2: int| 0 <= k1 < k2 < v.len() implies nm.sym_before(v[k1].symbol as int, v[k2].symbol as int) by {
        assert(om.sym_before(v[k1].symbol as int, v[k2].symbol as int));
        assert(om.in_section(s, v[k1].symbol as int));
        assert(om.in_section(s, v[k2].symbol as int));
    }
}

/// Two modules with the same symbol table whose sections at one position
/// hold the same values slice that section alike.
proof fn lemma_slices_of_same_section(om: ObjectModule, nm: ObjectModule, s: int, v: Seq<SymbolSlice>)
    requires
        om.symbols@ == nm.symbols@,
        om.sections.len() == nm.sections.len(),
        0 <= s < nm.sections.len(),
        om.sections[s] == nm.sections[s],
        slices_of(om, s, v),
    ensures
        slices_of(nm, s, v),
{
    if has_content(om, s) {
        let i = choose|i: int| #[trigger] om.in_section(s, i);
        assert(om.symbols[i] == nm.symbols[i]);
        assert(nm.in_section(s, i));
        lemma_slicing_of_same_section(om, nm, s, v);
    }
    if has_content(nm, s) {
        let i = choose|i: int| #[trigger] nm.in_section(s, i);
        assert(om.symbols[i] == nm.symbols[i]);
        assert(om.in_section(s, i));
    }
}

/// Changes outside the selected sections flag nothing: when two modules
/// share their symbol table and their selected sections, and the new module
/// diffs cleanly against itself, no symbol is flagged.
pub proof fn lemma_unselected_changes_unflagged(cfg: DiffConfig, om: ObjectModule, nm: ObjectModule, i: int)
    requires
        om.wf(),
        nm.wf(),
        om.symbols@ == nm.symbols@,
        om.sections.len() == nm.sections.len(),
        forall|s: int|
            0 <= s < nm.sections.len() && #[trigger] section_selected(cfg, nm.sections[s].name@) ==> om.sections[s]
                == nm.sections[s],
        self_comparable(cfg, nm),
    ensures
        !flagged(cfg, om, nm, i),
{
    if flagged(cfg, om, nm, i) {
        let (s, vn, k) = choose|s: int, vn: Seq<SymbolSlice>, k: int| #[trigger] flag_witness(cfg, om, nm, i, s, vn, k);
        assert(om.sections[s] == nm.sections[s]);
        assert(slices_self_comparable(nm, vn));
        assert(has_counterpart(om, nm, s));
        let vo = choose|vo: Seq<SymbolSlice>| #[trigger] differs_from_old(om, nm, s, vn[k], vo);
        lemma_slices_of_same_section(om, nm, s, vo);
        lemma_slicing_unique(nm, s, vo, vn);
        assert(vo[k].name@ == vn[k].name@);
        let q = choose|q: int| #[trigger] first_slice_named(vo, vn[k].name@, q) && !unchanged(om, nm, vo[q], vn[k]);
        if q < k {
            assert(vo[q].name@ == vn[q].name@);
            assert(vn[q].name@ != vn[k].name@);
        } else if q > k {
            assert(vo[k].name@ != vn[k].name@);
        }
        crate::slices::lemma_slice_relocs_inside(nm, s, vn, k);
        assert forall|x: int| 0 <= x < vn[k].relocations.len() implies target_name(
            nm,
            (#[trigger] vn[k].relocations[x]).target,
        ) is Some && target_name(om, vn[k].relocations[x].target) == target_name(nm, vn[k].relocations[x].target) by {}
        crate::compare::lemma_masking_symmetry(om, nm, vn[k], vn[k]);
        assert(vo[k].relocations@ == vn[k].relocations@);
        assert(vo[k].data@ == vn[k].data@);
        lemma_unchanged_by_values(om, nm, vn[k], vo[k], vn[k], vn[k]);
    }
}

} // verus!
