//! Comparing two builds of one symbol with relocated bytes masked out.

use vstd::prelude::*;
use crate::model::{ObjectModule, RelocTarget};
use crate::slices::SymbolSlice;

verus! {

/// The name a relocation target resolves to. Only a symbol has one; a section
/// or an absolute target cannot be compared across builds.
pub open spec fn target_name(m: ObjectModule, t: RelocTarget) -> Option<Seq<u8>> {
    match t {
        RelocTarget::Symbol(i) => if i < m.symbols.len() {
            Some(m.symbols[i as int].name@)
        } else {
            None
        },
        _ => None,
    }
}

/// Offset of relocation `x` of a slice, from the slice's start.
pub open spec fn rel_off(sl: SymbolSlice, x: int) -> int {
    sl.relocations[x].offset - sl.offset
}

/// Byte `i` of a slice lies in the field that relocation `x` patches.
pub open spec fn masks(sl: SymbolSlice, x: int, i: int) -> bool {
    &&& sl.offset <= sl.relocations[x].offset
    &&& rel_off(sl, x) <= i < rel_off(sl, x) + sl.relocations[x].width()
}

/// Byte `i` of a slice lies in the field of one of its first `n` relocations.
pub open spec fn masked_before(sl: SymbolSlice, n: int, i: int) -> bool {
    exists|x: int| 0 <= x < n && #[trigger] masks(sl, x, i)
}

/// Byte `i` of a slice lies in some relocation field: the mask is the union
/// of the fields, whatever order the relocations come in.
pub open spec fn masked(sl: SymbolSlice, i: int) -> bool {
    masked_before(sl, sl.relocations.len() as int, i)
}

/// Relocation `x` of `a` and of `b` resolve to one symbol name and patch a
/// field of one width at one place of their slices.
pub open spec fn pair_matches(om: ObjectModule, nm: ObjectModule, a: SymbolSlice, b: SymbolSlice, x: int) -> bool {
    &&& target_name(om, a.relocations[x].target) is Some
    &&& target_name(om, a.relocations[x].target) == target_name(nm, b.relocations[x].target)
    &&& a.offset <= a.relocations[x].offset
    &&& b.offset <= b.relocations[x].offset
    &&& rel_off(a, x) == rel_off(b, x)
    &&& a.relocations[x].size_bits == b.relocations[x].size_bits
}

/// Slice `a` of module `om` and slice `b` of module `nm` hold the same code:
/// same name, length and relocation count, relocations that pair up by
/// position, resolve to the same symbol names and patch the same fields, and
/// equal bytes outside those fields.
pub open spec fn unchanged(om: ObjectModule, nm: ObjectModule, a: SymbolSlice, b: SymbolSlice) -> bool {
    &&& a.relocations.len() == b.relocations.len()
    &&& a.data.len() == b.data.len()
    &&& a.name@ == b.name@
    &&& forall|x: int| 0 <= x < a.relocations.len() ==> #[trigger] pair_matches(om, nm, a, b, x)
    &&& forall|i: int| 0 <= i < a.data.len() && !masked(a, i) ==> a.data[i] == b.data[i]
}

/// Whether two byte strings are equal.
pub fn bytes_eq(a: &Vec<u8>, b: &Vec<u8>) -> (r: bool)
    ensures
        r == (a@ == b@),
{
    if a.len() != b.len() {
        return false;
    }
    let mut i: usize = 0;
    while i < a.len()
        invariant
            i <= a.len() == b.len(),
            forall|k: int| 0 <= k < i ==> a[k] == b[k],
        decreases a.len() - i,
    {
        if a[i] != b[i] {
            return false;
        }
        i += 1;
    }
    assert(a@ =~= b@);
    true
}

/// The name that target `t` resolves to in `m`, if it has one.
pub fn resolve_target_name(m: &ObjectModule, t: RelocTarget) -> (r: Option<&Vec<u8>>)
    ensures
        match r {
            Some(n) => target_name(*m, t) == Some(n@),
            None => target_name(*m, t) is None,
        },
{
    match t {
        RelocTarget::Symbol(i) => if i < m.symbols.len() {
            Some(&m.symbols[i].name)
        } else {
            None
        },
        _ => None,
    }
}

/// For each byte of `sl`, whether it lies in a relocation field.
pub fn field_mask(sl: &SymbolSlice) -> (mask: Vec<bool>)
    ensures
        mask.len() == sl.data.len(),
        forall|i: int| 0 <= i < mask.len() ==> mask[i] == masked(*sl, i),
{
    let n = sl.data.len();
    let mut mask: Vec<bool> = Vec::new();
    let mut i: usize = 0;
    while i < n
        invariant
            i <= n,
            mask.len() == i,
            forall|k: int| 0 <= k < i ==> !mask[k],
        decreases n - i,
    {
        mask.push(false);
        i += 1;
    }
    let mut x: usize = 0;
    while x < sl.relocations.len()
        invariant
            n == sl.data.len(),
            mask.len() == n,
            x <= sl.relocations.len(),
            forall|k: int| 0 <= k < n ==> mask[k] == masked_before(*sl, x as int, k),
        decreases sl.relocations.len() - x,
    {
        let r = sl.relocations[x];
        if r.offset >= sl.offset && r.offset - sl.offset < n as u64 {
            let lo = (r.offset - sl.offset) as usize;
            let w = (r.size_bits / 8) as usize;
            let hi = if w > n - lo {
                n
            } else {
                lo + w
            };
            let mut j: usize = lo;
            while j < hi
                invariant
                    n == sl.data.len(),
                    mask.len() == n,
                    lo <= j <= hi <= n,
                    lo == rel_off(*sl, x as int),
                    hi == n || hi == lo + sl.relocations[x as int].width(),
                    hi <= lo + sl.relocations[x as int].width(),
                    forall|k: int|
                        0 <= k < n ==> mask[k] == (masked_before(*sl, x as int, k) || (lo <= k < j)),
                decreases hi - j,
            {
                mask.set(j, true);
                j += 1;
            }
            proof {
                assert forall|k: int| 0 <= k < n implies mask[k] == masked_before(*sl, x + 1, k) by {
                    if masked_before(*sl, x + 1, k) && !masked_before(*sl, x as int, k) {
                        let y = choose|y: int| 0 <= y < x + 1 && #[trigger] masks(*sl, y, k);
                        assert(y == x);
                    }
                    if masked_before(*sl, x as int, k) {
                        let y = choose|y: int| 0 <= y < x && #[trigger] masks(*sl, y, k);
                        assert(masks(*sl, y, k));
                    }
                    if lo <= k < j {
                        assert(masks(*sl, x as int, k));
                    }
                }
            }
        } else {
            proof {
                assert forall|k: int| 0 <= k < n implies mask[k] == masked_before(*sl, x + 1, k) by {
                    if masked_before(*sl, x + 1, k) && !masked_before(*sl, x as int, k) {
                        let y = choose|y: int| 0 <= y < x + 1 && #[trigger] masks(*sl, y, k);
                        assert(y == x);
                    }
                    if masked_before(*sl, x as int, k) {
                        let y = choose|y: int| 0 <= y < x && #[trigger] masks(*sl, y, k);
                        assert(masks(*sl, y, k));
                    }
                }
            }
        }
        x += 1;
    }
    mask
}

/// Whether slice `old` of module `old_module` and slice `new` of module
/// `new_module` hold the same code once relocated bytes are masked out.
///
/// Relocations pair up by position and must resolve to the same symbol name;
/// a relocation to a section or to an absolute address makes the slices count
/// as changed. The bytes of the fields of `old`'s relocations are ignored;
/// every other byte must match, and so must the length and relocation count.
pub fn compare(old_module: &ObjectModule, new_module: &ObjectModule, old: &SymbolSlice, new: &SymbolSlice) -> (r: bool)
    ensures
        r == unchanged(*old_module, *new_module, *old, *new),
{
    if old.relocations.len() != new.relocations.len() {
        return false;
    }
    if old.data.len() != new.data.len() {
        return false;
    }
    if !bytes_eq(&old.name, &new.name) {
        return false;
    }
    let mut x: usize = 0;
    while x < old.relocations.len()
        invariant
            old.relocations.len() == new.relocations.len(),
            x <= old.relocations.len(),
            forall|y: int| 0 <= y < x ==> #[trigger] pair_matches(*old_module, *new_module, *old, *new, y),
        decreases old.relocations.len() - x,
    {
        let lr = old.relocations[x];
        let rr = new.relocations[x];
        let same_place = lr.offset >= old.offset && rr.offset >= new.offset && lr.offset - old.offset == rr.offset
            - new.offset && lr.size_bits == rr.size_bits;
        let same = same_place && match (
            resolve_target_name(old_module, lr.target),
            resolve_target_name(new_module, rr.target),
        ) {
            (Some(a), Some(b)) => bytes_eq(a, b),
            _ => false,
        };
        if !same {
            assert(!pair_matches(*old_module, *new_module, *old, *new, x as int));
            return false;
        }
        x += 1;
    }
    let mask = field_mask(old);
    let mut i: usize = 0;
    while i < old.data.len()
        invariant
            old.data.len() == new.data.len() == mask.len(),
            forall|k: int| 0 <= k < mask.len() ==> mask[k] == masked(*old, k),
            i <= old.data.len(),
            forall|k: int| 0 <= k < i && !masked(*old, k) ==> old.data[k] == new.data[k],
        decreases old.data.len() - i,
    {
        if !mask[i] && old.data[i] != new.data[i] {
            assert(!masked(*old, i as int) && old.data[i as int] != new.data[i as int]);
            return false;
        }
        i += 1;
    }
    true
}

/// Masking symmetry: two slices with the same name and bytes, whose
/// relocations patch the same fields of the slices and resolve pairwise to
/// the same symbol names, compare as unchanged, whatever symbol indices,
/// addends or addresses the relocations carry and in whatever order they are
/// listed.
pub proof fn lemma_masking_symmetry(om: ObjectModule, nm: ObjectModule, a: SymbolSlice, b: SymbolSlice)
    requires
        a.name@ == b.name@,
        a.data@ == b.data@,
        a.relocations.len() == b.relocations.len(),
        forall|x: int|
            0 <= x < a.relocations.len() ==> {
                &&& target_name(om, a.relocations[x].target) is Some
                &&& target_name(om, a.relocations[x].target) == target_name(nm, #[trigger] b.relocations[x].target)
                &&& a.offset <= a.relocations[x].offset
                &&& b.offset <= b.relocations[x].offset
                &&& rel_off(a, x) == rel_off(b, x)
                &&& a.relocations[x].size_bits == b.relocations[x].size_bits
            },
    ensures
        unchanged(om, nm, a, b),
{
    assert forall|x: int| 0 <= x < a.relocations.len() implies #[trigger] pair_matches(om, nm, a, b, x) by {
        assert(b.relocations[x] == b.relocations[x]);
    }
}

/// A slice compares unchanged with itself when its relocations all name
/// symbols and lie in the slice, as those of a slicing do.
pub proof fn lemma_compare_reflexive(m: ObjectModule, a: SymbolSlice)
    requires
        forall|x: int| 0 <= x < a.relocations.len() ==> target_name(m, (#[trigger] a.relocations[x]).target) is Some,
        forall|x: int| 0 <= x < a.relocations.len() ==> a.offset <= (#[trigger] a.relocations[x]).offset,
    ensures
        unchanged(m, m, a, a),
{
    lemma_masking_symmetry(m, m, a, a);
}

/// Conservative failure: slices of different lengths never compare unchanged.
pub proof fn lemma_length_change_is_change(om: ObjectModule, nm: ObjectModule, a: SymbolSlice, b: SymbolSlice)
    requires
        a.data.len() != b.data.len(),
    ensures
        !unchanged(om, nm, a, b),
{
}

} // verus!
