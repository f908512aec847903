//! Choosing the symbols that a stub forwards to the live process.

use vstd::prelude::*;
use crate::compare::bytes_eq;
use crate::snapshot::{add_names, name_set};
use crate::model::ObjectModule;
use crate::reader::RawSymbol;
use crate::slices::copy_range;

verus! {

/// Some module of `v` imports `n`.
pub open spec fn imported_by(v: Seq<ObjectModule>, n: Seq<u8>) -> bool {
    exists|k: int| 0 <= k < v.len() && #[trigger] name_set(v[k].imports@).contains(n)
}

/// Some module of `v` exports `n`.
pub open spec fn exported_by(v: Seq<ObjectModule>, n: Seq<u8>) -> bool {
    exists|k: int| 0 <= k < v.len() && #[trigger] name_set(v[k].exports@).contains(n)
}

/// The exports of `m`, or its imports.
pub open spec fn list_of(m: ObjectModule, exports: bool) -> Seq<Vec<u8>> {
    if exports {
        m.exports@
    } else {
        m.imports@
    }
}

/// Some module of `v` has `n` in its exports, or in its imports.
pub open spec fn listed_by(v: Seq<ObjectModule>, exports: bool, n: Seq<u8>) -> bool {
    exists|k: int| 0 <= k < v.len() && #[trigger] name_set(list_of(v[k], exports)).contains(n)
}

/// The names that the modules to relink import, that some module of the
/// whole build exports, and that the modules to relink do not export
/// themselves: those the stub must forward to the live process.
pub open spec fn forwarded(relinked: Seq<ObjectModule>, all: Seq<ObjectModule>) -> Set<Seq<u8>> {
    Set::new(|n: Seq<u8>| imported_by(relinked, n) && exported_by(all, n) && !exported_by(relinked, n))
}

/// The union of one name list of each module of `v`.
fn union_of(v: &Vec<ObjectModule>, exports: bool) -> (r: Vec<Vec<u8>>)
    ensures
        forall|n: Seq<u8>| name_set(r@).contains(n) <==> listed_by(v@, exports, n),
{
    let mut r: Vec<Vec<u8>> = Vec::new();
    let mut k: usize = 0;
    while k < v.len()
        invariant
            k <= v.len(),
            forall|n: Seq<u8>|
                name_set(r@).contains(n) <==> exists|q: int| 0 <= q < k && #[trigger] name_set(list_of(v@[q], exports)).contains(n),
        decreases v.len() - k,
    {
        let ghost before = r@;
        if exports {
            add_names(&mut r, &v[k].exports);
        } else {
            add_names(&mut r, &v[k].imports);
        }
        proof {
            assert(list_of(v@[k as int], exports) == if exports {
                v@[k as int].exports@
            } else {
                v@[k as int].imports@
            });
            assert forall|n: Seq<u8>|
                name_set(r@).contains(n) <==> exists|q: int| 0 <= q < k + 1 && #[trigger] name_set(list_of(v@[q], exports)).contains(n) by {
                if name_set(r@).contains(n) && !name_set(before).contains(n) {
                    assert(name_set(list_of(v@[k as int], exports)).contains(n));
                }
            }
        }
        k += 1;
    }
    r
}

/// The names that a stub must forward: imported by the modules to relink,
/// exported by some module of the build, and not exported by the modules to
/// relink.
pub fn imports_to_forward(relinked: &Vec<ObjectModule>, all: &Vec<ObjectModule>) -> (r: Vec<Vec<u8>>)
    ensures
        name_set(r@) == forwarded(relinked@, all@),
{
    let imports = union_of(relinked, false);
    let all_exports = union_of(all, true);
    let own_exports = union_of(relinked, true);
    proof {
        assert forall|n: Seq<u8>| listed_by(relinked@, false, n) <==> imported_by(relinked@, n) by {
            if imported_by(relinked@, n) {
                let k = choose|k: int| 0 <= k < relinked@.len() && #[trigger] name_set(relinked@[k].imports@).contains(n);
                assert(name_set(list_of(relinked@[k], false)).contains(n));
            }
        }
        assert forall|n: Seq<u8>| listed_by(all@, true, n) <==> exported_by(all@, n) by {
            if exported_by(all@, n) {
                let k = choose|k: int| 0 <= k < all@.len() && #[trigger] name_set(all@[k].exports@).contains(n);
                assert(name_set(list_of(all@[k], true)).contains(n));
            }
        }
        assert forall|n: Seq<u8>| listed_by(relinked@, true, n) <==> exported_by(relinked@, n) by {
            if exported_by(relinked@, n) {
                let k = choose|k: int| 0 <= k < relinked@.len() && #[trigger] name_set(relinked@[k].exports@).contains(n);
                assert(name_set(list_of(relinked@[k], true)).contains(n));
            }
        }
    }
    let mut r: Vec<Vec<u8>> = Vec::new();
    let mut j: usize = 0;
    while j < imports.len()
        invariant
            j <= imports.len(),
            forall|n: Seq<u8>| name_set(imports@).contains(n) <==> imported_by(relinked@, n),
            forall|n: Seq<u8>| name_set(all_exports@).contains(n) <==> exported_by(all@, n),
            forall|n: Seq<u8>| name_set(own_exports@).contains(n) <==> exported_by(relinked@, n),
            forall|n: Seq<u8>|
                #![trigger name_set(r@).contains(n)]
                #![trigger name_set(imports@.subrange(0, j as int)).contains(n)]
                name_set(r@).contains(n) <==> (name_set(imports@.subrange(0, j as int)).contains(n) && exported_by(
                    all@,
                    n,
                ) && !exported_by(relinked@, n)),
        decreases imports.len() - j,
    {
        let ghost before = r@;
        let n = &imports[j];
        let in_all = crate::snapshot::holds_name(&all_exports, n);
        let in_own = crate::snapshot::holds_name(&own_exports, n);
        if in_all && !in_own {
            r.push(copy_range(n, 0, n.len()));
            assert(n@.subrange(0, n.len() as int) =~= n@);
        }
        proof {
            let pre = imports@.subrange(0, j as int);
            let post = imports@.subrange(0, j + 1);
            assert(post[j as int] == imports@[j as int]);
            assert(in_all == exported_by(all@, n@));
            assert(in_own == exported_by(relinked@, n@));
            assert forall|x: Seq<u8>| name_set(post).contains(x) implies name_set(pre).contains(x) || x == n@ by {
                let i = choose|i: int| 0 <= i < post.len() && #[trigger] post[i]@ == x;
                if i < j {
                    assert(pre[i]@ == x);
                }
            }
            assert forall|x: Seq<u8>| name_set(pre).contains(x) implies name_set(post).contains(x) by {
                let i = choose|i: int| 0 <= i < pre.len() && #[trigger] pre[i]@ == x;
                assert(post[i]@ == x);
            }
            assert(name_set(post).contains(n@)) by {
                assert(post[j as int]@ == n@);
            }
            assert forall|x: Seq<u8>| name_set(before).contains(x) implies name_set(r@).contains(x) by {
                let i = choose|i: int| 0 <= i < before.len() && #[trigger] before[i]@ == x;
                assert(r@[i]@ == x);
            }
            assert forall|x: Seq<u8>| name_set(r@).contains(x) implies name_set(before).contains(x) || (x == n@ && in_all
                && !in_own) by {
                let i = choose|i: int| 0 <= i < r@.len() && #[trigger] r@[i]@ == x;
                if i < before.len() {
                    assert(before[i]@ == x);
                }
            }
            if in_all && !in_own {
                assert(name_set(r@).contains(n@)) by {
                    assert(r@[r@.len() - 1]@ == n@);
                }
            }
            assert forall|x: Seq<u8>|
                name_set(r@).contains(x) <==> (name_set(post).contains(x) && exported_by(all@, x) && !exported_by(
                    relinked@,
                    x,
                )) by {
                if name_set(r@).contains(x) {
                    if name_set(before).contains(x) {
                        assert(name_set(pre).contains(x));
                    } else {
                        assert(x == n@ && in_all && !in_own);
                    }
                }
                if name_set(post).contains(x) && exported_by(all@, x) && !exported_by(relinked@, x) {
                    if name_set(pre).contains(x) {
                        assert(name_set(before).contains(x));
                    } else {
                        assert(x == n@);
                    }
                }
            }
        }
        j += 1;
    }
    proof {
        assert(imports@.subrange(0, imports.len() as int) =~= imports@);
        assert(name_set(r@) =~= forwarded(relinked@, all@));
    }
    r
}

/// The first defined symbol of `host` named `name`, if any.
pub open spec fn first_defined_named(host: Seq<RawSymbol>, name: Seq<u8>, k: int) -> bool {
    &&& 0 <= k < host.len()
    &&& host[k].defined
    &&& host[k].name@ == name
    &&& forall|q: int| 0 <= q < k ==> !(#[trigger] host[q].defined && host[q].name@ == name)
}

/// The first defined symbol of `host` named `name`.
pub fn find_defined(host: &Vec<RawSymbol>, name: &Vec<u8>) -> (r: Option<usize>)
    ensures
        match r {
            Some(k) => first_defined_named(host@, name@, k as int),
            None => forall|q: int| 0 <= q < host.len() ==> !(#[trigger] host@[q].defined && host@[q].name@ == name@),
        },
{
    let mut k: usize = 0;
    while k < host.len()
        invariant
            k <= host.len(),
            forall|q: int| 0 <= q < k ==> !(#[trigger] host@[q].defined && host@[q].name@ == name@),
        decreases host.len() - k,
    {
        if host[k].defined && bytes_eq(&host[k].name, name) {
            return Some(k);
        }
        k += 1;
    }
    None
}

/// `e` pairs a name of `wanted` with the address of the first defined symbol
/// of `host` by that name, moved by `slide`.
pub open spec fn live_target(host: Seq<RawSymbol>, wanted: Seq<Vec<u8>>, slide: int, e: (Vec<u8>, u64)) -> bool {
    exists|k: int|
        #[trigger] first_defined_named(host, e.0@, k) && name_set(wanted).contains(e.0@) && e.1 == host[k].address + slide
}

/// Error of locating the live addresses of forwarded symbols.
#[derive(Clone, Copy, Debug, PartialEq, Eq, Structural)]
pub enum ForwardError {
    /// The host binary defines no symbol by the anchor's name.
    AnchorMissing,
    /// The live address of the anchor lies below its address in the binary.
    NegativeSlide,
}

/// The live address of each name of `wanted` that the host binary defines:
/// its address in the binary moved by the slide `live_anchor - a`, where `a`
/// is the address of the symbol `anchor` in the binary. Names the binary does
/// not define, or whose live address would not fit in 64 bits, are left out.
pub fn live_targets(wanted: &Vec<Vec<u8>>, host: &Vec<RawSymbol>, anchor: &Vec<u8>, live_anchor: u64) -> (r: Result<Vec<(Vec<u8>, u64)>, ForwardError>)
    ensures
        r is Ok <==> exists|a: int| #[trigger] first_defined_named(host@, anchor@, a) && host@[a].address <= live_anchor,
        r matches Err(e) ==> (e == ForwardError::AnchorMissing <==> forall|q: int|
            0 <= q < host.len() ==> !(#[trigger] host@[q].defined && host@[q].name@ == anchor@)),
        r matches Ok(v) ==> exists|a: int|
            #[trigger] first_defined_named(host@, anchor@, a) && host@[a].address <= live_anchor && (forall|i: int|
                0 <= i < v.len() ==> live_target(host@, wanted@, live_anchor - host@[a].address, #[trigger] v[i]))
                && (forall|j: int, k: int|
                0 <= j < wanted.len() && #[trigger] first_defined_named(host@, wanted@[j]@, k) && host@[k].address + (
                live_anchor - host@[a].address) <= u64::MAX ==> name_set(v@.map_values(|e: (Vec<u8>, u64)| e.0)).contains(
                wanted@[j]@)),
{
    let a = match find_defined(host, anchor) {
        Some(a) => a,
        None => {
            assert forall|a2: int| !#[trigger] first_defined_named(host@, anchor@, a2) by {}
            return Err(ForwardError::AnchorMissing);
        },
    };
    if host[a].address > live_anchor {
        proof {
            assert forall|a2: int| #[trigger] first_defined_named(host@, anchor@, a2) implies host@[a2].address > live_anchor by {
                if a2 < a {
                    assert(!(host@[a2].defined && host@[a2].name@ == anchor@));
                } else if a2 > a {
                    assert(!(host@[a as int].defined && host@[a as int].name@ == anchor@));
                }
            }
        }
        return Err(ForwardError::NegativeSlide);
    }
    let slide = live_anchor - host[a].address;
    let mut out: Vec<(Vec<u8>, u64)> = Vec::new();
    let mut j: usize = 0;
    while j < wanted.len()
        invariant
            j <= wanted.len(),
            first_defined_named(host@, anchor@, a as int),
            slide == live_anchor - host@[a as int].address,
            forall|i: int| 0 <= i < out.len() ==> live_target(host@, wanted@, slide as int, #[trigger] out[i]),
            forall|j2: int, k: int|
                0 <= j2 < j && #[trigger] first_defined_named(host@, wanted@[j2]@, k) && host@[k].address + slide <= u64::MAX
                    ==> name_set(out@.map_values(|e: (Vec<u8>, u64)| e.0)).contains(wanted@[j2]@),
        decreases wanted.len() - j,
    {
        let ghost before = out@;
        let ghost names_before = out@.map_values(|e: (Vec<u8>, u64)| e.0);
        match find_defined(host, &wanted[j]) {
            Some(k) => {
                if host[k].address <= u64::MAX - slide {
                    let name = copy_range(&wanted[j], 0, wanted[j].len());
                    assert(wanted@[j as int]@.subrange(0, wanted@[j as int].len() as int) =~= wanted@[j as int]@);
                    out.push((name, host[k].address + slide));
                    proof {
                        assert(name_set(wanted@).contains(wanted@[j as int]@));
                        assert forall|i: int| 0 <= i < out.len() implies live_target(host@, wanted@, slide as int, #[trigger] out[i]) by {
                            if i < before.len() {
                                assert(out@[i] == before[i]);
                            } else {
                                assert(first_defined_named(host@, out[i].0@, k as int));
                            }
                        }
                    }
                }
            },
            None => {},
        }
        proof {
            let names_after = out@.map_values(|e: (Vec<u8>, u64)| e.0);
            assert forall|j2: int, k2: int|
                0 <= j2 < j + 1 && #[trigger] first_defined_named(host@, wanted@[j2]@, k2) && host@[k2].address + slide
                    <= u64::MAX implies name_set(names_after).contains(wanted@[j2]@) by {
                if j2 < j {
                    let i = choose|i: int| 0 <= i < names_before.len() && #[trigger] names_before[i]@ == wanted@[j2]@;
                    assert(names_after[i] == names_before[i]);
                } else {
                    let k0 = choose|k0: int| #[trigger] first_defined_named(host@, wanted@[j as int]@, k0);
                    if k0 < k2 {
                        assert(!(host@[k0].defined && host@[k0].name@ == wanted@[j as int]@));
                    } else if k2 < k0 {
                        assert(!(host@[k2].defined && host@[k2].name@ == wanted@[j as int]@));
                    }
                    assert(names_after[names_after.len() - 1]@ == wanted@[j as int]@);
                }
            }
        }
        j += 1;
    }
    assert(first_defined_named(host@, anchor@, a as int));
    Ok(out)
}

} // verus!
