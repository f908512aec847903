//! Diffing two builds, directory against directory.

use vstd::prelude::*;
use crate::compare::bytes_eq;
use crate::diff::{
    diff_module_pair, flagged, lemma_identical_module_unflagged, names_published, published,
    qualified, sections_ok, self_comparable, DiffConfig, DiffError, FileDiff,
};
use crate::graph::relocs_ok;
use crate::model::ObjectModule;
use crate::slices::copy_range;

verus! {

/// One object file of a build, by file name.
#[derive(Clone, Debug)]
pub struct NamedModule {
    pub file_name: Vec<u8>,
    pub module: ObjectModule,
}

/// The published symbols of one file that must be relinked.
#[derive(Clone, Debug)]
pub struct FileChanges {
    pub file_name: Vec<u8>,
    pub symbols: Vec<Vec<u8>>,
}

/// The outcome of diffing two builds.
pub struct DiffState {
    /// Qualified names of every published symbol reached from a change.
    pub modified_symbols: Vec<Vec<u8>>,
    /// The files to relink, each with its published symbols.
    pub modified_files: Vec<FileChanges>,
    /// Parent edges of all diffed files, as (child, parent) by qualified name.
    pub parents: Vec<(Vec<u8>, Vec<u8>)>,
    /// The diff of each new file that has a namesake in the old build.
    pub file_diffs: Ghost<Seq<FileDiff>>,
    /// For each entry of `modified_files`, the position of its new file.
    pub file_entries: Ghost<Seq<int>>,
}

/// The set of byte strings that `v` holds.
pub open spec fn name_set(v: Seq<Vec<u8>>) -> Set<Seq<u8>> {
    Set::new(|n: Seq<u8>| exists|k: int| 0 <= k < v.len() && #[trigger] v[k]@ == n)
}

/// The set of edges that `v` holds, by name.
pub open spec fn edge_set(v: Seq<(Vec<u8>, Vec<u8>)>) -> Set<(Seq<u8>, Seq<u8>)> {
    Set::new(|e: (Seq<u8>, Seq<u8>)| exists|k: int| 0 <= k < v.len() && #[trigger] v[k].0@ == e.0 && v[k].1@ == e.1)
}

/// Module `t` is the first module of `old` with file name `name`.
pub open spec fn first_file_named(old: Seq<NamedModule>, name: Seq<u8>, t: int) -> bool {
    &&& 0 <= t < old.len()
    &&& old[t].file_name@ == name
    &&& forall|u: int| 0 <= u < t ==> #[trigger] old[u].file_name@ != name
}

/// No module of `old` has file name `name`.
pub open spec fn no_file_named(old: Seq<NamedModule>, name: Seq<u8>) -> bool {
    forall|u: int| 0 <= u < old.len() ==> #[trigger] old[u].file_name@ != name
}

/// `d` is the diff of new file `f` against its namesake in `old`, if it has one.
pub open spec fn file_diffed(cfg: DiffConfig, old: Seq<NamedModule>, new: Seq<NamedModule>, f: int, d: FileDiff) -> bool {
    exists|t: int|
        #[trigger] first_file_named(old, new[f].file_name@, t) && d.is_diff_of(
            cfg,
            old[t].module,
            new[f].module,
            new[f].file_name@,
        )
}

/// Each of the first `n` new files without a namesake among the old ones has
/// an entry in `mf` with no symbols.
pub open spec fn unmatched_listed(old: Seq<NamedModule>, new: Seq<NamedModule>, n: int, mf: Seq<FileChanges>) -> bool {
    forall|f: int|
        #![trigger new[f]]
        0 <= f < n && no_file_named(old, new[f].file_name@) ==> exists|e: int|
            0 <= e < mf.len() && #[trigger] mf[e].file_name@ == new[f].file_name@ && mf[e].symbols.len() == 0
}

/// Each of the first `n` new files that was diffed and has published symbols
/// has an entry in `mf` with those symbols.
pub open spec fn changed_listed(old: Seq<NamedModule>, new: Seq<NamedModule>, ds: Seq<FileDiff>, n: int, mf: Seq<FileChanges>) -> bool {
    forall|f: int|
        #![trigger ds[f]]
        0 <= f < n && !no_file_named(old, new[f].file_name@) && ds[f].names.len() > 0 ==> exists|e: int|
            0 <= e < mf.len() && #[trigger] mf[e].file_name@ == new[f].file_name@ && mf[e].symbols@ == ds[f].names@
}

/// `mf` lists the files to relink among the first `n` new files: each new file
/// without a namesake, with no symbols, and each diffed file with published
/// symbols, with those symbols.
pub open spec fn files_merged(old: Seq<NamedModule>, new: Seq<NamedModule>, ds: Seq<FileDiff>, n: int, mf: Seq<FileChanges>) -> bool {
    &&& unmatched_listed(old, new, n, mf)
    &&& changed_listed(old, new, ds, n, mf)
}

/// Every entry of `mf` is the entry of the new file `owner` gives for it:
/// a new file without a namesake, with no symbols, or a diffed file with its
/// published symbols, which are not none.
pub open spec fn entries_listed(
    old: Seq<NamedModule>,
    new: Seq<NamedModule>,
    ds: Seq<FileDiff>,
    n: int,
    mf: Seq<FileChanges>,
    owner: Seq<int>,
) -> bool {
    &&& owner.len() == mf.len()
    &&& forall|e: int|
        0 <= e < mf.len() ==> {
            let f = #[trigger] owner[e];
            &&& 0 <= f < n
            &&& mf[e].file_name@ == new[f].file_name@
            &&& if no_file_named(old, new[f].file_name@) {
                mf[e].symbols.len() == 0
            } else {
                mf[e].symbols@ == ds[f].names@ && ds[f].names.len() > 0
            }
        }
}

/// `st` merges the per-file diffs `ds` of the first `n` new files.
pub open spec fn merges(cfg: DiffConfig, old: Seq<NamedModule>, new: Seq<NamedModule>, ds: Seq<FileDiff>, n: int, st: DiffState) -> bool {
    &&& ds.len() == n
    &&& forall|f: int| 0 <= f < n && !no_file_named(old, new[f].file_name@) ==> file_diffed(cfg, old, new, f, #[trigger] ds[f])
    &&& forall|x: Seq<u8>|
        name_set(st.modified_symbols@).contains(x) <==> exists|f: int|
            0 <= f < n && !no_file_named(old, new[f].file_name@) && #[trigger] name_set(ds[f].names@).contains(x)
    &&& forall|e: (Seq<u8>, Seq<u8>)|
        edge_set(st.parents@).contains(e) <==> exists|f: int|
            0 <= f < n && !no_file_named(old, new[f].file_name@) && #[trigger] edge_set(ds[f].parent_edges@).contains(e)
    &&& files_merged(old, new, ds, n, st.modified_files@)
    &&& entries_listed(old, new, ds, n, st.modified_files@, st.file_entries@)
}

/// The first module of `old` with file name `name`, if any.
pub fn find_file(old: &Vec<NamedModule>, name: &Vec<u8>) -> (r: Option<usize>)
    ensures
        match r {
            Some(t) => first_file_named(old@, name@, t as int),
            None => no_file_named(old@, name@),
        },
{
    let mut t: usize = 0;
    while t < old.len()
        invariant
            t <= old.len(),
            forall|u: int| 0 <= u < t ==> #[trigger] old@[u].file_name@ != name@,
        decreases old.len() - t,
    {
        if bytes_eq(&old[t].file_name, name) {
            return Some(t);
        }
        t += 1;
    }
    None
}

/// Whether `v` holds a byte string equal to `x`.
pub fn holds_name(v: &Vec<Vec<u8>>, x: &Vec<u8>) -> (r: bool)
    ensures
        r == name_set(v@).contains(x@),
{
    let mut k: usize = 0;
    while k < v.len()
        invariant
            k <= v.len(),
            forall|q: int| 0 <= q < k ==> #[trigger] v@[q]@ != x@,
        decreases v.len() - k,
    {
        if bytes_eq(&v[k], x) {
            return true;
        }
        k += 1;
    }
    false
}

/// Adds to `set` the byte strings of `names` that it does not hold yet.
pub fn add_names(set: &mut Vec<Vec<u8>>, names: &Vec<Vec<u8>>)
    ensures
        name_set(final(set)@) == name_set(old(set)@).union(name_set(names@)),
{
    let mut j: usize = 0;
    while j < names.len()
        invariant
            j <= names.len(),
            name_set(set@) == name_set(old(set)@).union(name_set(names@.subrange(0, j as int))),
        decreases names.len() - j,
    {
        let ghost before = set@;
        if !holds_name(set, &names[j]) {
            set.push(copy_range(&names[j], 0, names[j].len()));
            assert(names@[j as int]@.subrange(0, names@[j as int].len() as int) =~= names@[j as int]@);
        }
        proof {
            let pre = names@.subrange(0, j as int);
            let post = names@.subrange(0, j + 1);
            assert forall|x: Seq<u8>| name_set(set@).contains(x) <==> name_set(old(set)@).union(name_set(post)).contains(x) by {
                if name_set(post).contains(x) {
                    let k = choose|k: int| 0 <= k < post.len() && #[trigger] post[k]@ == x;
                    if k < j {
                        assert(pre[k]@ == x);
                    }
                }
                if name_set(pre).contains(x) {
                    let k = choose|k: int| 0 <= k < pre.len() && #[trigger] pre[k]@ == x;
                    assert(post[k]@ == x);
                }
                if name_set(before).contains(x) {
                    let k = choose|k: int| 0 <= k < before.len() && #[trigger] before[k]@ == x;
                    assert(set@[k]@ == x);
                }
                if name_set(set@).contains(x) {
                    let k = choose|k: int| 0 <= k < set@.len() && #[trigger] set@[k]@ == x;
                    if k < before.len() {
                        assert(before[k]@ == x);
                    } else {
                        assert(post[j as int]@ == x);
                    }
                }
                if x == names@[j as int]@ {
                    assert(post[j as int]@ == x);
                    if set@.len() > before.len() {
                        assert(set@[set@.len() - 1]@ == x);
                    }
                }
            }
            assert(name_set(set@) =~= name_set(old(set)@).union(name_set(post)));
        }
        j += 1;
    }
    assert(names@.subrange(0, names.len() as int) =~= names@);
}

/// Appends the edges of `extra` to `edges`.
pub fn add_edges(edges: &mut Vec<(Vec<u8>, Vec<u8>)>, extra: &Vec<(Vec<u8>, Vec<u8>)>)
    ensures
        edge_set(final(edges)@) == edge_set(old(edges)@).union(edge_set(extra@)),
{
    let mut j: usize = 0;
    while j < extra.len()
        invariant
            j <= extra.len(),
            edge_set(edges@) == edge_set(old(edges)@).union(edge_set(extra@.subrange(0, j as int))),
        decreases extra.len() - j,
    {
        let ghost before = edges@;
        let a = copy_range(&extra[j].0, 0, extra[j].0.len());
        let b = copy_range(&extra[j].1, 0, extra[j].1.len());
        proof {
            assert(extra@[j as int].0@.subrange(0, extra@[j as int].0.len() as int) =~= extra@[j as int].0@);
            assert(extra@[j as int].1@.subrange(0, extra@[j as int].1.len() as int) =~= extra@[j as int].1@);
        }
        edges.push((a, b));
        proof {
            let pre = extra@.subrange(0, j as int);
            let post = extra@.subrange(0, j + 1);
            assert forall|x: (Seq<u8>, Seq<u8>)| edge_set(edges@).contains(x) <==> edge_set(old(edges)@).union(edge_set(post)).contains(x) by {
                if edge_set(post).contains(x) {
                    let k = choose|k: int| 0 <= k < post.len() && #[trigger] post[k].0@ == x.0 && post[k].1@ == x.1;
                    if k < j {
                        assert(pre[k].0@ == x.0);
                    } else {
                        assert(edges@[edges.len() - 1].0@ == x.0);
                    }
                }
                if edge_set(pre).contains(x) {
                    let k = choose|k: int| 0 <= k < pre.len() && #[trigger] pre[k].0@ == x.0 && pre[k].1@ == x.1;
                    assert(post[k].0@ == x.0);
                }
                if edge_set(before).contains(x) {
                    let k = choose|k: int| 0 <= k < before.len() && #[trigger] before[k].0@ == x.0 && before[k].1@ == x.1;
                    assert(edges@[k].0@ == x.0);
                }
                if edge_set(edges@).contains(x) {
                    let k = choose|k: int| 0 <= k < edges@.len() && #[trigger] edges@[k].0@ == x.0 && edges@[k].1@ == x.1;
                    if k < before.len() {
                        assert(before[k].0@ == x.0);
                    } else {
                        assert(post[j as int].0@ == x.0);
                    }
                }
            }
            assert(edge_set(edges@) =~= edge_set(old(edges)@).union(edge_set(post)));
        }
        j += 1;
    }
    assert(extra@.subrange(0, extra.len() as int) =~= extra@);
}

proof fn lemma_merge_sets(
    cfg: DiffConfig,
    old: Seq<NamedModule>,
    new: Seq<NamedModule>,
    ds0: Seq<FileDiff>,
    ds1: Seq<FileDiff>,
    f: int,
    prev: DiffState,
    st: DiffState,
)
    requires
        0 <= f < new.len(),
        ds1.len() == f + 1,
        forall|g: int| 0 <= g < f ==> ds1[g] == ds0[g],
        forall|x: Seq<u8>|
            name_set(prev.modified_symbols@).contains(x) <==> exists|g: int|
                0 <= g < f && !no_file_named(old, new[g].file_name@) && #[trigger] name_set(ds0[g].names@).contains(x),
        forall|e: (Seq<u8>, Seq<u8>)|
            edge_set(prev.parents@).contains(e) <==> exists|g: int|
                0 <= g < f && !no_file_named(old, new[g].file_name@) && #[trigger] edge_set(ds0[g].parent_edges@).contains(e),
        no_file_named(old, new[f].file_name@) ==> st.modified_symbols == prev.modified_symbols && st.parents == prev.parents,
        !no_file_named(old, new[f].file_name@) ==> {
            &&& name_set(st.modified_symbols@) == name_set(prev.modified_symbols@).union(name_set(ds1[f].names@))
            &&& edge_set(st.parents@) == edge_set(prev.parents@).union(edge_set(ds1[f].parent_edges@))
        },
    ensures
        forall|x: Seq<u8>|
            name_set(st.modified_symbols@).contains(x) <==> exists|g: int|
                0 <= g < f + 1 && !no_file_named(old, new[g].file_name@) && #[trigger] name_set(ds1[g].names@).contains(x),
        forall|e: (Seq<u8>, Seq<u8>)|
            edge_set(st.parents@).contains(e) <==> exists|g: int|
                0 <= g < f + 1 && !no_file_named(old, new[g].file_name@) && #[trigger] edge_set(ds1[g].parent_edges@).contains(e),
{
    assert forall|x: Seq<u8>|
        name_set(st.modified_symbols@).contains(x) <==> exists|g: int|
            0 <= g < f + 1 && !no_file_named(old, new[g].file_name@) && #[trigger] name_set(ds1[g].names@).contains(x) by {
        if exists|g: int| 0 <= g < f + 1 && !no_file_named(old, new[g].file_name@) && #[trigger] name_set(ds1[g].names@).contains(x) {
            let g = choose|g: int| 0 <= g < f + 1 && !no_file_named(old, new[g].file_name@) && #[trigger] name_set(ds1[g].names@).contains(x);
            if g < f {
                assert(name_set(ds0[g].names@).contains(x));
            }
        }
        if name_set(st.modified_symbols@).contains(x) && !name_set(prev.modified_symbols@).contains(x) {
            assert(name_set(ds1[f].names@).contains(x));
        }
        if name_set(prev.modified_symbols@).contains(x) {
            let g = choose|g: int| 0 <= g < f && !no_file_named(old, new[g].file_name@) && #[trigger] name_set(ds0[g].names@).contains(x);
            assert(name_set(ds1[g].names@).contains(x));
        }
    }
    assert forall|x: (Seq<u8>, Seq<u8>)|
        edge_set(st.parents@).contains(x) <==> exists|g: int|
            0 <= g < f + 1 && !no_file_named(old, new[g].file_name@) && #[trigger] edge_set(ds1[g].parent_edges@).contains(x) by {
        if exists|g: int| 0 <= g < f + 1 && !no_file_named(old, new[g].file_name@) && #[trigger] edge_set(ds1[g].parent_edges@).contains(x) {
            let g = choose|g: int| 0 <= g < f + 1 && !no_file_named(old, new[g].file_name@) && #[trigger] edge_set(ds1[g].parent_edges@).contains(x);
            if g < f {
                assert(edge_set(ds0[g].parent_edges@).contains(x));
            }
        }
        if edge_set(st.parents@).contains(x) && !edge_set(prev.parents@).contains(x) {
            assert(edge_set(ds1[f].parent_edges@).contains(x));
        }
        if edge_set(prev.parents@).contains(x) {
            let g = choose|g: int| 0 <= g < f && !no_file_named(old, new[g].file_name@) && #[trigger] edge_set(ds0[g].parent_edges@).contains(x);
            assert(edge_set(ds1[g].parent_edges@).contains(x));
        }
    }
}

proof fn lemma_unmatched_listed(old: Seq<NamedModule>, new: Seq<NamedModule>, ds0: Seq<FileDiff>, ds1: Seq<FileDiff>, f: int, prev: Seq<FileChanges>, st: Seq<FileChanges>)
    requires
        0 <= f < new.len(),
        ds1.len() == f + 1,
        ds0.len() == f,
        forall|g: int| 0 <= g < f ==> ds1[g] == ds0[g],
        prev.len() <= st.len(),
        forall|e: int| 0 <= e < prev.len() ==> st[e] == prev[e],
        st.len() == prev.len() || st.len() == prev.len() + 1,
        st.len() == prev.len() + 1 ==> st.last().file_name@ == new[f].file_name@,
        no_file_named(old, new[f].file_name@) ==> st.len() == prev.len() + 1 && st.last().symbols.len() == 0,
        !no_file_named(old, new[f].file_name@) ==> (st.len() == prev.len() + 1 <==> ds1[f].names.len() > 0),
        !no_file_named(old, new[f].file_name@) && st.len() == prev.len() + 1 ==> st.last().symbols@ == ds1[f].names@,
        unmatched_listed(old, new, f, prev),
    ensures
        unmatched_listed(old, new, f + 1, st),
{
    assert forall|g: int|
        #![trigger new[g]]
        0 <= g < f + 1 && no_file_named(old, new[g].file_name@) implies exists|e: int|
            0 <= e < st.len() && #[trigger] st[e].file_name@ == new[g].file_name@ && st[e].symbols.len() == 0 by {
        if g < f {
            let e = choose|e: int| 0 <= e < prev.len() && #[trigger] prev[e].file_name@ == new[g].file_name@ && prev[e].symbols.len() == 0;
            assert(st[e] == prev[e]);
        } else {
            assert(st[st.len() - 1].file_name@ == new[g].file_name@);
        }
    }
}

proof fn lemma_changed_listed(old: Seq<NamedModule>, new: Seq<NamedModule>, ds0: Seq<FileDiff>, ds1: Seq<FileDiff>, f: int, prev: Seq<FileChanges>, st: Seq<FileChanges>)
    requires
        0 <= f < new.len(),
        ds1.len() == f + 1,
        ds0.len() == f,
        forall|g: int| 0 <= g < f ==> ds1[g] == ds0[g],
        prev.len() <= st.len(),
        forall|e: int| 0 <= e < prev.len() ==> st[e] == prev[e],
        st.len() == prev.len() || st.len() == prev.len() + 1,
        st.len() == prev.len() + 1 ==> st.last().file_name@ == new[f].file_name@,
        no_file_named(old, new[f].file_name@) ==> st.len() == prev.len() + 1 && st.last().symbols.len() == 0,
        !no_file_named(old, new[f].file_name@) ==> (st.len() == prev.len() + 1 <==> ds1[f].names.len() > 0),
        !no_file_named(old, new[f].file_name@) && st.len() == prev.len() + 1 ==> st.last().symbols@ == ds1[f].names@,
        changed_listed(old, new, ds0, f, prev),
    ensures
        changed_listed(old, new, ds1, f + 1, st),
{
    assert forall|g: int|
        #![trigger ds1[g]]
        0 <= g < f + 1 && !no_file_named(old, new[g].file_name@) && ds1[g].names.len() > 0 implies exists|e: int|
            0 <= e < st.len() && #[trigger] st[e].file_name@ == new[g].file_name@ && st[e].symbols@ == ds1[g].names@ by {
        if g < f {
            assert(ds1[g] == ds0[g]);
            let e = choose|e: int| 0 <= e < prev.len() && #[trigger] prev[e].file_name@ == new[g].file_name@ && prev[e].symbols@ == ds0[g].names@;
            assert(st[e] == prev[e]);
        } else {
            assert(st[st.len() - 1].file_name@ == new[g].file_name@);
        }
    }
}

proof fn lemma_entries_listed(
    old: Seq<NamedModule>,
    new: Seq<NamedModule>,
    ds0: Seq<FileDiff>,
    ds1: Seq<FileDiff>,
    f: int,
    prev: Seq<FileChanges>,
    st: Seq<FileChanges>,
    o0: Seq<int>,
    o1: Seq<int>,
)
    requires
        0 <= f < new.len(),
        ds1.len() == f + 1,
        ds0.len() == f,
        forall|g: int| 0 <= g < f ==> ds1[g] == ds0[g],
        prev.len() <= st.len(),
        forall|e: int| 0 <= e < prev.len() ==> st[e] == prev[e],
        st.len() == prev.len() ==> o1 == o0,
        st.len() == prev.len() + 1 ==> o1 == o0.push(f),
        st.len() == prev.len() || st.len() == prev.len() + 1,
        st.len() == prev.len() + 1 ==> st.last().file_name@ == new[f].file_name@,
        no_file_named(old, new[f].file_name@) ==> st.len() == prev.len() + 1 && st.last().symbols.len() == 0,
        !no_file_named(old, new[f].file_name@) ==> (st.len() == prev.len() + 1 <==> ds1[f].names.len() > 0),
        !no_file_named(old, new[f].file_name@) && st.len() == prev.len() + 1 ==> st.last().symbols@ == ds1[f].names@,
        entries_listed(old, new, ds0, f, prev, o0),
    ensures
        entries_listed(old, new, ds1, f + 1, st, o1),
{
    assert forall|e: int| 0 <= e < st.len() implies {
        let g = #[trigger] o1[e];
        &&& 0 <= g < f + 1
        &&& st[e].file_name@ == new[g].file_name@
        &&& if no_file_named(old, new[g].file_name@) {
            st[e].symbols.len() == 0
        } else {
            st[e].symbols@ == ds1[g].names@ && ds1[g].names.len() > 0
        }
    } by {
        if e < prev.len() {
            assert(o1[e] == o0[e]);
            let g = o0[e];
            assert(ds1[g] == ds0[g]);
            assert(st[e] == prev[e]);
        } else {
            assert(o1[e] == f);
            assert(st[e] == st.last());
        }
    }
}

proof fn lemma_merge_files(
    old: Seq<NamedModule>,
    new: Seq<NamedModule>,
    ds0: Seq<FileDiff>,
    ds1: Seq<FileDiff>,
    f: int,
    prev: Seq<FileChanges>,
    st: Seq<FileChanges>,
)
    requires
        0 <= f < new.len(),
        ds1.len() == f + 1,
        ds0.len() == f,
        forall|g: int| 0 <= g < f ==> ds1[g] == ds0[g],
        prev.len() <= st.len(),
        forall|e: int| 0 <= e < prev.len() ==> st[e] == prev[e],
        st.len() == prev.len() || st.len() == prev.len() + 1,
        st.len() == prev.len() + 1 ==> st.last().file_name@ == new[f].file_name@,
        no_file_named(old, new[f].file_name@) ==> st.len() == prev.len() + 1 && st.last().symbols.len() == 0,
        !no_file_named(old, new[f].file_name@) ==> (st.len() == prev.len() + 1 <==> ds1[f].names.len() > 0),
        !no_file_named(old, new[f].file_name@) && st.len() == prev.len() + 1 ==> st.last().symbols@ == ds1[f].names@,
        files_merged(old, new, ds0, f, prev),
    ensures
        files_merged(old, new, ds1, f + 1, st),
{
    lemma_unmatched_listed(old, new, ds0, ds1, f, prev, st);
    lemma_changed_listed(old, new, ds0, ds1, f, prev, st);
}

/// One step of `diff_snapshots` keeps the merge invariant.
proof fn lemma_merge_step(
    cfg: DiffConfig,
    old: Seq<NamedModule>,
    new: Seq<NamedModule>,
    ds0: Seq<FileDiff>,
    ds1: Seq<FileDiff>,
    f: int,
    prev: DiffState,
    st: DiffState,
)
    requires
        0 <= f < new.len(),
        merges(cfg, old, new, ds0, f, prev),
        ds1.len() == f + 1,
        ds1.subrange(0, f) == ds0,
        st.modified_files@.len() == prev.modified_files@.len() ==> st.file_entries@ == prev.file_entries@,
        st.modified_files@.len() == prev.modified_files@.len() + 1 ==> st.file_entries@ == prev.file_entries@.push(f),
        no_file_named(old, new[f].file_name@) ==> {
            &&& st.modified_symbols == prev.modified_symbols
            &&& st.parents == prev.parents
            &&& st.modified_files@.len() == prev.modified_files@.len() + 1
            &&& st.modified_files@.subrange(0, prev.modified_files@.len() as int) == prev.modified_files@
            &&& st.modified_files@.last().file_name@ == new[f].file_name@
            &&& st.modified_files@.last().symbols.len() == 0
        },
        !no_file_named(old, new[f].file_name@) ==> {
            &&& file_diffed(cfg, old, new, f, ds1[f])
            &&& name_set(st.modified_symbols@) == name_set(prev.modified_symbols@).union(name_set(ds1[f].names@))
            &&& edge_set(st.parents@) == edge_set(prev.parents@).union(edge_set(ds1[f].parent_edges@))
            &&& if ds1[f].names.len() > 0 {
                &&& st.modified_files@.len() == prev.modified_files@.len() + 1
                &&& st.modified_files@.subrange(0, prev.modified_files@.len() as int) == prev.modified_files@
                &&& st.modified_files@.last().file_name@ == new[f].file_name@
                &&& st.modified_files@.last().symbols@ == ds1[f].names@
            } else {
                st.modified_files == prev.modified_files
            }
        },
    ensures
        merges(cfg, old, new, ds1, f + 1, st),
{
    let nf = prev.modified_files@.len() as int;
    assert forall|g: int| 0 <= g < f implies ds1[g] == ds0[g] by {
        assert(ds1.subrange(0, f)[g] == ds1[g]);
    }
    assert forall|e: int| 0 <= e < nf implies st.modified_files@[e] == prev.modified_files@[e] by {
        if st.modified_files@.len() > nf {
            assert(st.modified_files@.subrange(0, nf)[e] == st.modified_files@[e]);
        }
    }
    lemma_merge_sets(cfg, old, new, ds0, ds1, f, prev, st);
    assert forall|e: int| 0 <= e < nf implies st.modified_files@[e] == prev.modified_files@[e] by {
        if st.modified_files@.len() > nf {
            assert(st.modified_files@.subrange(0, nf)[e] == st.modified_files@[e]);
        }
    }
    lemma_merge_files(old, new, ds0, ds1, f, prev.modified_files@, st.modified_files@);
    lemma_entries_listed(old, new, ds0, ds1, f, prev.modified_files@, st.modified_files@, prev.file_entries@, st.file_entries@);
    assert forall|g: int| 0 <= g < f + 1 && !no_file_named(old, new[g].file_name@) implies file_diffed(cfg, old, new, g, #[trigger] ds1[g]) by {
        if g < f {
            assert(ds1[g] == ds0[g]);
        }
    }
}

/// Each new file diffs without error against its namesake in the old build.
pub open spec fn builds_ok(cfg: DiffConfig, old_build: Seq<NamedModule>, new_build: Seq<NamedModule>) -> bool {
    forall|f: int, t: int|
        0 <= f < new_build.len() && #[trigger] first_file_named(old_build, new_build[f].file_name@, t) ==> sections_ok(
            cfg,
            old_build[t].module,
            new_build[f].module,
        ) && relocs_ok(new_build[f].module)
}

/// Some entry of `entries` is named `name`.
pub open spec fn listed_file(entries: Seq<FileChanges>, name: Seq<u8>) -> bool {
    exists|e: int| 0 <= e < entries.len() && #[trigger] entries[e].file_name@ == name
}

/// The positions in `new_build` of the files that `entries` lists, in order.
pub fn files_to_relink(entries: &Vec<FileChanges>, new_build: &Vec<NamedModule>) -> (r: Vec<usize>)
    ensures
        forall|q: int| 0 <= q < r.len() ==> r[q] < new_build.len() && listed_file(entries@, new_build@[r[q] as int].file_name@),
        forall|q1: int, q2: int| 0 <= q1 < q2 < r.len() ==> r[q1] < r[q2],
        forall|k: int|
            0 <= k < new_build.len() && #[trigger] listed_file(entries@, new_build@[k].file_name@) ==> r@.contains(k as usize),
{
    let mut r: Vec<usize> = Vec::new();
    let mut k: usize = 0;
    while k < new_build.len()
        invariant
            k <= new_build.len(),
            forall|q: int| 0 <= q < r.len() ==> r[q] < k && listed_file(entries@, new_build@[r[q] as int].file_name@),
            forall|q1: int, q2: int| 0 <= q1 < q2 < r.len() ==> r[q1] < r[q2],
            forall|j: int| 0 <= j < k && #[trigger] listed_file(entries@, new_build@[j].file_name@) ==> r@.contains(j as usize),
        decreases new_build.len() - k,
    {
        let mut e: usize = 0;
        let mut found = false;
        while e < entries.len() && !found
            invariant
                e <= entries.len(),
                k < new_build.len(),
                found ==> listed_file(entries@, new_build@[k as int].file_name@),
                !found ==> forall|q: int| 0 <= q < e ==> #[trigger] entries@[q].file_name@ != new_build@[k as int].file_name@,
            decreases entries.len() - e,
        {
            if bytes_eq(&entries[e].file_name, &new_build[k].file_name) {
                found = true;
            }
            e += 1;
        }
        let ghost before = r@;
        if found {
            r.push(k);
            proof {
                assert forall|j: int| 0 <= j < k + 1 && #[trigger] listed_file(entries@, new_build@[j].file_name@) implies r@.contains(j as usize) by {
                    if j < k {
                        let q = choose|q: int| 0 <= q < before.len() && before[q] == j as usize;
                        assert(r@[q] == j as usize);
                    } else {
                        assert(r@[r.len() - 1] == k);
                    }
                }
            }
        }
        k += 1;
    }
    r
}

/// Every module of `v` is well formed.
pub open spec fn all_wf(v: Seq<NamedModule>) -> bool {
    forall|k: int| 0 <= k < v.len() ==> (#[trigger] v[k]).module.wf()
}

/// Diffs two builds, `old_build` and `new_build`, file by file.
///
/// A new file without a namesake among the old ones must be relinked whole:
/// it gets an entry with no symbols. A file with a namesake is diffed against
/// it; its published symbols reached from a change join `modified_symbols`,
/// and it gets an entry when there are any. Old files without a namesake
/// among the new ones are ignored. An object file that breaks an invariant of
/// compiler output aborts the pass.
pub fn diff_snapshots(cfg: &DiffConfig, old_build: &Vec<NamedModule>, new_build: &Vec<NamedModule>) -> (r: Result<DiffState, DiffError>)
    requires
        all_wf(old_build@),
        all_wf(new_build@),
    ensures
        r matches Ok(st) ==> merges(*cfg, old_build@, new_build@, st.file_diffs@, new_build.len() as int, st),
        r is Ok <==> builds_ok(*cfg, old_build@, new_build@),
{
    let mut st = DiffState {
        modified_symbols: Vec::new(),
        modified_files: Vec::new(),
        parents: Vec::new(),
        file_diffs: Ghost(Seq::empty()),
        file_entries: Ghost(Seq::empty()),
    };
    let ghost mut ds: Seq<FileDiff> = Seq::empty();
    proof {
        assert(name_set(st.modified_symbols@) =~= Set::empty());
        assert(edge_set(st.parents@) =~= Set::empty());
    }
    let mut f: usize = 0;
    while f < new_build.len()
        invariant
            all_wf(old_build@),
            all_wf(new_build@),
            f <= new_build.len(),
            merges(*cfg, old_build@, new_build@, ds, f as int, st),
            forall|f2: int, t: int|
                0 <= f2 < f && #[trigger] first_file_named(old_build@, new_build@[f2].file_name@, t) ==> sections_ok(
                    *cfg,
                    old_build@[t].module,
                    new_build@[f2].module,
                ) && relocs_ok(new_build@[f2].module),
        decreases new_build.len() - f,
    {
        let name = &new_build[f].file_name;
        let ghost prev = st;
        let ghost ds_before = ds;
        match find_file(old_build, name) {
            None => {
                st.modified_files.push(FileChanges { file_name: copy_range(name, 0, name.len()), symbols: Vec::new() });
                st.file_entries = Ghost(prev.file_entries@.push(f as int));
                proof {
                    assert(st.modified_files@.subrange(0, prev.modified_files@.len() as int) =~= prev.modified_files@);
                    assert(name@.subrange(0, name.len() as int) =~= name@);
                    ds = ds.push(vstd::pervasive::arbitrary());
                }
            },
            Some(t) => {
                assert(old_build@[t as int].module.wf());
                assert(new_build@[f as int].module.wf());
                let d = match diff_module_pair(cfg, name, &old_build[t].module, &new_build[f].module) {
                    Ok(d) => d,
                    Err(e) => {
                        assert(first_file_named(old_build@, new_build@[f as int].file_name@, t as int));
                        return Err(e);
                    },
                };
                add_names(&mut st.modified_symbols, &d.names);
                add_edges(&mut st.parents, &d.parent_edges);
                proof {
                    assert(file_diffed(*cfg, old_build@, new_build@, f as int, d));
                    ds = ds.push(d);
                }
                if d.names.len() > 0 {
                    let entry = FileChanges { file_name: copy_range(name, 0, name.len()), symbols: d.names };
                    assert(name@.subrange(0, name.len() as int) =~= name@);
                    st.modified_files.push(entry);
                    st.file_entries = Ghost(prev.file_entries@.push(f as int));
                    assert(st.modified_files@.subrange(0, prev.modified_files@.len() as int) =~= prev.modified_files@);
                }
            },
        }
        proof {
            assert forall|f2: int, t: int|
                0 <= f2 < f + 1 && #[trigger] first_file_named(old_build@, new_build@[f2].file_name@, t) implies sections_ok(
                    *cfg,
                    old_build@[t].module,
                    new_build@[f2].module,
                ) && relocs_ok(new_build@[f2].module) by {
                if f2 == f {
                    if no_file_named(old_build@, name@) {
                        assert(old_build@[t].file_name@ == name@);
                    } else {
                        let t0 = choose|t0: int| #[trigger] first_file_named(old_build@, new_build@[f2].file_name@, t0) && ds[f2].is_diff_of(
                            *cfg,
                            old_build@[t0].module,
                            new_build@[f2].module,
                            new_build@[f2].file_name@,
                        );
                        if t < t0 {
                            assert(old_build@[t].file_name@ == name@);
                        } else if t > t0 {
                            assert(old_build@[t0].file_name@ == name@);
                        }
                    }
                }
            }
            assert(ds.subrange(0, f as int) =~= ds_before);
            lemma_merge_step(*cfg, old_build@, new_build@, ds_before, ds, f as int, prev, st);
        }
        f += 1;
    }
    st.file_diffs = Ghost(ds);
    Ok(st)
}

/// Propagation soundness: every symbol that a diff pass reports as modified
/// is a published symbol of some diffed file, reached through parent edges
/// (zero or more) from a symbol that the masked comparison flagged there.
pub proof fn lemma_propagation_sound(
    cfg: DiffConfig,
    old_build: Seq<NamedModule>,
    new_build: Seq<NamedModule>,
    st: DiffState,
    x: Seq<u8>,
)
    requires
        merges(cfg, old_build, new_build, st.file_diffs@, new_build.len() as int, st),
        name_set(st.modified_symbols@).contains(x),
    ensures
        exists|f: int, t: int, v: int|
            #![trigger first_file_named(old_build, new_build[f].file_name@, t), new_build[f].module.symbols[v]]
            0 <= f < new_build.len() && first_file_named(old_build, new_build[f].file_name@, t) && {
                let d = st.file_diffs@[f];
                let nm = new_build[f].module;
                &&& forall|k: int| 0 <= k < d.changed.len() ==> flagged(cfg, old_build[t].module, nm, #[trigger] d.changed[k] as int)
                &&& published(nm, d.changed@, d.graph.parents@, v)
                &&& x == qualified(nm.symbols[v].name@, new_build[f].file_name@)
            },
{
    let ds = st.file_diffs@;
    let f = choose|f: int| 0 <= f < new_build.len() && !no_file_named(old_build, new_build[f].file_name@) && #[trigger] name_set(ds[f].names@).contains(x);
    assert(file_diffed(cfg, old_build, new_build, f, ds[f]));
    let t = choose|t: int| #[trigger] first_file_named(old_build, new_build[f].file_name@, t) && ds[f].is_diff_of(
        cfg,
        old_build[t].module,
        new_build[f].module,
        new_build[f].file_name@,
    );
    reveal(FileDiff::is_diff_of);
    let k = choose|k: int| 0 <= k < ds[f].names.len() && #[trigger] ds[f].names[k]@ == x;
    assert(names_published(new_build[f].module, ds[f].changed@, ds[f].graph.parents@, new_build[f].file_name@, ds[f].names[k]@));
    let v = choose|v: int| published(new_build[f].module, ds[f].changed@, ds[f].graph.parents@, v) && ds[f].names[k]@ == qualified(#[trigger] new_build[f].module.symbols[v].name@, new_build[f].file_name@);
    assert(first_file_named(old_build, new_build[f].file_name@, t));
    assert(new_build[f].module.symbols[v] == new_build[f].module.symbols[v]);
}

proof fn lemma_identical_file_publishes_nothing(cfg: DiffConfig, b: Seq<NamedModule>, st: DiffState, f: int)
    requires
        all_wf(b),
        forall|f1: int, f2: int| 0 <= f1 < f2 < b.len() ==> b[f1].file_name@ != b[f2].file_name@,
        forall|g: int| 0 <= g < b.len() ==> self_comparable(cfg, (#[trigger] b[g]).module),
        merges(cfg, b, b, st.file_diffs@, b.len() as int, st),
        0 <= f < b.len(),
    ensures
        !no_file_named(b, b[f].file_name@),
        st.file_diffs@[f].names.len() == 0,
{
    assert(b[f].file_name@ == b[f].file_name@);
    let ds = st.file_diffs@;
    assert(file_diffed(cfg, b, b, f, ds[f]));
    let t = choose|t: int| #[trigger] first_file_named(b, b[f].file_name@, t) && ds[f].is_diff_of(cfg, b[t].module, b[f].module, b[f].file_name@);
    if t < f {
        assert(b[t].file_name@ != b[f].file_name@);
    } else if t > f {
        assert(b[f].file_name@ != b[f].file_name@);
    }
    let d = ds[f];
    let m = b[f].module;
    assert(m.wf());
    reveal(FileDiff::is_diff_of);
    if d.names.len() > 0 {
        assert(names_published(m, d.changed@, d.graph.parents@, b[f].file_name@, d.names[0]@));
        let v = choose|v: int| published(m, d.changed@, d.graph.parents@, v) && d.names[0]@ == qualified(#[trigger] m.symbols[v].name@, b[f].file_name@);
        let path = choose|path: Seq<usize>| #[trigger] crate::walk::is_parent_path(d.graph.parents@, d.changed@, path) && path.last() == v;
        let c = choose|c: int| 0 <= c < d.changed.len() && d.changed@[c] == path[0];
        assert(flagged(cfg, m, m, d.changed[c] as int));
        lemma_identical_module_unflagged(cfg, m, d.changed[c] as int);
    }
}

/// Idempotence: diffing a build against an identical copy of itself reports
/// no modified symbol and no file to relink, when its file names are distinct
/// and each of its modules diffs cleanly against itself.
pub proof fn lemma_identical_builds_unchanged(cfg: DiffConfig, b: Seq<NamedModule>, st: DiffState)
    requires
        all_wf(b),
        forall|f1: int, f2: int| 0 <= f1 < f2 < b.len() ==> b[f1].file_name@ != b[f2].file_name@,
        forall|f: int| 0 <= f < b.len() ==> self_comparable(cfg, (#[trigger] b[f]).module),
        merges(cfg, b, b, st.file_diffs@, b.len() as int, st),
    ensures
        st.modified_symbols.len() == 0,
        st.modified_files.len() == 0,
{
    let ds = st.file_diffs@;
    if st.modified_symbols.len() > 0 {
        let x = st.modified_symbols[0]@;
        assert(name_set(st.modified_symbols@).contains(x));
        let f = choose|f: int| 0 <= f < b.len() && !no_file_named(b, b[f].file_name@) && #[trigger] name_set(ds[f].names@).contains(x);
        lemma_identical_file_publishes_nothing(cfg, b, st, f);
    }
    if st.modified_files.len() > 0 {
        let f = st.file_entries@[0];
        lemma_identical_file_publishes_nothing(cfg, b, st, f);
    }
}

} // verus!
