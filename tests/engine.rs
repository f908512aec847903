use hotpatch_diff::compare::compare;
use hotpatch_diff::diff::{changed_symbols, diff_module_pair, DiffConfig, DiffError};
use hotpatch_diff::snapshot::{diff_snapshots, files_to_relink, FileChanges, NamedModule};
use hotpatch_diff::graph::{build_graph, GraphError};
use hotpatch_diff::model::{ObjectModule, RelocTarget, Relocation, Section, SectionKind, SymbolEntry};
use hotpatch_diff::slices::{extract, ExtractError};

fn b(s: &str) -> Vec<u8> {
    s.as_bytes().to_vec()
}

fn sym(name: &str, address: u64, section: Option<usize>, global: bool) -> SymbolEntry {
    SymbolEntry { name: b(name), address, section, defined: section.is_some(), global }
}

fn rel(offset: u64, target: RelocTarget, size_bits: u8) -> Relocation {
    Relocation { offset, target, size_bits, addend: 0, pc_relative: false }
}

fn section(name: &str, address: u64, data: Vec<u8>, relocations: Vec<Relocation>) -> Section {
    Section { name: b(name), kind: SectionKind::Text, address, align: 4, data, relocations }
}

fn module(sections: Vec<Section>, symbols: Vec<SymbolEntry>) -> ObjectModule {
    ObjectModule { sections, symbols, exports: Vec::new(), imports: Vec::new() }
}

fn config() -> DiffConfig {
    DiffConfig { section_names: vec![b("__text"), b("__const")], section_prefixes: vec![b("__literal")] }
}

fn names(v: &[Vec<u8>]) -> Vec<String> {
    let mut out: Vec<String> = v.iter().map(|n| String::from_utf8(n.clone()).unwrap()).collect();
    out.sort();
    out
}

/// `foo` (8 bytes at 0 of `__text`) calls `bar` through a 32-bit relocation at
/// offset 4; `bar` lives in `__data` at `bar_addr`. `main` (8 bytes at 8)
/// calls `foo`, and `ltmp0` (8 bytes at 16) calls `main`.
fn call_chain(bar_addr: u64, foo_byte: u8, bar_first: bool) -> ObjectModule {
    let mut text = vec![foo_byte, 1, 2, 3, 0xaa, 0xbb, 0xcc, 0xdd];
    text.extend_from_slice(&[9, 9, 9, 9, 0, 0, 0, 0]);
    text.extend_from_slice(&[7, 7, 7, 7, 0, 0, 0, 0]);
    let (foo, bar, main, ltmp) = if bar_first { (1, 0, 2, 3) } else { (0, 1, 2, 3) };
    let mut symbols = vec![sym("", 0, None, false); 4];
    symbols[foo] = sym("foo", 0x1000, Some(0), true);
    symbols[bar] = sym("bar", bar_addr, Some(1), true);
    symbols[main] = sym("main", 0x1008, Some(0), true);
    symbols[ltmp] = sym("ltmp0", 0x1010, Some(0), false);
    let relocs = vec![
        rel(20, RelocTarget::Symbol(main), 32),
        rel(12, RelocTarget::Symbol(foo), 32),
        rel(4, RelocTarget::Symbol(bar), 32),
    ];
    module(
        vec![section("__text", 0x1000, text, relocs), section("__data", bar_addr, vec![0; 8], Vec::new())],
        symbols,
    )
}

fn named(name: &str, m: ObjectModule) -> NamedModule {
    NamedModule { file_name: b(name), module: m }
}

#[test]
fn unchanged_code_with_moved_target_compares_equal() {
    let old = call_chain(0x2000, 0x11, false);
    let new = call_chain(0x3000, 0x11, true);
    let vo = extract(&old, 0).unwrap();
    let vn = extract(&new, 0).unwrap();
    assert_eq!(vo[0].name, b("foo"));
    assert_eq!(vn[0].name, b("foo"));
    assert!(compare(&old, &new, &vo[0], &vn[0]));
    let st = diff_snapshots(&config(), &vec![named("a.o", old)], &vec![named("a.o", new)]).unwrap();
    assert!(st.modified_symbols.is_empty());
    assert!(st.modified_files.is_empty());
}

#[test]
fn changed_byte_propagates_to_public_ancestors() {
    let old = call_chain(0x2000, 0x11, false);
    let new = call_chain(0x2000, 0x12, false);
    let vo = extract(&old, 0).unwrap();
    let vn = extract(&new, 0).unwrap();
    assert!(!compare(&old, &new, &vo[0], &vn[0]));
    let st = diff_snapshots(&config(), &vec![named("a.o", old)], &vec![named("a.o", new)]).unwrap();
    assert_eq!(names(&st.modified_symbols), vec!["foo".to_string(), "main".to_string()]);
    assert_eq!(st.modified_files.len(), 1);
    assert_eq!(st.modified_files[0].file_name, b("a.o"));
    assert_eq!(names(&st.modified_files[0].symbols), vec!["foo".to_string(), "main".to_string()]);
}

#[test]
fn changed_private_symbol_is_qualified_with_its_file() {
    let old = call_chain(0x2000, 0x11, false);
    let mut new = call_chain(0x2000, 0x11, false);
    new.sections[0].data[16] = 8;
    let st = diff_snapshots(&config(), &vec![named("a.o", old)], &vec![named("a.o", new)]).unwrap();
    assert_eq!(names(&st.modified_symbols), vec!["ltmp0_a.o".to_string()]);
}

#[test]
fn parents_are_merged_with_qualified_names() {
    let old = call_chain(0x2000, 0x11, false);
    let new = call_chain(0x2000, 0x12, false);
    let st = diff_snapshots(&config(), &vec![named("a.o", old)], &vec![named("a.o", new)]).unwrap();
    let mut edges: Vec<(String, String)> = st
        .parents
        .iter()
        .map(|(c, p)| (String::from_utf8(c.clone()).unwrap(), String::from_utf8(p.clone()).unwrap()))
        .collect();
    edges.sort();
    assert_eq!(
        edges,
        vec![
            ("bar".to_string(), "foo".to_string()),
            ("foo".to_string(), "main".to_string()),
            ("main".to_string(), "ltmp0_a.o".to_string()),
        ]
    );
}

#[test]
fn section_relative_relocation_resolves_by_address() {
    let mut data = vec![0u8; 16];
    data[8..16].copy_from_slice(&0x2000u64.to_le_bytes());
    let m = module(
        vec![
            section("__text", 0x1000, data, vec![rel(8, RelocTarget::Section(1), 64)]),
            section("__const", 0x2000, vec![1, 2, 3, 4], Vec::new()),
        ],
        vec![sym("baz", 0x1000, Some(0), true), sym("ltmp3", 0x2000, Some(1), false)],
    );
    let g = build_graph(&m).unwrap();
    assert_eq!(g.deps[0], vec![1]);
    assert_eq!(g.parents[1], vec![0]);
    assert!(g.deps[1].is_empty());
}

#[test]
fn new_file_without_old_counterpart_is_listed_empty() {
    let a = call_chain(0x2000, 0x11, false);
    let st = diff_snapshots(
        &config(),
        &vec![named("a.o", a.clone())],
        &vec![named("a.o", a.clone()), named("c.o", a)],
    )
    .unwrap();
    assert_eq!(st.modified_files.len(), 1);
    assert_eq!(st.modified_files[0].file_name, b("c.o"));
    assert!(st.modified_files[0].symbols.is_empty());
    assert!(st.modified_symbols.is_empty());
}

#[test]
fn identical_builds_give_no_changes() {
    let a = call_chain(0x2000, 0x11, false);
    let c = call_chain(0x4000, 0x22, true);
    let old = vec![named("a.o", a.clone()), named("c.o", c.clone())];
    let new = vec![named("a.o", a), named("c.o", c)];
    let st = diff_snapshots(&config(), &old, &new).unwrap();
    assert!(st.modified_symbols.is_empty());
    assert!(st.modified_files.is_empty());
}

#[test]
fn old_only_file_is_ignored() {
    let a = call_chain(0x2000, 0x11, false);
    let st = diff_snapshots(&config(), &vec![named("gone.o", a.clone()), named("a.o", a.clone())], &vec![named("a.o", a)])
        .unwrap();
    assert!(st.modified_files.is_empty());
}

#[test]
fn slices_partition_the_section() {
    let m = call_chain(0x2000, 0x11, false);
    let v = extract(&m, 0).unwrap();
    assert_eq!(v.len(), 3);
    assert_eq!((v[0].offset, v[0].data.len()), (0, 8));
    assert_eq!((v[1].offset, v[1].data.len()), (8, 8));
    assert_eq!((v[2].offset, v[2].data.len()), (16, 8));
    assert_eq!(v[0].relocations, vec![rel(4, RelocTarget::Symbol(1), 32)]);
    assert_eq!(v[1].relocations, vec![rel(12, RelocTarget::Symbol(0), 32)]);
    assert_eq!(v[2].relocations, vec![rel(20, RelocTarget::Symbol(2), 32)]);
    let total: usize = v.iter().map(|s| s.relocations.len()).sum();
    assert_eq!(total, m.sections[0].relocations.len());
}

#[test]
fn aliased_symbols_tie_break_by_table_position() {
    let m = module(
        vec![section("__text", 0, vec![1, 2, 3, 4], vec![rel(0, RelocTarget::Absolute, 32)])],
        vec![sym("second", 0, Some(0), true), sym("first", 0, Some(0), true)],
    );
    let v = extract(&m, 0).unwrap();
    assert_eq!(v[0].name, b("second"));
    assert!(v[0].data.is_empty());
    assert!(v[0].relocations.is_empty());
    assert_eq!(v[1].name, b("first"));
    assert_eq!(v[1].data, vec![1, 2, 3, 4]);
    assert_eq!(v[1].relocations.len(), 1);
}

#[test]
fn empty_section_gives_no_slices() {
    let m = module(vec![section("__literal4", 0, Vec::new(), Vec::new())], vec![sym("x", 0, Some(0), false)]);
    assert!(extract(&m, 0).unwrap().is_empty());
}

#[test]
fn relocation_before_first_symbol_is_unclaimed() {
    let m = module(
        vec![section("__text", 0, vec![0; 8], vec![rel(0, RelocTarget::Absolute, 32)])],
        vec![sym("f", 4, Some(0), true)],
    );
    assert_eq!(extract(&m, 0).unwrap_err(), ExtractError::UnclaimedRelocation);
    assert_eq!(build_graph(&m).unwrap_err(), GraphError::UnclaimedRelocation);
    let st = diff_snapshots(&config(), &vec![named("a.o", m.clone())], &vec![named("a.o", m)]);
    assert_eq!(st.err(), Some(DiffError::UnclaimedRelocation));
}

#[test]
fn pointer_past_section_end_is_an_error() {
    let m = module(
        vec![section("__text", 0, vec![0; 8], vec![rel(4, RelocTarget::Section(0), 64)])],
        vec![sym("f", 0, Some(0), true)],
    );
    assert_eq!(build_graph(&m).unwrap_err(), GraphError::PointerOutOfBounds);
    assert_eq!(
        diff_module_pair(&config(), &b("a.o"), &m.clone(), &m).err(),
        Some(DiffError::PointerOutOfBounds)
    );
}

#[test]
fn pointer_to_no_symbol_is_an_error() {
    let m = module(
        vec![section("__text", 0, vec![0x77; 8], vec![rel(0, RelocTarget::Section(0), 64)])],
        vec![sym("f", 0, Some(0), true)],
    );
    assert_eq!(build_graph(&m).unwrap_err(), GraphError::UnresolvedAddress);
    let old = m.clone();
    assert_eq!(
        diff_module_pair(&config(), &b("a.o"), &old, &m).err(),
        Some(DiffError::UnresolvedAddress)
    );
}

#[test]
fn parents_are_the_transpose_of_deps() {
    let m = call_chain(0x2000, 0x11, false);
    let g = build_graph(&m).unwrap();
    for p in 0..g.deps.len() {
        for c in 0..g.parents.len() {
            assert_eq!(g.parents[c].contains(&p), g.deps[p].contains(&c));
        }
    }
}

#[test]
fn masking_ignores_target_indices_and_addends() {
    let old = call_chain(0x2000, 0x11, false);
    let mut new = call_chain(0x2000, 0x11, true);
    new.sections[0].relocations[2].addend = 99;
    new.sections[0].data[4] = 0x01;
    let vo = extract(&old, 0).unwrap();
    let vn = extract(&new, 0).unwrap();
    assert!(compare(&old, &new, &vo[0], &vn[0]));
}

#[test]
fn relocations_to_different_names_differ() {
    let old = call_chain(0x2000, 0x11, false);
    let mut new = call_chain(0x2000, 0x11, false);
    new.sections[0].relocations[2].target = RelocTarget::Symbol(2);
    let vo = extract(&old, 0).unwrap();
    let vn = extract(&new, 0).unwrap();
    assert!(!compare(&old, &new, &vo[0], &vn[0]));
}

#[test]
fn section_targets_compare_as_changed() {
    let m = module(
        vec![section("__text", 0, vec![0; 8], vec![rel(0, RelocTarget::Section(0), 32)])],
        vec![sym("f", 0, Some(0), true)],
    );
    let v = extract(&m, 0).unwrap();
    assert!(!compare(&m, &m, &v[0], &v[0]));
}

#[test]
fn different_lengths_compare_as_changed() {
    let old = call_chain(0x2000, 0x11, false);
    let mut new = call_chain(0x2000, 0x11, false);
    new.sections[0].data.push(0);
    let vo = extract(&old, 0).unwrap();
    let vn = extract(&new, 0).unwrap();
    assert_ne!(vo[2].data.len(), vn[2].data.len());
    assert!(!compare(&old, &new, &vo[2], &vn[2]));
}

#[test]
fn unselected_sections_do_not_trigger_changes() {
    let old = call_chain(0x2000, 0x11, false);
    let mut new = call_chain(0x2000, 0x11, false);
    new.sections[1].data[0] = 5;
    new.symbols.push(sym("d", 0x2000, Some(1), true));
    let changed = changed_symbols(&config(), &old, &new).unwrap();
    assert!(changed.is_empty());
}

#[test]
fn new_symbol_counts_as_changed() {
    let old = call_chain(0x2000, 0x11, false);
    let mut new = call_chain(0x2000, 0x11, false);
    new.symbols[3].name = b("ltmp9");
    let changed = changed_symbols(&config(), &old, &new).unwrap();
    assert_eq!(changed, vec![3]);
}

#[test]
fn ascending_relocations_compare_equal() {
    let mut m = call_chain(0x2000, 0x11, false);
    m.sections[0].relocations.reverse();
    m.sections[0].relocations.push(rel(0, RelocTarget::Symbol(1), 32));
    m.sections[0].relocations.push(rel(2, RelocTarget::Symbol(1), 32));
    let v = extract(&m, 0).unwrap();
    assert_eq!(v[0].relocations.len(), 3);
    assert!(compare(&m, &m, &v[0], &v[0]));
    let st = diff_snapshots(&config(), &vec![named("a.o", m.clone())], &vec![named("a.o", m)]).unwrap();
    assert!(st.modified_symbols.is_empty());
}

#[test]
fn masked_field_bytes_may_differ() {
    let old = call_chain(0x2000, 0x11, false);
    let mut new = call_chain(0x2000, 0x11, false);
    new.sections[0].data[5] = 0x55;
    new.sections[0].data[7] = 0x77;
    let vo = extract(&old, 0).unwrap();
    let vn = extract(&new, 0).unwrap();
    assert!(compare(&old, &new, &vo[0], &vn[0]));
}

#[test]
fn same_named_sections_pair_by_position() {
    let make = |second: u8| {
        module(
            vec![
                section("__const", 0x100, vec![1, 2, 3, 4], Vec::new()),
                section("__const", 0x200, vec![second, 6, 7, 8], Vec::new()),
            ],
            vec![sym("k1", 0x100, Some(0), true), sym("k2", 0x200, Some(1), true)],
        )
    };
    let st = diff_snapshots(&config(), &vec![named("a.o", make(5))], &vec![named("a.o", make(5))]).unwrap();
    assert!(st.modified_symbols.is_empty());
    let st = diff_snapshots(&config(), &vec![named("a.o", make(5))], &vec![named("a.o", make(9))]).unwrap();
    assert_eq!(names(&st.modified_symbols), vec!["k2".to_string()]);
}

#[test]
fn unselected_section_changes_are_ignored_by_the_diff() {
    let old = call_chain(0x2000, 0x11, false);
    let mut new = call_chain(0x2000, 0x11, false);
    new.sections[1].data[3] = 0x42;
    let st = diff_snapshots(&config(), &vec![named("a.o", old)], &vec![named("a.o", new)]).unwrap();
    assert!(st.modified_symbols.is_empty());
    assert!(st.modified_files.is_empty());
}

#[test]
fn relocations_in_a_section_without_symbols_add_nothing() {
    let mut m = call_chain(0x2000, 0x11, false);
    m.sections.push(section("__eh_frame", 0x3000, vec![0; 16], vec![rel(0, RelocTarget::Symbol(0), 32), rel(8, RelocTarget::Section(0), 64)]));
    let g = build_graph(&m).unwrap();
    assert_eq!(g.deps[0], vec![1]);
    let st = diff_snapshots(&config(), &vec![named("a.o", m.clone())], &vec![named("a.o", m)]).unwrap();
    assert!(st.modified_symbols.is_empty());
}

#[test]
fn moved_relocation_field_counts_as_changed() {
    let old = call_chain(0x2000, 0x11, false);
    let mut new = call_chain(0x2000, 0x11, false);
    new.sections[0].relocations[2].offset = 2;
    let vo = extract(&old, 0).unwrap();
    let vn = extract(&new, 0).unwrap();
    assert!(!compare(&old, &new, &vo[0], &vn[0]));
    new.sections[0].relocations[2].offset = 4;
    new.sections[0].relocations[2].size_bits = 64;
    let vn = extract(&new, 0).unwrap();
    assert!(!compare(&old, &new, &vo[0], &vn[0]));
}

#[test]
fn files_to_relink_follow_modified_files() {
    let a = call_chain(0x2000, 0x11, false);
    let new = vec![named("a.o", a.clone()), named("b.o", a.clone()), named("c.o", a)];
    let entries = vec![
        FileChanges { file_name: b("c.o"), symbols: Vec::new() },
        FileChanges { file_name: b("a.o"), symbols: vec![b("foo")] },
    ];
    assert_eq!(files_to_relink(&entries, &new), vec![0, 2]);
}
