use hotpatch_diff::forward::{imports_to_forward, live_targets, ForwardError};
use hotpatch_diff::graph::build_graph;
use hotpatch_diff::mangle::strip_mangled;
use hotpatch_diff::walk::collect_ancestors;
use hotpatch_diff::model::{RelocTarget, SectionKind};
use hotpatch_diff::reader::{
    assemble_module, has_object_extension, host_symbols, load, load_build, Arch, BuildFile, ParseError, RawRelocation,
    RawSection, RawSymbol, RawTarget,
};
use hotpatch_diff::stub::{build_stub, push_trampoline, stub_layout, stub_symbol_name, StubError};
use hotpatch_diff::tls::{get_thread_local, set_thread_local, PhoenixModId, TlsIndex};

fn b(s: &str) -> Vec<u8> {
    s.as_bytes().to_vec()
}

fn stub_for_two() -> Vec<u8> {
    build_stub(&vec![(b("_foo"), 0x1000), (b("_bar"), 0x2000)]).unwrap()
}

fn trampoline_bytes(addr: u64) -> Vec<u8> {
    let mut out = Vec::new();
    let chunks = [addr & 0xffff, (addr >> 16) & 0xffff, (addr >> 32) & 0xffff, (addr >> 48) & 0xffff];
    let bases: [u32; 4] = [0xD2800009, 0xF2A00009, 0xF2C00009, 0xF2E00009];
    for k in 0..4 {
        out.extend_from_slice(&(bases[k] | ((chunks[k] as u32) << 5)).to_le_bytes());
    }
    out.extend_from_slice(&0xD61F0120u32.to_le_bytes());
    out
}

#[test]
fn list_symbols() {
    let m = load(&stub_for_two(), Arch::Aarch64).unwrap();
    for s in &m.symbols {
        println!("{:?} {:#x} {:?}", String::from_utf8_lossy(&s.name), s.address, s.section);
    }
}

#[test]
fn trampoline_encodes_the_address() {
    let mut out = Vec::new();
    push_trampoline(&mut out, 0x0123_4567_89AB_CDEF);
    assert_eq!(
        out,
        vec![
            0xE9, 0xBD, 0x99, 0xD2, 0x69, 0x35, 0xB1, 0xF2, 0xE9, 0xAC, 0xC8, 0xF2, 0x69, 0x24, 0xE0, 0xF2,
            0x20, 0x01, 0x1F, 0xD6
        ]
    );
    assert_eq!(out, trampoline_bytes(0x0123_4567_89AB_CDEF));
}

#[test]
fn stub_layout_places_trampolines_back_to_back() {
    let (code, symbols) = stub_layout(&vec![(b("_foo"), 0x1000), (b("bar"), 0x2000)]);
    assert_eq!(code.len(), 40);
    assert_eq!(&code[0..20], &trampoline_bytes(0x1000)[..]);
    assert_eq!(&code[20..40], &trampoline_bytes(0x2000)[..]);
    assert_eq!(symbols, vec![(b("foo"), 0), (b("bar"), 20)]);
}

#[test]
fn stub_exports_each_import_with_its_trampoline() {
    let bytes = stub_for_two();
    assert_ne!(bytes, Vec::<u8>::new());
    let m = load(&bytes, Arch::Aarch64).unwrap();
    for s in &m.sections {
        println!("section {:?}", String::from_utf8_lossy(&s.name));
    }
    let text = m.sections.iter().position(|s| s.name == b("__text")).unwrap();
    assert_eq!(m.sections[text].kind, SectionKind::Text);
    let mut found: Vec<(Vec<u8>, u64)> = m
        .symbols
        .iter()
        .filter(|s| s.defined && s.global && s.section == Some(text))
        .map(|s| (stub_symbol_name(&s.name), s.address - m.sections[text].address))
        .collect();
    found.sort();
    assert_eq!(found, vec![(b("bar"), 20), (b("foo"), 0)]);
    let data = &m.sections[text].data;
    assert_eq!(&data[0..20], &trampoline_bytes(0x1000)[..]);
    assert_eq!(&data[20..40], &trampoline_bytes(0x2000)[..]);
}

#[test]
fn loading_checks_the_architecture() {
    assert_eq!(load(&stub_for_two(), Arch::X86_64).unwrap_err(), ParseError::WrongArchitecture);
}

#[test]
fn garbage_is_not_an_object() {
    assert_eq!(load(&[1, 2, 3, 4, 5], Arch::Aarch64).unwrap_err(), ParseError::NotObject);
}

#[test]
fn load_build_skips_and_reports_bad_files() {
    let files = vec![
        BuildFile { file_name: b("a.o"), bytes: stub_for_two() },
        BuildFile { file_name: b("b.o"), bytes: vec![0; 3] },
        BuildFile { file_name: b("notes.txt"), bytes: vec![0; 3] },
    ];
    let loaded = load_build(&files, Arch::Aarch64);
    assert_eq!(loaded.modules.len(), 1);
    assert_eq!(loaded.modules[0].file_name, b("a.o"));
    assert_eq!(loaded.failed, vec![b("b.o")]);
    assert!(has_object_extension(&b("x.o")));
    assert!(!has_object_extension(&b("x.obj")));
    assert!(!has_object_extension(&b(".o")));
}

fn raw_tables() -> (Vec<RawSection>, Vec<Vec<RawRelocation>>, Vec<RawSymbol>) {
    let secs = vec![RawSection { index: 1, name: b("__text"), kind: SectionKind::Text, address: 0x100, align: 4, data: vec![0; 8] }];
    let rels = vec![vec![RawRelocation { offset: 4, target: RawTarget::Symbol(7), size_bits: 32, addend: 0, pc_relative: true }]];
    let syms = vec![
        RawSymbol { index: 5, name: b("f"), address: 0x100, section: Some(1), defined: true, global: true },
        RawSymbol { index: 7, name: b("g"), address: 0, section: None, defined: false, global: true },
    ];
    (secs, rels, syms)
}

#[test]
fn assembling_turns_indices_into_positions() {
    let (secs, rels, syms) = raw_tables();
    let m = assemble_module(&secs, &rels, &syms, &vec![b("f")], &vec![b("g")]).unwrap();
    assert_eq!(m.symbols[0].section, Some(0));
    assert_eq!(m.sections[0].relocations[0].target, RelocTarget::Symbol(1));
    assert!(m.sections[0].relocations[0].pc_relative);
    assert_eq!((m.sections[0].kind, m.sections[0].align), (SectionKind::Text, 4));
    assert_eq!(m.exports, vec![b("f")]);
    assert_eq!(m.imports, vec![b("g")]);
}

#[test]
fn assembling_rejects_unknown_indices() {
    let (secs, mut rels, syms) = raw_tables();
    rels[0][0].target = RawTarget::Symbol(9);
    assert_eq!(assemble_module(&secs, &rels, &syms, &vec![], &vec![]).unwrap_err(), ParseError::Malformed);
    let (secs, mut rels, syms) = raw_tables();
    rels[0][0].offset = 8;
    assert_eq!(assemble_module(&secs, &rels, &syms, &vec![], &vec![]).unwrap_err(), ParseError::Malformed);
    let (secs, rels, mut syms) = raw_tables();
    syms[0].address = 0x200;
    assert_eq!(assemble_module(&secs, &rels, &syms, &vec![], &vec![]).unwrap_err(), ParseError::Malformed);
}

#[test]
fn strip_mangled_shortens_legacy_names() {
    assert_eq!(strip_mangled(&b("__ZN4core3fmt5write17h01E")), b("core3fmt5write17h01"));
    assert_eq!(strip_mangled(&b("_main")), b("_main"));
    assert_eq!(strip_mangled(&b("__ZN__ZN12abcEE")), b("abc"));
}

#[test]
fn module_ids_classify() {
    assert!(PhoenixModId(1).is_init_exec());
    assert!(!PhoenixModId(1).is_dynamic_library());
    assert!(PhoenixModId(2).is_dynamic_library());
    assert!(PhoenixModId(1 << 30).is_phoenix_plugin());
    assert!(!PhoenixModId(0).is_valid());
    let i = TlsIndex::new(3, 16);
    assert_eq!(i.mod_id, PhoenixModId(3));
    assert_eq!(i.offset, 16);
}

#[test]
fn thread_local_slot_round_trips() {
    let mut slot = 0u64;
    set_thread_local(&mut slot, 42);
    assert_eq!(get_thread_local(&slot), 42);
}

fn module_with(exports: &[&str], imports: &[&str]) -> hotpatch_diff::model::ObjectModule {
    hotpatch_diff::model::ObjectModule {
        sections: Vec::new(),
        symbols: Vec::new(),
        exports: exports.iter().map(|s| b(s)).collect(),
        imports: imports.iter().map(|s| b(s)).collect(),
    }
}

#[test]
fn forwarded_imports_are_exported_elsewhere_and_not_relinked() {
    let relinked = vec![module_with(&["_a"], &["_b", "_c", "_a", "_printf"])];
    let all = vec![relinked[0].clone(), module_with(&["_b", "_c", "_d"], &[])];
    let mut r: Vec<String> = imports_to_forward(&relinked, &all).iter().map(|n| String::from_utf8(n.clone()).unwrap()).collect();
    r.sort();
    assert_eq!(r, vec!["_b".to_string(), "_c".to_string()]);
}

#[test]
fn live_targets_apply_the_slide() {
    let host = vec![
        RawSymbol { index: 0, name: b("_main"), address: 0x1000, section: Some(1), defined: true, global: true },
        RawSymbol { index: 1, name: b("_b"), address: 0x1400, section: Some(1), defined: true, global: true },
        RawSymbol { index: 2, name: b("_c"), address: 0, section: None, defined: false, global: true },
    ];
    let wanted = vec![b("_b"), b("_c")];
    let r = live_targets(&wanted, &host, &b("_main"), 0x5000).unwrap();
    assert_eq!(r, vec![(b("_b"), 0x5400)]);
    assert_eq!(live_targets(&wanted, &host, &b("_start"), 0x5000).unwrap_err(), ForwardError::AnchorMissing);
    assert_eq!(live_targets(&wanted, &host, &b("_main"), 0x10).unwrap_err(), ForwardError::NegativeSlide);
}

#[test]
fn host_symbols_reads_a_symbol_table() {
    let syms = host_symbols(&stub_for_two()).unwrap();
    let mut names: Vec<Vec<u8>> = syms.iter().filter(|s| s.defined).map(|s| s.name.clone()).collect();
    names.sort();
    assert_eq!(names, vec![b("_bar"), b("_foo")]);
    assert_eq!(host_symbols(&[0u8; 4]).unwrap_err(), ParseError::NotObject);
}

#[test]
fn print_sections() {
    let m = load(&stub_for_two(), Arch::Aarch64).unwrap();
    for s in &m.sections {
        println!("{:?} {:#x} {} bytes", String::from_utf8_lossy(&s.name), s.address, s.data.len());
    }
}

#[test]
fn graph_makes_sense() {
    let m = load(&stub_for_two(), Arch::Aarch64).unwrap();
    let g = build_graph(&m).unwrap();
    for (i, s) in m.symbols.iter().enumerate() {
        let seen = collect_ancestors(&g.parents, &vec![i]);
        let parents: Vec<String> = (0..seen.len())
            .filter(|&j| seen[j] && j != i)
            .map(|j| String::from_utf8_lossy(&m.symbols[j].name).into_owned())
            .collect();
        println!("{:?} -> {:?}", String::from_utf8_lossy(&s.name), parents);
        assert!(seen[i]);
    }
}

#[test]
fn empty_stub_has_no_trampolines() {
    let bytes = build_stub(&vec![]).unwrap();
    let m = load(&bytes, Arch::Aarch64).unwrap();
    let text = m.sections.iter().position(|s| s.name == b("__text")).unwrap();
    assert!(m.sections[text].data.is_empty());
    assert!(!m.symbols.iter().any(|s| s.defined && s.global && s.section == Some(text)));
}

#[test]
fn stub_names_with_a_zero_byte_are_refused() {
    assert_eq!(build_stub(&vec![(b("_ok"), 1), (b("a\0b"), 0x1000)]).unwrap_err(), StubError::BadName);
}
