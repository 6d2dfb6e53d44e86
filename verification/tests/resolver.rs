use cmtest::AllLibs;
use cmtest::AllSymbols;
use cmtest::DefinedSymbol;
use cmtest::DepFindError;
use cmtest::DependencyGraph;
use cmtest::LibInfo;
use cmtest::UnDefinedSymbol;
use cmtest::build_dependency_graph;
use cmtest::catalog_libs;
use cmtest::get_lib_for_symbol;
use cmtest::get_static_lib_name;
use cmtest::get_symbols;
use cmtest::is_static_lib;
use cmtest::order_dependencies;
use cmtest::toposort;

use object::write::Object;
use object::write::Symbol;
use object::write::SymbolSection;
use object::Architecture;
use object::BinaryFormat;
use object::Endianness;
use object::SectionKind;
use object::SymbolFlags;
use object::SymbolKind;
use object::SymbolScope;

/// Builds a relocatable ELF object that defines and requires the given
/// symbol names.
fn make_object(defined: &[&str], undefined: &[&str]) -> Vec<u8> {
    let mut obj = Object::new(BinaryFormat::Elf, Architecture::X86_64, Endianness::Little);
    let text = obj.add_section(Vec::new(), b".text".to_vec(), SectionKind::Text);
    for name in defined {
        obj.add_symbol(Symbol {
            name: name.as_bytes().to_vec(),
            value: 0,
            size: 0,
            kind: SymbolKind::Text,
            scope: SymbolScope::Linkage,
            weak: false,
            section: SymbolSection::Section(text),
            flags: SymbolFlags::None,
        });
    }
    for name in undefined {
        obj.add_symbol(Symbol {
            name: name.as_bytes().to_vec(),
            value: 0,
            size: 0,
            kind: SymbolKind::Unknown,
            scope: SymbolScope::Linkage,
            weak: false,
            section: SymbolSection::Undefined,
            flags: SymbolFlags::None,
        });
    }
    obj.write().expect("object write failed")
}

/// Wraps object members into a static archive.
fn make_archive(members: Vec<Vec<u8>>) -> Vec<u8> {
    let mut builder = ar::Builder::new(Vec::new());
    for (i, member) in members.into_iter().enumerate() {
        let name = format!("m{}.o", i).into_bytes();
        let header = ar::Header::new(name, member.len() as u64);
        builder.append(&header, member.as_slice()).expect("archive append failed");
    }
    builder.into_inner().expect("archive finish failed")
}

fn archive_with(defined: &[&str], undefined: &[&str]) -> Vec<u8> {
    make_archive(vec![make_object(defined, undefined)])
}

fn defined_names(defined: &[DefinedSymbol]) -> Vec<Vec<u8>> {
    defined.iter().map(|d| d.symbol.clone()).collect()
}

fn names_of(libs: &[LibInfo]) -> Vec<String> {
    libs.iter().map(|l| l.name.clone()).collect()
}

#[test]
fn get_symbols_reads_real_archive() {
    let data = archive_with(&["foo"], &["bar"]);
    let (defined, undefined) = get_symbols(&data);
    let defined: Vec<Vec<u8>> = defined_names(&defined);
    assert!(defined.contains(&b"foo".to_vec()));
    assert!(!defined.contains(&b"bar".to_vec()));
    let undefined_names: Vec<Vec<u8>> = undefined.iter().map(|u| u.symbol.clone()).collect();
    assert!(undefined_names.contains(&b"bar".to_vec()));
}

#[test]
fn get_symbols_collapses_duplicates_within_archive() {
    let data = make_archive(vec![make_object(&["baz"], &[]), make_object(&["baz"], &[])]);
    let (defined, _) = get_symbols(&data);
    let count = defined_names(&defined).iter().filter(|n| n.as_slice() == b"baz").count();
    assert_eq!(count, 1);
}

#[test]
fn get_symbols_empty_on_garbage() {
    let data = vec![0u8, 1, 2, 3, 4, 5];
    let (defined, undefined) = get_symbols(&data);
    assert!(defined.is_empty());
    assert!(undefined.is_empty());
}

#[test]
fn malformed_name_reference_contributes_nothing() {
    // A GNU long-name reference whose index points past the (absent)
    // name table: tolerated as a malformed file, contributing no symbols.
    let mut data = b"!<arch>\n".to_vec();
    data.extend_from_slice(b"/5              ");
    data.extend_from_slice(b"0           ");
    data.extend_from_slice(b"0     ");
    data.extend_from_slice(b"0     ");
    data.extend_from_slice(b"644     ");
    data.extend_from_slice(b"4         ");
    data.extend_from_slice(b"`\n");
    data.extend_from_slice(b"abcd");
    let (defined, undefined) = get_symbols(&data);
    assert!(defined.is_empty());
    assert!(undefined.is_empty());
}

#[test]
fn oversized_name_table_contributes_nothing() {
    // A long-name table claiming far more bytes than the file holds.
    let mut data = b"!<arch>\n".to_vec();
    data.extend_from_slice(b"//              ");
    data.extend_from_slice(b"0           ");
    data.extend_from_slice(b"0     ");
    data.extend_from_slice(b"0     ");
    data.extend_from_slice(b"644     ");
    data.extend_from_slice(b"9999999999");
    data.extend_from_slice(b"`\n");
    let (defined, undefined) = get_symbols(&data);
    assert!(defined.is_empty());
    assert!(undefined.is_empty());
}

#[test]
fn scenario_simple_chain() {
    // A defines foo and requires bar; B defines bar. Expected order [A, B].
    let candidates = vec![
        (String::from("liba.a"), String::from("/p/a"), archive_with(&["foo"], &["bar"])),
        (String::from("libb.a"), String::from("/p/b"), archive_with(&["bar"], &[])),
    ];
    let all = catalog_libs(candidates).expect("catalog failed");
    let ordered = order_dependencies(all).expect("ordering failed");
    let names = names_of(&ordered);
    assert_eq!(names, vec![String::from("liba.a"), String::from("libb.a")]);
}

#[test]
fn scenario_cycle_detected() {
    // A requires bar from B; B requires foo from A.
    let candidates = vec![
        (String::from("liba.a"), String::from("/p"), archive_with(&["foo"], &["bar"])),
        (String::from("libb.a"), String::from("/p"), archive_with(&["bar"], &["foo"])),
    ];
    let all = catalog_libs(candidates).expect("catalog failed");
    let r = order_dependencies(all);
    assert!(matches!(r, Err(DepFindError::CylicDependency)));
}

#[test]
fn scenario_multiple_definitions() {
    // A and B both define baz; C requires baz.
    let candidates = vec![
        (String::from("liba.a"), String::from("/p"), archive_with(&["baz"], &[])),
        (String::from("libb.a"), String::from("/p"), archive_with(&["baz"], &[])),
        (String::from("libc.a"), String::from("/p"), archive_with(&["qux"], &["baz"])),
    ];
    match catalog_libs(candidates) {
        Err(DepFindError::MultipleDefines { dependency_a, dependency_b, symbol }) => {
            let mut pair = vec![dependency_a, dependency_b];
            pair.sort();
            assert_eq!(pair, vec![String::from("liba.a"), String::from("libb.a")]);
            assert_eq!(symbol.display_string(), String::from("baz"));
        }
        other => panic!("expected MultipleDefines, got {:?}", other.is_ok()),
    }
}

#[test]
fn scenario_duplicate_tolerated_when_unreferenced() {
    // A defines baz twice over (and B defines baz too), but nothing
    // requires baz: both survive, with no edge between them.
    let candidates = vec![
        (
            String::from("liba.a"),
            String::from("/p"),
            make_archive(vec![make_object(&["baz"], &[]), make_object(&["baz"], &[])]),
        ),
        (String::from("libb.a"), String::from("/p"), archive_with(&["baz"], &[])),
    ];
    let all = catalog_libs(candidates).expect("catalog failed");
    let graph = build_dependency_graph(&all);
    assert_eq!(graph.node_count, 2);
    assert!(graph.edges.is_empty());
    let ordered = order_dependencies(all).expect("ordering failed");
    let mut names = names_of(&ordered);
    names.sort();
    assert_eq!(names, vec![String::from("liba.a"), String::from("libb.a")]);
}

#[test]
fn scenario_self_reference_elided() {
    // A's own undefined symbol is satisfied by its own defined set.
    let candidates = vec![(
        String::from("liba.a"),
        String::from("/p"),
        archive_with(&["foo"], &["foo"]),
    )];
    let all = catalog_libs(candidates).expect("catalog failed");
    let graph = build_dependency_graph(&all);
    assert_eq!(graph.node_count, 1);
    assert!(graph.edges.is_empty());
    let ordered = order_dependencies(all).expect("ordering failed");
    assert_eq!(names_of(&ordered), vec![String::from("liba.a")]);
}

#[test]
fn unresolved_symbol_is_not_an_error() {
    // A requires something nothing defines: tolerated, no edge.
    let candidates = vec![(
        String::from("liba.a"),
        String::from("/p"),
        archive_with(&["foo"], &["missing"]),
    )];
    let all = catalog_libs(candidates).expect("catalog failed");
    let ordered = order_dependencies(all).expect("ordering failed");
    assert_eq!(names_of(&ordered), vec![String::from("liba.a")]);
}

#[test]
fn catalog_filters_and_deduplicates() {
    let candidates = vec![
        (String::from("notalib.txt"), String::from("/p"), archive_with(&["x"], &[])),
        (String::from("liba.a"), String::from("/first"), archive_with(&["foo"], &[])),
        (String::from("liba.a"), String::from("/second"), archive_with(&["other"], &[])),
    ];
    let all = catalog_libs(candidates).expect("catalog failed");
    assert_eq!(all.libs.len(), 1);
    assert_eq!(all.libs[0].name, String::from("liba.a"));
    // the first discovery wins
    assert_eq!(all.libs[0].dir, String::from("/first"));
    let probe = UnDefinedSymbol::new(b"foo".to_vec());
    let hit = get_lib_for_symbol(&probe, &all.all_symbols.defined);
    assert!(hit.is_some());
    let probe2 = UnDefinedSymbol::new(b"other".to_vec());
    assert!(get_lib_for_symbol(&probe2, &all.all_symbols.defined).is_none());
}

#[test]
fn toposort_orders_dag_edges() {
    // 0 -> 1, 0 -> 2, 2 -> 1, 3 alone.
    let g = DependencyGraph { node_count: 4, edges: vec![(0, 1), (0, 2), (2, 1)] };
    let order = toposort(&g).expect("acyclic graph must sort");
    assert_eq!(order.len(), 4);
    let pos = |v: usize| order.iter().position(|&x| x == v).unwrap();
    for &(u, v) in &g.edges {
        assert!(pos(u) < pos(v));
    }
}

#[test]
fn toposort_rejects_cycle() {
    let g = DependencyGraph { node_count: 3, edges: vec![(0, 1), (1, 2), (2, 0)] };
    assert!(toposort(&g).is_err());
}

#[test]
fn toposort_rejects_self_loop() {
    let g = DependencyGraph { node_count: 1, edges: vec![(0, 0)] };
    assert!(toposort(&g).is_err());
}

#[test]
fn toposort_random_dags_round_trip() {
    // Edges only from lower to higher node numbers: always acyclic.
    let mut seed: u64 = 0x2545F4914F6CDD1D;
    for n in 1..8usize {
        let mut edges: Vec<(usize, usize)> = Vec::new();
        for u in 0..n {
            for v in (u + 1)..n {
                seed = seed.wrapping_mul(6364136223846793005).wrapping_add(1442695040888963407);
                if seed >> 33 & 1 == 1 {
                    edges.push((u, v));
                }
            }
        }
        let g = DependencyGraph { node_count: n, edges };
        let order = toposort(&g).expect("acyclic graph must sort");
        assert_eq!(order.len(), n);
        let pos = |v: usize| order.iter().position(|&x| x == v).unwrap();
        for &(u, v) in &g.edges {
            assert!(pos(u) < pos(v));
        }
    }
}

#[test]
fn static_lib_name_extraction() {
    assert_eq!(get_static_lib_name("libfoo.a"), Some(String::from("foo")));
    assert_eq!(get_static_lib_name("lib.a"), Some(String::from("")));
    assert_eq!(get_static_lib_name("foo.a"), None);
    assert_eq!(get_static_lib_name("libfoo"), None);
    // the whole name must be of the form, not merely contain it
    assert_eq!(get_static_lib_name("xliby.az"), None);
    assert_eq!(get_static_lib_name("alibb.a"), None);
    assert_eq!(get_static_lib_name("libz.a.backup"), None);
    assert_eq!(get_static_lib_name("liblibx.a.a"), Some(String::from("libx.a")));
}

#[test]
fn static_lib_detection() {
    assert!(is_static_lib("libfoo.a"));
    assert!(!is_static_lib("libz.a.backup"));
    assert!(!is_static_lib("xlibfoo.apple"));
    assert!(!is_static_lib("foo.so"));
    assert!(!is_static_lib(""));
    assert!(!is_static_lib("lib"));
}

#[test]
fn symbol_display_strings() {
    let d = DefinedSymbol::new(b"hello".to_vec());
    assert_eq!(d.display_string(), String::from("hello"));
    let bad = DefinedSymbol::new(vec![0xff, 0xfe]);
    assert_eq!(bad.display_string(), String::from("Not utf8"));
    let u = UnDefinedSymbol::new(vec![0xc0]);
    assert_eq!(u.display_string(), String::from("Not utf8"));
}

#[test]
fn symbol_role_conversions() {
    let u = UnDefinedSymbol::new(b"sym".to_vec());
    let d: DefinedSymbol = u.into();
    assert_eq!(d.display_string(), String::from("sym"));
    let back: UnDefinedSymbol = d.into();
    assert_eq!(back.display_string(), String::from("sym"));
}

#[test]
fn lib_info_identity_is_name() {
    let a = LibInfo::new(String::from("liba.a"), String::from("/x"));
    let b = LibInfo::new(String::from("liba.a"), String::from("/y"));
    let c = LibInfo::new(String::from("libc.a"), String::from("/x"));
    assert!(a == b);
    assert!(a != c);
    let d = LibInfo::default();
    assert_eq!(d.name, String::new());
    assert_eq!(d.dir, String::new());
}

#[test]
fn undefined_duplicates_preserved() {
    // A member that requires the same symbol twice contributes two
    // undefined occurrences; defined duplicates collapse, undefined do not.
    let data = archive_with(&["foo"], &["bar", "bar"]);
    let (_, undefined) = get_symbols(&data);
    let count = undefined.iter().filter(|u| u.symbol.as_slice() == b"bar").count();
    assert_eq!(count, 2);
}

#[test]
fn catalog_of_nothing() {
    let all = catalog_libs(Vec::new()).expect("empty catalog must build");
    assert!(all.libs.is_empty());
    assert!(all.all_symbols.defined.is_empty());
    assert!(all.all_symbols.undefined.is_empty());
}

#[test]
fn order_dependencies_empty_catalog() {
    let all = AllLibs {
        libs: Vec::new(),
        all_symbols: AllSymbols { defined: Vec::new(), undefined: Vec::new() },
    };
    let ordered = order_dependencies(all).expect("empty catalog must order");
    assert!(ordered.is_empty());
}
