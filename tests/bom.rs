use cargo_bom::bom::{bom_entry, build_bom, compare_entries, BomEntry};
use cargo_bom::collect::{
    all_dependencies, find_package, is_member, top_level_dependencies, CollectError, DepKind,
    Dependency, Package, PackageId,
};
use cargo_bom::license::{package_licenses, parse_license_expression, Licenses};
use cargo_bom::locate::{is_license_file_name, package_license_files, DirEntry};
use cargo_bom::order::compare_bytes;
use cargo_bom::report::{dump_plan, render_table, table_text, DumpStep};

fn id(name: &str, version: &str) -> PackageId {
    PackageId { name: name.as_bytes().to_vec(), version: version.as_bytes().to_vec() }
}

fn dep(name: &str, version: &str, kind: DepKind) -> Dependency {
    Dependency { target: Some(id(name, version)), kind }
}

fn pkg(name: &str, version: &str, license: Option<&str>, deps: Vec<Dependency>) -> Package {
    Package {
        id: id(name, version),
        license: license.map(|l| l.as_bytes().to_vec()),
        license_file: None,
        dependencies: deps,
    }
}

fn names(v: &[Vec<u8>]) -> Vec<String> {
    v.iter().map(|n| String::from_utf8(n.clone()).unwrap()).collect()
}

fn display(license: Option<&str>, file: Option<&str>) -> String {
    let l = package_licenses(license.map(|s| s.as_bytes()), file.map(|s| s.as_bytes()));
    String::from_utf8(l.display()).unwrap()
}

fn entry(name: &str, version: &str, licenses: &str, files: &[&str]) -> BomEntry {
    BomEntry {
        name: name.as_bytes().to_vec(),
        version: version.as_bytes().to_vec(),
        licenses: licenses.as_bytes().to_vec(),
        license_files: files.iter().map(|f| f.as_bytes().to_vec()).collect(),
    }
}

fn picked_names(graph: &[Package], idx: &[usize]) -> Vec<String> {
    let mut v: Vec<String> = idx
        .iter()
        .map(|&i| {
            format!(
                "{} {}",
                String::from_utf8(graph[i].id.name.clone()).unwrap(),
                String::from_utf8(graph[i].id.version.clone()).unwrap()
            )
        })
        .collect();
    v.sort();
    v
}

#[test]
fn separators_are_equivalent() {
    for expr in ["MIT OR Apache-2.0", "MIT/Apache-2.0", "MIT AND Apache-2.0"] {
        let r = parse_license_expression(expr.as_bytes());
        assert_eq!(names(&r), vec!["Apache-2.0".to_string(), "MIT".to_string()]);
        assert_eq!(display(Some(expr), None), "Apache-2.0, MIT");
    }
}

#[test]
fn expression_pieces_are_trimmed_deduplicated_and_sorted() {
    let r = parse_license_expression(b" MIT OR  Zlib / MIT AND Apache-2.0 ");
    assert_eq!(names(&r), vec!["Apache-2.0", "MIT", "Zlib"]);
}

#[test]
fn empty_pieces_are_dropped() {
    assert_eq!(names(&parse_license_expression(b"MIT/")), vec!["MIT"]);
    assert!(parse_license_expression(b"").is_empty());
    assert!(parse_license_expression(b" OR / AND ").is_empty());
}

#[test]
fn separators_split_inside_words() {
    // The split is a plain text split, not a grammar.
    assert_eq!(names(&parse_license_expression(b"GPL-2.0+ WITH Classpath-exception")), vec![
        "GPL-2.0+ WITH Classpath-exception"
    ]);
    assert_eq!(names(&parse_license_expression(b"(MIT OR Apache-2.0)")), vec!["(MIT", "Apache-2.0)"]);
    assert_eq!(names(&parse_license_expression(b"Custom-ORG-Terms")), vec![
        "Custom-", "G-Terms"
    ]);
}

#[test]
fn license_file_gives_fixed_text() {
    assert_eq!(display(None, Some("LICENSE-MIT")), "Specified in license file");
    match package_licenses(None, Some(b"LICENSE-MIT")) {
        Licenses::File(f) => assert_eq!(f, b"LICENSE-MIT".to_vec()),
        _ => panic!("expected a license file"),
    }
}

#[test]
fn expression_wins_over_file() {
    assert_eq!(display(Some("MIT"), Some("LICENSE-MIT")), "MIT");
}

#[test]
fn neither_field_is_missing() {
    assert_eq!(display(None, None), "Missing");
    assert!(matches!(package_licenses(None, None), Licenses::Missing));
}

#[test]
fn locator_keeps_license_files_in_listing_order() {
    let entries: Vec<DirEntry> = ["src", "LICENSE", "Cargo.toml", "LICENSE-APACHE", "license.txt", "UNLICENSE"]
        .iter()
        .map(|n| DirEntry { name: n.as_bytes().to_vec(), path: format!("/p/{}", n).into_bytes() })
        .collect();
    let r = package_license_files(&entries);
    assert_eq!(names(&r), vec!["/p/LICENSE", "/p/LICENSE-APACHE", "/p/UNLICENSE"]);
}

#[test]
fn license_name_prefixes() {
    assert!(is_license_file_name(b"LICENSE"));
    assert!(is_license_file_name(b"LICENSE-MIT"));
    assert!(is_license_file_name(b"LICENSE.txt"));
    assert!(is_license_file_name(b"UNLICENSE"));
    assert!(!is_license_file_name(b"license"));
    assert!(!is_license_file_name(b"LICENS"));
    assert!(!is_license_file_name(b"COPYING"));
    assert!(package_license_files(&Vec::new()).is_empty());
}

#[test]
fn two_license_files_share_one_block() {
    let entries: Vec<DirEntry> = ["LICENSE", "LICENSE-APACHE"]
        .iter()
        .map(|n| DirEntry { name: n.as_bytes().to_vec(), path: format!("/p/{}", n).into_bytes() })
        .collect();
    let files = package_license_files(&entries);
    assert_eq!(files.len(), 2);
    let bom = build_bom(vec![BomEntry {
        name: b"foo".to_vec(),
        version: b"1.0.0".to_vec(),
        licenses: b"MIT".to_vec(),
        license_files: files,
    }]);
    let plan = dump_plan(&bom);
    let seen: Vec<(bool, String)> = plan
        .into_iter()
        .map(|s| match s {
            DumpStep::Text(t) => (false, String::from_utf8(t).unwrap()),
            DumpStep::File(p) => (true, String::from_utf8(p).unwrap()),
        })
        .collect();
    assert_eq!(seen, vec![
        (false, "-----BEGIN foo 1.0.0 LICENSES-----\n".to_string()),
        (true, "/p/LICENSE".to_string()),
        (false, "\n-----NEXT LICENSE-----\n".to_string()),
        (true, "/p/LICENSE-APACHE".to_string()),
        (false, "-----END foo 1.0.0 LICENSES-----\n".to_string()),
        (false, "\n".to_string()),
    ]);
}

#[test]
fn entries_without_files_have_no_block() {
    let bom = build_bom(vec![entry("a", "1", "MIT", &[]), entry("b", "2", "MIT", &["/b/LICENSE"])]);
    let plan = dump_plan(&bom);
    assert_eq!(plan.len(), 4);
    assert!(matches!(&plan[0], DumpStep::Text(t) if t == b"-----BEGIN b 2 LICENSES-----\n"));
    assert!(matches!(&plan[1], DumpStep::File(p) if p == b"/b/LICENSE"));
    assert!(dump_plan(&Vec::new()).is_empty());
}

fn workspace() -> (Vec<Package>, Vec<Package>) {
    let app = pkg("app", "0.1.0", None, vec![
        dep("serde", "1.0.0", DepKind::Normal),
        dep("cc", "1.0.0", DepKind::Build),
        dep("quickcheck", "0.9.0", DepKind::Development),
        dep("core-lib", "0.1.0", DepKind::Normal),
    ]);
    let core = pkg("core-lib", "0.1.0", None, vec![
        dep("serde", "1.0.0", DepKind::Normal),
        dep("libc", "0.2.0", DepKind::Normal),
    ]);
    let members = vec![app, core];
    let graph = vec![
        pkg("app", "0.1.0", None, vec![]),
        pkg("core-lib", "0.1.0", None, vec![]),
        pkg("serde", "1.0.0", Some("MIT OR Apache-2.0"), vec![]),
        pkg("cc", "1.0.0", Some("MIT/Apache-2.0"), vec![]),
        pkg("quickcheck", "0.9.0", Some("Unlicense/MIT"), vec![]),
        pkg("libc", "0.2.0", Some("MIT OR Apache-2.0"), vec![dep("cc", "1.0.0", DepKind::Normal)]),
    ];
    (members, graph)
}

#[test]
fn top_level_skips_build_dev_and_members() {
    let (members, graph) = workspace();
    let r = top_level_dependencies(&members, &graph).unwrap();
    assert_eq!(picked_names(&graph, &r), vec!["libc 0.2.0", "serde 1.0.0"]);
}

#[test]
fn all_mode_skips_only_members() {
    let (members, graph) = workspace();
    let r = all_dependencies(&members, &graph);
    assert_eq!(picked_names(&graph, &r), vec![
        "cc 1.0.0",
        "libc 0.2.0",
        "quickcheck 0.9.0",
        "serde 1.0.0"
    ]);
    assert_eq!(r, vec![2, 3, 4, 5]);
}

#[test]
fn members_never_appear_even_when_depended_on() {
    let (members, graph) = workspace();
    for r in [top_level_dependencies(&members, &graph).unwrap(), all_dependencies(&members, &graph)] {
        let n = picked_names(&graph, &r);
        assert!(!n.contains(&"app 0.1.0".to_string()));
        assert!(!n.contains(&"core-lib 0.1.0".to_string()));
    }
}

#[test]
fn shared_dependency_gives_one_entry() {
    let (members, graph) = workspace();
    let r = top_level_dependencies(&members, &graph).unwrap();
    assert_eq!(r.iter().filter(|&&i| graph[i].id.name == b"serde".to_vec()).count(), 1);
    let entries: Vec<BomEntry> = r.iter().map(|&i| bom_entry(&graph[i], vec![])).collect();
    let bom = build_bom(entries);
    assert_eq!(bom.len(), 2);
}

#[test]
fn unresolved_normal_dependency_fails() {
    let members = vec![pkg("app", "0.1.0", None, vec![dep("missing", "1.0.0", DepKind::Normal)])];
    let graph = vec![pkg("app", "0.1.0", None, vec![])];
    assert!(matches!(top_level_dependencies(&members, &graph), Err(CollectError::Unresolved)));
    let unmatched = vec![pkg("app", "0.1.0", None, vec![Dependency { target: None, kind: DepKind::Normal }])];
    assert!(matches!(top_level_dependencies(&unmatched, &graph), Err(CollectError::Unresolved)));
    let dev_only = vec![pkg("app", "0.1.0", None, vec![dep("missing", "1.0.0", DepKind::Development)])];
    assert_eq!(top_level_dependencies(&dev_only, &graph).unwrap(), Vec::<usize>::new());
}

#[test]
fn no_external_dependencies_is_empty() {
    let members = vec![pkg("app", "0.1.0", None, vec![])];
    let graph = vec![pkg("app", "0.1.0", None, vec![])];
    assert!(top_level_dependencies(&members, &graph).unwrap().is_empty());
    assert!(all_dependencies(&members, &graph).is_empty());
}

#[test]
fn versions_of_one_name_are_told_apart() {
    let members = vec![pkg("app", "0.1.0", None, vec![dep("rand", "0.7.0", DepKind::Normal)])];
    let graph = vec![pkg("rand", "0.6.0", None, vec![]), pkg("rand", "0.7.0", None, vec![])];
    assert_eq!(top_level_dependencies(&members, &graph).unwrap(), vec![1]);
    assert_eq!(find_package(&graph, &id("rand", "0.6.0")), Some(0));
    assert_eq!(find_package(&graph, &id("rand", "0.8.0")), None);
    assert!(is_member(&members, &id("app", "0.1.0")));
    assert!(!is_member(&members, &id("app", "0.2.0")));
}

#[test]
fn bom_entry_reads_package() {
    let p = pkg("serde", "1.0.0", Some("MIT OR Apache-2.0"), vec![]);
    let e = bom_entry(&p, vec![b"/s/LICENSE-MIT".to_vec()]);
    assert_eq!(e.name, b"serde".to_vec());
    assert_eq!(e.version, b"1.0.0".to_vec());
    assert_eq!(e.licenses, b"Apache-2.0, MIT".to_vec());
    assert_eq!(e.license_files, vec![b"/s/LICENSE-MIT".to_vec()]);
}

#[test]
fn bom_is_sorted_and_deduplicated() {
    let input = vec![
        entry("serde", "1.0.0", "MIT", &[]),
        entry("libc", "0.2.0", "MIT", &["/l/LICENSE"]),
        entry("serde", "1.0.0", "MIT", &[]),
        entry("libc", "0.10.0", "MIT", &[]),
        entry("serde", "1.0.0", "Apache-2.0", &[]),
    ];
    let bom = build_bom(input);
    let rows: Vec<(String, String, String)> = bom
        .iter()
        .map(|e| {
            (
                String::from_utf8(e.name.clone()).unwrap(),
                String::from_utf8(e.version.clone()).unwrap(),
                String::from_utf8(e.licenses.clone()).unwrap(),
            )
        })
        .collect();
    assert_eq!(rows, vec![
        ("libc".to_string(), "0.10.0".to_string(), "MIT".to_string()),
        ("libc".to_string(), "0.2.0".to_string(), "MIT".to_string()),
        ("serde".to_string(), "1.0.0".to_string(), "Apache-2.0".to_string()),
        ("serde".to_string(), "1.0.0".to_string(), "MIT".to_string()),
    ]);
    assert!(build_bom(Vec::new()).is_empty());
}

#[test]
fn bom_is_the_same_on_every_run() {
    let make = || {
        vec![
            entry("b", "1", "MIT", &["/b/LICENSE"]),
            entry("a", "1", "MIT", &[]),
            entry("b", "1", "MIT", &["/b/LICENSE", "/b/LICENSE-APACHE"]),
        ]
    };
    let mut reversed = make();
    reversed.reverse();
    let first = build_bom(make());
    let second = build_bom(reversed);
    assert_eq!(first.len(), 3);
    for (x, y) in first.iter().zip(second.iter()) {
        assert_eq!(compare_entries(x, y), 0);
    }
    assert_eq!(first[1].license_files.len(), 1);
}

#[test]
fn byte_order() {
    assert!(compare_bytes(b"Apache-2.0", b"MIT") < 0);
    assert!(compare_bytes(b"MIT", b"MIT") == 0);
    assert!(compare_bytes(b"MIT-0", b"MIT") > 0);
    assert!(compare_bytes(b"", b"a") < 0);
}

#[test]
fn table_lines() {
    let bom = build_bom(vec![entry("serde", "1.0.0", "Apache-2.0, MIT", &[])]);
    let t = String::from_utf8(table_text(&bom)).unwrap();
    assert_eq!(
        t,
        "Name\t| Version\t| Licenses\n----\t| -------\t| --------\nserde\t| 1.0.0\t| Apache-2.0, MIT\n"
    );
}

#[test]
fn table_columns_are_aligned() {
    let bom = build_bom(vec![
        entry("serde", "1.0.0", "Apache-2.0, MIT", &[]),
        entry("a", "0.10.0", "Missing", &[]),
    ]);
    let t = String::from_utf8(render_table(&bom)).unwrap();
    assert_eq!(
        t,
        "Name   | Version  | Licenses\n----   | -------  | --------\na      | 0.10.0   | Missing\nserde  | 1.0.0    | Apache-2.0, MIT\n\n"
    );
}

#[test]
fn unicode_white_space_is_trimmed() {
    let expr = "\u{A0}MIT\u{A0}OR\u{3000}Apache-2.0\u{2009}/\u{85}Zlib\u{1680}";
    let r = parse_license_expression(expr.as_bytes());
    assert_eq!(names(&r), vec!["Apache-2.0", "MIT", "Zlib"]);
    assert_eq!(display(Some(" \t MIT \r\n"), None), "MIT");
}

#[test]
fn other_unicode_is_kept() {
    let r = parse_license_expression("\u{200B}MIT\u{E9}".as_bytes());
    assert_eq!(names(&r), vec!["\u{200B}MIT\u{E9}"]);
}
