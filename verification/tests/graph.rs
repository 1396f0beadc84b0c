use aube::graph_filter::filter_graph;
use aube::lockfile::{DepType, DirectDep, LockedPackage, LockfileGraph};
use aube::platform::{field_matches, host_triple, is_supported, SupportedArchitectures};
use aube::string_map::StringMap;

fn linux() -> (String, String, String) {
    host_triple("linux", "x86_64", false)
}

fn strings(xs: &[&str]) -> Vec<String> {
    xs.iter().map(|x| x.to_string()).collect()
}

fn locked(path: &str, os: &[&str], deps: &[(&str, &str)]) -> LockedPackage {
    let at = path.rfind('@').unwrap();
    let mut dependencies = StringMap::new();
    for (n, v) in deps {
        dependencies.insert(n.to_string(), v.to_string());
    }
    LockedPackage {
        name: path[..at].to_string(),
        version: path[at + 1..].to_string(),
        integrity: None,
        dependencies,
        dep_path: path.to_string(),
        os: strings(os),
        cpu: Vec::new(),
        libc: Vec::new(),
    }
}

fn direct(name: &str, path: &str, dep_type: DepType) -> DirectDep {
    DirectDep {
        name: name.to_string(),
        dep_path: path.to_string(),
        dep_type,
        specifier: Some("^1".to_string()),
    }
}

fn sample() -> LockfileGraph {
    let mut packages = StringMap::new();
    for package in [
        locked("a@1", &[], &[("b", "1"), ("c", "c@1")]),
        locked("b@1", &["darwin"], &[("a", "1")]),
        locked("c@1", &[], &[("nowhere", "9")]),
        locked("mac@1", &["darwin"], &[("deep", "1")]),
        locked("deep@1", &[], &[("c", "1")]),
        locked("lin@1", &["!darwin"], &[]),
        locked("orphan@1", &[], &[("orphan", "1")]),
    ] {
        packages.insert(package.dep_path.clone(), package);
    }
    let mut importers = StringMap::new();
    importers.insert(
        ".".to_string(),
        vec![
            direct("a", "a@1", DepType::Production),
            direct("mac", "mac@1", DepType::Optional),
            direct("lin", "lin@1", DepType::Optional),
            direct("unknown", "unknown@1", DepType::Optional),
        ],
    );
    importers.insert("packages/x".to_string(), vec![direct("a", "a@1", DepType::Dev)]);
    LockfileGraph { importers, packages }
}

fn package_keys(graph: &LockfileGraph) -> Vec<&str> {
    (0..graph.packages.len()).map(|i| graph.packages.key(i).as_str()).collect()
}

fn direct_names<'a>(graph: &'a LockfileGraph, importer: &str) -> Vec<&'a str> {
    graph.importers.get(importer).unwrap().iter().map(|d| d.name.as_str()).collect()
}

#[test]
fn filter_drops_what_cannot_be_installed() {
    let mut graph = sample();
    filter_graph(&mut graph, &SupportedArchitectures::default(), &[], &linux());
    assert_eq!(direct_names(&graph, "."), vec!["a", "lin", "unknown"]);
    assert_eq!(direct_names(&graph, "packages/x"), vec!["a"]);
    assert_eq!(package_keys(&graph), vec!["a@1", "b@1", "c@1", "lin@1"]);
    assert_eq!(graph.packages.get("a@1").unwrap().dependencies.len(), 2);
    assert_eq!(
        graph.importers.get(".").unwrap()[0].specifier.as_deref(),
        Some("^1")
    );
    // A second pass changes nothing.
    filter_graph(&mut graph, &SupportedArchitectures::default(), &[], &linux());
    assert_eq!(direct_names(&graph, "."), vec!["a", "lin", "unknown"]);
    assert_eq!(package_keys(&graph), vec!["a@1", "b@1", "c@1", "lin@1"]);
}

#[test]
fn filter_drops_ignored_names() {
    let mut graph = sample();
    let both = SupportedArchitectures {
        os: strings(&["current", "darwin"]),
        ..SupportedArchitectures::default()
    };
    filter_graph(&mut graph, &both, &strings(&["lin", "a"]), &linux());
    assert_eq!(direct_names(&graph, "."), vec!["a", "mac", "unknown"]);
    assert_eq!(package_keys(&graph), vec!["a@1", "b@1", "c@1", "deep@1", "mac@1"]);
}

#[test]
fn recorded_path_comes_before_name_and_path() {
    let mut packages = StringMap::new();
    for package in [
        locked("a@1", &[], &[("x", "y@1")]),
        locked("y@1", &[], &[]),
        locked("x@y@1", &[], &[]),
    ] {
        packages.insert(package.dep_path.clone(), package);
    }
    let mut importers = StringMap::new();
    importers.insert(".".to_string(), vec![direct("a", "a@1", DepType::Production)]);
    let mut graph = LockfileGraph { importers, packages };
    filter_graph(&mut graph, &SupportedArchitectures::default(), &[], &linux());
    assert_eq!(package_keys(&graph), vec!["a@1", "y@1"]);
}

#[test]
fn machine_names() {
    let triple = |os: &str, arch: &str, musl: bool| {
        let (o, c, l) = host_triple(os, arch, musl);
        format!("{o} {c} {l}")
    };
    assert_eq!(triple("macos", "aarch64", false), "darwin arm64 ");
    assert_eq!(triple("windows", "x86", true), "win32 ia32 ");
    assert_eq!(triple("linux", "x86_64", true), "linux x64 musl");
    assert_eq!(triple("linux", "powerpc64", false), "linux ppc64 glibc");
    assert_eq!(triple("freebsd", "riscv64", false), "freebsd riscv64 ");
}

#[test]
fn combinations_go_through_all_lists() {
    let supported = SupportedArchitectures {
        os: strings(&["current", "win32"]),
        cpu: strings(&["arm64", "current"]),
        libc: Vec::new(),
    };
    let all: Vec<String> = supported
        .combinations(&linux())
        .iter()
        .map(|(o, c, l)| format!("{o} {c} {l}"))
        .collect();
    assert_eq!(
        all,
        vec![
            "linux arm64 glibc",
            "linux x64 glibc",
            "win32 arm64 glibc",
            "win32 x64 glibc",
        ]
    );
    assert_eq!(supported.clone().combinations(&linux()).len(), 4);
    assert_eq!(SupportedArchitectures::default().combinations(&linux()).len(), 1);
}

#[test]
fn widening_accepts_more() {
    let narrow = SupportedArchitectures::default();
    let wide = SupportedArchitectures {
        cpu: strings(&["current", "arm64"]),
        ..SupportedArchitectures::default()
    };
    let arm = strings(&["arm64"]);
    assert!(!is_supported(&[], &arm, &[], &narrow, &linux()));
    assert!(is_supported(&[], &arm, &[], &wide, &linux()));
    let x64 = strings(&["x64"]);
    assert!(is_supported(&[], &x64, &[], &narrow, &linux()));
    assert!(is_supported(&[], &x64, &[], &wide, &linux()));
}

#[test]
fn lists_of_negations() {
    let field = strings(&["!win32", "!darwin"]);
    assert!(field_matches(&field, "linux"));
    assert!(!field_matches(&field, "darwin"));
    let mixed = strings(&["linux", "!win32"]);
    assert!(field_matches(&mixed, "linux"));
    assert!(!field_matches(&mixed, "freebsd"));
    assert!(!field_matches(&mixed, "win32"));
}
