use aube::dep_path::{canonical_key_from_dep_path, child_canonical_key, dep_value_as_version};
use aube::error::Error;
use aube::lockfile::{DepType, DirectDep, LockedPackage, LockfileGraph, PackageJson};
use aube::string_map::StringMap;
use aube::yarn::read::{no_version, parse};
use aube::yarn::tokens::{parse_header_specs, parse_spec_name, split_key_value, tokenize_blocks};

type ReadError = Error<String, String>;

fn make_manifest(deps: &[(&str, &str)], dev: &[(&str, &str)]) -> PackageJson {
    let mut manifest = PackageJson::new();
    for (n, r) in deps {
        manifest.dependencies.insert(n.to_string(), r.to_string());
    }
    for (n, r) in dev {
        manifest.dev_dependencies.insert(n.to_string(), r.to_string());
    }
    manifest
}

fn read(content: &str, manifest: &PackageJson) -> Result<LockfileGraph, ReadError> {
    parse("yarn.lock".to_string(), content, manifest)
}

fn complaint(content: &str) -> String {
    match read(content, &make_manifest(&[], &[])) {
        Err(Error::Parse(path, message)) => {
            assert_eq!(path, "yarn.lock");
            message
        }
        other => panic!("{other:?}"),
    }
}

fn root(graph: &LockfileGraph) -> &Vec<DirectDep> {
    graph.importers.get(".").unwrap()
}

fn package<'a>(graph: &'a LockfileGraph, key: &str) -> &'a LockedPackage {
    graph.packages.get(key).unwrap()
}

fn dep<'a>(package: &'a LockedPackage, name: &str) -> Option<&'a str> {
    package.dependencies.get(name).map(String::as_str)
}

fn locked(name: &str, version: &str, deps: &[(&str, &str)]) -> LockedPackage {
    let mut dependencies = StringMap::new();
    for (n, v) in deps {
        dependencies.insert(n.to_string(), v.to_string());
    }
    LockedPackage {
        name: name.to_string(),
        version: version.to_string(),
        integrity: None,
        dependencies,
        dep_path: format!("{name}@{version}"),
        os: Vec::new(),
        cpu: Vec::new(),
        libc: Vec::new(),
    }
}

fn graph_with(packages: Vec<(&str, LockedPackage)>, direct: &[(&str, &str)]) -> LockfileGraph {
    let mut map = StringMap::new();
    for (path, package) in packages {
        map.insert(path.to_string(), package);
    }
    let mut importers = StringMap::new();
    importers.insert(
        ".".to_string(),
        direct
            .iter()
            .map(|(name, path)| DirectDep {
                name: name.to_string(),
                dep_path: path.to_string(),
                dep_type: DepType::Production,
                specifier: None,
            })
            .collect(),
    );
    LockfileGraph { importers, packages: map }
}

#[test]
fn test_parse_spec_name() {
    assert_eq!(parse_spec_name("foo@^1.0.0"), Some("foo".to_string()));
    assert_eq!(parse_spec_name("foo@1.2.3"), Some("foo".to_string()));
    assert_eq!(
        parse_spec_name("@scope/pkg@^1.0.0"),
        Some("@scope/pkg".to_string())
    );
    assert_eq!(parse_spec_name("foo"), None);
}

#[test]
fn spec_name_of_odd_scopes() {
    assert_eq!(parse_spec_name("@scope"), None);
    assert_eq!(parse_spec_name("@scope/pkg"), None);
    assert_eq!(parse_spec_name(""), None);
    assert_eq!(parse_spec_name("@a@b/c@d"), Some("@a@b/c".to_string()));
}

#[test]
fn test_parse_simple() {
    let content = r#"# yarn lockfile v1

foo@^1.0.0:
  version "1.2.3"
  resolved "https://example.com/foo-1.2.3.tgz"
  integrity sha512-aaa
  dependencies:
    bar "^2.0.0"

bar@^2.0.0:
  version "2.5.0"
  resolved "https://example.com/bar-2.5.0.tgz"
  integrity sha512-bbb
"#;
    let manifest = make_manifest(&[("foo", "^1.0.0")], &[]);
    let graph = read(content, &manifest).unwrap();

    assert_eq!(graph.packages.len(), 2);
    assert!(graph.packages.contains_key("foo@1.2.3"));
    assert!(graph.packages.contains_key("bar@2.5.0"));

    let foo = package(&graph, "foo@1.2.3");
    assert_eq!(foo.integrity.as_deref(), Some("sha512-aaa"));
    assert_eq!(dep(foo, "bar"), Some("bar@2.5.0"));

    let root = root(&graph);
    assert_eq!(root.len(), 1);
    assert_eq!(root[0].name, "foo");
    assert_eq!(root[0].dep_path, "foo@1.2.3");
}

#[test]
fn test_parse_scoped_and_multi_spec() {
    let content = r#"# yarn lockfile v1

"@scope/pkg@^1.0.0", "@scope/pkg@^1.1.0":
  version "1.1.0"
  integrity sha512-zzz
"#;
    let manifest = make_manifest(&[("@scope/pkg", "^1.0.0")], &[]);
    let graph = read(content, &manifest).unwrap();

    assert!(graph.packages.contains_key("@scope/pkg@1.1.0"));
    let root = root(&graph);
    assert_eq!(root[0].name, "@scope/pkg");
    assert_eq!(root[0].dep_path, "@scope/pkg@1.1.0");
}

#[test]
fn test_reject_berry() {
    let content = "__metadata:\n  version: 6\n";
    let manifest = make_manifest(&[], &[]);
    let err = read(content, &manifest).unwrap_err();
    assert!(matches!(err, Error::Parse(_, msg) if msg.contains("berry")));
}

#[test]
fn test_write_roundtrip() {
    let content = r#"# yarn lockfile v1

foo@^1.0.0:
  version "1.2.3"
  integrity sha512-foo
  dependencies:
    bar "^2.0.0"

bar@^2.0.0:
  version "2.5.0"
  integrity sha512-bar
"#;
    let manifest = make_manifest(&[("foo", "^1.0.0")], &[]);
    let graph = read(content, &manifest).unwrap();

    let out = aube::yarn::write::write(&graph, &manifest);

    let reparsed_manifest = make_manifest(&[], &[]);
    let reparsed = read(&out, &reparsed_manifest).unwrap();

    assert!(reparsed.packages.contains_key("foo@1.2.3"));
    assert!(reparsed.packages.contains_key("bar@2.5.0"));
    assert_eq!(
        package(&reparsed, "foo@1.2.3").integrity.as_deref(),
        Some("sha512-foo")
    );
    assert_eq!(dep(package(&reparsed, "foo@1.2.3"), "bar"), Some("bar@2.5.0"));
}

#[test]
fn test_dev_dep_classification() {
    let content = r#"foo@^1.0.0:
  version "1.0.0"
"#;
    let manifest = make_manifest(&[], &[("foo", "^1.0.0")]);
    let graph = read(content, &manifest).unwrap();
    let root = root(&graph);
    assert_eq!(root[0].dep_type, DepType::Dev);
}

#[test]
fn written_text_is_exact() {
    let content = "foo@^1.0.0:\n  version \"1.2.3\"\n  integrity sha512-foo\n  dependencies:\n    bar \"^2.0.0\"\n    baz \"^9.0.0\"\n\nbar@^2.0.0:\n  version \"2.5.0\"\n";
    let manifest = make_manifest(&[("foo", "^1.0.0")], &[("bar", "2.5.0")]);
    let graph = read(content, &manifest).unwrap();
    assert_eq!(
        aube::yarn::write::write(&graph, &manifest),
        "# THIS IS AN AUTOGENERATED FILE. DO NOT EDIT THIS FILE DIRECTLY.\n\
         # yarn lockfile v1\n\n\n\
         \"bar@2.5.0\":\n\
         \x20 version \"2.5.0\"\n\
         \n\
         \"foo@1.2.3\", \"foo@^1.0.0\":\n\
         \x20 version \"1.2.3\"\n\
         \x20 integrity sha512-foo\n\
         \x20 dependencies:\n\
         \x20   bar \"2.5.0\"\n\
         \n"
    );
}

#[test]
fn rewriting_keeps_direct_dependencies() {
    let content = "foo@^1.0.0:\n  version \"1.2.3\"\n\n\"@s/b@~2\", \"@s/b@^2\":\n  version \"2.0.0\"\n";
    let mut manifest = make_manifest(&[("foo", "^1.0.0")], &[("@s/b", "^2")]);
    manifest
        .optional_dependencies
        .insert("gone".to_string(), "^1".to_string());
    let graph = read(content, &manifest).unwrap();
    let again = read(&aube::yarn::write::write(&graph, &manifest), &manifest).unwrap();
    let shape = |g: &LockfileGraph| -> Vec<(String, String, DepType)> {
        root(g)
            .iter()
            .map(|d| (d.name.clone(), d.dep_path.clone(), d.dep_type))
            .collect()
    };
    assert_eq!(
        shape(&again),
        vec![
            ("foo".to_string(), "foo@1.2.3".to_string(), DepType::Production),
            ("@s/b".to_string(), "@s/b@2.0.0".to_string(), DepType::Dev),
        ]
    );
    assert_eq!(shape(&again), shape(&graph));
    assert_eq!(again.packages.len(), graph.packages.len());
}

#[test]
fn exact_range_of_another_version_shadows_it() {
    // The header of `bar@2.0.0` lists `bar@1.0.0` too, and the last header counts.
    let graph = graph_with(
        vec![
            ("bar@1.0.0", locked("bar", "1.0.0", &[])),
            ("bar@2.0.0", locked("bar", "2.0.0", &[])),
            ("foo@1.0.0", locked("foo", "1.0.0", &[("bar", "1.0.0")])),
        ],
        &[("bar", "bar@2.0.0")],
    );
    let text = aube::yarn::write::write(&graph, &make_manifest(&[("bar", "1.0.0")], &[]));
    let again = read(&text, &make_manifest(&[], &[])).unwrap();
    assert_eq!(dep(package(&again, "foo@1.0.0"), "bar"), Some("bar@2.0.0"));
    let text = aube::yarn::write::write(&graph, &make_manifest(&[("bar", "^2.0.0")], &[]));
    let again = read(&text, &make_manifest(&[], &[])).unwrap();
    assert_eq!(dep(package(&again, "foo@1.0.0"), "bar"), Some("bar@1.0.0"));
}

#[test]
fn peer_variants_collapse() {
    let mut first = locked("foo", "1.0.0", &[("bar", "bar@2.0.0(x@1)")]);
    first.integrity = Some("sha512-first".to_string());
    let mut second = locked("foo", "1.0.0", &[]);
    second.integrity = Some("sha512-second".to_string());
    let graph = graph_with(
        vec![
            ("foo@1.0.0(a@1)", first),
            ("foo@1.0.0(b@1)", second),
            ("bar@2.0.0(x@1)", locked("bar", "2.0.0", &[("missing", "1.0.0")])),
        ],
        &[("foo", "foo@1.0.0(b@1)")],
    );
    let text = aube::yarn::write::write(&graph, &make_manifest(&[("foo", "^1")], &[]));
    let again = read(&text, &make_manifest(&[("foo", "^1")], &[])).unwrap();
    assert_eq!(again.packages.len(), 2);
    let foo = package(&again, "foo@1.0.0");
    assert_eq!(foo.integrity.as_deref(), Some("sha512-first"));
    assert_eq!(dep(foo, "bar"), Some("bar@2.0.0"));
    assert_eq!(package(&again, "bar@2.0.0").dependencies.len(), 0);
    assert_eq!(root(&again)[0].dep_path, "foo@1.0.0");
}

#[test]
fn manifest_sections_are_searched_in_order() {
    let graph = graph_with(
        vec![("p@1.0.0", locked("p", "1.0.0", &[]))],
        &[("p", "p@1.0.0")],
    );
    let mut manifest = make_manifest(&[], &[]);
    manifest.peer_dependencies.insert("p".to_string(), "^4".to_string());
    assert!(aube::yarn::write::write(&graph, &manifest).contains("\"p@1.0.0\", \"p@^4\":\n"));
    manifest.optional_dependencies.insert("p".to_string(), "^3".to_string());
    assert!(aube::yarn::write::write(&graph, &manifest).contains("\"p@1.0.0\", \"p@^3\":\n"));
    manifest.dev_dependencies.insert("p".to_string(), "^2".to_string());
    assert!(aube::yarn::write::write(&graph, &manifest).contains("\"p@1.0.0\", \"p@^2\":\n"));
    manifest.dependencies.insert("p".to_string(), "^1".to_string());
    assert!(aube::yarn::write::write(&graph, &manifest).contains("\"p@1.0.0\", \"p@^1\":\n"));
    assert!(aube::yarn::write::write(&graph, &make_manifest(&[], &[])).contains("\n\"p@1.0.0\":\n"));
}

#[test]
fn empty_graph_is_a_banner() {
    let graph = LockfileGraph { importers: StringMap::new(), packages: StringMap::new() };
    assert_eq!(
        aube::yarn::write::write(&graph, &make_manifest(&[("a", "1")], &[])),
        "# THIS IS AN AUTOGENERATED FILE. DO NOT EDIT THIS FILE DIRECTLY.\n# yarn lockfile v1\n\n\n"
    );
}

#[test]
fn complaints_name_the_line() {
    assert_eq!(
        complaint("# c\n\nfoo@1\n"),
        "line 3: expected block header ending in ':', got 'foo@1'"
    );
    assert_eq!(
        complaint("  version \"1\"\n"),
        "line 1: unexpected indented content before any block header"
    );
    assert_eq!(complaint("foo@1:\n  version\n"), "line 2: could not parse 'version'");
    assert_eq!(
        complaint("foo@1:\n  dependencies:\n    bar\n"),
        "line 3: could not parse dep 'bar'"
    );
    assert_eq!(complaint("a@1,, b@1:\n"), "line 1: empty spec in header 'a@1,, b@1'");
    let mut far = "\n".repeat(1233);
    far.push_str("foo@1\n");
    assert_eq!(
        complaint(&far),
        "line 1234: expected block header ending in ':', got 'foo@1'"
    );
}

#[test]
fn complaints_about_blocks() {
    assert_eq!(
        complaint("\"foo@1\", 'f\"o@2':\n  resolved \"x\"\n"),
        "yarn.lock block [\"foo@1\", \"f\\\"o@2\"] has no version"
    );
    assert_eq!(
        complaint("foo:\n  version \"1\"\n"),
        "could not parse package name from yarn.lock spec 'foo'"
    );
    assert_eq!(
        complaint("a@1:\n  version \"1\"\n\nb:\n  resolved \"x\"\n\nc:\n"),
        "yarn.lock block [\"b\"] has no version"
    );
    assert_eq!(
        complaint("a@1\n__metadata:\n"),
        "yarn berry (v2+) lockfiles are not supported \u{2014} run `yarn set version classic` first, or use package-lock.json"
    );
}

#[test]
fn failure_in_words() {
    let err = read("foo@1\n", &make_manifest(&[], &[])).unwrap_err();
    assert_eq!(
        err.message(),
        "failed to parse yarn.lock: line 1: expected block header ending in ':', got 'foo@1'"
    );
    let err: ReadError = Error::Io("a/b".to_string(), "gone".to_string());
    assert_eq!(err.message(), "I/O error at a/b: gone");
}

#[test]
fn lines_are_read_by_their_indentation() {
    let content = "foo@1:\r\n  version \"1.0.0\"\r\n  optionalDependencies:\r\n    skipped \"1\"\r\n   stray\r\n  dependencies:\r\n    bar '2'\r\n      baz 3\r\n  other: \r\n    skipped2 1\r\n# bar@9:\r\nbar@2:\r\n  version 2.0.0";
    let blocks = tokenize_blocks(content).unwrap();
    assert_eq!(blocks.len(), 2);
    assert_eq!(blocks[0].specs, vec!["foo@1".to_string()]);
    assert_eq!(blocks[0].fields.len(), 1);
    assert_eq!(blocks[0].dependencies.len(), 2);
    assert_eq!(blocks[0].dependencies.get("bar").map(String::as_str), Some("2"));
    assert_eq!(blocks[0].dependencies.get("baz").map(String::as_str), Some("3"));
    assert_eq!(blocks[1].fields.get("version").map(String::as_str), Some("2.0.0"));
}

#[test]
fn indentation_counts_bytes() {
    // A no-break space takes two bytes, an ideographic space three.
    let blocks = tokenize_blocks("foo@1:\n\u{a0}version 1\n\u{3000}stray\n").unwrap();
    assert_eq!(blocks[0].fields.len(), 1);
    assert_eq!(blocks[0].fields.get("version").map(String::as_str), Some("1"));
}

#[test]
fn headers_and_values_are_unquoted() {
    assert_eq!(
        parse_header_specs("\"a@1\", 'b@2' , c@3").unwrap(),
        vec!["a@1".to_string(), "b@2".to_string(), "c@3".to_string()]
    );
    assert_eq!(parse_header_specs("\"\"").unwrap_err(), "empty spec in header '\"\"'");
    assert_eq!(parse_header_specs("\"").unwrap(), vec!["\"".to_string()]);
    assert_eq!(
        split_key_value("version   \"1.2.3\" "),
        Some(("version".to_string(), "1.2.3".to_string()))
    );
    assert_eq!(
        split_key_value("k\t\"a'"),
        Some(("k".to_string(), "\"a'".to_string()))
    );
    assert_eq!(split_key_value("alone"), None);
}

#[test]
fn last_header_and_first_package_count() {
    let content = "\"a@1\", \"b@1\":\n  version \"1.0.0\"\n  integrity x\n\n\"a@2\", \"b@1\":\n  version \"1.0.0\"\n  integrity y\n\n\"a@3\", \"b@1\":\n  version \"3.0.0\"\n";
    let graph = read(content, &make_manifest(&[("a", "1"), ("b", "1")], &[])).unwrap();
    assert_eq!(graph.packages.len(), 2);
    assert_eq!(package(&graph, "a@1.0.0").integrity.as_deref(), Some("x"));
    assert_eq!(root(&graph)[0].dep_path, "a@1.0.0");
    assert_eq!(root(&graph)[1].dep_path, "a@3.0.0");
}

#[test]
fn dependency_paths() {
    assert_eq!(canonical_key_from_dep_path("a@1(b@2)(c@3)"), "a@1");
    assert_eq!(canonical_key_from_dep_path("a@1"), "a@1");
    assert_eq!(dep_value_as_version("a", "a@1.0.0(b@2)"), "1.0.0");
    assert_eq!(dep_value_as_version("a", "1.0.0(b@2)"), "1.0.0");
    assert_eq!(dep_value_as_version("a", "ab@1"), "ab@1");
    assert_eq!(child_canonical_key("@s/a", "@s/a@1.0.0(b@2)"), "@s/a@1.0.0");
    assert_eq!(child_canonical_key("a", "1.0.0"), "a@1.0.0");
}

#[test]
fn map_keeps_keys_in_order() {
    let mut map: StringMap<String> = StringMap::new();
    for key in ["b", "a", "\u{10000}", "\u{ffff}", "B", "ab", "a"] {
        map.insert(key.to_string(), format!("<{key}>"));
    }
    let keys: Vec<String> = (0..map.len()).map(|i| map.key(i).clone()).collect();
    let mut expected: Vec<String> =
        ["b", "a", "\u{10000}", "\u{ffff}", "B", "ab"].iter().map(|k| k.to_string()).collect();
    expected.sort();
    assert_eq!(keys, expected);
    assert_eq!(map.get("ab").map(String::as_str), Some("<ab>"));
    assert!(map.get("c").is_none());
}

#[test]
fn missing_version_in_words() {
    assert_eq!(no_version("[x]"), "yarn.lock block [x] has no version");
}

#[test]
fn read_graph_is_closed() {
    let content = "a@1:\n  version \"1.0.0\"\n  dependencies:\n    b \"1\"\n    c \"1\"\n\n\"x@1\", \"b@1\":\n  version \"2.0.0\"\n";
    let graph = read(content, &make_manifest(&[("a", "1"), ("c", "1")], &[("b", "1")])).unwrap();
    let a = package(&graph, "a@1.0.0");
    assert_eq!(a.dependencies.len(), 1);
    // The first specifier of a header names its package.
    assert_eq!(dep(a, "b"), Some("x@2.0.0"));
    let paths: Vec<&str> = root(&graph).iter().map(|d| d.dep_path.as_str()).collect();
    assert_eq!(paths, vec!["a@1.0.0", "x@2.0.0"]);
    for path in paths {
        assert_eq!(package(&graph, path).dep_path, path);
    }
}

#[test]
fn exact_range_that_no_header_lists_is_gained_by_rewriting() {
    let content = "foo@^1.0.0:\n  version \"1.2.3\"\n";
    let manifest = make_manifest(&[("foo", "1.2.3")], &[]);
    let graph = read(content, &manifest).unwrap();
    assert!(root(&graph).is_empty());
    let again = read(&aube::yarn::write::write(&graph, &manifest), &manifest).unwrap();
    assert_eq!(root(&again)[0].dep_path, "foo@1.2.3");
    assert_eq!(again.packages.len(), graph.packages.len());
}
