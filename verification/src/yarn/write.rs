//! From the dependency graph to the text of a lockfile.

use vstd::prelude::*;
use crate::dep_path::{
    canonical_key_from_dep_path, child_canonical_key, dep_value_as_version, join_at, joined_at,
    key_of_dep, version_of_dep, without_peers,
};
use crate::lockfile::{
    text_option, DirectDep, DirectDepView, GraphView, LockedPackage, LockfileGraph, ManifestView,
    PackageJson, PackageView, TextEntries,
};
use crate::string_map::{has_key, lookup, put_new, StringMap};

verus! {

/// The key that a package is written under.
pub open spec fn package_key(package: PackageView) -> Seq<char> {
    joined_at(package.name, package.version)
}

/// One package for each name and version. Where several packages have the same the
/// first one counts.
pub open spec fn canonical(packages: Seq<(Seq<char>, PackageView)>) -> Seq<
    (Seq<char>, PackageView),
>
    decreases packages.len(),
{
    if packages.len() == 0 {
        seq![]
    } else {
        let package = packages.last().1;
        put_new(canonical(packages.drop_last()), package_key(package), package)
    }
}

/// The range under which a manifest declares a dependency. The first section that
/// declares it counts.
pub open spec fn manifest_range(manifest: ManifestView, name: Seq<char>) -> Option<Seq<char>> {
    if has_key(manifest.dependencies, name) {
        lookup(manifest.dependencies, name)
    } else if has_key(manifest.dev_dependencies, name) {
        lookup(manifest.dev_dependencies, name)
    } else if has_key(manifest.optional_dependencies, name) {
        lookup(manifest.optional_dependencies, name)
    } else {
        lookup(manifest.peer_dependencies, name)
    }
}

/// The direct dependencies that the manifest declares by anything but the exact version:
/// the keys of their packages and their specifiers.
pub open spec fn root_specs(deps: Seq<DirectDepView>, manifest: ManifestView) -> Seq<
    (Seq<char>, Seq<char>),
>
    decreases deps.len(),
{
    if deps.len() == 0 {
        seq![]
    } else {
        let dep = deps.last();
        let rest = root_specs(deps.drop_last(), manifest);
        let key = without_peers(dep.dep_path);
        match manifest_range(manifest, dep.name) {
            Some(range) => if joined_at(dep.name, range) != key {
                rest.push((key, joined_at(dep.name, range)))
            } else {
                rest
            },
            None => rest,
        }
    }
}

/// The direct dependencies of the root project.
pub open spec fn root_deps(graph: GraphView) -> Seq<DirectDepView> {
    match lookup(graph.importers, "."@) {
        Some(deps) => deps,
        None => seq![],
    }
}

/// The specifiers that lead to the package under `key`.
pub open spec fn extra_specs(roots: Seq<(Seq<char>, Seq<char>)>, key: Seq<char>) -> Seq<Seq<char>>
    decreases roots.len(),
{
    if roots.len() == 0 {
        seq![]
    } else if roots.last().0 == key {
        extra_specs(roots.drop_last(), key).push(roots.last().1)
    } else {
        extra_specs(roots.drop_last(), key)
    }
}

/// The dependencies on packages that are written, with their versions.
pub open spec fn written_deps(deps: TextEntries, packages: Seq<(Seq<char>, PackageView)>) -> Seq<
    (Seq<char>, Seq<char>),
>
    decreases deps.len(),
{
    if deps.len() == 0 {
        seq![]
    } else {
        let (name, value) = deps.last();
        let rest = written_deps(deps.drop_last(), packages);
        if has_key(packages, key_of_dep(name, value)) {
            rest.push((name, version_of_dep(name, value)))
        } else {
            rest
        }
    }
}

/// Some text in double quotes.
pub open spec fn quoted(s: Seq<char>) -> Seq<char> {
    "\""@ + s + "\""@
}

/// Specifiers in quotes, with commas between them.
pub open spec fn spec_list(specs: Seq<Seq<char>>) -> Seq<char>
    decreases specs.len(),
{
    if specs.len() == 0 {
        seq![]
    } else if specs.len() == 1 {
        quoted(specs[0])
    } else {
        spec_list(specs.drop_last()) + ", "@ + quoted(specs.last())
    }
}

/// The lines of a `dependencies:` section.
pub open spec fn dep_lines(deps: Seq<(Seq<char>, Seq<char>)>) -> Seq<Seq<char>>
    decreases deps.len(),
{
    if deps.len() == 0 {
        seq![]
    } else {
        dep_lines(deps.drop_last()).push(
            "    "@ + deps.last().0 + " "@ + quoted(deps.last().1),
        )
    }
}

/// The `dependencies:` section of a block, which is left out where there are none.
pub open spec fn dep_section(deps: Seq<(Seq<char>, Seq<char>)>) -> Seq<Seq<char>> {
    if deps.len() == 0 {
        seq![]
    } else {
        seq!["  dependencies:"@] + dep_lines(deps)
    }
}

/// The line for the checksum of a package.
pub open spec fn integrity_line(integrity: Option<Seq<char>>) -> Seq<Seq<char>> {
    match integrity {
        Some(text) => seq!["  integrity "@ + text],
        None => seq![],
    }
}

/// The lines of the block for a package.
pub open spec fn block_lines(
    specs: Seq<Seq<char>>,
    package: PackageView,
    packages: Seq<(Seq<char>, PackageView)>,
) -> Seq<Seq<char>> {
    seq![spec_list(specs) + ":"@] + seq!["  version "@ + quoted(package.version)] + integrity_line(
        package.integrity,
    ) + dep_section(written_deps(package.dependencies, packages)) + seq![""@]
}

/// The specifiers in the header of a block: the key first.
pub open spec fn header_of(key: Seq<char>, roots: Seq<(Seq<char>, Seq<char>)>) -> Seq<Seq<char>> {
    seq![key] + extra_specs(roots, key)
}

/// The lines of the blocks for some of the written packages.
pub open spec fn all_block_lines(
    some: Seq<(Seq<char>, PackageView)>,
    roots: Seq<(Seq<char>, Seq<char>)>,
    packages: Seq<(Seq<char>, PackageView)>,
) -> Seq<Seq<char>>
    decreases some.len(),
{
    if some.len() == 0 {
        seq![]
    } else {
        all_block_lines(some.drop_last(), roots, packages) + block_lines(
            header_of(some.last().0, roots),
            some.last().1,
            packages,
        )
    }
}

/// The lines that every lockfile starts with.
pub open spec fn banner() -> Seq<Seq<char>> {
    seq![
        "# THIS IS AN AUTOGENERATED FILE. DO NOT EDIT THIS FILE DIRECTLY."@,
        "# yarn lockfile v1"@,
        ""@,
        ""@,
    ]
}

/// Lines as one text, each ended by a line feed.
pub open spec fn text_of(some: Seq<Seq<char>>) -> Seq<char>
    decreases some.len(),
{
    if some.len() == 0 {
        seq![]
    } else {
        text_of(some.drop_last()) + some.last() + "\n"@
    }
}

/// The lines of the lockfile for a graph, in the project with a given manifest.
pub open spec fn written_lines(graph: GraphView, manifest: ManifestView) -> Seq<Seq<char>> {
    let packages = canonical(graph.packages);
    banner() + all_block_lines(packages, root_specs(root_deps(graph), manifest), packages)
}

/// The text of the lockfile for a graph, in the project with a given manifest.
pub open spec fn written(graph: GraphView, manifest: ManifestView) -> Seq<char> {
    text_of(written_lines(graph, manifest))
}

pub proof fn lemma_text_of_add(a: Seq<Seq<char>>, b: Seq<Seq<char>>)
    ensures
        text_of(a + b) == text_of(a) + text_of(b),
    decreases b.len(),
{
    if b.len() == 0 {
        assert(a + b =~= a);
        assert(text_of(a) + text_of(b) =~= text_of(a));
    } else {
        lemma_text_of_add(a, b.drop_last());
        assert((a + b).drop_last() =~= a + b.drop_last());
        assert((a + b).last() == b.last());
        assert(text_of(a) + text_of(b) =~= text_of(a) + text_of(b.drop_last()) + b.last() + "\n"@);
    }
}

pub proof fn lemma_text_of_one(line: Seq<char>)
    ensures
        text_of(seq![line]) == line + "\n"@,
{
    assert(seq![line].drop_last() =~= seq![]);
    assert(text_of(seq![]) =~= seq![]);
    assert(text_of(seq![line]) =~= line + "\n"@);
}

/// One package for each name and version.
fn collapse<'a>(packages: &'a StringMap<LockedPackage>) -> (r: StringMap<&'a LockedPackage>)
    ensures
        r@ == canonical(packages@),
{
    let ghost all = packages@;
    let mut r: StringMap<&'a LockedPackage> = StringMap::new();
    let n: usize = packages.len();
    let mut i: usize = 0;
    assert(all.take(0) =~= seq![]);
    while i < n
        invariant
            i <= n == packages@.len(),
            all == packages@,
            r@ == canonical(all.take(i as int)),
        decreases n - i,
    {
        let package = packages.value(i);
        proof {
            assert(all.take(i + 1).drop_last() =~= all.take(i as int));
            assert(all.take(i + 1).last() == all[i as int]);
        }
        let key = join_at(package.name.as_str(), package.version.as_str());
        if !r.contains_key(key.as_str()) {
            r.insert(key, package);
        }
        i += 1;
    }
    assert(all.take(i as int) =~= all);
    r
}

/// The range under which a manifest declares a dependency.
fn range_in<'a>(manifest: &'a PackageJson, name: &str) -> (r: Option<&'a String>)
    ensures
        r is Some <==> manifest_range(manifest@, name@) is Some,
        r matches Some(range) ==> manifest_range(manifest@, name@) == Some(range@),
{
    if let Some(range) = manifest.dependencies.get(name) {
        return Some(range);
    }
    if let Some(range) = manifest.dev_dependencies.get(name) {
        return Some(range);
    }
    if let Some(range) = manifest.optional_dependencies.get(name) {
        return Some(range);
    }
    manifest.peer_dependencies.get(name)
}

/// The view of some pairs of strings.
spec fn pairs_view(pairs: Seq<(String, String)>) -> Seq<(Seq<char>, Seq<char>)> {
    Seq::new(pairs.len(), |i: int| (pairs[i].0@, pairs[i].1@))
}

/// The keys and the specifiers of direct dependencies.
fn specs_of_roots(deps: &Vec<DirectDep>, manifest: &PackageJson) -> (r: Vec<(String, String)>)
    ensures
        pairs_view(r@) == root_specs(deps.deep_view(), manifest@),
{
    let ghost all = deps.deep_view();
    let mut r: Vec<(String, String)> = Vec::new();
    let mut i: usize = 0;
    assert(all.take(0) =~= seq![]);
    assert(pairs_view(r@) =~= seq![]);
    while i < deps.len()
        invariant
            i <= deps@.len(),
            all == deps.deep_view(),
            pairs_view(r@) == root_specs(all.take(i as int), manifest@),
        decreases deps.len() - i,
    {
        let dep = &deps[i];
        proof {
            assert(all.take(i + 1).drop_last() =~= all.take(i as int));
            assert(all.take(i + 1).last() == all[i as int]);
            assert(dep.deep_view() == all[i as int]);
        }
        if let Some(range) = range_in(manifest, dep.name.as_str()) {
            let key = canonical_key_from_dep_path(dep.dep_path.as_str());
            let spec = join_at(dep.name.as_str(), range.as_str());
            if spec != key {
                let ghost prior = pairs_view(r@);
                let ghost pair = (key@, spec@);
                r.push((key, spec));
                assert(pairs_view(r@) =~= prior.push(pair));
            }
        }
        i += 1;
    }
    assert(all.take(i as int) =~= all);
    r
}

/// Writes the header of a block.
fn push_header(out: &mut String, key: &String, roots: &Vec<(String, String)>)
    ensures
        final(out)@ == old(out)@ + text_of(
            seq![spec_list(header_of(key@, pairs_view(roots@))) + ":"@],
        ),
{
    let ghost start = out@;
    let ghost all = pairs_view(roots@);
    out.append("\"");
    out.append(key.as_str());
    out.append("\"");
    let mut i: usize = 0;
    proof {
        assert(all.take(0) =~= seq![]);
        assert(header_of(key@, all.take(0)) =~= seq![key@]);
        assert(out@ =~= start + quoted(key@));
    }
    while i < roots.len()
        invariant
            i <= roots@.len(),
            all == pairs_view(roots@),
            out@ == start + spec_list(header_of(key@, all.take(i as int))),
        decreases roots.len() - i,
    {
        proof {
            assert(all.take(i + 1).drop_last() =~= all.take(i as int));
            assert(all.take(i + 1).last() == all[i as int]);
        }
        let ghost prior = header_of(key@, all.take(i as int));
        if roots[i].0 == *key {
            out.append(", \"");
            out.append(roots[i].1.as_str());
            out.append("\"");
            proof {
                let specs = header_of(key@, all.take(i + 1));
                assert(specs =~= prior.push(all[i as int].1));
                assert(specs.drop_last() =~= prior);
                reveal_strlit(", \"");
                reveal_strlit(", ");
                reveal_strlit("\"");
                assert(", \""@ =~= ", "@ + "\""@);
                assert(out@ =~= start + spec_list(specs));
            }
        }
        i += 1;
    }
    out.append(":\n");
    proof {
        assert(all.take(i as int) =~= all);
        let line = spec_list(header_of(key@, all)) + ":"@;
        reveal_strlit(":\n");
        reveal_strlit(":");
        reveal_strlit("\n");
        assert(":\n"@ =~= ":"@ + "\n"@);
        lemma_text_of_one(line);
    }
}

/// The dependencies on packages that are written, with their versions.
fn deps_to_write(
    deps: &StringMap<String>,
    packages: &StringMap<&LockedPackage>,
) -> (r: Vec<(String, String)>)
    ensures
        pairs_view(r@) == written_deps(deps@, packages@),
{
    let ghost all = deps@;
    let mut r: Vec<(String, String)> = Vec::new();
    let n: usize = deps.len();
    let mut i: usize = 0;
    assert(all.take(0) =~= seq![]);
    assert(pairs_view(r@) =~= seq![]);
    while i < n
        invariant
            i <= n == deps@.len(),
            all == deps@,
            pairs_view(r@) == written_deps(all.take(i as int), packages@),
        decreases n - i,
    {
        let name = deps.key(i);
        let value = deps.value(i);
        proof {
            assert(all.take(i + 1).drop_last() =~= all.take(i as int));
            assert(all.take(i + 1).last() == all[i as int]);
            assert(all[i as int] == (name@, value@));
        }
        if packages.contains_key(child_canonical_key(name.as_str(), value.as_str()).as_str()) {
            let ghost prior = pairs_view(r@);
            r.push((name.clone(), dep_value_as_version(name.as_str(), value.as_str())));
            assert(pairs_view(r@) =~= prior.push((name@, version_of_dep(name@, value@))));
        }
        i += 1;
    }
    assert(all.take(i as int) =~= all);
    r
}

/// Writes the dependencies of a package.
fn push_deps(out: &mut String, deps: &Vec<(String, String)>)
    ensures
        final(out)@ == old(out)@ + text_of(dep_section(pairs_view(deps@))),
{
    let ghost start = out@;
    let ghost all = pairs_view(deps@);
    if deps.len() == 0 {
        assert(start + text_of(dep_section(all)) =~= start);
        return;
    }
    let ghost title = seq!["  dependencies:"@];
    out.append("  dependencies:\n");
    let mut i: usize = 0;
    proof {
        assert(all.take(0) =~= seq![]);
        reveal_strlit("  dependencies:\n");
        reveal_strlit("  dependencies:");
        reveal_strlit("\n");
        assert("  dependencies:\n"@ =~= "  dependencies:"@ + "\n"@);
        lemma_text_of_one("  dependencies:"@);
        assert(title + dep_lines(all.take(0)) =~= title);
    }
    while i < deps.len()
        invariant
            i <= deps@.len(),
            all == pairs_view(deps@),
            out@ == start + text_of(title + dep_lines(all.take(i as int))),
        decreases deps.len() - i,
    {
        out.append("    ");
        out.append(deps[i].0.as_str());
        out.append(" \"");
        out.append(deps[i].1.as_str());
        out.append("\"\n");
        proof {
            assert(all.take(i + 1).drop_last() =~= all.take(i as int));
            assert(all.take(i + 1).last() == all[i as int]);
            let line = "    "@ + all[i as int].0 + " "@ + quoted(all[i as int].1);
            let prior = title + dep_lines(all.take(i as int));
            let next = title + dep_lines(all.take(i + 1));
            assert(next.drop_last() =~= prior);
            assert(next.last() == line);
            reveal_strlit(" \"");
            reveal_strlit(" ");
            reveal_strlit("\"");
            reveal_strlit("\"\n");
            reveal_strlit("\n");
            assert(" \""@ =~= " "@ + "\""@);
            assert("\"\n"@ =~= "\""@ + "\n"@);
            assert(out@ =~= start + (text_of(prior) + line + "\n"@));
        }
        i += 1;
    }
    assert(all.take(i as int) =~= all);
}

/// Writes the version and the checksum of a package.
fn push_fields(out: &mut String, package: &LockedPackage)
    ensures
        final(out)@ == old(out)@ + text_of(
            seq!["  version "@ + quoted(package.version@)] + integrity_line(
                text_option(package.integrity),
            ),
        ),
{
    let ghost start = out@;
    let ghost line = "  version "@ + quoted(package.version@);
    let ghost first = seq![line];
    out.append("  version \"");
    out.append(package.version.as_str());
    out.append("\"\n");
    proof {
        reveal_strlit("  version \"");
        reveal_strlit("  version ");
        reveal_strlit("\"");
        reveal_strlit("\"\n");
        reveal_strlit("\n");
        assert("  version \""@ =~= "  version "@ + "\""@);
        assert("\"\n"@ =~= "\""@ + "\n"@);
        lemma_text_of_one(line);
        assert(out@ =~= start + text_of(first));
    }
    match &package.integrity {
        Some(text) => {
            let ghost second = "  integrity "@ + text@;
            out.append("  integrity ");
            out.append(text.as_str());
            out.append("\n");
            proof {
                let both = first + integrity_line(text_option(package.integrity));
                assert(both.drop_last() =~= first);
                assert(both.last() == second);
                assert(out@ =~= start + (text_of(first) + second + "\n"@));
            }
        },
        None => {
            assert(first + integrity_line(None) =~= first);
        },
    }
}

/// Writes the lockfile for a graph, in the project with a given manifest.
///
/// Each name and version gets one block, whatever peers it was resolved with. Its header
/// lists the exact `name@version`, which is how dependencies are written, and for direct
/// dependencies the range that the manifest declares.
pub fn write(graph: &LockfileGraph, manifest: &PackageJson) -> (r: String)
    ensures
        r@ == written(graph@, manifest@),
{
    let packages = collapse(&graph.packages);
    let roots = match graph.importers.get(".") {
        Some(deps) => specs_of_roots(deps, manifest),
        None => Vec::new(),
    };
    let ghost rs = root_specs(root_deps(graph@), manifest@);
    assert(pairs_view(roots@) =~= rs);
    let ghost all = packages@;
    let mut out = "# THIS IS AN AUTOGENERATED FILE. DO NOT EDIT THIS FILE DIRECTLY.\n".to_string();
    out.append("# yarn lockfile v1\n\n\n");
    proof {
        lemma_banner();
        assert(all.take(0) =~= seq![]);
        assert(banner() + all_block_lines(all.take(0), rs, all) =~= banner());
    }
    let n: usize = packages.len();
    let mut i: usize = 0;
    while i < n
        invariant
            i <= n == packages@.len(),
            all == packages@,
            rs == pairs_view(roots@),
            out@ == text_of(banner() + all_block_lines(all.take(i as int), rs, all)),
        decreases n - i,
    {
        let key = packages.key(i);
        let package: &LockedPackage = *packages.value(i);
        let ghost start = out@;
        let ghost p = package.deep_view();
        proof {
            assert(all.take(i + 1).drop_last() =~= all.take(i as int));
            assert(all.take(i + 1).last() == all[i as int]);
            assert(all[i as int] == (key@, p));
        }
        push_header(&mut out, key, &roots);
        push_fields(&mut out, package);
        let deps = deps_to_write(&package.dependencies, &packages);
        push_deps(&mut out, &deps);
        out.append("\n");
        proof {
            let a = seq![spec_list(header_of(key@, rs)) + ":"@];
            let b = seq!["  version "@ + quoted(p.version)] + integrity_line(p.integrity);
            let c = dep_section(written_deps(p.dependencies, all));
            let d = seq![""@];
            reveal_strlit("");
            lemma_text_of_one(""@);
            assert(text_of(d) =~= "\n"@);
            lemma_text_of_add(a, b);
            lemma_text_of_add(a + b, c);
            lemma_text_of_add(a + b + c, d);
            let block = block_lines(header_of(key@, rs), p, all);
            assert(a + b + c + d =~= block);
            let prior = banner() + all_block_lines(all.take(i as int), rs, all);
            lemma_text_of_add(prior, block);
            assert(prior + block =~= banner() + all_block_lines(all.take(i + 1), rs, all));
            assert(out@ =~= start + text_of(block));
        }
        i += 1;
    }
    assert(all.take(i as int) =~= all);
    out
}

proof fn lemma_banner()
    ensures
        text_of(banner())
            == "# THIS IS AN AUTOGENERATED FILE. DO NOT EDIT THIS FILE DIRECTLY.\n"@
            + "# yarn lockfile v1\n\n\n"@,
{
    let b = banner();
    reveal_strlit("");
    reveal_strlit("\n");
    reveal_strlit("# yarn lockfile v1");
    reveal_strlit("# yarn lockfile v1\n\n\n");
    reveal_strlit("# THIS IS AN AUTOGENERATED FILE. DO NOT EDIT THIS FILE DIRECTLY.");
    reveal_strlit("# THIS IS AN AUTOGENERATED FILE. DO NOT EDIT THIS FILE DIRECTLY.\n");
    assert("# THIS IS AN AUTOGENERATED FILE. DO NOT EDIT THIS FILE DIRECTLY.\n"@
        =~= "# THIS IS AN AUTOGENERATED FILE. DO NOT EDIT THIS FILE DIRECTLY."@ + "\n"@);
    assert("# yarn lockfile v1\n\n\n"@ =~= "# yarn lockfile v1"@ + "\n"@ + "\n"@ + "\n"@);
    let b1 = b.take(1);
    let b2 = b.take(2);
    let b3 = b.take(3);
    assert(b2.drop_last() =~= b1);
    assert(b3.drop_last() =~= b2);
    assert(b.drop_last() =~= b3);
    let first = "# THIS IS AN AUTOGENERATED FILE. DO NOT EDIT THIS FILE DIRECTLY."@;
    let second = "# yarn lockfile v1"@;
    lemma_text_of_one(first);
    assert(b1 =~= seq![first]);
    assert(text_of(b2) =~= first + "\n"@ + second + "\n"@);
    assert(text_of(b3) =~= first + "\n"@ + second + "\n"@ + "\n"@);
    assert(text_of(b) =~= first + "\n"@ + second + "\n"@ + "\n"@ + "\n"@);
}

} // verus!
