//! What the text of a lockfile says of the graph that it is written for.

use vstd::prelude::*;
use crate::dep_path::{joined_at, version_of_dep, without_peers};
use crate::lockfile::{DirectDepView, GraphView, ManifestView, PackageView, TextEntries};
use crate::string_map::{
    before, has_key, key_index, lemma_lookup_put, lemma_rank_bounds, lookup, rank,
};
use crate::yarn::round_trip::lemma_canonical;
use crate::yarn::write::{
    all_block_lines, banner, block_lines, canonical, dep_lines, dep_section, extra_specs, header_of,
    integrity_line, lemma_text_of_add, lemma_text_of_one, manifest_range, package_key, quoted,
    root_deps, root_specs, spec_list, text_of, written, written_deps,
};

verus! {

/// Of several packages with one name and version the first one is written, under both with an
/// at sign between them.
pub proof fn law_first_package_is_written(packages: Seq<(Seq<char>, PackageView)>, i: int)
    requires
        0 <= i < packages.len(),
        forall|j: int|
            0 <= j < i ==> (#[trigger] packages[j]).1.name + "@"@ + packages[j].1.version
                != packages[i].1.name + "@"@ + packages[i].1.version,
    ensures
        lookup(canonical(packages), packages[i].1.name + "@"@ + packages[i].1.version) == Some(
            packages[i].1,
        ),
    decreases packages.len(),
{
    let front = packages.drop_last();
    let last = packages.last().1;
    let key = package_key(packages[i].1);
    let prior = canonical(front);
    lemma_canonical(front);
    lemma_lookup_put(prior, package_key(last), last, key);
    if i < front.len() {
        assert(front[i] == packages[i]);
        assert forall|j: int| 0 <= j < i implies (#[trigger] front[j]).1.name + "@"@
            + front[j].1.version != packages[i].1.name + "@"@ + packages[i].1.version by {
            assert(front[j] == packages[j]);
        }
        law_first_package_is_written(front, i);
    } else if has_key(prior, key) {
        let j = law_written_packages_are_given(front, key_index(prior, key));
        assert(front[j] == packages[j]);
        assert(false);
    }
}

/// Nothing else is written: each written package is one of those given, under its name and
/// version, and they ascend by these.
pub proof fn law_written_packages_are_given(packages: Seq<(Seq<char>, PackageView)>, k: int) -> (j:
    int)
    requires
        0 <= k < canonical(packages).len(),
    ensures
        0 <= j < packages.len(),
        canonical(packages)[k].1 == packages[j].1,
        canonical(packages)[k].0 == packages[j].1.name + "@"@ + packages[j].1.version,
        forall|c: int, d: int|
            0 <= c < d < canonical(packages).len() ==> before(
                #[trigger] canonical(packages)[c].0,
                #[trigger] canonical(packages)[d].0,
            ),
    decreases packages.len(),
{
    lemma_canonical(packages);
    let front = packages.drop_last();
    let last = packages.last().1;
    let prior = canonical(front);
    lemma_rank_bounds(prior, package_key(last));
    if has_key(prior, package_key(last)) {
        let j = law_written_packages_are_given(front, k);
        assert(front[j] == packages[j]);
        j
    } else {
        let at = rank(prior, package_key(last)) as int;
        if k == at {
            packages.len() - 1
        } else {
            let j = law_written_packages_are_given(
                front,
                if k < at {
                    k
                } else {
                    k - 1
                },
            );
            assert(front[j] == packages[j]);
            j
        }
    }
}

/// The range of a dependency is that of the first section that declares it.
pub proof fn law_first_section_gives_the_range(manifest: ManifestView, name: Seq<char>)
    ensures
        lookup(manifest.dependencies, name) is Some ==> manifest_range(manifest, name) == lookup(
            manifest.dependencies,
            name,
        ),
        lookup(manifest.dependencies, name) is None && lookup(manifest.dev_dependencies, name)
            is Some ==> manifest_range(manifest, name) == lookup(manifest.dev_dependencies, name),
        lookup(manifest.dependencies, name) is None && lookup(manifest.dev_dependencies, name)
            is None && lookup(manifest.optional_dependencies, name) is Some ==> manifest_range(
            manifest,
            name,
        ) == lookup(manifest.optional_dependencies, name),
        lookup(manifest.dependencies, name) is None && lookup(manifest.dev_dependencies, name)
            is None && lookup(manifest.optional_dependencies, name) is None ==> manifest_range(
            manifest,
            name,
        ) == lookup(manifest.peer_dependencies, name),
{
}

/// A header names, besides the key of the block, each direct dependency that leads to the
/// block as the manifest declares it, in the order of these dependencies, unless it is
/// declared by the key itself.
pub proof fn law_header_names_direct_deps(
    deps: Seq<DirectDepView>,
    dep: DirectDepView,
    manifest: ManifestView,
    key: Seq<char>,
)
    ensures
        extra_specs(root_specs(Seq::<DirectDepView>::empty(), manifest), key).len() == 0,
        ({
            let earlier = extra_specs(root_specs(deps, manifest), key);
            let all = extra_specs(root_specs(deps.push(dep), manifest), key);
            match manifest_range(manifest, dep.name) {
                Some(range) => if without_peers(dep.dep_path) == key && dep.name + "@"@ + range
                    != key {
                    all == earlier.push(dep.name + "@"@ + range)
                } else {
                    all == earlier
                },
                None => all == earlier,
            }
        }),
{
    assert(deps.push(dep).drop_last() =~= deps);
    let rest = root_specs(deps, manifest);
    if let Some(range) = manifest_range(manifest, dep.name) {
        let pair = (without_peers(dep.dep_path), joined_at(dep.name, range));
        assert(rest.push(pair).drop_last() =~= rest);
    }
}

/// The direct dependencies that count are those of the root project.
pub proof fn law_root_deps(graph: GraphView)
    ensures
        lookup(graph.importers, "."@) matches Some(deps) ==> root_deps(graph) == deps,
        lookup(graph.importers, "."@) is None ==> root_deps(graph).len() == 0,
{
}

/// A dependency is written with its version if the package that it leads to is written, and
/// left out otherwise; those before it are not changed by it.
pub proof fn law_known_dependencies_are_written(
    deps: TextEntries,
    name: Seq<char>,
    value: Seq<char>,
    packages: Seq<(Seq<char>, PackageView)>,
)
    ensures
        written_deps(Seq::<(Seq<char>, Seq<char>)>::empty(), packages).len() == 0,
        has_key(packages, name + "@"@ + version_of_dep(name, value)) ==> written_deps(
            deps.push((name, value)),
            packages,
        ) == written_deps(deps, packages).push((name, version_of_dep(name, value))),
        !has_key(packages, name + "@"@ + version_of_dep(name, value)) ==> written_deps(
            deps.push((name, value)),
            packages,
        ) == written_deps(deps, packages),
{
    assert(deps.push((name, value)).drop_last() =~= deps);
}

/// Specifiers are listed in quotes, with a comma and a space between them.
pub proof fn law_specifiers_are_listed(specs: Seq<Seq<char>>, spec: Seq<char>)
    ensures
        spec_list(seq![spec]) == "\""@ + spec + "\""@,
        specs.len() > 0 ==> spec_list(specs.push(spec)) == spec_list(specs) + ", \""@ + spec
            + "\""@,
{
    if specs.len() > 0 {
        reveal_strlit(", ");
        reveal_strlit("\"");
        reveal_strlit(", \"");
        assert(specs.push(spec).drop_last() =~= specs);
        assert(spec_list(specs.push(spec)) == spec_list(specs) + ", "@ + quoted(spec));
        assert(spec_list(specs) + ", "@ + quoted(spec) =~= spec_list(specs) + ", \""@ + spec
            + "\""@);
    }
}

/// Each dependency has a line, indented by four, with its name and its version in quotes.
pub proof fn law_dependency_lines(
    deps: Seq<(Seq<char>, Seq<char>)>,
    name: Seq<char>,
    version: Seq<char>,
)
    ensures
        dep_lines(Seq::<(Seq<char>, Seq<char>)>::empty()).len() == 0,
        text_of(dep_lines(deps.push((name, version)))) == text_of(dep_lines(deps)) + ("    "@ + name
            + " \""@ + version + "\"\n"@),
{
    reveal_strlit(" ");
    reveal_strlit("\"");
    reveal_strlit("\n");
    reveal_strlit(" \"");
    reveal_strlit("\"\n");
    let all = dep_lines(deps.push((name, version)));
    let line = "    "@ + name + " "@ + quoted(version);
    assert(deps.push((name, version)).drop_last() =~= deps);
    assert(all == dep_lines(deps).push(line));
    assert(all.drop_last() =~= dep_lines(deps));
    assert(text_of(all) == text_of(dep_lines(deps)) + line + "\n"@);
    assert(line + "\n"@ =~= "    "@ + name + " \""@ + version + "\"\n"@);
    assert(text_of(dep_lines(deps)) + line + "\n"@ =~= text_of(dep_lines(deps)) + (line + "\n"@));
}

/// A lockfile starts with two lines of comment and two blank ones, which the blocks follow.
pub proof fn law_lockfile_starts_with_banner(graph: GraphView, manifest: ManifestView)
    ensures
        ({
            let packages = canonical(graph.packages);
            let roots = root_specs(root_deps(graph), manifest);
            written(graph, manifest)
                == "# THIS IS AN AUTOGENERATED FILE. DO NOT EDIT THIS FILE DIRECTLY.\n# yarn lockfile v1\n\n\n"@
                + text_of(all_block_lines(packages, roots, packages))
        }),
{
    let packages = canonical(graph.packages);
    let blocks = all_block_lines(packages, root_specs(root_deps(graph), manifest), packages);
    lemma_text_of_add(banner(), blocks);
    let a = "# THIS IS AN AUTOGENERATED FILE. DO NOT EDIT THIS FILE DIRECTLY."@;
    let b = "# yarn lockfile v1"@;
    reveal_strlit("");
    reveal_strlit("\n");
    reveal_strlit("# THIS IS AN AUTOGENERATED FILE. DO NOT EDIT THIS FILE DIRECTLY.");
    reveal_strlit("# yarn lockfile v1");
    reveal_strlit(
        "# THIS IS AN AUTOGENERATED FILE. DO NOT EDIT THIS FILE DIRECTLY.\n# yarn lockfile v1\n\n\n",
    );
    assert(banner() =~= seq![a] + seq![b] + seq![""@] + seq![""@]);
    lemma_text_of_add(seq![a] + seq![b] + seq![""@], seq![""@]);
    lemma_text_of_add(seq![a] + seq![b], seq![""@]);
    lemma_text_of_add(seq![a], seq![b]);
    lemma_text_of_one(a);
    lemma_text_of_one(b);
    lemma_text_of_one(""@);
    assert(text_of(banner())
        =~= "# THIS IS AN AUTOGENERATED FILE. DO NOT EDIT THIS FILE DIRECTLY.\n# yarn lockfile v1\n\n\n"@);
}

/// Each package has a block, behind those of the packages before it: a header with its key and
/// the specifiers that lead to it, its version in quotes, its checksum where it has one, its
/// dependencies where it has some, and a blank line.
pub proof fn law_block_is_written(
    some: Seq<(Seq<char>, PackageView)>,
    key: Seq<char>,
    package: PackageView,
    roots: Seq<(Seq<char>, Seq<char>)>,
    packages: Seq<(Seq<char>, PackageView)>,
)
    ensures
        all_block_lines(Seq::<(Seq<char>, PackageView)>::empty(), roots, packages).len() == 0,
        ({
            let deps = written_deps(package.dependencies, packages);
            text_of(all_block_lines(some.push((key, package)), roots, packages)) == text_of(
                all_block_lines(some, roots, packages),
            ) + (spec_list(seq![key] + extra_specs(roots, key)) + ":\n"@) + ("  version \""@
                + package.version + "\"\n"@) + (match package.integrity {
                Some(text) => "  integrity "@ + text + "\n"@,
                None => Seq::<char>::empty(),
            }) + (if deps.len() > 0 {
                "  dependencies:\n"@ + text_of(dep_lines(deps))
            } else {
                Seq::<char>::empty()
            }) + "\n"@
        }),
{
    let none = Seq::<char>::empty();
    let prior = all_block_lines(some, roots, packages);
    let specs = header_of(key, roots);
    let deps = written_deps(package.dependencies, packages);
    let head = seq![spec_list(specs) + ":"@];
    let version = seq!["  version "@ + quoted(package.version)];
    let integrity = integrity_line(package.integrity);
    let section = dep_section(deps);
    let blank = seq![""@];
    assert(some.push((key, package)).drop_last() =~= some);
    let block = head + version + integrity + section + blank;
    assert(block == block_lines(specs, package, packages));
    lemma_text_of_add(prior, block);
    lemma_text_of_add(head + version + integrity + section, blank);
    lemma_text_of_add(head + version + integrity, section);
    lemma_text_of_add(head + version, integrity);
    lemma_text_of_add(head, version);
    assert(text_of(head) == spec_list(specs) + ":\n"@) by {
        reveal_strlit(":");
        reveal_strlit("\n");
        reveal_strlit(":\n");
        lemma_text_of_one(spec_list(specs) + ":"@);
        assert(spec_list(specs) + ":"@ + "\n"@ =~= spec_list(specs) + ":\n"@);
    }
    assert(text_of(version) == "  version \""@ + package.version + "\"\n"@) by {
        reveal_strlit("  version ");
        reveal_strlit("\"");
        reveal_strlit("\n");
        reveal_strlit("  version \"");
        reveal_strlit("\"\n");
        lemma_text_of_one("  version "@ + quoted(package.version));
        assert("  version "@ + quoted(package.version) + "\n"@ =~= "  version \""@
            + package.version + "\"\n"@);
    }
    assert(text_of(Seq::<Seq<char>>::empty()) =~= none);
    if let Some(text) = package.integrity {
        lemma_text_of_one("  integrity "@ + text);
    }
    if deps.len() > 0 {
        assert(text_of(section) == "  dependencies:\n"@ + text_of(dep_lines(deps))) by {
            reveal_strlit("  dependencies:");
            reveal_strlit("\n");
            reveal_strlit("  dependencies:\n");
            lemma_text_of_add(seq!["  dependencies:"@], dep_lines(deps));
            lemma_text_of_one("  dependencies:"@);
            assert("  dependencies:"@ + "\n"@ =~= "  dependencies:\n"@);
        }
    }
    assert(text_of(blank) == "\n"@) by {
        reveal_strlit("");
        lemma_text_of_one(""@);
        assert(""@ + "\n"@ =~= "\n"@);
    }
    lemma_regroup(
        text_of(prior),
        text_of(head),
        text_of(version),
        text_of(integrity),
        text_of(section),
        text_of(blank),
    );
}

proof fn lemma_regroup(
    a: Seq<char>,
    b: Seq<char>,
    c: Seq<char>,
    d: Seq<char>,
    e: Seq<char>,
    f: Seq<char>,
)
    ensures
        a + (b + c + d + e + f) == a + b + c + d + e + f,
{
    assert(a + (b + c + d + e + f) =~= a + b + c + d + e + f);
}

} // verus!
