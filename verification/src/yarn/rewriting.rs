//! What survives when a lockfile is read, written and read again.

use vstd::prelude::*;
use crate::dep_path::{joined_at, key_of_dep, without_peers};
use crate::lockfile::{DepType, DirectDepView, GraphView, ManifestView, PackageView, TextEntries};
use crate::string_map::{
    before, has_key, key_index, lemma_before_irreflexive, lemma_lookup_at, lemma_lookup_put,
    lemma_put_last, lemma_put_sorted, lemma_rank_bounds, lookup, rank, sorted,
};
use crate::text::{find, lacks, lemma_find_at, lemma_find_bounds, trim, unquote};
use crate::yarn::lines::lemma_list_pieces;
use crate::yarn::plain::{lemma_blocks_plain, plain_block, plain_name, plain_spec};
use crate::yarn::read::{
    block_complaint, block_name, block_package, block_packages, block_path, block_version,
    direct_deps, first_complaint, parsed, resolved, section_deps, spec_index,
};
use crate::yarn::round_trip::{
    all_links_clear, blocks_read, header_read, kept, kept_packages, law_packages_survive_writing,
    lemma_canonical, lemma_find_spec, lemma_header_lists, lemma_packages_written,
    lemma_parse_written, lemma_section_deps, lemma_single, lemma_spec_index_some,
    lemma_written_deps, linked, links_clear, shadowed, writable, writable_package, writes_dep,
};
use crate::yarn::tokens::{blocks_of, spec_name, BlockView};
use crate::yarn::write::{
    canonical, extra_specs, header_of, manifest_range, package_key, root_deps, root_specs, written,
    written_deps,
};

verus! {

/// Where some blocks have a package, and what it is.
pub proof fn lemma_packages_of_blocks(blocks: Seq<BlockView>, index: TextEntries)
    ensures
        sorted(block_packages(blocks, index)),
        forall|b: int|
            0 <= b < blocks.len() ==> has_key(
                block_packages(blocks, index),
                block_path(#[trigger] blocks[b]),
            ),
        forall|i: int|
            #![trigger block_packages(blocks, index)[i]]
            0 <= i < block_packages(blocks, index).len() ==> exists|b: int|
                0 <= b < blocks.len() && block_packages(blocks, index)[i] == (
                    block_path(#[trigger] blocks[b]),
                    block_package(blocks[b], index),
                ),
    decreases blocks.len(),
{
    if blocks.len() > 0 {
        let front = blocks.drop_last();
        let last = blocks.last();
        let n = blocks.len() - 1;
        lemma_packages_of_blocks(front, index);
        let prior = block_packages(front, index);
        let all = block_packages(blocks, index);
        let key = block_path(last);
        let package = block_package(last, index);
        lemma_put_sorted(prior, key, package);
        lemma_rank_bounds(prior, key);
        assert forall|b: int| 0 <= b < blocks.len() implies has_key(
            all,
            block_path(#[trigger] blocks[b]),
        ) by {
            lemma_lookup_put(prior, key, package, block_path(blocks[b]));
            if b < front.len() {
                assert(front[b] == blocks[b]);
            }
        }
        assert forall|i: int| #![trigger all[i]] 0 <= i < all.len() implies exists|b: int|
            0 <= b < blocks.len() && all[i] == (
                block_path(#[trigger] blocks[b]),
                block_package(blocks[b], index),
            ) by {
            let r = rank(prior, key) as int;
            if !has_key(prior, key) && i == r {
                assert(all[i] == (block_path(blocks[n]), block_package(blocks[n], index)));
            } else {
                let k = if has_key(prior, key) || i < r {
                    i
                } else {
                    i - 1
                };
                assert(all[i] == prior[k]);
                let b = choose|b: int|
                    0 <= b < front.len() && prior[k] == (
                        block_path(#[trigger] front[b]),
                        block_package(front[b], index),
                    );
                assert(blocks[b] == front[b]);
            }
        }
    }
}

/// Packages that stand under their own keys are written as they are.
proof fn lemma_canonical_same(packages: Seq<(Seq<char>, PackageView)>)
    requires
        sorted(packages),
        forall|i: int|
            0 <= i < packages.len() ==> (#[trigger] packages[i]).0 == package_key(packages[i].1),
    ensures
        canonical(packages) == packages,
    decreases packages.len(),
{
    if packages.len() == 0 {
        assert(canonical(packages) =~= packages);
    } else {
        let front = packages.drop_last();
        let n = packages.len() - 1;
        assert forall|i: int, j: int| 0 <= i < j < front.len() implies before(
            #[trigger] front[i].0,
            #[trigger] front[j].0,
        ) by {
            assert(before(packages[i].0, packages[j].0));
        }
        assert forall|i: int| 0 <= i < front.len() implies (#[trigger] front[i]).0 == package_key(
            front[i].1,
        ) by {
            assert(front[i] == packages[i]);
        }
        lemma_canonical_same(front);
        assert(packages[n] == packages.last());
        assert forall|i: int| 0 <= i < front.len() implies before(
            (#[trigger] front[i]).0,
            packages[n].0,
        ) by {
            assert(before(packages[i].0, packages[n].0));
        }
        lemma_put_last(front, packages[n].0, packages[n].1);
        assert(canonical(packages) =~= packages);
    }
}

proof fn lemma_resolved_values(deps: TextEntries, index: TextEntries)
    ensures
        forall|k: int|
            #![trigger resolved(deps, index)[k]]
            0 <= k < resolved(deps, index).len() ==> exists|spec: Seq<char>|
                #[trigger] lookup(index, spec) == Some(resolved(deps, index)[k].1),
    decreases deps.len(),
{
    if deps.len() > 0 {
        let front = deps.drop_last();
        lemma_resolved_values(front, index);
        let prior = resolved(front, index);
        let all = resolved(deps, index);
        assert forall|k: int| #![trigger all[k]] 0 <= k < all.len() implies exists|
            spec: Seq<char>,
        | #[trigger] lookup(index, spec) == Some(all[k].1) by {
            if k < prior.len() {
                assert(all[k] == prior[k]);
            } else {
                let spec = joined_at(deps.last().0, deps.last().1);
                assert(lookup(index, spec) == Some(all[k].1));
            }
        }
    }
}

/// Dependencies that link to packages by their keys are kept.
proof fn lemma_linked_same(deps: TextEntries, packages: Seq<(Seq<char>, PackageView)>)
    requires
        forall|i: int|
            0 <= i < deps.len() ==> key_of_dep((#[trigger] deps[i]).0, deps[i].1) == deps[i].1
                && has_key(packages, deps[i].1),
    ensures
        linked(deps, packages) == deps,
    decreases deps.len(),
{
    if deps.len() == 0 {
        assert(linked(deps, packages) =~= deps);
    } else {
        let front = deps.drop_last();
        assert forall|i: int| 0 <= i < front.len() implies key_of_dep(
            (#[trigger] front[i]).0,
            front[i].1,
        ) == front[i].1 && has_key(packages, front[i].1) by {
            assert(front[i] == deps[i]);
        }
        lemma_linked_same(front, packages);
        assert(deps[deps.len() - 1] == deps.last());
        assert(linked(deps, packages) =~= deps);
    }
}

/// Whether every dependency resolved to a version of the package it names.
pub open spec fn own_links(graph: GraphView) -> bool {
    forall|i: int, k: int|
        #![trigger graph.packages[i].1.dependencies[k]]
        0 <= i < graph.packages.len() && 0 <= k < graph.packages[i].1.dependencies.len()
            ==> key_of_dep(
            graph.packages[i].1.dependencies[k].0,
            graph.packages[i].1.dependencies[k].1,
        ) == graph.packages[i].1.dependencies[k].1
}

/// The packages of a graph that was read are all that a lockfile keeps of them.
proof fn lemma_kept_same(content: Seq<char>, manifest: ManifestView, graph: GraphView)
    requires
        parsed(content, manifest) == Ok::<GraphView, Seq<char>>(graph),
        own_links(graph),
    ensures
        canonical(graph.packages) == graph.packages,
        kept_packages(graph) == graph.packages,
{
    let blocks = blocks_of(content)->Ok_0;
    let index = spec_index(blocks);
    let packages = graph.packages;
    lemma_packages_of_blocks(blocks, index);
    assert forall|i: int| 0 <= i < packages.len() implies (#[trigger] packages[i]).0 == package_key(
        packages[i].1,
    ) by {
        let b = choose|b: int|
            0 <= b < blocks.len() && packages[i] == (
                block_path(#[trigger] blocks[b]),
                block_package(blocks[b], index),
            );
        assert(packages[i].0 == block_path(blocks[b]));
    }
    lemma_canonical_same(packages);
    let read = kept_packages(graph);
    assert forall|i: int| 0 <= i < packages.len() implies read[i] == packages[i] by {
        let package = packages[i].1;
        let b = choose|b: int|
            0 <= b < blocks.len() && packages[i] == (
                block_path(#[trigger] blocks[b]),
                block_package(blocks[b], index),
            );
        assert(package == block_package(blocks[b], index));
        let deps = package.dependencies;
        lemma_resolved_values(blocks[b].dependencies, index);
        assert forall|k: int| 0 <= k < deps.len() implies key_of_dep((#[trigger] deps[k]).0, deps[k].1)
            == deps[k].1 && has_key(packages, deps[k].1) by {
            assert(packages[i].1.dependencies[k] == deps[k]);
            assert(resolved(blocks[b].dependencies, index)[k] == deps[k]);
            let spec = choose|spec: Seq<char>| #[trigger]
                lookup(index, spec) == Some(resolved(blocks[b].dependencies, index)[k].1);
            lemma_spec_index_some(blocks, spec);
        }
        lemma_linked_same(deps, packages);
        assert(kept(package, packages) =~= package);
    }
    assert(read =~= packages);
}

/// The name of a package is told by its key as well as by the specifier it came from.
proof fn lemma_name_in_key(spec: Seq<char>, version: Seq<char>)
    requires
        spec_name(spec) is Some,
    ensures
        spec_name(joined_at(spec_name(spec)->0, version)) == spec_name(spec),
        forall|c: char| lacks(spec, c) ==> #[trigger] lacks(spec_name(spec)->0, c),
{
    reveal_strlit("@");
    let name = spec_name(spec)->0;
    let key = joined_at(name, version);
    if spec.len() > 0 && spec[0] == '@' {
        let rest = spec.skip(1);
        let slash = find(rest, '/') as int;
        lemma_find_bounds(rest, '/');
        let tail = rest.skip(slash + 1);
        let at = find(tail, '@') as int;
        lemma_find_bounds(tail, '@');
        assert(name =~= spec.take(slash + at + 2));
        let key_rest = key.skip(1);
        assert forall|i: int| 0 <= i < slash + 1 + at implies key_rest[i] == rest[i] by {
            assert(key_rest[i] == name[i + 1]);
        }
        lemma_find_at(key_rest, '/', slash);
        let key_tail = key_rest.skip(slash + 1);
        assert forall|i: int| 0 <= i < at implies key_tail[i] == tail[i] by {
            assert(key_tail[i] == key_rest[slash + 1 + i]);
            assert(tail[i] == rest[slash + 1 + i]);
        }
        assert(key_tail[at] == '@');
        lemma_find_at(key_tail, '@', at);
        assert(key.take(slash + at + 2) =~= name);
    } else {
        let at = find(spec, '@') as int;
        lemma_find_bounds(spec, '@');
        assert(name =~= spec.take(at));
        assert forall|i: int| 0 <= i < at implies key[i] == spec[i] by {}
        lemma_find_at(key, '@', at);
        assert(key.take(at) =~= name);
        if at > 0 {
            assert(key[0] == spec[0]);
        } else {
            assert(spec[0] == '@');
        }
    }
    assert forall|c: char| lacks(spec, c) implies #[trigger] lacks(name, c) by {
        assert forall|i: int| 0 <= i < name.len() implies name[i] != c by {
            assert(name[i] == spec[i]);
        }
    }
}

/// The resolved dependencies are some of the dependencies, in the same order.
pub proof fn lemma_resolved_names(deps: TextEntries, index: TextEntries)
    requires
        sorted(deps),
    ensures
        sorted(resolved(deps, index)),
        forall|k: int|
            #![trigger resolved(deps, index)[k]]
            0 <= k < resolved(deps, index).len() ==> exists|j: int|
                0 <= j < deps.len() && (#[trigger] deps[j]).0 == resolved(deps, index)[k].0,
    decreases deps.len(),
{
    if deps.len() > 0 {
        let front = deps.drop_last();
        let n = deps.len() - 1;
        assert forall|i: int, j: int| 0 <= i < j < front.len() implies before(
            #[trigger] front[i].0,
            #[trigger] front[j].0,
        ) by {
            assert(before(deps[i].0, deps[j].0));
        }
        lemma_resolved_names(front, index);
        let rest = resolved(front, index);
        let all = resolved(deps, index);
        assert forall|k: int| #![trigger all[k]] 0 <= k < all.len() implies exists|j: int|
            0 <= j < deps.len() && (#[trigger] deps[j]).0 == all[k].0 by {
            if k < rest.len() {
                assert(all[k] == rest[k]);
                let j = choose|j: int|
                    0 <= j < front.len() && (#[trigger] front[j]).0 == rest[k].0;
                assert(deps[j] == front[j]);
            } else {
                assert(deps[n].0 == all[k].0);
            }
        }
        assert forall|i: int, j: int| 0 <= i < j < all.len() implies before(
            #[trigger] all[i].0,
            #[trigger] all[j].0,
        ) by {
            assert(all[i] == rest[i]);
            if j < rest.len() {
                assert(all[j] == rest[j]);
                assert(before(rest[i].0, rest[j].0));
            } else {
                let k = choose|k: int|
                    0 <= k < front.len() && (#[trigger] front[k]).0 == rest[i].0;
                assert(before(deps[k].0, deps[n].0));
            }
        }
    }
}

/// What a package that was read must still meet to be read again: its version does not
/// break the header, and its checksum has nothing around it that would be taken off.
pub open spec fn reread_safely(package: PackageView) -> bool {
    &&& lacks(package.version, ',')
    &&& package.integrity matches Some(text) ==> {
        &&& text.len() > 0
        &&& text.last() != ':'
        &&& unquote(trim(text)) == text
    }
}

/// Whether the header of a package can take the specifiers of the manifest: they stand on
/// one line, and none of them reads as empty.
pub open spec fn header_safe(key: Seq<char>, roots: Seq<(Seq<char>, Seq<char>)>) -> bool {
    &&& forall|i: int|
        0 <= i < extra_specs(roots, key).len() ==> lacks(
            #[trigger] extra_specs(roots, key)[i],
            '\n',
        )
    &&& !header_read(key, roots).contains(Seq::<char>::empty())
}

/// Whether every package that was read can be written and read again.
pub open spec fn rewritable(graph: GraphView, manifest: ManifestView) -> bool {
    forall|i: int|
        0 <= i < graph.packages.len() ==> reread_safely((#[trigger] graph.packages[i]).1)
            && header_safe(graph.packages[i].0, root_specs(root_deps(graph), manifest))
}

/// The packages of a graph that was read are written so that they can be read again.
proof fn lemma_rewritable(
    content: Seq<char>,
    manifest: ManifestView,
    graph: GraphView,
    writer: ManifestView,
)
    requires
        parsed(content, manifest) == Ok::<GraphView, Seq<char>>(graph),
        canonical(graph.packages) == graph.packages,
        rewritable(graph, writer),
    ensures
        writable(graph, writer),
{
    let blocks = blocks_of(content)->Ok_0;
    let index = spec_index(blocks);
    let packages = graph.packages;
    let roots = root_specs(root_deps(graph), writer);
    lemma_blocks_plain(content);
    lemma_packages_of_blocks(blocks, index);
    assert forall|i: int| 0 <= i < packages.len() implies writable_package(
        (#[trigger] packages[i]).0,
        packages[i].1,
        roots,
        packages,
    ) by {
        let (key, package) = packages[i];
        assert(reread_safely(packages[i].1) && header_safe(packages[i].0, roots));
        let b = choose|b: int|
            0 <= b < blocks.len() && packages[i] == (
                block_path(#[trigger] blocks[b]),
                block_package(blocks[b], index),
            );
        let block = blocks[b];
        assert(plain_block(block));
        lemma_complaint_free(blocks, b);
        lemma_block_texts(block);
        let name = package.name;
        let version = package.version;
        reveal_strlit("@");
        assert(plain_spec(block.specs[0]));
        lemma_name_in_key(block.specs[0], version);
        assert(lacks(name, ',') && lacks(name, '\n'));
        assert forall|k: int| 0 <= k < key.len() implies key[k] != ',' && key[k] != '\n' by {
            if k < name.len() {
                assert(key[k] == name[k]);
            } else if k > name.len() {
                assert(key[k] == version[k - name.len() - 1]);
            }
        }
        let specs = header_of(key, roots);
        assert forall|k: int| 0 <= k < specs.len() implies lacks(#[trigger] specs[k], '\n') by {
            if k > 0 {
                assert(specs[k] == extra_specs(roots, key)[k - 1]);
            }
        }
        lemma_resolved_names(block.dependencies, index);
        lemma_written_deps(package.dependencies, packages);
        let deps = written_deps(package.dependencies, packages);
        assert forall|k: int| 0 <= k < deps.len() implies plain_name((#[trigger] deps[k]).0) by {
            let j = choose|j: int|
                0 <= j < package.dependencies.len() && writes_dep(
                    #[trigger] package.dependencies[j],
                    packages,
                    deps[k],
                );
            assert(resolved(block.dependencies, index)[j].0 == deps[k].0);
            let m = choose|m: int|
                0 <= m < block.dependencies.len() && (#[trigger] block.dependencies[m]).0
                    == resolved(block.dependencies, index)[j].0;
            assert(plain_name(block.dependencies[m].0));
        }
    }
}

/// The version and the checksum of a block stand on one line.
proof fn lemma_block_texts(block: BlockView)
    requires
        plain_block(block),
    ensures
        block_version(block) matches Some(version) ==> lacks(version, '\n'),
        lookup(block.fields, "integrity"@) matches Some(text) ==> lacks(text, '\n'),
{
    if has_key(block.fields, "version"@) {
        assert(lacks(block.fields[key_index(block.fields, "version"@)].1, '\n'));
    }
    if has_key(block.fields, "integrity"@) {
        assert(lacks(block.fields[key_index(block.fields, "integrity"@)].1, '\n'));
    }
}

pub proof fn lemma_complaint_free(blocks: Seq<BlockView>, b: int)
    requires
        first_complaint(blocks) is None,
        0 <= b < blocks.len(),
    ensures
        block_complaint(blocks[b]) is None,
    decreases blocks.len(),
{
    if b > 0 {
        assert(blocks.drop_first()[b - 1] == blocks[b]);
        lemma_complaint_free(blocks.drop_first(), b - 1);
    }
}

/// Reading a lockfile, writing what was read and reading that again gives the same
/// packages: the same versions and checksums, and the same links between them.
pub proof fn law_packages_survive_rewriting(
    content: Seq<char>,
    manifest: ManifestView,
    graph: GraphView,
    writer: ManifestView,
    reader: ManifestView,
)
    requires
        parsed(content, manifest) == Ok::<GraphView, Seq<char>>(graph),
        own_links(graph),
        rewritable(graph, writer),
        all_links_clear(graph, writer),
    ensures
        parsed(written(graph, writer), reader) matches Ok(read) && read.packages == graph.packages,
{
    lemma_kept_same(content, manifest, graph);
    lemma_rewritable(content, manifest, graph, writer);
    law_packages_survive_writing(graph, writer, reader);
}

/// Whether a specifier of the manifest leads to the same package before and after a
/// lockfile is rewritten. Where it led to a package, it is the one that the manifest
/// declares the dependency under, and no block further down lists it. Where it led
/// nowhere, no block lists it.
pub open spec fn spec_kept(
    name: Seq<char>,
    range: Seq<char>,
    found: Option<Seq<char>>,
    graph: GraphView,
    manifest: ManifestView,
) -> bool {
    let packages = canonical(graph.packages);
    let roots = root_specs(root_deps(graph), manifest);
    let spec = joined_at(name, range);
    match found {
        Some(path) => {
            &&& manifest_range(manifest, name) == Some(range)
            &&& without_peers(path) == path
            &&& !shadowed(spec, path, roots, packages)
        },
        None => forall|i: int|
            0 <= i < packages.len() ==> !header_read((#[trigger] packages[i]).0, roots).contains(
                spec,
            ),
    }
}

/// Whether all specifiers of one section lead to the same packages before and after a
/// lockfile is rewritten.
pub open spec fn section_kept(
    section: TextEntries,
    content: Seq<char>,
    graph: GraphView,
    manifest: ManifestView,
) -> bool {
    let index = spec_index(blocks_of(content)->Ok_0);
    forall|i: int|
        0 <= i < section.len() ==> spec_kept(
            (#[trigger] section[i]).0,
            section[i].1,
            lookup(index, joined_at(section[i].0, section[i].1)),
            graph,
            manifest,
        )
}

proof fn lemma_same_section(
    section: TextEntries,
    dep_type: DepType,
    a: TextEntries,
    b: TextEntries,
)
    requires
        forall|i: int|
            #![trigger section[i]]
            0 <= i < section.len() ==> lookup(a, joined_at(section[i].0, section[i].1)) == lookup(
                b,
                joined_at(section[i].0, section[i].1),
            ),
    ensures
        section_deps(section, dep_type, a) == section_deps(section, dep_type, b),
    decreases section.len(),
{
    if section.len() > 0 {
        let front = section.drop_last();
        assert forall|i: int|
            #![trigger front[i]]
            0 <= i < front.len() implies lookup(a, joined_at(front[i].0, front[i].1)) == lookup(
            b,
            joined_at(front[i].0, front[i].1),
        ) by {
            assert(front[i] == section[i]);
        }
        lemma_same_section(front, dep_type, a, b);
        assert(section[section.len() - 1] == section.last());
    }
}

proof fn lemma_section_kept(
    section: TextEntries,
    dep_type: DepType,
    content: Seq<char>,
    graph: GraphView,
    manifest: ManifestView,
)
    requires
        parsed(content, manifest) == Ok::<GraphView, Seq<char>>(graph),
        own_links(graph),
        writable(graph, manifest),
        section_kept(section, content, graph, manifest),
        forall|dep: DirectDepView|
            section_deps(section, dep_type, spec_index(blocks_of(content)->Ok_0)).contains(dep)
                ==> #[trigger] root_deps(graph).contains(dep),
    ensures
        section_deps(section, dep_type, spec_index(blocks_of(content)->Ok_0)) == section_deps(
            section,
            dep_type,
            spec_index(
                blocks_read(
                    canonical(graph.packages),
                    root_specs(root_deps(graph), manifest),
                    canonical(graph.packages),
                ),
            ),
        ),
{
    let blocks = blocks_of(content)->Ok_0;
    let old_index = spec_index(blocks);
    let deps = root_deps(graph);
    let roots = root_specs(deps, manifest);
    let packages = canonical(graph.packages);
    let new_blocks = blocks_read(packages, roots, packages);
    let new_index = spec_index(new_blocks);
    lemma_kept_same(content, manifest, graph);
    lemma_canonical(graph.packages);
    lemma_packages_of_blocks(blocks, old_index);
    lemma_blocks_plain(content);
    assert forall|i: int|
        #![trigger section[i]]
        0 <= i < section.len() implies lookup(old_index, joined_at(section[i].0, section[i].1))
        == lookup(new_index, joined_at(section[i].0, section[i].1)) by {
        let (name, range) = section[i];
        let spec = joined_at(name, range);
        assert(spec_kept(name, range, lookup(old_index, spec), graph, manifest));
        match lookup(old_index, spec) {
            Some(path) => {
                lemma_plain_index(blocks, spec);
                lemma_spec_index_some(blocks, spec);
                assert(has_key(packages, path));
                let a = key_index(packages, path);
                assert(writable_package(packages[a].0, packages[a].1, roots, packages));
                lemma_section_deps(section, dep_type, old_index, i);
                let dep = DirectDepView { name, dep_path: path, dep_type, specifier: None };
                assert(deps.contains(dep));
                let d = choose|d: int| 0 <= d < deps.len() && deps[d] == dep;
                lemma_header_lists(deps, manifest, d);
                lemma_find_spec(packages, roots, path, spec);
            },
            None => {
                lemma_spec_index_some(new_blocks, spec);
                if lookup(new_index, spec) is Some {
                    let b = choose|b: int|
                        0 <= b < new_blocks.len() && (#[trigger] new_blocks[b]).specs.contains(
                            spec,
                        );
                    assert(header_read(packages[b].0, roots).contains(spec));
                    assert(false);
                }
            },
        }
    }
    lemma_same_section(section, dep_type, old_index, new_index);
}

/// A specifier that leads somewhere is one that a header can hold.
proof fn lemma_plain_index(blocks: Seq<BlockView>, spec: Seq<char>)
    requires
        forall|i: int| 0 <= i < blocks.len() ==> plain_block(#[trigger] blocks[i]),
        lookup(spec_index(blocks), spec) is Some,
    ensures
        plain_spec(spec),
{
    lemma_spec_index_some(blocks, spec);
    let i = choose|i: int| 0 <= i < blocks.len() && (#[trigger] blocks[i]).specs.contains(spec);
    assert(plain_block(blocks[i]));
    let k = choose|k: int| 0 <= k < blocks[i].specs.len() && blocks[i].specs[k] == spec;
    assert(plain_spec(blocks[i].specs[k]));
}

/// Whether the manifest declares the dependencies of one section that were found by the
/// ranges they were found under.
spec fn section_declared(section: TextEntries, index: TextEntries, manifest: ManifestView) -> bool {
    forall|i: int|
        #![trigger section[i]]
        0 <= i < section.len() && lookup(index, joined_at(section[i].0, section[i].1)) is Some
            ==> manifest_range(manifest, section[i].0) == Some(section[i].1)
}

/// Whether the specifier of a direct dependency in the manifest leads to its package.
spec fn found_root(dep: DirectDepView, manifest: ManifestView, index: TextEntries) -> bool {
    manifest_range(manifest, dep.name) matches Some(range) && lookup(
        index,
        joined_at(dep.name, range),
    ) == Some(dep.dep_path)
}

/// Whether a specifier leads to the package under `key`.
spec fn leads_to(index: TextEntries, spec: Seq<char>, key: Seq<char>) -> bool {
    lookup(index, spec) matches Some(path) && without_peers(path) == key
}

proof fn lemma_found_section(
    section: TextEntries,
    dep_type: DepType,
    index: TextEntries,
    manifest: ManifestView,
)
    requires
        section_declared(section, index, manifest),
    ensures
        forall|d: int|
            0 <= d < section_deps(section, dep_type, index).len() ==> found_root(
                #[trigger] section_deps(section, dep_type, index)[d],
                manifest,
                index,
            ),
    decreases section.len(),
{
    if section.len() > 0 {
        let front = section.drop_last();
        let n = section.len() - 1;
        assert forall|i: int|
            #![trigger front[i]]
            0 <= i < front.len() && lookup(
                index,
                joined_at(front[i].0, front[i].1),
            ) is Some implies manifest_range(manifest, front[i].0) == Some(front[i].1) by {
            assert(front[i] == section[i]);
        }
        lemma_found_section(front, dep_type, index, manifest);
        let prior = section_deps(front, dep_type, index);
        let all = section_deps(section, dep_type, index);
        assert(section[n] == section.last());
        assert forall|d: int| 0 <= d < all.len() implies found_root(
            #[trigger] all[d],
            manifest,
            index,
        ) by {
            if d < prior.len() {
                assert(all[d] == prior[d]);
            }
        }
    }
}

proof fn lemma_found_root_specs(
    deps: Seq<DirectDepView>,
    manifest: ManifestView,
    index: TextEntries,
)
    requires
        forall|d: int| 0 <= d < deps.len() ==> found_root(#[trigger] deps[d], manifest, index),
    ensures
        forall|i: int|
            0 <= i < root_specs(deps, manifest).len() ==> leads_to(
                index,
                (#[trigger] root_specs(deps, manifest)[i]).1,
                root_specs(deps, manifest)[i].0,
            ),
    decreases deps.len(),
{
    if deps.len() > 0 {
        let front = deps.drop_last();
        assert forall|d: int| 0 <= d < front.len() implies found_root(
            #[trigger] front[d],
            manifest,
            index,
        ) by {
            assert(front[d] == deps[d]);
        }
        lemma_found_root_specs(front, manifest, index);
        assert(found_root(deps[deps.len() - 1], manifest, index));
        let prior = root_specs(front, manifest);
        let all = root_specs(deps, manifest);
        assert forall|i: int| 0 <= i < all.len() implies leads_to(
            index,
            (#[trigger] all[i]).1,
            all[i].0,
        ) by {
            if i < prior.len() {
                assert(all[i] == prior[i]);
            }
        }
    }
}

proof fn lemma_found_extras(
    roots: Seq<(Seq<char>, Seq<char>)>,
    key: Seq<char>,
    index: TextEntries,
)
    requires
        forall|i: int|
            0 <= i < roots.len() ==> leads_to(index, (#[trigger] roots[i]).1, roots[i].0),
    ensures
        forall|i: int|
            0 <= i < extra_specs(roots, key).len() ==> leads_to(
                index,
                #[trigger] extra_specs(roots, key)[i],
                key,
            ),
    decreases roots.len(),
{
    if roots.len() > 0 {
        let front = roots.drop_last();
        assert forall|i: int| 0 <= i < front.len() implies leads_to(
            index,
            (#[trigger] front[i]).1,
            front[i].0,
        ) by {
            assert(front[i] == roots[i]);
        }
        lemma_found_extras(front, key, index);
        let n = roots.len() - 1;
        assert(leads_to(index, roots[n].1, roots[n].0));
        let prior = extra_specs(front, key);
        let all = extra_specs(roots, key);
        assert forall|i: int| 0 <= i < all.len() implies leads_to(
            index,
            #[trigger] all[i],
            key,
        ) by {
            if i < prior.len() {
                assert(all[i] == prior[i]);
            }
        }
    }
}

/// The specifiers that the headers list beside the keys were found in the lockfile.
proof fn lemma_found_headers(content: Seq<char>, manifest: ManifestView, graph: GraphView)
    requires
        parsed(content, manifest) == Ok::<GraphView, Seq<char>>(graph),
        ({
            let index = spec_index(blocks_of(content)->Ok_0);
            &&& section_declared(manifest.dependencies, index, manifest)
            &&& section_declared(manifest.dev_dependencies, index, manifest)
            &&& section_declared(manifest.optional_dependencies, index, manifest)
        }),
    ensures
        ({
            let index = spec_index(blocks_of(content)->Ok_0);
            let roots = root_specs(root_deps(graph), manifest);
            forall|key: Seq<char>, i: int|
                #![trigger extra_specs(roots, key)[i]]
                0 <= i < extra_specs(roots, key).len() ==> leads_to(
                    index,
                    extra_specs(roots, key)[i],
                    key,
                )
        }),
{
    let index = spec_index(blocks_of(content)->Ok_0);
    let deps = root_deps(graph);
    lemma_single(direct_deps(manifest, index));
    let first = section_deps(manifest.dependencies, DepType::Production, index);
    let second = section_deps(manifest.dev_dependencies, DepType::Dev, index);
    let third = section_deps(manifest.optional_dependencies, DepType::Optional, index);
    assert(deps == first + second + third);
    lemma_found_section(manifest.dependencies, DepType::Production, index, manifest);
    lemma_found_section(manifest.dev_dependencies, DepType::Dev, index, manifest);
    lemma_found_section(manifest.optional_dependencies, DepType::Optional, index, manifest);
    assert forall|d: int| 0 <= d < deps.len() implies found_root(
        #[trigger] deps[d],
        manifest,
        index,
    ) by {
        if d < first.len() {
            assert(deps[d] == first[d]);
        } else if d < first.len() + second.len() {
            assert(deps[d] == second[d - first.len()]);
        } else {
            assert(deps[d] == third[d - first.len() - second.len()]);
        }
    }
    lemma_found_root_specs(deps, manifest, index);
    let roots = root_specs(deps, manifest);
    assert forall|key: Seq<char>, i: int|
        #![trigger extra_specs(roots, key)[i]]
        0 <= i < extra_specs(roots, key).len() implies leads_to(
        index,
        extra_specs(roots, key)[i],
        key,
    ) by {
        lemma_found_extras(roots, key, index);
    }
}

/// Where the specifiers of a manifest were found in a lockfile, its headers can take them.
proof fn lemma_headers_safe(content: Seq<char>, manifest: ManifestView, graph: GraphView)
    requires
        parsed(content, manifest) == Ok::<GraphView, Seq<char>>(graph),
        forall|i: int|
            0 <= i < graph.packages.len() ==> reread_safely((#[trigger] graph.packages[i]).1),
        ({
            let index = spec_index(blocks_of(content)->Ok_0);
            &&& section_declared(manifest.dependencies, index, manifest)
            &&& section_declared(manifest.dev_dependencies, index, manifest)
            &&& section_declared(manifest.optional_dependencies, index, manifest)
        }),
    ensures
        rewritable(graph, manifest),
        ({
            let roots = root_specs(root_deps(graph), manifest);
            forall|i: int|
                0 <= i < graph.packages.len() ==> header_read(
                    (#[trigger] graph.packages[i]).0,
                    roots,
                ) == header_of(graph.packages[i].0, roots)
        }),
{
    let blocks = blocks_of(content)->Ok_0;
    let index = spec_index(blocks);
    let roots = root_specs(root_deps(graph), manifest);
    lemma_found_headers(content, manifest, graph);
    lemma_blocks_plain(content);
    lemma_packages_of_blocks(blocks, index);
    assert forall|i: int| 0 <= i < graph.packages.len() implies reread_safely(
        (#[trigger] graph.packages[i]).1,
    ) && header_safe(graph.packages[i].0, roots) && header_read(graph.packages[i].0, roots)
        == header_of(graph.packages[i].0, roots) by {
        let (key, package) = graph.packages[i];
        let b = choose|b: int|
            0 <= b < blocks.len() && graph.packages[i] == (
                block_path(#[trigger] blocks[b]),
                block_package(blocks[b], index),
            );
        lemma_complaint_free(blocks, b);
        assert(plain_block(blocks[b]));
        assert(plain_spec(blocks[b].specs[0]));
        lemma_name_in_key(blocks[b].specs[0], package.version);
        reveal_strlit("@");
        assert(reread_safely(graph.packages[i].1));
        assert(key.len() > 0);
        assert(lacks(package.name, ','));
        assert(lacks(key, ',')) by {
            assert forall|k: int| 0 <= k < key.len() implies key[k] != ',' by {
                if k < package.name.len() {
                    assert(key[k] == package.name[k]);
                } else if k > package.name.len() {
                    assert(key[k] == package.version[k - package.name.len() - 1]);
                }
            }
        }
        let specs = header_of(key, roots);
        let extra = extra_specs(roots, key);
        assert forall|k: int| 0 <= k < extra.len() implies plain_spec(#[trigger] extra[k]) by {
            assert(leads_to(index, extra_specs(roots, key)[k], key));
            lemma_plain_index(blocks, extra[k]);
        }
        assert forall|k: int| 0 <= k < specs.len() implies lacks(#[trigger] specs[k], ',')
            && specs[k].len() > 0 by {
            if k > 0 {
                assert(specs[k] == extra[k - 1]);
                assert(plain_spec(extra[k - 1]));
            }
        }
        lemma_list_pieces(specs);
        assert(header_read(key, roots) == specs);
        assert forall|k: int| 0 <= k < extra.len() implies lacks(#[trigger] extra[k], '\n') by {
            assert(plain_spec(extra[k]));
        }
    }
}

proof fn lemma_kept_is_declared(
    section: TextEntries,
    content: Seq<char>,
    graph: GraphView,
    manifest: ManifestView,
)
    requires
        section_kept(section, content, graph, manifest),
    ensures
        section_declared(section, spec_index(blocks_of(content)->Ok_0), manifest),
{
    let index = spec_index(blocks_of(content)->Ok_0);
    assert forall|i: int|
        #![trigger section[i]]
        0 <= i < section.len() && lookup(
            index,
            joined_at(section[i].0, section[i].1),
        ) is Some implies manifest_range(manifest, section[i].0) == Some(section[i].1) by {
        assert(spec_kept(
            section[i].0,
            section[i].1,
            lookup(index, joined_at(section[i].0, section[i].1)),
            graph,
            manifest,
        ));
    }
}

/// Reading a lockfile, writing what was read and reading that again with the same manifest
/// gives the same graph, direct dependencies included.
pub proof fn law_graph_survives_rewriting(
    content: Seq<char>,
    manifest: ManifestView,
    graph: GraphView,
)
    requires
        parsed(content, manifest) == Ok::<GraphView, Seq<char>>(graph),
        own_links(graph),
        forall|i: int|
            0 <= i < graph.packages.len() ==> reread_safely((#[trigger] graph.packages[i]).1),
        all_links_clear(graph, manifest),
        section_kept(manifest.dependencies, content, graph, manifest),
        section_kept(manifest.dev_dependencies, content, graph, manifest),
        section_kept(manifest.optional_dependencies, content, graph, manifest),
    ensures
        parsed(written(graph, manifest), manifest) == Ok::<GraphView, Seq<char>>(graph),
{
    let packages = canonical(graph.packages);
    let roots = root_specs(root_deps(graph), manifest);
    let old_index = spec_index(blocks_of(content)->Ok_0);
    let new_index = spec_index(blocks_read(packages, roots, packages));
    lemma_kept_same(content, manifest, graph);
    lemma_kept_is_declared(manifest.dependencies, content, graph, manifest);
    lemma_kept_is_declared(manifest.dev_dependencies, content, graph, manifest);
    lemma_kept_is_declared(manifest.optional_dependencies, content, graph, manifest);
    lemma_headers_safe(content, manifest, graph);
    lemma_rewritable(content, manifest, graph, manifest);
    lemma_parse_written(graph, manifest, manifest);
    lemma_packages_written(graph, manifest);
    lemma_single(direct_deps(manifest, old_index));
    let first = section_deps(manifest.dependencies, DepType::Production, old_index);
    let second = section_deps(manifest.dev_dependencies, DepType::Dev, old_index);
    let third = section_deps(manifest.optional_dependencies, DepType::Optional, old_index);
    let all = root_deps(graph);
    assert(all == first + second + third);
    assert forall|dep: DirectDepView| first.contains(dep) || second.contains(dep)
        || third.contains(dep) implies #[trigger] all.contains(dep) by {
        if first.contains(dep) {
            let k = choose|k: int| 0 <= k < first.len() && first[k] == dep;
            assert(all[k] == dep);
        } else if second.contains(dep) {
            let k = choose|k: int| 0 <= k < second.len() && second[k] == dep;
            assert(all[first.len() + k] == dep);
        } else {
            let k = choose|k: int| 0 <= k < third.len() && third[k] == dep;
            assert(all[first.len() + second.len() + k] == dep);
        }
    }
    lemma_section_kept(
        manifest.dependencies,
        DepType::Production,
        content,
        graph,
        manifest,
    );
    lemma_section_kept(manifest.dev_dependencies, DepType::Dev, content, graph, manifest);
    lemma_section_kept(manifest.optional_dependencies, DepType::Optional, content, graph, manifest);
    assert(direct_deps(manifest, new_index) == direct_deps(manifest, old_index));
    assert(graph.importers =~= seq![("."@, direct_deps(manifest, new_index))]);
}

/// In a graph that was read, packages stand under their name and version, and every
/// dependency leads to a package of the graph.
pub proof fn law_read_graph_is_closed(content: Seq<char>, manifest: ManifestView, graph: GraphView)
    requires
        parsed(content, manifest) == Ok::<GraphView, Seq<char>>(graph),
    ensures
        sorted(graph.packages),
        forall|i: int|
            0 <= i < graph.packages.len() ==> (#[trigger] graph.packages[i]).0 == package_key(
                graph.packages[i].1,
            ) && graph.packages[i].1.dep_path == graph.packages[i].0,
        forall|i: int, k: int|
            #![trigger graph.packages[i].1.dependencies[k]]
            0 <= i < graph.packages.len() && 0 <= k < graph.packages[i].1.dependencies.len()
                ==> has_key(graph.packages, graph.packages[i].1.dependencies[k].1),
        forall|d: int|
            0 <= d < root_deps(graph).len() ==> has_key(
                graph.packages,
                (#[trigger] root_deps(graph)[d]).dep_path,
            ),
{
    let blocks = blocks_of(content)->Ok_0;
    let index = spec_index(blocks);
    let packages = graph.packages;
    lemma_packages_of_blocks(blocks, index);
    assert forall|i: int| 0 <= i < packages.len() implies (#[trigger] packages[i]).0 == package_key(
        packages[i].1,
    ) && packages[i].1.dep_path == packages[i].0 by {
        let b = choose|b: int|
            0 <= b < blocks.len() && packages[i] == (
                block_path(#[trigger] blocks[b]),
                block_package(blocks[b], index),
            );
        assert(packages[i].0 == block_path(blocks[b]));
    }
    assert forall|i: int, k: int|
        #![trigger packages[i].1.dependencies[k]]
        0 <= i < packages.len() && 0 <= k < packages[i].1.dependencies.len() implies has_key(
        packages,
        packages[i].1.dependencies[k].1,
    ) by {
        let b = choose|b: int|
            0 <= b < blocks.len() && packages[i] == (
                block_path(#[trigger] blocks[b]),
                block_package(blocks[b], index),
            );
        let deps = resolved(blocks[b].dependencies, index);
        assert(packages[i].1.dependencies == deps);
        lemma_resolved_values(blocks[b].dependencies, index);
        let spec = choose|spec: Seq<char>| #[trigger] lookup(index, spec) == Some(deps[k].1);
        lemma_spec_index_some(blocks, spec);
    }
    lemma_single(direct_deps(manifest, index));
    let all = root_deps(graph);
    let first = section_deps(manifest.dependencies, DepType::Production, index);
    let second = section_deps(manifest.dev_dependencies, DepType::Dev, index);
    let third = section_deps(manifest.optional_dependencies, DepType::Optional, index);
    assert(all == first + second + third);
    lemma_section_values(manifest.dependencies, DepType::Production, index);
    lemma_section_values(manifest.dev_dependencies, DepType::Dev, index);
    lemma_section_values(manifest.optional_dependencies, DepType::Optional, index);
    assert forall|d: int| 0 <= d < all.len() implies has_key(
        packages,
        (#[trigger] all[d]).dep_path,
    ) by {
        if d < first.len() {
            assert(all[d] == first[d]);
        } else if d < first.len() + second.len() {
            assert(all[d] == second[d - first.len()]);
        } else {
            assert(all[d] == third[d - first.len() - second.len()]);
        }
        let spec = choose|spec: Seq<char>| #[trigger]
            lookup(index, spec) == Some(all[d].dep_path);
        lemma_spec_index_some(blocks, spec);
    }
}

proof fn lemma_section_values(section: TextEntries, dep_type: DepType, index: TextEntries)
    ensures
        forall|d: int|
            #![trigger section_deps(section, dep_type, index)[d]]
            0 <= d < section_deps(section, dep_type, index).len() ==> exists|spec: Seq<char>|
                #[trigger] lookup(index, spec) == Some(
                    section_deps(section, dep_type, index)[d].dep_path,
                ),
    decreases section.len(),
{
    if section.len() > 0 {
        let front = section.drop_last();
        lemma_section_values(front, dep_type, index);
        let prior = section_deps(front, dep_type, index);
        let all = section_deps(section, dep_type, index);
        assert forall|d: int| #![trigger all[d]] 0 <= d < all.len() implies exists|
            spec: Seq<char>,
        | #[trigger] lookup(index, spec) == Some(all[d].dep_path) by {
            if d < prior.len() {
                assert(all[d] == prior[d]);
            } else {
                let spec = joined_at(section.last().0, section.last().1);
                assert(lookup(index, spec) == Some(all[d].dep_path));
            }
        }
    }
}

/// Whether each header lists specifiers of one package only.
pub open spec fn headers_name_one_package(blocks: Seq<BlockView>) -> bool {
    forall|b: int, s: int|
        #![trigger blocks[b].specs[s]]
        0 <= b < blocks.len() && 0 <= s < blocks[b].specs.len() ==> spec_name(blocks[b].specs[s])
            == block_name(blocks[b])
}

/// Whether each dependency is written under the name of a package.
pub open spec fn deps_have_names(blocks: Seq<BlockView>) -> bool {
    forall|b: int, k: int|
        #![trigger blocks[b].dependencies[k]]
        0 <= b < blocks.len() && 0 <= k < blocks[b].dependencies.len() ==> spec_name(
            joined_at(blocks[b].dependencies[k].0, blocks[b].dependencies[k].1),
        ) == Some(blocks[b].dependencies[k].0)
}

/// Whether a specifier for an exact version heads the block of that version only.
pub open spec fn exact_specs_head_their_block(
    blocks: Seq<BlockView>,
    packages: Seq<(Seq<char>, PackageView)>,
) -> bool {
    forall|b: int, s: int|
        #![trigger blocks[b].specs[s]]
        0 <= b < blocks.len() && 0 <= s < blocks[b].specs.len() && has_key(
            packages,
            blocks[b].specs[s],
        ) ==> blocks[b].specs[s] == block_path(blocks[b])
}

/// Whether the exact versions that a section of the manifest asks for are listed in the
/// lockfile as such.
pub open spec fn exact_ranges_are_listed(
    section: TextEntries,
    blocks: Seq<BlockView>,
    packages: Seq<(Seq<char>, PackageView)>,
) -> bool {
    forall|i: int|
        #![trigger section[i]]
        0 <= i < section.len() && has_key(packages, joined_at(section[i].0, section[i].1))
            ==> has_key(spec_index(blocks), joined_at(section[i].0, section[i].1))
}

/// Whether no dependency is declared in two sections of a manifest.
pub open spec fn declared_once(manifest: ManifestView) -> bool {
    forall|name: Seq<char>|
        {
            &&& #[trigger] has_key(manifest.dependencies, name) ==> !has_key(
                manifest.dev_dependencies,
                name,
            ) && !has_key(manifest.optional_dependencies, name)
            &&& has_key(manifest.dev_dependencies, name) ==> !has_key(
                manifest.optional_dependencies,
                name,
            )
        }
}

/// What must hold of a lockfile and a manifest for the lockfile to survive being rewritten,
/// in terms of what they say.
pub open spec fn ordinary(
    blocks: Seq<BlockView>,
    manifest: ManifestView,
    packages: Seq<(Seq<char>, PackageView)>,
) -> bool {
    &&& headers_name_one_package(blocks)
    &&& deps_have_names(blocks)
    &&& exact_specs_head_their_block(blocks, packages)
    &&& declared_once(manifest)
    &&& exact_ranges_are_listed(manifest.dependencies, blocks, packages)
    &&& exact_ranges_are_listed(manifest.dev_dependencies, blocks, packages)
    &&& exact_ranges_are_listed(manifest.optional_dependencies, blocks, packages)
    &&& forall|i: int|
        0 <= i < packages.len() ==> lacks((#[trigger] packages[i]).0, '(') && reread_safely(
            packages[i].1,
        )
}

/// A path without parentheses has no peers.
proof fn lemma_no_peers(path: Seq<char>)
    requires
        lacks(path, '('),
    ensures
        without_peers(path) == path,
{
    lemma_find_at(path, '(', path.len() as int);
    assert(path.take(path.len() as int) =~= path);
}

/// Each resolved dependency was found under its name and range.
pub proof fn lemma_resolved_from(deps: TextEntries, index: TextEntries, k: int) -> (j: int)
    requires
        0 <= k < resolved(deps, index).len(),
    ensures
        0 <= j < deps.len(),
        deps[j].0 == resolved(deps, index)[k].0,
        lookup(index, joined_at(deps[j].0, deps[j].1)) == Some(resolved(deps, index)[k].1),
    decreases deps.len(),
{
    let front = deps.drop_last();
    let prior = resolved(front, index);
    if k < prior.len() {
        let j = lemma_resolved_from(front, index, k);
        assert(deps[j] == front[j]);
        assert(resolved(deps, index)[k] == prior[k]);
        j
    } else {
        deps.len() - 1
    }
}

/// In an ordinary lockfile every dependency resolved to a version of the package it names.
proof fn lemma_ordinary_links(content: Seq<char>, manifest: ManifestView, graph: GraphView)
    requires
        parsed(content, manifest) == Ok::<GraphView, Seq<char>>(graph),
        ordinary(blocks_of(content)->Ok_0, manifest, graph.packages),
    ensures
        own_links(graph),
{
    let blocks = blocks_of(content)->Ok_0;
    let index = spec_index(blocks);
    let packages = graph.packages;
    lemma_packages_of_blocks(blocks, index);
    reveal_strlit("@");
    assert forall|i: int, k: int|
        #![trigger packages[i].1.dependencies[k]]
        0 <= i < packages.len() && 0 <= k < packages[i].1.dependencies.len() implies key_of_dep(
        packages[i].1.dependencies[k].0,
        packages[i].1.dependencies[k].1,
    ) == packages[i].1.dependencies[k].1 by {
        let b = choose|b: int|
            0 <= b < blocks.len() && packages[i] == (
                block_path(#[trigger] blocks[b]),
                block_package(blocks[b], index),
            );
        let deps = blocks[b].dependencies;
        assert(packages[i].1.dependencies == resolved(deps, index));
        let (name, path) = resolved(deps, index)[k];
        let j = lemma_resolved_from(deps, index, k);
        let spec = joined_at(deps[j].0, deps[j].1);
        assert(spec_name(joined_at(blocks[b].dependencies[j].0, blocks[b].dependencies[j].1))
            == Some(name));
        lemma_spec_index_some(blocks, spec);
        let h = choose|h: int|
            0 <= h < blocks.len() && (#[trigger] blocks[h]).specs.contains(spec) && path
                == block_path(blocks[h]);
        let t = choose|t: int| 0 <= t < blocks[h].specs.len() && blocks[h].specs[t] == spec;
        assert(spec_name(blocks[h].specs[t]) == block_name(blocks[h]));
        let version = block_version(blocks[h])->0;
        assert(path == joined_at(name, version));
        assert(has_key(packages, path));
        assert(lacks(packages[key_index(packages, path)].0, '('));
        let prefix = name + "@"@;
        assert(path.subrange(0, prefix.len() as int) =~= prefix);
        assert(path.skip(prefix.len() as int) =~= version);
        assert(lacks(version, '(')) by {
            assert forall|m: int| 0 <= m < version.len() implies version[m] != '(' by {
                assert(version[m] == path[prefix.len() + m]);
            }
        }
        lemma_no_peers(version);
    }
}

/// In an ordinary lockfile no block further down lists a specifier that leads to a package,
/// nor the key of a package.
proof fn lemma_ordinary_clear(
    content: Seq<char>,
    manifest: ManifestView,
    graph: GraphView,
    spec: Seq<char>,
    path: Seq<char>,
)
    requires
        parsed(content, manifest) == Ok::<GraphView, Seq<char>>(graph),
        ordinary(blocks_of(content)->Ok_0, manifest, graph.packages),
        ({
            let index = spec_index(blocks_of(content)->Ok_0);
            &&& section_declared(manifest.dependencies, index, manifest)
            &&& section_declared(manifest.dev_dependencies, index, manifest)
            &&& section_declared(manifest.optional_dependencies, index, manifest)
            &&& lookup(index, spec) == Some(path) || spec == path && has_key(graph.packages, path)
        }),
    ensures
        !shadowed(spec, path, root_specs(root_deps(graph), manifest), graph.packages),
{
    let blocks = blocks_of(content)->Ok_0;
    let index = spec_index(blocks);
    let packages = graph.packages;
    let roots = root_specs(root_deps(graph), manifest);
    lemma_headers_safe(content, manifest, graph);
    lemma_found_headers(content, manifest, graph);
    lemma_packages_of_blocks(blocks, index);
    lemma_spec_index_some(blocks, spec);
    lemma_before_irreflexive(path);
    if shadowed(spec, path, roots, packages) {
        let i = choose|i: int|
            0 <= i < packages.len() && before(path, (#[trigger] packages[i]).0) && header_read(
                packages[i].0,
                roots,
            ).contains(spec);
        let key = packages[i].0;
        let specs = header_of(key, roots);
        let at = choose|at: int| 0 <= at < specs.len() && specs[at] == spec;
        if at > 0 {
            assert(extra_specs(roots, key)[at - 1] == spec);
            let found = lookup(index, spec)->0;
            assert(has_key(packages, found));
            assert(lacks(packages[key_index(packages, found)].0, '('));
            lemma_no_peers(found);
            assert(found == key);
        }
        if lookup(index, spec) is Some && has_key(packages, spec) {
            let b = choose|b: int|
                0 <= b < blocks.len() && (#[trigger] blocks[b]).specs.contains(spec)
                    && lookup(index, spec)->0 == block_path(blocks[b]);
            let s = choose|s: int| 0 <= s < blocks[b].specs.len() && blocks[b].specs[s] == spec;
            assert(blocks[b].specs[s] == block_path(blocks[b]));
        }
        assert(false);
    }
}

/// The specifiers of a manifest lead to the same packages before and after an ordinary
/// lockfile is rewritten.
proof fn lemma_ordinary_section(
    section: TextEntries,
    content: Seq<char>,
    manifest: ManifestView,
    graph: GraphView,
)
    requires
        parsed(content, manifest) == Ok::<GraphView, Seq<char>>(graph),
        canonical(graph.packages) == graph.packages,
        ordinary(blocks_of(content)->Ok_0, manifest, graph.packages),
        exact_ranges_are_listed(section, blocks_of(content)->Ok_0, graph.packages),
        ({
            let index = spec_index(blocks_of(content)->Ok_0);
            &&& section_declared(section, index, manifest)
            &&& section_declared(manifest.dependencies, index, manifest)
            &&& section_declared(manifest.dev_dependencies, index, manifest)
            &&& section_declared(manifest.optional_dependencies, index, manifest)
        }),
    ensures
        section_kept(section, content, graph, manifest),
{
    let blocks = blocks_of(content)->Ok_0;
    let index = spec_index(blocks);
    let packages = graph.packages;
    let roots = root_specs(root_deps(graph), manifest);
    lemma_headers_safe(content, manifest, graph);
    lemma_found_headers(content, manifest, graph);
    lemma_packages_of_blocks(blocks, index);
    assert forall|i: int| 0 <= i < section.len() implies spec_kept(
        (#[trigger] section[i]).0,
        section[i].1,
        lookup(index, joined_at(section[i].0, section[i].1)),
        graph,
        manifest,
    ) by {
        let spec = joined_at(section[i].0, section[i].1);
        match lookup(index, spec) {
            Some(path) => {
                lemma_spec_index_some(blocks, spec);
                assert(has_key(packages, path));
                assert(lacks(packages[key_index(packages, path)].0, '('));
                lemma_no_peers(path);
                lemma_ordinary_clear(content, manifest, graph, spec, path);
            },
            None => {
                assert forall|k: int| 0 <= k < packages.len() implies !header_read(
                    (#[trigger] packages[k]).0,
                    roots,
                ).contains(spec) by {
                    let key = packages[k].0;
                    let specs = header_of(key, roots);
                    if specs.contains(spec) {
                        let at = choose|at: int| 0 <= at < specs.len() && specs[at] == spec;
                        if at > 0 {
                            assert(extra_specs(roots, key)[at - 1] == spec);
                        } else {
                            assert(has_key(packages, spec));
                        }
                        assert(false);
                    }
                }
            },
        }
    }
}

proof fn lemma_declared_once(manifest: ManifestView, index: TextEntries)
    requires
        declared_once(manifest),
        sorted(manifest.dependencies),
        sorted(manifest.dev_dependencies),
        sorted(manifest.optional_dependencies),
    ensures
        section_declared(manifest.dependencies, index, manifest),
        section_declared(manifest.dev_dependencies, index, manifest),
        section_declared(manifest.optional_dependencies, index, manifest),
{
    let a = manifest.dependencies;
    let b = manifest.dev_dependencies;
    let c = manifest.optional_dependencies;
    assert forall|i: int| #![trigger a[i]] 0 <= i < a.len() implies manifest_range(manifest, a[i].0)
        == Some(a[i].1) by {
        lemma_lookup_at(a, i);
    }
    assert forall|i: int| #![trigger b[i]] 0 <= i < b.len() implies manifest_range(manifest, b[i].0)
        == Some(b[i].1) by {
        lemma_lookup_at(b, i);
        assert(!has_key(a, b[i].0));
    }
    assert forall|i: int| #![trigger c[i]] 0 <= i < c.len() implies manifest_range(manifest, c[i].0)
        == Some(c[i].1) by {
        lemma_lookup_at(c, i);
        assert(!has_key(a, c[i].0));
        assert(!has_key(b, c[i].0));
    }
}

/// Reading an ordinary lockfile, writing what was read and reading that again with the same
/// manifest gives the same graph: the ranges of the manifest that are written into the
/// headers let the direct dependencies be found again.
pub proof fn law_ordinary_lockfile_survives_rewriting(
    content: Seq<char>,
    manifest: ManifestView,
    graph: GraphView,
)
    requires
        parsed(content, manifest) == Ok::<GraphView, Seq<char>>(graph),
        sorted(manifest.dependencies),
        sorted(manifest.dev_dependencies),
        sorted(manifest.optional_dependencies),
        ordinary(blocks_of(content)->Ok_0, manifest, graph.packages),
    ensures
        parsed(written(graph, manifest), manifest) == Ok::<GraphView, Seq<char>>(graph),
{
    let blocks = blocks_of(content)->Ok_0;
    let index = spec_index(blocks);
    let packages = graph.packages;
    let roots = root_specs(root_deps(graph), manifest);
    lemma_ordinary_links(content, manifest, graph);
    lemma_kept_same(content, manifest, graph);
    lemma_declared_once(manifest, index);
    lemma_ordinary_section(manifest.dependencies, content, manifest, graph);
    lemma_ordinary_section(manifest.dev_dependencies, content, manifest, graph);
    lemma_ordinary_section(manifest.optional_dependencies, content, manifest, graph);
    assert forall|i: int| 0 <= i < packages.len() implies links_clear(
        (#[trigger] packages[i]).1.dependencies,
        roots,
        packages,
    ) by {
        let deps = packages[i].1.dependencies;
        assert forall|k: int|
            #![trigger deps[k]]
            0 <= k < deps.len() && has_key(packages, key_of_dep(deps[k].0, deps[k].1)) implies !shadowed(
            key_of_dep(deps[k].0, deps[k].1),
            key_of_dep(deps[k].0, deps[k].1),
            roots,
            packages,
        ) by {
            let key = key_of_dep(deps[k].0, deps[k].1);
            lemma_ordinary_clear(content, manifest, graph, key, key);
        }
    }
    law_graph_survives_rewriting(content, manifest, graph);
}

} // verus!
