//! What the graph that is read of a lockfile says of its blocks.

use vstd::prelude::*;
use crate::dep_path::joined_at;
use crate::lockfile::{DepType, DirectDepView, GraphView, ManifestView, TextEntries};
use crate::string_map::{
    before, has_key, key_index, lemma_lookup_at, lemma_lookup_put, lookup, sorted,
};
use crate::text::{lines, trim_start};
use crate::yarn::plain::{lemma_blocks_plain, plain_block};
use crate::yarn::read::{
    block_complaint, block_package, block_packages, block_path, debug_list, direct_deps,
    first_complaint, is_berry, is_berry_line, parsed, resolved, section_deps, spec_index,
};
use crate::yarn::rewriting::{
    lemma_complaint_free, lemma_packages_of_blocks, lemma_resolved_from, lemma_resolved_names,
};
use crate::yarn::round_trip::{
    lemma_no_complaint, lemma_section_deps, lemma_spec_index_last, lemma_spec_index_some,
};
use crate::yarn::tokens::{blocks_of, spec_name, BlockView};

verus! {

/// A lockfile can be read exactly if no line of it belongs to a later version of the format,
/// its blocks can be read, and every block has a version and a first specifier with a name.
pub proof fn law_what_can_be_read(content: Seq<char>, manifest: ManifestView)
    ensures
        parsed(content, manifest) is Ok <==> {
            &&& forall|i: int|
                0 <= i < lines(content).len() ==> !"__metadata:"@.is_prefix_of(
                    trim_start(#[trigger] lines(content)[i]),
                )
            &&& blocks_of(content) matches Ok(blocks) && forall|b: int|
                0 <= b < blocks.len() ==> has_key((#[trigger] blocks[b]).fields, "version"@)
                    && spec_name(blocks[b].specs[0]) is Some
        },
{
    if let Ok(blocks) = blocks_of(content) {
        if first_complaint(blocks) is None {
            assert forall|b: int| 0 <= b < blocks.len() implies has_key(
                (#[trigger] blocks[b]).fields,
                "version"@,
            ) && spec_name(blocks[b].specs[0]) is Some by {
                lemma_complaint_free(blocks, b);
            }
        }
        if forall|b: int|
            0 <= b < blocks.len() ==> has_key((#[trigger] blocks[b]).fields, "version"@)
                && spec_name(blocks[b].specs[0]) is Some {
            assert forall|b: int| 0 <= b < blocks.len() implies block_complaint(
                #[trigger] blocks[b],
            ) is None by {
                assert(has_key(blocks[b].fields, "version"@));
            }
            lemma_no_complaint(blocks);
        }
    }
    if is_berry(content) {
        let i = choose|i: int|
            0 <= i < lines(content).len() && is_berry_line(#[trigger] lines(content)[i]);
        assert("__metadata:"@.is_prefix_of(trim_start(lines(content)[i])));
    } else {
        assert forall|i: int| 0 <= i < lines(content).len() implies !"__metadata:"@.is_prefix_of(
            trim_start(#[trigger] lines(content)[i]),
        ) by {
            assert(!is_berry_line(lines(content)[i]));
        }
    }
}

/// The complaint is about the first block that has no version or no name, and about the
/// version before the name.
pub proof fn law_first_fault_is_reported(
    content: Seq<char>,
    manifest: ManifestView,
    blocks: Seq<BlockView>,
    b: int,
)
    requires
        forall|i: int|
            0 <= i < lines(content).len() ==> !"__metadata:"@.is_prefix_of(
                trim_start(#[trigger] lines(content)[i]),
            ),
        blocks_of(content) == Ok::<Seq<BlockView>, Seq<char>>(blocks),
        0 <= b < blocks.len(),
        forall|c: int|
            0 <= c < b ==> has_key((#[trigger] blocks[c]).fields, "version"@) && spec_name(
                blocks[c].specs[0],
            ) is Some,
    ensures
        !has_key(blocks[b].fields, "version"@) ==> parsed(content, manifest) == Err::<
            GraphView,
            Seq<char>,
        >("yarn.lock block "@ + debug_list(blocks[b].specs) + " has no version"@),
        has_key(blocks[b].fields, "version"@) && spec_name(blocks[b].specs[0]) is None ==> parsed(
            content,
            manifest,
        ) == Err::<GraphView, Seq<char>>(
            "could not parse package name from yarn.lock spec '"@ + blocks[b].specs[0] + "'"@,
        ),
{
    assert(!is_berry(content)) by {
        if is_berry(content) {
            let i = choose|i: int|
                0 <= i < lines(content).len() && is_berry_line(#[trigger] lines(content)[i]);
            assert("__metadata:"@.is_prefix_of(trim_start(lines(content)[i])));
        }
    }
    lemma_first_fault(blocks, b);
}

proof fn lemma_first_fault(blocks: Seq<BlockView>, b: int)
    requires
        0 <= b < blocks.len(),
        forall|c: int|
            0 <= c < b ==> has_key((#[trigger] blocks[c]).fields, "version"@) && spec_name(
                blocks[c].specs[0],
            ) is Some,
    ensures
        block_complaint(blocks[b]) is Some ==> first_complaint(blocks) == block_complaint(
            blocks[b],
        ),
    decreases b,
{
    if b > 0 {
        assert(has_key(blocks[0].fields, "version"@));
        let rest = blocks.drop_first();
        assert forall|c: int| 0 <= c < b - 1 implies has_key(
            (#[trigger] rest[c]).fields,
            "version"@,
        ) && spec_name(rest[c].specs[0]) is Some by {
            assert(rest[c] == blocks[c + 1]);
        }
        assert(rest[b - 1] == blocks[b]);
        lemma_first_fault(rest, b - 1);
    }
}

/// A lockfile of a later version of the format is refused as such, whatever else is wrong
/// with it; otherwise a fault in its lines is the answer.
pub proof fn law_faults_of_the_text(content: Seq<char>, manifest: ManifestView)
    ensures
        (exists|i: int|
            0 <= i < lines(content).len() && "__metadata:"@.is_prefix_of(
                trim_start(#[trigger] lines(content)[i]),
            )) ==> parsed(content, manifest) == Err::<GraphView, Seq<char>>(
            "yarn berry (v2+) lockfiles are not supported \u{2014} run `yarn set version classic` first, or use package-lock.json"@,
        ),
        (forall|i: int|
            0 <= i < lines(content).len() ==> !"__metadata:"@.is_prefix_of(
                trim_start(#[trigger] lines(content)[i]),
            )) ==> (blocks_of(content) matches Err(complaint) ==> parsed(content, manifest) == Err::<
            GraphView,
            Seq<char>,
        >(complaint)),
{
    if exists|i: int|
        0 <= i < lines(content).len() && "__metadata:"@.is_prefix_of(
            trim_start(#[trigger] lines(content)[i]),
        ) {
        let i = choose|i: int|
            0 <= i < lines(content).len() && "__metadata:"@.is_prefix_of(
                trim_start(#[trigger] lines(content)[i]),
            );
        assert(is_berry_line(lines(content)[i]));
    } else if is_berry(content) {
        let i = choose|i: int|
            0 <= i < lines(content).len() && is_berry_line(#[trigger] lines(content)[i]);
        assert("__metadata:"@.is_prefix_of(trim_start(lines(content)[i])));
    }
}

/// A graph that is read has the root project alone, and its packages ascend by their paths,
/// each of which occurs once.
pub proof fn law_shape_of_the_graph(content: Seq<char>, manifest: ManifestView, graph: GraphView)
    requires
        parsed(content, manifest) == Ok::<GraphView, Seq<char>>(graph),
    ensures
        graph.importers.len() == 1,
        graph.importers[0].0 == "."@,
        forall|i: int, j: int|
            0 <= i < j < graph.packages.len() ==> before(
                #[trigger] graph.packages[i].0,
                #[trigger] graph.packages[j].0,
            ),
{
    let blocks = blocks_of(content)->Ok_0;
    lemma_packages_of_blocks(blocks, spec_index(blocks));
}

/// The first block of a path gives the package there.
proof fn lemma_first_block(blocks: Seq<BlockView>, index: TextEntries, b: int)
    requires
        0 <= b < blocks.len(),
        forall|c: int| 0 <= c < b ==> block_path(#[trigger] blocks[c]) != block_path(blocks[b]),
    ensures
        lookup(block_packages(blocks, index), block_path(blocks[b])) == Some(
            block_package(blocks[b], index),
        ),
    decreases blocks.len(),
{
    let front = blocks.drop_last();
    let last = blocks.last();
    let prior = block_packages(front, index);
    lemma_packages_of_blocks(front, index);
    lemma_lookup_put(
        prior,
        block_path(last),
        block_package(last, index),
        block_path(blocks[b]),
    );
    if b < front.len() {
        assert(front[b] == blocks[b]);
        assert forall|c: int| 0 <= c < b implies block_path(#[trigger] front[c]) != block_path(
            front[b],
        ) by {
            assert(front[c] == blocks[c]);
        }
        lemma_first_block(front, index, b);
    } else if has_key(prior, block_path(last)) {
        let i = key_index(prior, block_path(last));
        let c = choose|c: int|
            0 <= c < front.len() && prior[i] == (
                block_path(#[trigger] front[c]),
                block_package(front[c], index),
            );
        assert(blocks[c] == front[c]);
        assert(false);
    }
}

/// The first block with a name and a version gives the package under them, with the block's
/// checksum.
pub proof fn law_block_gives_package(
    content: Seq<char>,
    manifest: ManifestView,
    graph: GraphView,
    blocks: Seq<BlockView>,
    b: int,
)
    requires
        parsed(content, manifest) == Ok::<GraphView, Seq<char>>(graph),
        blocks_of(content) == Ok::<Seq<BlockView>, Seq<char>>(blocks),
        0 <= b < blocks.len(),
        forall|c: int|
            0 <= c < b ==> spec_name((#[trigger] blocks[c]).specs[0])->0 + "@"@ + lookup(
                blocks[c].fields,
                "version"@,
            )->0 != spec_name(blocks[b].specs[0])->0 + "@"@
                + lookup(blocks[b].fields, "version"@)->0,
    ensures
        lookup(
            graph.packages,
            spec_name(blocks[b].specs[0])->0 + "@"@ + lookup(blocks[b].fields, "version"@)->0,
        ) matches Some(package) && {
            &&& package.name == spec_name(blocks[b].specs[0])->0
            &&& Some(package.version) == lookup(blocks[b].fields, "version"@)
            &&& package.integrity == lookup(blocks[b].fields, "integrity"@)
            &&& package.dep_path == package.name + "@"@ + package.version
            &&& package.os.len() == 0 && package.cpu.len() == 0 && package.libc.len() == 0
        },
{
    let index = spec_index(blocks);
    lemma_complaint_free(blocks, b);
    assert forall|c: int| 0 <= c < b implies block_path(#[trigger] blocks[c]) != block_path(
        blocks[b],
    ) by {}
    lemma_first_block(blocks, index, b);
}

/// Every package that is read is that of a block.
pub proof fn law_packages_are_of_blocks(
    content: Seq<char>,
    manifest: ManifestView,
    graph: GraphView,
    blocks: Seq<BlockView>,
    i: int,
) -> (b: int)
    requires
        parsed(content, manifest) == Ok::<GraphView, Seq<char>>(graph),
        blocks_of(content) == Ok::<Seq<BlockView>, Seq<char>>(blocks),
        0 <= i < graph.packages.len(),
    ensures
        0 <= b < blocks.len(),
        graph.packages[i].0 == spec_name(blocks[b].specs[0])->0 + "@"@
            + lookup(blocks[b].fields, "version"@)->0,
        graph.packages[i].1.dep_path == graph.packages[i].0,
{
    let index = spec_index(blocks);
    lemma_packages_of_blocks(blocks, index);
    choose|b: int|
        0 <= b < blocks.len() && graph.packages[i] == (
            block_path(#[trigger] blocks[b]),
            block_package(blocks[b], index),
        )
}

/// Where each found dependency stands among the resolved ones.
proof fn lemma_resolved_at(deps: TextEntries, index: TextEntries, k: int) -> (m: int)
    requires
        0 <= k < deps.len(),
        lookup(index, joined_at(deps[k].0, deps[k].1)) is Some,
    ensures
        0 <= m < resolved(deps, index).len(),
        resolved(deps, index)[m] == (
            deps[k].0,
            lookup(index, joined_at(deps[k].0, deps[k].1))->0,
        ),
    decreases deps.len(),
{
    let front = deps.drop_last();
    if k < front.len() {
        assert(front[k] == deps[k]);
        let m = lemma_resolved_at(front, index, k);
        assert(resolved(deps, index)[m] == resolved(front, index)[m]);
        m
    } else {
        resolved(deps, index).len() - 1
    }
}

/// Every dependency of a block whose `name@range` stands in a header leads to the package of
/// the last block with such a header: whatever the range, and however many dependencies the
/// block has.
pub proof fn law_dependencies_are_resolved(
    content: Seq<char>,
    manifest: ManifestView,
    graph: GraphView,
    blocks: Seq<BlockView>,
    b: int,
    k: int,
    h: int,
)
    requires
        parsed(content, manifest) == Ok::<GraphView, Seq<char>>(graph),
        blocks_of(content) == Ok::<Seq<BlockView>, Seq<char>>(blocks),
        0 <= b < blocks.len(),
        forall|c: int|
            0 <= c < b ==> spec_name((#[trigger] blocks[c]).specs[0])->0 + "@"@ + lookup(
                blocks[c].fields,
                "version"@,
            )->0 != spec_name(blocks[b].specs[0])->0 + "@"@
                + lookup(blocks[b].fields, "version"@)->0,
        0 <= k < blocks[b].dependencies.len(),
        0 <= h < blocks.len(),
        blocks[h].specs.contains(blocks[b].dependencies[k].0 + "@"@ + blocks[b].dependencies[k].1),
        forall|j: int|
            h < j < blocks.len() ==> !(#[trigger] blocks[j]).specs.contains(
                blocks[b].dependencies[k].0 + "@"@ + blocks[b].dependencies[k].1,
            ),
    ensures
        lookup(
            graph.packages,
            spec_name(blocks[b].specs[0])->0 + "@"@ + lookup(blocks[b].fields, "version"@)->0,
        ) matches Some(package) && lookup(package.dependencies, blocks[b].dependencies[k].0)
            == Some(spec_name(blocks[h].specs[0])->0 + "@"@
                + lookup(blocks[h].fields, "version"@)->0),
{
    let index = spec_index(blocks);
    let deps = blocks[b].dependencies;
    law_block_gives_package(content, manifest, graph, blocks, b);
    assert forall|c: int| 0 <= c < b implies block_path(#[trigger] blocks[c]) != block_path(
        blocks[b],
    ) by {}
    lemma_first_block(blocks, index, b);
    lemma_spec_index_last(blocks, joined_at(deps[k].0, deps[k].1), h);
    lemma_blocks_plain(content);
    assert(plain_block(blocks[b]));
    lemma_resolved_names(deps, index);
    let m = lemma_resolved_at(deps, index, k);
    lemma_lookup_at(resolved(deps, index), m);
}

/// A package that is read has no other dependencies: each is one of its block's, and stands
/// in the header of the block that it leads to.
pub proof fn law_no_other_dependencies(
    content: Seq<char>,
    manifest: ManifestView,
    graph: GraphView,
    blocks: Seq<BlockView>,
    b: int,
    name: Seq<char>,
) -> (r: (int, int))
    requires
        parsed(content, manifest) == Ok::<GraphView, Seq<char>>(graph),
        blocks_of(content) == Ok::<Seq<BlockView>, Seq<char>>(blocks),
        0 <= b < blocks.len(),
        forall|c: int|
            0 <= c < b ==> spec_name((#[trigger] blocks[c]).specs[0])->0 + "@"@ + lookup(
                blocks[c].fields,
                "version"@,
            )->0 != spec_name(blocks[b].specs[0])->0 + "@"@
                + lookup(blocks[b].fields, "version"@)->0,
        lookup(
            graph.packages,
            spec_name(blocks[b].specs[0])->0 + "@"@ + lookup(blocks[b].fields, "version"@)->0,
        ) matches Some(package) && has_key(package.dependencies, name),
    ensures
        ({
            let (k, h) = r;
            let package = lookup(
                graph.packages,
                spec_name(blocks[b].specs[0])->0 + "@"@ + lookup(blocks[b].fields, "version"@)->0,
            )->0;
            &&& 0 <= k < blocks[b].dependencies.len()
            &&& 0 <= h < blocks.len()
            &&& blocks[b].dependencies[k].0 == name
            &&& blocks[h].specs.contains(name + "@"@ + blocks[b].dependencies[k].1)
            &&& lookup(package.dependencies, name) == Some(spec_name(blocks[h].specs[0])->0 + "@"@
                + lookup(blocks[h].fields, "version"@)->0)
        }),
{
    let index = spec_index(blocks);
    let deps = blocks[b].dependencies;
    assert forall|c: int| 0 <= c < b implies block_path(#[trigger] blocks[c]) != block_path(
        blocks[b],
    ) by {}
    lemma_first_block(blocks, index, b);
    let found = resolved(deps, index);
    let m = key_index(found, name);
    let k = lemma_resolved_from(deps, index, m);
    let spec = joined_at(deps[k].0, deps[k].1);
    lemma_spec_index_some(blocks, spec);
    let h = choose|h: int|
        0 <= h < blocks.len() && (#[trigger] blocks[h]).specs.contains(spec) && found[m].1
            == block_path(blocks[h]);
    (k, h)
}

/// The section of a manifest for a kind of dependency.
pub open spec fn section_for(manifest: ManifestView, dep_type: DepType) -> TextEntries {
    match dep_type {
        DepType::Production => manifest.dependencies,
        DepType::Dev => manifest.dev_dependencies,
        DepType::Optional => manifest.optional_dependencies,
    }
}

/// A dependency of any section of the manifest whose `name@range` stands in a header is a
/// direct dependency of the root project, on the package of the last block with such a
/// header.
pub proof fn law_declared_deps_are_direct(
    content: Seq<char>,
    manifest: ManifestView,
    graph: GraphView,
    blocks: Seq<BlockView>,
    dep_type: DepType,
    i: int,
    h: int,
)
    requires
        parsed(content, manifest) == Ok::<GraphView, Seq<char>>(graph),
        blocks_of(content) == Ok::<Seq<BlockView>, Seq<char>>(blocks),
        0 <= i < section_for(manifest, dep_type).len(),
        0 <= h < blocks.len(),
        blocks[h].specs.contains(section_for(manifest, dep_type)[i].0 + "@"@ + section_for(manifest, dep_type)[i].1),
        forall|j: int|
            h < j < blocks.len() ==> !(#[trigger] blocks[j]).specs.contains(
                section_for(manifest, dep_type)[i].0 + "@"@ + section_for(manifest, dep_type)[i].1,
            ),
    ensures
        graph.importers.len() == 1,
        graph.importers[0].0 == "."@,
        graph.importers[0].1.contains(
            DirectDepView {
                name: section_for(manifest, dep_type)[i].0,
                dep_path: spec_name(blocks[h].specs[0])->0 + "@"@
                    + lookup(blocks[h].fields, "version"@)->0,
                dep_type,
                specifier: None,
            },
        ),
{
    let index = spec_index(blocks);
    let section = section_for(manifest, dep_type);
    lemma_spec_index_last(blocks, joined_at(section[i].0, section[i].1), h);
    lemma_section_deps(section, dep_type, index, i);
    let dep = DirectDepView {
        name: section[i].0,
        dep_path: block_path(blocks[h]),
        dep_type,
        specifier: None,
    };
    let part = section_deps(section, dep_type, index);
    let d = choose|d: int| 0 <= d < part.len() && part[d] == dep;
    let first = section_deps(manifest.dependencies, DepType::Production, index);
    let second = section_deps(manifest.dev_dependencies, DepType::Dev, index);
    let all = graph.importers[0].1;
    assert(all == direct_deps(manifest, index));
    match dep_type {
        DepType::Production => {
            assert(all[d] == dep);
        },
        DepType::Dev => {
            assert(all[first.len() + d] == dep);
        },
        DepType::Optional => {
            assert(all[first.len() + second.len() + d] == dep);
        },
    }
}

/// Where a dependency of a section comes from.
proof fn lemma_section_from(section: TextEntries, dep_type: DepType, index: TextEntries, d: int) -> (i:
    int)
    requires
        0 <= d < section_deps(section, dep_type, index).len(),
    ensures
        0 <= i < section.len(),
        lookup(index, joined_at(section[i].0, section[i].1)) == Some(
            section_deps(section, dep_type, index)[d].dep_path,
        ),
        section_deps(section, dep_type, index)[d].name == section[i].0,
        section_deps(section, dep_type, index)[d].dep_type == dep_type,
        section_deps(section, dep_type, index)[d].specifier is None,
    decreases section.len(),
{
    let front = section.drop_last();
    let prior = section_deps(front, dep_type, index);
    if d < prior.len() {
        let i = lemma_section_from(front, dep_type, index, d);
        assert(section[i] == front[i]);
        assert(section_deps(section, dep_type, index)[d] == prior[d]);
        i
    } else {
        section.len() - 1
    }
}

/// The root project has no other direct dependencies: each is declared in the section of its
/// kind, and stands in the header of the block that it leads to.
pub proof fn law_direct_deps_are_declared(
    content: Seq<char>,
    manifest: ManifestView,
    graph: GraphView,
    blocks: Seq<BlockView>,
    d: int,
) -> (r: (int, int))
    requires
        parsed(content, manifest) == Ok::<GraphView, Seq<char>>(graph),
        blocks_of(content) == Ok::<Seq<BlockView>, Seq<char>>(blocks),
        0 <= d < graph.importers[0].1.len(),
    ensures
        ({
            let (i, h) = r;
            let dep = graph.importers[0].1[d];
            let section = section_for(manifest, dep.dep_type);
            &&& 0 <= i < section.len()
            &&& 0 <= h < blocks.len()
            &&& dep.name == section[i].0
            &&& blocks[h].specs.contains(section[i].0 + "@"@ + section[i].1)
            &&& dep.dep_path == spec_name(blocks[h].specs[0])->0 + "@"@
                + lookup(blocks[h].fields, "version"@)->0
            &&& dep.specifier is None
        }),
{
    let index = spec_index(blocks);
    let all = graph.importers[0].1;
    let first = section_deps(manifest.dependencies, DepType::Production, index);
    let second = section_deps(manifest.dev_dependencies, DepType::Dev, index);
    let third = section_deps(manifest.optional_dependencies, DepType::Optional, index);
    assert(all == first + second + third);
    let i = if d < first.len() {
        assert(all[d] == first[d]);
        lemma_section_from(manifest.dependencies, DepType::Production, index, d)
    } else if d < first.len() + second.len() {
        assert(all[d] == second[d - first.len()]);
        lemma_section_from(manifest.dev_dependencies, DepType::Dev, index, d - first.len())
    } else {
        let k = d - first.len() - second.len();
        assert(all[d] == third[k]);
        lemma_section_from(manifest.optional_dependencies, DepType::Optional, index, k)
    };
    let section = section_for(manifest, all[d].dep_type);
    let spec = joined_at(section[i].0, section[i].1);
    lemma_spec_index_some(blocks, spec);
    let h = choose|h: int|
        0 <= h < blocks.len() && (#[trigger] blocks[h]).specs.contains(spec) && all[d].dep_path
            == block_path(blocks[h]);
    (i, h)
}

/// The names of a section's dependencies ascend.
proof fn lemma_section_ascends(section: TextEntries, dep_type: DepType, index: TextEntries)
    requires
        sorted(section),
    ensures
        forall|c: int, d: int|
            0 <= c < d < section_deps(section, dep_type, index).len() ==> before(
                (#[trigger] section_deps(section, dep_type, index)[c]).name,
                (#[trigger] section_deps(section, dep_type, index)[d]).name,
            ),
    decreases section.len(),
{
    if section.len() > 0 {
        let front = section.drop_last();
        let n = section.len() - 1;
        assert forall|i: int, j: int| 0 <= i < j < front.len() implies before(
            #[trigger] front[i].0,
            #[trigger] front[j].0,
        ) by {
            assert(before(section[i].0, section[j].0));
        }
        lemma_section_ascends(front, dep_type, index);
        let prior = section_deps(front, dep_type, index);
        let all = section_deps(section, dep_type, index);
        assert forall|c: int, d: int| 0 <= c < d < all.len() implies before(
            (#[trigger] all[c]).name,
            (#[trigger] all[d]).name,
        ) by {
            assert(all[c] == prior[c]);
            if d < prior.len() {
                assert(all[d] == prior[d]);
                assert(before(prior[c].name, prior[d].name));
            } else {
                let i = lemma_section_from(front, dep_type, index, c);
                assert(before(section[i].0, section[n].0));
            }
        }
    }
}

/// Direct dependencies are listed once each: those for production first, then those for
/// development, then the optional ones, in the order of their names.
pub proof fn law_direct_deps_are_in_order(
    content: Seq<char>,
    manifest: ManifestView,
    graph: GraphView,
    blocks: Seq<BlockView>,
    c: int,
    d: int,
)
    requires
        parsed(content, manifest) == Ok::<GraphView, Seq<char>>(graph),
        blocks_of(content) == Ok::<Seq<BlockView>, Seq<char>>(blocks),
        sorted(manifest.dependencies),
        sorted(manifest.dev_dependencies),
        sorted(manifest.optional_dependencies),
        0 <= c < d < graph.importers[0].1.len(),
    ensures
        ({
            let earlier = graph.importers[0].1[c];
            let later = graph.importers[0].1[d];
            ||| earlier.dep_type == later.dep_type && before(earlier.name, later.name)
            ||| earlier.dep_type == DepType::Production && later.dep_type != DepType::Production
            ||| earlier.dep_type == DepType::Dev && later.dep_type == DepType::Optional
        }),
{
    let index = spec_index(blocks);
    let all = graph.importers[0].1;
    let first = section_deps(manifest.dependencies, DepType::Production, index);
    let second = section_deps(manifest.dev_dependencies, DepType::Dev, index);
    let third = section_deps(manifest.optional_dependencies, DepType::Optional, index);
    assert(all == first + second + third);
    lemma_section_ascends(manifest.dependencies, DepType::Production, index);
    lemma_section_ascends(manifest.dev_dependencies, DepType::Dev, index);
    lemma_section_ascends(manifest.optional_dependencies, DepType::Optional, index);
    lemma_kind(manifest, index, c);
    lemma_kind(manifest, index, d);
    let x = first.len();
    let y = first.len() + second.len();
    if d < x {
        assert(before(first[c].name, first[d].name));
    } else if x <= c && d < y {
        assert(before(second[c - x].name, second[d - x].name));
    } else if y <= c {
        assert(before(third[c - y].name, third[d - y].name));
    }
}

proof fn lemma_kind(manifest: ManifestView, index: TextEntries, d: int)
    requires
        0 <= d < direct_deps(manifest, index).len(),
    ensures
        ({
            let first = section_deps(manifest.dependencies, DepType::Production, index);
            let second = section_deps(manifest.dev_dependencies, DepType::Dev, index);
            let third = section_deps(manifest.optional_dependencies, DepType::Optional, index);
            let x = first.len();
            let y = first.len() + second.len();
            let dep = direct_deps(manifest, index)[d];
            &&& d < x ==> dep.dep_type == DepType::Production && dep == first[d]
            &&& x <= d < y ==> dep.dep_type == DepType::Dev && dep == second[d - x]
            &&& y <= d ==> dep.dep_type == DepType::Optional && dep == third[d - y]
        }),
{
    let first = section_deps(manifest.dependencies, DepType::Production, index);
    let second = section_deps(manifest.dev_dependencies, DepType::Dev, index);
    let x = first.len();
    let y = first.len() + second.len();
    if d < x {
        let i = lemma_section_from(manifest.dependencies, DepType::Production, index, d);
    } else if d < y {
        let i = lemma_section_from(manifest.dev_dependencies, DepType::Dev, index, d - x);
    } else {
        let i = lemma_section_from(
            manifest.optional_dependencies,
            DepType::Optional,
            index,
            d - y,
        );
    }
}

} // verus!
