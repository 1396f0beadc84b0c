//! What reading gives back of what was written.

use vstd::prelude::*;
use crate::dep_path::{joined_at, key_of_dep, version_of_dep, without_peers};
use crate::lockfile::{
    DepType, DirectDepView, GraphView, ManifestView, PackageView, TextEntries,
};
use crate::string_map::{
    before, has_key, key_index, lemma_lookup_at, lemma_lookup_put, lemma_put_last, lemma_put_sorted,
    lemma_rank_bounds, lookup, put, rank, sorted,
};
use crate::text::{fits_line, is_whitespace, lacks, trim, trim_start, unquote};
use crate::yarn::lines::{
    lemma_feed_add, lemma_feed_one, lemma_header_fits, lemma_indent, lemma_lines_of_text,
    lemma_list_pieces, lemma_read_banner, lemma_read_dep, lemma_read_header, lemma_read_integrity,
    lemma_read_section, lemma_read_version, lemma_spec_list, lemma_trim_ends, lemma_trim_len,
};
use crate::yarn::plain::plain_name;
use crate::yarn::read::{
    block_complaint, block_name, block_package, block_packages, block_path, block_version,
    direct_deps, first_complaint, graph_of, is_berry, is_berry_line, parsed, resolved, section_deps,
    spec_index, with_specs,
};
use crate::yarn::tokens::{
    blocks_of, feed, header_pieces, read_line, spec_name, with_dependency, with_field, BlockView,
    Progress,
};
use crate::yarn::write::{
    all_block_lines, banner, block_lines, canonical, dep_lines, dep_section, extra_specs, header_of,
    integrity_line, manifest_range, package_key, quoted, root_deps, root_specs, spec_list, written,
    written_deps, written_lines,
};

verus! {

/// How the header for a package is read.
pub open spec fn header_read(key: Seq<char>, roots: Seq<(Seq<char>, Seq<char>)>) -> Seq<
    Seq<char>,
> {
    header_pieces(spec_list(header_of(key, roots)))
}

/// A checksum that its line is read as: it stands on one line, without whitespace or
/// quotes around it, and does not end in a colon.
pub open spec fn plain_integrity(text: Seq<char>) -> bool {
    &&& text.len() > 0
    &&& text.last() != ':'
    &&& lacks(text, '\n')
    &&& unquote(trim(text)) == text
}

/// Whether a block further down than that of `key` lists a specifier.
pub open spec fn shadowed(
    spec: Seq<char>,
    key: Seq<char>,
    roots: Seq<(Seq<char>, Seq<char>)>,
    packages: Seq<(Seq<char>, PackageView)>,
) -> bool {
    exists|i: int|
        0 <= i < packages.len() && before(key, (#[trigger] packages[i]).0) && header_read(
            packages[i].0,
            roots,
        ).contains(spec)
}

/// Whether the block of a package is read as it was written.
pub open spec fn writable_package(
    key: Seq<char>,
    package: PackageView,
    roots: Seq<(Seq<char>, Seq<char>)>,
    packages: Seq<(Seq<char>, PackageView)>,
) -> bool {
    let deps = written_deps(package.dependencies, packages);
    // The header stands on one line, and its specifiers are told apart by its commas.
    &&& forall|i: int|
        0 <= i < header_of(key, roots).len() ==> lacks(#[trigger] header_of(key, roots)[i], '\n')
    &&& lacks(key, ',')
    &&& !header_read(key, roots).contains(Seq::<char>::empty())
    // The key tells the name of the package.
    &&& spec_name(key) == Some(package.name)
    &&& package.integrity matches Some(text) ==> plain_integrity(text)
    &&& sorted(package.dependencies)
    &&& forall|i: int| 0 <= i < deps.len() ==> plain_name((#[trigger] deps[i]).0)
}

/// What is read of the block of a package.
pub open spec fn block_read(
    key: Seq<char>,
    package: PackageView,
    roots: Seq<(Seq<char>, Seq<char>)>,
    packages: Seq<(Seq<char>, PackageView)>,
) -> BlockView {
    let fields = put(seq![], "version"@, package.version);
    BlockView {
        specs: header_read(key, roots),
        fields: match package.integrity {
            Some(text) => put(fields, "integrity"@, text),
            None => fields,
        },
        dependencies: written_deps(package.dependencies, packages),
    }
}

/// What is read of the blocks of some packages.
pub open spec fn blocks_read(
    some: Seq<(Seq<char>, PackageView)>,
    roots: Seq<(Seq<char>, Seq<char>)>,
    packages: Seq<(Seq<char>, PackageView)>,
) -> Seq<BlockView> {
    Seq::new(some.len(), |i: int| block_read(some[i].0, some[i].1, roots, packages))
}

/// Whether a dependency is written as the given name and version.
pub open spec fn writes_dep(
    dep: (Seq<char>, Seq<char>),
    packages: Seq<(Seq<char>, PackageView)>,
    line: (Seq<char>, Seq<char>),
) -> bool {
    &&& line == (dep.0, version_of_dep(dep.0, dep.1))
    &&& has_key(packages, key_of_dep(dep.0, dep.1))
}

/// The written dependencies are some of the dependencies, in the same order.
pub proof fn lemma_written_deps(deps: TextEntries, packages: Seq<(Seq<char>, PackageView)>)
    requires
        sorted(deps),
    ensures
        sorted(written_deps(deps, packages)),
        forall|k: int|
            #![trigger written_deps(deps, packages)[k]]
            0 <= k < written_deps(deps, packages).len() ==> exists|j: int|
                0 <= j < deps.len() && writes_dep(
                    #[trigger] deps[j],
                    packages,
                    written_deps(deps, packages)[k],
                ),
    decreases deps.len(),
{
    if deps.len() > 0 {
        let front = deps.drop_last();
        assert forall|i: int, j: int| 0 <= i < j < front.len() implies before(
            #[trigger] front[i].0,
            #[trigger] front[j].0,
        ) by {
            assert(before(deps[i].0, deps[j].0));
        }
        lemma_written_deps(front, packages);
        let rest = written_deps(front, packages);
        let all = written_deps(deps, packages);
        let n = deps.len() - 1;
        assert forall|k: int| #![trigger all[k]] 0 <= k < all.len() implies exists|j: int|
            0 <= j < deps.len() && writes_dep(#[trigger] deps[j], packages, all[k]) by {
            if k < rest.len() {
                assert(all[k] == rest[k]);
                let j = choose|j: int|
                    0 <= j < front.len() && writes_dep(#[trigger] front[j], packages, rest[k]);
                assert(deps[j] == front[j]);
            } else {
                assert(writes_dep(deps[n], packages, all[k]));
            }
        }
        assert forall|i: int, j: int| 0 <= i < j < all.len() implies before(
            #[trigger] all[i].0,
            #[trigger] all[j].0,
        ) by {
            assert(all[i] == rest[i]);
            if j < rest.len() {
                assert(all[j] == rest[j]);
                assert(before(rest[i].0, rest[j].0));
            } else {
                let k = choose|k: int|
                    0 <= k < front.len() && writes_dep(#[trigger] front[k], packages, rest[i]);
                assert(before(deps[k].0, deps[n].0));
            }
        }
    }
}

/// Reading the lines of a `dependencies:` section.
proof fn lemma_feed_deps(
    blocks: Seq<BlockView>,
    block: BlockView,
    deps: Seq<(Seq<char>, Seq<char>)>,
    number: nat,
)
    requires
        sorted(deps),
        forall|i: int| 0 <= i < deps.len() ==> plain_name((#[trigger] deps[i]).0),
        block.dependencies == Seq::<(Seq<char>, Seq<char>)>::empty(),
    ensures
        feed(Progress { blocks: blocks.push(block), in_deps: true }, dep_lines(deps), number)
            == Ok::<Progress, Seq<char>>(
            Progress {
                blocks: blocks.push(BlockView { dependencies: deps, ..block }),
                in_deps: true,
            },
        ),
    decreases deps.len(),
{
    let start = Progress { blocks: blocks.push(block), in_deps: true };
    if deps.len() == 0 {
        assert(BlockView { dependencies: deps, ..block } =~= block);
    } else {
        let front = deps.drop_last();
        let (name, version) = deps.last();
        assert forall|i: int, j: int| 0 <= i < j < front.len() implies before(
            #[trigger] front[i].0,
            #[trigger] front[j].0,
        ) by {
            assert(before(deps[i].0, deps[j].0));
        }
        assert forall|i: int| 0 <= i < front.len() implies plain_name((#[trigger] front[i]).0) by {
            assert(plain_name(deps[i].0));
        }
        lemma_feed_deps(blocks, block, front, number);
        let line = "    "@ + name + " "@ + quoted(version);
        assert(plain_name(deps[deps.len() - 1].0));
        lemma_read_dep(name, version);
        let middle = BlockView { dependencies: front, ..block };
        let progress = Progress { blocks: blocks.push(middle), in_deps: true };
        lemma_feed_add(start, dep_lines(front), seq![line], number);
        lemma_feed_one(progress, line, number + dep_lines(front).len());
        assert(dep_lines(deps) =~= dep_lines(front) + seq![line]);
        assert forall|i: int| 0 <= i < front.len() implies before((#[trigger] front[i]).0, name) by {
            assert(before(deps[i].0, deps[deps.len() - 1].0));
        }
        lemma_put_last(front, name, version);
        assert(front.push((name, version)) =~= deps);
        assert(blocks.push(middle).drop_last() =~= blocks);
        assert(with_dependency(middle, name, version) =~= BlockView {
            dependencies: deps,
            ..block
        });
    }
}

/// Reading the lines of a block.
proof fn lemma_feed_block(
    progress: Progress,
    key: Seq<char>,
    package: PackageView,
    roots: Seq<(Seq<char>, Seq<char>)>,
    packages: Seq<(Seq<char>, PackageView)>,
    number: nat,
)
    requires
        writable_package(key, package, roots, packages),
    ensures
        feed(progress, block_lines(header_of(key, roots), package, packages), number) matches Ok(
            end,
        ) && end.blocks == progress.blocks.push(block_read(key, package, roots, packages)),
{
    let specs = header_of(key, roots);
    let blocks = progress.blocks;
    let deps = written_deps(package.dependencies, packages);
    let a = seq![spec_list(specs) + ":"@];
    let b = seq!["  version "@ + quoted(package.version)];
    let c = integrity_line(package.integrity);
    let d = dep_section(deps);
    let e = seq![""@];
    let whole = block_lines(specs, package, packages);
    assert(whole == a + b + c + d + e);
    // The header opens the block.
    let pieces = header_read(key, roots);
    lemma_read_header(specs);
    lemma_feed_one(progress, a[0], number);
    let block1 = BlockView { specs: pieces, fields: seq![], dependencies: seq![] };
    let p1 = Progress { blocks: blocks.push(block1), in_deps: false };
    assert(feed(progress, a, number) == Ok::<Progress, Seq<char>>(p1));
    // The version.
    lemma_read_version(package.version);
    lemma_feed_one(p1, b[0], number + 1);
    lemma_feed_add(progress, a, b, number);
    let block2 = with_field(block1, "version"@, package.version);
    let p2 = Progress { blocks: blocks.push(block2), in_deps: false };
    assert(p1.blocks.drop_last() =~= blocks);
    assert(feed(progress, a + b, number) == Ok::<Progress, Seq<char>>(p2));
    // The checksum.
    let block3 = match package.integrity {
        Some(text) => with_field(block2, "integrity"@, text),
        None => block2,
    };
    let p3 = Progress { blocks: blocks.push(block3), in_deps: false };
    assert(p2.blocks.drop_last() =~= blocks);
    lemma_feed_add(progress, a + b, c, number);
    match package.integrity {
        Some(text) => {
            lemma_read_integrity(text);
            lemma_feed_one(p2, c[0], number + 2);
        },
        None => {},
    }
    assert(feed(progress, a + b + c, number) == Ok::<Progress, Seq<char>>(p3));
    // The dependencies.
    let block4 = BlockView { dependencies: deps, ..block3 };
    assert(block3.dependencies == Seq::<(Seq<char>, Seq<char>)>::empty());
    let n3 = number + (a + b + c).len();
    lemma_feed_add(progress, a + b + c, d, number);
    lemma_written_deps(package.dependencies, packages);
    let p4 = Progress { blocks: blocks.push(block4), in_deps: deps.len() > 0 };
    if deps.len() == 0 {
        assert(block4 =~= block3);
        assert(feed(p3, d, n3) == Ok::<Progress, Seq<char>>(p4));
    } else {
        let title = seq!["  dependencies:"@];
        lemma_read_section();
        lemma_feed_one(p3, title[0], n3);
        lemma_feed_add(p3, title, dep_lines(deps), n3);
        lemma_feed_deps(blocks, block3, deps, n3 + 1);
        assert(feed(p3, d, n3) == Ok::<Progress, Seq<char>>(p4));
    }
    // The empty line.
    lemma_read_banner();
    lemma_feed_add(progress, a + b + c + d, e, number);
    lemma_feed_one(p4, ""@, number + (a + b + c + d).len());
    assert(block4 =~= block_read(key, package, roots, packages));
}

proof fn lemma_feed_blank(progress: Progress, some: Seq<Seq<char>>, number: nat)
    requires
        forall|i: int| 0 <= i < some.len() ==> read_line(#[trigger] some[i]) is Blank,
    ensures
        feed(progress, some, number) == Ok::<Progress, Seq<char>>(progress),
    decreases some.len(),
{
    if some.len() > 0 {
        let rest = some.drop_first();
        assert(read_line(some[0]) is Blank);
        assert forall|i: int| 0 <= i < rest.len() implies read_line(#[trigger] rest[i]) is Blank by {
            assert(rest[i] == some[i + 1]);
        }
        lemma_feed_blank(progress, rest, number + 1);
    }
}

/// Reading the lines of all blocks.
proof fn lemma_feed_blocks(
    progress: Progress,
    some: Seq<(Seq<char>, PackageView)>,
    roots: Seq<(Seq<char>, Seq<char>)>,
    packages: Seq<(Seq<char>, PackageView)>,
    number: nat,
)
    requires
        progress.blocks.len() == 0,
        forall|i: int|
            0 <= i < some.len() ==> writable_package(
                (#[trigger] some[i]).0,
                some[i].1,
                roots,
                packages,
            ),
    ensures
        feed(progress, all_block_lines(some, roots, packages), number) matches Ok(end)
            && end.blocks == blocks_read(some, roots, packages),
    decreases some.len(),
{
    if some.len() == 0 {
        assert(blocks_read(some, roots, packages) =~= progress.blocks);
    } else {
        let front = some.drop_last();
        let (key, package) = some.last();
        assert forall|i: int| 0 <= i < front.len() implies writable_package(
            (#[trigger] front[i]).0,
            front[i].1,
            roots,
            packages,
        ) by {
            assert(front[i] == some[i]);
        }
        lemma_feed_blocks(progress, front, roots, packages, number);
        let first = all_block_lines(front, roots, packages);
        let last = block_lines(header_of(key, roots), package, packages);
        lemma_feed_add(progress, first, last, number);
        let middle = feed(progress, first, number)->Ok_0;
        assert(some[some.len() - 1] == some.last());
        lemma_feed_block(middle, key, package, roots, packages, number + first.len());
        assert(blocks_read(front, roots, packages).push(block_read(key, package, roots, packages))
            =~= blocks_read(some, roots, packages));
    }
}

/// Whether every block of the lockfile for a graph is read as it was written.
pub open spec fn writable(graph: GraphView, manifest: ManifestView) -> bool {
    let packages = canonical(graph.packages);
    let roots = root_specs(root_deps(graph), manifest);
    forall|i: int|
        0 <= i < packages.len() ==> writable_package(
            (#[trigger] packages[i]).0,
            packages[i].1,
            roots,
            packages,
        )
}

/// A line that can be written and does not look like a later version of the format.
spec fn quiet(line: Seq<char>) -> bool {
    fits_line(line) && !is_berry_line(line)
}

proof fn lemma_quiet_dep(name: Seq<char>, version: Seq<char>)
    requires
        plain_name(name),
        lacks(version, '\n'),
    ensures
        quiet("    "@ + name + " "@ + quoted(version)),
{
    reveal_strlit("    ");
    reveal_strlit(" ");
    reveal_strlit("\"");
    reveal_strlit("__metadata:");
    let line = "    "@ + name + " "@ + quoted(version);
    let body = name + " "@ + quoted(version);
    assert(line =~= "    "@ + body);
    lemma_indent("    "@, body);
    assert(body[0] == name[0]);
    assert(trim_start(body) == body);
    let mark = "__metadata:"@;
    if mark.is_prefix_of(body) {
        if mark.len() <= name.len() {
            assert(name.subrange(0, mark.len() as int) =~= body.subrange(0, mark.len() as int));
        } else {
            assert(body.subrange(0, mark.len() as int)[name.len() as int] == ' ');
        }
        assert(false);
    }
    assert forall|i: int| 0 <= i < line.len() implies line[i] != '\n' by {
        if 4 <= i < 4 + name.len() {
            assert(!is_whitespace(name[i - 4]));
        }
    }
}

proof fn lemma_quiet_deps(deps: Seq<(Seq<char>, Seq<char>)>)
    requires
        forall|i: int|
            0 <= i < deps.len() ==> plain_name((#[trigger] deps[i]).0) && lacks(deps[i].1, '\n'),
    ensures
        forall|i: int| 0 <= i < dep_lines(deps).len() ==> quiet(#[trigger] dep_lines(deps)[i]),
    decreases deps.len(),
{
    if deps.len() > 0 {
        let front = deps.drop_last();
        assert forall|i: int| 0 <= i < front.len() implies plain_name((#[trigger] front[i]).0)
            && lacks(front[i].1, '\n') by {
            assert(front[i] == deps[i]);
        }
        lemma_quiet_deps(front);
        assert(plain_name(deps[deps.len() - 1].0));
        lemma_quiet_dep(deps.last().0, deps.last().1);
        assert forall|i: int| 0 <= i < dep_lines(deps).len() implies quiet(
            #[trigger] dep_lines(deps)[i],
        ) by {
            if i < dep_lines(front).len() {
                assert(dep_lines(deps)[i] == dep_lines(front)[i]);
            }
        }
    }
}

proof fn lemma_quiet_block(
    key: Seq<char>,
    package: PackageView,
    roots: Seq<(Seq<char>, Seq<char>)>,
    packages: Seq<(Seq<char>, PackageView)>,
)
    requires
        writable_package(key, package, roots, packages),
        key == package_key(package),
        forall|i: int| 0 <= i < packages.len() ==> lacks((#[trigger] packages[i]).0, '\n'),
    ensures
        forall|i: int|
            0 <= i < block_lines(header_of(key, roots), package, packages).len() ==> quiet(
                #[trigger] block_lines(header_of(key, roots), package, packages)[i],
            ),
{
    let specs = header_of(key, roots);
    let deps = written_deps(package.dependencies, packages);
    let all = block_lines(specs, package, packages);
    reveal_strlit("");
    reveal_strlit(":");
    reveal_strlit("\"");
    reveal_strlit("  ");
    reveal_strlit("  version ");
    reveal_strlit("  integrity ");
    reveal_strlit("  dependencies:");
    reveal_strlit("__metadata:");
    reveal_strlit("@");
    let mark = "__metadata:"@;
    // The header.
    let a = spec_list(specs) + ":"@;
    lemma_header_fits(specs);
    lemma_spec_list(specs);
    assert(trim_start(a) == a);
    assert(a[0] == '"');
    if mark.is_prefix_of(a) {
        assert(a.subrange(0, mark.len() as int)[0] == '"');
    }
    // The version.
    assert(specs[0] == key);
    assert forall|i: int| 0 <= i < package.version.len() implies package.version[i] != '\n' by {
        assert(package.version[i] == key[package.name.len() + 1 + i]);
    }
    let b = "  version "@ + quoted(package.version);
    let b_body = b.skip(2);
    assert(b =~= "  "@ + b_body);
    lemma_indent("  "@, b_body);
    assert(b_body[0] == 'v');
    assert(trim_start(b) == b_body);
    if mark.is_prefix_of(b_body) {
        assert(b_body.subrange(0, mark.len() as int)[0] == 'v');
    }
    assert(quiet(b));
    // The checksum.
    if let Some(text) = package.integrity {
        let c = "  integrity "@ + text;
        let c_body = c.skip(2);
        assert(c =~= "  "@ + c_body);
        lemma_indent("  "@, c_body);
        assert(c_body[0] == 'i');
        assert(trim_start(c) == c_body);
        if mark.is_prefix_of(c_body) {
            assert(c_body.subrange(0, mark.len() as int)[0] == 'i');
        }
        lemma_trim_len(text);
        lemma_trim_ends(text);
        assert(c.last() == text.last());
        assert(quiet(c));
    }
    // The dependencies.
    let d = "  dependencies:"@;
    let d_body = d.skip(2);
    assert(d =~= "  "@ + d_body);
    lemma_indent("  "@, d_body);
    assert(d_body[0] == 'd');
    assert(trim_start(d) == d_body);
    if mark.is_prefix_of(d_body) {
        assert(d_body.subrange(0, mark.len() as int)[0] == 'd');
    }
    assert(quiet(d));
    lemma_written_deps(package.dependencies, packages);
    assert forall|i: int| 0 <= i < deps.len() implies plain_name((#[trigger] deps[i]).0) && lacks(
        deps[i].1,
        '\n',
    ) by {
        let j = choose|j: int|
            0 <= j < package.dependencies.len() && writes_dep(
                #[trigger] package.dependencies[j],
                packages,
                deps[i],
            );
        let dep_key = joined_at(deps[i].0, deps[i].1);
        assert(has_key(packages, dep_key));
        assert(lacks(packages[key_index(packages, dep_key)].0, '\n'));
        assert forall|k: int| 0 <= k < deps[i].1.len() implies deps[i].1[k] != '\n' by {
            assert(deps[i].1[k] == dep_key[deps[i].0.len() + 1 + k]);
        }
    }
    lemma_quiet_deps(deps);
    assert(quiet(""@));
    let front = seq![a] + seq![b] + integrity_line(package.integrity);
    let section = dep_section(deps);
    assert forall|i: int| 0 <= i < all.len() implies quiet(#[trigger] all[i]) by {
        if i < front.len() {
            assert(all[i] == front[i]);
        } else if i < front.len() + section.len() {
            let k = i - front.len();
            assert(all[i] == section[k]);
            if k > 0 {
                assert(section[k] == dep_lines(deps)[k - 1]);
            }
        } else {
            assert(all[i] == ""@);
        }
    }
}

proof fn lemma_quiet_blocks(
    some: Seq<(Seq<char>, PackageView)>,
    roots: Seq<(Seq<char>, Seq<char>)>,
    packages: Seq<(Seq<char>, PackageView)>,
)
    requires
        forall|i: int|
            0 <= i < some.len() ==> writable_package(
                (#[trigger] some[i]).0,
                some[i].1,
                roots,
                packages,
            ) && some[i].0 == package_key(some[i].1),
        forall|i: int| 0 <= i < packages.len() ==> lacks((#[trigger] packages[i]).0, '\n'),
    ensures
        forall|i: int|
            0 <= i < all_block_lines(some, roots, packages).len() ==> quiet(
                #[trigger] all_block_lines(some, roots, packages)[i],
            ),
    decreases some.len(),
{
    if some.len() > 0 {
        let front = some.drop_last();
        assert forall|i: int| 0 <= i < front.len() implies writable_package(
            (#[trigger] front[i]).0,
            front[i].1,
            roots,
            packages,
        ) && front[i].0 == package_key(front[i].1) by {
            assert(front[i] == some[i]);
        }
        lemma_quiet_blocks(front, roots, packages);
        let (key, package) = some.last();
        assert(some[some.len() - 1] == some.last());
        lemma_quiet_block(key, package, roots, packages);
        let first = all_block_lines(front, roots, packages);
        let last = block_lines(header_of(key, roots), package, packages);
        let all = all_block_lines(some, roots, packages);
        assert forall|i: int| 0 <= i < all.len() implies quiet(#[trigger] all[i]) by {
            if i < first.len() {
                assert(all[i] == first[i]);
            } else {
                assert(all[i] == last[i - first.len()]);
            }
        }
    }
}

/// The packages to write stand in the order of their keys, one for each.
pub proof fn lemma_canonical(packages: Seq<(Seq<char>, PackageView)>)
    ensures
        sorted(canonical(packages)),
        forall|i: int|
            0 <= i < canonical(packages).len() ==> (#[trigger] canonical(packages)[i]).0
                == package_key(canonical(packages)[i].1),
        forall|i: int|
            0 <= i < packages.len() ==> has_key(
                canonical(packages),
                package_key((#[trigger] packages[i]).1),
            ),
    decreases packages.len(),
{
    if packages.len() > 0 {
        let front = canonical(packages.drop_last());
        lemma_canonical(packages.drop_last());
        let package = packages.last().1;
        let key = package_key(package);
        lemma_put_sorted(front, key, package);
        lemma_rank_bounds(front, key);
        let all = canonical(packages);
        assert forall|i: int| 0 <= i < packages.len() implies has_key(
            all,
            package_key((#[trigger] packages[i]).1),
        ) by {
            if i < packages.len() - 1 {
                assert(packages.drop_last()[i] == packages[i]);
            }
            lemma_lookup_put(front, key, package, package_key(packages[i].1));
        }
        assert forall|i: int| 0 <= i < all.len() implies (#[trigger] all[i]).0 == package_key(
            all[i].1,
        ) by {
            if !has_key(front, key) {
                let r = rank(front, key) as int;
                if i < r {
                    assert(all[i] == front[i]);
                } else if i > r {
                    assert(all[i] == front[i - 1]);
                }
            }
        }
    }
}

/// The blocks that are read of the lockfile for a graph.
proof fn lemma_blocks_of_written(graph: GraphView, manifest: ManifestView)
    requires
        writable(graph, manifest),
    ensures
        !is_berry(written(graph, manifest)),
        blocks_of(written(graph, manifest)) == Ok::<Seq<BlockView>, Seq<char>>(
            blocks_read(
                canonical(graph.packages),
                root_specs(root_deps(graph), manifest),
                canonical(graph.packages),
            ),
        ),
{
    let packages = canonical(graph.packages);
    let roots = root_specs(root_deps(graph), manifest);
    let body = all_block_lines(packages, roots, packages);
    let all = written_lines(graph, manifest);
    lemma_canonical(graph.packages);
    assert forall|i: int| 0 <= i < packages.len() implies lacks((#[trigger] packages[i]).0, '\n') by {
        assert(writable_package(packages[i].0, packages[i].1, roots, packages));
        assert(header_of(packages[i].0, roots)[0] == packages[i].0);
    }
    lemma_quiet_blocks(packages, roots, packages);
    lemma_read_banner();
    lemma_quiet_banner();
    assert forall|i: int| 0 <= i < all.len() implies quiet(#[trigger] all[i]) by {
        if i < banner().len() {
            assert(all[i] == banner()[i]);
        } else {
            assert(all[i] == body[i - banner().len()]);
        }
    }
    assert forall|i: int| 0 <= i < all.len() implies fits_line(#[trigger] all[i]) by {
        assert(quiet(all[i]));
    }
    lemma_lines_of_text(all);
    assert forall|i: int| 0 <= i < all.len() implies !is_berry_line(#[trigger] all[i]) by {
        assert(quiet(all[i]));
    }
    let start = Progress { blocks: seq![], in_deps: false };
    lemma_feed_blank(start, banner(), 1);
    lemma_feed_add(start, banner(), body, 1);
    lemma_feed_blocks(start, packages, roots, packages, 1 + banner().len());
}

proof fn lemma_quiet_banner()
    ensures
        forall|i: int| 0 <= i < banner().len() ==> quiet(#[trigger] banner()[i]),
{
    lemma_read_banner();
    reveal_strlit("");
    reveal_strlit("# yarn lockfile v1");
    reveal_strlit("# THIS IS AN AUTOGENERATED FILE. DO NOT EDIT THIS FILE DIRECTLY.");
    reveal_strlit("__metadata:");
    let mark = "__metadata:"@;
    assert forall|i: int| 0 <= i < banner().len() implies quiet(#[trigger] banner()[i]) by {
        let line = banner()[i];
        assert(line.len() == 0 || line[0] == '#');
        assert(trim_start(line) == line);
        if mark.is_prefix_of(line) {
            assert(line.subrange(0, mark.len() as int)[0] == '#');
        }
    }
}

/// The dependencies on packages that are written, with the keys of these packages.
pub open spec fn linked(deps: TextEntries, packages: Seq<(Seq<char>, PackageView)>) -> TextEntries
    decreases deps.len(),
{
    if deps.len() == 0 {
        seq![]
    } else {
        let (name, value) = deps.last();
        let rest = linked(deps.drop_last(), packages);
        if has_key(packages, key_of_dep(name, value)) {
            rest.push((name, key_of_dep(name, value)))
        } else {
            rest
        }
    }
}

/// What a lockfile keeps of a package.
pub open spec fn kept(package: PackageView, packages: Seq<(Seq<char>, PackageView)>) -> PackageView {
    PackageView {
        name: package.name,
        version: package.version,
        integrity: package.integrity,
        dependencies: linked(package.dependencies, packages),
        dep_path: package_key(package),
        os: seq![],
        cpu: seq![],
        libc: seq![],
    }
}

/// What a lockfile keeps of the packages of a graph.
pub open spec fn kept_packages(graph: GraphView) -> Seq<(Seq<char>, PackageView)> {
    let packages = canonical(graph.packages);
    Seq::new(packages.len(), |i: int| (packages[i].0, kept(packages[i].1, packages)))
}

/// Whether no block lists the exact version of one of the dependencies further down
/// than the block of that version.
pub open spec fn links_clear(
    deps: TextEntries,
    roots: Seq<(Seq<char>, Seq<char>)>,
    packages: Seq<(Seq<char>, PackageView)>,
) -> bool {
    forall|i: int|
        #![trigger deps[i]]
        0 <= i < deps.len() && has_key(packages, key_of_dep(deps[i].0, deps[i].1)) ==> !shadowed(
            key_of_dep(deps[i].0, deps[i].1),
            key_of_dep(deps[i].0, deps[i].1),
            roots,
            packages,
        )
}

/// Whether every dependency of a written package is found again.
pub open spec fn all_links_clear(graph: GraphView, manifest: ManifestView) -> bool {
    let packages = canonical(graph.packages);
    let roots = root_specs(root_deps(graph), manifest);
    forall|i: int|
        0 <= i < packages.len() ==> links_clear(
            (#[trigger] packages[i]).1.dependencies,
            roots,
            packages,
        )
}

proof fn lemma_with_specs(
    index: TextEntries,
    specs: Seq<Seq<char>>,
    path: Seq<char>,
    spec: Seq<char>,
)
    requires
        sorted(index),
    ensures
        sorted(with_specs(index, specs, path)),
        lookup(with_specs(index, specs, path), spec) == if specs.contains(spec) {
            Some(path)
        } else {
            lookup(index, spec)
        },
    decreases specs.len(),
{
    if specs.len() > 0 {
        let front = specs.drop_last();
        let prior = with_specs(index, front, path);
        lemma_with_specs(index, front, path, spec);
        lemma_put_sorted(prior, specs.last(), path);
        lemma_lookup_put(prior, specs.last(), path, spec);
        if front.contains(spec) {
            let k = choose|k: int| 0 <= k < front.len() && front[k] == spec;
            assert(specs[k] == spec);
        } else if spec == specs.last() {
            assert(specs[specs.len() - 1] == spec);
        } else if specs.contains(spec) {
            let k = choose|k: int| 0 <= k < specs.len() && specs[k] == spec;
            assert(front[k] == spec);
        }
    }
}

/// A specifier leads to the last block that lists it.
pub proof fn lemma_spec_index_last(blocks: Seq<BlockView>, spec: Seq<char>, i: int)
    requires
        0 <= i < blocks.len(),
        blocks[i].specs.contains(spec),
        forall|j: int| i < j < blocks.len() ==> !(#[trigger] blocks[j]).specs.contains(spec),
    ensures
        sorted(spec_index(blocks)),
        lookup(spec_index(blocks), spec) == Some(block_path(blocks[i])),
    decreases blocks.len(),
{
    let front = blocks.drop_last();
    let last = blocks.last();
    lemma_spec_index_sorted(front);
    lemma_with_specs(spec_index(front), last.specs, block_path(last), spec);
    if i < blocks.len() - 1 {
        assert(!blocks[blocks.len() - 1].specs.contains(spec));
        assert(front[i] == blocks[i]);
        assert forall|j: int| i < j < front.len() implies !(
        #[trigger] front[j]).specs.contains(spec) by {
            assert(front[j] == blocks[j]);
        }
        lemma_spec_index_last(front, spec, i);
    }
}

proof fn lemma_spec_index_sorted(blocks: Seq<BlockView>)
    ensures
        sorted(spec_index(blocks)),
    decreases blocks.len(),
{
    if blocks.len() > 0 {
        let last = blocks.last();
        lemma_spec_index_sorted(blocks.drop_last());
        lemma_with_specs(spec_index(blocks.drop_last()), last.specs, block_path(last), seq![]);
    }
}

/// A specifier that no block lists leads nowhere, and where one leads there is a block.
pub proof fn lemma_spec_index_some(blocks: Seq<BlockView>, spec: Seq<char>)
    ensures
        sorted(spec_index(blocks)),
        lookup(spec_index(blocks), spec) matches Some(path) ==> exists|i: int|
            0 <= i < blocks.len() && (#[trigger] blocks[i]).specs.contains(spec) && path
                == block_path(blocks[i]),
    decreases blocks.len(),
{
    lemma_spec_index_sorted(blocks);
    if blocks.len() > 0 {
        let front = blocks.drop_last();
        let last = blocks.last();
        lemma_spec_index_some(front, spec);
        lemma_with_specs(spec_index(front), last.specs, block_path(last), spec);
        if let Some(path) = lookup(spec_index(blocks), spec) {
            if last.specs.contains(spec) {
                assert(blocks[blocks.len() - 1].specs.contains(spec));
            } else {
                let i = choose|i: int|
                    0 <= i < front.len() && (#[trigger] front[i]).specs.contains(spec) && path
                        == block_path(front[i]);
                assert(blocks[i] == front[i]);
            }
        }
    }
}

/// Blocks whose paths ascend give one package each.
proof fn lemma_block_packages(blocks: Seq<BlockView>, index: TextEntries)
    requires
        forall|i: int, j: int|
            0 <= i < j < blocks.len() ==> before(
                block_path(#[trigger] blocks[i]),
                block_path(#[trigger] blocks[j]),
            ),
    ensures
        block_packages(blocks, index) == Seq::new(
            blocks.len(),
            |i: int| (block_path(blocks[i]), block_package(blocks[i], index)),
        ),
    decreases blocks.len(),
{
    let all = Seq::new(
        blocks.len(),
        |i: int| (block_path(blocks[i]), block_package(blocks[i], index)),
    );
    if blocks.len() == 0 {
        assert(block_packages(blocks, index) =~= all);
    } else {
        let front = blocks.drop_last();
        assert forall|i: int, j: int| 0 <= i < j < front.len() implies before(
            block_path(#[trigger] front[i]),
            block_path(#[trigger] front[j]),
        ) by {
            assert(before(block_path(blocks[i]), block_path(blocks[j])));
        }
        lemma_block_packages(front, index);
        let prior = block_packages(front, index);
        let key = block_path(blocks.last());
        let n = blocks.len() - 1;
        assert forall|i: int| 0 <= i < prior.len() implies before((#[trigger] prior[i]).0, key) by {
            assert(before(block_path(blocks[i]), block_path(blocks[n])));
        }
        lemma_put_last(prior, key, block_package(blocks.last(), index));
        assert(block_packages(blocks, index) =~= all);
    }
}

/// What the block of a package says of it.
proof fn lemma_block_read(
    key: Seq<char>,
    package: PackageView,
    roots: Seq<(Seq<char>, Seq<char>)>,
    packages: Seq<(Seq<char>, PackageView)>,
)
    requires
        writable_package(key, package, roots, packages),
        key == package_key(package),
    ensures
        ({
            let block = block_read(key, package, roots, packages);
            &&& block_complaint(block) is None
            &&& block_name(block) == Some(package.name)
            &&& block_version(block) == Some(package.version)
            &&& lookup(block.fields, "integrity"@) == package.integrity
            &&& block_path(block) == key
            &&& block.specs.contains(key)
        }),
{
    let block = block_read(key, package, roots, packages);
    reveal_strlit("version");
    reveal_strlit("integrity");
    assert("version"@[0] != "integrity"@[0]);
    let none = Seq::<(Seq<char>, Seq<char>)>::empty();
    assert(!has_key(none, "integrity"@));
    lemma_lookup_put(none, "version"@, package.version, "version"@);
    lemma_lookup_put(none, "version"@, package.version, "integrity"@);
    lemma_put_sorted(none, "version"@, package.version);
    let fields = put(none, "version"@, package.version);
    if let Some(text) = package.integrity {
        lemma_lookup_put(fields, "integrity"@, text, "version"@);
        lemma_lookup_put(fields, "integrity"@, text, "integrity"@);
    }
    assert(header_of(key, roots)[0] == key);
    lemma_list_pieces(header_of(key, roots));
    assert(block.specs[0] == key);
}

pub proof fn lemma_no_complaint(blocks: Seq<BlockView>)
    requires
        forall|i: int| 0 <= i < blocks.len() ==> block_complaint(#[trigger] blocks[i]) is None,
    ensures
        first_complaint(blocks) is None,
    decreases blocks.len(),
{
    if blocks.len() > 0 {
        let rest = blocks.drop_first();
        assert(block_complaint(blocks[0]) is None);
        assert forall|i: int| 0 <= i < rest.len() implies block_complaint(
            #[trigger] rest[i],
        ) is None by {
            assert(rest[i] == blocks[i + 1]);
        }
        lemma_no_complaint(rest);
    }
}

/// The written dependencies are read as links to their packages.
proof fn lemma_resolved(
    deps: TextEntries,
    packages: Seq<(Seq<char>, PackageView)>,
    index: TextEntries,
)
    requires
        forall|i: int|
            #![trigger deps[i]]
            0 <= i < deps.len() && has_key(packages, key_of_dep(deps[i].0, deps[i].1)) ==> lookup(
                index,
                key_of_dep(deps[i].0, deps[i].1),
            ) == Some(key_of_dep(deps[i].0, deps[i].1)),
    ensures
        resolved(written_deps(deps, packages), index) == linked(deps, packages),
    decreases deps.len(),
{
    if deps.len() > 0 {
        let front = deps.drop_last();
        assert forall|i: int|
            #![trigger front[i]]
            0 <= i < front.len() && has_key(
                packages,
                key_of_dep(front[i].0, front[i].1),
            ) implies lookup(index, key_of_dep(front[i].0, front[i].1)) == Some(
            key_of_dep(front[i].0, front[i].1),
        ) by {
            assert(front[i] == deps[i]);
        }
        lemma_resolved(front, packages, index);
        let (name, value) = deps.last();
        assert(deps[deps.len() - 1] == (name, value));
        if has_key(packages, key_of_dep(name, value)) {
            let all = written_deps(deps, packages);
            assert(all.drop_last() =~= written_deps(front, packages));
            assert(all.last() == (name, version_of_dep(name, value)));
        }
    }
}

/// A specifier leads to the package of the block that lists it, unless a block further
/// down lists it too.
pub proof fn lemma_find_spec(
    packages: Seq<(Seq<char>, PackageView)>,
    roots: Seq<(Seq<char>, Seq<char>)>,
    key: Seq<char>,
    spec: Seq<char>,
)
    requires
        sorted(packages),
        forall|i: int|
            0 <= i < packages.len() ==> writable_package(
                (#[trigger] packages[i]).0,
                packages[i].1,
                roots,
                packages,
            ) && packages[i].0 == package_key(packages[i].1),
        has_key(packages, key),
        header_read(key, roots).contains(spec),
        !shadowed(spec, key, roots, packages),
    ensures
        lookup(spec_index(blocks_read(packages, roots, packages)), spec) == Some(key),
{
    let blocks = blocks_read(packages, roots, packages);
    let a = key_index(packages, key);
    lemma_block_read(packages[a].0, packages[a].1, roots, packages);
    assert forall|j: int| a < j < blocks.len() implies !(
    #[trigger] blocks[j]).specs.contains(spec) by {
        assert(before(packages[a].0, packages[j].0));
    }
    lemma_spec_index_last(blocks, spec, a);
}

/// What is read of the lockfile for a graph.
pub proof fn lemma_parse_written(graph: GraphView, manifest: ManifestView, reader: ManifestView)
    requires
        writable(graph, manifest),
    ensures
        ({
            let packages = canonical(graph.packages);
            let roots = root_specs(root_deps(graph), manifest);
            parsed(written(graph, manifest), reader) == Ok::<GraphView, Seq<char>>(
                graph_of(blocks_read(packages, roots, packages), reader),
            )
        }),
{
    let packages = canonical(graph.packages);
    let roots = root_specs(root_deps(graph), manifest);
    let blocks = blocks_read(packages, roots, packages);
    lemma_canonical(graph.packages);
    lemma_blocks_of_written(graph, manifest);
    assert forall|i: int| 0 <= i < blocks.len() implies block_complaint(
        #[trigger] blocks[i],
    ) is None by {
        lemma_block_read(packages[i].0, packages[i].1, roots, packages);
    }
    lemma_no_complaint(blocks);
}

/// The packages that are read of the lockfile for a graph.
pub proof fn lemma_packages_written(graph: GraphView, manifest: ManifestView)
    requires
        writable(graph, manifest),
        all_links_clear(graph, manifest),
    ensures
        ({
            let packages = canonical(graph.packages);
            let roots = root_specs(root_deps(graph), manifest);
            let blocks = blocks_read(packages, roots, packages);
            block_packages(blocks, spec_index(blocks)) == kept_packages(graph)
        }),
{
    let packages = canonical(graph.packages);
    let roots = root_specs(root_deps(graph), manifest);
    let blocks = blocks_read(packages, roots, packages);
    let index = spec_index(blocks);
    lemma_canonical(graph.packages);
    assert forall|i: int| 0 <= i < blocks.len() implies block_path(#[trigger] blocks[i])
        == packages[i].0 by {
        lemma_block_read(packages[i].0, packages[i].1, roots, packages);
    }
    assert forall|i: int, j: int| 0 <= i < j < blocks.len() implies before(
        block_path(#[trigger] blocks[i]),
        block_path(#[trigger] blocks[j]),
    ) by {
        assert(before(packages[i].0, packages[j].0));
    }
    lemma_block_packages(blocks, index);
    let read = block_packages(blocks, index);
    let expected = kept_packages(graph);
    assert forall|i: int| 0 <= i < read.len() implies read[i] == expected[i] by {
        let (key, package) = packages[i];
        lemma_block_read(key, package, roots, packages);
        let deps = package.dependencies;
        assert(links_clear(packages[i].1.dependencies, roots, packages));
        assert forall|k: int|
            #![trigger deps[k]]
            0 <= k < deps.len() && has_key(
                packages,
                key_of_dep(deps[k].0, deps[k].1),
            ) implies lookup(index, key_of_dep(deps[k].0, deps[k].1)) == Some(
            key_of_dep(deps[k].0, deps[k].1),
        ) by {
            let dep = key_of_dep(deps[k].0, deps[k].1);
            let a = key_index(packages, dep);
            lemma_block_read(packages[a].0, packages[a].1, roots, packages);
            lemma_find_spec(packages, roots, dep, dep);
        }
        lemma_resolved(deps, packages, index);
        assert(block_package(blocks[i], index) =~= kept(package, packages));
    }
    assert(read =~= expected);
}

/// Reading the lockfile for a graph gives back its packages: each name and version once,
/// with the checksum and with links to all dependencies that the graph holds.
pub proof fn law_packages_survive_writing(
    graph: GraphView,
    manifest: ManifestView,
    reader: ManifestView,
)
    requires
        writable(graph, manifest),
        all_links_clear(graph, manifest),
    ensures
        parsed(written(graph, manifest), reader) matches Ok(read) && read.packages
            == kept_packages(graph),
{
    lemma_parse_written(graph, manifest, reader);
    lemma_packages_written(graph, manifest);
}

proof fn lemma_root_specs(deps: Seq<DirectDepView>, manifest: ManifestView, d: int)
    requires
        0 <= d < deps.len(),
        manifest_range(manifest, deps[d].name) is Some,
        joined_at(deps[d].name, manifest_range(manifest, deps[d].name)->0) != without_peers(
            deps[d].dep_path,
        ),
    ensures
        root_specs(deps, manifest).contains(
            (
                without_peers(deps[d].dep_path),
                joined_at(deps[d].name, manifest_range(manifest, deps[d].name)->0),
            ),
        ),
    decreases deps.len(),
{
    let front = deps.drop_last();
    let prior = root_specs(front, manifest);
    let all = root_specs(deps, manifest);
    if d < front.len() {
        assert(front[d] == deps[d]);
        lemma_root_specs(front, manifest, d);
        let pair = (
            without_peers(deps[d].dep_path),
            joined_at(deps[d].name, manifest_range(manifest, deps[d].name)->0),
        );
        let k = choose|k: int| 0 <= k < prior.len() && prior[k] == pair;
        assert(all[k] == pair);
    } else {
        assert(all.last() == all[all.len() - 1]);
    }
}

proof fn lemma_extra_specs(roots: Seq<(Seq<char>, Seq<char>)>, k: int)
    requires
        0 <= k < roots.len(),
    ensures
        extra_specs(roots, roots[k].0).contains(roots[k].1),
    decreases roots.len(),
{
    let front = roots.drop_last();
    let key = roots[k].0;
    let prior = extra_specs(front, key);
    let all = extra_specs(roots, key);
    if k < front.len() {
        assert(front[k] == roots[k]);
        lemma_extra_specs(front, k);
        let j = choose|j: int| 0 <= j < prior.len() && prior[j] == roots[k].1;
        assert(all[j] == roots[k].1);
    } else {
        assert(all[all.len() - 1] == roots[k].1);
    }
}

/// The specifier under which the manifest declares a direct dependency stands in the
/// header of its package.
pub proof fn lemma_header_lists(deps: Seq<DirectDepView>, manifest: ManifestView, d: int)
    requires
        0 <= d < deps.len(),
        manifest_range(manifest, deps[d].name) is Some,
        lacks(without_peers(deps[d].dep_path), ','),
        lacks(joined_at(deps[d].name, manifest_range(manifest, deps[d].name)->0), ','),
    ensures
        header_read(without_peers(deps[d].dep_path), root_specs(deps, manifest)).contains(
            joined_at(deps[d].name, manifest_range(manifest, deps[d].name)->0),
        ),
{
    let key = without_peers(deps[d].dep_path);
    let spec = joined_at(deps[d].name, manifest_range(manifest, deps[d].name)->0);
    let roots = root_specs(deps, manifest);
    let specs = header_of(key, roots);
    assert(specs[0] == key);
    lemma_list_pieces(specs);
    if spec == key {
        assert(header_read(key, roots)[0] == spec);
    } else {
        lemma_root_specs(deps, manifest, d);
        let k = choose|k: int| 0 <= k < roots.len() && roots[k] == (key, spec);
        lemma_extra_specs(roots, k);
        let extra = extra_specs(roots, key);
        let j = choose|j: int| 0 <= j < extra.len() && extra[j] == spec;
        assert(specs[j + 1] == spec);
    }
}

/// The section that declares a dependency. The first one counts; a manifest's peer
/// dependencies are not among its direct dependencies.
pub open spec fn declared_as(manifest: ManifestView, name: Seq<char>) -> Option<DepType> {
    if has_key(manifest.dependencies, name) {
        Some(DepType::Production)
    } else if has_key(manifest.dev_dependencies, name) {
        Some(DepType::Dev)
    } else if has_key(manifest.optional_dependencies, name) {
        Some(DepType::Optional)
    } else {
        None
    }
}

pub proof fn lemma_section_deps(section: TextEntries, dep_type: DepType, index: TextEntries, i: int)
    requires
        0 <= i < section.len(),
        lookup(index, joined_at(section[i].0, section[i].1)) is Some,
    ensures
        section_deps(section, dep_type, index).contains(
            DirectDepView {
                name: section[i].0,
                dep_path: lookup(index, joined_at(section[i].0, section[i].1))->0,
                dep_type,
                specifier: None,
            },
        ),
    decreases section.len(),
{
    let front = section.drop_last();
    let prior = section_deps(front, dep_type, index);
    let all = section_deps(section, dep_type, index);
    let dep = DirectDepView {
        name: section[i].0,
        dep_path: lookup(index, joined_at(section[i].0, section[i].1))->0,
        dep_type,
        specifier: None,
    };
    if i < front.len() {
        assert(front[i] == section[i]);
        lemma_section_deps(front, dep_type, index, i);
        let k = choose|k: int| 0 <= k < prior.len() && prior[k] == dep;
        assert(all[k] == dep);
    } else {
        assert(all[all.len() - 1] == dep);
    }
}

/// A direct dependency of the root project that the manifest declares is found again when
/// the lockfile is read with that manifest.
pub proof fn law_direct_deps_are_found(graph: GraphView, manifest: ManifestView, d: int)
    requires
        writable(graph, manifest),
        0 <= d < root_deps(graph).len(),
        has_key(canonical(graph.packages), without_peers(root_deps(graph)[d].dep_path)),
        declared_as(manifest, root_deps(graph)[d].name) is Some,
        ({
            let dep = root_deps(graph)[d];
            let spec = joined_at(dep.name, manifest_range(manifest, dep.name)->0);
            &&& lacks(spec, ',')
            &&& !shadowed(
                spec,
                without_peers(dep.dep_path),
                root_specs(root_deps(graph), manifest),
                canonical(graph.packages),
            )
        }),
    ensures
        parsed(written(graph, manifest), manifest) matches Ok(read) && root_deps(read).contains(
            DirectDepView {
                name: root_deps(graph)[d].name,
                dep_path: without_peers(root_deps(graph)[d].dep_path),
                dep_type: declared_as(manifest, root_deps(graph)[d].name)->0,
                specifier: None,
            },
        ),
{
    let packages = canonical(graph.packages);
    let deps = root_deps(graph);
    let roots = root_specs(deps, manifest);
    let blocks = blocks_read(packages, roots, packages);
    let index = spec_index(blocks);
    let dep = deps[d];
    let key = without_peers(dep.dep_path);
    let range = manifest_range(manifest, dep.name)->0;
    let spec = joined_at(dep.name, range);
    lemma_parse_written(graph, manifest, manifest);
    lemma_canonical(graph.packages);
    let a = key_index(packages, key);
    assert(writable_package(packages[a].0, packages[a].1, roots, packages));
    lemma_header_lists(deps, manifest, d);
    lemma_find_spec(packages, roots, key, spec);
    let read = graph_of(blocks, manifest);
    lemma_single(direct_deps(manifest, index));
    let direct = direct_deps(manifest, index);
    let first = section_deps(manifest.dependencies, DepType::Production, index);
    let second = section_deps(manifest.dev_dependencies, DepType::Dev, index);
    let third = section_deps(manifest.optional_dependencies, DepType::Optional, index);
    let found = DirectDepView {
        name: dep.name,
        dep_path: key,
        dep_type: declared_as(manifest, dep.name)->0,
        specifier: None,
    };
    if has_key(manifest.dependencies, dep.name) {
        let i = key_index(manifest.dependencies, dep.name);
        lemma_section_deps(manifest.dependencies, DepType::Production, index, i);
        let k = choose|k: int| 0 <= k < first.len() && first[k] == found;
        assert(direct[k] == found);
    } else if has_key(manifest.dev_dependencies, dep.name) {
        let i = key_index(manifest.dev_dependencies, dep.name);
        lemma_section_deps(manifest.dev_dependencies, DepType::Dev, index, i);
        let k = choose|k: int| 0 <= k < second.len() && second[k] == found;
        assert(direct[first.len() + k] == found);
    } else {
        let i = key_index(manifest.optional_dependencies, dep.name);
        lemma_section_deps(manifest.optional_dependencies, DepType::Optional, index, i);
        let k = choose|k: int| 0 <= k < third.len() && third[k] == found;
        assert(direct[first.len() + second.len() + k] == found);
    }
}

/// What is found in a map with one entry.
pub proof fn lemma_single(deps: Seq<DirectDepView>)
    ensures
        lookup(seq![("."@, deps)], "."@) == Some(deps),
{
    let entries = seq![("."@, deps)];
    assert(entries[0].0 == "."@);
    lemma_lookup_at(entries, 0);
}

/// The lockfile for a graph has one block for each name and version in the graph, in the
/// order of their keys, and each block is that of its package.
pub proof fn law_one_block_per_version(graph: GraphView, manifest: ManifestView)
    requires
        writable(graph, manifest),
    ensures
        sorted(canonical(graph.packages)),
        forall|i: int|
            0 <= i < graph.packages.len() ==> has_key(
                canonical(graph.packages),
                package_key((#[trigger] graph.packages[i]).1),
            ),
        blocks_of(written(graph, manifest)) matches Ok(blocks) && {
            &&& blocks.len() == canonical(graph.packages).len()
            &&& forall|i: int|
                0 <= i < blocks.len() ==> block_path(#[trigger] blocks[i]) == canonical(
                    graph.packages,
                )[i].0
        },
{
    let packages = canonical(graph.packages);
    let roots = root_specs(root_deps(graph), manifest);
    let blocks = blocks_read(packages, roots, packages);
    lemma_canonical(graph.packages);
    lemma_blocks_of_written(graph, manifest);
    assert forall|i: int| 0 <= i < blocks.len() implies block_path(#[trigger] blocks[i])
        == packages[i].0 by {
        lemma_block_read(packages[i].0, packages[i].1, roots, packages);
    }
}

} // verus!
