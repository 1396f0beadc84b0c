//! From the text of a lockfile to the dependency graph.

use vstd::prelude::*;
use crate::dep_path::{join_at, joined_at};
use crate::error::Error;
use crate::lockfile::{
    text_option, DepType, DirectDep, DirectDepView, GraphView, LockedPackage, LockfileGraph,
    ManifestView, PackageJson, PackageView, TextEntries,
};
use crate::string_map::{before, lemma_put_last, lookup, put, put_new, sorted, StringMap};
use crate::text::{chars_of, lines, split_line, starts_with, trim_start, trimmed_start};
use crate::yarn::tokens::{
    blocks_of, feed, parse_spec_name, read_line, spec_name, step, tokenize_blocks, Block, BlockView,
    Progress,
};

verus! {

/// How the standard library prints a list of strings for debugging.
pub uninterp spec fn debug_list(list: Seq<Seq<char>>) -> Seq<char>;

/// Whether a line belongs to the header of a later version of the format.
pub open spec fn is_berry_line(line: Seq<char>) -> bool {
    "__metadata:"@.is_prefix_of(trim_start(line))
}

/// Whether a lockfile is written in a later version of the format.
pub open spec fn is_berry(content: Seq<char>) -> bool {
    exists|i: int| 0 <= i < lines(content).len() && is_berry_line(#[trigger] lines(content)[i])
}

/// The complaint about a later version of the format.
pub open spec fn berry_complaint() -> Seq<char> {
    "yarn berry (v2+) lockfiles are not supported \u{2014} run `yarn set version classic` first, or use package-lock.json"@
}

/// The version of a block.
pub open spec fn block_version(block: BlockView) -> Option<Seq<char>> {
    lookup(block.fields, "version"@)
}

/// The name of a block's package, which its first specifier gives.
pub open spec fn block_name(block: BlockView) -> Option<Seq<char>> {
    spec_name(block.specs[0])
}

/// The dependency path of a block's package.
pub open spec fn block_path(block: BlockView) -> Seq<char> {
    joined_at(block_name(block)->0, block_version(block)->0)
}

/// What is wrong with a block: it has no version, or its first specifier has no name.
pub open spec fn block_complaint(block: BlockView) -> Option<Seq<char>> {
    if block_version(block) is None {
        Some("yarn.lock block "@ + debug_list(block.specs) + " has no version"@)
    } else if block_name(block) is None {
        Some("could not parse package name from yarn.lock spec '"@ + block.specs[0] + "'"@)
    } else {
        None
    }
}

/// What is wrong with the first block that something is wrong with.
pub open spec fn first_complaint(blocks: Seq<BlockView>) -> Option<Seq<char>>
    decreases blocks.len(),
{
    if blocks.len() == 0 {
        None
    } else if block_complaint(blocks[0]) is Some {
        block_complaint(blocks[0])
    } else {
        first_complaint(blocks.drop_first())
    }
}

/// The index with each of some specifiers leading to `path`.
pub open spec fn with_specs(index: TextEntries, specs: Seq<Seq<char>>, path: Seq<char>) -> TextEntries
    decreases specs.len(),
{
    if specs.len() == 0 {
        index
    } else {
        put(with_specs(index, specs.drop_last(), path), specs.last(), path)
    }
}

/// The dependency path that each specifier leads to. Where a specifier stands in
/// several headers the last one counts.
pub open spec fn spec_index(blocks: Seq<BlockView>) -> TextEntries
    decreases blocks.len(),
{
    if blocks.len() == 0 {
        seq![]
    } else {
        with_specs(spec_index(blocks.drop_last()), blocks.last().specs, block_path(blocks.last()))
    }
}

/// The dependencies whose specifiers are known, with the paths they lead to.
pub open spec fn resolved(deps: TextEntries, index: TextEntries) -> TextEntries
    decreases deps.len(),
{
    if deps.len() == 0 {
        seq![]
    } else {
        let (name, range) = deps.last();
        match lookup(index, joined_at(name, range)) {
            Some(path) => resolved(deps.drop_last(), index).push((name, path)),
            None => resolved(deps.drop_last(), index),
        }
    }
}

/// The package that a block describes.
pub open spec fn block_package(block: BlockView, index: TextEntries) -> PackageView {
    PackageView {
        name: block_name(block)->0,
        version: block_version(block)->0,
        integrity: lookup(block.fields, "integrity"@),
        dependencies: resolved(block.dependencies, index),
        dep_path: block_path(block),
        os: seq![],
        cpu: seq![],
        libc: seq![],
    }
}

/// The packages of some blocks by their dependency paths. Where several blocks have the
/// same path the first one counts.
pub open spec fn block_packages(blocks: Seq<BlockView>, index: TextEntries) -> Seq<
    (Seq<char>, PackageView),
>
    decreases blocks.len(),
{
    if blocks.len() == 0 {
        seq![]
    } else {
        put_new(
            block_packages(blocks.drop_last(), index),
            block_path(blocks.last()),
            block_package(blocks.last(), index),
        )
    }
}

/// The direct dependencies of one section of a manifest whose specifiers are known.
pub open spec fn section_deps(section: TextEntries, dep_type: DepType, index: TextEntries) -> Seq<
    DirectDepView,
>
    decreases section.len(),
{
    if section.len() == 0 {
        seq![]
    } else {
        let (name, range) = section.last();
        let rest = section_deps(section.drop_last(), dep_type, index);
        match lookup(index, joined_at(name, range)) {
            Some(dep_path) => rest.push(
                DirectDepView { name, dep_path, dep_type, specifier: None },
            ),
            None => rest,
        }
    }
}

/// The direct dependencies of a manifest whose specifiers are known.
pub open spec fn direct_deps(manifest: ManifestView, index: TextEntries) -> Seq<DirectDepView> {
    section_deps(manifest.dependencies, DepType::Production, index) + section_deps(
        manifest.dev_dependencies,
        DepType::Dev,
        index,
    ) + section_deps(manifest.optional_dependencies, DepType::Optional, index)
}

/// The graph that some blocks describe, for the project with a given manifest.
pub open spec fn graph_of(blocks: Seq<BlockView>, manifest: ManifestView) -> GraphView {
    let index = spec_index(blocks);
    GraphView {
        importers: seq![("."@, direct_deps(manifest, index))],
        packages: block_packages(blocks, index),
    }
}

/// The graph that a lockfile describes, or what is wrong with it.
pub open spec fn parsed(content: Seq<char>, manifest: ManifestView) -> Result<
    GraphView,
    Seq<char>,
> {
    if is_berry(content) {
        Err(berry_complaint())
    } else {
        match blocks_of(content) {
            Err(complaint) => Err(complaint),
            Ok(blocks) => match first_complaint(blocks) {
                Some(complaint) => Err(complaint),
                None => Ok(graph_of(blocks, manifest)),
            },
        }
    }
}

/// Prints a list of strings for debugging, as `format!("{:?}", ..)` does. What it prints
/// is only named, not described.
#[verifier::external_body]
fn print_list(list: &Vec<String>) -> (r: String)
    ensures
        r@ == debug_list(list.deep_view()),
{
    format!("{:?}", list)
}

/// Whether a lockfile is written in a later version of the format.
fn has_berry_line(content: &[char]) -> (r: bool)
    ensures
        r == is_berry(content@),
{
    let mark = chars_of("__metadata:");
    let ghost all = lines(content@);
    let ghost mut done: int = 0;
    let mut rest = content;
    assert(all.skip(0) =~= all);
    while rest.len() > 0
        invariant
            mark@ == "__metadata:"@,
            all == lines(content@),
            0 <= done <= all.len(),
            lines(rest@) == all.skip(done),
            forall|i: int| 0 <= i < done ==> !is_berry_line(#[trigger] all[i]),
        decreases rest@.len(),
    {
        let (raw, tail) = split_line(rest);
        proof {
            assert(all.skip(done) =~= seq![raw@] + lines(tail@));
            assert(all.skip(done).len() > 0);
            assert(all.skip(done)[0] == all[done]);
            assert((seq![raw@] + lines(tail@)).skip(1) =~= lines(tail@));
            assert(all.skip(done).skip(1) =~= all.skip(done + 1));
        }
        if starts_with(trimmed_start(raw), mark.as_slice()) {
            assert(is_berry_line(all[done]));
            return true;
        }
        proof {
            done = done + 1;
        }
        rest = tail;
    }
    assert(lines(rest@).len() == 0);
    false
}


proof fn lemma_blocks_have_specs(progress: Progress, rest: Seq<Seq<char>>, number: nat)
    requires
        forall|i: int| 0 <= i < progress.blocks.len() ==> (#[trigger] progress.blocks[i]).specs.len() > 0,
    ensures
        feed(progress, rest, number) matches Ok(end) ==> forall|i: int|
            0 <= i < end.blocks.len() ==> (#[trigger] end.blocks[i]).specs.len() > 0,
    decreases rest.len(),
{
    if rest.len() > 0 {
        let line = read_line(rest[0]);
        if let Ok(next) = step(progress, line, number) {
            assert forall|i: int| 0 <= i < next.blocks.len() implies (
            #[trigger] next.blocks[i]).specs.len() > 0 by {
                if i < progress.blocks.len() {
                    assert(progress.blocks[i].specs.len() > 0);
                }
            }
            lemma_blocks_have_specs(next, rest.drop_first(), number + 1);
        }
    }
}

/// The complaint that a block has no version; `printed` is the list of its specifiers.
pub fn no_version(printed: &str) -> (r: String)
    ensures
        r@ == "yarn.lock block "@ + printed@ + " has no version"@,
{
    let mut complaint = "yarn.lock block ".to_string();
    complaint.append(printed);
    complaint.append(" has no version");
    complaint
}

/// Checks a block and gives the name and the version of its package.
fn identify(block: &Block) -> (r: Result<(String, String), String>)
    requires
        block.specs@.len() > 0,
    ensures
        match r {
            Ok((name, version)) => block_complaint(block.deep_view()) is None && block_name(
                block.deep_view(),
            ) == Some(name@) && block_version(block.deep_view()) == Some(version@),
            Err(e) => block_complaint(block.deep_view()) == Some(e@),
        },
{
    match block.fields.get("version") {
        None => Err(no_version(print_list(&block.specs).as_str())),
        Some(version) => match parse_spec_name(block.specs[0].as_str()) {
            None => {
                let mut complaint = "could not parse package name from yarn.lock spec '".to_string();
                complaint.append(block.specs[0].as_str());
                complaint.append("'");
                Err(complaint)
            },
            Some(name) => Ok((name, version.clone())),
        },
    }
}

/// Makes each of some specifiers lead to `path`.
fn index_specs(index: &mut StringMap<String>, specs: &Vec<String>, path: &str)
    ensures
        final(index)@ == with_specs(old(index)@, specs.deep_view(), path@),
{
    let ghost start = index@;
    let ghost all = specs.deep_view();
    let mut i: usize = 0;
    assert(all.take(0) =~= seq![]);
    while i < specs.len()
        invariant
            i <= specs@.len(),
            all == specs.deep_view(),
            index@ == with_specs(start, all.take(i as int), path@),
        decreases specs.len() - i,
    {
        proof {
            assert(all.take(i + 1).drop_last() =~= all.take(i as int));
            assert(all.take(i + 1).last() == specs@[i as int]@);
        }
        index.insert(specs[i].clone(), path.to_string());
        i += 1;
    }
    assert(all.take(i as int) =~= all);
}

/// The dependencies whose specifiers are known, with the paths they lead to.
fn resolve(deps: &StringMap<String>, index: &StringMap<String>) -> (r: StringMap<String>)
    ensures
        r@ == resolved(deps@, index@),
{
    let ghost all = deps@;
    let mut r: StringMap<String> = StringMap::new();
    let mut i: usize = 0;
    let n: usize = deps.len();
    assert(all.take(0) =~= seq![]);
    while i < n
        invariant
            i <= n == deps@.len(),
            all == deps@,
            sorted(all),
            r@ == resolved(all.take(i as int), index@),
            forall|k: int| 0 <= k < r@.len() ==> exists|j: int|
                0 <= j < i && all[j].0 == (#[trigger] r@[k]).0,
        decreases n - i,
    {
        let name = deps.key(i);
        let range = deps.value(i);
        proof {
            assert(all.take(i + 1).drop_last() =~= all.take(i as int));
            assert(all.take(i + 1).last() == all[i as int]);
            assert(all[i as int] == (name@, range@));
        }
        match index.get(join_at(name.as_str(), range.as_str()).as_str()) {
            Some(path) => {
                let ghost prior = r@;
                proof {
                    assert forall|k: int| 0 <= k < prior.len() implies before(
                        (#[trigger] prior[k]).0,
                        name@,
                    ) by {
                        let j = choose|j: int| 0 <= j < i && all[j].0 == prior[k].0;
                        assert(before(all[j].0, all[i as int].0));
                    }
                    lemma_put_last(prior, name@, path@);
                }
                r.insert(name.clone(), path.clone());
                proof {
                    assert(r@ == prior.push((name@, path@)));
                    assert forall|k: int| 0 <= k < r@.len() implies exists|j: int|
                        0 <= j < i + 1 && all[j].0 == (#[trigger] r@[k]).0 by {
                        if k < prior.len() {
                            assert(r@[k] == prior[k]);
                        } else {
                            assert(all[i as int].0 == r@[k].0);
                        }
                    }
                }
            },
            None => {
                proof {
                    assert forall|k: int| 0 <= k < r@.len() implies exists|j: int|
                        0 <= j < i + 1 && all[j].0 == (#[trigger] r@[k]).0 by {
                        let j = choose|j: int| 0 <= j < i && all[j].0 == r@[k].0;
                        assert(0 <= j < i + 1);
                    }
                }
            },
        }
        i += 1;
    }
    assert(all.take(i as int) =~= all);
    r
}

/// Adds the direct dependencies of one section of a manifest.
fn push_direct(
    direct: &mut Vec<DirectDep>,
    section: &StringMap<String>,
    dep_type: DepType,
    index: &StringMap<String>,
)
    ensures
        final(direct).deep_view() == old(direct).deep_view() + section_deps(
            section@,
            dep_type,
            index@,
        ),
{
    let ghost start = direct.deep_view();
    let ghost all = section@;
    let mut i: usize = 0;
    let n: usize = section.len();
    assert(all.take(0) =~= seq![]);
    assert(start + section_deps(seq![], dep_type, index@) =~= start);
    while i < n
        invariant
            i <= n == section@.len(),
            all == section@,
            direct.deep_view() == start + section_deps(all.take(i as int), dep_type, index@),
        decreases n - i,
    {
        let name = section.key(i);
        let range = section.value(i);
        proof {
            assert(all.take(i + 1).drop_last() =~= all.take(i as int));
            assert(all.take(i + 1).last() == all[i as int]);
            assert(all[i as int] == (name@, range@));
        }
        let ghost prior = direct.deep_view();
        if let Some(path) = index.get(join_at(name.as_str(), range.as_str()).as_str()) {
            let dep = DirectDep {
                name: name.clone(),
                dep_path: path.clone(),
                dep_type,
                specifier: None,
            };
            let ghost v = dep.deep_view();
            direct.push(dep);
            assert(direct.deep_view() =~= prior.push(v));
            assert(direct.deep_view() =~= start + section_deps(
                all.take(i as int),
                dep_type,
                index@,
            ).push(v));
        }
        i += 1;
    }
    assert(all.take(i as int) =~= all);
}

/// Checks the blocks and builds the index of their specifiers.
fn index_blocks(blocks: &Vec<Block>) -> (r: Result<StringMap<String>, String>)
    requires
        forall|i: int| 0 <= i < blocks@.len() ==> (#[trigger] blocks@[i]).specs@.len() > 0,
    ensures
        match r {
            Ok(index) => first_complaint(blocks.deep_view()) is None && index@ == spec_index(
                blocks.deep_view(),
            ),
            Err(e) => first_complaint(blocks.deep_view()) == Some(e@),
        },
{
    let ghost all = blocks.deep_view();
    let mut index: StringMap<String> = StringMap::new();
    let mut i: usize = 0;
    assert(all.take(0) =~= seq![]);
    assert(all.skip(0) =~= all);
    while i < blocks.len()
        invariant
            i <= blocks@.len(),
            forall|i: int| 0 <= i < blocks@.len() ==> (#[trigger] blocks@[i]).specs@.len() > 0,
            all == blocks.deep_view(),
            index@ == spec_index(all.take(i as int)),
            first_complaint(all) == first_complaint(all.skip(i as int)),
        decreases blocks.len() - i,
    {
        proof {
            assert(all.take(i + 1).drop_last() =~= all.take(i as int));
            assert(all.take(i + 1).last() == all[i as int]);
            assert(all.skip(i as int)[0] == all[i as int]);
            assert(all.skip(i as int).drop_first() =~= all.skip(i + 1));
        }
        match identify(&blocks[i]) {
            Err(complaint) => {
                return Err(complaint);
            },
            Ok((name, version)) => {
                let path = join_at(name.as_str(), version.as_str());
                index_specs(&mut index, &blocks[i].specs, path.as_str());
            },
        }
        i += 1;
    }
    assert(all.take(i as int) =~= all);
    Ok(index)
}

/// Builds the packages of blocks that nothing is wrong with.
fn package_blocks(blocks: Vec<Block>, index: &StringMap<String>) -> (r: StringMap<LockedPackage>)
    requires
        forall|i: int| 0 <= i < blocks@.len() ==> (#[trigger] blocks@[i]).specs@.len() > 0,
        first_complaint(blocks.deep_view()) is None,
    ensures
        r@ == block_packages(blocks.deep_view(), index@),
{
    let ghost all = blocks.deep_view();
    let mut packages: StringMap<LockedPackage> = StringMap::new();
    let mut i: usize = 0;
    assert(all.take(0) =~= seq![]);
    assert(all.skip(0) =~= all);
    while i < blocks.len()
        invariant
            i <= blocks@.len(),
            forall|i: int| 0 <= i < blocks@.len() ==> (#[trigger] blocks@[i]).specs@.len() > 0,
            all == blocks.deep_view(),
            packages@ == block_packages(all.take(i as int), index@),
            first_complaint(all.skip(i as int)) is None,
        decreases blocks.len() - i,
    {
        let block = &blocks[i];
        proof {
            assert(all.take(i + 1).drop_last() =~= all.take(i as int));
            assert(all.take(i + 1).last() == all[i as int]);
            assert(all.skip(i as int)[0] == all[i as int]);
            assert(all.skip(i as int).drop_first() =~= all.skip(i + 1));
            assert(block.deep_view() == all[i as int]);
        }
        if let Ok((name, version)) = identify(block) {
            let path = join_at(name.as_str(), version.as_str());
            if !packages.contains_key(path.as_str()) {
                let integrity = match block.fields.get("integrity") {
                    Some(text) => Some(text.clone()),
                    None => None,
                };
                let package = LockedPackage {
                    name,
                    version,
                    integrity,
                    dependencies: resolve(&block.dependencies, index),
                    dep_path: path.clone(),
                    os: Vec::new(),
                    cpu: Vec::new(),
                    libc: Vec::new(),
                };
                assert(text_option(package.integrity) == lookup(all[i as int].fields, "integrity"@));
                assert(package.deep_view() =~= block_package(all[i as int], index@));
                packages.insert(path, package);
            }
        }
        i += 1;
    }
    assert(all.take(i as int) =~= all);
    packages
}

/// Reads a lockfile. `path` is the file that `content` was read from, and `manifest` says
/// which packages are direct dependencies: the lockfile itself does not.
pub fn parse<P, E>(path: P, content: &str, manifest: &PackageJson) -> (r: Result<
    LockfileGraph,
    Error<P, E>,
>)
    ensures
        match parsed(content@, manifest@) {
            Ok(graph) => r matches Ok(g) && g@ == graph,
            Err(complaint) => r matches Err(e) && (e matches Error::Parse(p, text) && p == path
                && text@ == complaint),
        },
{
    if has_berry_line(chars_of(content).as_slice()) {
        return Err(
            Error::Parse(
                path,
                "yarn berry (v2+) lockfiles are not supported \u{2014} run `yarn set version classic` first, or use package-lock.json".to_string(),
            ),
        );
    }
    match tokenize_blocks(content) {
        Err(complaint) => Err(Error::Parse(path, complaint)),
        Ok(blocks) => {
            let ghost all = blocks.deep_view();
            proof {
                lemma_blocks_have_specs(
                    Progress { blocks: seq![], in_deps: false },
                    lines(content@),
                    1,
                );
                assert forall|i: int| 0 <= i < blocks@.len() implies (
                #[trigger] blocks@[i]).specs@.len() > 0 by {
                    assert(all[i].specs.len() > 0);
                }
            }
            match index_blocks(&blocks) {
                Err(complaint) => Err(Error::Parse(path, complaint)),
                Ok(index) => {
                    let packages = package_blocks(blocks, &index);
                    let mut direct: Vec<DirectDep> = Vec::new();
                    assert(direct.deep_view() =~= seq![]);
                    push_direct(&mut direct, &manifest.dependencies, DepType::Production, &index);
                    push_direct(&mut direct, &manifest.dev_dependencies, DepType::Dev, &index);
                    push_direct(
                        &mut direct,
                        &manifest.optional_dependencies,
                        DepType::Optional,
                        &index,
                    );
                    assert(direct.deep_view() =~= direct_deps(manifest@, index@));
                    let mut importers: StringMap<Vec<DirectDep>> = StringMap::new();
                    proof {
                        lemma_put_last(
                            Seq::<(Seq<char>, Seq<DirectDepView>)>::empty(),
                            "."@,
                            direct.deep_view(),
                        );
                    }
                    importers.insert(".".to_string(), direct);
                    let graph = LockfileGraph { importers, packages };
                    assert(graph@.importers =~= seq![("."@, direct_deps(manifest@, index@))]);
                    assert(graph@ =~= graph_of(all, manifest@));
                    Ok(graph)
                },
            }
        },
    }
}

} // verus!
