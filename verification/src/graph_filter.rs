//! Removing what cannot be installed from a lockfile graph.

use vstd::prelude::*;
use crate::lockfile::{
    DepType, DirectDep, DirectDepView, GraphView, LockedPackage, LockfileGraph, PackageView,
};
use crate::platform::{
    is_supported, supports, triple_view, SupportedArchitectures, SupportedView, Triple,
};
use crate::string_map::{
    has_key, key_index, lemma_lookup_at, lemma_put_last, lookup, sorted,
    StringMap,
};

verus! {

/// The packages of a graph by their dependency path.
pub type Packages = Seq<(Seq<char>, PackageView)>;

/// What decides which optional dependencies stay.
pub struct Rules {
    pub supported: SupportedView,
    pub host: Triple,
    pub ignored: Seq<Seq<char>>,
}

/// Whether a package can be installed.
pub open spec fn package_fits(pkg: PackageView, rules: Rules) -> bool {
    supports(pkg.os, pkg.cpu, pkg.libc, rules.supported, rules.host)
}

/// Whether a direct dependency stays: it is not optional, or it is neither ignored by
/// name nor resolved to a package that cannot be installed.
pub open spec fn stays(packages: Packages, rules: Rules, dep: DirectDepView) -> bool {
    dep.dep_type == DepType::Optional ==> {
        &&& !rules.ignored.contains(dep.name)
        &&& lookup(packages, dep.dep_path) matches Some(pkg) ==> package_fits(pkg, rules)
    }
}

/// [`stays`] as a predicate.
pub open spec fn staying(packages: Packages, rules: Rules) -> spec_fn(DirectDepView) -> bool {
    |dep: DirectDepView| stays(packages, rules, dep)
}

/// The importers without the dependencies that do not stay.
pub open spec fn kept_importers(graph: GraphView, rules: Rules) -> Seq<
    (Seq<char>, Seq<DirectDepView>),
> {
    graph.importers.map_values(
        |importer: (Seq<char>, Seq<DirectDepView>)|
            (importer.0, importer.1.filter(staying(graph.packages, rules))),
    )
}

/// The package that a dependency entry leads to: the one at the recorded path, or the
/// one at `name@path`.
pub open spec fn child(packages: Packages, dep: (Seq<char>, Seq<char>)) -> Option<Seq<char>> {
    let qualified = dep.0 + "@"@ + dep.1;
    if has_key(packages, dep.1) {
        Some(dep.1)
    } else if has_key(packages, qualified) {
        Some(qualified)
    } else {
        None
    }
}

/// Whether the package at `from` depends on the package at `to`.
pub open spec fn depends(packages: Packages, from: Seq<char>, to: Seq<char>) -> bool {
    lookup(packages, from) matches Some(pkg) && exists|i: int|
        0 <= i < pkg.dependencies.len() && child(packages, #[trigger] pkg.dependencies[i]) == Some(
            to,
        )
}

/// Whether one of the importers depends directly on the package at `path`.
pub open spec fn is_root(
    importers: Seq<(Seq<char>, Seq<DirectDepView>)>,
    path: Seq<char>,
) -> bool {
    exists|i: int, j: int|
        0 <= i < importers.len() && 0 <= j < importers[i].1.len() && (
        #[trigger] importers[i].1[j]).dep_path == path
}

/// Whether the package at `path` can be reached from an importer in `n` further steps.
pub open spec fn reached_in(
    importers: Seq<(Seq<char>, Seq<DirectDepView>)>,
    packages: Packages,
    path: Seq<char>,
    n: nat,
) -> bool
    decreases n,
{
    if n == 0 {
        is_root(importers, path)
    } else {
        exists|from: Seq<char>|
            #[trigger] depends(packages, from, path) && reached_in(
                importers,
                packages,
                from,
                (n - 1) as nat,
            )
    }
}

/// Whether the package at `path` can be reached from an importer.
pub open spec fn reachable(
    importers: Seq<(Seq<char>, Seq<DirectDepView>)>,
    packages: Packages,
    path: Seq<char>,
) -> bool {
    exists|n: nat| reached_in(importers, packages, path, n)
}

/// [`reachable`] as a predicate on entries.
pub open spec fn reaching(
    importers: Seq<(Seq<char>, Seq<DirectDepView>)>,
    packages: Packages,
) -> spec_fn((Seq<char>, PackageView)) -> bool {
    |entry: (Seq<char>, PackageView)| reachable(importers, packages, entry.0)
}

/// The graph without the direct dependencies that do not stay and without the packages
/// that can then no longer be reached.
pub open spec fn filtered(graph: GraphView, rules: Rules) -> GraphView {
    let importers = kept_importers(graph, rules);
    GraphView { importers, packages: graph.packages.filter(reaching(importers, graph.packages)) }
}

/// Whether a string is one of some strings.
fn is_listed(list: &[String], s: &String) -> (r: bool)
    ensures
        r == list.deep_view().contains(s@),
{
    let ghost all = list.deep_view();
    let mut i: usize = 0;
    while i < list.len()
        invariant
            i <= list@.len(),
            all == list.deep_view(),
            forall|j: int| 0 <= j < i ==> all[j] != s@,
        decreases list.len() - i,
    {
        assert(all[i as int] == list[i as int]@);
        if list[i] == *s {
            return true;
        }
        i += 1;
    }
    false
}

/// Whether a direct dependency stays.
fn keeps(
    dep: &DirectDep,
    packages: &StringMap<LockedPackage>,
    supported: &SupportedArchitectures,
    ignored: &[String],
    host: &(String, String, String),
) -> (r: bool)
    ensures
        r == stays(
            packages@,
            Rules {
                supported: supported@,
                host: triple_view(*host),
                ignored: ignored.deep_view(),
            },
            dep.deep_view(),
        ),
{
    if dep.dep_type != DepType::Optional {
        return true;
    }
    if is_listed(ignored, &dep.name) {
        return false;
    }
    match packages.get(dep.dep_path.as_str()) {
        Some(pkg) => is_supported(
            pkg.os.as_slice(),
            pkg.cpu.as_slice(),
            pkg.libc.as_slice(),
            supported,
            host,
        ),
        None => true,
    }
}

/// The direct dependencies that stay.
fn kept_deps(
    deps: Vec<DirectDep>,
    packages: &StringMap<LockedPackage>,
    supported: &SupportedArchitectures,
    ignored: &[String],
    host: &(String, String, String),
) -> (r: Vec<DirectDep>)
    ensures
        r.deep_view() == deps.deep_view().filter(
            staying(
                packages@,
                Rules {
                    supported: supported@,
                    host: triple_view(*host),
                    ignored: ignored.deep_view(),
                },
            ),
        ),
{
    let ghost all = deps.deep_view();
    let ghost all_raw = deps@;
    let ghost pred = staying(
        packages@,
        Rules { supported: supported@, host: triple_view(*host), ignored: ignored.deep_view() },
    );
    let mut out: Vec<DirectDep> = Vec::new();
    proof {
        reveal(Seq::filter);
        assert(out.deep_view() =~= all.take(0).filter(pred));
    }
    for dep in it: deps
        invariant
            it.seq() == all_raw,
            all == Seq::new(all_raw.len(), |i: int| all_raw[i].deep_view()),
            pred == staying(
                packages@,
                Rules {
                    supported: supported@,
                    host: triple_view(*host),
                    ignored: ignored.deep_view(),
                },
            ),
            out.deep_view() == all.take(it.index()).filter(pred),
    {
        let ghost before = out.deep_view();
        let ghost v = dep.deep_view();
        proof {
            assert(all.take(it.index() + 1) =~= all.take(it.index()).push(v));
            all.take(it.index()).lemma_filter_push(v, pred);
        }
        if keeps(&dep, packages, supported, ignored, host) {
            out.push(dep);
            assert(out.deep_view() =~= before.push(v));
        }
    }
    assert(all.take(all.len() as int) =~= all);
    out
}

/// In the image of sorted entries under a map of their values, the keys ascend as well.
proof fn lemma_sorted_keys<V, W>(a: Seq<(Seq<char>, V)>, b: Seq<(Seq<char>, W)>)
    requires
        sorted(a),
        b.len() <= a.len(),
        forall|i: int| 0 <= i < b.len() ==> (#[trigger] b[i]).0 == a[i].0,
    ensures
        sorted(b),
{
    assert forall|i: int, j: int| 0 <= i < j < b.len() implies crate::string_map::before(
        #[trigger] b[i].0,
        #[trigger] b[j].0,
    ) by {
        assert(b[i].0 == a[i].0);
        assert(b[j].0 == a[j].0);
    }
}

/// Removes the direct dependencies that do not stay.
fn drop_root_deps(
    graph: &mut LockfileGraph,
    supported: &SupportedArchitectures,
    ignored: &[String],
    host: &(String, String, String),
)
    ensures
        final(graph)@.packages == old(graph)@.packages,
        final(graph)@.importers == kept_importers(
            old(graph)@,
            Rules {
                supported: supported@,
                host: triple_view(*host),
                ignored: ignored.deep_view(),
            },
        ),
{
    let ghost rules = Rules {
        supported: supported@,
        host: triple_view(*host),
        ignored: ignored.deep_view(),
    };
    let ghost g = graph@;
    let ghost want = kept_importers(g, rules);
    let mut importers: StringMap<Vec<DirectDep>> = StringMap::new();
    std::mem::swap(&mut importers, &mut graph.importers);
    let entries = importers.into_entries();
    let ghost raw = entries@;
    let ghost n = raw.len();
    let mut kept: StringMap<Vec<DirectDep>> = StringMap::new();
    proof {
        lemma_sorted_keys(g.importers, want);
        assert(kept@ =~= want.take(0));
    }
    for entry in it: entries
        invariant
            it.seq() == raw,
            g.importers == crate::string_map::entries_view(raw),
            rules == (Rules {
                supported: supported@,
                host: triple_view(*host),
                ignored: ignored.deep_view(),
            }),
            graph@.packages == g.packages,
            want == kept_importers(g, rules),
            sorted(want),
            kept@ == want.take(it.index()),
    {
        let ghost i = it.index();
        let ghost (name, deps) = (entry.0@, entry.1.deep_view());
        assert(g.importers[i] == (name, deps));
        let (key, value) = entry;
        let rest = kept_deps(value, &graph.packages, supported, ignored, host);
        proof {
            assert(want[i] == (key@, rest.deep_view()));
            assert forall|j: int| 0 <= j < kept@.len() implies crate::string_map::before(
                (#[trigger] kept@[j]).0,
                key@,
            ) by {
                assert(kept@[j] == want[j]);
                assert(crate::string_map::before(want[j].0, want[i].0));
            }
            lemma_put_last(kept@, key@, rest.deep_view());
        }
        kept.insert(key, rest);
        assert(want.take(i + 1) =~= want.take(i).push(want[i]));
    }
    assert(want.take(want.len() as int) =~= want);
    graph.importers = kept;
}

/// How many flags are not set.
spec fn unset(flags: Seq<bool>) -> nat
    decreases flags.len(),
{
    if flags.len() == 0 {
        0
    } else {
        unset(flags.drop_last()) + if flags.last() {
            0nat
        } else {
            1nat
        }
    }
}

proof fn lemma_unset_update(flags: Seq<bool>, i: int)
    requires
        0 <= i < flags.len(),
        !flags[i],
    ensures
        unset(flags.update(i, true)) < unset(flags),
    decreases flags.len(),
{
    let after = flags.update(i, true);
    if i < flags.len() - 1 {
        assert(after.drop_last() =~= flags.drop_last().update(i, true));
        lemma_unset_update(flags.drop_last(), i);
    } else {
        assert(after.drop_last() =~= flags.drop_last());
    }
}

/// Whether the package at `i` has been visited or is still to be.
spec fn noted(seen: Seq<bool>, stack: Seq<usize>, i: int) -> bool {
    seen[i] || stack.contains(i as usize)
}

/// Whether every package that one of the first `n` dependencies of `pkg` leads to is
/// noted.
spec fn children_noted(
    packages: Packages,
    seen: Seq<bool>,
    stack: Seq<usize>,
    pkg: PackageView,
    n: int,
) -> bool {
    forall|k: int, j: int|
        #![trigger pkg.dependencies[k], packages[j]]
        0 <= k < n && 0 <= j < packages.len() && child(packages, pkg.dependencies[k]) == Some(
            packages[j].0,
        ) ==> noted(seen, stack, j)
}

proof fn lemma_noted_push(seen: Seq<bool>, stack: Seq<usize>, i: int, top: usize)
    requires
        noted(seen, stack, i),
    ensures
        noted(seen, stack.push(top), i),
{
    if !seen[i] {
        let k = choose|k: int| 0 <= k < stack.len() && stack[k] == i as usize;
        assert(stack.push(top)[k] == i as usize);
    }
}

/// Once every root and every dependency of a visited package has been visited, whatever
/// can be reached has been.
proof fn lemma_closed_is_complete(
    importers: Seq<(Seq<char>, Seq<DirectDepView>)>,
    packages: Packages,
    seen: Seq<bool>,
    i: int,
    n: nat,
)
    requires
        sorted(packages),
        seen.len() == packages.len(),
        forall|j: int|
            0 <= j < packages.len() && is_root(importers, (#[trigger] packages[j]).0) ==> seen[j],
        forall|j: int|
            0 <= j < packages.len() && #[trigger] seen[j] ==> children_noted(
                packages,
                seen,
                seq![],
                packages[j].1,
                packages[j].1.dependencies.len() as int,
            ),
        0 <= i < packages.len(),
        reached_in(importers, packages, packages[i].0, n),
    ensures
        seen[i],
    decreases n,
{
    if n > 0 {
        let from = choose|from: Seq<char>| #[trigger]
            depends(packages, from, packages[i].0) && reached_in(
                importers,
                packages,
                from,
                (n - 1) as nat,
            );
        let f = key_index(packages, from);
        assert(packages[f].0 == from);
        lemma_closed_is_complete(importers, packages, seen, f, (n - 1) as nat);
        let pkg = packages[f].1;
        let k = choose|k: int|
            0 <= k < pkg.dependencies.len() && child(packages, #[trigger] pkg.dependencies[k])
                == Some(packages[i].0);
        assert(noted(seen, seq![], i));
    }
}

/// Looks up the package that a dependency entry leads to.
fn child_index(packages: &StringMap<LockedPackage>, name: &String, tail: &String) -> (r: Option<
    usize,
>)
    ensures
        r is Some <==> child(packages@, (name@, tail@)) is Some,
        r matches Some(i) ==> i < packages@.len() && child(packages@, (name@, tail@)) == Some(
            packages@[i as int].0,
        ),
{
    match packages.index_of(tail.as_str()) {
        Some(i) => Some(i),
        None => {
            let mut qualified = name.clone();
            qualified.append("@");
            qualified.append(tail.as_str());
            packages.index_of(qualified.as_str())
        },
    }
}

/// Collects the packages that the importers depend on directly.
fn root_indices(graph: &LockfileGraph) -> (r: Vec<usize>)
    ensures
        forall|k: int|
            0 <= k < r@.len() ==> (#[trigger] r@[k]) < graph@.packages.len() && is_root(
                graph@.importers,
                graph@.packages[r@[k] as int].0,
            ),
        forall|i: int|
            0 <= i < graph@.packages.len() && is_root(
                graph@.importers,
                (#[trigger] graph@.packages[i]).0,
            ) ==> r@.contains(i as usize),
{
    let ghost imp = graph@.importers;
    let ghost pkgs = graph@.packages;
    let count: usize = graph.packages.len();
    let importers: usize = graph.importers.len();
    let mut out: Vec<usize> = Vec::new();
    let mut i: usize = 0;
    while i < importers
        invariant
            importers == imp.len(),
            i <= importers,
            imp == graph@.importers,
            pkgs == graph@.packages,
            sorted(pkgs),
            count == pkgs.len(),
            forall|k: int|
                0 <= k < out@.len() ==> (#[trigger] out@[k]) < pkgs.len() && is_root(
                    imp,
                    pkgs[out@[k] as int].0,
                ),
            forall|a: int, b: int, p: int|
                0 <= a < i && 0 <= b < imp[a].1.len() && 0 <= p < pkgs.len() && (
                #[trigger] imp[a].1[b]).dep_path == (#[trigger] pkgs[p]).0 ==> out@.contains(
                    p as usize,
                ),
        decreases importers - i,
    {
        let deps = graph.importers.value(i);
        assert(deps.deep_view() == imp[i as int].1);
        let mut j: usize = 0;
        while j < deps.len()
            invariant
                i < imp.len(),
                j <= deps@.len(),
                deps.deep_view() == imp[i as int].1,
                imp == graph@.importers,
                pkgs == graph@.packages,
                sorted(pkgs),
                count == pkgs.len(),
                forall|k: int|
                    0 <= k < out@.len() ==> (#[trigger] out@[k]) < pkgs.len() && is_root(
                        imp,
                        pkgs[out@[k] as int].0,
                    ),
                forall|a: int, b: int, p: int|
                    0 <= a <= i && 0 <= b < imp[a].1.len() && (a < i || b < j) && 0 <= p
                        < pkgs.len() && (#[trigger] imp[a].1[b]).dep_path == (
                    #[trigger] pkgs[p]).0 ==> out@.contains(p as usize),
            decreases deps.len() - j,
        {
            let ghost old_out = out@;
            assert(imp[i as int].1[j as int] == deps[j as int].deep_view());
            match graph.packages.index_of(deps[j].dep_path.as_str()) {
                Some(at) => {
                    out.push(at);
                    proof {
                        assert(imp[i as int].1[j as int].dep_path == pkgs[at as int].0);
                        assert(out@.contains(at)) by {
                            assert(out@[out@.len() - 1] == at);
                        }
                        assert forall|p: usize| old_out.contains(p) implies #[trigger] out@.contains(
                            p,
                        ) by {
                            let k = choose|k: int| 0 <= k < old_out.len() && old_out[k] == p;
                            assert(out@[k] == p);
                        }
                        assert forall|a: int, b: int, p: int|
                            0 <= a <= i && 0 <= b < imp[a].1.len() && (a < i || b < j + 1) && 0
                                <= p < pkgs.len() && (#[trigger] imp[a].1[b]).dep_path == (
                            #[trigger] pkgs[p]).0 implies out@.contains(p as usize) by {
                            if a < i || b < j {
                                assert(old_out.contains(p as usize));
                            } else {
                                lemma_lookup_at(pkgs, p);
                            }
                        }
                    }
                },
                None => {
                    proof {
                        assert forall|p: int| 0 <= p < pkgs.len() implies (#[trigger] pkgs[p]).0
                            != imp[i as int].1[j as int].dep_path by {}
                    }
                },
            }
            j += 1;
        }
        i += 1;
    }
    proof {
        assert forall|p: int| 0 <= p < pkgs.len() && is_root(imp, (#[trigger] pkgs[p]).0) implies
            out@.contains(p as usize) by {
            let (a, b) = choose|a: int, b: int|
                0 <= a < imp.len() && 0 <= b < imp[a].1.len() && (#[trigger] imp[a].1[b]).dep_path
                    == pkgs[p].0;
            assert(imp[a].1[b].dep_path == pkgs[p].0);
        }
    }
    out
}

/// Adds the packages that a package depends on to the stack.
fn push_children(
    packages: &StringMap<LockedPackage>,
    pkg: &LockedPackage,
    stack: &mut Vec<usize>,
    seen: &Vec<bool>,
    importers: Ghost<Seq<(Seq<char>, Seq<DirectDepView>)>>,
    from: Ghost<Seq<char>>,
)
    requires
        seen@.len() == packages@.len(),
        lookup(packages@, from@) == Some(pkg.deep_view()),
        reachable(importers@, packages@, from@),
        forall|k: int|
            0 <= k < old(stack)@.len() ==> (#[trigger] old(stack)@[k]) < packages@.len()
                && reachable(importers@, packages@, packages@[old(stack)@[k] as int].0),
    ensures
        forall|k: int|
            0 <= k < final(stack)@.len() ==> (#[trigger] final(stack)@[k]) < packages@.len()
                && reachable(importers@, packages@, packages@[final(stack)@[k] as int].0),
        forall|i: int|
            noted(seen@, old(stack)@, i) ==> #[trigger] noted(seen@, final(stack)@, i),
        children_noted(
            packages@,
            seen@,
            final(stack)@,
            pkg.deep_view(),
            pkg.deep_view().dependencies.len() as int,
        ),
{
    let ghost pkgs = packages@;
    let ghost p = pkg.deep_view();
    let count: usize = pkg.dependencies.len();
    let packages_len: usize = packages.len();
    let mut j: usize = 0;
    while j < count
        invariant
            count == p.dependencies.len(),
            j <= count,
            packages_len == pkgs.len(),
            pkgs == packages@,
            sorted(pkgs),
            p == pkg.deep_view(),
            seen@.len() == pkgs.len(),
            lookup(pkgs, from@) == Some(p),
            reachable(importers@, pkgs, from@),
            forall|k: int|
                0 <= k < stack@.len() ==> (#[trigger] stack@[k]) < pkgs.len() && reachable(
                    importers@,
                    pkgs,
                    pkgs[stack@[k] as int].0,
                ),
            forall|i: int| noted(seen@, old(stack)@, i) ==> #[trigger] noted(seen@, stack@, i),
            children_noted(pkgs, seen@, stack@, p, j as int),
        decreases count - j,
    {
        let ghost before = stack@;
        let name = pkg.dependencies.key(j);
        let tail = pkg.dependencies.value(j);
        assert(p.dependencies[j as int] == (name@, tail@));
        match child_index(packages, name, tail) {
            Some(at) => {
                stack.push(at);
                proof {
                    let n = choose|n: nat| reached_in(importers@, pkgs, from@, n);
                    assert(depends(pkgs, from@, pkgs[at as int].0));
                    assert(reached_in(importers@, pkgs, pkgs[at as int].0, n + 1));
                    assert forall|i: int| noted(seen@, old(stack)@, i) implies #[trigger] noted(
                        seen@,
                        stack@,
                        i,
                    ) by {
                        lemma_noted_push(seen@, before, i, at);
                    }
                    assert forall|k: int, i: int|
                        #![trigger p.dependencies[k], pkgs[i]]
                        0 <= k < j + 1 && 0 <= i < pkgs.len() && child(pkgs, p.dependencies[k])
                            == Some(pkgs[i].0) implies noted(seen@, stack@, i) by {
                        if k < j {
                            assert(noted(seen@, before, i));
                            lemma_noted_push(seen@, before, i, at);
                        } else {
                            lemma_lookup_at(pkgs, i);
                            lemma_lookup_at(pkgs, at as int);
                            assert(stack@[stack@.len() - 1] == i as usize);
                        }
                    }
                }
            },
            None => {},
        }
        j += 1;
    }
}

/// Marks the packages that can be reached from an importer.
fn mark_reachable(graph: &LockfileGraph) -> (seen: Vec<bool>)
    ensures
        seen@.len() == graph@.packages.len(),
        sorted(graph@.packages),
        forall|i: int|
            0 <= i < seen@.len() ==> #[trigger] seen@[i] == reachable(
                graph@.importers,
                graph@.packages,
                graph@.packages[i].0,
            ),
{
    let ghost imp = graph@.importers;
    let ghost pkgs = graph@.packages;
    let count: usize = graph.packages.len();
    let mut seen: Vec<bool> = Vec::new();
    let mut i: usize = 0;
    while i < count
        invariant
            i <= count,
            seen@.len() == i,
            forall|j: int| 0 <= j < i ==> !#[trigger] seen@[j],
        decreases count - i,
    {
        seen.push(false);
        i += 1;
    }
    let mut stack = root_indices(graph);
    proof {
        assert forall|k: int| 0 <= k < stack@.len() implies (#[trigger] stack@[k]) < pkgs.len()
            && reachable(imp, pkgs, pkgs[stack@[k] as int].0) by {
            assert(reached_in(imp, pkgs, pkgs[stack@[k] as int].0, 0));
        }
    }
    loop
        invariant
            count == pkgs.len(),
            imp == graph@.importers,
            pkgs == graph@.packages,
            sorted(pkgs),
            seen@.len() == pkgs.len(),
            forall|k: int|
                0 <= k < stack@.len() ==> (#[trigger] stack@[k]) < pkgs.len() && reachable(
                    imp,
                    pkgs,
                    pkgs[stack@[k] as int].0,
                ),
            forall|j: int|
                0 <= j < seen@.len() && #[trigger] seen@[j] ==> reachable(imp, pkgs, pkgs[j].0),
            forall|j: int|
                0 <= j < pkgs.len() && is_root(imp, (#[trigger] pkgs[j]).0) ==> noted(
                    seen@,
                    stack@,
                    j,
                ),
            forall|j: int|
                0 <= j < pkgs.len() && #[trigger] seen@[j] ==> children_noted(
                    pkgs,
                    seen@,
                    stack@,
                    pkgs[j].1,
                    pkgs[j].1.dependencies.len() as int,
                ),
        ensures
            stack@.len() == 0,
        decreases unset(seen@), stack@.len(),
    {
        let ghost before = stack@;
        let ghost seen_before = seen@;
        match stack.pop() {
            None => {
                break ;
            },
            Some(at) => {
                assert(before[before.len() - 1] == at);
                assert(reachable(imp, pkgs, pkgs[at as int].0));
                assert forall|j: int| noted(seen_before, before, j) && (j as usize) != at implies
                    #[trigger] noted(seen_before, stack@, j) by {
                    if !seen_before[j] {
                        let k = choose|k: int| 0 <= k < before.len() && before[k] == j as usize;
                        assert(stack@[k] == j as usize);
                    }
                }
                if !seen[at] {
                    seen[at] = true;
                    let ghost popped = stack@;
                    proof {
                        lemma_unset_update(seen_before, at as int);
                        lemma_lookup_at(pkgs, at as int);
                        assert forall|j: int| noted(seen_before, before, j) && 0 <= j
                            < pkgs.len() implies #[trigger] noted(seen@, popped, j) by {
                            if (j as usize) != at {
                                assert(noted(seen_before, popped, j));
                            }
                        }
                    }
                    let pkg = graph.packages.value(at);
                    push_children(
                        &graph.packages,
                        pkg,
                        &mut stack,
                        &seen,
                        Ghost(imp),
                        Ghost(pkgs[at as int].0),
                    );
                    proof {
                        assert forall|j: int|
                            0 <= j < pkgs.len() && is_root(
                                imp,
                                (#[trigger] pkgs[j]).0,
                            ) implies noted(seen@, stack@, j) by {
                            assert(noted(seen_before, before, j));
                            assert(noted(seen@, popped, j));
                        }
                        assert forall|j: int|
                            0 <= j < pkgs.len() && #[trigger] seen@[j] implies children_noted(
                            pkgs,
                            seen@,
                            stack@,
                            pkgs[j].1,
                            pkgs[j].1.dependencies.len() as int,
                        ) by {
                            if j != at {
                                assert(seen_before[j]);
                                let q = pkgs[j].1;
                                assert forall|k: int, m: int|
                                    #![trigger q.dependencies[k], pkgs[m]]
                                    0 <= k < q.dependencies.len() && 0 <= m < pkgs.len() && child(
                                        pkgs,
                                        q.dependencies[k],
                                    ) == Some(pkgs[m].0) implies noted(seen@, stack@, m) by {
                                    assert(noted(seen_before, before, m));
                                    assert(noted(seen@, popped, m));
                                }
                            }
                        }
                    }
                } else {
                    proof {
                        assert forall|j: int|
                            0 <= j < pkgs.len() && #[trigger] seen@[j] implies children_noted(
                            pkgs,
                            seen@,
                            stack@,
                            pkgs[j].1,
                            pkgs[j].1.dependencies.len() as int,
                        ) by {
                            let q = pkgs[j].1;
                            assert forall|k: int, m: int|
                                #![trigger q.dependencies[k], pkgs[m]]
                                0 <= k < q.dependencies.len() && 0 <= m < pkgs.len() && child(
                                    pkgs,
                                    q.dependencies[k],
                                ) == Some(pkgs[m].0) implies noted(seen@, stack@, m) by {
                                assert(noted(seen_before, before, m));
                            }
                        }
                    }
                }
            },
        }
    }
    proof {
        assert(stack@ =~= seq![]);
        assert forall|j: int| 0 <= j < seen@.len() implies #[trigger] seen@[j] == reachable(
            imp,
            pkgs,
            pkgs[j].0,
        ) by {
            if reachable(imp, pkgs, pkgs[j].0) {
                let n = choose|n: nat| reached_in(imp, pkgs, pkgs[j].0, n);
                assert forall|m: int|
                    0 <= m < pkgs.len() && is_root(imp, (#[trigger] pkgs[m]).0) implies seen@[m] by {
                    assert(noted(seen@, stack@, m));
                }
                lemma_closed_is_complete(imp, pkgs, seen@, j, n);
            }
        }
    }
    seen
}

/// Removes the optional direct dependencies that are ignored by name or cannot be
/// installed, and then the packages that no importer reaches any more. Optional
/// dependencies of packages stay, since a lockfile does not mark them. `host` is the
/// machine at hand.
pub fn filter_graph(
    graph: &mut LockfileGraph,
    supported: &SupportedArchitectures,
    ignored: &[String],
    host: &(String, String, String),
)
    ensures
        final(graph)@ == filtered(
            old(graph)@,
            Rules {
                supported: supported@,
                host: triple_view(*host),
                ignored: ignored.deep_view(),
            },
        ),
{
    drop_root_deps(graph, supported, ignored, host);
    let seen = mark_reachable(graph);
    let ghost imp = graph@.importers;
    let ghost pkgs = graph@.packages;
    let ghost pred = reaching(imp, pkgs);
    let mut packages: StringMap<LockedPackage> = StringMap::new();
    std::mem::swap(&mut packages, &mut graph.packages);
    let entries = packages.into_entries();
    let ghost raw = entries@;
    let mut kept: StringMap<LockedPackage> = StringMap::new();
    proof {
        reveal(Seq::filter);
        assert(kept@ =~= pkgs.take(0).filter(pred));
    }
    let count: usize = seen.len();
    let mut i: usize = 0;
    for entry in it: entries
        invariant
            it.seq() == raw,
            i == it.index(),
            count == pkgs.len(),
            pkgs == crate::string_map::entries_view(raw),
            sorted(pkgs),
            seen@.len() == pkgs.len(),
            imp == graph@.importers,
            pred == reaching(imp, pkgs),
            forall|j: int| 0 <= j < seen@.len() ==> #[trigger] seen@[j] == pred(pkgs[j]),
            kept@ == pkgs.take(i as int).filter(pred),
            forall|k: int|
                0 <= k < kept@.len() ==> exists|j: int|
                    0 <= j < i && #[trigger] pkgs[j] == #[trigger] kept@[k],
    {
        proof {
            assert(pkgs.take(i + 1) =~= pkgs.take(i as int).push(pkgs[i as int]));
            pkgs.take(i as int).lemma_filter_push(pkgs[i as int], pred);
            assert(pkgs[i as int] == (entry.0@, entry.1.deep_view()));
        }
        if seen[i] {
            let (key, value) = entry;
            let ghost before = kept@;
            proof {
                assert forall|k: int| 0 <= k < kept@.len() implies crate::string_map::before(
                    (#[trigger] kept@[k]).0,
                    key@,
                ) by {
                    let j = choose|j: int|
                        0 <= j < i && #[trigger] pkgs[j] == #[trigger] kept@[k];
                    assert(crate::string_map::before(pkgs[j].0, pkgs[i as int].0));
                }
                lemma_put_last(kept@, key@, value.deep_view());
            }
            kept.insert(key, value);
            proof {
                assert forall|k: int| 0 <= k < kept@.len() implies exists|j: int|
                    0 <= j < i + 1 && #[trigger] pkgs[j] == #[trigger] kept@[k] by {
                    if k < before.len() {
                        assert(kept@[k] == before[k]);
                    } else {
                        assert(pkgs[i as int] == kept@[k]);
                    }
                }
            }
        }
        i += 1;
    }
    assert(pkgs.take(pkgs.len() as int) =~= pkgs);
    graph.packages = kept;
}

proof fn lemma_filter_all<A>(s: Seq<A>, pred: spec_fn(A) -> bool)
    requires
        forall|i: int| 0 <= i < s.len() ==> pred(#[trigger] s[i]),
    ensures
        s.filter(pred) == s,
    decreases s.len(),
{
    reveal(Seq::filter);
    if s.len() > 0 {
        assert forall|i: int| 0 <= i < s.drop_last().len() implies pred(
            #[trigger] s.drop_last()[i],
        ) by {
            assert(s.drop_last()[i] == s[i]);
        }
        lemma_filter_all(s.drop_last(), pred);
        assert(s =~= s.drop_last().push(s.last()));
    }
}

/// A filtered sequence keeps the order of what it keeps.
proof fn lemma_filter_sorted<V>(s: Seq<(Seq<char>, V)>, pred: spec_fn((Seq<char>, V)) -> bool)
    requires
        sorted(s),
    ensures
        sorted(s.filter(pred)),
        forall|i: int|
            0 <= i < s.filter(pred).len() ==> pred(#[trigger] s.filter(pred)[i]) && s.contains(
                s.filter(pred)[i],
            ),
        forall|i: int|
            0 <= i < s.len() && pred(#[trigger] s[i]) ==> s.filter(pred).contains(s[i]),
    decreases s.len(),
{
    reveal(Seq::filter);
    if s.len() > 0 {
        let init = s.drop_last();
        let kept = init.filter(pred);
        let all = s.filter(pred);
        lemma_sorted_keys(s, init);
        lemma_filter_sorted(init, pred);
        assert forall|i: int| 0 <= i < all.len() implies pred(#[trigger] all[i]) && s.contains(
            all[i],
        ) by {
            if i < kept.len() {
                assert(all[i] == kept[i]);
                let j = choose|j: int| 0 <= j < init.len() && init[j] == kept[i];
                assert(s[j] == all[i]);
            } else {
                assert(s[s.len() - 1] == all[i]);
            }
        }
        assert forall|i: int| 0 <= i < s.len() && pred(#[trigger] s[i]) implies all.contains(
            s[i],
        ) by {
            if i < init.len() {
                assert(init[i] == s[i]);
                let j = choose|j: int| 0 <= j < kept.len() && kept[j] == init[i];
                assert(all[j] == s[i]);
            } else {
                assert(all[all.len() - 1] == s[i]);
            }
        }
        assert forall|i: int, j: int| 0 <= i < j < all.len() implies crate::string_map::before(
            #[trigger] all[i].0,
            #[trigger] all[j].0,
        ) by {
            assert(all[i] == kept[i]);
            if j < kept.len() {
                assert(all[j] == kept[j]);
                assert(crate::string_map::before(kept[i].0, kept[j].0));
            } else {
                let k = choose|k: int| 0 <= k < init.len() && init[k] == kept[i];
                assert(s[k] == all[i]);
                assert(crate::string_map::before(s[k].0, s[s.len() - 1].0));
            }
        }
    }
}

/// A package is in the filtered graph exactly if it was in the graph and can be reached
/// from the direct dependencies that stay; it is then unchanged.
pub proof fn law_reachable_packages_stay(graph: GraphView, rules: Rules, path: Seq<char>)
    requires
        sorted(graph.packages),
    ensures
        sorted(filtered(graph, rules).packages),
        lookup(filtered(graph, rules).packages, path) == if reachable(
            kept_importers(graph, rules),
            graph.packages,
            path,
        ) {
            lookup(graph.packages, path)
        } else {
            None
        },
{
    let pred = reaching(kept_importers(graph, rules), graph.packages);
    let after = graph.packages.filter(pred);
    lemma_filter_sorted(graph.packages, pred);
    if has_key(after, path) {
        let i = key_index(after, path);
        let j = choose|j: int| 0 <= j < graph.packages.len() && graph.packages[j] == after[i];
        lemma_lookup_at(after, i);
        lemma_lookup_at(graph.packages, j);
        assert(pred(after[i]));
    } else if has_key(graph.packages, path) && reachable(
        kept_importers(graph, rules),
        graph.packages,
        path,
    ) {
        let j = key_index(graph.packages, path);
        assert(pred(graph.packages[j]));
        let i = choose|i: int| 0 <= i < after.len() && after[i] == graph.packages[j];
        assert(after[i].0 == path);
        assert(false);
    }
}

/// A direct dependency that is not optional is never removed, nor is the package that it
/// resolved to.
pub proof fn law_required_deps_stay(graph: GraphView, rules: Rules, i: int, j: int)
    requires
        sorted(graph.packages),
        0 <= i < graph.importers.len(),
        0 <= j < graph.importers[i].1.len(),
        graph.importers[i].1[j].dep_type != DepType::Optional,
    ensures
        filtered(graph, rules).importers[i].1.contains(graph.importers[i].1[j]),
        lookup(filtered(graph, rules).packages, graph.importers[i].1[j].dep_path) == lookup(
            graph.packages,
            graph.importers[i].1[j].dep_path,
        ),
{
    let deps = graph.importers[i].1;
    let kept = kept_importers(graph, rules);
    let pred = staying(graph.packages, rules);
    assert(pred(deps[j]));
    deps.lemma_filter_contains(pred, j);
    let k = choose|k: int| 0 <= k < kept[i].1.len() && kept[i].1[k] == deps[j];
    assert(kept[i].1[k].dep_path == deps[j].dep_path);
    assert(is_root(kept, deps[j].dep_path));
    assert(reached_in(kept, graph.packages, deps[j].dep_path, 0));
    law_reachable_packages_stay(graph, rules, deps[j].dep_path);
}

/// What a path leads to in the graph, it leads to in the filtered graph.
proof fn lemma_reached_in_filtered(graph: GraphView, rules: Rules, path: Seq<char>, n: nat)
    requires
        sorted(graph.packages),
        has_key(graph.packages, path),
        reached_in(kept_importers(graph, rules), graph.packages, path, n),
    ensures
        reached_in(kept_importers(graph, rules), filtered(graph, rules).packages, path, n),
    decreases n,
{
    let imp = kept_importers(graph, rules);
    let pkgs = graph.packages;
    let after = filtered(graph, rules).packages;
    if n > 0 {
        let from = choose|from: Seq<char>| #[trigger]
            depends(pkgs, from, path) && reached_in(imp, pkgs, from, (n - 1) as nat);
        lemma_reached_in_filtered(graph, rules, from, (n - 1) as nat);
        assert(reachable(imp, pkgs, from));
        law_reachable_packages_stay(graph, rules, from);
        let pkg = lookup(pkgs, from)->0;
        let k = choose|k: int|
            0 <= k < pkg.dependencies.len() && child(pkgs, #[trigger] pkg.dependencies[k]) == Some(
                path,
            );
        let dep = pkg.dependencies[k];
        assert(reachable(imp, pkgs, path));
        law_reachable_packages_stay(graph, rules, path);
        law_reachable_packages_stay(graph, rules, dep.1);
        assert(child(after, pkg.dependencies[k]) == Some(path));
        assert(depends(after, from, path));
    }
}

/// Filtering a graph a second time changes nothing.
pub proof fn law_filter_idempotent(graph: GraphView, rules: Rules)
    requires
        sorted(graph.packages),
    ensures
        filtered(filtered(graph, rules), rules) == filtered(graph, rules),
{
    let once = filtered(graph, rules);
    let imp = kept_importers(graph, rules);
    let again = kept_importers(once, rules);
    let pred = staying(once.packages, rules);
    assert forall|i: int| 0 <= i < imp.len() implies #[trigger] again[i] == imp[i] by {
        let deps = imp[i].1;
        let first = staying(graph.packages, rules);
        assert forall|j: int| 0 <= j < deps.len() implies pred(#[trigger] deps[j]) by {
            graph.importers[i].1.lemma_filter_pred(first, j);
            assert(first(deps[j]));
            law_reachable_packages_stay(graph, rules, deps[j].dep_path);
        }
        lemma_filter_all(deps, pred);
    }
    assert(again =~= imp);
    let keep = reaching(imp, once.packages);
    lemma_filter_sorted(graph.packages, reaching(imp, graph.packages));
    assert forall|i: int| 0 <= i < once.packages.len() implies keep(#[trigger] once.packages[i]) by {
        let path = once.packages[i].0;
        assert(reaching(imp, graph.packages)(once.packages[i]));
        let n = choose|n: nat| reached_in(imp, graph.packages, path, n);
        lemma_lookup_at(once.packages, i);
        law_reachable_packages_stay(graph, rules, path);
        lemma_reached_in_filtered(graph, rules, path, n);
        assert(reachable(imp, once.packages, path));
    }
    lemma_filter_all(once.packages, keep);
}

/// Every importer keeps its dependencies in order, without those that are optional and
/// either ignored by name or resolved to a package that is not supported.
pub proof fn law_every_importer_is_filtered(graph: GraphView, rules: Rules, i: int)
    requires
        0 <= i < graph.importers.len(),
    ensures
        filtered(graph, rules).importers.len() == graph.importers.len(),
        filtered(graph, rules).importers[i].0 == graph.importers[i].0,
        filtered(graph, rules).importers[i].1 == graph.importers[i].1.filter(
            |dep: DirectDepView|
                !(dep.dep_type == DepType::Optional && (rules.ignored.contains(dep.name) || (
                has_key(graph.packages, dep.dep_path) && {
                    let package = lookup(graph.packages, dep.dep_path)->0;
                    !supports(
                        package.os,
                        package.cpu,
                        package.libc,
                        rules.supported,
                        rules.host,
                    )
                }))),
        ),
{
    let inline = |dep: DirectDepView|
        !(dep.dep_type == DepType::Optional && (rules.ignored.contains(dep.name) || (has_key(
            graph.packages,
            dep.dep_path,
        ) && {
            let package = lookup(graph.packages, dep.dep_path)->0;
            !supports(package.os, package.cpu, package.libc, rules.supported, rules.host)
        })));
    let pred = staying(graph.packages, rules);
    assert forall|dep: DirectDepView| #[trigger] inline(dep) == pred(dep) by {}
    assert(inline =~= pred);
}

/// No importer of the filtered graph, whatever its path, has an optional dependency that is
/// ignored by name or that resolved to a package which is not supported.
pub proof fn law_no_unfit_dependency_is_left(graph: GraphView, rules: Rules, i: int, j: int)
    requires
        0 <= i < filtered(graph, rules).importers.len(),
        0 <= j < filtered(graph, rules).importers[i].1.len(),
        filtered(graph, rules).importers[i].1[j].dep_type == DepType::Optional,
    ensures
        !rules.ignored.contains(filtered(graph, rules).importers[i].1[j].name),
        lookup(
            graph.packages,
            filtered(graph, rules).importers[i].1[j].dep_path,
        ) matches Some(package) ==> supports(
            package.os,
            package.cpu,
            package.libc,
            rules.supported,
            rules.host,
        ),
{
    let pred = staying(graph.packages, rules);
    let deps = graph.importers[i].1;
    deps.lemma_filter_pred(pred, j);
    assert(pred(deps.filter(pred)[j]));
}

/// A dependency that is not optional stays, and so does an optional one that is neither
/// ignored nor resolved to a package which is not supported; for every importer.
pub proof fn law_fit_dependencies_are_left(graph: GraphView, rules: Rules, i: int, j: int)
    requires
        0 <= i < graph.importers.len(),
        0 <= j < graph.importers[i].1.len(),
        graph.importers[i].1[j].dep_type == DepType::Optional ==> !rules.ignored.contains(
            graph.importers[i].1[j].name,
        ) && (lookup(graph.packages, graph.importers[i].1[j].dep_path) matches Some(package)
            ==> supports(package.os, package.cpu, package.libc, rules.supported, rules.host)),
    ensures
        filtered(graph, rules).importers[i].1.contains(graph.importers[i].1[j]),
{
    let pred = staying(graph.packages, rules);
    assert(pred(graph.importers[i].1[j]));
    graph.importers[i].1.lemma_filter_contains(pred, j);
}

/// The package that a direct dependency of the filtered graph resolved to is kept.
pub proof fn law_direct_packages_are_kept(graph: GraphView, rules: Rules, i: int, j: int)
    requires
        sorted(graph.packages),
        0 <= i < filtered(graph, rules).importers.len(),
        0 <= j < filtered(graph, rules).importers[i].1.len(),
    ensures
        lookup(
            filtered(graph, rules).packages,
            filtered(graph, rules).importers[i].1[j].dep_path,
        ) == lookup(graph.packages, filtered(graph, rules).importers[i].1[j].dep_path),
{
    let kept = kept_importers(graph, rules);
    let path = kept[i].1[j].dep_path;
    assert(is_root(kept, path));
    assert(reached_in(kept, graph.packages, path, 0));
    law_reachable_packages_stay(graph, rules, path);
}

/// What a kept package depends on is kept: the package at the recorded path, or else the
/// one at `name@path`.
pub proof fn law_dependencies_are_kept(graph: GraphView, rules: Rules, from: Seq<char>, k: int)
    requires
        sorted(graph.packages),
        has_key(filtered(graph, rules).packages, from),
        0 <= k < lookup(graph.packages, from)->0.dependencies.len(),
    ensures
        ({
            let after = filtered(graph, rules).packages;
            let (name, path) = lookup(graph.packages, from)->0.dependencies[k];
            let qualified = name + "@"@ + path;
            &&& has_key(graph.packages, path) ==> lookup(after, path) == lookup(
                graph.packages,
                path,
            )
            &&& !has_key(graph.packages, path) && has_key(graph.packages, qualified) ==> lookup(
                after,
                qualified,
            ) == lookup(graph.packages, qualified)
        }),
{
    let imp = kept_importers(graph, rules);
    let pkgs = graph.packages;
    law_reachable_packages_stay(graph, rules, from);
    let n = choose|n: nat| reached_in(imp, pkgs, from, n);
    let package = lookup(pkgs, from)->0;
    let (name, path) = package.dependencies[k];
    let qualified = name + "@"@ + path;
    let to = if has_key(pkgs, path) {
        path
    } else {
        qualified
    };
    if has_key(pkgs, to) {
        assert(child(pkgs, package.dependencies[k]) == Some(to));
        assert(depends(pkgs, from, to));
        assert(reached_in(imp, pkgs, to, n + 1));
        law_reachable_packages_stay(graph, rules, to);
    }
}

/// Nothing else is kept: every set of paths that holds those of the direct dependencies and,
/// with a package, those of what it depends on, holds the paths of all kept packages.
pub proof fn law_nothing_else_is_kept(graph: GraphView, rules: Rules, paths: Set<Seq<char>>)
    requires
        sorted(graph.packages),
        forall|i: int, j: int|
            #![trigger filtered(graph, rules).importers[i].1[j]]
            0 <= i < filtered(graph, rules).importers.len() && 0 <= j < filtered(
                graph,
                rules,
            ).importers[i].1.len() ==> paths.contains(
                filtered(graph, rules).importers[i].1[j].dep_path,
            ),
        forall|i: int, k: int|
            #![trigger graph.packages[i].1.dependencies[k]]
            0 <= i < graph.packages.len() && paths.contains(graph.packages[i].0) && 0 <= k
                < graph.packages[i].1.dependencies.len() ==> {
                let (name, path) = graph.packages[i].1.dependencies[k];
                if has_key(graph.packages, path) {
                    paths.contains(path)
                } else {
                    has_key(graph.packages, name + "@"@ + path) ==> paths.contains(
                        name + "@"@ + path,
                    )
                }
            },
    ensures
        forall|path: Seq<char>| #[trigger]
            has_key(filtered(graph, rules).packages, path) ==> paths.contains(path),
{
    let imp = kept_importers(graph, rules);
    assert forall|path: Seq<char>| #[trigger]
        has_key(filtered(graph, rules).packages, path) implies paths.contains(path) by {
        law_reachable_packages_stay(graph, rules, path);
        let n = choose|n: nat| reached_in(imp, graph.packages, path, n);
        lemma_reached_is_held(graph, rules, paths, path, n);
    }
}

proof fn lemma_reached_is_held(
    graph: GraphView,
    rules: Rules,
    paths: Set<Seq<char>>,
    path: Seq<char>,
    n: nat,
)
    requires
        sorted(graph.packages),
        reached_in(kept_importers(graph, rules), graph.packages, path, n),
        forall|i: int, j: int|
            #![trigger filtered(graph, rules).importers[i].1[j]]
            0 <= i < filtered(graph, rules).importers.len() && 0 <= j < filtered(
                graph,
                rules,
            ).importers[i].1.len() ==> paths.contains(
                filtered(graph, rules).importers[i].1[j].dep_path,
            ),
        forall|i: int, k: int|
            #![trigger graph.packages[i].1.dependencies[k]]
            0 <= i < graph.packages.len() && paths.contains(graph.packages[i].0) && 0 <= k
                < graph.packages[i].1.dependencies.len() ==> {
                let (name, path) = graph.packages[i].1.dependencies[k];
                if has_key(graph.packages, path) {
                    paths.contains(path)
                } else {
                    has_key(graph.packages, name + "@"@ + path) ==> paths.contains(
                        name + "@"@ + path,
                    )
                }
            },
    ensures
        paths.contains(path),
    decreases n,
{
    let imp = kept_importers(graph, rules);
    let pkgs = graph.packages;
    if n == 0 {
        let (i, j) = choose|i: int, j: int|
            0 <= i < imp.len() && 0 <= j < imp[i].1.len() && (#[trigger] imp[i].1[j]).dep_path
                == path;
        assert(filtered(graph, rules).importers[i].1[j].dep_path == path);
    } else {
        let from = choose|from: Seq<char>| #[trigger]
            depends(pkgs, from, path) && reached_in(imp, pkgs, from, (n - 1) as nat);
        lemma_reached_is_held(graph, rules, paths, from, (n - 1) as nat);
        let at = key_index(pkgs, from);
        let package = lookup(pkgs, from)->0;
        let k = choose|k: int|
            0 <= k < package.dependencies.len() && child(pkgs, #[trigger] package.dependencies[k])
                == Some(path);
        assert(pkgs[at].1.dependencies[k] == package.dependencies[k]);
    }
}

/// The kept packages stand in their order, unchanged.
pub proof fn law_packages_are_unchanged(graph: GraphView, rules: Rules, path: Seq<char>)
    requires
        sorted(graph.packages),
        has_key(filtered(graph, rules).packages, path),
    ensures
        sorted(filtered(graph, rules).packages),
        lookup(filtered(graph, rules).packages, path) == lookup(graph.packages, path),
{
    law_reachable_packages_stay(graph, rules, path);
}

} // verus!
