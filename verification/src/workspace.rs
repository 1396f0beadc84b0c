//! The packages of a workspace.

use vstd::prelude::*;
use crate::error::Error;
use crate::path::{parent, parent_of, PathComponent};

verus! {

/// What reading the configuration of a workspace can fail with.
#[derive(Debug)]
pub enum ConfigError<P, E> {
    Io(P, E),
    YamlParse(P, String),
    /// Anything else, in words.
    Other(String),
}

/// The failure to find the packages of a workspace whose configuration cannot be read. A
/// failure that names no file is reported at the directory of the project.
pub fn config_failure<P, E>(error: ConfigError<P, E>, project_dir: P) -> (r: Error<P, E>)
    ensures
        r == match error {
            ConfigError::Io(path, cause) => Error::Io(path, cause),
            ConfigError::YamlParse(path, complaint) => Error::Parse(path, complaint),
            ConfigError::Other(complaint) => Error::Parse(project_dir, complaint),
        },
{
    match error {
        ConfigError::Io(path, cause) => Error::Io(path, cause),
        ConfigError::YamlParse(path, complaint) => Error::Parse(path, complaint),
        ConfigError::Other(complaint) => Error::Parse(project_dir, complaint),
    }
}

/// The relative paths to join to the directory of the project, in order, for the manifests
/// that a pattern of the workspace asks for.
pub fn manifest_pattern(pattern: &str) -> (r: Vec<String>)
    ensures
        r.deep_view() == seq![pattern@, "package.json"@],
{
    let mut r: Vec<String> = Vec::new();
    r.push(pattern.to_string());
    r.push("package.json".to_string());
    assert(r.deep_view() =~= seq![pattern@, "package.json"@]);
    r
}

/// A path as the list of its components.
pub type Components<T> = Vec<PathComponent<T>>;

/// The view of some paths.
pub open spec fn paths_view<T>(paths: Seq<Components<T>>) -> Seq<Seq<PathComponent<T>>> {
    Seq::new(paths.len(), |i: int| paths[i]@)
}

/// The directories of the manifests that one pattern matched. A match that could not be
/// read counts for nothing.
pub open spec fn dirs_of_matches<T>(matches: Seq<Option<Components<T>>>) -> Seq<
    Seq<PathComponent<T>>,
>
    decreases matches.len(),
{
    if matches.len() == 0 {
        seq![]
    } else {
        let rest = dirs_of_matches(matches.drop_last());
        match matches.last() {
            Some(path) => match parent_of(path@) {
                Some(dir) => rest.push(dir),
                None => rest,
            },
            None => rest,
        }
    }
}

/// The directories of the manifests that the patterns matched, pattern by pattern. A
/// pattern that is malformed counts for nothing.
pub open spec fn dirs_of_patterns<T>(found: Seq<Option<Vec<Option<Components<T>>>>>) -> Seq<
    Seq<PathComponent<T>>,
>
    decreases found.len(),
{
    if found.len() == 0 {
        seq![]
    } else {
        let rest = dirs_of_patterns(found.drop_last());
        match found.last() {
            Some(matches) => rest + dirs_of_matches(matches@),
            None => rest,
        }
    }
}

/// Adds the directories of the manifests that one pattern matched.
fn push_dirs<T>(packages: &mut Vec<Components<T>>, matches: Vec<Option<Components<T>>>)
    ensures
        paths_view(final(packages)@) == paths_view(old(packages)@) + dirs_of_matches(matches@),
{
    let ghost start = paths_view(packages@);
    let ghost all = matches@;
    assert(start + dirs_of_matches(all.take(0)) =~= start);
    for entry in it: matches
        invariant
            it.seq() == all,
            paths_view(packages@) == start + dirs_of_matches(all.take(it.index())),
    {
        assert(all.take(it.index() + 1).drop_last() =~= all.take(it.index()));
        if let Some(path) = entry {
            if let Some(dir) = parent(path) {
                let ghost prior = paths_view(packages@);
                packages.push(dir);
                assert(paths_view(packages@) =~= prior.push(dir@));
                assert(paths_view(packages@) =~= start + dirs_of_matches(
                    all.take(it.index()),
                ).push(dir@));
            }
        }
    }
    assert(all.take(all.len() as int) =~= all);
}

/// The directories of a workspace's packages, from what its patterns matched: for each
/// pattern the manifests in order, `None` for one that could not be read, or `None` if the
/// pattern is malformed.
pub fn find_workspace_packages<T>(found: Vec<Option<Vec<Option<Components<T>>>>>) -> (r: Vec<
    Components<T>,
>)
    ensures
        paths_view(r@) == dirs_of_patterns(found@),
{
    let ghost all = found@;
    let mut packages: Vec<Components<T>> = Vec::new();
    assert(paths_view(packages@) =~= dirs_of_patterns(all.take(0)));
    for matches in it: found
        invariant
            it.seq() == all,
            paths_view(packages@) == dirs_of_patterns(all.take(it.index())),
    {
        assert(all.take(it.index() + 1).drop_last() =~= all.take(it.index()));
        if let Some(entries) = matches {
            push_dirs(&mut packages, entries);
        }
    }
    assert(all.take(all.len() as int) =~= all);
    packages
}

/// What several patterns matched is what each of them matched, in order.
pub proof fn law_patterns_add_up<T>(
    a: Seq<Option<Vec<Option<Components<T>>>>>,
    b: Seq<Option<Vec<Option<Components<T>>>>>,
)
    ensures
        dirs_of_patterns(a + b) == dirs_of_patterns(a) + dirs_of_patterns(b),
    decreases b.len(),
{
    if b.len() == 0 {
        assert(a + b =~= a);
        assert(dirs_of_patterns(a) + dirs_of_patterns(b) =~= dirs_of_patterns(a));
    } else {
        assert((a + b).drop_last() =~= a + b.drop_last());
        assert((a + b).last() == b.last());
        law_patterns_add_up(a, b.drop_last());
        assert(dirs_of_patterns(a + b) =~= dirs_of_patterns(a) + dirs_of_patterns(b));
    }
}

/// The directories of several matches are those of each of them, in order.
pub proof fn law_matches_add_up<T>(a: Seq<Option<Components<T>>>, b: Seq<Option<Components<T>>>)
    ensures
        dirs_of_matches(a + b) == dirs_of_matches(a) + dirs_of_matches(b),
    decreases b.len(),
{
    if b.len() == 0 {
        assert(a + b =~= a);
        assert(dirs_of_matches(a) + dirs_of_matches(b) =~= dirs_of_matches(a));
    } else {
        assert((a + b).drop_last() =~= a + b.drop_last());
        assert((a + b).last() == b.last());
        law_matches_add_up(a, b.drop_last());
        assert(dirs_of_matches(a + b) =~= dirs_of_matches(a) + dirs_of_matches(b));
    }
}

/// A malformed pattern gives nothing, any other the directories of its matches. A match
/// that could not be read gives nothing, any other its directory if it is in one.
pub proof fn law_single_match<T>(
    matches: Vec<Option<Components<T>>>,
    path: Components<T>,
)
    ensures
        dirs_of_patterns(seq![None::<Vec<Option<Components<T>>>>]).len() == 0,
        dirs_of_patterns(seq![Some(matches)]) == dirs_of_matches(matches@),
        dirs_of_matches(seq![None::<Components<T>>]).len() == 0,
        parent_of(path@) matches Some(dir) ==> dirs_of_matches(seq![Some(path)]) == seq![dir],
        parent_of(path@) is None ==> dirs_of_matches(seq![Some(path)]).len() == 0,
{
    let no_pattern = seq![None::<Vec<Option<Components<T>>>>];
    let pattern = seq![Some(matches)];
    let no_match = seq![None::<Components<T>>];
    let one = seq![Some(path)];
    assert(no_pattern.drop_last().len() == 0);
    assert(pattern.drop_last().len() == 0);
    assert(no_match.drop_last().len() == 0);
    assert(one.drop_last().len() == 0);
    assert(dirs_of_patterns(pattern.drop_last()) =~= seq![]);
    assert(dirs_of_matches(one.drop_last()) =~= seq![]);
    assert(dirs_of_patterns(pattern) =~= dirs_of_matches(matches@));
    assert(dirs_of_patterns(no_pattern.drop_last()) =~= seq![]);
    assert(dirs_of_matches(no_match.drop_last()) =~= seq![]);
    if let Some(dir) = parent_of(path@) {
        assert(dirs_of_matches(one) =~= seq![dir]);
    }
}

} // verus!
