//! Paths as lists of components.

use vstd::prelude::*;

verus! {

/// A component of a path. `T` is the type of names: `String`, or the platform's own.
#[derive(Debug, PartialEq, Eq)]
pub enum PathComponent<T> {
    /// A drive or a share, as in `C:`.
    Prefix(T),
    RootDir,
    /// `.`
    CurDir,
    /// `..`
    ParentDir,
    Normal(T),
}

/// Whether a component is one that a following `..` takes back.
pub open spec fn steps_back<T>(component: PathComponent<T>) -> bool {
    !(component is RootDir) && !(component is Prefix)
}

/// The path without its `.` components, each `..` taking back the component before it.
/// At the start of the path, or behind a root or a prefix, there is nothing to take
/// back and `..` stays.
pub open spec fn normalized<T>(path: Seq<PathComponent<T>>) -> Seq<PathComponent<T>>
    decreases path.len(),
{
    if path.len() == 0 {
        seq![]
    } else {
        let done = normalized(path.drop_last());
        match path.last() {
            PathComponent::CurDir => done,
            PathComponent::ParentDir => if done.len() > 0 && steps_back(done.last()) {
                done.drop_last()
            } else {
                done.push(PathComponent::ParentDir)
            },
            other => done.push(other),
        }
    }
}

/// The path without its last component, unless it ends in a root or a prefix.
pub open spec fn parent_of<T>(path: Seq<PathComponent<T>>) -> Option<Seq<PathComponent<T>>> {
    if path.len() > 0 && steps_back(path.last()) {
        Some(path.drop_last())
    } else {
        None
    }
}

/// Whether a path holds no `.`, and a `..` only at its start or behind a root or a prefix.
pub open spec fn is_normal<T>(path: Seq<PathComponent<T>>) -> bool {
    forall|i: int|
        0 <= i < path.len() ==> {
            &&& !(#[trigger] path[i] is CurDir)
            &&& path[i] is ParentDir && i > 0 ==> !steps_back(path[i - 1])
        }
}

/// Collapses `.` and `..` components without looking at the file system.
pub fn normalize_path<T>(path: Vec<PathComponent<T>>) -> (r: Vec<PathComponent<T>>)
    ensures
        r@ == normalized(path@),
{
    let ghost p = path@;
    let mut out: Vec<PathComponent<T>> = Vec::new();
    for component in it: path
        invariant
            it.seq() == p,
            out@ == normalized(p.take(it.index())),
    {
        assert(p.take(it.index() + 1).drop_last() =~= p.take(it.index()));
        match component {
            PathComponent::CurDir => {},
            PathComponent::ParentDir => {
                let back: bool = if out.len() == 0 {
                    false
                } else {
                    match &out[out.len() - 1] {
                        PathComponent::RootDir => false,
                        PathComponent::Prefix(_) => false,
                        _ => true,
                    }
                };
                if back {
                    out.pop();
                } else {
                    out.push(PathComponent::ParentDir);
                }
            },
            other => {
                out.push(other);
            },
        }
    }
    assert(p.take(p.len() as int) =~= p);
    out
}

/// The path without its last component, unless it ends in a root or a prefix.
pub fn parent<T>(path: Vec<PathComponent<T>>) -> (r: Option<Vec<PathComponent<T>>>)
    ensures
        r is Some <==> parent_of(path@) is Some,
        r matches Some(dir) ==> parent_of(path@) == Some(dir@),
{
    let mut path = path;
    match path.pop() {
        None => None,
        Some(PathComponent::RootDir) => None,
        Some(PathComponent::Prefix(_)) => None,
        Some(_) => Some(path),
    }
}

/// A normalized path holds no `.`, and `..` only where there is nothing to take back.
pub proof fn law_normalized_is_normal<T>(path: Seq<PathComponent<T>>)
    ensures
        is_normal(normalized(path)),
    decreases path.len(),
{
    if path.len() > 0 {
        law_normalized_is_normal(path.drop_last());
    }
}

/// A path that holds no `.`, and `..` only where there is nothing to take back, is left
/// as it is.
pub proof fn law_normal_path_is_kept<T>(path: Seq<PathComponent<T>>)
    requires
        is_normal(path),
    ensures
        normalized(path) == path,
    decreases path.len(),
{
    if path.len() > 0 {
        let init = path.drop_last();
        assert forall|i: int| 0 <= i < init.len() implies {
            &&& !(#[trigger] init[i] is CurDir)
            &&& init[i] is ParentDir && i > 0 ==> !steps_back(init[i - 1])
        } by {
            assert(init[i] == path[i]);
        }
        law_normal_path_is_kept(init);
        assert(path =~= init.push(path.last()));
        assert(!(path[path.len() - 1] is CurDir));
    }
}

/// Normalizing twice is normalizing once.
pub proof fn law_normalize_idempotent<T>(path: Seq<PathComponent<T>>)
    ensures
        normalized(normalized(path)) == normalized(path),
{
    law_normalized_is_normal(path);
    law_normal_path_is_kept(normalized(path));
}

/// A name followed by `..` adds nothing to a path.
pub proof fn law_name_then_parent<T>(path: Seq<PathComponent<T>>, name: T)
    ensures
        normalized(path.push(PathComponent::Normal(name)).push(PathComponent::ParentDir))
            == normalized(path),
{
    let named = path.push(PathComponent::Normal(name));
    assert(named.push(PathComponent::ParentDir).drop_last() =~= named);
    assert(named.drop_last() =~= path);
    assert(normalized(named) == normalized(path).push(PathComponent::Normal(name)));
    assert(normalized(path).push(PathComponent::Normal(name)).drop_last() =~= normalized(path));
}

/// A `.` adds nothing to a path.
pub proof fn law_cur_dir_adds_nothing<T>(path: Seq<PathComponent<T>>)
    ensures
        normalized(path.push(PathComponent::CurDir)) == normalized(path),
{
    assert(path.push(PathComponent::CurDir).drop_last() =~= path);
}

/// A name, a root or a prefix is added to what comes before it, whatever that is.
pub proof fn law_names_are_added<T>(path: Seq<PathComponent<T>>, component: PathComponent<T>)
    requires
        component is Normal || component is RootDir || component is Prefix,
    ensures
        normalized(path.push(component)) == normalized(path).push(component),
{
    assert(path.push(component).drop_last() =~= path);
}

/// A `..` takes back the last component of what comes before it. It is added where that is
/// empty or ends in a root or a prefix.
pub proof fn law_parent_takes_back<T>(path: Seq<PathComponent<T>>)
    ensures
        ({
            let before = normalized(path);
            let after = normalized(path.push(PathComponent::ParentDir));
            if before.len() == 0 || before.last() is RootDir || before.last() is Prefix {
                after == before.push(PathComponent::ParentDir)
            } else {
                after == before.take(before.len() - 1)
            }
        }),
{
    assert(path.push(PathComponent::ParentDir).drop_last() =~= path);
    let before = normalized(path);
    if before.len() > 0 {
        assert(before.drop_last() =~= before.take(before.len() - 1));
    }
}

/// The directory of a path that ends in a name, a `.` or a `..` is what comes before it. A
/// path that is empty or ends in a root or a prefix is in no directory.
pub proof fn law_parent<T>(dir: Seq<PathComponent<T>>, last: PathComponent<T>)
    ensures
        last is Normal || last is CurDir || last is ParentDir ==> parent_of(dir.push(last)) == Some(
            dir,
        ),
        last is RootDir || last is Prefix ==> parent_of(dir.push(last)) is None,
        parent_of(Seq::<PathComponent<T>>::empty()) is None,
{
    assert(dir.push(last).drop_last() =~= dir);
}

} // verus!
