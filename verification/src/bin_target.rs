//! The path from the directory of the binaries to the file that a binary stands for.

use vstd::prelude::*;
use vstd::slice::slice_subrange;
use crate::host::Host;
use crate::lockfile::text_option;
use crate::path::{law_name_then_parent, normalized, PathComponent};
use crate::text::{
    chars_of, lacks, lemma_find_at, lemma_split_add, lemma_split_lacks, lemma_split_one,
    replace, replaced, split, string_of,
};

verus! {

/// The parts that are neither empty nor `.`.
pub open spec fn real_parts(parts: Seq<Seq<char>>) -> Seq<Seq<char>>
    decreases parts.len(),
{
    if parts.len() == 0 {
        seq![]
    } else if parts.last().len() == 0 || parts.last() == "."@ {
        real_parts(parts.drop_last())
    } else {
        real_parts(parts.drop_last()).push(parts.last())
    }
}

/// The parts of a path between its slashes.
pub open spec fn path_parts(path: Seq<char>) -> Seq<Seq<char>> {
    real_parts(split(path, '/'))
}

/// Whether a part could be read as a drive.
pub open spec fn like_drive(part: Seq<char>) -> bool {
    part.len() >= 2 && part[1] == ':'
}

/// A path that starts with a single slash.
pub open spec fn rooted(path: Seq<char>) -> bool {
    &&& path.len() > 0
    &&& path[0] == '/'
    &&& path.len() > 1 ==> path[1] != '/'
}

/// A path that does not start with a slash.
pub open spec fn unrooted(path: Seq<char>) -> bool {
    path.len() > 0 ==> path[0] != '/'
}

/// Whether a path starts with `.`, as in `./a`.
pub open spec fn starts_here(path: Seq<char>) -> bool {
    split(path, '/')[0] == "."@
}

/// The parts of a path together with the `.` at its start, if there is one.
pub open spec fn steps_of(path: Seq<char>) -> Seq<Seq<char>> {
    if starts_here(path) {
        seq!["."@] + path_parts(path)
    } else {
        path_parts(path)
    }
}

/// Whether a path holds no backslash and nothing that looks like a drive.
pub open spec fn plain_names(path: Seq<char>) -> bool {
    &&& lacks(path, '\\')
    &&& forall|i: int|
        0 <= i < path_parts(path).len() ==> !like_drive(#[trigger] path_parts(path)[i])
}

/// Two paths that every platform reads alike, and either both from the root or both from
/// the same place.
pub open spec fn read_alike(a: Seq<char>, b: Seq<char>) -> bool {
    &&& plain_names(a)
    &&& plain_names(b)
    &&& rooted(a) && rooted(b) || unrooted(a) && unrooted(b)
}

/// What follows the drive of a Windows path, with forward slashes.
pub open spec fn behind_drive(path: Seq<char>) -> Seq<char> {
    replace(path.skip(2), '\\', '/')
}

/// A letter that can name a drive.
pub open spec fn drive_letter(c: char) -> bool {
    'a' <= c <= 'z' || 'A' <= c <= 'Z'
}

/// An absolute Windows path with a drive, such as `C:\project`.
pub open spec fn drive_path(path: Seq<char>) -> bool {
    &&& path.len() >= 3
    &&& drive_letter(path[0])
    &&& path[1] == ':'
    &&& rooted(behind_drive(path))
}

/// Two absolute Windows paths with the same drive.
pub open spec fn same_drive(a: Seq<char>, b: Seq<char>) -> bool {
    drive_path(a) && drive_path(b) && a[0] == b[0]
}

/// How many parts two paths have in common at their start.
pub open spec fn common(a: Seq<Seq<char>>, b: Seq<Seq<char>>) -> nat
    decreases a.len(),
{
    if a.len() > 0 && b.len() > 0 && a[0] == b[0] {
        1 + common(a.drop_first(), b.drop_first())
    } else {
        0
    }
}

/// `n` steps up.
pub open spec fn ups(n: nat) -> Seq<Seq<char>> {
    Seq::new(n, |i: int| ".."@)
}

/// The steps from one place to another: up to what they have in common, and down from
/// there. There are none if the first step up would have to take back a `..`. Where only
/// the first place starts with `.`, the first step down is taken before the steps up.
pub open spec fn steps_between(from: Seq<Seq<char>>, to: Seq<Seq<char>>) -> Option<Seq<Seq<char>>> {
    let k = common(from, to);
    if from.len() > 0 && from[0] == "."@ && to.len() > 0 && to[0] != "."@ {
        if from.len() > 1 && to.len() > 1 && from[1] == ".."@ {
            None
        } else {
            Some(seq![to[0]] + ups((from.len() - 1) as nat) + to.skip(1))
        }
    } else if k < from.len() && k < to.len() && from[k as int] == ".."@ {
        None
    } else {
        Some(ups((from.len() - k) as nat) + to.skip(k as int))
    }
}

/// Parts with slashes between them.
pub open spec fn slashed(parts: Seq<Seq<char>>) -> Seq<char>
    decreases parts.len(),
{
    if parts.len() == 0 {
        seq![]
    } else if parts.len() == 1 {
        parts[0]
    } else {
        slashed(parts.drop_last()) + "/"@ + parts.last()
    }
}

/// The path from `base` to `path`, for paths that every platform reads alike.
pub open spec fn relative_path(path: Seq<char>, base: Seq<char>) -> Option<Seq<char>> {
    match steps_between(steps_of(base), steps_of(path)) {
        Some(steps) => Some(slashed(steps)),
        None => None,
    }
}

/// A path with slashes in place of backslashes, or the given one where there is none.
pub open spec fn bin_target_text_of(diff: Option<Seq<char>>, target: Seq<char>) -> Seq<char> {
    replace(
        match diff {
            Some(path) => path,
            None => target,
        },
        '\\',
        '/',
    )
}

/// The view of an optional string with slashes in place of backslashes.
pub open spec fn forward_option(s: Option<String>) -> Option<Seq<char>> {
    match s {
        Some(t) => Some(replace(t@, '\\', '/')),
        None => None,
    }
}

/// The path from `base` to `path`, by `pathdiff::diff_paths`. For two paths that every
/// platform reads alike, both from the root or both from the same place, it takes the steps
/// between them, a `.` at the start of a path counting as a step, with the platform's
/// separator in between. What it gives for other
/// paths depends on how the platform reads them, and is not stated.
#[verifier::external_body]
fn diff_paths(path: &str, base: &str) -> (r: Option<String>)
    ensures
        read_alike(path@, base@) ==> forward_option(r) == relative_path(path@, base@),
{
    pathdiff::diff_paths(path, base).map(|p| p.to_string_lossy().into_owned())
}

/// The path to write into a script, with forward slashes: `diff` where there is one, and
/// else the target itself.
pub fn bin_target_text(diff: Option<String>, target: &str) -> (r: String)
    ensures
        r@ == bin_target_text_of(text_option(diff), target@),
{
    match diff {
        Some(path) => replaced(path.as_str(), '\\', '/'),
        None => replaced(target, '\\', '/'),
    }
}

/// The path from the directory of the binaries to a target, with forward slashes, where
/// the host alone determines it: for two paths that every platform reads alike, and on
/// Windows for two absolute paths with the same drive. Where no path leads to the target
/// it is the target itself.
pub open spec fn bin_target_of(host: Host, bin_dir: Seq<char>, target: Seq<char>) -> Option<
    Seq<char>,
> {
    if host == Host::Windows && same_drive(bin_dir, target) && read_alike(
        behind_drive(target),
        behind_drive(bin_dir),
    ) {
        match relative_path(behind_drive(target), behind_drive(bin_dir)) {
            Some(path) => Some(path),
            None => Some(replace(target, '\\', '/')),
        }
    } else if read_alike(target, bin_dir) {
        match relative_path(target, bin_dir) {
            Some(path) => Some(path),
            None => Some(target),
        }
    } else {
        None
    }
}

/// Whether a text can be the path from the directory of the binaries to a target. It is
/// the determined path where there is one, and holds no backslash in any case.
pub open spec fn is_bin_target(
    host: Host,
    bin_dir: Seq<char>,
    target: Seq<char>,
    rel: Seq<char>,
) -> bool {
    &&& lacks(rel, '\\')
    &&& bin_target_of(host, bin_dir, target) matches Some(path) ==> rel == path
}

/// The drive of an absolute Windows path, and what follows it with forward slashes.
fn split_drive(path: &str) -> (r: Option<(char, String)>)
    ensures
        match r {
            Some((drive, rest)) => drive_path(path@) && drive == path@[0] && rest@ == behind_drive(
                path@,
            ),
            None => !drive_path(path@),
        },
{
    let chars = chars_of(path);
    if chars.len() < 3 || chars[1] != ':' {
        return None;
    }
    let drive: char = chars[0];
    if !(('a' <= drive && drive <= 'z') || ('A' <= drive && drive <= 'Z')) {
        return None;
    }
    let tail = string_of(slice_subrange(chars.as_slice(), 2, chars.len()));
    let rest = replaced(tail.as_str(), '\\', '/');
    let start = chars_of(rest.as_str());
    if start[0] != '/' || (start.len() > 1 && start[1] == '/') {
        return None;
    }
    Some((drive, rest))
}

/// The path from the directory of the binaries to a target, with forward slashes.
pub fn relative_bin_target(host: Host, bin_dir: &str, target: &str) -> (r: String)
    ensures
        is_bin_target(host, bin_dir@, target@, r@),
{
    proof {
        lemma_drive_is_not_plain(target@);
        if plain_names(target@) {
            assert(replace(target@, '\\', '/') =~= target@);
        }
    }
    if host == Host::Windows {
        if let (Some((from_drive, from)), Some((to_drive, to))) = (
            split_drive(bin_dir),
            split_drive(target),
        ) {
            if from_drive == to_drive {
                return bin_target_text(diff_paths(to.as_str(), from.as_str()), target);
            }
        }
    }
    bin_target_text(diff_paths(target, bin_dir), target)
}

/// A path with a drive is not one that every platform reads alike.
proof fn lemma_drive_is_not_plain(path: Seq<char>)
    ensures
        drive_path(path) ==> !plain_names(path),
{
    if drive_path(path) && lacks(path, '\\') {
        let tail = path.skip(2);
        assert(behind_drive(path)[0] == '/');
        assert(tail[0] == path[2]);
        assert(path[2] == '/');
        lemma_find_at(path, '/', 2);
        let drive = path.take(2);
        let rest = path.skip(3);
        reveal_strlit(".");
        assert(drive != "."@) by {
            assert(drive.len() != "."@.len());
        }
        assert(split(path, '/') == seq![drive] + split(rest, '/'));
        lemma_real_parts_add(seq![drive], split(rest, '/'));
        assert(seq![drive].drop_last() =~= seq![]);
        assert(real_parts(seq![]) =~= seq![]);
        assert(real_parts(seq![drive]) =~= seq![drive]);
        assert(path_parts(path)[0] == drive);
        assert(like_drive(path_parts(path)[0]));
    }
}

proof fn lemma_real_parts_add(a: Seq<Seq<char>>, b: Seq<Seq<char>>)
    ensures
        real_parts(a + b) == real_parts(a) + real_parts(b),
    decreases b.len(),
{
    if b.len() == 0 {
        assert(a + b =~= a);
        assert(real_parts(a) + real_parts(b) =~= real_parts(a));
    } else {
        assert((a + b).drop_last() =~= a + b.drop_last());
        assert((a + b).last() == b.last());
        lemma_real_parts_add(a, b.drop_last());
        assert(real_parts(a + b) =~= real_parts(a) + real_parts(b));
    }
}

/// A part of a path as a component.
pub open spec fn part_component(part: Seq<char>) -> PathComponent<Seq<char>> {
    if part == ".."@ {
        PathComponent::ParentDir
    } else {
        PathComponent::Normal(part)
    }
}

/// The components of a relative path with the given parts.
pub open spec fn part_components(parts: Seq<Seq<char>>) -> Seq<PathComponent<Seq<char>>> {
    Seq::new(parts.len(), |i: int| part_component(parts[i]))
}

/// The components of a path that starts with a slash.
pub open spec fn rooted_components(path: Seq<char>) -> Seq<PathComponent<Seq<char>>> {
    seq![PathComponent::RootDir] + part_components(path_parts(path))
}

/// A part that stands for a component.
spec fn real_part(part: Seq<char>) -> bool {
    part.len() > 0 && part != "."@ && lacks(part, '/')
}

proof fn lemma_real_parts(parts: Seq<Seq<char>>)
    requires
        forall|i: int| 0 <= i < parts.len() ==> lacks(#[trigger] parts[i], '/'),
    ensures
        forall|i: int| 0 <= i < real_parts(parts).len() ==> real_part(#[trigger] real_parts(parts)[i]),
        (forall|i: int| 0 <= i < parts.len() ==> real_part(#[trigger] parts[i])) ==> real_parts(parts)
            == parts,
    decreases parts.len(),
{
    if parts.len() > 0 {
        let front = parts.drop_last();
        assert forall|i: int| 0 <= i < front.len() implies lacks(#[trigger] front[i], '/') by {
            assert(front[i] == parts[i]);
        }
        lemma_real_parts(front);
        let n = parts.len() - 1;
        assert(lacks(parts[n], '/'));
        assert forall|i: int| 0 <= i < real_parts(parts).len() implies real_part(
            #[trigger] real_parts(parts)[i],
        ) by {
            if i < real_parts(front).len() {
                assert(real_parts(parts)[i] == real_parts(front)[i]);
            }
        }
        if forall|i: int| 0 <= i < parts.len() ==> real_part(#[trigger] parts[i]) {
            assert forall|i: int| 0 <= i < front.len() implies real_part(#[trigger] front[i]) by {
                assert(front[i] == parts[i]);
            }
            assert(real_part(parts[n]));
            assert(real_parts(parts) =~= parts);
        }
    } else {
        assert(real_parts(parts) =~= parts);
    }
}

/// Parts with slashes between them are the parts of the path they make.
proof fn lemma_slashed(parts: Seq<Seq<char>>)
    requires
        forall|i: int| 0 <= i < parts.len() ==> real_part(#[trigger] parts[i]),
    ensures
        path_parts(slashed(parts)) == parts,
{
    if parts.len() == 0 {
        assert(split(slashed(parts), '/') =~= seq![Seq::<char>::empty()]);
        assert(split(slashed(parts), '/').drop_last() =~= seq![]);
        assert(real_parts(seq![]) =~= parts);
    } else {
        lemma_split_slashed(parts);
        lemma_real_parts(parts);
    }
}

proof fn lemma_split_slashed(parts: Seq<Seq<char>>)
    requires
        parts.len() > 0,
        forall|i: int| 0 <= i < parts.len() ==> real_part(#[trigger] parts[i]),
    ensures
        split(slashed(parts), '/') == parts,
    decreases parts.len(),
{
    let n = parts.len() - 1;
    assert(real_part(parts[n]));
    lemma_split_one(parts.last(), '/');
    if parts.len() == 1 {
        assert(split(slashed(parts), '/') =~= parts);
    } else {
        let front = parts.drop_last();
        assert forall|i: int| 0 <= i < front.len() implies real_part(#[trigger] front[i]) by {
            assert(front[i] == parts[i]);
        }
        lemma_split_slashed(front);
        reveal_strlit("/");
        assert("/"@ =~= seq!['/']);
        lemma_split_add(slashed(front), '/', parts.last());
        assert(split(slashed(parts), '/') =~= parts);
    }
}

/// What follows a path is normalized alike behind all paths that are normalized alike.
proof fn lemma_normalized_add<T>(
    a: Seq<PathComponent<T>>,
    b: Seq<PathComponent<T>>,
    tail: Seq<PathComponent<T>>,
)
    requires
        normalized(a) == normalized(b),
    ensures
        normalized(a + tail) == normalized(b + tail),
    decreases tail.len(),
{
    if tail.len() == 0 {
        assert(a + tail =~= a);
        assert(b + tail =~= b);
    } else {
        lemma_normalized_add(a, b, tail.drop_last());
        assert((a + tail).drop_last() =~= a + tail.drop_last());
        assert((b + tail).drop_last() =~= b + tail.drop_last());
        assert((a + tail).last() == tail.last());
        assert((b + tail).last() == tail.last());
    }
}

/// Some names followed by as many `..` add nothing to a path.
proof fn lemma_down_and_up(path: Seq<PathComponent<Seq<char>>>, names: Seq<Seq<char>>)
    requires
        forall|i: int| 0 <= i < names.len() ==> #[trigger] names[i] != ".."@,
    ensures
        normalized(path + part_components(names) + part_components(ups(names.len()))) == normalized(
            path,
        ),
    decreases names.len(),
{
    let down = part_components(names);
    let up = part_components(ups(names.len()));
    if names.len() == 0 {
        assert(path + down + up =~= path);
    } else {
        let front = names.drop_last();
        let rest = part_components(ups(front.len()));
        assert forall|i: int| 0 <= i < front.len() implies #[trigger] front[i] != ".."@ by {
            assert(front[i] == names[i]);
        }
        lemma_down_and_up(path, front);
        let prior = path + part_components(front);
        let n = names.len() - 1;
        assert(names[n] != ".."@);
        let there = prior.push(PathComponent::Normal(names[n])).push(PathComponent::ParentDir);
        law_name_then_parent(prior, names[n]);
        lemma_normalized_add(there, prior, rest);
        assert(path + down + up =~= there + rest);
    }
}

proof fn lemma_common(a: Seq<Seq<char>>, b: Seq<Seq<char>>)
    ensures
        common(a, b) <= a.len(),
        common(a, b) <= b.len(),
        a.take(common(a, b) as int) == b.take(common(a, b) as int),
    decreases a.len(),
{
    if a.len() > 0 && b.len() > 0 && a[0] == b[0] {
        let x = a.drop_first();
        let y = b.drop_first();
        lemma_common(x, y);
        let k = common(x, y) as int;
        assert forall|i: int| 0 <= i < k + 1 implies a[i] == b[i] by {
            if i > 0 {
                assert(x.take(k)[i - 1] == a[i]);
                assert(y.take(k)[i - 1] == b[i]);
            }
        }
        assert(a.take(k + 1) =~= b.take(k + 1));
    } else {
        assert(a.take(0) =~= b.take(0));
    }
}

/// The components of an absolute Windows path with a drive.
pub open spec fn drive_components(path: Seq<char>) -> Seq<PathComponent<Seq<char>>> {
    seq![PathComponent::Prefix(path.take(2)), PathComponent::RootDir] + part_components(
        path_parts(behind_drive(path)),
    )
}

/// Whether what `bin_dir` does not have in common with `target` holds no `..`.
pub open spec fn leaves_by_names(bin_dir: Seq<char>, target: Seq<char>) -> bool {
    forall|i: int|
        common(path_parts(bin_dir), path_parts(target)) <= i < path_parts(bin_dir).len()
            ==> #[trigger] path_parts(bin_dir)[i] != ".."@
}

/// The steps between two paths lead from one to the other, wherever both start.
proof fn lemma_leads_to_target(
    start: Seq<PathComponent<Seq<char>>>,
    bin_dir: Seq<char>,
    target: Seq<char>,
)
    requires
        !starts_here(bin_dir),
        !starts_here(target),
        leaves_by_names(bin_dir, target),
    ensures
        relative_path(target, bin_dir) matches Some(rel) && normalized(
            start + part_components(path_parts(bin_dir)) + part_components(path_parts(rel)),
        ) == normalized(start + part_components(path_parts(target))),
{
    let from = path_parts(bin_dir);
    let to = path_parts(target);
    let k = common(from, to) as int;
    lemma_common(from, to);
    lemma_split_lacks(bin_dir, '/');
    lemma_split_lacks(target, '/');
    lemma_real_parts(split(bin_dir, '/'));
    lemma_real_parts(split(target, '/'));
    reveal_strlit("..");
    reveal_strlit(".");
    let n = (from.len() - k) as nat;
    let steps = ups(n) + to.skip(k);
    assert forall|i: int| 0 <= i < steps.len() implies real_part(#[trigger] steps[i]) by {
        if i < n {
            assert(steps[i] == ".."@);
            assert(".."@.len() != "."@.len());
        } else {
            assert(steps[i] == to[k + (i - n)]);
        }
    }
    lemma_slashed(steps);
    if from.len() > 0 {
        assert(real_part(from[0]));
    }
    let shared = start + part_components(from.take(k));
    let names = from.skip(k);
    assert forall|i: int| 0 <= i < names.len() implies #[trigger] names[i] != ".."@ by {
        assert(names[i] == from[k + i]);
    }
    lemma_down_and_up(shared, names);
    let there = shared + part_components(names) + part_components(ups(names.len()));
    let tail = part_components(to.skip(k));
    lemma_normalized_add(there, shared, tail);
    assert(start + part_components(from) + part_components(steps) =~= there + tail);
    assert(shared + tail =~= start + part_components(to)) by {
        assert forall|i: int| 0 <= i < k implies from[i] == to[i] by {
            assert(from.take(k)[i] == to.take(k)[i]);
        }
    }
}

/// The path from the directory of the binaries leads to the target: followed from there
/// it is the target, once `..` components are collapsed.
pub proof fn law_relative_target_leads_to_target(bin_dir: Seq<char>, target: Seq<char>)
    requires
        rooted(bin_dir),
        rooted(target),
        leaves_by_names(bin_dir, target),
    ensures
        relative_path(target, bin_dir) matches Some(rel) && normalized(
            rooted_components(bin_dir) + part_components(path_parts(rel)),
        ) == normalized(rooted_components(target)),
{
    lemma_rooted_starts(bin_dir);
    lemma_rooted_starts(target);
    lemma_leads_to_target(seq![PathComponent::RootDir], bin_dir, target);
}

/// The same for two paths that are relative to one place.
pub proof fn law_relative_paths_lead_to_target(bin_dir: Seq<char>, target: Seq<char>)
    requires
        unrooted(bin_dir),
        unrooted(target),
        !starts_here(bin_dir),
        !starts_here(target),
        leaves_by_names(bin_dir, target),
    ensures
        relative_path(target, bin_dir) matches Some(rel) && normalized(
            part_components(path_parts(bin_dir)) + part_components(path_parts(rel)),
        ) == normalized(part_components(path_parts(target))),
{
    let start = Seq::<PathComponent<Seq<char>>>::empty();
    lemma_leads_to_target(start, bin_dir, target);
    assert(start + part_components(path_parts(bin_dir)) =~= part_components(path_parts(bin_dir)));
    assert(start + part_components(path_parts(target)) =~= part_components(path_parts(target)));
}

/// A path that starts with a slash does not start with `.`.
proof fn lemma_rooted_starts(path: Seq<char>)
    requires
        path.len() > 0,
        path[0] == '/',
    ensures
        !starts_here(path),
{
    reveal_strlit(".");
    lemma_find_at(path, '/', 0);
    assert(split(path, '/')[0] == path.take(0));
    assert(path.take(0).len() != "."@.len());
}

/// On Windows, the path from the directory of the binaries leads to a target on the same
/// drive.
pub proof fn law_drive_target_leads_to_target(bin_dir: Seq<char>, target: Seq<char>)
    requires
        same_drive(bin_dir, target),
        read_alike(behind_drive(target), behind_drive(bin_dir)),
        leaves_by_names(behind_drive(bin_dir), behind_drive(target)),
    ensures
        bin_target_of(Host::Windows, bin_dir, target) matches Some(rel) && normalized(
            drive_components(bin_dir) + part_components(path_parts(rel)),
        ) == normalized(drive_components(target)),
{
    let start = seq![PathComponent::Prefix(bin_dir.take(2)), PathComponent::RootDir];
    lemma_rooted_starts(behind_drive(bin_dir));
    lemma_rooted_starts(behind_drive(target));
    lemma_leads_to_target(start, behind_drive(bin_dir), behind_drive(target));
    assert(bin_dir.take(2) =~= target.take(2));
}

proof fn lemma_common_add(shared: Seq<Seq<char>>, a: Seq<Seq<char>>, b: Seq<Seq<char>>)
    ensures
        common(shared + a, shared + b) == shared.len() + common(a, b),
    decreases shared.len(),
{
    if shared.len() == 0 {
        assert(shared + a =~= a);
        assert(shared + b =~= b);
    } else {
        assert((shared + a)[0] == (shared + b)[0]);
        assert((shared + a).drop_first() =~= shared.drop_first() + a);
        assert((shared + b).drop_first() =~= shared.drop_first() + b);
        lemma_common_add(shared.drop_first(), a, b);
    }
}

proof fn lemma_parts_of_moved(dir: Seq<char>, path: Seq<char>)
    requires
        path.len() > 0,
        path[0] == '/',
    ensures
        path_parts(dir + path) == path_parts(dir) + path_parts(path),
        steps_of(dir + path) == steps_of(dir) + path_parts(path),
{
    let rest = path.skip(1);
    let none = Seq::<char>::empty();
    assert(dir + path =~= dir + seq!['/'] + rest);
    lemma_split_add(dir, '/', rest);
    assert(path =~= none + seq!['/'] + rest);
    lemma_split_add(none, '/', rest);
    lemma_real_parts_add(split(dir, '/'), split(rest, '/'));
    lemma_split_one(none, '/');
    lemma_real_parts_add(seq![none], split(rest, '/'));
    assert(seq![none].drop_last() =~= seq![]);
    assert(real_parts(seq![]) =~= seq![]);
    assert(real_parts(seq![none]) =~= seq![]);
    assert(path_parts(path) =~= path_parts(rest));
    assert(split(dir, '/').len() > 0);
    assert(split(dir + path, '/')[0] == split(dir, '/')[0]);
    assert(steps_of(dir + path) =~= steps_of(dir) + path_parts(path));
}

/// The path from the directory of the binaries to a target stays the same when both are
/// moved into another directory.
pub proof fn law_relative_target_is_relocatable(
    dir: Seq<char>,
    bin_dir: Seq<char>,
    target: Seq<char>,
)
    requires
        rooted(bin_dir),
        rooted(target),
    ensures
        relative_path(dir + target, dir + bin_dir) == relative_path(target, bin_dir),
{
    let shared = steps_of(dir);
    let from = path_parts(bin_dir);
    let to = path_parts(target);
    lemma_parts_of_moved(dir, bin_dir);
    lemma_parts_of_moved(dir, target);
    lemma_rooted_starts(bin_dir);
    lemma_rooted_starts(target);
    lemma_split_lacks(bin_dir, '/');
    lemma_real_parts(split(bin_dir, '/'));
    lemma_common_add(shared, from, to);
    lemma_common(from, to);
    let k = common(from, to) as int;
    assert((shared + to).skip(shared.len() + k) =~= to.skip(k));
    if k < from.len() {
        assert((shared + from)[shared.len() + k] == from[k]);
    }
    if from.len() > 0 {
        assert(real_part(from[0]));
    }
    if shared.len() > 0 {
        assert((shared + from)[0] == (shared + to)[0]);
    } else {
        assert(shared + from =~= from);
        assert(shared + to =~= to);
    }
}

/// The path to a target takes as few steps as possible: up as often as the directory has
/// parts that are not shared, and down along the target's own.
pub proof fn law_relative_target_is_short(
    bin_dir: Seq<char>,
    target: Seq<char>,
    shared: Seq<Seq<char>>,
    from: Seq<Seq<char>>,
    to: Seq<Seq<char>>,
)
    requires
        rooted(bin_dir),
        rooted(target),
        path_parts(bin_dir) == shared + from,
        path_parts(target) == shared + to,
        from.len() > 0 && to.len() > 0 ==> from[0] != to[0] && from[0] != ".."@,
    ensures
        relative_path(target, bin_dir) matches Some(rel) && path_parts(rel) == Seq::new(
            from.len(),
            |i: int| ".."@,
        ) + to,
{
    lemma_rooted_starts(bin_dir);
    lemma_rooted_starts(target);
    lemma_common_add(shared, from, to);
    assert(common(from, to) == 0);
    let k = shared.len() as int;
    let steps = ups(from.len()) + to;
    assert((shared + to).skip(k) =~= to);
    if from.len() > 0 {
        assert((shared + from)[k] == from[0]);
    }
    lemma_split_lacks(bin_dir, '/');
    lemma_split_lacks(target, '/');
    lemma_real_parts(split(bin_dir, '/'));
    lemma_real_parts(split(target, '/'));
    reveal_strlit("..");
    reveal_strlit(".");
    assert forall|i: int| 0 <= i < steps.len() implies real_part(#[trigger] steps[i]) by {
        if i < from.len() {
            assert(steps[i] == ".."@);
            assert(".."@.len() != "."@.len());
        } else {
            assert(steps[i] == path_parts(target)[k + i - from.len()]);
        }
    }
    if (shared + from).len() > 0 {
        assert(real_part(path_parts(bin_dir)[0]));
    }
    lemma_slashed(steps);
    assert(ups(from.len()) =~= Seq::new(from.len(), |i: int| ".."@));
}

/// The parts of a path are what stands between its slashes, without `.` and nothing.
pub proof fn law_path_parts(path: Seq<char>, part: Seq<char>)
    requires
        lacks(part, '/'),
    ensures
        path_parts(path + "/"@ + part) == if part.len() == 0 || part == "."@ {
            path_parts(path)
        } else {
            path_parts(path).push(part)
        },
        path_parts(part) == if part.len() == 0 || part == "."@ {
            Seq::<Seq<char>>::empty()
        } else {
            seq![part]
        },
{
    reveal_strlit("/");
    assert("/"@ =~= seq!['/']);
    lemma_split_add(path, '/', part);
    lemma_split_one(part, '/');
    lemma_real_parts_add(split(path, '/'), seq![part]);
    assert(seq![part].drop_last() =~= seq![]);
    assert(real_parts(seq![]) =~= seq![]);
    if part.len() == 0 || part == "."@ {
        assert(path_parts(path) + real_parts(seq![part]) =~= path_parts(path));
    } else {
        assert(real_parts(seq![part]) =~= seq![part]);
        assert(path_parts(path) + real_parts(seq![part]) =~= path_parts(path).push(part));
    }
}

/// The path that is written is the one that was found, or else the target, with a slash in
/// the place of each backslash.
pub proof fn law_bin_target_text(diff: Option<Seq<char>>, target: Seq<char>, i: int)
    ensures
        ({
            let path = match diff {
                Some(found) => found,
                None => target,
            };
            let text = bin_target_text_of(diff, target);
            &&& text.len() == path.len()
            &&& 0 <= i < path.len() ==> text[i] == if path[i] == '\\' {
                '/'
            } else {
                path[i]
            }
        }),
{
}

/// A target that no path leads to is written as it is, with forward slashes.
pub proof fn law_target_without_path(host: Host, bin_dir: Seq<char>, target: Seq<char>)
    ensures
        host != Host::Windows && read_alike(target, bin_dir) && relative_path(target, bin_dir)
            is None ==> bin_target_of(host, bin_dir, target) == Some(target),
        host == Host::Windows && same_drive(bin_dir, target) && read_alike(
            behind_drive(target),
            behind_drive(bin_dir),
        ) && relative_path(behind_drive(target), behind_drive(bin_dir)) is None ==> (bin_target_of(
            host,
            bin_dir,
            target,
        ) matches Some(text) && text.len() == target.len() && forall|i: int|
            0 <= i < text.len() ==> #[trigger] text[i] == if target[i] == '\\' {
                '/'
            } else {
                target[i]
            }),
{
}

/// Where a path leads to the target it is the one that is written. On Windows a drive that
/// both share is left out of it.
pub proof fn law_target_with_path(host: Host, bin_dir: Seq<char>, target: Seq<char>)
    ensures
        host != Host::Windows && read_alike(target, bin_dir) ==> (relative_path(
            target,
            bin_dir,
        ) matches Some(rel) ==> bin_target_of(host, bin_dir, target) == Some(rel)),
        host == Host::Windows && same_drive(bin_dir, target) && read_alike(
            behind_drive(target),
            behind_drive(bin_dir),
        ) ==> (relative_path(behind_drive(target), behind_drive(bin_dir)) matches Some(rel) ==>
            bin_target_of(host, bin_dir, target) == Some(rel)),
{
}

} // verus!
