//! The keys that packages go by: `name@version`, which dependency paths may extend by
//! the peers that a package was resolved with, as in `name@version(peer@version)`.

use vstd::prelude::*;
use vstd::slice::slice_subrange;
use crate::text::{chars_of, find, lacks, lemma_find_at, position, starts_with, string_of};

verus! {

/// Two texts with an `@` between them.
pub open spec fn joined_at(left: Seq<char>, right: Seq<char>) -> Seq<char> {
    left + "@"@ + right
}

/// The text before the peers, which start at the first parenthesis.
pub open spec fn without_peers(path: Seq<char>) -> Seq<char> {
    path.take(find(path, '(') as int)
}

/// The version that the dependency `name` resolved to. The recorded value may be a
/// version or a whole dependency path.
pub open spec fn version_of_dep(name: Seq<char>, value: Seq<char>) -> Seq<char> {
    let prefix = name + "@"@;
    if prefix.is_prefix_of(value) {
        without_peers(value.skip(prefix.len() as int))
    } else {
        without_peers(value)
    }
}

/// The key of the package that the dependency `name` resolved to.
pub open spec fn key_of_dep(name: Seq<char>, value: Seq<char>) -> Seq<char> {
    joined_at(name, version_of_dep(name, value))
}

/// Two strings with an `@` between them.
pub fn join_at(left: &str, right: &str) -> (r: String)
    ensures
        r@ == joined_at(left@, right@),
{
    let mut r = left.to_string();
    r.append("@");
    r.append(right);
    r
}

/// The key of the package at a dependency path.
pub fn canonical_key_from_dep_path(dep_path: &str) -> (r: String)
    ensures
        r@ == without_peers(dep_path@),
{
    let chars = chars_of(dep_path);
    let end: usize = position(chars.as_slice(), '(');
    string_of(slice_subrange(chars.as_slice(), 0, end))
}

/// The version that the dependency `name` resolved to.
pub fn dep_value_as_version(name: &str, value: &str) -> (r: String)
    ensures
        r@ == version_of_dep(name@, value@),
{
    let mut prefix = name.to_string();
    prefix.append("@");
    let head = chars_of(prefix.as_str());
    let chars = chars_of(value);
    let s = chars.as_slice();
    let tail = if starts_with(s, head.as_slice()) {
        slice_subrange(s, head.len(), s.len())
    } else {
        s
    };
    let end: usize = position(tail, '(');
    string_of(slice_subrange(tail, 0, end))
}

/// The key of the package that the dependency `name` resolved to.
pub fn child_canonical_key(name: &str, value: &str) -> (r: String)
    ensures
        r@ == key_of_dep(name@, value@),
{
    join_at(name, dep_value_as_version(name, value).as_str())
}

/// The key of a path is what stands before its first parenthesis.
pub proof fn law_key_ends_at_peers(key: Seq<char>, peers: Seq<char>)
    requires
        lacks(key, '('),
        peers.len() > 0 ==> peers[0] == '(',
    ensures
        without_peers(key + peers) == key,
{
    lemma_find_at(key + peers, '(', key.len() as int);
    assert((key + peers).take(key.len() as int) =~= key);
}

/// A dependency has the same key whether the whole path was recorded or what follows its
/// name, and with whatever peers.
pub proof fn law_both_records_have_one_key(
    name: Seq<char>,
    version: Seq<char>,
    peers: Seq<char>,
)
    requires
        lacks(version, '('),
        peers.len() > 0 ==> peers[0] == '(',
    ensures
        version_of_dep(name, name + "@"@ + version + peers) == version,
        key_of_dep(name, name + "@"@ + version + peers) == name + "@"@ + version,
        !(name + "@"@).is_prefix_of(version + peers) ==> version_of_dep(name, version + peers)
            == version && key_of_dep(name, version + peers) == name + "@"@ + version,
{
    let prefix = name + "@"@;
    let whole = name + "@"@ + version + peers;
    assert(whole.subrange(0, prefix.len() as int) =~= prefix);
    assert(whole.skip(prefix.len() as int) =~= version + peers);
    law_key_ends_at_peers(version, peers);
}

} // verus!
