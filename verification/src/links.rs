//! How directory links and the entries for package binaries are made.

use vstd::prelude::*;
use vstd::utf8::{decode_utf8, valid_utf8};
use crate::bin_target::{
    bin_target_of, is_bin_target, law_relative_target_leads_to_target, leaves_by_names,
    part_components, path_parts, relative_bin_target, relative_path, rooted,
    rooted_components,
};
use crate::host::Host;
use crate::interpreter::{detect_interpreter, interpreter, lossy_utf8, shebang, str_option};
use crate::path::{normalize_path, normalized, PathComponent};
use crate::shim::{
    entry_kind, entry_kind_of, law_posix_target_is_found, posix_shim, shim_files, shim_files_of,
    shim_names_of, shim_target, BinShimOptions, EntryKind, ShimFile,
};
use crate::text::fits_line;

verus! {

/// How to make a directory link.
#[derive(Debug, PartialEq, Eq)]
pub enum DirLink<T> {
    /// A symlink to the target as it was given.
    Symlink,
    /// A junction to the target as it was given.
    Junction,
    /// A junction to another path: junctions take no relative targets.
    ResolvedJunction(Vec<PathComponent<T>>),
}

/// Why a directory link cannot be made.
#[derive(Debug, Clone, Copy, PartialEq, Eq, Structural)]
pub enum DirLinkError {
    /// A relative target has nothing to be resolved against.
    NoParent,
    /// The platform has no directory links.
    Unsupported,
}

/// Why a directory link cannot be made, in words.
pub open spec fn link_message_of(error: DirLinkError) -> Seq<char> {
    match error {
        DirLinkError::NoParent => "junction link has no parent directory"@,
        DirLinkError::Unsupported => "directory links are not supported on this platform"@,
    }
}

impl DirLinkError {
    /// The failure in words.
    pub fn message(&self) -> (r: String)
        ensures
            r@ == link_message_of(*self),
    {
        match self {
            DirLinkError::NoParent => "junction link has no parent directory".to_string(),
            DirLinkError::Unsupported => "directory links are not supported on this platform".to_string(),
        }
    }
}

/// Decides how to make a directory link. `absolute` says whether the target is absolute,
/// and `resolved` is the target seen from the directory of the link, if the link has one.
pub fn create_dir_link<T>(
    host: Host,
    absolute: bool,
    resolved: Option<Vec<PathComponent<T>>>,
) -> (r: Result<DirLink<T>, DirLinkError>)
    ensures
        match host {
            Host::Unix => r matches Ok(link) && link is Symlink,
            Host::Windows => if absolute {
                r matches Ok(link) && link is Junction
            } else {
                match resolved {
                    Some(path) => r matches Ok(link) && (link matches DirLink::ResolvedJunction(to)
                        && to@ == normalized(path@)),
                    None => r matches Err(e) && e == DirLinkError::NoParent,
                }
            },
            Host::Other => r matches Err(e) && e == DirLinkError::Unsupported,
        },
{
    match host {
        Host::Unix => Ok(DirLink::Symlink),
        Host::Windows => {
            if absolute {
                return Ok(DirLink::Junction);
            }
            match resolved {
                Some(path) => Ok(DirLink::ResolvedJunction(normalize_path(path))),
                None => Err(DirLinkError::NoParent),
            }
        },
        Host::Other => Err(DirLinkError::Unsupported),
    }
}

/// How to make the entry for a package binary.
#[derive(Debug)]
pub enum BinEntry {
    /// The platform has none.
    Unsupported,
    /// A symlink to the target, which is made executable.
    Symlink,
    /// Scripts that run the target.
    Scripts(Vec<ShimFile>),
}

/// Decides how to make the entry `name` for a package binary in `bin_dir`. `target` is the
/// file that it stands for, with the given extension; `head` is the start of that file,
/// and empty if it cannot be read.
pub fn create_bin_shim(
    host: Host,
    bin_dir: &str,
    name: &str,
    target: &str,
    extension: Option<&str>,
    head: &[u8],
    opts: BinShimOptions,
) -> (r: BinEntry)
    ensures
        match entry_kind_of(host, opts.prefer_symlinked_executables) {
            EntryKind::Unsupported => r is Unsupported,
            EntryKind::Symlink => r is Symlink,
            EntryKind::Scripts => r matches BinEntry::Scripts(files) && exists|rel: Seq<char>|
                #[trigger] is_bin_target(host, bin_dir@, target@, rel) && files.deep_view()
                    == shim_files_of(
                    host,
                    name@,
                    interpreter(head@, str_option(extension)),
                    rel,
                    opts.extend_node_path,
                ),
        },
        r is Scripts ==> (shebang(head@) matches Some(bytes) ==> valid_utf8(bytes) ==> lossy_utf8(
            bytes,
        ) == decode_utf8(bytes)),
{
    match entry_kind(host, opts) {
        EntryKind::Unsupported => BinEntry::Unsupported,
        EntryKind::Symlink => BinEntry::Symlink,
        EntryKind::Scripts => {
            let rel = relative_bin_target(host, bin_dir, target);
            let prog = detect_interpreter(head, extension);
            let files = shim_files(host, name, prog.as_str(), rel.as_str(), opts.extend_node_path);
            assert(is_bin_target(host, bin_dir@, target@, rel@));
            BinEntry::Scripts(files)
        },
    }
}

/// The target that is found in a script for Unix leads from the directory of the binaries
/// to the file that the script was written for.
pub proof fn law_posix_shim_leads_to_target(
    bin_dir: Seq<char>,
    target: Seq<char>,
    prog: Seq<char>,
    extend: bool,
)
    requires
        rooted(bin_dir),
        rooted(target),
        leaves_by_names(bin_dir, target),
        relative_path(target, bin_dir) matches Some(rel) ==> fits_line(rel),
    ensures
        relative_path(target, bin_dir) matches Some(rel) && (shim_target(
            posix_shim(prog, rel, extend),
        ) matches Some(found) && normalized(
            rooted_components(bin_dir) + part_components(path_parts(found)),
        ) == normalized(rooted_components(target))),
{
    law_relative_target_leads_to_target(bin_dir, target);
    law_posix_target_is_found(prog, relative_path(target, bin_dir)->0, extend);
}

/// On Unix, asking for a script where there was a symlink gives one script in its place:
/// under the symlink's name, which is removed first, and with the same text every time.
/// Here `once` and `again` are what two calls find the path to the target to be.
pub proof fn law_script_replaces_symlink(
    bin_dir: Seq<char>,
    name: Seq<char>,
    target: Seq<char>,
    prog: Seq<char>,
    extend: bool,
    once: Seq<char>,
    again: Seq<char>,
)
    requires
        bin_target_of(Host::Unix, bin_dir, target) is Some,
        is_bin_target(Host::Unix, bin_dir, target, once),
        is_bin_target(Host::Unix, bin_dir, target, again),
    ensures
        entry_kind_of(Host::Unix, None) == EntryKind::Symlink,
        entry_kind_of(Host::Unix, Some(false)) == EntryKind::Scripts,
        shim_names_of(Host::Unix, name) == seq![name],
        shim_files_of(Host::Unix, name, prog, once, extend).len() == 1,
        shim_files_of(Host::Unix, name, prog, once, extend)[0].name == name,
        shim_files_of(Host::Unix, name, prog, again, extend) == shim_files_of(
            Host::Unix,
            name,
            prog,
            once,
            extend,
        ),
{
}

/// A directory link that cannot be made is told by its reason.
pub proof fn law_link_message(error: DirLinkError)
    ensures
        error == DirLinkError::NoParent ==> link_message_of(error)
            == "junction link has no parent directory"@,
        error == DirLinkError::Unsupported ==> link_message_of(error)
            == "directory links are not supported on this platform"@,
{
}

} // verus!
