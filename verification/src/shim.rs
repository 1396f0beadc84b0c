//! The scripts that stand in for package binaries, and the files they are kept in.

use vstd::prelude::*;
use crate::host::Host;
use crate::text::{
    chars_of, fits_line, lacks, lemma_find_at, lemma_find_bounds, lemma_lines_first, find, lines,
    replace, replaced, split_line, starts_with, without_cr,
};

verus! {

/// How the entry for a package binary is made.
#[derive(Debug, Clone, Copy)]
pub struct BinShimOptions {
    /// Whether scripts export `NODE_PATH`, pointing at the top-level `node_modules`.
    /// Symlinks cannot.
    pub extend_node_path: bool,
    /// On Unix, `Some(false)` asks for a script; everything else gives a symlink. Windows
    /// gets scripts in any case.
    pub prefer_symlinked_executables: Option<bool>,
}

impl Default for BinShimOptions {
    /// A symlink on Unix, and scripts without `NODE_PATH` on Windows.
    fn default() -> (r: Self)
        ensures
            !r.extend_node_path,
            r.prefer_symlinked_executables is None,
    {
        BinShimOptions { extend_node_path: false, prefer_symlinked_executables: None }
    }
}

/// The comment in front of the target in a script for Unix. A change of the script's
/// format takes a new version number, so that older scripts are no longer recognized.
pub const POSIX_SHIM_MARKER_PREFIX: &'static str = "# aube-bin-shim v1 target=";

/// The complaint where the platform has no entries for package binaries.
pub const BIN_SHIMS_UNSUPPORTED: &'static str = "bin shims are not supported on this platform";

/// `text`, or nothing.
pub open spec fn only_if(wanted: bool, text: Seq<char>) -> Seq<char> {
    if wanted {
        text
    } else {
        ""@
    }
}

/// The script for `cmd.exe`. `rel` is the target relative to the script's directory, with
/// backslashes.
pub open spec fn cmd_shim(prog: Seq<char>, rel: Seq<char>, extend: bool) -> Seq<char> {
    "@SETLOCAL\r\n"@ + only_if(extend, "@SET NODE_PATH=%~dp0..\r\n"@) + "@IF EXIST \"%~dp0\\"@
        + prog + ".exe\" (\r\n  \"%~dp0\\"@ + prog + ".exe\" \"%~dp0\\"@ + rel
        + "\" %*\r\n) ELSE (\r\n  @SET PATHEXT=%PATHEXT:;.JS;=;%\r\n  "@ + prog + " \"%~dp0\\"@
        + rel + "\" %*\r\n)\r\n"@
}

/// The script for PowerShell. `rel` is the target relative to the script's directory.
pub open spec fn ps1_shim(prog: Seq<char>, rel: Seq<char>, extend: bool) -> Seq<char> {
    "#!/usr/bin/env pwsh\n$basedir=Split-Path $MyInvocation.MyCommand.Definition -Parent\n\n"@
        + only_if(extend, "$env:NODE_PATH=\"$basedir/..\"\n"@)
        + "$exe=\"\"\nif ($PSVersionTable.PSVersion -lt \"6.0\" -or $IsWindows) {\n  $exe=\".exe\"\n}\n$ret=0\nif (Test-Path \"$basedir/"@
        + prog
        + "$exe\") {\n  if ($MyInvocation.ExpectingInput) {\n    $input | & \"$basedir/"@ + prog
        + "$exe\" \"$basedir/"@ + rel + "\" $args\n  } else {\n    & \"$basedir/"@ + prog
        + "$exe\" \"$basedir/"@ + rel
        + "\" $args\n  }\n  $ret=$LASTEXITCODE\n} else {\n  if ($MyInvocation.ExpectingInput) {\n    $input | & \""@
        + prog + "$exe\" \"$basedir/"@ + rel + "\" $args\n  } else {\n    & \""@ + prog
        + "$exe\" \"$basedir/"@ + rel + "\" $args\n  }\n  $ret=$LASTEXITCODE\n}\nexit $ret\n"@
}

/// The part that the shell scripts have in common: it runs `prog` from the script's
/// directory if it is there, and else from the search path.
pub open spec fn shell_tail(start: Seq<char>, prog: Seq<char>, rel: Seq<char>, extend: bool) -> Seq<
    char,
> {
    start + only_if(extend, "export NODE_PATH=\"$basedir/..\"\n"@) + "if [ -x \"$basedir/"@ + prog
        + "\" ]; then\n  exec \"$basedir/"@ + prog + "\" \"$basedir/"@ + rel
        + "\" \"$@\"\nelse\n  exec "@ + prog + " \"$basedir/"@ + rel + "\" \"$@\"\nfi\n"@
}

/// The script for a shell on Windows. `rel` is the target relative to the script's
/// directory.
pub open spec fn sh_shim(prog: Seq<char>, rel: Seq<char>, extend: bool) -> Seq<char> {
    shell_tail(
        "#!/bin/sh\nbasedir=$(dirname \"$(echo \"$0\" | sed -e 's,\\\\,/,g')\")\n\ncase `uname` in\n    *CYGWIN*|*MINGW*|*MSYS*)\n        if command -v cygpath > /dev/null 2>&1; then\n            basedir=`cygpath -w \"$basedir\"`\n        fi\n    ;;\nesac\n\n"@,
        prog,
        rel,
        extend,
    )
}

/// The script for Unix. `rel` is the target relative to the script's directory; a comment
/// names it too, so that it can be found again.
pub open spec fn posix_shim(prog: Seq<char>, rel: Seq<char>, extend: bool) -> Seq<char> {
    shell_tail(
        "#!/bin/sh\n"@ + POSIX_SHIM_MARKER_PREFIX@ + rel + "\nbasedir=$(dirname \"$0\")\n"@,
        prog,
        rel,
        extend,
    )
}

/// What follows the marker in the first line that starts with it.
pub open spec fn marked_target(some: Seq<Seq<char>>) -> Option<Seq<char>>
    decreases some.len(),
{
    if some.len() == 0 {
        None
    } else if POSIX_SHIM_MARKER_PREFIX@.is_prefix_of(some[0]) {
        Some(some[0].skip(POSIX_SHIM_MARKER_PREFIX@.len() as int))
    } else {
        marked_target(some.drop_first())
    }
}

/// The target that a script for Unix was written for.
pub open spec fn shim_target(content: Seq<char>) -> Option<Seq<char>> {
    marked_target(lines(content))
}

/// Writes the script for `cmd.exe`.
pub fn generate_cmd_shim(prog: &str, rel: &str, extend_node_path: bool) -> (r: String)
    ensures
        r@ == cmd_shim(prog@, rel@, extend_node_path),
{
    let mut r = "@SETLOCAL\r\n".to_string();
    r.append(
        if extend_node_path {
            "@SET NODE_PATH=%~dp0..\r\n"
        } else {
            ""
        },
    );
    r.append("@IF EXIST \"%~dp0\\");
    r.append(prog);
    r.append(".exe\" (\r\n  \"%~dp0\\");
    r.append(prog);
    r.append(".exe\" \"%~dp0\\");
    r.append(rel);
    r.append("\" %*\r\n) ELSE (\r\n  @SET PATHEXT=%PATHEXT:;.JS;=;%\r\n  ");
    r.append(prog);
    r.append(" \"%~dp0\\");
    r.append(rel);
    r.append("\" %*\r\n)\r\n");
    r
}

/// Writes the script for PowerShell.
pub fn generate_ps1_shim(prog: &str, rel: &str, extend_node_path: bool) -> (r: String)
    ensures
        r@ == ps1_shim(prog@, rel@, extend_node_path),
{
    let mut r = "#!/usr/bin/env pwsh\n$basedir=Split-Path $MyInvocation.MyCommand.Definition -Parent\n\n".to_string();
    r.append(
        if extend_node_path {
            "$env:NODE_PATH=\"$basedir/..\"\n"
        } else {
            ""
        },
    );
    r.append(
        "$exe=\"\"\nif ($PSVersionTable.PSVersion -lt \"6.0\" -or $IsWindows) {\n  $exe=\".exe\"\n}\n$ret=0\nif (Test-Path \"$basedir/",
    );
    r.append(prog);
    r.append("$exe\") {\n  if ($MyInvocation.ExpectingInput) {\n    $input | & \"$basedir/");
    r.append(prog);
    r.append("$exe\" \"$basedir/");
    r.append(rel);
    r.append("\" $args\n  } else {\n    & \"$basedir/");
    r.append(prog);
    r.append("$exe\" \"$basedir/");
    r.append(rel);
    r.append(
        "\" $args\n  }\n  $ret=$LASTEXITCODE\n} else {\n  if ($MyInvocation.ExpectingInput) {\n    $input | & \"",
    );
    r.append(prog);
    r.append("$exe\" \"$basedir/");
    r.append(rel);
    r.append("\" $args\n  } else {\n    & \"");
    r.append(prog);
    r.append("$exe\" \"$basedir/");
    r.append(rel);
    r.append("\" $args\n  }\n  $ret=$LASTEXITCODE\n}\nexit $ret\n");
    r
}

/// Finishes a shell script.
fn finish_shell(start: String, prog: &str, rel: &str, extend_node_path: bool) -> (r: String)
    ensures
        r@ == shell_tail(start@, prog@, rel@, extend_node_path),
{
    let mut r = start;
    r.append(
        if extend_node_path {
            "export NODE_PATH=\"$basedir/..\"\n"
        } else {
            ""
        },
    );
    r.append("if [ -x \"$basedir/");
    r.append(prog);
    r.append("\" ]; then\n  exec \"$basedir/");
    r.append(prog);
    r.append("\" \"$basedir/");
    r.append(rel);
    r.append("\" \"$@\"\nelse\n  exec ");
    r.append(prog);
    r.append(" \"$basedir/");
    r.append(rel);
    r.append("\" \"$@\"\nfi\n");
    r
}

/// Writes the script for a shell on Windows.
pub fn generate_sh_shim(prog: &str, rel: &str, extend_node_path: bool) -> (r: String)
    ensures
        r@ == sh_shim(prog@, rel@, extend_node_path),
{
    finish_shell(
        "#!/bin/sh\nbasedir=$(dirname \"$(echo \"$0\" | sed -e 's,\\\\,/,g')\")\n\ncase `uname` in\n    *CYGWIN*|*MINGW*|*MSYS*)\n        if command -v cygpath > /dev/null 2>&1; then\n            basedir=`cygpath -w \"$basedir\"`\n        fi\n    ;;\nesac\n\n".to_string(),
        prog,
        rel,
        extend_node_path,
    )
}

/// Writes the script for Unix.
pub fn generate_posix_shim(prog: &str, rel: &str, extend_node_path: bool) -> (r: String)
    ensures
        r@ == posix_shim(prog@, rel@, extend_node_path),
{
    let mut start = "#!/bin/sh\n".to_string();
    start.append(POSIX_SHIM_MARKER_PREFIX);
    start.append(rel);
    start.append("\nbasedir=$(dirname \"$0\")\n");
    finish_shell(start, prog, rel, extend_node_path)
}

/// Finds the target that [`generate_posix_shim`] wrote a script for. A text without the
/// marker, such as a script of another tool, has none.
pub fn parse_posix_shim_target(content: &str) -> (r: Option<&str>)
    ensures
        r is Some <==> shim_target(content@) is Some,
        r matches Some(rel) ==> shim_target(content@) == Some(rel@),
{
    let chars = chars_of(content);
    let mark = chars_of(POSIX_SHIM_MARKER_PREFIX);
    let mut rest = chars.as_slice();
    assert(chars@.skip(0) =~= chars@);
    while rest.len() > 0
        invariant
            chars@ == content@,
            mark@ == POSIX_SHIM_MARKER_PREFIX@,
            rest@.len() <= chars@.len(),
            rest@ == chars@.skip(chars@.len() - rest@.len()),
            marked_target(lines(rest@)) == shim_target(content@),
        decreases rest@.len(),
    {
        let (line, tail) = split_line(rest);
        let at: usize = chars.len() - rest.len();
        proof {
            assert(lines(rest@)[0] == line@);
            assert(lines(rest@).drop_first() =~= lines(tail@));
        }
        if starts_with(line, mark.as_slice()) {
            let found = content.substring_char(at + mark.len(), at + line.len());
            assert(found@ =~= line@.skip(mark@.len() as int));
            return Some(found);
        }
        proof {
            assert(tail@ =~= chars@.skip(chars@.len() - tail@.len()));
        }
        rest = tail;
    }
    None
}

proof fn lemma_shell_start(start: Seq<char>, prog: Seq<char>, rel: Seq<char>, extend: bool)
    ensures
        start.is_prefix_of(shell_tail(start, prog, rel, extend)),
{
    let all = shell_tail(start, prog, rel, extend);
    assert(all.len() >= start.len());
    assert(all.subrange(0, start.len() as int) =~= start);
}

/// The target in the comment is found exactly if it stands on one line.
proof fn lemma_comment_is_found(rel: Seq<char>, tail: Seq<char>)
    ensures
        marked_target(lines(POSIX_SHIM_MARKER_PREFIX@ + rel + "\n"@ + tail)) == Some(rel)
            <==> fits_line(rel),
{
    reveal_strlit("\n");
    reveal_strlit("# aube-bin-shim v1 target=");
    let mark = POSIX_SHIM_MARKER_PREFIX@;
    let text = mark + rel + "\n"@ + tail;
    lemma_find_bounds(rel, '\n');
    let f = find(rel, '\n') as int;
    let end = mark.len() + f;
    assert forall|i: int| 0 <= i < end implies text[i] != '\n' by {
        if i < mark.len() {
            assert(text[i] == mark[i]);
        } else {
            assert(text[i] == rel[i - mark.len()]);
        }
    }
    if f < rel.len() {
        assert(text[end] == rel[f]);
    }
    lemma_find_at(text, '\n', end);
    let raw = text.take(end);
    assert(raw =~= mark + rel.take(f));
    let line = without_cr(raw);
    assert(lines(text)[0] == line);
    assert(mark.last() == '=');
    assert(line.subrange(0, mark.len() as int) =~= mark);
    let found = line.skip(mark.len() as int);
    assert(found =~= without_cr(rel.take(f)));
    if f == rel.len() {
        assert(rel.take(f) =~= rel);
        if !fits_line(rel) {
            assert(found.len() < rel.len());
        }
    } else {
        assert(!lacks(rel, '\n'));
        assert(found.len() < rel.len());
    }
}

/// The target is found in every text that starts like a script for Unix.
proof fn lemma_start_is_found(rel: Seq<char>, content: Seq<char>)
    requires
        ("#!/bin/sh\n"@ + POSIX_SHIM_MARKER_PREFIX@ + rel + "\nbasedir=$(dirname \"$0\")\n"@)
            .is_prefix_of(content),
    ensures
        shim_target(content) == Some(rel) <==> fits_line(rel),
{
    reveal_strlit("#!/bin/sh\n");
    reveal_strlit("#!/bin/sh");
    reveal_strlit("\n");
    reveal_strlit("\nbasedir=$(dirname \"$0\")\n");
    reveal_strlit("# aube-bin-shim v1 target=");
    let mark = POSIX_SHIM_MARKER_PREFIX@;
    let first = "#!/bin/sh"@;
    let start = "#!/bin/sh\n"@ + mark + rel + "\nbasedir=$(dirname \"$0\")\n"@;
    let n = (first.len() + 1 + mark.len() + rel.len() + 1) as int;
    let tail = content.skip(n);
    let rest = mark + rel + "\n"@ + tail;
    let again = first + "\n"@ + rest;
    assert(again.len() == content.len());
    assert forall|i: int| 0 <= i < content.len() implies content[i] == again[i] by {
        if i < n {
            assert(content.subrange(0, start.len() as int)[i] == start[i]);
            assert(content[i] == start[i]);
        } else {
            assert(tail[i - n] == content[i]);
        }
    }
    assert(content =~= again);
    lemma_lines_first(first, rest);
    assert(lines(content)[0] == first);
    assert(lines(content).drop_first() =~= lines(rest));
    assert(!mark.is_prefix_of(first));
    lemma_comment_is_found(rel, tail);
}

/// The target of a script for Unix can be found again exactly if it stands on one line.
pub proof fn law_posix_target_is_found(prog: Seq<char>, rel: Seq<char>, extend: bool)
    ensures
        shim_target(posix_shim(prog, rel, extend)) == Some(rel) <==> fits_line(rel),
{
    let start = "#!/bin/sh\n"@ + POSIX_SHIM_MARKER_PREFIX@ + rel
        + "\nbasedir=$(dirname \"$0\")\n"@;
    lemma_shell_start(start, prog, rel, extend);
    lemma_start_is_found(rel, posix_shim(prog, rel, extend));
}

/// What kind of entry a package binary gets.
#[derive(Debug, Clone, Copy, PartialEq, Eq, Structural)]
pub enum EntryKind {
    Unsupported,
    Symlink,
    Scripts,
}

/// What kind of entry a package binary gets.
pub open spec fn entry_kind_of(host: Host, prefer_symlink: Option<bool>) -> EntryKind {
    match host {
        Host::Unix => if prefer_symlink == Some(false) {
            EntryKind::Scripts
        } else {
            EntryKind::Symlink
        },
        Host::Windows => EntryKind::Scripts,
        Host::Other => EntryKind::Unsupported,
    }
}

/// What kind of entry a package binary gets.
pub fn entry_kind(host: Host, opts: BinShimOptions) -> (r: EntryKind)
    ensures
        r == entry_kind_of(host, opts.prefer_symlinked_executables),
{
    match host {
        Host::Unix => match opts.prefer_symlinked_executables {
            Some(false) => EntryKind::Scripts,
            _ => EntryKind::Symlink,
        },
        Host::Windows => EntryKind::Scripts,
        Host::Other => EntryKind::Unsupported,
    }
}

/// A script to write.
#[derive(Debug)]
pub struct ShimFile {
    /// The file's name in the directory of the binaries.
    pub name: String,
    pub content: String,
    /// Whether the file is made executable.
    pub executable: bool,
}

#[verifier::ext_equal]
pub struct ShimFileView {
    pub name: Seq<char>,
    pub content: Seq<char>,
    pub executable: bool,
}

impl DeepView for ShimFile {
    type V = ShimFileView;

    open spec fn deep_view(&self) -> ShimFileView {
        ShimFileView { name: self.name@, content: self.content@, executable: self.executable }
    }
}

/// The scripts for a package binary, in the order in which they are written.
pub open spec fn shim_files_of(
    host: Host,
    name: Seq<char>,
    prog: Seq<char>,
    rel: Seq<char>,
    extend: bool,
) -> Seq<ShimFileView> {
    match host {
        Host::Unix => seq![
            ShimFileView { name, content: posix_shim(prog, rel, extend), executable: true },
        ],
        Host::Windows => seq![
            ShimFileView {
                name: name + ".cmd"@,
                content: cmd_shim(prog, replace(rel, '/', '\\'), extend),
                executable: false,
            },
            ShimFileView {
                name: name + ".ps1"@,
                content: ps1_shim(prog, replace(rel, '\\', '/'), extend),
                executable: false,
            },
            ShimFileView {
                name,
                content: sh_shim(prog, replace(rel, '\\', '/'), extend),
                executable: false,
            },
        ],
        Host::Other => seq![],
    }
}

/// The files that the entry for a package binary may consist of.
pub open spec fn shim_names_of(host: Host, name: Seq<char>) -> Seq<Seq<char>> {
    if host == Host::Windows {
        seq![name, name + ".cmd"@, name + ".ps1"@]
    } else {
        seq![name]
    }
}

/// A string followed by another.
fn followed_by(s: &str, tail: &str) -> (r: String)
    ensures
        r@ == s@ + tail@,
{
    let mut r = s.to_string();
    r.append(tail);
    r
}

/// The scripts for a package binary that is run by `prog` and lies at `rel`, seen from the
/// directory of the binaries.
pub fn shim_files(host: Host, name: &str, prog: &str, rel: &str, extend_node_path: bool) -> (r: Vec<
    ShimFile,
>)
    ensures
        r.deep_view() == shim_files_of(host, name@, prog@, rel@, extend_node_path),
{
    let mut files: Vec<ShimFile> = Vec::new();
    match host {
        Host::Unix => {
            let content = generate_posix_shim(prog, rel, extend_node_path);
            files.push(ShimFile { name: name.to_string(), content, executable: true });
        },
        Host::Windows => {
            let back = replaced(rel, '/', '\\');
            let forward = replaced(rel, '\\', '/');
            let content = generate_cmd_shim(prog, back.as_str(), extend_node_path);
            files.push(ShimFile { name: followed_by(name, ".cmd"), content, executable: false });
            let content = generate_ps1_shim(prog, forward.as_str(), extend_node_path);
            files.push(ShimFile { name: followed_by(name, ".ps1"), content, executable: false });
            let content = generate_sh_shim(prog, forward.as_str(), extend_node_path);
            files.push(ShimFile { name: name.to_string(), content, executable: false });
        },
        Host::Other => {},
    }
    assert(files.deep_view() =~= shim_files_of(host, name@, prog@, rel@, extend_node_path));
    files
}

/// The files to remove, in order, when the entry for a package binary goes away or is
/// about to be made anew.
pub fn remove_bin_shim(host: Host, name: &str) -> (r: Vec<String>)
    ensures
        r.deep_view() == shim_names_of(host, name@),
{
    let mut names: Vec<String> = Vec::new();
    names.push(name.to_string());
    if host == Host::Windows {
        names.push(followed_by(name, ".cmd"));
        names.push(followed_by(name, ".ps1"));
    }
    assert(names.deep_view() =~= shim_names_of(host, name@));
    names
}

/// Every script of a package binary is among the files that are removed with its entry.
pub proof fn law_removal_covers_scripts(
    host: Host,
    name: Seq<char>,
    prog: Seq<char>,
    rel: Seq<char>,
    extend: bool,
    i: int,
)
    requires
        0 <= i < shim_files_of(host, name, prog, rel, extend).len(),
    ensures
        shim_names_of(host, name).contains(shim_files_of(host, name, prog, rel, extend)[i].name),
{
    let names = shim_names_of(host, name);
    assert(names[0] == name);
    if host == Host::Windows {
        assert(names[1] == name + ".cmd"@);
        assert(names[2] == name + ".ps1"@);
    }
}

/// What a shell script ends in: it runs `prog` on the target, from the script's directory if
/// the program is there and else from the search path.
proof fn lemma_shell_commands(start: Seq<char>, prog: Seq<char>, rel: Seq<char>)
    ensures
        ({
            let commands = "if [ -x \"$basedir/"@ + prog + "\" ]; then\n"@ + (
            "  exec \"$basedir/"@ + prog + "\" \"$basedir/"@ + rel + "\" \"$@\"\n"@) + "else\n"@
                + ("  exec "@ + prog + " \"$basedir/"@ + rel + "\" \"$@\"\n"@) + "fi\n"@;
            &&& shell_tail(start, prog, rel, false) == start + commands
            &&& shell_tail(start, prog, rel, true) == start
                + "export NODE_PATH=\"$basedir/..\"\n"@ + commands
        }),
{
    reveal_strlit("");
    reveal_strlit("\" ]; then\n");
    reveal_strlit("  exec \"$basedir/");
    reveal_strlit("\" ]; then\n  exec \"$basedir/");
    reveal_strlit("\" \"$@\"\n");
    reveal_strlit("else\n");
    reveal_strlit("  exec ");
    reveal_strlit("\" \"$@\"\nelse\n  exec ");
    reveal_strlit("fi\n");
    reveal_strlit("\" \"$@\"\nfi\n");
    assert("\" ]; then\n  exec \"$basedir/"@ =~= "\" ]; then\n"@ + "  exec \"$basedir/"@);
    assert("\" \"$@\"\nelse\n  exec "@ =~= "\" \"$@\"\n"@ + "else\n"@ + "  exec "@);
    assert("\" \"$@\"\nfi\n"@ =~= "\" \"$@\"\n"@ + "fi\n"@);
    let commands = "if [ -x \"$basedir/"@ + prog + "\" ]; then\n"@ + (
            "  exec \"$basedir/"@ + prog + "\" \"$basedir/"@ + rel + "\" \"$@\"\n"@) + "else\n"@
                + ("  exec "@ + prog + " \"$basedir/"@ + rel + "\" \"$@\"\n"@) + "fi\n"@;
    assert(shell_tail(start, prog, rel, false) =~= start + commands);
    assert(shell_tail(start, prog, rel, true) =~= start
        + "export NODE_PATH=\"$basedir/..\"\n"@ + commands);
}

/// The script for Unix runs the given program on the given target: the copy of the program
/// beside the script if there is one, and else the program by its name. It hands on its
/// arguments. `NODE_PATH` is exported before that exactly if it was asked for, and nothing
/// else depends on that.
pub proof fn law_posix_script_runs_target(prog: Seq<char>, rel: Seq<char>)
    ensures
        ({
            let start = "#!/bin/sh\n"@ + "# aube-bin-shim v1 target="@ + rel
                + "\nbasedir=$(dirname \"$0\")\n"@;
            let commands = "if [ -x \"$basedir/"@ + prog + "\" ]; then\n"@ + (
            "  exec \"$basedir/"@ + prog + "\" \"$basedir/"@ + rel + "\" \"$@\"\n"@) + "else\n"@
                + ("  exec "@ + prog + " \"$basedir/"@ + rel + "\" \"$@\"\n"@) + "fi\n"@;
            &&& posix_shim(prog, rel, false) == start + commands
            &&& posix_shim(prog, rel, true) == start + "export NODE_PATH=\"$basedir/..\"\n"@
                + commands
        }),
{
    let start = "#!/bin/sh\n"@ + "# aube-bin-shim v1 target="@ + rel
        + "\nbasedir=$(dirname \"$0\")\n"@;
    lemma_shell_commands(start, prog, rel);
}

/// The script for a shell on Windows runs the given program on the given target, like the
/// one for Unix; all that comes before is the same for all programs and targets.
pub proof fn law_sh_script_runs_target(prog: Seq<char>, rel: Seq<char>)
    ensures
        ({
            let start =
                "#!/bin/sh\nbasedir=$(dirname \"$(echo \"$0\" | sed -e 's,\\\\,/,g')\")\n\ncase `uname` in\n    *CYGWIN*|*MINGW*|*MSYS*)\n        if command -v cygpath > /dev/null 2>&1; then\n            basedir=`cygpath -w \"$basedir\"`\n        fi\n    ;;\nesac\n\n"@;
            let commands = "if [ -x \"$basedir/"@ + prog + "\" ]; then\n"@ + (
            "  exec \"$basedir/"@ + prog + "\" \"$basedir/"@ + rel + "\" \"$@\"\n"@) + "else\n"@
                + ("  exec "@ + prog + " \"$basedir/"@ + rel + "\" \"$@\"\n"@) + "fi\n"@;
            &&& sh_shim(prog, rel, false) == start + commands
            &&& sh_shim(prog, rel, true) == start + "export NODE_PATH=\"$basedir/..\"\n"@
                + commands
        }),
{
    lemma_shell_commands(
        "#!/bin/sh\nbasedir=$(dirname \"$(echo \"$0\" | sed -e 's,\\\\,/,g')\")\n\ncase `uname` in\n    *CYGWIN*|*MINGW*|*MSYS*)\n        if command -v cygpath > /dev/null 2>&1; then\n            basedir=`cygpath -w \"$basedir\"`\n        fi\n    ;;\nesac\n\n"@,
        prog,
        rel,
    );
}

/// The script for `cmd.exe` runs the given program on the given target, from the script's
/// directory if it is there and else from the search path, and hands on its arguments.
/// `NODE_PATH` is set before that exactly if it was asked for.
pub proof fn law_cmd_script_runs_target(prog: Seq<char>, rel: Seq<char>)
    ensures
        ({
            let commands = "@IF EXIST \"%~dp0\\"@ + prog + ".exe\" (\r\n"@ + ("  \"%~dp0\\"@ + prog
                + ".exe\" \"%~dp0\\"@ + rel + "\" %*\r\n"@) + ") ELSE (\r\n"@
                + "  @SET PATHEXT=%PATHEXT:;.JS;=;%\r\n"@ + ("  "@ + prog + " \"%~dp0\\"@ + rel
                + "\" %*\r\n"@) + ")\r\n"@;
            &&& cmd_shim(prog, rel, false) == "@SETLOCAL\r\n"@ + commands
            &&& cmd_shim(prog, rel, true) == "@SETLOCAL\r\n"@ + "@SET NODE_PATH=%~dp0..\r\n"@
                + commands
        }),
{
    reveal_strlit("");
    reveal_strlit(".exe\" (\r\n");
    reveal_strlit("  \"%~dp0\\");
    reveal_strlit(".exe\" (\r\n  \"%~dp0\\");
    reveal_strlit("\" %*\r\n");
    reveal_strlit(") ELSE (\r\n");
    reveal_strlit("  @SET PATHEXT=%PATHEXT:;.JS;=;%\r\n");
    reveal_strlit("  ");
    reveal_strlit("\" %*\r\n) ELSE (\r\n  @SET PATHEXT=%PATHEXT:;.JS;=;%\r\n  ");
    reveal_strlit(")\r\n");
    reveal_strlit("\" %*\r\n)\r\n");
    assert(".exe\" (\r\n  \"%~dp0\\"@ =~= ".exe\" (\r\n"@ + "  \"%~dp0\\"@);
    assert("\" %*\r\n) ELSE (\r\n  @SET PATHEXT=%PATHEXT:;.JS;=;%\r\n  "@ =~= "\" %*\r\n"@
        + ") ELSE (\r\n"@ + "  @SET PATHEXT=%PATHEXT:;.JS;=;%\r\n"@ + "  "@);
    assert("\" %*\r\n)\r\n"@ =~= "\" %*\r\n"@ + ")\r\n"@);
    let commands = "@IF EXIST \"%~dp0\\"@ + prog + ".exe\" (\r\n"@ + ("  \"%~dp0\\"@ + prog
        + ".exe\" \"%~dp0\\"@ + rel + "\" %*\r\n"@) + ") ELSE (\r\n"@
        + "  @SET PATHEXT=%PATHEXT:;.JS;=;%\r\n"@ + ("  "@ + prog + " \"%~dp0\\"@ + rel
        + "\" %*\r\n"@) + ")\r\n"@;
    assert(cmd_shim(prog, rel, false) =~= "@SETLOCAL\r\n"@ + commands);
    assert(cmd_shim(prog, rel, true) =~= "@SETLOCAL\r\n"@ + "@SET NODE_PATH=%~dp0..\r\n"@
        + commands);
}

/// The script for PowerShell runs the given program on the given target: from the script's
/// directory if it is there and else from the search path, with its input piped on if there
/// is any. `NODE_PATH` is set before that exactly if it was asked for.
pub proof fn law_ps1_script_runs_target(prog: Seq<char>, rel: Seq<char>)
    ensures
        ({
            let start =
                "#!/usr/bin/env pwsh\n$basedir=Split-Path $MyInvocation.MyCommand.Definition -Parent\n\n"@;
            let commands = "$exe=\"\"\nif ($PSVersionTable.PSVersion -lt \"6.0\" -or $IsWindows) {\n  $exe=\".exe\"\n}\n$ret=0\n"@
                + ("if (Test-Path \"$basedir/"@ + prog + "$exe\") {\n"@)
                + "  if ($MyInvocation.ExpectingInput) {\n"@ + ("    $input | & \"$basedir/"@ + prog + "$exe\" \"$basedir/"@ + rel + "\" $args\n"@)
                + "  } else {\n"@ + ("    & \"$basedir/"@ + prog + "$exe\" \"$basedir/"@ + rel + "\" $args\n"@)
                + "  }\n  $ret=$LASTEXITCODE\n} else {\n  if ($MyInvocation.ExpectingInput) {\n"@
                + ("    $input | & \""@ + prog + "$exe\" \"$basedir/"@ + rel + "\" $args\n"@)
                + "  } else {\n"@ + ("    & \""@ + prog + "$exe\" \"$basedir/"@ + rel + "\" $args\n"@)
                + "  }\n  $ret=$LASTEXITCODE\n}\nexit $ret\n"@;
            &&& ps1_shim(prog, rel, false) == start + commands
            &&& ps1_shim(prog, rel, true) == start + "$env:NODE_PATH=\"$basedir/..\"\n"@ + commands
        }),
{
    lemma_ps1_literals();
    let start =
        "#!/usr/bin/env pwsh\n$basedir=Split-Path $MyInvocation.MyCommand.Definition -Parent\n\n"@;
    lemma_ps1_commands(start + only_if(false, "$env:NODE_PATH=\"$basedir/..\"\n"@), prog, rel);
    lemma_ps1_commands(start + only_if(true, "$env:NODE_PATH=\"$basedir/..\"\n"@), prog, rel);
    assert(start + ""@ =~= start);
}

/// A command after some text, and the start of the line that follows it.
proof fn lemma_command(
    text: Seq<char>,
    done: Seq<char>,
    call: Seq<char>,
    prog: Seq<char>,
    middle: Seq<char>,
    rel: Seq<char>,
    last: Seq<char>,
    between: Seq<char>,
    next: Seq<char>,
)
    ensures
        text + done + call + prog + middle + rel + (last + between + next) == text + (done + (call
            + prog + middle + rel + last) + between) + next,
{
    assert(text + done + call + prog + middle + rel + (last + between + next) =~= text + (done + (
    call + prog + middle + rel + last) + between) + next);
}

/// The commands of the script for PowerShell after some text.
proof fn lemma_ps1_commands(text: Seq<char>, prog: Seq<char>, rel: Seq<char>)
    ensures
        ({
            let commands = "$exe=\"\"\nif ($PSVersionTable.PSVersion -lt \"6.0\" -or $IsWindows) {\n  $exe=\".exe\"\n}\n$ret=0\n"@
                + ("if (Test-Path \"$basedir/"@ + prog + "$exe\") {\n"@)
                + "  if ($MyInvocation.ExpectingInput) {\n"@ + ("    $input | & \"$basedir/"@ + prog + "$exe\" \"$basedir/"@ + rel + "\" $args\n"@)
                + "  } else {\n"@ + ("    & \"$basedir/"@ + prog + "$exe\" \"$basedir/"@ + rel + "\" $args\n"@)
                + "  }\n  $ret=$LASTEXITCODE\n} else {\n  if ($MyInvocation.ExpectingInput) {\n"@
                + ("    $input | & \""@ + prog + "$exe\" \"$basedir/"@ + rel + "\" $args\n"@)
                + "  } else {\n"@ + ("    & \""@ + prog + "$exe\" \"$basedir/"@ + rel + "\" $args\n"@)
                + "  }\n  $ret=$LASTEXITCODE\n}\nexit $ret\n"@;
            text + "$exe=\"\"\nif ($PSVersionTable.PSVersion -lt \"6.0\" -or $IsWindows) {\n  $exe=\".exe\"\n}\n$ret=0\nif (Test-Path \"$basedir/"@ + prog + "$exe\") {\n  if ($MyInvocation.ExpectingInput) {\n    $input | & \"$basedir/"@ + prog + "$exe\" \"$basedir/"@ + rel + "\" $args\n  } else {\n    & \"$basedir/"@ + prog + "$exe\" \"$basedir/"@ + rel + "\" $args\n  }\n  $ret=$LASTEXITCODE\n} else {\n  if ($MyInvocation.ExpectingInput) {\n    $input | & \""@ + prog
                + "$exe\" \"$basedir/"@ + rel + "\" $args\n  } else {\n    & \""@ + prog + "$exe\" \"$basedir/"@ + rel + "\" $args\n  }\n  $ret=$LASTEXITCODE\n}\nexit $ret\n"@ == text + commands
        }),
{
    lemma_ps1_literals();
    let a1 = "$exe=\"\"\nif ($PSVersionTable.PSVersion -lt \"6.0\" -or $IsWindows) {\n  $exe=\".exe\"\n}\n$ret=0\n"@;
    let a2 = "if (Test-Path \"$basedir/"@;
    let a4 = "$exe\") {\n"@;
    let a5 = "  if ($MyInvocation.ExpectingInput) {\n"@;
    let a6 = "    $input | & \"$basedir/"@;
    let exe = "$exe\" \"$basedir/"@;
    let a8 = "\" $args\n"@;
    let a9 = "  } else {\n"@;
    let a10 = "    & \"$basedir/"@;
    let a12 = "  }\n  $ret=$LASTEXITCODE\n} else {\n  if ($MyInvocation.ExpectingInput) {\n"@;
    let a13 = "    $input | & \""@;
    let a15 = "    & \""@;
    let a17 = "  }\n  $ret=$LASTEXITCODE\n}\nexit $ret\n"@;
    let c1 = a1 + (a2 + prog + a4) + a5;
    assert(text + (a1 + a2) + prog + (a4 + a5 + a6) =~= text + c1 + a6);
    let c2 = c1 + (a6 + prog + exe + rel + a8) + a9;
    lemma_command(text, c1, a6, prog, exe, rel, a8, a9, a10);
    let c3 = c2 + (a10 + prog + exe + rel + a8) + a12;
    lemma_command(text, c2, a10, prog, exe, rel, a8, a12, a13);
    let c4 = c3 + (a13 + prog + exe + rel + a8) + a9;
    lemma_command(text, c3, a13, prog, exe, rel, a8, a9, a15);
    let none = Seq::<char>::empty();
    lemma_command(text, c4, a15, prog, exe, rel, a8, a17, none);
    assert(a8 + a17 + none =~= a8 + a17);
    let c5 = c4 + (a15 + prog + exe + rel + a8) + a17;
    assert(text + c5 + none =~= text + c5);
}

/// The pieces of the script for PowerShell, line by line.
proof fn lemma_ps1_literals()
    ensures
        ""@.len() == 0,
        "$exe=\"\"\nif ($PSVersionTable.PSVersion -lt \"6.0\" -or $IsWindows) {\n  $exe=\".exe\"\n}\n$ret=0\nif (Test-Path \"$basedir/"@ == "$exe=\"\"\nif ($PSVersionTable.PSVersion -lt \"6.0\" -or $IsWindows) {\n  $exe=\".exe\"\n}\n$ret=0\n"@ + "if (Test-Path \"$basedir/"@,
        "$exe\") {\n  if ($MyInvocation.ExpectingInput) {\n    $input | & \"$basedir/"@ == "$exe\") {\n"@ + "  if ($MyInvocation.ExpectingInput) {\n"@ + "    $input | & \"$basedir/"@,
        "\" $args\n  } else {\n    & \"$basedir/"@ == "\" $args\n"@ + "  } else {\n"@ + "    & \"$basedir/"@,
        "\" $args\n  }\n  $ret=$LASTEXITCODE\n} else {\n  if ($MyInvocation.ExpectingInput) {\n    $input | & \""@ == "\" $args\n"@ + "  }\n  $ret=$LASTEXITCODE\n} else {\n  if ($MyInvocation.ExpectingInput) {\n"@ + "    $input | & \""@,
        "\" $args\n  } else {\n    & \""@ == "\" $args\n"@ + "  } else {\n"@ + "    & \""@,
        "\" $args\n  }\n  $ret=$LASTEXITCODE\n}\nexit $ret\n"@ == "\" $args\n"@ + "  }\n  $ret=$LASTEXITCODE\n}\nexit $ret\n"@,
{
    reveal_strlit("");
    reveal_strlit("$exe=\"\"\nif ($PSVersionTable.PSVersion -lt \"6.0\" -or $IsWindows) {\n  $exe=\".exe\"\n}\n$ret=0\n");
    reveal_strlit("if (Test-Path \"$basedir/");
    reveal_strlit("$exe=\"\"\nif ($PSVersionTable.PSVersion -lt \"6.0\" -or $IsWindows) {\n  $exe=\".exe\"\n}\n$ret=0\nif (Test-Path \"$basedir/");
    reveal_strlit("$exe\") {\n");
    reveal_strlit("  if ($MyInvocation.ExpectingInput) {\n");
    reveal_strlit("    $input | & \"$basedir/");
    reveal_strlit("$exe\") {\n  if ($MyInvocation.ExpectingInput) {\n    $input | & \"$basedir/");
    reveal_strlit("\" $args\n");
    reveal_strlit("  } else {\n");
    reveal_strlit("    & \"$basedir/");
    reveal_strlit("\" $args\n  } else {\n    & \"$basedir/");
    reveal_strlit("  }\n  $ret=$LASTEXITCODE\n} else {\n  if ($MyInvocation.ExpectingInput) {\n");
    reveal_strlit("    $input | & \"");
    reveal_strlit("\" $args\n  }\n  $ret=$LASTEXITCODE\n} else {\n  if ($MyInvocation.ExpectingInput) {\n    $input | & \"");
    reveal_strlit("    & \"");
    reveal_strlit("\" $args\n  } else {\n    & \"");
    reveal_strlit("  }\n  $ret=$LASTEXITCODE\n}\nexit $ret\n");
    reveal_strlit("\" $args\n  }\n  $ret=$LASTEXITCODE\n}\nexit $ret\n");
    assert("$exe=\"\"\nif ($PSVersionTable.PSVersion -lt \"6.0\" -or $IsWindows) {\n  $exe=\".exe\"\n}\n$ret=0\nif (Test-Path \"$basedir/"@ =~= "$exe=\"\"\nif ($PSVersionTable.PSVersion -lt \"6.0\" -or $IsWindows) {\n  $exe=\".exe\"\n}\n$ret=0\n"@ + "if (Test-Path \"$basedir/"@);
    assert("$exe\") {\n  if ($MyInvocation.ExpectingInput) {\n    $input | & \"$basedir/"@ =~= "$exe\") {\n"@ + "  if ($MyInvocation.ExpectingInput) {\n"@ + "    $input | & \"$basedir/"@);
    assert("\" $args\n  } else {\n    & \"$basedir/"@ =~= "\" $args\n"@ + "  } else {\n"@ + "    & \"$basedir/"@);
    assert("\" $args\n  }\n  $ret=$LASTEXITCODE\n} else {\n  if ($MyInvocation.ExpectingInput) {\n    $input | & \""@ =~= "\" $args\n"@ + "  }\n  $ret=$LASTEXITCODE\n} else {\n  if ($MyInvocation.ExpectingInput) {\n"@ + "    $input | & \""@);
    assert("\" $args\n  } else {\n    & \""@ =~= "\" $args\n"@ + "  } else {\n"@ + "    & \""@);
    assert("\" $args\n  }\n  $ret=$LASTEXITCODE\n}\nexit $ret\n"@ =~= "\" $args\n"@ + "  }\n  $ret=$LASTEXITCODE\n}\nexit $ret\n"@);
}

/// The scripts for Windows name the target with the separators of the shell that reads them:
/// backslashes for `cmd.exe` and slashes for the others.
pub proof fn law_windows_scripts(
    name: Seq<char>,
    prog: Seq<char>,
    rel: Seq<char>,
    back: Seq<char>,
    forward: Seq<char>,
    extend: bool,
)
    requires
        back.len() == rel.len(),
        forward.len() == rel.len(),
        forall|i: int|
            0 <= i < rel.len() ==> #[trigger] back[i] == if rel[i] == '/' {
                '\\'
            } else {
                rel[i]
            },
        forall|i: int|
            0 <= i < rel.len() ==> #[trigger] forward[i] == if rel[i] == '\\' {
                '/'
            } else {
                rel[i]
            },
    ensures
        ({
            let files = shim_files_of(Host::Windows, name, prog, rel, extend);
            &&& files.len() == 3
            &&& files[0].name == name + ".cmd"@ && files[0].content == cmd_shim(prog, back, extend)
            &&& files[1].name == name + ".ps1"@ && files[1].content == ps1_shim(
                prog,
                forward,
                extend,
            )
            &&& files[2].name == name && files[2].content == sh_shim(prog, forward, extend)
            &&& forall|i: int| 0 <= i < 3 ==> !(#[trigger] files[i]).executable
        }),
{
    assert(replace(rel, '/', '\\') =~= back);
    assert(replace(rel, '\\', '/') =~= forward);
}

/// The one script for Unix has the entry's own name and can be executed.
pub proof fn law_unix_script(name: Seq<char>, prog: Seq<char>, rel: Seq<char>, extend: bool)
    ensures
        ({
            let files = shim_files_of(Host::Unix, name, prog, rel, extend);
            &&& files.len() == 1
            &&& files[0].name == name
            &&& files[0].executable
            &&& files[0].content == posix_shim(prog, rel, extend)
        }),
{
}

/// Windows always gets scripts. Unix gets a symlink unless it is declined, whatever else is
/// asked for.
pub proof fn law_entry_kinds(prefer_symlink: Option<bool>)
    ensures
        entry_kind_of(Host::Windows, prefer_symlink) == EntryKind::Scripts,
        entry_kind_of(Host::Unix, prefer_symlink) == EntryKind::Scripts <==> prefer_symlink == Some(
            false,
        ),
        entry_kind_of(Host::Unix, prefer_symlink) != EntryKind::Unsupported,
        entry_kind_of(Host::Other, prefer_symlink) == EntryKind::Unsupported,
{
}

/// Removing an entry removes the file of its name, on Windows also the two with an extension,
/// and nothing else.
pub proof fn law_removed_names(host: Host, name: Seq<char>, file: Seq<char>)
    ensures
        shim_names_of(host, name).contains(file) <==> file == name || host == Host::Windows && (file
            == name + ".cmd"@ || file == name + ".ps1"@),
{
    let names = shim_names_of(host, name);
    assert(names[0] == name);
    if host == Host::Windows {
        assert(names[1] == name + ".cmd"@);
        assert(names[2] == name + ".ps1"@);
    }
}

/// The target of a script is what follows the marker in the first line that starts with it;
/// a text without such a line has none.
pub proof fn law_marked_target(some: Seq<Seq<char>>, rel: Seq<char>, rest: Seq<Seq<char>>)
    requires
        forall|i: int|
            0 <= i < some.len() ==> !"# aube-bin-shim v1 target="@.is_prefix_of(#[trigger] some[i]),
    ensures
        marked_target(some) is None,
        marked_target(some + seq!["# aube-bin-shim v1 target="@ + rel] + rest) == Some(rel),
    decreases some.len(),
{
    let mark = "# aube-bin-shim v1 target="@;
    let line = mark + rel;
    let all = some + seq![line] + rest;
    if some.len() == 0 {
        assert(all[0] == line);
        assert(line.subrange(0, mark.len() as int) =~= mark);
        assert(line.skip(mark.len() as int) =~= rel);
    } else {
        let tail = some.drop_first();
        assert forall|i: int| 0 <= i < tail.len() implies !mark.is_prefix_of(#[trigger] tail[i]) by {
            assert(tail[i] == some[i + 1]);
        }
        law_marked_target(tail, rel, rest);
        assert(!mark.is_prefix_of(some[0]));
        assert(all[0] == some[0]);
        assert(all.drop_first() =~= tail + seq![line] + rest);
    }
}

} // verus!
