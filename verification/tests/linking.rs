use aube::bin_target::{bin_target_text, relative_bin_target};
use aube::host::Host;
use aube::interpreter::{detect_interpreter, extension_program, shebang_program, SHEBANG_HEAD};
use aube::links::{create_bin_shim, create_dir_link, BinEntry, DirLink, DirLinkError};
use aube::path::{normalize_path, parent, PathComponent};
use aube::shim::{
    generate_cmd_shim, generate_posix_shim, generate_ps1_shim, generate_sh_shim,
    parse_posix_shim_target, remove_bin_shim, shim_files, BinShimOptions, ShimFile,
    POSIX_SHIM_MARKER_PREFIX,
};

fn head(script: &str) -> &[u8] {
    let bytes = script.as_bytes();
    &bytes[..bytes.len().min(SHEBANG_HEAD)]
}

/// The components of a Windows path.
fn windows(path: &str) -> Vec<PathComponent<String>> {
    let mut out = Vec::new();
    for (i, part) in path.split('\\').enumerate() {
        if i == 0 && part.ends_with(':') {
            out.push(PathComponent::Prefix(part.to_string()));
            out.push(PathComponent::RootDir);
        } else if part == ".." {
            out.push(PathComponent::ParentDir);
        } else if part == "." {
            out.push(PathComponent::CurDir);
        } else {
            out.push(PathComponent::Normal(part.to_string()));
        }
    }
    out
}

/// The components of a path with slashes.
fn unix(path: &str) -> Vec<PathComponent<String>> {
    let mut out = Vec::new();
    if path.starts_with('/') {
        out.push(PathComponent::RootDir);
    }
    for part in path.split('/') {
        match part {
            "" => {}
            "." => out.push(PathComponent::CurDir),
            ".." => out.push(PathComponent::ParentDir),
            name => out.push(PathComponent::Normal(name.to_string())),
        }
    }
    out
}

fn options(extend_node_path: bool, prefer: Option<bool>) -> BinShimOptions {
    BinShimOptions { extend_node_path, prefer_symlinked_executables: prefer }
}

fn scripts(entry: BinEntry) -> Vec<ShimFile> {
    match entry {
        BinEntry::Scripts(files) => files,
        other => panic!("{other:?}"),
    }
}

fn content<'a>(files: &'a [ShimFile], name: &str) -> &'a str {
    &files.iter().find(|f| f.name == name).unwrap().content
}

#[test]
fn detect_interpreter_shebang_env_node() {
    let script = head("#!/usr/bin/env node\nconsole.log('hi');\n");
    // cli.js
    assert_eq!(detect_interpreter(script, Some("js")), "node");
}

#[test]
fn detect_interpreter_shebang_env_with_s_flag() {
    let script = head("#!/usr/bin/env -S node --harmony\nconsole.log('hi');\n");
    // cli.js
    assert_eq!(detect_interpreter(script, Some("js")), "node");
}

#[test]
fn detect_interpreter_shebang_absolute_path() {
    let script = head("#!/usr/bin/node\nconsole.log('hi');\n");
    // cli.js
    assert_eq!(detect_interpreter(script, Some("js")), "node");
}

#[test]
fn detect_interpreter_shebang_env_python() {
    let script = head("#!/usr/bin/env python3\nprint('hi')\n");
    // cli.py
    assert_eq!(detect_interpreter(script, Some("py")), "python3");
}

#[test]
fn detect_interpreter_shebang_with_env_vars() {
    let script =
        head("#!/usr/bin/env NODE_OPTIONS=--max-old-space-size=4096 node\nconsole.log('hi');\n");
    // cli.js
    assert_eq!(detect_interpreter(script, Some("js")), "node");
}

#[test]
fn detect_interpreter_no_shebang_js() {
    let script = head("console.log('hi');\n");
    // cli.js
    assert_eq!(detect_interpreter(script, Some("js")), "node");
}

#[test]
fn detect_interpreter_nonexistent_file_defaults_to_node() {
    // /nonexistent/file.js
    assert_eq!(detect_interpreter(&[], Some("js")), "node");
}

#[test]
fn interpreter_without_shebang_is_node() {
    for extension in [None, Some("js"), Some("cmd"), Some("bat"), Some("ps1"), Some("sh")] {
        // /nonexistent/run with any extension
        assert_eq!(detect_interpreter(&[], extension), "node");
        assert_eq!(detect_interpreter(b"#", extension), "node");
        assert_eq!(detect_interpreter(b"echo hi\n", extension), "node");
        // The shebang line is empty.
        assert_eq!(detect_interpreter(b"#!\n", extension), "node");
    }
}

#[test]
fn extension_decides_where_shebang_names_nothing() {
    for (extension, program) in [
        (None, "node"),
        (Some("js"), "node"),
        (Some("cjs"), "node"),
        (Some("mjs"), "node"),
        (Some("cmd"), "cmd"),
        (Some("bat"), "cmd"),
        (Some("ps1"), "pwsh"),
        (Some("sh"), "sh"),
        (Some("rb"), "node"),
    ] {
        assert_eq!(extension_program(extension), program);
        // The path ends in a slash.
        assert_eq!(detect_interpreter(b"#!/bin/\n", extension), program);
        // The line does not end within the head.
        assert_eq!(detect_interpreter(b"#!/bin/bash", extension), program);
        assert_eq!(detect_interpreter(b"#!", extension), program);
    }
}

#[test]
fn shebang_lines() {
    assert_eq!(shebang_program(" /bin/bash -e "), "bash");
    assert_eq!(shebang_program("node"), "node");
    assert_eq!(shebang_program("/usr/bin/env"), "node");
    assert_eq!(shebang_program("/usr/bin/envoy x"), "oy");
    assert_eq!(shebang_program("/usr/bin/env -Sdeno run"), "deno");
    assert_eq!(shebang_program("/usr/bin/env A=1\tB=2 ruby -w"), "ruby");
    assert_eq!(shebang_program("/usr/bin/env A=1"), "node");
    assert_eq!(shebang_program("/opt/"), "");
    assert_eq!(shebang_program(""), "node");
}

#[test]
fn shebang_bytes_are_read_as_text() {
    assert_eq!(detect_interpreter("#!/opt/\u{e9}t\u{e9}\n".as_bytes(), None), "\u{e9}t\u{e9}");
    assert_eq!(detect_interpreter(b"#!/opt/a\xffb\n", None), "a\u{fffd}b");
}

#[test]
fn relative_bin_target_computes_path() {
    let bin_dir = "/project/node_modules/.bin";
    let target = "/project/node_modules/.aube/is-odd@3.0.1/node_modules/is-odd/cli.js";
    let rel = relative_bin_target(Host::Unix, bin_dir, target);
    assert_eq!(rel, "../.aube/is-odd@3.0.1/node_modules/is-odd/cli.js");
}

#[test]
fn relative_targets() {
    for (bin_dir, target, rel) in [
        ("/a/b", "/a/b", ""),
        ("/a/b", "/a/b/c/d", "c/d"),
        ("/a/b/c", "/a", "../.."),
        ("/a", "/b/../c", "../b/../c"),
        ("/", "/x", "x"),
        ("/a/./b//c/", "/a/b/d", "../d"),
        ("/a/..", "/b", "../../b"),
        ("/a/..", "/a/b", "/a/b"),
        ("/a/../b", "/a/../c", "../c"),
        ("/a/..", "/a", ".."),
        // Both relative.
        ("a/b", "a/c", "../c"),
        ("", "a", "a"),
        ("../a", "../b/./c", "../b/c"),
        ("..", "a", "a"),
        ("a", "", ".."),
        // One or both start with a dot.
        ("./a", "./b", "../b"),
        (".", ".", ""),
        (".", "", ".."),
        ("", "./a", "./a"),
        ("a", ".", "../."),
        ("a/b", "./c", "../.././c"),
        ("..", "./a", "./a"),
        (".", "a/b", "a/b"),
        ("./x", "a", "a/.."),
        ("./x/y", "a/b", "a/../../b"),
        ("./..", "a", "a/.."),
        ("./..", "a/b", "a/b"),
    ] {
        for host in [Host::Unix, Host::Windows, Host::Other] {
            assert_eq!(relative_bin_target(host, bin_dir, target), rel, "{bin_dir} {target}");
        }
    }
    assert_eq!(bin_target_text(None, "C:\\a\\b"), "C:/a/b");
    assert_eq!(bin_target_text(Some("..\\a".to_string()), "x"), "../a");
}

#[test]
fn relative_targets_on_a_drive() {
    for (bin_dir, target, rel) in [
        (r"C:\p\node_modules\.bin", r"C:\p\node_modules\.aube\x@1\cli.js", "../.aube/x@1/cli.js"),
        (r"C:\p/a", r"C:/p\b\c", "../b/c"),
        (r"z:\", r"z:\x\.\y", "x/y"),
        (r"C:\a\b", r"C:\a", ".."),
        (r"C:\a\..", r"C:\b", "../../b"),
        // No path leads there.
        (r"C:\a\..", r"C:\a\b", "C:/a/b"),
    ] {
        assert_eq!(relative_bin_target(Host::Windows, bin_dir, target), rel, "{bin_dir} {target}");
    }
    let files = scripts(create_bin_shim(
        Host::Windows,
        r"C:\p\node_modules\.bin",
        "x",
        r"C:\p\node_modules\.aube\x@1\cli.js",
        Some("js"),
        &[],
        BinShimOptions::default(),
    ));
    assert!(content(&files, "x.cmd").contains("\"%~dp0\\..\\.aube\\x@1\\cli.js\""));
    assert!(content(&files, "x").contains("\"$basedir/../.aube/x@1/cli.js\""));
}

#[test]
fn relative_targets_are_relocatable() {
    let (bin_dir, target) = ("/m/.bin", "/m/.aube/x/cli.js");
    let rel = relative_bin_target(Host::Unix, bin_dir, target);
    for dir in ["/p", "/p/../q", "/p/"] {
        let moved = relative_bin_target(
            Host::Unix,
            &format!("{dir}{bin_dir}"),
            &format!("{dir}{target}"),
        );
        assert_eq!(moved, rel);
    }
}

#[test]
fn drive_targets_lead_to_the_target() {
    for (bin_dir, target) in [
        (r"C:\p\node_modules\.bin", r"C:\p\node_modules\.aube\x@1\cli.js"),
        (r"C:\p", r"C:\q\r"),
    ] {
        let rel = relative_bin_target(Host::Windows, bin_dir, target);
        let mut path = windows(bin_dir);
        path.extend(unix(&rel));
        assert_eq!(normalize_path(path), windows(target));
    }
}

#[test]
fn script_replaces_symlink() {
    let shim = |prefer: Option<bool>| {
        create_bin_shim(
            Host::Unix,
            "/dir/.bin",
            "mycli",
            "/dir/pkg/cli.js",
            Some("js"),
            head("#!/usr/bin/env node\n"),
            options(false, prefer),
        )
    };
    assert!(matches!(shim(None), BinEntry::Symlink));
    let once = scripts(shim(Some(false)));
    let again = scripts(shim(Some(false)));
    assert_eq!(once.len(), 1);
    assert_eq!(remove_bin_shim(Host::Unix, "mycli"), vec![once[0].name.clone()]);
    assert_eq!(once[0].content, again[0].content);
}

#[test]
fn relative_targets_lead_to_the_target() {
    for (bin_dir, target) in [
        ("/p/node_modules/.bin", "/p/node_modules/.aube/x@1/cli.js"),
        ("/p/node_modules/.bin", "/q/r"),
        ("/p", "/p/q"),
        ("/p/../q/r", "/p/../s"),
    ] {
        let rel = relative_bin_target(Host::Unix, bin_dir, target);
        let shim = generate_posix_shim("node", &rel, false);
        let found = parse_posix_shim_target(&shim).unwrap();
        let mut path = unix(bin_dir);
        path.extend(unix(found));
        assert_eq!(normalize_path(path), normalize_path(unix(target)));
    }
}

#[test]
fn normalize_collapses_parent_and_cur_dir() {
    let p = windows(r"C:\a\b\.\..\c\d\..\e");
    assert_eq!(normalize_path(p), windows(r"C:\a\c\e"));
}

#[test]
fn normalize_keeps_steps_above_the_start() {
    assert_eq!(normalize_path(unix("/../a")), unix("/../a"));
    assert_eq!(normalize_path(unix("../a")), unix("../a"));
    // A second step up takes back the first.
    assert_eq!(normalize_path(unix("../../a")), unix("a"));
    assert_eq!(normalize_path(unix("a/..")), unix(""));
    let once = normalize_path(unix("/../a/./b/../c"));
    assert_eq!(normalize_path(unix("/../a/c")), once);
}

#[test]
fn parents() {
    assert_eq!(parent(unix("/a/b")), Some(unix("/a")));
    assert_eq!(parent(unix("a")), Some(unix("")));
    assert_eq!(parent(unix("a/..")), Some(unix("a")));
    assert_eq!(parent(unix("/")), None);
    assert_eq!(parent(unix("")), None);
    assert_eq!(parent(vec![PathComponent::Prefix("C:".to_string())]), None);
}

#[test]
fn directory_links() {
    let none: Option<Vec<PathComponent<String>>> = None;
    assert_eq!(create_dir_link(Host::Unix, false, none), Ok(DirLink::Symlink));
    let path = windows(r"C:\p\parent\..\target");
    assert_eq!(
        create_dir_link(Host::Windows, false, Some(path)),
        Ok(DirLink::ResolvedJunction(windows(r"C:\p\target")))
    );
    let none: Option<Vec<PathComponent<String>>> = None;
    assert_eq!(create_dir_link(Host::Windows, true, none), Ok(DirLink::Junction));
    let none: Option<Vec<PathComponent<String>>> = None;
    assert_eq!(create_dir_link(Host::Windows, false, none), Err(DirLinkError::NoParent));
    assert_eq!(
        create_dir_link(Host::Other, true, Some(unix("a"))),
        Err(DirLinkError::Unsupported)
    );
    assert_eq!(DirLinkError::NoParent.message(), "junction link has no parent directory");
    assert_eq!(
        DirLinkError::Unsupported.message(),
        "directory links are not supported on this platform"
    );
}

#[test]
fn creates_junction_without_developer_mode() {
    // From `parent\link` to `..\target`.
    let link = windows(r"C:\dir\parent\link");
    let mut resolved = parent(link).unwrap();
    resolved.extend(windows(r"..\target"));
    assert_eq!(
        create_dir_link(Host::Windows, false, Some(resolved)),
        Ok(DirLink::ResolvedJunction(windows(r"C:\dir\target")))
    );
}

#[test]
fn create_bin_shim_writes_three_files() {
    let entry = create_bin_shim(
        Host::Windows,
        "/dir/node_modules/.bin",
        "is-odd",
        "/dir/node_modules/.aube/is-odd@3.0.1/node_modules/is-odd/cli.js",
        Some("js"),
        head("#!/usr/bin/env node\nconsole.log('hi');\n"),
        BinShimOptions::default(),
    );
    let files = scripts(entry);
    assert_eq!(files.len(), 3);

    let cmd = content(&files, "is-odd.cmd");
    assert!(cmd.contains("node.exe"));
    assert!(cmd.contains(".aube"));
    assert!(cmd.contains("\\..\\.aube\\is-odd@3.0.1\\node_modules\\is-odd\\cli.js"));

    let ps1 = content(&files, "is-odd.ps1");
    assert!(ps1.contains("node$exe"));

    let sh = content(&files, "is-odd");
    assert!(sh.starts_with("#!/bin/sh"));
}

#[test]
fn create_bin_shim_cleans_old_files() {
    let shim = |script: &str| -> Vec<ShimFile> {
        scripts(create_bin_shim(
            Host::Windows,
            "/dir/node_modules/.bin",
            "mycli",
            "/dir/pkg/cli.js",
            Some("js"),
            head(script),
            BinShimOptions::default(),
        ))
    };
    let v1 = shim("#!/usr/bin/env node\nconsole.log('v1');\n");
    let v2 = shim("#!/usr/bin/env node\nconsole.log('v2');\n");
    assert_eq!(content(&v1, "mycli.cmd"), content(&v2, "mycli.cmd"));
    for file in &v1 {
        assert!(remove_bin_shim(Host::Windows, "mycli").contains(&file.name));
    }
}

#[test]
fn remove_bin_shim_removes_all_files() {
    let files = scripts(create_bin_shim(
        Host::Windows,
        "/dir/node_modules/.bin",
        "mycli",
        "/dir/pkg/cli.js",
        Some("js"),
        head("console.log('hi');\n"),
        BinShimOptions::default(),
    ));
    let mut left: Vec<String> = files.into_iter().map(|f| f.name).collect();
    assert!(left.contains(&"mycli.cmd".to_string()));
    assert!(left.contains(&"mycli.ps1".to_string()));
    assert!(left.contains(&"mycli".to_string()));

    let removed = remove_bin_shim(Host::Windows, "mycli");
    left.retain(|name| !removed.contains(name));
    assert!(left.is_empty());
    assert_eq!(remove_bin_shim(Host::Unix, "mycli"), vec!["mycli".to_string()]);
    assert_eq!(remove_bin_shim(Host::Other, "mycli"), vec!["mycli".to_string()]);
}

#[test]
fn create_bin_shim_creates_symlink_on_unix() {
    let entry = create_bin_shim(
        Host::Unix,
        "/dir/node_modules/.bin",
        "mycli",
        "/dir/pkg/cli.js",
        Some("js"),
        head("#!/usr/bin/env node\nconsole.log('hi');\n"),
        BinShimOptions::default(),
    );
    assert!(matches!(entry, BinEntry::Symlink));
}

#[test]
fn create_bin_shim_writes_posix_shim_when_symlink_opt_out() {
    let files = scripts(create_bin_shim(
        Host::Unix,
        "/dir/node_modules/.bin",
        "mycli",
        "/dir/pkg/cli.js",
        Some("js"),
        head("#!/usr/bin/env node\nconsole.log('hi');\n"),
        options(false, Some(false)),
    ));
    assert_eq!(files.len(), 1);
    let content = content(&files, "mycli");
    assert!(content.starts_with("#!/bin/sh"));
    assert!(content.contains("exec \"$basedir/node\""));
    assert!(content.contains(POSIX_SHIM_MARKER_PREFIX));
    assert!(!content.contains("NODE_PATH"));
    assert!(files[0].executable);
}

#[test]
fn parse_posix_shim_target_round_trips_generator_output() {
    let files = scripts(create_bin_shim(
        Host::Unix,
        "/dir/node_modules/.bin",
        "semver",
        "/dir/node_modules/.aube/semver@1.0.0/node_modules/semver/bin/semver.js",
        Some("js"),
        head("#!/usr/bin/env node\n"),
        options(true, Some(false)),
    ));
    let content = content(&files, "semver");
    let rel = parse_posix_shim_target(content).expect("shim should carry its marker");
    assert_eq!(
        rel,
        "../.aube/semver@1.0.0/node_modules/semver/bin/semver.js",
    );
}

#[test]
fn parse_posix_shim_target_rejects_foreign_scripts() {
    assert!(parse_posix_shim_target("#!/bin/sh\necho hi\n").is_none());
    assert!(
        parse_posix_shim_target("#!/bin/sh\nexec node \"$basedir/../pkg/cli.js\" \"$@\"\n",)
            .is_none()
    );
}

#[test]
fn first_marker_counts() {
    let text = "x\r\n# aube-bin-shim v1 target=\u{e9}/a\r\n# aube-bin-shim v1 target=b\n";
    assert_eq!(parse_posix_shim_target(text), Some("\u{e9}/a"));
    assert_eq!(parse_posix_shim_target(" # aube-bin-shim v1 target=b"), None);
    assert_eq!(parse_posix_shim_target("# aube-bin-shim v1 target="), Some(""));
    assert_eq!(parse_posix_shim_target("# aube-bin-shim v2 target=b"), None);
    // Targets that do not stand on one line are cut off.
    for (rel, found) in [("a\nb", "a"), ("a\r", "a"), ("a\rb", "a\rb")] {
        let shim = generate_posix_shim("node", rel, true);
        assert_eq!(parse_posix_shim_target(&shim), Some(found));
    }
}

#[test]
fn create_bin_shim_injects_node_path_in_posix_shim() {
    let files = scripts(create_bin_shim(
        Host::Unix,
        "/dir/node_modules/.bin",
        "mycli",
        "/dir/pkg/cli.js",
        Some("js"),
        head("#!/usr/bin/env node\nconsole.log('hi');\n"),
        options(true, Some(false)),
    ));
    assert!(content(&files, "mycli").contains("export NODE_PATH=\"$basedir/..\""));
}

#[test]
fn create_bin_shim_ignores_node_path_for_symlink() {
    for prefer in [None, Some(true)] {
        let entry = create_bin_shim(
            Host::Unix,
            "/dir/node_modules/.bin",
            "mycli",
            "/dir/pkg/cli.js",
            Some("js"),
            head("#!/usr/bin/env node\nconsole.log('hi');\n"),
            options(true, prefer),
        );
        assert!(matches!(entry, BinEntry::Symlink));
    }
}

#[test]
fn create_bin_shim_injects_node_path_on_windows() {
    let files = scripts(create_bin_shim(
        Host::Windows,
        "/dir/node_modules/.bin",
        "mycli",
        "/dir/pkg/cli.js",
        Some("js"),
        head("#!/usr/bin/env node\nconsole.log('hi');\n"),
        options(true, None),
    ));
    assert!(content(&files, "mycli.cmd").contains("@SET NODE_PATH=%~dp0.."));
    assert!(content(&files, "mycli.ps1").contains("$env:NODE_PATH=\"$basedir/..\""));
    assert!(content(&files, "mycli").contains("export NODE_PATH=\"$basedir/..\""));
}

#[test]
fn create_bin_shim_omits_node_path_when_false() {
    let files = scripts(create_bin_shim(
        Host::Windows,
        "/dir/node_modules/.bin",
        "mycli",
        "/dir/pkg/cli.js",
        Some("js"),
        head("console.log('hi');\n"),
        options(false, None),
    ));
    assert!(!content(&files, "mycli.cmd").contains("NODE_PATH"));
}

#[test]
fn create_bin_shim_is_unsupported_elsewhere() {
    let entry = create_bin_shim(
        Host::Other,
        "/dir/node_modules/.bin",
        "mycli",
        "/dir/pkg/cli.js",
        Some("js"),
        &[],
        options(true, Some(false)),
    );
    assert!(matches!(entry, BinEntry::Unsupported));
    assert!(shim_files(Host::Other, "mycli", "node", "../x", false).is_empty());
}

#[test]
fn script_texts_are_exact() {
    let prog = "node";
    let rel = "REL";
    assert_eq!(
        generate_cmd_shim(prog, rel, true),
        format!(
            "@SETLOCAL\r\n\
             @SET NODE_PATH=%~dp0..\r\n\
             @IF EXIST \"%~dp0\\{prog}.exe\" (\r\n\
             \x20 \"%~dp0\\{prog}.exe\" \"%~dp0\\{rel}\" %*\r\n\
             ) ELSE (\r\n\
             \x20 @SET PATHEXT=%PATHEXT:;.JS;=;%\r\n\
             \x20 {prog} \"%~dp0\\{rel}\" %*\r\n\
             )\r\n"
        )
    );
    assert_eq!(
        generate_ps1_shim(prog, rel, false),
        format!(
            "#!/usr/bin/env pwsh\n\
             $basedir=Split-Path $MyInvocation.MyCommand.Definition -Parent\n\
             \n\
             $exe=\"\"\n\
             if ($PSVersionTable.PSVersion -lt \"6.0\" -or $IsWindows) {{\n\
             \x20 $exe=\".exe\"\n\
             }}\n\
             $ret=0\n\
             if (Test-Path \"$basedir/{prog}$exe\") {{\n\
             \x20 if ($MyInvocation.ExpectingInput) {{\n\
             \x20\x20\x20 $input | & \"$basedir/{prog}$exe\" \"$basedir/{rel}\" $args\n\
             \x20 }} else {{\n\
             \x20\x20\x20 & \"$basedir/{prog}$exe\" \"$basedir/{rel}\" $args\n\
             \x20 }}\n\
             \x20 $ret=$LASTEXITCODE\n\
             }} else {{\n\
             \x20 if ($MyInvocation.ExpectingInput) {{\n\
             \x20\x20\x20 $input | & \"{prog}$exe\" \"$basedir/{rel}\" $args\n\
             \x20 }} else {{\n\
             \x20\x20\x20 & \"{prog}$exe\" \"$basedir/{rel}\" $args\n\
             \x20 }}\n\
             \x20 $ret=$LASTEXITCODE\n\
             }}\n\
             exit $ret\n"
        )
    );
    assert_eq!(
        generate_sh_shim(prog, rel, false),
        format!(
            "#!/bin/sh\n\
             basedir=$(dirname \"$(echo \"$0\" | sed -e 's,\\\\,/,g')\")\n\
             \n\
             case `uname` in\n\
             \x20\x20\x20 *CYGWIN*|*MINGW*|*MSYS*)\n\
             \x20\x20\x20\x20\x20\x20\x20 if command -v cygpath > /dev/null 2>&1; then\n\
             \x20\x20\x20\x20\x20\x20\x20\x20\x20\x20\x20 basedir=`cygpath -w \"$basedir\"`\n\
             \x20\x20\x20\x20\x20\x20\x20 fi\n\
             \x20\x20\x20 ;;\n\
             esac\n\
             \n\
             if [ -x \"$basedir/{prog}\" ]; then\n\
             \x20 exec \"$basedir/{prog}\" \"$basedir/{rel}\" \"$@\"\n\
             else\n\
             \x20 exec {prog} \"$basedir/{rel}\" \"$@\"\n\
             fi\n"
        )
    );
    assert_eq!(
        generate_posix_shim(prog, rel, true),
        format!(
            "#!/bin/sh\n\
             {POSIX_SHIM_MARKER_PREFIX}{rel}\n\
             basedir=$(dirname \"$0\")\n\
             export NODE_PATH=\"$basedir/..\"\n\
             if [ -x \"$basedir/{prog}\" ]; then\n\
             \x20 exec \"$basedir/{prog}\" \"$basedir/{rel}\" \"$@\"\n\
             else\n\
             \x20 exec {prog} \"$basedir/{rel}\" \"$@\"\n\
             fi\n"
        )
    );
}
