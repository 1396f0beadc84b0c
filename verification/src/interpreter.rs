//! Which program runs a script.

use vstd::prelude::*;
use vstd::slice::slice_subrange;
use vstd::utf8::{decode_utf8, valid_utf8};
use crate::text::{
    chars_of, find, find_whitespace, is_whitespace, lacks, law_trim, lemma_find_bounds,
    lemma_find_whitespace_at, lemma_find_whitespace_bounds, lemma_trim_start_len, position,
    starts_with, string_of, trim, trim_start, trimmed, trimmed_start, whitespace_position,
};

verus! {

/// How many bytes at the start of a script are looked at.
pub const SHEBANG_HEAD: usize = 256;

/// `#` in ASCII.
pub const HASH: u8 = 0x23;

/// `!` in ASCII.
pub const BANG: u8 = 0x21;

/// The line feed in ASCII.
pub const LINE_FEED: u8 = 0x0a;

/// The text that some bytes are read as, where what is not UTF-8 is replaced.
pub uninterp spec fn lossy_utf8(bytes: Seq<u8>) -> Seq<char>;

/// Where a byte first occurs, or the number of bytes if it does not.
pub open spec fn find_byte(bytes: Seq<u8>, b: u8) -> nat
    decreases bytes.len(),
{
    if bytes.len() == 0 || bytes[0] == b {
        0
    } else {
        1 + find_byte(bytes.drop_first(), b)
    }
}

/// Whether a script has a shebang: whether it starts with `#!`.
pub open spec fn has_shebang(head: Seq<u8>) -> bool {
    head.len() >= 2 && head[0] == HASH && head[1] == BANG
}

/// What follows `#!` in the first line, if the head of a script holds that line whole.
pub open spec fn shebang(head: Seq<u8>) -> Option<Seq<u8>> {
    let end = find_byte(head, LINE_FEED);
    if has_shebang(head) && end < head.len() {
        Some(head.subrange(2, end as int))
    } else {
        None
    }
}

/// The words of a text, between its whitespace.
pub open spec fn words(s: Seq<char>) -> Seq<Seq<char>>
    decreases s.len(),
    when true via words_decreases
{
    let t = trim_start(s);
    if t.len() == 0 {
        seq![]
    } else {
        seq![t.take(find_whitespace(t) as int)] + words(t.skip(find_whitespace(t) as int))
    }
}

#[via_fn]
proof fn words_decreases(s: Seq<char>) {
    lemma_trim_start_len(s);
    lemma_find_whitespace_bounds(trim_start(s));
    let t = trim_start(s);
    if t.len() > 0 {
        assert(find_whitespace(t) > 0);
    }
}

/// The first word that is not an assignment such as `KEY=value`, or `node`.
pub open spec fn first_program(list: Seq<Seq<char>>) -> Seq<char>
    decreases list.len(),
{
    if list.len() == 0 {
        "node"@
    } else if lacks(list[0], '=') {
        list[0]
    } else {
        first_program(list.drop_first())
    }
}

/// What follows the last slash.
pub open spec fn basename(path: Seq<char>) -> Seq<char>
    decreases path.len(),
{
    let slash = find(path, '/');
    if slash >= path.len() {
        path
    } else {
        basename(path.skip((slash + 1) as int))
    }
}

/// The program that a shebang line names. Of `/usr/bin/env` the arguments count, without
/// the flag `-S` and without assignments; of any other program the name counts, without
/// its directory.
pub open spec fn shebang_program_of(text: Seq<char>) -> Seq<char> {
    let line = trim(text);
    if "/usr/bin/env"@.is_prefix_of(line) {
        let rest = trim_start(line.skip("/usr/bin/env"@.len() as int));
        if "-S"@.is_prefix_of(rest) {
            first_program(words(rest.skip("-S"@.len() as int)))
        } else {
            first_program(words(rest))
        }
    } else if words(line).len() == 0 {
        "node"@
    } else {
        basename(words(line)[0])
    }
}

/// The program for a file extension.
pub open spec fn extension_program_of(extension: Option<Seq<char>>) -> Seq<char> {
    match extension {
        Some(e) => if e == "cmd"@ || e == "bat"@ {
            "cmd"@
        } else if e == "ps1"@ {
            "pwsh"@
        } else if e == "sh"@ {
            "sh"@
        } else {
            "node"@
        },
        None => "node"@,
    }
}

/// The program that runs a script: the one that its shebang line names. Without a shebang it
/// is `node`. Where the shebang line names nothing, or does not end within the head, the
/// extension decides.
pub open spec fn interpreter(head: Seq<u8>, extension: Option<Seq<char>>) -> Seq<char> {
    match shebang(head) {
        Some(bytes) => if shebang_program_of(lossy_utf8(bytes)).len() > 0 {
            shebang_program_of(lossy_utf8(bytes))
        } else {
            extension_program_of(extension)
        },
        None => if has_shebang(head) {
            extension_program_of(extension)
        } else {
            "node"@
        },
    }
}

/// Reads bytes as text by `String::from_utf8_lossy`. Of valid UTF-8 the result is what it
/// encodes; what is put in the place of invalid bytes is only named, not described.
#[verifier::external_body]
fn read_lossy(bytes: &[u8]) -> (r: String)
    ensures
        r@ == lossy_utf8(bytes@),
        valid_utf8(bytes@) ==> r@ == decode_utf8(bytes@),
{
    String::from_utf8_lossy(bytes).into_owned()
}

/// The view of an optional string slice.
pub open spec fn str_option(s: Option<&str>) -> Option<Seq<char>> {
    match s {
        Some(t) => Some(t@),
        None => None,
    }
}

fn byte_position(bytes: &[u8], b: u8) -> (r: usize)
    ensures
        r == find_byte(bytes@, b),
        r <= bytes@.len(),
        r < bytes@.len() ==> bytes@[r as int] == b,
{
    let mut i: usize = 0;
    assert(bytes@.skip(0) =~= bytes@);
    while i < bytes.len() && bytes[i] != b
        invariant
            i <= bytes@.len(),
            i + find_byte(bytes@.skip(i as int), b) == find_byte(bytes@, b),
        decreases bytes.len() - i,
    {
        assert(bytes@.skip(i as int).drop_first() =~= bytes@.skip(i + 1));
        i += 1;
    }
    i
}

/// The first word of a text, if it has one, and what follows it.
fn next_word<'a>(s: &'a [char]) -> (r: Option<(&'a [char], &'a [char])>)
    ensures
        match r {
            Some((word, rest)) => words(s@) == seq![word@] + words(rest@) && rest@.len() < s@.len(),
            None => words(s@) == Seq::<Seq<char>>::empty(),
        },
{
    let t = trimmed_start(s);
    proof {
        lemma_trim_start_len(s@);
        lemma_find_whitespace_bounds(t@);
    }
    if t.len() == 0 {
        return None;
    }
    let end: usize = whitespace_position(t);
    Some((slice_subrange(t, 0, end), slice_subrange(t, end, t.len())))
}

/// The first word that is not an assignment, or `node`.
fn find_program(s: &[char]) -> (r: String)
    ensures
        r@ == first_program(words(s@)),
{
    let mut rest = s;
    loop
        invariant
            first_program(words(rest@)) == first_program(words(s@)),
        decreases rest@.len(),
    {
        match next_word(rest) {
            None => {
                return "node".to_string();
            },
            Some((word, tail)) => {
                proof {
                    lemma_find_bounds(word@, '=');
                    assert(words(rest@)[0] == word@);
                    assert(words(rest@).drop_first() =~= words(tail@));
                }
                let at: usize = position(word, '=');
                if at == word.len() {
                    assert(lacks(word@, '='));
                    return string_of(word);
                }
                assert(word@[at as int] == '=');
                rest = tail;
            },
        }
    }
}

/// What follows the last slash.
fn basename_of(path: &[char]) -> (r: &[char])
    ensures
        r@ == basename(path@),
{
    let mut rest = path;
    loop
        invariant
            basename(rest@) == basename(path@),
        decreases rest@.len(),
    {
        let slash: usize = position(rest, '/');
        if slash == rest.len() {
            return rest;
        }
        rest = slice_subrange(rest, slash + 1, rest.len());
    }
}

/// The program that a shebang line names; `line` is what follows `#!`.
pub fn shebang_program(line: &str) -> (r: String)
    ensures
        r@ == shebang_program_of(line@),
{
    let chars = chars_of(line);
    let line = trimmed(chars.as_slice());
    let env = chars_of("/usr/bin/env");
    let flag = chars_of("-S");
    if starts_with(line, env.as_slice()) {
        let rest = trimmed_start(slice_subrange(line, env.len(), line.len()));
        if starts_with(rest, flag.as_slice()) {
            find_program(slice_subrange(rest, flag.len(), rest.len()))
        } else {
            find_program(rest)
        }
    } else {
        match next_word(line) {
            None => "node".to_string(),
            Some((word, _)) => {
                assert(words(line@)[0] == word@);
                string_of(basename_of(word))
            },
        }
    }
}

/// The program for a file extension.
pub fn extension_program(extension: Option<&str>) -> (r: String)
    ensures
        r@ == extension_program_of(str_option(extension)),
{
    match extension {
        None => "node".to_string(),
        Some(e) => {
            let e = e.to_string();
            if e == "cmd".to_string() || e == "bat".to_string() {
                "cmd".to_string()
            } else if e == "ps1".to_string() {
                "pwsh".to_string()
            } else if e == "sh".to_string() {
                "sh".to_string()
            } else {
                "node".to_string()
            }
        },
    }
}

/// The program that runs a script. `head` is the start of the script, up to
/// [`SHEBANG_HEAD`] bytes, and empty if it cannot be read.
pub fn detect_interpreter(head: &[u8], extension: Option<&str>) -> (r: String)
    ensures
        r@ == interpreter(head@, str_option(extension)),
        shebang(head@) matches Some(bytes) ==> valid_utf8(bytes) ==> lossy_utf8(bytes)
            == decode_utf8(bytes),
{
    if head.len() < 2 || head[0] != HASH || head[1] != BANG {
        return "node".to_string();
    }
    let end: usize = byte_position(head, LINE_FEED);
    if end < head.len() {
        let line = read_lossy(slice_subrange(head, 2, end));
        let prog = shebang_program(line.as_str());
        if chars_of(prog.as_str()).len() > 0 {
            return prog;
        }
    }
    extension_program(extension)
}

/// There is always a program to run a script.
pub proof fn law_interpreter_is_named(head: Seq<u8>, extension: Option<Seq<char>>)
    ensures
        interpreter(head, extension).len() > 0,
{
    reveal_strlit("cmd");
    reveal_strlit("pwsh");
    reveal_strlit("sh");
    reveal_strlit("node");
}

/// A script without a shebang is run by `node`, and so is one that does not exist.
pub proof fn law_fallback_is_node(head: Seq<u8>, extension: Option<Seq<char>>)
    requires
        !has_shebang(head),
    ensures
        interpreter(head, extension) == "node"@,
{
}

/// A script with one of node's extensions is run by `node`, unless its shebang line names
/// another program.
pub proof fn law_node_extensions_fall_back_to_node(head: Seq<u8>, extension: Seq<char>)
    requires
        extension == "js"@ || extension == "cjs"@ || extension == "mjs"@,
        shebang(head) matches Some(bytes) ==> shebang_program_of(lossy_utf8(bytes)).len() == 0,
    ensures
        interpreter(head, Some(extension)) == "node"@,
{
    reveal_strlit("js");
    reveal_strlit("cjs");
    reveal_strlit("mjs");
    reveal_strlit("cmd");
    reveal_strlit("bat");
    reveal_strlit("ps1");
    reveal_strlit("sh");
    assert("sh"@[0] != "js"@[0]);
    assert("cmd"@[1] != "cjs"@[1]);
    assert("bat"@[0] != "cjs"@[0] && "bat"@[0] != "mjs"@[0]);
    assert("ps1"@[0] != "cjs"@[0] && "ps1"@[0] != "mjs"@[0]);
    assert("cmd"@[0] != "mjs"@[0]);
}

/// The words of a text that starts with a word, and then ends or goes on with whitespace.
proof fn lemma_first_word(word: Seq<char>, rest: Seq<char>)
    requires
        word.len() > 0,
        forall|i: int| 0 <= i < word.len() ==> !is_whitespace(#[trigger] word[i]),
        rest.len() > 0 ==> is_whitespace(rest[0]),
    ensures
        words(word + rest) == seq![word] + words(rest),
        words(word + rest)[0] == word,
{
    let s = word + rest;
    assert(s[0] == word[0]);
    assert(trim_start(s) == s);
    lemma_find_whitespace_at(s, word.len() as int);
    assert(s.take(word.len() as int) =~= word);
    assert(s.skip(word.len() as int) =~= rest);
}

/// A word at the start of a text is its first word, and its other words are those of what
/// follows. Whitespace before a word does not count, and a text of whitespace has none.
pub proof fn law_words(space: Seq<char>, word: Seq<char>, rest: Seq<char>)
    requires
        forall|i: int| 0 <= i < space.len() ==> is_whitespace(#[trigger] space[i]),
        word.len() > 0,
        forall|i: int| 0 <= i < word.len() ==> !is_whitespace(#[trigger] word[i]),
        rest.len() > 0 ==> is_whitespace(rest[0]),
    ensures
        words(space + word + rest) == seq![word] + words(rest),
        words(space).len() == 0,
{
    lemma_first_word(word, rest);
    lemma_trim_space(space, word + rest);
    assert(space + word + rest =~= space + (word + rest));
    assert((word + rest)[0] == word[0]);
    assert(trim_start(word + rest) == word + rest);
    lemma_trim_space(space, seq![]);
    assert(space + Seq::<char>::empty() =~= space);
}

proof fn lemma_trim_space(space: Seq<char>, s: Seq<char>)
    requires
        forall|i: int| 0 <= i < space.len() ==> is_whitespace(#[trigger] space[i]),
    ensures
        trim_start(space + s) == trim_start(s),
    decreases space.len(),
{
    if space.len() == 0 {
        assert(space + s =~= s);
    } else {
        let rest = space.drop_first();
        assert forall|i: int| 0 <= i < rest.len() implies is_whitespace(#[trigger] rest[i]) by {
            assert(rest[i] == space[i + 1]);
        }
        assert((space + s)[0] == space[0]);
        assert((space + s).drop_first() =~= rest + s);
        lemma_trim_space(rest, s);
    }
}

/// The name of a file holds no slash, and the path is that name or ends in a slash and that
/// name.
pub proof fn law_basename(path: Seq<char>)
    ensures
        lacks(basename(path), '/'),
        basename(path) == path || exists|dir: Seq<char>| path == #[trigger] (dir + "/"@)
            + basename(path),
    decreases path.len(),
{
    reveal_strlit("/");
    let slash = find(path, '/') as int;
    lemma_find_bounds(path, '/');
    if slash < path.len() {
        let rest = path.skip(slash + 1);
        let name = basename(rest);
        law_basename(rest);
        let dir = if name == rest {
            path.take(slash)
        } else {
            let inner = choose|inner: Seq<char>| rest == #[trigger] (inner + "/"@) + name;
            path.take(slash + 1) + inner
        };
        assert(path =~= path.take(slash + 1) + rest);
        assert(path =~= (dir + "/"@) + name);
    }
}

/// The program of a shebang line that does not start with `/usr/bin/env` is the name of the
/// file that the line's first word is the path of: it holds no slash, and the word is the
/// program or ends in a slash and the program.
pub proof fn law_program_without_env(text: Seq<char>)
    requires
        !"/usr/bin/env"@.is_prefix_of(trim(text)),
        words(trim(text)).len() > 0,
    ensures
        lacks(shebang_program_of(text), '/'),
        words(trim(text))[0] == shebang_program_of(text) || exists|dir: Seq<char>|
            words(trim(text))[0] == #[trigger] (dir + "/"@) + shebang_program_of(text),
{
    law_basename(words(trim(text))[0]);
}

/// A path in the first column runs the file it names, whatever its directory and whatever
/// arguments follow.
pub proof fn law_path_names_program(dir: Seq<char>, prog: Seq<char>, args: Seq<char>)
    requires
        prog.len() > 0,
        lacks(prog, '/'),
        forall|i: int| 0 <= i < prog.len() ==> !is_whitespace(#[trigger] prog[i]),
        forall|i: int| 0 <= i < dir.len() ==> !is_whitespace(#[trigger] dir[i]),
        args.len() > 0 ==> is_whitespace(args[0]) && !is_whitespace(args.last()),
        !"/usr/bin/env"@.is_prefix_of(dir + "/"@ + prog + args),
    ensures
        shebang_program_of(dir + "/"@ + prog + args) == prog,
{
    reveal_strlit("/");
    let word = dir + "/"@ + prog;
    let text = word + args;
    assert forall|i: int| 0 <= i < word.len() implies !is_whitespace(#[trigger] word[i]) by {
        if i < dir.len() {
            assert(word[i] == dir[i]);
        } else if i > dir.len() {
            assert(word[i] == prog[i - dir.len() - 1]);
        }
    }
    assert(text[0] == word[0]);
    assert(trim_start(text) == text);
    if args.len() > 0 {
        assert(text.last() == args.last());
    } else {
        assert(text.last() == word[word.len() - 1]);
    }
    assert(trim(text) == text);
    lemma_first_word(word, args);
    law_basename(word);
    let name = basename(word);
    // The name and `prog` are both what follows the last slash.
    if name != prog {
        if name == word {
            assert(word[dir.len() as int] == '/');
        } else {
            let inner = choose|inner: Seq<char>| word == #[trigger] (inner + "/"@) + name;
            assert(word[inner.len() as int] == '/');
            assert(word[dir.len() as int] == '/');
            if inner.len() < dir.len() {
                assert(name[dir.len() - inner.len() - 1] == '/');
            } else if inner.len() > dir.len() {
                assert(prog[inner.len() - dir.len() - 1] == '/');
            } else {
                assert(word.skip(dir.len() + 1 as int) =~= prog);
                assert(word.skip(inner.len() + 1 as int) =~= name);
            }
        }
    }
}

/// Of some words the first that is not an assignment is the program, and `node` if all are.
pub proof fn law_first_program(list: Seq<Seq<char>>)
    ensures
        (forall|i: int| 0 <= i < list.len() ==> !lacks(#[trigger] list[i], '='))
            ==> first_program(list) == "node"@,
        forall|i: int|
            0 <= i < list.len() && lacks(#[trigger] list[i], '=') && (forall|j: int|
                0 <= j < i ==> !lacks(#[trigger] list[j], '=')) ==> first_program(list) == list[i],
    decreases list.len(),
{
    if list.len() > 0 {
        let rest = list.drop_first();
        law_first_program(rest);
        if forall|i: int| 0 <= i < list.len() ==> !lacks(#[trigger] list[i], '=') {
            assert(!lacks(list[0], '='));
            assert forall|i: int| 0 <= i < rest.len() implies !lacks(#[trigger] rest[i], '=') by {
                assert(rest[i] == list[i + 1]);
            }
        }
        assert forall|i: int|
            0 <= i < list.len() && lacks(#[trigger] list[i], '=') && (forall|j: int|
                0 <= j < i ==> !lacks(#[trigger] list[j], '=')) implies first_program(list)
            == list[i] by {
            if i > 0 {
                assert(!lacks(list[0], '='));
                assert(rest[i - 1] == list[i]);
                assert forall|j: int| 0 <= j < i - 1 implies !lacks(#[trigger] rest[j], '=') by {
                    assert(rest[j] == list[j + 1]);
                }
            }
        }
    }
}

/// `/usr/bin/env`, with the flag `-S` or without it, runs the first of the words that follow
/// which is not an assignment.
pub proof fn law_env_program(flag: bool, space: Seq<char>, args: Seq<char>)
    requires
        forall|i: int| 0 <= i < space.len() ==> is_whitespace(#[trigger] space[i]),
        args.len() > 0,
        !is_whitespace(args[0]),
        !is_whitespace(args.last()),
        flag || !"-S"@.is_prefix_of(args),
    ensures
        shebang_program_of(
            "/usr/bin/env"@ + space + if flag {
                "-S"@
            } else {
                ""@
            } + args,
        ) == first_program(words(args)),
{
    reveal_strlit("/usr/bin/env");
    reveal_strlit("-S");
    reveal_strlit("");
    let env = "/usr/bin/env"@;
    let option = if flag {
        "-S"@
    } else {
        ""@
    };
    let tail = option + args;
    let text = env + space + option + args;
    assert(text.last() == args.last());
    assert(text[0] == '/');
    assert(trim_start(text) == text);
    assert(trim(text) == text);
    assert(text.subrange(0, env.len() as int) =~= env);
    assert(text.skip(env.len() as int) =~= space + tail);
    lemma_trim_space(space, tail);
    assert(!is_whitespace(tail[0])) by {
        if flag {
            assert(tail[0] == '-');
        } else {
            assert(tail =~= args);
        }
    }
    assert(trim_start(tail) == tail);
    if flag {
        assert(tail.subrange(0, 2) =~= "-S"@);
        assert(tail.skip(2) =~= args);
    } else {
        assert(tail =~= args);
    }
}

/// The shebang line of a script is what stands between `#!` and the first line feed.
pub proof fn law_shebang_line(line: Seq<u8>, rest: Seq<u8>)
    requires
        forall|i: int| 0 <= i < line.len() ==> #[trigger] line[i] != LINE_FEED,
    ensures
        shebang(seq![0x23u8, 0x21u8] + line + seq![0x0au8] + rest) == Some(line),
{
    let head = seq![0x23u8, 0x21u8] + line + seq![0x0au8] + rest;
    lemma_find_byte(head, LINE_FEED, line.len() + 2 as int);
    assert(head.subrange(2, line.len() + 2 as int) =~= line);
}

proof fn lemma_find_byte(bytes: Seq<u8>, b: u8, i: int)
    requires
        0 <= i < bytes.len(),
        bytes[i] == b,
        forall|j: int| 0 <= j < i ==> #[trigger] bytes[j] != b,
    ensures
        find_byte(bytes, b) == i,
    decreases i,
{
    if i > 0 {
        assert(bytes[0] != b);
        let rest = bytes.drop_first();
        assert forall|j: int| 0 <= j < i - 1 implies #[trigger] rest[j] != b by {
            assert(rest[j] == bytes[j + 1]);
        }
        lemma_find_byte(rest, b, i - 1);
    }
}

/// A script is run by the program that its shebang line names, whatever its extension and
/// whatever follows the line.
pub proof fn law_shebang_decides(line: Seq<u8>, rest: Seq<u8>, extension: Option<Seq<char>>)
    requires
        forall|i: int| 0 <= i < line.len() ==> #[trigger] line[i] != LINE_FEED,
        shebang_program_of(lossy_utf8(line)).len() > 0,
    ensures
        interpreter(seq![0x23u8, 0x21u8] + line + seq![0x0au8] + rest, extension)
            == shebang_program_of(lossy_utf8(line)),
{
    law_shebang_line(line, rest);
}

/// Where the shebang line names nothing, or does not end, the extension decides: batch files
/// are run by `cmd`, PowerShell scripts by `pwsh`, shell scripts by `sh`, and all others by
/// `node`.
pub proof fn law_extension_decides(head: Seq<u8>, extension: Option<Seq<char>>)
    requires
        has_shebang(head),
        shebang(head) matches Some(bytes) ==> shebang_program_of(lossy_utf8(bytes)).len() == 0,
    ensures
        extension == Some("cmd"@) || extension == Some("bat"@) ==> interpreter(head, extension)
            == "cmd"@,
        extension == Some("ps1"@) ==> interpreter(head, extension) == "pwsh"@,
        extension == Some("sh"@) ==> interpreter(head, extension) == "sh"@,
        extension != Some("cmd"@) && extension != Some("bat"@) && extension != Some("ps1"@)
            && extension != Some("sh"@) ==> interpreter(head, extension) == "node"@,
{
    reveal_strlit("cmd");
    reveal_strlit("bat");
    reveal_strlit("ps1");
    reveal_strlit("sh");
    assert("ps1"@[0] != "cmd"@[0] && "ps1"@[0] != "bat"@[0]);
    assert("sh"@.len() == 2 && "cmd"@.len() == 3 && "bat"@.len() == 3 && "ps1"@.len() == 3);
}

/// Whitespace around a shebang line does not count, and a line of whitespace names `node`.
pub proof fn law_space_around_shebang(left: Seq<char>, text: Seq<char>, right: Seq<char>)
    requires
        forall|i: int| 0 <= i < left.len() ==> is_whitespace(#[trigger] left[i]),
        forall|i: int| 0 <= i < right.len() ==> is_whitespace(#[trigger] right[i]),
        text.len() > 0 ==> !is_whitespace(text[0]) && !is_whitespace(text.last()),
    ensures
        shebang_program_of(left + text + right) == shebang_program_of(text),
        text.len() == 0 ==> shebang_program_of(left + text + right) == "node"@,
{
    let none = Seq::<char>::empty();
    law_trim(left, text, right);
    law_trim(none, text, none);
    assert(none + text + none =~= text);
    if text.len() == 0 {
        reveal_strlit("/usr/bin/env");
        assert(trim_start(text) == text);
        assert(words(text).len() == 0);
    }
}

/// `/usr/bin/env` without a program runs `node`, with the flag `-S` or without it.
pub proof fn law_env_alone(space: Seq<char>)
    requires
        forall|i: int| 0 <= i < space.len() ==> is_whitespace(#[trigger] space[i]),
    ensures
        shebang_program_of("/usr/bin/env"@) == "node"@,
        shebang_program_of("/usr/bin/env"@ + space + "-S"@) == "node"@,
{
    reveal_strlit("/usr/bin/env");
    reveal_strlit("-S");
    let env = "/usr/bin/env"@;
    let none = Seq::<char>::empty();
    assert(!is_whitespace(env[0]) && !is_whitespace(env.last()));
    assert(trim_start(env) == env);
    assert(trim(env) == env);
    assert(env.subrange(0, env.len() as int) =~= env);
    assert(env.skip(env.len() as int) =~= none);
    assert(trim_start(none) == none);
    assert(words(none).len() == 0);
    assert(words(none) =~= seq![]);
    assert(first_program(words(none)) == "node"@);
    let text = env + space + "-S"@;
    assert(text[0] == '/' && text.last() == 'S');
    assert(trim_start(text) == text);
    assert(trim(text) == text);
    assert(text.subrange(0, env.len() as int) =~= env);
    assert(text.skip(env.len() as int) =~= space + "-S"@);
    lemma_trim_space(space, "-S"@);
    assert("-S"@[0] == '-');
    assert(trim_start("-S"@) == "-S"@);
    assert("-S"@.subrange(0, 2) =~= "-S"@);
    assert("-S"@.skip(2) =~= none);
}

/// A script has a shebang exactly if it starts with `#!`. Its line is not known where no line
/// feed follows.
pub proof fn law_shebang_starts_a_script(head: Seq<u8>)
    ensures
        has_shebang(head) <==> seq![0x23u8, 0x21u8].is_prefix_of(head),
        !seq![0x23u8, 0x21u8].is_prefix_of(head) ==> shebang(head) is None,
        !head.contains(0x0au8) ==> shebang(head) is None,
{
    let mark = seq![0x23u8, 0x21u8];
    if has_shebang(head) {
        assert(head.subrange(0, 2) =~= mark);
    }
    if mark.is_prefix_of(head) {
        assert(head.subrange(0, 2)[0] == mark[0]);
        assert(head.subrange(0, 2)[1] == mark[1]);
    }
    if !head.contains(0x0au8) {
        assert forall|i: int| 0 <= i < head.len() implies #[trigger] head[i] != LINE_FEED by {
            assert(head.contains(head[i]));
        }
        lemma_no_byte(head, LINE_FEED);
    }
}

proof fn lemma_no_byte(bytes: Seq<u8>, b: u8)
    requires
        forall|i: int| 0 <= i < bytes.len() ==> #[trigger] bytes[i] != b,
    ensures
        find_byte(bytes, b) == bytes.len(),
    decreases bytes.len(),
{
    if bytes.len() > 0 {
        assert(bytes[0] != b);
        let rest = bytes.drop_first();
        assert forall|i: int| 0 <= i < rest.len() implies #[trigger] rest[i] != b by {
            assert(rest[i] == bytes[i + 1]);
        }
        lemma_no_byte(rest, b);
    }
}

} // verus!
