//! How the lines that [`crate::yarn::write`] produces are read back by
//! [`crate::yarn::tokens`].

use vstd::prelude::*;
use crate::text::{
    fits_line, indent_width, is_whitespace, lacks, lemma_find_whitespace_at, lemma_lines_first,
    lemma_split_add, lemma_split_one, lemma_trim_end_len,
    lemma_trim_start_len, lines, trim, trim_end, trim_end_char, trim_start, unquote,
};
use crate::yarn::tokens::{
    feed, header_pieces, key_value, read_line, step, LineView, Progress,
};
use crate::yarn::write::{banner, lemma_text_of_add, lemma_text_of_one, quoted, spec_list, text_of};

verus! {

/// The lines of a text that was made of lines are these lines.
pub proof fn lemma_lines_of_text(some: Seq<Seq<char>>)
    requires
        forall|i: int| 0 <= i < some.len() ==> fits_line(#[trigger] some[i]),
    ensures
        lines(text_of(some)) == some,
    decreases some.len(),
{
    if some.len() > 0 {
        let rest = some.drop_first();
        assert forall|i: int| 0 <= i < rest.len() implies fits_line(#[trigger] rest[i]) by {
            assert(rest[i] == some[i + 1]);
        }
        lemma_lines_of_text(rest);
        assert(some =~= seq![some[0]] + rest);
        lemma_text_of_add(seq![some[0]], rest);
        lemma_text_of_one(some[0]);
        lemma_lines_first(some[0], text_of(rest));
    } else {
        assert(lines(text_of(some)) =~= some);
    }
}

/// Reading lines in two goes.
pub proof fn lemma_feed_add(progress: Progress, a: Seq<Seq<char>>, b: Seq<Seq<char>>, number: nat)
    ensures
        feed(progress, a + b, number) == match feed(progress, a, number) {
            Ok(next) => feed(next, b, number + a.len()),
            Err(complaint) => Err(complaint),
        },
    decreases a.len(),
{
    if a.len() == 0 {
        assert(a + b =~= b);
    } else {
        assert((a + b)[0] == a[0]);
        assert((a + b).drop_first() =~= a.drop_first() + b);
        if let Ok(next) = step(progress, read_line(a[0]), number) {
            lemma_feed_add(next, a.drop_first(), b, number + 1);
        }
    }
}

pub proof fn lemma_feed_one(progress: Progress, line: Seq<char>, number: nat)
    ensures
        feed(progress, seq![line], number) == step(progress, read_line(line), number),
{
    assert(seq![line].drop_first() =~= seq![]);
    if let Ok(next) = step(progress, read_line(line), number) {
        assert(feed(next, seq![], number + 1) == Ok::<Progress, Seq<char>>(next));
    }
}

/// Whitespace in front of a text is trimmed away and counts as its indentation.
pub proof fn lemma_indent(spaces: Seq<char>, s: Seq<char>)
    requires
        forall|i: int| 0 <= i < spaces.len() ==> spaces[i] == ' ',
    ensures
        trim_start(spaces + s) == trim_start(s),
        indent_width(spaces + s) == spaces.len() + indent_width(s),
    decreases spaces.len(),
{
    if spaces.len() == 0 {
        assert(spaces + s =~= s);
    } else {
        lemma_indent(spaces.drop_first(), s);
        assert((spaces + s).drop_first() =~= spaces.drop_first() + s);
        assert((spaces + s)[0] == ' ');
    }
}

/// The text inside the quotes of a quoted text.
proof fn lemma_unquote_quoted(s: Seq<char>)
    ensures
        unquote(quoted(s)) == s,
        trim(quoted(s)) == quoted(s),
        quoted(s).len() == s.len() + 2,
        quoted(s)[0] == '"',
        quoted(s).last() == '"',
{
    reveal_strlit("\"");
    let q = quoted(s);
    assert(q.subrange(1, q.len() - 1) =~= s);
}

/// A key, a space and a value are read as the key and the value.
proof fn lemma_key_value(key: Seq<char>, value: Seq<char>)
    requires
        forall|i: int| 0 <= i < key.len() ==> !is_whitespace(#[trigger] key[i]),
    ensures
        key_value(key + " "@ + value) == Some((key, unquote(trim(value)))),
{
    reveal_strlit(" ");
    let line = key + " "@ + value;
    lemma_find_whitespace_at(line, key.len() as int);
    assert(line.take(key.len() as int) =~= key);
    assert(line.skip(key.len() + 1 as int) =~= value);
}

pub proof fn lemma_read_version(version: Seq<char>)
    ensures
        read_line("  version "@ + quoted(version)) == LineView::Field("version"@, version),
{
    reveal_strlit("  version ");
    reveal_strlit("version");
    reveal_strlit("  ");
    reveal_strlit(" ");
    lemma_unquote_quoted(version);
    let body = "version"@ + " "@ + quoted(version);
    let raw = "  version "@ + quoted(version);
    assert(raw =~= "  "@ + body);
    assert(body.last() == '"');
    assert(raw.last() == '"');
    assert(trim_end(raw) == raw);
    lemma_indent("  "@, body);
    assert(trim_start(body) == body);
    assert(body[0] == 'v');
    lemma_key_value("version"@, quoted(version));
}

pub proof fn lemma_read_integrity(text: Seq<char>)
    requires
        text.len() > 0,
        text.last() != ':',
        unquote(trim(text)) == text,
    ensures
        read_line("  integrity "@ + text) == LineView::Field("integrity"@, text),
{
    reveal_strlit("  integrity ");
    reveal_strlit("integrity");
    reveal_strlit("  ");
    reveal_strlit(" ");
    lemma_trim_len(text);
    assert(trim(text) =~= text);
    lemma_trim_ends(text);
    let body = "integrity"@ + " "@ + text;
    let raw = "  integrity "@ + text;
    assert(raw =~= "  "@ + body);
    assert(body.last() == text.last());
    assert(raw.last() == text.last());
    assert(trim_end(raw) == raw);
    lemma_indent("  "@, body);
    assert(trim_start(body) == body);
    assert(body[0] == 'i');
    lemma_key_value("integrity"@, text);
}

/// Trimming and unquoting make a text no longer, and where they keep its length they
/// keep the text.
pub proof fn lemma_trim_len(s: Seq<char>)
    ensures
        trim(s).len() <= s.len(),
        trim(s).len() == s.len() ==> trim(s) == s,
        unquote(trim(s)).len() <= trim(s).len(),
        unquote(trim(s)).len() == s.len() ==> trim(s) == s && unquote(s) == s,
{
    lemma_trim_start_len(s);
    lemma_trim_end_len(trim_start(s));
}

/// A trimmed text starts and ends with something other than whitespace.
pub proof fn lemma_trim_ends(s: Seq<char>)
    ensures
        trim(s).len() > 0 ==> !is_whitespace(trim(s)[0]) && !is_whitespace(trim(s).last()),
{
    lemma_trim_start_len(s);
    lemma_trim_end_len(trim_start(s));
}

pub proof fn lemma_read_section()
    ensures
        read_line("  dependencies:"@) == LineView::Section(true),
{
    reveal_strlit("  dependencies:");
    reveal_strlit("dependencies:");
    reveal_strlit("dependencies");
    reveal_strlit("  ");
    let raw = "  dependencies:"@;
    let body = "dependencies:"@;
    assert(raw =~= "  "@ + body);
    assert(raw.last() == ':');
    assert(trim_end(raw) == raw);
    lemma_indent("  "@, body);
    assert(body[0] == 'd');
    assert(trim_start(body) == body);
    assert(body.last() == ':');
    assert(body.drop_last() =~= "dependencies"@);
    let name = "dependencies"@;
    assert(name.last() == 's');
    assert(trim_end_char(body, ':') == trim_end_char(name, ':'));
    assert(trim_end_char(name, ':') == name);
    assert(name[0] == 'd');
    assert(trim(name) == name);
}

pub proof fn lemma_read_dep(name: Seq<char>, version: Seq<char>)
    requires
        name.len() > 0,
        name[0] != '#',
        forall|i: int| 0 <= i < name.len() ==> !is_whitespace(#[trigger] name[i]),
    ensures
        read_line("    "@ + name + " "@ + quoted(version)) == LineView::Nested(
            Some((name, version)),
            name + " "@ + quoted(version),
        ),
{
    reveal_strlit("    ");
    reveal_strlit(" ");
    lemma_unquote_quoted(version);
    let body = name + " "@ + quoted(version);
    let raw = "    "@ + name + " "@ + quoted(version);
    assert(raw =~= "    "@ + body);
    assert(raw.last() == '"');
    assert(trim_end(raw) == raw);
    lemma_indent("    "@, body);
    assert(body[0] == name[0]);
    assert(!is_whitespace(body[0]));
    assert(trim_start(body) == body);
    lemma_key_value(name, quoted(version));
}

pub proof fn lemma_read_banner()
    ensures
        forall|i: int| 0 <= i < banner().len() ==> read_line(#[trigger] banner()[i]) is Blank,
        forall|i: int| 0 <= i < banner().len() ==> fits_line(#[trigger] banner()[i]),
        read_line(""@) is Blank,
{
    reveal_strlit("");
    reveal_strlit("# yarn lockfile v1");
    reveal_strlit("# THIS IS AN AUTOGENERATED FILE. DO NOT EDIT THIS FILE DIRECTLY.");
    assert(read_line(""@) is Blank);
    let a = "# yarn lockfile v1"@;
    let b = "# THIS IS AN AUTOGENERATED FILE. DO NOT EDIT THIS FILE DIRECTLY."@;
    assert(a.last() == '1');
    assert(b.last() == '.');
    assert(a[0] == '#');
    assert(b[0] == '#');
    assert(trim_end(a) == a);
    assert(trim_end(b) == b);
    assert(trim_start(a) == a);
    assert(trim_start(b) == b);
}

proof fn lemma_pieces_add(a: Seq<char>, b: Seq<char>)
    ensures
        header_pieces(a + ","@ + b) == header_pieces(a) + header_pieces(b),
{
    reveal_strlit(",");
    assert(","@ =~= seq![',']);
    lemma_split_add(a, ',', b);
    assert(header_pieces(a + ","@ + b) =~= header_pieces(a) + header_pieces(b));
}

/// A quoted specifier without commas is read as the specifier, with or without a space
/// in front of it.
proof fn lemma_pieces_one(spec: Seq<char>)
    requires
        lacks(spec, ','),
    ensures
        header_pieces(quoted(spec)) == seq![spec],
        header_pieces(" "@ + quoted(spec)) == seq![spec],
{
    reveal_strlit("\"");
    reveal_strlit(" ");
    lemma_unquote_quoted(spec);
    let q = quoted(spec);
    let sq = " "@ + q;
    lemma_split_one(q, ',');
    lemma_split_one(sq, ',');
    lemma_indent(" "@, q);
    assert(trim_start(q) == q);
    assert(trim(sq) == trim(q));
    assert(header_pieces(q) =~= seq![spec]);
    assert(header_pieces(sq) =~= seq![spec]);
}

/// How a list of quoted specifiers starts and ends, and what it holds.
pub proof fn lemma_spec_list(specs: Seq<Seq<char>>)
    requires
        specs.len() > 0,
    ensures
        spec_list(specs).len() > 0,
        spec_list(specs)[0] == '"',
        spec_list(specs).last() == '"',
        (forall|i: int| 0 <= i < specs.len() ==> lacks(#[trigger] specs[i], '\n')) ==> lacks(
            spec_list(specs),
            '\n',
        ),
    decreases specs.len(),
{
    reveal_strlit("\"");
    reveal_strlit(", ");
    if specs.len() > 1 {
        let rest = specs.drop_last();
        lemma_spec_list(rest);
        if forall|i: int| 0 <= i < specs.len() ==> lacks(#[trigger] specs[i], '\n') {
            assert forall|i: int| 0 <= i < rest.len() implies lacks(#[trigger] rest[i], '\n') by {
                assert(rest[i] == specs[i]);
            }
            assert(lacks(specs.last(), '\n'));
            assert(lacks(spec_list(specs), '\n'));
        }
    } else if forall|i: int| 0 <= i < specs.len() ==> lacks(#[trigger] specs[i], '\n') {
        assert(lacks(specs[0], '\n'));
        assert(lacks(spec_list(specs), '\n'));
    }
}

/// A list of quoted specifiers is read as a list that starts with the first of them. It
/// is read as the same list if none of them holds a comma.
pub proof fn lemma_list_pieces(specs: Seq<Seq<char>>)
    requires
        specs.len() > 0,
        lacks(specs[0], ','),
    ensures
        header_pieces(spec_list(specs)).len() > 0,
        header_pieces(spec_list(specs))[0] == specs[0],
        (forall|i: int| 0 <= i < specs.len() ==> lacks(#[trigger] specs[i], ','))
            ==> header_pieces(spec_list(specs)) == specs,
        forall|i: int|
            0 <= i < specs.len() && lacks(#[trigger] specs[i], ',') ==> header_pieces(
                spec_list(specs),
            ).contains(specs[i]),
    decreases specs.len(),
{
    let all = header_pieces(spec_list(specs));
    if specs.len() == 1 {
        lemma_pieces_one(specs[0]);
        assert(all =~= specs);
        assert forall|i: int| 0 <= i < specs.len() && lacks(#[trigger] specs[i], ',') implies
            all.contains(specs[i]) by {
            assert(all[i] == specs[i]);
        }
    } else {
        let rest = specs.drop_last();
        let last = " "@ + quoted(specs.last());
        lemma_list_pieces(rest);
        reveal_strlit(", ");
        reveal_strlit(",");
        reveal_strlit(" ");
        assert(spec_list(specs) =~= spec_list(rest) + ","@ + last);
        lemma_pieces_add(spec_list(rest), last);
        let front = header_pieces(spec_list(rest));
        assert(all == front + header_pieces(last));
        assert(all[0] == front[0]);
        if lacks(specs.last(), ',') {
            lemma_pieces_one(specs.last());
            assert(all[front.len() as int] == specs.last());
        }
        if forall|i: int| 0 <= i < specs.len() ==> lacks(#[trigger] specs[i], ',') {
            assert forall|i: int| 0 <= i < rest.len() implies lacks(#[trigger] rest[i], ',') by {
                assert(rest[i] == specs[i]);
            }
            assert(lacks(specs[specs.len() - 1], ','));
            assert(all =~= specs);
        }
        assert forall|i: int| 0 <= i < specs.len() && lacks(#[trigger] specs[i], ',') implies
            all.contains(specs[i]) by {
            if i < rest.len() {
                assert(rest[i] == specs[i]);
                assert(front.contains(rest[i]));
                let k = choose|k: int| 0 <= k < front.len() && front[k] == rest[i];
                assert(all[k] == specs[i]);
            } else {
                assert(all[front.len() as int] == specs[i]);
            }
        }
    }
}

/// A written header is read as its specifiers, unless one of them reads as empty.
pub proof fn lemma_read_header(specs: Seq<Seq<char>>)
    requires
        specs.len() > 0,
        !header_pieces(spec_list(specs)).contains(Seq::<char>::empty()),
    ensures
        read_line(spec_list(specs) + ":"@) == LineView::Header(header_pieces(spec_list(specs))),
{
    lemma_spec_list(specs);
    reveal_strlit(":");
    let list = spec_list(specs);
    let raw = list + ":"@;
    assert(raw.last() == ':');
    assert(raw[0] == '"');
    assert(trim_end(raw) == raw);
    assert(trim_start(raw) == raw);
    assert(indent_width(raw) == 0);
    assert(raw.drop_last() =~= list);
    assert(trim_end_char(raw, ':') == trim_end_char(list, ':'));
    assert(trim_end_char(list, ':') == list);
    assert(trim(list) == list);
}

pub proof fn lemma_header_fits(specs: Seq<Seq<char>>)
    requires
        specs.len() > 0,
        forall|i: int| 0 <= i < specs.len() ==> lacks(#[trigger] specs[i], '\n'),
    ensures
        fits_line(spec_list(specs) + ":"@),
{
    lemma_spec_list(specs);
    reveal_strlit(":");
}

} // verus!
