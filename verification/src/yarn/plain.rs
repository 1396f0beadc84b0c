//! What holds of everything that is read from a lockfile.

use vstd::prelude::*;
use crate::lockfile::TextEntries;
use crate::string_map::{
    has_key, key_index, lemma_put_sorted, lemma_rank_bounds, put, rank, sorted,
};
use crate::text::{
    find, find_whitespace, is_whitespace, lacks, lemma_find_bounds, lemma_find_whitespace_bounds,
    lemma_split_lacks, lemma_trim_end_len, lines, split, trim, trim_end, trim_end_char, trim_start, unquote,
    without_cr,
};
use crate::yarn::read::{is_berry, is_berry_line};
use crate::yarn::tokens::{
    blocks_of, feed, header_pieces, header_specs, read_line, step, BlockView, LineView,
    Progress,
};

verus! {

/// A dependency name that its line is read as: it holds no whitespace and looks neither
/// like a comment nor like the header of a later version of the format.
pub open spec fn plain_name(name: Seq<char>) -> bool {
    &&& name.len() > 0
    &&& name[0] != '#'
    &&& forall|i: int| 0 <= i < name.len() ==> !is_whitespace(#[trigger] name[i])
    &&& !"__metadata:"@.is_prefix_of(name)
}

/// A specifier as a header holds it: not empty, on one line and without commas.
pub open spec fn plain_spec(spec: Seq<char>) -> bool {
    spec.len() > 0 && lacks(spec, ',') && lacks(spec, '\n')
}

/// A block as it is read from a lockfile.
pub open spec fn plain_block(block: BlockView) -> bool {
    &&& block.specs.len() > 0
    &&& forall|i: int| 0 <= i < block.specs.len() ==> plain_spec(#[trigger] block.specs[i])
    &&& forall|i: int| 0 <= i < block.fields.len() ==> lacks((#[trigger] block.fields[i]).1, '\n')
    &&& sorted(block.fields)
    &&& forall|i: int|
        0 <= i < block.dependencies.len() ==> plain_name((#[trigger] block.dependencies[i]).0)
    &&& sorted(block.dependencies)
}

/// The lines of a text hold no line feed.
proof fn lemma_lines_lack(s: Seq<char>)
    ensures
        forall|i: int| 0 <= i < lines(s).len() ==> lacks(#[trigger] lines(s)[i], '\n'),
    decreases s.len(),
{
    if s.len() > 0 {
        let end = find(s, '\n') as int;
        lemma_find_bounds(s, '\n');
        if end < s.len() {
            let rest = s.skip(end + 1);
            lemma_lines_lack(rest);
            assert forall|i: int| 0 <= i < lines(s).len() implies lacks(
                #[trigger] lines(s)[i],
                '\n',
            ) by {
                if i > 0 {
                    assert(lines(s)[i] == lines(rest)[i - 1]);
                } else {
                    assert(lines(s)[0] == without_cr(s.take(end)));
                }
            }
        }
    }
}

proof fn lemma_trim_start_lacks(s: Seq<char>, c: char)
    requires
        lacks(s, c),
    ensures
        lacks(trim_start(s), c),
        trim_start(s).len() > 0 ==> !is_whitespace(trim_start(s)[0]),
    decreases s.len(),
{
    if s.len() > 0 && is_whitespace(s[0]) {
        assert(lacks(s.drop_first(), c));
        lemma_trim_start_lacks(s.drop_first(), c);
    }
}

proof fn lemma_trim_end_lacks(s: Seq<char>, c: char)
    requires
        lacks(s, c),
    ensures
        lacks(trim_end(s), c),
    decreases s.len(),
{
    if s.len() > 0 && is_whitespace(s.last()) {
        assert(lacks(s.drop_last(), c));
        lemma_trim_end_lacks(s.drop_last(), c);
    }
}

proof fn lemma_trim_end_char_lacks(s: Seq<char>, end: char, c: char)
    requires
        lacks(s, c),
    ensures
        lacks(trim_end_char(s, end), c),
    decreases s.len(),
{
    if s.len() > 0 && s.last() == end {
        assert(lacks(s.drop_last(), c));
        lemma_trim_end_char_lacks(s.drop_last(), end, c);
    }
}

proof fn lemma_clean_lacks(s: Seq<char>, c: char)
    requires
        lacks(s, c),
    ensures
        lacks(trim(s), c),
        lacks(unquote(trim(s)), c),
{
    lemma_trim_start_lacks(s, c);
    lemma_trim_end_lacks(trim_start(s), c);
}

proof fn lemma_split_pieces_lack(s: Seq<char>, by: char, c: char)
    requires
        lacks(s, c),
    ensures
        forall|i: int| 0 <= i < split(s, by).len() ==> lacks(#[trigger] split(s, by)[i], c),
    decreases s.len(),
{
    let at = find(s, by) as int;
    lemma_find_bounds(s, by);
    if at < s.len() {
        let rest = s.skip(at + 1);
        assert(lacks(rest, c));
        lemma_split_pieces_lack(rest, by, c);
        assert forall|i: int| 0 <= i < split(s, by).len() implies lacks(
            #[trigger] split(s, by)[i],
            c,
        ) by {
            if i > 0 {
                assert(split(s, by)[i] == split(rest, by)[i - 1]);
            }
        }
    }
}

/// The specifiers of a header.
proof fn lemma_header_plain(header: Seq<char>)
    requires
        lacks(header, '\n'),
        header_specs(header) is Ok,
    ensures
        header_pieces(header).len() > 0,
        forall|i: int|
            0 <= i < header_pieces(header).len() ==> plain_spec(#[trigger] header_pieces(header)[i]),
{
    let pieces = header_pieces(header);
    lemma_split_lacks(header, ',');
    lemma_split_pieces_lack(header, ',', '\n');
    assert(split(header, ',').len() > 0);
    assert forall|i: int| 0 <= i < pieces.len() implies plain_spec(#[trigger] pieces[i]) by {
        let piece = split(header, ',')[i];
        lemma_clean_lacks(piece, ',');
        lemma_clean_lacks(piece, '\n');
        assert(pieces[i] == unquote(trim(piece)));
        if pieces[i].len() == 0 {
            assert(pieces[i] =~= Seq::<char>::empty());
            assert(pieces.contains(Seq::<char>::empty()));
        }
    }
}

/// What is left of a line without the whitespace around it starts the line without the
/// whitespace before it.
proof fn lemma_body_starts_line(raw: Seq<char>)
    ensures
        trim_start(trim_end(raw)).len() > 0 ==> trim_start(trim_end(raw)).is_prefix_of(
            trim_start(raw),
        ),
    decreases raw.len(),
{
    if raw.len() > 0 && is_whitespace(raw[0]) {
        let rest = raw.drop_first();
        lemma_body_starts_line(rest);
        lemma_trim_end_first(raw);
    } else if raw.len() > 0 {
        lemma_trim_end_len(raw);
        let line = trim_end(raw);
        if line.len() > 0 {
            assert(line[0] == raw[0]);
        }
    }
}

/// Trimming the end of a text that starts with whitespace.
proof fn lemma_trim_end_first(s: Seq<char>)
    requires
        s.len() > 0,
        is_whitespace(s[0]),
    ensures
        trim_start(trim_end(s)) == trim_start(trim_end(s.drop_first())),
    decreases s.len(),
{
    let rest = s.drop_first();
    if is_whitespace(s.last()) {
        if s.len() > 1 {
            assert(rest.last() == s.last());
            assert(s.drop_last().drop_first() =~= rest.drop_last());
            lemma_trim_end_first(s.drop_last());
        } else {
            assert(s.drop_last() =~= Seq::<char>::empty());
            assert(rest =~= Seq::<char>::empty());
        }
    } else {
        assert(rest.len() > 0);
        assert(rest.last() == s.last());
    }
}

/// What a line says.
spec fn plain_line(line: LineView) -> bool {
    match line {
        LineView::Header(specs) => specs.len() > 0 && forall|i: int|
            0 <= i < specs.len() ==> plain_spec(#[trigger] specs[i]),
        LineView::Field(_, value) => lacks(value, '\n'),
        LineView::Nested(Some((key, _)), _) => plain_name(key),
        _ => true,
    }
}

proof fn lemma_line_plain(raw: Seq<char>)
    requires
        lacks(raw, '\n'),
        !is_berry_line(raw),
    ensures
        plain_line(read_line(raw)),
{
    let line = trim_end(raw);
    let body = trim_start(line);
    lemma_trim_end_lacks(raw, '\n');
    lemma_trim_start_lacks(line, '\n');
    if body.len() > 0 && body[0] != '#' {
        lemma_trim_end_char_lacks(line, ':', '\n');
        lemma_clean_lacks(trim_end_char(line, ':'), '\n');
        let header = trim(trim_end_char(line, ':'));
        if header_specs(header) is Ok {
            lemma_header_plain(header);
        }
        lemma_find_whitespace_bounds(body);
        let at = find_whitespace(body) as int;
        if at < body.len() {
            lemma_clean_lacks(body.skip(at + 1), '\n');
            let key = body.take(at);
            assert(at > 0);
            assert(key[0] == body[0]);
            let mark = "__metadata:"@;
            if mark.is_prefix_of(key) {
                lemma_body_starts_line(raw);
                let start = trim_start(raw);
                assert(start.subrange(0, body.len() as int) == body);
                assert(start.subrange(0, mark.len() as int) =~= key.subrange(
                    0,
                    mark.len() as int,
                )) by {
                    assert forall|i: int| 0 <= i < mark.len() implies start[i] == key[i] by {
                        assert(start.subrange(0, body.len() as int)[i] == start[i]);
                    }
                }
                assert(false);
            }
            assert(plain_name(key));
        }
    }
}

/// An entry after storing under a key is an earlier one or the stored one.
proof fn lemma_put_entries(entries: TextEntries, key: Seq<char>, value: Seq<char>)
    ensures
        forall|j: int|
            0 <= j < put(entries, key, value).len() ==> #[trigger] put(entries, key, value)[j] == (
                key,
                value,
            ) || entries.contains(put(entries, key, value)[j]),
{
    let after = put(entries, key, value);
    lemma_rank_bounds(entries, key);
    assert forall|j: int| 0 <= j < after.len() implies #[trigger] after[j] == (key, value)
        || entries.contains(after[j]) by {
        if has_key(entries, key) {
            if j != key_index(entries, key) {
                assert(after[j] == entries[j]);
            }
        } else {
            let r = rank(entries, key) as int;
            if j < r {
                assert(after[j] == entries[j]);
            } else if j > r {
                assert(after[j] == entries[j - 1]);
            }
        }
    }
}

proof fn lemma_step_plain(progress: Progress, line: LineView, number: nat)
    requires
        plain_line(line),
        forall|i: int| 0 <= i < progress.blocks.len() ==> plain_block(#[trigger] progress.blocks[i]),
    ensures
        step(progress, line, number) matches Ok(next) ==> forall|i: int|
            0 <= i < next.blocks.len() ==> plain_block(#[trigger] next.blocks[i]),
{
    if let Ok(next) = step(progress, line, number) {
        let blocks = progress.blocks;
        assert forall|i: int| 0 <= i < next.blocks.len() implies plain_block(
            #[trigger] next.blocks[i],
        ) by {
            if i < blocks.len() {
                assert(plain_block(blocks[i]));
            }
            if i == blocks.len() - 1 {
                let last = blocks[i];
                match line {
                    LineView::Field(key, value) => {
                        lemma_put_entries(last.fields, key, value);
                        lemma_put_sorted(last.fields, key, value);
                        let fields = put(last.fields, key, value);
                        assert forall|j: int| 0 <= j < fields.len() implies lacks(
                            (#[trigger] fields[j]).1,
                            '\n',
                        ) by {
                            if fields[j] != (key, value) {
                                let k = choose|k: int|
                                    0 <= k < last.fields.len() && last.fields[k] == fields[j];
                                assert(lacks(last.fields[k].1, '\n'));
                            }
                        }
                    },
                    LineView::Nested(Some((key, value)), _) => {
                        lemma_put_entries(last.dependencies, key, value);
                        lemma_put_sorted(last.dependencies, key, value);
                        let deps = put(last.dependencies, key, value);
                        assert forall|j: int| 0 <= j < deps.len() implies plain_name(
                            (#[trigger] deps[j]).0,
                        ) by {
                            if deps[j] != (key, value) {
                                let k = choose|k: int|
                                    0 <= k < last.dependencies.len() && last.dependencies[k]
                                        == deps[j];
                                assert(plain_name(last.dependencies[k].0));
                            }
                        }
                    },
                    _ => {},
                }
            }
        }
    }
}

proof fn lemma_feed_plain(progress: Progress, rest: Seq<Seq<char>>, number: nat)
    requires
        forall|i: int| 0 <= i < progress.blocks.len() ==> plain_block(#[trigger] progress.blocks[i]),
        forall|i: int|
            0 <= i < rest.len() ==> lacks(#[trigger] rest[i], '\n') && !is_berry_line(rest[i]),
    ensures
        feed(progress, rest, number) matches Ok(end) ==> forall|i: int|
            0 <= i < end.blocks.len() ==> plain_block(#[trigger] end.blocks[i]),
    decreases rest.len(),
{
    if rest.len() > 0 {
        let line = read_line(rest[0]);
        assert(lacks(rest[0], '\n') && !is_berry_line(rest[0]));
        lemma_line_plain(rest[0]);
        lemma_step_plain(progress, line, number);
        if let Ok(next) = step(progress, line, number) {
            let tail = rest.drop_first();
            assert forall|i: int| 0 <= i < tail.len() implies lacks(#[trigger] tail[i], '\n')
                && !is_berry_line(tail[i]) by {
                assert(tail[i] == rest[i + 1]);
            }
            lemma_feed_plain(next, tail, number + 1);
        }
    }
}

/// The blocks of a lockfile.
pub proof fn lemma_blocks_plain(content: Seq<char>)
    requires
        !is_berry(content),
    ensures
        blocks_of(content) matches Ok(blocks) ==> forall|i: int|
            0 <= i < blocks.len() ==> plain_block(#[trigger] blocks[i]),
{
    lemma_lines_lack(content);
    let all = lines(content);
    assert forall|i: int| 0 <= i < all.len() implies lacks(#[trigger] all[i], '\n')
        && !is_berry_line(all[i]) by {}
    lemma_feed_plain(Progress { blocks: seq![], in_deps: false }, all, 1);
}

} // verus!
