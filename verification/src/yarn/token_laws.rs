//! What each line of a lockfile says.

use vstd::prelude::*;
use crate::string_map::{lemma_lookup_put, lookup, put, sorted};
use crate::text::{
    indent_width, is_whitespace, law_trim, law_trim_end_char, lemma_find_at,
    lemma_find_whitespace_at, lemma_trim_end_len, lines, split, trim, trim_end, trim_start, unquote,
};
use crate::yarn::lines::{lemma_feed_add, lemma_feed_one};
use crate::yarn::tokens::{
    blocks_of, decimal, digit, feed, header_pieces, header_specs, key_value, spec_name, BlockView,
    Progress,
};

verus! {

/// The indentation of a text behind whitespace.
proof fn lemma_indented(indent: Seq<char>, s: Seq<char>)
    requires
        forall|i: int| 0 <= i < indent.len() ==> is_whitespace(#[trigger] indent[i]),
    ensures
        indent_width(indent + s) == indent_width(indent) + indent_width(s),
    decreases indent.len(),
{
    if indent.len() == 0 {
        assert(indent + s =~= s);
    } else {
        let rest = indent.drop_first();
        assert forall|i: int| 0 <= i < rest.len() implies is_whitespace(#[trigger] rest[i]) by {
            assert(rest[i] == indent[i + 1]);
        }
        lemma_indented(rest, s);
        assert((indent + s).drop_first() =~= rest + s);
        assert((indent + s)[0] == indent[0]);
    }
}

/// What is left of a line without the whitespace around its content.
proof fn lemma_body(indent: Seq<char>, body: Seq<char>, trail: Seq<char>)
    requires
        forall|i: int| 0 <= i < indent.len() ==> is_whitespace(#[trigger] indent[i]),
        forall|i: int| 0 <= i < trail.len() ==> is_whitespace(#[trigger] trail[i]),
        body.len() > 0,
        !is_whitespace(body[0]),
        !is_whitespace(body.last()),
    ensures
        trim_end(indent + body + trail) == indent + body,
        trim_start(indent + body) == body,
        indent_width(indent + body) == indent_width(indent),
{
    law_trim(indent, body, trail);
    let none = Seq::<char>::empty();
    law_trim(indent, body, none);
    assert(indent + body + none =~= indent + body);
    assert(body + none =~= body);
    lemma_indented(indent, body);
}

/// A key and a value with whitespace between them.
proof fn lemma_pair(key: Seq<char>, gap: Seq<char>, value: Seq<char>)
    requires
        forall|i: int| 0 <= i < key.len() ==> !is_whitespace(#[trigger] key[i]),
        forall|i: int| 0 <= i < gap.len() ==> is_whitespace(#[trigger] gap[i]),
        gap.len() > 0,
        value.len() > 0,
        !is_whitespace(value[0]),
        !is_whitespace(value.last()),
    ensures
        key_value(key + gap + value) == Some((key, unquote(value))),
{
    let line = key + gap + value;
    let n = key.len() as int;
    assert forall|j: int| 0 <= j < n implies !is_whitespace(line[j]) by {
        assert(line[j] == key[j]);
    }
    assert(line[n] == gap[0]);
    lemma_find_whitespace_at(line, n);
    let left = gap.drop_first();
    let none = Seq::<char>::empty();
    assert forall|i: int| 0 <= i < left.len() implies is_whitespace(#[trigger] left[i]) by {
        assert(left[i] == gap[i + 1]);
    }
    law_trim(left, value, none);
    assert(line.take(n) =~= key);
    assert(line.skip(n + 1) =~= left + value + none);
}

/// No lines change nothing; a line is read before those behind it, which are read from where
/// it leaves off, and a fault in it is the answer.
pub proof fn law_lines_are_read_in_order(
    progress: Progress,
    line: Seq<char>,
    rest: Seq<Seq<char>>,
    number: nat,
)
    ensures
        feed(progress, Seq::<Seq<char>>::empty(), number) == Ok::<Progress, Seq<char>>(progress),
        match feed(progress, seq![line], number) {
            Ok(next) => feed(progress, seq![line] + rest, number) == feed(next, rest, number + 1),
            Err(complaint) => feed(progress, seq![line] + rest, number) == Err::<Progress, Seq<char>>(
                complaint,
            ),
        },
{
    lemma_feed_add(progress, seq![line], rest, number);
}

/// The blocks of a lockfile are those that its lines leave, read from the first one on.
pub proof fn law_blocks_are_left_by_lines(content: Seq<char>)
    ensures
        match feed(Progress { blocks: seq![], in_deps: false }, lines(content), 1) {
            Ok(progress) => blocks_of(content) == Ok::<Seq<BlockView>, Seq<char>>(progress.blocks),
            Err(complaint) => blocks_of(content) == Err::<Seq<BlockView>, Seq<char>>(complaint),
        },
{
}

/// A blank line, or one whose content starts with a number sign, says nothing.
pub proof fn law_blank_lines_say_nothing(
    progress: Progress,
    space: Seq<char>,
    comment: Seq<char>,
    number: nat,
)
    requires
        forall|i: int| 0 <= i < space.len() ==> is_whitespace(#[trigger] space[i]),
        comment.len() > 0 ==> comment[0] == '#',
    ensures
        feed(progress, seq![space + comment], number) == Ok::<Progress, Seq<char>>(progress),
{
    let raw = space + comment;
    lemma_feed_one(progress, raw, number);
    let line = trim_end(raw);
    lemma_trim_end_len(raw);
    if line.len() <= space.len() {
        assert(line =~= space.take(line.len() as int));
        assert forall|i: int| 0 <= i < line.len() implies is_whitespace(#[trigger] line[i]) by {
            assert(line[i] == space[i]);
        }
        if line.len() > 0 {
            assert(is_whitespace(line[line.len() - 1]));
        }
        assert(line.len() == 0);
        assert(trim_start(line) =~= line);
    } else {
        let n = space.len() as int;
        let kept = line.skip(n);
        assert(line =~= space + kept);
        assert(kept[0] == raw[n]);
        assert(kept.last() == line.last());
        lemma_body(space, kept, Seq::<char>::empty());
        assert(trim_start(line) == kept);
    }
}

/// An unindented line that ends in a colon opens a block: its specifiers are what stands
/// between the commas, without the whitespace and the quotes around each. None of them may
/// be empty.
pub proof fn law_header_opens_a_block(
    progress: Progress,
    header: Seq<char>,
    gap: Seq<char>,
    colons: Seq<char>,
    trail: Seq<char>,
    number: nat,
)
    requires
        header.len() > 0,
        !is_whitespace(header[0]),
        !is_whitespace(header.last()),
        header[0] != '#',
        header.last() != ':',
        forall|i: int| 0 <= i < gap.len() ==> is_whitespace(#[trigger] gap[i]),
        colons.len() > 0,
        forall|i: int| 0 <= i < colons.len() ==> #[trigger] colons[i] == ':',
        forall|i: int| 0 <= i < trail.len() ==> is_whitespace(#[trigger] trail[i]),
    ensures
        ({
            let pieces = split(header, ',');
            let specs = Seq::new(pieces.len(), |i: int| unquote(trim(pieces[i])));
            let read = feed(progress, seq![header + gap + colons + trail], number);
            if exists|i: int| 0 <= i < specs.len() && (#[trigger] specs[i]).len() == 0 {
                read == Err::<Progress, Seq<char>>(
                    "line "@ + decimal(number) + ": "@ + ("empty spec in header '"@ + header
                        + "'"@),
                )
            } else {
                read matches Ok(next) && !next.in_deps && next.blocks == progress.blocks.push(
                    BlockView { specs, fields: seq![], dependencies: seq![] },
                )
            }
        }),
{
    let raw = header + gap + colons + trail;
    let line = header + gap + colons;
    let none = Seq::<char>::empty();
    lemma_feed_one(progress, raw, number);
    assert(line.last() == colons.last());
    assert(colons[colons.len() - 1] == ':');
    assert(line[0] == header[0]);
    lemma_body(none, line, trail);
    assert(none + line + trail =~= raw);
    assert(none + line =~= line);
    assert(indent_width(none) == 0);
    if gap.len() > 0 {
        assert((header + gap).last() == gap[gap.len() - 1]);
    } else {
        assert(header + gap =~= header);
    }
    law_trim_end_char(header + gap, colons, ':');
    law_trim(none, header, gap);
    assert(none + header + gap =~= header + gap);
    let pieces = split(header, ',');
    let specs = Seq::new(pieces.len(), |i: int| unquote(trim(pieces[i])));
    assert(header_pieces(header) =~= specs);
    if specs.contains(none) {
        let i = choose|i: int| 0 <= i < specs.len() && specs[i] == none;
        assert(specs[i].len() == 0);
    }
    if exists|i: int| 0 <= i < specs.len() && (#[trigger] specs[i]).len() == 0 {
        let i = choose|i: int| 0 <= i < specs.len() && (#[trigger] specs[i]).len() == 0;
        assert(specs[i] =~= none);
        assert(specs.contains(none));
    }
}

/// An unindented line that does not end in a colon is a fault.
pub proof fn law_header_ends_in_a_colon(
    progress: Progress,
    line: Seq<char>,
    trail: Seq<char>,
    number: nat,
)
    requires
        line.len() > 0,
        !is_whitespace(line[0]),
        !is_whitespace(line.last()),
        line[0] != '#',
        line.last() != ':',
        forall|i: int| 0 <= i < trail.len() ==> is_whitespace(#[trigger] trail[i]),
    ensures
        feed(progress, seq![line + trail], number) == Err::<Progress, Seq<char>>(
            "line "@ + decimal(number) + ": "@ + ("expected block header ending in ':', got '"@
                + line + "'"@),
        ),
{
    let raw = line + trail;
    let none = Seq::<char>::empty();
    lemma_feed_one(progress, raw, number);
    lemma_body(none, line, trail);
    assert(none + line + trail =~= raw);
    assert(none + line =~= line);
    assert(indent_width(none) == 0);
}

/// An indented line with content before the first header is a fault.
pub proof fn law_indented_lines_need_a_block(
    progress: Progress,
    indent: Seq<char>,
    body: Seq<char>,
    trail: Seq<char>,
    number: nat,
)
    requires
        progress.blocks.len() == 0,
        forall|i: int| 0 <= i < indent.len() ==> is_whitespace(#[trigger] indent[i]),
        indent.len() > 0,
        body.len() > 0,
        !is_whitespace(body[0]),
        !is_whitespace(body.last()),
        body[0] != '#',
        forall|i: int| 0 <= i < trail.len() ==> is_whitespace(#[trigger] trail[i]),
    ensures
        feed(progress, seq![indent + body + trail], number) == Err::<Progress, Seq<char>>(
            "line "@ + decimal(number) + ": "@
                + "unexpected indented content before any block header"@,
        ),
{
    lemma_feed_one(progress, indent + body + trail, number);
    lemma_body(indent, body, trail);
    assert(is_whitespace(indent[0]));
    assert(indent_width(indent) > 0);
}

/// A key and a value that are indented by two set that field of the block that is open, end
/// its section, and change nothing else.
pub proof fn law_field_is_set(
    progress: Progress,
    indent: Seq<char>,
    key: Seq<char>,
    gap: Seq<char>,
    value: Seq<char>,
    trail: Seq<char>,
    number: nat,
)
    requires
        progress.blocks.len() > 0,
        sorted(progress.blocks.last().fields),
        forall|i: int| 0 <= i < indent.len() ==> is_whitespace(#[trigger] indent[i]),
        indent_width(indent) == 2,
        key.len() > 0,
        key[0] != '#',
        forall|i: int| 0 <= i < key.len() ==> !is_whitespace(#[trigger] key[i]),
        forall|i: int| 0 <= i < gap.len() ==> is_whitespace(#[trigger] gap[i]),
        gap.len() > 0,
        value.len() > 0,
        !is_whitespace(value[0]),
        !is_whitespace(value.last()),
        value.last() != ':',
        forall|i: int| 0 <= i < trail.len() ==> is_whitespace(#[trigger] trail[i]),
    ensures
        feed(progress, seq![indent + (key + gap + value) + trail], number) matches Ok(next) && {
            let before = progress.blocks.last();
            let after = next.blocks.last();
            &&& !next.in_deps
            &&& next.blocks.len() == progress.blocks.len()
            &&& forall|i: int|
                0 <= i < progress.blocks.len() - 1 ==> #[trigger] next.blocks[i]
                    == progress.blocks[i]
            &&& after.specs == before.specs
            &&& after.dependencies == before.dependencies
            &&& lookup(after.fields, key) == Some(unquote(value))
            &&& forall|other: Seq<char>|
                other != key ==> #[trigger] lookup(after.fields, other) == lookup(
                    before.fields,
                    other,
                )
        },
{
    let body = key + gap + value;
    assert(body[0] == key[0]);
    assert(body.last() == value.last());
    lemma_feed_one(progress, indent + body + trail, number);
    lemma_body(indent, body, trail);
    lemma_pair(key, gap, value);
    let fields = progress.blocks.last().fields;
    lemma_lookup_put(fields, key, unquote(value), key);
    assert forall|other: Seq<char>| other != key implies #[trigger] lookup(
        put(fields, key, unquote(value)),
        other,
    ) == lookup(fields, other) by {
        lemma_lookup_put(fields, key, unquote(value), other);
    }
}

/// A line that is indented by two and holds one word alone is a fault.
pub proof fn law_field_needs_a_value(
    progress: Progress,
    indent: Seq<char>,
    word: Seq<char>,
    trail: Seq<char>,
    number: nat,
)
    requires
        progress.blocks.len() > 0,
        forall|i: int| 0 <= i < indent.len() ==> is_whitespace(#[trigger] indent[i]),
        indent_width(indent) == 2,
        word.len() > 0,
        word[0] != '#',
        word.last() != ':',
        forall|i: int| 0 <= i < word.len() ==> !is_whitespace(#[trigger] word[i]),
        forall|i: int| 0 <= i < trail.len() ==> is_whitespace(#[trigger] trail[i]),
    ensures
        feed(progress, seq![indent + word + trail], number) == Err::<Progress, Seq<char>>(
            "line "@ + decimal(number) + ": "@ + ("could not parse '"@ + word + "'"@),
        ),
{
    lemma_feed_one(progress, indent + word + trail, number);
    assert(!is_whitespace(word[word.len() - 1]));
    lemma_body(indent, word, trail);
    lemma_find_whitespace_at(word, word.len() as int);
}

/// A line that is indented by two and ends in a colon starts a section. Only that of the
/// dependencies is read.
pub proof fn law_section_starts(
    progress: Progress,
    indent: Seq<char>,
    name: Seq<char>,
    gap: Seq<char>,
    colons: Seq<char>,
    trail: Seq<char>,
    number: nat,
)
    requires
        progress.blocks.len() > 0,
        forall|i: int| 0 <= i < indent.len() ==> is_whitespace(#[trigger] indent[i]),
        indent_width(indent) == 2,
        name.len() > 0,
        !is_whitespace(name[0]),
        !is_whitespace(name.last()),
        name[0] != '#',
        name.last() != ':',
        forall|i: int| 0 <= i < gap.len() ==> is_whitespace(#[trigger] gap[i]),
        colons.len() > 0,
        forall|i: int| 0 <= i < colons.len() ==> #[trigger] colons[i] == ':',
        forall|i: int| 0 <= i < trail.len() ==> is_whitespace(#[trigger] trail[i]),
    ensures
        feed(progress, seq![indent + (name + gap + colons) + trail], number) matches Ok(next)
            && next.blocks == progress.blocks && next.in_deps == (name == "dependencies"@),
{
    let body = name + gap + colons;
    let none = Seq::<char>::empty();
    assert(body.last() == colons[colons.len() - 1]);
    assert(body[0] == name[0]);
    lemma_feed_one(progress, indent + body + trail, number);
    lemma_body(indent, body, trail);
    if gap.len() > 0 {
        assert((name + gap).last() == gap[gap.len() - 1]);
    } else {
        assert(name + gap =~= name);
    }
    law_trim_end_char(name + gap, colons, ':');
    law_trim(none, name, gap);
    assert(none + name + gap =~= name + gap);
}

/// A key and a value that are indented by four or more set that dependency of the block that
/// is open, within the section of the dependencies, and change nothing else.
pub proof fn law_dependency_is_set(
    progress: Progress,
    indent: Seq<char>,
    key: Seq<char>,
    gap: Seq<char>,
    value: Seq<char>,
    trail: Seq<char>,
    number: nat,
)
    requires
        progress.blocks.len() > 0,
        progress.in_deps,
        sorted(progress.blocks.last().dependencies),
        forall|i: int| 0 <= i < indent.len() ==> is_whitespace(#[trigger] indent[i]),
        indent_width(indent) >= 4,
        key.len() > 0,
        key[0] != '#',
        forall|i: int| 0 <= i < key.len() ==> !is_whitespace(#[trigger] key[i]),
        forall|i: int| 0 <= i < gap.len() ==> is_whitespace(#[trigger] gap[i]),
        gap.len() > 0,
        value.len() > 0,
        !is_whitespace(value[0]),
        !is_whitespace(value.last()),
        forall|i: int| 0 <= i < trail.len() ==> is_whitespace(#[trigger] trail[i]),
    ensures
        feed(progress, seq![indent + (key + gap + value) + trail], number) matches Ok(next) && {
            let before = progress.blocks.last();
            let after = next.blocks.last();
            &&& next.in_deps
            &&& next.blocks.len() == progress.blocks.len()
            &&& forall|i: int|
                0 <= i < progress.blocks.len() - 1 ==> #[trigger] next.blocks[i]
                    == progress.blocks[i]
            &&& after.specs == before.specs
            &&& after.fields == before.fields
            &&& lookup(after.dependencies, key) == Some(unquote(value))
            &&& forall|other: Seq<char>|
                other != key ==> #[trigger] lookup(after.dependencies, other) == lookup(
                    before.dependencies,
                    other,
                )
        },
{
    let body = key + gap + value;
    assert(body[0] == key[0]);
    assert(body.last() == value.last());
    lemma_feed_one(progress, indent + body + trail, number);
    lemma_body(indent, body, trail);
    lemma_pair(key, gap, value);
    let deps = progress.blocks.last().dependencies;
    lemma_lookup_put(deps, key, unquote(value), key);
    assert forall|other: Seq<char>| other != key implies #[trigger] lookup(
        put(deps, key, unquote(value)),
        other,
    ) == lookup(deps, other) by {
        lemma_lookup_put(deps, key, unquote(value), other);
    }
}

/// Within the section of the dependencies, a line that is indented by four or more and holds
/// one word alone is a fault.
pub proof fn law_dependency_needs_a_range(
    progress: Progress,
    indent: Seq<char>,
    word: Seq<char>,
    trail: Seq<char>,
    number: nat,
)
    requires
        progress.blocks.len() > 0,
        progress.in_deps,
        forall|i: int| 0 <= i < indent.len() ==> is_whitespace(#[trigger] indent[i]),
        indent_width(indent) >= 4,
        word.len() > 0,
        word[0] != '#',
        forall|i: int| 0 <= i < word.len() ==> !is_whitespace(#[trigger] word[i]),
        forall|i: int| 0 <= i < trail.len() ==> is_whitespace(#[trigger] trail[i]),
    ensures
        feed(progress, seq![indent + word + trail], number) == Err::<Progress, Seq<char>>(
            "line "@ + decimal(number) + ": "@ + ("could not parse dep '"@ + word + "'"@),
        ),
{
    lemma_feed_one(progress, indent + word + trail, number);
    assert(!is_whitespace(word[word.len() - 1]));
    lemma_body(indent, word, trail);
    lemma_find_whitespace_at(word, word.len() as int);
}

/// Lines of other sections are skipped, and so are lines with any other indentation.
pub proof fn law_other_lines_are_skipped(
    progress: Progress,
    indent: Seq<char>,
    body: Seq<char>,
    trail: Seq<char>,
    number: nat,
)
    requires
        progress.blocks.len() > 0,
        forall|i: int| 0 <= i < indent.len() ==> is_whitespace(#[trigger] indent[i]),
        indent_width(indent) == 1 || indent_width(indent) == 3 || (indent_width(indent) >= 4
            && !progress.in_deps),
        body.len() > 0,
        !is_whitespace(body[0]),
        !is_whitespace(body.last()),
        forall|i: int| 0 <= i < trail.len() ==> is_whitespace(#[trigger] trail[i]),
    ensures
        feed(progress, seq![indent + body + trail], number) == Ok::<Progress, Seq<char>>(progress),
{
    lemma_feed_one(progress, indent + body + trail, number);
    lemma_body(indent, body, trail);
}

/// The name in a specifier ends at its first at sign. In one with a scope, which starts with
/// an at sign and ends at a slash, it ends at the first at sign behind the slash. A specifier
/// without that at sign or that slash has no name.
pub proof fn law_name_of_specifier(scope: Seq<char>, name: Seq<char>, range: Seq<char>)
    requires
        !name.contains('@'),
        !scope.contains('/'),
    ensures
        name.len() > 0 ==> spec_name(name + "@"@ + range) == Some(name),
        spec_name(name) is None,
        spec_name("@"@ + scope + "/"@ + name + "@"@ + range) == Some("@"@ + scope + "/"@ + name),
        spec_name("@"@ + scope) is None,
        spec_name("@"@ + scope + "/"@ + name) is None,
{
    reveal_strlit("@");
    reveal_strlit("/");
    assert forall|i: int| 0 <= i < name.len() implies name[i] != '@' by {
        assert(name.contains(name[i]));
    }
    assert forall|i: int| 0 <= i < scope.len() implies scope[i] != '/' by {
        assert(scope.contains(scope[i]));
    }
    let n = name.len() as int;
    let m = scope.len() as int;
    let plain = name + "@"@ + range;
    lemma_find_at(name, '@', n);
    if n > 0 {
        assert(plain[0] == name[0]);
        lemma_find_at(plain, '@', n);
        assert(plain.take(n) =~= name);
    }
    let full = "@"@ + scope + "/"@ + name + "@"@ + range;
    assert(full.skip(1) =~= scope + "/"@ + plain);
    lemma_find_at(full.skip(1), '/', m);
    assert(full.skip(1).skip(m + 1) =~= plain);
    lemma_find_at(plain, '@', n);
    assert(full.take(m + n + 2) =~= "@"@ + scope + "/"@ + name);
    let alone = "@"@ + scope;
    assert(alone.skip(1) =~= scope);
    lemma_find_at(scope, '/', m);
    let bare = "@"@ + scope + "/"@ + name;
    assert(bare.skip(1) =~= scope + "/"@ + name);
    lemma_find_at(bare.skip(1), '/', m);
    assert(bare.skip(1).skip(m + 1) =~= name);
}

/// The last digit of a number stands behind those of a tenth of it, and the digits follow on
/// each other from zero on.
pub proof fn law_decimal(tens: nat, ones: nat)
    requires
        ones < 10,
    ensures
        tens > 0 ==> decimal(10 * tens + ones) == decimal(tens) + decimal(ones),
        decimal(ones).len() == 1,
        decimal(ones)[0] as int == '0' as int + ones,
{
    if tens > 0 {
        let n: nat = 10 * tens + ones;
        assert(n / 10 == tens);
        assert(n % 10 == ones);
        assert(decimal(tens) + decimal(ones) =~= decimal(tens).push(digit(ones)));
    }
}

/// The specifiers of a header are what stands between its commas, without the whitespace and
/// the quotes around each; they are refused if one is empty.
pub proof fn law_specifiers_of_header(header: Seq<char>)
    ensures
        ({
            let pieces = split(header, ',');
            let specs = Seq::new(pieces.len(), |i: int| unquote(trim(pieces[i])));
            if exists|i: int| 0 <= i < specs.len() && (#[trigger] specs[i]).len() == 0 {
                header_specs(header) == Err::<Seq<Seq<char>>, Seq<char>>(
                    "empty spec in header '"@ + header + "'"@,
                )
            } else {
                header_specs(header) == Ok::<Seq<Seq<char>>, Seq<char>>(specs)
            }
        }),
{
    let none = Seq::<char>::empty();
    let pieces = split(header, ',');
    let specs = Seq::new(pieces.len(), |i: int| unquote(trim(pieces[i])));
    assert(header_pieces(header) =~= specs);
    if specs.contains(none) {
        let i = choose|i: int| 0 <= i < specs.len() && specs[i] == none;
        assert(specs[i].len() == 0);
    }
    if exists|i: int| 0 <= i < specs.len() && (#[trigger] specs[i]).len() == 0 {
        let i = choose|i: int| 0 <= i < specs.len() && (#[trigger] specs[i]).len() == 0;
        assert(specs[i] =~= none);
        assert(specs.contains(none));
    }
}

/// A key ends at the first whitespace. Its value is what follows, without the whitespace and
/// the quotes around it. Without whitespace there is no value.
pub proof fn law_key_and_value(
    key: Seq<char>,
    gap: Seq<char>,
    value: Seq<char>,
    trail: Seq<char>,
)
    requires
        forall|i: int| 0 <= i < key.len() ==> !is_whitespace(#[trigger] key[i]),
        forall|i: int| 0 <= i < gap.len() ==> is_whitespace(#[trigger] gap[i]),
        gap.len() > 0,
        value.len() > 0 ==> !is_whitespace(value[0]) && !is_whitespace(value.last()),
        forall|i: int| 0 <= i < trail.len() ==> is_whitespace(#[trigger] trail[i]),
    ensures
        key_value(key + gap + value + trail) == Some((key, unquote(value))),
        key_value(key) is None,
{
    let line = key + gap + value + trail;
    let n = key.len() as int;
    assert forall|j: int| 0 <= j < n implies !is_whitespace(line[j]) by {
        assert(line[j] == key[j]);
    }
    assert(line[n] == gap[0]);
    lemma_find_whitespace_at(line, n);
    lemma_find_whitespace_at(key, n);
    let left = gap.drop_first();
    assert forall|i: int| 0 <= i < left.len() implies is_whitespace(#[trigger] left[i]) by {
        assert(left[i] == gap[i + 1]);
    }
    law_trim(left, value, trail);
    assert(line.take(n) =~= key);
    assert(line.skip(n + 1) =~= left + value + trail);
}

} // verus!
