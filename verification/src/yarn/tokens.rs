//! From the text of a lockfile to its blocks.

use vstd::prelude::*;
use vstd::slice::slice_subrange;
use crate::lockfile::TextEntries;
use crate::string_map::{put, StringMap};
use crate::text::{
    chars_of, find, find_whitespace, indent_up_to_four, indent_width, lemma_trim_start_len, lines, position, split,
    split_line, string_of, trim, trim_end, trim_end_char, trim_start, trimmed, trimmed_end,
    trimmed_end_char, trimmed_start, unquote, unquoted, whitespace_position,
};

verus! {

/// A block of a lockfile.
#[derive(Debug)]
pub struct Block {
    /// The specifiers of the header, each `name@range`.
    pub specs: Vec<String>,
    /// The fields with a value, such as `version` and `integrity`.
    pub fields: StringMap<String>,
    /// The `dependencies:` section, from names to ranges.
    pub dependencies: StringMap<String>,
}

#[verifier::ext_equal]
pub struct BlockView {
    pub specs: Seq<Seq<char>>,
    pub fields: TextEntries,
    pub dependencies: TextEntries,
}

impl DeepView for Block {
    type V = BlockView;

    open spec fn deep_view(&self) -> BlockView {
        BlockView {
            specs: self.specs.deep_view(),
            fields: self.fields@,
            dependencies: self.dependencies@,
        }
    }
}

/// The decimal digit for a number below ten.
pub open spec fn digit(d: nat) -> char {
    if d == 0 {
        '0'
    } else if d == 1 {
        '1'
    } else if d == 2 {
        '2'
    } else if d == 3 {
        '3'
    } else if d == 4 {
        '4'
    } else if d == 5 {
        '5'
    } else if d == 6 {
        '6'
    } else if d == 7 {
        '7'
    } else if d == 8 {
        '8'
    } else {
        '9'
    }
}

/// A number in decimal notation.
pub open spec fn decimal(n: nat) -> Seq<char>
    decreases n,
{
    if n < 10 {
        seq![digit(n)]
    } else {
        decimal(n / 10).push(digit(n % 10))
    }
}

/// The specifiers of a header: the pieces between its commas, without the whitespace
/// and the quotes around them.
pub open spec fn header_pieces(header: Seq<char>) -> Seq<Seq<char>> {
    split(header, ',').map_values(|piece: Seq<char>| unquote(trim(piece)))
}

/// The specifiers of a header, or the complaint that one of them is empty.
pub open spec fn header_specs(header: Seq<char>) -> Result<Seq<Seq<char>>, Seq<char>> {
    if header_pieces(header).contains(Seq::<char>::empty()) {
        Err("empty spec in header '"@ + header + "'"@)
    } else {
        Ok(header_pieces(header))
    }
}

/// A key and a value: what stands before the first whitespace, and what stands after
/// it without the whitespace and the quotes around it.
pub open spec fn key_value(line: Seq<char>) -> Option<(Seq<char>, Seq<char>)> {
    let at = find_whitespace(line);
    if at >= line.len() {
        None
    } else {
        Some((line.take(at as int), unquote(trim(line.skip(at + 1 as int)))))
    }
}

/// The package name of a specifier: what stands before its `@`. In `@scope/pkg@range`
/// the `@` behind the slash counts.
pub open spec fn spec_name(spec: Seq<char>) -> Option<Seq<char>> {
    if spec.len() > 0 && spec[0] == '@' {
        let rest = spec.skip(1);
        let slash = find(rest, '/');
        if slash >= rest.len() {
            None
        } else {
            let tail = rest.skip(slash + 1 as int);
            let at = find(tail, '@');
            if at >= tail.len() {
                None
            } else {
                Some(spec.take(slash + at + 2 as int))
            }
        }
    } else {
        let at = find(spec, '@');
        if at >= spec.len() {
            None
        } else {
            Some(spec.take(at as int))
        }
    }
}

/// What a line of a lockfile says, seen by itself.
pub enum LineView {
    /// Blank, or a comment.
    Blank,
    /// A header with its specifiers.
    Header(Seq<Seq<char>>),
    /// An unindented line that is no header, with the complaint.
    BadHeader(Seq<char>),
    /// The start of a nested section; true for `dependencies:`.
    Section(bool),
    /// A key and a value, indented by two.
    Field(Seq<char>, Seq<char>),
    /// A line indented by two without a value.
    BadField(Seq<char>),
    /// A line indented by four or more, with its key and value if it has them.
    Nested(Option<(Seq<char>, Seq<char>)>, Seq<char>),
    /// A line with any other indentation.
    Stray,
}

/// What an unindented line says.
pub open spec fn header_line(line: Seq<char>) -> LineView {
    if line.last() != ':' {
        LineView::BadHeader("expected block header ending in ':', got '"@ + line + "'"@)
    } else {
        match header_specs(trim(trim_end_char(line, ':'))) {
            Ok(specs) => LineView::Header(specs),
            Err(complaint) => LineView::BadHeader(complaint),
        }
    }
}

/// What the content of a line that is indented by two says.
pub open spec fn field_line(body: Seq<char>) -> LineView {
    if body.last() == ':' {
        LineView::Section(trim(trim_end_char(body, ':')) == "dependencies"@)
    } else {
        match key_value(body) {
            Some((key, value)) => LineView::Field(key, value),
            None => LineView::BadField(body),
        }
    }
}

/// What a line says. Only whitespace in front of it counts as indentation, in bytes.
pub open spec fn read_line(raw: Seq<char>) -> LineView {
    let line = trim_end(raw);
    let body = trim_start(line);
    if body.len() == 0 || body[0] == '#' {
        LineView::Blank
    } else if indent_width(line) == 0 {
        header_line(line)
    } else if indent_width(line) == 2 {
        field_line(body)
    } else if indent_width(line) >= 4 {
        LineView::Nested(key_value(body), body)
    } else {
        LineView::Stray
    }
}

/// The blocks read so far, the last of them still open, and whether the lines that
/// follow belong to its `dependencies:` section.
#[verifier::ext_equal]
pub struct Progress {
    pub blocks: Seq<BlockView>,
    pub in_deps: bool,
}

/// A complaint with the number of the line it is about.
pub open spec fn at_line(number: nat, complaint: Seq<char>) -> Seq<char> {
    "line "@ + decimal(number) + ": "@ + complaint
}

/// The block with a field set.
pub open spec fn with_field(block: BlockView, key: Seq<char>, value: Seq<char>) -> BlockView {
    BlockView { fields: put(block.fields, key, value), ..block }
}

/// The block with a dependency set.
pub open spec fn with_dependency(block: BlockView, key: Seq<char>, value: Seq<char>) -> BlockView {
    BlockView { dependencies: put(block.dependencies, key, value), ..block }
}

/// One more line read.
pub open spec fn step(progress: Progress, line: LineView, number: nat) -> Result<
    Progress,
    Seq<char>,
> {
    let blocks = progress.blocks;
    match line {
        LineView::Blank => Ok(progress),
        LineView::Header(specs) => Ok(
            Progress {
                blocks: blocks.push(
                    BlockView { specs, fields: seq![], dependencies: seq![] },
                ),
                in_deps: false,
            },
        ),
        LineView::BadHeader(complaint) => Err(at_line(number, complaint)),
        _ => if blocks.len() == 0 {
            Err(at_line(number, "unexpected indented content before any block header"@))
        } else {
            match line {
                LineView::Section(deps) => Ok(Progress { blocks, in_deps: deps }),
                LineView::Field(key, value) => Ok(
                    Progress {
                        blocks: blocks.drop_last().push(with_field(blocks.last(), key, value)),
                        in_deps: false,
                    },
                ),
                LineView::BadField(body) => Err(
                    at_line(number, "could not parse '"@ + body + "'"@),
                ),
                LineView::Nested(entry, body) => if !progress.in_deps {
                    Ok(progress)
                } else {
                    match entry {
                        Some((key, value)) => Ok(
                            Progress {
                                blocks: blocks.drop_last().push(
                                    with_dependency(blocks.last(), key, value),
                                ),
                                in_deps: true,
                            },
                        ),
                        None => Err(at_line(number, "could not parse dep '"@ + body + "'"@)),
                    }
                },
                _ => Ok(progress),
            }
        },
    }
}

/// All lines read, the first of them numbered `number`; or the first complaint.
pub open spec fn feed(progress: Progress, rest: Seq<Seq<char>>, number: nat) -> Result<
    Progress,
    Seq<char>,
>
    decreases rest.len(),
{
    if rest.len() == 0 {
        Ok(progress)
    } else {
        match step(progress, read_line(rest[0]), number) {
            Ok(next) => feed(next, rest.drop_first(), number + 1),
            Err(complaint) => Err(complaint),
        }
    }
}

/// The blocks of a lockfile, or the first complaint about it.
pub open spec fn blocks_of(content: Seq<char>) -> Result<Seq<BlockView>, Seq<char>> {
    match feed(Progress { blocks: seq![], in_deps: false }, lines(content), 1) {
        Ok(progress) => Ok(progress.blocks),
        Err(complaint) => Err(complaint),
    }
}

/// The decimal digit for a number below ten.
fn digit_of(d: usize) -> (r: char)
    requires
        d < 10,
    ensures
        r == digit(d as nat),
{
    match d {
        0 => '0',
        1 => '1',
        2 => '2',
        3 => '3',
        4 => '4',
        5 => '5',
        6 => '6',
        7 => '7',
        8 => '8',
        _ => '9',
    }
}

/// A number in decimal notation.
fn decimal_of(n: usize) -> (r: String)
    ensures
        r@ == decimal(n as nat),
    decreases n,
{
    if n < 10 {
        let mut r = String::new();
        r.push(digit_of(n));
        assert(r@ =~= seq![digit(n as nat)]);
        r
    } else {
        let mut r = decimal_of(n / 10);
        r.push(digit_of(n % 10));
        r
    }
}

/// A complaint with the number of the line it is about.
fn complain(number: usize, complaint: &str) -> (r: String)
    ensures
        r@ == at_line(number as nat, complaint@),
{
    let mut r = "line ".to_string();
    r.append(decimal_of(number).as_str());
    r.append(": ");
    r.append(complaint);
    r
}

/// Some text between two others.
fn between(left: &str, text: &[char], right: &str) -> (r: String)
    ensures
        r@ == left@ + text@ + right@,
{
    let mut r = left.to_string();
    r.append(string_of(text).as_str());
    r.append(right);
    r
}

/// The first piece of a text up to `c`, and what follows `c` if it occurs.
fn split_first<'a>(s: &'a [char], c: char) -> (r: (&'a [char], Option<&'a [char]>))
    ensures
        r.1 matches Some(rest) ==> rest@.len() < s@.len() && split(s@, c) == seq![r.0@] + split(
            rest@,
            c,
        ),
        r.1 is None ==> split(s@, c) == seq![r.0@],
{
    let at: usize = position(s, c);
    if at == s.len() {
        (s, None)
    } else {
        (slice_subrange(s, 0, at), Some(slice_subrange(s, at + 1, s.len())))
    }
}

/// Reads the specifiers of a header.
fn header_specs_of(header: &[char]) -> (r: Result<Vec<String>, String>)
    ensures
        r is Ok <==> header_specs(header@) is Ok,
        r matches Ok(specs) ==> header_specs(header@) == Ok::<Seq<Seq<char>>, Seq<char>>(
            specs.deep_view(),
        ) && specs@.len() > 0,
        r matches Err(e) ==> header_specs(header@) == Err::<Seq<Seq<char>>, Seq<char>>(e@),
{
    let ghost clean = |piece: Seq<char>| unquote(trim(piece));
    let ghost all = header_pieces(header@);
    let mut specs: Vec<String> = Vec::new();
    let mut text = header;
    assert(specs.deep_view() =~= seq![]);
    assert(seq![] + all =~= all);
    loop
        invariant
            all == header_pieces(header@),
            clean == (|piece: Seq<char>| unquote(trim(piece))),
            !specs.deep_view().contains(Seq::<char>::empty()),
            all == specs.deep_view() + split(text@, ',').map_values(clean),
        decreases text@.len(),
    {
        let (piece, tail) = split_first(text, ',');
        let spec = unquoted(trimmed(piece));
        let ghost done = specs.deep_view();
        let ghost pieces = split(text@, ',');
        proof {
            assert(pieces[0] == piece@);
            assert(all[done.len() as int] == pieces.map_values(clean)[0]);
            assert(all[done.len() as int] == spec@);
        }
        if spec.len() == 0 {
            assert(spec@ =~= Seq::<char>::empty());
            assert(all.contains(Seq::<char>::empty()));
            return Err(between("empty spec in header '", header, "'"));
        }
        specs.push(string_of(spec));
        proof {
            assert(specs.deep_view() =~= done.push(spec@));
            assert forall|i: int| 0 <= i < specs.deep_view().len() implies specs.deep_view()[i]
                != Seq::<char>::empty() by {
                if i < done.len() {
                    assert(done[i] == specs.deep_view()[i]);
                    assert(done.contains(done[i]));
                }
            }
            match tail {
                Some(t) => {
                    assert(pieces.map_values(clean) =~= seq![spec@] + split(t@, ',').map_values(
                        clean,
                    ));
                    assert(all =~= specs.deep_view() + split(t@, ',').map_values(clean));
                },
                None => {
                    assert(pieces.map_values(clean) =~= seq![spec@]);
                    assert(all =~= specs.deep_view());
                },
            }
        }
        match tail {
            Some(t) => {
                text = t;
            },
            None => {
                return Ok(specs);
            },
        }
    }
}

/// Reads the specifiers of a header such as `"foo@^1.0.0", "foo@^1.1.0"`, with or without
/// the quotes.
pub fn parse_header_specs(header: &str) -> (r: Result<Vec<String>, String>)
    ensures
        r is Ok <==> header_specs(header@) is Ok,
        r matches Ok(specs) ==> header_specs(header@) == Ok::<Seq<Seq<char>>, Seq<char>>(
            specs.deep_view(),
        ) && specs@.len() > 0,
        r matches Err(e) ==> header_specs(header@) == Err::<Seq<Seq<char>>, Seq<char>>(e@),
{
    header_specs_of(chars_of(header).as_slice())
}

/// The view of an optional key with its value.
pub open spec fn pair_option(pair: Option<(String, String)>) -> Option<(Seq<char>, Seq<char>)> {
    match pair {
        Some((key, value)) => Some((key@, value@)),
        None => None,
    }
}

/// Reads a key and a value.
fn key_value_of(line: &[char]) -> (r: Option<(String, String)>)
    ensures
        pair_option(r) == key_value(line@),
{
    let at: usize = whitespace_position(line);
    if at == line.len() {
        None
    } else {
        let key = string_of(slice_subrange(line, 0, at));
        let value = string_of(unquoted(trimmed(slice_subrange(line, at + 1, line.len()))));
        Some((key, value))
    }
}

/// Reads a key and a value from a line such as `version "1.2.3"`, with or without the
/// quotes.
pub fn split_key_value(line: &str) -> (r: Option<(String, String)>)
    ensures
        pair_option(r) == key_value(line@),
{
    key_value_of(chars_of(line).as_slice())
}

/// The package name of a specifier such as `foo@^1.0.0` or `@scope/pkg@^1.0.0`.
pub fn parse_spec_name(spec: &str) -> (r: Option<String>)
    ensures
        r is Some <==> spec_name(spec@) is Some,
        r matches Some(name) ==> spec_name(spec@) == Some(name@),
{
    let chars = chars_of(spec);
    let s = chars.as_slice();
    if s.len() > 0 && s[0] == '@' {
        let rest = slice_subrange(s, 1, s.len());
        let slash: usize = position(rest, '/');
        if slash == rest.len() {
            return None;
        }
        let tail = slice_subrange(rest, slash + 1, rest.len());
        let at: usize = position(tail, '@');
        if at == tail.len() {
            return None;
        }
        Some(string_of(slice_subrange(s, 0, slash + at + 2)))
    } else {
        let at: usize = position(s, '@');
        if at == s.len() {
            None
        } else {
            Some(string_of(slice_subrange(s, 0, at)))
        }
    }
}

/// What a line of a lockfile says, seen by itself.
enum Line {
    Blank,
    Header(Vec<String>),
    BadHeader(String),
    Section(bool),
    Field(String, String),
    BadField(String),
    Nested(Option<(String, String)>, String),
    Stray,
}

spec fn line_view(line: Line) -> LineView {
    match line {
        Line::Blank => LineView::Blank,
        Line::Header(specs) => LineView::Header(specs.deep_view()),
        Line::BadHeader(complaint) => LineView::BadHeader(complaint@),
        Line::Section(deps) => LineView::Section(deps),
        Line::Field(key, value) => LineView::Field(key@, value@),
        Line::BadField(body) => LineView::BadField(body@),
        Line::Nested(entry, body) => LineView::Nested(pair_option(entry), body@),
        Line::Stray => LineView::Stray,
    }
}

/// Reads an unindented line.
fn header_line_of(line: &[char]) -> (r: Line)
    requires
        line@.len() > 0,
    ensures
        line_view(r) == header_line(line@),
{
    if line[line.len() - 1] != ':' {
        return Line::BadHeader(between("expected block header ending in ':', got '", line, "'"));
    }
    match header_specs_of(trimmed(trimmed_end_char(line, ':'))) {
        Ok(specs) => Line::Header(specs),
        Err(complaint) => Line::BadHeader(complaint),
    }
}

/// Reads the content of a line that is indented by two.
fn field_line_of(body: &[char]) -> (r: Line)
    requires
        body@.len() > 0,
    ensures
        line_view(r) == field_line(body@),
{
    if body[body.len() - 1] == ':' {
        let section = string_of(trimmed(trimmed_end_char(body, ':')));
        return Line::Section(section == "dependencies".to_string());
    }
    match key_value_of(body) {
        Some((key, value)) => Line::Field(key, value),
        None => Line::BadField(string_of(body)),
    }
}

/// Reads a line.
fn line_of(raw: &[char]) -> (r: Line)
    ensures
        line_view(r) == read_line(raw@),
{
    let line = trimmed_end(raw);
    let body = trimmed_start(line);
    if body.len() == 0 || body[0] == '#' {
        return Line::Blank;
    }
    let indent: usize = indent_up_to_four(line);
    if indent == 0 {
        proof {
            lemma_trim_start_len(line@);
        }
        header_line_of(line)
    } else if indent == 2 {
        field_line_of(body)
    } else if indent == 4 {
        Line::Nested(key_value_of(body), string_of(body))
    } else {
        Line::Stray
    }
}

/// Takes in one more line.
fn take_line(blocks: &mut Vec<Block>, in_deps: &mut bool, line: Line, number: usize) -> (r: Result<
    (),
    String,
>)
    ensures
        match step(
            Progress { blocks: old(blocks).deep_view(), in_deps: *old(in_deps) },
            line_view(line),
            number as nat,
        ) {
            Ok(next) => r is Ok && next == (Progress {
                blocks: final(blocks).deep_view(),
                in_deps: *final(in_deps),
            }),
            Err(complaint) => r matches Err(e) && e@ == complaint,
        },
{
    let ghost before = blocks.deep_view();
    match line {
        Line::Blank => {
            return Ok(());
        },
        Line::Header(specs) => {
            let block = Block { specs, fields: StringMap::new(), dependencies: StringMap::new() };
            let ghost v = block.deep_view();
            blocks.push(block);
            assert(blocks.deep_view() =~= before.push(v));
            *in_deps = false;
            return Ok(());
        },
        Line::BadHeader(complaint) => {
            return Err(complain(number, complaint.as_str()));
        },
        _ => {},
    }
    match blocks.pop() {
        None => {
            assert(before.len() == 0);
            Err(complain(number, "unexpected indented content before any block header"))
        },
        Some(block) => {
            assert(blocks.deep_view() =~= before.drop_last());
            assert(block.deep_view() == before.last());
            let mut block = block;
            match line {
                Line::Section(deps) => {
                    blocks.push(block);
                    assert(blocks.deep_view() =~= before);
                    *in_deps = deps;
                    Ok(())
                },
                Line::Field(key, value) => {
                    let ghost v = with_field(before.last(), key@, value@);
                    block.fields.insert(key, value);
                    blocks.push(block);
                    assert(blocks.deep_view() =~= before.drop_last().push(v));
                    *in_deps = false;
                    Ok(())
                },
                Line::BadField(body) => {
                    let mut complaint = "could not parse '".to_string();
                    complaint.append(body.as_str());
                    complaint.append("'");
                    Err(complain(number, complaint.as_str()))
                },
                Line::Nested(entry, body) => {
                    if !*in_deps {
                        blocks.push(block);
                        assert(blocks.deep_view() =~= before);
                        return Ok(());
                    }
                    match entry {
                        Some((key, value)) => {
                            let ghost v = with_dependency(before.last(), key@, value@);
                            block.dependencies.insert(key, value);
                            blocks.push(block);
                            assert(blocks.deep_view() =~= before.drop_last().push(v));
                            Ok(())
                        },
                        None => {
                            let mut complaint = "could not parse dep '".to_string();
                            complaint.append(body.as_str());
                            complaint.append("'");
                            Err(complain(number, complaint.as_str()))
                        },
                    }
                },
                _ => {
                    blocks.push(block);
                    assert(blocks.deep_view() =~= before);
                    Ok(())
                },
            }
        },
    }
}

/// Reads the blocks of a lockfile, line by line:
/// - blank lines and comments (`# ...`) are skipped;
/// - an unindented line is the header of a block and ends in `:`;
/// - a line indented by two is a field, or the start of a nested section;
/// - a line indented by four or more is an entry of the nested section, of which only
///   `dependencies:` is kept.
pub fn tokenize_blocks(content: &str) -> (r: Result<Vec<Block>, String>)
    ensures
        r is Ok <==> blocks_of(content@) is Ok,
        r matches Ok(blocks) ==> blocks_of(content@) == Ok::<Seq<BlockView>, Seq<char>>(
            blocks.deep_view(),
        ),
        r matches Err(e) ==> blocks_of(content@) == Err::<Seq<BlockView>, Seq<char>>(e@),
{
    let chars = chars_of(content);
    let mut blocks: Vec<Block> = Vec::new();
    let mut in_deps: bool = false;
    let mut rest = chars.as_slice();
    let mut number: usize = 0;
    let ghost all = feed(Progress { blocks: seq![], in_deps: false }, lines(content@), 1);
    assert(blocks.deep_view() =~= seq![]);
    while rest.len() > 0
        invariant
            number + rest@.len() <= chars@.len(),
            chars@.len() <= usize::MAX,
            all == feed(Progress { blocks: seq![], in_deps: false }, lines(content@), 1),
            all == feed(
                Progress { blocks: blocks.deep_view(), in_deps },
                lines(rest@),
                (number + 1) as nat,
            ),
        decreases rest@.len(),
    {
        let (raw, tail) = split_line(rest);
        proof {
            let ls = lines(rest@);
            assert(ls[0] == raw@);
            assert(ls.drop_first() =~= lines(tail@));
        }
        number += 1;
        match take_line(&mut blocks, &mut in_deps, line_of(raw), number) {
            Ok(()) => {},
            Err(complaint) => {
                return Err(complaint);
            },
        }
        rest = tail;
    }
    Ok(blocks)
}

} // verus!
