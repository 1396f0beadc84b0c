//! Text as a sequence of characters: the splitting and trimming rules that the
//! file formats of this crate are written in.

use vstd::prelude::*;
use vstd::slice::slice_subrange;

verus! {

/// Appending one character, as `String::push` is documented to do.
pub assume_specification[ String::push ](s: &mut String, c: char)
    ensures
        final(s)@ == old(s)@.push(c),
;

/// The characters with Unicode's `White_Space` property.
pub open spec fn is_whitespace(c: char) -> bool {
    ||| '\u{9}' <= c <= '\u{d}'
    ||| c == ' '
    ||| c == '\u{85}'
    ||| c == '\u{a0}'
    ||| c == '\u{1680}'
    ||| '\u{2000}' <= c <= '\u{200a}'
    ||| c == '\u{2028}'
    ||| c == '\u{2029}'
    ||| c == '\u{202f}'
    ||| c == '\u{205f}'
    ||| c == '\u{3000}'
}

/// The number of bytes that UTF-8 spends on a character.
pub open spec fn utf8_width(c: char) -> nat {
    if c <= '\u{7f}' {
        1
    } else if c <= '\u{7ff}' {
        2
    } else if c <= '\u{ffff}' {
        3
    } else {
        4
    }
}

/// The text without its leading whitespace.
pub open spec fn trim_start(s: Seq<char>) -> Seq<char>
    decreases s.len(),
{
    if s.len() > 0 && is_whitespace(s[0]) {
        trim_start(s.drop_first())
    } else {
        s
    }
}

/// The text without its trailing whitespace.
pub open spec fn trim_end(s: Seq<char>) -> Seq<char>
    decreases s.len(),
{
    if s.len() > 0 && is_whitespace(s.last()) {
        trim_end(s.drop_last())
    } else {
        s
    }
}

/// The text without its leading and trailing whitespace.
pub open spec fn trim(s: Seq<char>) -> Seq<char> {
    trim_end(trim_start(s))
}

/// The text without the run of `c` at its end.
pub open spec fn trim_end_char(s: Seq<char>, c: char) -> Seq<char>
    decreases s.len(),
{
    if s.len() > 0 && s.last() == c {
        trim_end_char(s.drop_last(), c)
    } else {
        s
    }
}

/// How many bytes of UTF-8 the leading whitespace takes.
pub open spec fn indent_width(s: Seq<char>) -> nat
    decreases s.len(),
{
    if s.len() > 0 && is_whitespace(s[0]) {
        utf8_width(s[0]) + indent_width(s.drop_first())
    } else {
        0
    }
}

/// Where `c` first occurs, or the length of the text if it does not.
pub open spec fn find(s: Seq<char>, c: char) -> nat
    decreases s.len(),
{
    if s.len() == 0 || s[0] == c {
        0
    } else {
        1 + find(s.drop_first(), c)
    }
}

/// Where whitespace first occurs, or the length of the text if it does not.
pub open spec fn find_whitespace(s: Seq<char>) -> nat
    decreases s.len(),
{
    if s.len() == 0 || is_whitespace(s[0]) {
        0
    } else {
        1 + find_whitespace(s.drop_first())
    }
}

/// The text without a carriage return at its end.
pub open spec fn without_cr(s: Seq<char>) -> Seq<char> {
    if s.len() > 0 && s.last() == '\r' {
        s.drop_last()
    } else {
        s
    }
}

/// The lines of a text. A line ends at `\n` or `\r\n`; the last ending is optional.
pub open spec fn lines(s: Seq<char>) -> Seq<Seq<char>>
    decreases s.len(),
{
    if s.len() == 0 {
        seq![]
    } else {
        let end = find(s, '\n');
        if end >= s.len() {
            seq![s]
        } else {
            seq![without_cr(s.take(end as int))] + lines(s.skip((end + 1) as int))
        }
    }
}

/// The pieces of a text between the occurrences of `c`. There is always one.
pub open spec fn split(s: Seq<char>, c: char) -> Seq<Seq<char>>
    decreases s.len(),
{
    let at = find(s, c);
    if at >= s.len() {
        seq![s]
    } else {
        seq![s.take(at as int)] + split(s.skip((at + 1) as int), c)
    }
}

/// Whether `c` does not occur in a text.
pub open spec fn lacks(s: Seq<char>, c: char) -> bool {
    forall|i: int| 0 <= i < s.len() ==> s[i] != c
}

/// Whether a text can be a line: it holds no line feed and no carriage return at its end.
pub open spec fn fits_line(s: Seq<char>) -> bool {
    lacks(s, '\n') && (s.len() > 0 ==> s.last() != '\r')
}

/// The text inside a matching pair of double or single quotes, or the text itself.
pub open spec fn unquote(s: Seq<char>) -> Seq<char> {
    if s.len() >= 2 && s[0] == s.last() && (s[0] == '"' || s[0] == '\'') {
        s.subrange(1, s.len() - 1)
    } else {
        s
    }
}

/// The text with every `from` turned into `to`.
pub open spec fn replace(s: Seq<char>, from: char, to: char) -> Seq<char> {
    Seq::new(
        s.len(),
        |i: int|
            if s[i] == from {
                to
            } else {
                s[i]
            },
    )
}

pub proof fn lemma_find_bounds(s: Seq<char>, c: char)
    ensures
        find(s, c) <= s.len(),
        find(s, c) < s.len() ==> s[find(s, c) as int] == c,
        forall|i: int| 0 <= i < find(s, c) ==> s[i] != c,
    decreases s.len(),
{
    if s.len() > 0 && s[0] != c {
        let t = s.drop_first();
        lemma_find_bounds(t, c);
        assert forall|i: int| 0 <= i < find(s, c) implies s[i] != c by {
            if i > 0 {
                assert(t[i - 1] == s[i]);
            }
        }
    }
}

pub proof fn lemma_find_whitespace_bounds(s: Seq<char>)
    ensures
        find_whitespace(s) <= s.len(),
        find_whitespace(s) < s.len() ==> is_whitespace(s[find_whitespace(s) as int]),
        forall|i: int| 0 <= i < find_whitespace(s) ==> !is_whitespace(s[i]),
    decreases s.len(),
{
    if s.len() > 0 && !is_whitespace(s[0]) {
        let t = s.drop_first();
        lemma_find_whitespace_bounds(t);
        assert forall|i: int| 0 <= i < find_whitespace(s) implies !is_whitespace(s[i]) by {
            if i > 0 {
                assert(t[i - 1] == s[i]);
            }
        }
    }
}

/// `c` is first found at `i` when it stands there and nowhere before.
pub proof fn lemma_find_at(s: Seq<char>, c: char, i: int)
    requires
        0 <= i <= s.len(),
        forall|j: int| 0 <= j < i ==> s[j] != c,
        i < s.len() ==> s[i] == c,
    ensures
        find(s, c) == i,
{
    lemma_find_bounds(s, c);
    let f = find(s, c) as int;
    if f < i {
        assert(s[f] == c);
    } else if i < f {
        assert(s[i] != c);
    }
}

pub proof fn lemma_find_whitespace_at(s: Seq<char>, i: int)
    requires
        0 <= i <= s.len(),
        forall|j: int| 0 <= j < i ==> !is_whitespace(s[j]),
        i < s.len() ==> is_whitespace(s[i]),
    ensures
        find_whitespace(s) == i,
{
    lemma_find_whitespace_bounds(s);
    let f = find_whitespace(s) as int;
    if f < i {
        assert(is_whitespace(s[f]));
    } else if i < f {
        assert(!is_whitespace(s[i]));
    }
}

pub proof fn lemma_trim_start_len(s: Seq<char>)
    ensures
        trim_start(s).len() <= s.len(),
        trim_start(s).len() == s.len() ==> trim_start(s) == s,
        trim_start(s).len() > 0 ==> !is_whitespace(trim_start(s)[0]),
    decreases s.len(),
{
    if s.len() > 0 && is_whitespace(s[0]) {
        lemma_trim_start_len(s.drop_first());
    }
}

pub proof fn lemma_trim_end_len(s: Seq<char>)
    ensures
        trim_end(s).len() <= s.len(),
        trim_end(s).len() == s.len() ==> trim_end(s) == s,
        trim_end(s).len() > 0 ==> !is_whitespace(trim_end(s).last()),
        trim_end(s).is_prefix_of(s),
    decreases s.len(),
{
    if s.len() > 0 && is_whitespace(s.last()) {
        lemma_trim_end_len(s.drop_last());
    }
}

/// A line in front of a text is its first line.
pub proof fn lemma_lines_first(line: Seq<char>, rest: Seq<char>)
    requires
        fits_line(line),
    ensures
        lines(line + "\n"@ + rest) == seq![line] + lines(rest),
{
    reveal_strlit("\n");
    let s = line + "\n"@ + rest;
    lemma_find_at(s, '\n', line.len() as int);
    assert(s.take(line.len() as int) =~= line);
    assert(s.skip(line.len() + 1 as int) =~= rest);
}

/// The pieces of two texts with a separator between them.
pub proof fn lemma_split_add(a: Seq<char>, c: char, b: Seq<char>)
    ensures
        split(a + seq![c] + b, c) == split(a, c) + split(b, c),
    decreases a.len(),
{
    let s = a + seq![c] + b;
    let at = find(a, c) as int;
    lemma_find_bounds(a, c);
    lemma_find_at(s, c, at);
    assert(s.take(at) =~= a.take(at));
    if at == a.len() {
        assert(a.take(at) =~= a);
        assert(s.skip(at + 1) =~= b);
    } else {
        let rest = a.skip(at + 1);
        lemma_split_add(rest, c, b);
        assert(s.skip(at + 1) =~= rest + seq![c] + b);
        assert(split(s, c) =~= split(a, c) + split(b, c));
    }
}

/// A text without the separator is a single piece.
pub proof fn lemma_split_one(s: Seq<char>, c: char)
    requires
        lacks(s, c),
    ensures
        split(s, c) == seq![s],
{
    lemma_find_at(s, c, s.len() as int);
}

/// The pieces of a text do not hold the separator.
pub proof fn lemma_split_lacks(s: Seq<char>, c: char)
    ensures
        forall|i: int| 0 <= i < split(s, c).len() ==> lacks(#[trigger] split(s, c)[i], c),
    decreases s.len(),
{
    let at = find(s, c) as int;
    lemma_find_bounds(s, c);
    if at < s.len() {
        let rest = s.skip(at + 1);
        lemma_split_lacks(rest, c);
        assert forall|i: int| 0 <= i < split(s, c).len() implies lacks(
            #[trigger] split(s, c)[i],
            c,
        ) by {
            if i > 0 {
                assert(split(s, c)[i] == split(rest, c)[i - 1]);
            }
        }
    }
}

/// Whether a character is whitespace.
pub fn whitespace(c: char) -> (b: bool)
    ensures
        b == is_whitespace(c),
{
    ('\u{9}' <= c && c <= '\u{d}') || c == ' ' || c == '\u{85}' || c == '\u{a0}' || c == '\u{1680}'
        || ('\u{2000}' <= c && c <= '\u{200a}') || c == '\u{2028}' || c == '\u{2029}'
        || c == '\u{202f}' || c == '\u{205f}' || c == '\u{3000}'
}

/// The characters of a string.
pub fn chars_of(s: &str) -> (r: Vec<char>)
    ensures
        r@ == s@,
{
    let mut r: Vec<char> = Vec::new();
    for c in it: s.chars()
        invariant
            it.seq() == s@,
            r@ == s@.take(it.index()),
    {
        r.push(c);
    }
    r
}

/// The string made of some characters.
pub fn string_of(s: &[char]) -> (r: String)
    ensures
        r@ == s@,
{
    let mut r = String::new();
    let mut i: usize = 0;
    while i < s.len()
        invariant
            i <= s@.len(),
            r@ == s@.take(i as int),
        decreases s.len() - i,
    {
        r.push(s[i]);
        i += 1;
    }
    assert(s@.take(s@.len() as int) =~= s@);
    r
}

/// The text without its leading whitespace.
pub fn trimmed_start(s: &[char]) -> (r: &[char])
    ensures
        r@ == trim_start(s@),
{
    let mut i: usize = 0;
    assert(s@.skip(0) =~= s@);
    while i < s.len() && whitespace(s[i])
        invariant
            i <= s@.len(),
            trim_start(s@.skip(i as int)) == trim_start(s@),
        decreases s.len() - i,
    {
        assert(s@.skip(i as int).drop_first() =~= s@.skip(i + 1));
        i += 1;
    }
    slice_subrange(s, i, s.len())
}

/// The text without its trailing whitespace.
pub fn trimmed_end(s: &[char]) -> (r: &[char])
    ensures
        r@ == trim_end(s@),
{
    let mut n: usize = s.len();
    assert(s@.take(n as int) =~= s@);
    while n > 0 && whitespace(s[n - 1])
        invariant
            n <= s@.len(),
            trim_end(s@.take(n as int)) == trim_end(s@),
        decreases n,
    {
        assert(s@.take(n as int).drop_last() =~= s@.take(n - 1));
        n -= 1;
    }
    slice_subrange(s, 0, n)
}

/// The text without its leading and trailing whitespace.
pub fn trimmed(s: &[char]) -> (r: &[char])
    ensures
        r@ == trim(s@),
{
    trimmed_end(trimmed_start(s))
}

/// The text without the run of `c` at its end.
pub fn trimmed_end_char(s: &[char], c: char) -> (r: &[char])
    ensures
        r@ == trim_end_char(s@, c),
{
    let mut n: usize = s.len();
    assert(s@.take(n as int) =~= s@);
    while n > 0 && s[n - 1] == c
        invariant
            n <= s@.len(),
            trim_end_char(s@.take(n as int), c) == trim_end_char(s@, c),
        decreases n,
    {
        assert(s@.take(n as int).drop_last() =~= s@.take(n - 1));
        n -= 1;
    }
    slice_subrange(s, 0, n)
}

/// Where `c` first occurs, or the length of the text if it does not.
pub fn position(s: &[char], c: char) -> (r: usize)
    ensures
        r == find(s@, c),
        r <= s@.len(),
{
    let mut i: usize = 0;
    while i < s.len() && s[i] != c
        invariant
            i <= s@.len(),
            forall|j: int| 0 <= j < i ==> s@[j] != c,
        decreases s.len() - i,
    {
        i += 1;
    }
    proof {
        lemma_find_at(s@, c, i as int);
    }
    i
}

/// Where whitespace first occurs, or the length of the text if it does not.
pub fn whitespace_position(s: &[char]) -> (r: usize)
    ensures
        r == find_whitespace(s@),
        r <= s@.len(),
{
    let mut i: usize = 0;
    while i < s.len() && !whitespace(s[i])
        invariant
            i <= s@.len(),
            forall|j: int| 0 <= j < i ==> !is_whitespace(s@[j]),
        decreases s.len() - i,
    {
        i += 1;
    }
    proof {
        lemma_find_whitespace_at(s@, i as int);
    }
    i
}

/// Splits a text that is not empty into its first line and what follows it.
pub fn split_line(s: &[char]) -> (r: (&[char], &[char]))
    requires
        s@.len() > 0,
    ensures
        lines(s@) == seq![r.0@] + lines(r.1@),
        r.1@.len() < s@.len(),
        r.0@ == s@.take(r.0@.len() as int),
        r.1@ == s@.skip(s@.len() - r.1@.len()),
        r.0@.len() + r.1@.len() <= s@.len(),
{
    let end: usize = position(s, '\n');
    if end == s.len() {
        assert(s@.take(s@.len() as int) =~= s@);
        assert(s@.skip(s@.len() as int) =~= Seq::<char>::empty());
        assert(seq![s@] + lines(Seq::<char>::empty()) =~= seq![s@]);
        (s, slice_subrange(s, end, end))
    } else {
        let rest = slice_subrange(s, end + 1, s.len());
        if end > 0 && s[end - 1] == '\r' {
            assert(s@.take(end as int).drop_last() =~= s@.take(end - 1));
            (slice_subrange(s, 0, end - 1), rest)
        } else {
            (slice_subrange(s, 0, end), rest)
        }
    }
}

/// The text inside a matching pair of quotes, or the text itself.
pub fn unquoted(s: &[char]) -> (r: &[char])
    ensures
        r@ == unquote(s@),
{
    let n: usize = s.len();
    if n >= 2 && s[0] == s[n - 1] && (s[0] == '"' || s[0] == '\'') {
        slice_subrange(s, 1, n - 1)
    } else {
        s
    }
}

/// The text with every `from` turned into `to`.
pub fn replaced(s: &str, from: char, to: char) -> (r: String)
    ensures
        r@ == replace(s@, from, to),
{
    let mut r = String::new();
    for c in it: s.chars()
        invariant
            it.seq() == s@,
            r@ == replace(s@, from, to).take(it.index()),
    {
        if c == from {
            r.push(to);
        } else {
            r.push(c);
        }
        assert(r@ =~= replace(s@, from, to).take(it.index() + 1));
    }
    assert(replace(s@, from, to).take(s@.len() as int) =~= replace(s@, from, to));
    r
}

/// The leading whitespace in bytes of UTF-8, counted up to four.
pub fn indent_up_to_four(s: &[char]) -> (r: usize)
    ensures
        r == if indent_width(s@) < 4 {
            indent_width(s@)
        } else {
            4
        },
{
    let mut i: usize = 0;
    let mut n: usize = 0;
    assert(s@.skip(0) =~= s@);
    while i < s.len() && whitespace(s[i]) && n < 4
        invariant
            i <= s@.len(),
            n <= 6,
            n + indent_width(s@.skip(i as int)) == indent_width(s@),
        decreases s.len() - i,
    {
        assert(s@.skip(i as int).drop_first() =~= s@.skip(i + 1));
        let c: char = s[i];
        if c <= '\u{7f}' {
            n += 1;
        } else if c <= '\u{7ff}' {
            n += 2;
        } else {
            n += 3;
        }
        i += 1;
    }
    if n < 4 {
        n
    } else {
        4
    }
}

/// Whether `prefix` starts `s`.
pub fn starts_with(s: &[char], prefix: &[char]) -> (r: bool)
    ensures
        r == prefix@.is_prefix_of(s@),
{
    if prefix.len() > s.len() {
        return false;
    }
    let mut i: usize = 0;
    while i < prefix.len()
        invariant
            i <= prefix@.len() <= s@.len(),
            forall|j: int| 0 <= j < i ==> prefix@[j] == s@[j],
        decreases prefix.len() - i,
    {
        if prefix[i] != s[i] {
            assert(s@.subrange(0, prefix@.len() as int)[i as int] == s@[i as int]);
            return false;
        }
        i += 1;
    }
    assert(prefix@ =~= s@.subrange(0, prefix@.len() as int));
    true
}

/// Trimming takes off whitespace on both sides, all of it and nothing else.
pub proof fn law_trim(left: Seq<char>, s: Seq<char>, right: Seq<char>)
    requires
        forall|i: int| 0 <= i < left.len() ==> is_whitespace(#[trigger] left[i]),
        forall|i: int| 0 <= i < right.len() ==> is_whitespace(#[trigger] right[i]),
        s.len() > 0 ==> !is_whitespace(s[0]) && !is_whitespace(s.last()),
    ensures
        trim(left + s + right) == s,
        s.len() > 0 ==> trim_start(left + s + right) == s + right,
        s.len() > 0 ==> trim_end(left + s + right) == left + s,
{
    let all = left + s + right;
    assert(all =~= left + (s + right));
    lemma_trim_left(left, s + right);
    if s.len() > 0 {
        assert((s + right)[0] == s[0]);
        assert(trim_start(s + right) == s + right);
        lemma_trim_right(s, right);
        assert(trim_end(s) == s);
        lemma_trim_right(left + s, right);
        assert((left + s).last() == s.last());
        assert(trim_end(left + s) == left + s);
    } else {
        assert(s + right =~= right);
        let none = Seq::<char>::empty();
        lemma_trim_left(right, none);
        assert(right + none =~= right);
        assert(trim_start(none) =~= none);
        assert(trim(all) =~= s);
    }
}

proof fn lemma_trim_left(left: Seq<char>, s: Seq<char>)
    requires
        forall|i: int| 0 <= i < left.len() ==> is_whitespace(#[trigger] left[i]),
    ensures
        trim_start(left + s) == trim_start(s),
    decreases left.len(),
{
    if left.len() == 0 {
        assert(left + s =~= s);
    } else {
        let rest = left.drop_first();
        assert forall|i: int| 0 <= i < rest.len() implies is_whitespace(#[trigger] rest[i]) by {
            assert(rest[i] == left[i + 1]);
        }
        assert((left + s)[0] == left[0]);
        assert((left + s).drop_first() =~= rest + s);
        lemma_trim_left(rest, s);
    }
}

proof fn lemma_trim_right(s: Seq<char>, right: Seq<char>)
    requires
        forall|i: int| 0 <= i < right.len() ==> is_whitespace(#[trigger] right[i]),
    ensures
        trim_end(s + right) == trim_end(s),
    decreases right.len(),
{
    if right.len() == 0 {
        assert(s + right =~= s);
    } else {
        let rest = right.drop_last();
        assert forall|i: int| 0 <= i < rest.len() implies is_whitespace(#[trigger] rest[i]) by {
            assert(rest[i] == right[i]);
        }
        assert((s + right).last() == right[right.len() - 1]);
        assert((s + right).drop_last() =~= s + rest);
        lemma_trim_right(s, rest);
    }
}

/// A line ends at a line feed, with or without a carriage return before it. What follows the
/// last line feed is a line too, unless it is empty.
pub proof fn law_lines(line: Seq<char>, rest: Seq<char>)
    requires
        lacks(line, '\n'),
    ensures
        lines(line + "\r\n"@ + rest) == seq![line] + lines(rest),
        !(line.len() > 0 && line.last() == '\r') ==> lines(line + "\n"@ + rest) == seq![line]
            + lines(rest),
        line.len() > 0 ==> lines(line) == seq![line],
        lines(Seq::<char>::empty()).len() == 0,
{
    reveal_strlit("\r\n");
    reveal_strlit("\n");
    let s = line + "\r\n"@ + rest;
    let n = line.len() as int;
    assert forall|j: int| 0 <= j < n + 1 implies s[j] != '\n' by {
        if j < n {
            assert(s[j] == line[j]);
        }
    }
    lemma_find_at(s, '\n', n + 1);
    let raw = s.take(n + 1);
    assert(raw.last() == '\r');
    assert(raw.drop_last() =~= line);
    assert(s.skip(n + 2) =~= rest);
    if !(line.len() > 0 && line.last() == '\r') {
        lemma_lines_first(line, rest);
    }
    lemma_find_at(line, '\n', n);
}

/// Quotes are taken off where the same kind stands on both sides, and one pair of them only.
pub proof fn law_unquote(s: Seq<char>, quote: char)
    requires
        quote == '"' || quote == '\'',
    ensures
        unquote(seq![quote] + s + seq![quote]) == s,
        s.len() < 2 || s[0] != s.last() || (s[0] != '"' && s[0] != '\'') ==> unquote(s) == s,
{
    let q = seq![quote] + s + seq![quote];
    assert(q.subrange(1, q.len() - 1) =~= s);
}

/// Replacing changes each occurrence and nothing else.
pub proof fn law_replace(s: Seq<char>, from: char, to: char, i: int)
    requires
        0 <= i < s.len(),
    ensures
        replace(s, from, to).len() == s.len(),
        s[i] == from ==> replace(s, from, to)[i] == to,
        s[i] != from ==> replace(s, from, to)[i] == s[i],
{
}

/// The run of a character at the end of a text is taken off whole.
pub proof fn law_trim_end_char(s: Seq<char>, run: Seq<char>, c: char)
    requires
        forall|i: int| 0 <= i < run.len() ==> #[trigger] run[i] == c,
        s.len() > 0 ==> s.last() != c,
    ensures
        trim_end_char(s + run, c) == s,
    decreases run.len(),
{
    if run.len() == 0 {
        assert(s + run =~= s);
    } else {
        let rest = run.drop_last();
        assert forall|i: int| 0 <= i < rest.len() implies #[trigger] rest[i] == c by {
            assert(rest[i] == run[i]);
        }
        assert((s + run).last() == run[run.len() - 1]);
        assert((s + run).drop_last() =~= s + rest);
        law_trim_end_char(s, rest, c);
    }
}

/// The indentation of a text is the sum of the widths of the whitespace in front of it.
pub proof fn law_indentation(space: char, s: Seq<char>)
    ensures
        is_whitespace(space) && space <= '\u{7f}' ==> indent_width(seq![space] + s) == 1
            + indent_width(s),
        is_whitespace(space) && '\u{7f}' < space <= '\u{7ff}' ==> indent_width(seq![space] + s) == 2
            + indent_width(s),
        is_whitespace(space) && '\u{7ff}' < space ==> indent_width(seq![space] + s) == 3
            + indent_width(s),
        s.len() == 0 || !is_whitespace(s[0]) ==> indent_width(s) == 0,
{
    assert((seq![space] + s).drop_first() =~= s);
    assert((seq![space] + s)[0] == space);
}

/// Whitespace is what Unicode calls so: the five control characters from the tab on, the
/// space, the next line, the no-break space, and the spaces and separators beyond them.
pub proof fn law_whitespace(c: char)
    ensures
        is_whitespace(c) <==> {
            let code = c as int;
            ||| 0x9 <= code <= 0xd
            ||| code == 0x20
            ||| code == 0x85
            ||| code == 0xa0
            ||| code == 0x1680
            ||| 0x2000 <= code <= 0x200a
            ||| 0x2028 <= code <= 0x2029
            ||| code == 0x202f
            ||| code == 0x205f
            ||| code == 0x3000
        },
{
}

/// A text is cut at each occurrence of the separator and nowhere else.
pub proof fn law_split(s: Seq<char>, piece: Seq<char>, c: char)
    requires
        !piece.contains(c),
    ensures
        split(piece, c) == seq![piece],
        split(s + seq![c] + piece, c) == split(s, c).push(piece),
{
    assert forall|i: int| 0 <= i < piece.len() implies piece[i] != c by {
        assert(piece.contains(piece[i]));
    }
    lemma_split_one(piece, c);
    lemma_split_add(s, c, piece);
    assert(split(s, c) + seq![piece] =~= split(s, c).push(piece));
}

} // verus!
