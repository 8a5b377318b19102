//! Character sequences: whitespace, trimming, prefixes, lines.
//!
//! Text is handled as a sequence of `char`s. Every executable function here
//! is specified by a spec function over `Seq<char>`.

use vstd::prelude::*;
use vstd::std_specs::iter::IteratorSpec;

verus! {

/// Number of spaces per indentation level.
pub const INDENT_WIDTH: usize = 4;

/// Whether `c` carries the Unicode `White_Space` property.
pub open spec fn is_whitespace(c: char) -> bool {
    ||| '\u{9}' <= c <= '\u{d}'
    ||| c == ' '
    ||| c == '\u{85}'
    ||| c == '\u{a0}'
    ||| c == '\u{1680}'
    ||| '\u{2000}' <= c <= '\u{200a}'
    ||| c == '\u{2028}'
    ||| c == '\u{2029}'
    ||| c == '\u{202f}'
    ||| c == '\u{205f}'
    ||| c == '\u{3000}'
}

/// The first index at or after `i` that holds no whitespace, or the length.
pub open spec fn skip_whitespace(s: Seq<char>, i: int) -> int
    decreases s.len() - i,
{
    if 0 <= i < s.len() && is_whitespace(s[i]) {
        skip_whitespace(s, i + 1)
    } else {
        i
    }
}

/// The end of the part of `s[..j]` that is left when trailing whitespace goes.
pub open spec fn content_end(s: Seq<char>, j: int) -> int
    decreases j,
{
    if 0 < j <= s.len() && is_whitespace(s[j - 1]) {
        content_end(s, j - 1)
    } else {
        j
    }
}

/// `s` without its leading whitespace.
pub open spec fn trimmed_start(s: Seq<char>) -> Seq<char> {
    s.skip(skip_whitespace(s, 0))
}

/// `s` without its trailing whitespace.
pub open spec fn trimmed_end(s: Seq<char>) -> Seq<char> {
    s.take(content_end(s, s.len() as int))
}

/// `s` without leading and trailing whitespace.
pub open spec fn trimmed(s: Seq<char>) -> Seq<char> {
    trimmed_end(trimmed_start(s))
}

/// A line is blank when nothing but whitespace stands in it.
pub open spec fn is_blank(s: Seq<char>) -> bool {
    trimmed(s).len() == 0
}

/// Whether `pattern` occurs in `s` as a contiguous run.
pub open spec fn contains_run(s: Seq<char>, pattern: Seq<char>) -> bool {
    exists|i: int| 0 <= i <= s.len() && #[trigger] pattern.is_prefix_of(s.skip(i))
}

/// The first index at or after `i` that holds `c`, or the length.
pub open spec fn find_char(s: Seq<char>, c: char, i: int) -> int
    decreases s.len() - i,
{
    if 0 <= i < s.len() && s[i] != c {
        find_char(s, c, i + 1)
    } else {
        i
    }
}

/// The part of `s` before the first `c`; all of `s` where there is none.
pub open spec fn before_char(s: Seq<char>, c: char) -> Seq<char> {
    s.take(find_char(s, c, 0))
}

/// `s` cut at every line feed. The last piece is what follows the last line
/// feed, so there is always at least one piece.
pub open spec fn pieces(s: Seq<char>) -> Seq<Seq<char>>
    decreases s.len(),
{
    if s.len() == 0 {
        seq![Seq::<char>::empty()]
    } else {
        let before = pieces(s.drop_last());
        if s.last() == '\n' {
            before.push(Seq::<char>::empty())
        } else {
            before.drop_last().push(before.last().push(s.last()))
        }
    }
}

/// The lines of `s`: its pieces, without the last one where that is empty
/// (a final line feed ends a line and starts no new one).
pub open spec fn lines_of(s: Seq<char>) -> Seq<Seq<char>> {
    let p = pieces(s);
    if p.last().len() == 0 {
        p.drop_last()
    } else {
        p
    }
}

/// The lines written out one after the other, each followed by a line feed.
pub open spec fn joined(lines: Seq<Seq<char>>) -> Seq<char>
    decreases lines.len(),
{
    if lines.len() == 0 {
        Seq::<char>::empty()
    } else {
        joined(lines.drop_last()) + lines.last().push('\n')
    }
}

/// What a vector of lines holds: the characters of each line.
pub open spec fn views(lines: Seq<Vec<char>>) -> Seq<Seq<char>> {
    Seq::new(lines.len(), |i: int| lines[i]@)
}

/// The indentation of the given level: four spaces for each level.
pub open spec fn indentation(level: nat) -> Seq<char> {
    Seq::new(4 * level, |i: int| ' ')
}

/// `content` behind the indentation of `level`.
pub open spec fn indented(level: nat, content: Seq<char>) -> Seq<char> {
    indentation(level) + content
}

/// Skipping whitespace passes whitespace only and stops before the first
/// character that is none.
pub proof fn lemma_skip_whitespace_bounds(s: Seq<char>, i: int)
    requires
        0 <= i <= s.len(),
    ensures
        i <= skip_whitespace(s, i) <= s.len(),
        forall|k: int| i <= k < skip_whitespace(s, i) ==> is_whitespace(#[trigger] s[k]),
        skip_whitespace(s, i) < s.len() ==> !is_whitespace(s[skip_whitespace(s, i)]),
    decreases s.len() - i,
{
    if i < s.len() && is_whitespace(s[i]) {
        lemma_skip_whitespace_bounds(s, i + 1);
    }
}

/// Dropping whitespace at the end passes whitespace only and stops behind
/// the last character that is none.
pub proof fn lemma_content_end_bounds(s: Seq<char>, j: int)
    requires
        0 <= j <= s.len(),
    ensures
        0 <= content_end(s, j) <= j,
        forall|k: int| content_end(s, j) <= k < j ==> is_whitespace(#[trigger] s[k]),
        content_end(s, j) > 0 ==> !is_whitespace(s[content_end(s, j) - 1]),
    decreases j,
{
    if 0 < j && is_whitespace(s[j - 1]) {
        lemma_content_end_bounds(s, j - 1);
    }
}

/// No whitespace stands at the end of `s`.
pub open spec fn neat(s: Seq<char>) -> bool {
    s.len() > 0 ==> !is_whitespace(s.last())
}

/// No whitespace stands at either end of a trimmed text.
pub proof fn lemma_trimmed_ends(s: Seq<char>)
    ensures
        trimmed(s).len() > 0 ==> !is_whitespace(trimmed(s).first()) && !is_whitespace(
            trimmed(s).last(),
        ),
        neat(trimmed(s)),
{
    lemma_skip_whitespace_bounds(s, 0);
    let rest = trimmed_start(s);
    lemma_content_end_bounds(rest, rest.len() as int);
}

/// Trimming a trimmed text changes nothing.
pub proof fn lemma_trimmed_twice(s: Seq<char>)
    ensures
        trimmed(trimmed(s)) == trimmed(s),
        trimmed_start(trimmed(s)) == trimmed(s),
{
    let t = trimmed(s);
    lemma_trimmed_ends(s);
    assert(t.skip(0) =~= t);
    assert(t.take(t.len() as int) =~= t);
}

/// A text is blank exactly when its trimmed form is empty, and the trimmed
/// form of a text that is not blank is not blank.
pub proof fn lemma_trimmed_blank(s: Seq<char>)
    ensures
        is_blank(trimmed(s)) == is_blank(s),
{
    lemma_trimmed_twice(s);
}

/// Where whitespace stands before a text that starts with something else,
/// skipping whitespace leads to that text.
pub proof fn lemma_skip_whitespace_prefix(space: Seq<char>, content: Seq<char>, i: int)
    requires
        0 <= i <= space.len(),
        forall|k: int| 0 <= k < space.len() ==> is_whitespace(#[trigger] space[k]),
        content.len() > 0 ==> !is_whitespace(content.first()),
    ensures
        skip_whitespace(space + content, i) == space.len(),
    decreases space.len() - i,
{
    let s = space + content;
    if i < space.len() {
        assert(s[i] == space[i]);
        lemma_skip_whitespace_prefix(space, content, i + 1);
    } else if content.len() > 0 {
        assert(s[i] == content[0]);
    }
}

/// Indentation and trimming cancel: a text with no whitespace at its ends
/// is what is left of it, indented, when it is trimmed.
pub proof fn lemma_trimmed_of_indented(level: nat, content: Seq<char>)
    requires
        content.len() > 0,
        !is_whitespace(content.first()),
        !is_whitespace(content.last()),
    ensures
        trimmed_start(indented(level, content)) == content,
        trimmed(indented(level, content)) == content,
        !is_blank(indented(level, content)),
{
    let space = indentation(level);
    lemma_skip_whitespace_prefix(space, content, 0);
    assert((space + content).skip(space.len() as int) =~= content);
    assert(content.take(content.len() as int) =~= content);
}

/// The same for a line of the input: its content, indented, has the content
/// that the line has.
pub proof fn lemma_trimmed_of_written(level: nat, line: Seq<char>)
    requires
        !is_blank(line),
    ensures
        trimmed(indented(level, trimmed(line))) == trimmed(line),
        trimmed_start(indented(level, trimmed(line))) == trimmed(line),
        !is_blank(indented(level, trimmed(line))),
        !is_blank(trimmed(line)),
{
    lemma_trimmed_ends(line);
    lemma_trimmed_of_indented(level, trimmed(line));
    lemma_trimmed_twice(line);
}

/// No piece of a text holds a line feed.
pub proof fn lemma_pieces_hold_no_line_feed(s: Seq<char>)
    ensures
        pieces(s).len() > 0,
        forall|k: int| 0 <= k < pieces(s).len() ==> !(#[trigger] pieces(s)[k]).contains('\n'),
    decreases s.len(),
{
    if s.len() > 0 {
        lemma_pieces_hold_no_line_feed(s.drop_last());
        let before = pieces(s.drop_last());
        if s.last() != '\n' {
            let last = before.last().push(s.last());
            assert(!before.last().contains('\n'));
            assert(!last.contains('\n')) by {
                if last.contains('\n') {
                    let i = choose|i: int| 0 <= i < last.len() && last[i] == '\n';
                    assert(before.last()[i] == '\n');
                }
            }
        }
    }
}

/// A text without line feeds, put behind another text, lengthens the last
/// piece of that text.
pub proof fn lemma_pieces_of_extended(s: Seq<char>, more: Seq<char>)
    requires
        !more.contains('\n'),
    ensures
        pieces(s + more) == pieces(s).drop_last().push(pieces(s).last() + more),
    decreases more.len(),
{
    lemma_pieces_hold_no_line_feed(s);
    if more.len() == 0 {
        assert(s + more =~= s);
        assert(pieces(s).last() + more =~= pieces(s).last());
        assert(pieces(s).drop_last().push(pieces(s).last()) =~= pieces(s));
    } else {
        let front = more.drop_last();
        assert(!front.contains('\n')) by {
            if front.contains('\n') {
                let i = choose|i: int| 0 <= i < front.len() && front[i] == '\n';
                assert(more[i] == '\n');
            }
        }
        assert(more.last() != '\n') by {
            assert(more[more.len() - 1] == more.last());
        }
        lemma_pieces_of_extended(s, front);
        assert((s + more).drop_last() =~= s + front);
        assert((s + more).last() == more.last());
        assert((pieces(s).last() + front).push(more.last()) =~= pieces(s).last() + more);
        let before = pieces(s + front);
        assert(before.drop_last() =~= pieces(s).drop_last());
    }
}

/// The pieces of lines that are joined are those lines, and an empty piece
/// behind them.
pub proof fn lemma_pieces_of_joined(lines: Seq<Seq<char>>)
    requires
        forall|k: int| 0 <= k < lines.len() ==> !(#[trigger] lines[k]).contains('\n'),
    ensures
        pieces(joined(lines)) == lines.push(Seq::empty()),
    decreases lines.len(),
{
    if lines.len() == 0 {
        assert(pieces(joined(lines)) =~= lines.push(Seq::empty()));
    } else {
        let front = lines.drop_last();
        lemma_pieces_of_joined(front);
        let text = joined(front) + lines.last();
        lemma_pieces_of_extended(joined(front), lines.last());
        assert(joined(lines) =~= text.push('\n'));
        assert(text.push('\n').drop_last() =~= text);
        assert(Seq::<char>::empty() + lines.last() =~= lines.last());
        assert(front.push(Seq::empty()).drop_last() =~= front);
        assert(pieces(joined(lines)) =~= lines.push(Seq::empty()));
    }
}

/// Lines that hold no line feed are the lines of their joined text.
pub proof fn lines_of_joined(lines: Seq<Seq<char>>)
    requires
        forall|k: int| 0 <= k < lines.len() ==> !(#[trigger] lines[k]).contains('\n'),
    ensures
        lines_of(joined(lines)) == lines,
{
    lemma_pieces_of_joined(lines);
    assert(lines.push(Seq::empty()).drop_last() =~= lines);
}

/// No line of a text holds a line feed.
pub proof fn lemma_lines_hold_no_line_feed(s: Seq<char>)
    ensures
        forall|k: int| 0 <= k < lines_of(s).len() ==> !(#[trigger] lines_of(s)[k]).contains('\n'),
{
    lemma_pieces_hold_no_line_feed(s);
}

/// No line feed stands in any of the lines.
pub open spec fn single_lines(lines: Seq<Seq<char>>) -> bool {
    forall|k: int| 0 <= k < lines.len() ==> !(#[trigger] lines[k]).contains('\n')
}

/// Trimming and indenting bring no line feed into a text.
pub proof fn lemma_written_holds_no_line_feed(level: nat, line: Seq<char>)
    requires
        !line.contains('\n'),
    ensures
        !trimmed(line).contains('\n'),
        !indented(level, trimmed(line)).contains('\n'),
{
    lemma_skip_whitespace_bounds(line, 0);
    let rest = trimmed_start(line);
    lemma_content_end_bounds(rest, rest.len() as int);
    let content = trimmed(line);
    assert forall|i: int| 0 <= i < content.len() implies content[i] != '\n' by {
        assert(content[i] == line[i + skip_whitespace(line, 0)]);
    }
    let written = indented(level, content);
    assert forall|i: int| 0 <= i < written.len() implies written[i] != '\n' by {
        if i >= indentation(level).len() {
            assert(written[i] == content[i - indentation(level).len()]);
        }
    }
}

/// An indented text ends as its content ends.
pub proof fn lemma_indented_neat(level: nat, content: Seq<char>)
    requires
        content.len() > 0,
        neat(content),
    ensures
        neat(indented(level, content)),
        indented(level, content).len() > 0,
{
    assert(indented(level, content).last() == content.last());
}

/// Whether `c` is whitespace.
pub fn char_is_whitespace(c: char) -> (b: bool)
    ensures
        b == is_whitespace(c),
{
    ('\u{9}' <= c && c <= '\u{d}') || c == ' ' || c == '\u{85}' || c == '\u{a0}' || c == '\u{1680}'
        || ('\u{2000}' <= c && c <= '\u{200a}') || c == '\u{2028}' || c == '\u{2029}' || c
        == '\u{202f}' || c == '\u{205f}' || c == '\u{3000}'
}

/// The index of the first character of `line` that is no whitespace.
pub fn leading_whitespace(line: &Vec<char>) -> (a: usize)
    ensures
        a == skip_whitespace(line@, 0),
        a <= line.len(),
{
    let mut a: usize = 0;
    while a < line.len() && char_is_whitespace(line[a])
        invariant
            a <= line.len(),
            skip_whitespace(line@, 0) == skip_whitespace(line@, a as int),
        decreases line.len() - a,
    {
        a += 1;
    }
    a
}

/// The line without the whitespace at its ends.
pub fn trim(line: &Vec<char>) -> (r: Vec<char>)
    ensures
        r@ == trimmed(line@),
{
    let a = leading_whitespace(line);
    let ghost rest = line@.skip(a as int);
    let mut b: usize = line.len();
    while b > a && char_is_whitespace(line[b - 1])
        invariant
            a <= b <= line.len(),
            rest == line@.skip(a as int),
            content_end(rest, rest.len() as int) == content_end(rest, b - a),
        decreases b,
    {
        assert(rest[b - a - 1] == line@[b - 1]);
        b -= 1;
    }
    assert(content_end(rest, b - a) == b - a) by {
        if b > a {
            assert(rest[b - a - 1] == line@[b - 1]);
        }
    }
    let mut r: Vec<char> = Vec::new();
    let mut i: usize = a;
    while i < b
        invariant
            a <= i <= b <= line.len(),
            r@ == line@.subrange(a as int, i as int),
        decreases b - i,
    {
        r.push(line[i]);
        i += 1;
    }
    assert(r@ =~= rest.take(b - a));
    r
}

/// Whether `prefix` stands in `line` at index `at`.
pub fn starts_with_at(line: &Vec<char>, at: usize, prefix: &str) -> (b: bool)
    requires
        at <= line.len(),
    ensures
        b == prefix@.is_prefix_of(line@.skip(at as int)),
{
    broadcast use vstd::string::group_string_axioms;

    let ghost rest = line@.skip(at as int);
    let mut it = prefix.chars();
    let mut i: usize = at;
    loop
        invariant
            it.obeys_prophetic_iter_laws(),
            it.decrease() is Some,
            at <= i <= line.len(),
            rest == line@.skip(at as int),
            rest.take(i - at) + it.remaining() == prefix@,
        decreases it.decrease()->0,
    {
        let ghost before = it.remaining();
        match it.next() {
            Some(c) => {
                if i >= line.len() || line[i] != c {
                    proof {
                        assert(prefix@[i - at] == c) by {
                            assert((rest.take(i - at) + before)[i - at] == before[0]);
                        }
                        if i < line.len() {
                            assert(rest[i - at] == line@[i as int]);
                        }
                    }
                    return false;
                }
                proof {
                    assert(rest[i - at] == c);
                    assert(rest.take(i - at + 1) + it.remaining() =~= rest.take(i - at) + before);
                }
                i += 1;
            },
            None => {
                assert(rest.take(i - at) + it.remaining() =~= rest.take(i - at));
                return true;
            },
        }
    }
}

/// Whether `prefix` stands at the start of `line`.
pub fn starts_with(line: &Vec<char>, prefix: &str) -> (b: bool)
    ensures
        b == prefix@.is_prefix_of(line@),
{
    assert(line@.skip(0) =~= line@);
    starts_with_at(line, 0, prefix)
}

/// Whether `line` is exactly the text `word`.
pub fn is_text(line: &Vec<char>, word: &str) -> (b: bool)
    ensures
        b == (line@ == word@),
{
    let b = starts_with(line, word) && word.unicode_len() == line.len();
    proof {
        if b {
            assert(line@ =~= word@);
        }
    }
    b
}

/// The part of `line` before the first `c`.
pub fn take_before(line: &Vec<char>, c: char) -> (r: Vec<char>)
    ensures
        r@ == before_char(line@, c),
{
    let mut r: Vec<char> = Vec::new();
    let mut i: usize = 0;
    while i < line.len() && line[i] != c
        invariant
            i <= line.len(),
            find_char(line@, c, 0) == find_char(line@, c, i as int),
            r@ == line@.take(i as int),
        decreases line.len() - i,
    {
        r.push(line[i]);
        i += 1;
    }
    r
}

/// The lines of the text: cut at each line feed, which belongs to no line.
pub fn split_lines(text: &Vec<char>) -> (lines: Vec<Vec<char>>)
    ensures
        views(lines@) == lines_of(text@),
{
    let mut lines: Vec<Vec<char>> = Vec::new();
    let mut current: Vec<char> = Vec::new();
    let mut i: usize = 0;
    assert(text@.take(0) =~= Seq::<char>::empty());
    assert(views(lines@).push(current@) =~= pieces(text@.take(0)));
    while i < text.len()
        invariant
            i <= text.len(),
            views(lines@).push(current@) == pieces(text@.take(i as int)),
        decreases text.len() - i,
    {
        let c = text[i];
        let ghost before = pieces(text@.take(i as int));
        let ghost done = views(lines@);
        let ghost cur = current@;
        proof {
            let next = text@.take(i + 1);
            assert(next.drop_last() =~= text@.take(i as int));
            assert(next.last() == c);
        }
        if c == '\n' {
            lines.push(current);
            current = Vec::new();
            assert(views(lines@) =~= done.push(cur));
        } else {
            current.push(c);
            assert(before.drop_last() =~= done);
        }
        i += 1;
    }
    assert(text@.take(i as int) =~= text@);
    let ghost done = views(lines@);
    let ghost cur = current@;
    if current.len() > 0 {
        lines.push(current);
        assert(views(lines@) =~= done.push(cur));
    } else {
        assert(done =~= pieces(text@).drop_last());
    }
    lines
}

/// The lines written out one after the other, each followed by a line feed.
pub fn join_lines(lines: &Vec<Vec<char>>) -> (text: Vec<char>)
    ensures
        text@ == joined(views(lines@)),
{
    let mut text: Vec<char> = Vec::new();
    let mut i: usize = 0;
    assert(views(lines@).take(0) =~= Seq::<Seq<char>>::empty());
    while i < lines.len()
        invariant
            i <= lines.len(),
            text@ == joined(views(lines@).take(i as int)),
        decreases lines.len() - i,
    {
        let line = &lines[i];
        let ghost before = text@;
        let mut k: usize = 0;
        while k < line.len()
            invariant
                k <= line.len(),
                text@ == before + line@.take(k as int),
            decreases line.len() - k,
        {
            text.push(line[k]);
            k += 1;
        }
        text.push('\n');
        proof {
            let upto = views(lines@).take(i + 1);
            assert(upto.drop_last() =~= views(lines@).take(i as int));
            assert(upto.last() == line@);
            assert(line@.take(k as int) =~= line@);
            assert(text@ =~= before + line@.push('\n'));
        }
        i += 1;
    }
    assert(views(lines@).take(i as int) =~= views(lines@));
    text
}

/// `content` behind the indentation of `level`, as a new line.
pub fn indent(level: usize, content: &Vec<char>) -> (line: Vec<char>)
    ensures
        line@ == indented(level as nat, content@),
{
    let mut line: Vec<char> = Vec::new();
    let mut n: usize = 0;
    while n < level
        invariant
            n <= level,
            line@ == indentation(n as nat),
        decreases level - n,
    {
        let ghost before = line@;
        let mut k: usize = 0;
        while k < INDENT_WIDTH
            invariant
                k <= INDENT_WIDTH,
                line@ == before + Seq::new(k as nat, |i: int| ' '),
            decreases INDENT_WIDTH - k,
        {
            line.push(' ');
            k += 1;
            assert(line@ =~= before + Seq::new(k as nat, |i: int| ' '));
        }
        n += 1;
        assert(line@ =~= indentation(n as nat));
    }
    let ghost before = line@;
    let mut i: usize = 0;
    while i < content.len()
        invariant
            i <= content.len(),
            line@ == before + content@.take(i as int),
        decreases content.len() - i,
    {
        line.push(content[i]);
        i += 1;
    }
    assert(content@.take(i as int) =~= content@);
    line
}

/// Adds `line` at the end of `lines`.
pub fn push_line(lines: &mut Vec<Vec<char>>, line: Vec<char>)
    ensures
        views(final(lines)@) == views(old(lines)@).push(line@),
{
    let ghost before = views(lines@);
    let ghost added = line@;
    lines.push(line);
    assert(views(lines@) =~= before.push(added));
}

/// The index behind the last of the first `n` lines that is not blank; 0
/// where all of them are blank.
pub open spec fn content_limit(lines: Seq<Seq<char>>, n: int) -> int
    decreases n,
{
    if 0 < n <= lines.len() && is_blank(lines[n - 1]) {
        content_limit(lines, n - 1)
    } else {
        n
    }
}

/// Behind the limit of the content all lines are blank, and the line before
/// the limit is not.
pub proof fn lemma_content_limit_bounds(lines: Seq<Seq<char>>, n: int)
    requires
        0 <= n <= lines.len(),
    ensures
        0 <= content_limit(lines, n) <= n,
        forall|k: int| content_limit(lines, n) <= k < n ==> is_blank(#[trigger] lines[k]),
        content_limit(lines, n) > 0 ==> !is_blank(lines[content_limit(lines, n) - 1]),
    decreases n,
{
    if 0 < n && is_blank(lines[n - 1]) {
        lemma_content_limit_bounds(lines, n - 1);
    }
}

/// Whether nothing but whitespace stands in `line`.
pub fn line_is_blank(line: &Vec<char>) -> (b: bool)
    ensures
        b == is_blank(line@),
{
    let a = leading_whitespace(line);
    proof {
        lemma_skip_whitespace_bounds(line@, 0);
        let rest = trimmed_start(line@);
        lemma_content_end_bounds(rest, rest.len() as int);
        if a < line.len() {
            let e = content_end(rest, rest.len() as int);
            if e == 0 {
                assert(is_whitespace(rest[0]));
            }
        }
    }
    a == line.len()
}

/// The index behind the last line that is not blank.
pub fn last_content(lines: &Vec<Vec<char>>) -> (n: usize)
    ensures
        n == content_limit(views(lines@), lines.len() as int),
        n <= lines.len(),
{
    let mut n: usize = lines.len();
    while n > 0 && line_is_blank(&lines[n - 1])
        invariant
            n <= lines.len(),
            content_limit(views(lines@), lines.len() as int) == content_limit(
                views(lines@),
                n as int,
            ),
        decreases n,
    {
        n -= 1;
    }
    n
}

/// A copy of `line`.
pub fn copy_line(line: &Vec<char>) -> (r: Vec<char>)
    ensures
        r@ == line@,
{
    let mut r: Vec<char> = Vec::new();
    let mut i: usize = 0;
    while i < line.len()
        invariant
            i <= line.len(),
            r@ == line@.take(i as int),
        decreases line.len() - i,
    {
        r.push(line[i]);
        i += 1;
    }
    assert(line@.take(i as int) =~= line@);
    r
}

/// The characters of `s`.
pub fn chars_of(s: &str) -> (v: Vec<char>)
    ensures
        v@ == s@,
{
    broadcast use vstd::string::group_string_axioms;

    let mut v: Vec<char> = Vec::new();
    let mut it = s.chars();
    loop
        invariant
            it.obeys_prophetic_iter_laws(),
            v@ + it.remaining() == s@,
            it.decrease() is Some,
        ensures
            v@ == s@,
        decreases it.decrease()->0,
    {
        match it.next() {
            Some(c) => {
                v.push(c);
            },
            None => {
                assert(v@ + it.remaining() =~= v@);
                break ;
            },
        }
    }
    v
}

/// `String::push` appends the character to the string and changes nothing
/// else of it. The contract is trusted, not proved.
pub assume_specification[ String::push ](s: &mut String, c: char)
    ensures
        final(s)@ == old(s)@.push(c),
;

/// The string that holds the characters of `v`.
pub fn string_of(v: &Vec<char>) -> (s: String)
    ensures
        s@ == v@,
{
    let mut s = String::new();
    let mut i: usize = 0;
    while i < v.len()
        invariant
            i <= v.len(),
            s@ == v@.take(i as int),
        decreases v.len() - i,
    {
        s.push(v[i]);
        i += 1;
    }
    assert(v@.take(i as int) =~= v@);
    s
}

} // verus!
