//! What formatting keeps: the content of the lines.

use crate::blank_lines::{normalized, normalized_upto, without_trailing_blanks};
use crate::format::{formatted_lines, head, indented_lines, start_state};
use crate::imports::{body_start, flushed, preamble, scanned};
use crate::indent::{
    const_follows, content_follows, lemma_step_writes_content, lemma_step_writes_line, ran, step,
    Machine,
};
use crate::line::{lemma_kind_tells, lemma_kinds_of_content, LineType};
use crate::order::{inserted, precedes, sorted};
use crate::text::{
    content_limit, is_blank, lemma_content_limit_bounds, lemma_trimmed_twice, trimmed,
};
use vstd::multiset::Multiset;
use vstd::prelude::*;

verus! {

/// The content of the lines: the trimmed text of each line that is not
/// blank, as often as it occurs.
pub open spec fn contents(lines: Seq<Seq<char>>) -> Multiset<Seq<char>>
    decreases lines.len(),
{
    if lines.len() == 0 {
        Multiset::empty()
    } else if is_blank(lines.last()) {
        contents(lines.drop_last())
    } else {
        contents(lines.drop_last()).insert(trimmed(lines.last()))
    }
}

/// A line at the end adds its content.
pub proof fn lemma_contents_with(lines: Seq<Seq<char>>, line: Seq<char>)
    ensures
        contents(lines.push(line)) == if is_blank(line) {
            contents(lines)
        } else {
            contents(lines).insert(trimmed(line))
        },
{
    let with = lines.push(line);
    assert(with.drop_last() =~= lines);
    assert(with.last() == line);
}

/// The content of lines put one behind the other is the content of both.
pub proof fn lemma_contents_of_both(a: Seq<Seq<char>>, b: Seq<Seq<char>>)
    ensures
        contents(a + b) == contents(a).add(contents(b)),
    decreases b.len(),
{
    broadcast use vstd::multiset::group_multiset_axioms;

    if b.len() == 0 {
        assert(a + b =~= a);
        assert(contents(a).add(contents(b)) =~= contents(a));
    } else {
        lemma_contents_of_both(a, b.drop_last());
        assert((a + b).drop_last() =~= a + b.drop_last());
        assert((a + b).last() == b.last());
        assert(contents(a + b) =~= contents(a).add(contents(b)));
    }
}

/// Blank lines have no content.
pub proof fn lemma_contents_of_blank(lines: Seq<Seq<char>>)
    requires
        forall|k: int| 0 <= k < lines.len() ==> is_blank(#[trigger] lines[k]),
    ensures
        contents(lines) == Multiset::<Seq<char>>::empty(),
    decreases lines.len(),
{
    if lines.len() > 0 {
        assert(is_blank(lines[lines.len() - 1]));
        lemma_contents_of_blank(lines.drop_last());
    }
}

/// The content of a single line.
pub proof fn lemma_contents_of_line(line: Seq<char>)
    ensures
        contents(seq![line]) == if is_blank(line) {
            Multiset::<Seq<char>>::empty()
        } else {
            Multiset::<Seq<char>>::empty().insert(trimmed(line))
        },
{
    let none = Seq::<Seq<char>>::empty();
    assert(contents(none) == Multiset::<Seq<char>>::empty());
    lemma_contents_with(none, line);
    assert(none.push(line) =~= seq![line]);
}

/// Sorting changes no content.
pub proof fn lemma_contents_of_sorted(lines: Seq<Seq<char>>)
    ensures
        contents(sorted(lines)) == contents(lines),
    decreases lines.len(),
{
    if lines.len() > 0 {
        lemma_contents_of_sorted(lines.drop_last());
        lemma_contents_of_inserted(sorted(lines.drop_last()), lines.last());
        lemma_contents_with(sorted(lines.drop_last()), lines.last());
        lemma_contents_with(lines.drop_last(), lines.last());
        assert(lines.drop_last().push(lines.last()) =~= lines);
    }
}

/// A line that is put in its place adds its content.
pub proof fn lemma_contents_of_inserted(lines: Seq<Seq<char>>, line: Seq<char>)
    ensures
        contents(inserted(lines, line)) == contents(lines.push(line)),
    decreases lines.len(),
{
    broadcast use vstd::multiset::group_multiset_axioms;

    if lines.len() == 0 {
        assert(lines.push(line) =~= seq![line]);
    } else if precedes(lines.last(), line) {
    } else {
        let front = lines.drop_last();
        lemma_contents_of_inserted(front, line);
        lemma_contents_with(inserted(front, line), lines.last());
        lemma_contents_with(front, line);
        lemma_contents_with(front, lines.last());
        lemma_contents_with(lines, line);
        assert(front.push(lines.last()) =~= lines);
        assert(contents(inserted(lines, line)) =~= contents(lines.push(line)));
    }
}

/// The scan keeps the content of the lines that it has taken: what it has
/// written and what it holds back is the content of the lines before the
/// place where the body starts.
pub proof fn lemma_contents_of_scan(lines: Seq<Seq<char>>, n: int)
    requires
        0 <= n <= lines.len(),
    ensures
        0 <= scanned(lines, n).resume <= n,
        contents(scanned(lines, n).out).add(contents(scanned(lines, n).pending)) == contents(
            lines.take(scanned(lines, n).resume),
        ),
        !scanned(lines, n).stopped ==> forall|j: int|
            scanned(lines, n).resume <= j < n ==> is_blank(#[trigger] lines[j]),
    decreases n,
{
    broadcast use vstd::multiset::group_multiset_axioms;

    if n == 0 {
        assert(lines.take(0) =~= Seq::<Seq<char>>::empty());
        assert(Multiset::<Seq<char>>::empty().add(Multiset::<Seq<char>>::empty())
            =~= Multiset::<Seq<char>>::empty());
    } else {
        lemma_contents_of_scan(lines, n - 1);
        let before = scanned(lines, n - 1);
        let after = scanned(lines, n);
        let line = lines[n - 1];
        let content = trimmed(line);
        lemma_kind_tells(line);
        lemma_kinds_of_content(line);
        lemma_trimmed_twice(line);
        if !before.stopped && after.resume == n {
            let taken = lines.take(n);
            let earlier = lines.take(before.resume);
            let between = lines.subrange(before.resume, n - 1);
            assert(taken =~= earlier + between + seq![line]);
            lemma_contents_of_blank(between);
            lemma_contents_of_both(earlier, between);
            lemma_contents_of_both(earlier + between, seq![line]);
            lemma_contents_of_line(line);
            assert(contents(earlier + between) =~= contents(earlier));
            match crate::line::classified(line) {
                LineType::Import => {
                    lemma_contents_with(before.pending, content);
                    assert(contents(after.out).add(contents(after.pending)) =~= contents(taken));
                },
                LineType::Comment(_) => {
                    assert(contents(after.pending) =~= Multiset::<Seq<char>>::empty());
                    assert(trimmed(Seq::<char>::empty()) =~= Seq::<char>::empty());
                    if before.pending.len() > 0 {
                        let group = flushed(before.out, before.pending);
                        lemma_contents_of_both(before.out, sorted(before.pending));
                        lemma_contents_of_sorted(before.pending);
                        lemma_contents_with(group, Seq::<char>::empty());
                        lemma_contents_with(group.push(Seq::<char>::empty()), content);
                    } else {
                        lemma_contents_with(before.out, content);
                    }
                    assert(contents(after.out).add(contents(after.pending)) =~= contents(taken));
                },
                _ => {
                    assert(trimmed(Seq::<char>::empty()) =~= Seq::<char>::empty());
                    lemma_contents_with(before.out, Seq::<char>::empty());
                    assert(contents(after.out).add(contents(after.pending)) =~= contents(taken));
                },
            }
        }
    }
}

/// The preamble holds the content of the lines before the body.
pub proof fn lemma_contents_of_preamble(lines: Seq<Seq<char>>)
    ensures
        0 <= body_start(lines) <= lines.len(),
        contents(preamble(lines)) == contents(lines.take(body_start(lines))),
        contents(head(lines)) == contents(lines.take(body_start(lines))),
{
    broadcast use vstd::multiset::group_multiset_axioms;

    let scan = scanned(lines, lines.len() as int);
    lemma_contents_of_scan(lines, lines.len() as int);
    lemma_contents_of_both(scan.out, sorted(scan.pending));
    lemma_contents_of_sorted(scan.pending);
    lemma_contents_with(preamble(lines), Seq::<char>::empty());
    assert(trimmed(Seq::<char>::empty()) =~= Seq::<char>::empty());
}

/// What the machine writes for a line holds the content of the line.
pub proof fn lemma_contents_of_step(m: Machine, line: Seq<char>, nc: bool, mc: bool)
    ensures
        contents(step(m, line, nc, mc).lines) == contents(seq![line]),
{
    broadcast use vstd::multiset::group_multiset_axioms;

    let this = step(m, line, nc, mc);
    lemma_contents_of_line(line);
    lemma_step_writes_content(m, line, nc, mc);
    assert(trimmed(Seq::<char>::empty()) =~= Seq::<char>::empty());
    if is_blank(line) {
        assert forall|k: int| 0 <= k < this.lines.len() implies is_blank(#[trigger] this.lines[k]) by {
            assert(this.lines[k] =~= Seq::<char>::empty());
        }
        lemma_contents_of_blank(this.lines);
    } else {
        lemma_step_writes_line(m, line, nc, mc);
        let first = this.lines[0];
        assert(this.lines.len() == 1 || this.lines.len() == 2);
        if this.lines.len() == 1 {
            assert(this.lines =~= seq![first]);
            lemma_contents_of_line(first);
        } else {
            let second = this.lines[1];
            assert(this.lines =~= seq![first] + seq![second]);
            lemma_contents_of_both(seq![first], seq![second]);
            lemma_contents_of_line(first);
            lemma_contents_of_line(second);
            if first.len() == 0 {
                assert(first =~= Seq::<char>::empty());
            } else {
                assert(second =~= Seq::<char>::empty());
            }
            assert(contents(this.lines) =~= contents(seq![line]));
        }
    }
}

/// What the machine writes for the lines from `start` up to `n` holds their
/// content.
pub proof fn lemma_contents_of_body(lines: Seq<Seq<char>>, start: int, n: int, init: Machine)
    requires
        0 <= start <= n <= lines.len(),
    ensures
        contents(ran(lines, start, n, init).lines) == contents(lines.subrange(start, n)),
    decreases n - start,
{
    if n > start {
        lemma_contents_of_body(lines, start, n - 1, init);
        let before = ran(lines, start, n - 1, init);
        let this = step(
            before.state,
            lines[n - 1],
            const_follows(lines, n - 1),
            content_follows(lines, n - 1),
        );
        lemma_contents_of_step(
            before.state,
            lines[n - 1],
            const_follows(lines, n - 1),
            content_follows(lines, n - 1),
        );
        lemma_contents_of_both(before.lines, this.lines);
        lemma_contents_of_both(lines.subrange(start, n - 1), seq![lines[n - 1]]);
        assert(lines.subrange(start, n - 1) + seq![lines[n - 1]] =~= lines.subrange(start, n));
    } else {
        assert(lines.subrange(start, n) =~= Seq::<Seq<char>>::empty());
    }
}

/// The normalizer drops blank lines only: what stays holds the content of
/// all.
pub proof fn lemma_contents_of_normalized(lines: Seq<Seq<char>>, n: int)
    requires
        0 <= n <= lines.len(),
    ensures
        contents(normalized_upto(lines, n)) == contents(lines.take(n)),
    decreases n,
{
    if n > 0 {
        lemma_contents_of_normalized(lines, n - 1);
        let taken = lines.take(n);
        assert(taken.drop_last() =~= lines.take(n - 1));
        assert(taken.last() == lines[n - 1]);
        lemma_contents_with(normalized_upto(lines, n - 1), lines[n - 1]);
    } else {
        assert(lines.take(0) =~= Seq::<Seq<char>>::empty());
    }
}

/// The blank lines at the end hold no content.
pub proof fn lemma_contents_without_trailing_blanks(lines: Seq<Seq<char>>)
    ensures
        contents(without_trailing_blanks(lines)) == contents(lines),
{
    broadcast use vstd::multiset::group_multiset_axioms;

    let limit = content_limit(lines, lines.len() as int);
    lemma_content_limit_bounds(lines, lines.len() as int);
    let tail = lines.skip(limit);
    assert(lines =~= lines.take(limit) + tail);
    lemma_contents_of_blank(tail);
    lemma_contents_of_both(lines.take(limit), tail);
    assert(contents(lines.take(limit)).add(Multiset::<Seq<char>>::empty()) =~= contents(
        lines.take(limit),
    ));
}

/// Formatting alters no content: the formatted lines hold the trimmed text
/// of each line of the input that is not blank, as often as the input holds
/// it, and nothing else but blank lines.
pub proof fn formatting_keeps_the_content(lines: Seq<Seq<char>>)
    ensures
        contents(formatted_lines(lines)) == contents(lines),
{
    let n = lines.len() as int;
    let start = body_start(lines);
    let first = indented_lines(lines);
    lemma_contents_of_preamble(lines);
    lemma_contents_of_body(lines, start, n, start_state(lines));
    lemma_contents_of_both(head(lines), ran(lines, start, n, start_state(lines)).lines);
    lemma_contents_of_both(lines.take(start), lines.subrange(start, n));
    assert(lines.take(start) + lines.subrange(start, n) =~= lines);
    lemma_contents_of_normalized(first, first.len() as int);
    assert(first.take(first.len() as int) =~= first);
    lemma_contents_without_trailing_blanks(normalized(first));
}

} // verus!
