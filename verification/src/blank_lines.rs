//! The blank-line normalizer: the pass over the lines that the indentation
//! machine has written.

use crate::line::{
    comment_line, const_line, is_comment, is_const_declaration, is_proc_or_export,
    is_section_separator_comment, lemma_comment_is_not_blank, proc_or_export_line,
    separator_comment_line,
};
use crate::text::{
    content_limit, copy_line, is_blank, last_content, lemma_content_limit_bounds, line_is_blank,
    push_line, views,
};
use vstd::prelude::*;

verus! {

/// The blank line `i` stands between a comment that is no banner and the
/// declaration of a procedure, an export or a constant.
pub open spec fn suppressed(lines: Seq<Seq<char>>, i: int) -> bool {
    &&& 0 < i
    &&& i + 1 < lines.len()
    &&& comment_line(lines[i - 1])
    &&& !separator_comment_line(lines[i - 1])
    &&& proc_or_export_line(lines[i + 1]) || const_line(lines[i + 1])
}

/// Whether line `i` stays: a line that is not blank always does, a blank
/// line where it is the first of its run and is not suppressed.
pub open spec fn kept(lines: Seq<Seq<char>>, i: int) -> bool {
    is_blank(lines[i]) ==> (i == 0 || !is_blank(lines[i - 1])) && !suppressed(lines, i)
}

/// Those of the first `n` lines that stay, in their order.
pub open spec fn normalized_upto(lines: Seq<Seq<char>>, n: int) -> Seq<Seq<char>>
    decreases n,
{
    if n <= 0 {
        Seq::empty()
    } else if kept(lines, n - 1) {
        normalized_upto(lines, n - 1).push(lines[n - 1])
    } else {
        normalized_upto(lines, n - 1)
    }
}

/// The lines with each run of blank lines cut down to one, and without the
/// blank lines that are suppressed.
pub open spec fn normalized(lines: Seq<Seq<char>>) -> Seq<Seq<char>> {
    normalized_upto(lines, lines.len() as int)
}

/// The lines without the blank lines at their end.
pub open spec fn without_trailing_blanks(lines: Seq<Seq<char>>) -> Seq<Seq<char>> {
    lines.take(content_limit(lines, lines.len() as int))
}

/// Every line that stays is a line of the input.
pub proof fn lemma_normalized_holds(lines: Seq<Seq<char>>, n: int, k: int)
    requires
        0 <= n <= lines.len(),
        0 <= k < normalized_upto(lines, n).len(),
    ensures
        exists|i: int| 0 <= i < n && lines[i] == normalized_upto(lines, n)[k],
    decreases n,
{
    if n > 0 {
        let before = normalized_upto(lines, n - 1);
        if k < before.len() {
            lemma_normalized_holds(lines, n - 1, k);
            let i = choose|i: int| 0 <= i < n - 1 && lines[i] == before[k];
            assert(lines[i] == normalized_upto(lines, n)[k]);
        } else {
            assert(lines[n - 1] == normalized_upto(lines, n)[k]);
        }
    }
}

/// The last of the lines that stay is blank only where the last line read
/// is blank.
pub proof fn lemma_normalized_last(lines: Seq<Seq<char>>, n: int)
    requires
        0 < n <= lines.len(),
        !is_blank(lines[n - 1]),
    ensures
        normalized_upto(lines, n).len() > 0,
        normalized_upto(lines, n).last() == lines[n - 1],
{
}

/// No two blank lines stand side by side among the lines that stay.
pub proof fn normalized_has_no_blank_run(lines: Seq<Seq<char>>, n: int)
    requires
        0 <= n <= lines.len(),
    ensures
        forall|k: int|
            0 < k < normalized_upto(lines, n).len() ==> !(is_blank(
                #[trigger] normalized_upto(lines, n)[k],
            ) && is_blank(normalized_upto(lines, n)[k - 1])),
    decreases n,
{
    if n > 0 {
        normalized_has_no_blank_run(lines, n - 1);
        let before = normalized_upto(lines, n - 1);
        let after = normalized_upto(lines, n);
        if kept(lines, n - 1) && before.len() > 0 && is_blank(lines[n - 1]) {
            lemma_normalized_last(lines, n - 1);
        }
        assert forall|k: int| 0 < k < after.len() implies !(is_blank(#[trigger] after[k])
            && is_blank(after[k - 1])) by {
            if k < before.len() {
                assert(after[k] == before[k]);
            }
        }
    }
}

/// The declaration of a procedure, an export or a constant.
pub open spec fn declaration_line(line: Seq<char>) -> bool {
    proc_or_export_line(line) || const_line(line)
}

/// A blank line that stands directly between a comment that is no banner
/// and a declaration does not stay.
pub proof fn blank_before_declaration_is_dropped(lines: Seq<Seq<char>>, i: int)
    requires
        0 < i,
        i + 1 < lines.len(),
        is_blank(lines[i]),
        comment_line(lines[i - 1]),
        !separator_comment_line(lines[i - 1]),
        declaration_line(lines[i + 1]),
    ensures
        !kept(lines, i),
{
}

/// Behind a banner the blank line stays.
pub proof fn blank_after_banner_stays(lines: Seq<Seq<char>>, i: int)
    requires
        0 < i < lines.len(),
        is_blank(lines[i]),
        separator_comment_line(lines[i - 1]),
    ensures
        kept(lines, i),
{
    assert(!is_blank(lines[i - 1])) by {
        lemma_comment_is_not_blank(lines[i - 1]);
    }
}

/// A line that is not blank always stays.
pub proof fn content_stays(lines: Seq<Seq<char>>, i: int)
    requires
        0 <= i < lines.len(),
        !is_blank(lines[i]),
    ensures
        kept(lines, i),
{
}

/// Every line that stays among the first `n` stands among the lines that
/// stay.
pub proof fn lemma_kept_is_held(lines: Seq<Seq<char>>, n: int, i: int)
    requires
        0 <= i < n <= lines.len(),
        kept(lines, i),
    ensures
        exists|k: int|
            0 <= k < normalized_upto(lines, n).len() && normalized_upto(lines, n)[k] == lines[i],
    decreases n,
{
    if i == n - 1 {
        let k = normalized_upto(lines, n).len() - 1;
        assert(normalized_upto(lines, n)[k] == lines[i]);
    } else {
        lemma_kept_is_held(lines, n - 1, i);
        let before = normalized_upto(lines, n - 1);
        let k = choose|k: int| 0 <= k < before.len() && before[k] == lines[i];
        assert(normalized_upto(lines, n)[k] == lines[i]);
    }
}

/// The lines from `a` up to `b` are all blank.
pub open spec fn blank_run(lines: Seq<Seq<char>>, a: int, b: int) -> bool {
    &&& 0 <= a <= b <= lines.len()
    &&& forall|k: int| a <= k < b ==> is_blank(#[trigger] lines[k])
}

/// No run of two or more blank lines stands between a comment that is no
/// banner and a declaration.
pub open spec fn no_wide_gap_before_declaration(lines: Seq<Seq<char>>) -> bool {
    forall|a: int, b: int|
        0 < a && a + 2 <= b < lines.len() && #[trigger] blank_run(lines, a, b) && comment_line(
            lines[a - 1],
        ) && !separator_comment_line(lines[a - 1]) ==> !declaration_line(lines[b])
}

/// A declaration is not blank.
pub proof fn lemma_declaration_is_not_blank(line: Seq<char>)
    ensures
        declaration_line(line) ==> !is_blank(line),
{
    reveal_strlit("proc.");
    reveal_strlit("export.");
    reveal_strlit("const.");
}

/// Of the blank lines at the end of the first `n` lines at most the first
/// stays, and before it stands the last line that is not blank.
pub proof fn lemma_normalized_shape(lines: Seq<Seq<char>>, n: int)
    requires
        0 <= n <= lines.len(),
    ensures
        ({
            let p = content_limit(lines, n);
            let front = normalized_upto(lines, p);
            &&& 0 <= p <= n
            &&& blank_run(lines, p, n)
            &&& p > 0 ==> front.len() > 0 && front.last() == lines[p - 1] && !is_blank(
                lines[p - 1],
            )
            &&& p == 0 ==> front.len() == 0
            &&& normalized_upto(lines, n) == if p < n && kept(lines, p) {
                front.push(lines[p])
            } else {
                front
            }
        }),
    decreases n,
{
    lemma_content_limit_bounds(lines, n);
    if n > 0 && is_blank(lines[n - 1]) {
        lemma_normalized_shape(lines, n - 1);
        let p = content_limit(lines, n);
        if p < n - 1 {
            assert(is_blank(lines[n - 2]));
        }
    }
}

/// Where no run of two or more blank lines stands between a comment that is
/// no banner and a declaration, no blank line is left between such a
/// comment and a declaration.
pub proof fn no_blank_between_comment_and_declaration(lines: Seq<Seq<char>>, n: int)
    requires
        0 <= n <= lines.len(),
        no_wide_gap_before_declaration(lines),
    ensures
        forall|k: int|
            0 < k && k + 1 < normalized_upto(lines, n).len() && is_blank(
                #[trigger] normalized_upto(lines, n)[k],
            ) && comment_line(normalized_upto(lines, n)[k - 1]) && !separator_comment_line(
                normalized_upto(lines, n)[k - 1],
            ) ==> !declaration_line(normalized_upto(lines, n)[k + 1]),
    decreases n,
{
    if n > 0 {
        no_blank_between_comment_and_declaration(lines, n - 1);
        let before = normalized_upto(lines, n - 1);
        let out = normalized_upto(lines, n);
        let line = lines[n - 1];
        assert forall|k: int|
            0 < k && k + 1 < out.len() && is_blank(#[trigger] out[k]) && comment_line(out[k - 1])
                && !separator_comment_line(out[k - 1]) implies !declaration_line(out[k + 1]) by {
            if k + 1 < before.len() {
                assert(out[k] == before[k]);
            } else {
                lemma_declaration_is_not_blank(line);
                if !is_blank(line) {
                    lemma_normalized_shape(lines, n - 1);
                    let p = content_limit(lines, n - 1);
                    assert(out[k] == before.last());
                    assert(blank_run(lines, p, n - 1));
                    if p + 2 > n - 1 {
                        assert(p + 1 == n - 1);
                        assert(!suppressed(lines, p));
                    }
                }
            }
        }
    }
}

/// Cuts each run of blank lines down to one line and drops the blank lines
/// that stand between a comment and a declaration.
pub fn normalize(lines: &Vec<Vec<char>>) -> (out: Vec<Vec<char>>)
    ensures
        views(out@) == normalized(views(lines@)),
{
    let ghost all = views(lines@);
    let mut out: Vec<Vec<char>> = Vec::new();
    let mut after_blank = false;
    let mut i: usize = 0;
    assert(views(out@) =~= normalized_upto(all, 0));
    while i < lines.len()
        invariant
            i <= lines.len(),
            all == views(lines@),
            after_blank == (i > 0 && is_blank(all[i - 1])),
            views(out@) == normalized_upto(all, i as int),
        decreases lines.len() - i,
    {
        proof {
            assert(all[i as int] == lines@[i as int]@);
            if i > 0 {
                assert(all[i - 1] == lines@[i - 1]@);
            }
            if i + 1 < lines.len() {
                assert(all[i + 1] == lines@[i + 1]@);
            }
        }
        let blank = line_is_blank(&lines[i]);
        let keep = if blank {
            let between = i > 0 && i + 1 < lines.len() && is_comment(&lines[i - 1])
                && !is_section_separator_comment(&lines[i - 1]) && (is_proc_or_export(
                &lines[i + 1],
            ) || is_const_declaration(&lines[i + 1]));
            !after_blank && !between
        } else {
            true
        };
        if keep {
            push_line(&mut out, copy_line(&lines[i]));
        }
        after_blank = blank;
        i += 1;
    }
    out
}

/// Takes the blank lines from the end of `lines`.
pub fn strip_trailing_blanks(lines: &mut Vec<Vec<char>>)
    ensures
        views(final(lines)@) == without_trailing_blanks(views(old(lines)@)),
{
    let ghost all = views(lines@);
    let n = last_content(lines);
    lines.truncate(n);
    assert(views(lines@) =~= all.take(n as int));
}

} // verus!
