//! Blank lines in the formatted text: where a run of blank lines leaves one
//! line, and where a blank line is removed.

use crate::blank_lines::{
    kept, lemma_declaration_is_not_blank, normalized, normalized_upto, suppressed,
    without_trailing_blanks,
};
use crate::format::{body, formatted_lines, head, indented_lines, lemma_written_upto, written_upto};
use crate::imports::{body_start, code_before, lemma_body_starts_before};
use crate::indent::{const_follows, content_follows, lemma_step_writes_line, step};
use crate::line::{
    comment_kinds_are_exclusive, comment_line, const_line, is_code, lemma_comment_is_not_blank,
    lemma_kind_tells, lemma_kinds_by_content, CommentKind, LineType,
};
use crate::text::{content_limit, is_blank, lemma_content_limit_bounds, trimmed};
use vstd::prelude::*;

verus! {

/// The lines that stay among the first `n` stand at the start of those that
/// stay among all.
pub proof fn lemma_normalized_prefix(lines: Seq<Seq<char>>, n: int, m: int)
    requires
        0 <= n <= m <= lines.len(),
    ensures
        normalized_upto(lines, n).len() <= normalized_upto(lines, m).len(),
        normalized_upto(lines, m).take(normalized_upto(lines, n).len() as int)
            == normalized_upto(lines, n),
    decreases m - n,
{
    let short = normalized_upto(lines, n);
    if n < m {
        lemma_normalized_prefix(lines, n, m - 1);
        assert(normalized_upto(lines, m).take(short.len() as int) =~= normalized_upto(
            lines,
            m - 1,
        ).take(short.len() as int));
    } else {
        assert(short.take(short.len() as int) =~= short);
    }
}

/// A line that stays stands, among the lines that stay, behind those that
/// stay of the lines before it; where it is not blank, it stands there in the
/// formatted lines too.
pub proof fn lemma_kept_line(lines: Seq<Seq<char>>, p: int)
    requires
        0 <= p < lines.len(),
        kept(lines, p),
    ensures
        normalized_upto(lines, p).len() < normalized(lines).len(),
        normalized(lines)[normalized_upto(lines, p).len() as int] == lines[p],
        normalized_upto(lines, p + 1).len() == normalized_upto(lines, p).len() + 1,
        !is_blank(lines[p]) ==> normalized_upto(lines, p).len() < without_trailing_blanks(
            normalized(lines),
        ).len() && without_trailing_blanks(normalized(lines))[normalized_upto(
            lines,
            p,
        ).len() as int] == lines[p],
{
    let at = normalized_upto(lines, p).len() as int;
    let all = normalized(lines);
    lemma_normalized_prefix(lines, p + 1, lines.len() as int);
    assert(all.take(at + 1)[at] == normalized_upto(lines, p + 1)[at]);
    lemma_content_limit_bounds(all, all.len() as int);
    if !is_blank(lines[p]) && content_limit(all, all.len() as int) <= at {
        assert(is_blank(all[at]));
    }
}

/// Behind a blank line that it has written the machine writes nothing for
/// blank lines, and stays as it is.
pub proof fn lemma_blank_run_is_skipped(lines: Seq<Seq<char>>, i: int, j: int)
    requires
        0 <= body_start(lines) <= i <= j <= lines.len(),
        body(lines, i).state.last_kind == Some(LineType::Empty),
        forall|k: int| i <= k < j ==> is_blank(#[trigger] lines[k]),
    ensures
        written_upto(lines, j) == written_upto(lines, i),
        body(lines, j).state == body(lines, i).state,
    decreases j - i,
{
    if i < j {
        lemma_blank_run_is_skipped(lines, i, j - 1);
        lemma_written_upto(lines, j - 1);
        lemma_kind_tells(lines[j - 1]);
    }
}

/// The place of the line that the first pass writes for a line of the body
/// that is not blank: behind what it had written before, and behind the
/// blank line that parts it from a stack comment.
pub open spec fn written_at(lines: Seq<Seq<char>>, i: int) -> int {
    let this = step(
        body(lines, i).state,
        lines[i],
        const_follows(lines, i),
        content_follows(lines, i),
    );
    if this.lines.len() > 0 && this.lines[0].len() == 0 {
        written_upto(lines, i) + 1
    } else {
        written_upto(lines, i)
    }
}

/// A line of the body that is not blank is written, and stays.
pub proof fn lemma_written_at(lines: Seq<Seq<char>>, i: int)
    requires
        0 <= body_start(lines) <= i < lines.len(),
        !is_blank(lines[i]),
    ensures
        head(lines).len() <= written_upto(lines, i) <= written_at(lines, i) < written_upto(
            lines,
            i + 1,
        ),
        written_upto(lines, i + 1) <= indented_lines(lines).len(),
        trimmed(indented_lines(lines)[written_at(lines, i)]) == trimmed(lines[i]),
        !is_blank(indented_lines(lines)[written_at(lines, i)]),
        kept(indented_lines(lines), written_at(lines, i)),
{
    lemma_written_upto(lines, i);
    lemma_written_upto(lines, i + 1);
    let m = body(lines, i).state;
    let nc = const_follows(lines, i);
    let mc = content_follows(lines, i);
    let this = step(m, lines[i], nc, mc);
    lemma_step_writes_line(m, lines[i], nc, mc);
    let at = written_at(lines, i) - written_upto(lines, i);
    assert(indented_lines(lines)[written_upto(lines, i) + at] == this.lines[at]);
}

/// A run of blank lines behind a line of code leaves exactly one blank
/// line: in the formatted lines the line of code and the line behind the
/// run stand with one empty line between them.
pub proof fn blank_run_leaves_one_line(lines: Seq<Seq<char>>, a: int, b: int) -> (k: int)
    requires
        0 < a < b < lines.len(),
        forall|j: int| a <= j < b ==> is_blank(#[trigger] lines[j]),
        is_code(lines[a - 1]),
        !is_blank(lines[b]),
    ensures
        0 <= k,
        k + 2 < formatted_lines(lines).len(),
        trimmed(formatted_lines(lines)[k]) == trimmed(lines[a - 1]),
        formatted_lines(lines)[k + 1].len() == 0,
        trimmed(formatted_lines(lines)[k + 2]) == trimmed(lines[b]),
{
    let all = indented_lines(lines);
    lemma_body_starts_before(lines, a - 1);
    lemma_kind_tells(lines[a - 1]);
    let x = written_at(lines, a - 1);
    lemma_written_at(lines, a - 1);
    lemma_written_at(lines, b);
    lemma_written_upto(lines, a - 1);
    lemma_written_upto(lines, a);
    lemma_written_upto(lines, b);
    let m = body(lines, a - 1).state;
    let this = step(
        m,
        lines[a - 1],
        const_follows(lines, a - 1),
        content_follows(lines, a - 1),
    );
    lemma_step_writes_line(m, lines[a - 1], const_follows(lines, a - 1), content_follows(lines, a - 1));
    lemma_kind_tells(lines[a - 1]);
    lemma_kind_tells(lines[a]);
    let at = x - written_upto(lines, a - 1);
    assert(trimmed(Seq::<char>::empty()) =~= Seq::<char>::empty());
    if this.lines.len() == at + 2 {
        assert(all[written_upto(lines, a - 1) + 1] == this.lines[1]);
        lemma_blank_run_is_skipped(lines, a, b);
    } else {
        let blank = step(
            body(lines, a).state,
            lines[a],
            const_follows(lines, a),
            content_follows(lines, a),
        );
        assert(blank.lines =~= seq![Seq::<char>::empty()]);
        lemma_written_upto(lines, a + 1);
        assert(all[written_upto(lines, a) + 0] == blank.lines[0]);
        lemma_blank_run_is_skipped(lines, a + 1, b);
    }
    assert(all[x + 1].len() == 0);
    assert(written_upto(lines, b) == x + 2);
    assert(body(lines, b).state.last_kind == Some(LineType::Empty));
    let last = step(
        body(lines, b).state,
        lines[b],
        const_follows(lines, b),
        content_follows(lines, b),
    );
    lemma_step_writes_line(
        body(lines, b).state,
        lines[b],
        const_follows(lines, b),
        content_follows(lines, b),
    );
    assert(written_at(lines, b) == x + 2);
    lemma_kinds_by_content(all[x], lines[a - 1]);
    assert(is_blank(all[x + 1]));
    assert(kept(all, x + 1));
    lemma_kept_line(all, x);
    lemma_kept_line(all, x + 1);
    lemma_kept_line(all, x + 2);
    let k = normalized_upto(all, x).len() as int;
    let out = formatted_lines(lines);
    assert(normalized_upto(all, x + 1).len() == k + 1);
    assert(normalized_upto(all, x + 2).len() == k + 2);
    assert(k + 2 < out.len());
    lemma_content_limit_bounds(normalized(all), normalized(all).len() as int);
    assert(out[k + 1] == normalized(all)[k + 1]);
    k
}

/// Behind a comment that follows a line of code, a blank line that stands
/// directly before the declaration of a constant is removed: in the
/// formatted lines the declaration follows the comment.
pub proof fn blank_before_const_is_removed(lines: Seq<Seq<char>>, a: int) -> (k: int)
    requires
        0 < a,
        a + 1 < lines.len(),
        code_before(lines, a - 1),
        comment_line(lines[a - 1]),
        is_blank(lines[a]),
        const_line(lines[a + 1]),
    ensures
        0 <= k,
        k + 1 < formatted_lines(lines).len(),
        trimmed(formatted_lines(lines)[k]) == trimmed(lines[a - 1]),
        trimmed(formatted_lines(lines)[k + 1]) == trimmed(lines[a + 1]),
{
    let all = indented_lines(lines);
    let t = choose|t: int| 0 <= t < a - 1 && t < lines.len() && is_code(#[trigger] lines[t]);
    lemma_body_starts_before(lines, t);
    lemma_kind_tells(lines[a - 1]);
    lemma_kind_tells(lines[a]);
    lemma_kind_tells(lines[a + 1]);
    lemma_comment_is_not_blank(lines[a - 1]);
    lemma_declaration_is_not_blank(lines[a + 1]);
    let x = written_at(lines, a - 1);
    lemma_written_at(lines, a - 1);
    lemma_written_at(lines, a + 1);
    lemma_written_upto(lines, a - 1);
    lemma_written_upto(lines, a);
    lemma_written_upto(lines, a + 1);
    let m = body(lines, a - 1).state;
    let this = step(
        m,
        lines[a - 1],
        const_follows(lines, a - 1),
        content_follows(lines, a - 1),
    );
    assert(this.lines.len() == 1);
    assert(x == written_upto(lines, a - 1));
    assert(written_upto(lines, a + 1) == x + 1);
    let after = body(lines, a + 1).state;
    assert(after == this.state);
    let y = written_at(lines, a + 1);
    lemma_kinds_by_content(all[x], lines[a - 1]);
    lemma_kinds_by_content(all[y], lines[a + 1]);
    lemma_kept_line(all, x);
    lemma_kept_line(all, y);
    let k = normalized_upto(all, x).len() as int;
    if y > x + 1 {
        let next = step(
            after,
            lines[a + 1],
            const_follows(lines, a + 1),
            content_follows(lines, a + 1),
        );
        lemma_step_writes_line(
            after,
            lines[a + 1],
            const_follows(lines, a + 1),
            content_follows(lines, a + 1),
        );
        assert(all[x + 1] == next.lines[0]);
        assert(trimmed(Seq::<char>::empty()) =~= Seq::<char>::empty());
        assert(is_blank(all[x + 1]));
        assert(after.last_kind == Some(LineType::Comment(CommentKind::Stack)));
        comment_kinds_are_exclusive(lines[a - 1]);
        assert(suppressed(all, x + 1));
        assert(!kept(all, x + 1));
        assert(normalized_upto(all, x + 2) == normalized_upto(all, x + 1));
    }
    k
}

} // verus!
