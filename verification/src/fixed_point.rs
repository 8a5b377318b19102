//! Formatting what has been formatted: the proof that a formatted text is
//! left as it is when it is formatted again, for the texts whose leading
//! lines do not mix imports with comments and from whose indented lines the
//! normalizer drops nothing; among them every text without comments.
//!
//! The proof runs the formatter a second time, on its own result. The scan
//! of the leading lines finds what the first scan wrote. The machine then
//! reads each written line in the state in which the first pass wrote it,
//! and writes it again.

use crate::blank_lines::{kept, normalized, normalized_upto, suppressed, without_trailing_blanks};
use crate::format::{
    body, formatted, formatted_lines, head, indented_lines, lemma_formatted_single_lines,
    lemma_written_upto, lemma_written_upto_grows, start_state, written_upto,
};
use crate::imports::{
    body_start, code_before, holds_import, lemma_scan_resume_bounds, lemma_scan_stays_stopped,
    preamble, scanned, ImportScan,
};
use crate::indent::{
    after_comment, const_follows, content_follows, initial, last_written, lemma_content_follows,
    lemma_ran_over_blank, lemma_ran_remembers, lemma_ran_writes_content, lemma_replay_blank,
    lemma_replay_gap, lemma_replay_line, lemma_step_writes_line, ran, single_spaced, spaced, step,
    written_for, Machine, Step,
};
use crate::line::{
    classified, comment_line, const_line, is_code, lemma_comment_is_not_blank, lemma_kind_tells,
    lemma_kinds_by_content, lemma_kinds_of_content, separator_comment_line, use_line, LineType,
};
use crate::order::{
    lemma_sorted_holds, ordered, precedes, sorted, sorted_is_ordered_permutation,
    sorted_keeps_ordered,
};
use crate::text::{
    content_limit, is_blank, lemma_content_limit_bounds, lemma_lines_hold_no_line_feed,
    lemma_trimmed_twice, lines_of, lines_of_joined, pieces, trimmed,
};
use vstd::prelude::*;

verus! {

/// No line is a comment.
pub open spec fn without_comments(lines: Seq<Seq<char>>) -> bool {
    forall|i: int| 0 <= i < lines.len() ==> !comment_line(#[trigger] lines[i])
}

/// Before the first line of code no comment stands, or no import stands.
pub open spec fn plain_lead(lines: Seq<Seq<char>>) -> bool {
    ||| forall|j: int|
        0 <= j < lines.len() && comment_line(#[trigger] lines[j]) ==> code_before(lines, j)
    ||| forall|j: int|
        0 <= j < lines.len() && use_line(#[trigger] lines[j]) ==> code_before(lines, j)
}

/// An import as the formatter writes it: trimmed.
pub open spec fn is_written_import(line: Seq<char>) -> bool {
    classified(line) == LineType::Import && trimmed(line) == line
}

/// A comment as the scan of the leading lines writes it: trimmed.
pub open spec fn is_written_comment(line: Seq<char>) -> bool {
    classified(line) is Comment && trimmed(line) == line
}

/// Every line is an import as the formatter writes it.
pub open spec fn all_written_imports(lines: Seq<Seq<char>>) -> bool {
    forall|k: int| 0 <= k < lines.len() ==> is_written_import(#[trigger] lines[k])
}

/// Every line is empty or a comment as the scan writes it, and the first
/// line is not empty.
pub open spec fn all_written_comments(lines: Seq<Seq<char>>) -> bool {
    &&& forall|k: int|
        0 <= k < lines.len() ==> (#[trigger] lines[k]).len() == 0 || is_written_comment(lines[k])
    &&& lines.len() > 0 ==> lines[0].len() > 0
}

/// What the scan of the leading lines holds before it meets a line of
/// code, and where it stops.
pub proof fn lemma_scan_lead(lines: Seq<Seq<char>>, n: int)
    requires
        0 <= n <= lines.len(),
    ensures
        scanned(lines, n).stopped == code_before(lines, n),
        0 <= scanned(lines, n).resume <= n,
        all_written_imports(scanned(lines, n).pending),
        !scanned(lines, n).stopped ==> forall|j: int|
            scanned(lines, n).resume <= j < n ==> is_blank(#[trigger] lines[j]),
        scanned(lines, n).stopped ==> exists|t: int|
            scanned(lines, n).resume <= t < n && is_code(#[trigger] lines[t]) && forall|j: int|
                scanned(lines, n).resume <= j < t ==> is_blank(#[trigger] lines[j]),
        (forall|j: int| 0 <= j < n && comment_line(#[trigger] lines[j]) ==> code_before(lines, j))
            ==> scanned(lines, n).out.len() == 0,
        (forall|j: int| 0 <= j < n && use_line(#[trigger] lines[j]) ==> code_before(lines, j))
            ==> scanned(lines, n).pending.len() == 0 && all_written_comments(
            scanned(lines, n).out,
        ),
    decreases n,
{
    if n > 0 {
        lemma_scan_lead(lines, n - 1);
        let before = scanned(lines, n - 1);
        let after = scanned(lines, n);
        let line = lines[n - 1];
        lemma_kind_tells(line);
        lemma_kinds_of_content(line);
        lemma_trimmed_twice(line);
        if before.stopped {
            let t = choose|t: int|
                before.resume <= t < n - 1 && is_code(#[trigger] lines[t]) && forall|j: int|
                    before.resume <= j < t ==> is_blank(#[trigger] lines[j]);
            assert(after.resume <= t < n && is_code(lines[t]));
            let c = choose|t: int| 0 <= t < n - 1 && t < lines.len() && is_code(#[trigger] lines[t]);
            assert(0 <= c < n && is_code(lines[c]));
        } else {
            assert(!code_before(lines, n - 1));
            if is_code(line) {
                assert(is_code(lines[n - 1]));
            } else {
                if code_before(lines, n) {
                    let c = choose|t: int| 0 <= t < n && t < lines.len() && is_code(#[trigger] lines[t]);
                    assert(0 <= c < n - 1 && is_code(lines[c]));
                }
                match classified(line) {
                    LineType::Import => {
                        assert(use_line(lines[n - 1]));
                        assert forall|k: int| 0 <= k < after.pending.len() implies is_written_import(
                            #[trigger] after.pending[k],
                        ) by {
                            if k < before.pending.len() {
                                assert(after.pending[k] == before.pending[k]);
                            }
                        }
                    },
                    LineType::Comment(_) => {
                        assert(comment_line(lines[n - 1]));
                        if before.pending.len() == 0 && all_written_comments(before.out) {
                            assert forall|k: int| 0 <= k < after.out.len() implies (
                            #[trigger] after.out[k]).len() == 0 || is_written_comment(
                                after.out[k],
                            ) by {
                                if k < before.out.len() {
                                    assert(after.out[k] == before.out[k]);
                                }
                            }
                            if before.out.len() > 0 {
                                assert(after.out[0] == before.out[0]);
                            }
                        }
                    },
                    LineType::Empty => {
                        if all_written_comments(before.out) {
                            assert forall|k: int| 0 <= k < after.out.len() implies (
                            #[trigger] after.out[k]).len() == 0 || is_written_comment(
                                after.out[k],
                            ) by {
                                if k < before.out.len() {
                                    assert(after.out[k] == before.out[k]);
                                }
                            }
                            if after.out.len() > 0 && before.out.len() > 0 {
                                assert(after.out[0] == before.out[0]);
                            }
                        }
                    },
                    _ => {},
                }
            }
        }
    }
}

/// Sorting keeps written imports written imports.
pub proof fn lemma_sorted_imports(imports: Seq<Seq<char>>)
    requires
        all_written_imports(imports),
    ensures
        all_written_imports(sorted(imports)),
        sorted(imports).len() == imports.len(),
        ordered(sorted(imports)),
{
    sorted_is_ordered_permutation(imports);
    assert forall|k: int| 0 <= k < sorted(imports).len() implies is_written_import(
        #[trigger] sorted(imports)[k],
    ) by {
        lemma_sorted_holds(imports, k);
    }
}

/// The scan of a run of written imports gathers them all.
pub proof fn lemma_scan_of_imports(lines: Seq<Seq<char>>, k: int)
    requires
        0 <= k <= lines.len(),
        all_written_imports(lines.take(k)),
    ensures
        scanned(lines, k) == (ImportScan {
            out: Seq::empty(),
            pending: lines.take(k),
            resume: k,
            stopped: false,
        }),
    decreases k,
{
    if k > 0 {
        assert forall|j: int| 0 <= j < k - 1 implies is_written_import(
            #[trigger] lines.take(k - 1)[j],
        ) by {
            assert(lines.take(k)[j] == lines.take(k - 1)[j]);
        }
        lemma_scan_of_imports(lines, k - 1);
        assert(is_written_import(lines.take(k)[k - 1]));
        assert(lines.take(k - 1).push(lines[k - 1]) =~= lines.take(k));
    } else {
        assert(lines.take(0) =~= Seq::<Seq<char>>::empty());
    }
}

/// Behind a run of written imports the scan passes one blank line, if one
/// stands there, and stops at a line of code. The imports are its preamble,
/// once sorted, and the body starts behind them.
pub proof fn lemma_scan_of_written(lines: Seq<Seq<char>>, k: int)
    requires
        0 <= k <= lines.len(),
        all_written_imports(lines.take(k)),
        k < lines.len() ==> is_code(lines[k]) || (is_blank(lines[k]) && k + 1 < lines.len()
            && is_code(lines[k + 1])),
    ensures
        preamble(lines) == sorted(lines.take(k)),
        body_start(lines) == k,
{
    lemma_scan_of_imports(lines, k);
    if k < lines.len() {
        lemma_kind_tells(lines[k]);
        if is_code(lines[k]) {
            assert(scanned(lines, k + 1).stopped);
            lemma_scan_stays_stopped(lines, k + 1, lines.len() as int);
        } else {
            assert(scanned(lines, k + 1) == scanned(lines, k));
            assert(scanned(lines, k + 2).stopped);
            lemma_scan_stays_stopped(lines, k + 2, lines.len() as int);
        }
    } else {
        assert(lines.take(k) =~= lines);
    }
}

/// The scan of written comments and single blank lines between them takes
/// each line as it stands.
pub proof fn lemma_scan_of_comments(lines: Seq<Seq<char>>, k: int, j: int)
    requires
        0 <= j <= k <= lines.len(),
        all_written_comments(lines.take(k)),
        single_spaced(lines.take(k)),
    ensures
        scanned(lines, j) == (ImportScan {
            out: lines.take(j),
            pending: Seq::empty(),
            resume: j,
            stopped: false,
        }),
    decreases j,
{
    if j > 0 {
        lemma_scan_of_comments(lines, k, j - 1);
        let lead = lines.take(k);
        let line = lines[j - 1];
        assert(lead[j - 1] == line);
        assert(lead[0] == lines[0]);
        lemma_kind_tells(line);
        assert(lines.take(j - 1).push(line) =~= lines.take(j));
        if line.len() == 0 {
            assert(trimmed(line) =~= Seq::<char>::empty());
            assert(line =~= Seq::<char>::empty());
            assert(is_blank(lead[j - 1]));
            assert(j - 1 > 0);
            assert(lead[j - 2] == lines[j - 2]);
            assert(lines.take(j - 1).last() == lines[j - 2]);
            if lines[j - 2].len() == 0 {
                assert(trimmed(lines[j - 2]) =~= Seq::<char>::empty());
            }
        } else {
            assert(sorted(Seq::<Seq<char>>::empty()) =~= Seq::<Seq<char>>::empty());
        }
    } else {
        assert(lines.take(0) =~= Seq::<Seq<char>>::empty());
    }
}

/// Behind written comments the scan stops at a line of code; where no
/// comment stands it passes one blank line before it. The comments are its
/// preamble, and the body starts behind them.
pub proof fn lemma_scan_of_written_comments(lines: Seq<Seq<char>>, k: int)
    requires
        0 <= k <= lines.len(),
        all_written_comments(lines.take(k)),
        single_spaced(lines.take(k)),
        k < lines.len() ==> is_code(lines[k]) || (k == 0 && is_blank(lines[0]) && 1 < lines.len()
            && is_code(lines[1])),
    ensures
        preamble(lines) == lines.take(k),
        body_start(lines) == k,
        !holds_import(preamble(lines)),
{
    lemma_scan_of_comments(lines, k, k);
    assert(sorted(Seq::<Seq<char>>::empty()) =~= Seq::<Seq<char>>::empty());
    assert(lines.take(k) + Seq::<Seq<char>>::empty() =~= lines.take(k));
    if k < lines.len() {
        lemma_kind_tells(lines[k]);
        if is_code(lines[k]) {
            assert(scanned(lines, k + 1).stopped);
            lemma_scan_stays_stopped(lines, k + 1, lines.len() as int);
        } else {
            assert(scanned(lines, 1) == scanned(lines, 0));
            assert(scanned(lines, 2).stopped);
            lemma_scan_stays_stopped(lines, 2, lines.len() as int);
        }
    } else {
        assert(lines.take(k) =~= lines);
    }
    assert forall|j: int| 0 <= j < k implies !use_line(#[trigger] lines.take(k)[j]) by {
        lemma_kind_tells(lines.take(k)[j]);
        assert(trimmed(Seq::<char>::empty()) =~= Seq::<char>::empty());
    }
}

/// Where the normalizer drops nothing, it gives back what it is given.
pub proof fn lemma_all_kept(lines: Seq<Seq<char>>, n: int)
    requires
        0 <= n <= lines.len(),
        forall|p: int| 0 <= p < lines.len() ==> #[trigger] kept(lines, p),
    ensures
        normalized_upto(lines, n) == lines.take(n),
    decreases n,
{
    if n > 0 {
        lemma_all_kept(lines, n - 1);
        assert(kept(lines, n - 1));
        assert(lines.take(n - 1).push(lines[n - 1]) =~= lines.take(n));
    } else {
        assert(lines.take(0) =~= Seq::<Seq<char>>::empty());
    }
}

/// Where the normalizer drops nothing from some lines, it drops nothing
/// from those that come first among them.
pub proof fn lemma_kept_at_start(lines: Seq<Seq<char>>, m: int)
    requires
        0 <= m <= lines.len(),
        forall|p: int| 0 <= p < lines.len() ==> #[trigger] kept(lines, p),
    ensures
        forall|p: int| 0 <= p < m ==> #[trigger] kept(lines.take(m), p),
        normalized(lines.take(m)) == lines.take(m),
{
    let start = lines.take(m);
    assert forall|p: int| 0 <= p < m implies #[trigger] kept(start, p) by {
        assert(kept(lines, p));
        if suppressed(start, p) {
            assert(suppressed(lines, p));
        }
    }
    lemma_all_kept(start, m);
    assert(start.take(m) =~= start);
}

/// Where no blank line stands at the end, none is stripped.
pub proof fn lemma_nothing_to_strip(lines: Seq<Seq<char>>)
    requires
        lines.len() > 0 ==> !is_blank(lines.last()),
    ensures
        without_trailing_blanks(lines) == lines,
{
    assert(lines.take(lines.len() as int) =~= lines);
}

/// Where the normalizer drops nothing, no two blank lines stand side by
/// side in what the first pass writes.
pub proof fn lemma_settled_single_spaced(lines: Seq<Seq<char>>)
    requires
        settled(lines),
    ensures
        single_spaced(indented_lines(lines)),
        single_spaced(head(lines)),
        normalized(indented_lines(lines)) == indented_lines(lines),
{
    let all = indented_lines(lines);
    assert forall|k: int| 0 < k < all.len() implies !(is_blank(#[trigger] all[k]) && is_blank(
        all[k - 1],
    )) by {
        assert(kept(all, k));
    }
    assert forall|k: int| 0 < k < head(lines).len() implies !(is_blank(#[trigger] head(lines)[k])
        && is_blank(head(lines)[k - 1])) by {
        assert(all[k] == head(lines)[k]);
        assert(all[k - 1] == head(lines)[k - 1]);
    }
    lemma_all_kept(all, all.len() as int);
    assert(all.take(all.len() as int) =~= all);
}

/// The normalizer drops none of the lines that the first pass writes.
pub open spec fn settled(lines: Seq<Seq<char>>) -> bool {
    forall|p: int|
        0 <= p < indented_lines(lines).len() ==> #[trigger] kept(indented_lines(lines), p)
}

/// The blank line `p` stands between a banner and the declaration of a
/// constant.
pub open spec fn gap_before_const(lines: Seq<Seq<char>>, p: int) -> bool {
    &&& 0 < p
    &&& p + 1 < lines.len()
    &&& is_blank(lines[p])
    &&& separator_comment_line(lines[p - 1])
    &&& const_line(lines[p + 1])
}

/// No blank line that the machine has written stands between a banner and
/// the declaration of a constant.
pub open spec fn no_gap_before_const(lines: Seq<Seq<char>>) -> bool {
    forall|p: int|
        head(lines).len() <= p ==> !#[trigger] gap_before_const(indented_lines(lines), p)
}

/// The index behind the last line that is not blank.
pub open spec fn content_end_of(lines: Seq<Seq<char>>) -> int {
    content_limit(lines, lines.len() as int)
}

/// Where the body holds a line that is not blank, the last such line is
/// the last line of the formatted text: the first pass writes it last
/// before the blank lines at its end.
pub proof fn lemma_last_content(lines: Seq<Seq<char>>)
    requires
        0 <= body_start(lines) < content_end_of(lines),
    ensures
        content_end_of(lines) <= lines.len(),
        !is_blank(lines[content_end_of(lines) - 1]),
        !content_follows(lines, content_end_of(lines) - 1),
        written_upto(lines, content_end_of(lines) - 1) < written_upto(
            lines,
            content_end_of(lines),
        ),
        !is_blank(indented_lines(lines)[written_upto(lines, content_end_of(lines)) - 1]),
        content_end_of(indented_lines(lines)) == written_upto(lines, content_end_of(lines)),
{
    let n = lines.len() as int;
    let e = content_end_of(lines);
    let start = body_start(lines);
    let all = indented_lines(lines);
    lemma_content_limit_bounds(lines, n);
    lemma_content_follows(lines, e - 1);
    lemma_written_upto(lines, e - 1);
    lemma_written_upto(lines, e);
    let s = body(lines, e - 1).state;
    lemma_step_writes_line(s, lines[e - 1], const_follows(lines, e - 1), false);
    let this = step(s, lines[e - 1], const_follows(lines, e - 1), false);
    let at = if this.lines[0].len() == 0 {
        1int
    } else {
        0int
    };
    assert(all[written_upto(lines, e - 1) + at] == this.lines[at]);
    lemma_ran_over_blank(lines, start, e, n, start_state(lines));
    lemma_content_limit_bounds(all, all.len() as int);
    let limit = content_end_of(all);
    let p = written_upto(lines, e);
    assert forall|k: int| p <= k < all.len() implies is_blank(#[trigger] all[k]) by {
        assert(all[k] == body(lines, n).lines[k - head(lines).len()]);
        assert(trimmed(Seq::<char>::empty()) =~= Seq::<char>::empty());
    }
    if limit > p {
        assert(is_blank(all[limit - 1]));
    }
    if limit < p {
        assert(is_blank(all[p - 1]));
    }
}

/// As long as the machine has written nothing for the body, it has read
/// blank lines only and stands as it started.
pub proof fn lemma_nothing_written(lines: Seq<Seq<char>>, i: int)
    requires
        0 <= body_start(lines) <= i <= lines.len(),
        written_upto(lines, i) == head(lines).len(),
    ensures
        body(lines, i).state == start_state(lines),
        forall|j: int| body_start(lines) <= j < i ==> is_blank(#[trigger] lines[j]),
    decreases i,
{
    if i > body_start(lines) {
        lemma_written_upto(lines, i - 1);
        lemma_written_upto_grows(lines, i - 1, i);
        lemma_nothing_written(lines, i - 1);
        let m = body(lines, i - 1).state;
        let nc = const_follows(lines, i - 1);
        let mc = content_follows(lines, i - 1);
        if !is_blank(lines[i - 1]) {
            lemma_step_writes_line(m, lines[i - 1], nc, mc);
        }
        lemma_kind_tells(lines[i - 1]);
    }
}

/// Where the machine has written something for the body, there is a first
/// line for which it wrote.
pub proof fn lemma_first_writer(lines: Seq<Seq<char>>, j: int) -> (i: int)
    requires
        0 <= body_start(lines) <= j <= lines.len(),
        written_upto(lines, j) > head(lines).len(),
    ensures
        body_start(lines) <= i < j,
        written_upto(lines, i) == head(lines).len(),
        written_upto(lines, i + 1) > head(lines).len(),
    decreases j,
{
    lemma_written_upto(lines, j - 1);
    if written_upto(lines, j - 1) > head(lines).len() {
        lemma_first_writer(lines, j - 1)
    } else {
        j - 1
    }
}

/// The first line of the body that is not blank is written behind nothing
/// but empty lines.
pub proof fn lemma_code_written(lines: Seq<Seq<char>>, t: int) -> (q: int)
    requires
        0 <= body_start(lines) <= t < lines.len(),
        !is_blank(lines[t]),
        forall|j: int| body_start(lines) <= j < t ==> is_blank(#[trigger] lines[j]),
    ensures
        head(lines).len() <= written_upto(lines, t) <= q < written_upto(lines, t + 1),
        q <= written_upto(lines, t) + 1,
        written_upto(lines, t + 1) <= indented_lines(lines).len(),
        trimmed(indented_lines(lines)[q]) == trimmed(lines[t]),
        !is_blank(indented_lines(lines)[q]),
        forall|k: int|
            head(lines).len() <= k < q ==> (#[trigger] indented_lines(lines)[k]).len() == 0,
{
    let start = body_start(lines);
    let all = indented_lines(lines);
    lemma_written_upto(lines, t);
    lemma_written_upto(lines, t + 1);
    lemma_ran_over_blank(lines, start, start, t, start_state(lines));
    let m = body(lines, t).state;
    let nc = const_follows(lines, t);
    let mc = content_follows(lines, t);
    let this = step(m, lines[t], nc, mc);
    lemma_step_writes_line(m, lines[t], nc, mc);
    let at = if this.lines[0].len() == 0 {
        1int
    } else {
        0int
    };
    let q = written_upto(lines, t) + at;
    assert(all[q] == this.lines[at]);
    assert forall|k: int| head(lines).len() <= k < q implies (#[trigger] all[k]).len() == 0 by {
        if k < written_upto(lines, t) {
            let part = body(lines, t).lines;
            assert(all.take(written_upto(lines, t))[k] == (head(lines) + part)[k]);
            assert(part[k - head(lines).len()].len() == 0);
        } else {
            assert(all[k] == this.lines[0]);
        }
    }
    q
}

/// The machine, reading `again` from `from`, stands behind line `i` of
/// `lines` as the first pass stood there, and has written what the first
/// pass had written.
pub open spec fn replayed(
    lines: Seq<Seq<char>>,
    again: Seq<Seq<char>>,
    from: int,
    init: Machine,
    i: int,
) -> bool {
    ran(again, from, written_upto(lines, i), init) == (Step {
        state: body(lines, i).state,
        lines: indented_lines(lines).subrange(from, written_upto(lines, i)),
    })
}

/// Reading a blank line again.
proof fn lemma_again_blank(
    again: Seq<Seq<char>>,
    from: int,
    init: Machine,
    pos: int,
    m: Machine,
    out: Seq<Seq<char>>,
    line: Seq<char>,
    nc: bool,
    mc: bool,
)
    requires
        0 <= from <= pos < again.len(),
        ran(again, from, pos, init) == (Step { state: m, lines: out }),
        is_blank(line),
        step(m, line, nc, mc).lines.len() > 0,
        again[pos] == Seq::<char>::empty(),
        !(after_comment(m) && const_follows(again, pos)),
    ensures
        ran(again, from, pos + 1, init) == (Step {
            state: step(m, line, nc, mc).state,
            lines: out + step(m, line, nc, mc).lines,
        }),
{
    lemma_replay_blank(m, line, nc, mc, const_follows(again, pos), content_follows(again, pos));
}

/// Reading a written line again, and the blank line behind it if there is
/// one.
proof fn lemma_again_line(
    again: Seq<Seq<char>>,
    from: int,
    init: Machine,
    pos: int,
    m: Machine,
    out: Seq<Seq<char>>,
    line: Seq<char>,
    nc: bool,
    mc: bool,
)
    requires
        0 <= from <= pos,
        pos + step(m, line, nc, mc).lines.len() <= again.len(),
        ran(again, from, pos, init) == (Step { state: m, lines: out }),
        !is_blank(line),
        step(m, line, nc, mc).lines[0].len() > 0,
        forall|k: int|
            0 <= k < step(m, line, nc, mc).lines.len() ==> again[pos + k] == #[trigger] step(
                m,
                line,
                nc,
                mc,
            ).lines[k],
        content_follows(again, pos) == mc,
    ensures
        ran(again, from, pos + step(m, line, nc, mc).lines.len(), init) == (Step {
            state: step(m, line, nc, mc).state,
            lines: out + step(m, line, nc, mc).lines,
        }),
{
    let this = step(m, line, nc, mc);
    lemma_step_writes_line(m, line, nc, mc);
    lemma_replay_line(
        m,
        line,
        nc,
        mc,
        const_follows(again, pos),
        const_follows(again, pos + 1),
        content_follows(again, pos + 1),
    );
    assert(again[pos] == this.lines[0]);
    assert(ran(again, from, pos + 1, init) == (Step {
        state: this.state,
        lines: out + this.lines,
    }));
    if this.lines.len() == 2 {
        assert(again[pos + 1] == this.lines[1]);
        assert(out + this.lines + Seq::<Seq<char>>::empty() =~= out + this.lines);
    }
}

/// Reading again a blank line that parts a stack comment from a line, and
/// that line.
proof fn lemma_again_gap(
    again: Seq<Seq<char>>,
    from: int,
    init: Machine,
    pos: int,
    m: Machine,
    out: Seq<Seq<char>>,
    line: Seq<char>,
    nc: bool,
    mc: bool,
)
    requires
        0 <= from <= pos,
        pos + 2 <= again.len(),
        ran(again, from, pos, init) == (Step { state: m, lines: out }),
        !is_blank(line),
        step(m, line, nc, mc).lines[0].len() == 0,
        forall|k: int|
            0 <= k < step(m, line, nc, mc).lines.len() ==> again[pos + k] == #[trigger] step(
                m,
                line,
                nc,
                mc,
            ).lines[k],
        !const_follows(again, pos),
    ensures
        step(m, line, nc, mc).lines.len() == 2,
        ran(again, from, pos + 2, init) == (Step {
            state: step(m, line, nc, mc).state,
            lines: out + step(m, line, nc, mc).lines,
        }),
{
    let this = step(m, line, nc, mc);
    lemma_replay_gap(
        m,
        line,
        nc,
        mc,
        content_follows(again, pos),
        const_follows(again, pos + 1),
        content_follows(again, pos + 1),
    );
    assert(again[pos] == this.lines[0]);
    assert(again[pos + 1] == this.lines[1]);
    assert(this.lines[0] =~= Seq::<char>::empty());
    let mid = ran(again, from, pos + 1, init);
    assert(mid == (Step { state: spaced(m), lines: out + seq![Seq::<char>::empty()] }));
    assert(out + seq![Seq::<char>::empty()] + seq![this.lines[1]] =~= out + this.lines);
}

/// A blank line that the first pass has written behind a comment does not
/// stand before the declaration of a constant.
proof fn lemma_no_const_behind(lines: Seq<Seq<char>>, pos: int)
    requires
        settled(lines),
        no_gap_before_const(lines),
        head(lines).len() <= pos,
        0 < pos,
        pos + 1 < indented_lines(lines).len(),
        is_blank(indented_lines(lines)[pos]),
        last_written(indented_lines(lines).take(pos)) matches Some(LineType::Comment(_)),
    ensures
        !const_line(indented_lines(lines)[pos + 1]),
{
    let all = indented_lines(lines);
    assert(all.take(pos).last() == all[pos - 1]);
    lemma_kind_tells(all[pos - 1]);
    assert(kept(all, pos));
    if const_line(all[pos + 1]) {
        if separator_comment_line(all[pos - 1]) {
            assert(gap_before_const(all, pos));
        } else {
            assert(suppressed(all, pos));
        }
    }
}

/// The context in which the body is read again: the lines that were
/// formatted, and the formatted lines up to the last that is not blank.
pub open spec fn read_again(lines: Seq<Seq<char>>, again: Seq<Seq<char>>) -> bool {
    &&& settled(lines)
    &&& no_gap_before_const(lines)
    &&& 0 <= body_start(lines) < content_end_of(lines)
    &&& again == indented_lines(lines).take(written_upto(lines, content_end_of(lines)))
    &&& start_state(lines).last_kind == last_written(head(lines))
    &&& single_spaced(head(lines))
}

/// The text that is read again is the start of what the first pass has
/// written, and its last line is not blank.
proof fn lemma_again_agrees(lines: Seq<Seq<char>>, again: Seq<Seq<char>>)
    requires
        read_again(lines, again),
    ensures
        content_end_of(lines) <= lines.len(),
        again.len() == written_upto(lines, content_end_of(lines)),
        0 < again.len() <= indented_lines(lines).len(),
        forall|k: int| 0 <= k < again.len() ==> #[trigger] again[k] == indented_lines(lines)[k],
        !is_blank(again.last()),
{
    let e = content_end_of(lines);
    lemma_content_limit_bounds(lines, lines.len() as int);
    lemma_written_upto(lines, e);
    lemma_last_content(lines);
}

/// Before the last content the first pass has not written all of the text
/// that is read again.
proof fn lemma_more_written(lines: Seq<Seq<char>>, i: int)
    requires
        0 <= body_start(lines) <= i,
        i + 1 < content_end_of(lines),
    ensures
        written_upto(lines, i + 1) < written_upto(lines, content_end_of(lines)),
{
    let e = content_end_of(lines);
    lemma_content_limit_bounds(lines, lines.len() as int);
    lemma_written_upto_grows(lines, i + 1, e - 1);
    lemma_last_content(lines);
}

/// What the first pass does with line `i`, seen from the text that is read
/// again: the lines that it writes stand there, behind what it had written
/// before.
proof fn lemma_replay_facts(lines: Seq<Seq<char>>, again: Seq<Seq<char>>, i: int)
    requires
        read_again(lines, again),
        body_start(lines) <= i < content_end_of(lines),
    ensures
        ({
            let this = step(
                body(lines, i).state,
                lines[i],
                const_follows(lines, i),
                content_follows(lines, i),
            );
            let pos = written_upto(lines, i);
            &&& i < lines.len()
            &&& head(lines).len() <= pos
            &&& written_upto(lines, i + 1) == pos + this.lines.len()
            &&& pos + this.lines.len() <= again.len()
            &&& again.len() <= indented_lines(lines).len()
            &&& body(lines, i + 1).state == this.state
            &&& forall|k: int|
                0 <= k < this.lines.len() ==> again[pos + k] == #[trigger] this.lines[k]
            &&& forall|k: int| 0 <= k < again.len() ==> #[trigger] again[k] == indented_lines(lines)[k]
            &&& body(lines, i).state.last_kind == last_written(indented_lines(lines).take(pos))
            &&& !is_blank(again.last())
            &&& (content_follows(lines, i) <==> i + 1 < content_end_of(lines))
            &&& i + 1 < content_end_of(lines) ==> pos + this.lines.len() < again.len()
        }),
{
    let e = content_end_of(lines);
    lemma_again_agrees(lines, again);
    lemma_written_upto(lines, i);
    lemma_written_upto_grows(lines, i + 1, e);
    lemma_content_follows(lines, i);
    lemma_ran_remembers(lines, body_start(lines), i, start_state(lines), head(lines));
    if i + 1 < e {
        lemma_more_written(lines, i);
    }
    let this = step(
        body(lines, i).state,
        lines[i],
        const_follows(lines, i),
        content_follows(lines, i),
    );
    let pos = written_upto(lines, i);
    assert forall|k: int| 0 <= k < this.lines.len() implies again[pos + k] == #[trigger] this.lines[k] by {
        assert(again[pos + k] == indented_lines(lines)[pos + k]);
    }
}

/// What the first pass has written up to line `i`, with what it writes
/// for that line, is what it has written up to the next line.
proof fn lemma_written_with(lines: Seq<Seq<char>>, again: Seq<Seq<char>>, from: int, i: int)
    requires
        read_again(lines, again),
        body_start(lines) <= i < content_end_of(lines),
        0 <= from <= written_upto(lines, i),
    ensures
        indented_lines(lines).subrange(from, written_upto(lines, i)) + step(
            body(lines, i).state,
            lines[i],
            const_follows(lines, i),
            content_follows(lines, i),
        ).lines == indented_lines(lines).subrange(from, written_upto(lines, i + 1)),
{
    let all = indented_lines(lines);
    lemma_replay_facts(lines, again, i);
    let pos = written_upto(lines, i);
    let this = step(
        body(lines, i).state,
        lines[i],
        const_follows(lines, i),
        content_follows(lines, i),
    );
    assert forall|k: int| 0 <= k < this.lines.len() implies all[pos + k] == this.lines[k] by {
        assert(again[pos + k] == this.lines[k]);
    }
    assert(all.subrange(from, pos) + this.lines =~= all.subrange(from, pos + this.lines.len()));
}

/// One line further: where the machine, reading again, stands behind line
/// `i` as the first pass stood there, it does so behind the next line.
#[verifier::rlimit(50)]
proof fn lemma_replay_step(
    lines: Seq<Seq<char>>,
    again: Seq<Seq<char>>,
    from: int,
    init: Machine,
    i: int,
)
    requires
        read_again(lines, again),
        body_start(lines) <= i < content_end_of(lines),
        0 <= from <= written_upto(lines, i),
        replayed(lines, again, from, init, i),
    ensures
        replayed(lines, again, from, init, i + 1),
{
    lemma_replay_facts(lines, again, i);
    lemma_written_with(lines, again, from, i);
    let pos = written_upto(lines, i);
    let line = lines[i];
    let m = body(lines, i).state;
    let nc = const_follows(lines, i);
    let mc = content_follows(lines, i);
    let this = step(m, line, nc, mc);
    let out = indented_lines(lines).subrange(from, pos);
    if this.lines.len() == 0 {
    } else if is_blank(line) {
        lemma_replay_blank_case(lines, again, i);
        lemma_again_blank(again, from, init, pos, m, out, line, nc, mc);
    } else if this.lines[0].len() > 0 {
        lemma_replay_line_case(lines, again, i);
        lemma_again_line(again, from, init, pos, m, out, line, nc, mc);
    } else {
        lemma_replay_gap_case(lines, again, i);
        lemma_again_gap(again, from, init, pos, m, out, line, nc, mc);
    }
}

/// A blank line that the first pass has written is read again and not
/// followed by the declaration of a constant where it stands behind a
/// comment.
proof fn lemma_replay_blank_case(lines: Seq<Seq<char>>, again: Seq<Seq<char>>, i: int)
    requires
        read_again(lines, again),
        body_start(lines) <= i < content_end_of(lines),
        i < lines.len(),
        is_blank(lines[i]),
        step(
            body(lines, i).state,
            lines[i],
            const_follows(lines, i),
            content_follows(lines, i),
        ).lines.len() > 0,
    ensures
        written_upto(lines, i) < again.len(),
        again[written_upto(lines, i)] == Seq::<char>::empty(),
        !(after_comment(body(lines, i).state) && const_follows(again, written_upto(lines, i))),
{
    let all = indented_lines(lines);
    lemma_replay_facts(lines, again, i);
    let pos = written_upto(lines, i);
    let m = body(lines, i).state;
    let this = step(m, lines[i], const_follows(lines, i), content_follows(lines, i));
    lemma_kind_tells(lines[i]);
    assert(this.lines[0] =~= Seq::<char>::empty());
    assert(again[pos] == this.lines[0]);
    assert(trimmed(Seq::<char>::empty()) =~= Seq::<char>::empty());
    if after_comment(m) && const_follows(again, pos) {
        assert(again[pos + 1] == all[pos + 1]);
        assert(again[pos] == all[pos]);
        assert(all.take(pos).len() > 0);
        lemma_no_const_behind(lines, pos);
    }
}

/// Behind a written line more content follows in the text that is read
/// again exactly where more content follows the line in the input.
proof fn lemma_replay_line_case(lines: Seq<Seq<char>>, again: Seq<Seq<char>>, i: int)
    requires
        read_again(lines, again),
        body_start(lines) <= i < content_end_of(lines),
        i < lines.len(),
        !is_blank(lines[i]),
        step(
            body(lines, i).state,
            lines[i],
            const_follows(lines, i),
            content_follows(lines, i),
        ).lines[0].len() > 0,
    ensures
        content_follows(again, written_upto(lines, i)) == content_follows(lines, i),
{
    lemma_replay_facts(lines, again, i);
    let pos = written_upto(lines, i);
    let m = body(lines, i).state;
    let nc = const_follows(lines, i);
    let mc = content_follows(lines, i);
    lemma_step_writes_line(m, lines[i], nc, mc);
    if i + 1 < content_end_of(lines) {
        let last = again.len() - 1;
        assert(pos < last < again.len() && !is_blank(again[last]));
    }
}

/// The line behind a blank line that parts it from a stack comment is no
/// declaration of a constant.
proof fn lemma_replay_gap_case(lines: Seq<Seq<char>>, again: Seq<Seq<char>>, i: int)
    requires
        read_again(lines, again),
        body_start(lines) <= i < content_end_of(lines),
        i < lines.len(),
        !is_blank(lines[i]),
        step(
            body(lines, i).state,
            lines[i],
            const_follows(lines, i),
            content_follows(lines, i),
        ).lines[0].len() == 0,
    ensures
        written_upto(lines, i) + 2 <= again.len(),
        !const_follows(again, written_upto(lines, i)),
{
    let all = indented_lines(lines);
    lemma_replay_facts(lines, again, i);
    let pos = written_upto(lines, i);
    let m = body(lines, i).state;
    let nc = const_follows(lines, i);
    let mc = content_follows(lines, i);
    let this = step(m, lines[i], nc, mc);
    lemma_step_writes_line(m, lines[i], nc, mc);
    assert(trimmed(Seq::<char>::empty()) =~= Seq::<char>::empty());
    assert(again[pos] == this.lines[0]);
    assert(again[pos + 1] == this.lines[1]);
    assert(again[pos] == all[pos]);
    assert(again[pos + 1] == all[pos + 1]);
    assert(this.lines[0] =~= Seq::<char>::empty());
    if const_line(all[pos + 1]) {
        assert(all.take(pos).len() > 0);
        lemma_no_const_behind(lines, pos);
    }
}

/// The machine reads again what the first pass has written, from a place
/// where it stands as the first pass stood: it then writes what it reads
/// and stands, behind each line of the input, as the first pass stood there.
pub proof fn lemma_replay(
    lines: Seq<Seq<char>>,
    again: Seq<Seq<char>>,
    from: int,
    init: Machine,
    first: int,
    i: int,
)
    requires
        read_again(lines, again),
        body_start(lines) <= first <= i <= content_end_of(lines),
        0 <= from <= written_upto(lines, first),
        replayed(lines, again, from, init, first),
    ensures
        replayed(lines, again, from, init, i),
    decreases i - first,
{
    if i > first {
        lemma_replay(lines, again, from, init, first, i - 1);
        lemma_content_limit_bounds(lines, lines.len() as int);
        lemma_written_upto_grows(lines, first, i - 1);
        lemma_replay_step(lines, again, from, init, i - 1);
    }
}

/// Where the machine, reading the formatted lines again from the start of
/// their body, comes to stand as the first pass stood behind some line,
/// formatting the formatted lines gives them back.
proof fn lemma_formatted_again(
    lines: Seq<Seq<char>>,
    again: Seq<Seq<char>>,
    from: int,
    first: int,
)
    requires
        read_again(lines, again),
        body_start(lines) <= first <= content_end_of(lines),
        0 <= from <= written_upto(lines, first),
        body_start(again) == from,
        head(again) == again.take(from),
        replayed(lines, again, from, start_state(again), first),
    ensures
        again == formatted_lines(lines),
        formatted_lines(again) == again,
{
    let all = indented_lines(lines);
    let e = content_end_of(lines);
    lemma_last_content(lines);
    lemma_settled_single_spaced(lines);
    lemma_written_upto(lines, e);
    lemma_written_upto_grows(lines, first, e);
    lemma_replay(lines, again, from, start_state(again), first, e);
    let body_again = ran(again, from, again.len() as int, start_state(again)).lines;
    assert(body_again == all.subrange(from, written_upto(lines, e)));
    assert(again.take(from) + body_again =~= again);
    assert(indented_lines(again) == again);
    lemma_kept_at_start(all, again.len() as int);
    assert(again.last() == all[written_upto(lines, e) - 1]);
    lemma_nothing_to_strip(again);
}

/// The first line of code, and what stands around it: the body starts at
/// or before it, behind blank lines only, and it is not the last content.
proof fn lemma_first_code(lines: Seq<Seq<char>>) -> (t: int)
    requires
        code_before(lines, lines.len() as int),
    ensures
        0 <= body_start(lines) <= t < content_end_of(lines) <= lines.len(),
        is_code(lines[t]),
        !is_blank(lines[t]),
        forall|j: int| body_start(lines) <= j < t ==> is_blank(#[trigger] lines[j]),
{
    let n = lines.len() as int;
    lemma_scan_lead(lines, n);
    let scan = scanned(lines, n);
    let t = choose|t: int|
        scan.resume <= t < n && is_code(#[trigger] lines[t]) && forall|j: int|
            scan.resume <= j < t ==> is_blank(#[trigger] lines[j]);
    lemma_kind_tells(lines[t]);
    lemma_content_limit_bounds(lines, n);
    if content_end_of(lines) <= t {
        assert(is_blank(lines[t]));
    }
    t
}

/// The leading lines hold no comment.
pub open spec fn lead_without_comments(lines: Seq<Seq<char>>) -> bool {
    forall|j: int|
        0 <= j < lines.len() && comment_line(#[trigger] lines[j]) ==> code_before(lines, j)
}

/// The leading lines hold no import.
pub open spec fn lead_without_imports(lines: Seq<Seq<char>>) -> bool {
    forall|j: int| 0 <= j < lines.len() && use_line(#[trigger] lines[j]) ==> code_before(lines, j)
}

/// Where the leading lines hold no comment, the preamble is the sorted
/// imports, and the head is the preamble and at most one empty line.
pub proof fn lemma_head_of_imports(lines: Seq<Seq<char>>)
    requires
        lead_without_comments(lines),
    ensures
        all_written_imports(preamble(lines)),
        ordered(preamble(lines)),
        sorted(preamble(lines)) == preamble(lines),
        holds_import(preamble(lines)) == (preamble(lines).len() > 0),
        head(lines) == preamble(lines) || head(lines) == preamble(lines).push(Seq::empty()),
        preamble(lines).len() > 0 ==> last_written(preamble(lines)) == Some(LineType::Import),
        preamble(lines).len() == 0 ==> head(lines).len() == 0,
{
    let n = lines.len() as int;
    lemma_scan_lead(lines, n);
    let scan = scanned(lines, n);
    let pre = preamble(lines);
    assert(scan.out =~= Seq::<Seq<char>>::empty());
    assert(scan.out + sorted(scan.pending) =~= sorted(scan.pending));
    lemma_sorted_imports(scan.pending);
    sorted_keeps_ordered(pre);
    if pre.len() > 0 {
        assert(is_written_import(pre[0]));
        lemma_kind_tells(pre[0]);
        assert(is_written_import(pre[pre.len() - 1]));
    }
    if holds_import(pre) {
        let k = choose|k: int| 0 <= k < pre.len() && use_line(#[trigger] pre[k]);
    }
}

/// The lines up to the last content that the first pass writes.
pub open spec fn written_content(lines: Seq<Seq<char>>) -> Seq<Seq<char>> {
    indented_lines(lines).take(written_upto(lines, content_end_of(lines)))
}

/// Where the text holds code, the first line of code stands in the
/// written content behind the head, or behind one empty line more.
proof fn lemma_code_behind_head(lines: Seq<Seq<char>>) -> (r: (int, int))
    requires
        settled(lines),
        code_before(lines, lines.len() as int),
    ensures
        read_again(lines, written_content(lines)) || !no_gap_before_const(lines),
        0 <= body_start(lines) < content_end_of(lines) <= lines.len(),
        head(lines).len() <= r.0 < written_content(lines).len(),
        written_content(lines).len() <= indented_lines(lines).len(),
        is_code(written_content(lines)[r.0]),
        written_content(lines).take(head(lines).len() as int) == head(lines),
        forall|j: int|
            head(lines).len() <= j < r.0 ==> (#[trigger] written_content(lines)[j]).len() == 0,
        forall|j: int|
            0 <= j < written_content(lines).len() ==> #[trigger] written_content(lines)[j]
                == indented_lines(lines)[j],
        single_spaced(written_content(lines)),
        written_upto(lines, body_start(lines)) == head(lines).len(),
        body_start(lines) <= r.1 < content_end_of(lines),
        r.0 < written_upto(lines, r.1 + 1),
        forall|j: int| body_start(lines) <= j < r.1 ==> is_blank(#[trigger] lines[j]),
{
    let all = indented_lines(lines);
    let e = content_end_of(lines);
    let t = lemma_first_code(lines);
    lemma_settled_single_spaced(lines);
    lemma_written_upto(lines, e);
    lemma_written_upto(lines, body_start(lines));
    lemma_written_upto_grows(lines, t + 1, e);
    let again = written_content(lines);
    let q = lemma_code_written(lines, t);
    lemma_kinds_by_content(all[q], lines[t]);
    assert(again[q] == all[q]);
    assert(again.take(head(lines).len() as int) =~= head(lines));
    assert forall|j: int| head(lines).len() <= j < q implies (#[trigger] again[j]).len() == 0 by {
        assert(again[j] == all[j]);
    }
    assert forall|j: int| 0 < j < again.len() implies !(is_blank(#[trigger] again[j]) && is_blank(
        again[j - 1],
    )) by {
        assert(again[j] == all[j]);
        assert(again[j - 1] == all[j - 1]);
    }
    (q, t)
}

/// Where the leading lines hold no comment, the sorted imports stand at the
/// start of the written content, and behind them a line of code, or an
/// empty line and then a line of code; the empty line is there where there
/// are imports.
proof fn lemma_imports_then_code(lines: Seq<Seq<char>>)
    requires
        settled(lines),
        lead_without_comments(lines),
        code_before(lines, lines.len() as int),
    ensures
        ({
            let again = written_content(lines);
            let k = preamble(lines).len() as int;
            &&& k < again.len()
            &&& again.take(k) == preamble(lines)
            &&& is_code(again[k]) || (again[k].len() == 0 && k + 1 < again.len() && is_code(
                again[k + 1],
            ))
            &&& holds_import(preamble(lines)) ==> again[k].len() == 0
        }),
{
    let all = indented_lines(lines);
    let pre = preamble(lines);
    let hd = head(lines);
    let start = body_start(lines);
    let again = written_content(lines);
    let k = pre.len() as int;
    let (q, t) = lemma_code_behind_head(lines);
    lemma_head_of_imports(lines);
    assert(trimmed(Seq::<char>::empty()) =~= Seq::<char>::empty());
    assert(again.take(k) =~= pre) by {
        assert forall|j: int| 0 <= j < k implies again[j] == pre[j] by {
            assert(again.take(hd.len() as int)[j] == hd[j]);
        }
    }
    assert forall|j: int| k <= j < q implies (#[trigger] again[j]).len() == 0 by {
        if j < hd.len() {
            assert(again.take(hd.len() as int)[j] == hd[j]);
        }
    }
    if q > k + 1 {
        assert(again[k].len() == 0 && again[k + 1].len() == 0);
        assert(is_blank(again[k + 1]) && is_blank(again[k]));
    }
    if holds_import(pre) && again[k].len() > 0 {
        assert(q == k);
        assert(hd == pre);
        assert(is_blank(lines[start]));
        lemma_blank_behind_imports(lines);
        assert(again[k] == all[k]);
    }
}

/// Where the leading lines hold no comment, the machine that starts behind
/// the imports stands at the start of the body as the first pass stood
/// there, once it has read the empty line behind the imports.
proof fn lemma_start_behind_imports(lines: Seq<Seq<char>>)
    requires
        settled(lines),
        lead_without_comments(lines),
        code_before(lines, lines.len() as int),
    ensures
        replayed(
            lines,
            written_content(lines),
            preamble(lines).len() as int,
            initial(last_written(preamble(lines))),
            body_start(lines),
        ),
        preamble(lines).len() <= written_upto(lines, body_start(lines)),
{
    let all = indented_lines(lines);
    let pre = preamble(lines);
    let hd = head(lines);
    let again = written_content(lines);
    let k = pre.len() as int;
    let init2 = initial(last_written(pre));
    let (q, t) = lemma_code_behind_head(lines);
    lemma_head_of_imports(lines);
    assert(trimmed(Seq::<char>::empty()) =~= Seq::<char>::empty());
    if hd == pre {
        assert(all.subrange(k, k) =~= Seq::<Seq<char>>::empty());
    } else {
        assert(hd.last() == Seq::<char>::empty());
        assert(again[k] == hd[k]) by {
            assert(again.take(hd.len() as int)[k] == hd[k]);
        }
        assert(all[k] == again[k]);
        lemma_kind_tells(again[k]);
        assert(pre.len() > 0);
        let this = step(init2, again[k], const_follows(again, k), content_follows(again, k));
        assert(this.lines =~= seq![Seq::<char>::empty()]);
        assert(this.state == start_state(lines));
        assert(all.subrange(k, k + 1) =~= seq![Seq::<char>::empty()]);
        assert(ran(again, k, k, init2).lines + this.lines =~= seq![Seq::<char>::empty()]);
    }
}

/// The formatted lines of a text whose leading lines hold no comment and
/// that holds code stay as they are when they are formatted.
proof fn lemma_fixed_with_imports(lines: Seq<Seq<char>>)
    requires
        settled(lines),
        no_gap_before_const(lines),
        lead_without_comments(lines),
        code_before(lines, lines.len() as int),
    ensures
        formatted_lines(formatted_lines(lines)) == formatted_lines(lines),
{
    let pre = preamble(lines);
    let again = written_content(lines);
    let k = pre.len() as int;
    let (q, t) = lemma_code_behind_head(lines);
    lemma_head_of_imports(lines);
    lemma_imports_then_code(lines);
    lemma_start_behind_imports(lines);
    assert(trimmed(Seq::<char>::empty()) =~= Seq::<char>::empty());
    lemma_scan_of_written(again, k);
    assert(head(again) == again.take(k));
    lemma_formatted_again(lines, again, k, body_start(lines));
}

/// Where the leading lines hold no import, the head is what the scan has
/// written: comments, and single empty lines between them.
pub proof fn lemma_head_of_comments(lines: Seq<Seq<char>>)
    requires
        lead_without_imports(lines),
    ensures
        all_written_comments(preamble(lines)),
        !holds_import(preamble(lines)),
        head(lines) == preamble(lines),
{
    let n = lines.len() as int;
    lemma_scan_lead(lines, n);
    let scan = scanned(lines, n);
    let pre = preamble(lines);
    assert(scan.pending =~= Seq::<Seq<char>>::empty());
    assert(sorted(scan.pending) =~= Seq::<Seq<char>>::empty());
    assert(scan.out + sorted(scan.pending) =~= scan.out);
    assert(trimmed(Seq::<char>::empty()) =~= Seq::<char>::empty());
    assert forall|j: int| 0 <= j < pre.len() implies !use_line(#[trigger] pre[j]) by {
        lemma_kind_tells(pre[j]);
    }
}

/// The start of the second reading where the first pass has written a
/// blank line behind the comments of the head: behind that line the
/// machine stands as it does when it starts behind a blank line.
proof fn lemma_start_behind_blank(lines: Seq<Seq<char>>, again: Seq<Seq<char>>, t: int) -> (first:
    int)
    requires
        read_again(lines, again),
        body_start(lines) <= t < content_end_of(lines),
        written_upto(lines, t + 1) > head(lines).len() + 1,
        indented_lines(lines)[head(lines).len() as int].len() == 0,
        forall|j: int| body_start(lines) <= j < t ==> is_blank(#[trigger] lines[j]),
    ensures
        body_start(lines) <= first <= t + 1,
        head(lines).len() + 1 <= written_upto(lines, first),
        replayed(
            lines,
            again,
            head(lines).len() as int + 1,
            initial(Some(LineType::Empty)),
            first,
        ),
{
    let all = indented_lines(lines);
    let k = head(lines).len() as int;
    let init2 = initial(Some(LineType::Empty));
    lemma_content_limit_bounds(lines, lines.len() as int);
    let i1 = lemma_first_writer(lines, t + 1);
    lemma_nothing_written(lines, i1);
    lemma_replay_facts(lines, again, i1);
    lemma_written_upto(lines, i1);
    let m = start_state(lines);
    let nc = const_follows(lines, i1);
    let mc = content_follows(lines, i1);
    let this = step(m, lines[i1], nc, mc);
    assert(all[k + 0] == this.lines[0]) by {
        assert(again[k + 0] == this.lines[0]);
    }
    assert(spaced(m) == init2);
    if is_blank(lines[i1]) {
        lemma_kind_tells(lines[i1]);
        assert(this.lines.len() == 1);
        assert(all.subrange(k + 1, k + 1) =~= Seq::<Seq<char>>::empty());
    } else {
        lemma_replay_gap(
            m,
            lines[i1],
            nc,
            mc,
            mc,
            const_follows(again, k + 1),
            content_follows(again, k + 1),
        );
        assert(again[k + 1] == this.lines[1]);
        assert(all[k + 1] == this.lines[1]) by {
            assert(again[k + 1] == all[k + 1]);
        }
        assert(all.subrange(k + 1, k + 2) =~= seq![this.lines[1]]);
        assert(ran(again, k + 1, k + 1, init2).lines + seq![this.lines[1]] =~= seq![
            this.lines[1],
        ]);
    }
    i1 + 1
}

/// Where the leading lines hold no import and the first line of code is
/// written directly behind the head, or the head is empty, the scan of the
/// written content gives the head again.
proof fn lemma_fixed_behind_comments(lines: Seq<Seq<char>>, q: int)
    requires
        read_again(lines, written_content(lines)),
        lead_without_imports(lines),
        head(lines).len() <= q < written_content(lines).len(),
        q == head(lines).len() || (head(lines).len() == 0 && q == 1),
        is_code(written_content(lines)[q]),
        written_content(lines).take(head(lines).len() as int) == head(lines),
        forall|j: int|
            head(lines).len() <= j < q ==> (#[trigger] written_content(lines)[j]).len() == 0,
        written_upto(lines, body_start(lines)) == head(lines).len(),
    ensures
        formatted_lines(formatted_lines(lines)) == formatted_lines(lines),
{
    let all = indented_lines(lines);
    let hd = head(lines);
    let again = written_content(lines);
    let k = hd.len() as int;
    lemma_head_of_comments(lines);
    lemma_content_limit_bounds(lines, lines.len() as int);
    assert(trimmed(Seq::<char>::empty()) =~= Seq::<char>::empty());
    if q > k {
        assert(again[0].len() == 0);
        assert(again[0] =~= Seq::<char>::empty());
    }
    lemma_scan_of_written_comments(again, k);
    assert(all.subrange(k, k) =~= Seq::<Seq<char>>::empty());
    lemma_formatted_again(lines, again, k, body_start(lines));
}

/// Where the leading lines hold no import and an empty line stands between
/// the comments of the head and the first line of code, the scan of the
/// written content takes that line to the head.
proof fn lemma_fixed_behind_gap(lines: Seq<Seq<char>>, q: int, t: int)
    requires
        read_again(lines, written_content(lines)),
        lead_without_imports(lines),
        head(lines).len() > 0,
        q == head(lines).len() + 1,
        q < written_content(lines).len(),
        is_code(written_content(lines)[q]),
        written_content(lines).take(head(lines).len() as int) == head(lines),
        written_content(lines)[q - 1].len() == 0,
        single_spaced(written_content(lines)),
        written_content(lines).len() <= indented_lines(lines).len(),
        written_content(lines)[q - 1] == indented_lines(lines)[q - 1],
        body_start(lines) <= t < content_end_of(lines),
        t < lines.len(),
        q < written_upto(lines, t + 1),
        forall|j: int| body_start(lines) <= j < t ==> is_blank(#[trigger] lines[j]),
    ensures
        formatted_lines(formatted_lines(lines)) == formatted_lines(lines),
{
    let all = indented_lines(lines);
    let hd = head(lines);
    let again = written_content(lines);
    let k = hd.len() as int;
    lemma_head_of_comments(lines);
    assert(trimmed(Seq::<char>::empty()) =~= Seq::<char>::empty());
    let lead = again.take(k + 1);
    assert(again[k] =~= Seq::<char>::empty());
    assert forall|j: int| 0 <= j < k implies lead[j] == hd[j] by {
        assert(again.take(k)[j] == hd[j]);
    }
    assert(lead =~= hd.push(Seq::<char>::empty()));
    assert(single_spaced(lead)) by {
        assert forall|j: int| 0 < j < lead.len() implies !(is_blank(#[trigger] lead[j])
            && is_blank(lead[j - 1])) by {
            assert(lead[j] == again[j]);
            assert(lead[j - 1] == again[j - 1]);
        }
    }
    assert(lead[0] == hd[0]);
    lemma_scan_of_written_comments(again, k + 1);
    lemma_kind_tells(lead.last());
    assert(start_state(again) == initial(Some(LineType::Empty)));
    assert(all[k] == again[k]);
    let first = lemma_start_behind_blank(lines, again, t);
    lemma_formatted_again(lines, again, k + 1, first);
}

/// The formatted lines of a text whose leading lines hold no import and
/// that holds code stay as they are when they are formatted.
proof fn lemma_fixed_with_comments(lines: Seq<Seq<char>>)
    requires
        settled(lines),
        no_gap_before_const(lines),
        lead_without_imports(lines),
        code_before(lines, lines.len() as int),
    ensures
        formatted_lines(formatted_lines(lines)) == formatted_lines(lines),
{
    let again = written_content(lines);
    let k = head(lines).len() as int;
    let (q, t) = lemma_code_behind_head(lines);
    assert(trimmed(Seq::<char>::empty()) =~= Seq::<char>::empty());
    if q > k + 1 {
        assert(again[k].len() == 0 && again[k + 1].len() == 0);
        assert(is_blank(again[k + 1]) && is_blank(again[k]));
    }
    lemma_content_limit_bounds(lines, lines.len() as int);
    if q == k || k == 0 {
        lemma_fixed_behind_comments(lines, q);
    } else {
        lemma_fixed_behind_gap(lines, q, t);
    }
}

/// The formatted lines of a text that holds no code stay as they are when
/// they are formatted.
proof fn lemma_fixed_without_code(lines: Seq<Seq<char>>)
    requires
        settled(lines),
        plain_lead(lines),
        !code_before(lines, lines.len() as int),
    ensures
        formatted_lines(formatted_lines(lines)) == formatted_lines(lines),
{
    let n = lines.len() as int;
    let all = indented_lines(lines);
    let hd = head(lines);
    let start = body_start(lines);
    lemma_scan_lead(lines, n);
    lemma_settled_single_spaced(lines);
    lemma_ran_over_blank(lines, start, start, n, start_state(lines));
    lemma_content_limit_bounds(all, all.len() as int);
    let limit = content_end_of(all);
    let again = all.take(limit);
    assert(again == formatted_lines(lines));
    assert(trimmed(Seq::<char>::empty()) =~= Seq::<char>::empty());
    assert(limit <= hd.len()) by {
        if limit > hd.len() {
            assert(all[limit - 1] == body(lines, n).lines[limit - 1 - hd.len()]);
            assert(is_blank(all[limit - 1]));
        }
    }
    if limit > 0 {
        assert(again.last() == all[limit - 1]);
    }
    lemma_kept_at_start(all, limit);
    lemma_nothing_to_strip(again);
    assert(again.take(limit) =~= again);
    if lead_without_comments(lines) {
        lemma_head_of_imports(lines);
        let pre = preamble(lines);
        assert(hd == pre) by {
            if start < n {
                assert(is_blank(lines[start]));
            }
        }
        assert forall|k: int| 0 <= k < limit implies is_written_import(#[trigger] again[k]) by {
            assert(again[k] == pre[k]);
        }
        assert(ordered(again)) by {
            assert forall|i: int, j: int| 0 <= i <= j < again.len() implies precedes(
                again[i],
                again[j],
            ) by {
                assert(precedes(pre[i], pre[j]));
            }
        }
        lemma_scan_of_written(again, limit);
        sorted_keeps_ordered(again);
    } else {
        lemma_head_of_comments(lines);
        assert(all_written_comments(again)) by {
            assert forall|k: int| 0 <= k < again.len() implies (#[trigger] again[k]).len() == 0
                || is_written_comment(again[k]) by {
                assert(again[k] == hd[k]);
            }
            if again.len() > 0 {
                assert(again[0] == hd[0]);
            }
        }
        assert(single_spaced(again)) by {
            assert forall|j: int| 0 < j < again.len() implies !(is_blank(#[trigger] again[j])
                && is_blank(again[j - 1])) by {
                assert(again[j] == all[j]);
                assert(again[j - 1] == all[j - 1]);
            }
        }
        lemma_scan_of_written_comments(again, limit);
    }
    assert(head(again) == again);
    assert(again + Seq::<Seq<char>>::empty() =~= again);
    assert(indented_lines(again) == again);
}

/// Formatting twice gives what formatting once gives: the formatted lines
/// of a text stay as they are when they are formatted, where the leading
/// lines of the text do not hold both imports and comments, the normalizer
/// has nothing to drop from what the first pass writes, and the machine has
/// written no blank line between a banner and the declaration of a constant.
pub proof fn formatted_lines_are_fixed(lines: Seq<Seq<char>>)
    requires
        plain_lead(lines),
        settled(lines),
        no_gap_before_const(lines),
    ensures
        formatted_lines(formatted_lines(lines)) == formatted_lines(lines),
{
    if code_before(lines, lines.len() as int) {
        if lead_without_comments(lines) {
            lemma_fixed_with_imports(lines);
        } else {
            lemma_fixed_with_comments(lines);
        }
    } else {
        lemma_fixed_without_code(lines);
    }
}

/// Where the text holds no comment, the first pass writes none, and no two
/// blank lines side by side.
proof fn lemma_written_without_comments(lines: Seq<Seq<char>>)
    requires
        without_comments(lines),
    ensures
        lead_without_comments(lines),
        without_comments(indented_lines(lines)),
        single_spaced(indented_lines(lines)),
{
    let n = lines.len() as int;
    let all = indented_lines(lines);
    let hd = head(lines);
    let pre = preamble(lines);
    let start = body_start(lines);
    lemma_head_of_imports(lines);
    lemma_scan_resume_bounds(lines, n);
    lemma_ran_writes_content(lines, start, n, start_state(lines));
    assert(trimmed(Seq::<char>::empty()) =~= Seq::<char>::empty());
    lemma_comment_is_not_blank(Seq::<char>::empty());
    assert forall|k: int| 0 <= k < hd.len() implies !comment_line(#[trigger] hd[k]) && (k
        < pre.len() ==> !is_blank(hd[k])) by {
        if k < pre.len() {
            assert(is_written_import(pre[k]));
            lemma_kind_tells(pre[k]);
        }
    }
    assert(single_spaced(hd));
    lemma_ran_remembers(lines, start, n, start_state(lines), hd);
    assert forall|k: int| 0 <= k < all.len() implies !comment_line(#[trigger] all[k]) by {
        if k >= hd.len() {
            let written = body(lines, n).lines[k - hd.len()];
            assert(all[k] == written);
            if written.len() > 0 {
                let i = choose|i: int| start <= i < n && written_for(written, lines[i]);
                lemma_kinds_by_content(written, lines[i]);
            } else {
                assert(written =~= Seq::<char>::empty());
            }
        } else {
            assert(all[k] == hd[k]);
        }
    }
}

/// Formatting twice gives what formatting once gives, for every text that
/// holds no comment: its formatted lines stay as they are when they are
/// formatted.
pub proof fn formatted_lines_are_fixed_without_comments(lines: Seq<Seq<char>>)
    requires
        without_comments(lines),
    ensures
        formatted_lines(formatted_lines(lines)) == formatted_lines(lines),
{
    let all = indented_lines(lines);
    lemma_written_without_comments(lines);
    assert forall|p: int| 0 <= p < all.len() implies #[trigger] kept(all, p) by {
        if is_blank(all[p]) && p > 0 {
            assert(!comment_line(all[p - 1]));
        }
    }
    assert forall|p: int| head(lines).len() <= p implies !#[trigger] gap_before_const(all, p) by {
        if 0 < p && p + 1 < all.len() {
            lemma_comment_is_not_blank(all[p - 1]);
            assert(!comment_line(all[p - 1]));
        }
    }
    formatted_lines_are_fixed(lines);
}

/// A single empty line is formatted to no line at all.
proof fn lemma_formatted_empty_line()
    ensures
        formatted_lines(seq![Seq::<char>::empty()]) == Seq::<Seq<char>>::empty(),
        lines_of(seq!['\n']) == seq![Seq::<char>::empty()],
{
    let blank = Seq::<char>::empty();
    let lines = seq![blank];
    assert(trimmed(blank) =~= blank);
    lemma_kind_tells(blank);
    assert(scanned(lines, 0).out.len() == 0);
    assert(scanned(lines, 1) == scanned(lines, 0));
    assert(sorted(Seq::<Seq<char>>::empty()) =~= Seq::<Seq<char>>::empty());
    assert(preamble(lines) =~= Seq::<Seq<char>>::empty());
    assert(body_start(lines) == 0);
    assert(head(lines) =~= Seq::<Seq<char>>::empty());
    let init = start_state(lines);
    assert(init == initial(None));
    let this = step(init, blank, const_follows(lines, 0), content_follows(lines, 0));
    assert(this.lines =~= lines);
    assert(ran(lines, 0, 0, init).lines =~= Seq::<Seq<char>>::empty());
    assert(ran(lines, 0, 1, init).lines =~= lines);
    assert(indented_lines(lines) =~= lines);
    assert(kept(lines, 0));
    assert(normalized_upto(lines, 0) =~= Seq::<Seq<char>>::empty());
    assert(normalized_upto(lines, 1) =~= lines);
    assert(is_blank(lines[0]));
    assert(content_limit(lines, 0) == 0);
    assert(content_limit(lines, 1) == 0);
    assert(lines.take(0) =~= Seq::<Seq<char>>::empty());
    let text = seq!['\n'];
    assert(text.drop_last() =~= Seq::<char>::empty());
    assert(pieces(text.drop_last()) =~= seq![blank]);
    assert(pieces(text) =~= seq![blank, blank]);
    assert(pieces(text).drop_last() =~= seq![blank]);
}

/// Where the formatted lines of a text stay as they are when they are
/// formatted, the formatted text does.
proof fn lemma_formatted_of_fixed(text: Seq<char>)
    requires
        formatted_lines(formatted_lines(lines_of(text))) == formatted_lines(lines_of(text)),
    ensures
        formatted(formatted(text)) == formatted(text),
{
    let lines = lines_of(text);
    let out = formatted_lines(lines);
    lemma_formatted_empty_line();
    if out.len() > 0 {
        lemma_lines_hold_no_line_feed(text);
        lemma_formatted_single_lines(lines);
        lines_of_joined(out);
    }
}

/// Formatting twice gives what formatting once gives: the formatted text
/// stays as it is when it is formatted, where the leading lines of the text
/// do not hold both imports and comments, the normalizer has nothing to
/// drop from what the first pass writes, and the machine has written no
/// blank line between a banner and the declaration of a constant.
pub proof fn formatted_is_fixed(text: Seq<char>)
    requires
        plain_lead(lines_of(text)),
        settled(lines_of(text)),
        no_gap_before_const(lines_of(text)),
    ensures
        formatted(formatted(text)) == formatted(text),
{
    formatted_lines_are_fixed(lines_of(text));
    lemma_formatted_of_fixed(text);
}

/// Formatting twice gives what formatting once gives, for every text that
/// holds no comment.
pub proof fn formatted_is_fixed_without_comments(text: Seq<char>)
    requires
        without_comments(lines_of(text)),
    ensures
        formatted(formatted(text)) == formatted(text),
{
    formatted_lines_are_fixed_without_comments(lines_of(text));
    lemma_formatted_of_fixed(text);
}

/// Behind imports, a blank line at the start of the body is written.
proof fn lemma_blank_behind_imports(lines: Seq<Seq<char>>)
    requires
        0 <= body_start(lines) < lines.len(),
        is_blank(lines[body_start(lines)]),
        last_written(head(lines)) == Some(LineType::Import),
    ensures
        written_upto(lines, body_start(lines) + 1) == head(lines).len() + 1,
        indented_lines(lines).len() > head(lines).len(),
        indented_lines(lines)[head(lines).len() as int] == Seq::<char>::empty(),
{
    let start = body_start(lines);
    lemma_written_upto(lines, start);
    lemma_written_upto(lines, start + 1);
    lemma_kind_tells(lines[start]);
    let this = step(
        start_state(lines),
        lines[start],
        const_follows(lines, start),
        content_follows(lines, start),
    );
    assert(this.lines =~= seq![Seq::<char>::empty()]);
    assert(indented_lines(lines)[written_upto(lines, start) + 0] == this.lines[0]);
}

} // verus!
