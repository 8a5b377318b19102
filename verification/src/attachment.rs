//! Texts that one formatting settles: where each declaration that follows a
//! comment stands directly behind it, the normalizer drops nothing from the
//! lines that the first pass writes.

use crate::blank_lines::{declaration_line, kept, lemma_declaration_is_not_blank, suppressed};
use crate::fixed_point::{
    all_written_comments, formatted_is_fixed, gap_before_const, lead_without_comments,
    lead_without_imports, lemma_head_of_comments, lemma_head_of_imports, lemma_nothing_written,
    lemma_scan_lead, no_gap_before_const, plain_lead, settled,
};
use crate::format::{
    body, formatted, head, indented_lines, lemma_written_upto, lemma_written_upto_grows,
    start_state, written_upto,
};
use crate::imports::{body_start, code_before, preamble, scanned};
use crate::indent::{
    const_follows, content_follows, lemma_ran_remembers, lemma_step_writes_content,
    lemma_step_writes_line, single_spaced, step, written_for,
};
use crate::line::{
    comment_kinds_are_exclusive, comment_line, const_line, lemma_comment_is_not_blank,
    lemma_kind_tells, lemma_kinds_by_content, lemma_kinds_of_content, separator_comment_line,
    stack_comment_line, use_line, LineType,
};
use crate::order::sorted;
use crate::spacing::{lemma_written_at, written_at};
use crate::text::{is_blank, lemma_trimmed_twice, lines_of, trimmed};
use vstd::prelude::*;

verus! {

/// Each declaration that follows a comment across blank lines only stands
/// directly behind the comment, and the comment is no stack comment. Behind
/// a banner it may stand behind blank lines; the declaration of a constant
/// may stand behind one blank line at most.
pub open spec fn attached(lines: Seq<Seq<char>>) -> bool {
    forall|a: int, b: int|
        #![trigger lines[a - 1], lines[b]]
        0 < a <= b < lines.len() && comment_line(lines[a - 1]) && declaration_line(lines[b]) && (
        forall|j: int| a <= j < b ==> is_blank(#[trigger] lines[j])) ==> if separator_comment_line(
            lines[a - 1],
        ) {
            !const_line(lines[b]) || b <= a + 1
        } else {
            a == b && !stack_comment_line(lines[a - 1])
        }
}

/// Where the leading lines hold no import, the scan writes no two blank
/// lines side by side, and what it wrote last is the line that it took
/// last: a comment, or a blank line behind a comment.
pub proof fn lemma_scan_sources(lines: Seq<Seq<char>>, n: int)
    requires
        0 <= n <= lines.len(),
        forall|j: int| 0 <= j < n && use_line(#[trigger] lines[j]) ==> code_before(lines, j),
    ensures
        ({
            let scan = scanned(lines, n);
            &&& scan.pending.len() == 0
            &&& single_spaced(scan.out)
            &&& all_written_comments(scan.out)
            &&& 0 <= scan.resume <= n
            &&& scan.out.len() == 0 ==> scan.resume == 0
            &&& scan.out.len() > 0 && !is_blank(scan.out.last()) ==> scan.resume >= 1
                && scan.out.last() == trimmed(lines[scan.resume - 1]) && comment_line(
                lines[scan.resume - 1],
            )
            &&& scan.out.len() > 0 && is_blank(scan.out.last()) ==> scan.resume >= 2
                && scan.out.len() >= 2 && scan.out[scan.out.len() - 2] == trimmed(
                lines[scan.resume - 2],
            ) && comment_line(lines[scan.resume - 2]) && is_blank(lines[scan.resume - 1])
        }),
    decreases n,
{
    lemma_scan_lead(lines, n);
    if n > 0 {
        lemma_scan_sources(lines, n - 1);
        let before = scanned(lines, n - 1);
        let after = scanned(lines, n);
        let line = lines[n - 1];
        lemma_kind_tells(line);
        lemma_kinds_of_content(line);
        lemma_trimmed_twice(line);
        lemma_comment_is_not_blank(line);
        assert(trimmed(Seq::<char>::empty()) =~= Seq::<char>::empty());
        if !before.stopped && after.out.len() > before.out.len() {
            assert(after.out.drop_last() =~= before.out);
            assert forall|k: int| 0 < k < after.out.len() implies !(is_blank(
                #[trigger] after.out[k],
            ) && is_blank(after.out[k - 1])) by {
                if k < before.out.len() {
                    assert(after.out[k] == before.out[k]);
                    assert(after.out[k - 1] == before.out[k - 1]);
                } else {
                    assert(after.out[k - 1] == before.out.last());
                }
            }
            if is_blank(after.out.last()) {
                assert(after.out[after.out.len() - 2] == before.out.last());
            }
        }
    }
}

/// The line of the body for which the first pass has written line `p`.
pub proof fn lemma_writer(lines: Seq<Seq<char>>, p: int, upto: int) -> (i: int)
    requires
        0 <= body_start(lines) <= upto <= lines.len(),
        head(lines).len() <= p < written_upto(lines, upto),
    ensures
        body_start(lines) <= i < upto,
        written_upto(lines, i) <= p < written_upto(lines, i + 1),
        written_upto(lines, i + 1) <= indented_lines(lines).len(),
        indented_lines(lines)[p].len() == 0 || written_for(indented_lines(lines)[p], lines[i]),
        indented_lines(lines)[p] == step(
            body(lines, i).state,
            lines[i],
            const_follows(lines, i),
            content_follows(lines, i),
        ).lines[p - written_upto(lines, i)],
    decreases upto,
{
    lemma_written_upto(lines, upto - 1);
    lemma_written_upto(lines, upto);
    if p < written_upto(lines, upto - 1) {
        lemma_writer(lines, p, upto - 1)
    } else {
        let i = upto - 1;
        let m = body(lines, i).state;
        let nc = const_follows(lines, i);
        let mc = content_follows(lines, i);
        lemma_step_writes_content(m, lines[i], nc, mc);
        let this = step(m, lines[i], nc, mc);
        assert(indented_lines(lines)[written_upto(lines, i) + (p - written_upto(lines, i))]
            == this.lines[p - written_upto(lines, i)]);
        i
    }
}

/// Between the lines for which the first pass has written the lines before
/// and behind a blank line, the input holds blank lines only.
pub proof fn lemma_blank_between(lines: Seq<Seq<char>>, p: int, first: int, last: int, j: int)
    requires
        0 <= body_start(lines) <= first < j < last < lines.len(),
        0 <= p < indented_lines(lines).len(),
        is_blank(indented_lines(lines)[p]),
        p <= written_upto(lines, first + 1),
        written_upto(lines, last) <= p + 1,
    ensures
        is_blank(lines[j]),
{
    if !is_blank(lines[j]) {
        lemma_written_at(lines, j);
        lemma_written_upto_grows(lines, first + 1, j);
        lemma_written_upto_grows(lines, j + 1, last);
        assert(written_at(lines, j) == p);
    }
}

/// A blank line stands at `p` between a comment and a declaration.
pub open spec fn comment_gap(lines: Seq<Seq<char>>, p: int) -> bool {
    &&& 0 < p
    &&& p + 1 < lines.len()
    &&& is_blank(lines[p])
    &&& comment_line(lines[p - 1])
    &&& declaration_line(lines[p + 1])
}

/// A comment is no declaration, and neither is an import.
pub proof fn lemma_comment_is_no_declaration(line: Seq<char>)
    ensures
        comment_line(line) ==> !declaration_line(line),
        use_line(line) ==> !declaration_line(line),
        is_blank(line) ==> !declaration_line(line),
        const_line(line) ==> declaration_line(line),
        separator_comment_line(line) ==> comment_line(line),
        stack_comment_line(line) ==> comment_line(line) && !separator_comment_line(line),
{
    reveal_strlit("#");
    reveal_strlit("use.");
    reveal_strlit("proc.");
    reveal_strlit("export.");
    reveal_strlit("const.");
    lemma_kinds_of_content(line);
    lemma_kind_tells(line);
    lemma_comment_is_not_blank(line);
    comment_kinds_are_exclusive(line);
    lemma_declaration_is_not_blank(line);
    let t = trimmed(line);
    if declaration_line(line) && t.len() > 0 {
        if "proc."@.is_prefix_of(t) {
            assert(t.subrange(0, 5)[0] == 'p');
        } else if "export."@.is_prefix_of(t) {
            assert(t.subrange(0, 7)[0] == 'e');
        } else {
            assert(t.subrange(0, 6)[0] == 'c');
        }
        crate::line::lemma_prefix_by_content(line, "#"@);
        crate::line::lemma_prefix_by_content(line, "use."@);
        if "#"@.is_prefix_of(t) {
            assert(t.subrange(0, 1)[0] == '#');
        }
        if "use."@.is_prefix_of(t) {
            assert(t.subrange(0, 4)[0] == 'u');
        }
    }
}

/// The machine writes one line for a comment, and remembers it.
pub proof fn lemma_comment_is_written_alone(lines: Seq<Seq<char>>, i: int)
    requires
        0 <= body_start(lines) <= i < lines.len(),
        comment_line(lines[i]),
    ensures
        written_upto(lines, i + 1) == written_upto(lines, i) + 1,
        body(lines, i + 1).state.last_kind matches Some(LineType::Comment(_)),
{
    lemma_written_upto(lines, i);
    lemma_comment_is_no_declaration(lines[i]);
    lemma_kind_tells(lines[i]);
}

/// Behind a comment the machine writes nothing for a blank line that
/// stands before the declaration of a constant.
pub proof fn lemma_blank_is_skipped(lines: Seq<Seq<char>>, i: int)
    requires
        0 <= body_start(lines) <= i,
        i + 1 < lines.len(),
        is_blank(lines[i]),
        body(lines, i).state.last_kind matches Some(LineType::Comment(_)),
        const_line(lines[i + 1]),
    ensures
        written_upto(lines, i + 1) == written_upto(lines, i),
{
    lemma_written_upto(lines, i);
    lemma_kind_tells(lines[i]);
}

/// Where the machine writes a blank line and then the line that it has
/// read, a stack comment stands before the blank line.
pub proof fn lemma_gap_behind_stack_comment(lines: Seq<Seq<char>>, i: int)
    requires
        0 <= body_start(lines) <= i < lines.len(),
        !is_blank(lines[i]),
        written_upto(lines, i) > 0,
        is_blank(indented_lines(lines)[written_upto(lines, i)]),
        single_spaced(head(lines)),
    ensures
        stack_comment_line(indented_lines(lines)[written_upto(lines, i) - 1]),
{
    let all = indented_lines(lines);
    let pos = written_upto(lines, i);
    lemma_written_upto(lines, i);
    let m = body(lines, i).state;
    let nc = const_follows(lines, i);
    let mc = content_follows(lines, i);
    let this = step(m, lines[i], nc, mc);
    lemma_step_writes_line(m, lines[i], nc, mc);
    assert(all[pos + 0] == this.lines[0]);
    assert(this.lines[0].len() == 0);
    lemma_ran_remembers(lines, body_start(lines), i, start_state(lines), head(lines));
    assert(all.take(pos).last() == all[pos - 1]);
    lemma_kind_tells(all[pos - 1]);
}

/// The instance of `attached` for the comment at `a - 1` and the
/// declaration at `b`.
proof fn lemma_attached_at(lines: Seq<Seq<char>>, a: int, b: int)
    requires
        attached(lines),
        0 < a <= b < lines.len(),
        comment_line(lines[a - 1]),
        declaration_line(lines[b]),
        forall|j: int| a <= j < b ==> is_blank(#[trigger] lines[j]),
    ensures
        separator_comment_line(lines[a - 1]) ==> !const_line(lines[b]) || b <= a + 1,
        !separator_comment_line(lines[a - 1]) ==> a == b && !stack_comment_line(lines[a - 1]),
{
    let before = lines[a - 1];
    let behind = lines[b];
}

/// A blank line that the machine has written between a comment and a
/// declaration, both written by the machine: the comment is a banner, and
/// the declaration is not that of a constant.
proof fn lemma_gap_in_body(lines: Seq<Seq<char>>, p: int)
    requires
        attached(lines),
        single_spaced(head(lines)),
        0 <= body_start(lines) <= lines.len(),
        head(lines).len() < p,
        comment_gap(indented_lines(lines), p),
    ensures
        separator_comment_line(indented_lines(lines)[p - 1]),
        !const_line(indented_lines(lines)[p + 1]),
{
    let all = indented_lines(lines);
    let n = lines.len() as int;
    lemma_written_upto(lines, n);
    let ic = lemma_writer(lines, p - 1, n);
    let ib = lemma_writer(lines, p, n);
    let id = lemma_writer(lines, p + 1, n);
    lemma_comment_is_no_declaration(all[p - 1]);
    lemma_comment_is_no_declaration(all[p + 1]);
    lemma_comment_is_no_declaration(all[p]);
    lemma_kinds_by_content(all[p - 1], lines[ic]);
    lemma_kinds_by_content(all[p + 1], lines[id]);
    lemma_comment_is_no_declaration(lines[ic]);
    lemma_comment_is_written_alone(lines, ic);
    if ib < ic {
        lemma_written_upto_grows(lines, ib + 1, ic);
    }
    if id < ib {
        lemma_written_upto_grows(lines, id + 1, ib);
    }
    assert(ic < ib <= id);
    lemma_written_upto_grows(lines, ic + 1, ib);
    assert(written_upto(lines, ic + 1) == p);
    assert forall|j: int| ic + 1 <= j < id implies is_blank(#[trigger] lines[j]) by {
        lemma_written_upto_grows(lines, ib, id);
        lemma_blank_between(lines, p, ic, id, j);
    }
    lemma_attached_at(lines, ic + 1, id);
    if ib == id {
        lemma_written_upto_grows(lines, ic + 1, ib);
        assert(written_upto(lines, ib) == p);
        lemma_gap_behind_stack_comment(lines, ib);
    } else {
        assert(is_blank(lines[ib]));
        if const_line(lines[id]) && ib == ic + 1 && id == ic + 2 {
            lemma_blank_is_skipped(lines, ib);
        }
    }
}

/// The first blank line that the machine has written, behind a comment at
/// the end of the head and before a declaration: the comment is a banner,
/// and the declaration is not that of a constant.
proof fn lemma_gap_behind_head(lines: Seq<Seq<char>>, p: int)
    requires
        attached(lines),
        lead_without_imports(lines),
        single_spaced(head(lines)),
        p == head(lines).len(),
        comment_gap(indented_lines(lines), p),
    ensures
        separator_comment_line(indented_lines(lines)[p - 1]),
        !const_line(indented_lines(lines)[p + 1]),
{
    let all = indented_lines(lines);
    let n = lines.len() as int;
    let start = body_start(lines);
    lemma_head_of_comments(lines);
    lemma_scan_sources(lines, n);
    assert(sorted(Seq::<Seq<char>>::empty()) =~= Seq::<Seq<char>>::empty());
    let scan = scanned(lines, n);
    assert(head(lines) =~= scan.out);
    lemma_written_upto(lines, n);
    lemma_written_upto(lines, start);
    let ib = lemma_writer(lines, p, n);
    let id = lemma_writer(lines, p + 1, n);
    assert(all[p - 1] == head(lines).last());
    lemma_comment_is_no_declaration(all[p - 1]);
    lemma_comment_is_no_declaration(all[p + 1]);
    lemma_comment_is_no_declaration(all[p]);
    lemma_kinds_by_content(all[p - 1], lines[start - 1]);
    lemma_kinds_by_content(all[p + 1], lines[id]);
    lemma_kinds_of_content(lines[start - 1]);
    lemma_trimmed_twice(lines[start - 1]);
    lemma_comment_is_no_declaration(lines[start - 1]);
    if id < ib {
        lemma_written_upto_grows(lines, id + 1, ib);
    }
    lemma_written_upto_grows(lines, start, ib);
    lemma_nothing_written(lines, ib);
    assert forall|j: int| start <= j < id implies is_blank(#[trigger] lines[j]) by {
        if j > ib {
            lemma_written_upto_grows(lines, ib, id);
            lemma_blank_between(lines, p, ib, id, j);
        } else if j == ib {
            if !is_blank(lines[ib]) {
                lemma_written_at(lines, ib);
                lemma_written_upto_grows(lines, ib + 1, id);
            }
        }
    }
    lemma_attached_at(lines, start, id);
    if ib == id {
        lemma_gap_behind_stack_comment(lines, ib);
    } else if const_line(lines[id]) && ib == start && id == start + 1 {
        lemma_kind_tells(all[p - 1]);
        lemma_blank_is_skipped(lines, ib);
    }
}

/// A blank line that the scan has written between a comment and a
/// declaration: the comment is a banner.
proof fn lemma_gap_in_head(lines: Seq<Seq<char>>, p: int)
    requires
        attached(lines),
        plain_lead(lines),
        single_spaced(head(lines)),
        p < head(lines).len(),
        comment_gap(indented_lines(lines), p),
    ensures
        separator_comment_line(indented_lines(lines)[p - 1]),
{
    let all = indented_lines(lines);
    let n = lines.len() as int;
    let start = body_start(lines);
    let hd = head(lines);
    assert(trimmed(Seq::<char>::empty()) =~= Seq::<char>::empty());
    assert(all[p] == hd[p]);
    assert(all[p - 1] == hd[p - 1]);
    lemma_comment_is_no_declaration(all[p - 1]);
    lemma_comment_is_no_declaration(all[p + 1]);
    if lead_without_comments(lines) {
        lemma_head_of_imports(lines);
        let pre = preamble(lines);
        if p - 1 < pre.len() {
            assert(crate::fixed_point::is_written_import(pre[p - 1]));
            lemma_kind_tells(pre[p - 1]);
        }
        if p < pre.len() {
            assert(crate::fixed_point::is_written_import(pre[p]));
            lemma_kind_tells(pre[p]);
        }
    } else {
        lemma_head_of_comments(lines);
        lemma_scan_sources(lines, n);
        assert(sorted(Seq::<Seq<char>>::empty()) =~= Seq::<Seq<char>>::empty());
        let scan = scanned(lines, n);
        assert(hd =~= scan.out);
        if p + 1 < hd.len() {
            assert(all[p + 1] == hd[p + 1]);
            lemma_kind_tells(hd[p + 1]);
        } else {
            lemma_written_upto(lines, n);
            lemma_written_upto(lines, start);
            let id = lemma_writer(lines, p + 1, n);
            lemma_written_upto_grows(lines, start, id);
            lemma_nothing_written(lines, id);
            lemma_kinds_by_content(all[p + 1], lines[id]);
            lemma_kinds_by_content(all[p - 1], lines[start - 2]);
            lemma_kinds_of_content(lines[start - 2]);
            lemma_trimmed_twice(lines[start - 2]);
            assert forall|j: int| start - 1 <= j < id implies is_blank(#[trigger] lines[j]) by {}
            lemma_attached_at(lines, start - 1, id);
        }
    }
}

/// Where each declaration that follows a comment is attached to it, the
/// normalizer drops none of the lines that the first pass writes, and the
/// machine writes no blank line between a banner and the declaration of a
/// constant.
pub proof fn lemma_attached_is_settled(lines: Seq<Seq<char>>)
    requires
        plain_lead(lines),
        attached(lines),
    ensures
        settled(lines),
        no_gap_before_const(lines),
{
    let all = indented_lines(lines);
    let n = lines.len() as int;
    let hd = head(lines);
    assert(trimmed(Seq::<char>::empty()) =~= Seq::<char>::empty());
    assert(single_spaced(hd)) by {
        if lead_without_comments(lines) {
            lemma_head_of_imports(lines);
            let pre = preamble(lines);
            assert forall|k: int| 0 < k < hd.len() implies !(is_blank(#[trigger] hd[k])
                && is_blank(hd[k - 1])) by {
                assert(crate::fixed_point::is_written_import(pre[k - 1]));
                lemma_kind_tells(pre[k - 1]);
            }
        } else {
            lemma_head_of_comments(lines);
            lemma_scan_sources(lines, n);
            assert(sorted(Seq::<Seq<char>>::empty()) =~= Seq::<Seq<char>>::empty());
            assert(hd =~= scanned(lines, n).out);
        }
    }
    crate::imports::lemma_scan_resume_bounds(lines, n);
    lemma_ran_remembers(lines, body_start(lines), n, start_state(lines), hd);
    assert forall|p: int| 0 <= p < all.len() && comment_gap(all, p) implies separator_comment_line(
        all[p - 1],
    ) && (hd.len() <= p ==> !const_line(all[p + 1])) by {
        if p < hd.len() {
            lemma_gap_in_head(lines, p);
        } else if p == hd.len() {
            assert(all[p - 1] == hd[p - 1]);
            if lead_without_comments(lines) {
                lemma_head_of_imports(lines);
                let pre = preamble(lines);
                if hd.len() == pre.len() {
                    assert(crate::fixed_point::is_written_import(pre[p - 1]));
                }
                lemma_kind_tells(hd[p - 1]);
                lemma_comment_is_no_declaration(hd[p - 1]);
            } else {
                lemma_gap_behind_head(lines, p);
            }
        } else {
            lemma_gap_in_body(lines, p);
        }
    }
    assert forall|p: int| 0 <= p < all.len() implies #[trigger] kept(all, p) by {
        if suppressed(all, p) && is_blank(all[p]) {
            assert(comment_gap(all, p));
        }
    }
    assert forall|p: int| hd.len() <= p implies !#[trigger] gap_before_const(all, p) by {
        if gap_before_const(all, p) {
            lemma_comment_is_no_declaration(all[p - 1]);
            lemma_comment_is_no_declaration(all[p + 1]);
            assert(comment_gap(all, p));
        }
    }
}

/// Formatting twice gives what formatting once gives, for every text whose
/// leading lines do not hold both imports and comments and in which each
/// declaration that follows a comment is attached to the comment.
pub proof fn formatted_is_fixed_where_attached(text: Seq<char>)
    requires
        plain_lead(lines_of(text)),
        attached(lines_of(text)),
    ensures
        formatted(formatted(text)) == formatted(text),
{
    lemma_attached_is_settled(lines_of(text));
    formatted_is_fixed(text);
}

} // verus!
