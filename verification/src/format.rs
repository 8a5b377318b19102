//! The formatter: text in, canonical text out.

use crate::blank_lines::{
    lemma_kept_is_held, lemma_normalized_holds, normalize, normalized, normalized_has_no_blank_run,
    strip_trailing_blanks, without_trailing_blanks,
};
use crate::imports::{
    body_start, has_import, holds_import, lemma_body_starts_before, lemma_preamble_neat,
    lemma_preamble_single_lines, lemma_scan_resume_bounds, preamble, process_import_section,
};
use crate::indent::{
    const_follows, content_follows, indent_body, initial, last_written, lemma_ran_holds_step,
    lemma_ran_neat, lemma_ran_prefix, lemma_ran_single_lines, ran, single_export_is_flush_left,
    step, IndentState, Machine, Step,
};
use crate::line::{classified, classify_line, LineType};
use crate::text::{
    chars_of, is_blank, is_whitespace, join_lines, joined, lemma_content_limit_bounds,
    lemma_trimmed_blank, line_is_blank, lines_of, neat, push_line, single_lines, split_lines,
    string_of, trimmed, views,
};
use vstd::prelude::*;

verus! {

/// The preamble, with the blank line that parts it from the body: that line
/// is due where the preamble holds an import and the body starts with a line
/// that is not blank.
pub open spec fn head(lines: Seq<Seq<char>>) -> Seq<Seq<char>> {
    let start = body_start(lines);
    if holds_import(preamble(lines)) && 0 <= start < lines.len() && !is_blank(lines[start]) {
        preamble(lines).push(Seq::empty())
    } else {
        preamble(lines)
    }
}

/// The state in which the machine starts on the body of `lines`.
pub open spec fn start_state(lines: Seq<Seq<char>>) -> Machine {
    initial(last_written(head(lines)))
}

/// The machine after the body of `lines` up to line `i`.
pub open spec fn body(lines: Seq<Seq<char>>, i: int) -> Step {
    ran(lines, body_start(lines), i, start_state(lines))
}

/// The lines as the first pass writes them: the preamble with its imports
/// sorted, then the body with its indentation.
pub open spec fn indented_lines(lines: Seq<Seq<char>>) -> Seq<Seq<char>> {
    head(lines) + body(lines, lines.len() as int).lines
}

/// The lines of the formatted text.
pub open spec fn formatted_lines(lines: Seq<Seq<char>>) -> Seq<Seq<char>> {
    without_trailing_blanks(normalized(indented_lines(lines)))
}

/// The formatted text: its lines, each ended by a line feed; a single line
/// feed where there is no line.
pub open spec fn formatted(text: Seq<char>) -> Seq<char> {
    let lines = formatted_lines(lines_of(text));
    if lines.len() == 0 {
        seq!['\n']
    } else {
        joined(lines)
    }
}

/// The number of lines that the first pass has written when it has read
/// the lines up to line `i`.
pub open spec fn written_upto(lines: Seq<Seq<char>>, i: int) -> int {
    (head(lines).len() + body(lines, i).lines.len()) as int
}

/// The first pass writes line by line: what it has written up to line `i`
/// stands at the start of all that it writes, and the lines written for a
/// line of the body stand behind it.
pub proof fn lemma_written_upto(lines: Seq<Seq<char>>, i: int)
    requires
        0 <= body_start(lines) <= i <= lines.len(),
    ensures
        head(lines).len() <= written_upto(lines, i) <= indented_lines(lines).len(),
        indented_lines(lines).take(written_upto(lines, i)) == head(lines) + body(lines, i).lines,
        written_upto(lines, lines.len() as int) == indented_lines(lines).len(),
        i < lines.len() ==> ({
            let this = step(
                body(lines, i).state,
                lines[i],
                const_follows(lines, i),
                content_follows(lines, i),
            );
            &&& written_upto(lines, i + 1) == written_upto(lines, i) + this.lines.len()
            &&& body(lines, i + 1).state == this.state
            &&& forall|k: int|
                0 <= k < this.lines.len() ==> indented_lines(lines)[written_upto(lines, i) + k]
                    == #[trigger] this.lines[k]
        }),
{
    let start = body_start(lines);
    let n = lines.len() as int;
    let init = start_state(lines);
    lemma_ran_prefix(lines, start, i, n, init);
    let all = indented_lines(lines);
    let part = body(lines, i).lines;
    assert(all.take(written_upto(lines, i)) =~= head(lines) + part) by {
        assert(body(lines, n).lines.take(part.len() as int) == part);
        assert forall|k: int| 0 <= k < written_upto(lines, i) implies all[k] == (head(lines)
            + part)[k] by {
            if k >= head(lines).len() {
                assert(body(lines, n).lines.take(part.len() as int)[k - head(lines).len()]
                    == part[k - head(lines).len()]);
            }
        }
    }
    if i < n {
        lemma_ran_holds_step(lines, start, n, init, i);
        let this = step(
            body(lines, i).state,
            lines[i],
            const_follows(lines, i),
            content_follows(lines, i),
        );
        let whole = body(lines, n).lines;
        assert forall|k: int| 0 <= k < this.lines.len() implies all[written_upto(lines, i) + k]
            == #[trigger] this.lines[k] by {
            assert(whole.subrange(part.len() as int, (part.len() + this.lines.len()) as int)[k]
                == this.lines[k]);
        }
    }
}

/// What the first pass has written grows with the lines that it has read.
pub proof fn lemma_written_upto_grows(lines: Seq<Seq<char>>, i: int, j: int)
    requires
        0 <= body_start(lines) <= i <= j <= lines.len(),
    ensures
        written_upto(lines, i) <= written_upto(lines, j),
{
    lemma_ran_prefix(lines, body_start(lines), i, j, start_state(lines));
}

/// No line that the first pass writes ends in whitespace.
pub proof fn lemma_indented_lines_neat(lines: Seq<Seq<char>>)
    ensures
        forall|k: int|
            0 <= k < indented_lines(lines).len() ==> neat(#[trigger] indented_lines(lines)[k]),
{
    lemma_preamble_neat(lines);
    lemma_scan_resume_bounds(lines, lines.len() as int);
    lemma_ran_neat(lines, body_start(lines), lines.len() as int, start_state(lines));
}

/// No line of the formatted text ends in whitespace, the last line is not
/// blank, and no two blank lines stand side by side.
pub proof fn formatted_lines_are_tidy(lines: Seq<Seq<char>>)
    ensures
        forall|k: int|
            0 <= k < formatted_lines(lines).len() ==> neat(#[trigger] formatted_lines(lines)[k]),
        formatted_lines(lines).len() > 0 ==> !is_blank(formatted_lines(lines).last()),
        forall|k: int|
            0 < k < formatted_lines(lines).len() ==> !(is_blank(
                #[trigger] formatted_lines(lines)[k],
            ) && is_blank(formatted_lines(lines)[k - 1])),
{
    let first = indented_lines(lines);
    let kept = normalized(first);
    let out = formatted_lines(lines);
    lemma_indented_lines_neat(lines);
    lemma_content_limit_bounds(kept, kept.len() as int);
    normalized_has_no_blank_run(first, first.len() as int);
    assert forall|k: int| 0 <= k < out.len() implies neat(#[trigger] out[k]) by {
        lemma_normalized_holds(first, first.len() as int, k);
    }
    assert forall|k: int| 0 < k < out.len() implies !(is_blank(#[trigger] out[k]) && is_blank(
        out[k - 1],
    )) by {
        assert(out[k] == kept[k]);
    }
}

/// Where no line of the input holds a line feed, no formatted line holds
/// one.
pub proof fn lemma_formatted_single_lines(lines: Seq<Seq<char>>)
    requires
        single_lines(lines),
    ensures
        single_lines(formatted_lines(lines)),
{
    let n = lines.len() as int;
    let first = indented_lines(lines);
    let kept = normalized(first);
    let out = formatted_lines(lines);
    lemma_preamble_single_lines(lines, n);
    lemma_scan_resume_bounds(lines, n);
    lemma_ran_single_lines(lines, body_start(lines), n, start_state(lines));
    let body = body(lines, n).lines;
    assert forall|k: int| 0 <= k < first.len() implies !(#[trigger] first[k]).contains('\n') by {
        if k < preamble(lines).len() {
            assert(first[k] == preamble(lines)[k]);
        } else if k < head(lines).len() {
            assert(first[k] == Seq::<char>::empty());
        } else {
            assert(first[k] == body[k - head(lines).len()]);
        }
    }
    lemma_content_limit_bounds(kept, kept.len() as int);
    assert forall|k: int| 0 <= k < out.len() implies !(#[trigger] out[k]).contains('\n') by {
        lemma_normalized_holds(first, first.len() as int, k);
        let i = choose|i: int| 0 <= i < first.len() && first[i] == kept[k];
        assert(!first[i].contains('\n'));
    }
}

/// The formatted text ends with a line feed, and what stands before that
/// line feed, if anything does, is no whitespace: the text ends with exactly
/// one line feed and with no blank line.
pub proof fn formatted_ends_with_one_newline(text: Seq<char>)
    ensures
        formatted(text).len() > 0,
        formatted(text).last() == '\n',
        formatted(text).len() > 1 ==> !is_whitespace(formatted(text)[formatted(text).len() - 2]),
{
    let lines = formatted_lines(lines_of(text));
    formatted_lines_are_tidy(lines_of(text));
    if lines.len() > 0 {
        let last = lines.last();
        assert(last.len() > 0) by {
            if last.len() == 0 {
                assert(trimmed(last) =~= Seq::<char>::empty());
            }
        }
        let out = joined(lines);
        assert(out == joined(lines.drop_last()) + last.push('\n'));
        assert(out[out.len() - 2] == last.last());
    }
}

/// Every single-line export of the input stands in the formatted text as
/// it is, trimmed, with no indentation, whatever surrounds it.
pub proof fn single_export_stands_flush_left(lines: Seq<Seq<char>>, i: int)
    requires
        0 <= i < lines.len(),
        classified(lines[i]) == LineType::SingleExport,
    ensures
        exists|k: int|
            0 <= k < formatted_lines(lines).len() && formatted_lines(lines)[k] == trimmed(
                lines[i],
            ),
{
    let start = body_start(lines);
    let init = start_state(lines);
    let line = trimmed(lines[i]);
    lemma_body_starts_before(lines, i);
    lemma_ran_holds_step(lines, start, lines.len() as int, init, i);
    let before = ran(lines, start, i, init);
    single_export_is_flush_left(
        before.state,
        lines[i],
        const_follows(lines, i),
        content_follows(lines, i),
    );
    let body = ran(lines, start, lines.len() as int, init).lines;
    let first = indented_lines(lines);
    let at = (head(lines).len() + before.lines.len()) as int;
    assert(body.subrange(before.lines.len() as int, before.lines.len() as int + 1)[0] == line);
    assert(first[at] == line);
    lemma_trimmed_blank(lines[i]);
    lemma_kept_is_held(first, first.len() as int, at);
    let kept = normalized(first);
    let k = choose|k: int| 0 <= k < kept.len() && kept[k] == line;
    lemma_content_limit_bounds(kept, kept.len() as int);
    assert(formatted_lines(lines)[k] == line);
}

/// Formats the lines of a file.
pub fn format_lines(lines: &Vec<Vec<char>>) -> (out: Vec<Vec<char>>)
    ensures
        views(out@) == formatted_lines(views(lines@)),
{
    let ghost all = views(lines@);
    let (mut out, start) = process_import_section(lines);
    if start < lines.len() {
        assert(all[start as int] == lines@[start as int]@);
        if !line_is_blank(&lines[start]) && has_import(&out) {
            push_line(&mut out, Vec::new());
        }
    }
    assert(views(out@) == head(all));
    let last_kind = if out.len() == 0 {
        None
    } else {
        assert(views(out@).last() == out@[out.len() - 1]@);
        Some(classify_line(&out[out.len() - 1]))
    };
    let mut state = IndentState::new(last_kind);
    indent_body(lines, start, &mut state, &mut out);
    let mut out = normalize(&out);
    strip_trailing_blanks(&mut out);
    out
}

/// Formats the text of a file.
pub fn format_chars(text: &Vec<char>) -> (out: Vec<char>)
    ensures
        out@ == formatted(text@),
{
    let lines = split_lines(text);
    let lines = format_lines(&lines);
    if lines.len() == 0 {
        let mut out: Vec<char> = Vec::new();
        out.push('\n');
        assert(out@ =~= seq!['\n']);
        out
    } else {
        join_lines(&lines)
    }
}

/// Formats source code: indentation by block nesting, imports sorted, blank
/// lines normalised.
pub fn format_code(code: &str) -> (out: String)
    ensures
        out@ == formatted(code@),
        out@.len() > 0,
        out@.last() == '\n',
        out@.len() > 1 ==> !is_whitespace(out@[out@.len() - 2]),
{
    proof {
        formatted_ends_with_one_newline(code@);
    }
    let text = chars_of(code);
    let out = format_chars(&text);
    string_of(&out)
}

} // verus!
