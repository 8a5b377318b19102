//! The import block extractor: the leading run of imports, comments and
//! blank lines of a file, with each group of imports sorted.

use crate::line::{classified, is_code, line_type_of, use_line, LineType};
use crate::order::{lemma_sorted_holds, sort_lines, sorted};
use crate::text::{
    lemma_trimmed_ends, lemma_written_holds_no_line_feed, neat, single_lines, trim, trimmed, views,
};
use vstd::prelude::*;

verus! {

/// Where the scan of the leading lines stands.
pub struct ImportScan {
    /// The lines written so far.
    pub out: Seq<Seq<char>>,
    /// The imports read since the last comment, not yet written.
    pub pending: Seq<Seq<char>>,
    /// The index behind the last line that was taken.
    pub resume: int,
    /// The scan has met a line that is no import, comment or blank line.
    pub stopped: bool,
}

/// `out` with the pending imports, sorted, at its end.
pub open spec fn flushed(out: Seq<Seq<char>>, pending: Seq<Seq<char>>) -> Seq<Seq<char>> {
    out + sorted(pending)
}

/// The scan after it has read `line`, the line at index `i`.
pub open spec fn scan_line(scan: ImportScan, line: Seq<char>, i: int) -> ImportScan {
    if scan.stopped {
        scan
    } else {
        match classified(line) {
            LineType::Import => ImportScan {
                pending: scan.pending.push(trimmed(line)),
                resume: i + 1,
                ..scan
            },
            LineType::Comment(_) => ImportScan {
                out: if scan.pending.len() > 0 {
                    flushed(scan.out, scan.pending).push(Seq::empty()).push(trimmed(line))
                } else {
                    scan.out.push(trimmed(line))
                },
                pending: Seq::empty(),
                resume: i + 1,
                ..scan
            },
            LineType::Empty => if scan.out.len() > 0 && scan.out.last().len() > 0 {
                ImportScan { out: scan.out.push(Seq::empty()), resume: i + 1, ..scan }
            } else {
                scan
            },
            _ => ImportScan { stopped: true, ..scan },
        }
    }
}

/// The scan after the first `n` lines.
pub open spec fn scanned(lines: Seq<Seq<char>>, n: int) -> ImportScan
    decreases n,
{
    if n <= 0 {
        ImportScan { out: Seq::empty(), pending: Seq::empty(), resume: 0, stopped: false }
    } else {
        scan_line(scanned(lines, n - 1), lines[n - 1], n - 1)
    }
}

/// The preamble of a file: the lines that the scan has written, followed by
/// the imports still pending, sorted.
pub open spec fn preamble(lines: Seq<Seq<char>>) -> Seq<Seq<char>> {
    let scan = scanned(lines, lines.len() as int);
    flushed(scan.out, scan.pending)
}

/// The index of the first line that the preamble has not taken.
pub open spec fn body_start(lines: Seq<Seq<char>>) -> int {
    scanned(lines, lines.len() as int).resume
}

/// A line of code stands before line `j`.
pub open spec fn code_before(lines: Seq<Seq<char>>, j: int) -> bool {
    exists|t: int| 0 <= t < j && t < lines.len() && is_code(#[trigger] lines[t])
}

/// Whether an import stands among `lines`.
pub open spec fn holds_import(lines: Seq<Seq<char>>) -> bool {
    exists|k: int| 0 <= k < lines.len() && use_line(#[trigger] lines[k])
}

/// Once the scan has stopped, it takes no further line.
pub proof fn lemma_scan_stays_stopped(lines: Seq<Seq<char>>, m: int, n: int)
    requires
        0 <= m <= n,
        scanned(lines, m).stopped,
    ensures
        scanned(lines, n) == scanned(lines, m),
    decreases n - m,
{
    if m < n {
        lemma_scan_stays_stopped(lines, m, n - 1);
    }
}

/// The body starts within the lines that the scan has read.
pub proof fn lemma_scan_resume_bounds(lines: Seq<Seq<char>>, n: int)
    requires
        0 <= n,
    ensures
        0 <= scanned(lines, n).resume <= n,
    decreases n,
{
    if n > 0 {
        lemma_scan_resume_bounds(lines, n - 1);
    }
}

/// Every line that the scan holds is a line of the input, trimmed, or is
/// empty: none ends in whitespace.
pub proof fn lemma_scanned_neat(lines: Seq<Seq<char>>, n: int)
    requires
        0 <= n <= lines.len(),
    ensures
        forall|k: int| 0 <= k < scanned(lines, n).out.len() ==> neat(#[trigger] scanned(lines, n).out[k]),
        forall|k: int|
            0 <= k < scanned(lines, n).pending.len() ==> neat(
                #[trigger] scanned(lines, n).pending[k],
            ),
    decreases n,
{
    if n > 0 {
        lemma_scanned_neat(lines, n - 1);
        let before = scanned(lines, n - 1);
        let after = scanned(lines, n);
        lemma_trimmed_ends(lines[n - 1]);
        assert forall|k: int| 0 <= k < after.out.len() implies neat(#[trigger] after.out[k]) by {
            if k >= before.out.len() && k < before.out.len() + sorted(before.pending).len() {
                let j = k - before.out.len();
                lemma_sorted_holds(before.pending, j);
            }
        }
    }
}

/// No line of the preamble ends in whitespace.
pub proof fn lemma_preamble_neat(lines: Seq<Seq<char>>)
    ensures
        forall|k: int| 0 <= k < preamble(lines).len() ==> neat(#[trigger] preamble(lines)[k]),
{
    let scan = scanned(lines, lines.len() as int);
    lemma_scanned_neat(lines, lines.len() as int);
    assert forall|k: int| 0 <= k < preamble(lines).len() implies neat(
        #[trigger] preamble(lines)[k],
    ) by {
        if k >= scan.out.len() {
            lemma_sorted_holds(scan.pending, k - scan.out.len());
        }
    }
}

/// Where no line of the input holds a line feed, no line of the preamble
/// holds one.
pub proof fn lemma_preamble_single_lines(lines: Seq<Seq<char>>, n: int)
    requires
        0 <= n <= lines.len(),
        single_lines(lines),
    ensures
        single_lines(scanned(lines, n).out),
        single_lines(scanned(lines, n).pending),
        single_lines(flushed(scanned(lines, n).out, scanned(lines, n).pending)),
    decreases n,
{
    if n > 0 {
        lemma_preamble_single_lines(lines, n - 1);
        let before = scanned(lines, n - 1);
        let after = scanned(lines, n);
        lemma_written_holds_no_line_feed(0, lines[n - 1]);
        assert forall|k: int| 0 <= k < after.out.len() implies !(#[trigger] after.out[k]).contains(
            '\n',
        ) by {
            let all = flushed(before.out, before.pending);
            if k < all.len() && after.out[k] == all[k] {
                assert(!all[k].contains('\n'));
            }
        }
        assert forall|k: int| 0 <= k < after.pending.len() implies !(
        #[trigger] after.pending[k]).contains('\n') by {
            if k < before.pending.len() {
                assert(after.pending[k] == before.pending[k]);
            }
        }
    }
    let scan = scanned(lines, n);
    let all = flushed(scan.out, scan.pending);
    assert forall|k: int| 0 <= k < all.len() implies !(#[trigger] all[k]).contains('\n') by {
        if k >= scan.out.len() {
            lemma_sorted_holds(scan.pending, k - scan.out.len());
            let j = choose|j: int|
                0 <= j < scan.pending.len() && scan.pending[j] == sorted(scan.pending)[k
                    - scan.out.len()];
            assert(!scan.pending[j].contains('\n'));
        } else {
            assert(all[k] == scan.out[k]);
        }
    }
}

/// The body starts at or before the first line that is no import, no
/// comment and not blank.
pub proof fn lemma_body_starts_before(lines: Seq<Seq<char>>, i: int)
    requires
        0 <= i < lines.len(),
        classified(lines[i]) != LineType::Import,
        classified(lines[i]) != LineType::Empty,
        !(classified(lines[i]) is Comment),
    ensures
        0 <= body_start(lines) <= i,
{
    lemma_scan_resume_bounds(lines, i);
    lemma_scan_resume_bounds(lines, i + 1);
    assert(scanned(lines, i + 1).stopped);
    assert(scanned(lines, i + 1).resume == scanned(lines, i).resume);
    lemma_scan_stays_stopped(lines, i + 1, lines.len() as int);
}

/// Moves `lines` to the end of `out`.
fn append_lines(out: &mut Vec<Vec<char>>, lines: Vec<Vec<char>>)
    ensures
        views(final(out)@) == views(old(out)@) + views(lines@),
{
    let mut lines = lines;
    let ghost before = views(out@);
    let ghost added = views(lines@);
    out.append(&mut lines);
    assert(views(out@) =~= before + added);
}

/// Reads the leading lines of a file. Returns the preamble and the index at
/// which the body starts.
pub fn process_import_section(lines: &Vec<Vec<char>>) -> (r: (Vec<Vec<char>>, usize))
    ensures
        views(r.0@) == preamble(views(lines@)),
        r.1 == body_start(views(lines@)),
        r.1 <= lines.len(),
{
    let ghost all = views(lines@);
    let mut out: Vec<Vec<char>> = Vec::new();
    let mut pending: Vec<Vec<char>> = Vec::new();
    let mut resume: usize = 0;
    let mut i: usize = 0;
    let mut stopped = false;
    assert(views(out@) =~= Seq::<Seq<char>>::empty());
    assert(views(pending@) =~= Seq::<Seq<char>>::empty());
    while i < lines.len() && !stopped
        invariant
            i <= lines.len(),
            resume <= i,
            all == views(lines@),
            scanned(all, i as int) == (ImportScan {
                out: views(out@),
                pending: views(pending@),
                resume: resume as int,
                stopped,
            }),
        decreases lines.len() - i,
    {
        let ghost before = scanned(all, i as int);
        assert(all[i as int] == lines@[i as int]@);
        let content = trim(&lines[i]);
        match line_type_of(&content) {
            LineType::Import => {
                pending.push(content);
                resume = i + 1;
                assert(views(pending@) =~= before.pending.push(content@));
            },
            LineType::Comment(_) => {
                if pending.len() > 0 {
                    let group = sort_lines(&pending);
                    append_lines(&mut out, group);
                    out.push(Vec::new());
                    out.push(content);
                    assert(views(out@) =~= flushed(before.out, before.pending).push(
                        Seq::empty(),
                    ).push(content@));
                } else {
                    out.push(content);
                    assert(views(out@) =~= before.out.push(content@));
                }
                pending = Vec::new();
                assert(views(pending@) =~= Seq::<Seq<char>>::empty());
                resume = i + 1;
            },
            LineType::Empty => {
                assert(out.len() > 0 ==> before.out.last() == out@[out.len() - 1]@);
                if out.len() > 0 && out[out.len() - 1].len() > 0 {
                    out.push(Vec::new());
                    resume = i + 1;
                    assert(views(out@) =~= before.out.push(Seq::empty()));
                }
            },
            _ => {
                stopped = true;
            },
        }
        i += 1;
    }
    proof {
        if stopped {
            lemma_scan_stays_stopped(all, i as int, all.len() as int);
        }
    }
    let group = sort_lines(&pending);
    append_lines(&mut out, group);
    (out, resume)
}

/// Whether an import stands among `lines`.
pub fn has_import(lines: &Vec<Vec<char>>) -> (b: bool)
    ensures
        b == holds_import(views(lines@)),
{
    let mut i: usize = 0;
    while i < lines.len()
        invariant
            i <= lines.len(),
            forall|k: int| 0 <= k < i ==> !use_line(#[trigger] views(lines@)[k]),
        decreases lines.len() - i,
    {
        if crate::line::is_use_statement(&lines[i]) {
            assert(use_line(views(lines@)[i as int]));
            return true;
        }
        i += 1;
    }
    false
}

} // verus!
