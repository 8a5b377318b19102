//! The order of lines: by characters, the shorter of two first where one
//! starts the other.

use crate::text::{copy_line, views};
use vstd::prelude::*;

verus! {

/// Whether `a` from index `i` on comes before `b` from index `i` on, or is
/// equal to it, given that the two agree before `i`.
pub open spec fn precedes_from(a: Seq<char>, b: Seq<char>, i: int) -> bool
    decreases a.len() - i,
{
    if i < 0 || i >= a.len() {
        true
    } else if i >= b.len() {
        false
    } else if a[i] != b[i] {
        a[i] < b[i]
    } else {
        precedes_from(a, b, i + 1)
    }
}

/// `a` is lexicographically at most `b`.
pub open spec fn precedes(a: Seq<char>, b: Seq<char>) -> bool {
    precedes_from(a, b, 0)
}

/// No line comes before one that stands earlier.
pub open spec fn ordered(lines: Seq<Seq<char>>) -> bool {
    forall|i: int, j: int| 0 <= i <= j < lines.len() ==> precedes(lines[i], lines[j])
}

/// `line` put into `lines` behind the last line that is at most `line`.
pub open spec fn inserted(lines: Seq<Seq<char>>, line: Seq<char>) -> Seq<Seq<char>>
    decreases lines.len(),
{
    if lines.len() == 0 {
        seq![line]
    } else if precedes(lines.last(), line) {
        lines.push(line)
    } else {
        inserted(lines.drop_last(), line).push(lines.last())
    }
}

/// The lines in lexicographic order, each as often as it occurs.
pub open spec fn sorted(lines: Seq<Seq<char>>) -> Seq<Seq<char>>
    decreases lines.len(),
{
    if lines.len() == 0 {
        lines
    } else {
        inserted(sorted(lines.drop_last()), lines.last())
    }
}

/// Any two lines can be put in order.
pub proof fn lemma_precedes_total(a: Seq<char>, b: Seq<char>, i: int)
    requires
        0 <= i,
    ensures
        precedes_from(a, b, i) || precedes_from(b, a, i),
    decreases a.len() - i,
{
    if i < a.len() && i < b.len() && a[i] == b[i] {
        lemma_precedes_total(a, b, i + 1);
    }
}

/// What comes before a line that comes before a third comes before the
/// third.
pub proof fn lemma_precedes_transitive(a: Seq<char>, b: Seq<char>, c: Seq<char>, i: int)
    requires
        0 <= i,
        precedes_from(a, b, i),
        precedes_from(b, c, i),
    ensures
        precedes_from(a, c, i),
    decreases a.len() - i,
{
    if i < a.len() && a[i] == b[i] && b[i] == c[i] {
        lemma_precedes_transitive(a, b, c, i + 1);
    }
}

/// Two lines that agree up to `i` and of which each comes before the other
/// from there on are one line.
pub proof fn lemma_precedes_antisymmetric(a: Seq<char>, b: Seq<char>, i: int)
    requires
        0 <= i <= a.len(),
        i <= b.len(),
        a.take(i) == b.take(i),
        precedes_from(a, b, i),
        precedes_from(b, a, i),
    ensures
        a == b,
    decreases a.len() - i,
{
    if i < a.len() {
        assert(a.take(i + 1) =~= a.take(i).push(a[i]));
        assert(b.take(i + 1) =~= b.take(i).push(b[i]));
        lemma_precedes_antisymmetric(a, b, i + 1);
    } else {
        assert(a.take(i) =~= a);
        assert(b.take(i) =~= b);
    }
}

/// The order of lines is a total order: any two lines can be compared, a
/// line is at most itself, two lines of which each is at most the other are
/// equal, and what is at most a line that is at most a third is at most the
/// third.
pub proof fn precedes_is_total_order(a: Seq<char>, b: Seq<char>, c: Seq<char>)
    ensures
        precedes(a, b) || precedes(b, a),
        precedes(a, a),
        precedes(a, b) && precedes(b, a) ==> a == b,
        precedes(a, b) && precedes(b, c) ==> precedes(a, c),
{
    lemma_precedes_total(a, b, 0);
    lemma_precedes_total(a, a, 0);
    if precedes(a, b) && precedes(b, a) {
        assert(a.take(0) =~= b.take(0));
        lemma_precedes_antisymmetric(a, b, 0);
    }
    if precedes(a, b) && precedes(b, c) {
        lemma_precedes_transitive(a, b, c, 0);
    }
}

/// `inserted` adds the line and keeps what was there: the result holds each
/// line as often as `lines` does, and `line` once more.
pub proof fn lemma_inserted_is_permutation(lines: Seq<Seq<char>>, line: Seq<char>)
    ensures
        inserted(lines, line).to_multiset() == lines.to_multiset().insert(line),
        inserted(lines, line).len() == lines.len() + 1,
    decreases lines.len(),
{
    broadcast use vstd::seq_lib::group_to_multiset_ensures;

    if lines.len() == 0 {
        assert(lines =~= Seq::empty());
        assert(inserted(lines, line) =~= Seq::<Seq<char>>::empty().push(line));
    } else if precedes(lines.last(), line) {
    } else {
        lemma_inserted_is_permutation(lines.drop_last(), line);
        assert(lines =~= lines.drop_last().push(lines.last()));
        assert(inserted(lines, line).to_multiset() =~= lines.to_multiset().insert(line));
    }
}

/// `inserted` keeps an ordered sequence ordered.
pub proof fn lemma_inserted_is_ordered(lines: Seq<Seq<char>>, line: Seq<char>)
    requires
        ordered(lines),
    ensures
        ordered(inserted(lines, line)),
    decreases lines.len(),
{
    let result = inserted(lines, line);
    if lines.len() == 0 {
        lemma_precedes_total(line, line, 0);
    } else if precedes(lines.last(), line) {
        lemma_precedes_total(line, line, 0);
        assert forall|i: int, j: int| 0 <= i <= j < result.len() implies precedes(
            result[i],
            result[j],
        ) by {
            if j == lines.len() && i < j {
                assert(precedes(lines[i], lines[lines.len() - 1]));
                lemma_precedes_transitive(lines[i], lines.last(), line, 0);
            }
        }
    } else {
        let front = lines.drop_last();
        assert(ordered(front));
        lemma_inserted_is_ordered(front, line);
        lemma_inserted_is_permutation(front, line);
        lemma_precedes_total(lines.last(), line, 0);
        lemma_precedes_total(lines.last(), lines.last(), 0);
        let placed = inserted(front, line);
        assert forall|i: int, j: int| 0 <= i <= j < result.len() implies precedes(
            result[i],
            result[j],
        ) by {
            if j == placed.len() && i < j {
                lemma_inserted_holds(front, line, i);
                if placed[i] != line {
                    let k = choose|k: int| 0 <= k < front.len() && front[k] == placed[i];
                    assert(precedes(lines[k], lines[lines.len() - 1]));
                }
            }
        }
    }
}

/// Every line of `inserted(lines, line)` is `line` or a line of `lines`.
pub proof fn lemma_inserted_holds(lines: Seq<Seq<char>>, line: Seq<char>, i: int)
    requires
        0 <= i < inserted(lines, line).len(),
    ensures
        inserted(lines, line)[i] == line || exists|k: int|
            0 <= k < lines.len() && lines[k] == inserted(lines, line)[i],
    decreases lines.len(),
{
    if lines.len() == 0 {
    } else if precedes(lines.last(), line) {
        if i < lines.len() {
            assert(lines[i] == inserted(lines, line)[i]);
        }
    } else {
        lemma_inserted_is_permutation(lines.drop_last(), line);
        if i < lines.len() {
            lemma_inserted_holds(lines.drop_last(), line, i);
            let front = lines.drop_last();
            if inserted(front, line)[i] != line {
                let k = choose|k: int| 0 <= k < front.len() && front[k] == inserted(front, line)[i];
                assert(lines[k] == inserted(lines, line)[i]);
            }
        } else {
            assert(lines[lines.len() - 1] == inserted(lines, line)[i]);
        }
    }
}

/// The sorted lines are in order, and they are the lines that were given:
/// each as often as it occurs among them.
pub proof fn sorted_is_ordered_permutation(lines: Seq<Seq<char>>)
    ensures
        ordered(sorted(lines)),
        sorted(lines).to_multiset() == lines.to_multiset(),
        sorted(lines).len() == lines.len(),
    decreases lines.len(),
{
    broadcast use vstd::seq_lib::group_to_multiset_ensures;

    if lines.len() > 0 {
        sorted_is_ordered_permutation(lines.drop_last());
        lemma_inserted_is_ordered(sorted(lines.drop_last()), lines.last());
        lemma_inserted_is_permutation(sorted(lines.drop_last()), lines.last());
        assert(lines =~= lines.drop_last().push(lines.last()));
    }
}

/// Lines that are in order stay as they are.
pub proof fn sorted_keeps_ordered(lines: Seq<Seq<char>>)
    requires
        ordered(lines),
    ensures
        sorted(lines) == lines,
    decreases lines.len(),
{
    if lines.len() > 0 {
        let front = lines.drop_last();
        assert(ordered(front));
        sorted_keeps_ordered(front);
        if front.len() > 0 {
            assert(precedes(lines[front.len() - 1], lines[lines.len() - 1]));
        }
        assert(lines =~= front.push(lines.last()));
    }
}

/// Sorting twice gives what sorting once gives.
pub proof fn sorted_is_idempotent(lines: Seq<Seq<char>>)
    ensures
        sorted(sorted(lines)) == sorted(lines),
{
    sorted_is_ordered_permutation(lines);
    sorted_keeps_ordered(sorted(lines));
}

/// Every line of the sorted lines is one of the lines that were given.
pub proof fn lemma_sorted_holds(lines: Seq<Seq<char>>, i: int)
    requires
        0 <= i < sorted(lines).len(),
    ensures
        exists|k: int| 0 <= k < lines.len() && lines[k] == sorted(lines)[i],
    decreases lines.len(),
{
    if lines.len() > 0 {
        let front = lines.drop_last();
        sorted_is_ordered_permutation(front);
        lemma_inserted_holds(sorted(front), lines.last(), i);
        let line = sorted(lines)[i];
        if line == lines.last() {
            assert(lines[lines.len() - 1] == line);
        } else {
            let j = choose|j: int| 0 <= j < sorted(front).len() && sorted(front)[j] == line;
            lemma_sorted_holds(front, j);
            let k = choose|k: int| 0 <= k < front.len() && front[k] == sorted(front)[j];
            assert(lines[k] == line);
        }
    }
}

/// Whether `a` is lexicographically at most `b`.
pub fn line_precedes(a: &Vec<char>, b: &Vec<char>) -> (r: bool)
    ensures
        r == precedes(a@, b@),
{
    let mut i: usize = 0;
    while i < a.len()
        invariant
            i <= a.len(),
            precedes(a@, b@) == precedes_from(a@, b@, i as int),
        decreases a.len() - i,
    {
        if i >= b.len() {
            return false;
        }
        if a[i] != b[i] {
            return a[i] < b[i];
        }
        i += 1;
    }
    true
}

/// Puts `line` into `lines` where `inserted` has it.
pub fn insert_line(lines: &mut Vec<Vec<char>>, line: Vec<char>)
    ensures
        views(final(lines)@) == inserted(views(old(lines)@), line@),
{
    let ghost all = views(lines@);
    let mut j: usize = lines.len();
    assert(all.take(j as int) =~= all);
    assert(all.skip(j as int) =~= Seq::<Seq<char>>::empty());
    assert(inserted(all, line@) =~= inserted(all.take(j as int), line@) + all.skip(j as int));
    while j > 0 && !line_precedes(&lines[j - 1], &line)
        invariant
            j <= lines.len(),
            all == views(lines@),
            inserted(all, line@) == inserted(all.take(j as int), line@) + all.skip(j as int),
        decreases j,
    {
        proof {
            let head = all.take(j as int);
            assert(head.last() == all[j - 1]);
            assert(head.drop_last() =~= all.take(j - 1));
            assert(inserted(all.take(j - 1), line@).push(all[j - 1]) + all.skip(j as int)
                =~= inserted(all.take(j - 1), line@) + all.skip(j - 1));
        }
        j -= 1;
    }
    proof {
        let head = all.take(j as int);
        if j > 0 {
            assert(head.last() == all[j - 1]);
        }
        assert(inserted(head, line@) =~= head.push(line@));
    }
    lines.insert(j, line);
    assert(views(lines@) =~= all.take(j as int).push(line@) + all.skip(j as int));
}

/// The lines in lexicographic order.
pub fn sort_lines(lines: &Vec<Vec<char>>) -> (r: Vec<Vec<char>>)
    ensures
        views(r@) == sorted(views(lines@)),
{
    let ghost all = views(lines@);
    let mut r: Vec<Vec<char>> = Vec::new();
    let mut i: usize = 0;
    assert(views(r@) =~= sorted(all.take(0)));
    while i < lines.len()
        invariant
            i <= lines.len(),
            all == views(lines@),
            views(r@) == sorted(all.take(i as int)),
        decreases lines.len() - i,
    {
        proof {
            let upto = all.take(i + 1);
            assert(upto.drop_last() =~= all.take(i as int));
            assert(upto.last() == lines@[i as int]@);
        }
        insert_line(&mut r, copy_line(&lines[i]));
        i += 1;
    }
    assert(all.take(i as int) =~= all);
    r
}

} // verus!
