//! The indentation state machine: it reads the lines of the body in order
//! and writes each with the indentation that the open blocks give it.

use crate::line::{
    classified, const_line, is_const_declaration, lemma_kind_tells, lemma_kinds_by_content,
    line_type_of, CommentKind, ConstructType, LineType,
};
use crate::text::{
    content_limit, indent, indented, is_blank, is_whitespace, last_content,
    lemma_content_limit_bounds, lemma_indented_neat, lemma_trimmed_ends, lemma_trimmed_of_written,
    lemma_trimmed_twice, lemma_written_holds_no_line_feed, neat, push_line, single_lines, trim,
    trimmed, views,
};
use vstd::prelude::*;

verus! {

/// The state of the machine between two lines.
pub struct IndentState {
    /// The depth at which the next line of a block's body is written.
    pub indentation_level: usize,
    /// The blocks that are open, the innermost last.
    pub construct_stack: Vec<ConstructType>,
    /// The category of the line written last; `None` before the first.
    pub last_kind: Option<LineType>,
    /// The depth at which the line written last stands.
    pub last_level: usize,
}

/// The state of the machine as a mathematical value.
pub struct Machine {
    pub level: nat,
    pub stack: Seq<ConstructType>,
    pub last_kind: Option<LineType>,
    pub last_level: nat,
}

/// What one line does: the state behind it and the lines written for it.
pub struct Step {
    pub state: Machine,
    pub lines: Seq<Seq<char>>,
}

impl View for IndentState {
    type V = Machine;

    open spec fn view(&self) -> Machine {
        Machine {
            level: self.indentation_level as nat,
            stack: self.construct_stack@,
            last_kind: self.last_kind,
            last_level: self.last_level as nat,
        }
    }
}

/// The category of the last line of `lines`, if there is one.
pub open spec fn last_written(lines: Seq<Seq<char>>) -> Option<LineType> {
    if lines.len() == 0 {
        None
    } else {
        Some(classified(lines.last()))
    }
}

/// No two blank lines stand side by side.
pub open spec fn single_spaced(lines: Seq<Seq<char>>) -> bool {
    forall|k: int| 0 < k < lines.len() ==> !(is_blank(#[trigger] lines[k]) && is_blank(lines[k - 1]))
}

/// A written line is empty, or it holds the content of `line` and `line` is
/// not blank.
pub open spec fn written_for(written: Seq<char>, line: Seq<char>) -> bool {
    written.len() == 0 || (trimmed(written) == trimmed(line) && !is_blank(line))
}

/// The state in which the body of a file starts: no block open, and behind
/// the preamble's last line, if it has one.
pub open spec fn initial(last_kind: Option<LineType>) -> Machine {
    Machine { level: 0, stack: Seq::empty(), last_kind, last_level: 0 }
}

/// The line written last was a comment.
pub open spec fn after_comment(m: Machine) -> bool {
    m.last_kind matches Some(LineType::Comment(_))
}

/// The depth at which a comment is written: none behind a single-line
/// export, one more than the header's behind the header of an export, the
/// current depth elsewhere.
pub open spec fn comment_level(m: Machine) -> nat {
    if m.last_kind == Some(LineType::SingleExport) {
        0
    } else if m.last_kind == Some(LineType::Keyword(ConstructType::Export)) {
        m.last_level + 1
    } else {
        m.level
    }
}

/// The blank line that parts a stack comment from the code behind it.
pub open spec fn gap(m: Machine) -> Seq<Seq<char>> {
    if m.last_kind == Some(LineType::Comment(CommentKind::Stack)) {
        seq![Seq::<char>::empty()]
    } else {
        Seq::empty()
    }
}

/// A blank line in the input.
pub open spec fn step_blank(m: Machine, next_is_const: bool) -> Step {
    if m.last_kind == Some(LineType::Empty) || (after_comment(m) && next_is_const) {
        Step { state: m, lines: Seq::empty() }
    } else {
        Step {
            state: Machine { last_kind: Some(LineType::Empty), last_level: 0, ..m },
            lines: seq![Seq::<char>::empty()],
        }
    }
}

/// A comment.
pub open spec fn step_comment(m: Machine, kind: CommentKind, content: Seq<char>) -> Step {
    Step {
        state: Machine {
            last_kind: Some(LineType::Comment(kind)),
            last_level: comment_level(m),
            ..m
        },
        lines: seq![indented(comment_level(m), content)],
    }
}

/// A single-line export: written without indentation.
pub open spec fn step_single_export(m: Machine, content: Seq<char>) -> Step {
    Step {
        state: Machine { last_kind: Some(LineType::SingleExport), last_level: 0, ..m },
        lines: seq![content],
    }
}

/// A line of plain content.
pub open spec fn step_content(m: Machine, kind: LineType, content: Seq<char>) -> Step {
    Step {
        state: Machine { last_kind: Some(kind), last_level: m.level, ..m },
        lines: gap(m).push(indented(m.level, content)),
    }
}

/// `end`: closes the innermost block. A blank line follows the end of a
/// procedure or an export where more content comes.
pub open spec fn step_end(m: Machine, content: Seq<char>, more_content: bool) -> Step {
    let open = m.stack.len() > 0;
    let level = if open && m.stack.last() != ConstructType::End && m.level > 0 {
        (m.level - 1) as nat
    } else {
        m.level
    };
    let stack = if open {
        m.stack.drop_last()
    } else {
        m.stack
    };
    let parted = open && (m.stack.last() == ConstructType::Proc || m.stack.last()
        == ConstructType::Export) && more_content;
    if parted {
        Step {
            state: Machine { level, stack, last_kind: Some(LineType::Empty), last_level: 0 },
            lines: seq![indented(level, content), Seq::<char>::empty()],
        }
    } else {
        Step {
            state: Machine {
                level,
                stack,
                last_kind: Some(LineType::Keyword(ConstructType::End)),
                last_level: level,
            },
            lines: seq![indented(level, content)],
        }
    }
}

/// `else`: written at the depth of its `if`; its body stands one deeper.
pub open spec fn step_else(m: Machine, content: Seq<char>) -> Step {
    let level = if m.stack.len() > 0 && m.stack.last() == ConstructType::If && m.level > 0 {
        (m.level - 1) as nat
    } else {
        m.level
    };
    Step {
        state: Machine {
            level: level + 1,
            stack: m.stack,
            last_kind: Some(LineType::Keyword(ConstructType::Else)),
            last_level: level,
        },
        lines: seq![indented(level, content)],
    }
}

/// A keyword that opens a block.
pub open spec fn step_open(m: Machine, construct: ConstructType, content: Seq<char>) -> Step {
    Step {
        state: Machine {
            level: m.level + 1,
            stack: m.stack.push(construct),
            last_kind: Some(LineType::Keyword(construct)),
            last_level: m.level,
        },
        lines: gap(m).push(indented(m.level, content)),
    }
}

/// What the machine does with one line of the body. `next_is_const` says
/// whether the line behind it declares a constant, `more_content` whether
/// any line behind it is not blank.
pub open spec fn step(m: Machine, line: Seq<char>, next_is_const: bool, more_content: bool)
    -> Step {
    let content = trimmed(line);
    match classified(line) {
        LineType::Empty => step_blank(m, next_is_const),
        LineType::Comment(kind) => step_comment(m, kind, content),
        LineType::SingleExport => step_single_export(m, content),
        LineType::Keyword(ConstructType::End) => step_end(m, content, more_content),
        LineType::Keyword(ConstructType::Else) => step_else(m, content),
        LineType::Keyword(construct) => step_open(m, construct, content),
        LineType::Import => step_content(m, LineType::Import, content),
        LineType::Other => step_content(m, LineType::Other, content),
    }
}

/// Whether the line behind line `i` declares a constant.
pub open spec fn const_follows(lines: Seq<Seq<char>>, i: int) -> bool {
    i + 1 < lines.len() && const_line(lines[i + 1])
}

/// Whether a line that is not blank stands behind line `i`.
pub open spec fn content_follows(lines: Seq<Seq<char>>, i: int) -> bool {
    exists|j: int| i < j < lines.len() && !is_blank(#[trigger] lines[j])
}

/// The machine after the lines from `start` up to `n`, and all that it has
/// written for them.
pub open spec fn ran(lines: Seq<Seq<char>>, start: int, n: int, init: Machine) -> Step
    decreases n - start,
{
    if n <= start {
        Step { state: init, lines: Seq::empty() }
    } else {
        let before = ran(lines, start, n - 1, init);
        let this = step(
            before.state,
            lines[n - 1],
            const_follows(lines, n - 1),
            content_follows(lines, n - 1),
        );
        Step { state: this.state, lines: before.lines + this.lines }
    }
}

/// No line moves the depth, or the depth remembered of the last line, up by
/// more than one.
pub proof fn lemma_step_levels(m: Machine, line: Seq<char>, next_is_const: bool, more_content: bool)
    ensures
        step(m, line, next_is_const, more_content).state.level <= m.level + 1,
        step(m, line, next_is_const, more_content).state.last_level <= m.level
            || step(m, line, next_is_const, more_content).state.last_level <= m.last_level + 1,
{
}

/// What the machine writes for a line is empty or ends as the line's
/// content ends: no written line ends in whitespace.
pub proof fn lemma_step_neat(m: Machine, line: Seq<char>, next_is_const: bool, more_content: bool)
    ensures
        forall|k: int|
            0 <= k < step(m, line, next_is_const, more_content).lines.len() ==> neat(
                #[trigger] step(m, line, next_is_const, more_content).lines[k],
            ),
{
    let content = trimmed(line);
    lemma_trimmed_ends(line);
    if content.len() > 0 {
        lemma_indented_neat(m.level, content);
        lemma_indented_neat(comment_level(m), content);
        if m.level > 0 {
            lemma_indented_neat((m.level - 1) as nat, content);
        }
    }
}

/// No line that the machine writes ends in whitespace.
pub proof fn lemma_ran_neat(lines: Seq<Seq<char>>, start: int, n: int, init: Machine)
    requires
        0 <= start,
        n <= lines.len(),
    ensures
        forall|k: int|
            0 <= k < ran(lines, start, n, init).lines.len() ==> neat(
                #[trigger] ran(lines, start, n, init).lines[k],
            ),
    decreases n - start,
{
    if n > start {
        lemma_ran_neat(lines, start, n - 1, init);
        let before = ran(lines, start, n - 1, init);
        lemma_step_neat(
            before.state,
            lines[n - 1],
            const_follows(lines, n - 1),
            content_follows(lines, n - 1),
        );
    }
}

/// What the machine does with a line depends on the content of the line
/// alone.
pub proof fn lemma_step_by_content(
    m: Machine,
    a: Seq<char>,
    b: Seq<char>,
    next_is_const: bool,
    more_content: bool,
)
    requires
        trimmed(a) == trimmed(b),
    ensures
        step(m, a, next_is_const, more_content) == step(m, b, next_is_const, more_content),
{
}

/// Each line that the machine writes for a line is empty or holds the
/// content of that line.
pub proof fn lemma_step_writes_content(
    m: Machine,
    line: Seq<char>,
    next_is_const: bool,
    more_content: bool,
)
    ensures
        forall|k: int|
            0 <= k < step(m, line, next_is_const, more_content).lines.len() ==> written_for(
                #[trigger] step(m, line, next_is_const, more_content).lines[k],
                line,
            ),
{
    lemma_trimmed_twice(line);
    if !is_blank(line) {
        lemma_trimmed_of_written(m.level, line);
        lemma_trimmed_of_written(comment_level(m), line);
        if m.level > 0 {
            lemma_trimmed_of_written((m.level - 1) as nat, line);
        }
    }
}

/// The machine remembers the category of the line written last, and it
/// writes no blank line behind a blank line.
pub proof fn lemma_step_remembers(
    m: Machine,
    line: Seq<char>,
    next_is_const: bool,
    more_content: bool,
    written: Seq<Seq<char>>,
)
    requires
        m.last_kind == last_written(written),
        single_spaced(written),
    ensures
        step(m, line, next_is_const, more_content).state.last_kind == last_written(
            written + step(m, line, next_is_const, more_content).lines,
        ),
        single_spaced(written + step(m, line, next_is_const, more_content).lines),
{
    let this = step(m, line, next_is_const, more_content);
    let all = written + this.lines;
    lemma_step_writes_content(m, line, next_is_const, more_content);
    lemma_kind_tells(Seq::<char>::empty());
    assert(trimmed(Seq::<char>::empty()) =~= Seq::<char>::empty());
    if written.len() > 0 {
        lemma_kind_tells(written.last());
    }
    if this.lines.len() == 0 {
        assert(all =~= written);
    } else {
        assert(all.last() == this.lines.last());
        let last = this.lines.last();
        if last.len() > 0 {
            lemma_kinds_by_content(last, line);
        }
        lemma_kind_tells(line);
        assert forall|k: int| 0 < k < all.len() implies !(is_blank(#[trigger] all[k])
            && is_blank(all[k - 1])) by {
            if k < written.len() {
                assert(all[k] == written[k]);
                assert(all[k - 1] == written[k - 1]);
            } else if k == written.len() {
                assert(all[k] == this.lines[0]);
                assert(all[k - 1] == written.last());
                if this.lines[0].len() > 0 {
                    lemma_kinds_by_content(this.lines[0], line);
                }
            } else {
                assert(all[k] == this.lines[k - written.len()]);
                assert(all[k - 1] == this.lines[k - 1 - written.len()]);
                let first = this.lines[0];
                let second = this.lines[1];
                if first.len() > 0 {
                    lemma_kinds_by_content(first, line);
                }
                if second.len() > 0 {
                    lemma_kinds_by_content(second, line);
                }
            }
        }
    }
}

/// Over a whole run the machine remembers the category of the line written
/// last, and what it adds to lines that are single spaced is single spaced.
pub proof fn lemma_ran_remembers(
    lines: Seq<Seq<char>>,
    start: int,
    n: int,
    init: Machine,
    written: Seq<Seq<char>>,
)
    requires
        0 <= start,
        n <= lines.len(),
        init.last_kind == last_written(written),
        single_spaced(written),
    ensures
        ran(lines, start, n, init).state.last_kind == last_written(
            written + ran(lines, start, n, init).lines,
        ),
        single_spaced(written + ran(lines, start, n, init).lines),
    decreases n - start,
{
    if n <= start {
        assert(written + ran(lines, start, n, init).lines =~= written);
    } else {
        lemma_ran_remembers(lines, start, n - 1, init, written);
        let before = ran(lines, start, n - 1, init);
        let this = step(
            before.state,
            lines[n - 1],
            const_follows(lines, n - 1),
            content_follows(lines, n - 1),
        );
        lemma_step_remembers(
            before.state,
            lines[n - 1],
            const_follows(lines, n - 1),
            content_follows(lines, n - 1),
            written + before.lines,
        );
        assert(written + (before.lines + this.lines) =~= (written + before.lines) + this.lines);
    }
}

/// Each line that the machine writes is empty or holds the content of a
/// line that it has read.
pub proof fn lemma_ran_writes_content(lines: Seq<Seq<char>>, start: int, n: int, init: Machine)
    requires
        0 <= start,
        n <= lines.len(),
    ensures
        forall|k: int|
            0 <= k < ran(lines, start, n, init).lines.len() ==> (#[trigger] ran(
                lines,
                start,
                n,
                init,
            ).lines[k]).len() == 0 || exists|i: int|
                start <= i < n && written_for(ran(lines, start, n, init).lines[k], lines[i]),
    decreases n - start,
{
    if n > start {
        lemma_ran_writes_content(lines, start, n - 1, init);
        let before = ran(lines, start, n - 1, init);
        let after = ran(lines, start, n, init);
        lemma_step_writes_content(
            before.state,
            lines[n - 1],
            const_follows(lines, n - 1),
            content_follows(lines, n - 1),
        );
        assert forall|k: int| 0 <= k < after.lines.len() implies (#[trigger] after.lines[k]).len()
            == 0 || exists|i: int| start <= i < n && written_for(after.lines[k], lines[i]) by {
            if k < before.lines.len() {
                assert(after.lines[k] == before.lines[k]);
                if before.lines[k].len() > 0 {
                    let i = choose|i: int|
                        start <= i < n - 1 && written_for(before.lines[k], lines[i]);
                    assert(written_for(after.lines[k], lines[i]));
                }
            } else {
                assert(written_for(after.lines[k], lines[n - 1]));
            }
        }
    }
}

/// What the machine has written up to line `i` stays at the start of what
/// it has written up to a later line.
pub proof fn lemma_ran_prefix(lines: Seq<Seq<char>>, start: int, i: int, n: int, init: Machine)
    requires
        start <= i <= n,
    ensures
        ran(lines, start, i, init).lines.len() <= ran(lines, start, n, init).lines.len(),
        ran(lines, start, n, init).lines.take(ran(lines, start, i, init).lines.len() as int)
            == ran(lines, start, i, init).lines,
    decreases n - i,
{
    let short = ran(lines, start, i, init).lines;
    if i < n {
        lemma_ran_prefix(lines, start, i, n - 1, init);
        let before = ran(lines, start, n - 1, init).lines;
        assert(ran(lines, start, n, init).lines.take(short.len() as int) =~= before.take(
            short.len() as int,
        ));
    } else {
        assert(short.take(short.len() as int) =~= short);
    }
}

/// For blank lines the machine writes blank lines only, and it opens and
/// closes nothing.
pub proof fn lemma_ran_over_blank(lines: Seq<Seq<char>>, start: int, i: int, n: int, init: Machine)
    requires
        0 <= start <= i <= n <= lines.len(),
        forall|j: int| i <= j < n ==> is_blank(#[trigger] lines[j]),
    ensures
        ran(lines, start, n, init).state.level == ran(lines, start, i, init).state.level,
        ran(lines, start, n, init).state.stack == ran(lines, start, i, init).state.stack,
        ran(lines, start, i, init).lines.len() <= ran(lines, start, n, init).lines.len(),
        forall|k: int|
            ran(lines, start, i, init).lines.len() <= k < ran(lines, start, n, init).lines.len()
                ==> (#[trigger] ran(lines, start, n, init).lines[k]).len() == 0,
    decreases n - i,
{
    if i < n {
        lemma_ran_over_blank(lines, start, i, n - 1, init);
        lemma_kind_tells(lines[n - 1]);
        let before = ran(lines, start, n - 1, init);
        let after = ran(lines, start, n, init);
        assert forall|k: int|
            ran(lines, start, i, init).lines.len() <= k < after.lines.len() implies (
        #[trigger] after.lines[k]).len() == 0 by {
            if k < before.lines.len() {
                assert(after.lines[k] == before.lines[k]);
            }
        }
    }
}

/// For a line that is not blank the machine writes the line: behind a blank
/// line where a stack comment stands before it, and before a blank line
/// where it ends a procedure or an export and more content comes.
pub proof fn lemma_step_writes_line(
    m: Machine,
    line: Seq<char>,
    next_is_const: bool,
    more_content: bool,
)
    requires
        !is_blank(line),
    ensures
        ({
            let this = step(m, line, next_is_const, more_content);
            let at = if this.lines.len() > 0 && this.lines[0].len() == 0 {
                1int
            } else {
                0int
            };
            &&& at < this.lines.len() <= at + 2
            &&& at == 1 ==> m.last_kind == Some(LineType::Comment(CommentKind::Stack))
            &&& trimmed(this.lines[at]) == trimmed(line)
            &&& !is_blank(this.lines[at])
            &&& this.lines.len() == at + 2 ==> at == 0 && more_content && this.lines[1].len() == 0
                && this.state.last_kind == Some(LineType::Empty)
            &&& this.lines.len() == at + 1 ==> this.state.last_kind == Some(classified(line))
        }),
{
    lemma_kind_tells(line);
    lemma_trimmed_twice(line);
    lemma_trimmed_of_written(m.level, line);
    lemma_trimmed_of_written(comment_level(m), line);
    if m.level > 0 {
        lemma_trimmed_of_written((m.level - 1) as nat, line);
    }
    let this = step(m, line, next_is_const, more_content);
    assert(trimmed(line).len() > 0);
}

/// A blank line that the machine has written is written again when the
/// machine reads it in the same state, unless it then stands behind a
/// comment and before the declaration of a constant.
pub proof fn lemma_replay_blank(
    m: Machine,
    line: Seq<char>,
    next_is_const: bool,
    more_content: bool,
    again_next_is_const: bool,
    again_more_content: bool,
)
    requires
        is_blank(line),
        step(m, line, next_is_const, more_content).lines.len() > 0,
        !(after_comment(m) && again_next_is_const),
    ensures
        step(m, line, next_is_const, more_content).lines == seq![Seq::<char>::empty()],
        step(m, Seq::<char>::empty(), again_next_is_const, again_more_content) == step(
            m,
            line,
            next_is_const,
            more_content,
        ),
{
    lemma_kind_tells(line);
    lemma_kind_tells(Seq::<char>::empty());
    assert(trimmed(Seq::<char>::empty()) =~= Seq::<char>::empty());
}

/// A line that the machine has written with no blank line before it is
/// written in the same way when the machine reads what it wrote in the same
/// state; the blank line behind the end of a procedure is then passed over.
pub proof fn lemma_replay_line(
    m: Machine,
    line: Seq<char>,
    next_is_const: bool,
    more_content: bool,
    again_next_is_const: bool,
    behind_next_is_const: bool,
    behind_more_content: bool,
)
    requires
        !is_blank(line),
        step(m, line, next_is_const, more_content).lines[0].len() > 0,
    ensures
        step(
            m,
            step(m, line, next_is_const, more_content).lines[0],
            again_next_is_const,
            more_content,
        ) == step(m, line, next_is_const, more_content),
        step(m, line, next_is_const, more_content).lines.len() == 2 ==> step(
            step(m, line, next_is_const, more_content).state,
            step(m, line, next_is_const, more_content).lines[1],
            behind_next_is_const,
            behind_more_content,
        ) == (Step {
            state: step(m, line, next_is_const, more_content).state,
            lines: Seq::empty(),
        }),
{
    let this = step(m, line, next_is_const, more_content);
    lemma_step_writes_line(m, line, next_is_const, more_content);
    lemma_step_by_content(m, this.lines[0], line, again_next_is_const, more_content);
    lemma_kind_tells(line);
    lemma_kind_tells(Seq::<char>::empty());
    assert(trimmed(Seq::<char>::empty()) =~= Seq::<char>::empty());
}

/// The machine behind a blank line that it has written.
pub open spec fn spaced(m: Machine) -> Machine {
    Machine { last_kind: Some(LineType::Empty), last_level: 0, ..m }
}

/// A line that the machine has written with a blank line before it, behind
/// a stack comment, is written in the same way when the machine reads the
/// blank line and then the line, unless the line declares a constant.
pub proof fn lemma_replay_gap(
    m: Machine,
    line: Seq<char>,
    next_is_const: bool,
    more_content: bool,
    again_more_content: bool,
    behind_next_is_const: bool,
    behind_more_content: bool,
)
    requires
        !is_blank(line),
        step(m, line, next_is_const, more_content).lines[0].len() == 0,
    ensures
        step(m, line, next_is_const, more_content).lines.len() == 2,
        step(m, Seq::<char>::empty(), false, again_more_content) == (Step {
            state: spaced(m),
            lines: seq![Seq::<char>::empty()],
        }),
        step(
            spaced(m),
            step(m, line, next_is_const, more_content).lines[1],
            behind_next_is_const,
            behind_more_content,
        ) == (Step {
            state: step(m, line, next_is_const, more_content).state,
            lines: seq![step(m, line, next_is_const, more_content).lines[1]],
        }),
{
    let this = step(m, line, next_is_const, more_content);
    lemma_step_writes_line(m, line, next_is_const, more_content);
    lemma_step_by_content(spaced(m), this.lines[1], line, behind_next_is_const, behind_more_content);
    lemma_kind_tells(line);
    lemma_kind_tells(Seq::<char>::empty());
    lemma_trimmed_twice(line);
    assert(trimmed(Seq::<char>::empty()) =~= Seq::<char>::empty());
    assert(step(spaced(m), line, behind_next_is_const, behind_more_content).lines =~= seq![
        this.lines[1],
    ]);
}

/// A single-line export is written as it stands, trimmed, and nothing
/// before it, whatever blocks are open and whatever was written last.
pub proof fn single_export_is_flush_left(
    m: Machine,
    line: Seq<char>,
    next_is_const: bool,
    more_content: bool,
)
    requires
        classified(line) == LineType::SingleExport,
    ensures
        step(m, line, next_is_const, more_content).lines == seq![trimmed(line)],
        step(m, line, next_is_const, more_content).state.level == m.level,
        step(m, line, next_is_const, more_content).state.stack == m.stack,
        trimmed(line).len() > 0,
        !is_whitespace(trimmed(line).first()),
{
    lemma_trimmed_ends(line);
}

/// Behind a comment, a blank line that stands before the declaration of a
/// constant is not written, and the machine stays as it is.
pub proof fn blank_before_const_is_skipped(m: Machine, line: Seq<char>, more_content: bool)
    requires
        classified(line) == LineType::Empty,
        after_comment(m),
    ensures
        step(m, line, true, more_content) == (Step { state: m, lines: Seq::empty() }),
{
}

/// A blank line is never written behind a blank line.
pub proof fn blank_after_blank_is_skipped(
    m: Machine,
    line: Seq<char>,
    next_is_const: bool,
    more_content: bool,
)
    requires
        classified(line) == LineType::Empty,
        m.last_kind == Some(LineType::Empty),
    ensures
        step(m, line, next_is_const, more_content) == (Step { state: m, lines: Seq::empty() }),
{
}

/// The depth never falls below zero and the machine never fails: whatever
/// the line, the step is defined, it writes at most two lines, and what it
/// remembers of the last line is what it wrote last.
pub proof fn step_is_total(m: Machine, line: Seq<char>, next_is_const: bool, more_content: bool)
    ensures
        step(m, line, next_is_const, more_content).lines.len() <= 2,
        step(m, line, next_is_const, more_content).state.level >= 0,
        step(m, line, next_is_const, more_content).state.stack.len() <= m.stack.len() + 1,
        step(m, line, next_is_const, more_content).state.level + 1 >= m.level,
{
}

/// All that the machine writes for line `i` stands, side by side, in what
/// it writes for the lines from `start` up to `n`.
pub proof fn lemma_ran_holds_step(lines: Seq<Seq<char>>, start: int, n: int, init: Machine, i: int)
    requires
        0 <= start <= i < n <= lines.len(),
    ensures
        ({
            let before = ran(lines, start, i, init);
            let this = step(
                before.state,
                lines[i],
                const_follows(lines, i),
                content_follows(lines, i),
            );
            let all = ran(lines, start, n, init).lines;
            &&& before.lines.len() + this.lines.len() <= all.len()
            &&& all.subrange(
                before.lines.len() as int,
                (before.lines.len() + this.lines.len()) as int,
            ) == this.lines
        }),
    decreases n - i,
{
    let before = ran(lines, start, i, init);
    let this = step(before.state, lines[i], const_follows(lines, i), content_follows(lines, i));
    let all = ran(lines, start, n, init).lines;
    if n == i + 1 {
        assert(all.subrange(
            before.lines.len() as int,
            (before.lines.len() + this.lines.len()) as int,
        )
            =~= this.lines);
    } else {
        lemma_ran_holds_step(lines, start, n - 1, init, i);
        let shorter = ran(lines, start, n - 1, init).lines;
        assert(all.subrange(
            before.lines.len() as int,
            (before.lines.len() + this.lines.len()) as int,
        )
            =~= shorter.subrange(
            before.lines.len() as int,
            (before.lines.len() + this.lines.len()) as int,
        ));
    }
}

/// Where no line of the input holds a line feed, no line that the machine
/// writes holds one.
pub proof fn lemma_ran_single_lines(lines: Seq<Seq<char>>, start: int, n: int, init: Machine)
    requires
        0 <= start,
        n <= lines.len(),
        single_lines(lines),
    ensures
        single_lines(ran(lines, start, n, init).lines),
    decreases n - start,
{
    if n > start {
        lemma_ran_single_lines(lines, start, n - 1, init);
        let before = ran(lines, start, n - 1, init);
        let m = before.state;
        let line = lines[n - 1];
        lemma_written_holds_no_line_feed(m.level, line);
        lemma_written_holds_no_line_feed(comment_level(m), line);
        lemma_written_holds_no_line_feed(0, line);
        if m.level > 0 {
            lemma_written_holds_no_line_feed((m.level - 1) as nat, line);
        }
        let this = step(m, line, const_follows(lines, n - 1), content_follows(lines, n - 1));
        assert forall|k: int| 0 <= k < this.lines.len() implies !(#[trigger] this.lines[k]).contains(
            '\n',
        ) by {}
        let after = ran(lines, start, n, init).lines;
        assert forall|k: int| 0 <= k < after.len() implies !(#[trigger] after[k]).contains('\n') by {
            if k < before.lines.len() {
                assert(after[k] == before.lines[k]);
            } else {
                assert(after[k] == this.lines[k - before.lines.len()]);
            }
        }
    }
}

/// A line that is not blank follows line `i` exactly when `i` stands before
/// the last such line.
pub proof fn lemma_content_follows(lines: Seq<Seq<char>>, i: int)
    requires
        0 <= i < lines.len(),
    ensures
        content_follows(lines, i) <==> i + 1 < content_limit(lines, lines.len() as int),
{
    lemma_content_limit_bounds(lines, lines.len() as int);
    let limit = content_limit(lines, lines.len() as int);
    if i + 1 < limit {
        assert(!is_blank(lines[limit - 1]));
    }
}

impl IndentState {
    /// The state in which the body starts, behind a line of the given
    /// category (`None`: behind nothing).
    pub fn new(last_kind: Option<LineType>) -> (state: IndentState)
        ensures
            state@ == initial(last_kind),
    {
        IndentState {
            indentation_level: 0,
            construct_stack: Vec::new(),
            last_kind,
            last_level: 0,
        }
    }

    /// Writes the blank line that is due behind a stack comment.
    fn write_gap(&self, out: &mut Vec<Vec<char>>)
        ensures
            views(final(out)@) == views(old(out)@) + gap(self@),
    {
        let ghost before = views(out@);
        match self.last_kind {
            Some(LineType::Comment(CommentKind::Stack)) => {
                push_line(out, Vec::new());
                assert(views(out@) =~= before + gap(self@));
            },
            _ => {
                assert(views(out@) =~= before + gap(self@));
            },
        }
    }

    /// Takes one line of the body: writes what is due for it at the end of
    /// `out` and moves to the state behind it.
    pub fn step(
        &mut self,
        line: &Vec<char>,
        next_is_const: bool,
        more_content: bool,
        out: &mut Vec<Vec<char>>,
    )
        requires
            old(self).indentation_level < usize::MAX,
            old(self).last_level < usize::MAX,
        ensures
            final(self)@ == step(old(self)@, line@, next_is_const, more_content).state,
            views(final(out)@) == views(old(out)@) + step(
                old(self)@,
                line@,
                next_is_const,
                more_content,
            ).lines,
    {
        let ghost m = self@;
        let ghost before = views(out@);
        let content = trim(line);
        let kind = line_type_of(&content);
        match kind {
            LineType::Empty => {
                let after_blank = match self.last_kind {
                    Some(LineType::Empty) => true,
                    _ => false,
                };
                let after_comment = match self.last_kind {
                    Some(LineType::Comment(_)) => true,
                    _ => false,
                };
                if after_blank || (after_comment && next_is_const) {
                    assert(views(out@) =~= before + step_blank(m, next_is_const).lines);
                } else {
                    push_line(out, Vec::new());
                    self.last_kind = Some(LineType::Empty);
                    self.last_level = 0;
                    assert(views(out@) =~= before + step_blank(m, next_is_const).lines);
                }
            },
            LineType::Comment(comment) => {
                let level = match self.last_kind {
                    Some(LineType::SingleExport) => 0,
                    Some(LineType::Keyword(ConstructType::Export)) => self.last_level + 1,
                    _ => self.indentation_level,
                };
                push_line(out, indent(level, &content));
                self.last_kind = Some(kind);
                self.last_level = level;
                assert(views(out@) =~= before + step_comment(m, comment, content@).lines);
            },
            LineType::SingleExport => {
                push_line(out, content);
                self.last_kind = Some(kind);
                self.last_level = 0;
                assert(views(out@) =~= before + step_single_export(m, trimmed(line@)).lines);
            },
            LineType::Keyword(ConstructType::End) => {
                let closed = self.construct_stack.pop();
                let mut parted = false;
                match closed {
                    Some(construct) => {
                        if construct != ConstructType::End && self.indentation_level > 0 {
                            self.indentation_level -= 1;
                        }
                        parted = (construct == ConstructType::Proc || construct
                            == ConstructType::Export) && more_content;
                    },
                    None => {},
                }
                push_line(out, indent(self.indentation_level, &content));
                if parted {
                    push_line(out, Vec::new());
                    self.last_kind = Some(LineType::Empty);
                    self.last_level = 0;
                } else {
                    self.last_kind = Some(kind);
                    self.last_level = self.indentation_level;
                }
                proof {
                    let expected = step_end(m, content@, more_content);
                    assert(self.construct_stack@ =~= expected.state.stack);
                    assert(views(out@) =~= before + expected.lines);
                }
            },
            LineType::Keyword(ConstructType::Else) => {
                let depth = self.construct_stack.len();
                if depth > 0 && self.construct_stack[depth - 1] == ConstructType::If
                    && self.indentation_level > 0 {
                    self.indentation_level -= 1;
                }
                push_line(out, indent(self.indentation_level, &content));
                self.last_kind = Some(kind);
                self.last_level = self.indentation_level;
                self.indentation_level += 1;
                assert(views(out@) =~= before + step_else(m, content@).lines);
            },
            LineType::Keyword(construct) => {
                self.write_gap(out);
                self.construct_stack.push(construct);
                push_line(out, indent(self.indentation_level, &content));
                self.last_kind = Some(kind);
                self.last_level = self.indentation_level;
                self.indentation_level += 1;
                assert(views(out@) =~= before + step_open(m, construct, content@).lines);
            },
            LineType::Import | LineType::Other => {
                self.write_gap(out);
                push_line(out, indent(self.indentation_level, &content));
                self.last_kind = Some(kind);
                self.last_level = self.indentation_level;
                assert(views(out@) =~= before + step_content(m, kind, content@).lines);
            },
        }
    }
}

/// Runs the machine over the lines from `start` on and writes what it
/// yields at the end of `out`.
pub fn indent_body(
    lines: &Vec<Vec<char>>,
    start: usize,
    state: &mut IndentState,
    out: &mut Vec<Vec<char>>,
)
    requires
        start <= lines.len(),
        old(state).indentation_level + (lines.len() - start) <= usize::MAX,
        old(state).last_level + (lines.len() - start) <= usize::MAX,
    ensures
        final(state)@ == ran(views(lines@), start as int, lines.len() as int, old(state)@).state,
        views(final(out)@) == views(old(out)@) + ran(
            views(lines@),
            start as int,
            lines.len() as int,
            old(state)@,
        ).lines,
{
    let ghost all = views(lines@);
    let ghost init = state@;
    let ghost before = views(out@);
    let limit = last_content(lines);
    let mut i: usize = start;
    assert(views(out@) =~= before + ran(all, start as int, i as int, init).lines);
    while i < lines.len()
        invariant
            start <= i <= lines.len(),
            all == views(lines@),
            limit == content_limit(all, all.len() as int),
            state.indentation_level + (lines.len() - i) <= usize::MAX,
            state.last_level + (lines.len() - i) <= usize::MAX,
            state@ == ran(all, start as int, i as int, init).state,
            views(out@) == before + ran(all, start as int, i as int, init).lines,
        decreases lines.len() - i,
    {
        let next_is_const = i + 1 < lines.len() && is_const_declaration(&lines[i + 1]);
        let more_content = i + 1 < limit;
        proof {
            lemma_content_follows(all, i as int);
            lemma_step_levels(state@, all[i as int], next_is_const, more_content);
            assert(all[i as int] == lines@[i as int]@);
            if i + 1 < lines.len() {
                assert(all[i + 1] == lines@[i + 1]@);
            }
        }
        state.step(&lines[i], next_is_const, more_content, out);
        i += 1;
        assert(views(out@) =~= before + ran(all, start as int, i as int, init).lines);
    }
}

} // verus!
