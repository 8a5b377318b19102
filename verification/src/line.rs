//! The line classifier: what kind of line a piece of text is.

use crate::text::{
    before_char, contains_run, content_end, is_blank, is_text, is_whitespace, leading_whitespace,
    lemma_content_end_bounds, lemma_skip_whitespace_bounds, lemma_trimmed_twice, starts_with,
    starts_with_at, take_before, trim, trimmed, trimmed_start,
};
use vstd::prelude::*;

verus! {

/// The keywords that open, continue or close a block.
#[derive(Clone, Copy, Debug, PartialEq, Eq, Structural)]
pub enum ConstructType {
    Proc,
    Export,
    Begin,
    End,
    While,
    Repeat,
    If,
    Else,
}

/// The comments that the formatter tells apart.
#[derive(Clone, Copy, Debug, PartialEq, Eq, Structural)]
pub enum CommentKind {
    /// A comment that shows the operand stack: `# => [` or `#! => [`.
    Stack,
    /// A banner: `# ====` or `#! ====`.
    Separator,
    /// Any other comment.
    Plain,
}

/// The category of a line. Each line has exactly one.
#[derive(Clone, Copy, Debug, PartialEq, Eq, Structural)]
pub enum LineType {
    /// Nothing but whitespace.
    Empty,
    /// An import: `use.<path>`.
    Import,
    /// A line that starts with `#`.
    Comment(CommentKind),
    /// An export declared and defined on one line.
    SingleExport,
    /// A line whose first token is a block keyword.
    Keyword(ConstructType),
    /// Anything else: instructions, operands, constants.
    Other,
}

/// The keyword that `word` is, if it is one.
pub open spec fn construct_of(word: Seq<char>) -> Option<ConstructType> {
    if word == "proc"@ {
        Some(ConstructType::Proc)
    } else if word == "export"@ {
        Some(ConstructType::Export)
    } else if word == "begin"@ {
        Some(ConstructType::Begin)
    } else if word == "end"@ {
        Some(ConstructType::End)
    } else if word == "while"@ {
        Some(ConstructType::While)
    } else if word == "repeat"@ {
        Some(ConstructType::Repeat)
    } else if word == "if"@ {
        Some(ConstructType::If)
    } else if word == "else"@ {
        Some(ConstructType::Else)
    } else {
        None
    }
}

/// The first non-blank character is `#`.
pub open spec fn comment_line(line: Seq<char>) -> bool {
    "#"@.is_prefix_of(trimmed_start(line))
}

/// A comment that documents the shape of the operand stack.
pub open spec fn stack_comment_line(line: Seq<char>) -> bool {
    "# => ["@.is_prefix_of(trimmed_start(line)) || "#! => ["@.is_prefix_of(trimmed_start(line))
}

/// A banner comment.
pub open spec fn separator_comment_line(line: Seq<char>) -> bool {
    &&& "# ===="@.is_prefix_of(trimmed_start(line)) || "#! ===="@.is_prefix_of(
        trimmed_start(line),
    )
    &&& contains_run(trimmed_start(line), "===="@)
}

/// An import declaration.
pub open spec fn use_line(line: Seq<char>) -> bool {
    "use."@.is_prefix_of(trimmed_start(line))
}

/// The header of a procedure or of an export.
pub open spec fn proc_or_export_line(line: Seq<char>) -> bool {
    "proc."@.is_prefix_of(trimmed(line)) || "export."@.is_prefix_of(trimmed(line))
}

/// The declaration of a constant.
pub open spec fn const_line(line: Seq<char>) -> bool {
    "const."@.is_prefix_of(trimmed(line))
}

/// The text starts with `export.`, and what follows holds `::` or `->` and
/// no line feed. Leading whitespace is not skipped.
pub open spec fn single_export_line(line: Seq<char>) -> bool {
    &&& "export."@.is_prefix_of(line)
    &&& !line.contains('\n')
    &&& contains_run(line.skip(7), "::"@) || contains_run(line.skip(7), "->"@)
}

/// The regular expression that recognises a single-line export.
pub open spec fn single_export_pattern() -> Seq<char> {
    r"^export\..*(?:(?:::)|(?:->)).*$"@
}

/// The first token of a line: what stands before the first `.` of its code,
/// the code being the line up to its first `#`, trimmed.
pub open spec fn first_token(line: Seq<char>) -> Seq<char> {
    before_char(trimmed(before_char(line, '#')), '.')
}

/// The kind of comment that a comment line is.
pub open spec fn comment_kind(line: Seq<char>) -> CommentKind {
    if stack_comment_line(line) {
        CommentKind::Stack
    } else if separator_comment_line(line) {
        CommentKind::Separator
    } else {
        CommentKind::Plain
    }
}

/// The category of a line that has been trimmed. The tests are made in this
/// order; the first that holds decides.
pub open spec fn line_type(line: Seq<char>) -> LineType {
    if line.len() == 0 {
        LineType::Empty
    } else if use_line(line) {
        LineType::Import
    } else if comment_line(line) {
        LineType::Comment(comment_kind(line))
    } else if single_export_line(line) {
        LineType::SingleExport
    } else {
        match construct_of(first_token(line)) {
            Some(construct) => LineType::Keyword(construct),
            None => LineType::Other,
        }
    }
}

/// The category of a raw line: that of the line trimmed.
pub open spec fn classified(line: Seq<char>) -> LineType {
    line_type(trimmed(line))
}

/// A comment is not blank, and a banner is a comment.
pub proof fn lemma_comment_is_not_blank(line: Seq<char>)
    ensures
        comment_line(line) ==> !is_blank(line),
        separator_comment_line(line) ==> comment_line(line),
        stack_comment_line(line) ==> comment_line(line),
{
    reveal_strlit("#");
    reveal_strlit("# ====");
    reveal_strlit("#! ====");
    reveal_strlit("# => [");
    reveal_strlit("#! => [");
    let rest = trimmed_start(line);
    lemma_content_end_bounds(rest, rest.len() as int);
    lemma_skip_whitespace_bounds(line, 0);
    if comment_line(line) {
        assert(rest.subrange(0, 1)[0] == '#');
        if content_end(rest, rest.len() as int) == 0 {
            assert(is_whitespace(rest[0]));
        }
    }
    if separator_comment_line(line) {
        if "# ===="@.is_prefix_of(rest) {
            assert(rest.subrange(0, 6)[0] == '#');
        } else {
            assert(rest.subrange(0, 7)[0] == '#');
        }
        assert("#"@ =~= rest.subrange(0, 1));
    }
    if stack_comment_line(line) {
        if "# => ["@.is_prefix_of(rest) {
            assert(rest.subrange(0, 6)[0] == '#');
        } else {
            assert(rest.subrange(0, 7)[0] == '#');
        }
        assert("#"@ =~= rest.subrange(0, 1));
    }
}

/// A line of code: no import, no comment and not blank.
pub open spec fn is_code(line: Seq<char>) -> bool {
    &&& classified(line) != LineType::Import
    &&& classified(line) != LineType::Empty
    &&& !(classified(line) is Comment)
}

/// A prefix that does not end in whitespace stands at the start of a text
/// without its leading whitespace exactly when it stands at the start of the
/// trimmed text.
pub proof fn lemma_prefix_by_content(line: Seq<char>, prefix: Seq<char>)
    requires
        prefix.len() > 0 ==> !is_whitespace(prefix.last()),
    ensures
        prefix.is_prefix_of(trimmed_start(line)) == prefix.is_prefix_of(trimmed(line)),
{
    let rest = trimmed_start(line);
    let end = content_end(rest, rest.len() as int);
    lemma_content_end_bounds(rest, rest.len() as int);
    if prefix.is_prefix_of(rest) {
        if prefix.len() > 0 {
            assert(rest.subrange(0, prefix.len() as int)[prefix.len() - 1] == prefix.last());
            if end < prefix.len() {
                assert(is_whitespace(rest[prefix.len() - 1]));
            }
        }
        assert(rest.take(end).subrange(0, prefix.len() as int) =~= rest.subrange(
            0,
            prefix.len() as int,
        ));
    }
    if prefix.is_prefix_of(trimmed(line)) {
        assert(rest.take(end).subrange(0, prefix.len() as int) =~= rest.subrange(
            0,
            prefix.len() as int,
        ));
    }
}

/// A banner is known by its start alone: the run of `=` stands in it.
pub proof fn lemma_separator_by_prefix(line: Seq<char>)
    ensures
        separator_comment_line(line) == ("# ===="@.is_prefix_of(trimmed_start(line))
            || "#! ===="@.is_prefix_of(trimmed_start(line))),
{
    let rest = trimmed_start(line);
    let run = "===="@;
    reveal_strlit("# ====");
    reveal_strlit("#! ====");
    reveal_strlit("====");
    if "# ===="@.is_prefix_of(rest) {
        let head = rest.subrange(0, 6);
        assert forall|k: int| 0 <= k < 4 implies rest.skip(2).subrange(0, 4)[k] == run[k] by {
            assert(head[k + 2] == "# ===="@[k + 2]);
        }
        assert(run.is_prefix_of(rest.skip(2)));
    }
    if "#! ===="@.is_prefix_of(rest) {
        let head = rest.subrange(0, 7);
        assert forall|k: int| 0 <= k < 4 implies rest.skip(3).subrange(0, 4)[k] == run[k] by {
            assert(head[k + 3] == "#! ===="@[k + 3]);
        }
        assert(run.is_prefix_of(rest.skip(3)));
    }
}

/// What a line is depends on its content alone: two lines with the same
/// trimmed text are of the same category, and each test on lines gives the
/// same for both.
pub proof fn lemma_kinds_by_content(a: Seq<char>, b: Seq<char>)
    requires
        trimmed(a) == trimmed(b),
    ensures
        classified(a) == classified(b),
        is_blank(a) == is_blank(b),
        comment_line(a) == comment_line(b),
        stack_comment_line(a) == stack_comment_line(b),
        separator_comment_line(a) == separator_comment_line(b),
        use_line(a) == use_line(b),
        proc_or_export_line(a) == proc_or_export_line(b),
        const_line(a) == const_line(b),
{
    reveal_strlit("#");
    reveal_strlit("# ====");
    reveal_strlit("#! ====");
    reveal_strlit("# => [");
    reveal_strlit("#! => [");
    reveal_strlit("use.");
    lemma_separator_by_prefix(a);
    lemma_separator_by_prefix(b);
    lemma_prefix_by_content(a, "#"@);
    lemma_prefix_by_content(b, "#"@);
    lemma_prefix_by_content(a, "# ===="@);
    lemma_prefix_by_content(b, "# ===="@);
    lemma_prefix_by_content(a, "#! ===="@);
    lemma_prefix_by_content(b, "#! ===="@);
    lemma_prefix_by_content(a, "# => ["@);
    lemma_prefix_by_content(b, "# => ["@);
    lemma_prefix_by_content(a, "#! => ["@);
    lemma_prefix_by_content(b, "#! => ["@);
    lemma_prefix_by_content(a, "use."@);
    lemma_prefix_by_content(b, "use."@);
}

/// The tests on a trimmed line give what they give on the line.
pub proof fn lemma_kinds_of_content(line: Seq<char>)
    ensures
        classified(trimmed(line)) == classified(line),
        line_type(trimmed(line)) == classified(line),
        comment_line(trimmed(line)) == comment_line(line),
        stack_comment_line(trimmed(line)) == stack_comment_line(line),
        separator_comment_line(trimmed(line)) == separator_comment_line(line),
        use_line(trimmed(line)) == use_line(line),
        proc_or_export_line(trimmed(line)) == proc_or_export_line(line),
        const_line(trimmed(line)) == const_line(line),
        is_blank(trimmed(line)) == is_blank(line),
{
    lemma_trimmed_twice(line);
    lemma_kinds_by_content(trimmed(line), line);
}

/// A comment is of one kind only: a stack comment is no banner.
pub proof fn comment_kinds_are_exclusive(line: Seq<char>)
    ensures
        !(stack_comment_line(line) && separator_comment_line(line)),
{
    reveal_strlit("# ====");
    reveal_strlit("#! ====");
    reveal_strlit("# => [");
    reveal_strlit("#! => [");
    let rest = trimmed_start(line);
    if stack_comment_line(line) && separator_comment_line(line) {
        if "# => ["@.is_prefix_of(rest) {
            assert(rest.subrange(0, 6)[3] == '>');
            assert(rest.subrange(0, 6)[1] == ' ');
            if "# ===="@.is_prefix_of(rest) {
                assert(rest.subrange(0, 6)[3] == '=');
            } else {
                assert(rest.subrange(0, 7)[1] == '!');
            }
        } else {
            assert(rest.subrange(0, 7)[4] == '>');
            assert(rest.subrange(0, 7)[1] == '!');
            if "# ===="@.is_prefix_of(rest) {
                assert(rest.subrange(0, 6)[1] == ' ');
            } else {
                assert(rest.subrange(0, 7)[4] == '=');
            }
        }
    }
}

/// The category says what the tests on the line give.
pub proof fn lemma_kind_tells(line: Seq<char>)
    ensures
        classified(line) == LineType::Empty <==> is_blank(line),
        classified(line) == LineType::Import ==> use_line(line) && !comment_line(line),
        classified(line) is Comment <==> comment_line(line) && !use_line(line),
        classified(line) == LineType::Comment(CommentKind::Stack) ==> stack_comment_line(line),
        classified(line) == LineType::Comment(CommentKind::Separator) <==> comment_line(line)
            && !use_line(line) && separator_comment_line(line) && !stack_comment_line(line),
        use_line(line) ==> classified(line) == LineType::Import,
        use_line(line) ==> !comment_line(line) && !is_blank(line),
{
    lemma_kinds_of_content(line);
    lemma_comment_is_not_blank(line);
    lemma_comment_is_not_blank(trimmed(line));
    reveal_strlit("#");
    reveal_strlit("use.");
    let t = trimmed(line);
    let rest = trimmed_start(t);
    lemma_trimmed_twice(line);
    if use_line(t) {
        assert(rest.subrange(0, 4)[0] == 'u');
        if comment_line(t) {
            assert(rest.subrange(0, 1)[0] == '#');
        }
    }
}

impl ConstructType {
    /// The keyword that `word` is, if it is one.
    pub fn from_str(word: &Vec<char>) -> (r: Option<ConstructType>)
        ensures
            r == construct_of(word@),
    {
        if is_text(word, "proc") {
            Some(ConstructType::Proc)
        } else if is_text(word, "export") {
            Some(ConstructType::Export)
        } else if is_text(word, "begin") {
            Some(ConstructType::Begin)
        } else if is_text(word, "end") {
            Some(ConstructType::End)
        } else if is_text(word, "while") {
            Some(ConstructType::While)
        } else if is_text(word, "repeat") {
            Some(ConstructType::Repeat)
        } else if is_text(word, "if") {
            Some(ConstructType::If)
        } else if is_text(word, "else") {
            Some(ConstructType::Else)
        } else {
            None
        }
    }
}

/// Whether the first character of the line that is no whitespace is `#`.
pub fn is_comment(line: &Vec<char>) -> (b: bool)
    ensures
        b == comment_line(line@),
{
    let a = leading_whitespace(line);
    starts_with_at(line, a, "#")
}

/// Whether the line is a comment that shows the operand stack.
pub fn is_stack_comment(line: &Vec<char>) -> (b: bool)
    ensures
        b == stack_comment_line(line@),
{
    let a = leading_whitespace(line);
    starts_with_at(line, a, "# => [") || starts_with_at(line, a, "#! => [")
}

/// Whether the line is a banner.
pub fn is_section_separator_comment(line: &Vec<char>) -> (b: bool)
    ensures
        b == separator_comment_line(line@),
{
    let a = leading_whitespace(line);
    let plain = starts_with_at(line, a, "# ====");
    let doc = starts_with_at(line, a, "#! ====");
    proof {
        let rest = trimmed_start(line@);
        let run = "===="@;
        reveal_strlit("# ====");
        reveal_strlit("#! ====");
        reveal_strlit("====");
        if plain {
            let head = rest.subrange(0, 6);
            assert forall|k: int| 0 <= k < 4 implies rest.skip(2).subrange(0, 4)[k] == run[k] by {
                assert(head[k + 2] == "# ===="@[k + 2]);
            }
            assert(run.is_prefix_of(rest.skip(2)));
        }
        if doc {
            let head = rest.subrange(0, 7);
            assert forall|k: int| 0 <= k < 4 implies rest.skip(3).subrange(0, 4)[k] == run[k] by {
                assert(head[k + 3] == "#! ===="@[k + 3]);
            }
            assert(run.is_prefix_of(rest.skip(3)));
        }
    }
    plain || doc
}

/// Whether the line is an import.
pub fn is_use_statement(line: &Vec<char>) -> (b: bool)
    ensures
        b == use_line(line@),
{
    let a = leading_whitespace(line);
    starts_with_at(line, a, "use.")
}

/// Whether the line is the header of a procedure or of an export.
pub fn is_proc_or_export(line: &Vec<char>) -> (b: bool)
    ensures
        b == proc_or_export_line(line@),
{
    let content = trim(line);
    starts_with(&content, "proc.") || starts_with(&content, "export.")
}

/// Whether the line declares a constant.
pub fn is_const_declaration(line: &Vec<char>) -> (b: bool)
    ensures
        b == const_line(line@),
{
    let content = trim(line);
    starts_with(&content, "const.")
}

/// Whether the text matches the pattern, as the regex crate decides it:
/// `regex::Regex::new` builds the expression from `pattern`, and
/// `Regex::is_match` searches the characters of `line` for it.
///
/// The contract is trusted, not proved. It is stated for the one pattern
/// that the library uses, and says what the syntax of the crate gives for
/// it: `^` and `$` anchor the match at both ends of the text, `export\.`
/// asks for `export.` at its start, `(?:(?:::)|(?:->))` for `::` or `->`
/// somewhere behind it, and each `.*` stands for any run of characters but
/// line feeds. The pattern is well formed, so building it does not fail.
#[verifier::external_body]
fn regex_is_match(pattern: &str, line: &Vec<char>) -> (found: bool)
    requires
        pattern@ == single_export_pattern(),
    ensures
        found == single_export_line(line@),
{
    let text: String = line.iter().collect();
    regex::Regex::new(pattern).unwrap().is_match(&text)
}

/// Whether the text is an export declared and defined on one line. The text
/// is taken as it stands: leading whitespace is not skipped.
pub fn is_single_export_line(line: &Vec<char>) -> (b: bool)
    ensures
        b == single_export_line(line@),
{
    regex_is_match(r"^export\..*(?:(?:::)|(?:->)).*$", line)
}

/// The category of a trimmed line.
pub fn line_type_of(line: &Vec<char>) -> (kind: LineType)
    ensures
        kind == line_type(line@),
{
    if line.len() == 0 {
        LineType::Empty
    } else if is_use_statement(line) {
        LineType::Import
    } else if is_comment(line) {
        if is_stack_comment(line) {
            LineType::Comment(CommentKind::Stack)
        } else if is_section_separator_comment(line) {
            LineType::Comment(CommentKind::Separator)
        } else {
            LineType::Comment(CommentKind::Plain)
        }
    } else if is_single_export_line(line) {
        LineType::SingleExport
    } else {
        let code = trim(&take_before(line, '#'));
        let word = take_before(&code, '.');
        match ConstructType::from_str(&word) {
            Some(construct) => LineType::Keyword(construct),
            None => LineType::Other,
        }
    }
}

/// The category of a line.
pub fn classify_line(line: &Vec<char>) -> (kind: LineType)
    ensures
        kind == classified(line@),
{
    let content = trim(line);
    line_type_of(&content)
}

} // verus!
