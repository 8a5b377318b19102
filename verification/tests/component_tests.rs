use masm_formatter::blank_lines::{normalize, strip_trailing_blanks};
use masm_formatter::format::{format_chars, format_lines};
use masm_formatter::imports::{has_import, process_import_section};
use masm_formatter::indent::{indent_body, IndentState};
use masm_formatter::line::{CommentKind, ConstructType, LineType};
use masm_formatter::order::{insert_line, line_precedes, sort_lines};
use masm_formatter::text::{
    char_is_whitespace, chars_of, copy_line, indent, is_text, join_lines, last_content,
    leading_whitespace, line_is_blank, push_line, split_lines, starts_with, starts_with_at,
    string_of, take_before, trim,
};

fn text(s: &str) -> Vec<char> {
    s.chars().collect()
}

fn texts(lines: &[&str]) -> Vec<Vec<char>> {
    lines.iter().map(|l| text(l)).collect()
}

fn strings(lines: &Vec<Vec<char>>) -> Vec<String> {
    lines.iter().map(|l| l.iter().collect()).collect()
}

#[test]
fn whitespace_is_the_unicode_property() {
    for c in [' ', '\t', '\n', '\u{b}', '\u{c}', '\r', '\u{85}', '\u{a0}', '\u{1680}', '\u{2000}',
        '\u{200a}', '\u{2028}', '\u{2029}', '\u{202f}', '\u{205f}', '\u{3000}'] {
        assert!(char_is_whitespace(c));
    }
    for c in ['a', '#', '.', '\u{8}', '\u{e}', '\u{200b}', '\u{180e}', '\u{feff}', '\u{0}'] {
        assert!(!char_is_whitespace(c));
    }
}

#[test]
fn whitespace_agrees_with_the_standard_library() {
    let mut code: u32 = 0;
    while code < 0x11000 {
        if let Some(c) = char::from_u32(code) {
            assert_eq!(char_is_whitespace(c), c.is_whitespace());
        }
        code += 1;
    }
}

#[test]
fn trim_takes_whitespace_from_both_ends() {
    assert_eq!(trim(&text("  a b \t")), text("a b"));
    assert_eq!(trim(&text("a")), text("a"));
    assert_eq!(trim(&text(" \n ")), text(""));
    assert_eq!(trim(&text("")), text(""));
    assert_eq!(leading_whitespace(&text("   x ")), 3);
    assert_eq!(leading_whitespace(&text("  ")), 2);
}

#[test]
fn trim_agrees_with_the_standard_library() {
    for s in ["", " ", "a", " a", "a ", "\u{a0}a b\u{3000}", "\t\r\n", "  # x  y  "] {
        assert_eq!(string_of(&trim(&text(s))), s.trim());
    }
}

#[test]
fn prefixes_are_compared_by_characters() {
    assert!(starts_with(&text("use.a"), "use."));
    assert!(starts_with(&text("use."), "use."));
    assert!(starts_with(&text("x"), ""));
    assert!(!starts_with(&text("use"), "use."));
    assert!(!starts_with(&text("usd.a"), "use."));
    assert!(starts_with_at(&text("  # x"), 2, "# "));
    assert!(!starts_with_at(&text("  # x"), 1, "# "));
    assert!(starts_with_at(&text("ab"), 2, ""));
    assert!(is_text(&text("end"), "end"));
    assert!(!is_text(&text("ends"), "end"));
    assert!(!is_text(&text("en"), "end"));
}

#[test]
fn take_before_cuts_at_the_first_match() {
    assert_eq!(take_before(&text("a.b.c"), '.'), text("a"));
    assert_eq!(take_before(&text("abc"), '.'), text("abc"));
    assert_eq!(take_before(&text(".a"), '.'), text(""));
    assert_eq!(take_before(&text(""), '#'), text(""));
}

#[test]
fn lines_are_split_at_line_feeds() {
    assert_eq!(split_lines(&text("")), texts(&[]));
    assert_eq!(split_lines(&text("a")), texts(&["a"]));
    assert_eq!(split_lines(&text("a\n")), texts(&["a"]));
    assert_eq!(split_lines(&text("a\n\n")), texts(&["a", ""]));
    assert_eq!(split_lines(&text("\n")), texts(&[""]));
    assert_eq!(split_lines(&text("a\nb")), texts(&["a", "b"]));
    assert_eq!(split_lines(&text("a\r\nb\r\n")), texts(&["a\r", "b\r"]));
}

#[test]
fn lines_are_joined_with_a_line_feed_each() {
    assert_eq!(join_lines(&texts(&[])), text(""));
    assert_eq!(join_lines(&texts(&["a"])), text("a\n"));
    assert_eq!(join_lines(&texts(&["a", "", "b"])), text("a\n\nb\n"));
}

#[test]
fn indent_puts_four_spaces_per_level() {
    assert_eq!(indent(0, &text("x")), text("x"));
    assert_eq!(indent(1, &text("x")), text("    x"));
    assert_eq!(indent(3, &text("x y")), text("            x y"));
}

#[test]
fn strings_and_characters_convert_both_ways() {
    assert_eq!(chars_of("a\u{e9}\u{1f600}"), vec!['a', '\u{e9}', '\u{1f600}']);
    assert_eq!(string_of(&vec!['a', '\u{e9}', '\u{1f600}']), "a\u{e9}\u{1f600}");
    assert_eq!(string_of(&chars_of("")), "");
    assert_eq!(copy_line(&text("abc")), text("abc"));
}

#[test]
fn blank_lines_hold_whitespace_only() {
    assert!(line_is_blank(&text("")));
    assert!(line_is_blank(&text(" \t\u{a0}")));
    assert!(!line_is_blank(&text(" . ")));
    assert_eq!(last_content(&texts(&["a", "", "b", " ", ""])), 3);
    assert_eq!(last_content(&texts(&["", " "])), 0);
    assert_eq!(last_content(&texts(&[])), 0);
}

#[test]
fn push_line_appends() {
    let mut lines = texts(&["a"]);
    push_line(&mut lines, text("b"));
    assert_eq!(lines, texts(&["a", "b"]));
}

#[test]
fn lines_are_ordered_by_characters() {
    assert!(line_precedes(&text(""), &text("")));
    assert!(line_precedes(&text(""), &text("a")));
    assert!(!line_precedes(&text("a"), &text("")));
    assert!(line_precedes(&text("ab"), &text("ab")));
    assert!(line_precedes(&text("ab"), &text("abc")));
    assert!(!line_precedes(&text("abc"), &text("ab")));
    assert!(line_precedes(&text("abz"), &text("ac")));
    assert!(line_precedes(&text("B"), &text("a")));
    assert!(line_precedes(&text("z"), &text("\u{e9}")));
}

#[test]
fn order_agrees_with_the_order_of_strings() {
    let words = ["", "a", "ab", "b", "B", "use.a", "use.a::b", "use.b", "\u{e9}", "z\u{1f600}", "z"];
    for a in words {
        for b in words {
            assert_eq!(line_precedes(&text(a), &text(b)), a <= b);
        }
    }
}

#[test]
fn sort_orders_and_keeps_duplicates() {
    let sorted = sort_lines(&texts(&["use.b", "use.a", "use.c::d", "use.a", "use.b::a"]));
    assert_eq!(strings(&sorted), ["use.a", "use.a", "use.b", "use.b::a", "use.c::d"]);
    assert_eq!(sort_lines(&texts(&[])), texts(&[]));
    let mut lines = texts(&["a", "c"]);
    insert_line(&mut lines, text("b"));
    insert_line(&mut lines, text("d"));
    insert_line(&mut lines, text(""));
    assert_eq!(strings(&lines), ["", "a", "b", "c", "d"]);
}

#[test]
fn import_section_stops_at_the_first_content() {
    let (preamble, start) = process_import_section(&texts(&["use.b", "use.a", "begin", "use.0"]));
    assert_eq!(strings(&preamble), ["use.a", "use.b"]);
    assert_eq!(start, 2);
    assert!(has_import(&preamble));
}

#[test]
fn import_section_stops_at_a_constant_and_keeps_the_imports() {
    let (preamble, start) = process_import_section(&texts(&["use.b", "use.a", "const.X=1"]));
    assert_eq!(strings(&preamble), ["use.a", "use.b"]);
    assert_eq!(start, 2);
}

#[test]
fn import_section_flushes_at_comments() {
    let (preamble, start) =
        process_import_section(&texts(&["  use.b ", "use.a", " # next", "use.d", "use.c"]));
    assert_eq!(strings(&preamble), ["use.a", "use.b", "", "# next", "use.c", "use.d"]);
    assert_eq!(start, 5);
}

#[test]
fn import_section_collapses_blank_lines() {
    let (preamble, start) =
        process_import_section(&texts(&["", "# a", "", "", "# b", "", "begin"]));
    assert_eq!(strings(&preamble), ["# a", "", "# b", ""]);
    assert_eq!(start, 6);
    assert!(!has_import(&preamble));
}

#[test]
fn import_section_leaves_leading_blank_lines_to_the_body() {
    let (preamble, start) = process_import_section(&texts(&["", "", "begin"]));
    assert_eq!(preamble, texts(&[]));
    assert_eq!(start, 0);
    let (preamble, start) = process_import_section(&texts(&[]));
    assert_eq!(preamble, texts(&[]));
    assert_eq!(start, 0);
}

#[test]
fn machine_starts_with_no_block_open() {
    let state = IndentState::new(None);
    assert_eq!(state.indentation_level, 0);
    assert!(state.construct_stack.is_empty());
    assert_eq!(state.last_kind, None);
    assert_eq!(state.last_level, 0);
}

#[test]
fn opening_keywords_push_and_indent() {
    let mut state = IndentState::new(None);
    let mut out = Vec::new();
    state.step(&text("  proc.foo"), false, true, &mut out);
    state.step(&text("if.true"), false, true, &mut out);
    assert_eq!(strings(&out), ["proc.foo", "    if.true"]);
    assert_eq!(state.indentation_level, 2);
    assert_eq!(state.construct_stack, vec![ConstructType::Proc, ConstructType::If]);
    assert_eq!(state.last_kind, Some(LineType::Keyword(ConstructType::If)));
    assert_eq!(state.last_level, 1);
}

#[test]
fn end_pops_and_dedents() {
    let mut state = IndentState {
        indentation_level: 2,
        construct_stack: vec![ConstructType::Begin, ConstructType::While],
        last_kind: Some(LineType::Other),
        last_level: 2,
    };
    let mut out = Vec::new();
    state.step(&text("end"), false, true, &mut out);
    assert_eq!(strings(&out), ["    end"]);
    assert_eq!(state.indentation_level, 1);
    assert_eq!(state.construct_stack, vec![ConstructType::Begin]);
}

#[test]
fn end_with_nothing_open_keeps_the_depth() {
    let mut state = IndentState {
        indentation_level: 3,
        construct_stack: vec![],
        last_kind: None,
        last_level: 0,
    };
    let mut out = Vec::new();
    state.step(&text("end"), false, true, &mut out);
    assert_eq!(strings(&out), ["            end"]);
    assert_eq!(state.indentation_level, 3);
}

#[test]
fn end_at_depth_zero_stays_at_zero() {
    let mut state = IndentState {
        indentation_level: 0,
        construct_stack: vec![ConstructType::Begin],
        last_kind: None,
        last_level: 0,
    };
    let mut out = Vec::new();
    state.step(&text("end"), false, false, &mut out);
    assert_eq!(strings(&out), ["end"]);
    assert_eq!(state.indentation_level, 0);
    assert!(state.construct_stack.is_empty());
}

#[test]
fn end_of_an_end_frame_keeps_the_depth() {
    let mut state = IndentState {
        indentation_level: 2,
        construct_stack: vec![ConstructType::End],
        last_kind: None,
        last_level: 0,
    };
    let mut out = Vec::new();
    state.step(&text("end"), false, true, &mut out);
    assert_eq!(strings(&out), ["        end"]);
    assert_eq!(state.indentation_level, 2);
    assert!(state.construct_stack.is_empty());
}

#[test]
fn end_of_procedure_is_followed_by_a_blank_line_when_content_follows() {
    let mut state = IndentState {
        indentation_level: 1,
        construct_stack: vec![ConstructType::Proc],
        last_kind: Some(LineType::Other),
        last_level: 1,
    };
    let mut out = Vec::new();
    state.step(&text("end"), false, true, &mut out);
    assert_eq!(strings(&out), ["end", ""]);
    assert_eq!(state.last_kind, Some(LineType::Empty));

    let mut state = IndentState {
        indentation_level: 1,
        construct_stack: vec![ConstructType::Export],
        last_kind: Some(LineType::Other),
        last_level: 1,
    };
    let mut out = Vec::new();
    state.step(&text("end"), false, false, &mut out);
    assert_eq!(strings(&out), ["end"]);
    assert_eq!(state.last_kind, Some(LineType::Keyword(ConstructType::End)));
}

#[test]
fn else_dedents_only_under_an_if() {
    let mut state = IndentState {
        indentation_level: 2,
        construct_stack: vec![ConstructType::Begin, ConstructType::If],
        last_kind: Some(LineType::Other),
        last_level: 2,
    };
    let mut out = Vec::new();
    state.step(&text("else"), false, true, &mut out);
    assert_eq!(strings(&out), ["    else"]);
    assert_eq!(state.indentation_level, 2);
    assert_eq!(state.construct_stack, vec![ConstructType::Begin, ConstructType::If]);

    let mut state = IndentState {
        indentation_level: 1,
        construct_stack: vec![ConstructType::While],
        last_kind: None,
        last_level: 0,
    };
    let mut out = Vec::new();
    state.step(&text("else"), false, true, &mut out);
    assert_eq!(strings(&out), ["    else"]);
    assert_eq!(state.indentation_level, 2);
}

#[test]
fn blank_line_is_written_once() {
    let mut state = IndentState::new(None);
    let mut out = Vec::new();
    state.step(&text("  "), false, true, &mut out);
    state.step(&text(""), false, true, &mut out);
    state.step(&text("\t"), true, true, &mut out);
    assert_eq!(strings(&out), [""]);
    assert_eq!(state.last_kind, Some(LineType::Empty));
}

#[test]
fn blank_line_between_comment_and_constant_is_not_written() {
    let mut state = IndentState::new(Some(LineType::Comment(CommentKind::Separator)));
    let mut out = Vec::new();
    state.step(&text(""), true, true, &mut out);
    assert_eq!(out, texts(&[]));
    assert_eq!(state.last_kind, Some(LineType::Comment(CommentKind::Separator)));
    state.step(&text(""), false, true, &mut out);
    assert_eq!(strings(&out), [""]);
}

#[test]
fn single_line_export_ignores_the_depth() {
    let mut state = IndentState {
        indentation_level: 3,
        construct_stack: vec![ConstructType::Begin],
        last_kind: Some(LineType::Comment(CommentKind::Stack)),
        last_level: 3,
    };
    let mut out = Vec::new();
    state.step(&text("   export.foo::bar  "), false, true, &mut out);
    assert_eq!(strings(&out), ["export.foo::bar"]);
    assert_eq!(state.indentation_level, 3);
    assert_eq!(state.last_kind, Some(LineType::SingleExport));
    state.step(&text("# c"), false, true, &mut out);
    state.step(&text("# d"), false, true, &mut out);
    assert_eq!(strings(&out), ["export.foo::bar", "# c", "            # d"]);
}

#[test]
fn comment_behind_an_export_header_stands_one_deeper_than_the_header() {
    let mut state = IndentState {
        indentation_level: 5,
        construct_stack: vec![ConstructType::Export],
        last_kind: Some(LineType::Keyword(ConstructType::Export)),
        last_level: 1,
    };
    let mut out = Vec::new();
    state.step(&text("#! doc"), false, true, &mut out);
    assert_eq!(strings(&out), ["        #! doc"]);
    assert_eq!(state.last_level, 2);
    assert_eq!(state.indentation_level, 5);
}

#[test]
fn stack_comment_parts_the_next_line() {
    let mut state = IndentState::new(Some(LineType::Comment(CommentKind::Stack)));
    let mut out = Vec::new();
    state.step(&text("add"), false, true, &mut out);
    assert_eq!(strings(&out), ["", "add"]);
    let mut state = IndentState::new(Some(LineType::Comment(CommentKind::Stack)));
    let mut out = Vec::new();
    state.step(&text("use.x"), false, true, &mut out);
    assert_eq!(strings(&out), ["", "use.x"]);
    let mut state = IndentState::new(Some(LineType::Comment(CommentKind::Plain)));
    let mut out = Vec::new();
    state.step(&text("add"), false, true, &mut out);
    assert_eq!(strings(&out), ["add"]);
}

#[test]
fn body_is_indented_from_the_given_start() {
    let lines = texts(&["use.a", "begin", "add", "", "", "end", "", ""]);
    let mut state = IndentState::new(Some(LineType::Empty));
    let mut out = texts(&["use.a", ""]);
    indent_body(&lines, 1, &mut state, &mut out);
    assert_eq!(strings(&out), ["use.a", "", "begin", "    add", "", "end", ""]);
    assert_eq!(state.indentation_level, 0);
}

#[test]
fn normalizer_collapses_blank_runs() {
    let out = normalize(&texts(&["a", "", " ", "", "b", "  ", "c", ""]));
    assert_eq!(strings(&out), ["a", "", "b", "  ", "c", ""]);
    assert_eq!(normalize(&texts(&["", "", "a"])), texts(&["", "a"]));
    assert_eq!(normalize(&texts(&[])), texts(&[]));
}

#[test]
fn normalizer_drops_the_blank_line_between_comment_and_declaration() {
    assert_eq!(strings(&normalize(&texts(&["# c", "", "proc.x"]))), ["# c", "proc.x"]);
    assert_eq!(strings(&normalize(&texts(&["  # c", "", "  export.x"]))), ["  # c", "  export.x"]);
    assert_eq!(strings(&normalize(&texts(&["#! c", "", "const.A=1"]))), ["#! c", "const.A=1"]);
    assert_eq!(strings(&normalize(&texts(&["# c", "", "begin"]))), ["# c", "", "begin"]);
    assert_eq!(strings(&normalize(&texts(&["add", "", "proc.x"]))), ["add", "", "proc.x"]);
    assert_eq!(strings(&normalize(&texts(&["# c", ""]))), ["# c", ""]);
}

#[test]
fn normalizer_keeps_the_blank_line_behind_a_banner() {
    assert_eq!(strings(&normalize(&texts(&["# ==== A", "", "proc.x"]))), ["# ==== A", "", "proc.x"]);
    assert_eq!(strings(&normalize(&texts(&["#! ====", "", "const.A=1"]))), ["#! ====", "", "const.A=1"]);
}

#[test]
fn normalizer_keeps_one_line_of_a_wide_gap() {
    assert_eq!(strings(&normalize(&texts(&["# c", "", "", "const.A=1"]))), ["# c", "", "const.A=1"]);
}

#[test]
fn trailing_blank_lines_are_stripped() {
    let mut lines = texts(&["a", "", "b", " ", ""]);
    strip_trailing_blanks(&mut lines);
    assert_eq!(strings(&lines), ["a", "", "b"]);
    let mut lines = texts(&["", ""]);
    strip_trailing_blanks(&mut lines);
    assert_eq!(lines, texts(&[]));
}

#[test]
fn lines_are_formatted_as_the_text_is() {
    let out = format_lines(&texts(&["use.b", "use.a", "begin", "add", "end"]));
    assert_eq!(strings(&out), ["use.a", "use.b", "", "begin", "    add", "end"]);
    assert_eq!(format_lines(&texts(&["", " "])), texts(&[]));
    assert_eq!(format_chars(&text("begin\nadd\nend")), text("begin\n    add\nend\n"));
    assert_eq!(format_chars(&text("")), text("\n"));
}

#[test]
fn separator_is_due_only_behind_imports_and_before_content() {
    assert_eq!(strings(&format_lines(&texts(&["use.a", "", "begin"]))), ["use.a", "", "begin"]);
    assert_eq!(strings(&format_lines(&texts(&["use.a", "begin"]))), ["use.a", "", "begin"]);
    assert_eq!(strings(&format_lines(&texts(&["# c", "begin"]))), ["# c", "begin"]);
    assert_eq!(
        strings(&format_lines(&texts(&["use.a", "# c", "", "const.X=1"]))),
        ["use.a", "", "# c", "", "const.X=1"]
    );
}
