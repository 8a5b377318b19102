use masm_formatter::line::{
    classify_line, is_comment, is_const_declaration, is_proc_or_export,
    is_section_separator_comment, is_single_export_line, is_stack_comment, is_use_statement,
    line_type_of, CommentKind, ConstructType, LineType,
};

fn line(s: &str) -> Vec<char> {
    s.chars().collect()
}

#[test]
fn keywords_are_recognised() {
    assert_eq!(ConstructType::from_str(&line("proc")), Some(ConstructType::Proc));
    assert_eq!(ConstructType::from_str(&line("export")), Some(ConstructType::Export));
    assert_eq!(ConstructType::from_str(&line("begin")), Some(ConstructType::Begin));
    assert_eq!(ConstructType::from_str(&line("end")), Some(ConstructType::End));
    assert_eq!(ConstructType::from_str(&line("while")), Some(ConstructType::While));
    assert_eq!(ConstructType::from_str(&line("repeat")), Some(ConstructType::Repeat));
    assert_eq!(ConstructType::from_str(&line("if")), Some(ConstructType::If));
    assert_eq!(ConstructType::from_str(&line("else")), Some(ConstructType::Else));
}

#[test]
fn other_words_are_no_keywords() {
    assert_eq!(ConstructType::from_str(&line("")), None);
    assert_eq!(ConstructType::from_str(&line("ends")), None);
    assert_eq!(ConstructType::from_str(&line("en")), None);
    assert_eq!(ConstructType::from_str(&line("End")), None);
    assert_eq!(ConstructType::from_str(&line("const")), None);
    assert_eq!(ConstructType::from_str(&line(" end")), None);
}

#[test]
fn comments_start_with_a_hash() {
    assert!(is_comment(&line("# note")));
    assert!(is_comment(&line("   #! doc")));
    assert!(is_comment(&line("#")));
    assert!(!is_comment(&line("add # note")));
    assert!(!is_comment(&line("")));
}

#[test]
fn stack_comments_show_the_stack() {
    assert!(is_stack_comment(&line("# => [a, b]")));
    assert!(is_stack_comment(&line("  #! => [a]")));
    assert!(!is_stack_comment(&line("# =>[a]")));
    assert!(!is_stack_comment(&line("# note => [a]")));
    assert!(!is_stack_comment(&line("#!=> [")));
}

#[test]
fn banners_start_with_four_equal_signs() {
    assert!(is_section_separator_comment(&line("# ==== Section ====")));
    assert!(is_section_separator_comment(&line("#! ====")));
    assert!(is_section_separator_comment(&line("   # =====")));
    assert!(!is_section_separator_comment(&line("# === three")));
    assert!(!is_section_separator_comment(&line("#====")));
    assert!(!is_section_separator_comment(&line("# note ====")));
}

#[test]
fn imports_start_with_use() {
    assert!(is_use_statement(&line("use.std::math")));
    assert!(is_use_statement(&line("  use.x")));
    assert!(!is_use_statement(&line("use")));
    assert!(!is_use_statement(&line("reuse.x")));
}

#[test]
fn declarations_are_recognised() {
    assert!(is_proc_or_export(&line("proc.foo")));
    assert!(is_proc_or_export(&line("  export.foo  ")));
    assert!(!is_proc_or_export(&line("proc")));
    assert!(!is_proc_or_export(&line("procedure")));
    assert!(is_const_declaration(&line("const.A=1")));
    assert!(is_const_declaration(&line("\tconst.A=1")));
    assert!(!is_const_declaration(&line("const")));
    assert!(!is_const_declaration(&line("# const.A")));
}

#[test]
fn single_line_export_needs_a_path_or_an_arrow() {
    assert!(is_single_export_line(&line("export.foo::bar")));
    assert!(is_single_export_line(&line("export.foo->bar")));
    assert!(is_single_export_line(&line("export.::")));
    assert!(is_single_export_line(&line("export.a # see b::c")));
    assert!(!is_single_export_line(&line("export.foo")));
    assert!(!is_single_export_line(&line("export.foo:bar")));
    assert!(!is_single_export_line(&line("export.foo-bar>")));
    assert!(!is_single_export_line(&line("export::foo")));
    assert!(!is_single_export_line(&line("exports.a::b")));
    assert!(!is_single_export_line(&line("")));
}

#[test]
fn single_line_export_is_anchored_at_the_start() {
    assert!(!is_single_export_line(&line(" export.foo::bar")));
    assert!(!is_single_export_line(&line("pub export.foo::bar")));
}

#[test]
fn single_line_export_stops_at_a_line_feed() {
    assert!(!is_single_export_line(&line("export.foo\n::bar")));
    assert!(!is_single_export_line(&line("export.foo::bar\n")));
    assert!(!is_single_export_line(&line("export.foo::bar\nmore")));
    assert!(is_single_export_line(&line("export.foo::bar\r")));
}

#[test]
fn classifier_follows_the_precedence() {
    assert_eq!(classify_line(&line("")), LineType::Empty);
    assert_eq!(classify_line(&line("  \t ")), LineType::Empty);
    assert_eq!(classify_line(&line(" use.a::b ")), LineType::Import);
    assert_eq!(classify_line(&line("# note")), LineType::Comment(CommentKind::Plain));
    assert_eq!(classify_line(&line("  # => [a]")), LineType::Comment(CommentKind::Stack));
    assert_eq!(classify_line(&line("#! ==== x")), LineType::Comment(CommentKind::Separator));
    assert_eq!(classify_line(&line(" export.a::b")), LineType::SingleExport);
    assert_eq!(classify_line(&line("export.a")), LineType::Keyword(ConstructType::Export));
    assert_eq!(classify_line(&line("proc.foo.2")), LineType::Keyword(ConstructType::Proc));
    assert_eq!(classify_line(&line("if.true")), LineType::Keyword(ConstructType::If));
    assert_eq!(classify_line(&line("end # done")), LineType::Keyword(ConstructType::End));
    assert_eq!(classify_line(&line("const.A=1")), LineType::Other);
    assert_eq!(classify_line(&line("push.1")), LineType::Other);
    assert_eq!(classify_line(&line("ending")), LineType::Other);
    assert_eq!(classify_line(&line("exportx")), LineType::Other);
}

#[test]
fn a_trimmed_line_is_classified_as_it_stands() {
    assert_eq!(line_type_of(&line("begin")), LineType::Keyword(ConstructType::Begin));
    assert_eq!(line_type_of(&line(" export.a::b")), LineType::Keyword(ConstructType::Export));
    assert_eq!(line_type_of(&line("else.x")), LineType::Keyword(ConstructType::Else));
    assert_eq!(line_type_of(&line("while .true")), LineType::Other);
}
