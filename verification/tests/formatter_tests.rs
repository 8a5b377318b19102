use masm_formatter::format_code;

#[test]
fn test_format_simple() {
    let input = "begin\nend";
    let expected_output = "begin\nend\n";
    assert_eq!(format_code(input), expected_output);
}

#[test]
fn test_format_if_else() {
    let input = "if\n    begin\n    end\nelse\n    begin\n    end\nend";
    let expected_output = "if\n    begin\n    end\nelse\n    begin\n    end\nend\n";
    assert_eq!(format_code(input), expected_output);
}

#[test]
fn test_format_complex() {
    let input = "begin\n    if\n        while\n        end\n    else\n        repeat\n        end\n    end\nend";
    let expected_output = "begin\n    if\n        while\n        end\n    else\n        repeat\n        end\n    end\nend\n";
    assert_eq!(format_code(input), expected_output);
}

#[test]
fn test_format_with_empty_lines() {
    let input = "begin\n\n    proc\n\n    end\n\nend";
    let expected_output = "begin\n\n    proc\n\n    end\n\nend\n";
    assert_eq!(format_code(input), expected_output);
}

#[test]
fn imports_are_sorted_before_the_body() {
    let output = format_code("use.b\nuse.a\nbegin\nend");
    assert_eq!(output, "use.a\nuse.b\n\nbegin\nend\n");
    assert!(output.find("use.a").unwrap() < output.find("use.b").unwrap());
}

#[test]
fn duplicate_imports_are_kept() {
    assert_eq!(format_code("use.a\n\nuse.a\nbegin\nend"), "use.a\nuse.a\n\nbegin\nend\n");
}

#[test]
fn import_groups_are_sorted_apart() {
    let input = "use.z\nuse.a\n# group\nuse.m\nuse.b\n\n\nconst.X=1\nbegin\nend";
    let expected = "use.a\nuse.z\n\n# group\n\nuse.b\nuse.m\n\nconst.X=1\nbegin\nend\n";
    assert_eq!(format_code(input), expected);
}

#[test]
fn imports_alone_end_with_one_newline() {
    assert_eq!(format_code("use.b\nuse.a"), "use.a\nuse.b\n");
}

#[test]
fn leading_comment_without_imports_gets_no_separator() {
    assert_eq!(format_code("# header\nbegin\nend"), "# header\nbegin\nend\n");
}

#[test]
fn else_is_aligned_with_its_if() {
    let output = format_code("if\nbegin\nend\nelse\nbegin\nend\nend");
    assert_eq!(output, "if\n    begin\n    end\nelse\n    begin\n    end\nend\n");
}

#[test]
fn canonical_text_is_a_fixed_point() {
    let text = "begin\n    if\n        while\n        end\n    else\n        repeat\n        end\n    end\nend\n";
    assert_eq!(format_code(text), text);
}

#[test]
fn formatting_twice_changes_nothing() {
    let inputs = [
        "begin\nend",
        "use.b\nuse.a\nbegin\nend",
        "proc.foo\n  push.1\n  # => [1]\n  add\nend\nproc.bar\n  nop\nend",
        "begin\n\n\n\nadd\n\n\nend\n\n",
        "export.foo\n# doc\n  add\nend",
        "",
    ];
    for input in inputs {
        let once = format_code(input);
        assert_eq!(format_code(&once), once);
    }
}

#[test]
fn output_ends_with_exactly_one_newline() {
    let inputs = ["begin\nend", "begin\nend\n\n\n\n", "", "   ", "\n\n\n", "add", "# c\n\n"];
    for input in inputs {
        let output = format_code(input);
        assert!(output.ends_with('\n'));
        assert!(!output.ends_with("\n\n"));
    }
}

#[test]
fn empty_input_gives_a_single_newline() {
    assert_eq!(format_code(""), "\n");
    assert_eq!(format_code("   \n\t\n"), "\n");
}

#[test]
fn blank_runs_collapse_to_one_line() {
    assert_eq!(format_code("begin\n\n\n\n\nadd\nend"), "begin\n\n    add\nend\n");
    assert_eq!(format_code("add\n\n\n\nsub\n  \n\t\n\nmul"), "add\n\nsub\n\nmul\n");
}

#[test]
fn leading_blank_lines_collapse_and_trailing_ones_go() {
    assert_eq!(format_code("\n\nbegin\nend\n\n\n"), "\nbegin\nend\n");
}

#[test]
fn single_line_export_is_flush_left() {
    let input = "begin\n  if.true\n export.foo::bar\n  end\nend";
    let expected = "begin\n    if.true\nexport.foo::bar\n    end\nend\n";
    assert_eq!(format_code(input), expected);
    assert_eq!(format_code("begin\nexport.a->b\nend"), "begin\nexport.a->b\nend\n");
}

#[test]
fn comment_after_single_line_export_is_flush_left() {
    let input = "begin\n  export.a::b\n  # after\n  add\nend";
    assert_eq!(format_code(input), "begin\nexport.a::b\n# after\n    add\nend\n");
}

#[test]
fn comment_after_export_header_is_one_level_deeper() {
    assert_eq!(format_code("export.foo\n# doc\n  add\nend"), "export.foo\n    # doc\n    add\nend\n");
}

#[test]
fn blank_between_comment_and_const_is_removed() {
    assert_eq!(
        format_code("begin\n# note\n\nconst.A=1\nend"),
        "begin\n    # note\n    const.A=1\nend\n"
    );
    assert_eq!(format_code("begin\n# c\n\n\nconst.A=1"), "begin\n    # c\n    const.A=1\n");
}

#[test]
fn blank_between_comment_and_declaration_is_removed() {
    assert_eq!(
        format_code("begin\n# c\n\nproc.x\nend\nend"),
        "begin\n    # c\n    proc.x\n    end\n\nend\n"
    );
    assert_eq!(
        format_code("begin\n# c\n\nexport.x\nend\nend"),
        "begin\n    # c\n    export.x\n    end\n\nend\n"
    );
}

#[test]
fn banner_keeps_its_blank_line() {
    assert_eq!(
        format_code("begin\n# ====\n\nproc.x\nend\nend"),
        "begin\n    # ====\n\n    proc.x\n    end\n\nend\n"
    );
    assert_eq!(
        format_code("begin\n# ====\n\n\nconst.A=1\nend"),
        "begin\n    # ====\n\n    const.A=1\nend\n"
    );
}

#[test]
fn blank_line_follows_the_end_of_a_procedure() {
    let input = "proc.foo\n  push.1\nend\nproc.bar\n  nop\nend";
    assert_eq!(format_code(input), "proc.foo\n    push.1\nend\n\nproc.bar\n    nop\nend\n");
    assert_eq!(format_code("begin\n    proc\n    end\nend"), "begin\n    proc\n    end\n\nend\n");
}

#[test]
fn stack_comment_is_parted_from_the_next_instruction() {
    let input = "proc.foo\n  push.1\n  # => [1]\n  add\nend";
    assert_eq!(format_code(input), "proc.foo\n    push.1\n    # => [1]\n\n    add\nend\n");
    assert_eq!(format_code("begin\n#! => [x]\nwhile.true\nend\nend"),
        "begin\n    #! => [x]\n\n    while.true\n    end\nend\n");
}

#[test]
fn stack_comment_before_end_or_else_gets_no_blank_line() {
    assert_eq!(format_code("begin\n# => [x]\nend"), "begin\n    # => [x]\nend\n");
    assert_eq!(format_code("if.true\n# => [x]\nelse\nadd\nend"),
        "if.true\n    # => [x]\nelse\n    add\nend\n");
}

#[test]
fn unbalanced_input_is_formatted_without_failure() {
    assert_eq!(format_code("end\nend\nelse\nadd"), "end\nend\nelse\n    add\n");
    assert_eq!(format_code("begin\nbegin\nadd"), "begin\n    begin\n        add\n");
}

#[test]
fn carriage_returns_and_unicode_whitespace_are_trimmed() {
    assert_eq!(format_code("begin\r\n  add\r\nend\r\n"), "begin\n    add\nend\n");
    assert_eq!(format_code("begin\n\u{a0}\u{2003}push.1\u{3000}\nend"), "begin\n    push.1\nend\n");
    assert_eq!(format_code("begin\n\tadd\t\nend"), "begin\n    add\nend\n");
}

#[test]
fn inline_comments_do_not_hide_keywords() {
    assert_eq!(
        format_code("begin # open\n  push.1 # one\nend # close"),
        "begin # open\n    push.1 # one\nend # close\n"
    );
}

#[test]
fn deep_nesting_uses_four_spaces_per_level() {
    let input = "repeat.4\nwhile.true\nif.true\nadd\nelse\nsub\nend\nend\nend";
    let expected = "repeat.4\n    while.true\n        if.true\n            add\n        else\n            sub\n        end\n    end\nend\n";
    assert_eq!(format_code(input), expected);
}

#[test]
fn tokens_are_not_altered() {
    let input = "begin\n   push.0x1F   mem_storew.3 dropw\nend";
    assert_eq!(format_code(input), "begin\n    push.0x1F   mem_storew.3 dropw\nend\n");
}

#[test]
fn non_ascii_text_is_carried_through() {
    assert_eq!(format_code("begin\n# caf\u{e9} \u{1f600}\nend"), "begin\n    # caf\u{e9} \u{1f600}\nend\n");
}

#[test]
fn text_without_comments_is_fixed_by_one_formatting() {
    let inputs = [
        "use.z\nuse.a\n\n\nconst.X=1\nproc.p\nadd\nend\n\n\nexport.q\nend\nbegin\nexec.p\nend",
        "\n\nuse.b\nuse.a",
        "proc.p\nif.true\nelse\nend\nend\nend\nexport.a::b\nadd",
        "  \n\t\n",
    ];
    for input in inputs {
        let once = format_code(input);
        assert_eq!(format_code(&once), once);
    }
}

#[test]
fn imports_between_comments_settle_at_the_second_formatting() {
    let once = format_code("use.b\n# c\nuse.a\nx");
    assert_eq!(once, "use.b\n\n# c\nuse.a\n\nx\n");
    let twice = format_code(&once);
    assert_eq!(twice, "use.b\n\n# c\n\nuse.a\n\nx\n");
    assert_eq!(format_code(&twice), twice);
}

#[test]
fn blank_line_before_const_stays_behind_a_comment_among_imports() {
    assert_eq!(format_code("use.a\n# c\n\nconst.X=1"), "use.a\n\n# c\n\nconst.X=1\n");
}

#[test]
fn formatting_keeps_the_content_of_each_line() {
    let input = "use.b\n  use.a\n# c\n\n\nproc.p\n   push.1   \n# => [1]\nadd\nend\nexport.x::y\n";
    let output = format_code(input);
    let mut before: Vec<&str> = input.lines().map(|l| l.trim()).filter(|l| !l.is_empty()).collect();
    let mut after: Vec<&str> = output.lines().map(|l| l.trim()).filter(|l| !l.is_empty()).collect();
    before.sort();
    after.sort();
    assert_eq!(before, after);
}

#[test]
fn one_blank_line_is_left_between_statements() {
    let output = format_code("begin\nadd\n\n\n\n\nsub\nend");
    assert_eq!(output, "begin\n    add\n\n    sub\nend\n");
    assert_eq!(format_code("add\n\nsub"), "add\n\nsub\n");
}
