use doxymark::ParseDoxygen;

fn render(input: &str) -> Option<String> {
    ParseDoxygen.process_comment(input)
}

#[test]
fn plain_text_passes_through_with_period() {
    assert_eq!(render("hello"), Some("hello.".to_string()));
}

#[test]
fn plain_text_keeps_inner_spacing() {
    assert_eq!(render("a  b"), Some("a  b.".to_string()));
}

#[test]
fn plain_text_outer_whitespace_trimmed() {
    assert_eq!(render("  hello  "), Some("hello.".to_string()));
}

#[test]
fn plain_text_no_period_after_punctuation() {
    assert_eq!(render("done!"), Some("done!".to_string()));
}

#[test]
fn brief_and_returns() {
    assert_eq!(
        render("@brief Draws a line.\n@return true on success"),
        Some("Draws a line..\n\nReturns true on success.".to_string())
    );
}

#[test]
fn brief_without_punctuation_gets_one_period_appended_twice() {
    assert_eq!(render("@brief Draws"), Some("Draws..".to_string()));
}

#[test]
fn deprecated_renders_first() {
    let out = render("@deprecated Use bar() instead.\n@brief B").unwrap();
    assert_eq!(out.lines().next().unwrap(), "**Deprecated: Use bar() instead.**");
}

#[test]
fn deprecated_alone() {
    assert_eq!(
        render("@deprecated Use bar() instead."),
        Some("**Deprecated: Use bar() instead.**".to_string())
    );
}

#[test]
fn deprecated_with_empty_body_is_kept() {
    assert_eq!(render("@deprecated"), Some("**Deprecated: **".to_string()));
}

#[test]
fn code_block_fenced() {
    let out = render("@code{.c}\nint x = 1;\n@endcode").unwrap();
    assert!(out.contains("```c\nint x = 1;\n```"));
    assert_eq!(out, "```c\nint x = 1;\n```");
}

#[test]
fn code_without_language_shape_is_plain_text() {
    assert_eq!(render("@code x"), Some("@code x.".to_string()));
}

#[test]
fn see_also_joined() {
    assert_eq!(render("@see foo\n@see bar"), Some("See also foo, bar.".to_string()));
}

#[test]
fn sa_is_see_also() {
    assert_eq!(render("@sa foo"), Some("See also foo.".to_string()));
}

#[test]
fn group_open_discards_earlier_sections() {
    assert_eq!(
        render("@brief Old text\n@{\n\nNew text"),
        Some("New text.".to_string())
    );
}

#[test]
fn whitespace_only_is_absent() {
    assert_eq!(render("   \n\t\n\n"), None);
}

#[test]
fn empty_input_is_absent() {
    assert_eq!(render(""), None);
}

#[test]
fn line_markers_stripped() {
    assert_eq!(
        render("!< first line\n!< second line"),
        Some("first line\nsecond line.".to_string())
    );
}

#[test]
fn lt_marker_stripped() {
    assert_eq!(render("< x"), Some("x.".to_string()));
}

#[test]
fn marker_not_at_line_start_kept() {
    assert_eq!(render("a < b"), Some("a < b.".to_string()));
}

#[test]
fn inline_emphasis() {
    assert_eq!(render("\\a foo"), Some("_foo_".to_string()));
}

#[test]
fn inline_bold() {
    assert_eq!(render("\\b foo"), Some("**foo**".to_string()));
}

#[test]
fn inline_reference() {
    assert_eq!(render("\\ref Window"), Some("[`Window`]".to_string()));
}

#[test]
fn inline_without_argument_stays_literal() {
    assert_eq!(render("\\a"), Some("\\a.".to_string()));
}

#[test]
fn inline_inside_sentence() {
    assert_eq!(render("use \\b bold text"), Some("use  **bold** text.".to_string()));
}

#[test]
fn unknown_command_is_plain_text() {
    assert_eq!(render("@foo bar"), Some("@foo bar.".to_string()));
}

#[test]
fn param_section_is_skipped() {
    assert_eq!(render("@brief B\n@param x the param\nrest"), Some("B..".to_string()));
}

#[test]
fn note_uppercases_first_character() {
    assert_eq!(render("@note lowercase start"), Some("Lowercase start.".to_string()));
}

#[test]
fn returns_lowercases_first_character() {
    assert_eq!(render("@return True"), Some("Returns true.".to_string()));
}

#[test]
fn returns_spliced_onto_last_message() {
    assert_eq!(
        render("@note Alpha\n@return beta"),
        Some("Alpha. Returns beta.".to_string())
    );
}

#[test]
fn empty_brief_does_not_overwrite() {
    assert_eq!(render("@brief Good\n@brief\n\nx"), Some("Good..\n\nx.".to_string()));
}

#[test]
fn backslash_commands_recognized() {
    assert_eq!(render("\\brief Draws"), Some("Draws..".to_string()));
}

#[test]
fn non_breaking_space_merges_into_token() {
    assert_eq!(render("a\u{a0}b"), Some("a\u{a0}b.".to_string()));
}

#[test]
fn blank_line_separates_paragraphs() {
    assert_eq!(render("one\n\ntwo"), Some("one.\n\ntwo.".to_string()));
}

#[test]
fn full_comment_all_sections() {
    let input = "@deprecated Old.\n@brief Quick summary\n@note Keep in mind\n@return a number\n@see other";
    let out = render(input).unwrap();
    assert_eq!(
        out,
        "**Deprecated: Old.**\n\nQuick summary..\n\nKeep in mind. Returns a number.\n\nSee also other."
    );
}

#[test]
fn marker_before_command_is_stripped() {
    assert_eq!(render("!< @brief Hi"), Some("Hi..".to_string()));
}

#[test]
fn group_close_is_plain_text() {
    assert_eq!(render("@}"), Some("@}".to_string()));
}

#[test]
fn note_case_forcing_skips_an_emptied_first_piece() {
    assert_eq!(render("@note \u{df}eta"), Some("\u{df}eta.".to_string()));
}

#[test]
fn note_uppercase_can_expand_to_two_characters() {
    assert_eq!(render("@note\u{df}eta"), Some("SSeta.".to_string()));
}

#[test]
fn text_after_leading_blank_paragraph_is_kept() {
    assert_eq!(render("\n\nx"), Some("x.".to_string()));
}

#[test]
fn command_after_leading_blank_line_is_kept() {
    assert_eq!(render("\n@brief Draws"), Some("Draws..".to_string()));
}

#[test]
fn text_after_middle_blank_paragraphs_is_kept() {
    assert_eq!(render("a\n\n \n\nb"), Some("a.\n\nb.".to_string()));
}

#[test]
fn sections_after_blank_paragraph_are_kept() {
    assert_eq!(
        render("\n \n@see foo\n@return x"),
        Some("Returns x.\n\nSee also foo.".to_string())
    );
}
