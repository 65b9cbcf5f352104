//! End-to-end tests of the rendering pipeline and its cleanup passes.

use mu::cleanup::{clean_markdown, strip_long_urls};
use mu::layout::{add_colors, format_table_row, is_header, is_table_row, visual_width};
use mu::render::{clean_text, is_html_content, render, render_plain};

#[test]
fn test_render_plain() {
    let input = "Hello world";
    let output = render(input, true).unwrap();
    assert_eq!(output.trim(), "Hello world");
}

#[test]
fn test_render_html() {
    let input = "<html><body><p>Hello</p></body></html>";
    let output = render(input, true).unwrap();
    assert!(output.contains("Hello"));
}

#[test]
fn test_strip_urls() {
    let input = "Check https://very-long-url.example.com/path/to/something here";
    let output = strip_long_urls(input);
    assert!(!output.contains("https://"));
}

#[test]
fn plain_path_passes_text_through() {
    let input = "plain text, no markup at all";
    assert_eq!(render(input, false).unwrap(), input);
    assert_eq!(render_plain(input, true), input);
}

#[test]
fn long_url_alone_renders_empty() {
    let input = format!("https://example.com/{}", "x".repeat(50));
    let output = render(&input, true).unwrap();
    assert_eq!(output.trim(), "");
}

#[test]
fn short_urls_survive_stripping() {
    let kept = format!("https://{}", "a".repeat(39));
    assert_eq!(strip_long_urls(&kept), kept);
    let dropped = format!("https://{}", "a".repeat(40));
    assert_eq!(strip_long_urls(&dropped), "");
}

#[test]
fn html_sniff_is_case_insensitive() {
    assert!(is_html_content("<HTML><p>x</p>"));
    assert!(is_html_content("prefix <BoDy> suffix"));
    assert!(is_html_content("<!DOCTYPE html>"));
    assert!(!is_html_content("a plain <p>paragraph</p>"));
}

#[test]
fn table_row_requires_all_conditions() {
    assert!(is_table_row("Label:    Value one"));
    // short line
    assert!(!is_table_row("Key:   Val"));
    // no colon
    assert!(!is_table_row("LabelValue without a colon"));
    // label too short
    assert!(!is_table_row("ab:    Value one padded"));
    // label too long (31 characters)
    assert!(!is_table_row("A234567890123456789012345678901:   Value"));
    // label holds a double slash
    assert!(!is_table_row("http//x.example:    Value one"));
    // label holds an at sign
    assert!(!is_table_row("Contact@host:    Value one"));
    // no double-space gap after the colon
    assert!(!is_table_row("LabelLabelLabel: Value single gap"));
    // nothing after the colon
    assert!(!is_table_row("LabelLabelLabel:"));
}

#[test]
fn no_break_spaces_count_as_whitespace() {
    // eleven no-break spaces center a header just as plain spaces do
    let line = format!("{}IMPORTANT NOTICE", "\u{a0}".repeat(11));
    assert!(is_header(&line));
    assert_eq!(mu::sync::truncate(&format!("x{}", '\u{a0}'), 10), format!("x{}", '\u{a0}'));
}

#[test]
fn header_detection() {
    // centered: eleven leading spaces, short trimmed text
    assert!(is_header("           IMPORTANT NOTICE"));
    // shouted: two all-caps words
    assert!(is_header("IMPORTANT NOTICE"));
    // lowercase words are no header
    assert!(!is_header("lower words here"));
    // one word is not enough
    assert!(!is_header("NOTICE"));
    // empty is no header
    assert!(!is_header("   "));
}

#[test]
fn section_title_gets_bold_yellow() {
    assert!(!is_header("Notes:"));
    assert_eq!(add_colors("Notes:"), "\u{1b}[1m\u{1b}[33mNotes:\u{1b}[0m");
}

#[test]
fn header_gets_bold_cyan() {
    assert_eq!(
        add_colors("IMPORTANT NOTICE"),
        "\u{1b}[1m\u{1b}[36mIMPORTANT NOTICE\u{1b}[0m"
    );
}

#[test]
fn table_rows_group_into_a_box() {
    let input = "Label:    Value one\nLabel2:   Value two";
    let output = add_colors(input);
    assert!(output.contains('\u{250C}'));
    assert!(output.contains('\u{2510}'));
    assert!(output.contains('\u{2514}'));
    assert!(output.contains('\u{2518}'));
    assert!(output.contains("\u{1b}[33mLabel:\u{1b}[0m"));
    assert!(output.contains("\u{1b}[33mLabel2:\u{1b}[0m"));
    let boxed_rows = output
        .lines()
        .filter(|l| l.contains('\u{2502}'))
        .count();
    assert_eq!(boxed_rows, 2);
}

#[test]
fn lone_table_row_stays_a_line() {
    let output = add_colors("Label:    Value one");
    assert!(!output.contains('\u{250C}'));
    assert!(output.contains("Value one"));
}

#[test]
fn format_table_row_colors_labels() {
    assert_eq!(
        format_table_row("Name:  Alice"),
        "\u{1b}[33mName:\u{1b}[0m  Alice"
    );
    // a bare colon is not a label
    assert_eq!(format_table_row(":  x"), ":  x");
}

#[test]
fn format_table_row_colors_whole_tokens_only() {
    // a colon inside a token does not make a label
    assert_eq!(format_table_row("ab:cd more"), "ab:cd more");
    // a token ending in a colon is wrapped whole
    assert_eq!(format_table_row("a:b: x"), "\u{1b}[33ma:b:\u{1b}[0m x");
    // a label must start with an alphabetic character
    assert_eq!(format_table_row(":x: y"), ":x: y");
}

#[test]
fn visual_width_counts_codepoints() {
    assert_eq!(visual_width("hello"), 5);
    assert_eq!(visual_width("h\u{e9}llo"), 5);
    assert_eq!(visual_width(""), 0);
}

#[test]
fn single_cell_list_row_becomes_emphasis() {
    assert_eq!(clean_markdown("- | some text |", false), "- **some text**");
    assert_eq!(clean_markdown("- |   |", false), "");
}

#[test]
fn single_cell_row_becomes_emphasis() {
    assert_eq!(clean_markdown("| some text |", false), "**some text**");
    assert_eq!(clean_markdown("| --- |", false), "");
}

#[test]
fn empty_cells_collapse() {
    assert_eq!(clean_markdown("| a | | b |", false), "| a | b |");
}

#[test]
fn frontmatter_is_removed() {
    assert_eq!(clean_markdown("---\ntitle: x\n---\nBody", false), "Body");
    assert_eq!(clean_markdown("---\nBody without closing", false), "Body without closing");
}

#[test]
fn duplicate_table_separators_drop() {
    let input = "| a | b |\n|---|---|\n|---|---|\n| 1 | 2 |";
    assert_eq!(clean_markdown(input, false), "| a | b |\n|---|---|\n| 1 | 2 |");
}

#[test]
fn markdown_links_rewrite_to_labels() {
    assert_eq!(clean_markdown("[Click](https://example.com/page)", true), "Click");
    assert_eq!(clean_markdown("see <https://example.com/foo> now", true), "see  now");
    assert_eq!(clean_markdown("[Bob](mailto:bob@example.com)", true), "Bob");
    // without stripping, links stay
    assert_eq!(
        clean_markdown("[Click](https://example.com/page)", false),
        "[Click](https://example.com/page)"
    );
}

#[test]
fn invisible_characters_vanish() {
    assert_eq!(clean_markdown("a\u{200B}b\u{FEFF}c\u{200D}d\u{200C}e\u{34F}f", false), "abcdef");
}

#[test]
fn blank_line_runs_collapse_to_one() {
    assert_eq!(clean_markdown("a\n\n\n\n\nb", false), "a\n\nb");
    assert!(!clean_text("a\n\n\n\n\nb", false).contains("\n\n\n"));
}

#[test]
fn cleanup_is_idempotent_on_its_output() {
    let input = "---\nx: 1\n---\n| a | | b |\n\n\n\n- | text |\nPlain line";
    let once = clean_markdown(input, true);
    let twice = clean_markdown(&once, true);
    assert_eq!(twice, once);
}

#[test]
fn html_conversion_rewrites_markup() {
    let output = render("<html><body><p>Hello</p></body></html>", true).unwrap();
    assert!(!output.contains("<p>"));
    assert!(!output.contains("<html"));
}
