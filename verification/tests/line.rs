use clip_indent::indent::{is_indent_char, push_normalized_line};
use clip_indent::normalize_line;

#[test]
fn only_space_and_tab_are_indentation() {
    assert!(is_indent_char(' '));
    assert!(is_indent_char('\t'));
    assert!(!is_indent_char('\n'));
    assert!(!is_indent_char('\r'));
    assert!(!is_indent_char('a'));
    assert!(!is_indent_char('\u{a0}'));
    assert!(!is_indent_char('\u{b}'));
}

#[test]
fn normalize_line_replaces_the_leading_run() {
    assert_eq!(normalize_line("  \t ax", 2), "        ax");
    assert_eq!(normalize_line("  foo", 2), "    foo");
    assert_eq!(normalize_line("    bar", 2), "        bar");
    assert_eq!(normalize_line("\t\tx", 7), "        x");
}

#[test]
fn normalize_line_of_nothing_is_nothing() {
    assert_eq!(normalize_line("", 0), "");
    assert_eq!(normalize_line("", 2), "");
}

#[test]
fn normalize_line_keeps_an_unindented_line() {
    assert_eq!(normalize_line("abc  \t", 2), "abc  \t");
    assert_eq!(normalize_line("x y", 1), "x y");
}

#[test]
fn normalize_line_drops_the_remainder() {
    assert_eq!(normalize_line("     x", 2), "        x");
    assert_eq!(normalize_line("     x", 3), "    x");
    assert_eq!(normalize_line("     x", 6), "x");
}

#[test]
fn normalize_line_with_threshold_one_gives_a_block_per_space() {
    assert_eq!(normalize_line("  x", 1), "        x");
    assert_eq!(normalize_line(" \t x", 1), "            x");
}

#[test]
fn normalize_line_reads_past_the_run_as_content() {
    assert_eq!(normalize_line("  a\n  b", 2), "    a\n  b");
    assert_eq!(normalize_line("  a  ", 2), "    a  ");
}

#[test]
fn push_normalized_line_appends_to_what_is_there() {
    let mut out = String::from("head:");
    push_normalized_line(&mut out, "  x", 2);
    assert_eq!(out, "head:    x");
    push_normalized_line(&mut out, "\ty", 2);
    assert_eq!(out, "head:    x    y");
    push_normalized_line(&mut out, "", 2);
    assert_eq!(out, "head:    x    y");
}
