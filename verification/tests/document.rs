use clip_indent::{clipboard_list_to_slack, normalize};

fn rewritten(threshold: usize, input: &str) -> String {
    let mut text = String::from(input);
    clipboard_list_to_slack(threshold, &mut text);
    text
}

fn content_of(line: &str) -> &str {
    line.trim_start_matches(|c| c == ' ' || c == '\t')
}

#[test]
fn two_indented_lines_become_block_indented() {
    assert_eq!(rewritten(2, "  foo\n    bar"), "    foo\n        bar");
}

#[test]
fn empty_document_stays_empty() {
    assert_eq!(rewritten(2, ""), "");
    assert_eq!(normalize("", 4), "");
}

#[test]
fn mixed_run_of_spaces_and_a_tab() {
    assert_eq!(rewritten(2, "  \t ax"), "        ax");
}

#[test]
fn line_without_leading_whitespace_is_unchanged() {
    assert_eq!(rewritten(2, "foo bar\tbaz  "), "foo bar\tbaz  ");
    assert_eq!(rewritten(1, "x"), "x");
    assert_eq!(rewritten(3, "a\nb\nc"), "a\nb\nc");
}

#[test]
fn each_tab_gives_one_block_whatever_the_threshold() {
    for threshold in [0usize, 1, 2, 3, 4, 8, 1000] {
        assert_eq!(rewritten(threshold, "\tx"), "    x");
        assert_eq!(rewritten(threshold, "\t\t\tx"), "            x");
        assert_eq!(rewritten(threshold, "x"), "x");
    }
}

#[test]
fn full_groups_of_spaces_give_one_block_each() {
    assert_eq!(rewritten(2, "x"), "x");
    assert_eq!(rewritten(2, "  x"), "    x");
    assert_eq!(rewritten(2, "    x"), "        x");
    assert_eq!(rewritten(3, "      x"), "        x");
    assert_eq!(rewritten(1, "   x"), "            x");
    assert_eq!(rewritten(4, "        x"), "        x");
}

#[test]
fn spaces_short_of_a_full_group_are_dropped() {
    assert_eq!(rewritten(2, " x"), "x");
    assert_eq!(rewritten(2, "   x"), "    x");
    assert_eq!(rewritten(3, "     x"), "    x");
    assert_eq!(rewritten(4, "   x"), "x");
    assert_eq!(rewritten(4, "       x"), "    x");
    assert_eq!(rewritten(5, "    x"), "x");
}

#[test]
fn pending_spaces_are_not_carried_to_the_next_line() {
    assert_eq!(rewritten(2, " a\n b"), "a\nb");
    assert_eq!(rewritten(3, "  a\n b\n   c"), "a\nb\n    c");
}

#[test]
fn a_tab_resets_the_running_count() {
    assert_eq!(rewritten(2, " \t x"), "    x");
    assert_eq!(rewritten(3, "  \t  \tx"), "        x");
    assert_eq!(rewritten(2, " \t \t x"), "        x");
}

#[test]
fn threshold_zero_counts_tabs_only() {
    assert_eq!(rewritten(0, "    x"), "x");
    assert_eq!(rewritten(0, "  \t  x"), "    x");
    assert_eq!(rewritten(0, " "), "");
    assert_eq!(rewritten(0, "\t \t"), "        ");
}

#[test]
fn block_indented_text_is_unchanged_with_threshold_four() {
    let text = "fn main() {\n    let x = 1;\n    if x > 0 {\n        go(x);\n    }\n}";
    assert_eq!(rewritten(4, text), text);
    assert_eq!(rewritten(4, &rewritten(4, text)), text);
    let blank_inside = "a\n\n    b\n            c";
    assert_eq!(rewritten(4, blank_inside), blank_inside);
}

#[test]
fn normalized_text_is_stable_under_threshold_four() {
    let once = rewritten(3, "   a\n\t b\n      \tc\n  d");
    assert_eq!(once, "    a\n    b\n            c\nd");
    assert_eq!(rewritten(4, &once), once);
}

#[test]
fn content_of_every_line_is_kept() {
    let input = "  alpha  beta\n\tgamma\t\n \t  delta\nepsilon\n      \n\u{e9}t\u{e9}";
    for threshold in [0usize, 1, 2, 3, 4] {
        let output = rewritten(threshold, input);
        let before: Vec<&str> = input.lines().collect();
        let after: Vec<&str> = output.lines().collect();
        assert_eq!(after.len(), before.len());
        for i in 0..before.len() {
            assert_eq!(content_of(after[i]), content_of(before[i]));
        }
    }
}

#[test]
fn line_count_is_kept() {
    for threshold in [1usize, 2, 4] {
        for input in ["a", "a\nb", "  a\n\n\tb\n    c", "\n\n\nx", "a\r\nb\r\nc"] {
            let output = rewritten(threshold, input);
            assert_eq!(output.lines().count(), input.lines().count());
        }
    }
}

#[test]
fn indentation_of_every_line_is_whole_block_markers() {
    let output = rewritten(2, "   a\n\t \tb\n c\n      d");
    assert_eq!(output, "    a\n        b\nc\n            d");
    for line in output.lines() {
        let indent = line.len() - content_of(line).len();
        assert_eq!(indent % 4, 0);
        assert!(line[..indent].chars().all(|c| c == ' '));
    }
}

#[test]
fn line_feed_at_the_end_is_not_kept() {
    assert_eq!(rewritten(2, "  foo\n"), "    foo");
    assert_eq!(rewritten(2, "  foo\n    bar\n"), "    foo\n        bar");
    assert_eq!(rewritten(2, "\n"), "");
}

#[test]
fn empty_lines_stay_in_place() {
    assert_eq!(rewritten(2, "a\n\nb"), "a\n\nb");
    assert_eq!(rewritten(2, "\n\na"), "\n\na");
    assert_eq!(rewritten(2, "a\n\n"), "a\n");
    assert_eq!(rewritten(2, "a\n\n\n"), "a\n\n");
}

#[test]
fn carriage_return_before_a_line_feed_is_part_of_the_line_ending() {
    assert_eq!(rewritten(2, "  a\r\n    b\r\n"), "    a\n        b");
    assert_eq!(rewritten(2, "a\r\n\r\nb"), "a\n\nb");
}

#[test]
fn carriage_return_elsewhere_is_content() {
    assert_eq!(rewritten(2, "  a\rb"), "    a\rb");
    assert_eq!(rewritten(2, "  a\r"), "    a\r");
    assert_eq!(rewritten(2, "  a\r\r\nb"), "    a\r\nb");
    assert_eq!(rewritten(2, "  \r  x"), "    \r  x");
}

#[test]
fn line_of_whitespace_only_keeps_its_blocks() {
    assert_eq!(rewritten(2, "    "), "        ");
    assert_eq!(rewritten(2, "   "), "    ");
    assert_eq!(rewritten(2, " "), "");
    assert_eq!(rewritten(2, "\t"), "    ");
    assert_eq!(rewritten(2, "a\n  \nb"), "a\n    \nb");
    assert_eq!(rewritten(2, "a\n \nb"), "a\n\nb");
}

#[test]
fn whitespace_after_the_content_starts_is_kept() {
    assert_eq!(rewritten(2, "  a  b\t c "), "    a  b\t c ");
    assert_eq!(rewritten(2, "a    b"), "a    b");
}

#[test]
fn other_whitespace_characters_are_content() {
    assert_eq!(rewritten(1, "\u{a0} x"), "\u{a0} x");
    assert_eq!(rewritten(1, " \u{3000} x"), "    \u{3000} x");
    assert_eq!(rewritten(1, "\u{b}\tx"), "\u{b}\tx");
}

#[test]
fn characters_beyond_ascii_are_kept() {
    assert_eq!(rewritten(2, "  h\u{e9}llo \u{1f600}\n\t\u{4e16}\u{754c}"), "    h\u{e9}llo \u{1f600}\n    \u{4e16}\u{754c}");
}

#[test]
fn normalize_returns_what_the_in_place_form_writes() {
    for threshold in [0usize, 1, 2, 4] {
        for input in ["", "  foo\n    bar", "\t a\r\n  b\n", " \n\n"] {
            assert_eq!(normalize(input, threshold), rewritten(threshold, input));
        }
    }
    assert_eq!(normalize("  foo\n    bar", 2), "    foo\n        bar");
}

#[test]
fn large_threshold_is_reached_exactly() {
    let run = " ".repeat(1000);
    assert_eq!(rewritten(1000, &format!("{}x", run)), "    x");
    assert_eq!(rewritten(1001, &format!("{}x", run)), "x");
    assert_eq!(rewritten(usize::MAX, &format!("{}x", run)), "x");
    assert_eq!(rewritten(500, &format!("{}x", run)), "        x");
}

#[test]
fn result_is_at_most_four_times_as_long() {
    for threshold in [0usize, 1, 2, 4] {
        for input in ["", "\t", "\t\t\n\t", "    x", " \t \t\n  a\r\n\n", "plain text"] {
            let output = rewritten(threshold, input);
            assert!(output.chars().count() <= 4 * input.chars().count());
        }
    }
    assert_eq!(rewritten(1, "   "), "            ");
    assert_eq!(rewritten(7, "\t\t\t"), "            ");
}

#[test]
fn a_tab_gives_its_block_and_drops_the_spaces_before_it() {
    assert_eq!(rewritten(3, "  \tx"), "    x");
    assert_eq!(rewritten(3, "   \tx"), "        x");
    assert_eq!(rewritten(3, "    \t  x"), "        x");
    assert_eq!(rewritten(3, "    \t   x"), "            x");
}
