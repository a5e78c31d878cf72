//! What holds of the normalizer on every input.

use vstd::prelude::*;

use crate::document::{normalized_lines, normalized_text};
use crate::indent::{
    block_count, block_markers, content, indent_len, indent_run, is_indent,
    lemma_indent_len_bounds, lemma_indent_len_is, normalized_line, pending_spaces,
};
use crate::lines::{
    ends_in_cr, has_plain_line_ends, is_single_line, joined, lemma_joined_lines_of,
    lemma_joined_lines_of_len, lemma_lines_are_single, lemma_lines_of_joined, lines_after_join,
    lines_of,
};

verus! {

/// `count` spaces in a row.
pub open spec fn spaces(count: nat) -> Seq<char> {
    Seq::new(count, |i: int| ' ')
}

/// `count` tabs in a row.
pub open spec fn tabs(count: nat) -> Seq<char> {
    Seq::new(count, |i: int| '\t')
}

/// Whether the leading run of `line` is made of whole block markers: spaces
/// only, four to a block.
pub open spec fn is_block_indented(line: Seq<char>) -> bool {
    &&& indent_len(line) % 4 == 0
    &&& forall|j: int| 0 <= j < indent_len(line) ==> #[trigger] line[j] == ' '
}

/// A walk over `k` tabs completes `k` blocks and leaves no spaces pending,
/// whatever the threshold.
pub proof fn lemma_blocks_of_tabs(k: nat, threshold: nat)
    ensures
        block_count(tabs(k), threshold) == k,
        pending_spaces(tabs(k), threshold) == 0,
    decreases k,
{
    if k > 0 {
        lemma_blocks_of_tabs((k - 1) as nat, threshold);
        assert(tabs(k).drop_last() =~= tabs((k - 1) as nat));
    }
}

/// A walk over `threshold * n + r` spaces, `r` below the threshold, completes
/// `n` blocks and leaves `r` spaces pending.
pub proof fn lemma_blocks_of_spaces(threshold: nat, n: nat, r: nat)
    requires
        r < threshold,
    ensures
        block_count(spaces(threshold * n + r), threshold) == n,
        pending_spaces(spaces(threshold * n + r), threshold) == r,
    decreases n, r,
{
    let run = spaces(threshold * n + r);
    if r > 0 {
        lemma_blocks_of_spaces(threshold, n, (r - 1) as nat);
        assert(run.drop_last() =~= spaces(threshold * n + (r - 1) as nat));
    } else if n > 0 {
        // The last space is the one that fills block `n`.
        let m = (n - 1) as nat;
        let q = (threshold - 1) as nat;
        assert(threshold * n == threshold * m + q + 1) by (nonlinear_arith)
            requires
                n == m + 1,
                threshold == q + 1,
        ;
        lemma_blocks_of_spaces(threshold, m, q);
        assert(run.drop_last() =~= spaces(threshold * m + q));
    } else {
        assert(threshold * n == 0) by (nonlinear_arith)
            requires
                n == 0,
        ;
    }
}

/// With a threshold of zero a walk over spaces alone completes no block.
pub proof fn lemma_blocks_of_spaces_without_threshold(count: nat)
    ensures
        block_count(spaces(count), 0) == 0,
    decreases count,
{
    if count > 0 {
        lemma_blocks_of_spaces_without_threshold((count - 1) as nat);
        assert(spaces(count).drop_last() =~= spaces((count - 1) as nat));
    }
}

/// Once a walk has left no spaces pending, what it met before no longer
/// matters: the blocks of `head + tail` are those of `head` and those of
/// `tail`.
pub proof fn lemma_blocks_after_reset(head: Seq<char>, tail: Seq<char>, threshold: nat)
    requires
        pending_spaces(head, threshold) == 0,
    ensures
        block_count(head + tail, threshold) == block_count(head, threshold) + block_count(
            tail,
            threshold,
        ),
        pending_spaces(head + tail, threshold) == pending_spaces(tail, threshold),
    decreases tail.len(),
{
    if tail.len() == 0 {
        assert(head + tail =~= head);
    } else {
        lemma_blocks_after_reset(head, tail.drop_last(), threshold);
        assert((head + tail).drop_last() =~= head + tail.drop_last());
    }
}

/// A tab completes one block of its own and cuts the walk in two: the spaces
/// pending before it are dropped, and what follows it is counted afresh.
pub proof fn lemma_blocks_across_tab(head: Seq<char>, tail: Seq<char>, threshold: nat)
    ensures
        block_count(head.push('\t') + tail, threshold) == block_count(head, threshold) + 1
            + block_count(tail, threshold),
{
    assert(head.push('\t').drop_last() =~= head);
    lemma_blocks_after_reset(head.push('\t'), tail, threshold);
}

/// A walk completes at most one block for each character it meets.
pub proof fn lemma_block_count_bound(run: Seq<char>, threshold: nat)
    ensures
        block_count(run, threshold) <= run.len(),
    decreases run.len(),
{
    if run.len() > 0 {
        lemma_block_count_bound(run.drop_last(), threshold);
    }
}

/// A leading run of exactly `k` tabs gives exactly `k` block markers,
/// whatever the threshold.
pub proof fn lemma_tab_run(line: Seq<char>, k: nat, threshold: nat)
    requires
        indent_run(line) == tabs(k),
    ensures
        normalized_line(line, threshold) == block_markers(k) + content(line),
{
    lemma_blocks_of_tabs(k, threshold);
}

/// A leading run of exactly `threshold * n + r` spaces, `r` below the
/// threshold, gives exactly `n` block markers: the `r` spaces left over are
/// dropped.
pub proof fn lemma_space_run(line: Seq<char>, threshold: nat, n: nat, r: nat)
    requires
        r < threshold,
        indent_run(line) == spaces(threshold * n + r),
    ensures
        normalized_line(line, threshold) == block_markers(n) + content(line),
{
    lemma_blocks_of_spaces(threshold, n, r);
}

/// With a threshold of zero a leading run of spaces alone gives no block
/// marker.
pub proof fn lemma_space_run_without_threshold(line: Seq<char>, count: nat)
    requires
        indent_run(line) == spaces(count),
    ensures
        normalized_line(line, 0) == content(line),
{
    lemma_blocks_of_spaces_without_threshold(count);
}

/// A line that does not begin with a space or a tab is its own normalized
/// form.
pub proof fn lemma_unindented_line_unchanged(line: Seq<char>, threshold: nat)
    requires
        line.len() == 0 || !is_indent(line[0]),
    ensures
        normalized_line(line, threshold) == line,
{
    assert(indent_len(line) == 0);
}

/// With a threshold of four, a line whose leading run is made of whole block
/// markers is its own normalized form.
pub proof fn lemma_block_indented_line_unchanged(line: Seq<char>)
    requires
        is_block_indented(line),
    ensures
        normalized_line(line, 4) == line,
{
    let n = indent_len(line) / 4;
    lemma_indent_len_bounds(line);
    lemma_blocks_of_spaces(4, n, 0);
    assert(block_markers(n) =~= indent_run(line));
}

/// The leading run of the normalized line is its block markers, and its
/// content is the content of the line it was made from.
pub proof fn lemma_line_content_preserved(line: Seq<char>, threshold: nat)
    ensures
        indent_run(normalized_line(line, threshold)) == block_markers(
            block_count(indent_run(line), threshold),
        ),
        content(normalized_line(line, threshold)) == content(line),
{
    let markers = block_markers(block_count(indent_run(line), threshold));
    let out = normalized_line(line, threshold);
    lemma_indent_len_bounds(line);
    assert forall|j: int| 0 <= j < markers.len() implies is_indent(#[trigger] out[j]) by {
        assert(out[j] == markers[j]);
    }
    lemma_indent_len_is(out, markers.len() as int);
}

/// The normalized line is at most four times as long as the line.
pub proof fn lemma_normalized_line_len_bound(line: Seq<char>, threshold: nat)
    ensures
        normalized_line(line, threshold).len() <= 4 * line.len(),
{
    lemma_indent_len_bounds(line);
    lemma_block_count_bound(indent_run(line), threshold);
}

/// Normalizing a line brings in no line feed, and the normalized line ends in
/// a carriage return exactly when the line does.
pub proof fn lemma_normalized_line_ends(line: Seq<char>, threshold: nat)
    ensures
        is_single_line(line) ==> is_single_line(normalized_line(line, threshold)),
        ends_in_cr(normalized_line(line, threshold)) == ends_in_cr(line),
{
    lemma_indent_len_bounds(line);
}

/// The lines of the normalized text are what `lines_after_join` makes of the
/// normalized lines of the text.
pub proof fn lemma_lines_of_normalized_text(text: Seq<char>, threshold: nat)
    ensures
        lines_of(normalized_text(text, threshold)) == lines_after_join(
            normalized_lines(lines_of(text), threshold),
        ),
{
    let lines = lines_of(text);
    let out = normalized_lines(lines, threshold);
    lemma_lines_are_single(text);
    assert forall|i: int| 0 <= i < out.len() implies is_single_line(#[trigger] out[i]) by {
        lemma_normalized_line_ends(lines[i], threshold);
    }
    lemma_lines_of_joined(out);
}

/// The normalized text has as many lines as the text it was made from.
///
/// Left out is a text whose last line normalizes to nothing: that line has no
/// content and its leading run completes no block, so the normalized text
/// ends before it.
pub proof fn lemma_line_count_preserved(text: Seq<char>, threshold: nat)
    requires
        lines_of(text).len() > 0 ==> normalized_line(lines_of(text).last(), threshold).len() > 0,
    ensures
        lines_of(normalized_text(text, threshold)).len() == lines_of(text).len(),
{
    lemma_lines_of_normalized_text(text, threshold);
}

/// Line `i` of the normalized text has the content of line `i` of the text it
/// was made from.
///
/// Left out is a line before the last that ends in a carriage return, as the
/// first of two carriage returns before a line feed does: the normalized text
/// has it directly before a line feed, where it belongs to the line ending.
pub proof fn lemma_content_preserved(text: Seq<char>, threshold: nat, i: int)
    requires
        0 <= i < lines_of(normalized_text(text, threshold)).len(),
        i + 1 < lines_of(text).len() ==> !ends_in_cr(lines_of(text)[i]),
    ensures
        i < lines_of(text).len(),
        content(lines_of(normalized_text(text, threshold))[i]) == content(lines_of(text)[i]),
{
    let lines = lines_of(text);
    lemma_lines_of_normalized_text(text, threshold);
    lemma_normalized_line_ends(lines[i], threshold);
    lemma_line_content_preserved(lines[i], threshold);
}

/// With a threshold of four, a text whose lines are all indented by whole
/// block markers is its own normalized form.
///
/// Left out is a text that ends in a line feed or holds a carriage return
/// directly before a line feed: joining the lines again does not keep those.
pub proof fn lemma_block_indented_text_unchanged(text: Seq<char>)
    requires
        forall|i: int|
            0 <= i < lines_of(text).len() ==> is_block_indented(#[trigger] lines_of(text)[i]),
        has_plain_line_ends(text),
    ensures
        normalized_text(text, 4) == text,
{
    let lines = lines_of(text);
    assert forall|i: int| 0 <= i < lines.len() implies normalized_line(lines[i], 4)
        == #[trigger] lines[i] by {
        lemma_block_indented_line_unchanged(lines[i]);
    }
    assert(normalized_lines(lines, 4) =~= lines);
    lemma_joined_lines_of(text);
}

/// Where each of `longer` is at most four times as long as its counterpart in
/// `shorter`, the same holds of the two once joined.
proof fn lemma_joined_len_bound(longer: Seq<Seq<char>>, shorter: Seq<Seq<char>>)
    requires
        longer.len() == shorter.len(),
        forall|i: int|
            0 <= i < longer.len() ==> (#[trigger] longer[i]).len() <= 4 * shorter[i].len(),
    ensures
        joined(longer).len() <= 4 * joined(shorter).len(),
    decreases longer.len(),
{
    if longer.len() >= 2 {
        lemma_joined_len_bound(longer.drop_last(), shorter.drop_last());
    }
}

/// The normalized text is at most four times as long as the text.
pub proof fn lemma_normalized_text_len_bound(text: Seq<char>, threshold: nat)
    ensures
        normalized_text(text, threshold).len() <= 4 * text.len(),
{
    let lines = lines_of(text);
    let out = normalized_lines(lines, threshold);
    assert forall|i: int| 0 <= i < out.len() implies (#[trigger] out[i]).len() <= 4
        * lines[i].len() by {
        lemma_normalized_line_len_bound(lines[i], threshold);
    }
    lemma_joined_len_bound(out, lines);
    lemma_joined_lines_of_len(text);
}

} // verus!
