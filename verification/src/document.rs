//! The whole document: every line normalized, the lines joined again.

use vstd::prelude::*;

use crate::indent::{normalized_line, push_normalized_line};
use crate::laws::lemma_normalized_text_len_bound;
use crate::lines::{joined, lines_of, split_lines};

verus! {

/// Each of `lines` in its normalized form, in the same order.
pub open spec fn normalized_lines(lines: Seq<Seq<char>>, threshold: nat) -> Seq<Seq<char>> {
    Seq::new(lines.len(), |i: int| normalized_line(lines[i], threshold))
}

/// The text with every line normalized: the normalized lines in the order of
/// the lines they were made from, one line feed between each two neighbours
/// and none at the end.
pub open spec fn normalized_text(text: Seq<char>, threshold: nat) -> Seq<char> {
    joined(normalized_lines(lines_of(text), threshold))
}

/// Returns `text` with the leading whitespace run of every line replaced by
/// block markers, `threshold` spaces or one tab making one block. The result
/// is at most four times as long as `text`.
pub fn normalize(text: &str, threshold: usize) -> (output: String)
    ensures
        output@ == normalized_text(text@, threshold as nat),
        output@.len() <= 4 * text@.len(),
{
    let lines = split_lines(text);
    let ghost limit = threshold as nat;
    let ghost all = lines.deep_view();
    let mut output = String::new();
    let mut i: usize = 0;
    while i < lines.len()
        invariant
            i <= lines.len(),
            limit == threshold,
            all == lines.deep_view(),
            output@ == joined(normalized_lines(all.take(i as int), limit)),
        decreases lines.len() - i,
    {
        let ghost done = normalized_lines(all.take(i as int), limit);
        let ghost next = normalized_lines(all.take(i + 1), limit);
        assert(next.drop_last() =~= done);
        if i > 0 {
            output.push('\n');
        }
        push_normalized_line(&mut output, lines[i].as_str(), threshold);
        i += 1;
    }
    proof {
        assert(all.take(i as int) =~= all);
        lemma_normalized_text_len_bound(text@, limit);
    }
    output
}

/// Rewrites `text` in place: the leading whitespace run of every line gives
/// way to block markers, `spaces_to_tab` spaces or one tab making one block.
/// The text grows to at most four times its length.
pub fn clipboard_list_to_slack(spaces_to_tab: usize, text: &mut String)
    ensures
        final(text)@ == normalized_text(old(text)@, spaces_to_tab as nat),
        final(text)@.len() <= 4 * old(text)@.len(),
{
    let output = normalize(text.as_str(), spaces_to_tab);
    *text = output;
}

} // verus!
