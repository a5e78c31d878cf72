//! A document as an ordered sequence of lines.

use vstd::prelude::*;

verus! {

/// Length of the part of `text` before its first line feed; the whole length
/// where it holds none.
pub open spec fn first_line_len(text: Seq<char>) -> nat
    decreases text.len(),
{
    if text.len() > 0 && text[0] != '\n' {
        1 + first_line_len(text.skip(1))
    } else {
        0
    }
}

/// Whether `line` ends in a carriage return.
pub open spec fn ends_in_cr(line: Seq<char>) -> bool {
    line.len() > 0 && line.last() == '\r'
}

/// `line` without the carriage return at its end, if it has one.
pub open spec fn without_cr(line: Seq<char>) -> Seq<char> {
    if ends_in_cr(line) {
        line.drop_last()
    } else {
        line
    }
}

/// Whether `line` holds no line feed.
pub open spec fn is_single_line(line: Seq<char>) -> bool {
    forall|j: int| 0 <= j < line.len() ==> #[trigger] line[j] != '\n'
}

/// The lines of `text`.
///
/// A line ends at a line feed; a carriage return directly before that line
/// feed belongs to the line ending as well. What follows the last line feed
/// is a line of its own unless it is empty, so a line ending at the very end
/// of the text opens no further line.
pub open spec fn lines_of(text: Seq<char>) -> Seq<Seq<char>>
    decreases text.len(),
{
    let k = first_line_len(text) as int;
    if text.len() == 0 {
        Seq::empty()
    } else if k >= text.len() {
        seq![text]
    } else {
        seq![without_cr(text.take(k))] + lines_of(text.skip(k + 1))
    }
}

/// The lines put together with one line feed between each two neighbours and
/// none at the end.
pub open spec fn joined(lines: Seq<Seq<char>>) -> Seq<char>
    decreases lines.len(),
{
    if lines.len() == 0 {
        Seq::empty()
    } else if lines.len() == 1 {
        lines[0]
    } else {
        joined(lines.drop_last()) + seq!['\n'] + lines.last()
    }
}

/// What splitting gives after `lines` were joined: every line but the last
/// has lost the carriage return at its end, and a last line that is empty is
/// gone.
pub open spec fn lines_after_join(lines: Seq<Seq<char>>) -> Seq<Seq<char>> {
    Seq::new(
        if lines.len() > 0 && lines.last().len() == 0 {
            (lines.len() - 1) as nat
        } else {
            lines.len()
        },
        |i: int|
            if i + 1 < lines.len() {
                without_cr(lines[i])
            } else {
                lines[i]
            },
    )
}

/// Whether `text` is free of the line endings that splitting and joining do
/// not keep: it does not end in a line feed, and no carriage return stands
/// directly before a line feed.
pub open spec fn has_plain_line_ends(text: Seq<char>) -> bool {
    &&& text.len() > 0 ==> text.last() != '\n'
    &&& forall|j: int| 0 < j < text.len() && #[trigger] text[j] == '\n' ==> text[j - 1] != '\r'
}

/// Splits `text` into its lines.
pub fn split_lines(text: &str) -> (lines: Vec<String>)
    ensures
        lines.deep_view() == lines_of(text@),
{
    let mut lines: Vec<String> = Vec::new();
    // The line being read, less a carriage return at its end that is held
    // back until the next character shows whether it is part of a line ending.
    let mut current = String::new();
    let mut held_cr = false;
    let ghost mut raw: Seq<char> = Seq::empty();
    assert(raw + text@.skip(0) =~= text@);
    for c in it: text.chars()
        invariant
            it.seq() == text@,
            is_single_line(raw),
            raw == if held_cr {
                current@.push('\r')
            } else {
                current@
            },
            !held_cr ==> !ends_in_cr(current@),
            lines_of(text@) == lines.deep_view() + lines_of(raw + text@.skip(it.index() as int)),
    {
        let ghost i = it.index() as int;
        if c == '\n' {
            proof {
                lemma_lines_of_terminated(raw, text@.skip(i + 1));
                assert(raw + text@.skip(i) =~= raw + seq!['\n'] + text@.skip(i + 1));
                assert(without_cr(raw) == current@);
                raw = Seq::empty();
            }
            lines.push(current);
            current = String::new();
            held_cr = false;
        } else {
            if held_cr {
                current.push('\r');
            }
            if c == '\r' {
                held_cr = true;
            } else {
                held_cr = false;
                current.push(c);
            }
            proof {
                assert(raw.push(c) + text@.skip(i + 1) =~= raw + text@.skip(i));
                raw = raw.push(c);
            }
        }
    }
    if held_cr {
        current.push('\r');
    }
    proof {
        lemma_lines_of_single_line(raw);
    }
    if !current.as_str().is_empty() {
        lines.push(current);
    }
    lines
}

/// The first line ends at `k` exactly when no line feed stands before `k` and
/// the text ends at `k` or has a line feed there.
pub proof fn lemma_first_line_len_is(text: Seq<char>, k: int)
    requires
        0 <= k <= text.len(),
        forall|j: int| 0 <= j < k ==> #[trigger] text[j] != '\n',
        k == text.len() || text[k] == '\n',
    ensures
        first_line_len(text) == k,
    decreases k,
{
    if k > 0 {
        let rest = text.skip(1);
        assert forall|j: int| 0 <= j < k - 1 implies #[trigger] rest[j] != '\n' by {
            assert(rest[j] == text[j + 1]);
        }
        lemma_first_line_len_is(rest, k - 1);
    }
}

/// The first line lies within the text, holds no line feed, and is followed by
/// the end of the text or by a line feed.
pub proof fn lemma_first_line_len_bounds(text: Seq<char>)
    ensures
        first_line_len(text) <= text.len(),
        forall|j: int| 0 <= j < first_line_len(text) ==> #[trigger] text[j] != '\n',
        first_line_len(text) < text.len() ==> text[first_line_len(text) as int] == '\n',
    decreases text.len(),
{
    if text.len() > 0 && text[0] != '\n' {
        let rest = text.skip(1);
        lemma_first_line_len_bounds(rest);
        assert forall|j: int| 0 <= j < first_line_len(text) implies #[trigger] text[j]
            != '\n' by {
            if j > 0 {
                assert(text[j] == rest[j - 1]);
            }
        }
    }
}

/// A text without a line feed is no line at all when it is empty, and one
/// line otherwise.
pub proof fn lemma_lines_of_single_line(line: Seq<char>)
    requires
        is_single_line(line),
    ensures
        lines_of(line) == if line.len() == 0 {
            Seq::<Seq<char>>::empty()
        } else {
            seq![line]
        },
{
    lemma_first_line_len_is(line, line.len() as int);
}

/// A text that begins with `line` and a line feed has `line`, less the
/// carriage return at its end, as its first line; the other lines are those
/// of `rest`.
pub proof fn lemma_lines_of_terminated(line: Seq<char>, rest: Seq<char>)
    requires
        is_single_line(line),
    ensures
        lines_of(line + seq!['\n'] + rest) == seq![without_cr(line)] + lines_of(rest),
{
    let text = line + seq!['\n'] + rest;
    let k = line.len() as int;
    assert forall|j: int| 0 <= j < k implies #[trigger] text[j] != '\n' by {
        assert(text[j] == line[j]);
    }
    lemma_first_line_len_is(text, k);
    assert(text.take(k) =~= line);
    assert(text.skip(k + 1) =~= rest);
}

/// No line of a text holds a line feed.
pub proof fn lemma_lines_are_single(text: Seq<char>)
    ensures
        forall|i: int|
            0 <= i < lines_of(text).len() ==> is_single_line(#[trigger] lines_of(text)[i]),
    decreases text.len(),
{
    let k = first_line_len(text) as int;
    lemma_first_line_len_bounds(text);
    if text.len() > 0 && k < text.len() {
        let rest = lines_of(text.skip(k + 1));
        lemma_lines_are_single(text.skip(k + 1));
        assert forall|i: int| 0 <= i < lines_of(text).len() implies is_single_line(
            #[trigger] lines_of(text)[i],
        ) by {
            if i > 0 {
                assert(lines_of(text)[i] == rest[i - 1]);
            }
        }
    }
}

/// Joining a first line and further lines puts the first line in front,
/// followed by a line feed where further lines come.
pub proof fn lemma_joined_front(first: Seq<char>, rest: Seq<Seq<char>>)
    ensures
        joined(seq![first] + rest) == if rest.len() == 0 {
            first
        } else {
            first + seq!['\n'] + joined(rest)
        },
    decreases rest.len(),
{
    let lines = seq![first] + rest;
    if rest.len() == 1 {
        assert(lines.drop_last() =~= seq![first]);
        assert(joined(seq![first]) == first);
    } else if rest.len() > 1 {
        lemma_joined_front(first, rest.drop_last());
        assert(lines.drop_last() =~= seq![first] + rest.drop_last());
    }
}

/// Splitting the text that `joined` made of single lines gives
/// `lines_after_join` of them.
pub proof fn lemma_lines_of_joined(lines: Seq<Seq<char>>)
    requires
        forall|i: int| 0 <= i < lines.len() ==> is_single_line(#[trigger] lines[i]),
    ensures
        lines_of(joined(lines)) == lines_after_join(lines),
    decreases lines.len(),
{
    if lines.len() == 1 {
        lemma_lines_of_single_line(lines[0]);
    } else if lines.len() > 1 {
        let first = lines[0];
        let rest = lines.skip(1);
        assert(lines =~= seq![first] + rest);
        lemma_joined_front(first, rest);
        lemma_lines_of_terminated(first, joined(rest));
        assert forall|i: int| 0 <= i < rest.len() implies is_single_line(#[trigger] rest[i]) by {
            assert(rest[i] == lines[i + 1]);
        }
        lemma_lines_of_joined(rest);
    }
}

/// Joining the lines of a text with plain line ends gives the text back.
pub proof fn lemma_joined_lines_of(text: Seq<char>)
    requires
        has_plain_line_ends(text),
    ensures
        joined(lines_of(text)) == text,
    decreases text.len(),
{
    let k = first_line_len(text) as int;
    lemma_first_line_len_bounds(text);
    if text.len() > 0 && k < text.len() {
        let first = text.take(k);
        let rest = text.skip(k + 1);
        assert(!ends_in_cr(first)) by {
            if k > 0 {
                assert(first.last() == text[k - 1]);
            }
        }
        assert forall|j: int| 0 < j < rest.len() && #[trigger] rest[j] == '\n' implies rest[j - 1]
            != '\r' by {
            assert(rest[j] == text[k + 1 + j]);
        }
        lemma_joined_lines_of(rest);
        lemma_joined_front(first, lines_of(rest));
    }
}

/// Joining the lines of a text never gives more characters than the text has.
pub proof fn lemma_joined_lines_of_len(text: Seq<char>)
    ensures
        joined(lines_of(text)).len() <= text.len(),
    decreases text.len(),
{
    let k = first_line_len(text) as int;
    lemma_first_line_len_bounds(text);
    if text.len() > 0 && k < text.len() {
        lemma_joined_lines_of_len(text.skip(k + 1));
        lemma_joined_front(without_cr(text.take(k)), lines_of(text.skip(k + 1)));
    }
}

} // verus!
