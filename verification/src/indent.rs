//! One line: its leading whitespace run, its content, and the block markers
//! that replace the run.

use vstd::prelude::*;

verus! {

/// Whether `c` belongs to a leading whitespace run: a space or a horizontal tab.
pub open spec fn is_indent(c: char) -> bool {
    c == ' ' || c == '\t'
}

/// Length of the leading whitespace run of `line`: the longest prefix made of
/// spaces and tabs only.
pub open spec fn indent_len(line: Seq<char>) -> nat
    decreases line.len(),
{
    if line.len() > 0 && is_indent(line[0]) {
        1 + indent_len(line.skip(1))
    } else {
        0
    }
}

/// The leading whitespace run of `line`.
pub open spec fn indent_run(line: Seq<char>) -> Seq<char> {
    line.take(indent_len(line) as int)
}

/// What follows the leading whitespace run of `line`.
pub open spec fn content(line: Seq<char>) -> Seq<char> {
    line.skip(indent_len(line) as int)
}

/// The running count of spaces after a walk over `run` from left to right.
///
/// A space adds one; on reaching `threshold` the count starts again at zero.
/// A tab sets it to zero.
pub open spec fn pending_spaces(run: Seq<char>, threshold: nat) -> nat
    decreases run.len(),
{
    if run.len() == 0 || run.last() == '\t' {
        0
    } else if pending_spaces(run.drop_last(), threshold) + 1 == threshold {
        0
    } else {
        pending_spaces(run.drop_last(), threshold) + 1
    }
}

/// Whether the last character of the non-empty `run` completes a block: it is
/// a tab, or it is the space that brings the running count to `threshold`.
pub open spec fn completes_block(run: Seq<char>, threshold: nat) -> bool {
    run.last() == '\t' || pending_spaces(run.drop_last(), threshold) + 1 == threshold
}

/// Number of blocks that a walk over `run` from left to right completes.
pub open spec fn block_count(run: Seq<char>, threshold: nat) -> nat
    decreases run.len(),
{
    if run.len() == 0 {
        0
    } else if completes_block(run, threshold) {
        block_count(run.drop_last(), threshold) + 1
    } else {
        block_count(run.drop_last(), threshold)
    }
}

/// `count` block markers in a row; one block marker is four spaces.
pub open spec fn block_markers(count: nat) -> Seq<char> {
    Seq::new(4 * count, |i: int| ' ')
}

/// The line with its leading whitespace run replaced by one block marker for
/// each block that the run completes.
pub open spec fn normalized_line(line: Seq<char>, threshold: nat) -> Seq<char> {
    block_markers(block_count(indent_run(line), threshold)) + content(line)
}

/// Tells whether `c` is a space or a horizontal tab.
pub fn is_indent_char(c: char) -> (r: bool)
    ensures
        r == is_indent(c),
{
    c == ' ' || c == '\t'
}

/// Appends one block marker to `out`.
fn push_block_marker(out: &mut String)
    ensures
        final(out)@ == old(out)@ + block_markers(1),
{
    out.push(' ');
    out.push(' ');
    out.push(' ');
    out.push(' ');
}

/// Appends the normalized form of `line` to `out`.
pub fn push_normalized_line(out: &mut String, line: &str, threshold: usize)
    ensures
        final(out)@ == old(out)@ + normalized_line(line@, threshold as nat),
{
    let ghost base = out@;
    let ghost limit = threshold as nat;
    let mut in_run = true;
    let mut count: usize = 0;
    for c in it: line.chars()
        invariant
            it.seq() == line@,
            limit == threshold,
            in_run ==> {
                &&& forall|j: int| 0 <= j < it.index() ==> is_indent(#[trigger] line@[j])
                &&& threshold > 0 ==> count == pending_spaces(
                    line@.take(it.index() as int),
                    limit,
                )
                &&& out@ == base + block_markers(
                    block_count(line@.take(it.index() as int), limit),
                )
            },
            !in_run ==> {
                &&& indent_len(line@) <= it.index()
                &&& out@ == base + block_markers(block_count(indent_run(line@), limit))
                    + line@.subrange(indent_len(line@) as int, it.index() as int)
            },
    {
        let ghost i = it.index() as int;
        let ghost before = line@.take(i);
        let ghost after = line@.take(i + 1);
        assert(after.drop_last() =~= before);
        if in_run && is_indent_char(c) {
            proof {
                if threshold > 0 {
                    lemma_pending_below_threshold(before, limit);
                }
            }
            if c == '\t' {
                count = 0;
                push_block_marker(out);
            } else if threshold > 0 {
                count += 1;
                if count == threshold {
                    count = 0;
                    push_block_marker(out);
                }
            }
        } else {
            proof {
                if in_run {
                    lemma_indent_len_is(line@, i);
                }
            }
            in_run = false;
            out.push(c);
        }
    }
    proof {
        if in_run {
            lemma_indent_len_is(line@, line@.len() as int);
        }
    }
}

/// Returns the normalized form of `line`.
pub fn normalize_line(line: &str, threshold: usize) -> (r: String)
    ensures
        r@ == normalized_line(line@, threshold as nat),
{
    let mut out = String::new();
    push_normalized_line(&mut out, line, threshold);
    out
}

/// The leading whitespace run lies within the line, holds spaces and tabs
/// only, and is followed by the end of the line or by another character.
pub proof fn lemma_indent_len_bounds(line: Seq<char>)
    ensures
        indent_len(line) <= line.len(),
        forall|j: int| 0 <= j < indent_len(line) ==> is_indent(#[trigger] line[j]),
        indent_len(line) < line.len() ==> !is_indent(line[indent_len(line) as int]),
    decreases line.len(),
{
    if line.len() > 0 && is_indent(line[0]) {
        let rest = line.skip(1);
        lemma_indent_len_bounds(rest);
        assert forall|j: int| 0 <= j < indent_len(line) implies is_indent(#[trigger] line[j]) by {
            if j > 0 {
                assert(line[j] == rest[j - 1]);
            }
        }
    }
}

/// The leading whitespace run ends at `k` exactly when everything before `k`
/// is a space or a tab and the line ends at `k` or goes on with another
/// character.
pub proof fn lemma_indent_len_is(line: Seq<char>, k: int)
    requires
        0 <= k <= line.len(),
        forall|j: int| 0 <= j < k ==> is_indent(#[trigger] line[j]),
        k == line.len() || !is_indent(line[k]),
    ensures
        indent_len(line) == k,
    decreases k,
{
    if k > 0 {
        let rest = line.skip(1);
        assert forall|j: int| 0 <= j < k - 1 implies is_indent(#[trigger] rest[j]) by {
            assert(rest[j] == line[j + 1]);
        }
        lemma_indent_len_is(rest, k - 1);
    }
}

/// With a positive threshold the running count stays below it.
pub proof fn lemma_pending_below_threshold(run: Seq<char>, threshold: nat)
    requires
        threshold > 0,
    ensures
        pending_spaces(run, threshold) < threshold,
    decreases run.len(),
{
    if run.len() > 0 {
        lemma_pending_below_threshold(run.drop_last(), threshold);
    }
}

} // verus!
