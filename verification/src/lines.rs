//! Splitting a text into lines and joining lines into a text.

use vstd::prelude::*;
use vstd::slice::slice_subrange;

verus! {

/// The character that ends a line.
pub const LINE_BREAK: char = '\n';

/// A sequence of characters is one line when no line break occurs in it.
pub open spec fn is_line(chars: Seq<char>) -> bool {
    forall|i: int| 0 <= i < chars.len() ==> #[trigger] chars[i] != LINE_BREAK
}

/// The number of characters in front of the first line break of `text`, or the
/// length of `text` where it has none.
pub open spec fn first_line_len(text: Seq<char>) -> nat
    decreases text.len(),
{
    if text.len() > 0 && text[0] != LINE_BREAK {
        1 + first_line_len(text.drop_first())
    } else {
        0
    }
}

/// The lines of `text`: the runs of characters between its line breaks, in
/// order. A text with `n` line breaks has `n + 1` lines, so the empty text has
/// one line, the empty one, and a text that ends in a line break has an empty
/// last line.
pub open spec fn split_lines(text: Seq<char>) -> Seq<Seq<char>>
    decreases text.len(),
{
    let end = first_line_len(text) as int;
    if end < text.len() {
        seq![text.take(end)] + split_lines(text.skip(end + 1))
    } else {
        seq![text]
    }
}

/// The lines put together with one line break between neighbours and none at
/// the end. No lines give the empty text.
pub open spec fn join_lines(lines: Seq<Seq<char>>) -> Seq<char>
    decreases lines.len(),
{
    if lines.len() == 0 {
        Seq::empty()
    } else if lines.len() == 1 {
        lines[0]
    } else {
        lines[0] + seq![LINE_BREAK] + join_lines(lines.drop_first())
    }
}

/// The first line ends at `k` if no line break stands before `k` and one
/// stands at `k`, or the text ends there.
pub proof fn lemma_first_line_len_at(text: Seq<char>, k: int)
    requires
        0 <= k <= text.len(),
        is_line(text.take(k)),
        k < text.len() ==> text[k] == LINE_BREAK,
    ensures
        first_line_len(text) == k,
    decreases k,
{
    if k > 0 {
        assert(text[0] == text.take(k)[0]);
        let rest = text.drop_first();
        assert forall|i: int| 0 <= i < k - 1 implies #[trigger] rest.take(k - 1)[i]
            != LINE_BREAK by {
            assert(rest.take(k - 1)[i] == text.take(k)[i + 1]);
        }
        lemma_first_line_len_at(rest, k - 1);
    }
}

/// A text without a line break is its own single line.
pub proof fn lemma_split_one_line(line: Seq<char>)
    requires
        is_line(line),
    ensures
        split_lines(line) == seq![line],
{
    lemma_first_line_len_at(line, line.len() as int);
}

/// A line, a line break and more text split into that line and the lines of
/// the rest.
pub proof fn lemma_split_first_line(line: Seq<char>, rest: Seq<char>)
    requires
        is_line(line),
    ensures
        split_lines(line + seq![LINE_BREAK] + rest) == seq![line] + split_lines(rest),
{
    let text = line + seq![LINE_BREAK] + rest;
    let k = line.len() as int;
    assert(text.take(k) =~= line);
    assert(text.skip(k + 1) =~= rest);
    lemma_first_line_len_at(text, k);
}

/// Every text has at least one line, none of its lines holds a line break, and
/// joining them gives the text back.
pub proof fn lemma_join_split(text: Seq<char>)
    ensures
        split_lines(text).len() >= 1,
        forall|i: int|
            0 <= i < split_lines(text).len() ==> is_line(#[trigger] split_lines(text)[i]),
        join_lines(split_lines(text)) == text,
    decreases text.len(),
{
    lemma_first_line_is_line(text);
    let end = first_line_len(text) as int;
    if end < text.len() {
        let rest = text.skip(end + 1);
        lemma_join_split(rest);
        let lines = split_lines(text);
        assert(lines.drop_first() =~= split_lines(rest));
    } else {
        assert(text.take(end) =~= text);
    }
}

/// The first line is a line, and a line break follows it unless the text ends.
pub proof fn lemma_first_line_is_line(text: Seq<char>)
    ensures
        first_line_len(text) <= text.len(),
        is_line(text.take(first_line_len(text) as int)),
        first_line_len(text) < text.len() ==> text[first_line_len(text) as int] == LINE_BREAK,
    decreases text.len(),
{
    if text.len() > 0 && text[0] != LINE_BREAK {
        let rest = text.drop_first();
        lemma_first_line_is_line(rest);
        let end = first_line_len(text) as int;
        assert forall|i: int| 0 <= i < end implies #[trigger] text.take(end)[i] != LINE_BREAK by {
            if i > 0 {
                assert(text.take(end)[i] == rest.take(end - 1)[i - 1]);
            }
        }
    }
}

/// A text has a single line exactly when no line break occurs in it.
pub proof fn lemma_one_line_iff(text: Seq<char>)
    ensures
        split_lines(text).len() == 1 <==> is_line(text),
        split_lines(text).len() >= 1,
{
    lemma_join_split(text);
    if is_line(text) {
        lemma_split_one_line(text);
    }
}

/// Splitting undoes joining: at least one line, none of them with a line break
/// in it, joined and split again, are the same lines.
pub proof fn lemma_split_join(lines: Seq<Seq<char>>)
    requires
        lines.len() >= 1,
        forall|i: int| 0 <= i < lines.len() ==> is_line(#[trigger] lines[i]),
    ensures
        split_lines(join_lines(lines)) == lines,
    decreases lines.len(),
{
    if lines.len() == 1 {
        lemma_split_one_line(lines[0]);
    } else {
        let rest = lines.drop_first();
        assert forall|i: int| 0 <= i < rest.len() implies is_line(#[trigger] rest[i]) by {}
        lemma_split_join(rest);
        lemma_split_first_line(lines[0], join_lines(rest));
    }
}

/// A line break between two texts separates the lines of the one from the
/// lines of the other.
pub proof fn lemma_split_concat(head: Seq<char>, tail: Seq<char>)
    ensures
        split_lines(head + seq![LINE_BREAK] + tail) == split_lines(head) + split_lines(tail),
    decreases head.len(),
{
    lemma_first_line_is_line(head);
    let end = first_line_len(head) as int;
    let first = head.take(end);
    if end < head.len() {
        let rest = head.skip(end + 1);
        lemma_split_concat(rest, tail);
        assert(head + seq![LINE_BREAK] + tail =~= first + seq![LINE_BREAK] + (rest + seq![
            LINE_BREAK,
        ] + tail));
        lemma_split_first_line(first, rest + seq![LINE_BREAK] + tail);
    } else {
        assert(first =~= head);
        lemma_split_first_line(head, tail);
    }
}

/// Joining one more line appends a line break and the line, or the line alone
/// where it is the first.
pub proof fn lemma_join_push(lines: Seq<Seq<char>>, line: Seq<char>)
    ensures
        join_lines(lines.push(line)) == if lines.len() == 0 {
            line
        } else {
            join_lines(lines) + seq![LINE_BREAK] + line
        },
    decreases lines.len(),
{
    let all = lines.push(line);
    if lines.len() == 0 {
    } else if lines.len() == 1 {
        assert(join_lines(all.drop_first()) == line);
    } else {
        let rest = lines.drop_first();
        lemma_join_push(rest, line);
        assert(all.drop_first() =~= rest.push(line));
    }
}

/// The lines of `text`, each a slice of it.
pub fn lines_of<'a>(text: &'a [char]) -> (lines: Vec<&'a [char]>)
    ensures
        lines.deep_view() == split_lines(text@),
{
    let mut lines: Vec<&'a [char]> = Vec::new();
    let mut start: usize = 0;
    let mut end: usize = 0;
    proof {
        assert(text@.skip(0) =~= text@);
    }
    while end < text.len()
        invariant
            start <= end <= text.len(),
            is_line(text@.subrange(start as int, end as int)),
            split_lines(text@) == lines.deep_view() + split_lines(text@.skip(start as int)),
        decreases text.len() - end,
    {
        if text[end] == LINE_BREAK {
            let line = slice_subrange(text, start, end);
            proof {
                let rest = text@.skip(end + 1);
                assert(text@.skip(start as int) =~= line@ + seq![LINE_BREAK] + rest);
                lemma_split_first_line(line@, rest);
            }
            let ghost done = lines.deep_view().push(line@);
            lines.push(line);
            assert(lines.deep_view() =~~= done);
            start = end + 1;
        }
        end += 1;
    }
    let line = slice_subrange(text, start, end);
    proof {
        lemma_split_one_line(line@);
    }
    let ghost done = lines.deep_view().push(line@);
    lines.push(line);
    assert(lines.deep_view() =~~= done);
    lines
}

} // verus!
