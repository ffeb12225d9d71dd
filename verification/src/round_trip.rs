//! What trimming gives back of a text that was written with a margin.

use vstd::prelude::*;
use crate::lines::{
    is_line, join_lines, lemma_join_split, lemma_one_line_iff, lemma_split_concat,
    lemma_split_join, lemma_split_one_line, split_lines, LINE_BREAK,
};
use crate::margin::{has_margin, kept_lines, margin_trimmed, trimmed_lines};
use crate::whitespace::{
    is_blank, lemma_blank_iff_trimmed_empty, lemma_trim_start_is_suffix,
    lemma_trim_start_skips_indent, trim_start, white_space,
};

verus! {

/// A prefix that sets a margin off from what is in front of it and from the
/// line before: it is not empty, does not begin with whitespace and holds no
/// line break.
pub open spec fn marks_margin(prefix: Seq<char>) -> bool {
    &&& prefix.len() > 0
    &&& !white_space(prefix[0])
    &&& is_line(prefix)
}

/// The lines, each with `prefix` in front of it.
pub open spec fn with_margin(lines: Seq<Seq<char>>, prefix: Seq<char>) -> Seq<Seq<char>> {
    lines.map_values(|line: Seq<char>| prefix + line)
}

/// `text` between a first line `lead` and a last line `trail`, with `indent` in
/// front of the text itself.
pub open spec fn framed(
    text: Seq<char>,
    lead: Seq<char>,
    indent: Seq<char>,
    trail: Seq<char>,
) -> Seq<char> {
    lead + seq![LINE_BREAK] + indent + text + seq![LINE_BREAK] + trail
}

/// A text of two blank lines.
pub open spec fn is_blank_pair(text: Seq<char>) -> bool {
    let lines = split_lines(text);
    lines.len() == 2 && is_blank(lines[0]) && is_blank(lines[1])
}

/// The lines and prefixes of which the round trip holds: two lines or more
/// under a prefix that marks a margin. A single line under such a prefix makes
/// a text without a line break, which trimming leaves as it is, prefix and all.
/// Two cases are left in which both sides are the empty text: no lines at all,
/// and one empty line under a prefix that is itself two blank lines.
pub open spec fn round_trips(lines: Seq<Seq<char>>, prefix: Seq<char>) -> bool {
    if lines.len() >= 2 {
        marks_margin(prefix)
    } else {
        lines.len() == 0 || (lines[0].len() == 0 && is_blank_pair(prefix))
    }
}

/// The lines and prefixes of which the round trip between blank lines holds:
/// one line or more under a prefix that marks a margin. Without any line the
/// indentation alone stands between the blank lines, and carries no prefix but
/// the empty one.
pub open spec fn round_trips_framed(lines: Seq<Seq<char>>, prefix: Seq<char>) -> bool {
    if lines.len() >= 1 {
        marks_margin(prefix)
    } else {
        prefix.len() == 0
    }
}

/// Of a line that begins, behind any indentation, with a prefix that marks a
/// margin, trimming cuts the indentation and nothing else.
pub proof fn lemma_trim_marked_line(indent: Seq<char>, prefix: Seq<char>, line: Seq<char>)
    requires
        is_blank(indent),
        marks_margin(prefix),
    ensures
        trim_start(indent + (prefix + line)) == prefix + line,
{
    lemma_trim_start_skips_indent(indent, prefix + line);
}

/// A prefix that a line carries, if it is not empty, marks a margin.
pub proof fn lemma_carried_prefix_marks_margin(line: Seq<char>, prefix: Seq<char>)
    requires
        is_line(line),
        has_margin(line, prefix),
        prefix.len() > 0,
    ensures
        marks_margin(prefix),
{
    lemma_trim_start_is_suffix(line);
    assert forall|j: int| 0 <= j < prefix.len() implies #[trigger] prefix[j] != LINE_BREAK by {}
}

/// Lines that were given a prefix are themselves again without it.
pub proof fn lemma_without_prefix(lines: Seq<Seq<char>>, prefix: Seq<char>)
    ensures
        with_margin(lines, prefix).map_values(|line: Seq<char>| line.skip(prefix.len() as int))
            == lines,
{
    let marked = with_margin(lines, prefix);
    assert forall|i: int| 0 <= i < lines.len() implies (#[trigger] marked[i]).skip(
        prefix.len() as int,
    ) == lines[i] by {
        assert((prefix + lines[i]).skip(prefix.len() as int) =~= lines[i]);
    }
    assert(marked.map_values(|line: Seq<char>| line.skip(prefix.len() as int)) =~= lines);
}

/// Joined lines behind an indentation are the same lines joined, the first of
/// them indented.
pub proof fn lemma_indent_joined(indent: Seq<char>, lines: Seq<Seq<char>>)
    requires
        lines.len() >= 1,
    ensures
        indent + join_lines(lines) == join_lines(lines.update(0, indent + lines[0])),
{
    if lines.len() > 1 {
        assert(lines.update(0, indent + lines[0]).drop_first() =~= lines.drop_first());
    }
}

/// The lines of a framed text: the first line, the lines of the indented text,
/// the last line.
pub proof fn lemma_split_framed(
    text: Seq<char>,
    lead: Seq<char>,
    indent: Seq<char>,
    trail: Seq<char>,
)
    requires
        is_line(lead),
        is_line(trail),
    ensures
        split_lines(framed(text, lead, indent, trail)) == seq![lead] + split_lines(indent + text)
            + seq![trail],
{
    let inner = indent + text;
    lemma_split_one_line(lead);
    lemma_split_one_line(trail);
    lemma_split_concat(lead, inner);
    lemma_split_concat(lead + seq![LINE_BREAK] + inner, trail);
    assert(framed(text, lead, indent, trail) =~= lead + seq![LINE_BREAK] + inner + seq![
        LINE_BREAK,
    ] + trail);
}

/// Round trip. Lines without a line break in them are each given the prefix
/// and joined by line breaks; trimming the margin of that text gives the lines
/// themselves, joined by line breaks.
pub proof fn lemma_round_trip(lines: Seq<Seq<char>>, prefix: Seq<char>)
    requires
        forall|i: int| 0 <= i < lines.len() ==> is_line(#[trigger] lines[i]),
        round_trips(lines, prefix),
    ensures
        margin_trimmed(join_lines(with_margin(lines, prefix)), prefix) == Some(join_lines(lines)),
{
    let marked = with_margin(lines, prefix);
    let text = join_lines(marked);
    lemma_one_line_iff(text);
    if lines.len() == 1 {
        lemma_blank_iff_trimmed_empty(split_lines(prefix)[0]);
        lemma_blank_iff_trimmed_empty(split_lines(prefix)[1]);
    } else if lines.len() >= 2 {
        assert forall|i: int| 0 <= i < marked.len() implies is_line(#[trigger] marked[i]) by {}
        lemma_split_join(marked);
        assert(trimmed_lines(text) =~= marked) by {
            assert forall|i: int| 0 <= i < marked.len() implies trim_start(#[trigger] marked[i])
                == marked[i] by {
                lemma_trim_marked_line(Seq::empty(), prefix, lines[i]);
                assert(Seq::<char>::empty() + marked[i] =~= marked[i]);
            }
        }
        assert(kept_lines(marked) =~= marked);
        lemma_without_prefix(lines, prefix);
    }
}

/// The round trip holds of no other lines and prefixes than those of
/// [`round_trips`], as long as no line begins with the prefix.
pub proof fn lemma_round_trip_only(lines: Seq<Seq<char>>, prefix: Seq<char>)
    requires
        forall|i: int| 0 <= i < lines.len() ==> is_line(#[trigger] lines[i]),
        forall|i: int| 0 <= i < lines.len() ==> !prefix.is_prefix_of(#[trigger] lines[i]),
        margin_trimmed(join_lines(with_margin(lines, prefix)), prefix) == Some(join_lines(lines)),
    ensures
        round_trips(lines, prefix),
{
    let marked = with_margin(lines, prefix);
    let text = join_lines(marked);
    if lines.len() >= 1 {
        assert(prefix.len() > 0) by {
            if prefix.len() == 0 {
                assert(prefix =~= lines[0].subrange(0, 0));
            }
        }
        lemma_join_split(text);
        let all = split_lines(text);
        let working = trimmed_lines(text);
        if lines.len() >= 2 {
            assert(text[marked[0].len() as int] == LINE_BREAK);
        }
        if !is_line(text) {
            if kept_lines(working).len() > 0 {
                let first: int = if working.first().len() == 0 { 1 } else { 0 };
                assert(kept_lines(working)[0] == working[first]);
                lemma_carried_prefix_marks_margin(all[first], prefix);
            } else {
                lemma_blank_iff_trimmed_empty(all[0]);
                lemma_blank_iff_trimmed_empty(all[1]);
            }
        }
    }
}

/// Round trip between blank lines. The text of [`lemma_round_trip`] is
/// indented by whitespace and put between a blank first line and a blank last
/// line; trimming the margin still gives the lines themselves, joined by line
/// breaks.
pub proof fn lemma_round_trip_framed(
    lines: Seq<Seq<char>>,
    prefix: Seq<char>,
    lead: Seq<char>,
    indent: Seq<char>,
    trail: Seq<char>,
)
    requires
        forall|i: int| 0 <= i < lines.len() ==> is_line(#[trigger] lines[i]),
        is_blank(lead) && is_line(lead),
        is_blank(indent) && is_line(indent),
        is_blank(trail) && is_line(trail),
        round_trips_framed(lines, prefix),
    ensures
        margin_trimmed(framed(join_lines(with_margin(lines, prefix)), lead, indent, trail), prefix)
            == Some(join_lines(lines)),
{
    let marked = with_margin(lines, prefix);
    let text = join_lines(marked);
    let whole = framed(text, lead, indent, trail);
    let inner = if lines.len() == 0 { seq![indent] } else { marked.update(0, indent + marked[0]) };
    assert(split_lines(indent + text) == inner) by {
        if lines.len() == 0 {
            assert(indent + text =~= indent);
            lemma_split_one_line(indent);
        } else {
            lemma_indent_joined(indent, marked);
            assert forall|i: int| 0 <= i < inner.len() implies is_line(#[trigger] inner[i]) by {}
            lemma_split_join(inner);
        }
    }
    lemma_split_framed(text, lead, indent, trail);
    lemma_one_line_iff(whole);
    lemma_blank_iff_trimmed_empty(lead);
    lemma_blank_iff_trimmed_empty(trail);
    lemma_blank_iff_trimmed_empty(indent);
    let kept = kept_lines(trimmed_lines(whole));
    assert forall|i: int| 0 <= i < inner.len() implies #[trigger] kept[i] == trim_start(
        inner[i],
    ) by {}
    if lines.len() == 0 {
        assert(kept[0].skip(prefix.len() as int) =~= Seq::<char>::empty());
    } else {
        assert(kept =~= marked) by {
            assert forall|i: int| 0 <= i < marked.len() implies trim_start(#[trigger] inner[i])
                == marked[i] by {
                if i == 0 {
                    lemma_trim_marked_line(indent, prefix, lines[0]);
                } else {
                    lemma_trim_marked_line(Seq::empty(), prefix, lines[i]);
                    assert(Seq::<char>::empty() + marked[i] =~= marked[i]);
                }
            }
        }
        lemma_without_prefix(lines, prefix);
    }
}

/// The round trip between blank lines holds of no other lines and prefixes
/// than those of [`round_trips_framed`], as long as no line begins with the
/// prefix.
pub proof fn lemma_round_trip_framed_only(
    lines: Seq<Seq<char>>,
    prefix: Seq<char>,
    lead: Seq<char>,
    indent: Seq<char>,
    trail: Seq<char>,
)
    requires
        forall|i: int| 0 <= i < lines.len() ==> is_line(#[trigger] lines[i]),
        forall|i: int| 0 <= i < lines.len() ==> !prefix.is_prefix_of(#[trigger] lines[i]),
        is_blank(lead) && is_line(lead),
        is_blank(indent) && is_line(indent),
        is_blank(trail) && is_line(trail),
        margin_trimmed(framed(join_lines(with_margin(lines, prefix)), lead, indent, trail), prefix)
            == Some(join_lines(lines)),
    ensures
        round_trips_framed(lines, prefix),
{
    let text = join_lines(with_margin(lines, prefix));
    let whole = framed(text, lead, indent, trail);
    let inner = split_lines(indent + text);
    lemma_join_split(indent + text);
    lemma_split_framed(text, lead, indent, trail);
    lemma_one_line_iff(whole);
    lemma_blank_iff_trimmed_empty(lead);
    lemma_blank_iff_trimmed_empty(trail);
    assert(kept_lines(trimmed_lines(whole))[0] == trim_start(inner[0]));
    if lines.len() == 0 {
        assert(indent + text =~= indent);
        lemma_split_one_line(indent);
        lemma_blank_iff_trimmed_empty(indent);
    } else {
        assert(prefix.len() > 0) by {
            if prefix.len() == 0 {
                assert(prefix =~= lines[0].subrange(0, 0));
            }
        }
        lemma_carried_prefix_marks_margin(inner[0], prefix);
    }
}

} // verus!
