//! The margin of a multi-line text, and the text without it.

use vstd::prelude::*;
use crate::chars::{chars_of, push_chars_from};
use crate::lines::{
    is_line, join_lines, lemma_join_push, lemma_one_line_iff, lines_of, split_lines, LINE_BREAK,
};
use crate::whitespace::{trim_start, trim_starts, trim_starts_of};

verus! {

/// The lines of `text`, each without its leading whitespace.
pub open spec fn trimmed_lines(text: Seq<char>) -> Seq<Seq<char>> {
    trim_starts(split_lines(text))
}

/// The lines without the first of them if it is empty, and without the last of
/// what is then left if that is empty. No other line is dropped for being empty.
pub open spec fn kept_lines(lines: Seq<Seq<char>>) -> Seq<Seq<char>> {
    let from: int = if lines.len() > 0 && lines.first().len() == 0 { 1 } else { 0 };
    let to: int = if lines.len() > from && lines.last().len() == 0 {
        lines.len() - 1
    } else {
        lines.len() as int
    };
    lines.subrange(from, to)
}

/// The lines of [`kept_lines`], each without the prefix that it begins with,
/// joined by line breaks; no result if one of them does not begin with the
/// prefix.
pub open spec fn without_margin(lines: Seq<Seq<char>>, prefix: Seq<char>) -> Option<Seq<char>> {
    let kept = kept_lines(lines);
    if forall|i: int| 0 <= i < kept.len() ==> prefix.is_prefix_of(#[trigger] kept[i]) {
        Some(join_lines(kept.map_values(|line: Seq<char>| line.skip(prefix.len() as int))))
    } else {
        None
    }
}

/// The text without its margin.
///
/// A text without a line break is left as it is, whatever the prefix. The
/// lines of a longer text are taken without their leading whitespace; a blank
/// first line and a blank last line are dropped, every other line has to begin
/// with the prefix and loses it, and what is left is joined by line breaks.
pub open spec fn margin_trimmed(text: Seq<char>, prefix: Seq<char>) -> Option<Seq<char>> {
    if is_line(text) {
        Some(text)
    } else {
        without_margin(trimmed_lines(text), prefix)
    }
}

/// A line carries the margin when `prefix` follows its leading whitespace.
pub open spec fn has_margin(line: Seq<char>, prefix: Seq<char>) -> bool {
    prefix.is_prefix_of(trim_start(line))
}

/// Every line of `text` that has to carry the margin does: every line but a
/// blank first and a blank last one.
pub open spec fn carries_margin(text: Seq<char>, prefix: Seq<char>) -> bool {
    let kept = kept_lines(trimmed_lines(text));
    forall|i: int| 0 <= i < kept.len() ==> prefix.is_prefix_of(#[trigger] kept[i])
}

/// Some line of `text` other than its first and its last does not carry the
/// margin.
pub open spec fn inner_line_lacks_margin(text: Seq<char>, prefix: Seq<char>) -> bool {
    let lines = split_lines(text);
    exists|i: int| 0 < i < lines.len() - 1 && !has_margin(#[trigger] lines[i], prefix)
}

/// One line between the first and the last that lacks the margin leaves the
/// text without a result, whatever the other lines are.
pub proof fn lemma_inner_line_without_margin_fails(text: Seq<char>, prefix: Seq<char>)
    requires
        inner_line_lacks_margin(text, prefix),
    ensures
        margin_trimmed(text, prefix) is None,
{
    let lines = split_lines(text);
    let i = choose|i: int| 0 < i < lines.len() - 1 && !has_margin(#[trigger] lines[i], prefix);
    let working = trimmed_lines(text);
    let from: int = if working.first().len() == 0 { 1 } else { 0 };
    assert(kept_lines(working)[i - from] == working[i]);
    lemma_one_line_iff(text);
}

/// Whether `line` begins with `prefix`.
pub fn starts_with(line: &[char], prefix: &[char]) -> (found: bool)
    ensures
        found == prefix@.is_prefix_of(line@),
{
    if prefix.len() > line.len() {
        return false;
    }
    let mut i: usize = 0;
    while i < prefix.len()
        invariant
            i <= prefix.len() <= line.len(),
            forall|j: int| 0 <= j < i ==> line@[j] == prefix@[j],
        decreases prefix.len() - i,
    {
        if line[i] != prefix[i] {
            return false;
        }
        i += 1;
    }
    true
}

/// Joins lines that were written with a margin and have lost their leading
/// whitespace already: an empty first line and an empty last line are dropped,
/// every other line loses the prefix, and `None` is returned if one of those
/// does not begin with it.
pub fn strip_margin(lines: &[&[char]], prefix: &[char]) -> (joined: Option<String>)
    ensures
        joined.deep_view() == without_margin(lines.deep_view(), prefix@),
{
    let count = lines.len();
    let from: usize = if count > 0 && lines[0].len() == 0 { 1 } else { 0 };
    let to: usize = if count > from && lines[count - 1].len() == 0 { count - 1 } else { count };
    let ghost kept = kept_lines(lines.deep_view());
    let ghost contents = kept.map_values(|line: Seq<char>| line.skip(prefix@.len() as int));
    assert forall|k: int| 0 <= k < kept.len() implies #[trigger] kept[k] == lines[from + k]@ by {}
    let mut joined = String::new();
    let mut i: usize = from;
    while i < to
        invariant
            from <= i <= to <= count,
            count == lines.len(),
            kept == kept_lines(lines.deep_view()),
            kept.len() == to - from,
            forall|k: int| 0 <= k < kept.len() ==> #[trigger] kept[k] == lines[from + k]@,
            contents == kept.map_values(|line: Seq<char>| line.skip(prefix@.len() as int)),
            forall|k: int| 0 <= k < i - from ==> prefix@.is_prefix_of(#[trigger] kept[k]),
            joined@ == join_lines(contents.take(i - from)),
        decreases to - i,
    {
        let line = lines[i];
        if !starts_with(line, prefix) {
            assert(!prefix@.is_prefix_of(kept[i - from]));
            return None;
        }
        if i > from {
            joined.push(LINE_BREAK);
        }
        push_chars_from(&mut joined, line, prefix.len());
        proof {
            let done = contents.take(i - from);
            lemma_join_push(done, contents[i - from]);
            assert(done.push(contents[i - from]) =~= contents.take(i + 1 - from));
        }
        i += 1;
    }
    assert(contents.take(to - from) =~= contents);
    Some(joined)
}

/// Multi-line strings whose lines are set off by a margin, and the removal of
/// that margin.
pub trait MarginTrimmable: View<V = Seq<char>> {
    /// Removes the margin marked by `margin_prefix`.
    ///
    /// A string without a line break comes back unchanged. Of a longer one a
    /// blank first line and a blank last line are dropped; every other line
    /// loses its leading whitespace and the prefix behind it, and what is left
    /// of them is joined by line breaks. The result is `None` if and only if
    /// one of those other lines does not begin, behind its leading whitespace,
    /// with the prefix.
    fn trim_margin_with(&self, margin_prefix: &str) -> (trimmed: Option<String>)
        ensures
            trimmed.deep_view() == margin_trimmed(self@, margin_prefix@),
            trimmed is Some <==> is_line(self@) || carries_margin(self@, margin_prefix@),
            is_line(self@) ==> trimmed.deep_view() == Some(self@),
            inner_line_lacks_margin(self@, margin_prefix@) ==> trimmed is None,
    ;

    /// Removes the margin marked by `|`.
    fn trim_margin(&self) -> (trimmed: Option<String>)
        ensures
            trimmed.deep_view() == margin_trimmed(self@, seq!['|']),
            trimmed is Some <==> is_line(self@) || carries_margin(self@, seq!['|']),
            is_line(self@) ==> trimmed.deep_view() == Some(self@),
            inner_line_lacks_margin(self@, seq!['|']) ==> trimmed is None,
    {
        proof {
            reveal_strlit("|");
        }
        self.trim_margin_with("|")
    }
}

impl MarginTrimmable for str {
    fn trim_margin_with(&self, margin_prefix: &str) -> (trimmed: Option<String>) {
        proof {
            lemma_one_line_iff(self@);
            if inner_line_lacks_margin(self@, margin_prefix@) {
                lemma_inner_line_without_margin_fails(self@, margin_prefix@);
            }
        }
        let text = chars_of(self);
        let lines = lines_of(text.as_slice());
        if lines.len() <= 1 {
            return Some(self.to_owned());
        }
        let working = trim_starts_of(lines.as_slice());
        let prefix = chars_of(margin_prefix);
        strip_margin(working.as_slice(), prefix.as_slice())
    }
}

impl MarginTrimmable for String {
    fn trim_margin_with(&self, margin_prefix: &str) -> (trimmed: Option<String>) {
        self.as_str().trim_margin_with(margin_prefix)
    }
}

impl<T: MarginTrimmable + ?Sized> MarginTrimmable for &T {
    fn trim_margin_with(&self, margin_prefix: &str) -> (trimmed: Option<String>) {
        (**self).trim_margin_with(margin_prefix)
    }
}

} // verus!
