//! Whitespace at the start of a line.

use vstd::prelude::*;
use vstd::slice::slice_subrange;

verus! {

/// Whether `c` is whitespace: what `char::is_whitespace` answers for it.
///
/// The standard library decides this by the Unicode property `White_Space`,
/// with the tables of the Unicode version that it was built for. The set of
/// these characters is therefore not written down here; it has this name, and
/// everything that is proved of trimming holds whatever the set is.
pub uninterp spec fn white_space(c: char) -> bool;

/// `char::is_whitespace` of the standard library. Trusted: the answer depends
/// on the character alone, so it is [`white_space`] of that character. Nothing
/// is claimed about which characters are whitespace.
pub assume_specification[ char::is_whitespace ](c: char) -> (b: bool)
    ensures
        b == white_space(c),
;

/// A line is blank when it holds nothing but whitespace; the empty line is blank.
pub open spec fn is_blank(line: Seq<char>) -> bool {
    forall|i: int| 0 <= i < line.len() ==> white_space(#[trigger] line[i])
}

/// `line` without the whitespace it starts with. Whitespace further on,
/// trailing whitespace included, stays.
pub open spec fn trim_start(line: Seq<char>) -> Seq<char>
    decreases line.len(),
{
    if line.len() > 0 && white_space(line[0]) {
        trim_start(line.drop_first())
    } else {
        line
    }
}

/// Every line without the whitespace it starts with.
pub open spec fn trim_starts(lines: Seq<Seq<char>>) -> Seq<Seq<char>> {
    lines.map_values(|line: Seq<char>| trim_start(line))
}

/// `trim_start` cuts the line at `k` if everything before `k` is whitespace and
/// the character at `k`, if there is one, is not.
pub proof fn lemma_trim_start_at(line: Seq<char>, k: int)
    requires
        0 <= k <= line.len(),
        forall|i: int| 0 <= i < k ==> white_space(#[trigger] line[i]),
        k < line.len() ==> !white_space(line[k]),
    ensures
        trim_start(line) == line.skip(k),
    decreases k,
{
    if k > 0 {
        let rest = line.drop_first();
        assert forall|i: int| 0 <= i < k - 1 implies white_space(#[trigger] rest[i]) by {}
        lemma_trim_start_at(rest, k - 1);
    }
}

/// What `trim_start` leaves is the end of the line, it does not begin with
/// whitespace, and all that was cut is whitespace.
pub proof fn lemma_trim_start_is_suffix(line: Seq<char>)
    ensures
        trim_start(line).len() <= line.len(),
        trim_start(line) == line.skip(line.len() - trim_start(line).len()),
        is_blank(line.take(line.len() - trim_start(line).len())),
        trim_start(line).len() > 0 ==> !white_space(trim_start(line)[0]),
    decreases line.len(),
{
    if line.len() > 0 && white_space(line[0]) {
        let rest = line.drop_first();
        lemma_trim_start_is_suffix(rest);
        let cut = rest.len() - trim_start(rest).len();
        assert forall|i: int| 0 <= i < cut + 1 implies white_space(
            #[trigger] line.take(cut + 1)[i],
        ) by {
            if i > 0 {
                assert(line.take(cut + 1)[i] == rest.take(cut)[i - 1]);
            }
        }
    }
}

/// A line is blank exactly when trimming leaves nothing of it.
pub proof fn lemma_blank_iff_trimmed_empty(line: Seq<char>)
    ensures
        is_blank(line) <==> trim_start(line).len() == 0,
{
    lemma_trim_start_is_suffix(line);
    let cut = line.len() - trim_start(line).len();
    if trim_start(line).len() == 0 {
        assert(line.take(cut) =~= line);
    }
}

/// Whitespace in front of a line does not change what trimming leaves of it.
pub proof fn lemma_trim_start_skips_indent(indent: Seq<char>, rest: Seq<char>)
    requires
        is_blank(indent),
    ensures
        trim_start(indent + rest) == trim_start(rest),
    decreases indent.len(),
{
    if indent.len() > 0 {
        let shorter = indent.drop_first();
        assert((indent + rest).drop_first() =~= shorter + rest);
        assert forall|i: int| 0 <= i < shorter.len() implies white_space(
            #[trigger] shorter[i],
        ) by {}
        lemma_trim_start_skips_indent(shorter, rest);
    }
}

/// The part of `line` behind the whitespace it starts with.
pub fn trim_start_of<'a>(line: &'a [char]) -> (trimmed: &'a [char])
    ensures
        trimmed@ == trim_start(line@),
{
    let mut start: usize = 0;
    while start < line.len() && line[start].is_whitespace()
        invariant
            start <= line.len(),
            forall|i: int| 0 <= i < start ==> white_space(#[trigger] line@[i]),
        decreases line.len() - start,
    {
        start += 1;
    }
    proof {
        lemma_trim_start_at(line@, start as int);
    }
    slice_subrange(line, start, line.len())
}

/// Every line of `lines` without the whitespace it starts with.
pub fn trim_starts_of<'a>(lines: &[&'a [char]]) -> (trimmed: Vec<&'a [char]>)
    ensures
        trimmed.deep_view() == trim_starts(lines.deep_view()),
{
    let mut trimmed: Vec<&'a [char]> = Vec::new();
    let mut i: usize = 0;
    while i < lines.len()
        invariant
            i <= lines.len(),
            trimmed.deep_view() == trim_starts(lines.deep_view()).take(i as int),
        decreases lines.len() - i,
    {
        let line = trim_start_of(lines[i]);
        let ghost done = trimmed.deep_view().push(line@);
        trimmed.push(line);
        proof {
            assert(lines[i as int]@ =~= lines.deep_view()[i as int]);
            assert(trimmed.deep_view() =~~= done);
        }
        i += 1;
    }
    assert(trimmed.deep_view() =~= trim_starts(lines.deep_view()));
    trimmed
}

} // verus!
