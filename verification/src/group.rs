//! Alternation groups: a whole pattern of the form `(first|second|...)`.
//!
//! A group is recognised by its first and last character alone. Its body is
//! what is left when every opening parenthesis at the front and every closing
//! one at the back is taken away, and the branches are the pieces of the body
//! between the bars.

use vstd::prelude::*;
use vstd::slice::slice_subrange;

verus! {

/// Whether the pattern is a group: it opens with `(` and closes with `)`.
pub open spec fn is_group(pattern: Seq<char>) -> bool {
    pattern.len() > 0 && pattern.first() == '(' && pattern.last() == ')'
}

/// `text` without the run of `c` at its front.
pub open spec fn strip_leading(text: Seq<char>, c: char) -> Seq<char>
    decreases text.len(),
{
    if text.len() > 0 && text.first() == c {
        strip_leading(text.drop_first(), c)
    } else {
        text
    }
}

/// `text` without the run of `c` at its back.
pub open spec fn strip_trailing(text: Seq<char>, c: char) -> Seq<char>
    decreases text.len(),
{
    if text.len() > 0 && text.last() == c {
        strip_trailing(text.drop_last(), c)
    } else {
        text
    }
}

/// The body of a group: the pattern without the parentheses around it.
pub open spec fn group_body(pattern: Seq<char>) -> Seq<char> {
    strip_trailing(strip_leading(pattern, '('), ')')
}

/// The position of the first `|` at or behind `from`, or the length of the
/// body where there is none: the end of the branch that begins at `from`.
pub open spec fn branch_end(body: Seq<char>, from: int) -> int
    decreases body.len() - from,
{
    if !(0 <= from < body.len()) {
        body.len() as int
    } else if body[from] == '|' {
        from
    } else {
        branch_end(body, from + 1)
    }
}

/// The branches of a body from position `from` on: the pieces between the
/// bars, in order. A body without a bar is one branch, an empty body too.
pub open spec fn branches(body: Seq<char>, from: int) -> Seq<Seq<char>>
    decreases body.len() - from + 1,
    when 0 <= from <= body.len()
{
    let end = branch_end(body, from);
    proof {
        lemma_branch_end_bounds(body, from);
    }
    if end < body.len() {
        seq![body.subrange(from, end)] + branches(body, end + 1)
    } else {
        seq![body.subrange(from, end)]
    }
}

/// Whether the pattern is a group.
pub fn starts_group(pattern: &[char]) -> (group: bool)
    ensures
        group == is_group(pattern@),
{
    let len = pattern.len();
    len > 0 && pattern[0] == '(' && pattern[len - 1] == ')'
}

/// The body of a group.
pub fn body_of(pattern: &[char]) -> (body: &[char])
    ensures
        body@ == group_body(pattern@),
{
    let len = pattern.len();
    let mut lo: usize = 0;
    assert(pattern@.subrange(0, len as int) =~= pattern@);
    while lo < len && pattern[lo] == '('
        invariant
            len == pattern.len(),
            lo <= len,
            strip_leading(pattern@, '(') == strip_leading(pattern@.subrange(lo as int, len as int), '('),
        decreases len - lo,
    {
        assert(pattern@.subrange(lo as int, len as int).drop_first() =~= pattern@.subrange(
            lo + 1,
            len as int,
        ));
        lo += 1;
    }
    let mut hi: usize = len;
    while hi > lo && pattern[hi - 1] == ')'
        invariant
            len == pattern.len(),
            lo <= hi <= len,
            group_body(pattern@) == strip_trailing(pattern@.subrange(lo as int, hi as int), ')'),
        decreases hi - lo,
    {
        assert(pattern@.subrange(lo as int, hi as int).drop_last() =~= pattern@.subrange(
            lo as int,
            hi - 1,
        ));
        hi -= 1;
    }
    slice_subrange(pattern, lo, hi)
}

/// Where the branch that begins at `from` ends.
pub fn find_branch_end(body: &[char], from: usize) -> (end: usize)
    ensures
        end == branch_end(body@, from as int),
        end <= body.len(),
        from <= body.len() ==> from <= end,
{
    if from >= body.len() {
        return body.len();
    }
    let mut end: usize = from;
    while end < body.len() && body[end] != '|'
        invariant
            from <= end <= body.len(),
            branch_end(body@, end as int) == branch_end(body@, from as int),
        decreases body.len() - end,
    {
        end += 1;
    }
    end
}

/// Stripping takes characters away and never adds any.
pub proof fn lemma_strip_leading_len(text: Seq<char>, c: char)
    ensures
        strip_leading(text, c).len() <= text.len(),
        text.len() > 0 && text.first() == c ==> strip_leading(text, c).len() < text.len(),
    decreases text.len(),
{
    if text.len() > 0 && text.first() == c {
        lemma_strip_leading_len(text.drop_first(), c);
    }
}

/// Stripping takes characters away and never adds any.
pub proof fn lemma_strip_trailing_len(text: Seq<char>, c: char)
    ensures
        strip_trailing(text, c).len() <= text.len(),
        text.len() > 0 && text.last() == c ==> strip_trailing(text, c).len() < text.len(),
    decreases text.len(),
{
    if text.len() > 0 && text.last() == c {
        lemma_strip_trailing_len(text.drop_last(), c);
    }
}

/// The body of a group is shorter than the group.
pub proof fn lemma_group_body_shorter(pattern: Seq<char>)
    requires
        is_group(pattern),
    ensures
        group_body(pattern).len() < pattern.len(),
{
    lemma_strip_leading_len(pattern, '(');
    lemma_strip_trailing_len(strip_leading(pattern, '('), ')');
}

/// A branch ends at or behind the position where it begins.
pub proof fn lemma_branch_end_bounds(body: Seq<char>, from: int)
    requires
        0 <= from <= body.len(),
    ensures
        from <= branch_end(body, from) <= body.len(),
    decreases body.len() - from,
{
    if from < body.len() && body[from] != '|' {
        lemma_branch_end_bounds(body, from + 1);
    }
}

} // verus!
