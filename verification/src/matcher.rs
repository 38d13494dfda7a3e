//! Running a compiled program against a classified line.
//!
//! An attempt walks the program and the line with one cursor each. An atom
//! takes what it can and never gives anything back: `a+` takes the whole run
//! of `a`, even where a later atom would have needed part of it. When a
//! character fails its atom, the attempt is over. An anchored match is then
//! over too; an unanchored one makes a fresh attempt, one position further
//! into the line than the last. An end anchor that does not find the end of
//! the line, or a line that runs out under an atom, ends the match for good.

use vstd::prelude::*;
use vstd::slice::slice_subrange;
use crate::atom::{Atom, AtomView, program_view};
use crate::compiler::{Compiled, compile, compile_pattern, lemma_start_anchor_first};
use crate::group::{
    body_of, branch_end, find_branch_end, group_body, is_group, lemma_branch_end_bounds,
    lemma_group_body_shorter,
};
use crate::symbol::{Symbol, chars_of, classified_line, classify_line};

verus! {

/// How one attempt to run a program from some position of the line ends.
pub enum Outcome {
    /// Every atom was satisfied, or the end anchor found the end of the line.
    /// The number is the position in the line at which the match ends.
    Matched(int),
    /// The attempt failed for good: the line ran out under an atom that
    /// needed a character, or an anchor was not where it had to be.
    Failed,
    /// A character of the line did not satisfy its atom.
    Mismatch,
}

/// How an attempt ended, as the matcher computes it.
#[derive(Clone, Copy, Debug, PartialEq, Eq)]
pub enum Verdict {
    /// The attempt matched and ends at this position of the line.
    Matched(usize),
    /// The attempt failed for good.
    Failed,
    /// A character of the line did not satisfy its atom.
    Mismatch,
}

impl View for Verdict {
    type V = Outcome;

    open spec fn view(&self) -> Outcome {
        match self {
            Verdict::Matched(end) => Outcome::Matched(*end as int),
            Verdict::Failed => Outcome::Failed,
            Verdict::Mismatch => Outcome::Mismatch,
        }
    }
}

/// The position up to which `inner` is satisfied by every character from `i` on.
pub open spec fn run_end(inner: AtomView, input: Seq<Symbol>, i: int) -> int
    decreases input.len() - i,
{
    if 0 <= i < input.len() && inner.accepts(input[i]) {
        run_end(inner, input, i + 1)
    } else {
        i
    }
}

/// The position of the input cursor after `atom` has taken the character
/// at `i`, which satisfied it: one further, or for a repetition the end
/// of the run.
pub open spec fn cursor_after(atom: AtomView, input: Seq<Symbol>, i: int) -> int {
    match atom {
        AtomView::OneOrMore(inner) => run_end(*inner, input, i + 1),
        _ => i + 1,
    }
}

/// One attempt: the atoms from `k` on, in order, against the line from `i` on.
///
/// - The end anchor ends the attempt where it stands: the attempt has matched
///   if the line is at its end, and has failed if it is not.
/// - The start anchor takes nothing and is satisfied at the first position of
///   the line only.
/// - An optional atom takes the next character if that satisfies it, and
///   nothing otherwise; it never fails.
/// - Every other atom needs a character. Where the line has run out, the
///   attempt has failed. Where the character does not satisfy the atom, the
///   attempt stops with a mismatch. Otherwise the atom takes the character,
///   and a repetition the rest of its run with it.
/// - When no atom is left, the attempt has matched.
pub open spec fn attempt(program: Seq<AtomView>, input: Seq<Symbol>, k: int, i: int) -> Outcome
    decreases program.len() - k,
{
    if k >= program.len() {
        Outcome::Matched(i)
    } else {
        match program[k] {
            AtomView::EndAnchor => if i == input.len() {
                Outcome::Matched(i)
            } else {
                Outcome::Failed
            },
            AtomView::StartAnchor => if i == 0 {
                attempt(program, input, k + 1, i)
            } else {
                Outcome::Failed
            },
            AtomView::ZeroOrOne(inner) => if 0 <= i < input.len() && inner.accepts(input[i]) {
                attempt(program, input, k + 1, i + 1)
            } else {
                attempt(program, input, k + 1, i)
            },
            atom => if !(0 <= i < input.len()) {
                Outcome::Failed
            } else if !atom.accepts(input[i]) {
                Outcome::Mismatch
            } else {
                attempt(program, input, k + 1, cursor_after(atom, input, i))
            },
        }
    }
}

/// Whether the program matches the line when the first attempt begins at
/// `start`. After a mismatch an unanchored search makes a fresh attempt one
/// position further on; an anchored one gives up. An attempt that has
/// failed for good ends the search.
pub open spec fn search(program: Seq<AtomView>, input: Seq<Symbol>, start: int, anchored: bool) -> bool
    decreases input.len() - start,
    when 0 <= start <= input.len()
{
    match attempt(program, input, 0, start) {
        Outcome::Matched(_) => true,
        Outcome::Failed => false,
        Outcome::Mismatch => {
            proof {
                lemma_mismatch_inside_line(program, input, 0, start);
            }
            !anchored && search(program, input, start + 1, anchored)
        },
    }
}

/// Whether `pattern` matches the line `input`.
///
/// A group matches when one of its branches does; each branch is a pattern
/// of its own and may match anywhere in the line. A pattern that begins with
/// `^` matches when the rest of it matches from the first character of the
/// line. Any other pattern is compiled and its program run against the line.
pub open spec fn pattern_matches(input: Seq<Symbol>, pattern: Seq<char>, anchored: bool) -> bool
    decreases pattern.len(), 0int,
{
    if is_group(pattern) {
        proof {
            lemma_group_body_shorter(pattern);
        }
        any_branch_matches(input, group_body(pattern), 0)
    } else if pattern.len() > 0 && pattern.first() == '^' {
        pattern_matches(input, pattern.drop_first(), true)
    } else {
        search(compile(pattern), input, 0, anchored)
    }
}

/// Whether the branch of `body` that begins at `from`, or one behind it,
/// matches the line.
pub open spec fn any_branch_matches(input: Seq<Symbol>, body: Seq<char>, from: int) -> bool
    decreases body.len(), body.len() - from + 1,
    when 0 <= from <= body.len()
{
    let end = branch_end(body, from);
    proof {
        lemma_branch_end_bounds(body, from);
    }
    pattern_matches(input, body.subrange(from, end), false) || (end < body.len()
        && any_branch_matches(input, body, end + 1))
}

/// Makes one attempt: runs `program` against `input` from position `start`.
pub fn attempt_at(program: &[Atom], input: &[Symbol], start: usize) -> (verdict: Verdict)
    ensures
        verdict@ == attempt(program_view(program@), input@, 0, start as int),
{
    let ghost atoms = program_view(program@);
    let mut k: usize = 0;
    let mut i: usize = start;
    while k < program.len()
        invariant
            atoms == program_view(program@),
            k <= program.len(),
            i == start || i <= input.len(),
            attempt(atoms, input@, 0, start as int) == attempt(atoms, input@, k as int, i as int),
        decreases program.len() - k,
    {
        assert(atoms[k as int] == program@[k as int]@);
        match &program[k] {
            Atom::EndAnchor => {
                return if i == input.len() {
                    Verdict::Matched(i)
                } else {
                    Verdict::Failed
                };
            },
            Atom::StartAnchor => {
                if i != 0 {
                    return Verdict::Failed;
                }
            },
            Atom::ZeroOrOne(inner) => {
                if i < input.len() && inner.accepts(&input[i]) {
                    i += 1;
                }
            },
            Atom::OneOrMore(inner) => {
                if i >= input.len() {
                    return Verdict::Failed;
                }
                if !inner.accepts(&input[i]) {
                    return Verdict::Mismatch;
                }
                i += 1;
                let ghost first = i as int;
                while i < input.len() && inner.accepts(&input[i])
                    invariant
                        first <= i <= input.len(),
                        run_end(inner@, input@, i as int) == run_end(inner@, input@, first),
                    decreases input.len() - i,
                {
                    i += 1;
                }
            },
            atom => {
                if i >= input.len() {
                    return Verdict::Failed;
                }
                if !atom.accepts(&input[i]) {
                    return Verdict::Mismatch;
                }
                i += 1;
            },
        }
        k += 1;
    }
    Verdict::Matched(i)
}

/// Runs `program` against `input` and says whether it matches.
///
/// With `anchored` the program has to match from the first character of the
/// line. Without it an attempt is made from each position of the line in
/// turn, until one matches or one fails for good.
pub fn match_program(program: &[Atom], input: &[Symbol], anchored: bool) -> (matched: bool)
    ensures
        matched == search(program_view(program@), input@, 0, anchored),
{
    let ghost atoms = program_view(program@);
    let mut start: usize = 0;
    loop
        invariant
            atoms == program_view(program@),
            start <= input.len(),
            search(atoms, input@, 0, anchored) == search(atoms, input@, start as int, anchored),
        decreases input.len() - start,
    {
        match attempt_at(program, input, start) {
            Verdict::Matched(_) => {
                return true;
            },
            Verdict::Failed => {
                return false;
            },
            Verdict::Mismatch => {
                if anchored {
                    return false;
                }
                proof {
                    lemma_mismatch_inside_line(atoms, input@, 0, start as int);
                }
                start += 1;
            },
        }
    }
}

/// Matches the characters of a pattern against a classified line.
pub fn match_chars(input: &[Symbol], pattern: &[char], anchored: bool) -> (matched: bool)
    ensures
        matched == pattern_matches(input@, pattern@, anchored),
    decreases pattern@.len(),
{
    match compile_pattern(pattern) {
        Compiled::AlternationGroup => {
            let body = body_of(pattern);
            proof {
                lemma_group_body_shorter(pattern@);
            }
            let mut from: usize = 0;
            loop
                invariant
                    from <= body.len(),
                    is_group(pattern@),
                    body@ == group_body(pattern@),
                    body@.len() < pattern@.len(),
                    any_branch_matches(input@, body@, 0) == any_branch_matches(
                        input@,
                        body@,
                        from as int,
                    ),
                decreases body.len() - from,
            {
                let end = find_branch_end(body, from);
                let branch = slice_subrange(body, from, end);
                if match_chars(input, branch, false) {
                    return true;
                }
                if end >= body.len() {
                    return false;
                }
                from = end + 1;
            }
        },
        Compiled::Program(program) => {
            proof {
                lemma_start_anchor_first(pattern@);
            }
            let anchor_first = program.len() > 0 && match &program[0] {
                Atom::StartAnchor => true,
                _ => false,
            };
            if anchor_first {
                let rest = slice_subrange(pattern, 1, pattern.len());
                assert(rest@ =~= pattern@.drop_first());
                match_chars(input, rest, true)
            } else {
                match_program(program.as_slice(), input, anchored)
            }
        },
    }
}

/// Whether the line matches the pattern.
///
/// With `match_from_start` the pattern has to match from the first character
/// of the line; otherwise it may match further in.
pub fn match_pattern(input_line: &str, pattern: &str, match_from_start: bool) -> (matched: bool)
    ensures
        matched == pattern_matches(classified_line(input_line@), pattern@, match_from_start),
{
    let input = classify_line(input_line);
    let chars = chars_of(pattern);
    match_chars(input.as_slice(), chars.as_slice(), match_from_start)
}

/// An attempt that stands at the end of the line cannot end in a mismatch:
/// a mismatch takes a character to fail.
pub proof fn lemma_mismatch_inside_line(
    program: Seq<AtomView>,
    input: Seq<Symbol>,
    k: int,
    i: int,
)
    requires
        0 <= k,
        0 <= i <= input.len(),
    ensures
        attempt(program, input, k, i) is Mismatch ==> i < input.len(),
    decreases program.len() - k,
{
    if k < program.len() && i == input.len() {
        match program[k] {
            AtomView::EndAnchor => {},
            AtomView::StartAnchor => {
                lemma_mismatch_inside_line(program, input, k + 1, i);
            },
            AtomView::ZeroOrOne(inner) => {
                lemma_mismatch_inside_line(program, input, k + 1, i);
            },
            atom => {},
        }
    }
}

/// An attempt that has passed the first atom goes on as an attempt of the
/// rest of the program does.
pub proof fn lemma_attempt_behind_first(
    first: AtomView,
    rest: Seq<AtomView>,
    input: Seq<Symbol>,
    k: int,
    i: int,
)
    requires
        0 <= k,
    ensures
        attempt(seq![first] + rest, input, k + 1, i) == attempt(rest, input, k, i),
    decreases rest.len() - k,
{
    let whole = seq![first] + rest;
    if k < rest.len() {
        assert(whole[k + 1] == rest[k]);
        match rest[k] {
            AtomView::EndAnchor => {},
            AtomView::StartAnchor => {
                lemma_attempt_behind_first(first, rest, input, k + 1, i);
            },
            AtomView::ZeroOrOne(inner) => {
                lemma_attempt_behind_first(first, rest, input, k + 1, i);
                lemma_attempt_behind_first(first, rest, input, k + 1, i + 1);
            },
            atom => {
                lemma_attempt_behind_first(first, rest, input, k + 1, cursor_after(atom, input, i));
            },
        }
    }
}

} // verus!
