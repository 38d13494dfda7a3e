//! What holds of the engine as a whole.
//!
//! Each law is a proof function over the spec functions in which the
//! contracts of [`crate::compiler`] and [`crate::matcher`] are written.

use vstd::prelude::*;
use crate::atom::{Atom, AtomView, program_view};
use crate::compiler::{
    compile, lemma_compile_behind_start_anchor, lemma_compile_push_dollar,
    lemma_start_anchor_first, reads_to_end, scan_anchored,
};
use crate::group::{branch_end, branches, group_body, is_group, lemma_branch_end_bounds};
use crate::matcher::{
    Outcome, any_branch_matches, attempt, cursor_after, lemma_attempt_behind_first,
    lemma_mismatch_inside_line, pattern_matches, run_end, search,
};
use crate::symbol::Symbol;

verus! {

/// Compiling is a function of the pattern alone: two programs compiled from
/// the same pattern hold the same atoms in the same order.
pub proof fn law_compile_is_deterministic(first: Seq<Atom>, second: Seq<Atom>, pattern: Seq<char>)
    requires
        program_view(first) == compile(pattern),
        program_view(second) == compile(pattern),
    ensures
        first.len() == second.len(),
        forall|k: int| 0 <= k < first.len() ==> first[k]@ == second[k]@,
{
    assert(program_view(first).len() == first.len());
    assert(program_view(second).len() == second.len());
    assert forall|k: int| 0 <= k < first.len() implies first[k]@ == second[k]@ by {
        assert(program_view(first)[k] == first[k]@);
        assert(program_view(second)[k] == second[k]@);
    }
}

/// A repetition is greedy: it takes every character up to the first one
/// that does not satisfy the repeated atom, or up to the end of the line.
pub proof fn law_one_or_more_is_greedy(inner: AtomView, input: Seq<Symbol>, i: int)
    requires
        0 <= i <= input.len(),
    ensures
        i <= run_end(inner, input, i) <= input.len(),
        forall|j: int| i <= j < run_end(inner, input, i) ==> inner.accepts(#[trigger] input[j]),
        run_end(inner, input, i) < input.len() ==> !inner.accepts(
            input[run_end(inner, input, i)],
        ),
    decreases input.len() - i,
{
    if i < input.len() && inner.accepts(input[i]) {
        law_one_or_more_is_greedy(inner, input, i + 1);
    }
}

/// Whether every atom of the program tests exactly one character: the
/// program holds no anchor and no quantified atom.
pub open spec fn all_plain(program: Seq<AtomView>) -> bool {
    forall|k: int| 0 <= k < program.len() ==> (#[trigger] program[k]).is_plain()
}

/// Whether the line holds, from position `at` on, one character for each
/// atom of the program, each satisfying its atom.
pub open spec fn occurs_at(program: Seq<AtomView>, input: Seq<Symbol>, at: int) -> bool {
    &&& 0 <= at
    &&& at + program.len() <= input.len()
    &&& forall|k: int| 0 <= k < program.len() ==> (#[trigger] program[k]).accepts(input[at + k])
}

/// For a plain program a search is a substring search: it succeeds exactly
/// when the line holds the program's sequence as a run of adjacent
/// characters, at or behind the position where the search begins.
pub proof fn law_search_is_substring_search(
    program: Seq<AtomView>,
    input: Seq<Symbol>,
    start: int,
)
    requires
        all_plain(program),
        0 <= start <= input.len(),
    ensures
        search(program, input, start, false) <==> exists|at: int|
            start <= at && occurs_at(program, input, at),
    decreases input.len() - start,
{
    lemma_plain_attempt(program, input, 0, start);
    lemma_mismatch_inside_line(program, input, 0, start);
    lemma_occurrence_satisfies(program, input, start);
    match attempt(program, input, 0, start) {
        Outcome::Matched(_) => {},
        Outcome::Failed => {
            assert forall|at: int| start <= at implies !occurs_at(program, input, at) by {}
        },
        Outcome::Mismatch => {
            law_search_is_substring_search(program, input, start + 1);
            if exists|at: int| start <= at && occurs_at(program, input, at) {
                let at = choose|at: int| start <= at && occurs_at(program, input, at);
                assert(start + 1 <= at);
            }
        },
    }
}

/// An anchored search with a plain program succeeds exactly when the line
/// begins with the program's sequence.
pub proof fn law_anchored_search_is_prefix_occurrence(program: Seq<AtomView>, input: Seq<Symbol>)
    requires
        all_plain(program),
    ensures
        search(program, input, 0, true) <==> occurs_at(program, input, 0),
{
    lemma_plain_attempt(program, input, 0, 0);
    lemma_occurrence_satisfies(program, input, 0);
}

/// A pattern without anchors and quantifiers is searched for as a
/// substring: if the pattern is no group and compiles to plain atoms, it
/// matches a line exactly when the line holds the sequence of those atoms
/// as a run of adjacent characters, and matches from the start of the line
/// exactly when the line begins with that sequence.
pub proof fn law_plain_pattern_is_substring_search(input: Seq<Symbol>, pattern: Seq<char>)
    requires
        !is_group(pattern),
        all_plain(compile(pattern)),
    ensures
        pattern_matches(input, pattern, false) <==> exists|at: int|
            occurs_at(compile(pattern), input, at),
        pattern_matches(input, pattern, true) <==> occurs_at(compile(pattern), input, 0),
{
    if pattern.len() > 0 && pattern.first() == '^' {
        lemma_start_anchor_first(pattern);
        assert(!compile(pattern)[0].is_plain());
    }
    law_search_is_substring_search(compile(pattern), input, 0);
    law_anchored_search_is_prefix_occurrence(compile(pattern), input);
}

/// The branches of a body are tried in order until one matches: a body
/// matches from a branch on exactly when that branch or a later one matches.
pub proof fn law_some_branch_matches(input: Seq<Symbol>, body: Seq<char>, from: int)
    requires
        0 <= from <= body.len(),
    ensures
        any_branch_matches(input, body, from) <==> exists|b: int|
            0 <= b < branches(body, from).len() && pattern_matches(
                input,
                #[trigger] branches(body, from)[b],
                false,
            ),
    decreases body.len() - from,
{
    let end = branch_end(body, from);
    let all = branches(body, from);
    let first = body.subrange(from, end);
    lemma_branch_end_bounds(body, from);
    assert(all[0] == first);
    if end < body.len() {
        let later = branches(body, end + 1);
        law_some_branch_matches(input, body, end + 1);
        assert(all =~= seq![first] + later);
        if any_branch_matches(input, body, end + 1) {
            let b = choose|b: int|
                0 <= b < later.len() && pattern_matches(input, #[trigger] later[b], false);
            assert(all[b + 1] == later[b]);
        }
        if exists|b: int| 0 <= b < all.len() && pattern_matches(input, #[trigger] all[b], false) {
            let b = choose|b: int|
                0 <= b < all.len() && pattern_matches(input, #[trigger] all[b], false);
            if b > 0 {
                assert(later[b - 1] == all[b]);
            }
        }
    }
}

/// A group matches a line exactly when one of its branches does, matched
/// as a pattern of its own that may begin anywhere in the line; whether the
/// caller asked for an anchored match makes no difference.
pub proof fn law_group_matches_by_branch(input: Seq<Symbol>, pattern: Seq<char>, anchored: bool)
    requires
        is_group(pattern),
    ensures
        pattern_matches(input, pattern, anchored) <==> exists|b: int|
            0 <= b < branches(group_body(pattern), 0).len() && pattern_matches(
                input,
                #[trigger] branches(group_body(pattern), 0)[b],
                false,
            ),
{
    law_some_branch_matches(input, group_body(pattern), 0);
}

/// A `^` in front of a pattern pins the match to the start of the line,
/// whether or not the caller asked for that.
pub proof fn law_start_anchor_pins_match(input: Seq<Symbol>, pattern: Seq<char>, anchored: bool)
    ensures
        pattern_matches(input, seq!['^'] + pattern, anchored) == pattern_matches(
            input,
            pattern,
            true,
        ),
{
    let whole = seq!['^'] + pattern;
    assert(whole.drop_first() =~= pattern);
    assert(whole.first() == '^');
}

/// A program that begins with the start anchor matches exactly when the
/// rest of it matches from the first character of the line, whether or not
/// the caller asked for an anchored match.
pub proof fn law_start_anchor_in_program(rest: Seq<AtomView>, input: Seq<Symbol>, anchored: bool)
    ensures
        search(seq![AtomView::StartAnchor] + rest, input, 0, anchored) <==> attempt(
            rest,
            input,
            0,
            0,
        ) is Matched,
{
    let whole = seq![AtomView::StartAnchor] + rest;
    assert(whole[0] == AtomView::StartAnchor);
    lemma_attempt_behind_first(AtomView::StartAnchor, rest, input, 0, 0);
    lemma_mismatch_inside_line(rest, input, 0, 0);
    assert(attempt(whole, input, 0, 0) == attempt(rest, input, 0, 0));
    if attempt(rest, input, 0, 0) is Mismatch {
        assert(attempt(whole, input, 0, 1) == Outcome::Failed);
        assert(!search(whole, input, 1, anchored));
    }
}

/// Whether the pattern is matched as a single program: it is no group, and
/// if it begins with `^`, what follows is no group and does not begin with
/// `^` again.
pub open spec fn is_single_program(pattern: Seq<char>) -> bool {
    &&& !is_group(pattern)
    &&& pattern.len() > 0 && pattern.first() == '^' ==> {
        &&& !is_group(pattern.drop_first())
        &&& pattern.len() == 1 || pattern[1] != '^'
    }
}

/// Matching a pattern is running its program: for a pattern that is
/// matched as a single program, the program alone decides, its start anchor
/// included.
pub proof fn law_pattern_is_matched_by_its_program(
    input: Seq<Symbol>,
    pattern: Seq<char>,
    anchored: bool,
)
    requires
        is_single_program(pattern),
    ensures
        pattern_matches(input, pattern, anchored) == search(compile(pattern), input, 0, anchored),
{
    if pattern.len() > 0 && pattern.first() == '^' {
        let rest = pattern.drop_first();
        reveal_with_fuel(pattern_matches, 2);
        lemma_compile_behind_start_anchor(pattern);
        law_start_anchor_in_program(compile(rest), input, anchored);
        if rest.len() > 0 {
            assert(rest.first() == pattern[1]);
        }
    }
}

/// A pattern behind `^` matches exactly when its program matches from the
/// first character of the line; no later position is ever tried. This holds
/// of a pattern that is matched as a single program.
pub proof fn law_start_anchor_matches_prefix(
    input: Seq<Symbol>,
    pattern: Seq<char>,
    anchored: bool,
)
    requires
        is_single_program(pattern),
    ensures
        pattern_matches(input, seq!['^'] + pattern, anchored) <==> attempt(
            compile(pattern),
            input,
            0,
            0,
        ) is Matched,
{
    law_start_anchor_pins_match(input, pattern, anchored);
    law_pattern_is_matched_by_its_program(input, pattern, true);
}

/// With the end anchor behind it a program matches exactly where the
/// program alone matches and ends at the end of the line; where the program
/// alone fails, it fails in the same way.
pub proof fn law_end_anchor_needs_end_of_line(
    program: Seq<AtomView>,
    input: Seq<Symbol>,
    k: int,
    i: int,
)
    requires
        0 <= k <= program.len(),
    ensures
        attempt(program.push(AtomView::EndAnchor), input, k, i) == (match attempt(
            program,
            input,
            k,
            i,
        ) {
            Outcome::Matched(end) => if end == input.len() {
                Outcome::Matched(end)
            } else {
                Outcome::Failed
            },
            other => other,
        }),
    decreases program.len() - k,
{
    let closed = program.push(AtomView::EndAnchor);
    if k < program.len() {
        assert(closed[k] == program[k]);
        match program[k] {
            AtomView::EndAnchor => {},
            AtomView::StartAnchor => {
                law_end_anchor_needs_end_of_line(program, input, k + 1, i);
            },
            AtomView::ZeroOrOne(inner) => {
                law_end_anchor_needs_end_of_line(program, input, k + 1, i);
                law_end_anchor_needs_end_of_line(program, input, k + 1, i + 1);
            },
            atom => {
                law_end_anchor_needs_end_of_line(
                    program,
                    input,
                    k + 1,
                    cursor_after(atom, input, i),
                );
            },
        }
    } else {
        assert(closed[k] == AtomView::EndAnchor);
    }
}

/// An anchored match of a program with the end anchor behind it succeeds
/// exactly when the program alone matches the whole line.
pub proof fn law_anchored_end_matches_whole_line(program: Seq<AtomView>, input: Seq<Symbol>)
    ensures
        search(program.push(AtomView::EndAnchor), input, 0, true) <==> attempt(
            program,
            input,
            0,
            0,
        ) == Outcome::Matched(input.len() as int),
{
    law_end_anchor_needs_end_of_line(program, input, 0, 0);
}

/// A search for a program with the end anchor behind it is decided by the
/// first attempt that does not end in a mismatch: the search succeeds
/// exactly when, at the first position from which the program alone does
/// not run into a mismatch, it matches up to the end of the line.
pub proof fn law_end_anchor_is_decided_once(
    program: Seq<AtomView>,
    input: Seq<Symbol>,
    start: int,
)
    requires
        0 <= start <= input.len(),
    ensures
        search(program.push(AtomView::EndAnchor), input, start, false) <==> exists|at: int|
            start <= at <= input.len() && #[trigger] attempt(program, input, 0, at)
                == Outcome::Matched(input.len() as int) && forall|s: int|
                start <= s < at ==> #[trigger] attempt(program, input, 0, s) is Mismatch,
    decreases input.len() - start,
{
    let closed = program.push(AtomView::EndAnchor);
    law_end_anchor_needs_end_of_line(program, input, 0, start);
    lemma_mismatch_inside_line(closed, input, 0, start);
    match attempt(program, input, 0, start) {
        Outcome::Matched(end) => {
            if exists|at: int|
                start <= at <= input.len() && #[trigger] attempt(program, input, 0, at)
                    == Outcome::Matched(input.len() as int) && forall|s: int|
                    start <= s < at ==> #[trigger] attempt(program, input, 0, s) is Mismatch {
                let at = choose|at: int|
                    start <= at <= input.len() && #[trigger] attempt(program, input, 0, at)
                        == Outcome::Matched(input.len() as int) && forall|s: int|
                        start <= s < at ==> #[trigger] attempt(program, input, 0, s) is Mismatch;
                if at > start {
                    assert(attempt(program, input, 0, start) is Mismatch);
                }
            }
        },
        Outcome::Failed => {
            if exists|at: int|
                start <= at <= input.len() && #[trigger] attempt(program, input, 0, at)
                    == Outcome::Matched(input.len() as int) && forall|s: int|
                    start <= s < at ==> #[trigger] attempt(program, input, 0, s) is Mismatch {
                let at = choose|at: int|
                    start <= at <= input.len() && #[trigger] attempt(program, input, 0, at)
                        == Outcome::Matched(input.len() as int) && forall|s: int|
                        start <= s < at ==> #[trigger] attempt(program, input, 0, s) is Mismatch;
                if at > start {
                    assert(attempt(program, input, 0, start) is Mismatch);
                }
            }
        },
        Outcome::Mismatch => {
            law_end_anchor_is_decided_once(program, input, start + 1);
            if search(closed, input, start + 1, false) {
                let at = choose|at: int|
                    start + 1 <= at <= input.len() && #[trigger] attempt(program, input, 0, at)
                        == Outcome::Matched(input.len() as int) && forall|s: int|
                        start + 1 <= s < at ==> #[trigger] attempt(program, input, 0, s) is Mismatch;
                assert forall|s: int| start <= s < at implies #[trigger] attempt(
                    program,
                    input,
                    0,
                    s,
                ) is Mismatch by {}
            }
            if exists|at: int|
                start <= at <= input.len() && #[trigger] attempt(program, input, 0, at)
                    == Outcome::Matched(input.len() as int) && forall|s: int|
                    start <= s < at ==> #[trigger] attempt(program, input, 0, s) is Mismatch {
                let at = choose|at: int|
                    start <= at <= input.len() && #[trigger] attempt(program, input, 0, at)
                        == Outcome::Matched(input.len() as int) && forall|s: int|
                        start <= s < at ==> #[trigger] attempt(program, input, 0, s) is Mismatch;
                assert(at > start);
            }
        },
    }
}

/// A `$` behind a pattern asks for a match that ends at the end of the
/// line. For a pattern that is read to its end and does not end in the end
/// anchor already, the `$` adds the end anchor to the program. The pattern
/// with the `$` then matches from the start of the line exactly when the
/// program alone matches the whole line, and matches at all only if the
/// program alone matches some end of the line.
pub proof fn law_dollar_adds_end_anchor(input: Seq<Symbol>, pattern: Seq<char>, anchored: bool)
    requires
        is_single_program(pattern.push('$')),
        reads_to_end(pattern, if pattern.len() > 0 && pattern.first() == '^' { 1int } else { 0int }),
        compile(pattern) == scan_anchored(pattern),
    ensures
        compile(pattern.push('$')) == compile(pattern).push(AtomView::EndAnchor),
        pattern_matches(input, pattern.push('$'), anchored) == search(
            compile(pattern).push(AtomView::EndAnchor),
            input,
            0,
            anchored,
        ),
        pattern_matches(input, pattern.push('$'), true) <==> attempt(compile(pattern), input, 0, 0)
            == Outcome::Matched(input.len() as int),
        pattern_matches(input, pattern.push('$'), anchored) ==> exists|at: int|
            0 <= at <= input.len() && #[trigger] attempt(compile(pattern), input, 0, at)
                == Outcome::Matched(input.len() as int),
{
    let longer = pattern.push('$');
    lemma_compile_push_dollar(pattern);
    law_pattern_is_matched_by_its_program(input, longer, anchored);
    law_pattern_is_matched_by_its_program(input, longer, true);
    law_pattern_is_matched_by_its_program(input, longer, false);
    law_anchored_end_matches_whole_line(compile(pattern), input);
    law_end_anchor_is_decided_once(compile(pattern), input, 0);
}

/// Whether the characters of the line from `i` on satisfy, one each, the
/// atoms of the program from `k` on.
spec fn satisfies_from(program: Seq<AtomView>, input: Seq<Symbol>, k: int, i: int) -> bool {
    &&& i + program.len() - k <= input.len()
    &&& forall|j: int| k <= j < program.len() ==> (#[trigger] program[j]).accepts(input[i + j - k])
}

/// An attempt with a plain program succeeds exactly where the line holds
/// the program's sequence, and then ends right behind it. It fails for
/// good only where the line is too short to hold the sequence.
proof fn lemma_plain_attempt(program: Seq<AtomView>, input: Seq<Symbol>, k: int, i: int)
    requires
        all_plain(program),
        0 <= k <= program.len(),
        0 <= i <= input.len(),
    ensures
        attempt(program, input, k, i) is Matched <==> satisfies_from(program, input, k, i),
        attempt(program, input, k, i) is Matched ==> attempt(program, input, k, i)
            == Outcome::Matched(i + program.len() - k),
        attempt(program, input, k, i) is Failed ==> i + program.len() - k > input.len(),
    decreases program.len() - k,
{
    if k < program.len() {
        assert(program[k].is_plain());
        if i >= input.len() {
        } else if !program[k].accepts(input[i]) {
            assert(!program[k].accepts(input[i + k - k]));
        } else {
            lemma_plain_attempt(program, input, k + 1, i + 1);
            assert(attempt(program, input, k, i) == attempt(program, input, k + 1, i + 1));
            if satisfies_from(program, input, k, i) {
                assert forall|j: int| k + 1 <= j < program.len() implies (
                #[trigger] program[j]).accepts(input[(i + 1) + j - (k + 1)]) by {
                    assert(program[j].accepts(input[i + j - k]));
                }
            }
            if satisfies_from(program, input, k + 1, i + 1) {
                assert forall|j: int| k <= j < program.len() implies (
                #[trigger] program[j]).accepts(input[i + j - k]) by {
                    if j > k {
                        assert(program[j].accepts(input[(i + 1) + j - (k + 1)]));
                    }
                }
            }
        }
    }
}

/// The program's sequence occurs at a position exactly when the characters
/// from that position on satisfy the whole program.
proof fn lemma_occurrence_satisfies(program: Seq<AtomView>, input: Seq<Symbol>, at: int)
    requires
        0 <= at,
    ensures
        occurs_at(program, input, at) <==> satisfies_from(program, input, 0, at),
{
    if satisfies_from(program, input, 0, at) {
        assert forall|k: int| 0 <= k < program.len() implies (#[trigger] program[k]).accepts(
            input[at + k],
        ) by {
            assert(program[k].accepts(input[at + k - 0]));
        }
    }
    if occurs_at(program, input, at) {
        assert forall|k: int| 0 <= k < program.len() implies (#[trigger] program[k]).accepts(
            input[at + k - 0],
        ) by {
            assert(program[k].accepts(input[at + k]));
        }
    }
}

} // verus!
