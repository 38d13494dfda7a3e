//! Compiling a pattern into a sequence of atoms.
//!
//! The pattern is read once from left to right. Nothing in it is an error:
//! an escape that is not known is skipped together with its backslash, and
//! a class that is never closed ends the program where the class began.

use vstd::prelude::*;
use crate::atom::{Atom, AtomView, atom_view, program_view};
use crate::group::{is_group, starts_group};
use crate::symbol::{chars_of, lemma_char_is_scalar};

verus! {

/// What a pattern compiles to.
#[derive(Debug, PartialEq, Eq)]
pub enum Compiled {
    /// The pattern is an alternation group. A group is not compiled as a
    /// whole: the matcher takes it apart and compiles each branch.
    AlternationGroup,
    /// The program of a pattern that is no group.
    Program(Vec<Atom>),
}

/// The atom that the escape `\c` stands for, if it is a known escape.
pub open spec fn escape_atom(c: char) -> Option<AtomView> {
    if c == 'd' {
        Some(AtomView::AnyDigit)
    } else if c == 'w' {
        Some(AtomView::AnyAlphanumeric)
    } else if c == '\\' {
        Some(AtomView::Literal('\\'))
    } else {
        None
    }
}

/// The position of the first `]` at or behind `from`, or the length of the
/// pattern where there is none.
pub open spec fn class_end(pattern: Seq<char>, from: int) -> int
    decreases pattern.len() - from,
{
    if !(0 <= from < pattern.len()) {
        pattern.len() as int
    } else if pattern[from] == ']' {
        from
    } else {
        class_end(pattern, from + 1)
    }
}

/// The class that opens with the `[` at `open` and closes with the `]` at
/// `close`. A `^` right behind the bracket negates the class and is not a
/// member; any other character there is the first member, a `]` too.
pub open spec fn class_atom(pattern: Seq<char>, open: int, close: int) -> AtomView {
    if pattern[open + 1] == '^' {
        AtomView::NegativeClass(pattern.subrange(open + 2, close))
    } else {
        AtomView::PositiveClass(pattern.subrange(open + 1, close))
    }
}

/// The atoms that the pattern gives from position `i` on.
///
/// - Behind a backslash, `d` gives a digit, `w` an alphanumeric and a second
///   backslash a literal backslash. Any other character there is skipped
///   together with the backslash, and so is a backslash that ends the pattern.
/// - `[` opens a class. The class runs to the first `]` that stands two or
///   more positions behind the `[`; where there is none, the scan is over and
///   gives nothing more.
/// - `.` gives the wildcard.
/// - Any other character gives itself: repeated if a `+` follows, optional
///   if a `?` follows, and as a plain literal otherwise. The `+` or `?` is
///   used up with it.
pub open spec fn scan(pattern: Seq<char>, i: int) -> Seq<AtomView>
    decreases pattern.len() - i,
{
    if !(0 <= i < pattern.len()) {
        Seq::empty()
    } else if pattern[i] == '\\' {
        if i + 1 >= pattern.len() {
            Seq::empty()
        } else if escape_atom(pattern[i + 1]) is Some {
            seq![escape_atom(pattern[i + 1])->0] + scan(pattern, i + 2)
        } else {
            scan(pattern, i + 2)
        }
    } else if pattern[i] == '[' {
        let close = class_end(pattern, i + 2);
        if close < pattern.len() {
            proof {
                lemma_class_end_bounds(pattern, i + 2);
            }
            seq![class_atom(pattern, i, close)] + scan(pattern, close + 1)
        } else {
            Seq::empty()
        }
    } else if pattern[i] == '.' {
        seq![AtomView::Wildcard] + scan(pattern, i + 1)
    } else if i + 1 < pattern.len() && pattern[i + 1] == '+' {
        seq![AtomView::OneOrMore(Box::new(AtomView::Literal(pattern[i])))] + scan(pattern, i + 2)
    } else if i + 1 < pattern.len() && pattern[i + 1] == '?' {
        seq![AtomView::ZeroOrOne(Box::new(AtomView::Literal(pattern[i])))] + scan(pattern, i + 2)
    } else {
        seq![AtomView::Literal(pattern[i])] + scan(pattern, i + 1)
    }
}

/// The atoms of the pattern before the end anchor is recognised: a start
/// anchor for a leading `^`, then what the rest of the pattern gives.
pub open spec fn scan_anchored(pattern: Seq<char>) -> Seq<AtomView> {
    if pattern.len() > 0 && pattern[0] == '^' {
        seq![AtomView::StartAnchor] + scan(pattern, 1)
    } else {
        scan(pattern, 0)
    }
}

/// Turns a final literal `$` into the end anchor.
pub open spec fn close_program(atoms: Seq<AtomView>) -> Seq<AtomView> {
    if atoms.len() > 0 && atoms.last() == AtomView::Literal('$') {
        atoms.drop_last().push(AtomView::EndAnchor)
    } else {
        atoms
    }
}

/// The program that a pattern compiles to: a start anchor for a leading
/// `^`, the atoms of the rest, and the end anchor in place of a literal `$`
/// that comes last.
pub open spec fn compile(pattern: Seq<char>) -> Seq<AtomView> {
    close_program(scan_anchored(pattern))
}

/// Whether the scan can give this atom: it is no anchor, and if it is
/// quantified, it is a quantified literal.
pub open spec fn is_scanned(atom: AtomView) -> bool {
    match atom {
        AtomView::StartAnchor => false,
        AtomView::EndAnchor => false,
        AtomView::OneOrMore(inner) => *inner is Literal,
        AtomView::ZeroOrOne(inner) => *inner is Literal,
        _ => true,
    }
}

/// Whether the scan can give each of these atoms.
pub open spec fn all_scanned(atoms: Seq<AtomView>) -> bool {
    forall|k: int| 0 <= k < atoms.len() ==> is_scanned(#[trigger] atoms[k])
}

/// Whether a program is as the compiler makes them: a start anchor stands
/// first and an end anchor last, if they stand anywhere, and only literals
/// are quantified.
pub open spec fn well_formed(program: Seq<AtomView>) -> bool {
    forall|k: int|
        0 <= k < program.len() ==> {
            &&& #[trigger] program[k] == AtomView::StartAnchor ==> k == 0
            &&& program[k] == AtomView::EndAnchor ==> k == program.len() - 1
            &&& program[k] matches AtomView::OneOrMore(inner) ==> *inner is Literal
            &&& program[k] matches AtomView::ZeroOrOne(inner) ==> *inner is Literal
        }
}

/// Whether the scan from `i` on reads the pattern to its end: no backslash
/// is left without a character behind it and no class is left open.
pub open spec fn reads_to_end(pattern: Seq<char>, i: int) -> bool
    decreases pattern.len() - i,
{
    if !(0 <= i < pattern.len()) {
        true
    } else if pattern[i] == '\\' {
        i + 1 < pattern.len() && reads_to_end(pattern, i + 2)
    } else if pattern[i] == '[' {
        let close = class_end(pattern, i + 2);
        proof {
            if i + 2 <= pattern.len() {
                lemma_class_end_bounds(pattern, i + 2);
            }
        }
        close < pattern.len() && reads_to_end(pattern, close + 1)
    } else if pattern[i] == '.' {
        reads_to_end(pattern, i + 1)
    } else if i + 1 < pattern.len() && (pattern[i + 1] == '+' || pattern[i + 1] == '?') {
        reads_to_end(pattern, i + 2)
    } else {
        reads_to_end(pattern, i + 1)
    }
}

/// Compiles the characters of a pattern into its program.
pub fn parse_chars(pattern: &[char]) -> (program: Vec<Atom>)
    ensures
        program_view(program@) == compile(pattern@),
        well_formed(program_view(program@)),
{
    let ghost text = pattern@;
    let len = pattern.len();
    let mut program: Vec<Atom> = Vec::new();
    let mut i: usize = 0;
    if len > 0 && pattern[0] == '^' {
        program.push(Atom::StartAnchor);
        i = 1;
    }
    assert(program_view(program@) + scan(text, i as int) =~= scan_anchored(text));
    while i < len
        invariant
            text == pattern@,
            len == pattern.len(),
            i <= len,
            program_view(program@) + scan(text, i as int) == scan_anchored(text),
        decreases len - i,
    {
        let ghost before = program_view(program@);
        let ghost at = i as int;
        proof {
            reveal_with_fuel(atom_view, 2);
        }
        let ghost mut step: Seq<AtomView> = Seq::empty();
        let c = pattern[i];
        proof {
            lemma_char_is_scalar(c);
        }
        if c == '\\' {
            if i + 1 < len {
                let e = pattern[i + 1];
                if e == 'd' {
                    program.push(Atom::AnyDigit);
                    proof {
                        step = seq![AtomView::AnyDigit];
                    }
                } else if e == 'w' {
                    program.push(Atom::AnyAlphanumeric);
                    proof {
                        step = seq![AtomView::AnyAlphanumeric];
                    }
                } else if e == '\\' {
                    program.push(Atom::Literal('\\'));
                    proof {
                        step = seq![AtomView::Literal('\\')];
                    }
                }
                i += 2;
            } else {
                i = len;
            }
        } else if c == '[' {
            if i + 1 < len {
                let negative = pattern[i + 1] == '^';
                let mut members: Vec<char> = Vec::new();
                if !negative {
                    members.push(pattern[i + 1]);
                }
                let ghost first = if negative { i + 2 } else { i + 1 };
                let mut j: usize = i + 2;
                assert(members@ =~= text.subrange(first, j as int));
                while j < len && pattern[j] != ']'
                    invariant
                        text == pattern@,
                        len == pattern.len(),
                        i + 2 <= j <= len,
                        i + 1 <= first <= j,
                        members@ == text.subrange(first, j as int),
                        class_end(text, j as int) == class_end(text, i + 2),
                    decreases len - j,
                {
                    members.push(pattern[j]);
                    j += 1;
                    assert(members@ =~= text.subrange(first, j as int));
                }
                assert(class_end(text, at + 2) == j);
                if j < len {
                    if negative {
                        program.push(Atom::NegativeClass(members));
                    } else {
                        program.push(Atom::PositiveClass(members));
                    }
                    proof {
                        step = seq![class_atom(text, at, j as int)];
                    }
                    i = j + 1;
                } else {
                    i = len;
                }
            } else {
                i = len;
            }
        } else if c == '.' {
            program.push(Atom::Wildcard);
            proof {
                step = seq![AtomView::Wildcard];
            }
            i += 1;
        } else if i + 1 < len && pattern[i + 1] == '+' {
            program.push(Atom::OneOrMore(Box::new(Atom::Literal(c))));
            proof {
                step = seq![AtomView::OneOrMore(Box::new(AtomView::Literal(c)))];
            }
            i += 2;
        } else if i + 1 < len && pattern[i + 1] == '?' {
            program.push(Atom::ZeroOrOne(Box::new(Atom::Literal(c))));
            proof {
                step = seq![AtomView::ZeroOrOne(Box::new(AtomView::Literal(c)))];
            }
            i += 2;
        } else {
            program.push(Atom::Literal(c));
            proof {
                step = seq![AtomView::Literal(c)];
            }
            i += 1;
        }
        proof {
            assert(program_view(program@) =~= before + step);
            assert(scan(text, at) =~= step + scan(text, i as int));
            assert((before + step) + scan(text, i as int) =~= before + (step + scan(text, i as int)));
        }
    }
    let n = program.len();
    if n > 0 {
        let dollar = match &program[n - 1] {
            Atom::Literal(c) => *c == '$',
            _ => false,
        };
        if dollar {
            program.pop();
            program.push(Atom::EndAnchor);
        }
    }
    proof {
        assert(program_view(program@) =~= compile(text));
        lemma_compile_is_well_formed(text);
    }
    program
}

/// Compiles the characters of a pattern, unless the pattern is an
/// alternation group.
pub fn compile_pattern(pattern: &[char]) -> (compiled: Compiled)
    ensures
        match compiled {
            Compiled::AlternationGroup => is_group(pattern@),
            Compiled::Program(program) => !is_group(pattern@) && program_view(program@) == compile(
                pattern@,
            ),
        },
{
    if starts_group(pattern) {
        Compiled::AlternationGroup
    } else {
        Compiled::Program(parse_chars(pattern))
    }
}

/// Compiles a pattern into its program.
///
/// The pattern is taken as a sequence of atoms as it stands, parentheses and
/// bars included: whether it is an alternation group is for
/// [`compile_pattern`] to say.
pub fn parse_pattern(pattern: &str) -> (program: Vec<Atom>)
    ensures
        program_view(program@) == compile(pattern@),
        well_formed(program_view(program@)),
{
    let chars = chars_of(pattern);
    parse_chars(chars.as_slice())
}

/// The first `]` at or behind `from` is not before `from`.
pub proof fn lemma_class_end_bounds(pattern: Seq<char>, from: int)
    requires
        0 <= from <= pattern.len(),
    ensures
        from <= class_end(pattern, from) <= pattern.len(),
        class_end(pattern, from) < pattern.len() ==> pattern[class_end(pattern, from)] == ']',
        forall|j: int| from <= j < class_end(pattern, from) ==> pattern[j] != ']',
    decreases pattern.len() - from,
{
    if from < pattern.len() && pattern[from] != ']' {
        lemma_class_end_bounds(pattern, from + 1);
    }
}

/// Putting one more atom that the scan can give in front of such atoms
/// gives such atoms.
proof fn lemma_prepend_scanned(atom: AtomView, rest: Seq<AtomView>)
    requires
        is_scanned(atom),
        all_scanned(rest),
    ensures
        all_scanned(seq![atom] + rest),
{
    let all = seq![atom] + rest;
    assert forall|k: int| 0 <= k < all.len() implies is_scanned(#[trigger] all[k]) by {
        if k > 0 {
            assert(all[k] == rest[k - 1]);
        }
    }
}

/// The scan gives no anchors, and quantifies nothing but literals.
pub proof fn lemma_scan_gives_scanned_atoms(pattern: Seq<char>, i: int)
    ensures
        all_scanned(scan(pattern, i)),
    decreases pattern.len() - i,
{
    if 0 <= i < pattern.len() {
        let c = pattern[i];
        lemma_char_is_scalar(c);
        if c == '\\' {
            if i + 1 < pattern.len() {
                lemma_scan_gives_scanned_atoms(pattern, i + 2);
                if escape_atom(pattern[i + 1]) is Some {
                    lemma_prepend_scanned(escape_atom(pattern[i + 1])->0, scan(pattern, i + 2));
                }
            }
        } else if c == '[' {
            let close = class_end(pattern, i + 2);
            if close < pattern.len() {
                lemma_class_end_bounds(pattern, i + 2);
                lemma_scan_gives_scanned_atoms(pattern, close + 1);
                lemma_prepend_scanned(class_atom(pattern, i, close), scan(pattern, close + 1));
            }
        } else if c == '.' {
            lemma_scan_gives_scanned_atoms(pattern, i + 1);
            lemma_prepend_scanned(AtomView::Wildcard, scan(pattern, i + 1));
        } else if i + 1 < pattern.len() && pattern[i + 1] == '+' {
            lemma_scan_gives_scanned_atoms(pattern, i + 2);
            lemma_prepend_scanned(
                AtomView::OneOrMore(Box::new(AtomView::Literal(c))),
                scan(pattern, i + 2),
            );
        } else if i + 1 < pattern.len() && pattern[i + 1] == '?' {
            lemma_scan_gives_scanned_atoms(pattern, i + 2);
            lemma_prepend_scanned(
                AtomView::ZeroOrOne(Box::new(AtomView::Literal(c))),
                scan(pattern, i + 2),
            );
        } else {
            lemma_scan_gives_scanned_atoms(pattern, i + 1);
            lemma_prepend_scanned(AtomView::Literal(c), scan(pattern, i + 1));
        }
    }
}

/// In a compiled program the start anchor stands first and the end anchor
/// last, if they stand anywhere, and only literals are quantified.
pub proof fn lemma_compile_is_well_formed(pattern: Seq<char>)
    ensures
        well_formed(compile(pattern)),
{
    let scanned = scan_anchored(pattern);
    let program = compile(pattern);
    if pattern.len() > 0 && pattern.first() == '^' {
        lemma_scan_gives_scanned_atoms(pattern, 1);
    } else {
        lemma_scan_gives_scanned_atoms(pattern, 0);
    }
    assert forall|k: int| 0 <= k < program.len() implies {
        &&& #[trigger] program[k] == AtomView::StartAnchor ==> k == 0
        &&& program[k] == AtomView::EndAnchor ==> k == program.len() - 1
        &&& program[k] matches AtomView::OneOrMore(inner) ==> *inner is Literal
        &&& program[k] matches AtomView::ZeroOrOne(inner) ==> *inner is Literal
    } by {
        if k < program.len() - 1 {
            assert(program[k] == scanned[k]);
        }
        if pattern.len() > 0 && pattern.first() == '^' {
            if k > 0 {
                assert(scanned[k] == scan(pattern, 1)[k - 1]);
                assert(is_scanned(scan(pattern, 1)[k - 1]));
            }
        } else {
            assert(is_scanned(scan(pattern, 0)[k]));
        }
    }
}

/// A program begins with the start anchor exactly when its pattern begins
/// with `^`.
pub proof fn lemma_start_anchor_first(pattern: Seq<char>)
    ensures
        (compile(pattern).len() > 0 && compile(pattern).first() == AtomView::StartAnchor) <==> (
        pattern.len() > 0 && pattern.first() == '^'),
{
    lemma_scan_gives_scanned_atoms(pattern, 0);
    let atoms = scan_anchored(pattern);
    if atoms.len() > 0 {
        assert(compile(pattern).len() == atoms.len());
        if !(pattern.len() > 0 && pattern.first() == '^') {
            assert(is_scanned(scan(pattern, 0)[0]));
        }
        if atoms.len() > 1 {
            assert(compile(pattern).first() == atoms.first());
        }
    }
}

/// A class that is closed stays closed, at the same place, when a character
/// is put behind the pattern.
pub proof fn lemma_class_end_push(pattern: Seq<char>, last: char, from: int)
    requires
        0 <= from <= pattern.len(),
        class_end(pattern, from) < pattern.len(),
    ensures
        class_end(pattern.push(last), from) == class_end(pattern, from),
    decreases pattern.len() - from,
{
    if pattern[from] != ']' {
        lemma_class_end_push(pattern, last, from + 1);
    }
}

/// Behind a pattern that is read to its end, a `$` is scanned as one more
/// atom: the literal `$`.
pub proof fn lemma_scan_push_dollar(pattern: Seq<char>, i: int)
    requires
        0 <= i <= pattern.len(),
        reads_to_end(pattern, i),
    ensures
        scan(pattern.push('$'), i) == scan(pattern, i).push(AtomView::Literal('$')),
    decreases pattern.len() - i,
{
    let longer = pattern.push('$');
    let dollar = AtomView::Literal('$');
    if i == pattern.len() {
        assert(scan(longer, i + 1) =~= Seq::empty());
        assert(scan(longer, i) =~= scan(pattern, i).push(dollar));
    } else {
        let c = pattern[i];
        lemma_char_is_scalar(c);
        assert(longer[i] == c);
        if c == '\\' {
            assert(longer[i + 1] == pattern[i + 1]);
            lemma_scan_push_dollar(pattern, i + 2);
            assert(scan(longer, i) =~= scan(pattern, i).push(dollar));
        } else if c == '[' {
            let close = class_end(pattern, i + 2);
            lemma_class_end_bounds(pattern, i + 2);
            lemma_class_end_push(pattern, '$', i + 2);
            lemma_scan_push_dollar(pattern, close + 1);
            assert(longer[i + 1] == pattern[i + 1]);
            assert(longer.subrange(i + 1, close) =~= pattern.subrange(i + 1, close));
            assert(longer.subrange(i + 2, close) =~= pattern.subrange(i + 2, close));
            assert(class_atom(longer, i, close) == class_atom(pattern, i, close));
            assert(scan(longer, i) =~= scan(pattern, i).push(dollar));
        } else if c == '.' {
            lemma_scan_push_dollar(pattern, i + 1);
            assert(scan(longer, i) =~= scan(pattern, i).push(dollar));
        } else if i + 1 < pattern.len() && (pattern[i + 1] == '+' || pattern[i + 1] == '?') {
            assert(longer[i + 1] == pattern[i + 1]);
            lemma_scan_push_dollar(pattern, i + 2);
            assert(scan(longer, i) =~= scan(pattern, i).push(dollar));
        } else {
            assert(longer[i + 1] == if i + 1 < pattern.len() {
                pattern[i + 1]
            } else {
                '$'
            });
            lemma_scan_push_dollar(pattern, i + 1);
            assert(scan(longer, i) =~= scan(pattern, i).push(dollar));
        }
    }
}

/// Behind a pattern that is read to its end and does not itself end in the
/// end anchor, a `$` adds the end anchor to the program and changes nothing
/// else.
pub proof fn lemma_compile_push_dollar(pattern: Seq<char>)
    requires
        reads_to_end(pattern, if pattern.len() > 0 && pattern.first() == '^' { 1int } else { 0int }),
        compile(pattern) == scan_anchored(pattern),
    ensures
        compile(pattern.push('$')) == compile(pattern).push(AtomView::EndAnchor),
{
    let longer = pattern.push('$');
    let dollar = AtomView::Literal('$');
    if pattern.len() > 0 && pattern.first() == '^' {
        lemma_scan_push_dollar(pattern, 1);
        assert(longer.first() == '^');
        assert(scan_anchored(longer) =~= scan_anchored(pattern).push(dollar));
    } else {
        lemma_scan_push_dollar(pattern, 0);
        assert(longer.first() == if pattern.len() > 0 {
            pattern.first()
        } else {
            '$'
        });
        assert(scan_anchored(longer) =~= scan_anchored(pattern).push(dollar));
    }
    assert(scan_anchored(longer).drop_last() =~= scan_anchored(pattern));
}

/// Where a class ends does not depend on what stands before it.
pub proof fn lemma_class_end_drop_first(pattern: Seq<char>, from: int)
    requires
        1 <= from <= pattern.len(),
    ensures
        class_end(pattern, from) == class_end(pattern.drop_first(), from - 1) + 1,
    decreases pattern.len() - from,
{
    let rest = pattern.drop_first();
    if from < pattern.len() {
        assert(rest[from - 1] == pattern[from]);
        if pattern[from] != ']' {
            lemma_class_end_drop_first(pattern, from + 1);
        }
    }
}

/// What the scan gives from a position on does not depend on what stands
/// before that position.
pub proof fn lemma_scan_drop_first(pattern: Seq<char>, i: int)
    requires
        1 <= i <= pattern.len(),
    ensures
        scan(pattern, i) == scan(pattern.drop_first(), i - 1),
    decreases pattern.len() - i,
{
    let rest = pattern.drop_first();
    if i < pattern.len() {
        let c = pattern[i];
        lemma_char_is_scalar(c);
        assert(rest[i - 1] == c);
        if i + 1 < pattern.len() {
            assert(rest[i] == pattern[i + 1]);
            lemma_scan_drop_first(pattern, i + 2);
        }
        lemma_scan_drop_first(pattern, i + 1);
        if c == '[' && i + 2 <= pattern.len() {
            let close = class_end(pattern, i + 2);
            lemma_class_end_drop_first(pattern, i + 2);
            lemma_class_end_bounds(pattern, i + 2);
            if close < pattern.len() {
                lemma_scan_drop_first(pattern, close + 1);
                assert(rest.subrange(i, close - 1) =~= pattern.subrange(i + 1, close));
                assert(rest.subrange(i + 1, close - 1) =~= pattern.subrange(i + 2, close));
                assert(class_atom(rest, i - 1, close - 1) == class_atom(pattern, i, close));
            }
        }
        assert(scan(pattern, i) =~= scan(rest, i - 1));
    } else {
        assert(scan(pattern, i) =~= scan(rest, i - 1));
    }
}

/// The program of a pattern that begins with one `^` is the start anchor
/// followed by the program of the rest.
pub proof fn lemma_compile_behind_start_anchor(pattern: Seq<char>)
    requires
        pattern.len() > 0,
        pattern.first() == '^',
        pattern.len() == 1 || pattern[1] != '^',
    ensures
        compile(pattern) == seq![AtomView::StartAnchor] + compile(pattern.drop_first()),
{
    let rest = pattern.drop_first();
    lemma_scan_drop_first(pattern, 1);
    if rest.len() > 0 {
        assert(rest.first() == pattern[1]);
    }
    let body = scan(rest, 0);
    let whole = seq![AtomView::StartAnchor] + body;
    assert(scan_anchored(rest) == body);
    assert(scan_anchored(pattern) == whole);
    if body.len() > 0 {
        assert(whole.last() == body.last());
        assert(whole.drop_last() =~= seq![AtomView::StartAnchor] + body.drop_last());
        assert(compile(pattern) =~= seq![AtomView::StartAnchor] + compile(rest));
    } else {
        assert(whole =~= seq![AtomView::StartAnchor]);
        assert(compile(pattern) =~= seq![AtomView::StartAnchor] + compile(rest));
    }
}

} // verus!
