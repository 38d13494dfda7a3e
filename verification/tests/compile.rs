use mini_regex::atom::Atom;
use mini_regex::compiler::{parse_chars, parse_pattern};

fn lit(c: char) -> Atom {
    Atom::Literal(c)
}

fn plus(c: char) -> Atom {
    Atom::OneOrMore(Box::new(Atom::Literal(c)))
}

fn opt(c: char) -> Atom {
    Atom::ZeroOrOne(Box::new(Atom::Literal(c)))
}

#[test]
fn literals_compile_one_atom_each() {
    assert_eq!(parse_pattern("abc"), vec![lit('a'), lit('b'), lit('c')]);
}

#[test]
fn empty_pattern_compiles_to_empty_program() {
    assert_eq!(parse_pattern(""), Vec::<Atom>::new());
}

#[test]
fn known_escapes_compile_to_their_atoms() {
    assert_eq!(
        parse_pattern("\\d\\w\\\\"),
        vec![Atom::AnyDigit, Atom::AnyAlphanumeric, lit('\\')]
    );
}

#[test]
fn unknown_escape_is_dropped_with_its_backslash() {
    assert_eq!(parse_pattern("a\\qb"), vec![lit('a'), lit('b')]);
    assert_eq!(parse_pattern("\\$"), Vec::<Atom>::new());
    assert_eq!(parse_pattern("\\+a"), vec![lit('a')]);
}

#[test]
fn trailing_backslash_is_dropped() {
    assert_eq!(parse_pattern("ab\\"), vec![lit('a'), lit('b')]);
    assert_eq!(parse_pattern("\\"), Vec::<Atom>::new());
}

#[test]
fn dot_compiles_to_wildcard() {
    assert_eq!(parse_pattern("a.c"), vec![lit('a'), Atom::Wildcard, lit('c')]);
}

#[test]
fn positive_class_holds_its_members_in_order() {
    assert_eq!(
        parse_pattern("[abc]"),
        vec![Atom::PositiveClass(vec!['a', 'b', 'c'])]
    );
    assert_eq!(
        parse_pattern("x[ba]y"),
        vec![lit('x'), Atom::PositiveClass(vec!['b', 'a']), lit('y')]
    );
}

#[test]
fn negative_class_leaves_the_caret_out() {
    assert_eq!(
        parse_pattern("[^xyz]"),
        vec![Atom::NegativeClass(vec!['x', 'y', 'z'])]
    );
    assert_eq!(parse_pattern("[^^]"), vec![Atom::NegativeClass(vec!['^'])]);
    assert_eq!(parse_pattern("[^]"), vec![Atom::NegativeClass(vec![])]);
}

#[test]
fn caret_behind_the_first_member_is_a_member() {
    assert_eq!(
        parse_pattern("[a^b]"),
        vec![Atom::PositiveClass(vec!['a', '^', 'b'])]
    );
}

#[test]
fn first_member_of_a_class_may_be_a_closing_bracket() {
    assert_eq!(parse_pattern("[]]"), vec![Atom::PositiveClass(vec![']'])]);
    assert_eq!(
        parse_pattern("[]a]b"),
        vec![Atom::PositiveClass(vec![']', 'a']), lit('b')]
    );
}

#[test]
fn class_members_are_taken_as_they_stand() {
    assert_eq!(
        parse_pattern("[a+\\d.]"),
        vec![Atom::PositiveClass(vec!['a', '+', '\\', 'd', '.'])]
    );
}

#[test]
fn unterminated_class_ends_the_program() {
    assert_eq!(parse_pattern("ab[cd"), vec![lit('a'), lit('b')]);
    assert_eq!(parse_pattern("a["), vec![lit('a')]);
    assert_eq!(parse_pattern("[^"), Vec::<Atom>::new());
    assert_eq!(parse_pattern("[]"), Vec::<Atom>::new());
    assert_eq!(parse_pattern("[abc"), Vec::<Atom>::new());
}

#[test]
fn end_anchor_is_recognised_before_an_unterminated_class() {
    assert_eq!(parse_pattern("a$["), vec![lit('a'), Atom::EndAnchor]);
}

#[test]
fn plus_folds_into_the_character_before_it() {
    assert_eq!(parse_pattern("a+"), vec![plus('a')]);
    assert_eq!(parse_pattern("ca+t"), vec![lit('c'), plus('a'), lit('t')]);
}

#[test]
fn question_mark_folds_into_the_character_before_it() {
    assert_eq!(parse_pattern("a?"), vec![opt('a')]);
    assert_eq!(parse_pattern("do?g"), vec![lit('d'), opt('o'), lit('g')]);
}

#[test]
fn quantifier_binds_to_literals_only() {
    assert_eq!(parse_pattern("\\d+"), vec![Atom::AnyDigit, lit('+')]);
    assert_eq!(parse_pattern(".?"), vec![Atom::Wildcard, lit('?')]);
    assert_eq!(
        parse_pattern("[ab]+"),
        vec![Atom::PositiveClass(vec!['a', 'b']), lit('+')]
    );
    assert_eq!(parse_pattern("\\d+?"), vec![Atom::AnyDigit, opt('+')]);
}

#[test]
fn quantifier_characters_can_be_quantified_themselves() {
    assert_eq!(parse_pattern("+"), vec![lit('+')]);
    assert_eq!(parse_pattern("++"), vec![plus('+')]);
    assert_eq!(parse_pattern("a+?"), vec![plus('a'), lit('?')]);
    assert_eq!(parse_pattern("a++"), vec![plus('a'), lit('+')]);
    assert_eq!(parse_pattern("?+"), vec![plus('?')]);
}

#[test]
fn leading_caret_is_the_start_anchor() {
    assert_eq!(
        parse_pattern("^ab"),
        vec![Atom::StartAnchor, lit('a'), lit('b')]
    );
    assert_eq!(parse_pattern("^"), vec![Atom::StartAnchor]);
}

#[test]
fn caret_elsewhere_is_a_literal() {
    assert_eq!(parse_pattern("a^b"), vec![lit('a'), lit('^'), lit('b')]);
    assert_eq!(parse_pattern("^^"), vec![Atom::StartAnchor, lit('^')]);
    assert_eq!(parse_pattern("^^+"), vec![Atom::StartAnchor, plus('^')]);
}

#[test]
fn trailing_dollar_is_the_end_anchor() {
    assert_eq!(parse_pattern("ab$"), vec![lit('a'), lit('b'), Atom::EndAnchor]);
    assert_eq!(parse_pattern("$"), vec![Atom::EndAnchor]);
    assert_eq!(parse_pattern("^$"), vec![Atom::StartAnchor, Atom::EndAnchor]);
}

#[test]
fn dollar_elsewhere_is_a_literal() {
    assert_eq!(parse_pattern("a$b"), vec![lit('a'), lit('$'), lit('b')]);
    assert_eq!(
        parse_pattern("$$"),
        vec![lit('$'), Atom::EndAnchor]
    );
}

#[test]
fn quantified_dollar_is_no_anchor() {
    assert_eq!(parse_pattern("a$+"), vec![lit('a'), plus('$')]);
    assert_eq!(parse_pattern("$?"), vec![opt('$')]);
}

#[test]
fn dollar_before_a_dropped_escape_is_the_end_anchor() {
    assert_eq!(parse_pattern("a$\\q"), vec![lit('a'), Atom::EndAnchor]);
}

#[test]
fn parentheses_and_bars_are_literals_to_the_compiler() {
    assert_eq!(
        parse_pattern("(a|b)"),
        vec![lit('('), lit('a'), lit('|'), lit('b'), lit(')')]
    );
}

#[test]
fn characters_outside_ascii_are_single_atoms() {
    assert_eq!(parse_pattern("é+ß"), vec![plus('é'), lit('ß')]);
    assert_eq!(
        parse_pattern("[äö]"),
        vec![Atom::PositiveClass(vec!['ä', 'ö'])]
    );
}

#[test]
fn compiling_twice_gives_the_same_program() {
    for pattern in ["", "^a+b?[^xyz]\\d\\w.$", "[abc", "(cat|dog)", "a\\", "\\q$"] {
        assert_eq!(parse_pattern(pattern), parse_pattern(pattern));
    }
}

#[test]
fn compiling_characters_agrees_with_compiling_text() {
    let pattern = "^x[0-9]+\\w?$";
    let chars: Vec<char> = pattern.chars().collect();
    assert_eq!(parse_chars(&chars), parse_pattern(pattern));
    assert_eq!(
        parse_pattern(pattern),
        vec![
            Atom::StartAnchor,
            lit('x'),
            Atom::PositiveClass(vec!['0', '-', '9']),
            lit('+'),
            Atom::AnyAlphanumeric,
            lit('?'),
            Atom::EndAnchor,
        ]
    );
}
