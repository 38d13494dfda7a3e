use mini_regex::atom::Atom;
use mini_regex::compiler::{compile_pattern, Compiled};
use mini_regex::group::{body_of, find_branch_end, starts_group};
use mini_regex::matcher::match_chars;
use mini_regex::symbol::classify_line;
use mini_regex::{match_pattern, match_program, parse_pattern};

fn chars(text: &str) -> Vec<char> {
    text.chars().collect()
}

#[test]
fn alternation_matches_when_a_branch_matches() {
    assert!(match_pattern("cat", "(cat|dog)", false));
    assert!(match_pattern("dog", "(cat|dog)", false));
    assert!(!match_pattern("fish", "(cat|dog)", false));
    assert!(match_pattern("hotdogs", "(cat|dog)", false));
}

#[test]
fn digit_class_finds_a_digit() {
    assert!(match_pattern("apple123", "\\d", false));
    assert!(!match_pattern("apple", "\\d", false));
}

#[test]
fn alphanumeric_class_leaves_out_punctuation() {
    assert!(match_pattern("+-x", "\\w", false));
    assert!(!match_pattern("+-_=", "\\w", false));
}

#[test]
fn negative_class_needs_a_character_outside_the_set() {
    assert!(match_pattern("apple", "[^xyz]", false));
    assert!(!match_pattern("xyz", "[^xyz]", false));
    assert!(!match_pattern("x", "[^xyz]", false));
}

#[test]
fn positive_class_needs_a_character_of_the_set() {
    assert!(match_pattern("apple", "[pq]", false));
    assert!(!match_pattern("apple", "[xyz]", false));
}

#[test]
fn one_or_more_takes_the_whole_run() {
    assert!(match_pattern("aaab", "a+b", false));
    assert!(!match_pattern("aaa", "a+a", false));
    assert!(match_pattern("caaats", "ca+ts", false));
    assert!(!match_pattern("cts", "ca+ts", false));
}

#[test]
fn zero_or_one_is_optional() {
    assert!(match_pattern("dogs", "dogs?", false));
    assert!(match_pattern("dog", "dogs?", false));
    assert!(match_pattern("ac", "ab?c", false));
    assert!(!match_pattern("abbc", "ab?c", false));
}

#[test]
fn wildcard_needs_a_character() {
    assert!(match_pattern("dog", "d.g", false));
    assert!(!match_pattern("dg", "d.g", false));
}

#[test]
fn literal_sequence_is_found_anywhere() {
    assert!(match_pattern("hello world", "wor", false));
    assert!(match_pattern("hello world", "hello", false));
    assert!(!match_pattern("hello world", "word", false));
}

#[test]
fn literal_sequence_is_found_behind_a_false_start() {
    assert!(match_pattern("aab", "ab", false));
    assert!(match_pattern("xab", "ab", false));
    assert!(match_pattern("ababac", "abac", false));
    assert!(match_pattern("mississippi", "issip", false));
    assert!(!match_pattern("mississippi", "issipi", false));
}

#[test]
fn pattern_longer_than_the_line_does_not_match() {
    assert!(!match_pattern("ab", "abc", false));
    assert!(!match_pattern("aaa", "a+b", false));
}

#[test]
fn group_compiles_to_no_program() {
    assert_eq!(compile_pattern(&chars("(a|b)")), Compiled::AlternationGroup);
    assert_eq!(compile_pattern(&chars("()")), Compiled::AlternationGroup);
    assert_eq!(
        compile_pattern(&chars("(a|b)c")),
        Compiled::Program(parse_pattern("(a|b)c"))
    );
    assert_eq!(
        compile_pattern(&chars("^a$")),
        Compiled::Program(vec![Atom::StartAnchor, Atom::Literal('a'), Atom::EndAnchor])
    );
    assert_eq!(compile_pattern(&chars("")), Compiled::Program(vec![]));
}

#[test]
fn caret_pins_the_match_to_the_start() {
    assert!(match_pattern("log", "^log", false));
    assert!(!match_pattern("slog", "^log", false));
    assert!(match_pattern("log", "^log", true));
    assert!(!match_pattern("slog", "^log", true));
}

#[test]
fn anchored_call_matches_at_the_start_only() {
    assert!(match_pattern("abc", "ab", true));
    assert!(!match_pattern("xab", "ab", true));
}

#[test]
fn several_carets_are_stripped_one_by_one() {
    assert!(match_pattern("a", "^^a", false));
    assert!(!match_pattern("^a", "^^a", false));
}

#[test]
fn dollar_pins_the_match_to_the_end() {
    assert!(match_pattern("dog", "dog$", false));
    assert!(!match_pattern("dogs", "dog$", false));
    assert!(match_pattern("hotdog", "dog$", false));
    assert!(match_pattern("dog", "^dog$", false));
    assert!(!match_pattern("dogdog", "^dog$", false));
}

#[test]
fn end_anchor_is_tested_once() {
    assert!(!match_pattern("aba", "a$", false));
    assert!(match_pattern("ba", "a$", false));
    assert!(!match_pattern("a", "$", false));
    assert!(match_pattern("", "$", false));
}

#[test]
fn dollar_in_the_middle_is_a_literal() {
    assert!(match_pattern("a$b", "a$b", false));
    assert!(!match_pattern("ab", "a$b", false));
}

#[test]
fn empty_pattern_matches_every_line() {
    assert!(match_pattern("", "", false));
    assert!(match_pattern("abc", "", false));
    assert!(match_pattern("abc", "", true));
}

#[test]
fn empty_line_matches_what_needs_no_character() {
    assert!(!match_pattern("", "a", false));
    assert!(match_pattern("", "a?", false));
    assert!(match_pattern("", "^$", false));
    assert!(!match_pattern("", "a+", false));
}

#[test]
fn newline_is_a_character_like_any_other() {
    assert!(match_pattern("cat\n", "cat", false));
    assert!(!match_pattern("cat\n", "cat$", false));
    assert!(match_pattern("cat\n", "cat.$", false));
}

#[test]
fn dropped_escape_changes_what_matches() {
    assert!(match_pattern("ab", "a\\qb", false));
    assert!(!match_pattern("aqb", "a\\qb", true));
}

#[test]
fn unterminated_class_cuts_the_pattern() {
    assert!(match_pattern("ab", "ab[cd", false));
    assert!(match_pattern("xyz", "[abc", false));
}

#[test]
fn branches_of_a_group_match_anywhere() {
    assert!(match_pattern("a cat", "(cat|dog)", true));
    assert!(match_pattern("xdog", "^(cat|dog)", false));
}

#[test]
fn branch_may_carry_its_own_start_anchor() {
    assert!(match_pattern("cat", "(^cat|dog)", false));
    assert!(!match_pattern("a cat", "(^cat|dog)", false));
    assert!(match_pattern("a dog", "(^cat|dog)", false));
}

#[test]
fn branch_may_carry_an_end_anchor() {
    assert!(match_pattern("a cat", "(cat$|dog)", false));
    assert!(!match_pattern("cats", "(cat$|dog)", false));
}

#[test]
fn group_loses_all_parentheses_around_it() {
    assert!(match_pattern("a", "((a))", false));
    assert!(match_pattern("b", "(((a|b)", false));
    assert!(!match_pattern("(", "((a))", false));
}

#[test]
fn branch_in_parentheses_is_a_group_again() {
    assert!(match_pattern("b", "(a|(b)|c)", false));
    assert!(!match_pattern("d", "(a|(b)|c)", false));
}

#[test]
fn empty_branch_matches_every_line() {
    assert!(match_pattern("xyz", "()", false));
    assert!(match_pattern("xyz", "(a|)", false));
    assert!(match_pattern("", "(|a)", false));
}

#[test]
fn parentheses_inside_a_pattern_are_literals() {
    assert!(match_pattern("f(x)", "f(x)", false));
    assert!(!match_pattern("fx", "f(x)", false));
    assert!(match_pattern("(a|b)c", "(a|b)c", false));
    assert!(!match_pattern("ac", "(a|b)c", false));
}

#[test]
fn group_is_told_by_its_first_and_last_character() {
    assert!(starts_group(&chars("(a|b)")));
    assert!(starts_group(&chars("()")));
    assert!(starts_group(&chars("(a)(b)")));
    assert!(!starts_group(&chars("(")));
    assert!(!starts_group(&chars(")")));
    assert!(!starts_group(&chars("")));
    assert!(!starts_group(&chars("(a)b")));
    assert!(!starts_group(&chars("a(b)")));
}

#[test]
fn body_is_what_stands_between_the_parentheses() {
    assert_eq!(body_of(&chars("(cat|dog)")), &chars("cat|dog")[..]);
    assert_eq!(body_of(&chars("((a))")), &chars("a")[..]);
    assert_eq!(body_of(&chars("()")), &chars("")[..]);
    assert_eq!(body_of(&chars("(()")), &chars("")[..]);
    assert_eq!(body_of(&chars("(a)(b)")), &chars("a)(b")[..]);
    assert_eq!(body_of(&chars("(a|(b|c))")), &chars("a|(b|c")[..]);
}

#[test]
fn branch_ends_at_the_next_bar() {
    let body = chars("cat|dog||");
    assert_eq!(find_branch_end(&body, 0), 3);
    assert_eq!(find_branch_end(&body, 3), 3);
    assert_eq!(find_branch_end(&body, 4), 7);
    assert_eq!(find_branch_end(&body, 8), 8);
    assert_eq!(find_branch_end(&body, 9), 9);
    assert_eq!(find_branch_end(&chars("abc"), 1), 3);
    assert_eq!(find_branch_end(&chars("a|c"), 7), 3);
    assert_eq!(find_branch_end(&chars(""), 0), 0);
}

#[test]
fn matching_characters_agrees_with_matching_text() {
    for (line, pattern, anchored) in [
        ("cat", "(cat|dog)", false),
        ("apple123", "\\d", false),
        ("aab", "ab", false),
        ("slog", "^log", false),
        ("dog", "dog$", true),
    ] {
        assert_eq!(
            match_chars(&classify_line(line), &chars(pattern), anchored),
            match_pattern(line, pattern, anchored)
        );
    }
}

#[test]
fn pattern_that_is_no_group_is_matched_by_its_program() {
    for pattern in ["ab", "^ab", "a+b?$", "^\\d[^x]$", "", "a$b"] {
        for line in ["ab", "xab", "aab", "1y", "", "a$b"] {
            for anchored in [false, true] {
                assert_eq!(
                    match_pattern(line, pattern, anchored),
                    match_program(&parse_pattern(pattern), &classify_line(line), anchored)
                );
            }
        }
    }
}

fn words(alphabet: &[char], longest: usize) -> Vec<String> {
    let mut all = vec![String::new()];
    let mut last = vec![String::new()];
    for _ in 0..longest {
        let mut next = Vec::new();
        for word in &last {
            for c in alphabet {
                let mut longer = word.clone();
                longer.push(*c);
                next.push(longer);
            }
        }
        all.extend(next.iter().cloned());
        last = next;
    }
    all
}

#[test]
fn literal_patterns_agree_with_substring_search() {
    let lines = words(&['a', 'b'], 6);
    let patterns = words(&['a', 'b'], 4);
    for line in &lines {
        for pattern in &patterns {
            assert_eq!(
                match_pattern(line, pattern, false),
                line.contains(pattern.as_str()),
                "line {:?}, pattern {:?}",
                line,
                pattern
            );
            assert_eq!(
                match_pattern(line, pattern, true),
                line.starts_with(pattern.as_str()),
                "line {:?}, pattern {:?}",
                line,
                pattern
            );
        }
    }
}

#[test]
fn caret_in_front_agrees_with_anchored_matching() {
    let lines = words(&['a', 'b'], 5);
    for pattern in ["", "a", "ab", "a+b", "b?a", "[^a]b", ".a$", "a$"] {
        let anchored = format!("^{}", pattern);
        for line in &lines {
            assert_eq!(
                match_pattern(line, &anchored, false),
                match_pattern(line, pattern, true),
                "line {:?}, pattern {:?}",
                line,
                pattern
            );
            assert_eq!(
                match_pattern(line, &anchored, true),
                match_pattern(line, pattern, true),
                "line {:?}, pattern {:?}",
                line,
                pattern
            );
        }
    }
}

#[test]
fn dollar_behind_a_literal_pattern_asks_for_the_whole_line_when_anchored() {
    let lines = words(&['a', 'b'], 5);
    for pattern in words(&['a', 'b'], 3) {
        let closed = format!("{}$", pattern);
        for line in &lines {
            assert_eq!(
                match_pattern(line, &closed, true),
                line == &pattern,
                "line {:?}, pattern {:?}",
                line,
                pattern
            );
            if match_pattern(line, &closed, false) {
                assert!(line.ends_with(pattern.as_str()));
            }
        }
    }
}

#[test]
fn group_agrees_with_its_branches() {
    let lines = words(&['a', 'b', 'c'], 4);
    for (group, branches) in [
        ("(a|bc)", vec!["a", "bc"]),
        ("(ab|^c|b$)", vec!["ab", "^c", "b$"]),
        ("(|a)", vec!["", "a"]),
        ("((cc))", vec!["cc"]),
    ] {
        for line in &lines {
            let expected = branches.iter().any(|branch| match_pattern(line, branch, false));
            assert_eq!(match_pattern(line, group, false), expected);
            assert_eq!(match_pattern(line, group, true), expected);
        }
    }
}
