use regex_nfa::grammar::CompileError;
use regex_nfa::{regex_match, regex_to_nfa};

fn accepts(pattern: &str, input: &str) -> bool {
    regex_to_nfa(pattern).unwrap().simulate(input)
}

#[test]
fn scenario_star_then_literal_or_literal() {
    assert_eq!(regex_match("a*b|c", "aaab"), Ok(true));
    assert_eq!(regex_match("a*b|c", "c"), Ok(true));
    assert_eq!(regex_match("a*b|c", "aaabc"), Ok(false));
}

#[test]
fn scenario_more_inputs() {
    assert_eq!(regex_match("a*b|c", "b"), Ok(true));
    assert_eq!(regex_match("a*b|c", ""), Ok(false));
    assert_eq!(regex_match("a*b|c", "a"), Ok(false));
    assert_eq!(regex_match("a*b|c", "cc"), Ok(false));
    assert_eq!(regex_match("a*b|c", "ab"), Ok(true));
}

#[test]
fn literals_match_themselves_only() {
    assert!(accepts("a", "a"));
    assert!(!accepts("a", ""));
    assert!(!accepts("a", "b"));
    assert!(!accepts("a", "aa"));
    assert!(accepts("abc", "abc"));
    assert!(!accepts("abc", "ab"));
    assert!(!accepts("abc", "abcd"));
    assert!(!accepts("abc", "abd"));
    assert!(!accepts("abc", "cba"));
    assert!(!accepts("abc", ""));
}

#[test]
fn either_of_two_literals() {
    assert!(accepts("a|b", "a"));
    assert!(accepts("a|b", "b"));
    assert!(!accepts("a|b", ""));
    assert!(!accepts("a|b", "ab"));
    assert!(!accepts("a|b", "c"));
    assert!(!accepts("a|b", "aa"));
    assert!(!accepts("a|b", "ba"));
}

#[test]
fn star_of_a_literal() {
    assert!(accepts("a*", ""));
    assert!(accepts("a*", "a"));
    assert!(accepts("a*", "aa"));
    assert!(accepts("a*", "aaa"));
    assert!(accepts("a*", "aaaaaaaaaaaaaaaaaaaa"));
    assert!(!accepts("a*", "b"));
    assert!(!accepts("a*", "ab"));
    assert!(!accepts("a*", "ba"));
    assert!(!accepts("a*", "aab"));
}

#[test]
fn star_of_a_group_of_two() {
    for input in ["", "a", "b", "ab", "ba", "aa", "bb", "abba", "babab", "aaaaabbbbb"] {
        assert!(accepts("(a|b)*", input), "{:?}", input);
    }
    for input in ["c", "ac", "ca", "abc", "abca", " "] {
        assert!(!accepts("(a|b)*", input), "{:?}", input);
    }
}

#[test]
fn parentheses_change_nothing() {
    for input in ["", "a", "b", "ab", "ba", "abb", "aab", "abab"] {
        assert_eq!(accepts("(ab)", input), accepts("ab", input), "{:?}", input);
        assert_eq!(accepts("((a)(b))", input), accepts("ab", input), "{:?}", input);
    }
    assert!(accepts("(ab)", "ab"));
    assert!(!accepts("(ab)", "a"));
}

#[test]
fn compiling_twice_gives_the_same() {
    let one = regex_to_nfa("(a|b)*c").unwrap();
    let two = regex_to_nfa("(a|b)*c").unwrap();
    assert_eq!(one.start, two.start);
    assert_eq!(one.accept, two.accept);
    assert_eq!(one.transitions, two.transitions);
    for input in ["", "c", "ac", "abc", "bbac", "ca", "ab", "cc"] {
        assert_eq!(one.simulate(input), two.simulate(input), "{:?}", input);
    }
}

#[test]
fn star_binds_tighter_than_concatenation() {
    assert!(accepts("ab*", "a"));
    assert!(accepts("ab*", "abbb"));
    assert!(!accepts("ab*", "abab"));
    assert!(accepts("(ab)*", "abab"));
    assert!(accepts("(ab)*", ""));
    assert!(!accepts("(ab)*", "aba"));
}

#[test]
fn concatenation_binds_tighter_than_bar() {
    assert!(accepts("ab|cd", "ab"));
    assert!(accepts("ab|cd", "cd"));
    assert!(!accepts("ab|cd", "abd"));
    assert!(!accepts("ab|cd", "acd"));
    assert!(accepts("a(b|c)d", "abd"));
    assert!(accepts("a(b|c)d", "acd"));
    assert!(!accepts("a(b|c)d", "ab"));
}

#[test]
fn bar_takes_many_branches() {
    assert!(accepts("a|b|c", "a"));
    assert!(accepts("a|b|c", "b"));
    assert!(accepts("a|b|c", "c"));
    assert!(!accepts("a|b|c", "d"));
    assert!(!accepts("a|b|c", ""));
}

#[test]
fn star_of_a_star() {
    assert!(accepts("(a*)*", ""));
    assert!(accepts("(a*)*", "aaaa"));
    assert!(!accepts("(a*)*", "b"));
    assert!(accepts("(a*b*)*", "abba"));
    assert!(!accepts("(a*b*)*", "abca"));
}

#[test]
fn a_literal_may_be_any_scalar_value() {
    assert!(accepts("é", "é"));
    assert!(!accepts("é", "e"));
    assert!(accepts("日本*語", "日語"));
    assert!(accepts("日本*語", "日本本本語"));
    assert!(!accepts("日本*語", "日本"));
    assert!(accepts("😀|x", "😀"));
    assert!(accepts(" ", " "));
}

#[test]
fn the_whole_input_is_matched() {
    assert!(!accepts("b", "abc"));
    assert!(!accepts("ab", "abab"));
    assert!(!accepts("a*", "aaab"));
}

#[test]
fn match_reports_the_compile_error() {
    assert_eq!(regex_match("", "a"), Err(CompileError::EmptyExpression));
    assert_eq!(regex_match("(a", "a"), Err(CompileError::UnclosedGroup));
    assert_eq!(regex_match("a)", "a"), Err(CompileError::TrailingInput));
    assert_eq!(regex_match("*a", "a"), Err(CompileError::UnexpectedToken));
}
