use regex_nfa::grammar::CompileError;
use regex_nfa::parser::Parser;

#[test]
fn new_starts_at_the_beginning() {
    let p = Parser::new("aé|b");
    assert_eq!(p.s, vec!['a', 'é', '|', 'b']);
    assert_eq!(p.i, 0);
    assert_eq!(p.next_state, 0);
}

#[test]
fn fresh_counts_up() {
    let mut p = Parser::new("");
    assert_eq!(p.fresh(), 0);
    assert_eq!(p.fresh(), 1);
    assert_eq!(p.fresh(), 2);
    assert_eq!(p.next_state, 3);
    assert_eq!(p.i, 0);
}

#[test]
fn peek_does_not_read() {
    let p = Parser::new("xy");
    assert_eq!(p.peek(), Some('x'));
    assert_eq!(p.peek(), Some('x'));
    assert_eq!(p.i, 0);
    assert_eq!(Parser::new("").peek(), None);
}

#[test]
fn consume_reads_one_scalar_value() {
    let mut p = Parser::new("日x");
    assert_eq!(p.consume(), Some('日'));
    assert_eq!(p.i, 1);
    assert_eq!(p.consume(), Some('x'));
    assert_eq!(p.i, 2);
    assert_eq!(p.consume(), None);
    assert_eq!(p.i, 2);
}

#[test]
fn eat_reads_only_what_is_expected() {
    let mut p = Parser::new("|a");
    assert!(!p.eat('a'));
    assert_eq!(p.i, 0);
    assert!(p.eat('|'));
    assert_eq!(p.i, 1);
    assert!(p.eat('a'));
    assert!(!p.eat('a'));
    assert_eq!(p.i, 2);
}

#[test]
fn build_char_takes_two_states() {
    let mut p = Parser::new("");
    p.next_state = 10;
    let nfa = p.build_char('q');
    assert_eq!((nfa.start, nfa.accept), (10, 11));
    assert_eq!(nfa.transitions.len(), 1);
    assert_eq!(nfa.transitions[&10], vec![(Some('q'), 11)]);
    assert_eq!(p.next_state, 12);
}

#[test]
fn build_concat_takes_no_state() {
    let mut p = Parser::new("");
    let l = p.build_char('a');
    let r = p.build_char('b');
    let nfa = p.build_concat(l, r);
    assert_eq!((nfa.start, nfa.accept), (0, 3));
    assert_eq!(nfa.transitions.len(), 3);
    assert_eq!(nfa.transitions[&1], vec![(None, 2)]);
    assert_eq!(p.next_state, 4);
}

#[test]
fn build_alt_takes_two_states() {
    let mut p = Parser::new("");
    let l = p.build_char('a');
    let r = p.build_char('b');
    let nfa = p.build_alt(l, r);
    assert_eq!((nfa.start, nfa.accept), (4, 5));
    assert_eq!(nfa.transitions[&4], vec![(None, 0), (None, 2)]);
    assert_eq!(nfa.transitions[&1], vec![(None, 5)]);
    assert_eq!(nfa.transitions[&3], vec![(None, 5)]);
    assert_eq!(p.next_state, 6);
}

#[test]
fn build_star_takes_two_states() {
    let mut p = Parser::new("");
    let x = p.build_char('a');
    let nfa = p.build_star(x);
    assert_eq!((nfa.start, nfa.accept), (2, 3));
    assert_eq!(nfa.transitions[&2], vec![(None, 0), (None, 3)]);
    assert_eq!(nfa.transitions[&1], vec![(None, 0), (None, 3)]);
    assert_eq!(p.next_state, 4);
}

#[test]
fn parse_primary_reads_a_literal_or_a_group() {
    let mut p = Parser::new("ab");
    let nfa = p.parse_primary().unwrap();
    assert_eq!(p.i, 1);
    assert!(nfa.simulate("a"));
    let mut p = Parser::new("(ab)c");
    let nfa = p.parse_primary().unwrap();
    assert_eq!(p.i, 4);
    assert!(nfa.simulate("ab"));
    assert_eq!(Parser::new("").parse_primary().unwrap_err(), CompileError::UnexpectedToken);
    assert_eq!(Parser::new("|").parse_primary().unwrap_err(), CompileError::UnexpectedToken);
    assert_eq!(Parser::new(")").parse_primary().unwrap_err(), CompileError::UnexpectedToken);
    assert_eq!(Parser::new("*").parse_primary().unwrap_err(), CompileError::UnexpectedToken);
    assert_eq!(Parser::new("(a").parse_primary().unwrap_err(), CompileError::UnclosedGroup);
}

#[test]
fn parse_rep_reads_one_star() {
    let mut p = Parser::new("a*b");
    let nfa = p.parse_rep().unwrap();
    assert_eq!(p.i, 2);
    assert!(nfa.simulate(""));
    assert!(nfa.simulate("aaa"));
    let mut p = Parser::new("ab*");
    let nfa = p.parse_rep().unwrap();
    assert_eq!(p.i, 1);
    assert!(!nfa.simulate(""));
}

#[test]
fn parse_concat_stops_at_bar_and_parenthesis() {
    let mut p = Parser::new("ab|c");
    let nfa = p.parse_concat().unwrap();
    assert_eq!(p.i, 2);
    assert!(nfa.simulate("ab"));
    let mut p = Parser::new("ab)c");
    p.parse_concat().unwrap();
    assert_eq!(p.i, 2);
    assert_eq!(Parser::new("|a").parse_concat().unwrap_err(), CompileError::EmptyExpression);
    assert_eq!(Parser::new("").parse_concat().unwrap_err(), CompileError::EmptyExpression);
}

#[test]
fn parse_alt_and_parse_regex_read_all_branches() {
    let mut p = Parser::new("a|bc|d)e");
    let nfa = p.parse_alt().unwrap();
    assert_eq!(p.i, 6);
    assert!(nfa.simulate("a"));
    assert!(nfa.simulate("bc"));
    assert!(nfa.simulate("d"));
    assert!(!nfa.simulate("b"));
    let mut p = Parser::new("a|bc|d)e");
    let nfa = p.parse_regex().unwrap();
    assert_eq!(p.i, 6);
    assert_eq!(p.next_state, 12);
    assert!(nfa.simulate("bc"));
    assert_eq!(Parser::new("a|").parse_alt().unwrap_err(), CompileError::EmptyExpression);
}
