use regex_nfa::nfa::{merge_transitions, Nfa, StateSet, Transitions};
use regex_nfa::regex_to_nfa;
use std::collections::HashMap;
use std::collections::HashSet;

fn set_of(states: &[usize]) -> StateSet {
    states.iter().copied().collect()
}

/// 0 -a-> 1, 1 -eps-> 2, 2 -eps-> 1, 2 -b-> 3, 0 -a-> 3, 4 -eps-> 0
fn sample() -> Nfa {
    let mut nfa = Nfa::new(0, 3, HashMap::new());
    nfa.add_transition(0, Some('a'), 1);
    nfa.add_transition(1, None, 2);
    nfa.add_transition(2, None, 1);
    nfa.add_transition(2, Some('b'), 3);
    nfa.add_transition(0, Some('a'), 3);
    nfa.add_transition(4, None, 0);
    nfa
}

#[test]
fn new_keeps_its_arguments() {
    let mut rows: Transitions = HashMap::new();
    rows.insert(7, vec![(Some('x'), 9)]);
    let nfa = Nfa::new(7, 9, rows.clone());
    assert_eq!(nfa.start, 7);
    assert_eq!(nfa.accept, 9);
    assert_eq!(nfa.transitions, rows);
}

#[test]
fn add_transition_appends_to_the_row() {
    let nfa = sample();
    assert_eq!(nfa.start, 0);
    assert_eq!(nfa.accept, 3);
    assert_eq!(nfa.transitions.len(), 4);
    assert_eq!(nfa.transitions[&0], vec![(Some('a'), 1), (Some('a'), 3)]);
    assert_eq!(nfa.transitions[&1], vec![(None, 2)]);
    assert_eq!(nfa.transitions[&2], vec![(None, 1), (Some('b'), 3)]);
    assert_eq!(nfa.transitions[&4], vec![(None, 0)]);
}

#[test]
fn eps_closure_follows_cycles_once() {
    let nfa = sample();
    assert_eq!(nfa.eps_closure(set_of(&[1])), set_of(&[1, 2]));
    assert_eq!(nfa.eps_closure(set_of(&[2])), set_of(&[1, 2]));
    assert_eq!(nfa.eps_closure(set_of(&[0])), set_of(&[0]));
    assert_eq!(nfa.eps_closure(set_of(&[4])), set_of(&[4, 0]));
    assert_eq!(nfa.eps_closure(set_of(&[3, 4, 1])), set_of(&[0, 1, 2, 3, 4]));
    assert_eq!(nfa.eps_closure(set_of(&[])), set_of(&[]));
    assert_eq!(nfa.eps_closure(set_of(&[99])), set_of(&[99]));
}

#[test]
fn get_move_takes_one_labelled_step() {
    let nfa = sample();
    assert_eq!(nfa.get_move(&set_of(&[0]), 'a'), set_of(&[1, 3]));
    assert_eq!(nfa.get_move(&set_of(&[0]), 'b'), set_of(&[]));
    assert_eq!(nfa.get_move(&set_of(&[1, 2]), 'b'), set_of(&[3]));
    assert_eq!(nfa.get_move(&set_of(&[1]), 'b'), set_of(&[]));
    assert_eq!(nfa.get_move(&set_of(&[4]), 'a'), set_of(&[]));
    assert_eq!(nfa.get_move(&set_of(&[]), 'a'), set_of(&[]));
    assert_eq!(nfa.get_move(&set_of(&[0, 2, 99]), 'a'), set_of(&[1, 3]));
}

#[test]
fn simulate_a_hand_made_automaton() {
    let nfa = sample();
    assert!(nfa.simulate("a"));
    assert!(nfa.simulate("ab"));
    assert!(!nfa.simulate(""));
    assert!(!nfa.simulate("b"));
    assert!(!nfa.simulate("aa"));
    assert!(!nfa.simulate("abb"));
}

#[test]
fn simulate_with_an_empty_set_goes_on() {
    let nfa = Nfa::new(0, 1, HashMap::new());
    assert!(!nfa.simulate(""));
    assert!(!nfa.simulate("abc"));
    let same = Nfa::new(5, 5, HashMap::new());
    assert!(same.simulate(""));
    assert!(!same.simulate("a"));
}

#[test]
fn merge_moves_every_row() {
    let mut into: Transitions = HashMap::new();
    into.insert(0, vec![(Some('a'), 1)]);
    into.insert(1, vec![(None, 0)]);
    let mut from: Transitions = HashMap::new();
    from.insert(2, vec![(Some('b'), 3), (None, 2)]);
    from.insert(1, vec![(Some('c'), 4)]);
    merge_transitions(&mut into, from);
    assert_eq!(into.len(), 3);
    assert_eq!(into[&0], vec![(Some('a'), 1)]);
    assert_eq!(into[&1], vec![(Some('c'), 4)]);
    assert_eq!(into[&2], vec![(Some('b'), 3), (None, 2)]);
}

#[test]
fn automaton_of_a_literal() {
    let nfa = regex_to_nfa("a").unwrap();
    assert_eq!(nfa.start, 0);
    assert_eq!(nfa.accept, 1);
    assert_eq!(nfa.transitions.len(), 1);
    assert_eq!(nfa.transitions[&0], vec![(Some('a'), 1)]);
}

#[test]
fn automaton_of_a_concatenation() {
    let nfa = regex_to_nfa("ab").unwrap();
    assert_eq!(nfa.start, 0);
    assert_eq!(nfa.accept, 3);
    assert_eq!(nfa.transitions.len(), 3);
    assert_eq!(nfa.transitions[&0], vec![(Some('a'), 1)]);
    assert_eq!(nfa.transitions[&1], vec![(None, 2)]);
    assert_eq!(nfa.transitions[&2], vec![(Some('b'), 3)]);
}

#[test]
fn automaton_of_an_alternation() {
    let nfa = regex_to_nfa("a|b").unwrap();
    assert_eq!(nfa.start, 4);
    assert_eq!(nfa.accept, 5);
    assert_eq!(nfa.transitions.len(), 5);
    assert_eq!(nfa.transitions[&0], vec![(Some('a'), 1)]);
    assert_eq!(nfa.transitions[&2], vec![(Some('b'), 3)]);
    assert_eq!(nfa.transitions[&4], vec![(None, 0), (None, 2)]);
    assert_eq!(nfa.transitions[&1], vec![(None, 5)]);
    assert_eq!(nfa.transitions[&3], vec![(None, 5)]);
}

#[test]
fn automaton_of_a_star() {
    let nfa = regex_to_nfa("a*").unwrap();
    assert_eq!(nfa.start, 2);
    assert_eq!(nfa.accept, 3);
    assert_eq!(nfa.transitions.len(), 3);
    assert_eq!(nfa.transitions[&0], vec![(Some('a'), 1)]);
    assert_eq!(nfa.transitions[&2], vec![(None, 0), (None, 3)]);
    assert_eq!(nfa.transitions[&1], vec![(None, 0), (None, 3)]);
}

#[test]
fn start_and_accept_differ() {
    for pattern in ["a", "ab", "a|b", "a*", "(a|b)*c", "((a))", "a*b|c"] {
        let nfa = regex_to_nfa(pattern).unwrap();
        assert_ne!(nfa.start, nfa.accept, "{:?}", pattern);
    }
}

#[test]
fn states_are_two_for_each_literal_bar_and_star() {
    let nfa = regex_to_nfa("(a|b)*c").unwrap();
    let mut states: HashSet<usize> = HashSet::new();
    states.insert(nfa.start);
    states.insert(nfa.accept);
    for (from, row) in nfa.transitions.iter() {
        states.insert(*from);
        for (_, to) in row.iter() {
            states.insert(*to);
        }
    }
    assert_eq!(states, set_of(&[0, 1, 2, 3, 4, 5, 6, 7, 8, 9]));
}
