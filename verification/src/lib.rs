//! Regular expressions compiled to nondeterministic finite automata by
//! Thompson's construction, and matched by simulating the automaton on the
//! set of states it may be in.
//!
//! A pattern is made of literal characters, `|` for either of two patterns,
//! `*` for any number of repetitions, and parentheses. [`regex_to_nfa`]
//! compiles one, [`nfa::Nfa::simulate`] runs the automaton on an input, and
//! [`regex_match`] does both.

pub mod construction;
pub mod grammar;
pub mod laws;
pub mod nfa;
pub mod parser;
pub mod regex;

use crate::construction::{frag_within, lemma_thompson};
use crate::grammar::{parse_pattern, CompileError};
use crate::nfa::Nfa;
use crate::parser::Parser;
use crate::regex::{in_lang, states_of, thompson};
use vstd::prelude::*;

verus! {

/// What compiling `pattern` gives. Where the grammar reads `pattern` as a
/// tree: the automaton that Thompson's construction builds for the tree
/// with the states numbered from 0, which has no other states than those,
/// starts in another state than it accepts in, and accepts the words that
/// the tree stands for. Where it does not: the error that the grammar gives.
pub open spec fn compiled(pattern: Seq<char>, res: Result<Nfa, CompileError>) -> bool {
    match parse_pattern(pattern) {
        Ok(r) => {
            &&& res is Ok
            &&& res->Ok_0@ == thompson(r, 0)
            &&& frag_within(res->Ok_0@, 0, states_of(r) as int)
            &&& forall|w: Seq<char>| #[trigger] res->Ok_0@.accepts(w) <==> in_lang(r, w)
        },
        Err(e) => res is Err && res->Err_0 == e,
    }
}

/// Whether `input` is a word that `pattern` stands for, or why `pattern`
/// is no pattern.
pub open spec fn pattern_matches(pattern: Seq<char>, input: Seq<char>) -> Result<
    bool,
    CompileError,
> {
    match parse_pattern(pattern) {
        Ok(r) => Ok(in_lang(r, input)),
        Err(e) => Err(e),
    }
}

/// Compiles `pattern` to an automaton, or says what is wrong with it.
///
/// The states have numbers, two at most for each character of the pattern,
/// so a pattern must have no more than half as many characters as there are
/// numbers.
pub fn regex_to_nfa(pattern: &str) -> (res: Result<Nfa, CompileError>)
    requires
        2 * pattern@.len() <= usize::MAX,
    ensures
        compiled(pattern@, res),
{
    let mut p = Parser::new(pattern);
    let nfa = match p.parse_regex() {
        Ok(nfa) => nfa,
        Err(e) => {
            return Err(e);
        },
    };
    if p.peek().is_some() {
        return Err(CompileError::TrailingInput);
    }
    proof {
        lemma_thompson(parse_pattern(pattern@)->Ok_0, 0);
    }
    Ok(nfa)
}

/// Whether `input` is one of the words that `pattern` stands for, or what
/// is wrong with `pattern`. The whole of `input` is held against the
/// pattern, not a part of it.
pub fn regex_match(pattern: &str, input: &str) -> (res: Result<bool, CompileError>)
    requires
        2 * pattern@.len() <= usize::MAX,
    ensures
        res == pattern_matches(pattern@, input@),
{
    match regex_to_nfa(pattern) {
        Ok(nfa) => Ok(nfa.simulate(input)),
        Err(e) => Err(e),
    }
}

} // verus!
