//! The compiler: a recursive-descent reader of patterns that builds the
//! automaton as it goes.

use crate::grammar::{
    advanced, concat_ends, concat_with, parse_alt_at, parse_alt_from, parse_concat_at,
    parse_concat_from, parse_primary_at, parse_rep_at, peek_at, CompileError, Parsed,
};
use crate::nfa::{merge_transitions, Label, Nfa, State};
use crate::regex::{alt_nfa, cat_nfa, lit_nfa, star_nfa, states_of, thompson, Regex};
use std::collections::HashMap;
use vstd::prelude::*;

verus! {

/// A reader of one pattern. It holds the pattern's characters, the position
/// of the next one to read, and the number of the next state to hand out.
pub struct Parser {
    pub s: Vec<char>,
    pub i: usize,
    pub next_state: State,
}

/// What a step of the parser owes: with `want` an error, that error; with
/// `want` a tree and an end, the automaton of that tree, numbered from the
/// state that was next, with the parser left at that end.
pub open spec fn parse_outcome(
    before: Parser,
    after: Parser,
    res: Result<Nfa, CompileError>,
    want: Parsed,
) -> bool {
    match want {
        Err(e) => res is Err && res->Err_0 == e,
        Ok((r, end)) => {
            &&& res is Ok
            &&& res->Ok_0@ == thompson(r, before.next_state)
            &&& after.s == before.s
            &&& after.i == end
            &&& advanced(before.s@, before.i as int, end)
            &&& after.next_state == before.next_state + states_of(r)
            &&& states_of(r) <= 2 * (end - before.i)
            &&& after.wf()
        },
    }
}

impl Parser {
    /// Whether the position is inside the pattern or at its end, and the
    /// states still to hand out, two for each character left, have numbers.
    pub open spec fn wf(&self) -> bool {
        &&& self.i <= self.s.len()
        &&& self.next_state + 2 * (self.s.len() - self.i) <= usize::MAX
    }

    /// A reader at the start of `input`, with no state handed out.
    pub fn new(input: &str) -> (p: Self)
        ensures
            p.s@ == input@,
            p.i == 0,
            p.next_state == 0,
    {
        let mut s: Vec<char> = Vec::new();
        for c in it: input.chars()
            invariant
                s@ == it.seq().take(it.index() as int),
        {
            s.push(c);
        }
        Self { s, i: 0, next_state: 0 }
    }

    /// Hands out a state that no call has handed out before.
    pub fn fresh(&mut self) -> (state: State)
        requires
            old(self).next_state < usize::MAX,
        ensures
            state == old(self).next_state,
            final(self).next_state == state + 1,
            final(self).s == old(self).s,
            final(self).i == old(self).i,
    {
        let state = self.next_state;
        self.next_state += 1;
        state
    }

    /// The next character, if there is one, without reading it.
    pub fn peek(&self) -> (c: Label)
        ensures
            c == peek_at(self.s@, self.i as int),
    {
        if self.i < self.s.len() {
            Some(self.s[self.i])
        } else {
            None
        }
    }

    /// Reads the next character if it is `expected`, and says whether it did.
    pub fn eat(&mut self, expected: char) -> (eaten: bool)
        ensures
            eaten == (peek_at(old(self).s@, old(self).i as int) == Some(expected)),
            final(self).i == if eaten {
                old(self).i + 1
            } else {
                old(self).i as int
            },
            final(self).s == old(self).s,
            final(self).next_state == old(self).next_state,
    {
        if self.peek() == Some(expected) {
            self.consume();
            true
        } else {
            false
        }
    }

    /// Reads the next character, if there is one.
    pub fn consume(&mut self) -> (c: Label)
        ensures
            c == peek_at(old(self).s@, old(self).i as int),
            final(self).i == if c is Some {
                old(self).i + 1
            } else {
                old(self).i as int
            },
            final(self).s == old(self).s,
            final(self).next_state == old(self).next_state,
    {
        match self.peek() {
            None => None,
            Some(c) => {
                assert(self.i < self.s.len());
                self.i += 1;
                Some(c)
            },
        }
    }

    /// The automaton for the literal `c`, on two new states.
    pub fn build_char(&mut self, c: char) -> (nfa: Nfa)
        requires
            old(self).next_state + 2 <= usize::MAX,
        ensures
            nfa@ == lit_nfa(c, old(self).next_state, (old(self).next_state + 1) as State),
            final(self).next_state == old(self).next_state + 2,
            final(self).s == old(self).s,
            final(self).i == old(self).i,
    {
        let s = self.fresh();
        let a = self.fresh();
        let mut nfa = Nfa::new(s, a, HashMap::new());
        assert(nfa@.transitions =~= Map::empty());
        nfa.add_transition(s, Some(c), a);
        nfa
    }

    /// The automaton for `left` followed by `right`, on their states.
    pub fn build_concat(&mut self, left: Nfa, right: Nfa) -> (nfa: Nfa)
        ensures
            nfa@ == cat_nfa(left@, right@),
            *final(self) == *old(self),
    {
        let mut transitions = left.transitions;
        merge_transitions(&mut transitions, right.transitions);
        let mut nfa = Nfa::new(left.start, right.accept, transitions);
        nfa.add_transition(left.accept, None, right.start);
        nfa
    }

    /// The automaton for either of `left` and `right`, on their states and
    /// two new ones.
    pub fn build_alt(&mut self, left: Nfa, right: Nfa) -> (nfa: Nfa)
        requires
            old(self).next_state + 2 <= usize::MAX,
        ensures
            nfa@ == alt_nfa(
                left@,
                right@,
                old(self).next_state,
                (old(self).next_state + 1) as State,
            ),
            final(self).next_state == old(self).next_state + 2,
            final(self).s == old(self).s,
            final(self).i == old(self).i,
    {
        let s = self.fresh();
        let a = self.fresh();
        let mut transitions = left.transitions;
        merge_transitions(&mut transitions, right.transitions);
        let mut nfa = Nfa::new(s, a, transitions);
        nfa.add_transition(s, None, left.start);
        nfa.add_transition(s, None, right.start);
        nfa.add_transition(left.accept, None, a);
        nfa.add_transition(right.accept, None, a);
        nfa
    }

    /// The automaton for `inner` repeated, on its states and two new ones.
    pub fn build_star(&mut self, inner: Nfa) -> (nfa: Nfa)
        requires
            old(self).next_state + 2 <= usize::MAX,
        ensures
            nfa@ == star_nfa(inner@, old(self).next_state, (old(self).next_state + 1) as State),
            final(self).next_state == old(self).next_state + 2,
            final(self).s == old(self).s,
            final(self).i == old(self).i,
    {
        let s = self.fresh();
        let a = self.fresh();
        let mut nfa = Nfa::new(s, a, inner.transitions);
        nfa.add_transition(s, None, inner.start);
        nfa.add_transition(s, None, a);
        nfa.add_transition(inner.accept, None, inner.start);
        nfa.add_transition(inner.accept, None, a);
        nfa
    }

    /// Reads a whole expression.
    pub fn parse_regex(&mut self) -> (res: Result<Nfa, CompileError>)
        requires
            old(self).wf(),
        ensures
            parse_outcome(
                *old(self),
                *final(self),
                res,
                parse_alt_at(old(self).s@, old(self).i as int),
            ),
        decreases old(self).s.len() - old(self).i, 6int,
    {
        self.parse_alt()
    }

    /// Reads an alternation: concatenations with `|` between them.
    pub fn parse_alt(&mut self) -> (res: Result<Nfa, CompileError>)
        requires
            old(self).wf(),
        ensures
            parse_outcome(
                *old(self),
                *final(self),
                res,
                parse_alt_at(old(self).s@, old(self).i as int),
            ),
        decreases old(self).s.len() - old(self).i, 5int,
    {
        let ghost start = *self;
        let ghost want = parse_alt_at(self.s@, self.i as int);
        let mut left = match self.parse_concat() {
            Ok(nfa) => nfa,
            Err(e) => {
                return Err(e);
            },
        };
        let ghost mut tree: Regex = parse_concat_at(start.s@, start.i as int)->Ok_0.0;
        loop
            invariant
                start == *old(self),
                want == parse_alt_at(start.s@, start.i as int),
                start.wf(),
                self.wf(),
                self.s == start.s,
                advanced(start.s@, start.i as int, self.i as int),
                want == parse_alt_from(self.s@, self.i as int, tree),
                left@ == thompson(tree, start.next_state),
                self.next_state == start.next_state + states_of(tree),
                states_of(tree) <= 2 * (self.i - start.i),
            ensures
                parse_outcome(start, *self, Ok(left), want),
            decreases self.s.len() - self.i,
        {
            if !self.eat('|') {
                break;
            }
            let ghost bar = *self;
            let right = match self.parse_concat() {
                Ok(nfa) => nfa,
                Err(e) => {
                    return Err(e);
                },
            };
            let ghost r = parse_concat_at(bar.s@, bar.i as int)->Ok_0.0;
            left = self.build_alt(left, right);
            proof {
                tree = Regex::Alt(Box::new(tree), Box::new(r));
            }
        }
        Ok(left)
    }

    /// Reads a concatenation: repetitions up to the end, `)` or `|`, and one
    /// at least.
    pub fn parse_concat(&mut self) -> (res: Result<Nfa, CompileError>)
        requires
            old(self).wf(),
        ensures
            parse_outcome(
                *old(self),
                *final(self),
                res,
                parse_concat_at(old(self).s@, old(self).i as int),
            ),
        decreases old(self).s.len() - old(self).i, 3int,
    {
        let ghost start = *self;
        let ghost want = parse_concat_at(self.s@, self.i as int);
        let ghost mut acc: Option<Regex> = None;
        let mut res: Option<Nfa> = None;
        loop
            invariant
                start == *old(self),
                want == parse_concat_at(start.s@, start.i as int),
                start.wf(),
                self.wf(),
                self.s == start.s,
                start.i <= self.i,
                want == parse_concat_from(self.s@, self.i as int, acc),
                match acc {
                    None => res is None && self.i == start.i && self.next_state
                        == start.next_state,
                    Some(r) => {
                        &&& res is Some
                        &&& res->Some_0@ == thompson(r, start.next_state)
                        &&& self.next_state == start.next_state + states_of(r)
                        &&& states_of(r) <= 2 * (self.i - start.i)
                        &&& start.i < self.i
                    },
                },
            ensures
                concat_ends(self.s@, self.i as int),
            decreases self.s.len() - self.i,
        {
            match self.peek() {
                None => {
                    break;
                },
                Some(c) => {
                    if c == ')' || c == '|' {
                        break;
                    }
                },
            }
            let ghost here = *self;
            let rep = match self.parse_rep() {
                Ok(nfa) => nfa,
                Err(e) => {
                    return Err(e);
                },
            };
            let ghost r = parse_rep_at(here.s@, here.i as int)->Ok_0.0;
            res = match res {
                Some(nfa) => Some(self.build_concat(nfa, rep)),
                None => Some(rep),
            };
            proof {
                acc = Some(concat_with(acc, r));
            }
        }
        match res {
            None => Err(CompileError::EmptyExpression),
            Some(nfa) => Ok(nfa),
        }
    }

    /// Reads a repetition: a primary, and `*` if one follows it.
    pub fn parse_rep(&mut self) -> (res: Result<Nfa, CompileError>)
        requires
            old(self).wf(),
        ensures
            parse_outcome(
                *old(self),
                *final(self),
                res,
                parse_rep_at(old(self).s@, old(self).i as int),
            ),
        decreases old(self).s.len() - old(self).i, 1int,
    {
        let mut nfa = match self.parse_primary() {
            Ok(nfa) => nfa,
            Err(e) => {
                return Err(e);
            },
        };
        if self.eat('*') {
            nfa = self.build_star(nfa);
        }
        Ok(nfa)
    }

    /// Reads a primary: a group in parentheses or a literal.
    pub fn parse_primary(&mut self) -> (res: Result<Nfa, CompileError>)
        requires
            old(self).wf(),
        ensures
            parse_outcome(
                *old(self),
                *final(self),
                res,
                parse_primary_at(old(self).s@, old(self).i as int),
            ),
        decreases old(self).s.len() - old(self).i, 0int,
    {
        match self.peek() {
            None => Err(CompileError::UnexpectedToken),
            Some(c) => {
                if c == '(' {
                    self.consume();
                    let nfa = match self.parse_regex() {
                        Ok(nfa) => nfa,
                        Err(e) => {
                            return Err(e);
                        },
                    };
                    if !self.eat(')') {
                        return Err(CompileError::UnclosedGroup);
                    }
                    Ok(nfa)
                } else if c == '*' || c == '|' || c == ')' {
                    Err(CompileError::UnexpectedToken)
                } else {
                    self.consume();
                    Ok(self.build_char(c))
                }
            },
        }
    }
}

} // verus!
