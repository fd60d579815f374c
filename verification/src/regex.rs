//! Patterns as trees, the words a pattern stands for, and the automaton
//! that Thompson's construction builds for a pattern.

use crate::nfa::{add_edge, NfaView, State};
use vstd::prelude::*;

verus! {

/// A pattern, as the tree that its text is read into.
pub enum Regex {
    /// One character, which stands for itself.
    Lit(char),
    /// One pattern followed by another.
    Cat(Box<Regex>, Box<Regex>),
    /// Either of two patterns.
    Alt(Box<Regex>, Box<Regex>),
    /// A pattern repeated any number of times, also none.
    Star(Box<Regex>),
}

/// Whether the word `w` is one that the pattern `r` stands for.
pub open spec fn in_lang(r: Regex, w: Seq<char>) -> bool
    decreases r, w.len(),
{
    match r {
        Regex::Lit(c) => w == seq![c],
        Regex::Cat(a, b) => exists|k: int|
            0 <= k <= w.len() && in_lang(*a, #[trigger] w.take(k)) && in_lang(*b, w.skip(k)),
        Regex::Alt(a, b) => in_lang(*a, w) || in_lang(*b, w),
        Regex::Star(a) => w.len() == 0 || exists|k: int|
            0 < k <= w.len() && in_lang(*a, #[trigger] w.take(k)) && in_lang(r, w.skip(k)),
    }
}

/// The number of states that the automaton for `r` has.
pub open spec fn states_of(r: Regex) -> nat
    decreases r,
{
    match r {
        Regex::Lit(_) => 2,
        Regex::Cat(a, b) => states_of(*a) + states_of(*b),
        Regex::Alt(a, b) => states_of(*a) + states_of(*b) + 2,
        Regex::Star(a) => states_of(*a) + 2,
    }
}

/// The automaton for one character: a transition from `s` to `a` that reads it.
pub open spec fn lit_nfa(c: char, s: State, a: State) -> NfaView {
    NfaView { start: s, accept: a, transitions: add_edge(Map::empty(), s, Some(c), a) }
}

/// The automaton for `l` followed by `r`: both, and a transition from where
/// `l` accepts to where `r` starts.
pub open spec fn cat_nfa(l: NfaView, r: NfaView) -> NfaView {
    NfaView {
        start: l.start,
        accept: r.accept,
        transitions: add_edge(
            l.transitions.union_prefer_right(r.transitions),
            l.accept,
            None,
            r.start,
        ),
    }
}

/// The automaton for either of `l` and `r`: both, a new start `s` that
/// leads to either start, and a new accepting state `a` that either leads to.
pub open spec fn alt_nfa(l: NfaView, r: NfaView, s: State, a: State) -> NfaView {
    let t0 = l.transitions.union_prefer_right(r.transitions);
    let t1 = add_edge(t0, s, None, l.start);
    let t2 = add_edge(t1, s, None, r.start);
    let t3 = add_edge(t2, l.accept, None, a);
    NfaView { start: s, accept: a, transitions: add_edge(t3, r.accept, None, a) }
}

/// The automaton for `x` repeated: `x`, a new start `s` that leads to the
/// start of `x` and to the new accepting state `a`, and from where `x`
/// accepts a way back to its start and a way on to `a`.
pub open spec fn star_nfa(x: NfaView, s: State, a: State) -> NfaView {
    let t1 = add_edge(x.transitions, s, None, x.start);
    let t2 = add_edge(t1, s, None, a);
    let t3 = add_edge(t2, x.accept, None, x.start);
    NfaView { start: s, accept: a, transitions: add_edge(t3, x.accept, None, a) }
}

/// The automaton that Thompson's construction builds for `r` when the states
/// are numbered from `n` on, in the order in which the parts of `r` end.
pub open spec fn thompson(r: Regex, n: State) -> NfaView
    decreases r,
{
    match r {
        Regex::Lit(c) => lit_nfa(c, n, (n + 1) as State),
        Regex::Cat(a, b) => cat_nfa(thompson(*a, n), thompson(*b, (n + states_of(*a)) as State)),
        Regex::Alt(a, b) => alt_nfa(
            thompson(*a, n),
            thompson(*b, (n + states_of(*a)) as State),
            (n + states_of(*a) + states_of(*b)) as State,
            (n + states_of(*a) + states_of(*b) + 1) as State,
        ),
        Regex::Star(a) => star_nfa(
            thompson(*a, n),
            (n + states_of(*a)) as State,
            (n + states_of(*a) + 1) as State,
        ),
    }
}

} // verus!
