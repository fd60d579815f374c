//! The automaton: its states, labelled transitions, and what it means for it
//! to accept a word.

use std::collections::HashMap;
use std::collections::HashSet;
use vstd::prelude::*;
use vstd::std_specs::iter::IteratorSpec;

verus! {

broadcast use vstd::std_specs::hash::group_hash_axioms;

/// A state is identified by a number and has no other meaning.
pub type State = usize;

/// A transition either consumes one character or, with `None`, nothing.
pub type Label = Option<char>;

/// A set of states the automaton may be in.
pub type StateSet = HashSet<State>;

/// For each state, the transitions that leave it, in the order they were added.
pub type Transitions = HashMap<State, Vec<(Label, State)>>;

/// The mathematical form of a transition table.
pub type Graph = Map<State, Seq<(Label, State)>>;

/// The mathematical form of the table `t`.
pub open spec fn rows(t: Transitions) -> Graph {
    t@.map_values(|row: Vec<(Label, State)>| row@)
}

/// Whether `t` holds a transition from `p` to `q` labelled `lab`.
pub open spec fn has_edge(t: Graph, p: State, lab: Label, q: State) -> bool {
    t.dom().contains(p) && t[p].contains((lab, q))
}

/// The table `t` with one more transition, appended to the row of `from`.
pub open spec fn add_edge(t: Graph, from: State, lab: Label, to: State) -> Graph {
    if t.dom().contains(from) {
        t.insert(from, t[from].push((lab, to)))
    } else {
        t.insert(from, seq![(lab, to)])
    }
}

/// Whether a transition labelled `lab` can be taken with `w` still to read.
pub open spec fn label_fits(lab: Label, w: Seq<char>) -> bool {
    match lab {
        None => true,
        Some(c) => w.len() > 0 && w[0] == c,
    }
}

/// What is left of `w` once a transition labelled `lab` has been taken.
pub open spec fn after_label(lab: Label, w: Seq<char>) -> Seq<char> {
    match lab {
        None => w,
        Some(_) => w.drop_first(),
    }
}

/// The word that one transition labelled `lab` spells.
pub open spec fn label_word(lab: Label) -> Seq<char> {
    match lab {
        None => Seq::empty(),
        Some(c) => seq![c],
    }
}

/// Whether `n` transitions lead from `p` to `q` and their labels spell `w`.
pub open spec fn reach(t: Graph, p: State, w: Seq<char>, q: State, n: nat) -> bool
    decreases n,
{
    if n == 0 {
        p == q && w.len() == 0
    } else {
        exists|lab: Label, r: State| #[trigger]
            has_edge(t, p, lab, r) && label_fits(lab, w) && reach(
                t,
                r,
                after_label(lab, w),
                q,
                (n - 1) as nat,
            )
    }
}

/// Whether some path leads from `p` to `q` and spells `w`.
pub open spec fn connects(t: Graph, p: State, w: Seq<char>, q: State) -> bool {
    exists|n: nat| reach(t, p, w, q, n)
}

/// The states that can be reached from a state of `s` without reading anything.
pub open spec fn eps_closure_of(t: Graph, s: Set<State>) -> Set<State> {
    Set::new(|q: State| exists|p: State| s.contains(p) && connects(t, p, Seq::<char>::empty(), q))
}

/// The states that one transition labelled `c` leads to from a state of `s`.
pub open spec fn move_of(t: Graph, s: Set<State>, c: char) -> Set<State> {
    Set::new(|q: State| exists|p: State| s.contains(p) && has_edge(t, p, Some(c), q))
}

/// The states the automaton may be in after reading `w` from `p`.
pub open spec fn states_after(t: Graph, p: State, w: Seq<char>) -> Set<State> {
    Set::new(|q: State| connects(t, p, w, q))
}

/// The states that the transitions of `row` labelled `c` lead to.
pub open spec fn row_targets(row: Seq<(Label, State)>, c: char) -> Set<State> {
    Set::new(|q: State| row.contains((Some(c), q)))
}

/// A sequence with one more item holds what it held before and that item.
pub proof fn lemma_push_contains<A>(s: Seq<A>, x: A, y: A)
    ensures
        s.push(x).contains(y) <==> s.contains(y) || x == y,
{
    let b = s.push(x);
    if b.contains(y) {
        let k = choose|k: int| 0 <= k < b.len() && b[k] == y;
        if k < s.len() {
            assert(s[k] == y);
        }
    }
    if s.contains(y) {
        let k = choose|k: int| 0 <= k < s.len() && s[k] == y;
        assert(b[k] == y);
    }
    assert(b[s.len() as int] == x);
}

/// Moving from a set with one more state adds what that state's row leads to.
pub proof fn lemma_move_of_insert(t: Graph, s: Set<State>, p: State, c: char)
    ensures
        move_of(t, s.insert(p), c) == if t.dom().contains(p) {
            move_of(t, s, c).union(row_targets(t[p], c))
        } else {
            move_of(t, s, c)
        },
{
    let lhs = move_of(t, s.insert(p), c);
    let rhs = if t.dom().contains(p) {
        move_of(t, s, c).union(row_targets(t[p], c))
    } else {
        move_of(t, s, c)
    };
    assert forall|q: State| lhs.contains(q) <==> rhs.contains(q) by {
        if lhs.contains(q) {
            let origin = choose|origin: State|
                s.insert(p).contains(origin) && has_edge(t, origin, Some(c), q);
            if origin != p {
                assert(s.contains(origin) && has_edge(t, origin, Some(c), q));
            }
        }
        if move_of(t, s, c).contains(q) {
            let origin = choose|origin: State|
                s.contains(origin) && has_edge(t, origin, Some(c), q);
            assert(s.insert(p).contains(origin) && has_edge(t, origin, Some(c), q));
        }
        if t.dom().contains(p) && row_targets(t[p], c).contains(q) {
            assert(s.insert(p).contains(p) && has_edge(t, p, Some(c), q));
        }
    }
    assert(lhs =~= rhs);
}

/// Two paths that meet make one path, which spells the two words in turn.
pub proof fn lemma_reach_append(
    t: Graph,
    p: State,
    w1: Seq<char>,
    r: State,
    n1: nat,
    w2: Seq<char>,
    q: State,
    n2: nat,
)
    requires
        reach(t, p, w1, r, n1),
        reach(t, r, w2, q, n2),
    ensures
        reach(t, p, w1 + w2, q, n1 + n2),
    decreases n1,
{
    if n1 == 0 {
        assert(w1 + w2 =~= w2);
    } else {
        let (lab, r1) = choose|lab: Label, r1: State| #[trigger]
            has_edge(t, p, lab, r1) && label_fits(lab, w1) && reach(
                t,
                r1,
                after_label(lab, w1),
                r,
                (n1 - 1) as nat,
            );
        lemma_reach_append(t, r1, after_label(lab, w1), r, (n1 - 1) as nat, w2, q, n2);
        assert(after_label(lab, w1 + w2) =~= after_label(lab, w1) + w2);
        assert(has_edge(t, p, lab, r1) && label_fits(lab, w1 + w2) && reach(
            t,
            r1,
            after_label(lab, w1 + w2),
            q,
            (n1 + n2 - 1) as nat,
        ));
    }
}

/// One transition is a path of length one.
pub proof fn lemma_reach_edge(t: Graph, p: State, lab: Label, q: State)
    requires
        has_edge(t, p, lab, q),
    ensures
        reach(t, p, label_word(lab), q, 1),
{
    let w = label_word(lab);
    assert(after_label(lab, w) =~= Seq::<char>::empty());
    assert(reach(t, q, after_label(lab, w), q, 0));
    assert(has_edge(t, p, lab, q) && label_fits(lab, w) && reach(t, q, after_label(lab, w), q, 0));
}

/// Whether `s` holds, with each of its states, the states that a transition
/// without a character leads to from it.
pub open spec fn eps_closed(t: Graph, s: Set<State>) -> bool {
    forall|p: State, q: State| s.contains(p) && #[trigger] has_edge(t, p, None, q) ==> s.contains(q)
}

/// A set that is closed under transitions without a character holds every
/// state that such transitions lead to from one of its states.
pub proof fn lemma_eps_closed_holds(t: Graph, s: Set<State>, p: State, q: State, n: nat)
    requires
        eps_closed(t, s),
        s.contains(p),
        reach(t, p, Seq::<char>::empty(), q, n),
    ensures
        s.contains(q),
    decreases n,
{
    if n > 0 {
        let w = Seq::<char>::empty();
        let (lab, r) = choose|lab: Label, r: State| #[trigger]
            has_edge(t, p, lab, r) && label_fits(lab, w) && reach(
                t,
                r,
                after_label(lab, w),
                q,
                (n - 1) as nat,
            );
        assert(lab is None);
        lemma_eps_closed_holds(t, s, r, q, (n - 1) as nat);
    }
}

/// A state reached without a character from a state of the closure is in the
/// closure.
pub proof fn lemma_eps_closure_step(t: Graph, s: Set<State>, p: State, q: State)
    requires
        eps_closure_of(t, s).contains(p),
        has_edge(t, p, None, q),
    ensures
        eps_closure_of(t, s).contains(q),
{
    let e = Seq::<char>::empty();
    let origin = choose|origin: State| s.contains(origin) && connects(t, origin, e, p);
    let n = choose|n: nat| reach(t, origin, e, p, n);
    lemma_reach_edge(t, p, None, q);
    lemma_reach_append(t, origin, e, p, n, e, q, 1);
    assert(e + e =~= e);
    assert(s.contains(origin) && connects(t, origin, e, q));
}

/// Every state of a set is in its closure.
pub proof fn lemma_eps_closure_holds_set(t: Graph, s: Set<State>, p: State)
    requires
        s.contains(p),
    ensures
        eps_closure_of(t, s).contains(p),
{
    let e = Seq::<char>::empty();
    assert(reach(t, p, e, p, 0));
    assert(s.contains(p) && connects(t, p, e, p));
}

/// The closure of a set is the smallest set that holds it and is closed
/// under transitions without a character: it holds the set, it is closed,
/// and every closed set `x` that holds the set holds the closure.
pub proof fn lemma_eps_closure_is_smallest(t: Graph, s: Set<State>, x: Set<State>)
    ensures
        s.subset_of(eps_closure_of(t, s)),
        eps_closed(t, eps_closure_of(t, s)),
        s.subset_of(x) && eps_closed(t, x) ==> eps_closure_of(t, s).subset_of(x),
{
    let c = eps_closure_of(t, s);
    let e = Seq::<char>::empty();
    assert forall|p: State| s.contains(p) implies c.contains(p) by {
        lemma_eps_closure_holds_set(t, s, p);
    }
    assert forall|p: State, q: State| c.contains(p) && #[trigger] has_edge(
        t,
        p,
        None,
        q,
    ) implies c.contains(q) by {
        lemma_eps_closure_step(t, s, p, q);
    }
    if s.subset_of(x) && eps_closed(t, x) {
        assert forall|q: State| c.contains(q) implies x.contains(q) by {
            let p = choose|p: State| s.contains(p) && connects(t, p, e, q);
            let n = choose|n: nat| reach(t, p, e, q, n);
            lemma_eps_closed_holds(t, x, p, q, n);
        }
    }
}

/// A set of states held in memory is finite.
pub proof fn lemma_state_set_finite(s: &StateSet)
    ensures
        s@.finite(),
        s@.len() <= usize::MAX,
{
    let order = vstd::std_specs::hash::spec_hash_keys_iter(s).remaining();
    vstd::seq_lib::seq_to_set_is_finite(order.unref());
    assert(s.len() == s@.len());
}

/// A path that spells a word ending in `c` takes, as its last transition
/// with a character, one labelled `c`: the states before and after it.
pub proof fn lemma_reach_split_last(
    t: Graph,
    p: State,
    u: Seq<char>,
    c: char,
    q: State,
    n: nat,
) -> (mid: (State, State))
    requires
        reach(t, p, u.push(c), q, n),
    ensures
        connects(t, p, u, mid.0),
        has_edge(t, mid.0, Some(c), mid.1),
        connects(t, mid.1, Seq::<char>::empty(), q),
    decreases n,
{
    let w = u.push(c);
    let e = Seq::<char>::empty();
    assert(n > 0);
    let (lab, r1) = choose|lab: Label, r1: State| #[trigger]
        has_edge(t, p, lab, r1) && label_fits(lab, w) && reach(
            t,
            r1,
            after_label(lab, w),
            q,
            (n - 1) as nat,
        );
    lemma_reach_edge(t, p, lab, r1);
    match lab {
        None => {
            let mid = lemma_reach_split_last(t, r1, u, c, q, (n - 1) as nat);
            let m = choose|m: nat| reach(t, r1, u, mid.0, m);
            lemma_reach_append(t, p, e, r1, 1, u, mid.0, m);
            assert(e + u =~= u);
            mid
        },
        Some(d) => {
            if u.len() == 0 {
                assert(after_label(lab, w) =~= e);
                assert(reach(t, p, u, p, 0));
                (p, r1)
            } else {
                let rest = u.drop_first();
                assert(after_label(lab, w) =~= rest.push(c));
                let mid = lemma_reach_split_last(t, r1, rest, c, q, (n - 1) as nat);
                let m = choose|m: nat| reach(t, r1, rest, mid.0, m);
                lemma_reach_append(t, p, seq![d], r1, 1, rest, mid.0, m);
                assert(seq![d] + rest =~= u);
                mid
            }
        },
    }
}

/// Before anything is read the automaton is in the closure of its start.
pub proof fn lemma_states_after_start(t: Graph, p: State)
    ensures
        eps_closure_of(t, set![p]) == states_after(t, p, Seq::<char>::empty()),
{
    let e = Seq::<char>::empty();
    assert forall|q: State|
        eps_closure_of(t, set![p]).contains(q) <==> states_after(t, p, e).contains(q) by {
        if connects(t, p, e, q) {
            assert(set![p].contains(p) && connects(t, p, e, q));
        }
    }
    assert(eps_closure_of(t, set![p]) =~= states_after(t, p, e));
}

/// Reading one more character is one move and one closure.
pub proof fn lemma_states_after_push(t: Graph, p: State, w: Seq<char>, c: char)
    ensures
        eps_closure_of(t, move_of(t, states_after(t, p, w), c)) == states_after(t, p, w.push(c)),
{
    let e = Seq::<char>::empty();
    let before = states_after(t, p, w);
    let moved = move_of(t, before, c);
    let lhs = eps_closure_of(t, moved);
    let rhs = states_after(t, p, w.push(c));
    assert forall|q: State| lhs.contains(q) implies rhs.contains(q) by {
        let q1 = choose|q1: State| moved.contains(q1) && connects(t, q1, e, q);
        let r = choose|r: State| before.contains(r) && has_edge(t, r, Some(c), q1);
        let n1 = choose|n: nat| reach(t, p, w, r, n);
        let n2 = choose|n: nat| reach(t, q1, e, q, n);
        lemma_reach_edge(t, r, Some(c), q1);
        lemma_reach_append(t, p, w, r, n1, seq![c], q1, 1);
        lemma_reach_append(t, p, w + seq![c], q1, n1 + 1, e, q, n2);
        assert(w + seq![c] + e =~= w.push(c));
    }
    assert forall|q: State| rhs.contains(q) implies lhs.contains(q) by {
        let n = choose|n: nat| reach(t, p, w.push(c), q, n);
        let mid = lemma_reach_split_last(t, p, w, c, q, n);
        assert(before.contains(mid.0) && has_edge(t, mid.0, Some(c), mid.1));
        assert(moved.contains(mid.1) && connects(t, mid.1, e, q));
    }
    assert(lhs =~= rhs);
}

/// The mathematical form of an automaton.
pub struct NfaView {
    pub start: State,
    pub accept: State,
    pub transitions: Graph,
}

impl NfaView {
    /// Whether the automaton accepts `w`: some path from the start state to
    /// the accepting state spells it.
    pub open spec fn accepts(self, w: Seq<char>) -> bool {
        connects(self.transitions, self.start, w, self.accept)
    }
}

/// A nondeterministic finite automaton with one start state and one
/// accepting state.
#[derive(Debug)]
pub struct Nfa {
    pub start: State,
    pub accept: State,
    pub transitions: Transitions,
}

impl View for Nfa {
    type V = NfaView;

    open spec fn view(&self) -> NfaView {
        NfaView {
            start: self.start,
            accept: self.accept,
            transitions: rows(self.transitions),
        }
    }
}

/// Moves every row of `from` into `into`. Where both hold a row for one
/// state, the row of `from` replaces the other.
pub fn merge_transitions(into: &mut Transitions, from: Transitions)
    ensures
        rows(*final(into)) == rows(*old(into)).union_prefer_right(rows(from)),
{
    let ghost into0 = into@;
    let ghost from0 = from@;
    let mut rest = from;
    let mut keys: Vec<State> = Vec::new();
    for k in it: rest.keys()
        invariant
            it.seq().unref().to_set() == rest@.dom(),
            keys@ == it.seq().unref().take(it.index() as int),
            it.index() == it.seq().len() ==> keys@ =~= it.seq().unref(),
    {
        keys.push(*k);
        proof {
            let a = it.seq().unref().take(it.index() as int);
            let b = it.seq().unref().take(it.index() + 1);
            assert(b =~= a.push(*k));
            assert(it.index() + 1 == it.seq().len() ==> b =~= it.seq().unref());
        }
    }
    assert(keys@.to_set() == from0.dom());
    let mut j: usize = 0;
    while j < keys.len()
        invariant
            j <= keys.len(),
            keys@.to_set() == from0.dom(),
            rest@.submap_of(from0),
            into@ == into0.union_prefer_right(from0.remove_keys(rest@.dom())),
            forall|i: int| 0 <= i < j ==> !rest@.dom().contains(#[trigger] keys@[i]),
        decreases keys.len() - j,
    {
        let k = keys[j];
        let ghost left = rest@;
        match rest.remove(&k) {
            Some(row) => {
                assert(rest@ =~= left.remove(k));
                into.insert(k, row);
                assert(into@ =~= into0.union_prefer_right(from0.remove_keys(rest@.dom())));
            },
            None => {
                assert(rest@ =~= left);
            },
        }
        j += 1;
    }
    proof {
        assert forall|k: State| !rest@.dom().contains(k) by {
            if rest@.dom().contains(k) {
                assert(from0.dom().contains(k));
                assert(keys@.to_set().contains(k));
                let i = choose|i: int| 0 <= i < keys@.len() && keys@[i] == k;
                assert(!rest@.dom().contains(keys@[i]));
            }
        }
        assert(from0.remove_keys(rest@.dom()) =~= from0);
        assert(rows(*into) =~= rows(*old(into)).union_prefer_right(rows(from)));
    }
}

impl Nfa {
    /// An automaton with the given start state, accepting state and transitions.
    pub fn new(start: State, accept: State, transitions: Transitions) -> (nfa: Self)
        ensures
            nfa@.start == start,
            nfa@.accept == accept,
            nfa@.transitions == rows(transitions),
    {
        Self { start, accept, transitions }
    }

    /// Adds the transition from `from` to `to` labelled `label`, after the
    /// transitions that already leave `from`.
    pub fn add_transition(&mut self, from: State, label: Label, to: State)
        ensures
            final(self)@.start == old(self)@.start,
            final(self)@.accept == old(self)@.accept,
            final(self)@.transitions == add_edge(old(self)@.transitions, from, label, to),
    {
        let mut row: Vec<(Label, State)> = match self.transitions.remove(&from) {
            Some(r) => r,
            None => Vec::new(),
        };
        row.push((label, to));
        self.transitions.insert(from, row);
        assert(self@.transitions =~= add_edge(old(self)@.transitions, from, label, to));
    }

    /// The smallest set that holds `states` and, with each of its states, the
    /// states that a transition without a character leads to from it.
    pub fn eps_closure(&self, states: StateSet) -> (res: StateSet)
        ensures
            res@ == eps_closure_of(self@.transitions, states@),
    {
        let ghost t = self@.transitions;
        let ghost s0 = states@;
        let mut ec = states;
        let mut stack: Vec<State> = Vec::new();
        for s in it: ec.iter()
            invariant
                it.seq().unref().to_set() == ec@,
                stack@ == it.seq().unref().take(it.index() as int),
                it.index() == it.seq().len() ==> stack@ =~= it.seq().unref(),
        {
            stack.push(*s);
            proof {
                let a = it.seq().unref().take(it.index() as int);
                let b = it.seq().unref().take(it.index() + 1);
                assert(b =~= a.push(*s));
                assert(it.index() + 1 == it.seq().len() ==> b =~= it.seq().unref());
            }
        }
        assert(stack@.to_set() == ec@);
        proof {
            assert forall|p: State| s0.contains(p) implies eps_closure_of(t, s0).contains(p) by {
                lemma_eps_closure_holds_set(t, s0, p);
            }
            lemma_state_set_finite(&ec);
        }
        while stack.len() > 0
            invariant
                t == self@.transitions,
                s0.subset_of(ec@),
                ec@.subset_of(eps_closure_of(t, s0)),
                ec@.finite(),
                ec@.len() <= usize::MAX,
                forall|i: int| 0 <= i < stack.len() ==> ec@.contains(#[trigger] stack@[i]),
                forall|p: State, q: State|
                    ec@.contains(p) && !stack@.contains(p) && #[trigger] has_edge(t, p, None, q)
                        ==> ec@.contains(q),
            decreases usize::MAX - ec@.len(), stack.len(),
        {
            let ghost ec0 = ec@;
            let ghost stack_before = stack@;
            let ghost stack0 = stack@.drop_last();
            let state = stack.pop().unwrap();
            assert(stack@ == stack0);
            assert(stack_before =~= stack0.push(state));
            assert forall|p: State| !stack0.contains(p) && p != state implies !(
            #[trigger] stack_before.contains(p)) by {
                lemma_push_contains(stack0, state, p);
            }
            assert(ec@.contains(stack_before[stack_before.len() - 1]));
            match self.transitions.get(&state) {
                Some(pairs) => {
                    assert(t[state] == pairs@);
                    let mut j: usize = 0;
                    while j < pairs.len()
                        invariant
                            j <= pairs.len(),
                            t.dom().contains(state),
                            t[state] == pairs@,
                            s0.subset_of(ec@),
                            ec0.subset_of(ec@),
                            ec@.subset_of(eps_closure_of(t, s0)),
                            ec@.finite(),
                            ec@.len() <= usize::MAX,
                            ec@.len() >= ec0.len(),
                            ec@.len() == ec0.len() ==> stack@ == stack0,
                            ec@.contains(state),
                            forall|i: int|
                                0 <= i < stack.len() ==> ec@.contains(#[trigger] stack@[i]),
                            forall|p: State, q: State|
                                ec@.contains(p) && !stack@.contains(p) && p != state
                                    && #[trigger] has_edge(t, p, None, q) ==> ec@.contains(q),
                            forall|i: int|
                                0 <= i < j && (#[trigger] pairs@[i]).0 is None ==> ec@.contains(
                                    pairs@[i].1,
                                ),
                        decreases pairs.len() - j,
                    {
                        let (label, to) = pairs[j];
                        let ghost ec1 = ec@;
                        let ghost stack1 = stack@;
                        if label.is_none() && ec.insert(to) {
                            stack.push(to);
                            proof {
                                assert(pairs@[j as int] == (None::<char>, to));
                                assert(has_edge(t, state, None, to));
                                lemma_eps_closure_step(t, s0, state, to);
                                lemma_state_set_finite(&ec);
                                assert(stack@[stack1.len() as int] == to);
                                assert forall|p: State, q: State|
                                    ec@.contains(p) && !stack@.contains(p) && p != state
                                        && #[trigger] has_edge(t, p, None, q) implies ec@.contains(
                                    q,
                                ) by {
                                    lemma_push_contains(stack1, to, p);
                                    assert(ec1.contains(p));
                                    assert(!stack1.contains(p));
                                }
                            }
                        }
                        j += 1;
                    }
                    proof {
                        assert forall|p: State, q: State|
                            ec@.contains(p) && !stack@.contains(p) && #[trigger] has_edge(
                                t,
                                p,
                                None,
                                q,
                            ) implies ec@.contains(q) by {
                            if p == state {
                                let i = choose|i: int|
                                    0 <= i < pairs@.len() && pairs@[i] == (None::<char>, q);
                                assert(pairs@[i].0 is None);
                            }
                        }
                    }
                },
                None => {
                    assert(!t.dom().contains(state));
                },
            }
        }
        proof {
            assert(stack@.len() == 0);
            assert(eps_closed(t, ec@));
            assert forall|q: State| eps_closure_of(t, s0).contains(q) implies ec@.contains(q) by {
                let e = Seq::<char>::empty();
                let p = choose|p: State| s0.contains(p) && connects(t, p, e, q);
                let n = choose|n: nat| reach(t, p, e, q, n);
                lemma_eps_closed_holds(t, ec@, p, q, n);
            }
            assert(ec@ =~= eps_closure_of(t, s0));
        }
        ec
    }

    /// The states that one transition labelled `symbol` leads to from a state
    /// of `states`.
    pub fn get_move(&self, states: &StateSet, symbol: char) -> (res: StateSet)
        ensures
            res@ == move_of(self@.transitions, states@, symbol),
    {
        let ghost t = self@.transitions;
        let ghost mut seen: Set<State> = Set::empty();
        let mut res: StateSet = HashSet::new();
        assert(res@ =~= move_of(t, seen, symbol));
        for from in it: states.iter()
            invariant
                t == self@.transitions,
                it.seq().unref().to_set() == states@,
                seen == it.seq().unref().take(it.index() as int).to_set(),
                it.index() == it.seq().len() ==> seen =~= states@,
                res@ == move_of(t, seen, symbol),
        {
            let ghost done = res@;
            let ghost next = seen.insert(*from);
            proof {
                let a = it.seq().unref().take(it.index() as int);
                let b = it.seq().unref().take(it.index() + 1);
                assert(b =~= a.push(*from));
                assert forall|p: State| b.to_set().contains(p) <==> next.contains(p) by {
                    lemma_push_contains(a, *from, p);
                }
                assert(b.to_set() =~= next);
                assert(it.index() + 1 == it.seq().len() ==> b =~= it.seq().unref());
            }
            match self.transitions.get(from) {
                Some(pairs) => {
                    assert(t[*from] == pairs@);
                    let mut j: usize = 0;
                    assert(res@ =~= done.union(row_targets(pairs@.take(0), symbol)));
                    while j < pairs.len()
                        invariant
                            j <= pairs.len(),
                            res@ == done.union(row_targets(pairs@.take(j as int), symbol)),
                        decreases pairs.len() - j,
                    {
                        let (label, to) = pairs[j];
                        if let Some(c) = label {
                            if c == symbol {
                                res.insert(to);
                            }
                        }
                        proof {
                            let a = pairs@.take(j as int);
                            let b = pairs@.take(j + 1);
                            assert(b =~= a.push(pairs@[j as int]));
                            assert forall|q: State|
                                res@.contains(q) <==> done.union(row_targets(b, symbol)).contains(
                                    q,
                                ) by {
                                lemma_push_contains(a, pairs@[j as int], (Some(symbol), q));
                            }
                            assert(res@ =~= done.union(row_targets(b, symbol)));
                        }
                        j += 1;
                    }
                    assert(pairs@.take(pairs.len() as int) =~= pairs@);
                    proof {
                        lemma_move_of_insert(t, seen, *from, symbol);
                    }
                    assert(res@ =~= move_of(t, next, symbol));
                },
                None => {
                    proof {
                        lemma_move_of_insert(t, seen, *from, symbol);
                    }
                    assert(res@ =~= move_of(t, next, symbol));
                },
            }
            proof {
                seen = next;
            }
        }
        res
    }

    /// Whether the automaton accepts `input`, decided by following at once
    /// every path that spells it.
    pub fn simulate(&self, input: &str) -> (res: bool)
        ensures
            res == self@.accepts(input@),
    {
        let ghost t = self@.transitions;
        let ghost mut read: Seq<char> = Seq::empty();
        let mut s0: StateSet = HashSet::new();
        s0.insert(self.start);
        assert(s0@ =~= set![self.start]);
        let mut states = self.eps_closure(s0);
        proof {
            lemma_states_after_start(t, self.start);
        }
        for c in it: input.chars()
            invariant
                t == self@.transitions,
                read == it.seq().take(it.index() as int),
                states@ == states_after(t, self.start, read),
        {
            let from_move = self.get_move(&states, c);
            states = self.eps_closure(from_move);
            proof {
                lemma_states_after_push(t, self.start, read, c);
                assert(it.seq().take(it.index() + 1) =~= read.push(c));
                read = read.push(c);
            }
        }
        assert(read =~= input@);
        states.contains(&self.accept)
    }
}

} // verus!
