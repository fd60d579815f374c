//! Why the automaton that Thompson's construction builds for a pattern
//! accepts the words that the pattern stands for, and no others.

use crate::nfa::{
    add_edge, after_label, connects, has_edge, label_fits, label_word, lemma_push_contains,
    lemma_reach_append, lemma_reach_edge, reach, Graph, Label, NfaView, State,
};
use crate::regex::{alt_nfa, cat_nfa, in_lang, lit_nfa, star_nfa, states_of, thompson, Regex};
use vstd::prelude::*;

verus! {

/// Whether every row of `t` belongs to a state from `lo` up to `hi`, that
/// one left out, and every transition leads to such a state.
pub open spec fn within(t: Graph, lo: int, hi: int) -> bool {
    &&& forall|p: State| #[trigger] t.dom().contains(p) ==> lo <= p < hi
    &&& forall|p: State, lab: Label, q: State| #[trigger]
        has_edge(t, p, lab, q) ==> lo <= q < hi
}

/// Whether the automaton `f` has all its states from `lo` up to `hi`, that
/// one left out, and starts in another state than it accepts in.
pub open spec fn frag_within(f: NfaView, lo: int, hi: int) -> bool {
    &&& within(f.transitions, lo, hi)
    &&& lo <= f.start < hi
    &&& lo <= f.accept < hi
    &&& f.start != f.accept
}

/// Whether every transition of `t1` is one of `t2`.
pub open spec fn sub_graph(t1: Graph, t2: Graph) -> bool {
    forall|p: State, lab: Label, q: State| #[trigger]
        has_edge(t1, p, lab, q) ==> has_edge(t2, p, lab, q)
}

/// The transitions of a table with one more are those it had and that one.
pub proof fn lemma_add_edge(
    t: Graph,
    from: State,
    l: Label,
    to: State,
    p: State,
    lab: Label,
    q: State,
)
    ensures
        has_edge(add_edge(t, from, l, to), p, lab, q) <==> has_edge(t, p, lab, q) || (p == from
            && lab == l && q == to),
        add_edge(t, from, l, to).dom() == t.dom().insert(from),
{
    let t2 = add_edge(t, from, l, to);
    assert(t2.dom() =~= t.dom().insert(from));
    if p == from {
        if t.dom().contains(from) {
            lemma_push_contains(t[from], (l, to), (lab, q));
        } else {
            let row = seq![(l, to)];
            assert(row[0] == (l, to));
            if row.contains((lab, q)) {
                let i = choose|i: int| 0 <= i < row.len() && row[i] == (lab, q);
                assert(row[i] == (l, to));
            }
        }
    }
}

/// The transitions of two tables with no state in common, put together,
/// are those of the one and those of the other.
pub proof fn lemma_union_edge(t1: Graph, t2: Graph, p: State, lab: Label, q: State)
    requires
        forall|k: State| !(t1.dom().contains(k) && t2.dom().contains(k)),
    ensures
        has_edge(t1.union_prefer_right(t2), p, lab, q) <==> has_edge(t1, p, lab, q) || has_edge(
            t2,
            p,
            lab,
            q,
        ),
        t1.union_prefer_right(t2).dom() == t1.dom().union(t2.dom()),
{
    assert(t1.union_prefer_right(t2).dom() =~= t1.dom().union(t2.dom()));
}

/// The first transition of a path that has one, and the state it leads to.
pub proof fn lemma_reach_first(t: Graph, p: State, w: Seq<char>, q: State, n: nat) -> (e: (
    Label,
    State,
))
    requires
        n > 0,
        reach(t, p, w, q, n),
    ensures
        has_edge(t, p, e.0, e.1),
        label_fits(e.0, w),
        reach(t, e.1, after_label(e.0, w), q, (n - 1) as nat),
        w == label_word(e.0) + after_label(e.0, w),
{
    let (lab, r) = choose|lab: Label, r: State| #[trigger]
        has_edge(t, p, lab, r) && label_fits(lab, w) && reach(
            t,
            r,
            after_label(lab, w),
            q,
            (n - 1) as nat,
        );
    assert(w =~= label_word(lab) + after_label(lab, w));
    (lab, r)
}

/// A transition and a path from where it leads make a path.
pub proof fn lemma_connects_step(t: Graph, p: State, lab: Label, r: State, w: Seq<char>, q: State)
    requires
        has_edge(t, p, lab, r),
        connects(t, r, w, q),
    ensures
        connects(t, p, label_word(lab) + w, q),
{
    let n = choose|n: nat| reach(t, r, w, q, n);
    lemma_reach_edge(t, p, lab, r);
    lemma_reach_append(t, p, label_word(lab), r, 1, w, q, n);
}

/// Two paths that meet make one path.
pub proof fn lemma_connects_append(
    t: Graph,
    p: State,
    w1: Seq<char>,
    r: State,
    w2: Seq<char>,
    q: State,
)
    requires
        connects(t, p, w1, r),
        connects(t, r, w2, q),
    ensures
        connects(t, p, w1 + w2, q),
{
    let n1 = choose|n: nat| reach(t, p, w1, r, n);
    let n2 = choose|n: nat| reach(t, r, w2, q, n);
    lemma_reach_append(t, p, w1, r, n1, w2, q, n2);
}

/// A state is connected to itself by the empty word.
pub proof fn lemma_connects_self(t: Graph, p: State)
    ensures
        connects(t, p, Seq::<char>::empty(), p),
{
    assert(reach(t, p, Seq::<char>::empty(), p, 0));
}

/// A path in a table is a path in every table that has its transitions.
pub proof fn lemma_reach_mono(t1: Graph, t2: Graph, p: State, w: Seq<char>, q: State, n: nat)
    requires
        sub_graph(t1, t2),
        reach(t1, p, w, q, n),
    ensures
        reach(t2, p, w, q, n),
    decreases n,
{
    if n > 0 {
        let e = lemma_reach_first(t1, p, w, q, n);
        lemma_reach_mono(t1, t2, e.1, after_label(e.0, w), q, (n - 1) as nat);
        assert(has_edge(t2, p, e.0, e.1) && label_fits(e.0, w) && reach(
            t2,
            e.1,
            after_label(e.0, w),
            q,
            (n - 1) as nat,
        ));
    }
}

/// Connected in a table, connected in every table that has its transitions.
pub proof fn lemma_connects_mono(t1: Graph, t2: Graph, p: State, w: Seq<char>, q: State)
    requires
        sub_graph(t1, t2),
        connects(t1, p, w, q),
    ensures
        connects(t2, p, w, q),
{
    let n = choose|n: nat| reach(t1, p, w, q, n);
    lemma_reach_mono(t1, t2, p, w, q, n);
}

/// A path that starts inside a part of a table which no transition leaves
/// is a path of that part, and ends inside it.
pub proof fn lemma_reach_stays(
    t: Graph,
    part: Graph,
    lo: int,
    hi: int,
    p: State,
    w: Seq<char>,
    q: State,
    n: nat,
)
    requires
        within(part, lo, hi),
        lo <= p < hi,
        forall|x: State, lab: Label, y: State|
            lo <= x < hi && #[trigger] has_edge(t, x, lab, y) ==> has_edge(part, x, lab, y),
        reach(t, p, w, q, n),
    ensures
        reach(part, p, w, q, n),
        lo <= q < hi,
    decreases n,
{
    if n > 0 {
        let e = lemma_reach_first(t, p, w, q, n);
        assert(has_edge(part, p, e.0, e.1));
        lemma_reach_stays(t, part, lo, hi, e.1, after_label(e.0, w), q, (n - 1) as nat);
        assert(has_edge(part, p, e.0, e.1) && label_fits(e.0, w) && reach(
            part,
            e.1,
            after_label(e.0, w),
            q,
            (n - 1) as nat,
        ));
    }
}

/// A path from a state that no transition leaves has no transition.
pub proof fn lemma_reach_stuck(t: Graph, p: State, w: Seq<char>, q: State, n: nat)
    requires
        forall|lab: Label, y: State| !has_edge(t, p, lab, y),
        reach(t, p, w, q, n),
    ensures
        n == 0,
        p == q,
        w.len() == 0,
{
    if n > 0 {
        let e = lemma_reach_first(t, p, w, q, n);
    }
}

/// Whether the automaton `f` accepts the words that `r` stands for, and no
/// others.
pub open spec fn speaks(f: NfaView, r: Regex) -> bool {
    forall|w: Seq<char>| #![trigger f.accepts(w)] #![trigger in_lang(r, w)]
        f.accepts(w) <==> in_lang(r, w)
}

/// The automaton for one character accepts that character alone.
pub proof fn lemma_lit(c: char, s: State, a: State)
    requires
        s != a,
    ensures
        speaks(lit_nfa(c, s, a), Regex::Lit(c)),
        forall|p: State, lab: Label, q: State| #[trigger]
            has_edge(lit_nfa(c, s, a).transitions, p, lab, q) <==> p == s && lab == Some(c) && q
                == a,
        lit_nfa(c, s, a).transitions.dom() == set![s],
{
    let f = lit_nfa(c, s, a);
    let t = f.transitions;
    let none = Map::<State, Seq<(Label, State)>>::empty();
    assert forall|p: State, lab: Label, q: State| #[trigger]
        has_edge(t, p, lab, q) <==> p == s && lab == Some(c) && q == a by {
        lemma_add_edge(none, s, Some(c), a, p, lab, q);
    }
    lemma_add_edge(none, s, Some(c), a, s, Some(c), a);
    assert(t.dom() =~= set![s]);
    assert forall|w: Seq<char>| f.accepts(w) <==> in_lang(Regex::Lit(c), w) by {
        if f.accepts(w) {
            let n = choose|n: nat| reach(t, s, w, a, n);
            let e = lemma_reach_first(t, s, w, a, n);
            assert forall|lab: Label, y: State| !has_edge(t, a, lab, y) by {}
            lemma_reach_stuck(t, a, after_label(e.0, w), a, (n - 1) as nat);
            assert(w =~= seq![c]);
        }
        if w == seq![c] {
            lemma_reach_edge(t, s, Some(c), a);
        }
    }
}

/// Whether the automaton for `l` followed by `r` has the transition from
/// `p` to `q` labelled `lab`.
pub open spec fn cat_edge(l: NfaView, r: NfaView, p: State, lab: Label, q: State) -> bool {
    ||| has_edge(l.transitions, p, lab, q)
    ||| has_edge(r.transitions, p, lab, q)
    ||| (p == l.accept && lab is None && q == r.start)
}

/// The transitions of the automaton for `l` followed by `r`.
pub proof fn lemma_cat_edges(
    l: NfaView,
    r: NfaView,
    lo: int,
    mid: int,
    hi: int,
    p: State,
    lab: Label,
    q: State,
)
    requires
        within(l.transitions, lo, mid),
        within(r.transitions, mid, hi),
    ensures
        has_edge(cat_nfa(l, r).transitions, p, lab, q) <==> cat_edge(l, r, p, lab, q),
        cat_nfa(l, r).transitions.dom() == l.transitions.dom().union(r.transitions.dom()).insert(
            l.accept,
        ),
{
    let u = l.transitions.union_prefer_right(r.transitions);
    lemma_union_edge(l.transitions, r.transitions, p, lab, q);
    lemma_add_edge(u, l.accept, None, r.start, p, lab, q);
}

/// A path through the automaton for `l` followed by `r`, from a state of
/// `l` to where `r` accepts, is a path of `l` to where `l` accepts and then
/// a path of `r` from its start: where the word is to be cut.
pub proof fn lemma_cat_split(
    t: Graph,
    l: NfaView,
    r: NfaView,
    lo: int,
    mid: int,
    hi: int,
    p: State,
    w: Seq<char>,
    n: nat,
) -> (k: int)
    requires
        frag_within(l, lo, mid),
        frag_within(r, mid, hi),
        forall|x: State, lab: Label, y: State| #[trigger]
            has_edge(t, x, lab, y) <==> cat_edge(l, r, x, lab, y),
        lo <= p < mid,
        reach(t, p, w, r.accept, n),
    ensures
        0 <= k <= w.len(),
        connects(l.transitions, p, w.take(k), l.accept),
        connects(r.transitions, r.start, w.skip(k), r.accept),
    decreases n,
{
    if n == 0 {
        assert(false);
        0
    } else {
        let e = lemma_reach_first(t, p, w, r.accept, n);
        let rest = after_label(e.0, w);
        assert(cat_edge(l, r, p, e.0, e.1));
        if has_edge(l.transitions, p, e.0, e.1) {
            let k1 = lemma_cat_split(t, l, r, lo, mid, hi, e.1, rest, (n - 1) as nat);
            let k = if e.0 is Some {
                k1 + 1
            } else {
                k1
            };
            lemma_connects_step(l.transitions, p, e.0, e.1, rest.take(k1), l.accept);
            assert(label_word(e.0) + rest.take(k1) =~= w.take(k));
            assert(rest.skip(k1) =~= w.skip(k));
            k
        } else if has_edge(r.transitions, p, e.0, e.1) {
            assert(r.transitions.dom().contains(p));
            assert(false);
            0
        } else {
            assert forall|x: State, lab: Label, y: State|
                mid <= x < hi && #[trigger] has_edge(t, x, lab, y) implies has_edge(
                r.transitions,
                x,
                lab,
                y,
            ) by {
                assert(cat_edge(l, r, x, lab, y));
                if has_edge(l.transitions, x, lab, y) {
                    assert(l.transitions.dom().contains(x));
                }
            }
            lemma_reach_stays(t, r.transitions, mid, hi, r.start, w, r.accept, (n - 1) as nat);
            lemma_connects_self(l.transitions, l.accept);
            assert(w.take(0) =~= Seq::<char>::empty());
            assert(w.skip(0) =~= w);
            0
        }
    }
}

/// The automaton for `l` followed by `r` accepts a word of `l` followed by
/// a word of `r`, and nothing else.
pub proof fn lemma_cat(l: NfaView, r: NfaView, rl: Regex, rr: Regex, lo: int, mid: int, hi: int)
    requires
        frag_within(l, lo, mid),
        frag_within(r, mid, hi),
        speaks(l, rl),
        speaks(r, rr),
    ensures
        frag_within(cat_nfa(l, r), lo, hi),
        speaks(cat_nfa(l, r), Regex::Cat(Box::new(rl), Box::new(rr))),
{
    let f = cat_nfa(l, r);
    let t = f.transitions;
    let both = Regex::Cat(Box::new(rl), Box::new(rr));
    assert forall|x: State, lab: Label, y: State| #[trigger]
        has_edge(t, x, lab, y) <==> cat_edge(l, r, x, lab, y) by {
        lemma_cat_edges(l, r, lo, mid, hi, x, lab, y);
    }
    lemma_cat_edges(l, r, lo, mid, hi, l.start, None, l.start);
    assert(sub_graph(l.transitions, t));
    assert(sub_graph(r.transitions, t));
    assert(within(t, lo, hi)) by {
        assert forall|x: State, lab: Label, y: State| #[trigger]
            has_edge(t, x, lab, y) implies lo <= y < hi by {
            assert(cat_edge(l, r, x, lab, y));
        }
    }
    assert forall|w: Seq<char>| f.accepts(w) <==> in_lang(both, w) by {
        if f.accepts(w) {
            let n = choose|n: nat| reach(t, l.start, w, r.accept, n);
            let k = lemma_cat_split(t, l, r, lo, mid, hi, l.start, w, n);
            assert(l.accepts(w.take(k)));
            assert(r.accepts(w.skip(k)));
            assert(0 <= k <= w.len() && in_lang(rl, w.take(k)) && in_lang(rr, w.skip(k)));
        }
        if in_lang(both, w) {
            let k = choose|k: int|
                0 <= k <= w.len() && in_lang(rl, #[trigger] w.take(k)) && in_lang(rr, w.skip(k));
            assert(l.accepts(w.take(k)));
            assert(r.accepts(w.skip(k)));
            lemma_connects_mono(l.transitions, t, l.start, w.take(k), l.accept);
            lemma_connects_mono(r.transitions, t, r.start, w.skip(k), r.accept);
            assert(has_edge(t, l.accept, None, r.start));
            lemma_connects_step(t, l.accept, None, r.start, w.skip(k), r.accept);
            lemma_connects_append(
                t,
                l.start,
                w.take(k),
                l.accept,
                label_word(None) + w.skip(k),
                r.accept,
            );
            assert(w.take(k) + (label_word(None) + w.skip(k)) =~= w);
        }
    }
}

/// A path that leaves a part of a table for the state `a` outside it, when
/// the one way out is from `acc` to `a` without a character and nothing
/// leaves `a`, is a path of that part to `acc`.
pub proof fn lemma_exit_path(
    t: Graph,
    part: Graph,
    acc: State,
    a: State,
    lo: int,
    hi: int,
    p: State,
    w: Seq<char>,
    n: nat,
)
    requires
        within(part, lo, hi),
        lo <= p < hi,
        !(lo <= a < hi),
        forall|lab: Label, y: State| !has_edge(t, a, lab, y),
        forall|x: State, lab: Label, y: State|
            lo <= x < hi && #[trigger] has_edge(t, x, lab, y) ==> has_edge(part, x, lab, y) || (x
                == acc && lab is None && y == a),
        reach(t, p, w, a, n),
    ensures
        connects(part, p, w, acc),
    decreases n,
{
    if n == 0 {
        assert(false);
    } else {
        let e = lemma_reach_first(t, p, w, a, n);
        let rest = after_label(e.0, w);
        if has_edge(part, p, e.0, e.1) {
            lemma_exit_path(t, part, acc, a, lo, hi, e.1, rest, (n - 1) as nat);
            lemma_connects_step(part, p, e.0, e.1, rest, acc);
        } else {
            lemma_reach_stuck(t, a, rest, a, (n - 1) as nat);
            assert(w =~= Seq::<char>::empty());
            lemma_connects_self(part, acc);
        }
    }
}

/// Whether the automaton for either of `l` and `r`, with the new states `s`
/// and `a`, has the transition from `p` to `q` labelled `lab`.
pub open spec fn alt_edge(
    l: NfaView,
    r: NfaView,
    s: State,
    a: State,
    p: State,
    lab: Label,
    q: State,
) -> bool {
    ||| has_edge(l.transitions, p, lab, q)
    ||| has_edge(r.transitions, p, lab, q)
    ||| (p == s && lab is None && (q == l.start || q == r.start))
    ||| ((p == l.accept || p == r.accept) && lab is None && q == a)
}

/// The transitions of the automaton for either of `l` and `r`.
pub proof fn lemma_alt_edges(
    l: NfaView,
    r: NfaView,
    s: State,
    a: State,
    lo: int,
    mid: int,
    hi: int,
    p: State,
    lab: Label,
    q: State,
)
    requires
        within(l.transitions, lo, mid),
        within(r.transitions, mid, hi),
    ensures
        has_edge(alt_nfa(l, r, s, a).transitions, p, lab, q) <==> alt_edge(l, r, s, a, p, lab, q),
        alt_nfa(l, r, s, a).transitions.dom() == l.transitions.dom().union(
            r.transitions.dom(),
        ).insert(s).insert(l.accept).insert(r.accept),
{
    let t0 = l.transitions.union_prefer_right(r.transitions);
    let t1 = add_edge(t0, s, None, l.start);
    let t2 = add_edge(t1, s, None, r.start);
    let t3 = add_edge(t2, l.accept, None, a);
    lemma_union_edge(l.transitions, r.transitions, p, lab, q);
    lemma_add_edge(t0, s, None, l.start, p, lab, q);
    lemma_add_edge(t1, s, None, r.start, p, lab, q);
    lemma_add_edge(t2, l.accept, None, a, p, lab, q);
    lemma_add_edge(t3, r.accept, None, a, p, lab, q);
    assert(alt_nfa(l, r, s, a).transitions.dom() =~= l.transitions.dom().union(
        r.transitions.dom(),
    ).insert(s).insert(l.accept).insert(r.accept));
}

/// The automaton for either of `l` and `r` accepts the words of `l` and
/// those of `r`, and nothing else.
pub proof fn lemma_alt(
    l: NfaView,
    r: NfaView,
    rl: Regex,
    rr: Regex,
    lo: int,
    mid: int,
    hi: int,
    s: State,
    a: State,
)
    requires
        frag_within(l, lo, mid),
        frag_within(r, mid, hi),
        speaks(l, rl),
        speaks(r, rr),
        s == hi,
        a == hi + 1,
    ensures
        frag_within(alt_nfa(l, r, s, a), lo, hi + 2),
        speaks(alt_nfa(l, r, s, a), Regex::Alt(Box::new(rl), Box::new(rr))),
{
    let f = alt_nfa(l, r, s, a);
    let t = f.transitions;
    let either = Regex::Alt(Box::new(rl), Box::new(rr));
    assert forall|x: State, lab: Label, y: State| #[trigger]
        has_edge(t, x, lab, y) <==> alt_edge(l, r, s, a, x, lab, y) by {
        lemma_alt_edges(l, r, s, a, lo, mid, hi, x, lab, y);
    }
    lemma_alt_edges(l, r, s, a, lo, mid, hi, s, None, s);
    assert(sub_graph(l.transitions, t));
    assert(sub_graph(r.transitions, t));
    assert(within(t, lo, hi + 2)) by {
        assert forall|x: State, lab: Label, y: State| #[trigger]
            has_edge(t, x, lab, y) implies lo <= y < hi + 2 by {
            assert(alt_edge(l, r, s, a, x, lab, y));
        }
    }
    assert forall|lab: Label, y: State| !has_edge(t, a, lab, y) by {
        if has_edge(t, a, lab, y) {
            assert(alt_edge(l, r, s, a, a, lab, y));
            assert(t.dom().contains(a));
        }
    }
    assert forall|x: State, lab: Label, y: State|
        lo <= x < mid && #[trigger] has_edge(t, x, lab, y) implies has_edge(
        l.transitions,
        x,
        lab,
        y,
    ) || (x == l.accept && lab is None && y == a) by {
        assert(alt_edge(l, r, s, a, x, lab, y));
        if has_edge(r.transitions, x, lab, y) {
            assert(r.transitions.dom().contains(x));
        }
    }
    assert forall|x: State, lab: Label, y: State|
        mid <= x < hi && #[trigger] has_edge(t, x, lab, y) implies has_edge(
        r.transitions,
        x,
        lab,
        y,
    ) || (x == r.accept && lab is None && y == a) by {
        assert(alt_edge(l, r, s, a, x, lab, y));
        if has_edge(l.transitions, x, lab, y) {
            assert(l.transitions.dom().contains(x));
        }
    }
    assert forall|w: Seq<char>| f.accepts(w) <==> in_lang(either, w) by {
        if f.accepts(w) {
            let n = choose|n: nat| reach(t, s, w, a, n);
            let e = lemma_reach_first(t, s, w, a, n);
            assert(alt_edge(l, r, s, a, s, e.0, e.1));
            if has_edge(l.transitions, s, e.0, e.1) {
                assert(l.transitions.dom().contains(s));
            }
            if has_edge(r.transitions, s, e.0, e.1) {
                assert(r.transitions.dom().contains(s));
            }
            assert(e.0 is None);
            if e.1 == l.start {
                lemma_exit_path(t, l.transitions, l.accept, a, lo, mid, l.start, w, (n - 1) as nat);
                assert(l.accepts(w));
            } else {
                lemma_exit_path(t, r.transitions, r.accept, a, mid, hi, r.start, w, (n - 1) as nat);
                assert(r.accepts(w));
            }
        }
        if in_lang(rl, w) {
            assert(l.accepts(w));
            lemma_connects_mono(l.transitions, t, l.start, w, l.accept);
            lemma_alt_tail(t, s, l.start, w, l.accept, a);
        }
        if in_lang(rr, w) {
            assert(r.accepts(w));
            lemma_connects_mono(r.transitions, t, r.start, w, r.accept);
            lemma_alt_tail(t, s, r.start, w, r.accept, a);
        }
    }
}

/// A path with a transition without a character before it and another
/// after it spells the same word.
pub proof fn lemma_alt_tail(t: Graph, s: State, p: State, w: Seq<char>, q: State, a: State)
    requires
        has_edge(t, s, None, p),
        connects(t, p, w, q),
        has_edge(t, q, None, a),
    ensures
        connects(t, s, w, a),
{
    let e = Seq::<char>::empty();
    lemma_connects_self(t, a);
    lemma_connects_step(t, q, None, a, e, a);
    lemma_connects_append(t, p, w, q, label_word(None) + e, a);
    lemma_connects_step(t, s, None, p, w + (label_word(None) + e), a);
    assert(label_word(None) + (w + (label_word(None) + e)) =~= w);
}

/// Whether the automaton for `x` repeated, with the new states `s` and
/// `a`, has the transition from `p` to `q` labelled `lab`.
pub open spec fn star_edge(x: NfaView, s: State, a: State, p: State, lab: Label, q: State) -> bool {
    ||| has_edge(x.transitions, p, lab, q)
    ||| (p == s && lab is None && (q == x.start || q == a))
    ||| (p == x.accept && lab is None && (q == x.start || q == a))
}

/// The transitions of the automaton for `x` repeated.
pub proof fn lemma_star_edges(x: NfaView, s: State, a: State, p: State, lab: Label, q: State)
    ensures
        has_edge(star_nfa(x, s, a).transitions, p, lab, q) <==> star_edge(x, s, a, p, lab, q),
        star_nfa(x, s, a).transitions.dom() == x.transitions.dom().insert(s).insert(x.accept),
{
    let t1 = add_edge(x.transitions, s, None, x.start);
    let t2 = add_edge(t1, s, None, a);
    let t3 = add_edge(t2, x.accept, None, x.start);
    lemma_add_edge(x.transitions, s, None, x.start, p, lab, q);
    lemma_add_edge(t1, s, None, a, p, lab, q);
    lemma_add_edge(t2, x.accept, None, x.start, p, lab, q);
    lemma_add_edge(t3, x.accept, None, a, p, lab, q);
    assert(star_nfa(x, s, a).transitions.dom() =~= x.transitions.dom().insert(s).insert(
        x.accept,
    ));
}

/// A word of `rx` followed by words of `rx` repeated is one of `rx`
/// repeated.
pub proof fn lemma_star_more(rx: Regex, w: Seq<char>, k: int)
    requires
        0 <= k <= w.len(),
        in_lang(rx, w.take(k)),
        in_lang(Regex::Star(Box::new(rx)), w.skip(k)),
    ensures
        in_lang(Regex::Star(Box::new(rx)), w),
{
    if k == 0 {
        assert(w.skip(0) =~= w);
    }
}

/// A path through the automaton for `x` repeated, from a state of `x` to
/// the new accepting state, is a path of `x` to where `x` accepts, and then
/// words of `x` repeated: where the word is to be cut.
pub proof fn lemma_star_split(
    t: Graph,
    x: NfaView,
    rx: Regex,
    s: State,
    a: State,
    lo: int,
    hi: int,
    p: State,
    w: Seq<char>,
    n: nat,
) -> (k: int)
    requires
        frag_within(x, lo, hi),
        speaks(x, rx),
        s == hi,
        a == hi + 1,
        forall|u: State, lab: Label, y: State| #[trigger]
            has_edge(t, u, lab, y) <==> star_edge(x, s, a, u, lab, y),
        lo <= p < hi,
        reach(t, p, w, a, n),
    ensures
        0 <= k <= w.len(),
        connects(x.transitions, p, w.take(k), x.accept),
        in_lang(Regex::Star(Box::new(rx)), w.skip(k)),
    decreases n,
{
    if n == 0 {
        assert(false);
        0
    } else {
        let e = lemma_reach_first(t, p, w, a, n);
        let rest = after_label(e.0, w);
        assert(star_edge(x, s, a, p, e.0, e.1));
        if has_edge(x.transitions, p, e.0, e.1) {
            let k1 = lemma_star_split(t, x, rx, s, a, lo, hi, e.1, rest, (n - 1) as nat);
            let k = if e.0 is Some {
                k1 + 1
            } else {
                k1
            };
            lemma_connects_step(x.transitions, p, e.0, e.1, rest.take(k1), x.accept);
            assert(label_word(e.0) + rest.take(k1) =~= w.take(k));
            assert(rest.skip(k1) =~= w.skip(k));
            k
        } else {
            lemma_connects_self(x.transitions, x.accept);
            assert(w.take(0) =~= Seq::<char>::empty());
            assert(w.skip(0) =~= w);
            if e.1 == a {
                assert forall|lab: Label, y: State| !has_edge(t, a, lab, y) by {
                    if has_edge(t, a, lab, y) {
                        assert(star_edge(x, s, a, a, lab, y));
                        assert(x.transitions.dom().contains(a));
                    }
                }
                lemma_reach_stuck(t, a, rest, a, (n - 1) as nat);
            } else {
                let k1 = lemma_star_split(t, x, rx, s, a, lo, hi, x.start, w, (n - 1) as nat);
                assert(x.accepts(w.take(k1)));
                lemma_star_more(rx, w, k1);
            }
            0
        }
    }
}

/// From where `x` accepts, the automaton for `x` repeated reads words of
/// `x` repeated and comes to its accepting state.
pub proof fn lemma_star_loop(t: Graph, x: NfaView, rx: Regex, a: State, w: Seq<char>)
    requires
        speaks(x, rx),
        sub_graph(x.transitions, t),
        has_edge(t, x.accept, None, x.start),
        has_edge(t, x.accept, None, a),
        in_lang(Regex::Star(Box::new(rx)), w),
    ensures
        connects(t, x.accept, w, a),
    decreases w.len(),
{
    let e = Seq::<char>::empty();
    if w.len() == 0 {
        lemma_connects_self(t, a);
        lemma_connects_step(t, x.accept, None, a, e, a);
        assert(label_word(None) + e =~= w);
    } else {
        let k = choose|k: int|
            0 < k <= w.len() && in_lang(rx, #[trigger] w.take(k)) && in_lang(
                Regex::Star(Box::new(rx)),
                w.skip(k),
            );
        assert(x.accepts(w.take(k)));
        lemma_connects_mono(x.transitions, t, x.start, w.take(k), x.accept);
        lemma_star_loop(t, x, rx, a, w.skip(k));
        lemma_connects_append(t, x.start, w.take(k), x.accept, w.skip(k), a);
        lemma_connects_step(t, x.accept, None, x.start, w.take(k) + w.skip(k), a);
        assert(label_word(None) + (w.take(k) + w.skip(k)) =~= w);
    }
}

/// The automaton for `x` repeated accepts any number of words of `x` in a
/// row, and nothing else.
pub proof fn lemma_star(x: NfaView, rx: Regex, lo: int, hi: int, s: State, a: State)
    requires
        frag_within(x, lo, hi),
        speaks(x, rx),
        s == hi,
        a == hi + 1,
    ensures
        frag_within(star_nfa(x, s, a), lo, hi + 2),
        speaks(star_nfa(x, s, a), Regex::Star(Box::new(rx))),
{
    let f = star_nfa(x, s, a);
    let t = f.transitions;
    let star = Regex::Star(Box::new(rx));
    let e = Seq::<char>::empty();
    assert forall|u: State, lab: Label, y: State| #[trigger]
        has_edge(t, u, lab, y) <==> star_edge(x, s, a, u, lab, y) by {
        lemma_star_edges(x, s, a, u, lab, y);
    }
    lemma_star_edges(x, s, a, s, None, s);
    assert(sub_graph(x.transitions, t));
    assert(within(t, lo, hi + 2)) by {
        assert forall|u: State, lab: Label, y: State| #[trigger]
            has_edge(t, u, lab, y) implies lo <= y < hi + 2 by {
            assert(star_edge(x, s, a, u, lab, y));
        }
    }
    assert forall|w: Seq<char>| f.accepts(w) <==> in_lang(star, w) by {
        if f.accepts(w) {
            let n = choose|n: nat| reach(t, s, w, a, n);
            let first = lemma_reach_first(t, s, w, a, n);
            assert(star_edge(x, s, a, s, first.0, first.1));
            if has_edge(x.transitions, s, first.0, first.1) {
                assert(x.transitions.dom().contains(s));
            }
            assert(first.0 is None);
            if first.1 == a {
                assert forall|lab: Label, y: State| !has_edge(t, a, lab, y) by {
                    if has_edge(t, a, lab, y) {
                        assert(star_edge(x, s, a, a, lab, y));
                        assert(x.transitions.dom().contains(a));
                    }
                }
                lemma_reach_stuck(t, a, w, a, (n - 1) as nat);
            } else {
                let k = lemma_star_split(t, x, rx, s, a, lo, hi, x.start, w, (n - 1) as nat);
                assert(x.accepts(w.take(k)));
                lemma_star_more(rx, w, k);
            }
        }
        if in_lang(star, w) {
            if w.len() == 0 {
                lemma_connects_self(t, a);
                lemma_connects_step(t, s, None, a, e, a);
                assert(label_word(None) + e =~= w);
            } else {
                let k = choose|k: int|
                    0 < k <= w.len() && in_lang(rx, #[trigger] w.take(k)) && in_lang(
                        star,
                        w.skip(k),
                    );
                assert(x.accepts(w.take(k)));
                lemma_connects_mono(x.transitions, t, x.start, w.take(k), x.accept);
                lemma_star_loop(t, x, rx, a, w.skip(k));
                lemma_connects_append(t, x.start, w.take(k), x.accept, w.skip(k), a);
                lemma_connects_step(t, s, None, x.start, w.take(k) + w.skip(k), a);
                assert(label_word(None) + (w.take(k) + w.skip(k)) =~= w);
            }
        }
    }
}

/// The automaton that Thompson's construction builds for `r` accepts the
/// words that `r` stands for, and no others. Its states are the numbers
/// from `n` on, as many as `states_of(r)` says, and it starts in another
/// state than it accepts in.
pub proof fn lemma_thompson(r: Regex, n: State)
    requires
        n + states_of(r) <= usize::MAX,
    ensures
        frag_within(thompson(r, n), n as int, n + states_of(r)),
        speaks(thompson(r, n), r),
    decreases r,
{
    match r {
        Regex::Lit(c) => {
            lemma_lit(c, n, (n + 1) as State);
        },
        Regex::Cat(a, b) => {
            let mid = (n + states_of(*a)) as State;
            lemma_thompson(*a, n);
            lemma_thompson(*b, mid);
            lemma_cat(
                thompson(*a, n),
                thompson(*b, mid),
                *a,
                *b,
                n as int,
                mid as int,
                mid + states_of(*b),
            );
        },
        Regex::Alt(a, b) => {
            let mid = (n + states_of(*a)) as State;
            let hi = (mid + states_of(*b)) as State;
            lemma_thompson(*a, n);
            lemma_thompson(*b, mid);
            lemma_alt(
                thompson(*a, n),
                thompson(*b, mid),
                *a,
                *b,
                n as int,
                mid as int,
                hi as int,
                hi,
                (hi + 1) as State,
            );
        },
        Regex::Star(a) => {
            let hi = (n + states_of(*a)) as State;
            lemma_thompson(*a, n);
            lemma_star(thompson(*a, n), *a, n as int, hi as int, hi, (hi + 1) as State);
        },
    }
}

} // verus!
