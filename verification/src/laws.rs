//! What holds of every pattern, or of every input to some patterns.

use crate::grammar::{
    advanced, concat_ends, concat_with, is_literal, parse_alt_at, parse_alt_from, parse_concat_at,
    lemma_alt_advances, lemma_primary_advances, parse_concat_from, parse_pattern,
    parse_primary_at, parse_rep_at, peek_at, CompileError,
};
use crate::nfa::Nfa;
use crate::{compiled, pattern_matches};
use crate::regex::{in_lang, Regex};
use vstd::prelude::*;

verus! {

/// The pattern of two literals with `|` between them stands for the two
/// words of one character each, and for nothing else.
pub proof fn lemma_either_literal(a: char, b: char, w: Seq<char>)
    requires
        is_literal(a),
        is_literal(b),
    ensures
        parse_pattern(seq![a, '|', b]) == Ok::<Regex, CompileError>(
            Regex::Alt(Box::new(Regex::Lit(a)), Box::new(Regex::Lit(b))),
        ),
        pattern_matches(seq![a, '|', b], w) == Ok::<bool, CompileError>(
            w == seq![a] || w == seq![b],
        ),
{
    let p = seq![a, '|', b];
    assert(parse_primary_at(p, 0) == Ok::<(Regex, int), CompileError>((Regex::Lit(a), 1)));
    assert(parse_rep_at(p, 0) == Ok::<(Regex, int), CompileError>((Regex::Lit(a), 1)));
    assert(parse_concat_from(p, 1, Some(Regex::Lit(a))) == Ok::<(Regex, int), CompileError>(
        (Regex::Lit(a), 1),
    ));
    assert(parse_concat_at(p, 0) == Ok::<(Regex, int), CompileError>((Regex::Lit(a), 1)));
    assert(parse_primary_at(p, 2) == Ok::<(Regex, int), CompileError>((Regex::Lit(b), 3)));
    assert(parse_rep_at(p, 2) == Ok::<(Regex, int), CompileError>((Regex::Lit(b), 3)));
    assert(parse_concat_from(p, 3, Some(Regex::Lit(b))) == Ok::<(Regex, int), CompileError>(
        (Regex::Lit(b), 3),
    ));
    assert(parse_concat_at(p, 2) == Ok::<(Regex, int), CompileError>((Regex::Lit(b), 3)));
    let both = Regex::Alt(Box::new(Regex::Lit(a)), Box::new(Regex::Lit(b)));
    assert(parse_alt_from(p, 3, both) == Ok::<(Regex, int), CompileError>((both, 3)));
    assert(parse_alt_from(p, 1, Regex::Lit(a)) == Ok::<(Regex, int), CompileError>((both, 3)));
    assert(parse_alt_at(p, 0) == Ok::<(Regex, int), CompileError>((both, 3)));
    assert(in_lang(both, w) <==> in_lang(Regex::Lit(a), w) || in_lang(Regex::Lit(b), w));
}

/// Whether every character of `p` stands for itself.
pub open spec fn all_literals(p: Seq<char>) -> bool {
    forall|i: int| 0 <= i < p.len() ==> is_literal(#[trigger] p[i])
}

/// The tree of the first `k` characters of `p`, each read as a literal:
/// the first, then each next one appended.
pub open spec fn literal_chain(p: Seq<char>, k: int) -> Regex
    decreases k,
{
    if k <= 1 {
        Regex::Lit(p[0])
    } else {
        Regex::Cat(Box::new(literal_chain(p, k - 1)), Box::new(Regex::Lit(p[k - 1])))
    }
}

/// Reading on in a pattern of literals appends them one by one.
pub proof fn lemma_chain_parse(p: Seq<char>, pos: int)
    requires
        all_literals(p),
        1 <= pos <= p.len(),
    ensures
        parse_concat_from(p, pos, Some(literal_chain(p, pos))) == Ok::<
            (Regex, int),
            CompileError,
        >((literal_chain(p, p.len() as int), p.len() as int)),
    decreases p.len() - pos,
{
    if pos < p.len() {
        let c = p[pos];
        assert(is_literal(c));
        if pos + 1 < p.len() {
            assert(is_literal(p[pos + 1]));
        }
        assert(parse_primary_at(p, pos) == Ok::<(Regex, int), CompileError>(
            (Regex::Lit(c), pos + 1),
        ));
        assert(parse_rep_at(p, pos) == Ok::<(Regex, int), CompileError>(
            (Regex::Lit(c), pos + 1),
        ));
        assert(concat_with(Some(literal_chain(p, pos)), Regex::Lit(c)) == literal_chain(
            p,
            pos + 1,
        ));
        lemma_chain_parse(p, pos + 1);
    }
}

/// The tree of literals stands for the word that they spell.
pub proof fn lemma_chain_lang(p: Seq<char>, k: int, w: Seq<char>)
    requires
        1 <= k <= p.len(),
    ensures
        in_lang(literal_chain(p, k), w) <==> w == p.take(k),
    decreases k,
{
    if k == 1 {
        assert(p.take(1) =~= seq![p[0]]);
    } else {
        let head = literal_chain(p, k - 1);
        let last = Regex::Lit(p[k - 1]);
        if in_lang(literal_chain(p, k), w) {
            let j = choose|j: int|
                0 <= j <= w.len() && in_lang(head, #[trigger] w.take(j)) && in_lang(
                    last,
                    w.skip(j),
                );
            lemma_chain_lang(p, k - 1, w.take(j));
            assert(w =~= w.take(j) + w.skip(j));
            assert(w =~= p.take(k));
        }
        if w == p.take(k) {
            lemma_chain_lang(p, k - 1, w.take(k - 1));
            assert(w.take(k - 1) =~= p.take(k - 1));
            assert(w.skip(k - 1) =~= seq![p[k - 1]]);
            assert(in_lang(head, w.take(k - 1)) && in_lang(last, w.skip(k - 1)));
        }
    }
}

/// A pattern made of literals alone stands for one word: the pattern itself.
pub proof fn lemma_literals_match_themselves(p: Seq<char>, w: Seq<char>)
    requires
        p.len() > 0,
        all_literals(p),
    ensures
        parse_pattern(p) == Ok::<Regex, CompileError>(literal_chain(p, p.len() as int)),
        pattern_matches(p, w) == Ok::<bool, CompileError>(w == p),
{
    let n = p.len() as int;
    let c = p[0];
    assert(is_literal(c));
    if 1 < p.len() {
        assert(is_literal(p[1]));
    }
    assert(parse_primary_at(p, 0) == Ok::<(Regex, int), CompileError>((Regex::Lit(c), 1)));
    assert(parse_rep_at(p, 0) == Ok::<(Regex, int), CompileError>((Regex::Lit(c), 1)));
    assert(concat_with(None, Regex::Lit(c)) == literal_chain(p, 1));
    lemma_chain_parse(p, 1);
    let chain = literal_chain(p, n);
    assert(parse_concat_at(p, 0) == Ok::<(Regex, int), CompileError>((chain, n)));
    assert(parse_alt_from(p, n, chain) == Ok::<(Regex, int), CompileError>((chain, n)));
    assert(parse_alt_at(p, 0) == Ok::<(Regex, int), CompileError>((chain, n)));
    lemma_chain_lang(p, n, w);
    assert(p.take(n) =~= p);
}

/// Where `r` stands for words of one character, each a character that
/// `ok` holds of, `r` repeated stands for the words made of such characters.
pub proof fn lemma_star_of_chars(r: Regex, ok: spec_fn(char) -> bool, w: Seq<char>)
    requires
        forall|u: Seq<char>| #[trigger] in_lang(r, u) <==> u.len() == 1 && ok(u[0]),
    ensures
        in_lang(Regex::Star(Box::new(r)), w) <==> forall|i: int|
            0 <= i < w.len() ==> ok(#[trigger] w[i]),
    decreases w.len(),
{
    let star = Regex::Star(Box::new(r));
    if w.len() > 0 {
        let rest = w.skip(1);
        lemma_star_of_chars(r, ok, rest);
        if in_lang(star, w) {
            let k = choose|k: int|
                0 < k <= w.len() && in_lang(r, #[trigger] w.take(k)) && in_lang(star, w.skip(k));
            assert(w.take(k).len() == 1);
            assert(w.take(k)[0] == w[0]);
            assert forall|i: int| 0 <= i < w.len() implies ok(#[trigger] w[i]) by {
                if i > 0 {
                    assert(rest[i - 1] == w[i]);
                }
            }
        }
        if forall|i: int| 0 <= i < w.len() ==> ok(#[trigger] w[i]) {
            assert(ok(w[0]));
            assert(w.take(1).len() == 1 && w.take(1)[0] == w[0]);
            assert forall|i: int| 0 <= i < rest.len() implies ok(#[trigger] rest[i]) by {
                assert(rest[i] == w[i + 1]);
            }
            assert(0 < 1 <= w.len() && in_lang(r, w.take(1)) && in_lang(star, w.skip(1)));
        }
    }
}

/// The pattern of a literal and `*` stands for the words made of that
/// character alone, the empty word among them.
pub proof fn lemma_star_literal(a: char, w: Seq<char>)
    requires
        is_literal(a),
    ensures
        parse_pattern(seq![a, '*']) == Ok::<Regex, CompileError>(
            Regex::Star(Box::new(Regex::Lit(a))),
        ),
        pattern_matches(seq![a, '*'], w) == Ok::<bool, CompileError>(
            forall|i: int| 0 <= i < w.len() ==> #[trigger] w[i] == a,
        ),
{
    let p = seq![a, '*'];
    let star = Regex::Star(Box::new(Regex::Lit(a)));
    assert(parse_primary_at(p, 0) == Ok::<(Regex, int), CompileError>((Regex::Lit(a), 1)));
    assert(parse_rep_at(p, 0) == Ok::<(Regex, int), CompileError>((star, 2)));
    assert(parse_concat_from(p, 2, Some(star)) == Ok::<(Regex, int), CompileError>((star, 2)));
    assert(parse_concat_at(p, 0) == Ok::<(Regex, int), CompileError>((star, 2)));
    assert(parse_alt_from(p, 2, star) == Ok::<(Regex, int), CompileError>((star, 2)));
    assert(parse_alt_at(p, 0) == Ok::<(Regex, int), CompileError>((star, 2)));
    let ok = |c: char| c == a;
    assert forall|u: Seq<char>| #[trigger]
        in_lang(Regex::Lit(a), u) <==> u.len() == 1 && ok(u[0]) by {
        if u.len() == 1 && u[0] == a {
            assert(u =~= seq![a]);
        }
    }
    lemma_star_of_chars(Regex::Lit(a), ok, w);
    assert((forall|i: int| 0 <= i < w.len() ==> ok(#[trigger] w[i])) <==> (forall|i: int|
        0 <= i < w.len() ==> #[trigger] w[i] == a));
}

/// The pattern of two literals with `|` between them, in parentheses and
/// with `*` behind, stands for the words made of those two characters, the
/// empty word among them.
pub proof fn lemma_star_either_literal(a: char, b: char, w: Seq<char>)
    requires
        is_literal(a),
        is_literal(b),
    ensures
        parse_pattern(seq!['(', a, '|', b, ')', '*']) == Ok::<Regex, CompileError>(
            Regex::Star(
                Box::new(Regex::Alt(Box::new(Regex::Lit(a)), Box::new(Regex::Lit(b)))),
            ),
        ),
        pattern_matches(seq!['(', a, '|', b, ')', '*'], w) == Ok::<bool, CompileError>(
            forall|i: int| 0 <= i < w.len() ==> #[trigger] w[i] == a || w[i] == b,
        ),
{
    let p = seq!['(', a, '|', b, ')', '*'];
    let la = Regex::Lit(a);
    let lb = Regex::Lit(b);
    let both = Regex::Alt(Box::new(la), Box::new(lb));
    let star = Regex::Star(Box::new(both));
    assert(parse_primary_at(p, 1) == Ok::<(Regex, int), CompileError>((la, 2)));
    assert(parse_rep_at(p, 1) == Ok::<(Regex, int), CompileError>((la, 2)));
    assert(parse_concat_from(p, 2, Some(la)) == Ok::<(Regex, int), CompileError>((la, 2)));
    assert(parse_concat_at(p, 1) == Ok::<(Regex, int), CompileError>((la, 2)));
    assert(parse_primary_at(p, 3) == Ok::<(Regex, int), CompileError>((lb, 4)));
    assert(parse_rep_at(p, 3) == Ok::<(Regex, int), CompileError>((lb, 4)));
    assert(parse_concat_from(p, 4, Some(lb)) == Ok::<(Regex, int), CompileError>((lb, 4)));
    assert(parse_concat_at(p, 3) == Ok::<(Regex, int), CompileError>((lb, 4)));
    assert(parse_alt_from(p, 4, both) == Ok::<(Regex, int), CompileError>((both, 4)));
    assert(parse_alt_from(p, 2, la) == Ok::<(Regex, int), CompileError>((both, 4)));
    assert(parse_alt_at(p, 1) == Ok::<(Regex, int), CompileError>((both, 4)));
    assert(parse_primary_at(p, 0) == Ok::<(Regex, int), CompileError>((both, 5)));
    assert(parse_rep_at(p, 0) == Ok::<(Regex, int), CompileError>((star, 6)));
    assert(parse_concat_from(p, 6, Some(star)) == Ok::<(Regex, int), CompileError>((star, 6)));
    assert(parse_concat_at(p, 0) == Ok::<(Regex, int), CompileError>((star, 6)));
    assert(parse_alt_from(p, 6, star) == Ok::<(Regex, int), CompileError>((star, 6)));
    assert(parse_alt_at(p, 0) == Ok::<(Regex, int), CompileError>((star, 6)));
    let ok = |c: char| c == a || c == b;
    assert forall|u: Seq<char>| #[trigger] in_lang(both, u) <==> u.len() == 1 && ok(u[0]) by {
        assert(in_lang(both, u) <==> in_lang(la, u) || in_lang(lb, u));
        if u.len() == 1 && u[0] == a {
            assert(u =~= seq![a]);
        }
        if u.len() == 1 && u[0] == b {
            assert(u =~= seq![b]);
        }
    }
    lemma_star_of_chars(both, ok, w);
    assert((forall|i: int| 0 <= i < w.len() ==> ok(#[trigger] w[i])) <==> (forall|i: int|
        0 <= i < w.len() ==> #[trigger] w[i] == a || w[i] == b));
}

/// The pattern `p` in parentheses.
pub open spec fn grouped(p: Seq<char>) -> Seq<char> {
    seq!['('] + p + seq![')']
}

/// A primary that can be read in `p` reads the same inside the parentheses.
pub proof fn lemma_group_primary(p: Seq<char>, pos: int)
    requires
        0 <= pos,
        parse_primary_at(p, pos) is Ok,
    ensures
        parse_primary_at(grouped(p), pos + 1) == Ok::<(Regex, int), CompileError>(
            (parse_primary_at(p, pos)->Ok_0.0, parse_primary_at(p, pos)->Ok_0.1 + 1),
        ),
    decreases p.len() - pos, 0int,
{
    let s = grouped(p);
    assert(s[pos + 1] == p[pos]);
    if p[pos] == '(' {
        lemma_group_alt(p, pos + 1);
        let end = parse_alt_at(p, pos + 1)->Ok_0.1;
        assert(s[end + 1] == p[end]);
    }
}

/// A repetition that can be read in `p` reads the same inside the
/// parentheses.
pub proof fn lemma_group_rep(p: Seq<char>, pos: int)
    requires
        0 <= pos,
        parse_rep_at(p, pos) is Ok,
    ensures
        parse_rep_at(grouped(p), pos + 1) == Ok::<(Regex, int), CompileError>(
            (parse_rep_at(p, pos)->Ok_0.0, parse_rep_at(p, pos)->Ok_0.1 + 1),
        ),
    decreases p.len() - pos, 1int,
{
    let s = grouped(p);
    lemma_group_primary(p, pos);
    lemma_primary_advances(p, pos);
    let end = parse_primary_at(p, pos)->Ok_0.1;
    if end < p.len() {
        assert(s[end + 1] == p[end]);
    } else {
        assert(s[end + 1] == ')');
    }
}

/// The rest of a concatenation that can be read in `p` reads the same
/// inside the parentheses.
pub proof fn lemma_group_concat_from(p: Seq<char>, pos: int, acc: Option<Regex>)
    requires
        0 <= pos <= p.len(),
        parse_concat_from(p, pos, acc) is Ok,
    ensures
        parse_concat_from(grouped(p), pos + 1, acc) == Ok::<(Regex, int), CompileError>(
            (parse_concat_from(p, pos, acc)->Ok_0.0, parse_concat_from(p, pos, acc)->Ok_0.1 + 1),
        ),
    decreases p.len() - pos, 2int,
{
    let s = grouped(p);
    if pos < p.len() {
        assert(s[pos + 1] == p[pos]);
    } else {
        assert(s[pos + 1] == ')');
    }
    if !concat_ends(p, pos) {
        lemma_group_rep(p, pos);
        let r = parse_rep_at(p, pos)->Ok_0.0;
        let end = parse_rep_at(p, pos)->Ok_0.1;
        assert(advanced(s, pos + 1, end + 1));
        lemma_group_concat_from(p, end, Some(concat_with(acc, r)));
    }
}

/// A concatenation that can be read in `p` reads the same inside the
/// parentheses.
pub proof fn lemma_group_concat(p: Seq<char>, pos: int)
    requires
        0 <= pos,
        parse_concat_at(p, pos) is Ok,
    ensures
        parse_concat_at(grouped(p), pos + 1) == Ok::<(Regex, int), CompileError>(
            (parse_concat_at(p, pos)->Ok_0.0, parse_concat_at(p, pos)->Ok_0.1 + 1),
        ),
    decreases p.len() - pos, 3int,
{
    lemma_group_concat_from(p, pos, None);
}

/// The rest of an alternation that can be read in `p` reads the same
/// inside the parentheses.
pub proof fn lemma_group_alt_from(p: Seq<char>, pos: int, left: Regex)
    requires
        0 <= pos <= p.len(),
        parse_alt_from(p, pos, left) is Ok,
    ensures
        parse_alt_from(grouped(p), pos + 1, left) == Ok::<(Regex, int), CompileError>(
            (parse_alt_from(p, pos, left)->Ok_0.0, parse_alt_from(p, pos, left)->Ok_0.1 + 1),
        ),
    decreases p.len() - pos, 4int,
{
    let s = grouped(p);
    if pos < p.len() {
        assert(s[pos + 1] == p[pos]);
    } else {
        assert(s[pos + 1] == ')');
    }
    if peek_at(p, pos) == Some('|') {
        lemma_group_concat(p, pos + 1);
        let r = parse_concat_at(p, pos + 1)->Ok_0.0;
        let end = parse_concat_at(p, pos + 1)->Ok_0.1;
        assert(advanced(s, pos + 1, end + 1));
        lemma_group_alt_from(p, end, Regex::Alt(Box::new(left), Box::new(r)));
    }
}

/// An alternation that can be read in `p` reads the same inside the
/// parentheses.
pub proof fn lemma_group_alt(p: Seq<char>, pos: int)
    requires
        0 <= pos,
        parse_alt_at(p, pos) is Ok,
    ensures
        parse_alt_at(grouped(p), pos + 1) == Ok::<(Regex, int), CompileError>(
            (parse_alt_at(p, pos)->Ok_0.0, parse_alt_at(p, pos)->Ok_0.1 + 1),
        ),
    decreases p.len() - pos, 5int,
{
    let s = grouped(p);
    lemma_group_concat(p, pos);
    let l = parse_concat_at(p, pos)->Ok_0.0;
    let end = parse_concat_at(p, pos)->Ok_0.1;
    assert(advanced(s, pos + 1, end + 1));
    lemma_group_alt_from(p, end, l);
}

/// Parentheses round a whole pattern change nothing: the pattern in
/// parentheses is a pattern too, with the same tree, and so stands for the
/// same words.
pub proof fn lemma_group_is_transparent(p: Seq<char>, w: Seq<char>)
    requires
        parse_pattern(p) is Ok,
    ensures
        parse_pattern(grouped(p)) == parse_pattern(p),
        pattern_matches(grouped(p), w) == pattern_matches(p, w),
{
    let s = grouped(p);
    let n = p.len() as int;
    let r = parse_alt_at(p, 0)->Ok_0.0;
    lemma_alt_advances(p, 0);
    assert(parse_alt_at(p, 0)->Ok_0.1 == n);
    lemma_group_alt(p, 0);
    assert(s[0] == '(');
    assert(s[n + 1] == ')');
    assert(parse_alt_at(s, 1) == Ok::<(Regex, int), CompileError>((r, n + 1)));
    assert(parse_primary_at(s, 0) == Ok::<(Regex, int), CompileError>((r, n + 2)));
    assert(parse_rep_at(s, 0) == Ok::<(Regex, int), CompileError>((r, n + 2)));
    assert(parse_concat_from(s, n + 2, Some(r)) == Ok::<(Regex, int), CompileError>(
        (r, n + 2),
    ));
    assert(parse_concat_at(s, 0) == Ok::<(Regex, int), CompileError>((r, n + 2)));
    assert(parse_alt_from(s, n + 2, r) == Ok::<(Regex, int), CompileError>((r, n + 2)));
    assert(parse_alt_at(s, 0) == Ok::<(Regex, int), CompileError>((r, n + 2)));
}

/// Compiling is a function of the pattern: two results for one pattern are
/// both automata or both the same error, and two automata have the same
/// states and transitions and accept the same words.
pub proof fn lemma_compiled_once(
    pattern: Seq<char>,
    one: Result<Nfa, CompileError>,
    two: Result<Nfa, CompileError>,
)
    requires
        compiled(pattern, one),
        compiled(pattern, two),
    ensures
        one is Ok <==> two is Ok,
        one is Err ==> one->Err_0 == two->Err_0,
        one is Ok ==> one->Ok_0@ == two->Ok_0@,
        one is Ok ==> forall|w: Seq<char>|
            one->Ok_0@.accepts(w) <==> #[trigger] two->Ok_0@.accepts(w),
{
}

/// Matching is compiling and then simulating: an automaton compiled from
/// `pattern` accepts `input` just when `pattern` matches it.
pub proof fn lemma_compiled_matches(
    pattern: Seq<char>,
    res: Result<Nfa, CompileError>,
    input: Seq<char>,
)
    requires
        compiled(pattern, res),
    ensures
        pattern_matches(pattern, input) == match res {
            Ok(nfa) => Ok::<bool, CompileError>(nfa@.accepts(input)),
            Err(e) => Err::<bool, CompileError>(e),
        },
{
}

} // verus!
