//! The grammar of patterns, as functions that read a pattern's characters
//! from a position on and say which tree they make, or what is wrong.
//!
//! ```text
//! regex         := alternation
//! alternation   := concatenation ('|' concatenation)*
//! concatenation := repetition+
//! repetition    := primary '*'?
//! primary       := '(' regex ')' | LITERAL
//! ```
//!
//! A literal is any character but `(`, `)`, `|` and `*`.

use crate::nfa::Label;
use crate::regex::Regex;
use vstd::prelude::*;

verus! {

/// Why a pattern cannot be compiled.
#[derive(Debug, Clone, Copy, PartialEq, Eq, Structural)]
pub enum CompileError {
    /// A concatenation was expected and none of its parts is there.
    EmptyExpression,
    /// A literal or `(` was expected where `*`, `|`, `)` or the end stands.
    UnexpectedToken,
    /// A `(` has no `)` where its contents end.
    UnclosedGroup,
    /// Characters are left after the whole expression.
    TrailingInput,
}

impl CompileError {
    /// The error in words, on one line.
    pub fn message(&self) -> (text: String)
        ensures
            text@ == match *self {
                CompileError::EmptyExpression => "Expected expression"@,
                CompileError::UnexpectedToken => "Unexpected token"@,
                CompileError::UnclosedGroup => "Expected ')'"@,
                CompileError::TrailingInput => "Unexpected trailing characters"@,
            },
    {
        match self {
            CompileError::EmptyExpression => "Expected expression".to_string(),
            CompileError::UnexpectedToken => "Unexpected token".to_string(),
            CompileError::UnclosedGroup => "Expected ')'".to_string(),
            CompileError::TrailingInput => "Unexpected trailing characters".to_string(),
        }
    }
}

/// What reading a part of a pattern gives: its tree and the position after
/// it, or the first error met.
pub type Parsed = Result<(Regex, int), CompileError>;

/// The character at `pos`, if the pattern has one there.
pub open spec fn peek_at(s: Seq<char>, pos: int) -> Label {
    if 0 <= pos < s.len() {
        Some(s[pos])
    } else {
        None
    }
}

/// Whether `c` is a character that stands for itself.
pub open spec fn is_literal(c: char) -> bool {
    c != '(' && c != ')' && c != '|' && c != '*'
}

/// Whether a concatenation ends at `pos`: at the end, at `)` or at `|`.
pub open spec fn concat_ends(s: Seq<char>, pos: int) -> bool {
    peek_at(s, pos) is None || peek_at(s, pos) == Some(')') || peek_at(s, pos) == Some('|')
}

/// Whether reading from `pos` to `end` took at least one character and
/// stayed inside the pattern. Reading a part of a pattern always does (see
/// `lemma_parse_advances`); the functions below ask, because that is what
/// shows that they come to an end.
pub open spec fn advanced(s: Seq<char>, pos: int, end: int) -> bool {
    pos < end <= s.len()
}

/// Reads a primary at `pos`: a group in parentheses or a literal.
pub open spec fn parse_primary_at(s: Seq<char>, pos: int) -> Parsed
    decreases s.len() - pos, 0int,
{
    match peek_at(s, pos) {
        None => Err(CompileError::UnexpectedToken),
        Some(c) => if c == '(' {
            match parse_alt_at(s, pos + 1) {
                Err(e) => Err(e),
                Ok((r, end)) => if peek_at(s, end) == Some(')') {
                    Ok((r, end + 1))
                } else {
                    Err(CompileError::UnclosedGroup)
                },
            }
        } else if is_literal(c) {
            Ok((Regex::Lit(c), pos + 1))
        } else {
            Err(CompileError::UnexpectedToken)
        },
    }
}

/// Reads a repetition at `pos`: a primary, and `*` if one follows it.
pub open spec fn parse_rep_at(s: Seq<char>, pos: int) -> Parsed
    decreases s.len() - pos, 1int,
{
    match parse_primary_at(s, pos) {
        Err(e) => Err(e),
        Ok((r, end)) => if peek_at(s, end) == Some('*') {
            Ok((Regex::Star(Box::new(r)), end + 1))
        } else {
            Ok((r, end))
        },
    }
}

/// The concatenation read so far, with one more repetition.
pub open spec fn concat_with(acc: Option<Regex>, r: Regex) -> Regex {
    match acc {
        None => r,
        Some(l) => Regex::Cat(Box::new(l), Box::new(r)),
    }
}

/// Reads the rest of a concatenation at `pos`, of which `acc` has been read:
/// repetitions up to the end, `)` or `|`. There must be one at least.
pub open spec fn parse_concat_from(s: Seq<char>, pos: int, acc: Option<Regex>) -> Parsed
    decreases s.len() - pos, 2int,
{
    if concat_ends(s, pos) {
        match acc {
            None => Err(CompileError::EmptyExpression),
            Some(r) => Ok((r, pos)),
        }
    } else {
        match parse_rep_at(s, pos) {
            Err(e) => Err(e),
            Ok((r, end)) => if advanced(s, pos, end) {
                parse_concat_from(s, end, Some(concat_with(acc, r)))
            } else {
                Err(CompileError::UnexpectedToken)
            },
        }
    }
}

/// Reads a concatenation at `pos`.
pub open spec fn parse_concat_at(s: Seq<char>, pos: int) -> Parsed
    decreases s.len() - pos, 3int,
{
    parse_concat_from(s, pos, None)
}

/// Reads the rest of an alternation at `pos`, of which `left` has been
/// read: as long as `|` follows, one more concatenation.
pub open spec fn parse_alt_from(s: Seq<char>, pos: int, left: Regex) -> Parsed
    decreases s.len() - pos, 4int,
{
    if peek_at(s, pos) == Some('|') {
        match parse_concat_at(s, pos + 1) {
            Err(e) => Err(e),
            Ok((r, end)) => if advanced(s, pos, end) {
                parse_alt_from(s, end, Regex::Alt(Box::new(left), Box::new(r)))
            } else {
                Err(CompileError::UnexpectedToken)
            },
        }
    } else {
        Ok((left, pos))
    }
}

/// Reads an alternation at `pos`, which is what a whole expression is.
pub open spec fn parse_alt_at(s: Seq<char>, pos: int) -> Parsed
    decreases s.len() - pos, 5int,
{
    match parse_concat_at(s, pos) {
        Err(e) => Err(e),
        Ok((l, end)) => if advanced(s, pos, end) {
            parse_alt_from(s, end, l)
        } else {
            Err(CompileError::UnexpectedToken)
        },
    }
}

/// Reads a whole pattern: one expression, and nothing after it.
pub open spec fn parse_pattern(s: Seq<char>) -> Result<Regex, CompileError> {
    match parse_alt_at(s, 0) {
        Err(e) => Err(e),
        Ok((r, end)) => if end < s.len() {
            Err(CompileError::TrailingInput)
        } else {
            Ok(r)
        },
    }
}

/// A primary that can be read takes at least one character and ends
/// inside the pattern.
pub proof fn lemma_primary_advances(s: Seq<char>, pos: int)
    requires
        0 <= pos,
    ensures
        parse_primary_at(s, pos) is Ok ==> advanced(s, pos, parse_primary_at(s, pos)->Ok_0.1),
    decreases s.len() - pos, 0int,
{
    if peek_at(s, pos) == Some('(') {
        lemma_alt_advances(s, pos + 1);
    }
}

/// A repetition that can be read takes at least one character and ends
/// inside the pattern.
pub proof fn lemma_rep_advances(s: Seq<char>, pos: int)
    requires
        0 <= pos,
    ensures
        parse_rep_at(s, pos) is Ok ==> advanced(s, pos, parse_rep_at(s, pos)->Ok_0.1),
    decreases s.len() - pos, 1int,
{
    lemma_primary_advances(s, pos);
}

/// The rest of a concatenation, where it can be read, ends inside the
/// pattern and not before the position it is read from.
pub proof fn lemma_concat_from_advances(s: Seq<char>, pos: int, acc: Option<Regex>)
    requires
        0 <= pos <= s.len(),
    ensures
        parse_concat_from(s, pos, acc) is Ok ==> {
            let end = parse_concat_from(s, pos, acc)->Ok_0.1;
            pos <= end <= s.len() && (acc is None ==> pos < end)
        },
    decreases s.len() - pos, 2int,
{
    if !concat_ends(s, pos) {
        lemma_rep_advances(s, pos);
        match parse_rep_at(s, pos) {
            Ok((r, end)) => {
                lemma_concat_from_advances(s, end, Some(concat_with(acc, r)));
            },
            Err(_) => {},
        }
    }
}

/// A concatenation that can be read takes at least one character and ends
/// inside the pattern.
pub proof fn lemma_concat_advances(s: Seq<char>, pos: int)
    requires
        0 <= pos,
    ensures
        parse_concat_at(s, pos) is Ok ==> advanced(s, pos, parse_concat_at(s, pos)->Ok_0.1),
    decreases s.len() - pos, 3int,
{
    if pos <= s.len() {
        lemma_concat_from_advances(s, pos, None);
    }
}

/// The rest of an alternation, where it can be read, ends inside the
/// pattern and not before the position it is read from.
pub proof fn lemma_alt_from_advances(s: Seq<char>, pos: int, left: Regex)
    requires
        0 <= pos <= s.len(),
    ensures
        parse_alt_from(s, pos, left) is Ok ==> pos <= parse_alt_from(s, pos, left)->Ok_0.1
            <= s.len(),
    decreases s.len() - pos, 4int,
{
    if peek_at(s, pos) == Some('|') {
        lemma_concat_advances(s, pos + 1);
        match parse_concat_at(s, pos + 1) {
            Ok((r, end)) => {
                lemma_alt_from_advances(s, end, Regex::Alt(Box::new(left), Box::new(r)));
            },
            Err(_) => {},
        }
    }
}

/// An alternation that can be read takes at least one character and ends
/// inside the pattern.
pub proof fn lemma_alt_advances(s: Seq<char>, pos: int)
    requires
        0 <= pos,
    ensures
        parse_alt_at(s, pos) is Ok ==> advanced(s, pos, parse_alt_at(s, pos)->Ok_0.1),
    decreases s.len() - pos, 5int,
{
    lemma_concat_advances(s, pos);
    match parse_concat_at(s, pos) {
        Ok((l, end)) => {
            lemma_alt_from_advances(s, end, l);
        },
        Err(_) => {},
    }
}

/// Reading a part of a pattern always takes at least one character and
/// stays inside the pattern: the functions of the grammar never give an
/// error for want of that.
pub proof fn lemma_parse_advances(s: Seq<char>, pos: int)
    requires
        0 <= pos,
    ensures
        parse_rep_at(s, pos) is Ok ==> advanced(s, pos, parse_rep_at(s, pos)->Ok_0.1),
        parse_concat_at(s, pos) is Ok ==> advanced(s, pos, parse_concat_at(s, pos)->Ok_0.1),
{
    lemma_rep_advances(s, pos);
    lemma_concat_advances(s, pos);
}

} // verus!
