//! The block parser: tokens become a tree of values, each `{ ... }` group a
//! nested block.
//!
//! The parser keeps the blocks that are still open in a list of its own and
//! does not recurse, so the nesting depth of the input is not limited by the
//! call stack.

use crate::lexer::{tokenize, tokens_of, words};
use crate::number::{number_of, parse_number};
use crate::value::{
    lemma_terms, lemma_view_block, terms, Operator, ParseError, ParseFault, Term, Value,
};
use vstd::prelude::*;
use vstd::slice::slice_subrange;
use vstd::string::StringExecFns;

verus! {

/// The token that opens a block.
pub open spec fn open_brace() -> Seq<char> {
    seq!['{']
}

/// The token that closes a block.
pub open spec fn close_brace() -> Seq<char> {
    seq!['}']
}

/// The operator that a token names, if it names one.
pub open spec fn operator_of(token: Seq<char>) -> Option<Operator> {
    if token == seq!['+'] {
        Some(Operator::Add)
    } else if token == seq!['-'] {
        Some(Operator::Sub)
    } else if token == seq!['*'] {
        Some(Operator::Mul)
    } else if token == seq!['/'] {
        Some(Operator::Div)
    } else if token == seq!['i', 'f'] {
        Some(Operator::If)
    } else {
        None
    }
}

/// The term that a single token stands for: a number if the token is a
/// numeral, else an operator if it names one. Braces stand for no term.
pub open spec fn atom_of(token: Seq<char>) -> Option<Term> {
    match number_of(token) {
        Some(n) => Some(Term::Number(n)),
        None => match operator_of(token) {
            Some(op) => Some(Term::Operator(op)),
            None => None,
        },
    }
}

/// What parsing a run of tokens gives: the items read, the tokens that were
/// not consumed, and whether reading stopped at a closing brace (`true`) or
/// at the end of the input (`false`).
pub struct Parsed {
    pub items: Seq<Term>,
    pub rest: Seq<Seq<char>>,
    pub closed: bool,
}

/// Parsing `tokens` when the blocks `outer` are open around the one that is
/// being read and `current` holds what was read of it so far.
///
/// - `{` opens a block inside the current one;
/// - `}` closes the current block and appends it to the enclosing one, or,
///   where no block is open, ends the parse and leaves the tokens behind it;
/// - a number or an operator is appended to the current block;
/// - any other token is invalid;
/// - at the end of the input a block that is still open is unterminated.
pub open spec fn parse_from(
    outer: Seq<Seq<Term>>,
    current: Seq<Term>,
    tokens: Seq<Seq<char>>,
) -> Result<Parsed, ParseFault>
    decreases tokens.len(),
{
    if tokens.len() == 0 {
        if outer.len() == 0 {
            Ok(Parsed { items: current, rest: Seq::empty(), closed: false })
        } else {
            Err(ParseFault::UnterminatedBlock)
        }
    } else {
        let token = tokens[0];
        let rest = tokens.skip(1);
        if token == open_brace() {
            parse_from(outer.push(current), Seq::empty(), rest)
        } else if token == close_brace() {
            if outer.len() == 0 {
                Ok(Parsed { items: current, rest: rest, closed: true })
            } else {
                parse_from(outer.drop_last(), outer.last().push(Term::Block(current)), rest)
            }
        } else {
            match atom_of(token) {
                Some(atom) => parse_from(outer, current.push(atom), rest),
                None => Err(ParseFault::InvalidToken(token)),
            }
        }
    }
}

/// Parsing the contents of a block: the items up to the closing brace that
/// matches no opening brace among `tokens`, or up to the end of the input.
pub open spec fn parse_block_spec(tokens: Seq<Seq<char>>) -> Result<Parsed, ParseFault> {
    parse_from(Seq::empty(), Seq::empty(), tokens)
}

/// Parsing a whole program: as the contents of a block, but a closing brace
/// that matches no opening brace is an invalid token.
pub open spec fn parse_program(tokens: Seq<Seq<char>>) -> Result<Seq<Term>, ParseFault> {
    match parse_block_spec(tokens) {
        Ok(parsed) => if parsed.closed {
            Err(ParseFault::InvalidToken(close_brace()))
        } else {
            Ok(parsed.items)
        },
        Err(fault) => Err(fault),
    }
}

/// Tells whether two string slices hold the same text.
pub fn same_text(a: &str, b: &str) -> (same: bool)
    ensures
        same == (a@ == b@),
{
    let x = a.as_bytes();
    let y = b.as_bytes();
    proof {
        vstd::utf8::encode_utf8_decode_utf8(a@);
        vstd::utf8::encode_utf8_decode_utf8(b@);
    }
    if x.len() != y.len() {
        return false;
    }
    let mut i: usize = 0;
    while i < x.len()
        invariant
            i <= x.len(),
            x.len() == y.len(),
            x@ == vstd::utf8::encode_utf8(a@),
            y@ == vstd::utf8::encode_utf8(b@),
            vstd::utf8::decode_utf8(vstd::utf8::encode_utf8(a@)) == a@,
            vstd::utf8::decode_utf8(vstd::utf8::encode_utf8(b@)) == b@,
            forall|j: int| 0 <= j < i ==> x@[j] == y@[j],
        decreases x.len() - i,
    {
        if x[i] != y[i] {
            return false;
        }
        i += 1;
    }
    assert(x@ =~= y@);
    true
}

impl Operator {
    /// The operator that `symbol` names: `+`, `-`, `*`, `/` or `if`. Any
    /// other text is an invalid token.
    pub fn try_from(symbol: &str) -> (result: Result<Operator, ParseError>)
        ensures
            match result {
                Ok(op) => operator_of(symbol@) == Some(op),
                Err(e) => operator_of(symbol@) is None && e@ == ParseFault::InvalidToken(
                    symbol@,
                ),
            },
    {
        proof {
            reveal_strlit("+");
            reveal_strlit("-");
            reveal_strlit("*");
            reveal_strlit("/");
            reveal_strlit("if");
            assert("+"@ =~= seq!['+']);
            assert("-"@ =~= seq!['-']);
            assert("*"@ =~= seq!['*']);
            assert("/"@ =~= seq!['/']);
            assert("if"@ =~= seq!['i', 'f']);
        }
        if same_text(symbol, "+") {
            Ok(Operator::Add)
        } else if same_text(symbol, "-") {
            Ok(Operator::Sub)
        } else if same_text(symbol, "*") {
            Ok(Operator::Mul)
        } else if same_text(symbol, "/") {
            Ok(Operator::Div)
        } else if same_text(symbol, "if") {
            Ok(Operator::If)
        } else {
            Err(ParseError::InvalidToken(String::from_str(symbol)))
        }
    }
}

/// Reads one token that is no brace: a number or an operator.
pub fn parse_token(token: &str) -> (result: Result<Value, ParseError>)
    ensures
        match result {
            Ok(value) => atom_of(token@) == Some(value@),
            Err(e) => atom_of(token@) is None && e@ == ParseFault::InvalidToken(token@),
        },
{
    match parse_number(token) {
        Some(n) => Ok(Value::Number(n)),
        None => match Operator::try_from(token) {
            Ok(op) => Ok(Value::Operator(op)),
            Err(e) => Err(e),
        },
    }
}

/// The blocks that a list of unfinished blocks stands for.
pub open spec fn frames(outer: Seq<Vec<Value>>) -> Seq<Seq<Term>> {
    Seq::new(outer.len(), |i: int| terms(outer[i]@))
}

/// Parses the contents of a block and says where reading stopped: the
/// result holds the items, the number of tokens that were consumed, and
/// whether the last of them was the closing brace of the block.
pub fn parse_items(input: &[&str]) -> (result: Result<(Vec<Value>, usize, bool), ParseError>)
    ensures
        match result {
            Ok((items, used, closed)) => {
                &&& used <= input@.len()
                &&& parse_block_spec(words(input@)) == Ok::<Parsed, ParseFault>(
                    (Parsed {
                        items: terms(items@),
                        rest: words(input@).skip(used as int),
                        closed: closed,
                    }),
                )
            },
            Err(e) => parse_block_spec(words(input@)) == Err::<Parsed, ParseFault>(e@),
        },
{
    proof {
        reveal_strlit("{");
        reveal_strlit("}");
        assert("{"@ =~= open_brace());
        assert("}"@ =~= close_brace());
    }
    let n = input.len();
    let mut outer: Vec<Vec<Value>> = Vec::new();
    let mut current: Vec<Value> = Vec::new();
    let mut i: usize = 0;
    let ghost all = words(input@);
    assert(all.skip(0) =~= all);
    assert(frames(outer@) =~= Seq::<Seq<Term>>::empty());
    assert(terms(current@) =~= Seq::<Term>::empty());
    while i < n
        invariant
            i <= n,
            n == input@.len(),
            all == words(input@),
            "{"@ == open_brace(),
            "}"@ == close_brace(),
            parse_from(frames(outer@), terms(current@), all.skip(i as int)) == parse_block_spec(
                all,
            ),
        decreases n - i,
    {
        let token = input[i];
        let ghost ahead = all.skip(i as int);
        let ghost before_outer = frames(outer@);
        let ghost before_current = terms(current@);
        proof {
            assert(ahead[0] == token@);
            assert(ahead.skip(1) =~= all.skip(i + 1));
            lemma_terms(current@);
        }
        if same_text(token, "{") {
            outer.push(current);
            current = Vec::new();
            proof {
                assert(frames(outer@) =~= before_outer.push(before_current));
                assert(terms(current@) =~= Seq::<Term>::empty());
            }
        } else if same_text(token, "}") {
            match outer.pop() {
                None => {
                    assert(before_outer.len() == 0);
                    return Ok((current, i + 1, true));
                },
                Some(mut enclosing) => {
                    let ghost enclosing_before = terms(enclosing@);
                    let ghost inner = current;
                    let block = Value::Block(current);
                    proof {
                        lemma_view_block(inner);
                        lemma_terms(enclosing@);
                    }
                    enclosing.push(block);
                    current = enclosing;
                    proof {
                        lemma_terms(current@);
                        assert(terms(current@) =~= enclosing_before.push(
                            Term::Block(before_current),
                        ));
                        assert(before_outer.len() > 0);
                        assert(frames(outer@) =~= before_outer.drop_last());
                        assert(before_outer.last() == enclosing_before);
                    }
                },
            }
        } else {
            match parse_token(token) {
                Ok(value) => {
                    current.push(value);
                    proof {
                        lemma_terms(current@);
                        assert(terms(current@) =~= before_current.push(value@));
                    }
                },
                Err(e) => {
                    return Err(e);
                },
            }
        }
        i += 1;
    }
    proof {
        assert(all.skip(i as int).len() == 0);
    }
    if outer.len() > 0 {
        return Err(ParseError::UnterminatedBlock);
    }
    proof {
        assert(frames(outer@).len() == 0);
        assert(all.skip(n as int) =~= Seq::<Seq<char>>::empty());
    }
    Ok((current, n, false))
}

/// Parses the contents of a block. Reading stops behind the closing brace
/// that matches no opening brace of `input`, or at the end of `input`; the
/// tokens that were not read are handed back.
///
/// Fails with `InvalidToken` at the first token that is neither a brace, a
/// number nor an operator, and with `UnterminatedBlock` if the input ends
/// inside a nested block.
pub fn parse_block<'a>(input: &'a [&'a str]) -> (result: Result<
    (Vec<Value>, &'a [&'a str]),
    ParseError,
>)
    ensures
        match result {
            Ok((items, rest)) => {
                &&& parse_block_spec(words(input@)) matches Ok(parsed)
                &&& parsed.items == terms(items@)
                &&& parsed.rest == words(rest@)
                &&& rest@.len() <= input@.len()
                &&& rest@ == input@.skip(input@.len() - rest@.len())
            },
            Err(e) => parse_block_spec(words(input@)) == Err::<Parsed, ParseFault>(e@),
        },
{
    match parse_items(input) {
        Ok((items, used, _closed)) => {
            let rest = slice_subrange(input, used, input.len());
            proof {
                assert(words(rest@) =~= words(input@).skip(used as int));
                assert(rest@ =~= input@.skip(input@.len() - rest@.len()));
            }
            Ok((items, rest))
        },
        Err(e) => Err(e),
    }
}

/// Parses a line of text as a whole program. A closing brace without an
/// opening one is reported as an invalid token.
pub fn parse(input: &str) -> (result: Result<Vec<Value>, ParseError>)
    ensures
        match result {
            Ok(items) => parse_program(tokens_of(input@)) == Ok::<Seq<Term>, ParseFault>(
                terms(items@),
            ),
            Err(e) => parse_program(tokens_of(input@)) == Err::<Seq<Term>, ParseFault>(e@),
        },
{
    let tokens = tokenize(input);
    parse_tokens(tokens.as_slice())
}

/// Parses a list of tokens as a whole program.
pub fn parse_tokens(tokens: &[&str]) -> (result: Result<Vec<Value>, ParseError>)
    ensures
        match result {
            Ok(items) => parse_program(words(tokens@)) == Ok::<Seq<Term>, ParseFault>(
                terms(items@),
            ),
            Err(e) => parse_program(words(tokens@)) == Err::<Seq<Term>, ParseFault>(e@),
        },
{
    match parse_items(tokens) {
        Ok((items, _used, closed)) => {
            if closed {
                proof {
                    reveal_strlit("}");
                    assert("}"@ =~= close_brace());
                }
                Err(ParseError::InvalidToken(String::from_str("}")))
            } else {
                Ok(items)
            }
        },
        Err(e) => Err(e),
    }
}

} // verus!
