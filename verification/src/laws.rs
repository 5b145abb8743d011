//! Laws that relate the parts of the library to each other, each proved
//! from the definitions that the contracts of the functions use.

use crate::arith::{arith, is_arithmetic};
use crate::calculator::{apply_ints, run_ints};
use crate::eval::{eval_all, eval_one, lemma_eval_all, lemma_eval_one};
use crate::lexer::{feed, is_space, scan, tokens_of, Scan};
use crate::number::{
    decimal, digits_of, is_digit, lemma_digits_of, lemma_number_of_decimal, number_of,
};
use crate::parser::{atom_of, close_brace, open_brace, parse_from, parse_program};
use crate::render::{render, render_term, symbol_text};
use crate::value::{size, size_all, Operator, ParseFault, RuntimeError, Term};
use vstd::prelude::*;

verus! {

/// A stack of integers as a stack of values.
pub open spec fn numbers(ints: Seq<i32>) -> Seq<Term> {
    Seq::new(ints.len(), |i: int| Term::Number(ints[i]))
}

/// No term of the sequence is a block.
pub open spec fn no_blocks(ts: Seq<Term>) -> bool {
    forall|i: int| 0 <= i < ts.len() ==> !(#[trigger] ts[i] is Block)
}

/// The result of the calculator as a result of the evaluator.
pub open spec fn as_values(result: Result<Seq<i32>, RuntimeError>) -> Result<
    Seq<Term>,
    RuntimeError,
> {
    match result {
        Ok(ints) => Ok(numbers(ints)),
        Err(e) => Err(e),
    }
}

/// On a stack of numbers an operator does what it does in the calculator.
pub proof fn lemma_operator_on_numbers(op: Operator, ints: Seq<i32>)
    ensures
        eval_one(Term::Operator(op), numbers(ints)) == as_values(apply_ints(op, ints)),
{
    let stack = numbers(ints);
    let n = ints.len() as int;
    lemma_eval_one(Term::Operator(op), stack);
    match op {
        Operator::If => {},
        _ => {
            if n >= 2 {
                match arith(op, ints[n - 2], ints[n - 1]) {
                    Ok(v) => {
                        assert(stack.take(n - 2).push(Term::Number(v)) =~= numbers(
                            ints.take(n - 2).push(v),
                        ));
                    },
                    Err(e) => {},
                }
            }
        },
    }
}

/// A program of numbers and operators runs in the evaluator as it runs in
/// the calculator: item by item from the left, each arithmetic operator
/// popping its right operand and then its left one and pushing
/// `lhs <op> rhs`. Both give the same stack or fail with the same error,
/// and the stacks they give are written alike.
pub proof fn law_evaluator_folds_like_calculator(ts: Seq<Term>, ints: Seq<i32>)
    requires
        no_blocks(ts),
    ensures
        eval_all(ts, numbers(ints)) == as_values(run_ints(ts, ints)),
        run_ints(ts, ints) matches Ok(out) ==> render(eval_all(ts, numbers(ints))->Ok_0)
            == render(numbers(out)),
    decreases ts.len(),
{
    lemma_eval_all(ts, numbers(ints));
    if ts.len() > 0 {
        let rest = ts.skip(1);
        assert forall|i: int| 0 <= i < rest.len() implies !(#[trigger] rest[i] is Block) by {
            assert(rest[i] == ts[i + 1]);
        }
        assert(!(ts[0] is Block));
        match ts[0] {
            Term::Number(n) => {
                lemma_eval_one(ts[0], numbers(ints));
                assert(numbers(ints).push(ts[0]) =~= numbers(ints.push(n)));
                law_evaluator_folds_like_calculator(rest, ints.push(n));
            },
            Term::Operator(op) => {
                lemma_operator_on_numbers(op, ints);
                match apply_ints(op, ints) {
                    Ok(next) => {
                        law_evaluator_folds_like_calculator(rest, next);
                    },
                    Err(e) => {},
                }
            },
            Term::Block(_) => {},
        }
    }
}

/// An arithmetic operator fails on every malformed stack, and on no other
/// but for division by zero: with `StackUnderflow` on fewer than two
/// values, with `TypeMismatch` where one of the two topmost values is no
/// number, and, for division, with `DivisionByZero` where the topmost is
/// the number 0.
pub proof fn law_arithmetic_errors(op: Operator, stack: Seq<Term>)
    requires
        is_arithmetic(op),
    ensures
        stack.len() < 2 ==> eval_one(Term::Operator(op), stack) == Err::<Seq<Term>, RuntimeError>(
            RuntimeError::StackUnderflow,
        ),
        stack.len() >= 2 && !(stack[stack.len() - 2] is Number && stack[stack.len() - 1] is Number)
            ==> eval_one(Term::Operator(op), stack) == Err::<Seq<Term>, RuntimeError>(
            RuntimeError::TypeMismatch,
        ),
        stack.len() >= 2 && stack[stack.len() - 2] is Number && stack[stack.len() - 1] is Number
            ==> (eval_one(Term::Operator(op), stack) is Err <==> op == Operator::Div
            && stack[stack.len() - 1] == Term::Number(0)),
        eval_one(Term::Operator(Operator::Div), stack) == Err::<Seq<Term>, RuntimeError>(
            RuntimeError::DivisionByZero,
        ) <==> stack.len() >= 2 && stack[stack.len() - 2] is Number && stack[stack.len() - 1]
            == Term::Number(0),
{
    lemma_eval_one(Term::Operator(op), stack);
    lemma_eval_one(Term::Operator(Operator::Div), stack);
}

/// The tokens that spell a term: the numeral of a number, the symbol of an
/// operator, and for a block a `{`, the tokens of its contents and a `}`.
pub open spec fn spell(t: Term) -> Seq<Seq<char>>
    decreases t,
{
    match t {
        Term::Number(n) => seq![decimal(n as int)],
        Term::Operator(op) => seq![symbol_text(op)],
        Term::Block(items) => seq![open_brace()] + spell_all(items) + seq![close_brace()],
    }
}

/// The tokens that spell a sequence of terms, one term after the other.
pub open spec fn spell_all(ts: Seq<Term>) -> Seq<Seq<char>>
    decreases ts,
{
    if ts.len() == 0 {
        Seq::empty()
    } else {
        spell_all(ts.drop_last()) + spell(ts.last())
    }
}

/// `w` is not empty and none of its characters is whitespace.
pub open spec fn is_word(w: Seq<char>) -> bool {
    w.len() > 0 && forall|i: int| 0 <= i < w.len() ==> !is_space(#[trigger] w[i])
}

/// The complete words of a scan are words, and its open word holds no
/// whitespace.
pub open spec fn scanned_well(st: Scan) -> bool {
    &&& forall|i: int| 0 <= i < st.done.len() ==> is_word(#[trigger] st.done[i])
    &&& forall|i: int| 0 <= i < st.word.len() ==> !is_space(#[trigger] st.word[i])
}

/// Scanning keeps the complete words words and the open word free of
/// whitespace.
pub proof fn lemma_scan_keeps_words(st: Scan, s: Seq<char>)
    requires
        scanned_well(st),
    ensures
        scanned_well(scan(st, s)),
    decreases s.len(),
{
    if s.len() > 0 {
        lemma_scan_keeps_words(st, s.drop_last());
        let before = scan(st, s.drop_last());
        let after = feed(before, s.last());
        assert(scan(st, s) == after);
        assert forall|i: int| 0 <= i < after.done.len() implies is_word(
            #[trigger] after.done[i],
        ) by {
            if i < before.done.len() {
                assert(is_word(before.done[i]));
            }
        }
        assert forall|i: int| 0 <= i < after.word.len() implies !is_space(
            #[trigger] after.word[i],
        ) by {
            if i < before.word.len() {
                assert(!is_space(before.word[i]));
            }
        }
    }
}

/// Every token of a text is a word: it is not empty and holds no
/// whitespace.
pub proof fn law_tokens_are_words(s: Seq<char>)
    ensures
        forall|i: int| 0 <= i < tokens_of(s).len() ==> is_word(#[trigger] tokens_of(s)[i]),
{
    let start = Scan { done: Seq::<Seq<char>>::empty(), word: Seq::<char>::empty() };
    lemma_scan_keeps_words(start, s);
    let end = scan(start, s);
    assert forall|i: int| 0 <= i < tokens_of(s).len() implies is_word(
        #[trigger] tokens_of(s)[i],
    ) by {
        if i < end.done.len() {
            assert(is_word(end.done[i]));
        }
    }
}

/// Scanning one text after another is scanning the two in a row.
pub proof fn lemma_scan_concat(st: Scan, a: Seq<char>, b: Seq<char>)
    ensures
        scan(st, a + b) == scan(scan(st, a), b),
    decreases b.len(),
{
    if b.len() == 0 {
        assert(a + b =~= a);
    } else {
        lemma_scan_concat(st, a, b.drop_last());
        assert((a + b).drop_last() =~= a + b.drop_last());
        assert((a + b).last() == b.last());
        assert(scan(st, a + b) == feed(scan(st, (a + b).drop_last()), (a + b).last()));
        assert(scan(scan(st, a), b) == feed(scan(scan(st, a), b.drop_last()), b.last()));
    }
}

/// Scanning characters that are no whitespace extends the open word.
pub proof fn lemma_scan_word(st: Scan, w: Seq<char>)
    requires
        forall|i: int| 0 <= i < w.len() ==> !is_space(#[trigger] w[i]),
    ensures
        scan(st, w) == (Scan { done: st.done, word: st.word + w }),
    decreases w.len(),
{
    if w.len() == 0 {
        assert(st.word + w =~= st.word);
    } else {
        lemma_scan_word(st, w.drop_last());
        assert(!is_space(w[w.len() - 1]));
        assert(scan(st, w) == feed(scan(st, w.drop_last()), w.last()));
        assert((st.word + w.drop_last()).push(w.last()) =~= st.word + w);
    }
}

/// Scanning one character.
pub proof fn lemma_scan_one(st: Scan, c: char)
    ensures
        scan(st, seq![c]) == feed(st, c),
{
    let s = seq![c];
    assert(s.drop_last() =~= Seq::<char>::empty());
    assert(scan(st, s) == feed(scan(st, s.drop_last()), s.last()));
}

/// The digits of a number are no whitespace.
pub proof fn lemma_digits_are_word(m: nat)
    ensures
        is_word(digits_of(m)),
{
    lemma_digits_of(m);
    let s = digits_of(m);
    assert forall|i: int| 0 <= i < s.len() implies !is_space(#[trigger] s[i]) by {
        assert(is_digit(s[i]));
    }
}

/// A numeral is a word.
pub proof fn lemma_decimal_is_word(n: i32)
    ensures
        is_word(decimal(n as int)),
{
    let s = decimal(n as int);
    if n < 0 {
        let m = (-(n as int)) as nat;
        lemma_digits_are_word(m);
        assert forall|i: int| 0 <= i < s.len() implies !is_space(#[trigger] s[i]) by {
            if i > 0 {
                assert(s[i] == digits_of(m)[i - 1]);
            }
        }
    } else {
        lemma_digits_are_word(n as nat);
    }
}

/// The symbol of an operator is a word.
pub proof fn lemma_symbol_is_word(op: Operator)
    ensures
        is_word(symbol_text(op)),
{
}

/// A scan that stands between two words, after the text of a term: the
/// tokens of the term but the last are complete, and the last is open.
pub proof fn lemma_scan_term(done: Seq<Seq<char>>, t: Term)
    ensures
        spell(t).len() > 0,
        spell(t).last().len() > 0,
        scan((Scan { done: done, word: Seq::empty() }), render_term(t)) == (Scan {
            done: done + spell(t).drop_last(),
            word: spell(t).last(),
        }),
    decreases size(t), 0nat,
{
    let st = Scan { done: done, word: Seq::<char>::empty() };
    match t {
        Term::Number(n) => {
            let w = decimal(n as int);
            lemma_decimal_is_word(n);
            lemma_scan_word(st, w);
            assert(Seq::<char>::empty() + w =~= w);
            assert(spell(t).drop_last() =~= Seq::<Seq<char>>::empty());
            assert(done + spell(t).drop_last() =~= done);
        },
        Term::Operator(op) => {
            let w = symbol_text(op);
            lemma_symbol_is_word(op);
            lemma_scan_word(st, w);
            assert(Seq::<char>::empty() + w =~= w);
            assert(spell(t).drop_last() =~= Seq::<Seq<char>>::empty());
            assert(done + spell(t).drop_last() =~= done);
        },
        Term::Block(items) => {
            let inner = render(items);
            let text = render_term(t);
            assert(text == seq!['{', ' '] + inner + seq![' ', '}']);
            let opened = Scan { done: done.push(open_brace()), word: Seq::<char>::empty() };
            // `{` and the space behind it
            lemma_scan_concat(st, seq!['{', ' '] + inner, seq![' ', '}']);
            lemma_scan_concat(st, seq!['{', ' '], inner);
            lemma_scan_concat(st, seq!['{'], seq![' ']);
            assert(seq!['{'] + seq![' '] =~= seq!['{', ' ']);
            lemma_scan_one(st, '{');
            lemma_scan_one(feed(st, '{'), ' ');
            assert(feed(st, '{').word =~= open_brace());
            assert(scan(st, seq!['{', ' ']) == opened);
            // the contents
            let closed = Scan {
                done: done.push(open_brace()) + spell_all(items),
                word: Seq::<char>::empty(),
            };
            if items.len() == 0 {
                assert(spell_all(items) =~= Seq::<Seq<char>>::empty());
                assert(inner =~= Seq::<char>::empty());
                assert(scan(opened, inner) == opened);
                assert(done.push(open_brace()) + spell_all(items) =~= done.push(open_brace()));
                lemma_scan_concat(scan(opened, inner), seq![' '], seq!['}']);
                assert(seq![' '] + seq!['}'] =~= seq![' ', '}']);
                lemma_scan_one(opened, ' ');
                lemma_scan_one(closed, '}');
            } else {
                lemma_scan_all(done.push(open_brace()), items);
                let after = scan(opened, inner);
                lemma_scan_concat(after, seq![' '], seq!['}']);
                assert(seq![' '] + seq!['}'] =~= seq![' ', '}']);
                lemma_scan_one(after, ' ');
                assert(spell_all(items).drop_last().push(spell_all(items).last()) =~= spell_all(
                    items,
                ));
                assert((done.push(open_brace()) + spell_all(items).drop_last()).push(
                    spell_all(items).last(),
                ) =~= done.push(open_brace()) + spell_all(items));
                assert(feed(after, ' ') == closed);
                lemma_scan_one(closed, '}');
            }
            assert(feed(closed, '}').word =~= close_brace());
            let toks = spell(t);
            assert(toks == seq![open_brace()] + spell_all(items) + seq![close_brace()]);
            assert(toks.last() == close_brace());
            assert(done + toks.drop_last() =~= done.push(open_brace()) + spell_all(items));
        },
    }
}

/// A scan that stands between two words, after the text of a sequence of
/// terms: the tokens of the terms but the last are complete, and the last
/// is open.
pub proof fn lemma_scan_all(done: Seq<Seq<char>>, ts: Seq<Term>)
    requires
        ts.len() > 0,
    ensures
        spell_all(ts).len() > 0,
        spell_all(ts).last().len() > 0,
        scan((Scan { done: done, word: Seq::empty() }), render(ts)) == (Scan {
            done: done + spell_all(ts).drop_last(),
            word: spell_all(ts).last(),
        }),
    decreases size_all(ts), 1nat,
{
    let st = Scan { done: done, word: Seq::<char>::empty() };
    let last = ts.last();
    let front = ts.drop_last();
    assert(size_all(ts) == size_all(front) + size(last));
    assert(spell_all(ts) == spell_all(front) + spell(last));
    lemma_scan_term(done, last);
    if ts.len() == 1 {
        assert(spell_all(front) =~= Seq::<Seq<char>>::empty());
        assert(spell_all(ts) =~= spell(last));
        assert(render(ts) == render_term(ts[0]));
    } else {
        assert(render(ts) == render(front) + seq![' '] + render_term(last));
        lemma_scan_all(done, front);
        let t1 = spell_all(front);
        let t2 = spell(last);
        lemma_scan_concat(st, render(front) + seq![' '], render_term(last));
        lemma_scan_concat(st, render(front), seq![' ']);
        let after = scan(st, render(front));
        lemma_scan_one(after, ' ');
        assert((done + t1.drop_last()).push(t1.last()) =~= done + t1);
        lemma_scan_term(done + t1, last);
        assert((t1 + t2).drop_last() =~= t1 + t2.drop_last());
        assert(done + t1 + t2.drop_last() =~= done + (t1 + t2).drop_last());
    }
}

/// Cutting the text of a sequence of terms into tokens gives the tokens
/// that spell the terms.
pub proof fn lemma_tokens_of_render(ts: Seq<Term>)
    ensures
        tokens_of(render(ts)) == spell_all(ts),
{
    if ts.len() == 0 {
        assert(render(ts) =~= Seq::<char>::empty());
        assert(spell_all(ts) =~= Seq::<Seq<char>>::empty());
    } else {
        lemma_scan_all(Seq::empty(), ts);
        let toks = spell_all(ts);
        assert((Seq::<Seq<char>>::empty() + toks.drop_last()).push(toks.last()) =~= toks);
    }
}

/// A numeral is read back as its number and is no brace.
pub proof fn lemma_atom_of_decimal(n: i32)
    ensures
        atom_of(decimal(n as int)) == Some(Term::Number(n)),
        decimal(n as int) != open_brace(),
        decimal(n as int) != close_brace(),
{
    lemma_number_of_decimal(n);
    let s = decimal(n as int);
    if n < 0 {
        assert(s[0] == '-');
    } else {
        lemma_digits_of(n as nat);
        assert(is_digit(s[0]));
    }
    assert(open_brace()[0] == '{');
    assert(close_brace()[0] == '}');
}

/// The symbol of an operator is read back as the operator and is neither a
/// numeral nor a brace.
pub proof fn lemma_atom_of_symbol(op: Operator)
    ensures
        atom_of(symbol_text(op)) == Some(Term::Operator(op)),
        symbol_text(op) != open_brace(),
        symbol_text(op) != close_brace(),
{
    let s = symbol_text(op);
    assert(open_brace()[0] == '{');
    assert(close_brace()[0] == '}');
    assert(seq!['+'][0] == '+');
    assert(seq!['-'][0] == '-');
    assert(seq!['*'][0] == '*');
    assert(seq!['/'][0] == '/');
    assert(seq!['i', 'f'][0] == 'i');
    assert(number_of(s) is None) by {
        if s[0] == '-' {
            assert(s.skip(1).len() == 0);
        } else {
            assert(!is_digit(s[0]));
        }
    }
}

/// Parsing the tokens that spell a term appends the term to the block that
/// is being read, whatever is open around it and whatever follows.
pub proof fn lemma_parse_spelled_term(
    outer: Seq<Seq<Term>>,
    current: Seq<Term>,
    t: Term,
    more: Seq<Seq<char>>,
)
    ensures
        parse_from(outer, current, spell(t) + more) == parse_from(outer, current.push(t), more),
    decreases size(t), 0nat,
{
    let tokens = spell(t) + more;
    match t {
        Term::Number(n) => {
            lemma_atom_of_decimal(n);
            assert(tokens[0] == decimal(n as int));
            assert(tokens.skip(1) =~= more);
        },
        Term::Operator(op) => {
            lemma_atom_of_symbol(op);
            assert(tokens[0] == symbol_text(op));
            assert(tokens.skip(1) =~= more);
        },
        Term::Block(items) => {
            let behind = seq![close_brace()] + more;
            assert(tokens[0] == open_brace());
            assert(tokens.skip(1) =~= spell_all(items) + behind);
            assert(open_brace()[0] == '{');
            assert(close_brace()[0] == '}');
            lemma_parse_spelled_all(outer.push(current), Seq::empty(), items, behind);
            assert(Seq::<Term>::empty() + items =~= items);
            assert(behind[0] == close_brace());
            assert(behind.skip(1) =~= more);
            assert(outer.push(current).drop_last() =~= outer);
            assert(parse_from(outer.push(current), items, behind) == parse_from(
                outer,
                current.push(Term::Block(items)),
                more,
            ));
        },
    }
}

/// Parsing the tokens that spell a sequence of terms appends the terms to
/// the block that is being read, whatever is open around it and whatever
/// follows.
pub proof fn lemma_parse_spelled_all(
    outer: Seq<Seq<Term>>,
    current: Seq<Term>,
    ts: Seq<Term>,
    more: Seq<Seq<char>>,
)
    ensures
        parse_from(outer, current, spell_all(ts) + more) == parse_from(outer, current + ts, more),
    decreases size_all(ts), 1nat,
{
    if ts.len() == 0 {
        assert(spell_all(ts) + more =~= more);
        assert(current + ts =~= current);
    } else {
        let front = ts.drop_last();
        let last = ts.last();
        assert(size_all(ts) == size_all(front) + size(last));
        assert(spell_all(ts) == spell_all(front) + spell(last));
        assert(spell_all(ts) + more =~= spell_all(front) + (spell(last) + more));
        lemma_parse_spelled_all(outer, current, front, spell(last) + more);
        lemma_parse_spelled_term(outer, current + front, last, more);
        assert((current + front).push(last) =~= current + ts);
    }
}

/// Writing a program as text and reading the text back gives the program:
/// the text of any sequence of values, cut into tokens and parsed as a
/// program, is that sequence of values again.
pub proof fn law_parse_render_round_trip(ts: Seq<Term>)
    ensures
        parse_program(tokens_of(render(ts))) == Ok::<Seq<Term>, ParseFault>(ts),
{
    lemma_tokens_of_render(ts);
    let none = Seq::<Seq<char>>::empty();
    lemma_parse_spelled_all(Seq::empty(), Seq::empty(), ts, none);
    assert(spell_all(ts) + none =~= spell_all(ts));
    assert(Seq::<Term>::empty() + ts =~= ts);
}

/// Parsing is idempotent on well-formed input: where a text parses as a
/// program, the text of that program parses as the same program.
pub proof fn law_parse_is_idempotent(text: Seq<char>)
    ensures
        parse_program(tokens_of(text)) matches Ok(program) ==> parse_program(
            tokens_of(render(program)),
        ) == Ok::<Seq<Term>, ParseFault>(program),
{
    if let Ok(program) = parse_program(tokens_of(text)) {
        law_parse_render_round_trip(program);
    }
}

} // verus!
