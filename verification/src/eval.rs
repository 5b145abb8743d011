//! The evaluator: values are applied to an operand stack. Numbers and blocks
//! are pushed, arithmetic operators replace their two operands by the
//! result, and `if` evaluates a condition block and then one of two branch
//! blocks, all on the one stack.
//!
//! `if` is evaluated by calls that hand the one stack down, so the call
//! stack grows with the depth to which `if` is nested in what is being
//! evaluated. That depth is bounded only by the input: a program nested
//! some ten thousand deep can exhaust the call stack. Evaluation always
//! ends, since each evaluated block was taken off the stack for good.

use crate::arith::{arith, compute};
use crate::value::{
    lemma_size_first, lemma_size_push, lemma_size_top2, lemma_size_top3, lemma_terms,
    lemma_view_block, size, size_all, terms, Operator, RuntimeError, Term, Value,
};
use vstd::prelude::*;

verus! {

/// An arithmetic operator applied to the stack: the two topmost values,
/// which must be numbers, are replaced by `lhs <op> rhs`, where `rhs` is the
/// topmost.
pub open spec fn binary(op: Operator, stack: Seq<Term>) -> Result<Seq<Term>, RuntimeError> {
    let n = stack.len() as int;
    if n < 2 {
        Err(RuntimeError::StackUnderflow)
    } else {
        match (stack[n - 2], stack[n - 1]) {
            (Term::Number(lhs), Term::Number(rhs)) => match arith(op, lhs, rhs) {
                Ok(v) => Ok(stack.take(n - 2).push(Term::Number(v))),
                Err(e) => Err(e),
            },
            _ => Err(RuntimeError::TypeMismatch),
        }
    }
}

/// One value applied to the stack, where `if` may be nested `depth` deep.
pub open spec fn eval_with(depth: nat, t: Term, stack: Seq<Term>) -> Result<
    Seq<Term>,
    RuntimeError,
>
    decreases depth, 1nat,
{
    match t {
        Term::Operator(Operator::If) => select_with(depth, stack),
        Term::Operator(op) => binary(op, stack),
        _ => Ok(stack.push(t)),
    }
}

/// `if` applied to the stack, where it may be nested `depth` deep. With no
/// depth left the result is an arbitrary error; `eval_one` and `eval_all`
/// always start with enough.
pub open spec fn select_with(depth: nat, stack: Seq<Term>) -> Result<Seq<Term>, RuntimeError>
    decreases depth, 0nat,
{
    let n = stack.len() as int;
    if n < 3 {
        Err(RuntimeError::StackUnderflow)
    } else {
        match (stack[n - 3], stack[n - 2], stack[n - 1]) {
            (Term::Block(cond), Term::Block(on_true), Term::Block(on_false)) => {
                let base = stack.take(n - 3);
                if depth == 0 {
                    Err(RuntimeError::TypeMismatch)
                } else {
                    match eval_all_with((depth - 1) as nat, cond, base) {
                        Ok(mid) => if mid.len() == base.len() + 1 && mid.last() is Number {
                            eval_all_with(
                                (depth - 1) as nat,
                                if mid.last()->Number_0 != 0 {
                                    on_true
                                } else {
                                    on_false
                                },
                                mid.drop_last(),
                            )
                        } else {
                            Err(RuntimeError::TypeMismatch)
                        },
                        Err(e) => Err(e),
                    }
                }
            },
            _ => Err(RuntimeError::TypeMismatch),
        }
    }
}

/// A sequence of values applied to the stack from left to right, up to the
/// first error, where `if` may be nested `depth` deep.
pub open spec fn eval_all_with(depth: nat, ts: Seq<Term>, stack: Seq<Term>) -> Result<
    Seq<Term>,
    RuntimeError,
>
    decreases depth, 2 + ts.len(),
{
    if ts.len() == 0 {
        Ok(stack)
    } else {
        match eval_with(depth, ts[0], stack) {
            Ok(next) => eval_all_with(depth, ts.skip(1), next),
            Err(e) => Err(e),
        }
    }
}

/// One value applied to the stack.
///
/// - A number or a block is pushed.
/// - An arithmetic operator is applied as `binary` says.
/// - `if` is applied as `select` says.
///
/// Each nested `if` takes its blocks out of the values at hand, so the
/// nesting is never deeper than the number of nodes of the value and the
/// stack together; `lemma_depth_one` shows that any depth from there on gives
/// the same result.
pub open spec fn eval_one(t: Term, stack: Seq<Term>) -> Result<Seq<Term>, RuntimeError> {
    eval_with(size(t) + size_all(stack), t, stack)
}

/// A sequence of values applied to the stack from left to right, up to the
/// first error.
pub open spec fn eval_all(ts: Seq<Term>, stack: Seq<Term>) -> Result<Seq<Term>, RuntimeError> {
    eval_all_with(size_all(ts) + size_all(stack), ts, stack)
}

/// `if` applied to the stack. The three topmost values must be blocks: the
/// condition, the true branch and the false branch, the last on top. They
/// are popped; the condition is evaluated on what is left, and must leave
/// exactly one more value, a number, which is popped in turn. Then the true
/// branch is evaluated if that number is not 0, else the false branch.
pub open spec fn select(stack: Seq<Term>) -> Result<Seq<Term>, RuntimeError> {
    let n = stack.len() as int;
    if n < 3 {
        Err(RuntimeError::StackUnderflow)
    } else {
        match (stack[n - 3], stack[n - 2], stack[n - 1]) {
            (Term::Block(cond), Term::Block(on_true), Term::Block(on_false)) => {
                let base = stack.take(n - 3);
                match eval_all(cond, base) {
                    Ok(mid) => if mid.len() == base.len() + 1 && mid.last() is Number {
                        eval_all(
                            if mid.last()->Number_0 != 0 {
                                on_true
                            } else {
                                on_false
                            },
                            mid.drop_last(),
                        )
                    } else {
                        Err(RuntimeError::TypeMismatch)
                    },
                    Err(e) => Err(e),
                }
            },
            _ => Err(RuntimeError::TypeMismatch),
        }
    }
}

/// An arithmetic operator leaves fewer nodes on the stack than it found.
pub proof fn lemma_binary_size(op: Operator, stack: Seq<Term>)
    ensures
        binary(op, stack) matches Ok(r) ==> size_all(r) < size_all(stack),
{
    if binary(op, stack) is Ok {
        let n = stack.len() as int;
        let r = binary(op, stack)->Ok_0;
        lemma_size_top2(stack);
        let v = r.last();
        assert(r == stack.take(n - 2).push(v));
        lemma_size_push(stack.take(n - 2), v);
    }
}

/// Any depth from the number of nodes on gives the same result for one
/// value, and the result holds no more nodes than the value and the stack
/// held together.
pub proof fn lemma_depth_one(d1: nat, d2: nat, t: Term, stack: Seq<Term>)
    requires
        d1 >= size(t) + size_all(stack),
        d2 >= size(t) + size_all(stack),
    ensures
        eval_with(d1, t, stack) == eval_with(d2, t, stack),
        eval_with(d1, t, stack) matches Ok(r) ==> size_all(r) <= size_all(stack) + size(t),
    decreases d1, 1nat,
{
    match t {
        Term::Operator(Operator::If) => {
            lemma_depth_select(d1, d2, stack);
        },
        Term::Operator(op) => {
            lemma_binary_size(op, stack);
        },
        _ => {
            lemma_size_push(stack, t);
        },
    }
}

/// Any depth above the number of nodes gives the same result for `if`, and
/// the result holds no more nodes than the stack held.
pub proof fn lemma_depth_select(d1: nat, d2: nat, stack: Seq<Term>)
    requires
        d1 >= 1 + size_all(stack),
        d2 >= 1 + size_all(stack),
    ensures
        select_with(d1, stack) == select_with(d2, stack),
        select_with(d1, stack) matches Ok(r) ==> size_all(r) <= size_all(stack),
    decreases d1, 0nat,
{
    let n = stack.len() as int;
    if n >= 3 {
        match (stack[n - 3], stack[n - 2], stack[n - 1]) {
            (Term::Block(cond), Term::Block(on_true), Term::Block(on_false)) => {
                let base = stack.take(n - 3);
                lemma_size_top3(stack);
                let e1 = (d1 - 1) as nat;
                let e2 = (d2 - 1) as nat;
                lemma_depth_all(e1, e2, cond, base);
                match eval_all_with(e1, cond, base) {
                    Ok(mid) => {
                        if mid.len() == base.len() + 1 && mid.last() is Number {
                            let branch = if mid.last()->Number_0 != 0 {
                                on_true
                            } else {
                                on_false
                            };
                            assert(size_all(mid) == size_all(mid.drop_last()) + size(mid.last()));
                            lemma_depth_all(e1, e2, branch, mid.drop_last());
                        }
                    },
                    Err(e) => {},
                }
            },
            _ => {},
        }
    }
}

/// Any depth from the number of nodes on gives the same result for a
/// sequence of values, and the result holds no more nodes than the values
/// and the stack held together.
pub proof fn lemma_depth_all(d1: nat, d2: nat, ts: Seq<Term>, stack: Seq<Term>)
    requires
        d1 >= size_all(ts) + size_all(stack),
        d2 >= size_all(ts) + size_all(stack),
    ensures
        eval_all_with(d1, ts, stack) == eval_all_with(d2, ts, stack),
        eval_all_with(d1, ts, stack) matches Ok(r) ==> size_all(r) <= size_all(stack) + size_all(
            ts,
        ),
    decreases d1, 2 + ts.len(),
{
    if ts.len() > 0 {
        lemma_size_first(ts);
        lemma_depth_one(d1, d2, ts[0], stack);
        match eval_with(d1, ts[0], stack) {
            Ok(next) => {
                lemma_depth_all(d1, d2, ts.skip(1), next);
            },
            Err(e) => {},
        }
    }
}

/// Evaluation never adds nodes: what one value leaves on the stack holds no
/// more nodes than the value and the stack held together.
pub proof fn lemma_eval_one_size(t: Term, stack: Seq<Term>)
    ensures
        eval_one(t, stack) matches Ok(r) ==> size_all(r) <= size_all(stack) + size(t),
{
    let d = size(t) + size_all(stack);
    lemma_depth_one(d, d, t, stack);
}

/// Evaluation never adds nodes: what a sequence of values leaves on the
/// stack holds no more nodes than the values and the stack held together.
pub proof fn lemma_eval_all_size(ts: Seq<Term>, stack: Seq<Term>)
    ensures
        eval_all(ts, stack) matches Ok(r) ==> size_all(r) <= size_all(stack) + size_all(ts),
{
    let d = size_all(ts) + size_all(stack);
    lemma_depth_all(d, d, ts, stack);
}

/// How `eval_one` goes by the kind of the value.
pub proof fn lemma_eval_one(t: Term, stack: Seq<Term>)
    ensures
        eval_one(t, stack) == match t {
            Term::Operator(Operator::If) => select(stack),
            Term::Operator(op) => binary(op, stack),
            _ => Ok(stack.push(t)),
        },
{
    if t == Term::Operator(Operator::If) {
        let d = (1 + size_all(stack)) as nat;
        assert(eval_one(t, stack) == select_with(d, stack));
        let n = stack.len() as int;
        if n >= 3 {
            match (stack[n - 3], stack[n - 2], stack[n - 1]) {
                (Term::Block(cond), Term::Block(on_true), Term::Block(on_false)) => {
                    let base = stack.take(n - 3);
                    lemma_size_top3(stack);
                    let e = (d - 1) as nat;
                    lemma_depth_all(e, size_all(cond) + size_all(base), cond, base);
                    match eval_all(cond, base) {
                        Ok(mid) => {
                            if mid.len() == base.len() + 1 && mid.last() is Number {
                                let branch = if mid.last()->Number_0 != 0 {
                                    on_true
                                } else {
                                    on_false
                                };
                                assert(size_all(mid) == size_all(mid.drop_last()) + size(
                                    mid.last(),
                                ));
                                lemma_depth_all(
                                    e,
                                    size_all(branch) + size_all(mid.drop_last()),
                                    branch,
                                    mid.drop_last(),
                                );
                            }
                        },
                        Err(e) => {},
                    }
                },
                _ => {},
            }
        }
    }
}

/// How `eval_all` goes: the first value, then the rest on what it left.
pub proof fn lemma_eval_all(ts: Seq<Term>, stack: Seq<Term>)
    ensures
        eval_all(ts, stack) == if ts.len() == 0 {
            Ok(stack)
        } else {
            match eval_one(ts[0], stack) {
                Ok(next) => eval_all(ts.skip(1), next),
                Err(e) => Err(e),
            }
        },
{
    if ts.len() > 0 {
        let d = size_all(ts) + size_all(stack);
        lemma_size_first(ts);
        lemma_depth_one(d, size(ts[0]) + size_all(stack), ts[0], stack);
        match eval_one(ts[0], stack) {
            Ok(next) => {
                lemma_depth_all(
                    d,
                    size_all(ts.skip(1)) + size_all(next),
                    ts.skip(1),
                    next,
                );
            },
            Err(e) => {},
        }
    }
}

/// Applies an arithmetic operator to the stack. On an error the stack is
/// left as it was.
pub fn apply(op: Operator, stack: &mut Vec<Value>) -> (result: Result<(), RuntimeError>)
    ensures
        match result {
            Ok(()) => binary(op, terms(old(stack)@)) == Ok::<Seq<Term>, RuntimeError>(
                terms(final(stack)@),
            ),
            Err(e) => binary(op, terms(old(stack)@)) == Err::<Seq<Term>, RuntimeError>(e)
                && final(stack)@ == old(stack)@,
        },
{
    let n = stack.len();
    proof {
        lemma_terms(stack@);
    }
    if n < 2 {
        return Err(RuntimeError::StackUnderflow);
    }
    let outcome = match (&stack[n - 2], &stack[n - 1]) {
        (Value::Number(lhs), Value::Number(rhs)) => compute(op, *lhs, *rhs),
        _ => Err(RuntimeError::TypeMismatch),
    };
    match outcome {
        Ok(v) => {
            stack.pop();
            stack.pop();
            stack.push(Value::Number(v));
            proof {
                lemma_terms(stack@);
                assert(terms(stack@) =~= terms(old(stack)@).take(n - 2).push(Term::Number(v)));
            }
            Ok(())
        },
        Err(e) => Err(e),
    }
}

/// Replaces the two topmost values, both numbers, by their sum.
///
/// Fails with `StackUnderflow` if the stack holds fewer than two values,
/// else with `TypeMismatch` if one of the two topmost is no number; either
/// way the stack is left as it was.
pub fn add(stack: &mut Vec<Value>) -> (result: Result<(), RuntimeError>)
    ensures
        match result {
            Ok(()) => binary(Operator::Add, terms(old(stack)@)) == Ok::<Seq<Term>, RuntimeError>(
                terms(final(stack)@),
            ),
            Err(e) => binary(Operator::Add, terms(old(stack)@)) == Err::<Seq<Term>, RuntimeError>(
                e,
            ) && final(stack)@ == old(stack)@,
        },
        result == Err::<(), RuntimeError>(RuntimeError::StackUnderflow) <==> old(stack)@.len() < 2,
        result == Err::<(), RuntimeError>(RuntimeError::TypeMismatch) <==> old(stack)@.len() >= 2
            && !operands_are_numbers(terms(old(stack)@)),
{
    proof {
        lemma_terms(stack@);
    }
    apply(Operator::Add, stack)
}

/// Replaces the two topmost values, both numbers, by `lhs - rhs`, `rhs`
/// being the topmost.
///
/// Fails with `StackUnderflow` if the stack holds fewer than two values,
/// else with `TypeMismatch` if one of the two topmost is no number; either
/// way the stack is left as it was.
pub fn sub(stack: &mut Vec<Value>) -> (result: Result<(), RuntimeError>)
    ensures
        match result {
            Ok(()) => binary(Operator::Sub, terms(old(stack)@)) == Ok::<Seq<Term>, RuntimeError>(
                terms(final(stack)@),
            ),
            Err(e) => binary(Operator::Sub, terms(old(stack)@)) == Err::<Seq<Term>, RuntimeError>(
                e,
            ) && final(stack)@ == old(stack)@,
        },
        result == Err::<(), RuntimeError>(RuntimeError::StackUnderflow) <==> old(stack)@.len() < 2,
        result == Err::<(), RuntimeError>(RuntimeError::TypeMismatch) <==> old(stack)@.len() >= 2
            && !operands_are_numbers(terms(old(stack)@)),
{
    proof {
        lemma_terms(stack@);
    }
    apply(Operator::Sub, stack)
}

/// Replaces the two topmost values, both numbers, by their product.
///
/// Fails with `StackUnderflow` if the stack holds fewer than two values,
/// else with `TypeMismatch` if one of the two topmost is no number; either
/// way the stack is left as it was.
pub fn mul(stack: &mut Vec<Value>) -> (result: Result<(), RuntimeError>)
    ensures
        match result {
            Ok(()) => binary(Operator::Mul, terms(old(stack)@)) == Ok::<Seq<Term>, RuntimeError>(
                terms(final(stack)@),
            ),
            Err(e) => binary(Operator::Mul, terms(old(stack)@)) == Err::<Seq<Term>, RuntimeError>(
                e,
            ) && final(stack)@ == old(stack)@,
        },
        result == Err::<(), RuntimeError>(RuntimeError::StackUnderflow) <==> old(stack)@.len() < 2,
        result == Err::<(), RuntimeError>(RuntimeError::TypeMismatch) <==> old(stack)@.len() >= 2
            && !operands_are_numbers(terms(old(stack)@)),
{
    proof {
        lemma_terms(stack@);
    }
    apply(Operator::Mul, stack)
}

/// Replaces the two topmost values, both numbers, by `lhs / rhs`, rounded
/// toward zero, `rhs` being the topmost.
///
/// Fails with `StackUnderflow` if the stack holds fewer than two values,
/// else with `TypeMismatch` if one of the two topmost is no number, else
/// with `DivisionByZero` if `rhs` is 0; in each case the stack is left as it
/// was.
pub fn div(stack: &mut Vec<Value>) -> (result: Result<(), RuntimeError>)
    ensures
        match result {
            Ok(()) => binary(Operator::Div, terms(old(stack)@)) == Ok::<Seq<Term>, RuntimeError>(
                terms(final(stack)@),
            ),
            Err(e) => binary(Operator::Div, terms(old(stack)@)) == Err::<Seq<Term>, RuntimeError>(
                e,
            ) && final(stack)@ == old(stack)@,
        },
        result == Err::<(), RuntimeError>(RuntimeError::StackUnderflow) <==> old(stack)@.len() < 2,
        result == Err::<(), RuntimeError>(RuntimeError::TypeMismatch) <==> old(stack)@.len() >= 2
            && !operands_are_numbers(terms(old(stack)@)),
        result == Err::<(), RuntimeError>(RuntimeError::DivisionByZero) <==> old(stack)@.len() >= 2
            && operands_are_numbers(terms(old(stack)@)) && terms(old(stack)@).last()
            == Term::Number(0),
{
    proof {
        lemma_terms(stack@);
    }
    apply(Operator::Div, stack)
}

/// Applies `if`: pops the condition, the true branch and the false branch,
/// evaluates the condition on the same stack, pops the number it left, and
/// evaluates the branch that the number selects on the same stack.
///
/// Fails with `StackUnderflow` if the stack holds fewer than three values,
/// with `TypeMismatch` if one of the three topmost is no block or if the
/// condition does not leave exactly one more value, a number, and with the
/// error of the condition or of the branch if evaluating one of them fails.
/// After a failure the stack holds whatever was on it at that moment.
pub fn op_if(stack: &mut Vec<Value>) -> (result: Result<(), RuntimeError>)
    ensures
        match result {
            Ok(()) => select(terms(old(stack)@)) == Ok::<Seq<Term>, RuntimeError>(
                terms(final(stack)@),
            ),
            Err(e) => select(terms(old(stack)@)) == Err::<Seq<Term>, RuntimeError>(e),
        },
        old(stack)@.len() < 3 ==> result == Err::<(), RuntimeError>(RuntimeError::StackUnderflow),
    decreases size_all(terms(old(stack)@)), 0nat,
{
    let n = stack.len();
    let ghost before = terms(stack@);
    proof {
        lemma_terms(stack@);
    }
    if n < 3 {
        return Err(RuntimeError::StackUnderflow);
    }
    let blocks = match (&stack[n - 3], &stack[n - 2], &stack[n - 1]) {
        (Value::Block(_), Value::Block(_), Value::Block(_)) => true,
        _ => false,
    };
    if !blocks {
        return Err(RuntimeError::TypeMismatch);
    }
    let third = stack.pop();
    let second = stack.pop();
    let first = stack.pop();
    match (first, second, third) {
        (Some(Value::Block(cond)), Some(Value::Block(on_true)), Some(Value::Block(on_false))) => {
            let ghost base = terms(stack@);
            proof {
                lemma_terms(stack@);
                assert(base =~= before.take(n - 3));
                lemma_view_block(cond);
                lemma_view_block(on_true);
                lemma_view_block(on_false);
                lemma_size_top3(before);
                assert(before[n - 3] == Term::Block(terms(cond@)));
                assert(before[n - 2] == Term::Block(terms(on_true@)));
                assert(before[n - 1] == Term::Block(terms(on_false@)));
            }
            let floor = stack.len();
            match eval_sequence(cond.as_slice(), stack) {
                Ok(()) => {},
                Err(e) => {
                    return Err(e);
                },
            }
            let ghost mid = terms(stack@);
            proof {
                lemma_terms(stack@);
                lemma_eval_all_size(terms(cond@), base);
            }
            if stack.len() != floor + 1 {
                return Err(RuntimeError::TypeMismatch);
            }
            let chosen = match &stack[floor] {
                Value::Number(k) => Some(*k != 0),
                _ => None,
            };
            match chosen {
                None => Err(RuntimeError::TypeMismatch),
                Some(truth) => {
                    stack.pop();
                    proof {
                        lemma_terms(stack@);
                        assert(terms(stack@) =~= mid.drop_last());
                        assert(size_all(mid) == size_all(mid.drop_last()) + size(mid.last()));
                    }
                    if truth {
                        eval_sequence(on_true.as_slice(), stack)
                    } else {
                        eval_sequence(on_false.as_slice(), stack)
                    }
                },
            }
        },
        _ => Err(RuntimeError::TypeMismatch),
    }
}

/// The two topmost values of the stack are numbers.
pub open spec fn operands_are_numbers(stack: Seq<Term>) -> bool {
    stack.len() >= 2 && stack[stack.len() - 2] is Number && stack[stack.len() - 1] is Number
}

/// Applies one value to the stack: a number or a block is pushed, an
/// operator is applied. After a failure the stack holds whatever was on it
/// at that moment.
pub fn eval(code: Value, stack: &mut Vec<Value>) -> (result: Result<(), RuntimeError>)
    ensures
        match result {
            Ok(()) => eval_one(code@, terms(old(stack)@)) == Ok::<Seq<Term>, RuntimeError>(
                terms(final(stack)@),
            ),
            Err(e) => eval_one(code@, terms(old(stack)@)) == Err::<Seq<Term>, RuntimeError>(e),
        },
    decreases size(code@) + size_all(terms(old(stack)@)), 1nat,
{
    proof {
        lemma_eval_one(code@, terms(stack@));
    }
    match code {
        Value::Operator(Operator::Add) => self::add(stack),
        Value::Operator(Operator::Sub) => self::sub(stack),
        Value::Operator(Operator::Mul) => self::mul(stack),
        Value::Operator(Operator::Div) => self::div(stack),
        Value::Operator(Operator::If) => op_if(stack),
        other => {
            stack.push(other);
            proof {
                lemma_terms(stack@);
                lemma_terms(old(stack)@);
                assert(terms(stack@) =~= terms(old(stack)@).push(other@));
            }
            Ok(())
        },
    }
}

/// Applies a sequence of values to the stack, from left to right, and stops
/// at the first that fails. After a failure the stack holds whatever was on
/// it at that moment.
pub fn eval_sequence(values: &[Value], stack: &mut Vec<Value>) -> (result: Result<
    (),
    RuntimeError,
>)
    ensures
        match result {
            Ok(()) => eval_all(terms(values@), terms(old(stack)@)) == Ok::<
                Seq<Term>,
                RuntimeError,
            >(terms(final(stack)@)),
            Err(e) => eval_all(terms(values@), terms(old(stack)@)) == Err::<
                Seq<Term>,
                RuntimeError,
            >(e),
        },
    decreases size_all(terms(values@)) + size_all(terms(old(stack)@)), 2nat,
{
    let ghost ts = terms(values@);
    let ghost start = terms(stack@);
    proof {
        lemma_terms(values@);
        assert(ts.skip(0) =~= ts);
    }
    let mut i: usize = 0;
    while i < values.len()
        invariant
            i <= values.len(),
            ts == terms(values@),
            start == terms(old(stack)@),
            ts.len() == values@.len(),
            forall|j: int| 0 <= j < values@.len() ==> #[trigger] ts[j] == values@[j]@,
            eval_all(ts.skip(i as int), terms(stack@)) == eval_all(ts, start),
            size_all(ts.skip(i as int)) + size_all(terms(stack@)) <= size_all(ts) + size_all(start),
        decreases values.len() - i,
    {
        let ghost ahead = ts.skip(i as int);
        let ghost now = terms(stack@);
        proof {
            assert(ahead[0] == values@[i as int]@);
            assert(ahead.skip(1) =~= ts.skip(i + 1));
            lemma_eval_all(ahead, now);
            lemma_size_first(ahead);
            lemma_eval_one_size(ahead[0], now);
        }
        match eval(values[i].clone(), stack) {
            Ok(()) => {},
            Err(e) => {
                return Err(e);
            },
        }
        i += 1;
    }
    proof {
        lemma_eval_all(ts.skip(i as int), terms(stack@));
    }
    Ok(())
}

/// Runs a program on an empty stack and returns the stack.
pub fn calc(program: &[Value]) -> (result: Result<Vec<Value>, RuntimeError>)
    ensures
        match result {
            Ok(stack) => eval_all(terms(program@), Seq::empty()) == Ok::<Seq<Term>, RuntimeError>(
                terms(stack@),
            ),
            Err(e) => eval_all(terms(program@), Seq::empty()) == Err::<Seq<Term>, RuntimeError>(e),
        },
{
    let mut stack: Vec<Value> = Vec::new();
    assert(terms(stack@) =~= Seq::<Term>::empty());
    match eval_sequence(program, &mut stack) {
        Ok(()) => Ok(stack),
        Err(e) => Err(e),
    }
}

} // verus!
