//! The plain calculator: postfix arithmetic on a stack of integers.
//!
//! This is the machine without blocks. A program of numbers and operators
//! is folded from left to right over the stack; an operator pops its right
//! operand first and its left operand second.

use crate::arith::{arith, compute};
use crate::value::{lemma_terms, terms, Operator, RuntimeError, Term, Value};
use vstd::prelude::*;

verus! {

/// Applying an operator to a stack of integers. An arithmetic operator
/// replaces the two topmost integers by `lhs <op> rhs`, where `rhs` is the
/// topmost. `if` asks for three blocks, which a stack of integers never
/// holds.
pub open spec fn apply_ints(op: Operator, stack: Seq<i32>) -> Result<Seq<i32>, RuntimeError> {
    let n = stack.len() as int;
    match op {
        Operator::If => if n < 3 {
            Err(RuntimeError::StackUnderflow)
        } else {
            Err(RuntimeError::TypeMismatch)
        },
        _ => if n < 2 {
            Err(RuntimeError::StackUnderflow)
        } else {
            match arith(op, stack[n - 2], stack[n - 1]) {
                Ok(v) => Ok(stack.take(n - 2).push(v)),
                Err(e) => Err(e),
            }
        },
    }
}

/// One item of a program applied to a stack of integers: a number is
/// pushed, an operator is applied, and a block is a type mismatch.
pub open spec fn step_ints(t: Term, stack: Seq<i32>) -> Result<Seq<i32>, RuntimeError> {
    match t {
        Term::Number(n) => Ok(stack.push(n)),
        Term::Operator(op) => apply_ints(op, stack),
        Term::Block(_) => Err(RuntimeError::TypeMismatch),
    }
}

/// A program applied to a stack of integers, item by item from the left,
/// up to the first error.
pub open spec fn run_ints(ts: Seq<Term>, stack: Seq<i32>) -> Result<Seq<i32>, RuntimeError>
    decreases ts.len(),
{
    if ts.len() == 0 {
        Ok(stack)
    } else {
        match step_ints(ts[0], stack) {
            Ok(next) => run_ints(ts.skip(1), next),
            Err(e) => Err(e),
        }
    }
}

/// Pushes an integer.
pub fn push(stack: &mut Vec<i32>, value: i32)
    ensures
        final(stack)@ == old(stack)@.push(value),
{
    stack.push(value);
}

/// Applies an operator to the stack. On an error the stack is left as it
/// was.
pub fn apply(op: Operator, stack: &mut Vec<i32>) -> (result: Result<(), RuntimeError>)
    ensures
        match result {
            Ok(()) => apply_ints(op, old(stack)@) == Ok::<Seq<i32>, RuntimeError>(final(stack)@),
            Err(e) => apply_ints(op, old(stack)@) == Err::<Seq<i32>, RuntimeError>(e)
                && final(stack)@ == old(stack)@,
        },
{
    let n = stack.len();
    match op {
        Operator::If => {
            if n < 3 {
                Err(RuntimeError::StackUnderflow)
            } else {
                Err(RuntimeError::TypeMismatch)
            }
        },
        _ => {
            if n < 2 {
                return Err(RuntimeError::StackUnderflow);
            }
            let rhs = stack[n - 1];
            let lhs = stack[n - 2];
            match compute(op, lhs, rhs) {
                Ok(v) => {
                    stack.pop();
                    stack.pop();
                    stack.push(v);
                    assert(stack@ =~= old(stack)@.take(n - 2).push(v));
                    Ok(())
                },
                Err(e) => Err(e),
            }
        },
    }
}

/// Replaces the two topmost integers by their sum. Fails with
/// `StackUnderflow`, and changes nothing, if the stack holds fewer than two.
pub fn add(stack: &mut Vec<i32>) -> (result: Result<(), RuntimeError>)
    ensures
        match result {
            Ok(()) => apply_ints(Operator::Add, old(stack)@) == Ok::<Seq<i32>, RuntimeError>(
                final(stack)@,
            ),
            Err(e) => e == RuntimeError::StackUnderflow && old(stack)@.len() < 2 && final(stack)@
                == old(stack)@,
        },
{
    apply(Operator::Add, stack)
}

/// Replaces the two topmost integers by `lhs - rhs`, `rhs` being the
/// topmost. Fails with `StackUnderflow`, and changes nothing, if the stack
/// holds fewer than two.
pub fn sub(stack: &mut Vec<i32>) -> (result: Result<(), RuntimeError>)
    ensures
        match result {
            Ok(()) => apply_ints(Operator::Sub, old(stack)@) == Ok::<Seq<i32>, RuntimeError>(
                final(stack)@,
            ),
            Err(e) => e == RuntimeError::StackUnderflow && old(stack)@.len() < 2 && final(stack)@
                == old(stack)@,
        },
{
    apply(Operator::Sub, stack)
}

/// Replaces the two topmost integers by their product. Fails with
/// `StackUnderflow`, and changes nothing, if the stack holds fewer than two.
pub fn mul(stack: &mut Vec<i32>) -> (result: Result<(), RuntimeError>)
    ensures
        match result {
            Ok(()) => apply_ints(Operator::Mul, old(stack)@) == Ok::<Seq<i32>, RuntimeError>(
                final(stack)@,
            ),
            Err(e) => e == RuntimeError::StackUnderflow && old(stack)@.len() < 2 && final(stack)@
                == old(stack)@,
        },
{
    apply(Operator::Mul, stack)
}

/// Replaces the two topmost integers by `lhs / rhs`, `rhs` being the
/// topmost. Fails with `StackUnderflow` if the stack holds fewer than two,
/// else with `DivisionByZero` if `rhs` is 0; either way it changes nothing.
pub fn div(stack: &mut Vec<i32>) -> (result: Result<(), RuntimeError>)
    ensures
        match result {
            Ok(()) => apply_ints(Operator::Div, old(stack)@) == Ok::<Seq<i32>, RuntimeError>(
                final(stack)@,
            ),
            Err(e) => {
                &&& final(stack)@ == old(stack)@
                &&& e == RuntimeError::StackUnderflow <==> old(stack)@.len() < 2
                &&& e == RuntimeError::DivisionByZero <==> old(stack)@.len() >= 2 && old(
                    stack,
                )@.last() == 0
                &&& e != RuntimeError::TypeMismatch
            },
        },
{
    apply(Operator::Div, stack)
}

/// Runs a program on an empty stack of integers and returns the stack. The
/// program may hold numbers and operators; a block is a type mismatch.
pub fn calc(program: &[Value]) -> (result: Result<Vec<i32>, RuntimeError>)
    ensures
        match result {
            Ok(stack) => run_ints(terms(program@), Seq::empty()) == Ok::<
                Seq<i32>,
                RuntimeError,
            >(stack@),
            Err(e) => run_ints(terms(program@), Seq::empty()) == Err::<Seq<i32>, RuntimeError>(e),
        },
{
    let mut stack: Vec<i32> = Vec::new();
    let mut i: usize = 0;
    let ghost ts = terms(program@);
    proof {
        lemma_terms(program@);
        assert(ts.skip(0) =~= ts);
    }
    while i < program.len()
        invariant
            i <= program.len(),
            ts == terms(program@),
            ts.len() == program@.len(),
            forall|j: int| 0 <= j < program@.len() ==> #[trigger] ts[j] == program@[j]@,
            run_ints(ts.skip(i as int), stack@) == run_ints(ts, Seq::empty()),
        decreases program.len() - i,
    {
        let ghost ahead = ts.skip(i as int);
        proof {
            assert(ahead[0] == program@[i as int]@);
            assert(ahead.skip(1) =~= ts.skip(i + 1));
        }
        match &program[i] {
            Value::Number(n) => {
                stack.push(*n);
            },
            Value::Operator(op) => {
                match apply(*op, &mut stack) {
                    Ok(()) => {},
                    Err(e) => {
                        return Err(e);
                    },
                }
            },
            Value::Block(_) => {
                return Err(RuntimeError::TypeMismatch);
            },
        }
        i += 1;
    }
    Ok(stack)
}

} // verus!
