//! The arithmetic of the machine: 32-bit signed integers, wrapping around on
//! overflow, with division that rounds toward zero.

use crate::value::{Operator, RuntimeError};
use vstd::prelude::*;

verus! {

/// The 32-bit signed integer that differs from `x` by a multiple of 2^32.
pub open spec fn wrap(x: int) -> i32 {
    let r = x % 0x1_0000_0000;
    if r > i32::MAX {
        (r - 0x1_0000_0000) as i32
    } else {
        r as i32
    }
}

/// The quotient of `a` by `b`, rounded toward zero, for `b` other than 0.
pub open spec fn quotient(a: int, b: int) -> int {
    if a >= 0 && b > 0 {
        a / b
    } else if a < 0 && b < 0 {
        (-a) / (-b)
    } else if a < 0 {
        -((-a) / b)
    } else {
        -(a / (-b))
    }
}

/// `op` is one of the four arithmetic operators.
pub open spec fn is_arithmetic(op: Operator) -> bool {
    op != Operator::If
}

/// The result of `lhs <op> rhs` for an arithmetic operator: the exact
/// result, wrapped into 32 bits. Division by zero is an error. `if` is no
/// arithmetic and takes no numbers: for it the result is a type mismatch.
pub open spec fn arith(op: Operator, lhs: i32, rhs: i32) -> Result<i32, RuntimeError> {
    match op {
        Operator::Add => Ok(wrap(lhs + rhs)),
        Operator::Sub => Ok(wrap(lhs - rhs)),
        Operator::Mul => Ok(wrap(lhs * rhs)),
        Operator::Div => if rhs == 0 {
            Err(RuntimeError::DivisionByZero)
        } else {
            Ok(wrap(quotient(lhs as int, rhs as int)))
        },
        Operator::If => Err(RuntimeError::TypeMismatch),
    }
}

/// Computes `lhs <op> rhs` for an arithmetic operator.
pub fn compute(op: Operator, lhs: i32, rhs: i32) -> (result: Result<i32, RuntimeError>)
    ensures
        result == arith(op, lhs, rhs),
{
    match op {
        Operator::Add => Ok(lhs.wrapping_add(rhs)),
        Operator::Sub => Ok(lhs.wrapping_sub(rhs)),
        Operator::Mul => Ok(lhs.wrapping_mul(rhs)),
        Operator::Div => {
            if rhs == 0 {
                Err(RuntimeError::DivisionByZero)
            } else {
                match lhs.checked_div(rhs) {
                    Some(q) => Ok(q),
                    None => Ok(i32::MIN),
                }
            }
        },
        Operator::If => Err(RuntimeError::TypeMismatch),
    }
}

} // verus!
