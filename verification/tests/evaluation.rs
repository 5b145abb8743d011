use stack_vm::eval::{add, apply, div, eval, eval_sequence, mul, op_if, sub};
use stack_vm::value::{clone_values, Operator, RuntimeError, Value};

fn num(n: i32) -> Value {
    Value::Number(n)
}

fn op(o: Operator) -> Value {
    Value::Operator(o)
}

fn block(items: Vec<Value>) -> Value {
    Value::Block(items)
}

#[test]
fn numbers_and_blocks_are_pushed() {
    let mut stack = vec![];
    assert_eq!(eval(num(5), &mut stack), Ok(()));
    assert_eq!(eval(block(vec![num(1), op(Operator::Add)]), &mut stack), Ok(()));
    assert_eq!(stack, vec![num(5), block(vec![num(1), op(Operator::Add)])]);
}

#[test]
fn arithmetic_replaces_two_numbers_by_one() {
    let mut stack = vec![num(9), num(42), num(36)];
    assert_eq!(add(&mut stack), Ok(()));
    assert_eq!(stack, vec![num(9), num(78)]);
    let mut stack = vec![num(10), num(4)];
    assert_eq!(sub(&mut stack), Ok(()));
    assert_eq!(stack, vec![num(6)]);
    let mut stack = vec![num(-6), num(7)];
    assert_eq!(mul(&mut stack), Ok(()));
    assert_eq!(stack, vec![num(-42)]);
    let mut stack = vec![num(7), num(2)];
    assert_eq!(div(&mut stack), Ok(()));
    assert_eq!(stack, vec![num(3)]);
    let mut stack = vec![num(-7), num(2)];
    assert_eq!(div(&mut stack), Ok(()));
    assert_eq!(stack, vec![num(-3)]);
    let mut stack = vec![num(7), num(2)];
    assert_eq!(eval(op(Operator::Sub), &mut stack), Ok(()));
    assert_eq!(stack, vec![num(5)]);
    let mut stack = vec![num(7), num(2)];
    assert_eq!(apply(Operator::Mul, &mut stack), Ok(()));
    assert_eq!(stack, vec![num(14)]);
}

#[test]
fn arithmetic_wraps_around() {
    let mut stack = vec![num(i32::MAX), num(1)];
    assert_eq!(add(&mut stack), Ok(()));
    assert_eq!(stack, vec![num(i32::MIN)]);
    let mut stack = vec![num(i32::MIN), num(1)];
    assert_eq!(sub(&mut stack), Ok(()));
    assert_eq!(stack, vec![num(i32::MAX)]);
    let mut stack = vec![num(i32::MAX), num(i32::MAX)];
    assert_eq!(mul(&mut stack), Ok(()));
    assert_eq!(stack, vec![num(1)]);
    let mut stack = vec![num(i32::MIN), num(-1)];
    assert_eq!(div(&mut stack), Ok(()));
    assert_eq!(stack, vec![num(i32::MIN)]);
}

#[test]
fn too_few_operands_are_an_underflow() {
    let operators = [Operator::Add, Operator::Sub, Operator::Mul, Operator::Div];
    for o in operators.iter() {
        let mut stack = vec![];
        assert_eq!(eval(op(*o), &mut stack), Err(RuntimeError::StackUnderflow));
        assert_eq!(stack, vec![]);
        let mut stack = vec![num(1)];
        assert_eq!(eval(op(*o), &mut stack), Err(RuntimeError::StackUnderflow));
        assert_eq!(stack, vec![num(1)]);
        let mut stack = vec![block(vec![])];
        assert_eq!(eval(op(*o), &mut stack), Err(RuntimeError::StackUnderflow));
    }
}

#[test]
fn an_operand_that_is_no_number_is_a_type_mismatch() {
    let operators = [Operator::Add, Operator::Sub, Operator::Mul, Operator::Div];
    for o in operators.iter() {
        let mut stack = vec![num(1), block(vec![num(2)])];
        assert_eq!(eval(op(*o), &mut stack), Err(RuntimeError::TypeMismatch));
        assert_eq!(stack, vec![num(1), block(vec![num(2)])]);
        let mut stack = vec![block(vec![num(2)]), num(1)];
        assert_eq!(eval(op(*o), &mut stack), Err(RuntimeError::TypeMismatch));
        let mut stack = vec![block(vec![]), block(vec![])];
        assert_eq!(eval(op(*o), &mut stack), Err(RuntimeError::TypeMismatch));
        let mut stack = vec![num(1), op(Operator::Add)];
        assert_eq!(apply(*o, &mut stack), Err(RuntimeError::TypeMismatch));
    }
    let mut stack = vec![block(vec![]), num(0)];
    assert_eq!(div(&mut stack), Err(RuntimeError::TypeMismatch));
}

#[test]
fn division_by_zero_is_an_error() {
    let mut stack = vec![num(5), num(0)];
    assert_eq!(div(&mut stack), Err(RuntimeError::DivisionByZero));
    assert_eq!(stack, vec![num(5), num(0)]);
    let mut stack = vec![num(0), num(0)];
    assert_eq!(eval(op(Operator::Div), &mut stack), Err(RuntimeError::DivisionByZero));
    let mut stack = vec![num(0), num(5)];
    assert_eq!(div(&mut stack), Ok(()));
    assert_eq!(stack, vec![num(0)]);
}

#[test]
fn a_nonzero_condition_takes_the_true_branch() {
    let mut stack = vec![
        num(7),
        block(vec![num(1), num(1), op(Operator::Add)]),
        block(vec![num(100)]),
        block(vec![num(-100)]),
    ];
    assert_eq!(op_if(&mut stack), Ok(()));
    assert_eq!(stack, vec![num(7), num(100)]);
    let mut stack = vec![block(vec![num(-3)]), block(vec![num(1)]), block(vec![num(2)])];
    assert_eq!(eval(op(Operator::If), &mut stack), Ok(()));
    assert_eq!(stack, vec![num(1)]);
}

#[test]
fn a_zero_condition_takes_the_false_branch() {
    let mut stack = vec![
        block(vec![num(1), num(-1), op(Operator::Add)]),
        block(vec![num(100)]),
        block(vec![num(-100)]),
    ];
    assert_eq!(op_if(&mut stack), Ok(()));
    assert_eq!(stack, vec![num(-100)]);
}

#[test]
fn branches_work_on_the_stack_of_the_caller() {
    let mut stack = vec![
        num(10),
        num(4),
        block(vec![num(1)]),
        block(vec![op(Operator::Sub)]),
        block(vec![op(Operator::Add)]),
    ];
    assert_eq!(op_if(&mut stack), Ok(()));
    assert_eq!(stack, vec![num(6)]);
    let mut stack = vec![
        num(10),
        num(4),
        block(vec![num(0)]),
        block(vec![op(Operator::Sub)]),
        block(vec![op(Operator::Add), num(1), block(vec![num(2)])]),
    ];
    assert_eq!(op_if(&mut stack), Ok(()));
    assert_eq!(stack, vec![num(14), num(1), block(vec![num(2)])]);
    let mut stack = vec![block(vec![num(1)]), block(vec![]), block(vec![num(9)])];
    assert_eq!(op_if(&mut stack), Ok(()));
    assert_eq!(stack, vec![]);
}

#[test]
fn if_needs_three_blocks() {
    let mut stack = vec![];
    assert_eq!(op_if(&mut stack), Err(RuntimeError::StackUnderflow));
    let mut stack = vec![block(vec![]), block(vec![])];
    assert_eq!(op_if(&mut stack), Err(RuntimeError::StackUnderflow));
    let mut stack = vec![num(1), num(2)];
    assert_eq!(eval(op(Operator::If), &mut stack), Err(RuntimeError::StackUnderflow));
    let mut stack = vec![num(1), block(vec![]), block(vec![])];
    assert_eq!(op_if(&mut stack), Err(RuntimeError::TypeMismatch));
    let mut stack = vec![block(vec![num(1)]), num(1), block(vec![])];
    assert_eq!(op_if(&mut stack), Err(RuntimeError::TypeMismatch));
    let mut stack = vec![block(vec![num(1)]), block(vec![]), op(Operator::Add)];
    assert_eq!(op_if(&mut stack), Err(RuntimeError::TypeMismatch));
    let mut stack = vec![num(1), num(2), num(3)];
    assert_eq!(op_if(&mut stack), Err(RuntimeError::TypeMismatch));
}

#[test]
fn the_condition_must_leave_one_number() {
    // nothing left
    let mut stack = vec![block(vec![]), block(vec![num(1)]), block(vec![num(2)])];
    assert_eq!(op_if(&mut stack), Err(RuntimeError::TypeMismatch));
    // nothing left, though the stack below is not empty
    let mut stack = vec![num(5), block(vec![]), block(vec![num(1)]), block(vec![num(2)])];
    assert_eq!(op_if(&mut stack), Err(RuntimeError::TypeMismatch));
    // two left
    let mut stack = vec![block(vec![num(1), num(2)]), block(vec![num(1)]), block(vec![num(2)])];
    assert_eq!(op_if(&mut stack), Err(RuntimeError::TypeMismatch));
    // one left, but a block
    let mut stack =
        vec![block(vec![block(vec![num(1)])]), block(vec![num(1)]), block(vec![num(2)])];
    assert_eq!(op_if(&mut stack), Err(RuntimeError::TypeMismatch));
    // the condition eats into the stack below
    let mut stack = vec![
        num(1),
        num(2),
        block(vec![op(Operator::Add)]),
        block(vec![num(1)]),
        block(vec![num(2)]),
    ];
    assert_eq!(op_if(&mut stack), Err(RuntimeError::TypeMismatch));
}

#[test]
fn errors_inside_if_come_out() {
    let mut stack = vec![
        block(vec![num(1), num(0), op(Operator::Div)]),
        block(vec![num(1)]),
        block(vec![num(2)]),
    ];
    assert_eq!(op_if(&mut stack), Err(RuntimeError::DivisionByZero));
    let mut stack =
        vec![block(vec![op(Operator::Add)]), block(vec![num(1)]), block(vec![num(2)])];
    assert_eq!(op_if(&mut stack), Err(RuntimeError::StackUnderflow));
    let mut stack =
        vec![block(vec![num(1)]), block(vec![op(Operator::Mul)]), block(vec![num(2)])];
    assert_eq!(op_if(&mut stack), Err(RuntimeError::StackUnderflow));
    let mut stack = vec![
        block(vec![num(0)]),
        block(vec![num(2)]),
        block(vec![block(vec![]), num(1), op(Operator::Sub)]),
    ];
    assert_eq!(op_if(&mut stack), Err(RuntimeError::TypeMismatch));
    // the branch that is not taken is never looked at
    let mut stack = vec![
        block(vec![num(1)]),
        block(vec![num(2)]),
        block(vec![num(1), num(0), op(Operator::Div)]),
    ];
    assert_eq!(op_if(&mut stack), Ok(()));
    assert_eq!(stack, vec![num(2)]);
}

#[test]
fn ifs_nest() {
    let inner = vec![
        block(vec![num(0)]),
        block(vec![num(10)]),
        block(vec![num(20)]),
        op(Operator::If),
    ];
    let mut stack = vec![block(inner.clone()), block(inner), block(vec![num(30)])];
    assert_eq!(op_if(&mut stack), Ok(()));
    assert_eq!(stack, vec![num(20)]);
    // an `if` inside the condition takes its blocks from the stack below
    let mut stack = vec![
        block(vec![num(1)]),
        block(vec![num(5)]),
        block(vec![num(6)]),
        block(vec![op(Operator::If)]),
        block(vec![num(7)]),
        block(vec![num(8)]),
    ];
    assert_eq!(op_if(&mut stack), Err(RuntimeError::TypeMismatch));
}

#[test]
fn a_sequence_stops_at_the_first_error() {
    let program = vec![num(1), num(2), op(Operator::Add), num(4), op(Operator::Mul)];
    let mut stack = vec![num(0)];
    assert_eq!(eval_sequence(&program, &mut stack), Ok(()));
    assert_eq!(stack, vec![num(0), num(12)]);
    let program = vec![num(1), op(Operator::Add), num(0), op(Operator::Div)];
    let mut stack = vec![];
    assert_eq!(eval_sequence(&program, &mut stack), Err(RuntimeError::StackUnderflow));
    let program = vec![num(1), num(0), op(Operator::Div), op(Operator::Add)];
    let mut stack = vec![];
    assert_eq!(eval_sequence(&program, &mut stack), Err(RuntimeError::DivisionByZero));
    let program: Vec<Value> = vec![];
    let mut stack = vec![num(3)];
    assert_eq!(eval_sequence(&program, &mut stack), Ok(()));
    assert_eq!(stack, vec![num(3)]);
    assert_eq!(stack_vm::eval::calc(&program), Ok(vec![]));
}

#[test]
fn values_are_copied_in_depth() {
    let v = block(vec![num(1), block(vec![op(Operator::If), block(vec![])]), num(3)]);
    assert_eq!(v.clone(), v);
    assert_eq!(num(5).clone(), num(5));
    assert_eq!(op(Operator::Div).clone(), op(Operator::Div));
    let list = vec![num(1), v.clone()];
    assert_eq!(clone_values(&list), list);
}

#[test]
fn a_value_is_asked_for_what_it_holds() {
    assert_eq!(num(5).as_num(), Ok(5));
    assert_eq!(block(vec![]).as_num(), Err(RuntimeError::TypeMismatch));
    assert_eq!(op(Operator::Add).as_num(), Err(RuntimeError::TypeMismatch));
    assert_eq!(block(vec![num(1), num(2)]).to_block(), Ok(vec![num(1), num(2)]));
    assert_eq!(block(vec![]).to_block(), Ok(vec![]));
    assert_eq!(num(5).to_block(), Err(RuntimeError::TypeMismatch));
    assert_eq!(op(Operator::If).to_block(), Err(RuntimeError::TypeMismatch));
}
