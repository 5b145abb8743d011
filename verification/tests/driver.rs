use stack_vm::interpreter::{parse, RunError};
use stack_vm::lexer::tokenize;
use stack_vm::parser::parse_tokens;
use stack_vm::render::display;
use stack_vm::value::{Operator, ParseError, RuntimeError, Value};

fn num(n: i32) -> Value {
    Value::Number(n)
}

fn op(o: Operator) -> Value {
    Value::Operator(o)
}

fn block(items: Vec<Value>) -> Value {
    Value::Block(items)
}

fn shown(input: &str) -> String {
    match parse(input) {
        Ok(stack) => display(&stack),
        Err(e) => panic!("{:?} failed with {:?}", input, e),
    }
}

#[test]
fn a_sum_leaves_one_number() {
    assert_eq!(parse("42 36 +"), Ok(vec![num(78)]));
}

#[test]
fn a_longer_line_is_folded_from_the_left() {
    assert_eq!(parse("100 36 22 - + 10 - 5 - 2 +"), Ok(vec![num(101)]));
    assert_eq!(parse("42 36 + 22 +"), Ok(vec![num(100)]));
    assert_eq!(parse("100 36 - 22 -"), Ok(vec![num(42)]));
    assert_eq!(parse("2 3 4 * +"), Ok(vec![num(14)]));
    assert_eq!(parse("20 3 /"), Ok(vec![num(6)]));
    assert_eq!(parse("-20 3 /"), Ok(vec![num(-6)]));
    assert_eq!(parse(""), Ok(vec![]));
}

#[test]
fn a_bare_block_is_pushed_as_it_stands() {
    assert_eq!(shown("1 2 + { 3 4 + } 5"), "3 { 3 4 + } 5");
    assert_eq!(
        parse("1 2 + { 3 4 + } 5"),
        Ok(vec![num(3), block(vec![num(3), num(4), op(Operator::Add)]), num(5)])
    );
}

#[test]
fn if_selects_by_the_condition() {
    assert_eq!(shown("{ 1 -1 + } { 100 } { -100 } if"), "-100");
    assert_eq!(shown("{ 1 1 + } { 100 } { -100 } if"), "100");
    assert_eq!(shown("5 { 0 } { 1 + } { 2 * } if"), "10");
    assert_eq!(shown("5 { 9 } { 1 + } { 2 * } if"), "6");
    assert_eq!(shown("{ { 0 } { 0 } { 1 } if } { 7 } { 8 } if"), "7");
}

#[test]
fn division_by_zero_fails() {
    assert_eq!(parse("5 0 /"), Err(RunError::Runtime(RuntimeError::DivisionByZero)));
    assert_eq!(
        parse("{ 1 } { 5 0 / } { 2 } if"),
        Err(RunError::Runtime(RuntimeError::DivisionByZero))
    );
}

#[test]
fn malformed_arithmetic_fails() {
    assert_eq!(parse("+"), Err(RunError::Runtime(RuntimeError::StackUnderflow)));
    assert_eq!(parse("1 +"), Err(RunError::Runtime(RuntimeError::StackUnderflow)));
    assert_eq!(parse("1 -"), Err(RunError::Runtime(RuntimeError::StackUnderflow)));
    assert_eq!(parse("*"), Err(RunError::Runtime(RuntimeError::StackUnderflow)));
    assert_eq!(parse("{ 1 } /"), Err(RunError::Runtime(RuntimeError::StackUnderflow)));
    assert_eq!(parse("1 { 2 } +"), Err(RunError::Runtime(RuntimeError::TypeMismatch)));
    assert_eq!(parse("{ 1 } 2 -"), Err(RunError::Runtime(RuntimeError::TypeMismatch)));
    assert_eq!(parse("{ 1 } { 2 } *"), Err(RunError::Runtime(RuntimeError::TypeMismatch)));
    assert_eq!(parse("{ 1 } 0 /"), Err(RunError::Runtime(RuntimeError::TypeMismatch)));
    assert_eq!(parse("if"), Err(RunError::Runtime(RuntimeError::StackUnderflow)));
    assert_eq!(parse("1 2 3 if"), Err(RunError::Runtime(RuntimeError::TypeMismatch)));
    assert_eq!(parse("{ } { 1 } { 2 } if"), Err(RunError::Runtime(RuntimeError::TypeMismatch)));
}

#[test]
fn a_line_that_does_not_parse_is_not_run() {
    assert_eq!(
        parse("1 2 + foo"),
        Err(RunError::Parse(ParseError::InvalidToken("foo".to_string())))
    );
    assert_eq!(
        parse("5 0 / foo"),
        Err(RunError::Parse(ParseError::InvalidToken("foo".to_string())))
    );
    assert_eq!(parse("5 0 / { 1"), Err(RunError::Parse(ParseError::UnterminatedBlock)));
    assert_eq!(parse("{"), Err(RunError::Parse(ParseError::UnterminatedBlock)));
    assert_eq!(parse("1 }"), Err(RunError::Parse(ParseError::InvalidToken("}".to_string()))));
}

#[test]
fn what_is_written_parses_to_what_was_there() {
    let programs = [
        "",
        "1",
        "1 2 +",
        "{ }",
        "{ { } }",
        "-5 { 1 { 2 3 * } if } / - + *",
        "{ 1 -1 + } { 100 } { -100 } if",
        "2147483647 -2147483648 0 -0 007",
    ];
    for text in programs.iter() {
        let tokens = tokenize(text);
        let program = parse_tokens(&tokens).unwrap();
        let written = display(&program);
        let again = parse_tokens(&tokenize(&written)).unwrap();
        assert_eq!(again, program, "{:?} was written as {:?}", text, written);
        assert_eq!(display(&again), written);
    }
}

#[test]
fn blocks_are_written_between_braces() {
    assert_eq!(display(&[]), "");
    assert_eq!(display(&[num(1)]), "1");
    assert_eq!(display(&[num(1), num(-2)]), "1 -2");
    assert_eq!(display(&[block(vec![])]), "{  }");
    assert_eq!(display(&[block(vec![num(3), num(4), op(Operator::Add)])]), "{ 3 4 + }");
    assert_eq!(
        display(&[op(Operator::Mul), block(vec![block(vec![op(Operator::If)]), op(Operator::Div)])]),
        "* { { if } / }"
    );
    assert_eq!(block(vec![num(1), block(vec![])]).display(), "{ 1 {  } }");
    assert_eq!(op(Operator::Sub).display(), "-");
}

#[test]
fn the_evaluator_folds_like_the_calculator() {
    let programs = [
        "42 36 +",
        "100 36 22 - + 10 - 5 - 2 +",
        "1 2 3 4 5 * * * *",
        "7 2 / 7 -2 / -7 2 /",
        "1 +",
        "1 0 /",
        "2147483647 1 +",
        "1 2 3 if",
        "1 if",
    ];
    for text in programs.iter() {
        let tokens = tokenize(text);
        let program = parse_tokens(&tokens).unwrap();
        let ints = stack_vm::calculator::calc(&program);
        let values = stack_vm::eval::calc(&program);
        match (ints, values) {
            (Ok(ints), Ok(values)) => {
                let lifted: Vec<Value> = ints.iter().map(|n| num(*n)).collect();
                assert_eq!(values, lifted);
                let texts: Vec<String> = ints.iter().map(|n| n.to_string()).collect();
                assert_eq!(display(&values), texts.join(" "));
            }
            (Err(a), Err(b)) => assert_eq!(a, b),
            (a, b) => panic!("{:?}: {:?} and {:?}", text, a, b),
        }
    }
}
