use stack_vm::interpreter::parse;
use stack_vm::render::display;

#[test]
fn test_if() {
    let inputs = [
        ("{ 1 -1 + } { 100 } { -100 } if", "-100"),
        ("{ 1 1 + } { 100 } { -100 } if", "100"),
    ];
    for (input, expected) in inputs.iter() {
        let Ok(result) = parse(input) else {
            panic!("Failed to parse input: {}", input);
        };
        assert_eq!(display(&result), *expected);
    }
}
