use stackcheck::abstract_interpreter::AbstractInterpreter;
use stackcheck::error::Error;
use stackcheck::parser::{Cycle, Parser};
use stackcheck::scanner::scan;
use stackcheck::typechecker::Type;

fn parse(input: &str) -> Result<Vec<Cycle>, Error> {
    let tokens = scan(input)?;
    let mut parser = Parser::new(tokens);
    parser.parse()
}

fn interpret(input: &str) -> Result<Type, Error> {
    let cycles = parse(input)?;
    for cycle in cycles {
        if let Cycle::Term(factors) = cycle {
            let interpreter = AbstractInterpreter::new();
            return interpreter.interpret(&factors);
        }
    }
    Err(Error::UnexpectedEndOfFile("".to_string()))
}

#[test]
fn literal_int() {
    let input = "1";
    let actual = interpret(input).unwrap();
    let expected = Type::Function(vec![], vec![Type::Int]);
    assert_eq!(actual, expected);
}

#[test]
fn literal_bool() {
    let input = "true";
    let actual = interpret(input).unwrap();
    let expected = Type::Function(vec![], vec![Type::Bool]);
    assert_eq!(actual, expected);
}

#[test]
fn literal_string() {
    let input = "\"hello\"";
    let actual = interpret(input).unwrap();
    let expected = Type::Function(vec![], vec![Type::String]);
    assert_eq!(actual, expected);
}

#[test]
fn literal_int_and_bool() {
    let input = "1 true";
    let actual = interpret(input).unwrap();
    let expected = Type::Function(vec![], vec![Type::Int, Type::Bool]);
    assert_eq!(actual, expected);
}

#[test]
fn literal_int_and_string() {
    let input = "1 \"hello\"";
    let actual = interpret(input).unwrap();
    let expected = Type::Function(vec![], vec![Type::Int, Type::String]);
    assert_eq!(actual, expected);
}

#[test]
fn literal_bool_and_string() {
    let input = "true \"hello\"";
    let actual = interpret(input).unwrap();
    let expected = Type::Function(vec![], vec![Type::Bool, Type::String]);
    assert_eq!(actual, expected);
}

#[test]
fn literal_int_and_bool_and_string() {
    let input = "1 true \"hello\"";
    let actual = interpret(input).unwrap();
    let expected = Type::Function(vec![], vec![Type::Int, Type::Bool, Type::String]);
    assert_eq!(actual, expected);
}

#[test]
fn dup_with_parameter() {
    let input = "dup";
    let actual = interpret(input).unwrap();
    let expected = Type::Function(vec![Type::Param(0)], vec![Type::Param(0), Type::Param(0)]);
    assert_eq!(actual, expected);
}

#[test]
fn dup_with_concrete_type() {
    let input = "1 dup";
    let actual = interpret(input).unwrap();
    let expected = Type::Function(vec![], vec![Type::Int, Type::Int]);
    assert_eq!(actual, expected);
}

#[test]
fn dup_with_leftovers() {
    let input = "1 2 dup";
    let actual = interpret(input).unwrap();
    let expected = Type::Function(vec![], vec![Type::Int, Type::Int, Type::Int]);
    assert_eq!(actual, expected);
}

#[test]
fn drop_with_parameter() {
    let input = "drop";
    let actual = interpret(input).unwrap();
    let expected = Type::Function(vec![Type::Param(0)], vec![]);
    assert_eq!(actual, expected);
}

#[test]
fn drop_with_concrete_type() {
    let input = "1 drop";
    let actual = interpret(input).unwrap();
    let expected = Type::Function(vec![], vec![]);
    assert_eq!(actual, expected);
}

#[test]
fn drop_with_leftovers() {
    let input = "1 2 drop";
    let actual = interpret(input).unwrap();
    let expected = Type::Function(vec![], vec![Type::Int]);
    assert_eq!(actual, expected);
}

#[test]
fn quote_with_parameter() {
    let input = "quote";
    let actual = interpret(input).unwrap();
    let expected = Type::Function(
        vec![Type::Param(0)],
        vec![Type::Function(vec![], vec![Type::Param(0)])],
    );
    assert_eq!(actual, expected);
}

#[test]
fn quote_with_concrete_type() {
    let input = "1 quote";
    let actual = interpret(input).unwrap();
    let expected = Type::Function(vec![], vec![Type::Function(vec![], vec![Type::Int])]);
    assert_eq!(actual, expected);
}

#[test]
fn quote_with_leftovers() {
    let input = "1 2 quote";
    let actual = interpret(input).unwrap();
    let expected = Type::Function(
        vec![],
        vec![Type::Int, Type::Function(vec![], vec![Type::Int])],
    );
    assert_eq!(actual, expected);
}

#[test]
fn call_with_parameter() {
    let input = "call";
    let actual = interpret(input).unwrap();
    let expected = Type::Function(vec![Type::Param(0)], vec![]);
    assert_eq!(actual, expected);
}

#[test]
fn call_with_concrete_type() {
    let input = "[1] call";
    let actual = interpret(input).unwrap();
    let expected = Type::Function(vec![], vec![Type::Int]);
    assert_eq!(actual, expected);
}

#[test]
fn call_with_leftovers() {
    let input = "1 [2] call";
    let actual = interpret(input).unwrap();
    let expected = Type::Function(vec![], vec![Type::Int, Type::Int]);
    assert_eq!(actual, expected);
}

#[test]
fn call_with_multiple_returns() {
    let input = "[1 2] call";
    let actual = interpret(input).unwrap();
    let expected = Type::Function(vec![], vec![Type::Int, Type::Int]);
    assert_eq!(actual, expected);
}

#[test]
fn call_dup_using_previous_stack() {
    let input = "1 [dup] call";
    let actual = interpret(input).unwrap();
    let expected = Type::Function(vec![], vec![Type::Int, Type::Int]);
    assert_eq!(actual, expected);
}

#[test]
fn call_dup_multiple_times() {
    let input = "[1 dup dup] call";
    let actual = interpret(input).unwrap();
    let expected = Type::Function(vec![], vec![Type::Int, Type::Int, Type::Int]);
    assert_eq!(actual, expected);
}

#[test]
fn call_drop_using_previous_stack() {
    let input = "1 [drop] call";
    let actual = interpret(input).unwrap();
    let expected = Type::Function(vec![], vec![]);
    assert_eq!(actual, expected);
}

#[test]
fn call_drop_multiple_times() {
    let input = "1 1 [drop drop] call";
    let actual = interpret(input).unwrap();
    let expected = Type::Function(vec![], vec![]);
    assert_eq!(actual, expected);
}

#[test]
fn call_quote_using_previous_stack() {
    let input = "1 [quote] call";
    let actual = interpret(input).unwrap();
    let expected = Type::Function(vec![], vec![Type::Function(vec![], vec![Type::Int])]);
    assert_eq!(actual, expected);
}

#[test]
fn call_quote_multiple_times() {
    let input = "1 [quote 1 quote] call";
    let actual = interpret(input).unwrap();
    let expected = Type::Function(
        vec![],
        vec![
            Type::Function(vec![], vec![Type::Int]),
            Type::Function(vec![], vec![Type::Int]),
        ],
    );
    assert_eq!(actual, expected);
}

#[test]
fn empty_term_types_as_empty_effect() {
    let interpreter = AbstractInterpreter::new();
    let actual = interpreter.interpret(&vec![]).unwrap();
    let expected = Type::Function(vec![], vec![]);
    assert_eq!(actual, expected);
}

#[test]
fn swap_with_literals() {
    let input = "1 true swap";
    let actual = interpret(input).unwrap();
    let expected = Type::Function(vec![], vec![Type::Bool, Type::Int]);
    assert_eq!(actual, expected);
}

#[test]
fn swap_with_parameters() {
    let input = "swap";
    let actual = interpret(input).unwrap();
    let expected = Type::Function(
        vec![Type::Param(0), Type::Param(1)],
        vec![Type::Param(0), Type::Param(1)],
    );
    assert_eq!(actual, expected);
}

#[test]
fn cat_composes_quotations() {
    let input = "[1] [dup] cat";
    let actual = interpret(input).unwrap();
    let expected = Type::Function(
        vec![],
        vec![Type::Function(vec![], vec![Type::Int, Type::Int])],
    );
    assert_eq!(actual, expected);
}

#[test]
fn cat_on_parameters_constrains_them_to_functions() {
    let input = "cat";
    let actual = interpret(input).unwrap();
    let expected = Type::Function(
        vec![Type::Param(0), Type::Param(1)],
        vec![Type::Function(vec![Type::Param(2)], vec![])],
    );
    assert_eq!(actual, expected);
}

#[test]
fn cat_rejects_a_ground_operand() {
    let err = interpret("1 2 cat").unwrap_err();
    match err {
        Error::TypeError(message, _) => {
            assert_eq!(message, "Expected function but got Int");
        }
        other => panic!("Expected TypeError, got {:?}", other),
    }
}

#[test]
fn ifte_rejects_mismatched_operands() {
    let err = interpret("[drop true] ifte").unwrap_err();
    match err {
        Error::TypeError(message, _) => {
            assert_eq!(
                message,
                "Expected Function([Bool], [Param(1)]) but got Function([Param(0)], [Bool])"
            );
        }
        other => panic!("Expected TypeError, got {:?}", other),
    }
}

#[test]
fn unknown_identifier_is_rejected_with_its_token() {
    let err = interpret("1 oops").unwrap_err();
    match err {
        Error::TypeError(message, token) => {
            assert_eq!(message, "Unknown identifier oops");
            assert_eq!(token.value, "oops");
        }
        other => panic!("Expected TypeError, got {:?}", other),
    }
}

#[test]
fn parameters_are_numbered_in_mint_order() {
    let input = "drop drop";
    let actual = interpret(input).unwrap();
    let expected = Type::Function(vec![Type::Param(0), Type::Param(1)], vec![]);
    assert_eq!(actual, expected);
}

#[test]
fn nested_quotations_restart_parameter_numbering() {
    let input = "[dup] [drop]";
    let actual = interpret(input).unwrap();
    let expected = Type::Function(
        vec![],
        vec![
            Type::Function(vec![Type::Param(0)], vec![Type::Param(0), Type::Param(0)]),
            Type::Function(vec![Type::Param(0)], vec![]),
        ],
    );
    assert_eq!(actual, expected);
}

#[test]
fn inference_gives_the_same_type_on_every_run() {
    let first = interpret("1 [dup] call").unwrap();
    let second = interpret("1 [dup] call").unwrap();
    assert_eq!(first, second);
}
