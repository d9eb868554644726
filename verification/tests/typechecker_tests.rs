use stackcheck::error::Error;
use stackcheck::parser::{Cycle, Parser};
use stackcheck::scanner::scan;
use stackcheck::typechecker::{Type, TypeChecker};

fn parse(input: &str) -> Result<Vec<Cycle>, Error> {
    let tokens = scan(input)?;
    let mut parser = Parser::new(tokens);
    parser.parse()
}

#[test]
fn recognizes_unknown_identifiers() {
    let input = parse("[a b c]").unwrap();
    let mut typechecker = TypeChecker::new();
    let error = typechecker.check(&input).unwrap_err();
    match error {
        Error::TypeError(message, token) => {
            assert_eq!(message, "Unknown identifier a");
            assert_eq!(token.value, "a");
        }
        _ => panic!("Expected TypeError"),
    }
}

#[test]
fn allows_known_identifiers() {
    let input = parse("[dup drop dup]").unwrap();
    let mut typechecker = TypeChecker::new();
    typechecker.check(&input).unwrap();
}

#[test]
fn gets_correct_simple_type() {
    let input = parse("1 2 +").unwrap();
    let mut typechecker = TypeChecker::new();
    let t = typechecker.check_cycle(&input[0]).unwrap();
    match t {
        Type::Function(ref t_in, ref t_out) => {
            assert_eq!(t_in.len(), 0);
            assert_eq!(t_out.len(), 1);
            assert_eq!(t_out[0], Type::Int);
        }
        _ => panic!("Expected Function"),
    }
}

#[test]
fn gets_correct_param_types() {
    // A quotation denotes a value: the top-level term pushes the inferred
    // function type of the quoted term.
    let input = parse("[dup drop dup]").unwrap();
    let mut typechecker = TypeChecker::new();
    let t = typechecker.check_cycle(&input[0]).unwrap();
    match t {
        Type::Function(ref t_in, ref t_out) => {
            assert_eq!(t_in.len(), 0);
            assert_eq!(t_out.len(), 1);
            match &t_out[0] {
                Type::Function(q_in, q_out) => {
                    assert_eq!(q_in.len(), 1);
                    assert_eq!(q_in[0], Type::Param(0));
                    assert_eq!(q_out.len(), 2);
                    assert_eq!(q_out[0], Type::Param(0));
                    assert_eq!(q_out[1], Type::Param(0));
                }
                _ => panic!("Expected Function, got {:?}", t_out[0]),
            }
        }
        _ => panic!("Expected Function"),
    }
}

#[test]
fn gets_correct_param_types_complicated() {
    // The quotation's own type keeps the declared input order of `ifte`;
    // the top level pushes it as a value.
    let input = parse("[ifte dup drop]").unwrap();
    let mut typechecker = TypeChecker::new();
    let t = typechecker.check_cycle(&input[0]).unwrap();
    match t {
        Type::Function(ref t_in, ref t_out) => {
            assert_eq!(t_in.len(), 0);
            assert_eq!(t_out.len(), 1);
            match &t_out[0] {
                Type::Function(q_in, q_out) => {
                    assert_eq!(q_in.len(), 3);
                    assert_eq!(q_in[0], Type::Function(vec![Type::Param(0)], vec![Type::Bool]));
                    assert_eq!(q_in[1], Type::Function(vec![Type::Bool], vec![Type::Param(1)]));
                    assert_eq!(q_in[2], Type::Function(vec![Type::Bool], vec![Type::Param(1)]));
                    assert_eq!(q_out.len(), 1);
                    assert_eq!(q_out[0], Type::Param(1));
                }
                _ => panic!("Expected Function, got {:?}", t_out[0]),
            }
        }
        _ => panic!("Expected Function"),
    }
}

#[test]
fn checker_binds_parameters_to_ground_actuals() {
    let input = parse("1 dup").unwrap();
    let mut typechecker = TypeChecker::new();
    let t = typechecker.check_cycle(&input[0]).unwrap();
    assert_eq!(t, Type::Function(vec![], vec![Type::Int, Type::Int]));
}

#[test]
fn checker_rejects_mismatched_argument() {
    let input = parse("1 true +").unwrap();
    let mut typechecker = TypeChecker::new();
    let error = typechecker.check(&input).unwrap_err();
    match error {
        Error::TypeError(message, _) => {
            assert_eq!(message, "Expected Int but got Bool");
        }
        other => panic!("Expected TypeError, got {:?}", other),
    }
}

#[test]
fn checker_and_inferencer_agree_on_a_quotation() {
    // Both engines give a quotation the pushed-value type of spec section 3.
    let input = parse("[dup]").unwrap();
    let mut typechecker = TypeChecker::new();
    let t = typechecker.check_cycle(&input[0]).unwrap();
    let expected = Type::Function(
        vec![],
        vec![Type::Function(vec![Type::Param(0)], vec![Type::Param(0), Type::Param(0)])],
    );
    assert_eq!(t, expected);
}

#[test]
fn definition_extends_the_environment() {
    let input = parse("def a : Int = 1 ; a").unwrap();
    let mut typechecker = TypeChecker::new();
    typechecker.check(&input).unwrap();
}

#[test]
fn definition_body_must_match_declared_type() {
    let input = parse("def a : Int = true ;").unwrap();
    let mut typechecker = TypeChecker::new();
    let error = typechecker.check(&input).unwrap_err();
    match error {
        Error::TypeError(message, _) => {
            assert_eq!(message, "Declared type does not match inferred type for a");
        }
        other => panic!("Expected TypeError, got {:?}", other),
    }
}

#[test]
fn definition_may_refer_to_its_own_name() {
    let input = parse("def f : (Int -> Int) = f ;").unwrap();
    let mut typechecker = TypeChecker::new();
    let t = typechecker.check_cycle(&input[0]);
    assert!(t.is_ok());
}

#[test]
fn unknown_type_name_is_a_type_error() {
    let input = parse("def a : Foo = 1 ;").unwrap();
    let mut typechecker = TypeChecker::new();
    let error = typechecker.check(&input).unwrap_err();
    match error {
        Error::TypeError(message, token) => {
            assert_eq!(message, "Unknown type Foo");
            assert_eq!(token.value, "Foo");
        }
        other => panic!("Expected TypeError, got {:?}", other),
    }
}

#[test]
fn bad_name_inside_function_annotation_is_reported_at_the_paren() {
    let input = parse("def a : (Foo -> Int) = 1 ;").unwrap();
    let mut typechecker = TypeChecker::new();
    let error = typechecker.check(&input).unwrap_err();
    match error {
        Error::TypeError(message, token) => {
            assert_eq!(message, "Error in function type");
            assert_eq!(token.value, "(");
        }
        other => panic!("Expected TypeError, got {:?}", other),
    }
}

#[test]
fn function_annotation_resolves_componentwise() {
    let input = parse("def a : (Int, String -> Int, String) = 1 ;").unwrap();
    match &input[0] {
        Cycle::Definition(_, annotation, _) => {
            let typechecker = TypeChecker::new();
            let t = typechecker.type_from_annotation(annotation).unwrap();
            assert_eq!(
                t,
                Type::Function(
                    vec![Type::Int, Type::String],
                    vec![Type::Int, Type::String],
                )
            );
        }
        other => panic!("Expected Definition, got {:?}", other),
    }
}

#[test]
fn builtin_comparison_types() {
    let input = parse("1 2 <").unwrap();
    let mut typechecker = TypeChecker::new();
    let t = typechecker.check_cycle(&input[0]).unwrap();
    assert_eq!(t, Type::Function(vec![], vec![Type::Bool]));
}

#[test]
fn builtin_boolean_words() {
    let input = parse("true false and not").unwrap();
    let mut typechecker = TypeChecker::new();
    let t = typechecker.check_cycle(&input[0]).unwrap();
    assert_eq!(t, Type::Function(vec![], vec![Type::Bool]));
}

#[test]
fn later_definitions_shadow_earlier_ones() {
    let input = parse("def a : Int = 1 ; def a : Bool = true ; a").unwrap();
    let mut typechecker = TypeChecker::new();
    typechecker.check(&input).unwrap();
}
