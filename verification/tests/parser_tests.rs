use stackcheck::error::Error;
use stackcheck::parser::{Cycle, Factor, Parser, TypeAnnotation, Value};
use stackcheck::scanner::scan;

#[test]
fn parses_simple_addition() {
    let tokens = scan("1 2 + ").unwrap();
    let mut parser = Parser::new(tokens);
    let cycles = parser.parse().unwrap();
    assert_eq!(cycles.len(), 1);
    match cycles[0] {
        Cycle::Term(ref terms) => {
            assert_eq!(terms.len(), 3);
            match terms[0] {
                Factor::Integer(Value::Integer(1), _) => {}
                _ => panic!("Expected 1, got {:?}", terms[0]),
            }
            match terms[1] {
                Factor::Integer(Value::Integer(2), _) => {}
                _ => panic!("Expected 2, got {:?}", terms[1]),
            }
            match &terms[2] {
                Factor::Identifier(s, _) if s == "+" => {}
                _ => panic!("Expected 3, got {:?}", terms[2]),
            }
        }
        _ => panic!("Expected Term, got {:?}", cycles[0]),
    }
}

#[test]
fn parses_strings() {
    let tokens = scan("\"Hello\"").unwrap();
    let mut parser = Parser::new(tokens);
    let cycles = parser.parse().unwrap();
    assert_eq!(cycles.len(), 1);
    match cycles[0] {
        Cycle::Term(ref terms) => {
            assert_eq!(terms.len(), 1);
            match &terms[0] {
                Factor::String(Value::String(s), _) if s == "Hello" => {}
                _ => panic!("Expected Hello, got {:?}", terms[0]),
            }
        }
        _ => panic!("Expected Term, got {:?}", cycles[0]),
    }
}

#[test]
fn terminates_if_given_a_bad_definition() {
    let tokens = scan("def a: Int = 1 [").unwrap();
    let mut parser = Parser::new(tokens);
    let error = parser.parse();
    assert!(error.is_err());
}

#[test]
fn parses_definitions() {
    let tokens = scan("def a: Int = 1;").unwrap();
    let mut parser = Parser::new(tokens);
    let cycles = parser.parse().unwrap();
    assert_eq!(cycles.len(), 1);
    match cycles[0] {
        Cycle::Definition(ref name, ref annotation, ref factors) => {
            assert_eq!(name, "a");
            match annotation {
                TypeAnnotation::Identifier(s, _) if s == "Int" => {}
                _ => panic!("Expected Int, got {:?}", annotation),
            }
            assert_eq!(factors.len(), 1);
            match &factors[0] {
                Factor::Integer(Value::Integer(1), _) => {}
                _ => panic!("Expected 1, got {:?}", factors[0]),
            }
        }
        _ => panic!("Expected Definition, got {:?}", cycles[0]),
    }
}

#[test]
fn parses_definitions_with_function_types() {
    let tokens = scan("def a: (Int, String -> Int, String) = 1 drop;").unwrap();
    let mut parser = Parser::new(tokens);
    let cycles = parser.parse().unwrap();
    assert_eq!(cycles.len(), 1);
    match cycles[0] {
        Cycle::Definition(ref name, ref annotation, ref factors) => {
            assert_eq!(name, "a");
            match annotation {
                TypeAnnotation::Function(ref in_types, out_types, _, _)
                    if in_types.len() == 2 && out_types.len() == 2 => {
                    match &in_types[0] {
                        TypeAnnotation::Identifier(s, _) if s == "Int" => {}
                        _ => panic!("Expected Int, got {:?}", in_types[0]),
                    }
                    match &in_types[1] {
                        TypeAnnotation::Identifier(s, _) if s == "String" => {}
                        _ => panic!("Expected String, got {:?}", in_types[1]),
                    }
                    match &out_types[0] {
                        TypeAnnotation::Identifier(s, _) if s == "Int" => {}
                        _ => panic!("Expected Int, got {:?}", out_types[0]),
                    }
                    match &out_types[1] {
                        TypeAnnotation::Identifier(s, _) if s == "String" => {}
                        _ => panic!("Expected String, got {:?}", out_types[0]),
                    }
                }
                _ => panic!("Expected Function, got {:?}", annotation),
            }
            assert_eq!(factors.len(), 2);
            match &factors[0] {
                Factor::Integer(Value::Integer(1), _) => {}
                _ => panic!("Expected 1, got {:?}", factors[0]),
            }
            match &factors[1] {
                Factor::Drop(_) => {}
                _ => panic!("Expected drop, got {:?}", factors[1]),
            }
        }
        _ => panic!("Expected Definition, got {:?}", cycles[0]),
    }
}

#[test]
fn missing_semicolon_is_unexpected_end_of_file() {
    let tokens = scan("def a: Int = 1").unwrap();
    let mut parser = Parser::new(tokens);
    match parser.parse().unwrap_err() {
        Error::UnexpectedEndOfFile(_) => {}
        other => panic!("Expected UnexpectedEndOfFile, got {:?}", other),
    }
}

#[test]
fn wrong_token_for_semicolon_is_unexpected_token() {
    let tokens = scan("def a: Int = 1 )").unwrap();
    let mut parser = Parser::new(tokens);
    match parser.parse().unwrap_err() {
        Error::UnexpectedToken(expected, actual) => {
            assert_eq!(expected, ";");
            assert_eq!(actual.value, ")");
        }
        other => panic!("Expected UnexpectedToken, got {:?}", other),
    }
}

#[test]
fn stray_terminal_token_is_rejected() {
    let tokens = scan("]").unwrap();
    let mut parser = Parser::new(tokens);
    match parser.parse().unwrap_err() {
        Error::UnexpectedToken(expected, actual) => {
            assert_eq!(expected, "factor");
            assert_eq!(actual.value, "]");
        }
        other => panic!("Expected UnexpectedToken, got {:?}", other),
    }
}

#[test]
fn signed_integer_literals_parse() {
    let tokens = scan("+5 -7").unwrap();
    let mut parser = Parser::new(tokens);
    let cycles = parser.parse().unwrap();
    match cycles[0] {
        Cycle::Term(ref terms) => {
            assert_eq!(terms.len(), 2);
            match terms[0] {
                Factor::Integer(Value::Integer(5), _) => {}
                _ => panic!("Expected 5, got {:?}", terms[0]),
            }
            match terms[1] {
                Factor::Integer(Value::Integer(-7), _) => {}
                _ => panic!("Expected -7, got {:?}", terms[1]),
            }
        }
        _ => panic!("Expected Term, got {:?}", cycles[0]),
    }
}

#[test]
fn extreme_integer_literals_parse_exactly() {
    let tokens = scan("-9223372036854775808 9223372036854775807").unwrap();
    let mut parser = Parser::new(tokens);
    let cycles = parser.parse().unwrap();
    match cycles[0] {
        Cycle::Term(ref terms) => {
            match terms[0] {
                Factor::Integer(Value::Integer(i), _) => assert_eq!(i, i64::MIN),
                _ => panic!("Expected i64::MIN, got {:?}", terms[0]),
            }
            match terms[1] {
                Factor::Integer(Value::Integer(i), _) => assert_eq!(i, i64::MAX),
                _ => panic!("Expected i64::MAX, got {:?}", terms[1]),
            }
        }
        _ => panic!("Expected Term, got {:?}", cycles[0]),
    }
}

#[test]
fn overflowing_number_becomes_an_identifier() {
    let tokens = scan("9223372036854775808").unwrap();
    let mut parser = Parser::new(tokens);
    let cycles = parser.parse().unwrap();
    match cycles[0] {
        Cycle::Term(ref terms) => {
            match &terms[0] {
                Factor::Identifier(s, _) if s == "9223372036854775808" => {}
                _ => panic!("Expected identifier, got {:?}", terms[0]),
            }
        }
        _ => panic!("Expected Term, got {:?}", cycles[0]),
    }
}

#[test]
fn booleans_parse_as_boolean_literals() {
    let tokens = scan("true false").unwrap();
    let mut parser = Parser::new(tokens);
    let cycles = parser.parse().unwrap();
    match cycles[0] {
        Cycle::Term(ref terms) => {
            match terms[0] {
                Factor::Boolean(Value::Boolean(true), _) => {}
                _ => panic!("Expected true, got {:?}", terms[0]),
            }
            match terms[1] {
                Factor::Boolean(Value::Boolean(false), _) => {}
                _ => panic!("Expected false, got {:?}", terms[1]),
            }
        }
        _ => panic!("Expected Term, got {:?}", cycles[0]),
    }
}

#[test]
fn nested_quotations_parse() {
    let tokens = scan("[[1] dup]").unwrap();
    let mut parser = Parser::new(tokens);
    let cycles = parser.parse().unwrap();
    match cycles[0] {
        Cycle::Term(ref terms) => {
            assert_eq!(terms.len(), 1);
            match &terms[0] {
                Factor::Quotation(inner) => {
                    assert_eq!(inner.len(), 2);
                    match &inner[0] {
                        Factor::Quotation(deep) => {
                            assert_eq!(deep.len(), 1);
                        }
                        _ => panic!("Expected Quotation, got {:?}", inner[0]),
                    }
                }
                _ => panic!("Expected Quotation, got {:?}", terms[0]),
            }
        }
        _ => panic!("Expected Term, got {:?}", cycles[0]),
    }
}
