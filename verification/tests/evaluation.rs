use interpreter::environment::Environment;
use interpreter::eval::evaluate;
use interpreter::object::FloatTerm;

fn float_value(term: &FloatTerm) -> f64 {
    match term {
        FloatTerm::Literal(text) => text.parse::<f64>().unwrap(),
        FloatTerm::Integer(value) => *value as f64,
        FloatTerm::Sum(lhs, rhs) => float_value(lhs) + float_value(rhs),
    }
}

fn float_text(term: &FloatTerm) -> String {
    float_value(term).to_string()
}

fn assert_floats_eq(a: f64, b: f64) {
    assert!((a - b).abs() < 1e-10);
}

#[test]
fn test_evaluate() {
    let input_expressions = "123";
    assert_eq!(
        evaluate(&input_expressions, &mut Environment::new(), &float_text),
        Ok(Some(String::from("123")))
    );
}

#[test]
fn test_add_integers() {
    assert_eq!(
        evaluate("1 + 2", &mut Environment::new(), &float_text),
        Ok(Some(String::from("3")))
    );
}

#[test]
fn test_add_floats() {
    let result: f64 = evaluate("1.4 + 2.3", &mut Environment::new(), &float_text)
        .unwrap()
        .unwrap()
        .parse()
        .unwrap();
    let expected: f64 = 3.7;

    assert_floats_eq(result, expected);
}

#[test]
fn test_add_strings() {
    assert_eq!(
        evaluate("\"hello\" + \" world\"", &mut Environment::new(), &float_text),
        Ok(Some(String::from("hello world")))
    );
}

#[test]
fn assignment_then_read_gives_the_value_back() {
    let mut env = Environment::new();
    assert_eq!(evaluate("x = 42", &mut env, &float_text), Ok(None));
    assert_eq!(evaluate("x", &mut env, &float_text), Ok(Some(String::from("42"))));
    assert_eq!(evaluate("x + 8", &mut env, &float_text), Ok(Some(String::from("50"))));
    assert_eq!(evaluate("s = \"a b\"", &mut env, &float_text), Ok(None));
    assert_eq!(evaluate("s + s", &mut env, &float_text), Ok(Some(String::from("a ba b"))));
    assert_eq!(evaluate("x = 7", &mut env, &float_text), Ok(None));
    assert_eq!(evaluate("x", &mut env, &float_text), Ok(Some(String::from("7"))));
}

#[test]
fn errors_name_the_token_and_change_nothing() {
    let mut env = Environment::new();
    assert_eq!(
        evaluate("y", &mut env, &float_text),
        Err(String::from("Undefined variable: y"))
    );
    assert_eq!(
        evaluate("y = z", &mut env, &float_text),
        Err(String::from("Undefined variable: z"))
    );
    assert_eq!(
        evaluate("y", &mut env, &float_text),
        Err(String::from("Undefined variable: y"))
    );
    assert_eq!(evaluate("+", &mut env, &float_text), Err(String::from("Invalid token: +")));
    assert_eq!(evaluate("1 + =", &mut env, &float_text), Err(String::from("Invalid token: =")));
    assert_eq!(evaluate("1 2 3", &mut env, &float_text), Err(String::from("Unknown operator: 2")));
    assert_eq!(evaluate("1 2", &mut env, &float_text), Err(String::from("Invalid expression")));
    assert_eq!(evaluate("1 + 2 + 3", &mut env, &float_text), Err(String::from("Invalid expression")));
    assert_eq!(evaluate("", &mut env, &float_text), Err(String::from("Empty expression")));
    assert_eq!(evaluate("   ", &mut env, &float_text), Err(String::from("Empty expression")));
}

#[test]
fn integers_display_in_decimal() {
    let mut env = Environment::new();
    assert_eq!(evaluate("-42", &mut env, &float_text), Ok(Some(String::from("-42"))));
    assert_eq!(evaluate("+7", &mut env, &float_text), Ok(Some(String::from("7"))));
    assert_eq!(evaluate("007", &mut env, &float_text), Ok(Some(String::from("7"))));
    assert_eq!(
        evaluate("9223372036854775807", &mut env, &float_text),
        Ok(Some(String::from("9223372036854775807")))
    );
    assert_eq!(
        evaluate("-9223372036854775808", &mut env, &float_text),
        Ok(Some(String::from("-9223372036854775808")))
    );
    assert_eq!(evaluate("0 + 0", &mut env, &float_text), Ok(Some(String::from("0"))));
    assert_eq!(evaluate("-5 + 3", &mut env, &float_text), Ok(Some(String::from("-2"))));
}

#[test]
fn mixed_numbers_add_as_floats() {
    let mut env = Environment::new();
    assert_eq!(evaluate("1 + 2.5", &mut env, &float_text), Ok(Some(String::from("3.5"))));
    assert_eq!(evaluate("2.5 + 1", &mut env, &float_text), Ok(Some(String::from("3.5"))));
    assert_eq!(evaluate("5.5 + 2.2", &mut env, &float_text), Ok(Some(String::from("7.7"))));
    assert_eq!(evaluate("1.50", &mut env, &float_text), Ok(Some(String::from("1.5"))));
    assert_eq!(evaluate("1e3", &mut env, &float_text), Ok(Some(String::from("1000"))));
    assert_eq!(evaluate("inf", &mut env, &float_text), Ok(Some(String::from("inf"))));
    assert_eq!(
        evaluate("9223372036854775808", &mut env, &float_text),
        Ok(Some(String::from("9223372036854776000")))
    );
}

use interpreter::eval::evaluation_would_abort;
use interpreter::token::{is_lexable, Token, TokenType, OperandType, LiteralValue};

#[test]
fn integer_addition_commutes() {
    let mut env = Environment::new();
    assert_eq!(evaluate("2 + 3", &mut env, &float_text), evaluate("3 + 2", &mut env, &float_text));
    assert_eq!(evaluate("-7 + 10", &mut env, &float_text), Ok(Some(String::from("3"))));
}

#[test]
fn displayed_integers_read_back() {
    let mut env = Environment::new();
    let shown = evaluate("-9223372036854775807 + -1", &mut env, &float_text).unwrap().unwrap();
    assert_eq!(shown, "-9223372036854775808");
    assert_eq!(
        Token::new(&shown).token_type,
        TokenType::Operand(OperandType::Literal(LiteralValue::Int(i64::MIN)))
    );
}

#[test]
fn unevaluable_expressions_are_detected() {
    let mut env = Environment::new();
    assert!(evaluation_would_abort("\"", &env));
    assert!(!is_lexable("x = \""));
    assert!(evaluation_would_abort("9223372036854775807 + 1", &env));
    assert!(evaluation_would_abort("\"a\" + 1", &env));
    assert!(evaluation_would_abort("1.5 + \"a\"", &env));
    assert!(!evaluation_would_abort("1.5 + 1", &env));
    assert!(!evaluation_would_abort("\"a\" = 1", &env));
    assert!(!evaluation_would_abort("q + 1", &env));
    assert_eq!(evaluate("q = \"a\"", &mut env, &float_text), Ok(None));
    assert!(evaluation_would_abort("q + 1", &env));
    assert!(!evaluation_would_abort("quit", &env));
}
