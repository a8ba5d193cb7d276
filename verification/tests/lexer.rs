use interpreter::token::{parse, Token};

#[test]
fn test_token() {
    let token = Token::new("123");
    assert_eq!(token.representation, "123");
}

#[test]
fn test_parse() {
    let input_expressions = "123 456";

    let tokens = vec![Token::new("123"), Token::new("456")];

    assert_eq!(parse(&input_expressions), tokens);
}

use interpreter::token::{LiteralValue, OperandType, OperatorType, TokenType};

#[test]
fn words_are_classified_in_order() {
    assert_eq!(Token::new("+").token_type, TokenType::Operator(OperatorType::Add));
    assert_eq!(Token::new("=").token_type, TokenType::Operator(OperatorType::Assign));
    assert_eq!(
        Token::new("-12").token_type,
        TokenType::Operand(OperandType::Literal(LiteralValue::Int(-12)))
    );
    assert_eq!(
        Token::new("1.5").token_type,
        TokenType::Operand(OperandType::Literal(LiteralValue::Float(String::from("1.5"))))
    );
    assert_eq!(
        Token::new("NaN").token_type,
        TokenType::Operand(OperandType::Literal(LiteralValue::Float(String::from("NaN"))))
    );
    assert_eq!(Token::new("1e").token_type, TokenType::Operand(OperandType::Identifier));
    assert_eq!(Token::new("-").token_type, TokenType::Operand(OperandType::Identifier));
    let quoted = Token::new("\"a b\"");
    assert_eq!(quoted.representation, "a b");
    assert_eq!(
        quoted.token_type,
        TokenType::Operand(OperandType::Literal(LiteralValue::String(String::from("a b"))))
    );
    let empty = Token::new("\"\"");
    assert_eq!(empty.representation, "");
}

#[test]
fn spaces_inside_quotes_do_not_split() {
    let tokens = parse("  s   =  \"x  y\" ");
    assert_eq!(tokens.len(), 3);
    assert_eq!(tokens[0].representation, "s");
    assert_eq!(tokens[2].representation, "x  y");
    assert_eq!(parse("").len(), 0);
}

#[test]
fn extra_spaces_outside_quotes_change_nothing() {
    assert_eq!(parse(" x  =  \"a  b\"   "), parse("x = \"a  b\""));
    assert_eq!(parse("1   +    2"), parse("1 + 2"));
    assert!(parse("     ").is_empty());
    assert_ne!(parse("\"a  b\""), parse("\"a b\""));
}
