use exprlang::errors::LangError;
use exprlang::expr::{operate, operate_unary};
use exprlang::token::{Token, TokenType, TokenValue};
use exprlang::tokenizer::tokenize;

fn literal(text: &str) -> Token {
    Token {
        tok_type: TokenType::Literal,
        tok_value: Some(TokenValue { s_val: Some(String::from(text)) }),
    }
}

fn simple(ty: TokenType) -> Token {
    Token { tok_type: ty, tok_value: None }
}

#[test]
pub fn test_operation_1() {
    let input = String::from("3+4 ");
    let tokens = tokenize(&input).unwrap();
    let result = operate(tokens[0].clone(), tokens[2].clone(), tokens[1].clone()).unwrap();
    assert_eq!(result.tok_value.unwrap().s_val.unwrap(), "7")
}

#[test]
pub fn test_operation_2() {
    let input = String::from("37-17 ");
    let tokens = tokenize(&input).unwrap();
    let result = operate(tokens[0].clone(), tokens[2].clone(), tokens[1].clone()).unwrap();
    assert_eq!(result.tok_value.unwrap().s_val.unwrap(), "20")
}

#[test]
pub fn test_operation_3() {
    let input = String::from("5.1 * 5.0 ");
    let tokens = tokenize(&input).unwrap();
    let result = operate(tokens[0].clone(), tokens[2].clone(), tokens[1].clone()).unwrap();
    assert_eq!(result.tok_value.unwrap().s_val.unwrap(), "25.5")
}

#[test]
pub fn test_operation_4() {
    let input = String::from("8/2 ");
    let tokens = tokenize(&input).unwrap();
    let result = operate(tokens[0].clone(), tokens[2].clone(), tokens[1].clone()).unwrap();
    assert_eq!(result.tok_value.unwrap().s_val.unwrap(), "4")
}

#[test]
pub fn test_operation_5() {
    let input = String::from("8.6/2 ");
    let tokens = tokenize(&input).unwrap();
    let result = operate(tokens[0].clone(), tokens[2].clone(), tokens[1].clone()).unwrap();
    assert_eq!(result.tok_value.unwrap().s_val.unwrap(), "4.3")
}

#[test]
pub fn test_operation_6() {
    let input = String::from("1 and false ");
    let tokens = tokenize(&input).unwrap();
    let result = operate(tokens[0].clone(), tokens[2].clone(), tokens[1].clone()).unwrap();
    assert_eq!(result.tok_value.unwrap().s_val.unwrap(), "false")
}

#[test]
pub fn test_operation_7() {
    let input = String::from("1.1 or false ");
    let tokens = tokenize(&input).unwrap();
    let result = operate(tokens[0].clone(), tokens[2].clone(), tokens[1].clone()).unwrap();
    assert_eq!(result.tok_value.unwrap().s_val.unwrap(), "true")
}

#[test]
pub fn test_operate_type_mismatch() {
    let r = operate(literal("hello"), literal("1"), simple(TokenType::Plus));
    assert_eq!(matches!(r.unwrap_err(), LangError::TypeMismatchError), true);
}

#[test]
pub fn test_operate_undefined_operator() {
    let r = operate(literal("1"), literal("2"), simple(TokenType::In));
    assert_eq!(matches!(r.unwrap_err(), LangError::UndefinedOperatorError), true);
}

#[test]
pub fn test_operate_overflow() {
    let r = operate(literal("2147483647"), literal("1"), simple(TokenType::Plus));
    assert_eq!(matches!(r.unwrap_err(), LangError::ArithmeticError), true);
}

#[test]
pub fn test_operate_division_by_zero() {
    let r = operate(literal("1"), literal("0"), simple(TokenType::Div));
    assert_eq!(matches!(r.unwrap_err(), LangError::ArithmeticError), true);
}

#[test]
pub fn test_operate_truncating_division() {
    let r = operate(literal("-7"), literal("2"), simple(TokenType::Div)).unwrap();
    assert_eq!(r.tok_value.unwrap().s_val.unwrap(), "-3");
    let r = operate(literal("-7"), literal("2"), simple(TokenType::Mod)).unwrap();
    assert_eq!(r.tok_value.unwrap().s_val.unwrap(), "-1");
}

#[test]
pub fn test_operate_null_logic() {
    // null casts to false under the logical operators.
    let r = operate(literal("null"), literal("true"), simple(TokenType::Or)).unwrap();
    assert_eq!(r.tok_value.unwrap().s_val.unwrap(), "true");
    let r = operate(literal("null"), literal("true"), simple(TokenType::And)).unwrap();
    assert_eq!(r.tok_value.unwrap().s_val.unwrap(), "false");
}

#[test]
pub fn test_operate_unary_not() {
    let r = operate_unary(literal("true"), simple(TokenType::Not)).unwrap();
    assert_eq!(r.tok_value.unwrap().s_val.unwrap(), "false");
    let r = operate_unary(literal("0"), simple(TokenType::Not)).unwrap();
    assert_eq!(r.tok_value.unwrap().s_val.unwrap(), "true");
    let r = operate_unary(literal("hello"), simple(TokenType::Not));
    assert_eq!(matches!(r.unwrap_err(), LangError::TypeMismatchError), true);
    let r = operate_unary(literal("true"), simple(TokenType::Plus));
    assert_eq!(matches!(r.unwrap_err(), LangError::UndefinedOperatorError), true);
}

#[test]
pub fn test_operate_float_comparison() {
    let r = operate(literal("5.5"), literal("5.4"), simple(TokenType::GreaterThan)).unwrap();
    assert_eq!(r.tok_value.unwrap().s_val.unwrap(), "true");
    let r = operate(literal("5.5"), literal("5.5"), simple(TokenType::Equals)).unwrap();
    assert_eq!(r.tok_value.unwrap().s_val.unwrap(), "true");
}

#[test]
pub fn test_operate_float_subtraction_order() {
    // The left operand is the minuend, also on the floating-point path.
    let r = operate(literal("5.5"), literal("2.0"), simple(TokenType::Minus)).unwrap();
    assert_eq!(r.tok_value.unwrap().s_val.unwrap(), "3.5");
    let r = operate(literal("9.0"), literal("2.0"), simple(TokenType::Div)).unwrap();
    assert_eq!(r.tok_value.unwrap().s_val.unwrap(), "4.5");
}
