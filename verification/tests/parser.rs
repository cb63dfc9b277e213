use exprlang::errors::LangError;
use exprlang::parser::collect_expression_tokens;
use exprlang::postfix::{eval_expression, infix_to_postfix};
use exprlang::token::TokenType;
use exprlang::tokenizer::tokenize;
use exprlang::unary::resolve_unary_operators;

#[test]
pub fn test_collect_expressions() {
    let input = String::from("3+ 4 + (6- 5) \n");
    let tokens = tokenize(&input).unwrap();
    let collected = collect_expression_tokens(&tokens);
    assert_eq!(collected.1.len(), 9);
}

#[test]
pub fn test_resolve_unary_operators() {
    let input = String::from("3 + -5");
    let tokens = tokenize(&input).unwrap();
    let result = resolve_unary_operators(tokens).unwrap();
    assert_eq!(result.len(), 3);
    assert_eq!(result[1].tok_type, TokenType::Plus)
}

#[test]
pub fn test_resolve_unary_operators_1() {
    let input = String::from("not true");
    let tokens = tokenize(&input).unwrap();
    let result = resolve_unary_operators(tokens).unwrap();

    assert_eq!(result.len(), 1);
    assert_eq!(result[0].tok_type, TokenType::Literal);
    assert_eq!(result[0].clone().tok_value.unwrap().s_val.unwrap(), "false");
}

#[test]
pub fn test_resolve_unary_operators_2() {
    let input = String::from("-5");
    let tokens = tokenize(&input).unwrap();
    let result = resolve_unary_operators(tokens).unwrap();
    assert_eq!("-5", result[0].clone().tok_value.unwrap().s_val.unwrap());
    assert_eq!(result.len(), 1);
    assert_eq!(result[0].tok_type, TokenType::Literal);
}

#[test]
pub fn test_resolve_unary_operators_3() {
    let input = String::from("- 2");
    let tokens = tokenize(&input).unwrap();
    let result = resolve_unary_operators(tokens).unwrap();
    assert_eq!("-2", result[0].clone().tok_value.unwrap().s_val.unwrap());
    assert_eq!(result.len(), 1);
    assert_eq!(result[0].tok_type, TokenType::Literal);
}

#[test]
pub fn test_resolve_unary_operators_4() {
    let input = String::from(" x not= 2");
    let tokens = tokenize(&input).unwrap();
    let result = resolve_unary_operators(tokens).unwrap();
    assert_eq!(result.len(), 3);
    assert_eq!(result[1].tok_type, TokenType::NotEqual);
}

#[test]
pub fn test_infix_to_postfix_1() {
    let input = String::from("5+ 7 or 3 * 5");
    let tokens = tokenize(&input).unwrap();
    let postfix = infix_to_postfix(tokens);
    assert_eq!(postfix.len(), 7);
}

#[test]
pub fn test_infix_to_postfix_2() {
    let input = String::from("(3 - 5) * 12");
    let tokens = tokenize(&input).unwrap();
    let postfix = infix_to_postfix(tokens);
    assert_eq!(postfix.len(), 5);
}

#[test]
pub fn test_eval_postfix_1() {
    let input = String::from("5+ 7 or 3 * 5");
    let tokens = tokenize(&input).unwrap();
    let postfix = infix_to_postfix(tokens);
    let evaled = eval_expression(&postfix).unwrap();
    assert_eq!(evaled.tok_value.unwrap().s_val.unwrap(), "true");
}

#[test]
pub fn test_eval_postfix_2() {
    let input = String::from("(3 - 5) * 12");
    let tokens = tokenize(&input).unwrap();
    let postfix = infix_to_postfix(tokens);
    let evaled = eval_expression(&postfix).unwrap();
    assert_eq!(evaled.tok_value.unwrap().s_val.unwrap(), "-24");
}

#[test]
pub fn test_eval_postfix_4() {
    let input = String::from("(42.6 /6) + 1");
    let tokens = tokenize(&input).unwrap();
    let postfix = infix_to_postfix(tokens);
    let evaled = eval_expression(&postfix).unwrap();
    assert_eq!(evaled.tok_value.unwrap().s_val.unwrap(), "8.100000000000001");
}

#[test]
pub fn test_eval_postfix_5() {
    let input = String::from("5 > 7");
    let tokens = tokenize(&input).unwrap();
    let postfix = infix_to_postfix(tokens);
    let evaled = eval_expression(&postfix).unwrap();
    assert_eq!(evaled.tok_value.unwrap().s_val.unwrap(), "false");
}

#[test]
pub fn test_eval_postfix_6() {
    let input = String::from("5 >= 5");
    let tokens = tokenize(&input).unwrap();
    let postfix = infix_to_postfix(tokens);
    let evaled = eval_expression(&postfix).unwrap();
    assert_eq!(evaled.tok_value.unwrap().s_val.unwrap(), "true");
}

#[test]
pub fn test_eval_postfix_7() {
    let input = String::from("5 = 5 and 3 = 2");
    let tokens = tokenize(&input).unwrap();
    let postfix = infix_to_postfix(tokens);
    let evaled = eval_expression(&postfix).unwrap();
    assert_eq!(evaled.tok_value.unwrap().s_val.unwrap(), "false");
}

#[test]
pub fn test_eval_postfix_8() {
    let input = String::from("((1 +4)  = 5) and 2 = 2");
    let tokens = tokenize(&input).unwrap();
    let postfix = infix_to_postfix(tokens);
    let evaled = eval_expression(&postfix).unwrap();
    assert_eq!(evaled.tok_value.unwrap().s_val.unwrap(), "true");
}

#[test]
pub fn test_postfix_balanced_parens() {
    // A balanced input converts to a postfix form with no parentheses and
    // the same number of operand tokens.
    let input = String::from("((1 +4)  = 5) and (2 = 2)");
    let tokens = tokenize(&input).unwrap();
    let operands_in = tokens
        .iter()
        .filter(|t| matches!(t.tok_type, TokenType::Literal))
        .count();
    let postfix = infix_to_postfix(tokens);
    let operands_out = postfix
        .iter()
        .filter(|t| matches!(t.tok_type, TokenType::Literal))
        .count();
    for t in &postfix {
        assert!(!matches!(t.tok_type, TokenType::OpenParen));
        assert!(!matches!(t.tok_type, TokenType::CloseParen));
    }
    assert_eq!(operands_in, operands_out);
}

#[test]
pub fn test_eval_postfix_empty() {
    let r = eval_expression(&Vec::new());
    assert_eq!(matches!(r.unwrap_err(), LangError::SyntaxError), true);
}

#[test]
pub fn test_eval_postfix_single_token_short_circuit() {
    let input = String::from("42");
    let tokens = tokenize(&input).unwrap();
    let evaled = eval_expression(&tokens).unwrap();
    assert_eq!(evaled.tok_value.unwrap().s_val.unwrap(), "42");
}
