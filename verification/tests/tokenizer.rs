use exprlang::errors::LangError;
use exprlang::token::TokenType;
use exprlang::tokenizer::{generate_literal_token, generate_simple_token, tokenize};

#[test]
pub fn test_simple() {
    let token = generate_simple_token(TokenType::Equals);
    assert_eq!(token.is_some(), true);
    assert_eq!(matches!(token.unwrap().tok_type, TokenType::Equals), true);
}

#[test]
pub fn test_literal() {
    let input_string = String::from("hello world");
    let mut token = generate_literal_token(input_string);
    assert_eq!(token.is_some(), true);
    assert_eq!(matches!(token.unwrap().tok_type, TokenType::Literal), true);
    let input_int = String::from("1");
    token = generate_literal_token(input_int);
    assert_eq!(token.is_some(), true);
    assert_eq!(matches!(token.unwrap().tok_type, TokenType::Literal), true);
    let input_float = String::from("0.2394");
    token = generate_literal_token(input_float);
    assert_eq!(token.is_some(), true);
    assert_eq!(matches!(token.unwrap().tok_type, TokenType::Literal), true);
}

#[test]
pub fn test_tokenizer_assignment() {
    let input = String::from(" var x= 12 \n");
    let tokens = tokenize(&input).unwrap();
    assert_eq!(matches!(tokens[0].tok_type, TokenType::Assign), true);
    assert_eq!(matches!(tokens[1].tok_type, TokenType::Literal), true);
    assert_eq!(matches!(tokens[2].tok_type, TokenType::Equals), true);
    assert_eq!(matches!(tokens[3].tok_type, TokenType::Literal), true);
    assert_eq!(matches!(tokens[4].tok_type, TokenType::NewLine), true);
    assert_eq!(tokens.len(), 5);
}

#[test]
pub fn test_tokenizer_combinator() {
    let input = String::from("1+ 4 -3.5 *97 / 4 \n");
    let tokens = tokenize(&input).unwrap();
    assert_eq!(matches!(tokens[0].tok_type, TokenType::Literal), true);
    assert_eq!(matches!(tokens[1].tok_type, TokenType::Plus), true);
    assert_eq!(matches!(tokens[2].tok_type, TokenType::Literal), true);
    assert_eq!(matches!(tokens[3].tok_type, TokenType::Minus), true);
    assert_eq!(matches!(tokens[4].tok_type, TokenType::Literal), true);
    assert_eq!(tokens.len(), 10);
}

#[test]
pub fn test_tokenizer_boolean_expression() {
    let input = String::from("3 <5 or 7 = 2 and 5>=4 or 0.77<= y\n");
    let tokens = tokenize(&input).unwrap();
    assert_eq!(matches!(tokens[0].tok_type, TokenType::Literal), true);
    assert_eq!(matches!(tokens[3].tok_type, TokenType::Or), true);
    assert_eq!(matches!(tokens[5].tok_type, TokenType::Equals), true);
    assert_eq!(matches!(tokens[7].tok_type, TokenType::And), true);
    assert_eq!(matches!(tokens[9].tok_type, TokenType::Gte), true);
    assert_eq!(tokens.len(), 16);
}

#[test]
pub fn test_tokenizer_bracket() {
    let input = String::from("[4, 3] {\"hello\": \"worlds\"} ((x + 4)- 19)\n");
    let tokens = tokenize(&input).unwrap();
    assert_eq!(matches!(tokens[0].tok_type, TokenType::OpenBracket), true);
    assert_eq!(matches!(tokens[4].tok_type, TokenType::CloseBracket), true);
    assert_eq!(matches!(tokens[5].tok_type, TokenType::OpenBrace), true);
    assert_eq!(matches!(tokens[13].tok_type, TokenType::CloseBrace), true);
    assert_eq!(matches!(tokens[14].tok_type, TokenType::OpenParen), true);
    assert_eq!(matches!(tokens[15].tok_type, TokenType::OpenParen), true);
    assert_eq!(matches!(tokens[19].tok_type, TokenType::CloseParen), true);
    assert_eq!(matches!(tokens[22].tok_type, TokenType::CloseParen), true);
    assert_eq!(tokens.len(), 24);
}

#[test]
pub fn test_tokenizer_conditionals() {
    let input = String::from("if(x in y){}\nelse if(x not = 3){}\nelse{}\n");
    let tokens = tokenize(&input).unwrap();
    assert_eq!(matches!(tokens[0].tok_type, TokenType::If), true);
    assert_eq!(matches!(tokens[9].tok_type, TokenType::Else), true);
    assert_eq!(matches!(tokens[10].tok_type, TokenType::If), true);
    assert_eq!(matches!(tokens[20].tok_type, TokenType::Else), true);
    assert_eq!(matches!(tokens[23].tok_type, TokenType::NewLine), true);
    assert_eq!(tokens.len(), 24);
}

#[test]
pub fn test_tokenizer_loops() {
    let input = String::from("for each(var x in y) {} loop while (x not = 3)\n");
    let tokens = tokenize(&input).unwrap();
    assert_eq!(matches!(tokens[0].tok_type, TokenType::For), true);
    assert_eq!(matches!(tokens[1].tok_type, TokenType::Each), true);
    assert_eq!(matches!(tokens[2].tok_type, TokenType::OpenParen), true);
    assert_eq!(matches!(tokens[7].tok_type, TokenType::CloseParen), true);
    assert_eq!(matches!(tokens[9].tok_type, TokenType::CloseBrace), true);
    assert_eq!(tokens.len(), 19);
}

#[test]
pub fn test_tokenizer_functions() {
    let input = String::from("function(x, y, zee )\n{loop while (x not = 3){} }\n");
    let tokens = tokenize(&input).unwrap();
    assert_eq!(matches!(tokens[0].tok_type, TokenType::Function), true);
    assert_eq!(matches!(tokens[1].tok_type, TokenType::OpenParen), true);
    assert_eq!(matches!(tokens[5].tok_type, TokenType::Comma), true);
    assert_eq!(matches!(tokens[6].tok_type, TokenType::Literal), true);
    assert_eq!(matches!(tokens[10].tok_type, TokenType::Loop), true);
    assert_eq!(tokens.len(), 22);
}

#[test]
pub fn test_tokenizer_empty_input() {
    let tokens = tokenize("").unwrap();
    assert_eq!(tokens.len(), 0);
}

#[test]
pub fn test_tokenizer_unrecognized_character() {
    let result = tokenize("3 @ 4");
    assert_eq!(result.is_err(), true);
    assert_eq!(matches!(result.unwrap_err(), LangError::LexError), true);
}

#[test]
pub fn test_tokenizer_angle_lookahead() {
    // One character of lookahead: the merge happens only with an equals
    // sign, and the base character alone keeps its own meaning.
    let tokens = tokenize(">>= 1").unwrap();
    assert_eq!(tokens.len(), 3);
    assert_eq!(matches!(tokens[0].tok_type, TokenType::GreaterThan), true);
    assert_eq!(matches!(tokens[1].tok_type, TokenType::Gte), true);
    assert_eq!(matches!(tokens[2].tok_type, TokenType::Literal), true);
}

#[test]
pub fn test_tokenizer_unterminated_string() {
    // A string whose closing quote never comes is a lex error.
    let result = tokenize("\"oops");
    assert_eq!(matches!(result.unwrap_err(), LangError::LexError), true);
    // Paired quotes lex fine.
    let tokens = tokenize("\"oops\"").unwrap();
    assert_eq!(tokens.len(), 3);
}

#[test]
pub fn test_relex_literal_payload() {
    // Printing a literal token's payload and lexing it again reproduces an
    // equivalent token.
    let tokens = tokenize("hello 12.5 x9").unwrap();
    for t in &tokens {
        if matches!(t.tok_type, TokenType::Literal) {
            let payload = t.tok_value.clone().unwrap().s_val.unwrap();
            let again = tokenize(&payload).unwrap();
            assert_eq!(again.len(), 1);
            assert_eq!(matches!(again[0].tok_type, TokenType::Literal), true);
            assert_eq!(again[0].tok_value.clone().unwrap().s_val.unwrap(), payload);
        }
    }
}
