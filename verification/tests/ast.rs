use exprlang::ast::{CallStack, Scope, SymbolType};
use exprlang::errors::LangError;
use exprlang::tokenizer::tokenize;

#[test]
pub fn test_scope_add_number() {
    let mut scope = Scope::new();
    let input = String::from("var x is 3");
    let tokens = tokenize(&input).unwrap();
    scope.add_number(tokens[1].clone(), tokens[3].clone()).unwrap();
    let val = scope.get("x").unwrap();
    match val {
        SymbolType::Number(n) => assert_eq!(n, "3"),
        _ => panic!("expected number"),
    }
}

#[test]
pub fn test_stack_innermost_first() {
    let mut stack = CallStack::new();
    stack.add_symbol(String::from("x"), SymbolType::Number(String::from("1"))).unwrap();
    stack.push(Scope::new());
    stack.add_symbol(String::from("x"), SymbolType::Number(String::from("2"))).unwrap();
    match stack.lookup_symbol("x").unwrap() {
        SymbolType::Number(n) => assert_eq!(n, "2"),
        _ => panic!("expected number"),
    }
    stack.pop();
    match stack.lookup_symbol("x").unwrap() {
        SymbolType::Number(n) => assert_eq!(n, "1"),
        _ => panic!("expected number"),
    }
}

#[test]
pub fn test_stack_redefinition() {
    let mut stack = CallStack::new();
    stack.add_symbol(String::from("x"), SymbolType::Number(String::from("1"))).unwrap();
    let second = stack.add_symbol(String::from("x"), SymbolType::Number(String::from("2")));
    assert_eq!(matches!(second.unwrap_err(), LangError::RedefinitionError), true);
    match stack.lookup_symbol("x").unwrap() {
        SymbolType::Number(n) => assert_eq!(n, "1"),
        _ => panic!("expected number"),
    }
}

#[test]
pub fn test_stack_shadowing_allowed() {
    let mut stack = CallStack::new();
    stack.add_symbol(String::from("x"), SymbolType::Number(String::from("1"))).unwrap();
    stack.push(Scope::new());
    let shadow = stack.add_symbol(String::from("x"), SymbolType::Number(String::from("9")));
    assert_eq!(shadow.is_ok(), true);
}

#[test]
pub fn test_lookup_unbound() {
    let stack = CallStack::new();
    assert_eq!(stack.lookup_symbol("nothing").is_none(), true);
}
