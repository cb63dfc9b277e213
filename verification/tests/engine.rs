use exprlang::ast::{CallStack, SymbolType};
use exprlang::errors::LangError;
use exprlang::parser::{
    parse, parse_array, parse_assignment, parse_expression, parse_logical_iter, parse_object,
    parse_string,
};
use exprlang::tokenizer::tokenize;

fn number_text(v: &SymbolType) -> String {
    match v {
        SymbolType::Number(n) => n.clone(),
        _ => panic!("expected number"),
    }
}

#[test]
pub fn test_pipeline_arithmetic() {
    let stack = CallStack::new();
    let cases = [
        ("3+4", "7"),
        ("37-17", "20"),
        ("5.1*5.0", "25.5"),
        ("8/2", "4"),
        ("8.6/2", "4.3"),
    ];
    for (src, expected) in cases {
        let tokens = tokenize(src).unwrap();
        let v = parse_logical_iter(&stack, &tokens).unwrap();
        assert_eq!(number_text(&v), expected);
    }
}

#[test]
pub fn test_pipeline_truthiness() {
    let stack = CallStack::new();
    let tokens = tokenize("1 and false").unwrap();
    assert_eq!(number_text(&parse_logical_iter(&stack, &tokens).unwrap()), "false");
    let tokens = tokenize("1.1 or false").unwrap();
    assert_eq!(number_text(&parse_logical_iter(&stack, &tokens).unwrap()), "true");
}

#[test]
pub fn test_pipeline_comparisons() {
    let stack = CallStack::new();
    let tokens = tokenize("5 >= 5").unwrap();
    assert_eq!(number_text(&parse_logical_iter(&stack, &tokens).unwrap()), "true");
    let tokens = tokenize("5 = 5 and 3 = 2").unwrap();
    assert_eq!(number_text(&parse_logical_iter(&stack, &tokens).unwrap()), "false");
    let tokens = tokenize("((1+4)=5) and 2=2").unwrap();
    assert_eq!(number_text(&parse_logical_iter(&stack, &tokens).unwrap()), "true");
}

#[test]
pub fn test_assignment_and_reference_round_trip() {
    // Binding `var x is 3` and evaluating an expression referencing `x`
    // substitutes and evaluates exactly as the literal written directly.
    let mut stack = CallStack::new();
    let line = tokenize("var x is 3\n").unwrap();
    parse(&mut stack, &line).unwrap();
    match stack.lookup_symbol("x").unwrap() {
        SymbolType::Number(n) => assert_eq!(n, "3"),
        _ => panic!("expected number"),
    }
    let with_name = tokenize("x + 1").unwrap();
    let with_text = tokenize("3 + 1").unwrap();
    let a = parse_logical_iter(&stack, &with_name).unwrap();
    let b = parse_logical_iter(&stack, &with_text).unwrap();
    assert_eq!(number_text(&a), "4");
    assert_eq!(number_text(&a), number_text(&b));
}

#[test]
pub fn test_assignment_redefinition() {
    let mut stack = CallStack::new();
    let line = tokenize("var x is 3\n").unwrap();
    parse(&mut stack, &line).unwrap();
    let again = tokenize("var x is 4\n").unwrap();
    let r = parse(&mut stack, &again);
    assert_eq!(matches!(r.unwrap_err(), LangError::RedefinitionError), true);
    match stack.lookup_symbol("x").unwrap() {
        SymbolType::Number(n) => assert_eq!(n, "3"),
        _ => panic!("expected number"),
    }
}

#[test]
pub fn test_assignment_requires_var_keyword() {
    // An assignment must begin with the `var` keyword; any other head is a
    // syntax error and leaves the scope untouched.
    let mut stack = CallStack::new();
    let bad = tokenize("y x is 3\n").unwrap();
    let r = parse_assignment(&mut stack, &bad);
    assert_eq!(matches!(r.unwrap_err(), LangError::SyntaxError), true);
    assert_eq!(stack.lookup_symbol("x").is_none(), true);
}

#[test]
pub fn test_statement_keywords_unsupported() {
    let mut stack = CallStack::new();
    let line = tokenize("if(x in y){}\n").unwrap();
    let r = parse(&mut stack, &line);
    assert_eq!(matches!(r.unwrap_err(), LangError::UndefinedOperatorError), true);
}

#[test]
pub fn test_parse_string_shape() {
    let tokens = tokenize("\"hello\"").unwrap();
    match parse_string(&tokens).unwrap() {
        SymbolType::String(s) => assert_eq!(s, "hello"),
        _ => panic!("expected string"),
    }
    let bad = tokenize("\"hello\" 3").unwrap();
    let r = parse_string(&bad);
    assert_eq!(matches!(r.unwrap_err(), LangError::SyntaxError), true);
}

#[test]
pub fn test_parse_array_values() {
    let stack = CallStack::new();
    let tokens = tokenize("[4, 3]").unwrap();
    match parse_array(&stack, &tokens).unwrap() {
        SymbolType::Array(args) => {
            assert_eq!(args.array.len(), 2);
            assert_eq!(number_text(&args.array[0]), "4");
            assert_eq!(number_text(&args.array[1]), "3");
        },
        _ => panic!("expected array"),
    }
}

#[test]
pub fn test_parse_array_pointer_alias() {
    // An element naming a bound variable becomes an alias, not a snapshot.
    let mut stack = CallStack::new();
    let line = tokenize("var x is 3\n").unwrap();
    parse(&mut stack, &line).unwrap();
    let tokens = tokenize("[x, 4]").unwrap();
    match parse_array(&stack, &tokens).unwrap() {
        SymbolType::Array(args) => {
            assert_eq!(args.array.len(), 2);
            match &args.array[0] {
                SymbolType::Pointer(name) => assert_eq!(name, "x"),
                _ => panic!("expected pointer"),
            }
        },
        _ => panic!("expected array"),
    }
}

#[test]
pub fn test_parse_array_nested() {
    let stack = CallStack::new();
    let tokens = tokenize("[4, [5, 6], \"seven\"]").unwrap();
    match parse_array(&stack, &tokens).unwrap() {
        SymbolType::Array(args) => {
            assert_eq!(args.array.len(), 3);
            match &args.array[1] {
                SymbolType::Array(inner) => {
                    assert_eq!(inner.array.len(), 2);
                    assert_eq!(number_text(&inner.array[1]), "6");
                },
                _ => panic!("expected nested array"),
            }
            match &args.array[2] {
                SymbolType::String(s) => assert_eq!(s, "seven"),
                _ => panic!("expected string"),
            }
        },
        _ => panic!("expected array"),
    }
}

#[test]
pub fn test_parse_array_unterminated() {
    let stack = CallStack::new();
    let tokens = tokenize("[4, 3").unwrap();
    let r = parse_array(&stack, &tokens);
    assert_eq!(matches!(r.unwrap_err(), LangError::SyntaxError), true);
}

#[test]
pub fn test_parse_object_entries() {
    let stack = CallStack::new();
    let tokens = tokenize("{1 + 1: 2, 3: \"four\"}").unwrap();
    match parse_object(&stack, &tokens).unwrap() {
        SymbolType::Object(args) => {
            assert_eq!(args.entries.len(), 2);
            assert_eq!(number_text(&args.entries[0].0), "2");
            assert_eq!(number_text(&args.entries[0].1), "2");
            assert_eq!(number_text(&args.entries[1].0), "3");
            match &args.entries[1].1 {
                SymbolType::String(s) => assert_eq!(s, "four"),
                _ => panic!("expected string"),
            }
        },
        _ => panic!("expected object"),
    }
}

#[test]
pub fn test_parse_object_empty() {
    let stack = CallStack::new();
    let tokens = tokenize("{}").unwrap();
    match parse_object(&stack, &tokens).unwrap() {
        SymbolType::Object(args) => assert_eq!(args.entries.len(), 0),
        _ => panic!("expected object"),
    }
}

#[test]
pub fn test_parse_object_nested_value() {
    let stack = CallStack::new();
    let tokens = tokenize("{1: [2, 3]}").unwrap();
    match parse_object(&stack, &tokens).unwrap() {
        SymbolType::Object(args) => {
            assert_eq!(args.entries.len(), 1);
            match &args.entries[0].1 {
                SymbolType::Array(inner) => assert_eq!(inner.array.len(), 2),
                _ => panic!("expected array value"),
            }
        },
        _ => panic!("expected object"),
    }
}

#[test]
pub fn test_parse_expression_dispatch() {
    let stack = CallStack::new();
    let tokens = tokenize("- 2 + 5").unwrap();
    assert_eq!(number_text(&parse_expression(&stack, &tokens).unwrap()), "3");
    let tokens = tokenize("\"word\"\n").unwrap();
    match parse_expression(&stack, &tokens).unwrap() {
        SymbolType::String(s) => assert_eq!(s, "word"),
        _ => panic!("expected string"),
    }
}

#[test]
pub fn test_substitute_non_scalar_fails() {
    let mut stack = CallStack::new();
    let line = tokenize("var xs is [1, 2]\n").unwrap();
    parse(&mut stack, &line).unwrap();
    let expr = tokenize("xs + 1").unwrap();
    let r = parse_logical_iter(&stack, &expr);
    assert_eq!(matches!(r.unwrap_err(), LangError::TypeMismatchError), true);
}

#[test]
pub fn test_error_descriptions() {
    assert_eq!(LangError::LexError.describe(), "unrecognized character sequence");
    assert_eq!(LangError::RedefinitionError.describe(), "name already bound in this scope");
}

#[test]
pub fn test_sign_after_open_paren() {
    // A minus right after an opening parenthesis is a sign.
    let stack = CallStack::new();
    let tokens = tokenize("2 * (- 5 + 1)").unwrap();
    assert_eq!(number_text(&parse_logical_iter(&stack, &tokens).unwrap()), "-8");
}

#[test]
pub fn test_not_of_number_folds_eagerly() {
    // `not` before a literal evaluates during unary normalization.
    let stack = CallStack::new();
    let tokens = tokenize("not 5").unwrap();
    assert_eq!(number_text(&parse_logical_iter(&stack, &tokens).unwrap()), "false");
}
