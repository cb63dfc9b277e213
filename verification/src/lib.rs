//! An expression-oriented scripting language front end: a lexer, a scope
//! stack, an infix-to-postfix compiler, and a postfix evaluator with dynamic
//! numeric/boolean type coercion.

pub mod ast;
pub mod errors;
pub mod expr;
pub mod float;
pub mod parser;
pub mod postfix;
pub mod subst;
pub mod text;
pub mod token;
pub mod tokenizer;
pub mod unary;
pub mod values;
