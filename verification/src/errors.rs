use vstd::prelude::*;

verus! {

/// The error taxonomy of the engine. Every stage reports failure through one
/// of these variants instead of aborting.
#[derive(Clone, Copy, Debug, PartialEq, Eq, Structural)]
pub enum LangError {
    /// An unrecognized character sequence reached the lexer.
    LexError,
    /// A malformed assignment, string, array, object, or postfix form.
    SyntaxError,
    /// An operator was applied to an incompatible combination of value kinds,
    /// or a non-scalar symbol was substituted where a scalar is required.
    TypeMismatchError,
    /// A name was bound twice within the same scope frame.
    RedefinitionError,
    /// A recognized keyword or operator with no implemented evaluation rule.
    UndefinedOperatorError,
    /// An integer operation left the machine range, or divided by zero.
    ArithmeticError,
}

impl LangError {
    /// A short textual description, for display at the outermost boundary.
    pub fn describe(&self) -> (r: &'static str)
        ensures
            r@ == self.describe_spec(),
    {
        match self {
            LangError::LexError => "unrecognized character sequence",
            LangError::SyntaxError => "invalid syntax",
            LangError::TypeMismatchError => "type mismatch",
            LangError::RedefinitionError => "name already bound in this scope",
            LangError::UndefinedOperatorError => "operator not supported here",
            LangError::ArithmeticError => "integer overflow or division by zero",
        }
    }

    pub open spec fn describe_spec(&self) -> Seq<char> {
        match self {
            LangError::LexError => "unrecognized character sequence"@,
            LangError::SyntaxError => "invalid syntax"@,
            LangError::TypeMismatchError => "type mismatch"@,
            LangError::RedefinitionError => "name already bound in this scope"@,
            LangError::UndefinedOperatorError => "operator not supported here"@,
            LangError::ArithmeticError => "integer overflow or division by zero"@,
        }
    }
}

} // verus!
