use vstd::prelude::*;

verus! {

/// The closed set of lexical categories a token can carry.
#[derive(Clone, Copy, Debug, PartialEq, Eq, Hash, Structural)]
pub enum TokenType {
    Assign,
    Equals,
    NotEqual,
    Plus,
    Minus,
    Mult,
    Div,
    Mod,
    Not,
    And,
    Or,
    Is,
    GreaterThan,
    LessThan,
    Gte,
    Lte,
    Literal,
    Bool,
    Function,
    Quote,
    If,
    Else,
    While,
    For,
    Loop,
    Each,
    In,
    Period,
    Colon,
    Comma,
    Object,
    OpenBrace,
    CloseBrace,
    OpenBracket,
    CloseBracket,
    OpenParen,
    CloseParen,
    NewLine,
    TokenError,
}

/// Optional textual payload of a token.
#[derive(Debug)]
pub struct TokenValue {
    pub s_val: Option<String>,
}

/// A classified lexical unit: a category plus an optional textual payload.
#[derive(Debug)]
pub struct Token {
    pub tok_type: TokenType,
    pub tok_value: Option<TokenValue>,
}

/// Mathematical model of a token: the category and the payload text, if any.
pub ghost struct TokenModel {
    pub ty: TokenType,
    pub val: Option<Option<Seq<char>>>,
}

impl View for Token {
    type V = TokenModel;

    open spec fn view(&self) -> TokenModel {
        TokenModel {
            ty: self.tok_type,
            val: match self.tok_value {
                Some(tv) => Some(
                    match tv.s_val {
                        Some(s) => Some(s@),
                        None => None,
                    },
                ),
                None => None,
            },
        }
    }
}

impl Clone for TokenValue {
    /// A copy carrying the same payload text.
    fn clone(&self) -> (r: Self)
        ensures
            match (&r.s_val, &self.s_val) {
                (Some(s), Some(t)) => s@ == t@,
                (None, None) => true,
                _ => false,
            },
    {
        TokenValue {
            s_val: match &self.s_val {
                Some(s) => Some(s.clone()),
                None => None,
            },
        }
    }
}

impl Clone for Token {
    /// A copy with the same model.
    fn clone(&self) -> (r: Self)
        ensures
            r@ == self@,
    {
        let r = Token {
            tok_type: self.tok_type,
            tok_value: match &self.tok_value {
                Some(tv) => Some(tv.clone()),
                None => None,
            },
        };
        r
    }
}

/// The model of a token with no payload.
pub open spec fn simple_model(ty: TokenType) -> TokenModel {
    TokenModel { ty, val: None }
}

/// The model of a `Literal` token carrying the text `s`.
pub open spec fn literal_model(s: Seq<char>) -> TokenModel {
    TokenModel { ty: TokenType::Literal, val: Some(Some(s)) }
}

/// Whether a token model is a `Literal` carrying a payload.
pub open spec fn is_literal(t: TokenModel) -> bool {
    t.ty == TokenType::Literal && t.val matches Some(Some(_))
}

/// The payload text of a literal token model.
pub open spec fn payload_of(t: TokenModel) -> Seq<char> {
    t.val->Some_0->Some_0
}

/// The model of a sequence of tokens.
pub open spec fn models(ts: Seq<Token>) -> Seq<TokenModel> {
    ts.map_values(|t: Token| t@)
}

} // verus!
