use vstd::prelude::*;

use crate::ast::{stack_model, CallStack, SymbolModel, SymbolType};
use crate::errors::LangError;
use crate::postfix::{eval_expression, infix_to_postfix, spec_eval_postfix, spec_to_postfix};
use crate::subst::{resolve_symbols, spec_resolve_symbols};
use crate::token::{
    is_literal, models, payload_of, simple_model, Token, TokenModel, TokenType, TokenValue,
};
use crate::unary::{resolve_unary_operators, spec_resolve_unary};

verus! {

/// The tokens an expression may consist of; everything else is discarded
/// before the expression pipeline runs.
pub open spec fn in_expr_set(ty: TokenType) -> bool {
    ty == TokenType::Literal || ty == TokenType::OpenParen || ty == TokenType::CloseParen || ty
        == TokenType::Plus || ty == TokenType::Minus || ty == TokenType::Bool || ty
        == TokenType::Mult || ty == TokenType::Mod || ty == TokenType::Div || ty == TokenType::And
        || ty == TokenType::Or || ty == TokenType::Not || ty == TokenType::Equals || ty
        == TokenType::NotEqual || ty == TokenType::GreaterThan || ty == TokenType::LessThan || ty
        == TokenType::Gte || ty == TokenType::Lte || ty == TokenType::In
}

pub open spec fn spec_filter_from(ts: Seq<TokenModel>, i: int, out: Seq<TokenModel>) -> Seq<
    TokenModel,
>
    decreases ts.len() - i,
{
    if i < 0 || i >= ts.len() {
        out
    } else if in_expr_set(ts[i].ty) {
        spec_filter_from(ts, i + 1, out.push(ts[i]))
    } else {
        spec_filter_from(ts, i + 1, out)
    }
}

/// The expression tokens of a sequence, in order.
pub open spec fn spec_filter_expr(ts: Seq<TokenModel>) -> Seq<TokenModel> {
    spec_filter_from(ts, 0, Seq::empty())
}

/// The scalar-expression pipeline: keep the expression tokens, substitute
/// bound symbols, collapse unary operators, convert to postfix, evaluate,
/// and wrap the resulting literal's text as a number value.
pub open spec fn spec_eval_scalar(
    sm: Seq<Seq<(Seq<char>, SymbolModel)>>,
    ts: Seq<TokenModel>,
) -> Result<SymbolModel, LangError> {
    match spec_resolve_symbols(sm, spec_filter_expr(ts)) {
        Err(e) => Err(e),
        Ok(resolved) => match spec_resolve_unary(resolved) {
            Err(e) => Err(e),
            Ok(normal) => match spec_eval_postfix(spec_to_postfix(normal)) {
                Err(e) => Err(e),
                Ok(t) => if is_literal(t) {
                    Ok(SymbolModel::Num(payload_of(t)))
                } else {
                    Err(LangError::SyntaxError)
                },
            },
        },
    }
}

fn in_expr_set_exec(ty: TokenType) -> (r: bool)
    ensures
        r == in_expr_set(ty),
{
    ty == TokenType::Literal || ty == TokenType::OpenParen || ty == TokenType::CloseParen || ty
        == TokenType::Plus || ty == TokenType::Minus || ty == TokenType::Bool || ty
        == TokenType::Mult || ty == TokenType::Mod || ty == TokenType::Div || ty == TokenType::And
        || ty == TokenType::Or || ty == TokenType::Not || ty == TokenType::Equals || ty
        == TokenType::NotEqual || ty == TokenType::GreaterThan || ty == TokenType::LessThan || ty
        == TokenType::Gte || ty == TokenType::Lte || ty == TokenType::In
}

/// Keeps the expression tokens of a sequence, in order.
fn filter_expr_tokens(tokens: &Vec<Token>) -> (r: Vec<Token>)
    ensures
        models(r@) == spec_filter_expr(models(tokens@)),
{
    let ghost tsm = models(tokens@);
    let mut out: Vec<Token> = Vec::new();
    let mut i: usize = 0;
    proof {
        assert(models(out@) =~= Seq::<TokenModel>::empty());
        assert(tsm.len() == tokens@.len());
    }
    while i < tokens.len()
        invariant
            0 <= i <= tokens.len(),
            tsm == models(tokens@),
            tsm.len() == tokens@.len(),
            spec_filter_expr(tsm) == spec_filter_from(tsm, i as int, models(out@)),
        decreases tokens.len() - i,
    {
        proof {
            assert(tsm[i as int] == tokens@[i as int]@);
        }
        let ghost pre = models(out@);
        if in_expr_set_exec(tokens[i].tok_type) {
            out.push(tokens[i].clone());
            proof {
                assert(models(out@) =~= pre.push(tsm[i as int]));
            }
        }
        i += 1;
    }
    out
}

/// Runs the scalar-expression pipeline over a token sequence against the
/// given scope stack and returns the evaluated number value.
pub fn parse_logical_iter(stack: &CallStack, tokens: &Vec<Token>) -> (r: Result<
    SymbolType,
    LangError,
>)
    ensures
        match r {
            Ok(v) => spec_eval_scalar(stack_model(*stack), models(tokens@)) == Ok::<_, LangError>(
                sym_model_of(v),
            ),
            Err(e) => spec_eval_scalar(stack_model(*stack), models(tokens@)) == Err::<
                SymbolModel,
                _,
            >(e),
        },
{
    let filtered = filter_expr_tokens(tokens);
    let resolved = match resolve_symbols(stack, filtered) {
        Ok(v) => v,
        Err(e) => {
            return Err(e);
        },
    };
    let normal = match resolve_unary_operators(resolved) {
        Ok(v) => v,
        Err(e) => {
            return Err(e);
        },
    };
    let postfix = infix_to_postfix(normal);
    let evaluated = match eval_expression(&postfix) {
        Ok(t) => t,
        Err(e) => {
            return Err(e);
        },
    };
    if !(evaluated.tok_type == TokenType::Literal) {
        return Err(LangError::SyntaxError);
    }
    match evaluated.tok_value {
        Some(tv) => match tv.s_val {
            Some(s) => Ok(SymbolType::Number(s)),
            None => Err(LangError::SyntaxError),
        },
        None => Err(LangError::SyntaxError),
    }
}

/// The model of a value, under the name the contracts here use.
pub open spec fn sym_model_of(v: SymbolType) -> SymbolModel {
    crate::ast::sym_model(v)
}

/// What a string literal's token shape yields: exactly an opening quote, one
/// literal with the content, and a closing quote.
pub open spec fn spec_parse_string(ts: Seq<TokenModel>) -> Result<SymbolModel, LangError> {
    if ts.len() == 3 && ts[0].ty == TokenType::Quote && ts[1].ty == TokenType::Literal
        && is_literal(ts[1]) && ts[2].ty == TokenType::Quote {
        Ok(SymbolModel::Text(payload_of(ts[1])))
    } else {
        Err(LangError::SyntaxError)
    }
}

/// Parses a string literal: exactly `Quote, Literal(content), Quote`; any
/// other shape is invalid syntax.
pub fn parse_string(tokens: &Vec<Token>) -> (r: Result<SymbolType, LangError>)
    ensures
        match r {
            Ok(v) => spec_parse_string(models(tokens@)) == Ok::<_, LangError>(sym_model_of(v)),
            Err(e) => spec_parse_string(models(tokens@)) == Err::<SymbolModel, _>(e),
        },
{
    proof {
        if tokens@.len() > 0 {
            assert(models(tokens@)[0] == tokens@[0]@);
        }
        if tokens@.len() > 1 {
            assert(models(tokens@)[1] == tokens@[1]@);
        }
        if tokens@.len() > 2 {
            assert(models(tokens@)[2] == tokens@[2]@);
        }
        assert(models(tokens@).len() == tokens@.len());
    }
    if tokens.len() != 3 {
        return Err(LangError::SyntaxError);
    }
    if !(tokens[0].tok_type == TokenType::Quote) || !(tokens[2].tok_type == TokenType::Quote)
        || !(tokens[1].tok_type == TokenType::Literal) {
        return Err(LangError::SyntaxError);
    }
    match &tokens[1].tok_value {
        Some(tv) => match &tv.s_val {
            Some(s) => Ok(SymbolType::String(s.clone())),
            None => Err(LangError::SyntaxError),
        },
        None => Err(LangError::SyntaxError),
    }
}

/// Block statements carry no executable semantics in this core: a block
/// evaluates to the number zero.
pub fn parse_block(tokens: Vec<Token>) -> (r: SymbolType)
    ensures
        sym_model_of(r) == SymbolModel::Num("0"@),
{
    let _ = tokens;
    SymbolType::Number(String::from_str("0"))
}

/// The tokens an arithmetic sub-expression may consist of, for collection.
pub open spec fn in_collect_set(ty: TokenType) -> bool {
    ty == TokenType::OpenParen || ty == TokenType::CloseParen || ty == TokenType::Literal || ty
        == TokenType::Plus || ty == TokenType::Minus
}

/// How many collectible tokens sit at the front of the sequence.
pub open spec fn collect_count(ts: Seq<TokenModel>, i: int) -> nat
    decreases ts.len() - i,
{
    if 0 <= i < ts.len() && in_collect_set(ts[i].ty) {
        1 + collect_count(ts, i + 1)
    } else {
        0
    }
}

/// Collects the longest prefix of expression tokens, and hands back the
/// first token that stopped the collection — or an error token when the
/// whole sequence was collected.
pub fn collect_expression_tokens(tokens: &Vec<Token>) -> (r: (Token, Vec<Token>))
    ensures
        models(r.1@) == models(tokens@).take(collect_count(models(tokens@), 0) as int),
        r.0@ == if collect_count(models(tokens@), 0) < models(tokens@).len() {
            models(tokens@)[collect_count(models(tokens@), 0) as int]
        } else {
            simple_model(TokenType::TokenError)
        },
{
    let ghost tsm = models(tokens@);
    let mut acc: Vec<Token> = Vec::new();
    let mut i: usize = 0;
    proof {
        assert(models(acc@) =~= Seq::<TokenModel>::empty());
        assert(tsm.len() == tokens@.len());
        assert(tsm.take(0) =~= Seq::<TokenModel>::empty());
    }
    while i < tokens.len()
        invariant
            0 <= i <= tokens.len(),
            tsm == models(tokens@),
            tsm.len() == tokens@.len(),
            models(acc@) == tsm.take(i as int),
            collect_count(tsm, 0) == (i as nat) + collect_count(tsm, i as int),
            forall|j: int| 0 <= j < i ==> in_collect_set(#[trigger] tsm[j].ty),
        decreases tokens.len() - i,
    {
        proof {
            assert(tsm[i as int] == tokens@[i as int]@);
        }
        let ty = tokens[i].tok_type;
        let keep = ty == TokenType::OpenParen || ty == TokenType::CloseParen || ty
            == TokenType::Literal || ty == TokenType::Plus || ty == TokenType::Minus;
        if !keep {
            return (tokens[i].clone(), acc);
        }
        let ghost pre = models(acc@);
        let t = tokens[i].clone();
        let ghost tm = t@;
        acc.push(t);
        proof {
            assert(models(acc@) =~= pre.push(tm));
            assert(pre.push(tm) =~= tsm.take(i as int + 1));
        }
        i += 1;
    }
    (Token { tok_type: TokenType::TokenError, tok_value: None }, acc)
}

/// How many sign tokens sit at the front of the sequence.
pub open spec fn sign_count(ts: Seq<TokenModel>, i: int) -> nat
    decreases ts.len() - i,
{
    if 0 <= i < ts.len() && (ts[i].ty == TokenType::Plus || ts[i].ty == TokenType::Minus) {
        1 + sign_count(ts, i + 1)
    } else {
        0
    }
}

/// Skips the leading sign tokens and hands back the first token after them,
/// or an error token when nothing follows the signs.
pub fn find_number_sign_helper(tokens: &Vec<Token>) -> (r: Token)
    ensures
        r@ == if sign_count(models(tokens@), 0) < models(tokens@).len() {
            models(tokens@)[sign_count(models(tokens@), 0) as int]
        } else {
            simple_model(TokenType::TokenError)
        },
{
    let ghost tsm = models(tokens@);
    let mut i: usize = 0;
    proof {
        assert(tsm.len() == tokens@.len());
    }
    while i < tokens.len()
        invariant
            0 <= i <= tokens.len(),
            tsm == models(tokens@),
            tsm.len() == tokens@.len(),
            sign_count(tsm, 0) == (i as nat) + sign_count(tsm, i as int),
        decreases tokens.len() - i,
    {
        proof {
            assert(tsm[i as int] == tokens@[i as int]@);
        }
        let ty = tokens[i].tok_type;
        if !(ty == TokenType::Plus || ty == TokenType::Minus) {
            return tokens[i].clone();
        }
        i += 1;
    }
    Token { tok_type: TokenType::TokenError, tok_value: None }
}


/// A position clamped to the end of the sequence: a totality device for the
/// recursive grammar functions; the executable parsers never run past the
/// end.
pub open spec fn cap(j: int, len: int) -> int {
    if j > len {
        len
    } else {
        j
    }
}

/// What one array element at position `i` yields, together with how many
/// tokens beyond the first it consumed. An element is a nested array, a
/// string literal triple, or a bare literal: a bound name becomes a pointer
/// alias, an unbound one a number.
pub open spec fn spec_array_elem(
    sm: Seq<Seq<(Seq<char>, SymbolModel)>>,
    ts: Seq<TokenModel>,
    i: int,
) -> Result<(SymbolModel, nat), LangError>
    decreases ts.len() - i, 1int,
{
    if i < 0 || i >= ts.len() {
        Err(LangError::SyntaxError)
    } else if ts[i].ty == TokenType::OpenBracket {
        match spec_parse_array_at(sm, ts, i) {
            Ok(r) => Ok((SymbolModel::Arr(r.0), r.1)),
            Err(e) => Err(e),
        }
    } else if ts[i].ty == TokenType::Quote {
        if i + 2 < ts.len() && ts[i + 1].ty == TokenType::Literal && is_literal(ts[i + 1]) && ts[i
            + 2].ty == TokenType::Quote {
            Ok((SymbolModel::Text(payload_of(ts[i + 1])), 2))
        } else {
            Err(LangError::SyntaxError)
        }
    } else if ts[i].ty == TokenType::Literal {
        if !is_literal(ts[i]) {
            Err(LangError::SyntaxError)
        } else {
            match crate::ast::stack_lookup(sm, payload_of(ts[i])) {
                Some(_) => Ok((SymbolModel::Ptr(payload_of(ts[i])), 0)),
                None => Ok((SymbolModel::Num(payload_of(ts[i])), 0)),
            }
        }
    } else {
        Err(LangError::SyntaxError)
    }
}

/// The elements after the first one: a comma and an element, repeated, until
/// the closing bracket. Returns the elements and the tokens consumed beyond
/// the first.
pub open spec fn spec_array_tail(
    sm: Seq<Seq<(Seq<char>, SymbolModel)>>,
    ts: Seq<TokenModel>,
    i: int,
    acc: Seq<SymbolModel>,
) -> Result<(Seq<SymbolModel>, nat), LangError>
    decreases ts.len() - i, 2int,
{
    if i < 0 || i >= ts.len() {
        Err(LangError::SyntaxError)
    } else if ts[i].ty == TokenType::CloseBracket {
        Ok((acc, 0))
    } else if ts[i].ty == TokenType::Comma {
        match spec_array_elem(sm, ts, cap(i + 1, ts.len() as int)) {
            Ok(el) => {
                match spec_array_tail(sm, ts, cap(i + 2 + el.1, ts.len() as int), acc.push(el.0)) {
                    Ok(r) => Ok((r.0, 2 + el.1 + r.1)),
                    Err(e) => Err(e),
                }
            },
            Err(e) => Err(e),
        }
    } else {
        Err(LangError::SyntaxError)
    }
}

/// What an array literal beginning at position `i` yields: its elements and
/// the tokens consumed beyond the opening bracket.
pub open spec fn spec_parse_array_at(
    sm: Seq<Seq<(Seq<char>, SymbolModel)>>,
    ts: Seq<TokenModel>,
    i: int,
) -> Result<(Seq<SymbolModel>, nat), LangError>
    decreases ts.len() - i, 0int,
{
    if !(0 <= i < ts.len() && ts[i].ty == TokenType::OpenBracket) {
        Err(LangError::SyntaxError)
    } else if i + 1 < ts.len() && ts[i + 1].ty == TokenType::CloseBracket {
        Ok((Seq::empty(), 1))
    } else {
        match spec_array_elem(sm, ts, i + 1) {
            Ok(el) => {
                match spec_array_tail(sm, ts, cap(i + 2 + el.1, ts.len() as int), seq![el.0]) {
                    Ok(r) => Ok((r.0, 2 + el.1 + r.1)),
                    Err(e) => Err(e),
                }
            },
            Err(e) => Err(e),
        }
    }
}

/// Whether a token opens or closes a nesting level, for delimiter scanning.
pub open spec fn delim_step(ty: TokenType) -> int {
    if ty == TokenType::OpenBracket || ty == TokenType::OpenBrace {
        1
    } else if ty == TokenType::CloseBracket || ty == TokenType::CloseBrace {
        -1
    } else {
        0
    }
}

/// The distance from `i` to the first colon at nesting depth zero.
pub open spec fn to_colon(ts: Seq<TokenModel>, i: int, d: int) -> nat
    decreases ts.len() - i,
{
    if i < 0 || i >= ts.len() {
        0
    } else if d == 0 && ts[i].ty == TokenType::Colon {
        0
    } else {
        1 + to_colon(ts, i + 1, d + delim_step(ts[i].ty))
    }
}

/// The distance from `i` to the first comma or closing brace at nesting
/// depth zero.
pub open spec fn to_value_end(ts: Seq<TokenModel>, i: int, d: int) -> nat
    decreases ts.len() - i,
{
    if i < 0 || i >= ts.len() {
        0
    } else if d == 0 && (ts[i].ty == TokenType::Comma || ts[i].ty == TokenType::CloseBrace) {
        0
    } else {
        1 + to_value_end(ts, i + 1, d + delim_step(ts[i].ty))
    }
}

/// The entries of an object literal from position `i` on: a key up to the
/// colon, a value up to the comma or closing brace, both run through the
/// full expression pipeline, in insertion order.
pub open spec fn spec_object_entries(
    sm: Seq<Seq<(Seq<char>, SymbolModel)>>,
    ts: Seq<TokenModel>,
    i: int,
    acc: Seq<(SymbolModel, SymbolModel)>,
) -> Result<Seq<(SymbolModel, SymbolModel)>, LangError>
    decreases ts.len() - i, 2int,
{
    if i < 0 || i >= ts.len() {
        Err(LangError::SyntaxError)
    } else {
        let c = i + to_colon(ts, i, 0);
        if c >= ts.len() {
            Err(LangError::SyntaxError)
        } else {
            match spec_parse_expression(sm, ts.subrange(i, c)) {
                Err(e) => Err(e),
                Ok(k) => {
                    let e = c + 1 + to_value_end(ts, c + 1, 0);
                    if e >= ts.len() {
                        Err(LangError::SyntaxError)
                    } else {
                        match spec_parse_expression(sm, ts.subrange(c + 1, e)) {
                            Err(e2) => Err(e2),
                            Ok(v) => {
                                if ts[e].ty == TokenType::CloseBrace {
                                    Ok(acc.push((k, v)))
                                } else {
                                    spec_object_entries(
                                        sm,
                                        ts,
                                        cap(e + 1, ts.len() as int),
                                        acc.push((k, v)),
                                    )
                                }
                            },
                        }
                    }
                },
            }
        }
    }
}

/// A token sequence with one trailing statement terminator removed.
pub open spec fn strip_trailing_newline(ts: Seq<TokenModel>) -> Seq<TokenModel> {
    if ts.len() > 0 && ts.last().ty == TokenType::NewLine {
        ts.drop_last()
    } else {
        ts
    }
}

/// What an expression yields, classified by its lead token: a scalar
/// expression runs through the full pipeline; a quote opens a string
/// literal; a bracket an array; a brace an object. Tokens after a closing
/// bracket or brace are ignored.
pub open spec fn spec_parse_expression(
    sm: Seq<Seq<(Seq<char>, SymbolModel)>>,
    ts: Seq<TokenModel>,
) -> Result<SymbolModel, LangError>
    decreases ts.len(), 3int,
{
    if ts.len() == 0 {
        Err(LangError::SyntaxError)
    } else {
        let ty = ts[0].ty;
        if ty == TokenType::Literal || ty == TokenType::Minus || ty == TokenType::Not {
            spec_eval_scalar(sm, ts)
        } else if ty == TokenType::Quote {
            spec_parse_string(strip_trailing_newline(ts))
        } else if ty == TokenType::OpenBracket {
            match spec_parse_array_at(sm, ts, 0) {
                Ok(r) => Ok(SymbolModel::Arr(r.0)),
                Err(e) => Err(e),
            }
        } else if ty == TokenType::OpenBrace {
            if ts.len() >= 2 && ts[1].ty == TokenType::CloseBrace {
                Ok(SymbolModel::Obj(Seq::empty()))
            } else {
                match spec_object_entries(sm, ts, 1, Seq::empty()) {
                    Ok(entries) => Ok(SymbolModel::Obj(entries)),
                    Err(e) => Err(e),
                }
            }
        } else {
            Err(LangError::SyntaxError)
        }
    }
}

/// What an assignment does to the scope stack: `var <name> is <expression>`
/// binds the expression's value to the name in the innermost frame. A head
/// that is not exactly the `var` keyword, a literal name, and the `is`
/// keyword is a syntax error; a failed expression or a redefinition leaves
/// the stack untouched.
pub open spec fn spec_parse_assignment(
    sm: Seq<Seq<(Seq<char>, SymbolModel)>>,
    ts: Seq<TokenModel>,
) -> Result<Seq<Seq<(Seq<char>, SymbolModel)>>, LangError> {
    if ts.len() < 3 {
        Err(LangError::SyntaxError)
    } else if !(ts[0].ty == TokenType::Assign && ts[1].ty == TokenType::Literal && is_literal(
        ts[1],
    ) && ts[2].ty == TokenType::Is) {
        Err(LangError::SyntaxError)
    } else {
        match spec_parse_expression(sm, ts.subrange(3, ts.len() as int)) {
            Err(e) => Err(e),
            Ok(v) => crate::ast::spec_bind(sm, payload_of(ts[1]), v),
        }
    }
}

/// What one statement does to the scope stack: an assignment binds; the
/// statement keywords recognized by the lexer have no executable semantics
/// here and report an undefined operator; a bare expression line changes
/// nothing.
pub open spec fn spec_parse(
    sm: Seq<Seq<(Seq<char>, SymbolModel)>>,
    ts: Seq<TokenModel>,
) -> Result<Seq<Seq<(Seq<char>, SymbolModel)>>, LangError> {
    if ts.len() == 0 {
        Err(LangError::SyntaxError)
    } else {
        let ty = ts[0].ty;
        if ty == TokenType::Assign {
            spec_parse_assignment(sm, ts)
        } else if ty == TokenType::Bool || ty == TokenType::Function || ty == TokenType::Quote || ty
            == TokenType::If || ty == TokenType::Else || ty == TokenType::While || ty
            == TokenType::For || ty == TokenType::Loop || ty == TokenType::Object || ty
            == TokenType::OpenBrace || ty == TokenType::CloseBrace || ty == TokenType::OpenBracket
            || ty == TokenType::CloseBracket || ty == TokenType::OpenParen || ty
            == TokenType::CloseParen || ty == TokenType::NewLine || ty == TokenType::TokenError {
            Err(LangError::UndefinedOperatorError)
        } else {
            Ok(sm)
        }
    }
}



/// The models of a sequence of values.
pub open spec fn syms_models(v: Seq<SymbolType>) -> Seq<SymbolModel> {
    Seq::new(
        v.len(),
        |i: int|
            if 0 <= i < v.len() {
                crate::ast::sym_model(v[i])
            } else {
                SymbolModel::Num(Seq::empty())
            },
    )
}

/// The models of a sequence of key-value pairs.
pub open spec fn pairs_models(v: Seq<(SymbolType, SymbolType)>) -> Seq<(SymbolModel, SymbolModel)> {
    Seq::new(
        v.len(),
        |i: int|
            if 0 <= i < v.len() {
                (crate::ast::sym_model(v[i].0), crate::ast::sym_model(v[i].1))
            } else {
                (SymbolModel::Num(Seq::empty()), SymbolModel::Num(Seq::empty()))
            },
    )
}

/// The tokens of the half-open range, cloned.
fn slice_tokens(tokens: &Vec<Token>, from: usize, to: usize) -> (r: Vec<Token>)
    requires
        from <= to <= tokens@.len(),
    ensures
        models(r@) == models(tokens@).subrange(from as int, to as int),
        r@.len() == to - from,
{
    let ghost tsm = models(tokens@);
    let mut out: Vec<Token> = Vec::new();
    let mut j = from;
    proof {
        assert(tsm.len() == tokens@.len());
        assert(models(out@) =~= tsm.subrange(from as int, from as int));
    }
    while j < to
        invariant
            from <= j <= to <= tokens@.len(),
            tsm == models(tokens@),
            tsm.len() == tokens@.len(),
            out@.len() == j - from,
            models(out@) == tsm.subrange(from as int, j as int),
        decreases to - j,
    {
        let t = tokens[j].clone();
        let ghost tm = t@;
        let ghost pre = models(out@);
        out.push(t);
        proof {
            assert(tsm[j as int] == tokens@[j as int]@);
            assert(models(out@) =~= pre.push(tm));
            assert(pre.push(tm) =~= tsm.subrange(from as int, j as int + 1));
        }
        j += 1;
    }
    out
}

/// One array element beginning at `i`, and the position after it.
fn parse_array_elem(stack: &CallStack, tokens: &Vec<Token>, i: usize) -> (r: Result<
    (SymbolType, usize),
    LangError,
>)
    requires
        i <= tokens@.len(),
    ensures
        match r {
            Ok(p) => spec_array_elem(stack_model(*stack), models(tokens@), i as int) == Ok::<
                _,
                LangError,
            >((sym_model_of(p.0), (p.1 - i - 1) as nat)) && i < p.1 <= tokens@.len(),
            Err(e) => spec_array_elem(stack_model(*stack), models(tokens@), i as int) == Err::<
                (SymbolModel, nat),
                _,
            >(e),
        },
    decreases tokens@.len() - i, 1int,
{
    let ghost sm = stack_model(*stack);
    let ghost tsm = models(tokens@);
    proof {
        assert(tsm.len() == tokens@.len());
        if i < tokens@.len() {
            assert(tsm[i as int] == tokens@[i as int]@);
        }
    }
    if i >= tokens.len() {
        return Err(LangError::SyntaxError);
    }
    let ty = tokens[i].tok_type;
    if ty == TokenType::OpenBracket {
        match parse_array_at(stack, tokens, i) {
            Ok((elems, next)) => {
                let ghost em = syms_models(elems@);
                let v = SymbolType::Array(crate::ast::ArraySymbolArgs { array: elems });
                proof {
                    assert(sym_model_of(v) is Arr);
                    assert(sym_model_of(v)->Arr_0 =~~= em);
                    assert(sym_model_of(v) == SymbolModel::Arr(em));
                }
                Ok((v, next))
            },
            Err(e) => Err(e),
        }
    } else if ty == TokenType::Quote {
        proof {
            if i + 1 < tokens@.len() {
                assert(tsm[i as int + 1] == tokens@[i as int + 1]@);
            }
            if i + 2 < tokens@.len() {
                assert(tsm[i as int + 2] == tokens@[i as int + 2]@);
            }
        }
        if tokens.len() - i > 2 && tokens[i + 1].tok_type == TokenType::Literal && tokens[i
            + 2].tok_type == TokenType::Quote {
            match &tokens[i + 1].tok_value {
                Some(tv) => match &tv.s_val {
                    Some(content) => Ok((SymbolType::String(content.clone()), i + 3)),
                    None => Err(LangError::SyntaxError),
                },
                None => Err(LangError::SyntaxError),
            }
        } else {
            Err(LangError::SyntaxError)
        }
    } else if ty == TokenType::Literal {
        let payload: &String = match &tokens[i].tok_value {
            Some(tv) => match &tv.s_val {
                Some(s) => s,
                None => {
                    return Err(LangError::SyntaxError);
                },
            },
            None => {
                return Err(LangError::SyntaxError);
            },
        };
        match stack.lookup_symbol(payload.as_str()) {
            Some(_) => Ok((SymbolType::Pointer(payload.clone()), i + 1)),
            None => Ok((SymbolType::Number(payload.clone()), i + 1)),
        }
    } else {
        Err(LangError::SyntaxError)
    }
}

/// The elements after the first one, and the position after the closing
/// bracket.
fn parse_array_tail(
    stack: &CallStack,
    tokens: &Vec<Token>,
    i: usize,
    acc: Vec<SymbolType>,
) -> (r: Result<(Vec<SymbolType>, usize), LangError>)
    requires
        i <= tokens@.len(),
    ensures
        match r {
            Ok(p) => spec_array_tail(
                stack_model(*stack),
                models(tokens@),
                i as int,
                syms_models(acc@),
            ) == Ok::<_, LangError>((syms_models(p.0@), (p.1 - i - 1) as nat)) && i < p.1
                <= tokens@.len(),
            Err(e) => spec_array_tail(
                stack_model(*stack),
                models(tokens@),
                i as int,
                syms_models(acc@),
            ) == Err::<(Seq<SymbolModel>, nat), _>(e),
        },
    decreases tokens@.len() - i, 2int,
{
    let ghost sm = stack_model(*stack);
    let ghost tsm = models(tokens@);
    let ghost acc0 = syms_models(acc@);
    proof {
        assert(tsm.len() == tokens@.len());
        if i < tokens@.len() {
            assert(tsm[i as int] == tokens@[i as int]@);
        }
    }
    if i >= tokens.len() {
        return Err(LangError::SyntaxError);
    }
    let ty = tokens[i].tok_type;
    if ty == TokenType::CloseBracket {
        Ok((acc, i + 1))
    } else if ty == TokenType::Comma {
        proof {
            assert(cap(i as int + 1, tsm.len() as int) == i as int + 1);
        }
        match parse_array_elem(stack, tokens, i + 1) {
            Ok((v, n1)) => {
                let mut acc2 = acc;
                let ghost vmod = sym_model_of(v);
                let ghost pre = syms_models(acc2@);
                acc2.push(v);
                proof {
                    assert(syms_models(acc2@) =~= pre.push(vmod));
                    assert(cap(i as int + 2 + (n1 - i - 2), tsm.len() as int) == n1 as int);
                }
                match parse_array_tail(stack, tokens, n1, acc2) {
                    Ok((elems, next)) => Ok((elems, next)),
                    Err(e) => Err(e),
                }
            },
            Err(e) => Err(e),
        }
    } else {
        Err(LangError::SyntaxError)
    }
}

/// An array literal beginning at `i`: its elements and the position after
/// the closing bracket.
fn parse_array_at(stack: &CallStack, tokens: &Vec<Token>, i: usize) -> (r: Result<
    (Vec<SymbolType>, usize),
    LangError,
>)
    requires
        i <= tokens@.len(),
    ensures
        match r {
            Ok(p) => spec_parse_array_at(stack_model(*stack), models(tokens@), i as int) == Ok::<
                _,
                LangError,
            >((syms_models(p.0@), (p.1 - i - 1) as nat)) && i < p.1 <= tokens@.len(),
            Err(e) => spec_parse_array_at(stack_model(*stack), models(tokens@), i as int) == Err::<
                (Seq<SymbolModel>, nat),
                _,
            >(e),
        },
    decreases tokens@.len() - i, 0int,
{
    let ghost sm = stack_model(*stack);
    let ghost tsm = models(tokens@);
    proof {
        assert(tsm.len() == tokens@.len());
        if i < tokens@.len() {
            assert(tsm[i as int] == tokens@[i as int]@);
        }
        if i + 1 < tokens@.len() {
            assert(tsm[i as int + 1] == tokens@[i as int + 1]@);
        }
    }
    if !(i < tokens.len() && tokens[i].tok_type == TokenType::OpenBracket) {
        return Err(LangError::SyntaxError);
    }
    if i + 1 < tokens.len() && tokens[i + 1].tok_type == TokenType::CloseBracket {
        let empty: Vec<SymbolType> = Vec::new();
        proof {
            assert(syms_models(empty@) =~= Seq::<SymbolModel>::empty());
        }
        return Ok((empty, i + 2));
    }
    match parse_array_elem(stack, tokens, i + 1) {
        Ok((v, n1)) => {
            let mut acc: Vec<SymbolType> = Vec::new();
            let ghost vmod = sym_model_of(v);
            acc.push(v);
            proof {
                assert(syms_models(acc@) =~= seq![vmod]);
                assert(cap(i as int + 2 + (n1 - i - 2), tsm.len() as int) == n1 as int);
            }
            match parse_array_tail(stack, tokens, n1, acc) {
                Ok((elems, next)) => Ok((elems, next)),
                Err(e) => Err(e),
            }
        },
        Err(e) => Err(e),
    }
}

/// Parses an array literal: `[` elem (`,` elem)* `]`, possibly empty. Each
/// element is classified by its lead token: a nested array, a string triple,
/// or a bare literal, which aliases a bound name or carries a number.
/// Tokens after the closing bracket are ignored.
pub fn parse_array(stack: &CallStack, tokens: &Vec<Token>) -> (r: Result<SymbolType, LangError>)
    ensures
        match r {
            Ok(v) => spec_parse_array_at(stack_model(*stack), models(tokens@), 0) matches Ok(p)
                && sym_model_of(v) == SymbolModel::Arr(p.0),
            Err(e) => spec_parse_array_at(stack_model(*stack), models(tokens@), 0) == Err::<
                (Seq<SymbolModel>, nat),
                _,
            >(e),
        },
{
    match parse_array_at(stack, tokens, 0) {
        Ok((elems, _)) => {
            let ghost em = syms_models(elems@);
            let v = SymbolType::Array(crate::ast::ArraySymbolArgs { array: elems });
            proof {
                assert(sym_model_of(v) is Arr);
                assert(sym_model_of(v)->Arr_0 =~~= em);
                assert(sym_model_of(v) == SymbolModel::Arr(em));
            }
            Ok(v)
        },
        Err(e) => Err(e),
    }
}

/// The position of the first colon at nesting depth zero, from `start` on;
/// the length of the sequence when there is none.
fn scan_to_colon(tokens: &Vec<Token>, start: usize) -> (c: usize)
    requires
        start <= tokens@.len(),
    ensures
        c == start + to_colon(models(tokens@), start as int, 0),
        start <= c <= tokens@.len(),
{
    let ghost tsm = models(tokens@);
    let len = tokens.len();
    let mut i = start;
    let mut d: i128 = 0;
    proof {
        assert(tsm.len() == tokens@.len());
    }
    while i < len
        invariant
            start <= i <= len,
            len == tokens@.len(),
            tsm == models(tokens@),
            tsm.len() == tokens@.len(),
            -(i as int) <= d as int <= i as int,
            to_colon(tsm, start as int, 0) == (i - start) + to_colon(tsm, i as int, d as int),
        decreases len - i,
    {
        proof {
            assert(tsm[i as int] == tokens@[i as int]@);
        }
        let ty = tokens[i].tok_type;
        if d == 0 && ty == TokenType::Colon {
            return i;
        }
        if ty == TokenType::OpenBracket || ty == TokenType::OpenBrace {
            d += 1;
        } else if ty == TokenType::CloseBracket || ty == TokenType::CloseBrace {
            d -= 1;
        }
        i += 1;
    }
    i
}

/// The position of the first comma or closing brace at nesting depth zero,
/// from `start` on; the length of the sequence when there is none.
fn scan_to_value_end(tokens: &Vec<Token>, start: usize) -> (c: usize)
    requires
        start <= tokens@.len(),
    ensures
        c == start + to_value_end(models(tokens@), start as int, 0),
        start <= c <= tokens@.len(),
{
    let ghost tsm = models(tokens@);
    let len = tokens.len();
    let mut i = start;
    let mut d: i128 = 0;
    proof {
        assert(tsm.len() == tokens@.len());
    }
    while i < len
        invariant
            start <= i <= len,
            len == tokens@.len(),
            tsm == models(tokens@),
            tsm.len() == tokens@.len(),
            -(i as int) <= d as int <= i as int,
            to_value_end(tsm, start as int, 0) == (i - start) + to_value_end(
                tsm,
                i as int,
                d as int,
            ),
        decreases len - i,
    {
        proof {
            assert(tsm[i as int] == tokens@[i as int]@);
        }
        let ty = tokens[i].tok_type;
        if d == 0 && (ty == TokenType::Comma || ty == TokenType::CloseBrace) {
            return i;
        }
        if ty == TokenType::OpenBracket || ty == TokenType::OpenBrace {
            d += 1;
        } else if ty == TokenType::CloseBracket || ty == TokenType::CloseBrace {
            d -= 1;
        }
        i += 1;
    }
    i
}

/// The entries of an object literal from position `i` on.
fn parse_object_entries(
    stack: &CallStack,
    tokens: &Vec<Token>,
    i: usize,
    entries: Vec<(SymbolType, SymbolType)>,
) -> (r: Result<Vec<(SymbolType, SymbolType)>, LangError>)
    requires
        i <= tokens@.len(),
    ensures
        match r {
            Ok(v) => spec_object_entries(
                stack_model(*stack),
                models(tokens@),
                i as int,
                pairs_models(entries@),
            ) == Ok::<_, LangError>(pairs_models(v@)),
            Err(e) => spec_object_entries(
                stack_model(*stack),
                models(tokens@),
                i as int,
                pairs_models(entries@),
            ) == Err::<Seq<(SymbolModel, SymbolModel)>, _>(e),
        },
    decreases tokens@.len() - i, 2int,
{
    let ghost sm = stack_model(*stack);
    let ghost tsm = models(tokens@);
    proof {
        assert(tsm.len() == tokens@.len());
    }
    if i >= tokens.len() {
        return Err(LangError::SyntaxError);
    }
    let c = scan_to_colon(tokens, i);
    if c >= tokens.len() {
        return Err(LangError::SyntaxError);
    }
    let key_toks = slice_tokens(tokens, i, c);
    let k = match parse_expression(stack, &key_toks) {
        Ok(v) => v,
        Err(e) => {
            return Err(e);
        },
    };
    let e_pos = scan_to_value_end(tokens, c + 1);
    if e_pos >= tokens.len() {
        return Err(LangError::SyntaxError);
    }
    let val_toks = slice_tokens(tokens, c + 1, e_pos);
    let v = match parse_expression(stack, &val_toks) {
        Ok(v) => v,
        Err(e) => {
            return Err(e);
        },
    };
    let ghost kmod = sym_model_of(k);
    let ghost vmod = sym_model_of(v);
    let ghost pre = pairs_models(entries@);
    let mut entries2 = entries;
    entries2.push((k, v));
    proof {
        assert(pairs_models(entries2@) =~= pre.push((kmod, vmod)));
        assert(tsm[e_pos as int] == tokens@[e_pos as int]@);
    }
    if tokens[e_pos].tok_type == TokenType::CloseBrace {
        Ok(entries2)
    } else {
        proof {
            assert(cap(e_pos as int + 1, tsm.len() as int) == e_pos as int + 1);
        }
        parse_object_entries(stack, tokens, e_pos + 1, entries2)
    }
}

/// What an object literal yields: its entries, in insertion order.
pub open spec fn spec_parse_object(
    sm: Seq<Seq<(Seq<char>, SymbolModel)>>,
    ts: Seq<TokenModel>,
) -> Result<SymbolModel, LangError>
    decreases ts.len(), 2int,
{
    if !(ts.len() > 0 && ts[0].ty == TokenType::OpenBrace) {
        Err(LangError::SyntaxError)
    } else if ts.len() >= 2 && ts[1].ty == TokenType::CloseBrace {
        Ok(SymbolModel::Obj(Seq::empty()))
    } else {
        match spec_object_entries(sm, ts, 1, Seq::empty()) {
            Ok(entries) => Ok(SymbolModel::Obj(entries)),
            Err(e) => Err(e),
        }
    }
}

/// Parses an object literal: `{` (key `:` value (`,` key `:` value)*)? `}`.
/// Key and value each run through the full expression pipeline, and the
/// entries keep their insertion order, which is observable on iteration.
/// Tokens after the closing brace are ignored.
pub fn parse_object(stack: &CallStack, tokens: &Vec<Token>) -> (r: Result<SymbolType, LangError>)
    ensures
        match r {
            Ok(v) => spec_parse_object(stack_model(*stack), models(tokens@)) == Ok::<_, LangError>(
                sym_model_of(v),
            ),
            Err(e) => spec_parse_object(stack_model(*stack), models(tokens@)) == Err::<
                SymbolModel,
                _,
            >(e),
        },
    decreases tokens@.len(), 2int,
{
    let ghost tsm = models(tokens@);
    proof {
        assert(tsm.len() == tokens@.len());
        if tokens@.len() > 0 {
            assert(tsm[0] == tokens@[0]@);
        }
        if tokens@.len() > 1 {
            assert(tsm[1] == tokens@[1]@);
        }
    }
    if !(tokens.len() > 0 && tokens[0].tok_type == TokenType::OpenBrace) {
        return Err(LangError::SyntaxError);
    }
    if tokens.len() >= 2 && tokens[1].tok_type == TokenType::CloseBrace {
        let empty: Vec<(SymbolType, SymbolType)> = Vec::new();
        let ghost em = pairs_models(empty@);
        let v = SymbolType::Object(crate::ast::ObjectSymbolArgs { entries: empty });
        proof {
            assert(em =~= Seq::<(SymbolModel, SymbolModel)>::empty());
            assert(sym_model_of(v) is Obj);
            assert(sym_model_of(v)->Obj_0 =~~= Seq::<(SymbolModel, SymbolModel)>::empty());
            assert(sym_model_of(v) == SymbolModel::Obj(Seq::<(SymbolModel, SymbolModel)>::empty()));
        }
        return Ok(v);
    }
    let start: Vec<(SymbolType, SymbolType)> = Vec::new();
    proof {
        assert(pairs_models(start@) =~= Seq::<(SymbolModel, SymbolModel)>::empty());
    }
    match parse_object_entries(stack, tokens, 1, start) {
        Ok(entries) => {
            let ghost em = pairs_models(entries@);
            let v = SymbolType::Object(crate::ast::ObjectSymbolArgs { entries });
            proof {
                assert(sym_model_of(v) is Obj);
                assert(sym_model_of(v)->Obj_0 =~~= em);
                assert(sym_model_of(v) == SymbolModel::Obj(em));
            }
            Ok(v)
        },
        Err(e) => Err(e),
    }
}

/// Evaluates one expression, classified by its lead token: a scalar
/// expression runs through the full pipeline against the scope stack; a
/// quote opens a string literal; a bracket an array; a brace an object.
pub fn parse_expression(stack: &CallStack, tokens: &Vec<Token>) -> (r: Result<
    SymbolType,
    LangError,
>)
    ensures
        match r {
            Ok(v) => spec_parse_expression(stack_model(*stack), models(tokens@)) == Ok::<
                _,
                LangError,
            >(sym_model_of(v)),
            Err(e) => spec_parse_expression(stack_model(*stack), models(tokens@)) == Err::<
                SymbolModel,
                _,
            >(e),
        },
    decreases tokens@.len(), 3int,
{
    let ghost sm = stack_model(*stack);
    let ghost tsm = models(tokens@);
    proof {
        assert(tsm.len() == tokens@.len());
        if tokens@.len() > 0 {
            assert(tsm[0] == tokens@[0]@);
            assert(tsm.last() == tokens@[tokens@.len() - 1]@);
        }
    }
    if tokens.len() == 0 {
        return Err(LangError::SyntaxError);
    }
    let ty = tokens[0].tok_type;
    if ty == TokenType::Literal || ty == TokenType::Minus || ty == TokenType::Not {
        parse_logical_iter(stack, tokens)
    } else if ty == TokenType::Quote {
        let len = tokens.len();
        let stripped = if tokens[len - 1].tok_type == TokenType::NewLine {
            slice_tokens(tokens, 0, len - 1)
        } else {
            slice_tokens(tokens, 0, len)
        };
        proof {
            if tsm.last().ty == TokenType::NewLine {
                assert(tsm.subrange(0, tsm.len() - 1) =~= strip_trailing_newline(tsm));
            } else {
                assert(tsm.subrange(0, tsm.len() as int) =~= strip_trailing_newline(tsm));
            }
        }
        parse_string(&stripped)
    } else if ty == TokenType::OpenBracket {
        match parse_array_at(stack, tokens, 0) {
            Ok((elems, _)) => {
                let ghost em = syms_models(elems@);
                let v = SymbolType::Array(crate::ast::ArraySymbolArgs { array: elems });
                proof {
                    assert(sym_model_of(v) is Arr);
                    assert(sym_model_of(v)->Arr_0 =~~= em);
                    assert(sym_model_of(v) == SymbolModel::Arr(em));
                }
                Ok(v)
            },
            Err(e) => Err(e),
        }
    } else if ty == TokenType::OpenBrace {
        match parse_object(stack, tokens) {
            Ok(v) => Ok(v),
            Err(e) => Err(e),
        }
    } else {
        Err(LangError::SyntaxError)
    }
}

/// Binds `var <name> is <expression>` into the innermost scope frame. A
/// statement whose head is not exactly the `var` keyword, a literal name,
/// and the `is` keyword is a syntax error; a failed expression or a
/// redefinition leaves the scope stack untouched, as does any error.
pub fn parse_assignment(stack: &mut CallStack, tokens: &Vec<Token>) -> (r: Result<(), LangError>)
    requires
        old(stack).wf(),
    ensures
        final(stack).wf(),
        match r {
            Ok(()) => spec_parse_assignment(stack_model(*old(stack)), models(tokens@)) == Ok::<
                _,
                LangError,
            >(stack_model(*final(stack))),
            Err(e) => spec_parse_assignment(stack_model(*old(stack)), models(tokens@)) == Err::<
                Seq<Seq<(Seq<char>, SymbolModel)>>,
                _,
            >(e) && stack_model(*final(stack)) == stack_model(*old(stack)),
        },
{
    let ghost tsm = models(tokens@);
    proof {
        assert(tsm.len() == tokens@.len());
        if tokens@.len() > 0 {
            assert(tsm[0] == tokens@[0]@);
        }
        if tokens@.len() > 1 {
            assert(tsm[1] == tokens@[1]@);
        }
        if tokens@.len() > 2 {
            assert(tsm[2] == tokens@[2]@);
        }
    }
    if tokens.len() < 3 {
        return Err(LangError::SyntaxError);
    }
    if !(tokens[0].tok_type == TokenType::Assign && tokens[1].tok_type == TokenType::Literal
        && tokens[2].tok_type == TokenType::Is) {
        return Err(LangError::SyntaxError);
    }
    let name: String = match &tokens[1].tok_value {
        Some(tv) => match &tv.s_val {
            Some(s) => s.clone(),
            None => {
                return Err(LangError::SyntaxError);
            },
        },
        None => {
            return Err(LangError::SyntaxError);
        },
    };
    let expr_toks = slice_tokens(tokens, 3, tokens.len());
    let value = match parse_expression(stack, &expr_toks) {
        Ok(v) => v,
        Err(e) => {
            return Err(e);
        },
    };
    stack.add_symbol(name, value)
}

/// Dispatches one statement: an assignment binds a value; the statement
/// keywords the lexer recognizes have no executable semantics in this core
/// and report an undefined operator; a bare expression line changes nothing.
pub fn parse(stack: &mut CallStack, tokens: &Vec<Token>) -> (r: Result<(), LangError>)
    requires
        old(stack).wf(),
    ensures
        final(stack).wf(),
        match r {
            Ok(()) => spec_parse(stack_model(*old(stack)), models(tokens@)) == Ok::<_, LangError>(
                stack_model(*final(stack)),
            ),
            Err(e) => spec_parse(stack_model(*old(stack)), models(tokens@)) == Err::<
                Seq<Seq<(Seq<char>, SymbolModel)>>,
                _,
            >(e) && stack_model(*final(stack)) == stack_model(*old(stack)),
        },
{
    let ghost tsm = models(tokens@);
    proof {
        assert(tsm.len() == tokens@.len());
        if tokens@.len() > 0 {
            assert(tsm[0] == tokens@[0]@);
        }
    }
    if tokens.len() == 0 {
        return Err(LangError::SyntaxError);
    }
    let ty = tokens[0].tok_type;
    if ty == TokenType::Assign {
        parse_assignment(stack, tokens)
    } else if ty == TokenType::Bool || ty == TokenType::Function || ty == TokenType::Quote || ty
        == TokenType::If || ty == TokenType::Else || ty == TokenType::While || ty == TokenType::For
        || ty == TokenType::Loop || ty == TokenType::Object || ty == TokenType::OpenBrace || ty
        == TokenType::CloseBrace || ty == TokenType::OpenBracket || ty == TokenType::CloseBracket
        || ty == TokenType::OpenParen || ty == TokenType::CloseParen || ty == TokenType::NewLine
        || ty == TokenType::TokenError {
        Err(LangError::UndefinedOperatorError)
    } else {
        Ok(())
    }
}



/// Substitution commutes with the expression-token filter: replacing a
/// literal's text changes no token categories.
proof fn lemma_filter_subst(
    ts: Seq<TokenModel>,
    i: int,
    out: Seq<TokenModel>,
    name: Seq<char>,
    text: Seq<char>,
)
    ensures
        spec_filter_from(crate::subst::subst_name(ts, name, text), i, crate::subst::subst_name(
            out,
            name,
            text,
        )) == crate::subst::subst_name(spec_filter_from(ts, i, out), name, text),
    decreases ts.len() - i,
{
    let sub = crate::subst::subst_name(ts, name, text);
    let subo = crate::subst::subst_name(out, name, text);
    assert(sub.len() == ts.len());
    assert(subo.len() == out.len());
    if 0 <= i < ts.len() {
        assert(sub[i] == (if ts[i].ty == TokenType::Literal && is_literal(ts[i]) && payload_of(
            ts[i],
        ) == name {
            crate::token::literal_model(text)
        } else {
            ts[i]
        }));
        assert(sub[i].ty == ts[i].ty);
        if in_expr_set(ts[i].ty) {
            assert(crate::subst::subst_name(out.push(ts[i]), name, text) =~= subo.push(sub[i]));
            lemma_filter_subst(ts, i + 1, out.push(ts[i]), name, text);
        } else {
            lemma_filter_subst(ts, i + 1, out, name, text);
        }
    }
}

/// Reference round trip: once a name is bound to a number whose text is not
/// itself a bound name, a scalar expression referencing the name evaluates
/// exactly as the same expression with the number's text written in the
/// name's place.
pub proof fn lemma_reference_round_trip(
    sm: Seq<Seq<(Seq<char>, SymbolModel)>>,
    ts: Seq<TokenModel>,
    name: Seq<char>,
    text: Seq<char>,
)
    requires
        crate::ast::stack_lookup(sm, name) == Some(SymbolModel::Num(text)),
        crate::ast::stack_lookup(sm, text) is None,
    ensures
        spec_eval_scalar(sm, ts) == spec_eval_scalar(
            sm,
            crate::subst::subst_name(ts, name, text),
        ),
{
    lemma_filter_subst(ts, 0, Seq::empty(), name, text);
    assert(crate::subst::subst_name(Seq::empty(), name, text) =~= Seq::<TokenModel>::empty());
    crate::subst::lemma_substitution_round_trip(sm, spec_filter_expr(ts), name, text);
}


} // verus!
