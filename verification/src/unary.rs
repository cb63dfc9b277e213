use vstd::prelude::*;

use crate::errors::LangError;
use crate::expr::{operate_unary, spec_operate_unary};
use crate::token::{is_literal, literal_model, models, payload_of, simple_model, Token, TokenModel, TokenType, TokenValue};

verus! {

/// Whether a `-` in this left context is a sign rather than a subtraction:
/// at the start of the expression, or right after an arithmetic operator or
/// an opening parenthesis.
pub open spec fn minus_context(w: Option<TokenType>) -> bool {
    match w {
        None => true,
        Some(ty) => ty == TokenType::Plus || ty == TokenType::Minus || ty == TokenType::Mult || ty
            == TokenType::Div || ty == TokenType::Mod || ty == TokenType::OpenParen,
    }
}

/// One pass over the token sequence with a three-token window, collapsing
/// prefix unary operators:
/// - a sign `-` followed by a literal folds into one literal with a minus in
///   front of its text;
/// - `not` followed by a literal evaluates eagerly to the negated boolean's
///   text;
/// - `not` followed by `=` collapses into the inequality operator;
/// - every other token passes through unchanged, in order.
pub open spec fn spec_resolve_unary_from(
    ts: Seq<TokenModel>,
    z: int,
    out: Seq<TokenModel>,
) -> Result<Seq<TokenModel>, LangError>
    decreases ts.len() - z,
{
    if z < 0 || z >= ts.len() {
        Ok(out)
    } else {
        let w1 = if z >= 1 {
            Some(ts[z - 1].ty)
        } else {
            None::<TokenType>
        };
        let w2 = if z >= 2 {
            Some(ts[z - 2].ty)
        } else {
            None::<TokenType>
        };
        let cur = ts[z];
        if minus_context(w2) && w1 == Some(TokenType::Minus) && cur.ty == TokenType::Literal {
            if is_literal(cur) {
                spec_resolve_unary_from(
                    ts,
                    z + 1,
                    out.drop_last().push(literal_model(seq!['-'] + payload_of(cur))),
                )
            } else {
                Err(LangError::SyntaxError)
            }
        } else if w1 == Some(TokenType::Not) && cur.ty == TokenType::Literal {
            match spec_operate_unary(cur, ts[z - 1]) {
                Ok(t) => spec_resolve_unary_from(ts, z + 1, out.drop_last().push(t)),
                Err(e) => Err(e),
            }
        } else if w1 == Some(TokenType::Not) && cur.ty == TokenType::Equals {
            spec_resolve_unary_from(
                ts,
                z + 1,
                out.drop_last().push(simple_model(TokenType::NotEqual)),
            )
        } else {
            spec_resolve_unary_from(ts, z + 1, out.push(cur))
        }
    }
}

/// The unary normalization of a whole token sequence.
pub open spec fn spec_resolve_unary(ts: Seq<TokenModel>) -> Result<Seq<TokenModel>, LangError> {
    spec_resolve_unary_from(ts, 0, Seq::empty())
}

/// Collapses prefix unary operators so the rest of the pipeline never
/// special-cases unary position. Order of all other tokens is preserved.
pub fn resolve_unary_operators(tokens: Vec<Token>) -> (r: Result<Vec<Token>, LangError>)
    ensures
        match r {
            Ok(out) => spec_resolve_unary(models(tokens@)) == Ok::<_, LangError>(models(out@)),
            Err(e) => spec_resolve_unary(models(tokens@)) == Err::<Seq<TokenModel>, _>(e),
        },
{
    let ghost tsm = models(tokens@);
    let mut out: Vec<Token> = Vec::new();
    let mut z: usize = 0;
    proof {
        assert(models(out@) =~= Seq::<TokenModel>::empty());
        assert(tsm.len() == tokens@.len());
    }
    while z < tokens.len()
        invariant
            0 <= z <= tokens.len(),
            tsm == models(tokens@),
            tsm.len() == tokens@.len(),
            spec_resolve_unary(tsm) == spec_resolve_unary_from(tsm, z as int, models(out@)),
            z >= 1 && (tokens@[z - 1].tok_type == TokenType::Minus || tokens@[z
                - 1].tok_type == TokenType::Not) ==> out@.len() >= 1,
        decreases tokens.len() - z,
    {
        let ghost pre = models(out@);
        let cur_ty = tokens[z].tok_type;
        let w1_minus = z >= 1 && tokens[z - 1].tok_type == TokenType::Minus;
        let w1_not = z >= 1 && tokens[z - 1].tok_type == TokenType::Not;
        let w2_ok = if z >= 2 {
            let t2 = tokens[z - 2].tok_type;
            t2 == TokenType::Plus || t2 == TokenType::Minus || t2 == TokenType::Mult || t2
                == TokenType::Div || t2 == TokenType::Mod || t2 == TokenType::OpenParen
        } else {
            z == 1
        };
        proof {
            assert(tsm[z as int] == tokens@[z as int]@);
            if z >= 1 {
                assert(tsm[z as int - 1] == tokens@[z as int - 1]@);
            }
            if z >= 2 {
                assert(tsm[z as int - 2] == tokens@[z as int - 2]@);
            }
        }
        if w2_ok && w1_minus && cur_ty == TokenType::Literal {
            let payload: &String = match &tokens[z].tok_value {
                Some(tv) => match &tv.s_val {
                    Some(s) => s,
                    None => {
                        return Err(LangError::SyntaxError);
                    },
                },
                None => {
                    return Err(LangError::SyntaxError);
                },
            };
            let merged = String::from_str("-").concat(payload.as_str());
            proof {
                reveal_strlit("-");
                assert(merged@ =~= seq!['-'] + payload_of(tsm[z as int]));
            }
            let _ = out.pop();
            out.push(
                Token {
                    tok_type: TokenType::Literal,
                    tok_value: Some(TokenValue { s_val: Some(merged) }),
                },
            );
            proof {
                assert(models(out@) =~= pre.drop_last().push(
                    literal_model(seq!['-'] + payload_of(tsm[z as int])),
                ));
            }
        } else if w1_not && cur_ty == TokenType::Literal {
            let negated = match operate_unary(tokens[z].clone(), tokens[z - 1].clone()) {
                Ok(t) => t,
                Err(e) => {
                    return Err(e);
                },
            };
            let ghost nm = negated@;
            let _ = out.pop();
            out.push(negated);
            proof {
                assert(models(out@) =~= pre.drop_last().push(nm));
            }
        } else if w1_not && cur_ty == TokenType::Equals {
            let _ = out.pop();
            out.push(Token { tok_type: TokenType::NotEqual, tok_value: None });
            proof {
                assert(models(out@) =~= pre.drop_last().push(simple_model(TokenType::NotEqual)));
            }
        } else {
            let t = tokens[z].clone();
            out.push(t);
            proof {
                assert(models(out@) =~= pre.push(tsm[z as int]));
            }
        }
        z += 1;
    }
    Ok(out)
}

} // verus!
