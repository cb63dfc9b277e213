use vstd::prelude::*;

use crate::ast::{
    is_scalar, scalar_text, stack_lookup, stack_model, sym_model, CallStack, SymbolModel,
    SymbolType,
};
use crate::errors::LangError;
use crate::token::{is_literal, literal_model, models, payload_of, Token, TokenModel, TokenType, TokenValue};

verus! {

/// What symbol substitution does to one token: a literal whose text is a
/// bound name is replaced by a literal carrying the bound scalar's text; a
/// binding that is not scalar cannot stand in an expression position; every
/// other token passes through unchanged.
pub open spec fn spec_subst_token(
    sm: Seq<Seq<(Seq<char>, SymbolModel)>>,
    t: TokenModel,
) -> Result<TokenModel, LangError> {
    if t.ty == TokenType::Literal {
        if !is_literal(t) {
            Err(LangError::SyntaxError)
        } else {
            match stack_lookup(sm, payload_of(t)) {
                Some(v) => if is_scalar(v) {
                    Ok(literal_model(scalar_text(v)))
                } else {
                    Err(LangError::TypeMismatchError)
                },
                None => Ok(t),
            }
        }
    } else {
        Ok(t)
    }
}

pub open spec fn spec_resolve_from(
    sm: Seq<Seq<(Seq<char>, SymbolModel)>>,
    ts: Seq<TokenModel>,
    i: int,
    out: Seq<TokenModel>,
) -> Result<Seq<TokenModel>, LangError>
    decreases ts.len() - i,
{
    if i < 0 || i >= ts.len() {
        Ok(out)
    } else {
        match spec_subst_token(sm, ts[i]) {
            Ok(t) => spec_resolve_from(sm, ts, i + 1, out.push(t)),
            Err(e) => Err(e),
        }
    }
}

/// Symbol substitution over a whole token sequence, in order.
pub open spec fn spec_resolve_symbols(
    sm: Seq<Seq<(Seq<char>, SymbolModel)>>,
    ts: Seq<TokenModel>,
) -> Result<Seq<TokenModel>, LangError> {
    spec_resolve_from(sm, ts, 0, Seq::empty())
}

/// Replaces every literal token whose text is a bound name by a literal
/// carrying the bound value's primitive text. Literals bound to non-scalar
/// values are a type mismatch; unbound literals pass through unchanged.
pub fn resolve_symbols(stack: &CallStack, tokens: Vec<Token>) -> (r: Result<Vec<Token>, LangError>)
    ensures
        match r {
            Ok(out) => spec_resolve_symbols(stack_model(*stack), models(tokens@)) == Ok::<
                _,
                LangError,
            >(models(out@)),
            Err(e) => spec_resolve_symbols(stack_model(*stack), models(tokens@)) == Err::<
                Seq<TokenModel>,
                _,
            >(e),
        },
{
    let ghost sm = stack_model(*stack);
    let ghost tsm = models(tokens@);
    let mut out: Vec<Token> = Vec::new();
    let mut i: usize = 0;
    proof {
        assert(models(out@) =~= Seq::<TokenModel>::empty());
        assert(tsm.len() == tokens@.len());
    }
    while i < tokens.len()
        invariant
            0 <= i <= tokens.len(),
            sm == stack_model(*stack),
            tsm == models(tokens@),
            tsm.len() == tokens@.len(),
            spec_resolve_symbols(sm, tsm) == spec_resolve_from(sm, tsm, i as int, models(out@)),
        decreases tokens.len() - i,
    {
        proof {
            assert(tsm[i as int] == tokens@[i as int]@);
        }
        let ghost pre = models(out@);
        let token = &tokens[i];
        if token.tok_type == TokenType::Literal {
            let payload: &String = match &token.tok_value {
                Some(tv) => match &tv.s_val {
                    Some(s) => s,
                    None => {
                        return Err(LangError::SyntaxError);
                    },
                },
                None => {
                    return Err(LangError::SyntaxError);
                },
            };
            match stack.lookup_symbol(payload.as_str()) {
                Some(sym) => {
                    let text: String = match sym {
                        SymbolType::Number(s) => s.clone(),
                        SymbolType::String(s) => s.clone(),
                        _ => {
                            return Err(LangError::TypeMismatchError);
                        },
                    };
                    out.push(
                        Token {
                            tok_type: TokenType::Literal,
                            tok_value: Some(TokenValue { s_val: Some(text) }),
                        },
                    );
                    proof {
                        assert(models(out@) =~= pre.push(
                            literal_model(scalar_text(sym_model(*sym))),
                        ));
                    }
                },
                None => {
                    out.push(token.clone());
                    proof {
                        assert(models(out@) =~= pre.push(tsm[i as int]));
                    }
                },
            }
        } else {
            out.push(token.clone());
            proof {
                assert(models(out@) =~= pre.push(tsm[i as int]));
            }
        }
        i += 1;
    }
    Ok(out)
}

/// A token sequence with every literal reference to `name` replaced by a
/// literal carrying `text` directly.
pub open spec fn subst_name(ts: Seq<TokenModel>, name: Seq<char>, text: Seq<char>) -> Seq<
    TokenModel,
> {
    ts.map_values(
        |t: TokenModel|
            if t.ty == TokenType::Literal && is_literal(t) && payload_of(t) == name {
                literal_model(text)
            } else {
                t
            },
    )
}

proof fn lemma_round_trip_from(
    sm: Seq<Seq<(Seq<char>, SymbolModel)>>,
    ts: Seq<TokenModel>,
    name: Seq<char>,
    text: Seq<char>,
    i: int,
    out: Seq<TokenModel>,
)
    requires
        stack_lookup(sm, name) == Some(SymbolModel::Num(text)),
        stack_lookup(sm, text) is None,
    ensures
        spec_resolve_from(sm, ts, i, out) == spec_resolve_from(sm, subst_name(ts, name, text), i, out),
    decreases ts.len() - i,
{
    let sub = subst_name(ts, name, text);
    assert(sub.len() == ts.len());
    if 0 <= i < ts.len() {
        assert(sub[i] == (if ts[i].ty == TokenType::Literal && is_literal(ts[i]) && payload_of(
            ts[i],
        ) == name {
            literal_model(text)
        } else {
            ts[i]
        }));
        assert(spec_subst_token(sm, ts[i]) == spec_subst_token(sm, sub[i]));
        match spec_subst_token(sm, ts[i]) {
            Ok(t) => {
                lemma_round_trip_from(sm, ts, name, text, i + 1, out.push(t));
            },
            Err(_) => {},
        }
    }
}

/// Substitution round trip: once a name is bound to a number, substituting a
/// token sequence that references the name gives exactly what substituting
/// the sequence with the number's text written in its place gives — provided
/// the number's own text is not itself a bound name. Every later pipeline
/// stage is a function of the substituted tokens, so the two expressions
/// evaluate identically.
pub proof fn lemma_substitution_round_trip(
    sm: Seq<Seq<(Seq<char>, SymbolModel)>>,
    ts: Seq<TokenModel>,
    name: Seq<char>,
    text: Seq<char>,
)
    requires
        stack_lookup(sm, name) == Some(SymbolModel::Num(text)),
        stack_lookup(sm, text) is None,
    ensures
        spec_resolve_symbols(sm, ts) == spec_resolve_symbols(sm, subst_name(ts, name, text)),
{
    lemma_round_trip_from(sm, ts, name, text, 0, Seq::empty());
}


proof fn lemma_resolve_subst_from(
    sm: Seq<Seq<(Seq<char>, SymbolModel)>>,
    ts: Seq<TokenModel>,
    name: Seq<char>,
    text: Seq<char>,
    i: int,
)
    requires
        stack_lookup(sm, name) == Some(SymbolModel::Num(text)),
        forall|j: int|
            0 <= j < ts.len() && (#[trigger] ts[j]).ty == TokenType::Literal ==> is_literal(ts[j])
                && (payload_of(ts[j]) == name || stack_lookup(sm, payload_of(ts[j])) is None),
        0 <= i <= ts.len(),
    ensures
        spec_resolve_from(sm, ts, i, subst_name(ts, name, text).take(i)) == Ok::<_, LangError>(
            subst_name(ts, name, text),
        ),
    decreases ts.len() - i,
{
    let sub = subst_name(ts, name, text);
    assert(sub.len() == ts.len());
    if i >= ts.len() {
        assert(sub.take(i) =~= sub);
    } else {
        assert(sub[i] == (if ts[i].ty == TokenType::Literal && is_literal(ts[i]) && payload_of(
            ts[i],
        ) == name {
            literal_model(text)
        } else {
            ts[i]
        }));
        assert(spec_subst_token(sm, ts[i]) == Ok::<_, LangError>(sub[i]));
        assert(sub.take(i).push(sub[i]) =~= sub.take(i + 1));
        lemma_resolve_subst_from(sm, ts, name, text, i + 1);
    }
}

/// Symbol substitution is literal replacement: on a token sequence whose
/// literal references are either the bound name or unbound, the result is
/// exactly the sequence with the bound number's text written in the name's
/// place. The rest of the pipeline is a function of these tokens, so the
/// expression referencing the name evaluates identically to the expression
/// with the literal written directly.
pub proof fn lemma_resolve_is_substitution(
    sm: Seq<Seq<(Seq<char>, SymbolModel)>>,
    ts: Seq<TokenModel>,
    name: Seq<char>,
    text: Seq<char>,
)
    requires
        stack_lookup(sm, name) == Some(SymbolModel::Num(text)),
        forall|j: int|
            0 <= j < ts.len() && (#[trigger] ts[j]).ty == TokenType::Literal ==> is_literal(ts[j])
                && (payload_of(ts[j]) == name || stack_lookup(sm, payload_of(ts[j])) is None),
    ensures
        spec_resolve_symbols(sm, ts) == Ok::<_, LangError>(subst_name(ts, name, text)),
{
    assert(subst_name(ts, name, text).take(0) =~= Seq::<TokenModel>::empty());
    lemma_resolve_subst_from(sm, ts, name, text, 0);
}


} // verus!
