use vstd::prelude::*;

use crate::errors::LangError;
use crate::expr::{operate, spec_operate};
use crate::token::{models, Token, TokenModel, TokenType};

verus! {

/// The precedence tiers, highest to lowest: multiplicative, additive,
/// membership and equality, logical, relational. Operands and punctuation
/// have no precedence.
pub open spec fn spec_precedence(ty: TokenType) -> u8 {
    match ty {
        TokenType::Mult => 255,
        TokenType::Div => 255,
        TokenType::Mod => 255,
        TokenType::Plus => 253,
        TokenType::Minus => 253,
        TokenType::In => 252,
        TokenType::Equals => 252,
        TokenType::And => 251,
        TokenType::Or => 251,
        TokenType::GreaterThan => 250,
        TokenType::LessThan => 250,
        TokenType::Gte => 250,
        TokenType::Lte => 250,
        _ => 0,
    }
}

/// The precedence of a token.
pub fn precedence(tok: &Token) -> (r: u8)
    ensures
        r == spec_precedence(tok@.ty),
{
    match tok.tok_type {
        TokenType::Mult => 255,
        TokenType::Div => 255,
        TokenType::Mod => 255,
        TokenType::Plus => 253,
        TokenType::Minus => 253,
        TokenType::In => 252,
        TokenType::Equals => 252,
        TokenType::And => 251,
        TokenType::Or => 251,
        TokenType::GreaterThan => 250,
        TokenType::LessThan => 250,
        TokenType::Gte => 250,
        TokenType::Lte => 250,
        _ => 0,
    }
}

/// Pops operators whose precedence is at least `p` from the stack into the
/// output, stopping at the first that is lower.
pub open spec fn spec_pop_ge(stack: Seq<TokenModel>, p: u8, out: Seq<TokenModel>) -> (
    Seq<TokenModel>,
    Seq<TokenModel>,
)
    decreases stack.len(),
{
    if stack.len() == 0 {
        (stack, out)
    } else if spec_precedence(stack.last().ty) >= p {
        spec_pop_ge(stack.drop_last(), p, out.push(stack.last()))
    } else {
        (stack, out)
    }
}

/// Pops operators into the output until an opening parenthesis is found;
/// both parentheses are discarded.
pub open spec fn spec_pop_until_open(stack: Seq<TokenModel>, out: Seq<TokenModel>) -> (
    Seq<TokenModel>,
    Seq<TokenModel>,
)
    decreases stack.len(),
{
    if stack.len() == 0 {
        (stack, out)
    } else if stack.last().ty == TokenType::OpenParen {
        (stack.drop_last(), out)
    } else {
        spec_pop_until_open(stack.drop_last(), out.push(stack.last()))
    }
}

/// The operator-precedence conversion from infix to postfix order,
/// left-associative: operands go straight to the output; an opening
/// parenthesis is pushed; a closing one pops to its match; any other token
/// pops every operator of precedence at least its own, then is pushed. At
/// the end of the input the stack drains into the output in pop order.
pub open spec fn spec_shunt_from(
    ts: Seq<TokenModel>,
    i: int,
    stack: Seq<TokenModel>,
    out: Seq<TokenModel>,
) -> Seq<TokenModel>
    decreases ts.len() - i,
{
    if i < 0 || i >= ts.len() {
        out + stack.reverse()
    } else {
        let t = ts[i];
        if t.ty == TokenType::Literal {
            spec_shunt_from(ts, i + 1, stack, out.push(t))
        } else if t.ty == TokenType::OpenParen {
            spec_shunt_from(ts, i + 1, stack.push(t), out)
        } else if t.ty == TokenType::CloseParen {
            let popped = spec_pop_until_open(stack, out);
            spec_shunt_from(ts, i + 1, popped.0, popped.1)
        } else {
            let popped = spec_pop_ge(stack, spec_precedence(t.ty), out);
            spec_shunt_from(ts, i + 1, popped.0.push(t), popped.1)
        }
    }
}

/// What the infix-to-postfix conversion makes of a token sequence.
pub open spec fn spec_to_postfix(ts: Seq<TokenModel>) -> Seq<TokenModel> {
    spec_shunt_from(ts, 0, Seq::empty(), Seq::empty())
}

/// Converts an infix token sequence to postfix order.
pub fn infix_to_postfix(tokens: Vec<Token>) -> (r: Vec<Token>)
    ensures
        models(r@) == spec_to_postfix(models(tokens@)),
{
    let ghost tsm = models(tokens@);
    let mut stack: Vec<Token> = Vec::new();
    let mut out: Vec<Token> = Vec::new();
    let mut i: usize = 0;
    proof {
        assert(models(out@) =~= Seq::<TokenModel>::empty());
        assert(models(stack@) =~= Seq::<TokenModel>::empty());
        assert(tsm.len() == tokens@.len());
    }
    while i < tokens.len()
        invariant
            0 <= i <= tokens.len(),
            tsm == models(tokens@),
            tsm.len() == tokens@.len(),
            spec_to_postfix(tsm) == spec_shunt_from(
                tsm,
                i as int,
                models(stack@),
                models(out@),
            ),
        decreases tokens.len() - i,
    {
        proof {
            assert(tsm[i as int] == tokens@[i as int]@);
        }
        let ty = tokens[i].tok_type;
        if ty == TokenType::Literal {
            let ghost pre = models(out@);
            out.push(tokens[i].clone());
            proof {
                assert(models(out@) =~= pre.push(tsm[i as int]));
            }
        } else if ty == TokenType::OpenParen {
            let ghost pre = models(stack@);
            stack.push(tokens[i].clone());
            proof {
                assert(models(stack@) =~= pre.push(tsm[i as int]));
            }
        } else if ty == TokenType::CloseParen {
            let ghost s0 = models(stack@);
            let ghost o0 = models(out@);
            let mut opened = false;
            while !opened && stack.len() > 0
                invariant
                    spec_pop_until_open(s0, o0) == if opened {
                        (models(stack@), models(out@))
                    } else {
                        spec_pop_until_open(models(stack@), models(out@))
                    },
                decreases stack.len() + (if opened {
                    0int
                } else {
                    1int
                }),
            {
                let ghost sp = models(stack@);
                let ghost op = models(out@);
                let top = stack.pop().unwrap();
                proof {
                    assert(models(stack@) =~= sp.drop_last());
                    assert(sp.last() == top@);
                }
                if top.tok_type == TokenType::OpenParen {
                    opened = true;
                } else {
                    let ghost o_pre = models(out@);
                    out.push(top);
                    proof {
                        assert(models(out@) =~= o_pre.push(sp.last()));
                    }
                }
            }
        } else {
            let p = precedence(&tokens[i]);
            let ghost s0 = models(stack@);
            let ghost o0 = models(out@);
            let mut stopped = false;
            while !stopped && stack.len() > 0
                invariant
                    spec_pop_ge(s0, p, o0) == if stopped {
                        (models(stack@), models(out@))
                    } else {
                        spec_pop_ge(models(stack@), p, models(out@))
                    },
                decreases stack.len() + (if stopped {
                    0int
                } else {
                    1int
                }),
            {
                let ghost sp = models(stack@);
                let top_prec = precedence(&stack[stack.len() - 1]);
                proof {
                    assert(sp.last() == stack@[stack@.len() - 1]@);
                }
                if top_prec >= p {
                    let top = stack.pop().unwrap();
                    let ghost o_pre = models(out@);
                    out.push(top);
                    proof {
                        assert(models(stack@) =~= sp.drop_last());
                        assert(models(out@) =~= o_pre.push(sp.last()));
                    }
                } else {
                    stopped = true;
                }
            }
            let ghost s1 = models(stack@);
            stack.push(tokens[i].clone());
            proof {
                assert(models(stack@) =~= s1.push(tsm[i as int]));
            }
        }
        i += 1;
    }
    // Drain the remaining operators, topmost first.
    let ghost s_end = models(stack@);
    let ghost o_end = models(out@);
    proof {
        assert(o_end + s_end.reverse() =~= spec_to_postfix(tsm));
    }
    while stack.len() > 0
        invariant
            models(out@) + models(stack@).reverse() == spec_to_postfix(tsm),
        decreases stack.len(),
    {
        let ghost sp = models(stack@);
        let ghost op = models(out@);
        let top = stack.pop().unwrap();
        out.push(top);
        proof {
            assert(models(stack@) =~= sp.drop_last());
            assert(models(out@) =~= op.push(sp.last()));
            assert(models(out@) + models(stack@).reverse() =~= op + sp.reverse());
        }
    }
    proof {
        assert(models(stack@) =~= Seq::<TokenModel>::empty());
        assert(models(stack@).reverse() =~= Seq::<TokenModel>::empty());
        assert(models(out@) + models(stack@).reverse() =~= models(out@));
    }
    out
}

/// A single pass of the stack machine over a postfix sequence: operands are
/// pushed; an operator pops the right operand, then the left one, applies
/// the coercion matrix, and pushes the result. The run succeeds when the
/// input is exhausted and exactly one value remains.
pub open spec fn spec_eval_postfix_from(
    ts: Seq<TokenModel>,
    i: int,
    stack: Seq<TokenModel>,
) -> Result<TokenModel, LangError>
    decreases ts.len() - i,
{
    if i < 0 || i >= ts.len() {
        if stack.len() == 1 {
            Ok(stack[0])
        } else {
            Err(LangError::SyntaxError)
        }
    } else {
        let t = ts[i];
        if spec_precedence(t.ty) == 0 {
            spec_eval_postfix_from(ts, i + 1, stack.push(t))
        } else if stack.len() < 2 {
            Err(LangError::SyntaxError)
        } else {
            match spec_operate(stack[stack.len() - 2], stack.last(), t) {
                Ok(v) => spec_eval_postfix_from(ts, i + 1, stack.drop_last().drop_last().push(v)),
                Err(e) => Err(e),
            }
        }
    }
}

/// What evaluating a postfix sequence yields. A sequence of length one
/// short-circuits to its only token, whatever it is.
pub open spec fn spec_eval_postfix(ts: Seq<TokenModel>) -> Result<TokenModel, LangError> {
    if ts.len() == 1 {
        Ok(ts[0])
    } else {
        spec_eval_postfix_from(ts, 0, Seq::empty())
    }
}

/// Evaluates a postfix token sequence to a single literal token.
pub fn eval_expression(postfix_expr: &Vec<Token>) -> (r: Result<Token, LangError>)
    ensures
        match r {
            Ok(t) => spec_eval_postfix(models(postfix_expr@)) == Ok::<TokenModel, LangError>(t@),
            Err(e) => spec_eval_postfix(models(postfix_expr@)) == Err::<TokenModel, LangError>(e),
        },
{
    let ghost tsm = models(postfix_expr@);
    if postfix_expr.len() == 1 {
        proof {
            assert(tsm[0] == postfix_expr@[0]@);
        }
        return Ok(postfix_expr[0].clone());
    }
    let mut calc_stack: Vec<Token> = Vec::new();
    let mut i: usize = 0;
    proof {
        assert(models(calc_stack@) =~= Seq::<TokenModel>::empty());
        assert(tsm.len() == postfix_expr@.len());
    }
    while i < postfix_expr.len()
        invariant
            0 <= i <= postfix_expr.len(),
            postfix_expr@.len() != 1,
            tsm == models(postfix_expr@),
            tsm.len() == postfix_expr@.len(),
            spec_eval_postfix(tsm) == spec_eval_postfix_from(tsm, i as int, models(calc_stack@)),
        decreases postfix_expr.len() - i,
    {
        proof {
            assert(tsm[i as int] == postfix_expr@[i as int]@);
        }
        let token = &postfix_expr[i];
        let ghost pre = models(calc_stack@);
        if precedence(token) == 0 {
            calc_stack.push(token.clone());
            proof {
                assert(models(calc_stack@) =~= pre.push(tsm[i as int]));
            }
        } else {
            if calc_stack.len() < 2 {
                return Err(LangError::SyntaxError);
            }
            let right = calc_stack.pop().unwrap();
            let left = calc_stack.pop().unwrap();
            proof {
                assert(pre.last() == right@);
                assert(pre.drop_last().last() == left@);
                assert(pre.drop_last().drop_last() =~= models(calc_stack@));
                assert(pre[pre.len() - 2] == left@);
            }
            let result_token = match operate(left, right, token.clone()) {
                Ok(t) => t,
                Err(e) => {
                    return Err(e);
                },
            };
            let ghost rm = result_token@;
            let ghost mid = models(calc_stack@);
            calc_stack.push(result_token);
            proof {
                assert(models(calc_stack@) =~= mid.push(rm));
            }
        }
        i += 1;
    }
    if calc_stack.len() == 1 {
        let ghost fin = models(calc_stack@);
        proof {
            assert(fin[0] == calc_stack@[0]@);
        }
        Ok(calc_stack.pop().unwrap())
    } else {
        Err(LangError::SyntaxError)
    }
}


/// Whether a token is a parenthesis.
pub open spec fn is_paren(t: TokenModel) -> bool {
    t.ty == TokenType::OpenParen || t.ty == TokenType::CloseParen
}

/// A sequence free of parenthesis tokens.
pub open spec fn no_parens(ts: Seq<TokenModel>) -> bool {
    forall|j: int| 0 <= j < ts.len() ==> !is_paren(#[trigger] ts[j])
}

/// How many operand tokens a sequence holds.
pub open spec fn lit_count(ts: Seq<TokenModel>) -> int
    decreases ts.len(),
{
    if ts.len() == 0 {
        0
    } else {
        lit_count(ts.drop_last()) + if ts.last().ty == TokenType::Literal {
            1int
        } else {
            0int
        }
    }
}

/// How many opening parentheses a sequence holds.
pub open spec fn open_count(ts: Seq<TokenModel>) -> int
    decreases ts.len(),
{
    if ts.len() == 0 {
        0
    } else {
        open_count(ts.drop_last()) + if ts.last().ty == TokenType::OpenParen {
            1int
        } else {
            0int
        }
    }
}

/// Balanced parentheses: no prefix closes more than it has opened, and the
/// whole sequence closes everything, starting from `d` already open.
pub open spec fn balanced_from(ts: Seq<TokenModel>, i: int, d: int) -> bool
    decreases ts.len() - i,
{
    if i < 0 || i >= ts.len() {
        d == 0
    } else if ts[i].ty == TokenType::OpenParen {
        balanced_from(ts, i + 1, d + 1)
    } else if ts[i].ty == TokenType::CloseParen {
        d > 0 && balanced_from(ts, i + 1, d - 1)
    } else {
        balanced_from(ts, i + 1, d)
    }
}

/// Expression-grade tokens: operands, parentheses, and operators that carry
/// a precedence. (A token of no precedence standing in operator position —
/// a quote, say — is treated as an operator by the conversion and can drag a
/// parenthesis into the output; such token sequences never reach the
/// conversion through the expression pipeline.)
pub open spec fn shunt_friendly(ts: Seq<TokenModel>) -> bool {
    forall|j: int|
        0 <= j < ts.len() ==> (#[trigger] ts[j].ty == TokenType::Literal || is_paren(ts[j])
            || spec_precedence(ts[j].ty) >= 1)
}

/// The operator stack only ever holds opening parentheses and real
/// operators.
pub open spec fn stack_ok(stack: Seq<TokenModel>) -> bool {
    forall|j: int|
        0 <= j < stack.len() ==> (#[trigger] stack[j].ty == TokenType::OpenParen
            || spec_precedence(stack[j].ty) >= 1)
}

proof fn lemma_lit_count_concat(a: Seq<TokenModel>, b: Seq<TokenModel>)
    ensures
        lit_count(a + b) == lit_count(a) + lit_count(b),
    decreases b.len(),
{
    if b.len() == 0 {
        assert(a + b =~= a);
    } else {
        assert((a + b).drop_last() =~= a + b.drop_last());
        assert((a + b).last() == b.last());
        lemma_lit_count_concat(a, b.drop_last());
    }
}

/// A sequence of tokens none of which is an operand counts no operands.
proof fn lemma_lit_count_zero(s: Seq<TokenModel>)
    requires
        forall|j: int| 0 <= j < s.len() ==> (#[trigger] s[j].ty) != TokenType::Literal,
    ensures
        lit_count(s) == 0,
    decreases s.len(),
{
    if s.len() > 0 {
        lemma_lit_count_zero(s.drop_last());
    }
}

/// A stack with no opening parenthesis left and only real operators drains
/// into the output without parentheses or operands.
proof fn lemma_drain_clean(stack: Seq<TokenModel>)
    requires
        stack_ok(stack),
        open_count(stack) == 0,
    ensures
        no_parens(stack.reverse()),
        lit_count(stack.reverse()) == 0,
{
    let rev = stack.reverse();
    assert forall|j: int| 0 <= j < rev.len() implies !is_paren(#[trigger] rev[j]) && rev[j].ty
        != TokenType::Literal by {
        let k = stack.len() - 1 - j;
        assert(rev[j] == stack[k]);
        if stack[k].ty == TokenType::OpenParen {
            lemma_open_present(stack, k);
        }
        assert(spec_precedence(stack[k].ty) >= 1);
    }
    lemma_lit_count_zero(rev);
}

proof fn lemma_open_count_nonneg(stack: Seq<TokenModel>)
    ensures
        open_count(stack) >= 0,
    decreases stack.len(),
{
    if stack.len() > 0 {
        lemma_open_count_nonneg(stack.drop_last());
    }
}

/// A sequence holding an opening parenthesis counts at least one.
proof fn lemma_open_present(stack: Seq<TokenModel>, j: int)
    requires
        0 <= j < stack.len(),
        stack[j].ty == TokenType::OpenParen,
    ensures
        open_count(stack) >= 1,
    decreases stack.len(),
{
    if j == stack.len() - 1 {
        lemma_open_count_nonneg(stack.drop_last());
    } else {
        lemma_open_present(stack.drop_last(), j);
    }
}

/// Popping to the matching opening parenthesis removes exactly one opening
/// parenthesis from the stack and moves only operators — no parentheses, no
/// operands — into the output.
proof fn lemma_pop_until_open_clean(stack: Seq<TokenModel>, out: Seq<TokenModel>)
    requires
        stack_ok(stack),
        open_count(stack) >= 1,
        no_parens(out),
    ensures
        ({
            let r = spec_pop_until_open(stack, out);
            &&& stack_ok(r.0)
            &&& open_count(r.0) == open_count(stack) - 1
            &&& no_parens(r.1)
            &&& lit_count(r.1) == lit_count(out)
        }),
    decreases stack.len(),
{
    lemma_open_count_nonneg(stack.drop_last());
    if stack.len() == 0 {
    } else if stack.last().ty == TokenType::OpenParen {
        assert(spec_pop_until_open(stack, out) == (stack.drop_last(), out));
    } else {
        assert(spec_precedence(stack.last().ty) >= 1);
        assert(no_parens(out.push(stack.last()))) by {
            assert(forall|j: int|
                0 <= j < out.len() ==> out.push(stack.last())[j] == #[trigger] out[j]);
            assert(out.push(stack.last()).last() == stack.last());
        }
        assert(lit_count(out.push(stack.last())) == lit_count(out)) by {
            assert(out.push(stack.last()).drop_last() =~= out);
        }
        lemma_pop_until_open_clean(stack.drop_last(), out.push(stack.last()));
    }
}

/// Popping by precedence moves only operators into the output and never
/// touches an opening parenthesis.
proof fn lemma_pop_ge_clean(stack: Seq<TokenModel>, p: u8, out: Seq<TokenModel>)
    requires
        stack_ok(stack),
        p >= 1,
        no_parens(out),
    ensures
        ({
            let r = spec_pop_ge(stack, p, out);
            &&& stack_ok(r.0)
            &&& open_count(r.0) == open_count(stack)
            &&& no_parens(r.1)
            &&& lit_count(r.1) == lit_count(out)
        }),
    decreases stack.len(),
{
    if stack.len() == 0 {
    } else if spec_precedence(stack.last().ty) >= p {
        assert(stack.last().ty != TokenType::OpenParen);
        assert(no_parens(out.push(stack.last()))) by {
            assert(forall|j: int|
                0 <= j < out.len() ==> out.push(stack.last())[j] == #[trigger] out[j]);
            assert(out.push(stack.last()).last() == stack.last());
        }
        assert(lit_count(out.push(stack.last())) == lit_count(out)) by {
            assert(out.push(stack.last()).drop_last() =~= out);
        }
        lemma_pop_ge_clean(stack.drop_last(), p, out.push(stack.last()));
    } else {
    }
}

proof fn lemma_shunt_invariant(
    ts: Seq<TokenModel>,
    i: int,
    stack: Seq<TokenModel>,
    out: Seq<TokenModel>,
    d: int,
)
    requires
        0 <= i <= ts.len(),
        shunt_friendly(ts),
        balanced_from(ts, i, d),
        stack_ok(stack),
        open_count(stack) == d,
        no_parens(out),
    ensures
        no_parens(spec_shunt_from(ts, i, stack, out)),
        lit_count(spec_shunt_from(ts, i, stack, out)) == lit_count(out) + lit_count(ts.skip(i)),
    decreases ts.len() - i,
{
    if i >= ts.len() {
        assert(ts.skip(i) =~= Seq::<TokenModel>::empty());
        assert(open_count(stack) == 0);
        lemma_drain_clean(stack);
        lemma_lit_count_concat(out, stack.reverse());
        assert forall|j: int|
            0 <= j < (out + stack.reverse()).len() implies !is_paren(
            #[trigger] (out + stack.reverse())[j],
        ) by {
            if j < out.len() {
                assert((out + stack.reverse())[j] == out[j]);
            } else {
                assert((out + stack.reverse())[j] == stack.reverse()[j - out.len()]);
            }
        }
    } else {
        let t = ts[i];
        assert(ts.skip(i) =~= seq![t] + ts.skip(i + 1));
        lemma_lit_count_concat(seq![t], ts.skip(i + 1));
        assert(seq![t].drop_last() =~= Seq::<TokenModel>::empty());
        assert(seq![t].last() == t);
        assert(lit_count(Seq::<TokenModel>::empty()) == 0);
        assert(lit_count(seq![t]) == if t.ty == TokenType::Literal {
            1int
        } else {
            0int
        });
        if t.ty == TokenType::Literal {
            assert(no_parens(out.push(t))) by {
                assert(forall|j: int| 0 <= j < out.len() ==> out.push(t)[j] == #[trigger] out[j]);
                assert(out.push(t).last() == t);
            }
            assert(lit_count(out.push(t)) == lit_count(out) + 1) by {
                assert(out.push(t).drop_last() =~= out);
            }
            lemma_shunt_invariant(ts, i + 1, stack, out.push(t), d);
        } else if t.ty == TokenType::OpenParen {
            assert(open_count(stack.push(t)) == d + 1) by {
                assert(stack.push(t).drop_last() =~= stack);
            }
            assert(stack_ok(stack.push(t))) by {
                assert(forall|j: int|
                    0 <= j < stack.len() ==> stack.push(t)[j] == #[trigger] stack[j]);
                assert(stack.push(t).last() == t);
            }
            lemma_shunt_invariant(ts, i + 1, stack.push(t), out, d + 1);
        } else if t.ty == TokenType::CloseParen {
            lemma_pop_until_open_clean(stack, out);
            let r = spec_pop_until_open(stack, out);
            lemma_shunt_invariant(ts, i + 1, r.0, r.1, d - 1);
        } else {
            assert(spec_precedence(t.ty) >= 1);
            lemma_pop_ge_clean(stack, spec_precedence(t.ty), out);
            let r = spec_pop_ge(stack, spec_precedence(t.ty), out);
            assert(open_count(r.0.push(t)) == d) by {
                assert(r.0.push(t).drop_last() =~= r.0);
            }
            assert(stack_ok(r.0.push(t))) by {
                assert(forall|j: int| 0 <= j < r.0.len() ==> r.0.push(t)[j] == #[trigger] r.0[j]);
                assert(r.0.push(t).last() == t);
            }
            lemma_shunt_invariant(ts, i + 1, r.0.push(t), r.1, d);
        }
    }
}

/// For any input whose parentheses are balanced and whose tokens are
/// expression-grade, the infix-to-postfix conversion emits no parenthesis
/// tokens and exactly as many operand tokens as the input holds.
pub proof fn lemma_postfix_of_balanced(ts: Seq<TokenModel>)
    requires
        balanced_from(ts, 0, 0),
        shunt_friendly(ts),
    ensures
        no_parens(spec_to_postfix(ts)),
        lit_count(spec_to_postfix(ts)) == lit_count(ts),
{
    lemma_shunt_invariant(ts, 0, Seq::empty(), Seq::empty(), 0);
    assert(ts.skip(0) =~= ts);
    assert(lit_count(Seq::<TokenModel>::empty()) == 0);
    assert(open_count(Seq::<TokenModel>::empty()) == 0);
}


} // verus!
