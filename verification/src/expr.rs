use vstd::prelude::*;

use crate::errors::LangError;
use crate::float::{float_binop, float_eval_of};
use crate::token::{literal_model, Token, TokenModel, TokenType, TokenValue};
use crate::values::{
    as_exact_num, as_float_text, bool_text, cast_to_bool, classify_text, float_text_of,
    is_float_text, int_text, lemma_as_float_text_shape, lemma_classify_wf, ls_model, render_bool,
    render_i32, spec_classify_token, truthy, LSExpr, ValueModel,
};

verus! {

pub open spec fn is_arith_op(ty: TokenType) -> bool {
    ty == TokenType::Plus || ty == TokenType::Minus || ty == TokenType::Mult || ty == TokenType::Div
        || ty == TokenType::Mod
}

pub open spec fn is_logic_op(ty: TokenType) -> bool {
    ty == TokenType::And || ty == TokenType::Or
}

pub open spec fn is_compare_op(ty: TokenType) -> bool {
    ty == TokenType::GreaterThan || ty == TokenType::LessThan || ty == TokenType::Gte || ty
        == TokenType::Lte || ty == TokenType::Equals
}

/// The operator text handed to the floating-point evaluation.
pub open spec fn spec_op_text(ty: TokenType) -> Seq<char> {
    match ty {
        TokenType::Plus => "+"@,
        TokenType::Minus => "-"@,
        TokenType::Mult => "*"@,
        TokenType::Div => "/"@,
        TokenType::Mod => "%"@,
        TokenType::GreaterThan => ">"@,
        TokenType::LessThan => "<"@,
        TokenType::Gte => ">="@,
        TokenType::Lte => "<="@,
        TokenType::Equals => "=="@,
        _ => Seq::empty(),
    }
}

/// Truncating division: quotient rounded toward zero.
pub open spec fn trunc_div(a: int, b: int) -> int {
    if a == 0 {
        0
    } else if a > 0 && b > 0 {
        a / b
    } else if a < 0 && b < 0 {
        (a * -1) / (b * -1)
    } else if a < 0 {
        ((a * -1) / b) * -1
    } else {
        (a / (b * -1)) * -1
    }
}

/// Truncating remainder: the sign follows the dividend.
pub open spec fn trunc_rem(a: int, b: int) -> int {
    if a == 0 {
        0
    } else if a > 0 && b > 0 {
        a % b
    } else if a < 0 && b < 0 {
        ((a * -1) % (b * -1)) * -1
    } else if a < 0 {
        ((a * -1) % b) * -1
    } else {
        a % (b * -1)
    }
}

/// An integer result that left the machine range is an arithmetic error.
pub open spec fn in_machine_range(v: int) -> Result<int, LangError> {
    if i32::MIN as int <= v <= i32::MAX as int {
        Ok(v)
    } else {
        Err(LangError::ArithmeticError)
    }
}

/// Integer arithmetic: exact results within the machine range, truncating
/// division and remainder with the sign of the dividend, and an arithmetic
/// error for a zero divisor, for a result out of range, or for the one
/// remainder the machine refuses.
pub open spec fn spec_arith_int(ty: TokenType, a: int, b: int) -> Result<int, LangError> {
    match ty {
        TokenType::Plus => in_machine_range(a + b),
        TokenType::Minus => in_machine_range(a - b),
        TokenType::Mult => in_machine_range(a * b),
        TokenType::Div => if b == 0 {
            Err(LangError::ArithmeticError)
        } else {
            in_machine_range(trunc_div(a, b))
        },
        TokenType::Mod => if b == 0 || (a == i32::MIN as int && b == -1) {
            Err(LangError::ArithmeticError)
        } else {
            in_machine_range(trunc_rem(a, b))
        },
        _ => Err(LangError::UndefinedOperatorError),
    }
}

pub open spec fn spec_compare(ty: TokenType, a: int, b: int) -> bool {
    match ty {
        TokenType::GreaterThan => a > b,
        TokenType::LessThan => a < b,
        TokenType::Gte => a >= b,
        TokenType::Lte => a <= b,
        TokenType::Equals => a == b,
        _ => false,
    }
}

/// The type-coercion matrix: what applying a binary operator to two
/// interpreted operands yields.
///
/// - Integer pairs stay integer under arithmetic; a pair with a float is
///   promoted to floating point and computed with IEEE double semantics.
/// - Logical operators cast both sides to boolean first.
/// - Comparisons between exactly representable operands (integers and
///   booleans) compare exactly; a float on either side forces the
///   floating-point comparison. Null and undefined operands do not compare.
/// - Anything else is a type mismatch, and an operator with no rule here is
///   an undefined operator.
pub open spec fn spec_apply(l: ValueModel, r: ValueModel, ty: TokenType) -> Result<
    TokenModel,
    LangError,
> {
    if is_arith_op(ty) {
        match (l, r) {
            (ValueModel::Int(a), ValueModel::Int(b)) => match spec_arith_int(ty, a, b) {
                Ok(v) => Ok(literal_model(int_text(v))),
                Err(e) => Err(e),
            },
            (ValueModel::Int(_), ValueModel::Float(_))
            | (ValueModel::Float(_), ValueModel::Int(_))
            | (ValueModel::Float(_), ValueModel::Float(_)) => {
                match float_eval_of(
                    as_float_text(l)->Some_0,
                    spec_op_text(ty),
                    as_float_text(r)->Some_0,
                ) {
                    Some(t) => Ok(literal_model(t)),
                    None => Err(LangError::TypeMismatchError),
                }
            },
            _ => Err(LangError::TypeMismatchError),
        }
    } else if is_logic_op(ty) {
        match (truthy(l), truthy(r)) {
            (Some(a), Some(b)) => Ok(
                literal_model(
                    bool_text(
                        if ty == TokenType::And {
                            a && b
                        } else {
                            a || b
                        },
                    ),
                ),
            ),
            _ => Err(LangError::TypeMismatchError),
        }
    } else if is_compare_op(ty) {
        match (as_exact_num(l), as_exact_num(r)) {
            (Some(a), Some(b)) => Ok(literal_model(bool_text(spec_compare(ty, a, b)))),
            _ => {
                if l is Null || l is Undefined || r is Null || r is Undefined {
                    Err(LangError::TypeMismatchError)
                } else {
                    match float_eval_of(
                        as_float_text(l)->Some_0,
                        spec_op_text(ty),
                        as_float_text(r)->Some_0,
                    ) {
                        Some(t) => Ok(literal_model(t)),
                        None => Err(LangError::TypeMismatchError),
                    }
                }
            },
        }
    } else {
        Err(LangError::UndefinedOperatorError)
    }
}

/// What `operate` does: interpret the left operand, then the right one, then
/// apply the coercion matrix.
pub open spec fn spec_operate(l: TokenModel, r: TokenModel, op: TokenModel) -> Result<
    TokenModel,
    LangError,
> {
    match spec_classify_token(l) {
        Err(e) => Err(e),
        Ok(lv) => match spec_classify_token(r) {
            Err(e) => Err(e),
            Ok(rv) => spec_apply(lv, rv, op.ty),
        },
    }
}

/// What `operate_unary` does: only `not` has a rule, and it casts its operand
/// to boolean and negates it.
pub open spec fn spec_operate_unary(v: TokenModel, op: TokenModel) -> Result<
    TokenModel,
    LangError,
> {
    if op.ty != TokenType::Not {
        Err(LangError::UndefinedOperatorError)
    } else {
        match spec_classify_token(v) {
            Err(e) => Err(e),
            Ok(val) => match truthy(val) {
                Some(b) => Ok(literal_model(bool_text(!b))),
                None => Err(LangError::TypeMismatchError),
            },
        }
    }
}

/// A fresh literal token carrying the given text.
fn mk_literal(s: String) -> (t: Token)
    ensures
        t@ == literal_model(s@),
{
    Token { tok_type: TokenType::Literal, tok_value: Some(TokenValue { s_val: Some(s) }) }
}

/// Interprets an operand token: its payload text, classified.
pub(crate) fn convert_token_to_value(t: &Token) -> (r: Result<LSExpr, LangError>)
    ensures
        match r {
            Ok(v) => spec_classify_token(t@) == Ok::<_, LangError>(ls_model(v)),
            Err(e) => spec_classify_token(t@) == Err::<ValueModel, _>(e),
        },
{
    if !(t.tok_type == TokenType::Literal) {
        return Err(LangError::SyntaxError);
    }
    let payload: &String = match &t.tok_value {
        Some(tv) => match &tv.s_val {
            Some(s) => s,
            None => {
                return Err(LangError::SyntaxError);
            },
        },
        None => {
            return Err(LangError::SyntaxError);
        },
    };
    classify_text(payload.as_str())
}

/// The operator text handed to the floating-point evaluation.
fn op_str(ty: TokenType) -> (r: &'static str)
    ensures
        r@ == spec_op_text(ty),
{
    match ty {
        TokenType::Plus => "+",
        TokenType::Minus => "-",
        TokenType::Mult => "*",
        TokenType::Div => "/",
        TokenType::Mod => "%",
        TokenType::GreaterThan => ">",
        TokenType::LessThan => "<",
        TokenType::Gte => ">=",
        TokenType::Lte => "<=",
        TokenType::Equals => "==",
        _ => {
            let r = "";
            proof {
                reveal_strlit("");
                assert(r@ =~= Seq::<char>::empty());
            }
            r
        },
    }
}

/// The exact integer a value casts to for comparison, if it has one.
fn exact_num(v: &LSExpr) -> (r: Option<i32>)
    ensures
        match r {
            Some(a) => as_exact_num(ls_model(*v)) == Some(a as int),
            None => as_exact_num(ls_model(*v)) is None,
        },
{
    match v {
        LSExpr::Int32(a) => Some(*a),
        LSExpr::Boolean(b) => Some(
            if *b {
                0
            } else {
                1
            },
        ),
        _ => None,
    }
}

/// The floating-point path: promote both operands to float text and apply
/// the operator with IEEE double semantics.
fn apply_float(l: &LSExpr, r: &LSExpr, ty: TokenType) -> (res: Result<Token, LangError>)
    requires
        as_float_text(ls_model(*l)) is Some,
        as_float_text(ls_model(*r)) is Some,
        ls_model(*l) is Float ==> is_float_text(ls_model(*l)->Float_0),
        ls_model(*r) is Float ==> is_float_text(ls_model(*r)->Float_0),
        is_arith_op(ty) || is_compare_op(ty),
    ensures
        match res {
            Ok(t) => float_eval_of(
                as_float_text(ls_model(*l))->Some_0,
                spec_op_text(ty),
                as_float_text(ls_model(*r))->Some_0,
            ) == Some(t@.val->Some_0->Some_0) && t@ == literal_model(t@.val->Some_0->Some_0),
            Err(e) => e == LangError::TypeMismatchError && float_eval_of(
                as_float_text(ls_model(*l))->Some_0,
                spec_op_text(ty),
                as_float_text(ls_model(*r))->Some_0,
            ) is None,
        },
{
    let lt = match float_text_of(l) {
        Some(s) => s,
        None => {
            proof {
                assert(false);
            }
            return Err(LangError::TypeMismatchError);
        },
    };
    let rt = match float_text_of(r) {
        Some(s) => s,
        None => {
            proof {
                assert(false);
            }
            return Err(LangError::TypeMismatchError);
        },
    };
    proof {
        lemma_as_float_text_shape(ls_model(*l));
        lemma_as_float_text_shape(ls_model(*r));
        assert(crate::float::is_float_op_text(spec_op_text(ty)));
    }
    match float_binop(lt.as_str(), op_str(ty), rt.as_str()) {
        Some(s) => Ok(mk_literal(s)),
        None => Err(LangError::TypeMismatchError),
    }
}

/// Applies the coercion matrix to two interpreted operands. Floating-point
/// operands carry classified float texts, which the floating-point path
/// depends on.
fn apply(l: LSExpr, r: LSExpr, ty: TokenType) -> (res: Result<Token, LangError>)
    requires
        ls_model(l) is Float ==> is_float_text(ls_model(l)->Float_0),
        ls_model(r) is Float ==> is_float_text(ls_model(r)->Float_0),
    ensures
        match res {
            Ok(t) => spec_apply(ls_model(l), ls_model(r), ty) == Ok::<TokenModel, LangError>(t@),
            Err(e) => spec_apply(ls_model(l), ls_model(r), ty) == Err::<TokenModel, LangError>(e),
        },
{
    let arith = ty == TokenType::Plus || ty == TokenType::Minus || ty == TokenType::Mult || ty
        == TokenType::Div || ty == TokenType::Mod;
    let logic = ty == TokenType::And || ty == TokenType::Or;
    let compare = ty == TokenType::GreaterThan || ty == TokenType::LessThan || ty == TokenType::Gte
        || ty == TokenType::Lte || ty == TokenType::Equals;
    if arith {
        match (&l, &r) {
            (LSExpr::Int32(a), LSExpr::Int32(b)) => {
                let v: Option<i32> = match ty {
                    TokenType::Plus => a.checked_add(*b),
                    TokenType::Minus => a.checked_sub(*b),
                    TokenType::Mult => a.checked_mul(*b),
                    TokenType::Div => a.checked_div(*b),
                    _ => a.checked_rem(*b),
                };
                match v {
                    Some(v) => Ok(mk_literal(render_i32(v))),
                    None => Err(LangError::ArithmeticError),
                }
            },
            (LSExpr::Int32(_), LSExpr::Float(_)) => apply_float(&l, &r, ty),
            (LSExpr::Float(_), LSExpr::Int32(_)) => apply_float(&l, &r, ty),
            (LSExpr::Float(_), LSExpr::Float(_)) => apply_float(&l, &r, ty),
            _ => Err(LangError::TypeMismatchError),
        }
    } else if logic {
        let lb = match cast_to_bool(&l) {
            Some(b) => b,
            None => {
                return Err(LangError::TypeMismatchError);
            },
        };
        let rb = match cast_to_bool(&r) {
            Some(b) => b,
            None => {
                return Err(LangError::TypeMismatchError);
            },
        };
        let out = if ty == TokenType::And {
            lb && rb
        } else {
            lb || rb
        };
        Ok(mk_literal(render_bool(out)))
    } else if compare {
        match (exact_num(&l), exact_num(&r)) {
            (Some(a), Some(b)) => {
                let out = match ty {
                    TokenType::GreaterThan => a > b,
                    TokenType::LessThan => a < b,
                    TokenType::Gte => a >= b,
                    TokenType::Lte => a <= b,
                    _ => a == b,
                };
                Ok(mk_literal(render_bool(out)))
            },
            _ => {
                let bad = match (&l, &r) {
                    (LSExpr::Null, _) | (LSExpr::Undefined, _) => true,
                    (_, LSExpr::Null) | (_, LSExpr::Undefined) => true,
                    _ => false,
                };
                if bad {
                    Err(LangError::TypeMismatchError)
                } else {
                    apply_float(&l, &r, ty)
                }
            },
        }
    } else {
        Err(LangError::UndefinedOperatorError)
    }
}

/// Applies a binary operator token to two operand tokens, producing a single
/// literal token per the coercion matrix, or the error the matrix assigns.
/// The first operand is the left-hand side.
pub fn operate(left: Token, right: Token, operator: Token) -> (r: Result<Token, LangError>)
    ensures
        match r {
            Ok(t) => spec_operate(left@, right@, operator@) == Ok::<TokenModel, LangError>(t@),
            Err(e) => spec_operate(left@, right@, operator@) == Err::<TokenModel, LangError>(e),
        },
{
    let lv = match convert_token_to_value(&left) {
        Ok(v) => v,
        Err(e) => {
            return Err(e);
        },
    };
    let rv = match convert_token_to_value(&right) {
        Ok(v) => v,
        Err(e) => {
            return Err(e);
        },
    };
    proof {
        lemma_classify_wf(crate::token::payload_of(left@));
        lemma_classify_wf(crate::token::payload_of(right@));
    }
    apply(lv, rv, operator.tok_type)
}

/// Applies a unary operator token to one operand token: only `not` has a
/// rule, casting the operand to boolean and negating it.
pub fn operate_unary(value: Token, operator: Token) -> (r: Result<Token, LangError>)
    ensures
        match r {
            Ok(t) => spec_operate_unary(value@, operator@) == Ok::<TokenModel, LangError>(t@),
            Err(e) => spec_operate_unary(value@, operator@) == Err::<TokenModel, LangError>(e),
        },
{
    if !(operator.tok_type == TokenType::Not) {
        return Err(LangError::UndefinedOperatorError);
    }
    let v = match convert_token_to_value(&value) {
        Ok(v) => v,
        Err(e) => {
            return Err(e);
        },
    };
    match cast_to_bool(&v) {
        Some(b) => Ok(mk_literal(render_bool(!b))),
        None => Err(LangError::TypeMismatchError),
    }
}


} // verus!
