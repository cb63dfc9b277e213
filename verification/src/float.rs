use vstd::prelude::*;

use crate::values::is_float_text;

verus! {

/// The text that applying `op` to the two floating-point operand texts
/// yields: the decimal rendering of the IEEE double result for an arithmetic
/// operator, or a boolean text for a comparison. The result depends on the
/// three texts alone, and nothing on what it is; `None` stands for a
/// combination the evaluation rejects.
pub uninterp spec fn float_eval_of(left: Seq<char>, op: Seq<char>, right: Seq<char>) -> Option<
    Seq<char>,
>;

/// The ten operator texts the engine hands to the floating-point
/// evaluation.
pub open spec fn is_float_op_text(s: Seq<char>) -> bool {
    s == "+"@ || s == "-"@ || s == "*"@ || s == "/"@ || s == "%"@ || s == ">"@ || s == "<"@ || s
        == ">="@ || s == "<="@ || s == "=="@
}

/// Relies on evalexpr::eval: applies one binary operator to two
/// floating-point literals with IEEE double semantics, and renders the
/// result the way the machine renders a double or a boolean. The outcome is
/// a function of the operand and operator texts alone.
///
/// The preconditions pin the call to exactly that single binary operation:
/// each operand is one floating-point literal and the operator is one of the
/// engine's ten, so the handed-over expression is three tokens with no
/// nesting, on which the outside evaluator neither panics nor recurses
/// unboundedly.
#[verifier::external_body]
pub(crate) fn float_binop(left: &str, op: &str, right: &str) -> (r: Option<String>)
    requires
        is_float_text(left@),
        is_float_text(right@),
        is_float_op_text(op@),
    ensures
        match r {
            Some(s) => float_eval_of(left@, op@, right@) == Some(s@),
            None => float_eval_of(left@, op@, right@) is None,
        },
{
    match evalexpr::eval(&format!("{} {} {}", left, op, right)) {
        Ok(evalexpr::Value::Float(x)) => Some(x.to_string()),
        Ok(evalexpr::Value::Int(x)) => Some(x.to_string()),
        Ok(evalexpr::Value::Boolean(x)) => Some(x.to_string()),
        _ => None,
    }
}

} // verus!
