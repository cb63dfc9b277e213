use vstd::prelude::*;

use crate::errors::LangError;
use crate::token::{is_literal, payload_of, TokenModel};

verus! {

/// A literal's text, interpreted at the point of use: an integer in machine
/// range, a floating-point number kept as its decimal text, a boolean, null,
/// or nothing recognizable.
#[derive(Clone, Debug)]
pub enum LSExpr {
    Int32(i32),
    Float(String),
    Boolean(bool),
    Null,
    Undefined,
}

/// Mathematical model of an interpreted literal.
pub ghost enum ValueModel {
    Int(int),
    Float(Seq<char>),
    Bool(bool),
    Null,
    Undefined,
}

pub open spec fn ls_model(e: LSExpr) -> ValueModel {
    match e {
        LSExpr::Int32(v) => ValueModel::Int(v as int),
        LSExpr::Float(s) => ValueModel::Float(s@),
        LSExpr::Boolean(b) => ValueModel::Bool(b),
        LSExpr::Null => ValueModel::Null,
        LSExpr::Undefined => ValueModel::Undefined,
    }
}

pub open spec fn is_digit(c: char) -> bool {
    48 <= c as u32 <= 57
}

pub open spec fn digit_val(c: char) -> int {
    c as u32 - 48
}

pub open spec fn all_digits(s: Seq<char>) -> bool {
    forall|i: int| 0 <= i < s.len() ==> is_digit(#[trigger] s[i])
}

/// The integer denoted by a nonempty digit run, most significant first.
pub open spec fn digits_value(s: Seq<char>) -> int
    decreases s.len(),
{
    if s.len() == 0 {
        0
    } else {
        digits_value(s.drop_last()) * 10 + digit_val(s.last())
    }
}

/// An optional minus sign followed by one or more digits.
pub open spec fn is_int_text(s: Seq<char>) -> bool {
    if s.len() > 0 && s[0] == '-' {
        s.len() >= 2 && all_digits(s.skip(1))
    } else {
        s.len() >= 1 && all_digits(s)
    }
}

/// The integer an integer text denotes.
pub open spec fn int_text_value(s: Seq<char>) -> int {
    if s.len() > 0 && s[0] == '-' {
        -digits_value(s.skip(1))
    } else {
        digits_value(s)
    }
}

/// A numeric text without its optional leading minus sign.
pub open spec fn float_body(s: Seq<char>) -> Seq<char> {
    if s.len() > 0 && s[0] == '-' {
        s.skip(1)
    } else {
        s
    }
}

/// An optional minus sign, one or more digits, one dot, one or more digits.
pub open spec fn is_float_text(s: Seq<char>) -> bool {
    exists|k: int|
        1 <= k <= float_body(s).len() - 2 && #[trigger] float_body(s)[k] == '.' && all_digits(
            float_body(s).take(k),
        ) && all_digits(float_body(s).skip(k + 1))
}

/// A float text denotes zero exactly when every digit in it is a zero.
pub open spec fn float_text_zero(s: Seq<char>) -> bool {
    forall|i: int| 0 <= i < s.len() && is_digit(#[trigger] s[i]) ==> s[i] == '0'
}

/// How a literal's text is interpreted at the point of use. An integer text
/// beyond the machine range is an arithmetic error; anything that is neither
/// numeric, boolean, nor null is `Undefined`.
pub open spec fn spec_classify(s: Seq<char>) -> Result<ValueModel, LangError> {
    if is_int_text(s) {
        if i32::MIN as int <= int_text_value(s) <= i32::MAX as int {
            Ok(ValueModel::Int(int_text_value(s)))
        } else {
            Err(LangError::ArithmeticError)
        }
    } else if is_float_text(s) {
        Ok(ValueModel::Float(s))
    } else if s == "true"@ {
        Ok(ValueModel::Bool(true))
    } else if s == "false"@ {
        Ok(ValueModel::Bool(false))
    } else if s == "null"@ {
        Ok(ValueModel::Null)
    } else {
        Ok(ValueModel::Undefined)
    }
}

/// A token is interpreted through its payload; a token with none cannot be
/// an operand.
pub open spec fn spec_classify_token(t: TokenModel) -> Result<ValueModel, LangError> {
    if !is_literal(t) {
        Err(LangError::SyntaxError)
    } else {
        spec_classify(payload_of(t))
    }
}

/// The decimal text of a nonnegative integer, most significant digit first.
pub open spec fn digits_text(n: int) -> Seq<char>
    decreases n,
{
    if n < 10 {
        seq![digit_char(n)]
    } else {
        digits_text(n / 10).push(digit_char(n % 10))
    }
}

pub open spec fn digit_char(n: int) -> char {
    if n == 0 {
        '0'
    } else if n == 1 {
        '1'
    } else if n == 2 {
        '2'
    } else if n == 3 {
        '3'
    } else if n == 4 {
        '4'
    } else if n == 5 {
        '5'
    } else if n == 6 {
        '6'
    } else if n == 7 {
        '7'
    } else if n == 8 {
        '8'
    } else {
        '9'
    }
}

/// The decimal rendering of an integer.
pub open spec fn int_text(v: int) -> Seq<char> {
    if v < 0 {
        seq!['-'] + digits_text(-v)
    } else {
        digits_text(v)
    }
}

pub open spec fn bool_text(b: bool) -> Seq<char> {
    if b {
        "true"@
    } else {
        "false"@
    }
}

/// The decimal text of one digit, as a slice of this table.
fn digit_str(d: u32) -> (r: &'static str)
    requires
        d < 10,
    ensures
        r@ =~= seq![digit_char(d as int)],
{
    let table = "0123456789";
    proof {
        reveal_strlit("0123456789");
    }
    let r = table.substring_ascii(d as usize, d as usize + 1);
    proof {
        assert(r@ =~= seq![digit_char(d as int)]);
    }
    r
}

/// The decimal rendering of a nonnegative machine integer.
fn digits_string(n: u32) -> (r: String)
    ensures
        r@ == digits_text(n as int),
    decreases n,
{
    let d = n % 10;
    let q = n / 10;
    if q == 0 {
        let r = String::from_str(digit_str(d));
        proof {
            assert(r@ =~= digits_text(n as int));
        }
        r
    } else {
        let prefix = digits_string(q);
        let r = prefix.concat(digit_str(d));
        proof {
            assert(r@ =~= digits_text(n as int));
        }
        r
    }
}

/// The decimal rendering of a machine integer, with a leading minus sign for
/// negative values.
pub fn render_i32(v: i32) -> (r: String)
    ensures
        r@ == int_text(v as int),
{
    if v < 0 {
        let mag: u32 = (-(v as i64)) as u32;
        let r = String::from_str("-").concat(digits_string(mag).as_str());
        proof {
            reveal_strlit("-");
            assert(r@ =~= int_text(v as int));
        }
        r
    } else {
        digits_string(v as u32)
    }
}

/// The rendering of a boolean.
pub fn render_bool(b: bool) -> (r: String)
    ensures
        r@ == bool_text(b),
{
    if b {
        String::from_str("true")
    } else {
        String::from_str("false")
    }
}

/// All digits of a digit run are nonnegative in value.
proof fn lemma_digits_value_nonneg(s: Seq<char>)
    requires
        all_digits(s),
    ensures
        digits_value(s) >= 0,
    decreases s.len(),
{
    if s.len() > 0 {
        assert(all_digits(s.drop_last()));
        lemma_digits_value_nonneg(s.drop_last());
    }
}

/// The end of the maximal digit run beginning at `start`.
fn scan_digits(s: &str, start: usize) -> (end: usize)
    requires
        start <= s@.len(),
    ensures
        start <= end <= s@.len(),
        forall|j: int| start <= j < end ==> is_digit(#[trigger] s@[j]),
        end < s@.len() ==> !is_digit(s@[end as int]),
{
    let len = s.unicode_len();
    let mut i = start;
    while i < len
        invariant
            start <= i <= len,
            len == s@.len(),
            forall|j: int| start <= j < i ==> is_digit(#[trigger] s@[j]),
        decreases len - i,
    {
        let c = s.get_char(i);
        if !(48 <= c as u32 && c as u32 <= 57) {
            return i;
        }
        i += 1;
    }
    i
}

/// Interprets a literal's text: an integer if it has integer shape and fits
/// the machine range, a float kept textual, a boolean, null, or `Undefined`.
pub fn classify_text(s: &str) -> (r: Result<LSExpr, LangError>)
    ensures
        match r {
            Ok(v) => spec_classify(s@) == Ok::<_, LangError>(ls_model(v)),
            Err(e) => spec_classify(s@) == Err::<ValueModel, _>(e),
        },
{
    let len = s.unicode_len();
    let neg = len > 0 && s.get_char(0) == '-';
    let start: usize = if neg {
        1
    } else {
        0
    };
    let ghost body = float_body(s@);
    proof {
        if neg {
            assert(body =~= s@.skip(1));
        } else {
            assert(body =~= s@);
        }
    }
    let d_end = scan_digits(s, start);
    if d_end == start {
        // No digits where the shape rules want them: not numeric.
        proof {
            if is_int_text(s@) {
                if s@.len() > 0 && s@[0] == '-' {
                    assert(s@.skip(1)[0] == s@[1]);
                    assert(is_digit(s@[start as int]));
                } else {
                    assert(is_digit(s@[start as int]));
                }
                assert(false);
            }
            if is_float_text(s@) {
                let k = choose|k: int|
                    1 <= k <= float_body(s@).len() - 2 && #[trigger] float_body(s@)[k] == '.'
                        && all_digits(float_body(s@).take(k)) && all_digits(
                        float_body(s@).skip(k + 1),
                    );
                assert(float_body(s@).take(k)[0] == body[0]);
                assert(body[0] == s@[start as int]);
                assert(is_digit(s@[start as int]));
                assert(false);
            }
        }
        classify_keywords(s)
    } else if d_end == len {
        // Integer shape: every character after the optional sign is a digit.
        proof {
            assert(s@.skip(start as int) =~= s@.subrange(start as int, len as int));
            assert(is_int_text(s@));
        }
        let mut mag: u64 = 0;
        let mut big = false;
        let mut i = start;
        while i < len
            invariant
                start <= i <= len,
                len == s@.len(),
                d_end == len,
                start < len,
                forall|j: int| start <= j < len ==> is_digit(#[trigger] s@[j]),
                !big ==> mag <= 2147483648 && mag == digits_value(
                    s@.subrange(start as int, i as int),
                ),
                big ==> digits_value(s@.subrange(start as int, i as int)) > 2147483648,
            decreases len - i,
        {
            let ghost pre = s@.subrange(start as int, i as int);
            let ghost post = s@.subrange(start as int, i as int + 1);
            proof {
                assert(post.drop_last() =~= pre);
                assert(post.last() == s@[i as int]);
                assert(all_digits(pre));
                lemma_digits_value_nonneg(pre);
            }
            let c = s.get_char(i);
            let d: u64 = (c as u32 - 48) as u64;
            if !big {
                mag = mag * 10 + d;
                if mag > 2147483648 {
                    big = true;
                }
            }
            i += 1;
        }
        proof {
            assert(s@.subrange(start as int, len as int) =~= s@.skip(start as int));
            if !neg {
                assert(s@.skip(0) =~= s@);
            }
        }
        if big || (neg && mag > 2147483648) || (!neg && mag > 2147483647) {
            Err(LangError::ArithmeticError)
        } else if neg {
            Ok(LSExpr::Int32((-(mag as i64)) as i32))
        } else {
            Ok(LSExpr::Int32(mag as i32))
        }
    } else {
        // Digits stop before the end: a float if a dot and more digits
        // follow to the end, otherwise nothing numeric.
        proof {
            assert(!is_digit(s@[d_end as int]));
            if is_int_text(s@) {
                if s@.len() > 0 && s@[0] == '-' {
                    assert(s@.skip(1)[d_end as int - 1] == s@[d_end as int]);
                } else {
                }
                assert(is_digit(s@[d_end as int]));
                assert(false);
            }
        }
        let c = s.get_char(d_end);
        if c == '.' && d_end + 1 < len {
            let f_end = scan_digits(s, d_end + 1);
            if f_end > d_end + 1 && f_end == len {
                proof {
                    let k = d_end - start;
                    assert(float_body(s@)[k as int] == body[k as int]);
                    assert(body[k as int] == s@[d_end as int]);
                    assert(body.take(k as int) =~= s@.subrange(start as int, d_end as int));
                    assert(body.skip(k as int + 1) =~= s@.subrange(d_end as int + 1, len as int));
                    assert(1 <= k <= float_body(s@).len() - 2 && float_body(s@)[k as int] == '.'
                        && all_digits(float_body(s@).take(k as int)) && all_digits(
                        float_body(s@).skip(k as int + 1),
                    ));
                    assert(is_float_text(s@));
                }
                return Ok(LSExpr::Float(s.to_owned()));
            }
            // A dot follows the digits, but the characters after it do not
            // form a digit run reaching the end: no float shape.
            proof {
                if is_float_text(s@) {
                    let k = choose|k: int|
                        1 <= k <= float_body(s@).len() - 2 && #[trigger] float_body(s@)[k] == '.'
                            && all_digits(float_body(s@).take(k)) && all_digits(
                            float_body(s@).skip(k + 1),
                        );
                    let kk = k + start;
                    if kk < d_end {
                        assert(body[k] == s@[kk]);
                        assert(is_digit(s@[kk]));
                        assert(false);
                    } else if kk > d_end {
                        assert(body.take(k)[d_end - start] == body[d_end - start]);
                        assert(body[d_end - start] == s@[d_end as int]);
                        assert(is_digit(s@[d_end as int]));
                        assert(false);
                    } else {
                        if f_end <= d_end + 1 {
                            assert(body.skip(k + 1)[0] == body[k + 1]);
                            assert(body[k + 1] == s@[d_end as int + 1]);
                            assert(is_digit(s@[d_end as int + 1]));
                            assert(false);
                        } else {
                            assert(body.skip(k + 1)[f_end - d_end - 1] == body[f_end - start]);
                            assert(body[f_end - start] == s@[f_end as int]);
                            assert(is_digit(s@[f_end as int]));
                            assert(false);
                        }
                    }
                }
            }
            classify_keywords(s)
        } else {
            // No dot after the digits, or nothing after the dot.
            proof {
                if is_float_text(s@) {
                    let k = choose|k: int|
                        1 <= k <= float_body(s@).len() - 2 && #[trigger] float_body(s@)[k] == '.'
                            && all_digits(float_body(s@).take(k)) && all_digits(
                            float_body(s@).skip(k + 1),
                        );
                    let kk = k + start;
                    if kk < d_end {
                        assert(body[k] == s@[kk]);
                        assert(is_digit(s@[kk]));
                        assert(false);
                    } else if kk > d_end {
                        assert(body.take(k)[d_end - start] == body[d_end - start]);
                        assert(body[d_end - start] == s@[d_end as int]);
                        assert(is_digit(s@[d_end as int]));
                        assert(false);
                    } else {
                        assert(body[k] == s@[d_end as int]);
                        assert(s@[d_end as int] == '.');
                        assert(kk + 2 <= len);
                        assert(false);
                    }
                }
            }
            classify_keywords(s)
        }
    }
}

/// The non-numeric interpretations: the boolean and null keywords, or
/// `Undefined` for anything else.
fn classify_keywords(s: &str) -> (r: Result<LSExpr, LangError>)
    requires
        !is_int_text(s@),
        !is_float_text(s@),
    ensures
        match r {
            Ok(v) => spec_classify(s@) == Ok::<_, LangError>(ls_model(v)),
            Err(e) => spec_classify(s@) == Err::<ValueModel, _>(e),
        },
{
    if crate::text::str_eq(s, "true") {
        Ok(LSExpr::Boolean(true))
    } else if crate::text::str_eq(s, "false") {
        Ok(LSExpr::Boolean(false))
    } else if crate::text::str_eq(s, "null") {
        Ok(LSExpr::Null)
    } else {
        Ok(LSExpr::Undefined)
    }
}

/// The boolean a value casts to: zero numbers and null are false, nonzero
/// numbers are true, booleans pass through, and nothing else casts.
pub open spec fn truthy(v: ValueModel) -> Option<bool> {
    match v {
        ValueModel::Int(i) => Some(i != 0),
        ValueModel::Float(s) => Some(!float_text_zero(s)),
        ValueModel::Bool(b) => Some(b),
        ValueModel::Null => Some(false),
        ValueModel::Undefined => None,
    }
}

/// The integer a value casts to exactly, for comparisons: integers are
/// themselves; booleans cast the way the engine has always cast them, with
/// false as one and true as zero.
pub open spec fn as_exact_num(v: ValueModel) -> Option<int> {
    match v {
        ValueModel::Int(i) => Some(i),
        ValueModel::Bool(b) => Some(
            if b {
                0
            } else {
                1
            },
        ),
        _ => None,
    }
}

/// The floating-point text a value is promoted to: an integer gains a zero
/// fraction, a float keeps its text, and a boolean casts as false to one and
/// true to zero.
pub open spec fn as_float_text(v: ValueModel) -> Option<Seq<char>> {
    match v {
        ValueModel::Int(i) => Some(int_text(i) + ".0"@),
        ValueModel::Float(s) => Some(s),
        ValueModel::Bool(b) => Some(
            if b {
                "0.0"@
            } else {
                "1.0"@
            },
        ),
        _ => None,
    }
}

/// Whether a float text denotes zero: executable form of `float_text_zero`.
pub fn float_zero(s: &str) -> (r: bool)
    ensures
        r == float_text_zero(s@),
{
    let len = s.unicode_len();
    let mut i: usize = 0;
    while i < len
        invariant
            0 <= i <= len,
            len == s@.len(),
            forall|j: int| 0 <= j < i && is_digit(#[trigger] s@[j]) ==> s@[j] == '0',
        decreases len - i,
    {
        let c = s.get_char(i);
        let u = c as u32;
        if 48 <= u && u <= 57 && u != 48 {
            return false;
        }
        i += 1;
    }
    true
}

/// The executable promotion of a value to floating-point text.
pub fn float_text_of(v: &LSExpr) -> (r: Option<String>)
    ensures
        match r {
            Some(s) => as_float_text(ls_model(*v)) == Some(s@),
            None => as_float_text(ls_model(*v)) is None,
        },
{
    match v {
        LSExpr::Int32(i) => {
            let r = render_i32(*i).concat(".0");
            proof {
                reveal_strlit(".0");
            }
            Some(r)
        },
        LSExpr::Float(s) => Some(s.clone()),
        LSExpr::Boolean(b) => {
            if *b {
                Some(String::from_str("0.0"))
            } else {
                Some(String::from_str("1.0"))
            }
        },
        LSExpr::Null => None,
        LSExpr::Undefined => None,
    }
}

/// The executable boolean cast.
pub fn cast_to_bool(v: &LSExpr) -> (r: Option<bool>)
    ensures
        r == truthy(ls_model(*v)),
{
    match v {
        LSExpr::Int32(i) => Some(*i != 0),
        LSExpr::Float(s) => Some(!float_zero(s.as_str())),
        LSExpr::Boolean(b) => Some(*b),
        LSExpr::Null => Some(false),
        LSExpr::Undefined => None,
    }
}


/// Every character of a nonnegative integer's decimal text is a digit, and
/// the text is never empty.
proof fn lemma_digits_text_digits(n: int)
    requires
        n >= 0,
    ensures
        digits_text(n).len() >= 1,
        forall|j: int| 0 <= j < digits_text(n).len() ==> is_digit(#[trigger] digits_text(n)[j]),
    decreases n,
{
    if n < 10 {
        assert(digits_text(n) == seq![digit_char(n)]);
        assert(is_digit(digit_char(n)));
    } else {
        lemma_digits_text_digits(n / 10);
        let prefix = digits_text(n / 10);
        assert(digits_text(n) == prefix.push(digit_char(n % 10)));
        assert(is_digit(digit_char(n % 10)));
        assert forall|j: int| 0 <= j < digits_text(n).len() implies is_digit(
            #[trigger] digits_text(n)[j],
        ) by {
            if j < prefix.len() {
                assert(digits_text(n)[j] == prefix[j]);
            } else {
                assert(digits_text(n)[j] == digit_char(n % 10));
            }
        }
    }
}

/// Classification only ever yields a float value whose text has the float
/// shape.
pub proof fn lemma_classify_wf(s: Seq<char>)
    ensures
        match spec_classify(s) {
            Ok(v) => v is Float ==> is_float_text(v->Float_0),
            Err(_) => true,
        },
{
}

/// The promoted float text of any value that has one — an integer gaining
/// its zero fraction, a float keeping its classified text, a boolean cast to
/// one or zero — itself has the float shape.
pub proof fn lemma_as_float_text_shape(v: ValueModel)
    requires
        as_float_text(v) is Some,
        v is Float ==> is_float_text(v->Float_0),
    ensures
        is_float_text(as_float_text(v)->Some_0),
{
    reveal_strlit(".0");
    reveal_strlit("0.0");
    reveal_strlit("1.0");
    match v {
        ValueModel::Int(i) => {
            let s = as_float_text(v)->Some_0;
            assert(s == int_text(i) + ".0"@);
            if i < 0 {
                let d = digits_text(-i);
                lemma_digits_text_digits(-i);
                assert(int_text(i) == seq!['-'] + d);
                assert(s[0] == '-');
                let body = float_body(s);
                assert(body =~= d + ".0"@);
                let k = d.len() as int;
                assert(body[k] == '.');
                assert(body.take(k) =~= d);
                assert(body.skip(k + 1) =~= seq!['0']);
                assert(all_digits(body.take(k)));
                assert forall|j: int| 0 <= j < body.skip(k + 1).len() implies is_digit(
                    #[trigger] body.skip(k + 1)[j],
                ) by {
                    assert(body.skip(k + 1)[j] == '0');
                }
                assert(1 <= k <= body.len() - 2 && float_body(s)[k] == '.' && all_digits(
                    float_body(s).take(k),
                ) && all_digits(float_body(s).skip(k + 1)));
                assert(is_float_text(s));
            } else {
                let d = digits_text(i);
                lemma_digits_text_digits(i);
                assert(int_text(i) == d);
                assert(s[0] == d[0]);
                assert(is_digit(s[0]));
                assert(s[0] != '-');
                let body = float_body(s);
                assert(body =~= d + ".0"@);
                let k = d.len() as int;
                assert(body[k] == '.');
                assert(body.take(k) =~= d);
                assert(body.skip(k + 1) =~= seq!['0']);
                assert(all_digits(body.take(k)));
                assert forall|j: int| 0 <= j < body.skip(k + 1).len() implies is_digit(
                    #[trigger] body.skip(k + 1)[j],
                ) by {
                    assert(body.skip(k + 1)[j] == '0');
                }
                assert(1 <= k <= body.len() - 2 && float_body(s)[k] == '.' && all_digits(
                    float_body(s).take(k),
                ) && all_digits(float_body(s).skip(k + 1)));
                assert(is_float_text(s));
            }
        },
        ValueModel::Float(_) => {},
        ValueModel::Bool(_) => {
            let s = as_float_text(v)->Some_0;
            assert(s.len() == 3);
            assert(s[0] == '0' || s[0] == '1');
            assert(s[0] != '-');
            let body = float_body(s);
            assert(body == s);
            assert(body[1] == '.');
            assert forall|j: int| 0 <= j < body.take(1).len() implies is_digit(
                #[trigger] body.take(1)[j],
            ) by {
                assert(body.take(1)[j] == s[0]);
            }
            assert forall|j: int| 0 <= j < body.skip(2).len() implies is_digit(
                #[trigger] body.skip(2)[j],
            ) by {
                assert(body.skip(2)[j] == s[2]);
                assert(s[2] == '0');
            }
            assert(1 <= 1int <= body.len() - 2 && float_body(s)[1] == '.' && all_digits(
                float_body(s).take(1),
            ) && all_digits(float_body(s).skip(2)));
            assert(is_float_text(s));
        },
        _ => {},
    }
}


} // verus!
