use vstd::prelude::*;

use crate::errors::LangError;
use crate::text::str_eq;
use crate::token::{literal_model, models, simple_model, Token, TokenModel, TokenType, TokenValue};
use crate::values::is_digit;

verus! {

/// A letter, over the ASCII alphabet. Identifier and keyword runs are
/// deliberately ASCII: the lexer's whole alphabet is then stated exactly in
/// these few predicates, and any character outside it is reported as a lex
/// error rather than accepted silently.
pub open spec fn is_alpha(c: char) -> bool {
    (97 <= c as u32 <= 122) || (65 <= c as u32 <= 90)
}

pub open spec fn is_alnum(c: char) -> bool {
    is_alpha(c) || is_digit(c)
}

/// A character of a numeric run: a digit or a decimal point.
pub open spec fn is_num_char(c: char) -> bool {
    is_digit(c) || c == '.'
}

/// The token a single character resolves to on its own.
pub open spec fn single_char_type(c: char) -> Option<TokenType> {
    if c == '=' {
        Some(TokenType::Equals)
    } else if c == '+' {
        Some(TokenType::Plus)
    } else if c == '-' {
        Some(TokenType::Minus)
    } else if c == '*' {
        Some(TokenType::Mult)
    } else if c == '/' {
        Some(TokenType::Div)
    } else if c == '%' {
        Some(TokenType::Mod)
    } else if c == '{' {
        Some(TokenType::OpenBrace)
    } else if c == '}' {
        Some(TokenType::CloseBrace)
    } else if c == '[' {
        Some(TokenType::OpenBracket)
    } else if c == ']' {
        Some(TokenType::CloseBracket)
    } else if c == '(' {
        Some(TokenType::OpenParen)
    } else if c == ')' {
        Some(TokenType::CloseParen)
    } else if c == '\n' {
        Some(TokenType::NewLine)
    } else if c == ',' {
        Some(TokenType::Comma)
    } else if c == ':' {
        Some(TokenType::Colon)
    } else if c == '"' {
        Some(TokenType::Quote)
    } else {
        None
    }
}

/// The keyword a maximal alphanumeric run resolves to, if any.
pub open spec fn keyword_type(s: Seq<char>) -> Option<TokenType> {
    if s == "var"@ {
        Some(TokenType::Assign)
    } else if s == "is"@ {
        Some(TokenType::Is)
    } else if s == "and"@ {
        Some(TokenType::And)
    } else if s == "or"@ {
        Some(TokenType::Or)
    } else if s == "not"@ {
        Some(TokenType::Not)
    } else if s == "if"@ {
        Some(TokenType::If)
    } else if s == "else"@ {
        Some(TokenType::Else)
    } else if s == "for"@ {
        Some(TokenType::For)
    } else if s == "each"@ {
        Some(TokenType::Each)
    } else if s == "while"@ {
        Some(TokenType::While)
    } else if s == "loop"@ {
        Some(TokenType::Loop)
    } else if s == "function"@ {
        Some(TokenType::Function)
    } else {
        None
    }
}

/// How many numeric-run characters follow from position `j`.
pub open spec fn num_count(s: Seq<char>, j: int) -> nat
    decreases s.len() - j,
{
    if 0 <= j < s.len() && is_num_char(s[j]) {
        1 + num_count(s, j + 1)
    } else {
        0
    }
}

/// How many alphanumeric characters follow from position `j`.
pub open spec fn alnum_count(s: Seq<char>, j: int) -> nat
    decreases s.len() - j,
{
    if 0 <= j < s.len() && is_alnum(s[j]) {
        1 + alnum_count(s, j + 1)
    } else {
        0
    }
}

/// The token an angle bracket resolves to: merged with one character of
/// lookahead when an equals sign follows, its single-character meaning
/// otherwise.
pub open spec fn angle_token(c: char, merged: bool) -> TokenModel {
    if c == '>' {
        if merged {
            simple_model(TokenType::Gte)
        } else {
            simple_model(TokenType::GreaterThan)
        }
    } else {
        if merged {
            simple_model(TokenType::Lte)
        } else {
            simple_model(TokenType::LessThan)
        }
    }
}

/// The token sequence the text from position `i` on lexes to, or `None` when
/// an unrecognized character is reached. Spaces are discarded; a maximal
/// numeric or alphanumeric run becomes one token; a run of punctuation
/// beginning with an angle bracket resolves through the operator lookahead.
pub open spec fn spec_lex_from(s: Seq<char>, i: int) -> Option<Seq<TokenModel>>
    decreases s.len() - i,
    via spec_lex_from_decreases
{
    if i < 0 || i >= s.len() {
        Some(Seq::empty())
    } else {
        let c = s[i];
        if c == ' ' {
            spec_lex_from(s, i + 1)
        } else if single_char_type(c) is Some {
            match spec_lex_from(s, i + 1) {
                Some(rest) => Some(seq![simple_model(single_char_type(c)->Some_0)] + rest),
                None => None,
            }
        } else if c == '>' || c == '<' {
            let two = i + 1 < s.len() && s[i + 1] == '=';
            let t = angle_token(c, two);
            let end = if two {
                i + 2
            } else {
                i + 1
            };
            match spec_lex_from(s, end) {
                Some(rest) => Some(seq![t] + rest),
                None => None,
            }
        } else if is_digit(c) {
            let end = i + 1 + num_count(s, i + 1);
            match spec_lex_from(s, end) {
                Some(rest) => Some(seq![literal_model(s.subrange(i, end))] + rest),
                None => None,
            }
        } else if is_alpha(c) {
            let end = i + 1 + alnum_count(s, i + 1);
            let run = s.subrange(i, end);
            let t = match keyword_type(run) {
                Some(ty) => simple_model(ty),
                None => literal_model(run),
            };
            match spec_lex_from(s, end) {
                Some(rest) => Some(seq![t] + rest),
                None => None,
            }
        } else {
            None
        }
    }
}

/// A character run never reaches past the end of the text.
proof fn lemma_num_count_bound(s: Seq<char>, j: int)
    requires
        0 <= j <= s.len(),
    ensures
        j + num_count(s, j) <= s.len(),
    decreases s.len() - j,
{
    if j < s.len() && is_num_char(s[j]) {
        lemma_num_count_bound(s, j + 1);
    }
}

proof fn lemma_alnum_count_bound(s: Seq<char>, j: int)
    requires
        0 <= j <= s.len(),
    ensures
        j + alnum_count(s, j) <= s.len(),
    decreases s.len() - j,
{
    if j < s.len() && is_alnum(s[j]) {
        lemma_alnum_count_bound(s, j + 1);
    }
}

#[via_fn]
proof fn spec_lex_from_decreases(s: Seq<char>, i: int) {
    if 0 <= i < s.len() {
        lemma_num_count_bound(s, i + 1);
        lemma_alnum_count_bound(s, i + 1);
    }
}

/// How many quote tokens a sequence holds.
pub open spec fn quote_count(ts: Seq<TokenModel>) -> int
    decreases ts.len(),
{
    if ts.len() == 0 {
        0
    } else {
        quote_count(ts.drop_last()) + if ts.last().ty == TokenType::Quote {
            1int
        } else {
            0int
        }
    }
}

/// What the lexer makes of a whole text. Strings are delimited by pairs of
/// quote tokens, so a text whose scan leaves an odd number of quotes holds
/// an unterminated string, which is a lex error.
pub open spec fn spec_tokenize(s: Seq<char>) -> Option<Seq<TokenModel>> {
    match spec_lex_from(s, 0) {
        Some(ts) => if quote_count(ts) % 2 == 0 {
            Some(ts)
        } else {
            None
        },
        None => None,
    }
}

/// A token with no payload, of the given category.
pub fn generate_simple_token(tok_type: TokenType) -> (r: Option<Token>)
    ensures
        r matches Some(t) && t@ == simple_model(tok_type),
{
    Some(Token { tok_type, tok_value: None })
}

/// A `Literal` token carrying the given text verbatim.
pub fn generate_literal_token(from: String) -> (r: Option<Token>)
    ensures
        r matches Some(t) && t@ == literal_model(from@),
{
    Some(Token { tok_type: TokenType::Literal, tok_value: Some(TokenValue { s_val: Some(from) }) })
}

fn exec_is_digit(c: char) -> (r: bool)
    ensures
        r == is_digit(c),
{
    48 <= c as u32 && c as u32 <= 57
}

fn exec_is_alpha(c: char) -> (r: bool)
    ensures
        r == is_alpha(c),
{
    (97 <= c as u32 && c as u32 <= 122) || (65 <= c as u32 && c as u32 <= 90)
}

/// The end of the maximal numeric run beginning at `j`.
fn scan_num_run(s: &str, j: usize) -> (end: usize)
    requires
        j <= s@.len(),
    ensures
        j <= end <= s@.len(),
        end == j + num_count(s@, j as int),
{
    let len = s.unicode_len();
    let mut i = j;
    while i < len
        invariant
            j <= i <= len,
            len == s@.len(),
            num_count(s@, j as int) == (i - j) + num_count(s@, i as int),
        decreases len - i,
    {
        let c = s.get_char(i);
        if !(exec_is_digit(c) || c == '.') {
            return i;
        }
        i += 1;
    }
    i
}

/// The end of the maximal alphanumeric run beginning at `j`.
fn scan_alnum_run(s: &str, j: usize) -> (end: usize)
    requires
        j <= s@.len(),
    ensures
        j <= end <= s@.len(),
        end == j + alnum_count(s@, j as int),
{
    let len = s.unicode_len();
    let mut i = j;
    while i < len
        invariant
            j <= i <= len,
            len == s@.len(),
            alnum_count(s@, j as int) == (i - j) + alnum_count(s@, i as int),
        decreases len - i,
    {
        let c = s.get_char(i);
        if !(exec_is_alpha(c) || exec_is_digit(c)) {
            return i;
        }
        i += 1;
    }
    i
}

/// The keyword a run resolves to, if any.
fn match_keyword(run: &str) -> (r: Option<TokenType>)
    ensures
        r == keyword_type(run@),
{
    if str_eq(run, "var") {
        Some(TokenType::Assign)
    } else if str_eq(run, "is") {
        Some(TokenType::Is)
    } else if str_eq(run, "and") {
        Some(TokenType::And)
    } else if str_eq(run, "or") {
        Some(TokenType::Or)
    } else if str_eq(run, "not") {
        Some(TokenType::Not)
    } else if str_eq(run, "if") {
        Some(TokenType::If)
    } else if str_eq(run, "else") {
        Some(TokenType::Else)
    } else if str_eq(run, "for") {
        Some(TokenType::For)
    } else if str_eq(run, "each") {
        Some(TokenType::Each)
    } else if str_eq(run, "while") {
        Some(TokenType::While)
    } else if str_eq(run, "loop") {
        Some(TokenType::Loop)
    } else if str_eq(run, "function") {
        Some(TokenType::Function)
    } else {
        None
    }
}

/// The single-character token a character maps to, if any.
fn match_single(c: char) -> (r: Option<TokenType>)
    ensures
        r == single_char_type(c),
{
    if c == '=' {
        Some(TokenType::Equals)
    } else if c == '+' {
        Some(TokenType::Plus)
    } else if c == '-' {
        Some(TokenType::Minus)
    } else if c == '*' {
        Some(TokenType::Mult)
    } else if c == '/' {
        Some(TokenType::Div)
    } else if c == '%' {
        Some(TokenType::Mod)
    } else if c == '{' {
        Some(TokenType::OpenBrace)
    } else if c == '}' {
        Some(TokenType::CloseBrace)
    } else if c == '[' {
        Some(TokenType::OpenBracket)
    } else if c == ']' {
        Some(TokenType::CloseBracket)
    } else if c == '(' {
        Some(TokenType::OpenParen)
    } else if c == ')' {
        Some(TokenType::CloseParen)
    } else if c == '\n' {
        Some(TokenType::NewLine)
    } else if c == ',' {
        Some(TokenType::Comma)
    } else if c == ':' {
        Some(TokenType::Colon)
    } else if c == '"' {
        Some(TokenType::Quote)
    } else {
        None
    }
}

/// Lexes a whole text into its token sequence: one pass, never backtracking
/// past a character boundary. Identifier and number runs are over the ASCII
/// letters and digits; an unrecognized character is a lex error, so the
/// lexer terminates on every input.
pub fn tokenize(program: &str) -> (r: Result<Vec<Token>, LangError>)
    ensures
        match r {
            Ok(ts) => spec_tokenize(program@) == Some(models(ts@)),
            Err(e) => spec_tokenize(program@) is None && e == LangError::LexError,
        },
{
    let len = program.unicode_len();
    let mut tokens: Vec<Token> = Vec::new();
    let mut i: usize = 0;
    proof {
        assert(models(tokens@) =~= Seq::<TokenModel>::empty());
        assert(spec_lex_from(program@, 0) == (match spec_lex_from(program@, 0) {
            Some(rest) => Some(models(tokens@) + rest),
            None => None::<Seq<TokenModel>>,
        })) by {
            match spec_lex_from(program@, 0) {
                Some(rest) => {
                    assert(models(tokens@) + rest =~= rest);
                },
                None => {},
            }
        }
    }
    while i < len
        invariant
            0 <= i <= len,
            len == program@.len(),
            spec_lex_from(program@, 0) == (match spec_lex_from(program@, i as int) {
                Some(rest) => Some(models(tokens@) + rest),
                None => None::<Seq<TokenModel>>,
            }),
        decreases len - i,
    {
        let ghost pre = models(tokens@);
        let c = program.get_char(i);
        if c == ' ' {
            i += 1;
            continue ;
        }
        let single = match_single(c);
        match single {
            Some(ty) => {
                tokens.push(Token { tok_type: ty, tok_value: None });
                proof {
                    assert(models(tokens@) =~= pre.push(simple_model(ty)));
                    lemma_step(pre, tokens@, simple_model(ty), spec_lex_from(program@, i + 1));
                }
                i += 1;
                continue ;
            },
            None => {},
        }
        if c == '>' || c == '<' {
            let two = i + 1 < len && program.get_char(i + 1) == '=';
            let tok: Token = if c == '>' {
                if two {
                    Token { tok_type: TokenType::Gte, tok_value: None }
                } else {
                    Token { tok_type: TokenType::GreaterThan, tok_value: None }
                }
            } else {
                if two {
                    Token { tok_type: TokenType::Lte, tok_value: None }
                } else {
                    Token { tok_type: TokenType::LessThan, tok_value: None }
                }
            };
            let end = if two {
                i + 2
            } else {
                i + 1
            };
            let ghost tm = tok@;
            proof {
                assert(tm == angle_token(c, two));
            }
            tokens.push(tok);
            proof {
                assert(models(tokens@) =~= pre.push(tm));
                lemma_step(pre, tokens@, tm, spec_lex_from(program@, end as int));
            }
            i = end;
        } else if exec_is_digit(c) {
            let end = scan_num_run(program, i + 1);
            let run = program.substring_char(i, end).to_owned();
            let ghost runm = program@.subrange(i as int, end as int);
            tokens.push(
                Token { tok_type: TokenType::Literal, tok_value: Some(TokenValue { s_val: Some(run) }) },
            );
            proof {
                assert(models(tokens@) =~= pre.push(literal_model(runm)));
                lemma_step(pre, tokens@, literal_model(runm), spec_lex_from(program@, end as int));
            }
            i = end;
        } else if exec_is_alpha(c) {
            let end = scan_alnum_run(program, i + 1);
            let run = program.substring_char(i, end);
            let ghost runm = program@.subrange(i as int, end as int);
            let tok: Token = match match_keyword(run) {
                Some(ty) => Token { tok_type: ty, tok_value: None },
                None => Token {
                    tok_type: TokenType::Literal,
                    tok_value: Some(TokenValue { s_val: Some(run.to_owned()) }),
                },
            };
            let ghost tm = tok@;
            proof {
                assert(tm == (match keyword_type(runm) {
                    Some(ty) => simple_model(ty),
                    None => literal_model(runm),
                }));
            }
            tokens.push(tok);
            proof {
                assert(models(tokens@) =~= pre.push(tm));
                lemma_step(pre, tokens@, tm, spec_lex_from(program@, end as int));
            }
            i = end;
        } else {
            return Err(LangError::LexError);
        }
    }
    proof {
        assert(spec_lex_from(program@, i as int) == Some(Seq::<TokenModel>::empty()));
        assert(models(tokens@) + Seq::<TokenModel>::empty() =~= models(tokens@));
    }
    let ghost tsm = models(tokens@);
    let mut quotes: usize = 0;
    let mut j: usize = 0;
    proof {
        assert(tsm.take(0) =~= Seq::<TokenModel>::empty());
        assert(tsm.len() == tokens@.len());
    }
    while j < tokens.len()
        invariant
            0 <= j <= tokens.len(),
            tsm == models(tokens@),
            tsm.len() == tokens@.len(),
            quotes <= j,
            quotes == quote_count(tsm.take(j as int)),
        decreases tokens.len() - j,
    {
        proof {
            assert(tsm[j as int] == tokens@[j as int]@);
            assert(tsm.take(j as int + 1).drop_last() =~= tsm.take(j as int));
            assert(tsm.take(j as int + 1).last() == tsm[j as int]);
        }
        if tokens[j].tok_type == TokenType::Quote {
            quotes += 1;
        }
        j += 1;
    }
    proof {
        assert(tsm.take(j as int) =~= tsm);
    }
    if quotes % 2 == 1 {
        return Err(LangError::LexError);
    }
    Ok(tokens)
}

/// One lexing step: the tokens so far gain one token whose model heads the
/// remaining spec output.
proof fn lemma_step(
    pre: Seq<TokenModel>,
    now: Seq<Token>,
    t: TokenModel,
    rest: Option<Seq<TokenModel>>,
)
    requires
        models(now) == pre.push(t),
    ensures
        (match rest {
            Some(r) => Some(pre + (seq![t] + r)),
            None => None::<Seq<TokenModel>>,
        }) == (match rest {
            Some(r) => Some(models(now) + r),
            None => None::<Seq<TokenModel>>,
        }),
{
    match rest {
        Some(r) => {
            assert(pre + (seq![t] + r) =~= pre.push(t) + r);
        },
        None => {},
    }
}


/// The texts a literal token can leave the lexer with: a numeric run led by
/// a digit, or an alphanumeric run led by a letter that is no keyword.
pub open spec fn lexer_literal_text(p: Seq<char>) -> bool {
    ||| (p.len() >= 1 && is_digit(p[0]) && (forall|j: int|
        0 <= j < p.len() ==> is_num_char(#[trigger] p[j])))
    ||| (p.len() >= 1 && is_alpha(p[0]) && (forall|j: int|
        0 <= j < p.len() ==> is_alnum(#[trigger] p[j])) && keyword_type(p) is None)
}

/// Every character inside a counted run satisfies the run's character class.
proof fn lemma_num_run_chars(s: Seq<char>, j: int)
    requires
        0 <= j <= s.len(),
    ensures
        forall|k: int| j <= k < j + num_count(s, j) ==> is_num_char(#[trigger] s[k]),
    decreases s.len() - j,
{
    if j < s.len() && is_num_char(s[j]) {
        lemma_num_run_chars(s, j + 1);
    }
}

proof fn lemma_alnum_run_chars(s: Seq<char>, j: int)
    requires
        0 <= j <= s.len(),
    ensures
        forall|k: int| j <= k < j + alnum_count(s, j) ==> is_alnum(#[trigger] s[k]),
    decreases s.len() - j,
{
    if j < s.len() && is_alnum(s[j]) {
        lemma_alnum_run_chars(s, j + 1);
    }
}

/// A run over characters that all match covers the rest of the text.
proof fn lemma_num_count_full(s: Seq<char>, j: int)
    requires
        0 <= j <= s.len(),
        forall|k: int| j <= k < s.len() ==> is_num_char(#[trigger] s[k]),
    ensures
        num_count(s, j) == s.len() - j,
    decreases s.len() - j,
{
    if j < s.len() {
        lemma_num_count_full(s, j + 1);
    }
}

proof fn lemma_alnum_count_full(s: Seq<char>, j: int)
    requires
        0 <= j <= s.len(),
        forall|k: int| j <= k < s.len() ==> is_alnum(#[trigger] s[k]),
    ensures
        alnum_count(s, j) == s.len() - j,
    decreases s.len() - j,
{
    if j < s.len() {
        lemma_alnum_count_full(s, j + 1);
    }
}

/// Every literal token the lexer emits carries a payload of one of the
/// lexer's literal shapes.
pub open spec fn literals_shaped(ts: Seq<TokenModel>) -> bool {
    forall|j: int|
        0 <= j < ts.len() && (#[trigger] ts[j]).ty == TokenType::Literal ==> crate::token::is_literal(
            ts[j],
        ) && lexer_literal_text(crate::token::payload_of(ts[j]))
}

proof fn lemma_shaped_cons(t: TokenModel, rest: Seq<TokenModel>)
    requires
        literals_shaped(rest),
        t.ty == TokenType::Literal ==> crate::token::is_literal(t) && lexer_literal_text(
            crate::token::payload_of(t),
        ),
    ensures
        literals_shaped(seq![t] + rest),
{
    let whole = seq![t] + rest;
    assert forall|j: int|
        0 <= j < whole.len() && (#[trigger] whole[j]).ty == TokenType::Literal implies crate::token::is_literal(
        whole[j],
    ) && lexer_literal_text(crate::token::payload_of(whole[j])) by {
        if j == 0 {
            assert(whole[0] == t);
        } else {
            assert(whole[j] == rest[j - 1]);
        }
    }
}

/// Every literal the lexer produces has one of the literal shapes.
pub proof fn lemma_lex_literals_shaped(s: Seq<char>, i: int)
    requires
        spec_lex_from(s, i) is Some,
    ensures
        literals_shaped(spec_lex_from(s, i)->Some_0),
    decreases s.len() - i,
{
    if i < 0 || i >= s.len() {
        assert(literals_shaped(Seq::<TokenModel>::empty()));
    } else {
        let c = s[i];
        if c == ' ' {
            lemma_lex_literals_shaped(s, i + 1);
        } else if single_char_type(c) is Some {
            lemma_lex_literals_shaped(s, i + 1);
            let t = simple_model(single_char_type(c)->Some_0);
            lemma_shaped_cons(t, spec_lex_from(s, i + 1)->Some_0);
        } else if c == '>' || c == '<' {
            let two = i + 1 < s.len() && s[i + 1] == '=';
            let end = if two {
                i + 2
            } else {
                i + 1
            };
            lemma_lex_literals_shaped(s, end);
            lemma_shaped_cons(angle_token(c, two), spec_lex_from(s, end)->Some_0);
        } else if is_digit(c) {
            let end = i + 1 + num_count(s, i + 1);
            lemma_num_count_bound(s, i + 1);
            lemma_lex_literals_shaped(s, end);
            let run = s.subrange(i, end);
            lemma_num_run_chars(s, i + 1);
            assert forall|j: int| 0 <= j < run.len() implies is_num_char(#[trigger] run[j]) by {
                assert(run[j] == s[i + j]);
            }
            assert(run[0] == c);
            lemma_shaped_cons(literal_model(run), spec_lex_from(s, end)->Some_0);
        } else {
            let end = i + 1 + alnum_count(s, i + 1);
            lemma_alnum_count_bound(s, i + 1);
            lemma_lex_literals_shaped(s, end);
            let run = s.subrange(i, end);
            lemma_alnum_run_chars(s, i + 1);
            assert forall|j: int| 0 <= j < run.len() implies is_alnum(#[trigger] run[j]) by {
                assert(run[j] == s[i + j]);
            }
            assert(run[0] == c);
            let t = match keyword_type(run) {
                Some(ty) => simple_model(ty),
                None => literal_model(run),
            };
            assert(t.ty == TokenType::Literal ==> crate::token::is_literal(t)
                && lexer_literal_text(crate::token::payload_of(t)));
            lemma_shaped_cons(t, spec_lex_from(s, end)->Some_0);
        }
    }
}

/// Lexing a literal-shaped text yields exactly one literal token carrying
/// that text.
pub proof fn lemma_relex_text(p: Seq<char>)
    requires
        lexer_literal_text(p),
    ensures
        spec_tokenize(p) == Some(seq![literal_model(p)]),
{
    lemma_relex_text_scan(p);
    assert(quote_count(seq![literal_model(p)]) == 0) by {
        assert(seq![literal_model(p)].drop_last() =~= Seq::<TokenModel>::empty());
        assert(quote_count(Seq::<TokenModel>::empty()) == 0);
        assert(seq![literal_model(p)].last() == literal_model(p));
    }
}

/// The character scan of a literal-shaped text yields exactly one literal
/// token carrying that text.
proof fn lemma_relex_text_scan(p: Seq<char>)
    requires
        lexer_literal_text(p),
    ensures
        spec_lex_from(p, 0) == Some(seq![literal_model(p)]),
{
    let c = p[0];
    assert(spec_lex_from(p, p.len() as int) == Some(Seq::<TokenModel>::empty()));
    if p.len() >= 1 && is_digit(p[0]) && (forall|j: int|
        0 <= j < p.len() ==> is_num_char(#[trigger] p[j])) {
        assert(single_char_type(c) is None);
        lemma_num_count_full(p, 1);
        assert(p.subrange(0, p.len() as int) =~= p);
        assert(spec_lex_from(p, 0) == Some(seq![literal_model(p)] + Seq::<TokenModel>::empty()));
        assert(seq![literal_model(p)] + Seq::<TokenModel>::empty() =~= seq![literal_model(p)]);
    } else {
        assert(p.len() >= 1 && is_alpha(p[0]) && (forall|j: int|
            0 <= j < p.len() ==> is_alnum(#[trigger] p[j])) && keyword_type(p) is None);
        assert(single_char_type(c) is None);
        assert(!is_digit(c));
        assert(c != '>' && c != '<');
        lemma_alnum_count_full(p, 1);
        assert(p.subrange(0, p.len() as int) =~= p);
        assert(spec_lex_from(p, 0) == Some(seq![literal_model(p)] + Seq::<TokenModel>::empty()));
        assert(seq![literal_model(p)] + Seq::<TokenModel>::empty() =~= seq![literal_model(p)]);
    }
}

/// Lexing idempotence: take any literal token the lexer produced, print its
/// payload, and lex that text again — the result is exactly one equivalent
/// literal token.
pub proof fn lemma_relex_literal(src: Seq<char>, j: int)
    requires
        spec_tokenize(src) is Some,
        0 <= j < spec_tokenize(src)->Some_0.len(),
        spec_tokenize(src)->Some_0[j].ty == TokenType::Literal,
    ensures
        crate::token::is_literal(spec_tokenize(src)->Some_0[j]),
        spec_tokenize(crate::token::payload_of(spec_tokenize(src)->Some_0[j])) == Some(
            seq![spec_tokenize(src)->Some_0[j]],
        ),
{
    assert(spec_lex_from(src, 0) == Some(spec_tokenize(src)->Some_0));
    lemma_lex_literals_shaped(src, 0);
    let t = spec_tokenize(src)->Some_0[j];
    let p = crate::token::payload_of(t);
    lemma_relex_text(p);
    assert(t == literal_model(p));
}


} // verus!
