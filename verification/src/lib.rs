pub mod models;
pub mod props;
pub mod scanner;

pub use models::Expression;
pub use models::Fragment;
pub use models::Operator;
pub use models::ParseError;
pub use models::Program;
pub use models::Token;

use vstd::prelude::*;
use vstd::string::StringExecFns;

use crate::models::ExpressionModel;
use crate::models::FragmentModel;
use crate::models::ParseErrorModel;
use crate::models::TokenModel;
use crate::scanner::scan_model;

verus! {

// ---------------------------------------------------------------------------
// The expression grammar, as a mathematical function of the token sequence
// ---------------------------------------------------------------------------

/// The expression a literal token stands for, if it is a literal.
pub open spec fn literal_expression(t: TokenModel) -> Option<ExpressionModel> {
    match t {
        TokenModel::Identifier(s) => Some(ExpressionModel::Identifier(s)),
        TokenModel::Number(v) => Some(ExpressionModel::Number(v)),
        TokenModel::String(s) => Some(ExpressionModel::String(s)),
        _ => None,
    }
}

/// The tightest grammar level: exactly one literal token. Any other token,
/// or an exhausted stream, is the fatal failure of the whole parse.
pub open spec fn primary_model(ts: Seq<TokenModel>, i: int) -> Result<
    (ExpressionModel, int),
    ParseErrorModel,
> {
    if i < ts.len() {
        match literal_expression(ts[i]) {
            Some(e) => Ok((e, i + 1)),
            None => Err(ParseErrorModel::UnexpectedToken(ts[i])),
        }
    } else {
        Err(ParseErrorModel::UnexpectedEnd)
    }
}

/// A leading `!` or `+` applies to the unary expression after it.
pub open spec fn unary_model(ts: Seq<TokenModel>, i: int) -> Result<
    (ExpressionModel, int),
    ParseErrorModel,
>
    decreases ts.len() - i,
{
    if i < ts.len() && (ts[i] is Bang || ts[i] is Plus) {
        let op = if ts[i] is Plus {
            Operator::Plus
        } else {
            Operator::Bang
        };
        match unary_model(ts, i + 1) {
            Ok((e, j)) => Ok((ExpressionModel::Unary(op, Box::new(e)), j)),
            Err(er) => Err(er),
        }
    } else {
        primary_model(ts, i)
    }
}

pub proof fn lemma_unary_model_bounds(ts: Seq<TokenModel>, i: int)
    requires
        0 <= i <= ts.len(),
    ensures
        unary_model(ts, i) matches Ok(p) ==> i < p.1 <= ts.len(),
    decreases ts.len() - i,
{
    if i < ts.len() && (ts[i] is Bang || ts[i] is Plus) {
        lemma_unary_model_bounds(ts, i + 1);
    }
}

/// `*` and `/` bind unary operands, right-associatively.
pub open spec fn factor_model(ts: Seq<TokenModel>, i: int) -> Result<
    (ExpressionModel, int),
    ParseErrorModel,
>
    decreases ts.len() - i
        when 0 <= i <= ts.len()
{
    match unary_model(ts, i) {
        Ok((lhs, j)) => {
            proof {
                lemma_unary_model_bounds(ts, i);
            }
            if j < ts.len() && (ts[j] is Star || ts[j] is Slash) {
                let op = if ts[j] is Star {
                    Operator::Star
                } else {
                    Operator::Slash
                };
                match factor_model(ts, j + 1) {
                    Ok((rhs, k)) => Ok(
                        (ExpressionModel::Binary(Box::new(lhs), op, Box::new(rhs)), k),
                    ),
                    Err(er) => Err(er),
                }
            } else {
                Ok((lhs, j))
            }
        },
        Err(er) => Err(er),
    }
}

pub proof fn lemma_factor_model_bounds(ts: Seq<TokenModel>, i: int)
    requires
        0 <= i <= ts.len(),
    ensures
        factor_model(ts, i) matches Ok(p) ==> i < p.1 <= ts.len(),
    decreases ts.len() - i,
{
    lemma_unary_model_bounds(ts, i);
    match unary_model(ts, i) {
        Ok(p) => {
            if p.1 < ts.len() && (ts[p.1] is Star || ts[p.1] is Slash) {
                lemma_factor_model_bounds(ts, p.1 + 1);
            }
        },
        Err(_) => {},
    }
}

/// `+` and `-` bind factors, right-associatively.
pub open spec fn term_model(ts: Seq<TokenModel>, i: int) -> Result<
    (ExpressionModel, int),
    ParseErrorModel,
>
    decreases ts.len() - i
        when 0 <= i <= ts.len()
{
    match factor_model(ts, i) {
        Ok((lhs, j)) => {
            proof {
                lemma_factor_model_bounds(ts, i);
            }
            if j < ts.len() && (ts[j] is Plus || ts[j] is Minus) {
                let op = if ts[j] is Plus {
                    Operator::Plus
                } else {
                    Operator::Minus
                };
                match term_model(ts, j + 1) {
                    Ok((rhs, k)) => Ok(
                        (ExpressionModel::Binary(Box::new(lhs), op, Box::new(rhs)), k),
                    ),
                    Err(er) => Err(er),
                }
            } else {
                Ok((lhs, j))
            }
        },
        Err(er) => Err(er),
    }
}

pub proof fn lemma_term_model_bounds(ts: Seq<TokenModel>, i: int)
    requires
        0 <= i <= ts.len(),
    ensures
        term_model(ts, i) matches Ok(p) ==> i < p.1 <= ts.len(),
    decreases ts.len() - i,
{
    lemma_factor_model_bounds(ts, i);
    match factor_model(ts, i) {
        Ok(p) => {
            if p.1 < ts.len() && (ts[p.1] is Plus || ts[p.1] is Minus) {
                lemma_term_model_bounds(ts, p.1 + 1);
            }
        },
        Err(_) => {},
    }
}

/// `>`, `<`, `>=` and `<=` bind terms, right-associatively.
pub open spec fn comparison_model(ts: Seq<TokenModel>, i: int) -> Result<
    (ExpressionModel, int),
    ParseErrorModel,
>
    decreases ts.len() - i
        when 0 <= i <= ts.len()
{
    match term_model(ts, i) {
        Ok((lhs, j)) => {
            proof {
                lemma_term_model_bounds(ts, i);
            }
            if j < ts.len() && (ts[j] is Greater || ts[j] is Less || ts[j] is GreaterEqual || ts[j]
                is LessEqual) {
                let op = if ts[j] is Greater {
                    Operator::Greater
                } else if ts[j] is Less {
                    Operator::Less
                } else if ts[j] is GreaterEqual {
                    Operator::GreaterEqual
                } else {
                    Operator::LessEqual
                };
                match comparison_model(ts, j + 1) {
                    Ok((rhs, k)) => Ok(
                        (ExpressionModel::Binary(Box::new(lhs), op, Box::new(rhs)), k),
                    ),
                    Err(er) => Err(er),
                }
            } else {
                Ok((lhs, j))
            }
        },
        Err(er) => Err(er),
    }
}

pub proof fn lemma_comparison_model_bounds(ts: Seq<TokenModel>, i: int)
    requires
        0 <= i <= ts.len(),
    ensures
        comparison_model(ts, i) matches Ok(p) ==> i < p.1 <= ts.len(),
    decreases ts.len() - i,
{
    lemma_term_model_bounds(ts, i);
    match term_model(ts, i) {
        Ok(p) => {
            if p.1 < ts.len() && (ts[p.1] is Greater || ts[p.1] is Less || ts[p.1] is GreaterEqual
                || ts[p.1] is LessEqual) {
                lemma_comparison_model_bounds(ts, p.1 + 1);
            }
        },
        Err(_) => {},
    }
}

/// The loosest level: `==` and `!=` bind comparisons, right-associatively.
/// This is the whole expression grammar.
pub open spec fn equality_model(ts: Seq<TokenModel>, i: int) -> Result<
    (ExpressionModel, int),
    ParseErrorModel,
>
    decreases ts.len() - i
        when 0 <= i <= ts.len()
{
    match comparison_model(ts, i) {
        Ok((lhs, j)) => {
            proof {
                lemma_comparison_model_bounds(ts, i);
            }
            if j < ts.len() && (ts[j] is Equal || ts[j] is BangEqual) {
                let op = if ts[j] is Equal {
                    Operator::Equal
                } else {
                    Operator::BangEqual
                };
                match equality_model(ts, j + 1) {
                    Ok((rhs, k)) => Ok(
                        (ExpressionModel::Binary(Box::new(lhs), op, Box::new(rhs)), k),
                    ),
                    Err(er) => Err(er),
                }
            } else {
                Ok((lhs, j))
            }
        },
        Err(er) => Err(er),
    }
}

pub proof fn lemma_equality_model_bounds(ts: Seq<TokenModel>, i: int)
    requires
        0 <= i <= ts.len(),
    ensures
        equality_model(ts, i) matches Ok(p) ==> i < p.1 <= ts.len(),
    decreases ts.len() - i,
{
    lemma_comparison_model_bounds(ts, i);
    match comparison_model(ts, i) {
        Ok(p) => {
            if p.1 < ts.len() && (ts[p.1] is Equal || ts[p.1] is BangEqual) {
                lemma_equality_model_bounds(ts, p.1 + 1);
            }
        },
        Err(_) => {},
    }
}

// ---------------------------------------------------------------------------
// The fragment grammar, as a mathematical function of the token sequence
// ---------------------------------------------------------------------------

/// A run of `n` spaces, the text a `Space` token expands to.
pub open spec fn spaces(n: int) -> Seq<char>
    decreases n,
{
    if n <= 0 {
        Seq::empty()
    } else {
        spaces(n - 1).push(' ')
    }
}

/// Puts a fragment before the fragments of `rest`, unless `rest` failed.
pub open spec fn prepend_fragment(f: FragmentModel, rest: Result<Seq<FragmentModel>, ParseErrorModel>) -> Result<
    Seq<FragmentModel>,
    ParseErrorModel,
> {
    match rest {
        Ok(fs) => Ok(seq![f] + fs),
        Err(e) => Err(e),
    }
}

/// The fragment grammar from position `i` to the end of the tokens:
/// `Text`, `Space` and `NewLine` become literal-text fragments; a
/// `DelimiterLeft` is followed by one expression, which becomes a `Tag`
/// fragment, and then by exactly one more token that is consumed without
/// being examined, as the assumed closing delimiter; every other token is
/// consumed and discarded. The one failure is the expression grammar's.
pub open spec fn fragments_parse_model(ts: Seq<TokenModel>, i: int) -> Result<
    Seq<FragmentModel>,
    ParseErrorModel,
>
    decreases (if i <= ts.len() { ts.len() - i } else { 0 })
        when 0 <= i
{
    if i >= ts.len() {
        Ok(Seq::empty())
    } else {
        match ts[i] {
            TokenModel::Text(t) => prepend_fragment(
                FragmentModel::Text(t),
                fragments_parse_model(ts, i + 1),
            ),
            TokenModel::Space(n) => prepend_fragment(
                FragmentModel::Text(spaces(n)),
                fragments_parse_model(ts, i + 1),
            ),
            TokenModel::NewLine => prepend_fragment(
                FragmentModel::Text(seq!['\n']),
                fragments_parse_model(ts, i + 1),
            ),
            TokenModel::DelimiterLeft => match equality_model(ts, i + 1) {
                Ok((e, j)) => {
                    proof {
                        lemma_equality_model_bounds(ts, i + 1);
                    }
                    prepend_fragment(FragmentModel::Tag(e), fragments_parse_model(ts, j + 1))
                },
                Err(er) => Err(er),
            },
            _ => fragments_parse_model(ts, i + 1),
        }
    }
}

/// The whole front end as one mathematical function: the fragments of the
/// scanned source, or the error on which the parse stopped.
pub open spec fn parse_model(s: Seq<char>) -> Result<Seq<FragmentModel>, ParseErrorModel> {
    fragments_parse_model(scan_model(s), 0)
}

// ---------------------------------------------------------------------------
// The parser
// ---------------------------------------------------------------------------

/// A copy of a token with the same mathematical image.
fn clone_token(t: &Token) -> (r: Token)
    ensures
        r@ == t@,
{
    match t {
        Token::Text(s) => Token::Text(s.clone()),
        Token::Space(n) => Token::Space(*n),
        Token::NewLine => Token::NewLine,
        Token::Identifier(s) => Token::Identifier(s.clone()),
        Token::Number(n) => Token::Number(*n),
        Token::String(s) => Token::String(s.clone()),
        Token::DelimiterLeft => Token::DelimiterLeft,
        Token::DelimiterRight => Token::DelimiterRight,
        Token::Dot => Token::Dot,
        Token::Plus => Token::Plus,
        Token::Minus => Token::Minus,
        Token::Star => Token::Star,
        Token::Slash => Token::Slash,
        Token::Hash => Token::Hash,
        Token::Colon => Token::Colon,
        Token::Bang => Token::Bang,
        Token::Equal => Token::Equal,
        Token::BangEqual => Token::BangEqual,
        Token::Greater => Token::Greater,
        Token::GreaterEqual => Token::GreaterEqual,
        Token::Less => Token::Less,
        Token::LessEqual => Token::LessEqual,
        Token::ForOpen => Token::ForOpen,
        Token::ForClose => Token::ForClose,
        Token::IfOpen => Token::IfOpen,
        Token::Else => Token::Else,
        Token::IfClose => Token::IfClose,
    }
}

/// Parses the one literal token at `pos`, exactly as `primary_model`
/// describes it.
fn parse_primary(tokens: &Vec<Token>, pos: usize) -> (r: Result<(Expression, usize), ParseError>)
    requires
        pos <= tokens@.len(),
    ensures
        ({
            let m = primary_model(tokens.deep_view(), pos as int);
            match r {
                Ok((e, np)) => m == Ok::<(ExpressionModel, int), ParseErrorModel>(
                    (e.deep_view(), np as int),
                ) && pos < np <= tokens@.len(),
                Err(er) => m == Err::<(ExpressionModel, int), ParseErrorModel>(er.deep_view()),
            }
        }),
{
    proof {
        assert(tokens.deep_view().len() == tokens@.len());
    }
    if pos < tokens.len() {
        let t = &tokens[pos];
        proof {
            assert(tokens.deep_view()[pos as int] == tokens@[pos as int].deep_view());
        }
        match t {
            Token::Identifier(name) => Ok((Expression::Identifier(name.clone()), pos + 1)),
            Token::Number(value) => Ok((Expression::Number(*value), pos + 1)),
            Token::String(value) => Ok((Expression::String(value.clone()), pos + 1)),
            _ => Err(ParseError::UnexpectedToken(clone_token(t))),
        }
    } else {
        Err(ParseError::UnexpectedEnd)
    }
}

/// Parses a unary expression at `pos`, exactly as `unary_model`
/// describes it.
fn parse_unary(tokens: &Vec<Token>, pos: usize) -> (r: Result<(Expression, usize), ParseError>)
    requires
        pos <= tokens@.len(),
    ensures
        ({
            let m = unary_model(tokens.deep_view(), pos as int);
            match r {
                Ok((e, np)) => m == Ok::<(ExpressionModel, int), ParseErrorModel>(
                    (e.deep_view(), np as int),
                ) && pos < np <= tokens@.len(),
                Err(er) => m == Err::<(ExpressionModel, int), ParseErrorModel>(er.deep_view()),
            }
        }),
    decreases tokens@.len() - pos,
{
    proof {
        assert(tokens.deep_view().len() == tokens@.len());
        if pos < tokens@.len() {
            assert(tokens.deep_view()[pos as int] == tokens@[pos as int].deep_view());
        }
    }
    if pos < tokens.len() && matches!(&tokens[pos], Token::Bang | Token::Plus) {
        let op = if matches!(&tokens[pos], Token::Plus) {
            Operator::Plus
        } else {
            Operator::Bang
        };
        match parse_unary(tokens, pos + 1) {
            Ok((e, np)) => Ok((Expression::Unary(op, Box::new(e)), np)),
            Err(er) => Err(er),
        }
    } else {
        parse_primary(tokens, pos)
    }
}

/// Parses a factor at `pos`, exactly as `factor_model` describes it.
fn parse_factor(tokens: &Vec<Token>, pos: usize) -> (r: Result<(Expression, usize), ParseError>)
    requires
        pos <= tokens@.len(),
    ensures
        ({
            let m = factor_model(tokens.deep_view(), pos as int);
            match r {
                Ok((e, np)) => m == Ok::<(ExpressionModel, int), ParseErrorModel>(
                    (e.deep_view(), np as int),
                ) && pos < np <= tokens@.len(),
                Err(er) => m == Err::<(ExpressionModel, int), ParseErrorModel>(er.deep_view()),
            }
        }),
    decreases tokens@.len() - pos,
{
    match parse_unary(tokens, pos) {
        Ok((lhs, j)) => {
            proof {
                assert(j < tokens@.len() ==> tokens.deep_view()[j as int] == tokens@[
                    j as int
                ].deep_view());
            }
            if j < tokens.len() && matches!(&tokens[j], Token::Star | Token::Slash) {
                let op = if matches!(&tokens[j], Token::Star) {
                    Operator::Star
                } else {
                    Operator::Slash
                };
                match parse_factor(tokens, j + 1) {
                    Ok((rhs, k)) => Ok(
                        (Expression::Binary(Box::new(lhs), op, Box::new(rhs)), k),
                    ),
                    Err(er) => Err(er),
                }
            } else {
                Ok((lhs, j))
            }
        },
        Err(er) => Err(er),
    }
}

/// Parses a term at `pos`, exactly as `term_model` describes it.
fn parse_term(tokens: &Vec<Token>, pos: usize) -> (r: Result<(Expression, usize), ParseError>)
    requires
        pos <= tokens@.len(),
    ensures
        ({
            let m = term_model(tokens.deep_view(), pos as int);
            match r {
                Ok((e, np)) => m == Ok::<(ExpressionModel, int), ParseErrorModel>(
                    (e.deep_view(), np as int),
                ) && pos < np <= tokens@.len(),
                Err(er) => m == Err::<(ExpressionModel, int), ParseErrorModel>(er.deep_view()),
            }
        }),
    decreases tokens@.len() - pos,
{
    match parse_factor(tokens, pos) {
        Ok((lhs, j)) => {
            proof {
                assert(j < tokens@.len() ==> tokens.deep_view()[j as int] == tokens@[j as int].deep_view());
            }
            if j < tokens.len() && matches!(&tokens[j], Token::Plus | Token::Minus) {
                let op = if matches!(&tokens[j], Token::Plus) {
                    Operator::Plus
                } else {
                    Operator::Minus
                };
                match parse_term(tokens, j + 1) {
                    Ok((rhs, k)) => Ok(
                        (Expression::Binary(Box::new(lhs), op, Box::new(rhs)), k),
                    ),
                    Err(er) => Err(er),
                }
            } else {
                Ok((lhs, j))
            }
        },
        Err(er) => Err(er),
    }
}

/// Parses a comparison at `pos`, exactly as `comparison_model`
/// describes it.
fn parse_comparison(tokens: &Vec<Token>, pos: usize) -> (r: Result<
    (Expression, usize),
    ParseError,
>)
    requires
        pos <= tokens@.len(),
    ensures
        ({
            let m = comparison_model(tokens.deep_view(), pos as int);
            match r {
                Ok((e, np)) => m == Ok::<(ExpressionModel, int), ParseErrorModel>(
                    (e.deep_view(), np as int),
                ) && pos < np <= tokens@.len(),
                Err(er) => m == Err::<(ExpressionModel, int), ParseErrorModel>(er.deep_view()),
            }
        }),
    decreases tokens@.len() - pos,
{
    match parse_term(tokens, pos) {
        Ok((lhs, j)) => {
            proof {
                assert(j < tokens@.len() ==> tokens.deep_view()[j as int] == tokens@[j as int].deep_view());
            }
            if j < tokens.len() && matches!(
                &tokens[j],
                Token::Greater | Token::Less | Token::GreaterEqual | Token::LessEqual,
            ) {
                let op = if matches!(&tokens[j], Token::Greater) {
                    Operator::Greater
                } else if matches!(&tokens[j], Token::Less) {
                    Operator::Less
                } else if matches!(&tokens[j], Token::GreaterEqual) {
                    Operator::GreaterEqual
                } else {
                    Operator::LessEqual
                };
                match parse_comparison(tokens, j + 1) {
                    Ok((rhs, k)) => Ok(
                        (Expression::Binary(Box::new(lhs), op, Box::new(rhs)), k),
                    ),
                    Err(er) => Err(er),
                }
            } else {
                Ok((lhs, j))
            }
        },
        Err(er) => Err(er),
    }
}

/// Parses an equality at `pos`, exactly as `equality_model` describes it.
fn parse_equality(tokens: &Vec<Token>, pos: usize) -> (r: Result<(Expression, usize), ParseError>)
    requires
        pos <= tokens@.len(),
    ensures
        ({
            let m = equality_model(tokens.deep_view(), pos as int);
            match r {
                Ok((e, np)) => m == Ok::<(ExpressionModel, int), ParseErrorModel>(
                    (e.deep_view(), np as int),
                ) && pos < np <= tokens@.len(),
                Err(er) => m == Err::<(ExpressionModel, int), ParseErrorModel>(er.deep_view()),
            }
        }),
    decreases tokens@.len() - pos,
{
    match parse_comparison(tokens, pos) {
        Ok((lhs, j)) => {
            proof {
                assert(j < tokens@.len() ==> tokens.deep_view()[j as int] == tokens@[j as int].deep_view());
            }
            if j < tokens.len() && matches!(&tokens[j], Token::Equal | Token::BangEqual) {
                let op = if matches!(&tokens[j], Token::Equal) {
                    Operator::Equal
                } else {
                    Operator::BangEqual
                };
                match parse_equality(tokens, j + 1) {
                    Ok((rhs, k)) => Ok(
                        (Expression::Binary(Box::new(lhs), op, Box::new(rhs)), k),
                    ),
                    Err(er) => Err(er),
                }
            } else {
                Ok((lhs, j))
            }
        },
        Err(er) => Err(er),
    }
}

/// Parses one whole expression at `pos`: the loosest grammar level.
pub fn parse_expression(tokens: &Vec<Token>, pos: usize) -> (r: Result<
    (Expression, usize),
    ParseError,
>)
    requires
        pos <= tokens@.len(),
    ensures
        ({
            let m = equality_model(tokens.deep_view(), pos as int);
            match r {
                Ok((e, np)) => m == Ok::<(ExpressionModel, int), ParseErrorModel>(
                    (e.deep_view(), np as int),
                ) && pos < np <= tokens@.len(),
                Err(er) => m == Err::<(ExpressionModel, int), ParseErrorModel>(er.deep_view()),
            }
        }),
{
    parse_equality(tokens, pos)
}

/// A string of `n` spaces (none, when `n` is not positive).
fn spaces_string(n: i32) -> (r: String)
    ensures
        r@ == spaces(n as int),
{
    let mut s = String::new();
    let mut k: i32 = 0;
    while k < n
        invariant
            0 <= k,
            n > 0 ==> k <= n,
            n <= 0 ==> k == 0,
            s@ == spaces(k as int),
        decreases n - k,
    {
        s.append(" ");
        proof {
            reveal_strlit(" ");
            assert(s@ =~= spaces(k as int).push(' '));
        }
        k = k + 1;
    }
    s
}

/// The one-character string a `NewLine` token expands to.
fn newline_string() -> (r: String)
    ensures
        r@ == seq!['\n'],
{
    proof {
        reveal_strlit("\n");
    }
    let s = String::from_str("\n");
    proof {
        assert(s@ =~= seq!['\n']);
    }
    s
}

/// Walks the tokens from `pos` to the end and collects fragments, exactly
/// as `fragments_parse_model` describes it.
pub fn parse_fragments(tokens: &Vec<Token>, pos: usize) -> (r: Result<Vec<Fragment>, ParseError>)
    requires
        pos <= tokens@.len(),
    ensures
        ({
            let m = fragments_parse_model(tokens.deep_view(), pos as int);
            match r {
                Ok(fs) => m == Ok::<Seq<FragmentModel>, ParseErrorModel>(fs.deep_view()),
                Err(er) => m == Err::<Seq<FragmentModel>, ParseErrorModel>(er.deep_view()),
            }
        }),
{
    let n = tokens.len();
    let mut acc: Vec<Fragment> = Vec::new();
    let mut cur = pos;
    proof {
        assert(tokens.deep_view().len() == tokens@.len());
        match fragments_parse_model(tokens.deep_view(), cur as int) {
            Ok(rest) => {
                assert(acc.deep_view() + rest =~= rest);
            },
            Err(_) => {},
        }
    }
    while cur < n
        invariant
            pos <= cur <= n,
            n == tokens@.len(),
            tokens.deep_view().len() == tokens@.len(),
            ({
                let dv = tokens.deep_view();
                match fragments_parse_model(dv, cur as int) {
                    Ok(rest) => fragments_parse_model(dv, pos as int) == Ok::<
                        Seq<FragmentModel>,
                        ParseErrorModel,
                    >(acc.deep_view() + rest),
                    Err(e) => fragments_parse_model(dv, pos as int) == Err::<
                        Seq<FragmentModel>,
                        ParseErrorModel,
                    >(e),
                }
            }),
        decreases n - cur,
    {
        let ghost dv = tokens.deep_view();
        let ghost accpre = acc.deep_view();
        proof {
            assert(dv[cur as int] == tokens@[cur as int].deep_view());
        }
        let t = &tokens[cur];
        match t {
            Token::Text(text) => {
                acc.push(Fragment::Text(text.clone()));
                proof {
                    let f = FragmentModel::Text(text@);
                    assert(acc.deep_view() =~= accpre + seq![f]);
                    match fragments_parse_model(dv, cur + 1) {
                        Ok(rest2) => {
                            assert(accpre + (seq![f] + rest2) =~= (accpre + seq![f]) + rest2);
                        },
                        Err(_) => {},
                    }
                }
                cur = cur + 1;
            },
            Token::Space(amount) => {
                acc.push(Fragment::Text(spaces_string(*amount)));
                proof {
                    let f = FragmentModel::Text(spaces(*amount as int));
                    assert(acc.deep_view() =~= accpre + seq![f]);
                    match fragments_parse_model(dv, cur + 1) {
                        Ok(rest2) => {
                            assert(accpre + (seq![f] + rest2) =~= (accpre + seq![f]) + rest2);
                        },
                        Err(_) => {},
                    }
                }
                cur = cur + 1;
            },
            Token::NewLine => {
                acc.push(Fragment::Text(newline_string()));
                proof {
                    let f = FragmentModel::Text(seq!['\n']);
                    assert(acc.deep_view() =~= accpre + seq![f]);
                    match fragments_parse_model(dv, cur + 1) {
                        Ok(rest2) => {
                            assert(accpre + (seq![f] + rest2) =~= (accpre + seq![f]) + rest2);
                        },
                        Err(_) => {},
                    }
                }
                cur = cur + 1;
            },
            Token::DelimiterLeft => {
                match parse_expression(tokens, cur + 1) {
                    Ok((e, j)) => {
                        let ghost ev = e.deep_view();
                        acc.push(Fragment::Tag(e));
                        proof {
                            lemma_equality_model_bounds(dv, cur + 1);
                            let f = FragmentModel::Tag(ev);
                            assert(acc.deep_view() =~= accpre + seq![f]);
                            match fragments_parse_model(dv, j + 1) {
                                Ok(rest2) => {
                                    assert(accpre + (seq![f] + rest2) =~= (accpre + seq![f])
                                        + rest2);
                                },
                                Err(_) => {},
                            }
                            if j + 1 > n {
                                assert(fragments_parse_model(dv, j + 1) == Ok::<
                                    Seq<FragmentModel>,
                                    ParseErrorModel,
                                >(Seq::empty()));
                                assert(fragments_parse_model(dv, n as int) == Ok::<
                                    Seq<FragmentModel>,
                                    ParseErrorModel,
                                >(Seq::empty()));
                            }
                        }
                        cur = if j < n {
                            j + 1
                        } else {
                            n
                        };
                    },
                    Err(er) => {
                        return Err(er);
                    },
                }
            },
            _ => {
                proof {
                    assert(fragments_parse_model(dv, cur as int) == fragments_parse_model(
                        dv,
                        cur + 1,
                    ));
                }
                cur = cur + 1;
            },
        }
    }
    proof {
        let dv = tokens.deep_view();
        assert(fragments_parse_model(dv, cur as int) == Ok::<Seq<FragmentModel>, ParseErrorModel>(
            Seq::empty(),
        ));
        assert(acc.deep_view() + Seq::<FragmentModel>::empty() =~= acc.deep_view());
    }
    Ok(acc)
}

/// Scans and parses the whole source text: its fragments in order, or the
/// error on which the expression grammar stopped — exactly the result of
/// `parse_model`, with no partial program on failure. The length bound is
/// the scanner's: a `Space` token records its run length in an `i32`.
pub fn parse(source: &str) -> (r: Result<Program, ParseError>)
    requires
        source@.len() <= i32::MAX as int,
    ensures
        ({
            let m = parse_model(source@);
            match r {
                Ok(p) => m == Ok::<Seq<FragmentModel>, ParseErrorModel>(p.deep_view()),
                Err(er) => m == Err::<Seq<FragmentModel>, ParseErrorModel>(er.deep_view()),
            }
        }),
{
    let tokens = crate::scanner::scan(source);
    match parse_fragments(&tokens, 0) {
        Ok(fragments) => Ok(Program { fragments }),
        Err(er) => Err(er),
    }
}

} // verus!
