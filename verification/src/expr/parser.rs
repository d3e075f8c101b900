//! The grammar of expressions, by recursive descent.
//!
//! From the loosest to the tightest: the conditional `a if c else b`, `or`, `and`, `not`,
//! comparisons and tests, `+ -`, `~`, `* / // %`, `**`, signs, filters, subscripts and
//! attributes, and what stands alone.

use vstd::prelude::*;
use crate::expr::ast::{asts, lemma_asts_push, opt_ast, Ast, AstView, BinOp, CompareOp};
use crate::expr::token::{mark_name, mark_text, names_from, token_names, tokenize, tokens_from, toks, Mark, Tok, TokView};
use crate::text::{join3, same};
use crate::value::{float_text, float_view, int_value, read_float, Number, Value, ValueView};

verus! {

/// What a production gives: an expression and where it ends, or what is wrong.
pub type Parsed = Result<(AstView, int), Seq<char>>;

/// A production that went forward; one that did not is an error without words. (None of
/// those below stands still.)
pub open spec fn forward(r: Parsed, p: int, n: nat) -> Parsed {
    match r {
        Ok((a, q)) => if p < q <= n {
            r
        } else {
            Err(Seq::empty())
        },
        Err(e) => Err(e),
    }
}

/// The mark `m` stands at `p`.
pub open spec fn at_mark(t: Seq<TokView>, p: int, m: Mark) -> bool {
    0 <= p < t.len() && t[p] == TokView::Mark(m)
}

/// The word `w` stands at `p`.
pub open spec fn at_word(t: Seq<TokView>, p: int, w: Seq<char>) -> bool {
    0 <= p < t.len() && t[p] == TokView::Ident(w)
}

/// The names of the filters there are.
pub open spec fn known_filter(n: Seq<char>) -> bool {
    ||| n == "lower"@
    ||| n == "upper"@
    ||| n == "string"@
    ||| n == "int"@
    ||| n == "float"@
    ||| n == "bool"@
    ||| n == "default"@
    ||| n == "d"@
    ||| n == "replace"@
    ||| n == "regex_replace"@
    ||| n == "trim"@
    ||| n == "capitalize"@
    ||| n == "length"@
    ||| n == "count"@
    ||| n == "first"@
    ||| n == "last"@
    ||| n == "join"@
    ||| n == "abs"@
    ||| n == "ternary"@
}

/// `or_test ["if" or_test ["else" conditional]]`.
pub open spec fn p_ternary(t: Seq<TokView>, p: int) -> Parsed
    decreases t.len() - p, 24nat,
{
    match forward(c_or(t, p), p, t.len()) {
        Err(e) => Err(e),
        Ok((body, q)) => if at_word(t, q, "if"@) {
            match forward(c_or(t, q + 1), q + 1, t.len()) {
                Err(e) => Err(e),
                Ok((cond, r)) => if at_word(t, r, "else"@) {
                    match c_ternary(t, r + 1) {
                        Err(e) => Err(e),
                        Ok((other, s)) => Ok(
                            (
                                AstView::Cond(
                                    Box::new(cond),
                                    Box::new(body),
                                    Some(Box::new(other)),
                                ),
                                s,
                            ),
                        ),
                    }
                } else {
                    Ok((AstView::Cond(Box::new(cond), Box::new(body), None), r))
                },
            }
        } else {
            Ok((body, q))
        },
    }
}

/// `and_test {"or" and_test}`.
pub open spec fn p_or(t: Seq<TokView>, p: int) -> Parsed
    decreases t.len() - p, 22nat,
{
    match forward(c_and(t, p), p, t.len()) {
        Err(e) => Err(e),
        Ok((left, q)) => p_or_rest(t, left, q),
    }
}

pub open spec fn p_or_rest(t: Seq<TokView>, left: AstView, p: int) -> Parsed
    decreases t.len() - p, 22nat,
{
    if at_word(t, p, "or"@) {
        match forward(c_and(t, p + 1), p + 1, t.len()) {
            Err(e) => Err(e),
            Ok((right, q)) => p_or_rest(t, AstView::Or(Box::new(left), Box::new(right)), q),
        }
    } else {
        Ok((left, p))
    }
}

/// `not_test {"and" not_test}`.
pub open spec fn p_and(t: Seq<TokView>, p: int) -> Parsed
    decreases t.len() - p, 20nat,
{
    match forward(c_not(t, p), p, t.len()) {
        Err(e) => Err(e),
        Ok((left, q)) => p_and_rest(t, left, q),
    }
}

pub open spec fn p_and_rest(t: Seq<TokView>, left: AstView, p: int) -> Parsed
    decreases t.len() - p, 20nat,
{
    if at_word(t, p, "and"@) {
        match forward(c_not(t, p + 1), p + 1, t.len()) {
            Err(e) => Err(e),
            Ok((right, q)) => p_and_rest(t, AstView::And(Box::new(left), Box::new(right)), q),
        }
    } else {
        Ok((left, p))
    }
}

/// `"not" not_test | comparison`.
pub open spec fn p_not(t: Seq<TokView>, p: int) -> Parsed
    decreases t.len() - p, 18nat,
{
    if at_word(t, p, "not"@) {
        match c_not(t, p + 1) {
            Err(e) => Err(e),
            Ok((a, q)) => Ok((AstView::Not(Box::new(a)), q)),
        }
    } else {
        c_comparison(t, p)
    }
}

/// The comparison that a mark stands for.
pub open spec fn compare_mark(t: Seq<TokView>, p: int) -> Option<CompareOp> {
    if at_mark(t, p, Mark::Eq) {
        Some(CompareOp::Eq)
    } else if at_mark(t, p, Mark::Ne) {
        Some(CompareOp::Ne)
    } else if at_mark(t, p, Mark::Lt) {
        Some(CompareOp::Lt)
    } else if at_mark(t, p, Mark::Le) {
        Some(CompareOp::Le)
    } else if at_mark(t, p, Mark::Gt) {
        Some(CompareOp::Gt)
    } else if at_mark(t, p, Mark::Ge) {
        Some(CompareOp::Ge)
    } else {
        None
    }
}

/// `sum ["is" ["not"] ("defined" | "undefined") | ["not"] "in" sum | operator sum]`.
pub open spec fn p_comparison(t: Seq<TokView>, p: int) -> Parsed
    decreases t.len() - p, 16nat,
{
    match forward(c_addsub(t, p), p, t.len()) {
        Err(e) => Err(e),
        Ok((left, q)) => if at_word(t, q, "is"@) {
            let negated = at_word(t, q + 1, "not"@);
            let r = if negated {
                q + 2
            } else {
                q + 1
            };
            if at_word(t, r, "defined"@) {
                Ok((AstView::Defined(Box::new(left), negated), r + 1))
            } else if at_word(t, r, "undefined"@) {
                Ok((AstView::Defined(Box::new(left), !negated), r + 1))
            } else {
                Err("only `is [not] defined` / `is undefined` tests are supported"@)
            }
        } else if at_word(t, q, "not"@) && at_word(t, q + 1, "in"@) {
            match c_addsub(t, q + 2) {
                Err(e) => Err(e),
                Ok((right, r)) => Ok((AstView::In(Box::new(left), Box::new(right), true), r)),
            }
        } else if at_word(t, q, "in"@) {
            match c_addsub(t, q + 1) {
                Err(e) => Err(e),
                Ok((right, r)) => Ok((AstView::In(Box::new(left), Box::new(right), false), r)),
            }
        } else {
            match compare_mark(t, q) {
                None => Ok((left, q)),
                Some(op) => match c_addsub(t, q + 1) {
                    Err(e) => Err(e),
                    Ok((right, r)) => Ok(
                        (AstView::Compare(Box::new(left), op, Box::new(right)), r),
                    ),
                },
            }
        },
    }
}

/// `concatenation {("+" | "-") concatenation}`.
pub open spec fn p_addsub(t: Seq<TokView>, p: int) -> Parsed
    decreases t.len() - p, 14nat,
{
    match forward(c_concat(t, p), p, t.len()) {
        Err(e) => Err(e),
        Ok((left, q)) => p_addsub_rest(t, left, q),
    }
}

pub open spec fn p_addsub_rest(t: Seq<TokView>, left: AstView, p: int) -> Parsed
    decreases t.len() - p, 14nat,
{
    if at_mark(t, p, Mark::Plus) || at_mark(t, p, Mark::Minus) {
        let op = if at_mark(t, p, Mark::Plus) {
            BinOp::Add
        } else {
            BinOp::Sub
        };
        match forward(c_concat(t, p + 1), p + 1, t.len()) {
            Err(e) => Err(e),
            Ok((right, q)) => p_addsub_rest(
                t,
                AstView::Bin(op, Box::new(left), Box::new(right)),
                q,
            ),
        }
    } else {
        Ok((left, p))
    }
}

/// `product {"~" product}`.
pub open spec fn p_concat(t: Seq<TokView>, p: int) -> Parsed
    decreases t.len() - p, 12nat,
{
    match forward(c_muldiv(t, p), p, t.len()) {
        Err(e) => Err(e),
        Ok((left, q)) => p_concat_rest(t, left, q),
    }
}

pub open spec fn p_concat_rest(t: Seq<TokView>, left: AstView, p: int) -> Parsed
    decreases t.len() - p, 12nat,
{
    if at_mark(t, p, Mark::Tilde) {
        match forward(c_muldiv(t, p + 1), p + 1, t.len()) {
            Err(e) => Err(e),
            Ok((right, q)) => p_concat_rest(
                t,
                AstView::Bin(BinOp::Concat, Box::new(left), Box::new(right)),
                q,
            ),
        }
    } else {
        Ok((left, p))
    }
}

/// The operator of a product.
pub open spec fn product_mark(t: Seq<TokView>, p: int) -> Option<BinOp> {
    if at_mark(t, p, Mark::Star) {
        Some(BinOp::Mul)
    } else if at_mark(t, p, Mark::Slash) {
        Some(BinOp::Div)
    } else if at_mark(t, p, Mark::SlashSlash) {
        Some(BinOp::FloorDiv)
    } else if at_mark(t, p, Mark::Percent) {
        Some(BinOp::Mod)
    } else {
        None
    }
}

/// `power {("*" | "/" | "//" | "%") power}`.
pub open spec fn p_muldiv(t: Seq<TokView>, p: int) -> Parsed
    decreases t.len() - p, 10nat,
{
    match forward(c_pow(t, p), p, t.len()) {
        Err(e) => Err(e),
        Ok((left, q)) => p_muldiv_rest(t, left, q),
    }
}

pub open spec fn p_muldiv_rest(t: Seq<TokView>, left: AstView, p: int) -> Parsed
    decreases t.len() - p, 10nat,
{
    match product_mark(t, p) {
        Some(op) => match forward(c_pow(t, p + 1), p + 1, t.len()) {
            Err(e) => Err(e),
            Ok((right, q)) => p_muldiv_rest(
                t,
                AstView::Bin(op, Box::new(left), Box::new(right)),
                q,
            ),
        },
        None => Ok((left, p)),
    }
}

/// `sign ["**" power]`.
pub open spec fn p_pow(t: Seq<TokView>, p: int) -> Parsed
    decreases t.len() - p, 8nat,
{
    match forward(c_unary(t, p), p, t.len()) {
        Err(e) => Err(e),
        Ok((left, q)) => if at_mark(t, q, Mark::StarStar) {
            match c_pow(t, q + 1) {
                Err(e) => Err(e),
                Ok((right, r)) => Ok(
                    (AstView::Bin(BinOp::Pow, Box::new(left), Box::new(right)), r),
                ),
            }
        } else {
            Ok((left, q))
        },
    }
}

/// `"-" sign | "+" sign | filtered`.
pub open spec fn p_unary(t: Seq<TokView>, p: int) -> Parsed
    decreases t.len() - p, 6nat,
{
    if at_mark(t, p, Mark::Minus) {
        match c_unary(t, p + 1) {
            Err(e) => Err(e),
            Ok((a, q)) => Ok((AstView::Neg(Box::new(a)), q)),
        }
    } else if at_mark(t, p, Mark::Plus) {
        c_unary(t, p + 1)
    } else {
        c_filter(t, p)
    }
}

/// `postfix {"|" name ["(" [conditional {"," conditional}] ")"]}`.
pub open spec fn p_filter(t: Seq<TokView>, p: int) -> Parsed
    decreases t.len() - p, 4nat,
{
    match forward(c_postfix(t, p), p, t.len()) {
        Err(e) => Err(e),
        Ok((e, q)) => p_filter_rest(t, e, q),
    }
}

pub open spec fn p_filter_rest(t: Seq<TokView>, e: AstView, p: int) -> Parsed
    decreases t.len() - p, 4nat,
{
    if at_mark(t, p, Mark::Pipe) {
        if p + 1 >= t.len() || !(t[p + 1] is Ident) {
            Err("expected filter name after `|`"@)
        } else {
            let name = t[p + 1]->Ident_0;
            if !known_filter(name) {
                Err("unsupported filter `"@ + name + "`"@)
            } else if at_mark(t, p + 2, Mark::LParen) {
                match c_args(t, p + 3) {
                    Err(e) => Err(e),
                    Ok((args, q)) => if p < q < t.len() && at_mark(t, q, Mark::RParen) {
                        p_filter_rest(t, AstView::Filter(Box::new(e), name, args), q + 1)
                    } else {
                        Err("expected `)` after filter args"@)
                    },
                }
            } else {
                p_filter_rest(t, AstView::Filter(Box::new(e), name, Seq::empty()), p + 2)
            }
        }
    } else {
        Ok((e, p))
    }
}

/// The arguments of a filter: none before a closing parenthesis, else conditionals
/// separated by commas.
pub open spec fn p_args(t: Seq<TokView>, p: int) -> Result<(Seq<AstView>, int), Seq<char>>
    decreases t.len() - p, 28nat,
{
    if at_mark(t, p, Mark::RParen) {
        Ok((Seq::empty(), p))
    } else {
        p_arg_list(t, p)
    }
}

pub open spec fn p_arg_list(t: Seq<TokView>, p: int) -> Result<(Seq<AstView>, int), Seq<char>>
    decreases t.len() - p, 26nat,
{
    match forward(c_ternary(t, p), p, t.len()) {
        Err(e) => Err(e),
        Ok((a, q)) => if at_mark(t, q, Mark::Comma) {
            match p_arg_list(t, q + 1) {
                Err(e) => Err(e),
                Ok((more, r)) => Ok((seq![a] + more, r)),
            }
        } else {
            Ok((seq![a], q))
        },
    }
}

/// `primary {"." name | "[" subscript "]"}`.
pub open spec fn p_postfix(t: Seq<TokView>, p: int) -> Parsed
    decreases t.len() - p, 2nat,
{
    match forward(c_primary(t, p), p, t.len()) {
        Err(e) => Err(e),
        Ok((e, q)) => p_postfix_rest(t, e, q),
    }
}

pub open spec fn p_postfix_rest(t: Seq<TokView>, e: AstView, p: int) -> Parsed
    decreases t.len() - p, 2nat,
{
    if at_mark(t, p, Mark::Dot) {
        if p + 1 < t.len() && t[p + 1] is Ident {
            p_postfix_rest(t, AstView::Attr(Box::new(e), t[p + 1]->Ident_0), p + 2)
        } else {
            Err("expected identifier after `.`"@)
        }
    } else if at_mark(t, p, Mark::LBracket) {
        match forward(c_subscript(t, e, p + 1), p + 1, t.len()) {
            Err(e) => Err(e),
            Ok((a, q)) => p_postfix_rest(t, a, q),
        }
    } else {
        Ok((e, p))
    }
}

/// An optional part of a slice: nothing where `empty`, else a conditional.
pub open spec fn p_part(t: Seq<TokView>, p: int, empty: bool) -> Result<
    (Option<Box<AstView>>, int),
    Seq<char>,
>
    decreases t.len() - p, 26nat,
{
    if empty {
        Ok((None, p))
    } else {
        match forward(c_ternary(t, p), p, t.len()) {
            Err(e) => Err(e),
            Ok((a, q)) => Ok((Some(Box::new(a)), q)),
        }
    }
}

/// The closing bracket of a subscript, behind an expression that is complete.
pub open spec fn closed_at(t: Seq<TokView>, a: AstView, p: int) -> Parsed {
    if at_mark(t, p, Mark::RBracket) {
        Ok((a, p + 1))
    } else {
        Err("expected `]`"@)
    }
}

/// A slice from its first colon at `p` on: `stop`, and `step` behind a second colon; both
/// may be missing.
pub open spec fn p_slice(
    t: Seq<TokView>,
    target: AstView,
    start: Option<Box<AstView>>,
    p: int,
) -> Parsed
    decreases t.len() - p, 28nat,
{
    let no_stop = at_mark(t, p + 1, Mark::Colon) || at_mark(t, p + 1, Mark::RBracket);
    if !at_mark(t, p, Mark::Colon) {
        Err(Seq::empty())
    } else {
        match c_part(t, p + 1, no_stop) {
            Err(e) => Err(e),
            Ok((stop, b)) => if p < b && at_mark(t, b, Mark::Colon) {
                match c_part(t, b + 1, at_mark(t, b + 1, Mark::RBracket)) {
                    Err(e) => Err(e),
                    Ok((step, c)) => closed_at(
                        t,
                        AstView::Slice(Box::new(target), start, stop, step),
                        c,
                    ),
                }
            } else {
                closed_at(t, AstView::Slice(Box::new(target), start, stop, None), b)
            },
        }
    }
}

/// What stands between the brackets of a subscript, and the closing one: an index, or a
/// slice `start:stop:step` of which every part may be missing.
pub open spec fn p_subscript(t: Seq<TokView>, target: AstView, p: int) -> Parsed
    decreases t.len() - p, 30nat,
{
    match c_part(t, p, at_mark(t, p, Mark::Colon)) {
        Err(e) => Err(e),
        Ok((start, a)) => if p <= a && at_mark(t, a, Mark::Colon) {
            c_slice(t, target, start, a)
        } else {
            match start {
                None => Err("empty subscript"@),
                Some(i) => closed_at(t, AstView::Index(Box::new(target), i), a),
            }
        },
    }
}

/// The value of a float literal: none where the float is not finite.
pub open spec fn float_literal(f: Option<Option<Seq<char>>>) -> ValueView {
    match f {
        Some(Some(t)) => ValueView::Float(t),
        _ => ValueView::Null,
    }
}

/// What a word that stands alone means: a constant, or a variable.
pub open spec fn word_meaning(w: Seq<char>) -> AstView {
    if w == "true"@ || w == "True"@ {
        AstView::Lit(ValueView::Bool(true))
    } else if w == "false"@ || w == "False"@ {
        AstView::Lit(ValueView::Bool(false))
    } else if w == "none"@ || w == "None"@ || w == "null"@ {
        AstView::Lit(ValueView::Null)
    } else {
        AstView::Var(w)
    }
}

/// `"(" conditional ")"`, a literal, or a word.
pub open spec fn p_primary(t: Seq<TokView>, p: int) -> Parsed
    decreases t.len() - p, 0nat,
{
    if p < 0 || p >= t.len() {
        Err("unexpected token None"@)
    } else {
        match t[p] {
            TokView::Mark(Mark::LParen) => match c_ternary(t, p + 1) {
                Err(e) => Err(e),
                Ok((a, q)) => if at_mark(t, q, Mark::RParen) {
                    Ok((a, q + 1))
                } else {
                    Err("expected `)`"@)
                },
            },
            TokView::Str(s) => Ok((AstView::Lit(ValueView::Text(s)), p + 1)),
            TokView::Int(i) => Ok((AstView::Lit(ValueView::Int(i)), p + 1)),
            TokView::Float(s) => Ok((AstView::Lit(float_literal(float_text(s))), p + 1)),
            TokView::Ident(w) => Ok((word_meaning(w), p + 1)),
            TokView::Mark(m) => Err("unexpected token Some("@ + mark_name(m) + ")"@),
        }
    }
}

// Each production by another name: what a production says of its parts is said of these,
// so that a proof about one production does not look into the others.

pub open spec fn c_ternary(t: Seq<TokView>, p: int) -> Parsed
    decreases t.len() - p, 25nat,
{
    p_ternary(t, p)
}

pub open spec fn c_or(t: Seq<TokView>, p: int) -> Parsed
    decreases t.len() - p, 23nat,
{
    p_or(t, p)
}

pub open spec fn c_and(t: Seq<TokView>, p: int) -> Parsed
    decreases t.len() - p, 21nat,
{
    p_and(t, p)
}

pub open spec fn c_not(t: Seq<TokView>, p: int) -> Parsed
    decreases t.len() - p, 19nat,
{
    p_not(t, p)
}

pub open spec fn c_comparison(t: Seq<TokView>, p: int) -> Parsed
    decreases t.len() - p, 17nat,
{
    p_comparison(t, p)
}

pub open spec fn c_addsub(t: Seq<TokView>, p: int) -> Parsed
    decreases t.len() - p, 15nat,
{
    p_addsub(t, p)
}

pub open spec fn c_concat(t: Seq<TokView>, p: int) -> Parsed
    decreases t.len() - p, 13nat,
{
    p_concat(t, p)
}

pub open spec fn c_muldiv(t: Seq<TokView>, p: int) -> Parsed
    decreases t.len() - p, 11nat,
{
    p_muldiv(t, p)
}

pub open spec fn c_pow(t: Seq<TokView>, p: int) -> Parsed
    decreases t.len() - p, 9nat,
{
    p_pow(t, p)
}

pub open spec fn c_unary(t: Seq<TokView>, p: int) -> Parsed
    decreases t.len() - p, 7nat,
{
    p_unary(t, p)
}

pub open spec fn c_filter(t: Seq<TokView>, p: int) -> Parsed
    decreases t.len() - p, 5nat,
{
    p_filter(t, p)
}

pub open spec fn c_postfix(t: Seq<TokView>, p: int) -> Parsed
    decreases t.len() - p, 3nat,
{
    p_postfix(t, p)
}

pub open spec fn c_primary(t: Seq<TokView>, p: int) -> Parsed
    decreases t.len() - p, 1nat,
{
    p_primary(t, p)
}

pub open spec fn c_args(t: Seq<TokView>, p: int) -> Result<(Seq<AstView>, int), Seq<char>>
    decreases t.len() - p, 29nat,
{
    p_args(t, p)
}

pub open spec fn c_part(t: Seq<TokView>, p: int, empty: bool) -> Result<
    (Option<Box<AstView>>, int),
    Seq<char>,
>
    decreases t.len() - p, 27nat,
{
    p_part(t, p, empty)
}

pub open spec fn c_slice(
    t: Seq<TokView>,
    target: AstView,
    start: Option<Box<AstView>>,
    p: int,
) -> Parsed
    decreases t.len() - p, 29nat,
{
    p_slice(t, target, start, p)
}

pub open spec fn c_subscript(t: Seq<TokView>, target: AstView, p: int) -> Parsed
    decreases t.len() - p, 31nat,
{
    p_subscript(t, target, p)
}

/// The expression that a text is, or what is wrong with it.
pub open spec fn parsed(src: Seq<char>) -> Result<AstView, Seq<char>> {
    match tokens_from(src, 0) {
        Err(e) => Err(e),
        Ok(t) => match c_ternary(t, 0) {
            Err(e) => Err(e),
            Ok((a, q)) => if q == t.len() {
                Ok(a)
            } else {
                Err("trailing tokens after expression: ["@ + token_names(t, q) + "]"@)
            },
        },
    }
}

// ---------------------------------------------------------------------------------------
// The parser
// ---------------------------------------------------------------------------------------

/// What a production gave.
spec fn given(r: Result<(Ast, usize), String>) -> Parsed {
    match r {
        Ok((a, q)) => Ok((a@, q as int)),
        Err(e) => Err(e@),
    }
}

/// A production that succeeds goes forward.
spec fn advances(r: Result<(Ast, usize), String>, p: usize, n: nat) -> bool {
    r matches Ok((a, q)) ==> p < q <= n
}

/// Whether a mark stands at a position.
fn is_mark(ts: &Vec<Tok>, p: usize, m: Mark) -> (r: bool)
    ensures
        r == at_mark(toks(ts@), p as int, m),
{
    if p < ts.len() {
        assert(toks(ts@)[p as int] == ts@[p as int]@);
        match &ts[p] {
            Tok::Mark(x) => *x == m,
            _ => false,
        }
    } else {
        false
    }
}

/// Whether a word stands at a position.
fn is_word(ts: &Vec<Tok>, p: usize, w: &str) -> (r: bool)
    ensures
        r == at_word(toks(ts@), p as int, w@),
{
    if p < ts.len() {
        assert(toks(ts@)[p as int] == ts@[p as int]@);
        match &ts[p] {
            Tok::Ident(x) => same(x.as_str(), w),
            _ => false,
        }
    } else {
        false
    }
}

/// Whether there is a filter of a name.
pub fn filter_exists(n: &str) -> (r: bool)
    ensures
        r == known_filter(n@),
{
    same(n, "lower") || same(n, "upper") || same(n, "string") || same(n, "int") || same(n, "float")
        || same(n, "bool") || same(n, "default") || same(n, "d") || same(n, "replace") || same(
        n,
        "regex_replace",
    ) || same(n, "trim") || same(n, "capitalize") || same(n, "length") || same(n, "count") || same(
        n,
        "first",
    ) || same(n, "last") || same(n, "join") || same(n, "abs") || same(n, "ternary")
}

/// Reads a full expression.
fn parse_ternary(ts: &Vec<Tok>, p: usize) -> (r: Result<(Ast, usize), String>)
    requires
        p <= ts.len(),
    ensures
        given(r) == c_ternary(toks(ts@), p as int),
        advances(r, p, ts@.len()),
    decreases ts.len() - p, 12nat,
{
    assert(c_ternary(toks(ts@), p as int) == p_ternary(toks(ts@), p as int));
    let (body, q) = match parse_or(ts, p) {
        Ok(x) => x,
        Err(e) => {
            return Err(e);
        },
    };
    if !is_word(ts, q, "if") {
        return Ok((body, q));
    }
    let (cond, r) = match parse_or(ts, q + 1) {
        Ok(x) => x,
        Err(e) => {
            return Err(e);
        },
    };
    if !is_word(ts, r, "else") {
        return Ok((Ast::cond(cond, body, None), r));
    }
    match parse_ternary(ts, r + 1) {
        Ok((other, s)) => Ok(
            (Ast::cond(cond, body, Some(other)), s),
        ),
        Err(e) => Err(e),
    }
}

/// Reads a disjunction.
fn parse_or(ts: &Vec<Tok>, p: usize) -> (r: Result<(Ast, usize), String>)
    requires
        p <= ts.len(),
    ensures
        given(r) == c_or(toks(ts@), p as int),
        advances(r, p, ts@.len()),
    decreases ts.len() - p, 11nat,
{
    assert(c_or(toks(ts@), p as int) == p_or(toks(ts@), p as int));
    let (first, start) = match parse_and(ts, p) {
        Ok(x) => x,
        Err(e) => {
            return Err(e);
        },
    };
    let mut left = first;
    let mut q: usize = start;
    while is_word(ts, q, "or")
        invariant
            p < q <= ts.len(),
            c_or(toks(ts@), p as int) == p_or_rest(toks(ts@), left@, q as int),
        decreases ts.len() - q,
    {
        match parse_and(ts, q + 1) {
            Ok((right, next)) => {
                left = Ast::or(left, right);
                q = next;
            },
            Err(e) => {
                return Err(e);
            },
        }
    }
    Ok((left, q))
}

/// Reads a conjunction.
fn parse_and(ts: &Vec<Tok>, p: usize) -> (r: Result<(Ast, usize), String>)
    requires
        p <= ts.len(),
    ensures
        given(r) == c_and(toks(ts@), p as int),
        advances(r, p, ts@.len()),
    decreases ts.len() - p, 10nat,
{
    assert(c_and(toks(ts@), p as int) == p_and(toks(ts@), p as int));
    let (first, start) = match parse_not(ts, p) {
        Ok(x) => x,
        Err(e) => {
            return Err(e);
        },
    };
    let mut left = first;
    let mut q: usize = start;
    while is_word(ts, q, "and")
        invariant
            p < q <= ts.len(),
            c_and(toks(ts@), p as int) == p_and_rest(toks(ts@), left@, q as int),
        decreases ts.len() - q,
    {
        match parse_not(ts, q + 1) {
            Ok((right, next)) => {
                left = Ast::and(left, right);
                q = next;
            },
            Err(e) => {
                return Err(e);
            },
        }
    }
    Ok((left, q))
}

/// Reads a negation.
fn parse_not(ts: &Vec<Tok>, p: usize) -> (r: Result<(Ast, usize), String>)
    requires
        p <= ts.len(),
    ensures
        given(r) == c_not(toks(ts@), p as int),
        advances(r, p, ts@.len()),
    decreases ts.len() - p, 9nat,
{
    assert(c_not(toks(ts@), p as int) == p_not(toks(ts@), p as int));
    if is_word(ts, p, "not") {
        match parse_not(ts, p + 1) {
            Ok((a, q)) => Ok((Ast::negation(a), q)),
            Err(e) => Err(e),
        }
    } else {
        parse_comparison(ts, p)
    }
}

/// The comparison that a mark stands for.
fn comparison_at(ts: &Vec<Tok>, p: usize) -> (r: Option<CompareOp>)
    ensures
        r == compare_mark(toks(ts@), p as int),
{
    if is_mark(ts, p, Mark::Eq) {
        Some(CompareOp::Eq)
    } else if is_mark(ts, p, Mark::Ne) {
        Some(CompareOp::Ne)
    } else if is_mark(ts, p, Mark::Lt) {
        Some(CompareOp::Lt)
    } else if is_mark(ts, p, Mark::Le) {
        Some(CompareOp::Le)
    } else if is_mark(ts, p, Mark::Gt) {
        Some(CompareOp::Gt)
    } else if is_mark(ts, p, Mark::Ge) {
        Some(CompareOp::Ge)
    } else {
        None
    }
}

/// Reads a comparison, a membership or a test.
fn parse_comparison(ts: &Vec<Tok>, p: usize) -> (r: Result<(Ast, usize), String>)
    requires
        p <= ts.len(),
    ensures
        given(r) == c_comparison(toks(ts@), p as int),
        advances(r, p, ts@.len()),
    decreases ts.len() - p, 8nat,
{
    assert(c_comparison(toks(ts@), p as int) == p_comparison(toks(ts@), p as int));
    let (left, q) = match parse_addsub(ts, p) {
        Ok(x) => x,
        Err(e) => {
            return Err(e);
        },
    };
    if is_word(ts, q, "is") {
        let negated = is_word(ts, q + 1, "not");
        let r: usize = if negated {
            q + 2
        } else {
            q + 1
        };
        if is_word(ts, r, "defined") {
            return Ok((Ast::defined(left, negated), r + 1));
        }
        if is_word(ts, r, "undefined") {
            return Ok((Ast::defined(left, !negated), r + 1));
        }
        return Err(
            "only `is [not] defined` / `is undefined` tests are supported".to_owned(),
        );
    }
    if is_word(ts, q, "not") && is_word(ts, q + 1, "in") {
        return match parse_addsub(ts, q + 2) {
            Ok((right, r)) => Ok((Ast::within(left, right, true), r)),
            Err(e) => Err(e),
        };
    }
    if is_word(ts, q, "in") {
        return match parse_addsub(ts, q + 1) {
            Ok((right, r)) => Ok((Ast::within(left, right, false), r)),
            Err(e) => Err(e),
        };
    }
    match comparison_at(ts, q) {
        Some(op) => match parse_addsub(ts, q + 1) {
            Ok((right, r)) => Ok((Ast::compare(left, op, right), r)),
            Err(e) => Err(e),
        },
        None => Ok((left, q)),
    }
}

/// Reads a sum.
fn parse_addsub(ts: &Vec<Tok>, p: usize) -> (r: Result<(Ast, usize), String>)
    requires
        p <= ts.len(),
    ensures
        given(r) == c_addsub(toks(ts@), p as int),
        advances(r, p, ts@.len()),
    decreases ts.len() - p, 7nat,
{
    assert(c_addsub(toks(ts@), p as int) == p_addsub(toks(ts@), p as int));
    let (first, start) = match parse_concat(ts, p) {
        Ok(x) => x,
        Err(e) => {
            return Err(e);
        },
    };
    let mut left = first;
    let mut q: usize = start;
    while is_mark(ts, q, Mark::Plus) || is_mark(ts, q, Mark::Minus)
        invariant
            p < q <= ts.len(),
            c_addsub(toks(ts@), p as int) == p_addsub_rest(toks(ts@), left@, q as int),
        decreases ts.len() - q,
    {
        let op = if is_mark(ts, q, Mark::Plus) {
            BinOp::Add
        } else {
            BinOp::Sub
        };
        match parse_concat(ts, q + 1) {
            Ok((right, next)) => {
                left = Ast::bin(op, left, right);
                q = next;
            },
            Err(e) => {
                return Err(e);
            },
        }
    }
    Ok((left, q))
}

/// Reads a concatenation.
fn parse_concat(ts: &Vec<Tok>, p: usize) -> (r: Result<(Ast, usize), String>)
    requires
        p <= ts.len(),
    ensures
        given(r) == c_concat(toks(ts@), p as int),
        advances(r, p, ts@.len()),
    decreases ts.len() - p, 6nat,
{
    assert(c_concat(toks(ts@), p as int) == p_concat(toks(ts@), p as int));
    let (first, start) = match parse_muldiv(ts, p) {
        Ok(x) => x,
        Err(e) => {
            return Err(e);
        },
    };
    let mut left = first;
    let mut q: usize = start;
    while is_mark(ts, q, Mark::Tilde)
        invariant
            p < q <= ts.len(),
            c_concat(toks(ts@), p as int) == p_concat_rest(toks(ts@), left@, q as int),
        decreases ts.len() - q,
    {
        match parse_muldiv(ts, q + 1) {
            Ok((right, next)) => {
                left = Ast::bin(BinOp::Concat, left, right);
                q = next;
            },
            Err(e) => {
                return Err(e);
            },
        }
    }
    Ok((left, q))
}

/// The operator of a product.
fn product_op_at(ts: &Vec<Tok>, p: usize) -> (r: Option<BinOp>)
    ensures
        r == product_mark(toks(ts@), p as int),
{
    if is_mark(ts, p, Mark::Star) {
        Some(BinOp::Mul)
    } else if is_mark(ts, p, Mark::Slash) {
        Some(BinOp::Div)
    } else if is_mark(ts, p, Mark::SlashSlash) {
        Some(BinOp::FloorDiv)
    } else if is_mark(ts, p, Mark::Percent) {
        Some(BinOp::Mod)
    } else {
        None
    }
}

/// Reads a product.
fn parse_muldiv(ts: &Vec<Tok>, p: usize) -> (r: Result<(Ast, usize), String>)
    requires
        p <= ts.len(),
    ensures
        given(r) == c_muldiv(toks(ts@), p as int),
        advances(r, p, ts@.len()),
    decreases ts.len() - p, 5nat,
{
    assert(c_muldiv(toks(ts@), p as int) == p_muldiv(toks(ts@), p as int));
    let (first, start) = match parse_pow(ts, p) {
        Ok(x) => x,
        Err(e) => {
            return Err(e);
        },
    };
    let mut left = first;
    let mut q: usize = start;
    loop
        invariant
            p < q <= ts.len(),
            c_muldiv(toks(ts@), p as int) == p_muldiv_rest(toks(ts@), left@, q as int),
        decreases ts.len() - q,
    {
        let op = match product_op_at(ts, q) {
            Some(op) => op,
            None => {
                return Ok((left, q));
            },
        };
        match parse_pow(ts, q + 1) {
            Ok((right, next)) => {
                left = Ast::bin(op, left, right);
                q = next;
            },
            Err(e) => {
                return Err(e);
            },
        }
    }
}

/// Reads a power.
fn parse_pow(ts: &Vec<Tok>, p: usize) -> (r: Result<(Ast, usize), String>)
    requires
        p <= ts.len(),
    ensures
        given(r) == c_pow(toks(ts@), p as int),
        advances(r, p, ts@.len()),
    decreases ts.len() - p, 4nat,
{
    assert(c_pow(toks(ts@), p as int) == p_pow(toks(ts@), p as int));
    let (left, q) = match parse_unary(ts, p) {
        Ok(x) => x,
        Err(e) => {
            return Err(e);
        },
    };
    if is_mark(ts, q, Mark::StarStar) {
        match parse_pow(ts, q + 1) {
            Ok((right, r)) => Ok((Ast::bin(BinOp::Pow, left, right), r)),
            Err(e) => Err(e),
        }
    } else {
        Ok((left, q))
    }
}

/// Reads signs.
fn parse_unary(ts: &Vec<Tok>, p: usize) -> (r: Result<(Ast, usize), String>)
    requires
        p <= ts.len(),
    ensures
        given(r) == c_unary(toks(ts@), p as int),
        advances(r, p, ts@.len()),
    decreases ts.len() - p, 3nat,
{
    assert(c_unary(toks(ts@), p as int) == p_unary(toks(ts@), p as int));
    if is_mark(ts, p, Mark::Minus) {
        match parse_unary(ts, p + 1) {
            Ok((a, q)) => Ok((Ast::neg(a), q)),
            Err(e) => Err(e),
        }
    } else if is_mark(ts, p, Mark::Plus) {
        parse_unary(ts, p + 1)
    } else {
        parse_filter(ts, p)
    }
}

/// Reads the name and the arguments of one filter.
fn parse_filter_call(ts: &Vec<Tok>, q: usize) -> (r: Result<(String, Vec<Ast>, usize), String>)
    requires
        q < ts.len(),
        at_mark(toks(ts@), q as int, Mark::Pipe),
    ensures
        forall|e: AstView|
            #![trigger p_filter_rest(toks(ts@), e, q as int)]
            p_filter_rest(toks(ts@), e, q as int) == (match r {
                Ok((n, args, next)) => p_filter_rest(
                    toks(ts@),
                    AstView::Filter(Box::new(e), n@, asts(args@)),
                    next as int,
                ),
                Err(e) => Err(e@),
            }),
        r matches Ok((n, args, next)) ==> q < next <= ts.len(),
    decreases ts.len() - q, 0nat,
{
    if q + 1 >= ts.len() {
        return Err("expected filter name after `|`".to_owned());
    }
    assert(toks(ts@)[q + 1] == ts@[q + 1]@);
    let name = match &ts[q + 1] {
        Tok::Ident(s) => s.clone(),
        _ => {
            return Err("expected filter name after `|`".to_owned());
        },
    };
    if !filter_exists(name.as_str()) {
        return Err(join3("unsupported filter `", name.as_str(), "`"));
    }
    if is_mark(ts, q + 2, Mark::LParen) {
        match parse_args(ts, q + 3) {
            Ok((args, r)) => if is_mark(ts, r, Mark::RParen) {
                Ok((name, args, r + 1))
            } else {
                Err("expected `)` after filter args".to_owned())
            },
            Err(e) => Err(e),
        }
    } else {
        Ok((name, no_args(), q + 2))
    }
}

/// Reads filters.
fn parse_filter(ts: &Vec<Tok>, p: usize) -> (r: Result<(Ast, usize), String>)
    requires
        p <= ts.len(),
    ensures
        given(r) == c_filter(toks(ts@), p as int),
        advances(r, p, ts@.len()),
    decreases ts.len() - p, 2nat,
{
    assert(c_filter(toks(ts@), p as int) == p_filter(toks(ts@), p as int));
    let (first, start) = match parse_postfix(ts, p) {
        Ok(x) => x,
        Err(e) => {
            return Err(e);
        },
    };
    let mut expr = first;
    let mut q: usize = start;
    while is_mark(ts, q, Mark::Pipe)
        invariant
            p < q <= ts.len(),
            c_filter(toks(ts@), p as int) == p_filter_rest(toks(ts@), expr@, q as int),
        decreases ts.len() - q,
    {
        match parse_filter_call(ts, q) {
            Ok((name, args, next)) => {
                expr = Ast::filter(expr, name, args);
                q = next;
            },
            Err(e) => {
                return Err(e);
            },
        }
    }
    Ok((expr, q))
}

/// Arguments from `p` on, behind some that have been read.
#[verifier::opaque]
spec fn behind(acc: Seq<AstView>, t: Seq<TokView>, p: int) -> Result<
    (Seq<AstView>, int),
    Seq<char>,
> {
    match p_arg_list(t, p) {
        Ok((more, e)) => Ok((acc + more, e)),
        Err(e) => Err(e),
    }
}

/// Behind none, the arguments are what they are.
proof fn lemma_first_argument(t: Seq<TokView>, p: int)
    ensures
        behind(Seq::empty(), t, p) == p_arg_list(t, p),
{
    reveal(behind);
    match p_arg_list(t, p) {
        Ok((more, e)) => {
            assert(Seq::<AstView>::empty() + more =~= more);
        },
        Err(e) => {},
    }
}

/// One argument more.
proof fn lemma_one_argument(t: Seq<TokView>, acc: Seq<AstView>, p: int)
    requires
        c_ternary(t, p) matches Ok(x) ==> 0 <= p < x.1 <= t.len(),
    ensures
        behind(acc, t, p) == (match c_ternary(t, p) {
            Ok((a, q)) => if at_mark(t, q, Mark::Comma) {
                behind(acc.push(a), t, q + 1)
            } else {
                Ok((acc.push(a), q))
            },
            Err(e) => Err(e),
        }),
{
    reveal(behind);
    match c_ternary(t, p) {
        Ok((a, q)) => {
            assert(acc + seq![a] =~= acc.push(a));
            if at_mark(t, q, Mark::Comma) {
                match p_arg_list(t, q + 1) {
                    Ok((more, e)) => {
                        assert(acc + (seq![a] + more) =~= acc.push(a) + more);
                    },
                    Err(e) => {},
                }
            }
        },
        Err(e) => {},
    }
}

/// The arguments with one more.
fn with_arg(args: Vec<Ast>, a: Ast) -> (r: Vec<Ast>)
    ensures
        asts(r@) == asts(args@).push(a@),
{
    proof {
        lemma_asts_push(args@, a);
    }
    let mut r = args;
    r.push(a);
    r
}

/// No arguments.
fn no_args() -> (r: Vec<Ast>)
    ensures
        asts(r@) == Seq::<AstView>::empty(),
{
    let r: Vec<Ast> = Vec::new();
    assert(asts(r@) =~= Seq::empty());
    r
}

/// What reading arguments gave.
spec fn given_args(r: Result<(Vec<Ast>, usize), String>) -> Result<(Seq<AstView>, int), Seq<char>> {
    match r {
        Ok((v, q)) => Ok((asts(v@), q as int)),
        Err(e) => Err(e@),
    }
}

/// Reads the arguments behind some that have been read.
fn parse_more_args(ts: &Vec<Tok>, p: usize, args: Vec<Ast>) -> (r: Result<
    (Vec<Ast>, usize),
    String,
>)
    requires
        p <= ts.len(),
    ensures
        given_args(r) == behind(asts(args@), toks(ts@), p as int),
        r matches Ok((v, q)) ==> p <= q <= ts.len(),
    decreases ts.len() - p, 13nat,
{
    let next = parse_ternary(ts, p);
    proof {
        lemma_one_argument(toks(ts@), asts(args@), p as int);
    }
    match next {
        Ok((a, q)) => {
            let more = with_arg(args, a);
            if is_mark(ts, q, Mark::Comma) {
                parse_more_args(ts, q + 1, more)
            } else {
                Ok((more, q))
            }
        },
        Err(e) => Err(e),
    }
}

/// Reads the arguments of a filter.
fn parse_args(ts: &Vec<Tok>, p: usize) -> (r: Result<(Vec<Ast>, usize), String>)
    requires
        p <= ts.len(),
    ensures
        given_args(r) == c_args(toks(ts@), p as int),
        r matches Ok((v, q)) ==> p <= q <= ts.len(),
    decreases ts.len() - p, 14nat,
{
    assert(c_args(toks(ts@), p as int) == p_args(toks(ts@), p as int));
    if is_mark(ts, p, Mark::RParen) {
        return Ok((no_args(), p));
    }
    proof {
        lemma_first_argument(toks(ts@), p as int);
    }
    parse_more_args(ts, p, no_args())
}

/// Reads one attribute.
fn parse_attr(ts: &Vec<Tok>, e: Ast, q: usize) -> (r: Result<(Ast, usize), String>)
    requires
        q < ts.len(),
        at_mark(toks(ts@), q as int, Mark::Dot),
    ensures
        (match r {
            Ok((a, n)) => p_postfix_rest(toks(ts@), a@, n as int),
            Err(e) => Err(e@),
        }) == p_postfix_rest(toks(ts@), e@, q as int),
        advances(r, q, ts@.len()),
{
    if q + 1 >= ts.len() {
        return Err("expected identifier after `.`".to_owned());
    }
    assert(toks(ts@)[q + 1] == ts@[q + 1]@);
    match &ts[q + 1] {
        Tok::Ident(seg) => Ok((Ast::attr(e, seg.clone()), q + 2)),
        _ => Err("expected identifier after `.`".to_owned()),
    }
}

/// Reads attributes and subscripts.
fn parse_postfix(ts: &Vec<Tok>, p: usize) -> (r: Result<(Ast, usize), String>)
    requires
        p <= ts.len(),
    ensures
        given(r) == c_postfix(toks(ts@), p as int),
        advances(r, p, ts@.len()),
    decreases ts.len() - p, 1nat,
{
    assert(c_postfix(toks(ts@), p as int) == p_postfix(toks(ts@), p as int));
    let (first, start) = match parse_primary(ts, p) {
        Ok(x) => x,
        Err(e) => {
            return Err(e);
        },
    };
    let mut expr = first;
    let mut q: usize = start;
    loop
        invariant
            p < q <= ts.len(),
            c_postfix(toks(ts@), p as int) == p_postfix_rest(toks(ts@), expr@, q as int),
        decreases ts.len() - q,
    {
        let step = if is_mark(ts, q, Mark::Dot) {
            parse_attr(ts, expr, q)
        } else if is_mark(ts, q, Mark::LBracket) {
            parse_subscript(ts, expr, q + 1)
        } else {
            return Ok((expr, q));
        };
        match step {
            Ok((a, next)) => {
                expr = a;
                q = next;
            },
            Err(e) => {
                return Err(e);
            },
        }
    }
}

/// Reads an optional part of a slice.
fn parse_part(ts: &Vec<Tok>, p: usize, empty: bool) -> (r: Result<
    (Option<Ast>, usize),
    String,
>)
    requires
        p <= ts.len(),
    ensures
        (match r {
            Ok((o, q)) => Ok((opt_ast(o), q as int)),
            Err(e) => Err(e@),
        }) == c_part(toks(ts@), p as int, empty),
        r matches Ok((o, q)) ==> p <= q <= ts.len() && (o is Some <==> !empty),
    decreases ts.len() - p, 13nat,
{
    assert(c_part(toks(ts@), p as int, empty) == p_part(toks(ts@), p as int, empty));
    if empty {
        return Ok((None, p));
    }
    match parse_ternary(ts, p) {
        Ok((a, q)) => Ok((Some(a), q)),
        Err(e) => Err(e),
    }
}

/// Reads the closing bracket of a subscript.
fn parse_closing(ts: &Vec<Tok>, e: Ast, p: usize) -> (r: Result<(Ast, usize), String>)
    requires
        p <= ts.len(),
    ensures
        given(r) == closed_at(toks(ts@), e@, p as int),
        advances(r, p, ts@.len()),
{
    if is_mark(ts, p, Mark::RBracket) {
        Ok((e, p + 1))
    } else {
        Err("expected `]`".to_owned())
    }
}

/// Reads a slice from its first colon on.
fn parse_slice(ts: &Vec<Tok>, target: Ast, start: Option<Ast>, p: usize) -> (r: Result<
    (Ast, usize),
    String,
>)
    requires
        p < ts.len(),
        at_mark(toks(ts@), p as int, Mark::Colon),
    ensures
        given(r) == c_slice(toks(ts@), target@, opt_ast(start), p as int),
        advances(r, p, ts@.len()),
    decreases ts.len() - p, 14nat,
{
    assert(c_slice(toks(ts@), target@, opt_ast(start), p as int) == p_slice(
        toks(ts@),
        target@,
        opt_ast(start),
        p as int,
    ));
    let no_stop = is_mark(ts, p + 1, Mark::Colon) || is_mark(ts, p + 1, Mark::RBracket);
    let (stop, b) = match parse_part(ts, p + 1, no_stop) {
        Ok(x) => x,
        Err(e) => {
            return Err(e);
        },
    };
    if !is_mark(ts, b, Mark::Colon) {
        return parse_closing(ts, Ast::slice(target, start, stop, None), b);
    }
    match parse_part(ts, b + 1, is_mark(ts, b + 1, Mark::RBracket)) {
        Ok((step, c)) => parse_closing(ts, Ast::slice(target, start, stop, step), c),
        Err(e) => Err(e),
    }
}

/// Reads what stands between the brackets of a subscript, and the closing one.
fn parse_subscript(ts: &Vec<Tok>, target: Ast, p: usize) -> (r: Result<(Ast, usize), String>)
    requires
        p <= ts.len(),
    ensures
        given(r) == c_subscript(toks(ts@), target@, p as int),
        advances(r, p, ts@.len()),
    decreases ts.len() - p, 15nat,
{
    assert(c_subscript(toks(ts@), target@, p as int) == p_subscript(
        toks(ts@),
        target@,
        p as int,
    ));
    match parse_part(ts, p, is_mark(ts, p, Mark::Colon)) {
        Ok((start, a)) => if is_mark(ts, a, Mark::Colon) {
            parse_slice(ts, target, start, a)
        } else {
            match start {
                None => Err("empty subscript".to_owned()),
                Some(i) => parse_closing(ts, Ast::index(target, i), a),
            }
        },
        Err(e) => Err(e),
    }
}

/// The value of a float literal, given what it reads as.
pub fn float_value(f: Option<Option<String>>) -> (r: Value)
    ensures
        r@ == float_literal(float_view(f)),
{
    match f {
        Some(Some(t)) => Value::Number(Number::Float(t)),
        _ => Value::Null,
    }
}

/// What a word that stands alone means.
fn word_ast(w: &String) -> (r: Ast)
    ensures
        r@ == word_meaning(w@),
{
    let s = w.as_str();
    if same(s, "true") || same(s, "True") {
        Ast::lit(Value::Bool(true))
    } else if same(s, "false") || same(s, "False") {
        Ast::lit(Value::Bool(false))
    } else if same(s, "none") || same(s, "None") || same(s, "null") {
        Ast::lit(Value::Null)
    } else {
        Ast::var(w.clone())
    }
}

/// Reads a parenthesis, a literal or a word.
fn parse_primary(ts: &Vec<Tok>, p: usize) -> (r: Result<(Ast, usize), String>)
    requires
        p <= ts.len(),
    ensures
        given(r) == c_primary(toks(ts@), p as int),
        advances(r, p, ts@.len()),
    decreases ts.len() - p, 0nat,
{
    assert(c_primary(toks(ts@), p as int) == p_primary(toks(ts@), p as int));
    if p >= ts.len() {
        return Err("unexpected token None".to_owned());
    }
    assert(toks(ts@)[p as int] == ts@[p as int]@);
    match &ts[p] {
        Tok::Str(s) => Ok((Ast::lit(Value::Text(s.clone())), p + 1)),
        Tok::Int(n) => Ok((Ast::lit(int_value(*n)), p + 1)),
        Tok::Float(s) => Ok((Ast::lit(float_value(read_float(s.as_str()))), p + 1)),
        Tok::Ident(w) => Ok((word_ast(w), p + 1)),
        Tok::Mark(m) => if *m == Mark::LParen {
            match parse_ternary(ts, p + 1) {
                Ok((a, q)) => if is_mark(ts, q, Mark::RParen) {
                    Ok((a, q + 1))
                } else {
                    Err("expected `)`".to_owned())
                },
                Err(e) => Err(e),
            }
        } else {
            Err(join3("unexpected token Some(", mark_text(*m), ")"))
        },
    }
}

/// Reads an expression; else says what is wrong with it.
pub fn parse(src: &str) -> (r: Result<Ast, String>)
    ensures
        (match r {
            Ok(a) => Ok(a@),
            Err(e) => Err(e@),
        }) == parsed(src@),
{
    let ts = match tokenize(src) {
        Ok(ts) => ts,
        Err(e) => {
            return Err(e);
        },
    };
    match parse_ternary(&ts, 0) {
        Ok((a, q)) => if q == ts.len() {
            Ok(a)
        } else {
            let rest = names_from(&ts, q);
            Err(join3("trailing tokens after expression: [", rest.as_str(), "]"))
        },
        Err(e) => Err(e),
    }
}

} // verus!
