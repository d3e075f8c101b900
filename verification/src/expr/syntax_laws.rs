//! Expressions read back: what an expression is written as is parsed to that expression, with
//! no more parentheses than the operators need.

use vstd::prelude::*;
use crate::expr::ast::{AstView, BinOp, CompareOp};
use crate::expr::grammar_laws::{is_name, lemma_name_token};
use crate::expr::parser::{at_mark, at_word, c_addsub, c_and, c_args, c_comparison, c_concat, c_filter, c_muldiv, c_not, c_or, c_part, c_postfix, c_pow, c_primary, c_slice, c_subscript, c_ternary, c_unary, closed_at, compare_mark, known_filter, p_addsub, p_addsub_rest, p_and, p_and_rest, p_arg_list, p_args, p_comparison, p_concat, p_concat_rest, p_filter, p_filter_rest, p_muldiv, p_muldiv_rest, p_not, p_or, p_or_rest, p_part, p_postfix, p_postfix_rest, p_pow, p_primary, p_slice, p_subscript, p_ternary, p_unary, parsed, product_mark, word_meaning};
use crate::expr::token::{mark_at, number_end, token_at, tokens_from, Mark, TokView};
use crate::text::{dec, is_digit, is_space, law_decimal_reads_back, lemma_dec_nat, lemma_find_char_unique};
use crate::value::ValueView;

verus! {

// ---------------------------------------------------------------------------------------
// Writing
// ---------------------------------------------------------------------------------------

/// How tightly an expression is held together: a conditional least, then `or`, `and`, `not`,
/// comparisons, sums, concatenations, products, powers, signs, filters, and at last what
/// needs no parentheses anywhere.
pub open spec fn level(a: AstView) -> int {
    match a {
        AstView::Cond(..) => 0,
        AstView::Or(..) => 1,
        AstView::And(..) => 2,
        AstView::Not(..) => 3,
        AstView::Compare(..) | AstView::In(..) | AstView::Defined(..) => 4,
        AstView::Bin(op, ..) => match op {
            BinOp::Add | BinOp::Sub => 5,
            BinOp::Concat => 6,
            BinOp::Mul | BinOp::Div | BinOp::FloorDiv | BinOp::Mod => 7,
            BinOp::Pow => 8,
        },
        AstView::Neg(..) => 9,
        AstView::Filter(..) => 10,
        _ => 11,
    }
}

/// A token of punctuation.
pub open spec fn sign(m: Mark) -> Seq<TokView> {
    seq![TokView::Mark(m)]
}

/// A word.
pub open spec fn word(w: Seq<char>) -> Seq<TokView> {
    seq![TokView::Ident(w)]
}

/// The sign of an operator.
pub open spec fn operator(op: BinOp) -> Mark {
    match op {
        BinOp::Add => Mark::Plus,
        BinOp::Sub => Mark::Minus,
        BinOp::Mul => Mark::Star,
        BinOp::Div => Mark::Slash,
        BinOp::FloorDiv => Mark::SlashSlash,
        BinOp::Mod => Mark::Percent,
        BinOp::Pow => Mark::StarStar,
        BinOp::Concat => Mark::Tilde,
    }
}

/// The sign of a comparison.
pub open spec fn comparison(op: CompareOp) -> Mark {
    match op {
        CompareOp::Eq => Mark::Eq,
        CompareOp::Ne => Mark::Ne,
        CompareOp::Lt => Mark::Lt,
        CompareOp::Le => Mark::Le,
        CompareOp::Gt => Mark::Gt,
        CompareOp::Ge => Mark::Ge,
    }
}

/// The token of a literal.
pub open spec fn literal_token(v: ValueView) -> TokView {
    match v {
        ValueView::Text(s) => TokView::Str(s),
        ValueView::Int(i) => TokView::Int(i),
        ValueView::Bool(true) => TokView::Ident("true"@),
        ValueView::Bool(false) => TokView::Ident("false"@),
        _ => TokView::Ident("none"@),
    }
}

/// The tokens of an expression where one of level `l` is asked for: in parentheses, if it is
/// held together less tightly.
pub open spec fn spelled(a: AstView, l: int) -> Seq<TokView>
    decreases a, 1nat,
{
    if level(a) < l {
        sign(Mark::LParen) + plain(a) + sign(Mark::RParen)
    } else {
        plain(a)
    }
}

/// The tokens of an expression. Operators of one level group to the left, powers to the
/// right, and comparisons not at all.
pub open spec fn plain(a: AstView) -> Seq<TokView>
    decreases a, 0nat,
{
    match a {
        AstView::Var(n) => word(n),
        AstView::Lit(v) => seq![literal_token(v)],
        AstView::Attr(e, n) => spelled(*e, 11) + sign(Mark::Dot) + word(n),
        AstView::Index(e, i) => spelled(*e, 11) + sign(Mark::LBracket) + spelled(*i, 0) + sign(
            Mark::RBracket,
        ),
        AstView::Slice(e, x, y, z) => spelled(*e, 11) + sign(Mark::LBracket) + (match x {
            Some(x) => spelled(*x, 0),
            None => Seq::empty(),
        }) + sign(Mark::Colon) + (match y {
            Some(y) => spelled(*y, 0),
            None => Seq::empty(),
        }) + (match z {
            Some(z) => sign(Mark::Colon) + spelled(*z, 0),
            None => Seq::empty(),
        }) + sign(Mark::RBracket),
        AstView::Filter(e, n, args) => spelled(*e, 10) + sign(Mark::Pipe) + word(n) + (
        if args.len() == 0 {
            Seq::empty()
        } else {
            sign(Mark::LParen) + spelled_args(args, 0) + sign(Mark::RParen)
        }),
        AstView::Neg(e) => sign(Mark::Minus) + spelled(*e, 9),
        AstView::Bin(op, x, y) => match op {
            BinOp::Pow => spelled(*x, 9) + sign(operator(op)) + spelled(*y, 8),
            _ => spelled(*x, level(a)) + sign(operator(op)) + spelled(*y, level(a) + 1),
        },
        AstView::Not(e) => word("not"@) + spelled(*e, 3),
        AstView::And(x, y) => spelled(*x, 2) + word("and"@) + spelled(*y, 3),
        AstView::Or(x, y) => spelled(*x, 1) + word("or"@) + spelled(*y, 2),
        AstView::Compare(x, op, y) => spelled(*x, 5) + sign(comparison(op)) + spelled(*y, 5),
        AstView::In(x, y, negated) => spelled(*x, 5) + (if negated {
            word("not"@) + word("in"@)
        } else {
            word("in"@)
        }) + spelled(*y, 5),
        AstView::Defined(e, negated) => spelled(*e, 5) + word("is"@) + word(
            if negated {
                "undefined"@
            } else {
                "defined"@
            },
        ),
        AstView::Cond(c, b, o) => spelled(*b, 1) + word("if"@) + spelled(*c, 1) + (match o {
            Some(o) => word("else"@) + spelled(*o, 0),
            None => Seq::empty(),
        }),
    }
}

/// The arguments of a filter from the `k`-th on, with commas between them.
pub open spec fn spelled_args(args: Seq<AstView>, k: int) -> Seq<TokView>
    decreases args, args.len() - k,
{
    if k < 0 || k >= args.len() {
        Seq::empty()
    } else if k == args.len() - 1 {
        spelled(args[k], 0)
    } else {
        spelled(args[k], 0) + sign(Mark::Comma) + spelled_args(args, k + 1)
    }
}

/// The words that are no variables: the constants, and `not`.
pub open spec fn is_reserved(w: Seq<char>) -> bool {
    ||| w == "true"@
    ||| w == "True"@
    ||| w == "false"@
    ||| w == "False"@
    ||| w == "none"@
    ||| w == "None"@
    ||| w == "null"@
    ||| w == "not"@
}

/// The names of the filters.
pub open spec fn is_filter_name(n: Seq<char>) -> bool {
    ||| n == "lower"@ || n == "upper"@ || n == "capitalize"@ || n == "trim"@
    ||| n == "string"@ || n == "int"@ || n == "float"@ || n == "bool"@ || n == "abs"@
    ||| n == "default"@ || n == "d"@ || n == "ternary"@
    ||| n == "replace"@ || n == "regex_replace"@
    ||| n == "length"@ || n == "count"@ || n == "first"@ || n == "last"@ || n == "join"@
}

/// A value that has a literal: a text that at least one kind of quotes can stand around, an
/// integer that is not negative, a boolean, or nothing. (A negative integer is a sign and a
/// literal; floats are left out: how they are written is not said here.)
pub open spec fn has_literal(v: ValueView) -> bool {
    match v {
        ValueView::Text(s) => !s.contains('\'') || !s.contains('"'),
        ValueView::Int(i) => 0 <= i <= i64::MAX,
        ValueView::Bool(_) | ValueView::Null => true,
        _ => false,
    }
}

/// An expression whose names, filters and literals can be written.
pub open spec fn spellable(a: AstView) -> bool
    decreases a, 0nat,
{
    match a {
        AstView::Var(n) => is_name(n) && !is_reserved(n),
        AstView::Lit(v) => has_literal(v),
        AstView::Attr(e, n) => spellable(*e) && is_name(n),
        AstView::Index(e, i) => spellable(*e) && spellable(*i),
        AstView::Slice(e, x, y, z) => {
            &&& spellable(*e)
            &&& match x {
                Some(x) => spellable(*x),
                None => true,
            }
            &&& match y {
                Some(y) => spellable(*y),
                None => true,
            }
            &&& match z {
                Some(z) => spellable(*z),
                None => true,
            }
        },
        AstView::Filter(e, n, args) => spellable(*e) && is_filter_name(n) && all_spellable(args, 0),
        AstView::Neg(e) | AstView::Not(e) | AstView::Defined(e, _) => spellable(*e),
        AstView::Bin(_, x, y)
        | AstView::And(x, y)
        | AstView::Or(x, y)
        | AstView::Compare(x, _, y)
        | AstView::In(x, y, _) => spellable(*x) && spellable(*y),
        AstView::Cond(c, b, o) => {
            &&& spellable(*c)
            &&& spellable(*b)
            &&& match o {
                Some(o) => spellable(*o),
                None => true,
            }
        },
    }
}

/// The arguments from the `k`-th on can be written.
pub open spec fn all_spellable(args: Seq<AstView>, k: int) -> bool
    decreases args, args.len() - k,
{
    k < 0 || k >= args.len() || (spellable(args[k]) && all_spellable(args, k + 1))
}

/// The characters of a token of punctuation.
pub open spec fn mark_text(m: Mark) -> Seq<char> {
    match m {
        Mark::Pipe => seq!['|'],
        Mark::LParen => seq!['('],
        Mark::RParen => seq![')'],
        Mark::LBracket => seq!['['],
        Mark::RBracket => seq![']'],
        Mark::Comma => seq![','],
        Mark::Dot => seq!['.'],
        Mark::Colon => seq![':'],
        Mark::Plus => seq!['+'],
        Mark::Minus => seq!['-'],
        Mark::Star => seq!['*'],
        Mark::StarStar => seq!['*', '*'],
        Mark::Slash => seq!['/'],
        Mark::SlashSlash => seq!['/', '/'],
        Mark::Percent => seq!['%'],
        Mark::Tilde => seq!['~'],
        Mark::Eq => seq!['=', '='],
        Mark::Ne => seq!['!', '='],
        Mark::Lt => seq!['<'],
        Mark::Le => seq!['<', '='],
        Mark::Gt => seq!['>'],
        Mark::Ge => seq!['>', '='],
    }
}

/// The characters of a token.
pub open spec fn token_text(k: TokView) -> Seq<char> {
    match k {
        TokView::Ident(n) => n,
        TokView::Str(s) => if s.contains('\'') {
            seq!['"'] + s + seq!['"']
        } else {
            seq!['\''] + s + seq!['\'']
        },
        TokView::Int(i) => dec(i),
        TokView::Float(s) => s,
        TokView::Mark(m) => mark_text(m),
    }
}

/// A token that can be written. (Floats are left out.)
pub open spec fn has_text(k: TokView) -> bool {
    match k {
        TokView::Ident(n) => is_name(n),
        TokView::Str(s) => !s.contains('\'') || !s.contains('"'),
        TokView::Int(i) => 0 <= i <= i64::MAX,
        TokView::Float(_) => false,
        TokView::Mark(_) => true,
    }
}

/// The text of tokens, with a space behind each.
pub open spec fn text_of(ts: Seq<TokView>) -> Seq<char>
    decreases ts.len(),
{
    if ts.len() == 0 {
        Seq::empty()
    } else {
        token_text(ts[0]) + seq![' '] + text_of(ts.drop_first())
    }
}

// ---------------------------------------------------------------------------------------
// Levels
// ---------------------------------------------------------------------------------------

/// The level at which a token continues the expression before it; -1 where it does not.
spec fn strength(k: TokView) -> int {
    match k {
        TokView::Mark(m) => match m {
            Mark::LParen => 12,
            Mark::Dot | Mark::LBracket => 11,
            Mark::Pipe => 10,
            Mark::StarStar => 8,
            Mark::Star | Mark::Slash | Mark::SlashSlash | Mark::Percent => 7,
            Mark::Tilde => 6,
            Mark::Plus | Mark::Minus => 5,
            Mark::Eq | Mark::Ne | Mark::Lt | Mark::Le | Mark::Gt | Mark::Ge => 4,
            _ => -1,
        },
        TokView::Ident(w) => if w == "is"@ || w == "in"@ || w == "not"@ {
            4
        } else if w == "and"@ {
            2
        } else if w == "or"@ {
            1
        } else if w == "if"@ || w == "else"@ {
            0
        } else {
            -1
        },
        _ => -1,
    }
}

/// What stands at `q` continues nothing of level `l` or above.
spec fn quiet(t: Seq<TokView>, q: int, l: int) -> bool {
    q >= t.len() || strength(t[q]) < l
}

/// What stands at `p` may start an expression of level `l` that is no sign and no negation.
spec fn starts(t: Seq<TokView>, p: int, l: int) -> bool {
    &&& l >= 4 ==> !at_word(t, p, "not"@)
    &&& l >= 10 ==> !at_mark(t, p, Mark::Minus) && !at_mark(t, p, Mark::Plus)
}

/// The words of the grammar are different ones.
proof fn lemma_words()
    ensures
        "is"@ != "in"@,
        "is"@ != "if"@,
        "is"@ != "or"@,
        "is"@ != "and"@,
        "is"@ != "not"@,
        "is"@ != "else"@,
        "in"@ != "if"@,
        "in"@ != "or"@,
        "in"@ != "and"@,
        "in"@ != "not"@,
        "in"@ != "else"@,
        "if"@ != "or"@,
        "if"@ != "and"@,
        "if"@ != "not"@,
        "if"@ != "else"@,
        "or"@ != "and"@,
        "or"@ != "not"@,
        "or"@ != "else"@,
        "and"@ != "not"@,
        "and"@ != "else"@,
        "not"@ != "else"@,
        "defined"@ != "undefined"@,
        "not"@ != "defined"@,
        "not"@ != "undefined"@,
        "true"@ != "not"@,
        "false"@ != "not"@,
        "none"@ != "not"@,
{
    reveal_strlit("is");
    reveal_strlit("in");
    reveal_strlit("if");
    reveal_strlit("or");
    reveal_strlit("and");
    reveal_strlit("not");
    reveal_strlit("else");
    reveal_strlit("defined");
    reveal_strlit("undefined");
    reveal_strlit("true");
    reveal_strlit("false");
    reveal_strlit("none");
    assert("is"@[1] == 's' && "in"@[1] == 'n' && "if"@[1] == 'f' && "or"@[1] == 'r');
    assert("and"@[0] == 'a' && "not"@[0] == 'n');
    assert("defined"@.len() == 7 && "undefined"@.len() == 9);
    assert("none"@.len() == 4 && "not"@.len() == 3);
}

// What each production reads, by names that a proof looks into only where it says so.

// Nothing follows that a production would go on with.

spec fn ends0(t: Seq<TokView>, q: int) -> bool {
    !at_word(t, q, "if"@) && !at_word(t, q, "else"@)
}

spec fn ends1(t: Seq<TokView>, q: int) -> bool {
    !at_word(t, q, "or"@)
}

spec fn ends2(t: Seq<TokView>, q: int) -> bool {
    !at_word(t, q, "and"@)
}

spec fn ends4(t: Seq<TokView>, q: int) -> bool {
    &&& !at_word(t, q, "is"@)
    &&& !at_word(t, q, "in"@)
    &&& !at_word(t, q, "not"@)
    &&& compare_mark(t, q) is None
}

spec fn ends5(t: Seq<TokView>, q: int) -> bool {
    !at_mark(t, q, Mark::Plus) && !at_mark(t, q, Mark::Minus)
}

spec fn ends6(t: Seq<TokView>, q: int) -> bool {
    !at_mark(t, q, Mark::Tilde)
}

spec fn ends7(t: Seq<TokView>, q: int) -> bool {
    product_mark(t, q) is None
}

spec fn ends8(t: Seq<TokView>, q: int) -> bool {
    !at_mark(t, q, Mark::StarStar)
}

spec fn ends10(t: Seq<TokView>, q: int) -> bool {
    !at_mark(t, q, Mark::Pipe)
}

spec fn ends11(t: Seq<TokView>, q: int) -> bool {
    !at_mark(t, q, Mark::Dot) && !at_mark(t, q, Mark::LBracket)
}

#[verifier::opaque]
spec fn r0(t: Seq<TokView>, p: int, a: AstView, q: int) -> bool {
    0 <= p < q <= t.len() && c_ternary(t, p) == Ok::<(AstView, int), Seq<char>>((a, q))
}

#[verifier::opaque]
spec fn g0(t: Seq<TokView>, p: int, a: AstView, q: int) -> bool {
    &&& 0 <= p < q <= t.len()
    &&& ends0(t, q) ==> c_ternary(t, p) == Ok::<(AstView, int), Seq<char>>((a, q))
}

#[verifier::opaque]
spec fn r1(t: Seq<TokView>, p: int, a: AstView, q: int) -> bool {
    0 <= p < q <= t.len() && c_or(t, p) == Ok::<(AstView, int), Seq<char>>((a, q))
}

#[verifier::opaque]
spec fn g1(t: Seq<TokView>, p: int, a: AstView, q: int) -> bool {
    0 <= p < q <= t.len() && c_or(t, p) == p_or_rest(t, a, q)
}

#[verifier::opaque]
spec fn r2(t: Seq<TokView>, p: int, a: AstView, q: int) -> bool {
    0 <= p < q <= t.len() && c_and(t, p) == Ok::<(AstView, int), Seq<char>>((a, q))
}

#[verifier::opaque]
spec fn g2(t: Seq<TokView>, p: int, a: AstView, q: int) -> bool {
    0 <= p < q <= t.len() && c_and(t, p) == p_and_rest(t, a, q)
}

#[verifier::opaque]
spec fn r3(t: Seq<TokView>, p: int, a: AstView, q: int) -> bool {
    0 <= p < q <= t.len() && c_not(t, p) == Ok::<(AstView, int), Seq<char>>((a, q))
}

#[verifier::opaque]
spec fn g3(t: Seq<TokView>, p: int, a: AstView, q: int) -> bool {
    0 <= p < q <= t.len() && c_not(t, p) == Ok::<(AstView, int), Seq<char>>((a, q))
}

#[verifier::opaque]
spec fn r4(t: Seq<TokView>, p: int, a: AstView, q: int) -> bool {
    0 <= p < q <= t.len() && c_comparison(t, p) == Ok::<(AstView, int), Seq<char>>((a, q))
}

#[verifier::opaque]
spec fn g4(t: Seq<TokView>, p: int, a: AstView, q: int) -> bool {
    &&& 0 <= p < q <= t.len()
    &&& ends4(t, q) ==> c_comparison(t, p) == Ok::<(AstView, int), Seq<char>>((a, q))
}

#[verifier::opaque]
spec fn r5(t: Seq<TokView>, p: int, a: AstView, q: int) -> bool {
    0 <= p < q <= t.len() && c_addsub(t, p) == Ok::<(AstView, int), Seq<char>>((a, q))
}

#[verifier::opaque]
spec fn g5(t: Seq<TokView>, p: int, a: AstView, q: int) -> bool {
    0 <= p < q <= t.len() && c_addsub(t, p) == p_addsub_rest(t, a, q)
}

#[verifier::opaque]
spec fn r6(t: Seq<TokView>, p: int, a: AstView, q: int) -> bool {
    0 <= p < q <= t.len() && c_concat(t, p) == Ok::<(AstView, int), Seq<char>>((a, q))
}

#[verifier::opaque]
spec fn g6(t: Seq<TokView>, p: int, a: AstView, q: int) -> bool {
    0 <= p < q <= t.len() && c_concat(t, p) == p_concat_rest(t, a, q)
}

#[verifier::opaque]
spec fn r7(t: Seq<TokView>, p: int, a: AstView, q: int) -> bool {
    0 <= p < q <= t.len() && c_muldiv(t, p) == Ok::<(AstView, int), Seq<char>>((a, q))
}

#[verifier::opaque]
spec fn g7(t: Seq<TokView>, p: int, a: AstView, q: int) -> bool {
    0 <= p < q <= t.len() && c_muldiv(t, p) == p_muldiv_rest(t, a, q)
}

#[verifier::opaque]
spec fn r8(t: Seq<TokView>, p: int, a: AstView, q: int) -> bool {
    0 <= p < q <= t.len() && c_pow(t, p) == Ok::<(AstView, int), Seq<char>>((a, q))
}

#[verifier::opaque]
spec fn g8(t: Seq<TokView>, p: int, a: AstView, q: int) -> bool {
    &&& 0 <= p < q <= t.len()
    &&& ends8(t, q) ==> c_pow(t, p) == Ok::<(AstView, int), Seq<char>>((a, q))
}

#[verifier::opaque]
spec fn r9(t: Seq<TokView>, p: int, a: AstView, q: int) -> bool {
    0 <= p < q <= t.len() && c_unary(t, p) == Ok::<(AstView, int), Seq<char>>((a, q))
}

#[verifier::opaque]
spec fn g9(t: Seq<TokView>, p: int, a: AstView, q: int) -> bool {
    0 <= p < q <= t.len() && c_unary(t, p) == Ok::<(AstView, int), Seq<char>>((a, q))
}

#[verifier::opaque]
spec fn r10(t: Seq<TokView>, p: int, a: AstView, q: int) -> bool {
    0 <= p < q <= t.len() && c_filter(t, p) == Ok::<(AstView, int), Seq<char>>((a, q))
}

#[verifier::opaque]
spec fn g10(t: Seq<TokView>, p: int, a: AstView, q: int) -> bool {
    0 <= p < q <= t.len() && c_filter(t, p) == p_filter_rest(t, a, q)
}

#[verifier::opaque]
spec fn r11(t: Seq<TokView>, p: int, a: AstView, q: int) -> bool {
    0 <= p < q <= t.len() && c_postfix(t, p) == Ok::<(AstView, int), Seq<char>>((a, q))
}

#[verifier::opaque]
spec fn g11(t: Seq<TokView>, p: int, a: AstView, q: int) -> bool {
    0 <= p < q <= t.len() && c_postfix(t, p) == p_postfix_rest(t, a, q)
}

/// The production of a level reads the tokens from `p` to `q` as an expression, and goes on
/// behind it where an operator of that level follows.
spec fn goes(l: int, t: Seq<TokView>, p: int, a: AstView, q: int) -> bool {
    if l == 0 {
        g0(t, p, a, q)
    } else if l == 1 {
        g1(t, p, a, q)
    } else if l == 2 {
        g2(t, p, a, q)
    } else if l == 3 {
        g3(t, p, a, q)
    } else if l == 4 {
        g4(t, p, a, q)
    } else if l == 5 {
        g5(t, p, a, q)
    } else if l == 6 {
        g6(t, p, a, q)
    } else if l == 7 {
        g7(t, p, a, q)
    } else if l == 8 {
        g8(t, p, a, q)
    } else if l == 9 {
        g9(t, p, a, q)
    } else if l == 10 {
        g10(t, p, a, q)
    } else {
        g11(t, p, a, q)
    }
}

/// The production of a level reads the tokens from `p` to `q` as an expression.
spec fn reads(l: int, t: Seq<TokView>, p: int, a: AstView, q: int) -> bool {
    if l == 0 {
        r0(t, p, a, q)
    } else if l == 1 {
        r1(t, p, a, q)
    } else if l == 2 {
        r2(t, p, a, q)
    } else if l == 3 {
        r3(t, p, a, q)
    } else if l == 4 {
        r4(t, p, a, q)
    } else if l == 5 {
        r5(t, p, a, q)
    } else if l == 6 {
        r6(t, p, a, q)
    } else if l == 7 {
        r7(t, p, a, q)
    } else if l == 8 {
        r8(t, p, a, q)
    } else if l == 9 {
        r9(t, p, a, q)
    } else if l == 10 {
        r10(t, p, a, q)
    } else {
        r11(t, p, a, q)
    }
}

proof fn lemma_done0(t: Seq<TokView>, p: int, a: AstView, q: int)
    requires
        g0(t, p, a, q),
        ends0(t, q),
    ensures
        r0(t, p, a, q),
{
    reveal(g0);
    reveal(r0);
}

proof fn lemma_done1(t: Seq<TokView>, p: int, a: AstView, q: int)
    requires
        g1(t, p, a, q),
        ends1(t, q),
    ensures
        r1(t, p, a, q),
{
    reveal(g1);
    reveal(r1);
    assert(p_or_rest(t, a, q) == Ok::<(AstView, int), Seq<char>>((a, q)));
}

proof fn lemma_done2(t: Seq<TokView>, p: int, a: AstView, q: int)
    requires
        g2(t, p, a, q),
        ends2(t, q),
    ensures
        r2(t, p, a, q),
{
    reveal(g2);
    reveal(r2);
    assert(p_and_rest(t, a, q) == Ok::<(AstView, int), Seq<char>>((a, q)));
}

proof fn lemma_done3(t: Seq<TokView>, p: int, a: AstView, q: int)
    requires
        g3(t, p, a, q),
    ensures
        r3(t, p, a, q),
{
    reveal(g3);
    reveal(r3);
}

proof fn lemma_done4(t: Seq<TokView>, p: int, a: AstView, q: int)
    requires
        g4(t, p, a, q),
        ends4(t, q),
    ensures
        r4(t, p, a, q),
{
    reveal(g4);
    reveal(r4);
}

proof fn lemma_done5(t: Seq<TokView>, p: int, a: AstView, q: int)
    requires
        g5(t, p, a, q),
        ends5(t, q),
    ensures
        r5(t, p, a, q),
{
    reveal(g5);
    reveal(r5);
    assert(p_addsub_rest(t, a, q) == Ok::<(AstView, int), Seq<char>>((a, q)));
}

proof fn lemma_done6(t: Seq<TokView>, p: int, a: AstView, q: int)
    requires
        g6(t, p, a, q),
        ends6(t, q),
    ensures
        r6(t, p, a, q),
{
    reveal(g6);
    reveal(r6);
    assert(p_concat_rest(t, a, q) == Ok::<(AstView, int), Seq<char>>((a, q)));
}

proof fn lemma_done7(t: Seq<TokView>, p: int, a: AstView, q: int)
    requires
        g7(t, p, a, q),
        ends7(t, q),
    ensures
        r7(t, p, a, q),
{
    reveal(g7);
    reveal(r7);
    assert(p_muldiv_rest(t, a, q) == Ok::<(AstView, int), Seq<char>>((a, q)));
}

proof fn lemma_done8(t: Seq<TokView>, p: int, a: AstView, q: int)
    requires
        g8(t, p, a, q),
        ends8(t, q),
    ensures
        r8(t, p, a, q),
{
    reveal(g8);
    reveal(r8);
}

proof fn lemma_done9(t: Seq<TokView>, p: int, a: AstView, q: int)
    requires
        g9(t, p, a, q),
    ensures
        r9(t, p, a, q),
{
    reveal(g9);
    reveal(r9);
}

proof fn lemma_done10(t: Seq<TokView>, p: int, a: AstView, q: int)
    requires
        g10(t, p, a, q),
        ends10(t, q),
    ensures
        r10(t, p, a, q),
{
    reveal(g10);
    reveal(r10);
    assert(p_filter_rest(t, a, q) == Ok::<(AstView, int), Seq<char>>((a, q)));
}

proof fn lemma_done11(t: Seq<TokView>, p: int, a: AstView, q: int)
    requires
        g11(t, p, a, q),
        ends11(t, q),
    ensures
        r11(t, p, a, q),
{
    reveal(g11);
    reveal(r11);
    assert(p_postfix_rest(t, a, q) == Ok::<(AstView, int), Seq<char>>((a, q)));
}

proof fn lemma_up0(t: Seq<TokView>, p: int, a: AstView, q: int)
    requires
        r1(t, p, a, q),
    ensures
        g0(t, p, a, q),
{
    reveal(r1);
    reveal(g0);
    if ends0(t, q) {
        assert(p_ternary(t, p) == Ok::<(AstView, int), Seq<char>>((a, q)));
    }
}

proof fn lemma_up1(t: Seq<TokView>, p: int, a: AstView, q: int)
    requires
        r2(t, p, a, q),
    ensures
        g1(t, p, a, q),
{
    reveal(r2);
    reveal(g1);
    assert(p_or(t, p) == p_or_rest(t, a, q));
}

proof fn lemma_up2(t: Seq<TokView>, p: int, a: AstView, q: int)
    requires
        r3(t, p, a, q),
    ensures
        g2(t, p, a, q),
{
    reveal(r3);
    reveal(g2);
    assert(p_and(t, p) == p_and_rest(t, a, q));
}

proof fn lemma_up3(t: Seq<TokView>, p: int, a: AstView, q: int)
    requires
        r4(t, p, a, q),
        !at_word(t, p, "not"@),
    ensures
        g3(t, p, a, q),
{
    reveal(r4);
    reveal(g3);
    assert(p_not(t, p) == Ok::<(AstView, int), Seq<char>>((a, q)));
}

proof fn lemma_up4(t: Seq<TokView>, p: int, a: AstView, q: int)
    requires
        r5(t, p, a, q),
    ensures
        g4(t, p, a, q),
{
    reveal(r5);
    reveal(g4);
    if ends4(t, q) {
        assert(p_comparison(t, p) == Ok::<(AstView, int), Seq<char>>((a, q)));
    }
}

proof fn lemma_up5(t: Seq<TokView>, p: int, a: AstView, q: int)
    requires
        r6(t, p, a, q),
    ensures
        g5(t, p, a, q),
{
    reveal(r6);
    reveal(g5);
    assert(p_addsub(t, p) == p_addsub_rest(t, a, q));
}

proof fn lemma_up6(t: Seq<TokView>, p: int, a: AstView, q: int)
    requires
        r7(t, p, a, q),
    ensures
        g6(t, p, a, q),
{
    reveal(r7);
    reveal(g6);
    assert(p_concat(t, p) == p_concat_rest(t, a, q));
}

proof fn lemma_up7(t: Seq<TokView>, p: int, a: AstView, q: int)
    requires
        r8(t, p, a, q),
    ensures
        g7(t, p, a, q),
{
    reveal(r8);
    reveal(g7);
    assert(p_muldiv(t, p) == p_muldiv_rest(t, a, q));
}

proof fn lemma_up8(t: Seq<TokView>, p: int, a: AstView, q: int)
    requires
        r9(t, p, a, q),
    ensures
        g8(t, p, a, q),
{
    reveal(r9);
    reveal(g8);
    if ends8(t, q) {
        assert(p_pow(t, p) == Ok::<(AstView, int), Seq<char>>((a, q)));
    }
}

proof fn lemma_up9(t: Seq<TokView>, p: int, a: AstView, q: int)
    requires
        r10(t, p, a, q),
        !at_mark(t, p, Mark::Minus),
        !at_mark(t, p, Mark::Plus),
    ensures
        g9(t, p, a, q),
{
    reveal(r10);
    reveal(g9);
    assert(p_unary(t, p) == Ok::<(AstView, int), Seq<char>>((a, q)));
}

proof fn lemma_up10(t: Seq<TokView>, p: int, a: AstView, q: int)
    requires
        r11(t, p, a, q),
    ensures
        g10(t, p, a, q),
{
    reveal(r11);
    reveal(g10);
    assert(p_filter(t, p) == p_filter_rest(t, a, q));
}

proof fn lemma_done(l: int, t: Seq<TokView>, p: int, a: AstView, q: int)
    requires
        0 <= l <= 11,
        goes(l, t, p, a, q),
        quiet(t, q, l),
    ensures
        reads(l, t, p, a, q),
{
    lemma_words();
    if l == 0 {
        lemma_done0(t, p, a, q);
    } else if l == 1 {
        lemma_done1(t, p, a, q);
    } else if l == 2 {
        lemma_done2(t, p, a, q);
    } else if l == 3 {
        lemma_done3(t, p, a, q);
    } else if l == 4 {
        lemma_done4(t, p, a, q);
    } else if l == 5 {
        lemma_done5(t, p, a, q);
    } else if l == 6 {
        lemma_done6(t, p, a, q);
    } else if l == 7 {
        lemma_done7(t, p, a, q);
    } else if l == 8 {
        lemma_done8(t, p, a, q);
    } else if l == 9 {
        lemma_done9(t, p, a, q);
    } else if l == 10 {
        lemma_done10(t, p, a, q);
    } else {
        lemma_done11(t, p, a, q);
    }
}

proof fn lemma_up(l: int, t: Seq<TokView>, p: int, a: AstView, q: int)
    requires
        0 <= l < 11,
        reads(l + 1, t, p, a, q),
        starts(t, p, l + 1),
    ensures
        goes(l, t, p, a, q),
{
    if l == 0 {
        lemma_up0(t, p, a, q);
    } else if l == 1 {
        lemma_up1(t, p, a, q);
    } else if l == 2 {
        lemma_up2(t, p, a, q);
    } else if l == 3 {
        lemma_up3(t, p, a, q);
    } else if l == 4 {
        lemma_up4(t, p, a, q);
    } else if l == 5 {
        lemma_up5(t, p, a, q);
    } else if l == 6 {
        lemma_up6(t, p, a, q);
    } else if l == 7 {
        lemma_up7(t, p, a, q);
    } else if l == 8 {
        lemma_up8(t, p, a, q);
    } else if l == 9 {
        lemma_up9(t, p, a, q);
    } else {
        lemma_up10(t, p, a, q);
    }
}

/// What an expression is at one level, it is at every level below.
proof fn lemma_climb(k: int, l: int, t: Seq<TokView>, p: int, a: AstView, q: int)
    requires
        0 <= l <= k <= 11,
        goes(k, t, p, a, q),
        starts(t, p, k),
        quiet(t, q, l + 1),
    ensures
        goes(l, t, p, a, q),
        starts(t, p, l),
    decreases k - l,
{
    if l < k {
        lemma_done(k, t, p, a, q);
        lemma_up(k - 1, t, p, a, q);
        lemma_climb(k - 1, l, t, p, a, q);
    }
}

// ---------------------------------------------------------------------------------------
// Expressions from their parts
// ---------------------------------------------------------------------------------------

proof fn lemma_or(t: Seq<TokView>, p: int, a: AstView, m: int, b: AstView, q: int)
    requires
        g1(t, p, a, m),
        at_word(t, m, "or"@),
        r2(t, m + 1, b, q),
    ensures
        g1(t, p, AstView::Or(Box::new(a), Box::new(b)), q),
{
    reveal(g1);
    reveal(r2);
    assert(p_or_rest(t, a, m) == p_or_rest(t, AstView::Or(Box::new(a), Box::new(b)), q));
}

proof fn lemma_and(t: Seq<TokView>, p: int, a: AstView, m: int, b: AstView, q: int)
    requires
        g2(t, p, a, m),
        at_word(t, m, "and"@),
        r3(t, m + 1, b, q),
    ensures
        g2(t, p, AstView::And(Box::new(a), Box::new(b)), q),
{
    reveal(g2);
    reveal(r3);
    assert(p_and_rest(t, a, m) == p_and_rest(t, AstView::And(Box::new(a), Box::new(b)), q));
}

proof fn lemma_not(t: Seq<TokView>, p: int, a: AstView, q: int)
    requires
        at_word(t, p, "not"@),
        r3(t, p + 1, a, q),
    ensures
        g3(t, p, AstView::Not(Box::new(a)), q),
{
    reveal(g3);
    reveal(r3);
    assert(p_not(t, p) == Ok::<(AstView, int), Seq<char>>((AstView::Not(Box::new(a)), q)));
}

/// A comparison whose operands are read.
proof fn lemma_compared(
    t: Seq<TokView>,
    p: int,
    a: AstView,
    m: int,
    op: CompareOp,
    b: AstView,
    q: int,
)
    requires
        c_addsub(t, p) == Ok::<(AstView, int), Seq<char>>((a, m)),
        p < m <= t.len(),
        !at_word(t, m, "is"@),
        !at_word(t, m, "not"@),
        !at_word(t, m, "in"@),
        compare_mark(t, m) == Some(op),
        c_addsub(t, m + 1) == Ok::<(AstView, int), Seq<char>>((b, q)),
    ensures
        p_comparison(t, p) == Ok::<(AstView, int), Seq<char>>(
            (AstView::Compare(Box::new(a), op, Box::new(b)), q),
        ),
{
}

proof fn lemma_compare_mark(t: Seq<TokView>, m: int, op: CompareOp)
    requires
        at_mark(t, m, comparison(op)),
    ensures
        !at_word(t, m, "is"@),
        !at_word(t, m, "not"@),
        !at_word(t, m, "in"@),
        compare_mark(t, m) == Some(op),
{
}

proof fn lemma_compare(
    t: Seq<TokView>,
    p: int,
    a: AstView,
    m: int,
    op: CompareOp,
    b: AstView,
    q: int,
)
    requires
        r5(t, p, a, m),
        at_mark(t, m, comparison(op)),
        r5(t, m + 1, b, q),
    ensures
        g4(t, p, AstView::Compare(Box::new(a), op, Box::new(b)), q),
{
    reveal(r5);
    lemma_compare_mark(t, m, op);
    lemma_compared(t, p, a, m, op, b, q);
    reveal(g4);
}

/// A membership whose operands are read.
proof fn lemma_contained(
    t: Seq<TokView>,
    p: int,
    a: AstView,
    m: int,
    b: AstView,
    negated: bool,
    q: int,
)
    requires
        c_addsub(t, p) == Ok::<(AstView, int), Seq<char>>((a, m)),
        p < m <= t.len(),
        if negated {
            at_word(t, m, "not"@) && at_word(t, m + 1, "in"@) && c_addsub(t, m + 2) == Ok::<
                (AstView, int),
                Seq<char>,
            >((b, q))
        } else {
            at_word(t, m, "in"@) && c_addsub(t, m + 1) == Ok::<(AstView, int), Seq<char>>((b, q))
        },
    ensures
        p_comparison(t, p) == Ok::<(AstView, int), Seq<char>>(
            (AstView::In(Box::new(a), Box::new(b), negated), q),
        ),
{
    lemma_words();
    assert(!at_word(t, m, "is"@));
    if !negated {
        assert(!at_word(t, m, "not"@));
    }
}

proof fn lemma_in(
    t: Seq<TokView>,
    p: int,
    a: AstView,
    m: int,
    b: AstView,
    negated: bool,
    q: int,
)
    requires
        r5(t, p, a, m),
        if negated {
            at_word(t, m, "not"@) && at_word(t, m + 1, "in"@) && r5(t, m + 2, b, q)
        } else {
            at_word(t, m, "in"@) && r5(t, m + 1, b, q)
        },
    ensures
        g4(t, p, AstView::In(Box::new(a), Box::new(b), negated), q),
{
    reveal(r5);
    lemma_contained(t, p, a, m, b, negated, q);
    reveal(g4);
}

/// A test whose operand is read.
proof fn lemma_tested(t: Seq<TokView>, p: int, a: AstView, m: int, negated: bool)
    requires
        c_addsub(t, p) == Ok::<(AstView, int), Seq<char>>((a, m)),
        p < m <= t.len(),
        at_word(t, m, "is"@),
        at_word(
            t,
            m + 1,
            if negated {
                "undefined"@
            } else {
                "defined"@
            },
        ),
    ensures
        p_comparison(t, p) == Ok::<(AstView, int), Seq<char>>(
            (AstView::Defined(Box::new(a), negated), m + 2),
        ),
{
    lemma_words();
    assert(!at_word(t, m + 1, "not"@));
    if negated {
        assert(!at_word(t, m + 1, "defined"@));
    }
}

proof fn lemma_defined(t: Seq<TokView>, p: int, a: AstView, m: int, negated: bool)
    requires
        r5(t, p, a, m),
        at_word(t, m, "is"@),
        at_word(
            t,
            m + 1,
            if negated {
                "undefined"@
            } else {
                "defined"@
            },
        ),
    ensures
        g4(t, p, AstView::Defined(Box::new(a), negated), m + 2),
{
    reveal(r5);
    lemma_tested(t, p, a, m, negated);
    reveal(g4);
}

proof fn lemma_sum(t: Seq<TokView>, p: int, a: AstView, m: int, op: BinOp, b: AstView, q: int)
    requires
        op is Add || op is Sub,
        g5(t, p, a, m),
        at_mark(t, m, operator(op)),
        r6(t, m + 1, b, q),
    ensures
        g5(t, p, AstView::Bin(op, Box::new(a), Box::new(b)), q),
{
    reveal(g5);
    reveal(r6);
    let c = AstView::Bin(op, Box::new(a), Box::new(b));
    assert(p_addsub_rest(t, a, m) == p_addsub_rest(t, c, q));
}

proof fn lemma_concat(t: Seq<TokView>, p: int, a: AstView, m: int, b: AstView, q: int)
    requires
        g6(t, p, a, m),
        at_mark(t, m, Mark::Tilde),
        r7(t, m + 1, b, q),
    ensures
        g6(t, p, AstView::Bin(BinOp::Concat, Box::new(a), Box::new(b)), q),
{
    reveal(g6);
    reveal(r7);
    let c = AstView::Bin(BinOp::Concat, Box::new(a), Box::new(b));
    assert(p_concat_rest(t, a, m) == p_concat_rest(t, c, q));
}

proof fn lemma_product(
    t: Seq<TokView>,
    p: int,
    a: AstView,
    m: int,
    op: BinOp,
    b: AstView,
    q: int,
)
    requires
        op is Mul || op is Div || op is FloorDiv || op is Mod,
        g7(t, p, a, m),
        at_mark(t, m, operator(op)),
        r8(t, m + 1, b, q),
    ensures
        g7(t, p, AstView::Bin(op, Box::new(a), Box::new(b)), q),
{
    reveal(g7);
    reveal(r8);
    let c = AstView::Bin(op, Box::new(a), Box::new(b));
    assert(product_mark(t, m) == Some(op));
    assert(p_muldiv_rest(t, a, m) == p_muldiv_rest(t, c, q));
}

proof fn lemma_power(t: Seq<TokView>, p: int, a: AstView, m: int, b: AstView, q: int)
    requires
        r9(t, p, a, m),
        at_mark(t, m, Mark::StarStar),
        r8(t, m + 1, b, q),
    ensures
        g8(t, p, AstView::Bin(BinOp::Pow, Box::new(a), Box::new(b)), q),
{
    reveal(g8);
    reveal(r8);
    reveal(r9);
    let c = AstView::Bin(BinOp::Pow, Box::new(a), Box::new(b));
    assert(p_pow(t, p) == Ok::<(AstView, int), Seq<char>>((c, q)));
}

proof fn lemma_neg(t: Seq<TokView>, p: int, a: AstView, q: int)
    requires
        at_mark(t, p, Mark::Minus),
        r9(t, p + 1, a, q),
    ensures
        g9(t, p, AstView::Neg(Box::new(a)), q),
{
    reveal(g9);
    reveal(r9);
    assert(p_unary(t, p) == Ok::<(AstView, int), Seq<char>>((AstView::Neg(Box::new(a)), q)));
}

proof fn lemma_bare_conditional(
    t: Seq<TokView>,
    p: int,
    b: AstView,
    m: int,
    c: AstView,
    n: int,
)
    requires
        r1(t, p, b, m),
        at_word(t, m, "if"@),
        r1(t, m + 1, c, n),
    ensures
        g0(t, p, AstView::Cond(Box::new(c), Box::new(b), None), n),
{
    reveal(g0);
    reveal(r1);
    let d = AstView::Cond(Box::new(c), Box::new(b), None);
    if ends0(t, n) {
        assert(p_ternary(t, p) == Ok::<(AstView, int), Seq<char>>((d, n)));
    }
}

proof fn lemma_conditional(
    t: Seq<TokView>,
    p: int,
    b: AstView,
    m: int,
    c: AstView,
    n: int,
    o: AstView,
    q: int,
)
    requires
        r1(t, p, b, m),
        at_word(t, m, "if"@),
        r1(t, m + 1, c, n),
        at_word(t, n, "else"@),
        r0(t, n + 1, o, q),
    ensures
        g0(t, p, AstView::Cond(Box::new(c), Box::new(b), Some(Box::new(o))), q),
{
    reveal(g0);
    reveal(r1);
    reveal(r0);
    let d = AstView::Cond(Box::new(c), Box::new(b), Some(Box::new(o)));
    assert(p_ternary(t, p) == Ok::<(AstView, int), Seq<char>>((d, q)));
}

proof fn lemma_filter(t: Seq<TokView>, p: int, e: AstView, m: int, n: Seq<char>)
    requires
        g10(t, p, e, m),
        at_mark(t, m, Mark::Pipe),
        at_word(t, m + 1, n),
        known_filter(n),
        !at_mark(t, m + 2, Mark::LParen),
    ensures
        g10(t, p, AstView::Filter(Box::new(e), n, Seq::empty()), m + 2),
{
    reveal(g10);
    let c = AstView::Filter(Box::new(e), n, Seq::empty());
    assert(p_filter_rest(t, e, m) == p_filter_rest(t, c, m + 2));
}

/// The arguments of a filter, from behind the parenthesis on.
#[verifier::opaque]
spec fn call_read(t: Seq<TokView>, p: int, args: Seq<AstView>, q: int) -> bool {
    0 <= p <= q < t.len() && c_args(t, p) == Ok::<(Seq<AstView>, int), Seq<char>>((args, q))
}

proof fn lemma_call(t: Seq<TokView>, p: int, args: Seq<AstView>, q: int)
    requires
        args_read(t, p, args, q),
        !at_mark(t, p, Mark::RParen),
        at_mark(t, q, Mark::RParen),
    ensures
        call_read(t, p, args, q),
{
    reveal(args_read);
    reveal(call_read);
    assert(p_args(t, p) == p_arg_list(t, p));
}

proof fn lemma_filter_args(
    t: Seq<TokView>,
    p: int,
    e: AstView,
    m: int,
    n: Seq<char>,
    args: Seq<AstView>,
    q: int,
)
    requires
        g10(t, p, e, m),
        at_mark(t, m, Mark::Pipe),
        at_word(t, m + 1, n),
        known_filter(n),
        at_mark(t, m + 2, Mark::LParen),
        call_read(t, m + 3, args, q),
        at_mark(t, q, Mark::RParen),
    ensures
        g10(t, p, AstView::Filter(Box::new(e), n, args), q + 1),
{
    reveal(g10);
    reveal(call_read);
    let c = AstView::Filter(Box::new(e), n, args);
    assert(p_filter_rest(t, e, m) == p_filter_rest(t, c, q + 1));
}

/// The tokens from `p` to `q` are arguments.
#[verifier::opaque]
spec fn args_read(t: Seq<TokView>, p: int, args: Seq<AstView>, q: int) -> bool {
    0 <= p < q <= t.len() && p_arg_list(t, p) == Ok::<(Seq<AstView>, int), Seq<char>>((args, q))
}

proof fn lemma_last_arg(t: Seq<TokView>, p: int, a: AstView, q: int)
    requires
        r0(t, p, a, q),
        !at_mark(t, q, Mark::Comma),
    ensures
        args_read(t, p, seq![a], q),
{
    reveal(r0);
    reveal(args_read);
}

proof fn lemma_next_arg(
    t: Seq<TokView>,
    p: int,
    a: AstView,
    m: int,
    more: Seq<AstView>,
    q: int,
)
    requires
        r0(t, p, a, m),
        at_mark(t, m, Mark::Comma),
        args_read(t, m + 1, more, q),
    ensures
        args_read(t, p, seq![a] + more, q),
{
    reveal(r0);
    reveal(args_read);
}

proof fn lemma_attribute(t: Seq<TokView>, p: int, e: AstView, m: int, n: Seq<char>)
    requires
        g11(t, p, e, m),
        at_mark(t, m, Mark::Dot),
        at_word(t, m + 1, n),
    ensures
        g11(t, p, AstView::Attr(Box::new(e), n), m + 2),
{
    reveal(g11);
    let c = AstView::Attr(Box::new(e), n);
    assert(p_postfix_rest(t, e, m) == p_postfix_rest(t, c, m + 2));
}

/// A part of a slice from `p` to `q`, or none.
#[verifier::opaque]
spec fn part_read(t: Seq<TokView>, p: int, x: Option<Box<AstView>>, q: int) -> bool {
    0 <= p <= q <= t.len() && c_part(t, p, x is None) == Ok::<
        (Option<Box<AstView>>, int),
        Seq<char>,
    >((x, q))
}

proof fn lemma_part(t: Seq<TokView>, p: int, a: AstView, q: int)
    requires
        r0(t, p, a, q),
    ensures
        part_read(t, p, Some(Box::new(a)), q),
{
    reveal(r0);
    reveal(part_read);
    assert(p_part(t, p, false) == Ok::<(Option<Box<AstView>>, int), Seq<char>>(
        (Some(Box::new(a)), q),
    ));
}

proof fn lemma_no_part(t: Seq<TokView>, p: int)
    requires
        0 <= p <= t.len(),
    ensures
        part_read(t, p, None, p),
{
    reveal(part_read);
    assert(p_part(t, p, true) == Ok::<(Option<Box<AstView>>, int), Seq<char>>((None, p)));
}

/// A subscript from behind the bracket on.
#[verifier::opaque]
spec fn subscript_read(t: Seq<TokView>, e: AstView, p: int, a: AstView, q: int) -> bool {
    0 <= p < q <= t.len() && c_subscript(t, e, p) == Ok::<(AstView, int), Seq<char>>((a, q))
}

/// An expression with a subscript behind it.
proof fn lemma_subscript(t: Seq<TokView>, p: int, e: AstView, m: int, a: AstView, q: int)
    requires
        g11(t, p, e, m),
        at_mark(t, m, Mark::LBracket),
        subscript_read(t, e, m + 1, a, q),
    ensures
        g11(t, p, a, q),
{
    reveal(g11);
    reveal(subscript_read);
    assert(p_postfix_rest(t, e, m) == p_postfix_rest(t, a, q));
}

proof fn lemma_index(t: Seq<TokView>, e: AstView, p: int, i: AstView, q: int)
    requires
        !at_mark(t, p, Mark::Colon),
        part_read(t, p, Some(Box::new(i)), q),
        at_mark(t, q, Mark::RBracket),
    ensures
        subscript_read(t, e, p, AstView::Index(Box::new(e), Box::new(i)), q + 1),
{
    reveal(part_read);
    reveal(subscript_read);
    let c = AstView::Index(Box::new(e), Box::new(i));
    assert(closed_at(t, c, q) == Ok::<(AstView, int), Seq<char>>((c, q + 1)));
    assert(p_subscript(t, e, p) == Ok::<(AstView, int), Seq<char>>((c, q + 1)));
}

/// Neither a colon nor a closing bracket stands at `p`.
spec fn no_end(t: Seq<TokView>, p: int) -> bool {
    !at_mark(t, p, Mark::Colon) && !at_mark(t, p, Mark::RBracket)
}

/// A slice from its first colon on.
#[verifier::opaque]
spec fn slice_read(
    t: Seq<TokView>,
    e: AstView,
    x: Option<Box<AstView>>,
    p: int,
    a: AstView,
    q: int,
) -> bool {
    0 <= p < q <= t.len() && c_slice(t, e, x, p) == Ok::<(AstView, int), Seq<char>>((a, q))
}

proof fn lemma_slice(
    t: Seq<TokView>,
    e: AstView,
    p: int,
    x: Option<Box<AstView>>,
    i: int,
    a: AstView,
    q: int,
)
    requires
        part_read(t, p, x, i),
        x is Some <==> !at_mark(t, p, Mark::Colon),
        at_mark(t, i, Mark::Colon),
        slice_read(t, e, x, i, a, q),
    ensures
        subscript_read(t, e, p, a, q),
{
    reveal(part_read);
    reveal(slice_read);
    reveal(subscript_read);
    assert(p_subscript(t, e, p) == Ok::<(AstView, int), Seq<char>>((a, q)));
}

proof fn lemma_short_slice(
    t: Seq<TokView>,
    e: AstView,
    x: Option<Box<AstView>>,
    p: int,
    y: Option<Box<AstView>>,
    q: int,
)
    requires
        at_mark(t, p, Mark::Colon),
        part_read(t, p + 1, y, q),
        y is Some <==> no_end(t, p + 1),
        at_mark(t, q, Mark::RBracket),
    ensures
        slice_read(t, e, x, p, AstView::Slice(Box::new(e), x, y, None), q + 1),
{
    reveal(part_read);
    reveal(slice_read);
    let c = AstView::Slice(Box::new(e), x, y, None);
    assert(closed_at(t, c, q) == Ok::<(AstView, int), Seq<char>>((c, q + 1)));
    assert(p_slice(t, e, x, p) == Ok::<(AstView, int), Seq<char>>((c, q + 1)));
}

/// A slice whose parts are read.
proof fn lemma_sliced(
    t: Seq<TokView>,
    e: AstView,
    x: Option<Box<AstView>>,
    p: int,
    y: Option<Box<AstView>>,
    j: int,
    z: Box<AstView>,
    q: int,
)
    requires
        at_mark(t, p, Mark::Colon),
        p < j,
        c_part(
            t,
            p + 1,
            at_mark(t, p + 1, Mark::Colon) || at_mark(t, p + 1, Mark::RBracket),
        ) == Ok::<(Option<Box<AstView>>, int), Seq<char>>((y, j)),
        at_mark(t, j, Mark::Colon),
        c_part(t, j + 1, at_mark(t, j + 1, Mark::RBracket)) == Ok::<
            (Option<Box<AstView>>, int),
            Seq<char>,
        >((Some(z), q)),
        at_mark(t, q, Mark::RBracket),
    ensures
        p_slice(t, e, x, p) == Ok::<(AstView, int), Seq<char>>(
            (AstView::Slice(Box::new(e), x, y, Some(z)), q + 1),
        ),
{
}

proof fn lemma_long_slice(
    t: Seq<TokView>,
    e: AstView,
    x: Option<Box<AstView>>,
    p: int,
    y: Option<Box<AstView>>,
    j: int,
    z: Box<AstView>,
    q: int,
)
    requires
        at_mark(t, p, Mark::Colon),
        part_read(t, p + 1, y, j),
        y is Some <==> no_end(t, p + 1),
        at_mark(t, j, Mark::Colon),
        part_read(t, j + 1, Some(z), q),
        no_end(t, j + 1),
        at_mark(t, q, Mark::RBracket),
    ensures
        slice_read(t, e, x, p, AstView::Slice(Box::new(e), x, y, Some(z)), q + 1),
{
    reveal(part_read);
    reveal(slice_read);
    lemma_sliced(t, e, x, p, y, j, z, q);
}

proof fn lemma_parenthesis(t: Seq<TokView>, p: int, a: AstView, m: int)
    requires
        0 <= p,
        at_mark(t, p, Mark::LParen),
        r0(t, p + 1, a, m),
        at_mark(t, m, Mark::RParen),
    ensures
        g11(t, p, a, m + 1),
{
    reveal(g11);
    reveal(r0);
    assert(p_primary(t, p) == Ok::<(AstView, int), Seq<char>>((a, m + 1)));
    assert(c_primary(t, p) == p_primary(t, p));
    assert(p_postfix(t, p) == p_postfix_rest(t, a, m + 1));
}

/// The token of a variable or a literal.
proof fn lemma_atom(t: Seq<TokView>, p: int, a: AstView)
    requires
        a is Var || a is Lit,
        spellable(a),
        0 <= p < t.len(),
        plain(a) == seq![t[p]],
    ensures
        g11(t, p, a, p + 1),
        starts(t, p, 11),
        no_end(t, p),
        !at_mark(t, p, Mark::RParen),
{
    reveal(g11);
    lemma_words();
    assert(plain(a)[0] == t[p]);
    assert(p_primary(t, p) == Ok::<(AstView, int), Seq<char>>((a, p + 1))) by {
        lemma_constants();
    }
    assert(c_primary(t, p) == p_primary(t, p));
    assert(p_postfix(t, p) == p_postfix_rest(t, a, p + 1));
}

/// What the constants mean.
proof fn lemma_constants()
    ensures
        word_meaning("true"@) == AstView::Lit(ValueView::Bool(true)),
        word_meaning("false"@) == AstView::Lit(ValueView::Bool(false)),
        word_meaning("none"@) == AstView::Lit(ValueView::Null),
{
    reveal_strlit("true");
    reveal_strlit("True");
    reveal_strlit("false");
    reveal_strlit("False");
    reveal_strlit("none");
    reveal_strlit("None");
    reveal_strlit("null");
    assert("true"@[0] == 't' && "True"@[0] == 'T');
    assert("false"@[0] == 'f');
    assert("none"@[0] == 'n' && "none"@[1] == 'o');
}

// ---------------------------------------------------------------------------------------
// Tokens of expressions
// ---------------------------------------------------------------------------------------

/// `s` stands in `t` at `p`.
spec fn stands<A>(t: Seq<A>, p: int, s: Seq<A>) -> bool {
    0 <= p && p + s.len() <= t.len() && t.subrange(p, p + s.len()) == s
}

proof fn lemma_parts<A>(t: Seq<A>, p: int, a: Seq<A>, b: Seq<A>)
    requires
        stands(t, p, a + b),
    ensures
        stands(t, p, a),
        stands(t, p + a.len(), b),
{
    let s = t.subrange(p, p + (a + b).len());
    assert(t.subrange(p, p + a.len()) =~= s.subrange(0, a.len() as int));
    assert(s.subrange(0, a.len() as int) =~= a);
    assert(t.subrange(p + a.len(), p + a.len() + b.len()) =~= s.subrange(
        a.len() as int,
        s.len() as int,
    ));
    assert(s.subrange(a.len() as int, s.len() as int) =~= b);
}

proof fn lemma_one<A>(t: Seq<A>, p: int, x: A)
    requires
        stands(t, p, seq![x]),
    ensures
        0 <= p < t.len(),
        t[p] == x,
{
    assert(t.subrange(p, p + 1)[0] == x);
}

/// An operator between two operands.
proof fn lemma_between(
    t: Seq<TokView>,
    p: int,
    a: Seq<TokView>,
    x: TokView,
    b: Seq<TokView>,
)
    requires
        stands(t, p, a + seq![x] + b),
    ensures
        stands(t, p, a),
        0 <= p + a.len() < t.len(),
        t[p + a.len()] == x,
        stands(t, p + a.len() + 1, b),
        (a + seq![x] + b).len() == a.len() + 1 + b.len(),
{
    lemma_parts(t, p, a + seq![x], b);
    lemma_parts(t, p, a, seq![x]);
    lemma_one(t, p + a.len(), x);
}

/// The first token of an expression is none that ends one.
spec fn opens(t: Seq<TokView>, p: int) -> bool {
    no_end(t, p) && !at_mark(t, p, Mark::RParen)
}

/// What is written where level `l` is asked for is read there.
proof fn lemma_spelled(a: AstView, l: int, t: Seq<TokView>, p: int)
    requires
        0 <= l <= 11,
        spellable(a),
        stands(t, p, spelled(a, l)),
        quiet(t, p + spelled(a, l).len(), l + 1),
    ensures
        goes(l, t, p, a, p + spelled(a, l).len()),
        starts(t, p, l),
        opens(t, p),
    decreases a, 3nat,
{
    let q = p + spelled(a, l).len();
    if level(a) < l {
        lemma_parts(t, p, sign(Mark::LParen) + plain(a), sign(Mark::RParen));
        lemma_parts(t, p, sign(Mark::LParen), plain(a));
        lemma_one(t, p, TokView::Mark(Mark::LParen));
        let m = p + 1 + plain(a).len();
        lemma_one(t, m, TokView::Mark(Mark::RParen));
        lemma_plain(a, t, p + 1);
        lemma_climb(level(a), 0, t, p + 1, a, m);
        lemma_done0(t, p + 1, a, m);
        lemma_parenthesis(t, p, a, m);
        lemma_climb(11, l, t, p, a, q);
    } else {
        lemma_plain(a, t, p);
        lemma_climb(level(a), l, t, p, a, q);
    }
}

/// What is written where level `l` is asked for is read there to its end, where nothing of
/// that level follows.
proof fn lemma_operand(a: AstView, l: int, t: Seq<TokView>, p: int)
    requires
        0 <= l <= 11,
        spellable(a),
        stands(t, p, spelled(a, l)),
        quiet(t, p + spelled(a, l).len(), l),
    ensures
        reads(l, t, p, a, p + spelled(a, l).len()),
        starts(t, p, l),
        opens(t, p),
    decreases a, 4nat,
{
    lemma_spelled(a, l, t, p);
    lemma_done(l, t, p, a, p + spelled(a, l).len());
}

/// The tokens of an expression are read at its level.
proof fn lemma_plain(a: AstView, t: Seq<TokView>, p: int)
    requires
        spellable(a),
        stands(t, p, plain(a)),
        quiet(t, p + plain(a).len(), level(a) + 1),
    ensures
        goes(level(a), t, p, a, p + plain(a).len()),
        starts(t, p, level(a)),
        opens(t, p),
    decreases a, 2nat,
{
    lemma_words();
    let q = p + plain(a).len();
    match a {
        AstView::Var(n) => {
            lemma_one(t, p, TokView::Ident(n));
            lemma_atom(t, p, a);
        },
        AstView::Lit(v) => {
            lemma_one(t, p, literal_token(v));
            lemma_atom(t, p, a);
        },
        AstView::Attr(e, n) => {
            let s = spelled(*e, 11);
            lemma_between(t, p, s, TokView::Mark(Mark::Dot), word(n));
            let m = p + s.len();
            lemma_one(t, m + 1, TokView::Ident(n));
            lemma_spelled(*e, 11, t, p);
            lemma_attribute(t, p, *e, m, n);
        },
        AstView::Index(e, i) => {
            let s = spelled(*e, 11);
            let b = spelled(*i, 0);
            lemma_parts(t, p, s + sign(Mark::LBracket) + b, sign(Mark::RBracket));
            lemma_between(t, p, s, TokView::Mark(Mark::LBracket), b);
            let m = p + s.len();
            lemma_one(t, q - 1, TokView::Mark(Mark::RBracket));
            lemma_spelled(*e, 11, t, p);
            lemma_operand(*i, 0, t, m + 1);
            lemma_part(t, m + 1, *i, q - 1);
            lemma_index(t, *e, m + 1, *i, q - 1);
            lemma_subscript(t, p, *e, m, a, q);
        },
        AstView::Slice(e, x, y, z) => {
            lemma_plain_slice(a, t, p);
        },
        AstView::Filter(e, n, args) => {
            lemma_plain_filter(a, t, p);
        },
        AstView::Neg(e) => {
            lemma_parts(t, p, sign(Mark::Minus), spelled(*e, 9));
            lemma_one(t, p, TokView::Mark(Mark::Minus));
            lemma_operand(*e, 9, t, p + 1);
            lemma_neg(t, p, *e, q);
        },
        AstView::Bin(op, x, y) => {
            lemma_plain_binary(a, t, p);
        },
        AstView::Not(e) => {
            lemma_parts(t, p, word("not"@), spelled(*e, 3));
            lemma_one(t, p, TokView::Ident("not"@));
            lemma_operand(*e, 3, t, p + 1);
            lemma_not(t, p, *e, q);
        },
        AstView::And(x, y) => {
            lemma_between(t, p, spelled(*x, 2), TokView::Ident("and"@), spelled(*y, 3));
            let m = p + spelled(*x, 2).len();
            lemma_spelled(*x, 2, t, p);
            lemma_operand(*y, 3, t, m + 1);
            lemma_and(t, p, *x, m, *y, q);
        },
        AstView::Or(x, y) => {
            lemma_between(t, p, spelled(*x, 1), TokView::Ident("or"@), spelled(*y, 2));
            let m = p + spelled(*x, 1).len();
            lemma_spelled(*x, 1, t, p);
            lemma_operand(*y, 2, t, m + 1);
            lemma_or(t, p, *x, m, *y, q);
        },
        AstView::Compare(x, op, y) => {
            lemma_between(t, p, spelled(*x, 5), TokView::Mark(comparison(op)), spelled(*y, 5));
            let m = p + spelled(*x, 5).len();
            lemma_operand(*x, 5, t, p);
            lemma_operand(*y, 5, t, m + 1);
            lemma_compare(t, p, *x, m, op, *y, q);
        },
        AstView::In(x, y, negated) => {
            lemma_plain_in(a, t, p);
        },
        AstView::Defined(e, negated) => {
            let w = if negated {
                "undefined"@
            } else {
                "defined"@
            };
            lemma_between(t, p, spelled(*e, 5), TokView::Ident("is"@), word(w));
            let m = p + spelled(*e, 5).len();
            lemma_one(t, m + 1, TokView::Ident(w));
            lemma_operand(*e, 5, t, p);
            lemma_defined(t, p, *e, m, negated);
        },
        AstView::Cond(c, b, o) => {
            lemma_plain_conditional(a, t, p);
        },
    }
}

proof fn lemma_plain_binary(a: AstView, t: Seq<TokView>, p: int)
    requires
        a is Bin,
        spellable(a),
        stands(t, p, plain(a)),
        quiet(t, p + plain(a).len(), level(a) + 1),
    ensures
        goes(level(a), t, p, a, p + plain(a).len()),
        starts(t, p, level(a)),
        opens(t, p),
    decreases a, 1nat,
{
    let q = p + plain(a).len();
    if let AstView::Bin(op, x, y) = a {
        let k: int = if op is Pow {
            9
        } else {
            level(a)
        };
        let n: int = if op is Pow {
            8
        } else {
            level(a) + 1
        };
        lemma_between(t, p, spelled(*x, k), TokView::Mark(operator(op)), spelled(*y, n));
        let m = p + spelled(*x, k).len();
        lemma_spelled(*x, k, t, p);
        if op is Pow {
            if ends8(t, q) {
                lemma_done9(t, p, *x, m);
                lemma_operand(*y, 8, t, m + 1);
                lemma_power(t, p, *x, m, *y, q);
            } else {
                lemma_spelled(*y, 8, t, m + 1);
                lemma_loud8(t, p, a, q);
            }
        } else {
            lemma_operand(*y, n, t, m + 1);
            if op is Concat {
                lemma_concat(t, p, *x, m, *y, q);
            } else if op is Add || op is Sub {
                lemma_sum(t, p, *x, m, op, *y, q);
            } else {
                lemma_product(t, p, *x, m, op, *y, q);
            }
        }
    }
}

/// Nothing is said of a power that another one follows.
proof fn lemma_loud8(t: Seq<TokView>, p: int, a: AstView, q: int)
    requires
        0 <= p < q <= t.len(),
        !ends8(t, q),
    ensures
        g8(t, p, a, q),
{
    reveal(g8);
}

proof fn lemma_plain_in(a: AstView, t: Seq<TokView>, p: int)
    requires
        a is In,
        spellable(a),
        stands(t, p, plain(a)),
        quiet(t, p + plain(a).len(), level(a) + 1),
    ensures
        goes(level(a), t, p, a, p + plain(a).len()),
        starts(t, p, level(a)),
        opens(t, p),
    decreases a, 1nat,
{
    lemma_words();
    let q = p + plain(a).len();
    if let AstView::In(x, y, negated) = a {
        let m = p + spelled(*x, 5).len();
        if negated {
            let w = word("not"@) + word("in"@);
            lemma_parts(t, p, spelled(*x, 5) + w, spelled(*y, 5));
            lemma_parts(t, p, spelled(*x, 5), w);
            lemma_parts(t, m, word("not"@), word("in"@));
            lemma_one(t, m, TokView::Ident("not"@));
            lemma_one(t, m + 1, TokView::Ident("in"@));
            lemma_operand(*x, 5, t, p);
            lemma_operand(*y, 5, t, m + 2);
        } else {
            lemma_between(t, p, spelled(*x, 5), TokView::Ident("in"@), spelled(*y, 5));
            lemma_operand(*x, 5, t, p);
            lemma_operand(*y, 5, t, m + 1);
        }
        lemma_in(t, p, *x, m, *y, negated, q);
    }
}

proof fn lemma_plain_conditional(a: AstView, t: Seq<TokView>, p: int)
    requires
        a is Cond,
        spellable(a),
        stands(t, p, plain(a)),
        quiet(t, p + plain(a).len(), level(a) + 1),
    ensures
        goes(level(a), t, p, a, p + plain(a).len()),
        starts(t, p, level(a)),
        opens(t, p),
    decreases a, 1nat,
{
    lemma_words();
    let q = p + plain(a).len();
    if let AstView::Cond(c, b, o) = a {
        let s = spelled(*b, 1) + word("if"@) + spelled(*c, 1);
        let m = p + spelled(*b, 1).len();
        let n = m + 1 + spelled(*c, 1).len();
        match o {
            Some(o) => {
                lemma_parts(t, p, s, word("else"@) + spelled(*o, 0));
                lemma_parts(t, n, word("else"@), spelled(*o, 0));
                lemma_one(t, n, TokView::Ident("else"@));
                lemma_between(t, p, spelled(*b, 1), TokView::Ident("if"@), spelled(*c, 1));
                lemma_operand(*b, 1, t, p);
                lemma_operand(*c, 1, t, m + 1);
                lemma_spelled(*o, 0, t, n + 1);
                if ends0(t, q) {
                    lemma_done0(t, n + 1, *o, q);
                    lemma_conditional(t, p, *b, m, *c, n, *o, q);
                } else {
                    lemma_loud0(t, p, a, q);
                }
            },
            None => {
                assert(plain(a) =~= s);
                lemma_between(t, p, spelled(*b, 1), TokView::Ident("if"@), spelled(*c, 1));
                lemma_operand(*b, 1, t, p);
                lemma_operand(*c, 1, t, m + 1);
                lemma_bare_conditional(t, p, *b, m, *c, n);
            },
        }
    }
}

/// Nothing is said of a conditional that another one follows.
proof fn lemma_loud0(t: Seq<TokView>, p: int, a: AstView, q: int)
    requires
        0 <= p < q <= t.len(),
        !ends0(t, q),
    ensures
        g0(t, p, a, q),
{
    reveal(g0);
}

/// The tokens of an optional part of a slice.
spec fn part_tokens(x: Option<Box<AstView>>) -> Seq<TokView> {
    match x {
        Some(x) => spelled(*x, 0),
        None => Seq::empty(),
    }
}

proof fn lemma_plain_slice(a: AstView, t: Seq<TokView>, p: int)
    requires
        a is Slice,
        spellable(a),
        stands(t, p, plain(a)),
        quiet(t, p + plain(a).len(), level(a) + 1),
    ensures
        goes(level(a), t, p, a, p + plain(a).len()),
        starts(t, p, level(a)),
        opens(t, p),
    decreases a, 1nat,
{
    let q = p + plain(a).len();
    if let AstView::Slice(e, x, y, z) = a {
        let s = spelled(*e, 11);
        let xs = part_tokens(x);
        let ys = part_tokens(y);
        let zs = match z {
            Some(z) => sign(Mark::Colon) + spelled(*z, 0),
            None => Seq::empty(),
        };
        let head = s + sign(Mark::LBracket) + xs;
        assert(plain(a) == head + sign(Mark::Colon) + ys + zs + sign(Mark::RBracket));
        lemma_parts(t, p, head + sign(Mark::Colon) + ys + zs, sign(Mark::RBracket));
        lemma_parts(t, p, head + sign(Mark::Colon) + ys, zs);
        lemma_between(t, p, head, TokView::Mark(Mark::Colon), ys);
        lemma_between(t, p, s, TokView::Mark(Mark::LBracket), xs);
        lemma_one(t, q - 1, TokView::Mark(Mark::RBracket));
        let m = p + s.len();
        let i = p + head.len();
        let j = i + 1 + ys.len();
        assert(i == m + 1 + xs.len());
        lemma_spelled(*e, 11, t, p);
        match z {
            Some(z) => {
                lemma_parts(t, j, sign(Mark::Colon), spelled(*z, 0));
                lemma_one(t, j, TokView::Mark(Mark::Colon));
                lemma_operand(*z, 0, t, j + 1);
                lemma_part(t, j + 1, *z, q - 1);
            },
            None => {},
        }
        match x {
            Some(x) => {
                lemma_operand(*x, 0, t, m + 1);
                lemma_part(t, m + 1, *x, i);
            },
            None => {
                lemma_no_part(t, m + 1);
            },
        }
        match y {
            Some(y) => {
                lemma_operand(*y, 0, t, i + 1);
                lemma_part(t, i + 1, *y, j);
            },
            None => {
                lemma_no_part(t, i + 1);
            },
        }
        match z {
            Some(z) => {
                lemma_long_slice(t, *e, x, i, y, j, z, q - 1);
            },
            None => {
                lemma_short_slice(t, *e, x, i, y, j);
            },
        }
        lemma_slice(t, *e, m + 1, x, i, a, q);
        lemma_subscript(t, p, *e, m, a, q);
    }
}

proof fn lemma_plain_filter(a: AstView, t: Seq<TokView>, p: int)
    requires
        a is Filter,
        spellable(a),
        stands(t, p, plain(a)),
        quiet(t, p + plain(a).len(), level(a) + 1),
    ensures
        goes(level(a), t, p, a, p + plain(a).len()),
        starts(t, p, level(a)),
        opens(t, p),
    decreases a, 1nat,
{
    let q = p + plain(a).len();
    if let AstView::Filter(e, n, args) = a {
        let s = spelled(*e, 10);
        let m = p + s.len();
        lemma_filter_names(n);
        if args.len() == 0 {
            assert(plain(a) =~= s + sign(Mark::Pipe) + word(n));
            lemma_between(t, p, s, TokView::Mark(Mark::Pipe), word(n));
            lemma_one(t, m + 1, TokView::Ident(n));
            lemma_spelled(*e, 10, t, p);
            lemma_filter(t, p, *e, m, n);
            assert(args =~= Seq::empty());
        } else {
            let b = spelled_args(args, 0);
            let c = sign(Mark::LParen) + b + sign(Mark::RParen);
            lemma_parts(t, p, s + sign(Mark::Pipe) + word(n), c);
            lemma_between(t, p, s, TokView::Mark(Mark::Pipe), word(n));
            lemma_one(t, m + 1, TokView::Ident(n));
            lemma_parts(t, m + 2, sign(Mark::LParen) + b, sign(Mark::RParen));
            lemma_parts(t, m + 2, sign(Mark::LParen), b);
            lemma_one(t, m + 2, TokView::Mark(Mark::LParen));
            lemma_one(t, m + 3 + b.len(), TokView::Mark(Mark::RParen));
            lemma_spelled(*e, 10, t, p);
            lemma_args(args, 0, t, m + 3);
            assert(args.skip(0) =~= args);
            lemma_call(t, m + 3, args, m + 3 + b.len());
            lemma_filter_args(t, p, *e, m, n, args, m + 3 + b.len());
        }
    }
}

proof fn lemma_args(args: Seq<AstView>, k: int, t: Seq<TokView>, p: int)
    requires
        0 <= k < args.len(),
        all_spellable(args, k),
        stands(t, p, spelled_args(args, k)),
        at_mark(t, p + spelled_args(args, k).len(), Mark::RParen),
    ensures
        args_read(t, p, args.skip(k), p + spelled_args(args, k).len()),
        opens(t, p),
    decreases args, args.len() - k,
{
    let s = spelled(args[k], 0);
    if k == args.len() - 1 {
        lemma_operand(args[k], 0, t, p);
        lemma_last_arg(t, p, args[k], p + s.len());
        assert(args.skip(k) =~= seq![args[k]]);
    } else {
        let b = spelled_args(args, k + 1);
        lemma_between(t, p, s, TokView::Mark(Mark::Comma), b);
        lemma_operand(args[k], 0, t, p);
        lemma_args(args, k + 1, t, p + s.len() + 1);
        lemma_next_arg(t, p, args[k], p + s.len(), args.skip(k + 1), p + s.len() + 1 + b.len());
        assert(args.skip(k) =~= seq![args[k]] + args.skip(k + 1));
    }
}

// ---------------------------------------------------------------------------------------
// Texts of tokens
// ---------------------------------------------------------------------------------------

proof fn lemma_number_end(s: Seq<char>, p: int, q: int)
    requires
        0 <= p <= q < s.len(),
        forall|k: int| p <= k < q ==> is_digit(#[trigger] s[k]),
        s[q] == ' ',
    ensures
        number_end(s, p) == q,
    decreases q - p,
{
    if p < q {
        lemma_number_end(s, p + 1, q);
    }
}

/// A token that is no word, in a text that goes on with a space.
proof fn lemma_token(s: Seq<char>, p: int, k: TokView)
    requires
        has_text(k),
        !(k is Ident),
        stands(s, p, token_text(k) + seq![' ']),
    ensures
        token_at(s, p) == Ok::<(TokView, int), Seq<char>>((k, p + token_text(k).len())),
        token_text(k).len() > 0,
        !is_space(s[p]),
{
    let x = token_text(k);
    let q = p + x.len();
    lemma_parts(s, p, x, seq![' ']);
    lemma_one(s, q, ' ');
    assert forall|i: int| p <= i < q implies #[trigger] s[i] == x[i - p] by {
        assert(s.subrange(p, q)[i - p] == s[i]);
    }
    match k {
        TokView::Mark(m) => {
            assert(s[p] == x[0]);
            if x.len() == 2 {
                assert(s[p + 1] == x[1]);
            }
            assert(mark_at(s, p) == Some((m, x.len() as int)));
        },
        TokView::Str(b) => {
            let c = x[0];
            let n = b.len() as int;
            assert(s[p] == c);
            assert(s[q - 1] == x[n + 1]);
            let r = s.skip(p + 1);
            assert forall|i: int| 0 <= i < n implies #[trigger] r[i] != c by {
                assert(s[p + 1 + i] == x[1 + i]);
                assert(b[i] == x[1 + i]);
                assert(b.contains(b[i]));
            }
            assert(r[n] == s[q - 1]);
            lemma_find_char_unique(r, c, n);
            assert(s.subrange(p + 1, p + 1 + n) =~= b) by {
                assert forall|i: int| 0 <= i < n implies s.subrange(p + 1, p + 1 + n)[i] == b[i] by {
                    assert(s[p + 1 + i] == x[1 + i]);
                }
            }
        },
        TokView::Int(i) => {
            lemma_dec_nat(i as nat);
            law_decimal_reads_back(i);
            assert(s[p] == x[0]);
            assert forall|j: int| p <= j < q implies is_digit(#[trigger] s[j]) by {
                assert(s[j] == x[j - p]);
            }
            lemma_number_end(s, p, q);
            assert(s.subrange(p, q) == x);
            assert(!x.contains('.')) by {
                if x.contains('.') {
                    let j = choose|j: int| 0 <= j < x.len() && x[j] == '.';
                    assert(is_digit(x[j]));
                }
            }
        },
        _ => {},
    }
}

proof fn lemma_tokens(s: Seq<char>, p: int, ts: Seq<TokView>)
    requires
        0 <= p <= s.len(),
        s.skip(p) == text_of(ts),
        forall|k: int| 0 <= k < ts.len() ==> has_text(#[trigger] ts[k]),
    ensures
        tokens_from(s, p) == Ok::<Seq<TokView>, Seq<char>>(ts),
    decreases ts.len(),
{
    if ts.len() == 0 {
        assert(ts =~= Seq::empty());
        assert(p == s.len());
    } else {
        let k = ts[0];
        let x = token_text(k);
        let q = p + x.len();
        let more = ts.drop_first();
        assert(s.skip(p) == x + seq![' '] + text_of(more));
        assert(stands(s, p, x + seq![' '])) by {
            assert(s.skip(p).len() == x.len() + 1 + text_of(more).len());
            assert(s.subrange(p, p + (x + seq![' ']).len()) =~= s.skip(p).take(
                (x + seq![' ']).len() as int,
            ));
            assert(s.skip(p).take((x + seq![' ']).len() as int) =~= x + seq![' ']);
        }
        lemma_parts(s, p, x, seq![' ']);
        lemma_one(s, q, ' ');
        assert(s.skip(q + 1) =~= text_of(more)) by {
            assert(s.skip(q + 1) =~= s.skip(p).skip((x.len() + 1) as int));
        }
        assert forall|j: int| 0 <= j < more.len() implies has_text(#[trigger] more[j]) by {
            assert(more[j] == ts[j + 1]);
        }
        lemma_tokens(s, q + 1, more);
        assert(tokens_from(s, q) == tokens_from(s, q + 1));
        assert(seq![k] + more =~= ts);
        match k {
            TokView::Ident(n) => {
                lemma_name_token(s, p, n);
            },
            _ => {
                lemma_token(s, p, k);
            },
        }
    }
}

/// Tokens that are written one behind the other, with a space behind each, are read back.
pub proof fn law_tokens_read_back(ts: Seq<TokView>)
    requires
        forall|k: int| 0 <= k < ts.len() ==> has_text(#[trigger] ts[k]),
    ensures
        tokens_from(text_of(ts), 0) == Ok::<Seq<TokView>, Seq<char>>(ts),
{
    assert(text_of(ts).skip(0) =~= text_of(ts));
    lemma_tokens(text_of(ts), 0, ts);
}

/// Every token can be written.
spec fn all_have_text(ts: Seq<TokView>) -> bool {
    forall|k: int| 0 <= k < ts.len() ==> has_text(#[trigger] ts[k])
}

proof fn lemma_texts_joined(a: Seq<TokView>, b: Seq<TokView>)
    requires
        all_have_text(a),
        all_have_text(b),
    ensures
        all_have_text(a + b),
{
    assert forall|k: int| 0 <= k < (a + b).len() implies has_text(#[trigger] (a + b)[k]) by {
        if k < a.len() {
            assert((a + b)[k] == a[k]);
        } else {
            assert((a + b)[k] == b[k - a.len()]);
        }
    }
}

proof fn lemma_word_text(w: Seq<char>)
    requires
        is_name(w),
    ensures
        all_have_text(word(w)),
{
    assert forall|k: int| 0 <= k < word(w).len() implies has_text(#[trigger] word(w)[k]) by {
        assert(word(w)[k] == TokView::Ident(w));
    }
}

proof fn lemma_sign_text(m: Mark)
    ensures
        all_have_text(sign(m)),
{
    assert forall|k: int| 0 <= k < sign(m).len() implies has_text(#[trigger] sign(m)[k]) by {
        assert(sign(m)[k] == TokView::Mark(m));
    }
}

/// The words of the grammar are names.
proof fn lemma_word_names()
    ensures
        is_name("is"@),
        is_name("in"@),
        is_name("if"@),
        is_name("or"@),
        is_name("and"@),
        is_name("not"@),
        is_name("else"@),
        is_name("defined"@),
        is_name("undefined"@),
        is_name("true"@),
        is_name("false"@),
        is_name("none"@),
{
    reveal_strlit("is");
    reveal_strlit("in");
    reveal_strlit("if");
    reveal_strlit("or");
    reveal_strlit("and");
    reveal_strlit("not");
    reveal_strlit("else");
    reveal_strlit("defined");
    reveal_strlit("undefined");
    reveal_strlit("true");
    reveal_strlit("false");
    reveal_strlit("none");
}

/// The names of the filters are names, and are known.
proof fn lemma_filter_names(n: Seq<char>)
    requires
        is_filter_name(n),
    ensures
        is_name(n),
        known_filter(n),
{
    reveal_strlit("lower");
    reveal_strlit("upper");
    reveal_strlit("string");
    reveal_strlit("int");
    reveal_strlit("float");
    reveal_strlit("bool");
    reveal_strlit("default");
    reveal_strlit("d");
    reveal_strlit("replace");
    reveal_strlit("regex_replace");
    reveal_strlit("trim");
    reveal_strlit("capitalize");
    reveal_strlit("length");
    reveal_strlit("count");
    reveal_strlit("first");
    reveal_strlit("last");
    reveal_strlit("join");
    reveal_strlit("abs");
    reveal_strlit("ternary");
}

proof fn lemma_spelled_text(a: AstView, l: int)
    requires
        spellable(a),
    ensures
        all_have_text(spelled(a, l)),
    decreases a, 1nat,
{
    lemma_plain_text(a);
    lemma_sign_text(Mark::LParen);
    lemma_sign_text(Mark::RParen);
    lemma_texts_joined(sign(Mark::LParen), plain(a));
    lemma_texts_joined(sign(Mark::LParen) + plain(a), sign(Mark::RParen));
}

/// Two rows of tokens with something between them.
proof fn lemma_texts_between(a: Seq<TokView>, x: Seq<TokView>, b: Seq<TokView>)
    requires
        all_have_text(a),
        all_have_text(x),
        all_have_text(b),
    ensures
        all_have_text(a + x),
        all_have_text(a + x + b),
{
    lemma_texts_joined(a, x);
    lemma_texts_joined(a + x, b);
}

proof fn lemma_plain_text(a: AstView)
    requires
        spellable(a),
    ensures
        all_have_text(plain(a)),
    decreases a, 0nat,
{
    lemma_word_names();
    match a {
        AstView::Var(n) => {
            lemma_word_text(n);
        },
        AstView::Lit(v) => {
            assert(has_text(literal_token(v)));
            assert forall|k: int| 0 <= k < plain(a).len() implies has_text(
                #[trigger] plain(a)[k],
            ) by {
                assert(plain(a)[k] == literal_token(v));
            }
        },
        AstView::Attr(e, n) => {
            lemma_spelled_text(*e, 11);
            lemma_sign_text(Mark::Dot);
            lemma_word_text(n);
            lemma_texts_between(spelled(*e, 11), sign(Mark::Dot), word(n));
        },
        AstView::Index(e, i) => {
            lemma_spelled_text(*e, 11);
            lemma_spelled_text(*i, 0);
            lemma_sign_text(Mark::LBracket);
            lemma_sign_text(Mark::RBracket);
            let s = spelled(*e, 11) + sign(Mark::LBracket) + spelled(*i, 0);
            lemma_texts_between(spelled(*e, 11), sign(Mark::LBracket), spelled(*i, 0));
            lemma_texts_joined(s, sign(Mark::RBracket));
        },
        AstView::Slice(e, x, y, z) => {
            lemma_spelled_text(*e, 11);
            lemma_sign_text(Mark::LBracket);
            lemma_sign_text(Mark::Colon);
            lemma_sign_text(Mark::RBracket);
            match x {
                Some(x) => {
                    lemma_spelled_text(*x, 0);
                },
                None => {},
            }
            match y {
                Some(y) => {
                    lemma_spelled_text(*y, 0);
                },
                None => {},
            }
            match z {
                Some(z) => {
                    lemma_spelled_text(*z, 0);
                    lemma_texts_joined(sign(Mark::Colon), spelled(*z, 0));
                },
                None => {},
            }
            let zs = match z {
                Some(z) => sign(Mark::Colon) + spelled(*z, 0),
                None => Seq::empty(),
            };
            let head = spelled(*e, 11) + sign(Mark::LBracket) + part_tokens(x);
            let s = head + sign(Mark::Colon) + part_tokens(y);
            lemma_texts_between(spelled(*e, 11), sign(Mark::LBracket), part_tokens(x));
            lemma_texts_between(head, sign(Mark::Colon), part_tokens(y));
            lemma_texts_between(s, zs, sign(Mark::RBracket));
            assert(plain(a) == s + zs + sign(Mark::RBracket));
        },
        AstView::Filter(e, n, args) => {
            lemma_spelled_text(*e, 10);
            lemma_sign_text(Mark::Pipe);
            lemma_sign_text(Mark::LParen);
            lemma_sign_text(Mark::RParen);
            lemma_filter_names(n);
            lemma_word_text(n);
            let s = spelled(*e, 10) + sign(Mark::Pipe) + word(n);
            lemma_texts_between(spelled(*e, 10), sign(Mark::Pipe), word(n));
            if args.len() == 0 {
                assert(plain(a) =~= s);
            } else {
                lemma_args_text(args, 0);
                let c = sign(Mark::LParen) + spelled_args(args, 0) + sign(Mark::RParen);
                lemma_texts_between(
                    sign(Mark::LParen),
                    spelled_args(args, 0),
                    sign(Mark::RParen),
                );
                lemma_texts_joined(s, c);
            }
        },
        AstView::Neg(e) => {
            lemma_spelled_text(*e, 9);
            lemma_sign_text(Mark::Minus);
            lemma_texts_joined(sign(Mark::Minus), spelled(*e, 9));
        },
        AstView::Bin(op, x, y) => {
            let k: int = if op is Pow {
                9
            } else {
                level(a)
            };
            let n: int = if op is Pow {
                8
            } else {
                level(a) + 1
            };
            lemma_spelled_text(*x, k);
            lemma_spelled_text(*y, n);
            lemma_sign_text(operator(op));
            lemma_texts_between(spelled(*x, k), sign(operator(op)), spelled(*y, n));
        },
        AstView::Not(e) => {
            lemma_spelled_text(*e, 3);
            lemma_word_text("not"@);
            lemma_texts_joined(word("not"@), spelled(*e, 3));
        },
        AstView::And(x, y) => {
            lemma_spelled_text(*x, 2);
            lemma_spelled_text(*y, 3);
            lemma_word_text("and"@);
            lemma_texts_between(spelled(*x, 2), word("and"@), spelled(*y, 3));
        },
        AstView::Or(x, y) => {
            lemma_spelled_text(*x, 1);
            lemma_spelled_text(*y, 2);
            lemma_word_text("or"@);
            lemma_texts_between(spelled(*x, 1), word("or"@), spelled(*y, 2));
        },
        AstView::Compare(x, op, y) => {
            lemma_spelled_text(*x, 5);
            lemma_spelled_text(*y, 5);
            lemma_sign_text(comparison(op));
            lemma_texts_between(spelled(*x, 5), sign(comparison(op)), spelled(*y, 5));
        },
        AstView::In(x, y, negated) => {
            lemma_spelled_text(*x, 5);
            lemma_spelled_text(*y, 5);
            lemma_word_text("not"@);
            lemma_word_text("in"@);
            lemma_texts_joined(word("not"@), word("in"@));
            let w = if negated {
                word("not"@) + word("in"@)
            } else {
                word("in"@)
            };
            lemma_texts_between(spelled(*x, 5), w, spelled(*y, 5));
        },
        AstView::Defined(e, negated) => {
            lemma_spelled_text(*e, 5);
            lemma_word_text("is"@);
            let w = if negated {
                "undefined"@
            } else {
                "defined"@
            };
            lemma_word_text(w);
            lemma_texts_between(spelled(*e, 5), word("is"@), word(w));
        },
        AstView::Cond(c, b, o) => {
            lemma_spelled_text(*b, 1);
            lemma_spelled_text(*c, 1);
            lemma_word_text("if"@);
            lemma_word_text("else"@);
            let s = spelled(*b, 1) + word("if"@) + spelled(*c, 1);
            lemma_texts_between(spelled(*b, 1), word("if"@), spelled(*c, 1));
            match o {
                Some(o) => {
                    lemma_spelled_text(*o, 0);
                    lemma_texts_joined(word("else"@), spelled(*o, 0));
                    lemma_texts_joined(s, word("else"@) + spelled(*o, 0));
                },
                None => {
                    assert(plain(a) =~= s);
                },
            }
        },
    }
}

proof fn lemma_args_text(args: Seq<AstView>, k: int)
    requires
        0 <= k,
        all_spellable(args, k),
    ensures
        all_have_text(spelled_args(args, k)),
    decreases args, args.len() - k,
{
    if k < args.len() {
        lemma_spelled_text(args[k], 0);
        lemma_args_text(args, k + 1);
        lemma_sign_text(Mark::Comma);
        lemma_texts_between(spelled(args[k], 0), sign(Mark::Comma), spelled_args(args, k + 1));
    }
}

// ---------------------------------------------------------------------------------------
// Laws
// ---------------------------------------------------------------------------------------

/// Every expression is read back from its tokens: each operator with its operands, in the
/// order and with the parentheses that they need and no others, filters with all their
/// arguments, subscripts and slices with all their parts, conditionals with their branches.
pub proof fn law_tokens_of_an_expression(a: AstView)
    requires
        spellable(a),
    ensures
        c_ternary(spelled(a, 0), 0) == Ok::<(AstView, int), Seq<char>>(
            (a, spelled(a, 0).len() as int),
        ),
{
    let t = spelled(a, 0);
    assert(t.subrange(0, t.len() as int) =~= t);
    lemma_operand(a, 0, t, 0);
    reveal(r0);
}

/// Every expression is read back from its text.
pub proof fn law_expressions_read_back(a: AstView)
    requires
        spellable(a),
    ensures
        parsed(text_of(spelled(a, 0))) == Ok::<AstView, Seq<char>>(a),
{
    law_tokens_of_an_expression(a);
    lemma_spelled_text(a, 0);
    law_tokens_read_back(spelled(a, 0));
}

/// The words of the constants mean their values, whichever way they are written.
pub proof fn law_constants(w: Seq<char>)
    requires
        is_reserved(w),
        w != "not"@,
    ensures
        parsed(w + seq![' ']) == Ok::<AstView, Seq<char>>(
            AstView::Lit(
                if w == "true"@ || w == "True"@ {
                    ValueView::Bool(true)
                } else if w == "false"@ || w == "False"@ {
                    ValueView::Bool(false)
                } else {
                    ValueView::Null
                },
            ),
        ),
{
    reveal_strlit("true");
    reveal_strlit("True");
    reveal_strlit("false");
    reveal_strlit("False");
    reveal_strlit("none");
    reveal_strlit("None");
    reveal_strlit("null");
    lemma_words();
    let t = word(w);
    assert(is_name(w));
    lemma_word_text(w);
    law_tokens_read_back(t);
    assert(t.drop_first() =~= Seq::empty());
    assert(text_of(t.drop_first()) =~= Seq::empty());
    assert(text_of(t) =~= w + seq![' ']);
    let a = word_meaning(w);
    assert(w[0] != 'n' || w[1] != 'o' || w[2] != 't') by {
        reveal_strlit("not");
        if w.len() == 3 {
            assert(w =~= "not"@);
        }
    }
    assert(g11(t, 0, a, 1)) by {
        reveal(g11);
        assert(p_primary(t, 0) == Ok::<(AstView, int), Seq<char>>((a, 1)));
        assert(c_primary(t, 0) == p_primary(t, 0));
        assert(p_postfix(t, 0) == p_postfix_rest(t, a, 1));
    }
    lemma_climb(11, 0, t, 0, a, 1);
    lemma_done0(t, 0, a, 1);
    assert(c_ternary(t, 0) == Ok::<(AstView, int), Seq<char>>((a, 1))) by {
        reveal(r0);
    }
}

/// A token that cannot stand behind an expression: a literal, a word that is none of the
/// grammar's, a closing bracket, a comma or a colon.
pub open spec fn is_stray(k: TokView) -> bool {
    match k {
        TokView::Ident(w) => w != "is"@ && w != "in"@ && w != "not"@ && w != "and"@ && w != "or"@
            && w != "if"@ && w != "else"@,
        TokView::Mark(m) => m == Mark::RParen || m == Mark::RBracket || m == Mark::Comma || m
            == Mark::Colon,
        _ => true,
    }
}

/// Whatever stands behind an expression and does not belong to it is an error.
pub proof fn law_stray_tokens(a: AstView, k: TokView, more: Seq<TokView>)
    requires
        spellable(a),
        is_stray(k),
        has_text(k),
        forall|j: int| 0 <= j < more.len() ==> has_text(#[trigger] more[j]),
    ensures
        parsed(text_of(spelled(a, 0) + seq![k] + more)) is Err,
{
    let s = spelled(a, 0);
    let t = s + seq![k] + more;
    let n = s.len() as int;
    assert(t.subrange(0, n) =~= s);
    assert(t[n] == k);
    lemma_operand(a, 0, t, 0);
    assert(c_ternary(t, 0) == Ok::<(AstView, int), Seq<char>>((a, n))) by {
        reveal(r0);
    }
    lemma_spelled_text(a, 0);
    assert(all_have_text(seq![k])) by {
        assert forall|j: int| 0 <= j < seq![k].len() implies has_text(#[trigger] seq![k][j]) by {
            assert(seq![k][j] == k);
        }
    }
    assert(all_have_text(more));
    lemma_texts_between(s, seq![k], more);
    law_tokens_read_back(t);
}

/// A text between quotes that is not closed is an error.
pub proof fn law_open_quotes(t: Seq<char>, quote: char)
    requires
        quote == '\'' || quote == '"',
        !t.contains(quote),
    ensures
        parsed(seq![quote] + t) is Err,
{
    let s = seq![quote] + t;
    assert(s[0] == quote);
    assert(s.skip(1) =~= t);
    assert forall|j: int| 0 <= j < t.len() implies #[trigger] t[j] != quote by {
        assert(t.contains(t[j]));
    }
    lemma_find_char_unique(t, quote, t.len() as int);
    assert(mark_at(s, 0) is None);
    assert(token_at(s, 0) is Err);
    assert(tokens_from(s, 0) is Err);
}

/// A character that starts no token is an error.
pub proof fn law_bad_characters(c: char, t: Seq<char>)
    requires
        c == '@' || c == '$' || c == '#' || c == '&' || c == ';' || c == '?' || c == '\\' || c
            == '^' || c == '{' || c == '}' || c == '`' || c == '!' || c == '=',
        t.len() == 0 || t[0] != '=',
    ensures
        parsed(seq![c] + t) is Err,
{
    let s = seq![c] + t;
    assert(s[0] == c);
    if t.len() > 0 {
        assert(s[1] == t[0]);
    }
    assert(mark_at(s, 0) is None);
    assert(token_at(s, 0) is Err);
    assert(tokens_from(s, 0) is Err);
}

/// An expression without tokens is an error.
pub proof fn law_blank_expressions(t: Seq<char>)
    requires
        forall|k: int| 0 <= k < t.len() ==> is_space(#[trigger] t[k]),
    ensures
        parsed(t) is Err,
{
    lemma_no_tokens(t, 0);
    let n = Seq::<TokView>::empty();
    assert(p_primary(n, 0) is Err);
    assert(c_primary(n, 0) is Err);
    assert(p_postfix(n, 0) is Err);
    assert(c_postfix(n, 0) is Err);
    assert(p_filter(n, 0) is Err);
    assert(c_filter(n, 0) is Err);
    assert(p_unary(n, 0) is Err);
    assert(c_unary(n, 0) is Err);
    assert(p_pow(n, 0) is Err);
    assert(c_pow(n, 0) is Err);
    assert(p_muldiv(n, 0) is Err);
    assert(c_muldiv(n, 0) is Err);
    assert(p_concat(n, 0) is Err);
    assert(c_concat(n, 0) is Err);
    assert(p_addsub(n, 0) is Err);
    assert(c_addsub(n, 0) is Err);
    assert(p_comparison(n, 0) is Err);
    assert(c_comparison(n, 0) is Err);
    assert(p_not(n, 0) is Err);
    assert(c_not(n, 0) is Err);
    assert(p_and(n, 0) is Err);
    assert(c_and(n, 0) is Err);
    assert(p_or(n, 0) is Err);
    assert(c_or(n, 0) is Err);
    assert(p_ternary(n, 0) is Err);
    assert(c_ternary(n, 0) is Err);
}

proof fn lemma_no_tokens(t: Seq<char>, p: int)
    requires
        0 <= p <= t.len(),
        forall|k: int| 0 <= k < t.len() ==> is_space(#[trigger] t[k]),
    ensures
        tokens_from(t, p) == Ok::<Seq<TokView>, Seq<char>>(Seq::empty()),
    decreases t.len() - p,
{
    if p < t.len() {
        assert(is_space(t[p]));
        lemma_no_tokens(t, p + 1);
    }
}

} // verus!
