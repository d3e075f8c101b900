//! What lies outside of the grammar: whatever stands around it, it is an error.

use vstd::prelude::*;
use crate::expr::ast::AstView;
use crate::expr::parser::{at_mark, at_word, c_addsub, c_and, c_comparison, c_concat, c_filter, c_muldiv, c_not, c_or, c_postfix, c_pow, c_primary, c_ternary, c_unary, compare_mark, known_filter, p_addsub, p_addsub_rest, p_and, p_and_rest, p_comparison, p_concat, p_concat_rest, p_filter, p_filter_rest, p_muldiv, p_muldiv_rest, p_not, p_or, p_or_rest, p_postfix, p_postfix_rest, p_pow, p_primary, p_ternary, p_unary, parsed, product_mark, word_meaning, Parsed};
use crate::expr::token::{ident_end, mark_at, token_at, tokens_from, Mark, TokView};
use crate::text::{is_alnum, is_digit, is_letter};

verus! {

// ---------------------------------------------------------------------------------------
// Tokens
// ---------------------------------------------------------------------------------------

/// An operand may start at `p`: neither a sign nor `not` stands there.
pub open spec fn operand_at(t: Seq<TokView>, p: int) -> bool {
    !at_mark(t, p, Mark::Minus) && !at_mark(t, p, Mark::Plus) && !at_word(t, p, "not"@)
}

/// An operand that is wrong makes the product around it wrong.
proof fn lemma_filter_fails(t: Seq<TokView>, p: int)
    requires
        p_filter(t, p) is Err,
        operand_at(t, p),
    ensures
        c_concat(t, p) is Err,
        c_addsub(t, p) is Err,
{
    assert(c_filter(t, p) is Err);
    assert(p_unary(t, p) is Err);
    assert(c_unary(t, p) is Err);
    assert(p_pow(t, p) is Err);
    assert(c_pow(t, p) is Err);
    assert(p_muldiv(t, p) is Err);
    assert(c_muldiv(t, p) is Err);
    assert(p_concat(t, p) is Err);
    assert(c_concat(t, p) is Err);
    assert(p_addsub(t, p) is Err);
}

/// A sum that is wrong makes the whole expression wrong.
proof fn lemma_sum_fails(t: Seq<TokView>, p: int)
    requires
        c_addsub(t, p) is Err,
        operand_at(t, p),
    ensures
        c_comparison(t, p) is Err,
        c_ternary(t, p) is Err,
{
    assert(p_comparison(t, p) is Err);
    lemma_comparison_fails(t, p);
}

/// A comparison that is wrong makes the whole expression wrong.
proof fn lemma_comparison_fails(t: Seq<TokView>, p: int)
    requires
        c_comparison(t, p) is Err,
        !at_word(t, p, "not"@),
    ensures
        c_ternary(t, p) is Err,
{
    assert(p_not(t, p) is Err);
    assert(c_not(t, p) is Err);
    assert(p_and(t, p) is Err);
    assert(c_and(t, p) is Err);
    assert(p_or(t, p) is Err);
    assert(c_or(t, p) is Err);
    assert(p_ternary(t, p) is Err);
}

/// Nothing can be read behind the end.
proof fn lemma_end_fails(t: Seq<TokView>)
    ensures
        p_filter(t, t.len() as int) is Err,
        c_concat(t, t.len() as int) is Err,
        c_ternary(t, t.len() as int) is Err,
{
    let n = t.len() as int;
    assert(p_primary(t, n) is Err);
    assert(c_primary(t, n) is Err);
    assert(p_postfix(t, n) is Err);
    assert(c_postfix(t, n) is Err);
    lemma_filter_fails(t, n);
    lemma_sum_fails(t, n);
}

/// A filter that is not known is an error, whatever it is applied to and whatever follows.
pub proof fn law_unknown_filter(t: Seq<TokView>, p: int, e: AstView, q: int)
    requires
        operand_at(t, p),
        c_postfix(t, p) == Ok::<(AstView, int), Seq<char>>((e, q)),
        p < q < t.len() - 1,
        at_mark(t, q, Mark::Pipe),
        t[q + 1] matches TokView::Ident(n) && !known_filter(n),
    ensures
        c_ternary(t, p) is Err,
{
    assert(p_filter_rest(t, e, q) is Err);
    assert(p_filter(t, p) is Err);
    lemma_filter_fails(t, p);
    lemma_sum_fails(t, p);
}

/// A test other than `defined` and `undefined` is an error, whatever it is applied to and
/// whatever follows.
pub proof fn law_unknown_test(t: Seq<TokView>, p: int, e: AstView, q: int)
    requires
        operand_at(t, p),
        c_addsub(t, p) == Ok::<(AstView, int), Seq<char>>((e, q)),
        p < q <= t.len(),
        at_word(t, q, "is"@),
        !at_word(t, q + 1, "not"@),
        !at_word(t, q + 1, "defined"@),
        !at_word(t, q + 1, "undefined"@),
    ensures
        c_ternary(t, p) is Err,
{
    assert(p_comparison(t, p) is Err);
    lemma_comparison_fails(t, p);
}

/// A sum or difference without a second operand is an error.
pub proof fn law_missing_operand(t: Seq<TokView>, p: int, e: AstView)
    requires
        operand_at(t, p),
        0 <= p < t.len() - 1,
        c_concat(t, p) == Ok::<(AstView, int), Seq<char>>((e, t.len() - 1)),
        at_mark(t, t.len() - 1, Mark::Plus) || at_mark(t, t.len() - 1, Mark::Minus),
    ensures
        c_ternary(t, p) is Err,
{
    lemma_end_fails(t);
    assert(c_concat(t, t.len() - 1 + 1) is Err);
    assert(p_addsub_rest(t, e, t.len() - 1) is Err);
    assert(p_addsub(t, p) is Err);
    lemma_sum_fails(t, p);
}

/// An `else` with nothing behind it is an error, whatever the body and the condition are.
pub proof fn law_missing_branch(t: Seq<TokView>, p: int, b: AstView, q: int, c: AstView)
    requires
        c_or(t, p) == Ok::<(AstView, int), Seq<char>>((b, q)),
        p < q < t.len() - 1,
        at_word(t, q, "if"@),
        c_or(t, q + 1) == Ok::<(AstView, int), Seq<char>>((c, t.len() - 1)),
        q + 1 < t.len() - 1,
        at_word(t, t.len() - 1, "else"@),
    ensures
        c_ternary(t, p) is Err,
{
    lemma_end_fails(t);
    assert(c_ternary(t, t.len() - 1 + 1) is Err);
    assert(p_ternary(t, p) is Err);
}

// ---------------------------------------------------------------------------------------
// Texts
// ---------------------------------------------------------------------------------------

/// A name: letters, digits and underscores, no digit first.
pub open spec fn is_name(x: Seq<char>) -> bool {
    &&& x.len() > 0
    &&& !is_digit(x[0])
    &&& forall|k: int|
        0 <= k < x.len() ==> is_letter(#[trigger] x[k]) || is_digit(x[k]) || x[k] == '_'
}

/// Nothing that a name could go on with stands at `q`.
pub open spec fn name_ends(s: Seq<char>, q: int) -> bool {
    q >= s.len() || !(is_alnum(s[q]) || s[q] == '_')
}

proof fn lemma_ident_end(s: Seq<char>, p: int, q: int)
    requires
        0 <= p <= q <= s.len(),
        forall|k: int| p <= k < q ==> is_alnum(#[trigger] s[k]) || s[k] == '_',
        name_ends(s, q),
    ensures
        ident_end(s, p) == q,
    decreases q - p,
{
    if p < q {
        lemma_ident_end(s, p + 1, q);
    }
}

/// A name in a text is a token.
pub(crate) proof fn lemma_name_token(s: Seq<char>, p: int, x: Seq<char>)
    requires
        0 <= p,
        p + x.len() <= s.len(),
        s.subrange(p, p + x.len()) == x,
        is_name(x),
        name_ends(s, p + x.len()),
    ensures
        tokens_from(s, p) == (match tokens_from(s, p + x.len()) {
            Ok(more) => Ok(seq![TokView::Ident(x)] + more),
            Err(e) => Err(e),
        }),
{
    let q = p + x.len();
    assert forall|k: int| p <= k < q implies is_letter(#[trigger] s[k]) || is_digit(s[k]) || s[k]
        == '_' by {
        assert(s[k] == s.subrange(p, q)[k - p]);
        assert(is_letter(x[k - p]) || is_digit(x[k - p]) || x[k - p] == '_');
    }
    assert(s[p] == s.subrange(p, q)[0]);
    assert forall|k: int| p <= k < q implies is_alnum(#[trigger] s[k]) || s[k] == '_' by {
        assert(is_letter(s[k]) || is_digit(s[k]) || s[k] == '_');
    }
    lemma_ident_end(s, p + 1, q);
    assert(is_letter(s[p]) || s[p] == '_');
    assert(mark_at(s, p) is None);
    assert(token_at(s, p) == Ok::<(TokView, int), Seq<char>>((TokView::Ident(x), q)));
}

/// White space in a text is passed over.
proof fn lemma_space_token(s: Seq<char>, p: int)
    requires
        0 <= p < s.len(),
        s[p] == ' ',
    ensures
        tokens_from(s, p) == tokens_from(s, p + 1),
{
}

// The productions by names that a proof looks into only where it says so.

#[verifier::opaque]
spec fn o_ternary(t: Seq<TokView>, p: int) -> Parsed {
    c_ternary(t, p)
}

#[verifier::opaque]
spec fn o_postfix(t: Seq<TokView>, p: int) -> Parsed {
    c_postfix(t, p)
}

#[verifier::opaque]
spec fn o_filter(t: Seq<TokView>, p: int) -> Parsed {
    c_filter(t, p)
}

#[verifier::opaque]
spec fn o_unary(t: Seq<TokView>, p: int) -> Parsed {
    c_unary(t, p)
}

#[verifier::opaque]
spec fn o_pow(t: Seq<TokView>, p: int) -> Parsed {
    c_pow(t, p)
}

#[verifier::opaque]
spec fn o_muldiv(t: Seq<TokView>, p: int) -> Parsed {
    c_muldiv(t, p)
}

#[verifier::opaque]
spec fn o_concat(t: Seq<TokView>, p: int) -> Parsed {
    c_concat(t, p)
}

#[verifier::opaque]
spec fn o_addsub(t: Seq<TokView>, p: int) -> Parsed {
    c_addsub(t, p)
}

#[verifier::opaque]
spec fn o_comparison(t: Seq<TokView>, p: int) -> Parsed {
    c_comparison(t, p)
}

#[verifier::opaque]
spec fn o_not(t: Seq<TokView>, p: int) -> Parsed {
    c_not(t, p)
}

#[verifier::opaque]
spec fn o_and(t: Seq<TokView>, p: int) -> Parsed {
    c_and(t, p)
}

#[verifier::opaque]
spec fn o_or(t: Seq<TokView>, p: int) -> Parsed {
    c_or(t, p)
}

/// A word that a mark or a bracket does not continue is an operand.
proof fn lemma_postfix(t: Seq<TokView>, p: int, x: Seq<char>)
    requires
        0 <= p < t.len(),
        t[p] == TokView::Ident(x),
        !at_mark(t, p + 1, Mark::Dot),
        !at_mark(t, p + 1, Mark::LBracket),
    ensures
        o_postfix(t, p) == Ok::<(AstView, int), Seq<char>>((word_meaning(x), p + 1)),
{
    reveal(o_postfix);
    let a = word_meaning(x);
    assert(p_primary(t, p) == Ok::<(AstView, int), Seq<char>>((a, p + 1)));
    assert(c_primary(t, p) == Ok::<(AstView, int), Seq<char>>((a, p + 1)));
    assert(p_postfix_rest(t, a, p + 1) == Ok::<(AstView, int), Seq<char>>((a, p + 1)));
    assert(p_postfix(t, p) == Ok::<(AstView, int), Seq<char>>((a, p + 1)));
}

proof fn lemma_filter_up(t: Seq<TokView>, p: int, a: AstView)
    requires
        0 <= p < t.len(),
        o_postfix(t, p) == Ok::<(AstView, int), Seq<char>>((a, p + 1)),
        !at_mark(t, p + 1, Mark::Pipe),
    ensures
        o_filter(t, p) == Ok::<(AstView, int), Seq<char>>((a, p + 1)),
{
    reveal(o_postfix);
    reveal(o_filter);
    assert(p_filter_rest(t, a, p + 1) == Ok::<(AstView, int), Seq<char>>((a, p + 1)));
    assert(p_filter(t, p) == Ok::<(AstView, int), Seq<char>>((a, p + 1)));
}

proof fn lemma_unary_up(t: Seq<TokView>, p: int, a: AstView)
    requires
        0 <= p < t.len(),
        o_filter(t, p) == Ok::<(AstView, int), Seq<char>>((a, p + 1)),
        !at_mark(t, p, Mark::Minus),
        !at_mark(t, p, Mark::Plus),
    ensures
        o_unary(t, p) == Ok::<(AstView, int), Seq<char>>((a, p + 1)),
{
    reveal(o_filter);
    reveal(o_unary);
    assert(p_unary(t, p) == Ok::<(AstView, int), Seq<char>>((a, p + 1)));
}

proof fn lemma_pow_up(t: Seq<TokView>, p: int, a: AstView)
    requires
        0 <= p < t.len(),
        o_unary(t, p) == Ok::<(AstView, int), Seq<char>>((a, p + 1)),
        !at_mark(t, p + 1, Mark::StarStar),
    ensures
        o_pow(t, p) == Ok::<(AstView, int), Seq<char>>((a, p + 1)),
{
    reveal(o_unary);
    reveal(o_pow);
    assert(p_pow(t, p) == Ok::<(AstView, int), Seq<char>>((a, p + 1)));
}

proof fn lemma_muldiv_up(t: Seq<TokView>, p: int, a: AstView)
    requires
        0 <= p < t.len(),
        o_pow(t, p) == Ok::<(AstView, int), Seq<char>>((a, p + 1)),
        product_mark(t, p + 1) is None,
    ensures
        o_muldiv(t, p) == Ok::<(AstView, int), Seq<char>>((a, p + 1)),
{
    reveal(o_pow);
    reveal(o_muldiv);
    assert(p_muldiv_rest(t, a, p + 1) == Ok::<(AstView, int), Seq<char>>((a, p + 1)));
    assert(p_muldiv(t, p) == Ok::<(AstView, int), Seq<char>>((a, p + 1)));
}

proof fn lemma_concat_up(t: Seq<TokView>, p: int, a: AstView)
    requires
        0 <= p < t.len(),
        o_muldiv(t, p) == Ok::<(AstView, int), Seq<char>>((a, p + 1)),
        !at_mark(t, p + 1, Mark::Tilde),
    ensures
        o_concat(t, p) == Ok::<(AstView, int), Seq<char>>((a, p + 1)),
{
    reveal(o_muldiv);
    reveal(o_concat);
    assert(p_concat_rest(t, a, p + 1) == Ok::<(AstView, int), Seq<char>>((a, p + 1)));
    assert(p_concat(t, p) == Ok::<(AstView, int), Seq<char>>((a, p + 1)));
}

proof fn lemma_addsub_up(t: Seq<TokView>, p: int, a: AstView)
    requires
        0 <= p < t.len(),
        o_concat(t, p) == Ok::<(AstView, int), Seq<char>>((a, p + 1)),
        !at_mark(t, p + 1, Mark::Plus),
        !at_mark(t, p + 1, Mark::Minus),
    ensures
        o_addsub(t, p) == Ok::<(AstView, int), Seq<char>>((a, p + 1)),
{
    reveal(o_concat);
    reveal(o_addsub);
    assert(p_addsub_rest(t, a, p + 1) == Ok::<(AstView, int), Seq<char>>((a, p + 1)));
    assert(p_addsub(t, p) == Ok::<(AstView, int), Seq<char>>((a, p + 1)));
}

proof fn lemma_comparison_up(t: Seq<TokView>, p: int, a: AstView)
    requires
        0 <= p < t.len(),
        o_addsub(t, p) == Ok::<(AstView, int), Seq<char>>((a, p + 1)),
        !at_word(t, p + 1, "is"@),
        !at_word(t, p + 1, "not"@),
        !at_word(t, p + 1, "in"@),
        compare_mark(t, p + 1) is None,
    ensures
        o_comparison(t, p) == Ok::<(AstView, int), Seq<char>>((a, p + 1)),
{
    reveal(o_addsub);
    reveal(o_comparison);
    assert(p_comparison(t, p) == Ok::<(AstView, int), Seq<char>>((a, p + 1)));
}

proof fn lemma_not_up(t: Seq<TokView>, p: int, a: AstView)
    requires
        0 <= p < t.len(),
        o_comparison(t, p) == Ok::<(AstView, int), Seq<char>>((a, p + 1)),
        !at_word(t, p, "not"@),
    ensures
        o_not(t, p) == Ok::<(AstView, int), Seq<char>>((a, p + 1)),
{
    reveal(o_comparison);
    reveal(o_not);
    assert(p_not(t, p) == Ok::<(AstView, int), Seq<char>>((a, p + 1)));
}

proof fn lemma_and_up(t: Seq<TokView>, p: int, a: AstView)
    requires
        0 <= p < t.len(),
        o_not(t, p) == Ok::<(AstView, int), Seq<char>>((a, p + 1)),
        !at_word(t, p + 1, "and"@),
    ensures
        o_and(t, p) == Ok::<(AstView, int), Seq<char>>((a, p + 1)),
{
    reveal(o_not);
    reveal(o_and);
    assert(p_and_rest(t, a, p + 1) == Ok::<(AstView, int), Seq<char>>((a, p + 1)));
    assert(p_and(t, p) == Ok::<(AstView, int), Seq<char>>((a, p + 1)));
}

proof fn lemma_or_up(t: Seq<TokView>, p: int, a: AstView)
    requires
        0 <= p < t.len(),
        o_and(t, p) == Ok::<(AstView, int), Seq<char>>((a, p + 1)),
        !at_word(t, p + 1, "or"@),
    ensures
        o_or(t, p) == Ok::<(AstView, int), Seq<char>>((a, p + 1)),
{
    reveal(o_and);
    reveal(o_or);
    assert(p_or_rest(t, a, p + 1) == Ok::<(AstView, int), Seq<char>>((a, p + 1)));
    assert(p_or(t, p) == Ok::<(AstView, int), Seq<char>>((a, p + 1)));
}

/// A word that stands alone, before the end, a word or a sign, is a product.
proof fn lemma_word_product(t: Seq<TokView>, p: int, x: Seq<char>)
    requires
        0 <= p < t.len(),
        t[p] == TokView::Ident(x),
        x != "not"@,
        p + 1 < t.len() ==> t[p + 1] is Ident || t[p + 1] == TokView::Mark(Mark::Plus),
    ensures
        o_concat(t, p) == Ok::<(AstView, int), Seq<char>>((word_meaning(x), p + 1)),
{
    let a = word_meaning(x);
    lemma_postfix(t, p, x);
    lemma_filter_up(t, p, a);
    lemma_unary_up(t, p, a);
    lemma_pow_up(t, p, a);
    lemma_muldiv_up(t, p, a);
    lemma_concat_up(t, p, a);
}

/// A word before a word that joins nothing is a disjunction.
proof fn lemma_word_or(t: Seq<TokView>, p: int, x: Seq<char>, w: Seq<char>)
    requires
        0 <= p < t.len() - 1,
        t[p] == TokView::Ident(x),
        x != "not"@,
        t[p + 1] == TokView::Ident(w),
        w != "is"@,
        w != "not"@,
        w != "in"@,
        w != "and"@,
        w != "or"@,
    ensures
        o_or(t, p) == Ok::<(AstView, int), Seq<char>>((word_meaning(x), p + 1)),
{
    let a = word_meaning(x);
    lemma_word_product(t, p, x);
    lemma_addsub_up(t, p, a);
    lemma_comparison_up(t, p, a);
    lemma_not_up(t, p, a);
    lemma_and_up(t, p, a);
    lemma_or_up(t, p, a);
}

/// A text that starts with a name and a space, from its tokens behind them.
proof fn lemma_name_first(s: Seq<char>, p: int, x: Seq<char>)
    requires
        0 <= p,
        p + x.len() < s.len(),
        s.subrange(p, p + x.len()) == x,
        s[p + x.len()] == ' ',
        is_name(x),
    ensures
        tokens_from(s, p) == (match tokens_from(s, p + x.len() + 1) {
            Ok(more) => Ok(seq![TokView::Ident(x)] + more),
            Err(e) => Err(e),
        }),
{
    lemma_name_token(s, p, x);
    lemma_space_token(s, p + x.len());
}

/// A filter that is not known is an error: `x | f`.
pub proof fn law_unknown_filter_text(x: Seq<char>, f: Seq<char>)
    requires
        is_name(x),
        is_name(f),
        x != "not"@,
        !known_filter(f),
    ensures
        parsed(x + seq![' ', '|', ' '] + f) is Err,
{
    let s = x + seq![' ', '|', ' '] + f;
    let n = x.len() as int;
    assert(s.subrange(0, n) =~= x);
    lemma_name_first(s, 0, x);
    assert(s[n + 1] == '|');
    assert(token_at(s, n + 1) == Ok::<(TokView, int), Seq<char>>(
        (TokView::Mark(Mark::Pipe), n + 2),
    ));
    lemma_space_token(s, n + 2);
    assert(s.subrange(n + 3, n + 3 + f.len()) =~= f);
    lemma_name_token(s, n + 3, f);
    assert(tokens_from(s, s.len() as int) == Ok::<Seq<TokView>, Seq<char>>(Seq::empty()));
    let t = seq![TokView::Ident(x)] + (seq![TokView::Mark(Mark::Pipe)] + (seq![TokView::Ident(f)]
        + Seq::empty()));
    assert(tokens_from(s, 0) == Ok::<Seq<TokView>, Seq<char>>(t));
    assert(t[0] == TokView::Ident(x) && t[1] == TokView::Mark(Mark::Pipe) && t[2]
        == TokView::Ident(f));
    lemma_postfix(t, 0, x);
    lemma_filter_after(t, word_meaning(x), f);
    lemma_unparsed(s, t);
}

proof fn lemma_filter_after(t: Seq<TokView>, a: AstView, f: Seq<char>)
    requires
        t.len() == 3,
        operand_at(t, 0),
        o_postfix(t, 0) == Ok::<(AstView, int), Seq<char>>((a, 1)),
        t[1] == TokView::Mark(Mark::Pipe),
        t[2] == TokView::Ident(f),
        !known_filter(f),
    ensures
        o_ternary(t, 0) is Err,
{
    reveal(o_postfix);
    reveal(o_ternary);
    law_unknown_filter(t, 0, a, 1);
}

/// A sum without a second operand is an error: `x +`.
pub proof fn law_missing_operand_text(x: Seq<char>)
    requires
        is_name(x),
        x != "not"@,
    ensures
        parsed(x + seq![' ', '+']) is Err,
{
    let s = x + seq![' ', '+'];
    let n = x.len() as int;
    assert(s.subrange(0, n) =~= x);
    lemma_name_first(s, 0, x);
    assert(s[n + 1] == '+');
    assert(token_at(s, n + 1) == Ok::<(TokView, int), Seq<char>>(
        (TokView::Mark(Mark::Plus), n + 2),
    ));
    assert(tokens_from(s, s.len() as int) == Ok::<Seq<TokView>, Seq<char>>(Seq::empty()));
    let t = seq![TokView::Ident(x)] + (seq![TokView::Mark(Mark::Plus)] + Seq::empty());
    assert(tokens_from(s, 0) == Ok::<Seq<TokView>, Seq<char>>(t));
    assert(t[0] == TokView::Ident(x) && t[1] == TokView::Mark(Mark::Plus));
    lemma_word_product(t, 0, x);
    lemma_sign_after(t, word_meaning(x));
    lemma_unparsed(s, t);
}

proof fn lemma_sign_after(t: Seq<TokView>, a: AstView)
    requires
        t.len() == 2,
        operand_at(t, 0),
        o_concat(t, 0) == Ok::<(AstView, int), Seq<char>>((a, 1)),
        t[1] == TokView::Mark(Mark::Plus),
    ensures
        o_ternary(t, 0) is Err,
{
    reveal(o_concat);
    reveal(o_ternary);
    law_missing_operand(t, 0, a);
}

/// A test that is not known is an error, whatever is behind it: `x is w...`.
pub proof fn law_unknown_test_text(x: Seq<char>, w: Seq<char>, tail: Seq<char>)
    requires
        is_name(x),
        is_name(w),
        x != "not"@,
        w != "not"@,
        w != "defined"@,
        w != "undefined"@,
        name_ends(tail, 0),
    ensures
        parsed(x + seq![' ', 'i', 's', ' '] + w + tail) is Err,
{
    reveal_strlit("is");
    let s = x + seq![' ', 'i', 's', ' '] + w + tail;
    let n = x.len() as int;
    let q = n + 4 + w.len();
    assert(s.subrange(0, n) =~= x);
    lemma_name_first(s, 0, x);
    assert(s.subrange(n + 1, n + 3) =~= "is"@);
    lemma_name_first(s, n + 1, "is"@);
    assert(s.subrange(n + 4, q) =~= w);
    assert(name_ends(s, q)) by {
        if q < s.len() {
            assert(s[q] == tail[0]);
        }
    }
    lemma_name_token(s, n + 4, w);
    if let Ok(more) = tokens_from(s, q) {
        let t = seq![TokView::Ident(x)] + (seq![TokView::Ident("is"@)] + (seq![TokView::Ident(w)]
            + more));
        assert(tokens_from(s, 0) == Ok::<Seq<TokView>, Seq<char>>(t));
        assert(t[0] == TokView::Ident(x) && t[1] == TokView::Ident("is"@) && t[2]
            == TokView::Ident(w));
        lemma_test_fails(t, x, w);
        lemma_unparsed(s, t);
    } else {
        assert(parsed(s) is Err);
    }
}

/// The tokens of a word, `is`, and a word that is no test.
proof fn lemma_test_fails(t: Seq<TokView>, x: Seq<char>, w: Seq<char>)
    requires
        t.len() >= 3,
        t[0] == TokView::Ident(x),
        t[1] == TokView::Ident("is"@),
        t[2] == TokView::Ident(w),
        x != "not"@,
        w != "not"@,
        w != "defined"@,
        w != "undefined"@,
    ensures
        o_ternary(t, 0) is Err,
{
    lemma_word_product(t, 0, x);
    lemma_addsub_up(t, 0, word_meaning(x));
    lemma_test_after(t, word_meaning(x));
}

proof fn lemma_test_after(t: Seq<TokView>, a: AstView)
    requires
        t.len() >= 3,
        t[0] is Ident,
        !at_word(t, 0, "not"@),
        at_word(t, 1, "is"@),
        !at_word(t, 2, "not"@),
        !at_word(t, 2, "defined"@),
        !at_word(t, 2, "undefined"@),
        o_addsub(t, 0) == Ok::<(AstView, int), Seq<char>>((a, 1)),
    ensures
        o_ternary(t, 0) is Err,
{
    reveal(o_addsub);
    reveal(o_ternary);
    law_unknown_test(t, 0, a, 1);
}

/// A text whose tokens are no expression does not parse.
proof fn lemma_unparsed(s: Seq<char>, t: Seq<TokView>)
    requires
        tokens_from(s, 0) == Ok::<Seq<TokView>, Seq<char>>(t),
        o_ternary(t, 0) is Err,
    ensures
        parsed(s) is Err,
{
    reveal(o_ternary);
}

/// An `else` with nothing behind it is an error: `x if y else`.
pub proof fn law_missing_branch_text(x: Seq<char>, y: Seq<char>)
    requires
        is_name(x),
        is_name(y),
        x != "not"@,
        y != "not"@,
    ensures
        parsed(x + seq![' ', 'i', 'f', ' '] + y + seq![' ', 'e', 'l', 's', 'e']) is Err,
{
    reveal_strlit("if");
    reveal_strlit("else");
    reveal_strlit("is");
    reveal_strlit("not");
    reveal_strlit("in");
    reveal_strlit("and");
    reveal_strlit("or");
    assert("if"@[1] == 'f' && "is"@[1] == 's' && "in"@[1] == 'n' && "not"@.len() == 3 && "and"@.len()
        == 3 && "or"@[0] == 'o' && "if"@[0] == 'i' && "else"@.len() == 4 && "if"@.len() == 2
        && "is"@.len() == 2 && "in"@.len() == 2 && "or"@.len() == 2);
    let s = x + seq![' ', 'i', 'f', ' '] + y + seq![' ', 'e', 'l', 's', 'e'];
    let n = x.len() as int;
    let q = n + 4 + y.len();
    assert(s.subrange(0, n) =~= x);
    lemma_name_first(s, 0, x);
    assert(s.subrange(n + 1, n + 3) =~= "if"@);
    lemma_name_first(s, n + 1, "if"@);
    assert(s.subrange(n + 4, q) =~= y);
    lemma_name_first(s, n + 4, y);
    assert(s.subrange(q + 1, q + 5) =~= "else"@);
    lemma_name_token(s, q + 1, "else"@);
    assert(tokens_from(s, s.len() as int) == Ok::<Seq<TokView>, Seq<char>>(Seq::empty()));
    let t = seq![TokView::Ident(x)] + (seq![TokView::Ident("if"@)] + (seq![TokView::Ident(y)] + (
    seq![TokView::Ident("else"@)] + Seq::empty())));
    assert(tokens_from(s, 0) == Ok::<Seq<TokView>, Seq<char>>(t));
    assert(t.len() == 4);
    assert(t[0] == TokView::Ident(x) && t[1] == TokView::Ident("if"@) && t[2] == TokView::Ident(y)
        && t[3] == TokView::Ident("else"@));
    lemma_word_or(t, 0, x, "if"@);
    lemma_word_or(t, 2, y, "else"@);
    lemma_branch_after(t, word_meaning(x), word_meaning(y));
    lemma_unparsed(s, t);
}

proof fn lemma_branch_after(t: Seq<TokView>, a: AstView, b: AstView)
    requires
        t.len() == 4,
        o_or(t, 0) == Ok::<(AstView, int), Seq<char>>((a, 1)),
        at_word(t, 1, "if"@),
        o_or(t, 2) == Ok::<(AstView, int), Seq<char>>((b, 3)),
        at_word(t, 3, "else"@),
    ensures
        o_ternary(t, 0) is Err,
{
    reveal(o_or);
    reveal(o_ternary);
    law_missing_branch(t, 0, a, 1, b);
}

/// A conditional without a condition.
proof fn lemma_ternary_up(t: Seq<TokView>, p: int, a: AstView)
    requires
        0 <= p < t.len(),
        o_or(t, p) == Ok::<(AstView, int), Seq<char>>((a, p + 1)),
        !at_word(t, p + 1, "if"@),
    ensures
        o_ternary(t, p) == Ok::<(AstView, int), Seq<char>>((a, p + 1)),
{
    reveal(o_or);
    reveal(o_ternary);
    assert(p_ternary(t, p) == Ok::<(AstView, int), Seq<char>>((a, p + 1)));
}

proof fn lemma_one_word(t: Seq<TokView>, x: Seq<char>)
    requires
        t.len() == 1,
        t[0] == TokView::Ident(x),
        x != "not"@,
    ensures
        o_ternary(t, 0) == Ok::<(AstView, int), Seq<char>>((word_meaning(x), 1)),
{
    let a = word_meaning(x);
    lemma_word_product(t, 0, x);
    lemma_addsub_up(t, 0, a);
    lemma_comparison_up(t, 0, a);
    lemma_not_up(t, 0, a);
    lemma_and_up(t, 0, a);
    lemma_or_up(t, 0, a);
    lemma_ternary_up(t, 0, a);
}

proof fn lemma_parsed(s: Seq<char>, t: Seq<TokView>, a: AstView)
    requires
        tokens_from(s, 0) == Ok::<Seq<TokView>, Seq<char>>(t),
        o_ternary(t, 0) == Ok::<(AstView, int), Seq<char>>((a, t.len() as int)),
    ensures
        parsed(s) == Ok::<AstView, Seq<char>>(a),
{
    reveal(o_ternary);
}

/// A name on its own is the constant or the variable of that name.
pub proof fn law_name_alone(x: Seq<char>)
    requires
        is_name(x),
        x != "not"@,
    ensures
        parsed(x) == Ok::<AstView, Seq<char>>(word_meaning(x)),
{
    assert(x.subrange(0, x.len() as int) =~= x);
    lemma_name_token(x, 0, x);
    assert(tokens_from(x, x.len() as int) == Ok::<Seq<TokView>, Seq<char>>(Seq::empty()));
    let t = seq![TokView::Ident(x)] + Seq::empty();
    assert(t[0] == TokView::Ident(x));
    lemma_one_word(t, x);
    lemma_parsed(x, t, word_meaning(x));
}

} // verus!
